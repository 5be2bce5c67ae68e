//! Text as sequences of characters, and the patterns that compiler messages
//! and symbol paths are matched against.

use vstd::prelude::*;
use vstd::string::*;

verus! {

/// `message` begins with `start`, ends with `end`, and the two do not overlap.
pub open spec fn is_framed(start: Seq<char>, message: Seq<char>, end: Seq<char>) -> bool {
    &&& start.len() + end.len() <= message.len()
    &&& start.is_prefix_of(message)
    &&& end.is_suffix_of(message)
}

/// What stands between `start` and `end` in a framed `message`.
pub open spec fn framed_part(start: Seq<char>, message: Seq<char>, end: Seq<char>) -> Seq<char> {
    message.subrange(start.len() as int, message.len() - end.len())
}

/// A message is framed exactly when it is `start`, then some text, then `end`;
/// the text is then the framed part.
pub proof fn lemma_framed_is_concatenation(start: Seq<char>, message: Seq<char>, end: Seq<char>)
    ensures
        is_framed(start, message, end) <==> exists|part: Seq<char>|
            message == start + part + end,
        is_framed(start, message, end) ==> message == start + framed_part(start, message, end)
            + end,
        forall|part: Seq<char>|
            message == start + part + end ==> part == framed_part(start, message, end),
{
    if is_framed(start, message, end) {
        let part = framed_part(start, message, end);
        assert(message =~= start + part + end);
    }
    assert forall|part: Seq<char>| message == start + part + end implies is_framed(
        start,
        message,
        end,
    ) && part == framed_part(start, message, end) by {
        assert(start =~= message.subrange(0, start.len() as int));
        assert(end =~= message.subrange(message.len() - end.len(), message.len() as int));
        assert(part =~= framed_part(start, message, end));
    }
}

/// The characters of `s`, in order.
pub fn chars_of(s: &str) -> (v: Vec<char>)
    ensures
        v@ == s@,
{
    let mut v: Vec<char> = Vec::new();
    for c in it: s.chars()
        invariant
            it.seq() == s@,
            v@ == it.seq().take(it.index()),
    {
        v.push(c);
    }
    v
}

/// `pattern` stands in `text` at position `at`.
pub open spec fn occurs(text: Seq<char>, at: int, pattern: Seq<char>) -> bool {
    &&& 0 <= at
    &&& at + pattern.len() <= text.len()
    &&& text.subrange(at, at + pattern.len()) == pattern
}

/// Whether `pattern` stands in `text` at position `at`.
pub fn occurs_at(text: &Vec<char>, at: usize, pattern: &Vec<char>) -> (r: bool)
    ensures
        r == occurs(text@, at as int, pattern@),
{
    if at > text.len() || pattern.len() > text.len() - at {
        return false;
    }
    let mut i: usize = 0;
    while i < pattern.len()
        invariant
            at + pattern@.len() <= text@.len() <= usize::MAX,
            i <= pattern@.len(),
            forall|k: int| 0 <= k < i ==> text@[at + k] == pattern@[k],
        decreases pattern@.len() - i,
    {
        if text[at + i] != pattern[i] {
            assert(text@.subrange(at as int, at + pattern@.len())[i as int] != pattern@[i as int]);
            return false;
        }
        i += 1;
    }
    assert(text@.subrange(at as int, at + pattern@.len()) =~= pattern@);
    true
}

/// Strips `start` from the front of `message` and `end` from its back.
///
/// Gives the text between them when `message` is `start`, some text, `end`,
/// and nothing when it is not.
pub fn extract<'a>(start: &'static str, message: &'a str, end: &'static str) -> (r: Option<
    &'a str,
>)
    ensures
        match r {
            Some(part) => message@ == start@ + part@ + end@,
            None => forall|part: Seq<char>| message@ != start@ + part + end@,
        },
        match r {
            Some(part) => is_framed(start@, message@, end@) && part@ == framed_part(
                start@,
                message@,
                end@,
            ),
            None => !is_framed(start@, message@, end@),
        },
{
    proof {
        lemma_framed_is_concatenation(start@, message@, end@);
    }
    let text = chars_of(message);
    let head = chars_of(start);
    let tail = chars_of(end);
    if head.len() > text.len() || tail.len() > text.len() - head.len() {
        return None;
    }
    if occurs_at(&text, 0, &head) && occurs_at(&text, text.len() - tail.len(), &tail) {
        Some(message.substring_char(head.len(), text.len() - tail.len()))
    } else {
        None
    }
}

/// The first position at which `pattern` stands in `text`, and the length of
/// `text` where it stands nowhere.
pub open spec fn first_occurrence(text: Seq<char>, pattern: Seq<char>) -> int
    decreases text.len(),
{
    if text.len() == 0 || occurs(text, 0, pattern) {
        0
    } else {
        1 + first_occurrence(text.skip(1), pattern)
    }
}

/// The parts into which `separator` divides `text`, read from the left: the
/// text before its first occurrence, then the parts of what follows it.
/// An empty separator divides nothing.
pub open spec fn pieces(text: Seq<char>, separator: Seq<char>) -> Seq<Seq<char>>
    decreases text.len(),
{
    let at = first_occurrence(text, separator);
    if separator.len() > 0 && 0 <= at && at + separator.len() <= text.len() {
        seq![text.take(at)] + pieces(text.skip(at + separator.len()), separator)
    } else {
        seq![text]
    }
}

/// An occurrence in what is left after skipping is an occurrence in the whole.
proof fn lemma_occurs_after_skip(text: Seq<char>, skipped: int, at: int, pattern: Seq<char>)
    requires
        0 <= skipped <= text.len(),
        0 <= at,
    ensures
        occurs(text.skip(skipped), at, pattern) <==> occurs(text, skipped + at, pattern),
{
    if at + pattern.len() <= text.len() - skipped {
        assert(text.skip(skipped).subrange(at, at + pattern.len()) =~= text.subrange(
            skipped + at,
            skipped + at + pattern.len(),
        ));
    }
}

/// The first occurrence is the position before which the pattern stands
/// nowhere and at which it stands, or at which the text ends.
proof fn lemma_first_occurrence_is(text: Seq<char>, pattern: Seq<char>, at: int)
    requires
        0 <= at <= text.len(),
        forall|k: int| 0 <= k < at ==> !occurs(text, k, pattern),
        occurs(text, at, pattern) || at == text.len(),
    ensures
        first_occurrence(text, pattern) == at,
    decreases at,
{
    if at > 0 {
        let rest = text.skip(1);
        assert forall|k: int| 0 <= k < at - 1 implies !occurs(rest, k, pattern) by {
            lemma_occurs_after_skip(text, 1, k, pattern);
        }
        lemma_occurs_after_skip(text, 1, at - 1, pattern);
        lemma_first_occurrence_is(rest, pattern, at - 1);
    }
}

/// Divides `text` at each occurrence of `separator`, found from the left.
pub fn split<'a>(text: &'a str, separator: &str) -> (parts: Vec<&'a str>)
    ensures
        parts.deep_view() == pieces(text@, separator@),
{
    let chars = chars_of(text);
    let pattern = chars_of(separator);
    let mut parts: Vec<&'a str> = Vec::new();
    if pattern.len() == 0 {
        parts.push(text);
        assert(parts.deep_view() =~= pieces(text@, separator@));
        return parts;
    }
    let n = chars.len();
    let mut start: usize = 0;
    let mut i: usize = 0;
    assert(text@.skip(0) =~= text@);
    assert(parts.deep_view() + pieces(text@, separator@) =~= pieces(text@, separator@));
    while i < n
        invariant
            chars@ == text@,
            pattern@ == separator@,
            pattern@.len() > 0,
            start <= i <= n == chars@.len(),
            forall|k: int| start <= k < i ==> !occurs(text@, k, separator@),
            parts.deep_view() + pieces(text@.skip(start as int), separator@) == pieces(
                text@,
                separator@,
            ),
        decreases chars@.len() - i,
    {
        if occurs_at(&chars, i, &pattern) {
            proof {
                let rest = text@.skip(start as int);
                assert forall|k: int| 0 <= k < i - start implies !occurs(rest, k, separator@) by {
                    lemma_occurs_after_skip(text@, start as int, k, separator@);
                }
                lemma_occurs_after_skip(text@, start as int, i - start, separator@);
                lemma_first_occurrence_is(rest, separator@, i - start);
                assert(rest.take(i - start) =~= text@.subrange(start as int, i as int));
                assert(rest.skip(i - start + separator@.len()) =~= text@.skip(
                    i + separator@.len(),
                ));
            }
            let ghost before = parts.deep_view();
            parts.push(text.substring_char(start, i));
            assert(parts.deep_view() =~= before + seq![text@.subrange(start as int, i as int)]);
            assert(before + pieces(text@.skip(start as int), separator@) =~= parts.deep_view()
                + pieces(text@.skip(i + separator@.len()), separator@));
            start = i + pattern.len();
            i = start;
        } else {
            i += 1;
        }
    }
    proof {
        let rest = text@.skip(start as int);
        assert forall|k: int| 0 <= k < rest.len() implies !occurs(rest, k, separator@) by {
            lemma_occurs_after_skip(text@, start as int, k, separator@);
        }
        lemma_first_occurrence_is(rest, separator@, rest.len() as int);
        assert(rest =~= text@.subrange(start as int, chars@.len() as int));
    }
    let ghost before = parts.deep_view();
    parts.push(text.substring_char(start, n));
    assert(parts.deep_view() =~= before + seq![text@.subrange(start as int, chars@.len() as int)]);
    parts
}

/// The lines of `text` that hold at least one character.
pub open spec fn nonempty_lines(text: Seq<char>) -> Seq<Seq<char>> {
    pieces(text, "\n"@).filter(|line: Seq<char>| line.len() > 0)
}

/// The lines of `text`, without the empty ones.
pub fn lines_of<'a>(text: &'a str) -> (lines: Vec<&'a str>)
    ensures
        lines.deep_view() == nonempty_lines(text@),
{
    let parts = split(text, "\n");
    let ghost all = pieces(text@, "\n"@);
    let ghost keep = |line: Seq<char>| line.len() > 0;
    let mut lines: Vec<&'a str> = Vec::new();
    let mut i: usize = 0;
    assert(all.take(0) =~= Seq::empty());
    assert(lines.deep_view() =~= all.take(0).filter(keep)) by {
        reveal(Seq::filter);
    }
    while i < parts.len()
        invariant
            i <= parts.len(),
            parts.deep_view() == all,
            keep == |line: Seq<char>| line.len() > 0,
            lines.deep_view() == all.take(i as int).filter(keep),
        decreases parts.len() - i,
    {
        let part = parts[i];
        proof {
            assert(part@ == all[i as int]);
            all.lemma_take_succ_push(i as int);
            all.take(i as int).lemma_filter_push(all[i as int], keep);
        }
        if !part.is_empty() {
            let ghost before = lines.deep_view();
            lines.push(part);
            assert(lines.deep_view() =~= before.push(part@));
        }
        i += 1;
    }
    assert(all.take(parts.len() as int) =~= all);
    lines
}

/// The last of the parts into which `::` divides `path`.
pub open spec fn terminal_of(path: Seq<char>) -> Seq<char> {
    pieces(path, "::"@).last()
}

/// The identifier that `path` ends in: the last of the parts into which
/// `::` divides it, and the whole of it where it holds no `::`.
pub fn terminal<'a>(path: &'a str) -> (name: &'a str)
    ensures
        name@ == terminal_of(path@),
{
    let parts = split(path, "::");
    assert(parts.deep_view().len() >= 1);
    let name = parts[parts.len() - 1];
    assert(name@ == parts.deep_view()[parts.len() - 1]);
    name
}

/// White space as Unicode defines it (the characters that it marks
/// `White_Space`): the tab, the line feed, the vertical tab, the form feed,
/// the carriage return, the space, the next-line control, the no-break
/// space, the ogham space mark, the spaces of fixed width from the en quad
/// to the hair space, the line and the paragraph separator, the narrow
/// no-break space, the medium mathematical space and the ideographic space.
pub open spec fn is_white_space(c: char) -> bool {
    ||| '\u{9}' <= c <= '\u{d}'
    ||| c == ' '
    ||| c == '\u{85}'
    ||| c == '\u{a0}'
    ||| c == '\u{1680}'
    ||| '\u{2000}' <= c <= '\u{200a}'
    ||| c == '\u{2028}'
    ||| c == '\u{2029}'
    ||| c == '\u{202f}'
    ||| c == '\u{205f}'
    ||| c == '\u{3000}'
}

/// Whether `c` is white space.
pub fn white_space(c: char) -> (r: bool)
    ensures
        r == is_white_space(c),
{
    ('\u{9}' <= c && c <= '\u{d}') || c == ' ' || c == '\u{85}' || c == '\u{a0}' || c
        == '\u{1680}' || ('\u{2000}' <= c && c <= '\u{200a}') || c == '\u{2028}' || c
        == '\u{2029}' || c == '\u{202f}' || c == '\u{205f}' || c == '\u{3000}'
}

/// How many characters of white space `text` begins with.
pub open spec fn leading_space(text: Seq<char>) -> nat
    decreases text.len(),
{
    if text.len() > 0 && is_white_space(text[0]) {
        1 + leading_space(text.skip(1))
    } else {
        0
    }
}

/// How many characters of white space `text` ends with.
pub open spec fn trailing_space(text: Seq<char>) -> nat
    decreases text.len(),
{
    if text.len() > 0 && is_white_space(text.last()) {
        1 + trailing_space(text.drop_last())
    } else {
        0
    }
}

/// `text` without the white space at its two ends.
pub open spec fn trimmed(text: Seq<char>) -> Seq<char> {
    if leading_space(text) >= text.len() {
        Seq::empty()
    } else {
        text.subrange(leading_space(text) as int, text.len() - trailing_space(text))
    }
}

proof fn lemma_leading_space_is(text: Seq<char>, count: int)
    requires
        0 <= count <= text.len(),
        forall|k: int| 0 <= k < count ==> is_white_space(text[k]),
        count == text.len() || !is_white_space(text[count]),
    ensures
        leading_space(text) == count,
    decreases count,
{
    if count > 0 {
        lemma_leading_space_is(text.skip(1), count - 1);
    }
}

proof fn lemma_trailing_space_is(text: Seq<char>, count: int)
    requires
        0 <= count <= text.len(),
        forall|k: int| text.len() - count <= k < text.len() ==> is_white_space(text[k]),
        count == text.len() || !is_white_space(text[text.len() - 1 - count]),
    ensures
        trailing_space(text) == count,
    decreases count,
{
    if count > 0 {
        lemma_trailing_space_is(text.drop_last(), count - 1);
    }
}

/// Removes the white space at the two ends of `text`.
pub fn trim<'a>(text: &'a str) -> (r: &'a str)
    ensures
        r@ == trimmed(text@),
{
    let chars = chars_of(text);
    let n = chars.len();
    let mut from: usize = 0;
    while from < n && white_space(chars[from])
        invariant
            chars@ == text@,
            from <= n == chars@.len(),
            forall|k: int| 0 <= k < from ==> is_white_space(text@[k]),
        decreases n - from,
    {
        from += 1;
    }
    proof {
        lemma_leading_space_is(text@, from as int);
    }
    if from == n {
        let empty = text.substring_char(n, n);
        assert(empty@ =~= Seq::<char>::empty());
        return empty;
    }
    let mut to: usize = n;
    while to > from + 1 && white_space(chars[to - 1])
        invariant
            chars@ == text@,
            from < to <= n == chars@.len(),
            forall|k: int| to <= k < n ==> is_white_space(text@[k]),
        decreases to,
    {
        to -= 1;
    }
    proof {
        lemma_trailing_space_is(text@, n - to);
    }
    text.substring_char(from, to)
}

/// Whether two texts hold the same characters.
pub fn same_text(a: &str, b: &str) -> (r: bool)
    ensures
        r == (a@ == b@),
{
    let x = a.to_owned();
    let y = b.to_owned();
    x == y
}

/// What follows `prefix` in `text`, where `text` begins with it.
pub fn strip_prefix<'a>(prefix: &str, text: &'a str) -> (rest: Option<&'a str>)
    ensures
        match rest {
            Some(rest) => prefix@.is_prefix_of(text@) && rest@ == text@.skip(prefix@.len() as int),
            None => !prefix@.is_prefix_of(text@),
        },
{
    let chars = chars_of(text);
    let head = chars_of(prefix);
    if occurs_at(&chars, 0, &head) {
        Some(text.substring_char(head.len(), chars.len()))
    } else {
        None
    }
}

/// Owned copies of `parts`, in their order.
pub fn to_strings(parts: &Vec<&str>) -> (owned: Vec<String>)
    ensures
        owned.deep_view() == parts.deep_view(),
{
    let mut owned: Vec<String> = Vec::new();
    let mut i: usize = 0;
    while i < parts.len()
        invariant
            i <= parts.len(),
            owned.len() == i,
            forall|k: int| 0 <= k < i ==> owned[k]@ == parts[k]@,
        decreases parts.len() - i,
    {
        owned.push(parts[i].to_owned());
        i += 1;
    }
    assert(owned.deep_view() =~= parts.deep_view());
    owned
}

/// Copies of `items`, in their order.
pub fn copies(items: &Vec<String>) -> (copied: Vec<String>)
    ensures
        copied.deep_view() == items.deep_view(),
{
    let mut copied: Vec<String> = Vec::new();
    let mut i: usize = 0;
    while i < items.len()
        invariant
            i <= items.len(),
            copied.len() == i,
            forall|k: int| 0 <= k < i ==> copied[k]@ == items[k]@,
        decreases items.len() - i,
    {
        copied.push(items[i].clone());
        i += 1;
    }
    assert(copied.deep_view() =~= items.deep_view());
    copied
}

/// `line` without the carriage return that it ends in, if it ends in one.
pub open spec fn without_return(line: Seq<char>) -> Seq<char> {
    if line.len() > 0 && line.last() == '\r' {
        line.drop_last()
    } else {
        line
    }
}

/// The lines of `text`: what its line feeds divide it into, each line that a
/// line feed ends taken without the carriage return before that line feed.
/// What follows the last line feed is a line too, even when it is empty.
pub open spec fn lines(text: Seq<char>) -> Seq<Seq<char>> {
    let parts = pieces(text, "\n"@);
    Seq::new(
        parts.len(),
        |i: int|
            if i + 1 < parts.len() {
                without_return(parts[i])
            } else {
                parts[i]
            },
    )
}

/// The lines of `text`, line ends removed.
pub fn all_lines<'a>(text: &'a str) -> (found: Vec<&'a str>)
    ensures
        found.deep_view() == lines(text@),
{
    let parts = split(text, "\n");
    let mut found: Vec<&'a str> = Vec::new();
    let mut i: usize = 0;
    while i < parts.len()
        invariant
            i <= parts.len(),
            parts.deep_view() == pieces(text@, "\n"@),
            found.len() == i,
            forall|k: int| 0 <= k < i ==> (#[trigger] found[k])@ == lines(text@)[k],
        decreases parts.len() - i,
    {
        let part = parts[i];
        assert(part@ == parts.deep_view()[i as int]);
        let mut line = part;
        if i + 1 < parts.len() {
            let chars = chars_of(part);
            let n = chars.len();
            if n > 0 && chars[n - 1] == '\r' {
                line = part.substring_char(0, n - 1);
                assert(line@ =~= part@.drop_last());
            }
        }
        found.push(line);
        i += 1;
    }
    assert(found.deep_view() =~= lines(text@));
    found
}

} // verus!
