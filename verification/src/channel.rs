//! What passes between a build and the builds that it starts: the key under
//! which a unit's imports travel, the marker of a build that only observes,
//! and the argument that makes the compiler write its diagnostics as JSON.

use crate::candidates::CandidateSet;
use crate::text::{chars_of, strip_prefix};
use vstd::prelude::*;
use vstd::string::*;

verus! {

/// A letter of the Latin alphabet without accent, or a digit.
pub open spec fn is_ascii_alphanumeric(c: char) -> bool {
    ||| 'a' <= c <= 'z'
    ||| 'A' <= c <= 'Z'
    ||| '0' <= c <= '9'
}

/// Whether `c` is a letter of the Latin alphabet without accent, or a digit.
pub fn ascii_alphanumeric(c: char) -> (r: bool)
    ensures
        r == is_ascii_alphanumeric(c),
{
    ('a' <= c && c <= 'z') || ('A' <= c && c <= 'Z') || ('0' <= c && c <= '9')
}

/// The digit that stands for `n` in base sixteen.
pub open spec fn hex_digit(n: int) -> char {
    if n == 0 {
        '0'
    } else if n == 1 {
        '1'
    } else if n == 2 {
        '2'
    } else if n == 3 {
        '3'
    } else if n == 4 {
        '4'
    } else if n == 5 {
        '5'
    } else if n == 6 {
        '6'
    } else if n == 7 {
        '7'
    } else if n == 8 {
        '8'
    } else if n == 9 {
        '9'
    } else if n == 10 {
        'a'
    } else if n == 11 {
        'b'
    } else if n == 12 {
        'c'
    } else if n == 13 {
        'd'
    } else if n == 14 {
        'e'
    } else {
        'f'
    }
}

/// What is written for a character that a key cannot hold: an underscore,
/// then the character's number in six digits of base sixteen.
pub open spec fn escaped(c: char) -> Seq<char> {
    let n = c as int;
    seq![
        '_',
        hex_digit(n / 16 / 16 / 16 / 16 / 16 % 16),
        hex_digit(n / 16 / 16 / 16 / 16 % 16),
        hex_digit(n / 16 / 16 / 16 % 16),
        hex_digit(n / 16 / 16 % 16),
        hex_digit(n / 16 % 16),
        hex_digit(n % 16),
    ]
}

/// What is written for a character in a key: the character itself where it
/// is a letter or a digit, and else what it is escaped to.
pub open spec fn encoded(c: char) -> Seq<char> {
    if is_ascii_alphanumeric(c) {
        seq![c]
    } else {
        escaped(c)
    }
}

/// The key of the unit in `file`: a fixed prefix, then what is written for
/// each character of the file's path. It holds letters, digits and
/// underscores only.
pub open spec fn unit_key_of(file: Seq<char>) -> Seq<char> {
    "autoimport_"@ + file.flat_map(|c: char| encoded(c))
}

fn hex_text(n: u32) -> (text: &'static str)
    requires
        n < 16,
    ensures
        text@ == seq![hex_digit(n as int)],
{
    proof {
        reveal_strlit("0");
        reveal_strlit("1");
        reveal_strlit("2");
        reveal_strlit("3");
        reveal_strlit("4");
        reveal_strlit("5");
        reveal_strlit("6");
        reveal_strlit("7");
        reveal_strlit("8");
        reveal_strlit("9");
        reveal_strlit("a");
        reveal_strlit("b");
        reveal_strlit("c");
        reveal_strlit("d");
        reveal_strlit("e");
        reveal_strlit("f");
    }
    let text = if n == 0 {
        "0"
    } else if n == 1 {
        "1"
    } else if n == 2 {
        "2"
    } else if n == 3 {
        "3"
    } else if n == 4 {
        "4"
    } else if n == 5 {
        "5"
    } else if n == 6 {
        "6"
    } else if n == 7 {
        "7"
    } else if n == 8 {
        "8"
    } else if n == 9 {
        "9"
    } else if n == 10 {
        "a"
    } else if n == 11 {
        "b"
    } else if n == 12 {
        "c"
    } else if n == 13 {
        "d"
    } else if n == 14 {
        "e"
    } else {
        "f"
    };
    assert(text@ =~= seq![hex_digit(n as int)]);
    text
}

fn escape_into(key: &mut String, c: char)
    ensures
        final(key)@ == old(key)@ + escaped(c),
{
    let n = c as u32;
    proof {
        reveal_strlit("_");
    }
    key.append("_");
    key.append(hex_text(n / 16 / 16 / 16 / 16 / 16 % 16));
    key.append(hex_text(n / 16 / 16 / 16 / 16 % 16));
    key.append(hex_text(n / 16 / 16 / 16 % 16));
    key.append(hex_text(n / 16 / 16 % 16));
    key.append(hex_text(n / 16 % 16));
    key.append(hex_text(n % 16));
    assert(key@ =~= old(key)@ + escaped(c));
}

/// The key under which the imports of the unit in `file` travel.
pub fn unit_key(file: &str) -> (key: String)
    ensures
        key@ == unit_key_of(file@),
{
    let chars = chars_of(file);
    let ghost each = |c: char| encoded(c);
    let mut key = String::from_str("autoimport_");
    let mut i: usize = 0;
    proof {
        assert(file@.take(0) =~= Seq::empty());
        assert(key@ =~= "autoimport_"@ + file@.take(0).flat_map(each));
    }
    while i < chars.len()
        invariant
            i <= chars.len(),
            chars@ == file@,
            each == |c: char| encoded(c),
            key@ == "autoimport_"@ + file@.take(i as int).flat_map(each),
        decreases chars.len() - i,
    {
        proof {
            file@.lemma_take_succ_push(i as int);
            file@.take(i as int).lemma_flat_map_push(each, file@[i as int]);
        }
        let ghost before = key@;
        if ascii_alphanumeric(chars[i]) {
            key.append(file.substring_char(i, i + 1));
            assert(key@ =~= before + seq![file@[i as int]]);
        } else {
            escape_into(&mut key, chars[i]);
        }
        assert(key@ =~= "autoimport_"@ + (file@.take(i as int).flat_map(each) + encoded(
            file@[i as int],
        )));
        i += 1;
    }
    assert(file@.take(chars.len() as int) =~= file@);
    key
}

/// What is written for a path begins with what is written for its first
/// character, and goes on with what is written for the rest.
proof fn lemma_code_unfolds(file: Seq<char>)
    requires
        file.len() > 0,
    ensures
        file.flat_map(|c: char| encoded(c)) == encoded(file[0]) + file.skip(1).flat_map(
            |c: char| encoded(c),
        ),
{
    let each = |c: char| encoded(c);
    assert(file.map_values(each).drop_first() =~= file.skip(1).map_values(each));
}

proof fn lemma_hex_digit_is_told(i: int, j: int)
    requires
        0 <= i < 16,
        0 <= j < 16,
        hex_digit(i) == hex_digit(j),
    ensures
        i == j,
{
}

proof fn lemma_number_is_told(n: int, m: int)
    requires
        0 <= n < 0x1000000,
        0 <= m < 0x1000000,
        n % 16 == m % 16,
        n / 16 % 16 == m / 16 % 16,
        n / 16 / 16 % 16 == m / 16 / 16 % 16,
        n / 16 / 16 / 16 % 16 == m / 16 / 16 / 16 % 16,
        n / 16 / 16 / 16 / 16 % 16 == m / 16 / 16 / 16 / 16 % 16,
        n / 16 / 16 / 16 / 16 / 16 % 16 == m / 16 / 16 / 16 / 16 / 16 % 16,
    ensures
        n == m,
{
    let n1 = n / 16;
    let n2 = n1 / 16;
    let n3 = n2 / 16;
    let n4 = n3 / 16;
    let n5 = n4 / 16;
    let m1 = m / 16;
    let m2 = m1 / 16;
    let m3 = m2 / 16;
    let m4 = m3 / 16;
    let m5 = m4 / 16;
    assert(n5 == m5);
    assert(n4 == m4);
    assert(n3 == m3);
    assert(n2 == m2);
    assert(n1 == m1);
}

/// What a character is escaped to tells which character it was.
proof fn lemma_escaped_is_told(c: char, d: char)
    requires
        escaped(c) == escaped(d),
    ensures
        c == d,
{
    let n = c as int;
    let m = d as int;
    assert(escaped(c)[1] == escaped(d)[1]);
    assert(escaped(c)[2] == escaped(d)[2]);
    assert(escaped(c)[3] == escaped(d)[3]);
    assert(escaped(c)[4] == escaped(d)[4]);
    assert(escaped(c)[5] == escaped(d)[5]);
    assert(escaped(c)[6] == escaped(d)[6]);
    lemma_hex_digit_is_told(n % 16, m % 16);
    lemma_hex_digit_is_told(n / 16 % 16, m / 16 % 16);
    lemma_hex_digit_is_told(n / 16 / 16 % 16, m / 16 / 16 % 16);
    lemma_hex_digit_is_told(n / 16 / 16 / 16 % 16, m / 16 / 16 / 16 % 16);
    lemma_hex_digit_is_told(n / 16 / 16 / 16 / 16 % 16, m / 16 / 16 / 16 / 16 % 16);
    lemma_hex_digit_is_told(n / 16 / 16 / 16 / 16 / 16 % 16, m / 16 / 16 / 16 / 16 / 16 % 16);
    lemma_number_is_told(n, m);
}

/// What is written for a character tells which character it was, whatever
/// follows it.
proof fn lemma_encoded_is_told(c: char, rest: Seq<char>, d: char, other: Seq<char>)
    requires
        encoded(c) + rest == encoded(d) + other,
    ensures
        c == d,
        rest == other,
{
    let x = encoded(c) + rest;
    let y = encoded(d) + other;
    assert(encoded(c).len() == 1 || encoded(c).len() == 7);
    assert(encoded(d).len() == 1 || encoded(d).len() == 7);
    assert(x[0] == encoded(c)[0]);
    assert(y[0] == encoded(d)[0]);
    if is_ascii_alphanumeric(c) {
        assert(encoded(d)[0] == c);
        assert(is_ascii_alphanumeric(d));
        assert(rest =~= x.skip(1));
        assert(other =~= y.skip(1));
    } else {
        assert(encoded(d)[0] == '_');
        assert(!is_ascii_alphanumeric(d));
        assert(escaped(c) =~= x.take(7));
        assert(escaped(d) =~= y.take(7));
        lemma_escaped_is_told(c, d);
        assert(rest =~= x.skip(7));
        assert(other =~= y.skip(7));
    }
}

proof fn lemma_codes_differ(a: Seq<char>, b: Seq<char>)
    requires
        a.flat_map(|c: char| encoded(c)) == b.flat_map(|c: char| encoded(c)),
    ensures
        a == b,
    decreases a.len(),
{
    let each = |c: char| encoded(c);
    if a.len() > 0 {
        lemma_code_unfolds(a);
        assert(a.flat_map(each).len() > 0);
    }
    if b.len() > 0 {
        lemma_code_unfolds(b);
        assert(b.flat_map(each).len() > 0);
    }
    if a.len() > 0 && b.len() > 0 {
        lemma_encoded_is_told(a[0], a.skip(1).flat_map(each), b[0], b.skip(1).flat_map(each));
        lemma_codes_differ(a.skip(1), b.skip(1));
        assert(a =~= seq![a[0]] + a.skip(1));
        assert(b =~= seq![b[0]] + b.skip(1));
    } else {
        assert(a.len() == 0 && b.len() == 0);
        assert(a =~= b);
    }
}

/// A character that a key may hold: a letter, a digit or an underscore.
pub open spec fn is_key_char(c: char) -> bool {
    is_ascii_alphanumeric(c) || c == '_'
}

/// A key holds letters, digits and underscores only.
pub proof fn lemma_unit_key_is_plain(file: Seq<char>)
    ensures
        forall|k: int|
            0 <= k < unit_key_of(file).len() ==> is_key_char(#[trigger] unit_key_of(file)[k]),
    decreases file.len(),
{
    let each = |c: char| encoded(c);
    reveal_strlit("autoimport_");
    if file.len() > 0 {
        let front = file.drop_last();
        lemma_unit_key_is_plain(front);
        front.lemma_flat_map_push(each, file.last());
        assert(file =~= front.push(file.last()));
        assert(unit_key_of(file) =~= unit_key_of(front) + encoded(file.last()));
        assert forall|k: int| 0 <= k < unit_key_of(file).len() implies is_key_char(
            #[trigger] unit_key_of(file)[k],
        ) by {
            if k < unit_key_of(front).len() {
                assert(unit_key_of(file)[k] == unit_key_of(front)[k]);
            } else {
                assert(unit_key_of(file)[k] == encoded(file.last())[k - unit_key_of(front).len()]);
            }
        }
    } else {
        assert(file.flat_map(each) =~= Seq::<char>::empty());
        assert(unit_key_of(file) =~= "autoimport_"@);
    }
}

/// Two files have the same key only if they are the same file.
pub proof fn lemma_unit_keys_differ(a: Seq<char>, b: Seq<char>)
    requires
        unit_key_of(a) == unit_key_of(b),
    ensures
        a == b,
{
    let each = |c: char| encoded(c);
    let prefix = "autoimport_"@;
    assert(a.flat_map(each) =~= unit_key_of(a).skip(prefix.len() as int));
    assert(b.flat_map(each) =~= unit_key_of(b).skip(prefix.len() as int));
    lemma_codes_differ(a, b);
}

/// The key of the marker that a build only observes.
pub const OBSERVER_KEY: &'static str = "autoimport";

/// The value that the marker is set to.
pub const OBSERVER_VALUE: &'static str = "YES_SO_DONT_EVEN_TRY_ANYTHING";

/// The argument that makes the compiler write its diagnostics as JSON.
pub const FORMAT_ARGUMENT: &'static str = "--error-format=json";

/// `argument` chooses a format for the diagnostics.
pub open spec fn is_format_argument(argument: Seq<char>) -> bool {
    "--error-format="@.is_prefix_of(argument)
}

/// Whether `argument` chooses a format for the diagnostics, and so has to
/// give way to `FORMAT_ARGUMENT` when the build is started again.
pub fn overrides_format(argument: &str) -> (r: bool)
    ensures
        r == is_format_argument(argument@),
{
    strip_prefix("--error-format=", argument).is_some()
}

/// What a build does when it meets the annotation.
#[derive(Debug, PartialEq, Eq)]
pub enum Entry {
    /// A build further up has resolved the unit: hand out its imports.
    Cached(String),
    /// The build only observes: leave the unit as it is.
    PassThrough,
    /// Resolve the unit.
    Resolve,
}

pub enum EntryView {
    Cached(Seq<char>),
    PassThrough,
    Resolve,
}

impl View for Entry {
    type V = EntryView;

    open spec fn view(&self) -> EntryView {
        match self {
            Entry::Cached(text) => EntryView::Cached(text@),
            Entry::PassThrough => EntryView::PassThrough,
            Entry::Resolve => EntryView::Resolve,
        }
    }
}

/// Decides what a build does when it meets the annotation: `cached` is
/// what travels under the unit's key, `observing` whether the marker is set.
/// What travels under the key goes first.
pub fn enter(cached: Option<String>, observing: bool) -> (entry: Entry)
    ensures
        entry@ == match cached {
            Some(text) => EntryView::Cached(text@),
            None => if observing {
                EntryView::PassThrough
            } else {
                EntryView::Resolve
            },
        },
{
    match cached {
        Some(text) => Entry::Cached(text),
        None => if observing {
            Entry::PassThrough
        } else {
            Entry::Resolve
        },
    }
}

/// The units that a process has begun to resolve. Each may be claimed once.
pub struct OnceGuard {
    claimed: CandidateSet,
}

impl View for OnceGuard {
    type V = Seq<Seq<char>>;

    /// The files of the units claimed, oldest first.
    closed spec fn view(&self) -> Seq<Seq<char>> {
        self.claimed@
    }
}

impl OnceGuard {
    /// A guard with no unit claimed.
    pub fn new() -> (guard: OnceGuard)
        ensures
            guard@ == Seq::<Seq<char>>::empty(),
    {
        OnceGuard { claimed: CandidateSet::new() }
    }

    /// Claims the unit in `file`, and tells whether the claim holds: it does
    /// not where the unit was claimed before.
    pub fn claim(&mut self, file: &str) -> (granted: bool)
        ensures
            granted == !old(self)@.contains(file@),
            final(self)@ == if granted {
                old(self)@.push(file@)
            } else {
                old(self)@
            },
            final(self)@.no_duplicates(),
    {
        self.claimed.insert(file.to_owned())
    }
}

} // verus!
