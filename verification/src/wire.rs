//! Diagnostics as the compiler writes them: one JSON value to a line.

use crate::diagnostic::{Child, ChildView, DiagnosticRecord, RecordView, Span, SpanView};
use crate::text::{all_lines, chars_of, lines};
use json::JsonValue;
use vstd::prelude::*;

verus! {

/// What a JSON value holds.
pub enum JsonTree {
    Null,
    Text(Seq<char>),
    Number,
    Flag(bool),
    List(Seq<JsonTree>),
    Record(Map<Seq<char>, JsonTree>),
}

impl JsonTree {
    /// The value under `key` of a record; null where the record has no such
    /// key and where this is no record.
    pub open spec fn field(self, key: Seq<char>) -> JsonTree {
        match self {
            JsonTree::Record(entries) => if entries.contains_key(key) {
                entries[key]
            } else {
                JsonTree::Null
            },
            _ => JsonTree::Null,
        }
    }

    /// The members of a list; none where this is no list.
    pub open spec fn members(self) -> Seq<JsonTree> {
        match self {
            JsonTree::List(items) => items,
            _ => Seq::empty(),
        }
    }

    /// The characters of a text; nothing where this is no text.
    pub open spec fn text(self) -> Option<Seq<char>> {
        match self {
            JsonTree::Text(chars) => Some(chars),
            _ => None,
        }
    }

    /// The characters of a text; none where this is no text.
    pub open spec fn text_or_empty(self) -> Seq<char> {
        match self {
            JsonTree::Text(chars) => chars,
            _ => Seq::empty(),
        }
    }
}

/// The type `JsonValue` of `json`. Nothing of a value is seen but through
/// the functions below.
#[verifier::external_type_specification]
#[verifier::external_body]
pub struct ExJsonValue(json::JsonValue);

/// The type `Error` of `json`.
#[verifier::external_type_specification]
#[verifier::external_body]
pub struct ExJsonError(json::Error);

/// What a `JsonValue` holds: its strings, short or long, as texts, its
/// booleans as flags, its arrays as lists, its objects as records of the
/// values under their keys; of a number only that it is one.
pub uninterp spec fn json_tree(value: JsonValue) -> JsonTree;

/// What `json::parse` reads from `source`: the content of the value that it
/// gives, and nothing where it gives an error.
pub uninterp spec fn parsed_json(source: Seq<char>) -> Option<JsonTree>;

/// The longest run of digits that a text may hold to be handed to
/// `json::parse`.
pub const DIGIT_RUN_LIMIT: usize = 32767;

/// One of the ten digits.
pub open spec fn is_digit(c: char) -> bool {
    '0' <= c <= '9'
}

/// The number of digits in a row that end just before position `end`.
pub open spec fn digit_run(text: Seq<char>, end: int) -> nat
    decreases end,
{
    if 0 < end <= text.len() && is_digit(text[end - 1]) {
        1 + digit_run(text, end - 1)
    } else {
        0
    }
}

/// No run of digits in `text` is longer than the limit.
pub open spec fn has_short_digit_runs(text: Seq<char>) -> bool {
    forall|end: int| 0 <= end <= text.len() ==> #[trigger] digit_run(text, end) <= DIGIT_RUN_LIMIT
}

/// Whether no run of digits in `text` is longer than the limit.
pub fn short_digit_runs(text: &str) -> (r: bool)
    ensures
        r == has_short_digit_runs(text@),
{
    let chars = chars_of(text);
    let mut run: usize = 0;
    let mut i: usize = 0;
    while i < chars.len()
        invariant
            i <= chars.len(),
            chars@ == text@,
            run == digit_run(text@, i as int),
            run <= DIGIT_RUN_LIMIT,
            forall|end: int| 0 <= end <= i ==> #[trigger] digit_run(text@, end) <= DIGIT_RUN_LIMIT,
        decreases chars.len() - i,
    {
        let c = chars[i];
        if '0' <= c && c <= '9' {
            run += 1;
        } else {
            run = 0;
        }
        i += 1;
        assert(run == digit_run(text@, i as int));
        if run > DIGIT_RUN_LIMIT {
            return false;
        }
    }
    true
}

/// `json::parse`. Trusted: the same text is read the same way every time;
/// the value that comes back holds what `parsed_json` names, and an error
/// comes back exactly where `parsed_json` names nothing. Texts with a long
/// run of digits are left out: the parser counts the digits of a fraction
/// in sixteen bits, without a check, and may panic on more than 32768 of
/// them.
pub assume_specification[ json::parse ](source: &str) -> (r: Result<JsonValue, json::Error>)
    requires
        has_short_digit_runs(source@),
    ensures
        match r {
            Ok(value) => parsed_json(source@) == Some(json_tree(value)),
            Err(_) => parsed_json(source@) is None,
        },
;

/// `JsonValue::as_str`. Trusted: it gives the characters of a string, and
/// nothing for a value of another kind.
pub assume_specification<'a>[ JsonValue::as_str ](value: &'a JsonValue) -> (r: Option<&'a str>)
    ensures
        r.deep_view() == json_tree(*value).text(),
;

/// `JsonValue::as_bool`. Trusted: it gives the flag of a boolean, and
/// nothing for a value of another kind.
pub assume_specification[ JsonValue::as_bool ](value: &JsonValue) -> (r: Option<bool>)
    ensures
        match r {
            Some(flag) => json_tree(*value) == JsonTree::Flag(flag),
            None => !(json_tree(*value) is Flag),
        },
;

/// `JsonValue::is_null`. Trusted: it tells whether the value is null.
pub assume_specification[ JsonValue::is_null ](value: &JsonValue) -> (r: bool)
    ensures
        r == (json_tree(*value) is Null),
;

/// Indexes a `JsonValue` by a key, as its `Index<&str>` does. Trusted: it
/// gives the value under that key of an object, and a null value where the
/// object has no such key and where the value is no object.
#[verifier::external_body]
fn json_field<'a>(value: &'a JsonValue, key: &str) -> (r: &'a JsonValue)
    ensures
        json_tree(*r) == json_tree(*value).field(key@),
{
    &value[key]
}

/// Collects what `JsonValue::members` walks. Trusted: these are the members
/// of an array, in their order, and none for a value of another kind.
#[verifier::external_body]
fn json_members<'a>(value: &'a JsonValue) -> (r: Vec<&'a JsonValue>)
    ensures
        r@.len() == json_tree(*value).members().len(),
        forall|i: int|
            0 <= i < r@.len() ==> json_tree(*#[trigger] r@[i]) == json_tree(*value).members()[i],
{
    value.members().collect()
}

/// The span that a JSON value describes.
pub open spec fn span_of(tree: JsonTree) -> SpanView {
    SpanView {
        file_name: tree.field("file_name"@).text(),
        is_primary: tree.field("is_primary"@) == JsonTree::Flag(true),
        suggested_replacement: tree.field("suggested_replacement"@).text(),
    }
}

/// The note that a JSON value describes.
pub open spec fn child_of(tree: JsonTree) -> ChildView {
    ChildView {
        message: tree.field("message"@).text_or_empty(),
        spans: tree.field("spans"@).members().map_values(|span: JsonTree| span_of(span)),
    }
}

/// The diagnostic that a JSON value describes. What the value lacks, or
/// holds in another kind than expected, counts as absent.
pub open spec fn record_of(tree: JsonTree) -> RecordView {
    RecordView {
        has_code: !(tree.field("code"@) is Null),
        message: tree.field("message"@).text_or_empty(),
        spans: tree.field("spans"@).members().map_values(|span: JsonTree| span_of(span)),
        children: tree.field("children"@).members().map_values(|child: JsonTree| child_of(child)),
    }
}

fn text_or_empty(value: &JsonValue) -> (text: String)
    ensures
        text@ == json_tree(*value).text_or_empty(),
{
    match value.as_str() {
        Some(text) => text.to_owned(),
        None => String::new(),
    }
}

fn optional_text(value: &JsonValue) -> (text: Option<String>)
    ensures
        text.deep_view() == json_tree(*value).text(),
{
    match value.as_str() {
        Some(text) => Some(text.to_owned()),
        None => None,
    }
}

fn decode_span(value: &JsonValue) -> (span: Span)
    ensures
        span@ == span_of(json_tree(*value)),
{
    let is_primary = match json_field(value, "is_primary").as_bool() {
        Some(flag) => flag,
        None => false,
    };
    Span {
        file_name: optional_text(json_field(value, "file_name")),
        is_primary,
        suggested_replacement: optional_text(json_field(value, "suggested_replacement")),
    }
}

fn decode_spans(value: &JsonValue) -> (spans: Vec<Span>)
    ensures
        spans.deep_view() == json_tree(*value).members().map_values(
            |span: JsonTree| span_of(span),
        ),
{
    let items = json_members(value);
    let mut spans: Vec<Span> = Vec::new();
    let mut i: usize = 0;
    while i < items.len()
        invariant
            i <= items.len(),
            items@.len() == json_tree(*value).members().len(),
            forall|k: int|
                0 <= k < items@.len() ==> json_tree(*#[trigger] items@[k]) == json_tree(
                    *value,
                ).members()[k],
            spans.len() == i,
            forall|k: int|
                0 <= k < i ==> (#[trigger] spans[k])@ == span_of(json_tree(*value).members()[k]),
        decreases items.len() - i,
    {
        spans.push(decode_span(items[i]));
        i += 1;
    }
    assert(spans.deep_view() =~= json_tree(*value).members().map_values(
        |span: JsonTree| span_of(span),
    ));
    spans
}

fn decode_child(value: &JsonValue) -> (child: Child)
    ensures
        child@ == child_of(json_tree(*value)),
{
    Child {
        message: text_or_empty(json_field(value, "message")),
        spans: decode_spans(json_field(value, "spans")),
    }
}

fn decode_children(value: &JsonValue) -> (children: Vec<Child>)
    ensures
        children.deep_view() == json_tree(*value).members().map_values(
            |child: JsonTree| child_of(child),
        ),
{
    let items = json_members(value);
    let mut children: Vec<Child> = Vec::new();
    let mut i: usize = 0;
    while i < items.len()
        invariant
            i <= items.len(),
            items@.len() == json_tree(*value).members().len(),
            forall|k: int|
                0 <= k < items@.len() ==> json_tree(*#[trigger] items@[k]) == json_tree(
                    *value,
                ).members()[k],
            children.len() == i,
            forall|k: int|
                0 <= k < i ==> (#[trigger] children[k])@ == child_of(
                    json_tree(*value).members()[k],
                ),
        decreases items.len() - i,
    {
        children.push(decode_child(items[i]));
        i += 1;
    }
    assert(children.deep_view() =~= json_tree(*value).members().map_values(
        |child: JsonTree| child_of(child),
    ));
    children
}

/// Reads a diagnostic out of a JSON value.
pub fn decode(value: &JsonValue) -> (record: DiagnosticRecord)
    ensures
        record@ == record_of(json_tree(*value)),
{
    DiagnosticRecord {
        has_code: !json_field(value, "code").is_null(),
        message: text_or_empty(json_field(value, "message")),
        spans: decode_spans(json_field(value, "spans")),
        children: decode_children(json_field(value, "children")),
    }
}

/// The diagnostic that `line` holds, where `line` is JSON and has no long
/// run of digits.
pub open spec fn record_in(line: Seq<char>) -> Option<RecordView> {
    if has_short_digit_runs(line) {
        match parsed_json(line) {
            Some(tree) => Some(record_of(tree)),
            None => None,
        }
    } else {
        None
    }
}

/// Reads the diagnostic that `line` holds. A line that is no JSON holds
/// none, and a line with a run of more than `DIGIT_RUN_LIMIT` digits is
/// passed over unread.
pub fn read_record(line: &str) -> (record: Option<DiagnosticRecord>)
    ensures
        record.deep_view() == record_in(line@),
{
    if !short_digit_runs(line) {
        return None;
    }
    match json::parse(line) {
        Ok(value) => Some(decode(&value)),
        Err(_) => None,
    }
}

/// A line that may hold a diagnostic begins with a brace.
pub open spec fn is_record_line(line: Seq<char>) -> bool {
    line.len() > 0 && line[0] == '{'
}

/// The diagnostics in the compiler's error output: those of its lines that
/// begin with a brace, are JSON and have no long run of digits, in their
/// order.
pub open spec fn records_in(output: Seq<char>) -> Seq<RecordView> {
    lines(output).filter(|line: Seq<char>| is_record_line(line)).filter_map(
        |line: Seq<char>| record_in(line),
    )
}

fn begins_record(line: &str) -> (r: bool)
    ensures
        r == is_record_line(line@),
{
    let chars = chars_of(line);
    chars.len() > 0 && chars[0] == '{'
}

/// Reads the diagnostics out of the compiler's error output. Lines that do
/// not begin with a brace, lines that are no JSON, and lines with a run of
/// more than `DIGIT_RUN_LIMIT` digits are passed over.
pub fn diagnostics(output: &str) -> (records: Vec<DiagnosticRecord>)
    ensures
        records.deep_view() == records_in(output@),
{
    let found = all_lines(output);
    let ghost all = lines(output@);
    let ghost keep = |line: Seq<char>| is_record_line(line);
    let ghost read = |line: Seq<char>| record_in(line);
    let mut records: Vec<DiagnosticRecord> = Vec::new();
    let mut i: usize = 0;
    proof {
        reveal(Seq::filter);
        assert(all.take(0) =~= Seq::empty());
        assert(records.deep_view() =~= all.take(0).filter(keep).filter_map(read));
    }
    while i < found.len()
        invariant
            i <= found.len(),
            found.deep_view() == all,
            keep == |line: Seq<char>| is_record_line(line),
            read == |line: Seq<char>| record_in(line),
            records.deep_view() == all.take(i as int).filter(keep).filter_map(read),
        decreases found.len() - i,
    {
        let line = found[i];
        proof {
            assert(line@ == all[i as int]);
            all.lemma_take_succ_push(i as int);
            all.take(i as int).lemma_filter_push(all[i as int], keep);
        }
        if begins_record(line) {
            let ghost kept = all.take(i as int).filter(keep);
            proof {
                assert(kept.push(line@).drop_last() =~= kept);
            }
            match read_record(line) {
                Some(record) => {
                    let ghost before = records.deep_view();
                    records.push(record);
                    assert(records.deep_view() =~= before + seq![record@]);
                },
                None => {},
            }
        }
        i += 1;
    }
    assert(all.take(found.len() as int) =~= all);
    records
}

} // verus!
