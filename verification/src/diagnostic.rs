//! Compiler diagnostics, and the candidate fixes that they suggest.

use crate::text::{
    extract, framed_part, is_framed, lines_of, nonempty_lines, same_text, strip_prefix,
    to_strings, trim, trimmed,
};
use vstd::prelude::*;

verus! {

/// A place in a source file that a diagnostic points at.
#[derive(Debug, PartialEq, Eq)]
pub struct Span {
    /// The file that the place lies in, where the compiler names one.
    pub file_name: Option<String>,
    /// Whether this is the place that the diagnostic is about.
    pub is_primary: bool,
    /// The text that the compiler suggests to put there, where it suggests any.
    pub suggested_replacement: Option<String>,
}

/// A note attached to a diagnostic.
#[derive(Debug, PartialEq, Eq)]
pub struct Child {
    /// The note's message, empty where it has none.
    pub message: String,
    pub spans: Vec<Span>,
}

/// One message of the compiler.
#[derive(Debug, PartialEq, Eq)]
pub struct DiagnosticRecord {
    /// Whether the compiler classified the message with a code.
    pub has_code: bool,
    /// The message, empty where it has none.
    pub message: String,
    pub spans: Vec<Span>,
    pub children: Vec<Child>,
}

pub struct SpanView {
    pub file_name: Option<Seq<char>>,
    pub is_primary: bool,
    pub suggested_replacement: Option<Seq<char>>,
}

pub struct ChildView {
    pub message: Seq<char>,
    pub spans: Seq<SpanView>,
}

pub struct RecordView {
    pub has_code: bool,
    pub message: Seq<char>,
    pub spans: Seq<SpanView>,
    pub children: Seq<ChildView>,
}

impl View for Span {
    type V = SpanView;

    open spec fn view(&self) -> SpanView {
        SpanView {
            file_name: self.file_name.deep_view(),
            is_primary: self.is_primary,
            suggested_replacement: self.suggested_replacement.deep_view(),
        }
    }
}

impl DeepView for Span {
    type V = SpanView;

    open spec fn deep_view(&self) -> SpanView {
        self.view()
    }
}

impl View for Child {
    type V = ChildView;

    open spec fn view(&self) -> ChildView {
        ChildView { message: self.message@, spans: self.spans.deep_view() }
    }
}

impl DeepView for Child {
    type V = ChildView;

    open spec fn deep_view(&self) -> ChildView {
        self.view()
    }
}

impl View for DiagnosticRecord {
    type V = RecordView;

    open spec fn view(&self) -> RecordView {
        RecordView {
            has_code: self.has_code,
            message: self.message@,
            spans: self.spans.deep_view(),
            children: self.children.deep_view(),
        }
    }
}

impl DeepView for DiagnosticRecord {
    type V = RecordView;

    open spec fn deep_view(&self) -> RecordView {
        self.view()
    }
}

impl SpanView {
    /// The span names a file, and it is another one than `file`.
    pub open spec fn is_foreign_to(self, file: Seq<char>) -> bool {
        match self.file_name {
            Some(name) => name != file,
            None => false,
        }
    }

    /// The path that the suggested replacement imports: what stands between
    /// `use ` and `;` once the white space round them is gone.
    pub open spec fn suggestion(self) -> Option<Seq<char>> {
        match self.suggested_replacement {
            Some(text) => if is_framed("use "@, trimmed(text), ";"@) {
                Some(framed_part("use "@, trimmed(text), ";"@))
            } else {
                None
            },
            None => None,
        }
    }
}

impl ChildView {
    /// Some span of the note lies in another file than `file`.
    pub open spec fn is_foreign_to(self, file: Seq<char>) -> bool {
        exists|i: int| 0 <= i < self.spans.len() && (#[trigger] self.spans[i]).is_foreign_to(file)
    }

    /// The paths that the note's spans suggest to import, in their order.
    pub open spec fn suggestions(self) -> Seq<Seq<char>> {
        self.spans.filter_map(|span: SpanView| span.suggestion())
    }
}

impl RecordView {
    /// The record is unclassified and says that a macro was not found.
    pub open spec fn reports_missing_macro(self) -> bool {
        !self.has_code && is_framed("cannot find macro `"@, self.message, "` in this scope"@)
    }

    /// The message of the first note, empty where there is none.
    pub open spec fn first_note(self) -> Seq<char> {
        if self.children.len() > 0 {
            self.children[0].message
        } else {
            Seq::empty()
        }
    }

    /// What the first note of a missing macro offers: each line of a list of
    /// items, or the one macro.
    pub open spec fn macro_candidates(self) -> Seq<Seq<char>> {
        let note = self.first_note();
        if !self.reports_missing_macro() {
            Seq::empty()
        } else if "consider importing one of these items:"@.is_prefix_of(note) {
            nonempty_lines(note.skip("consider importing one of these items:"@.len() as int))
        } else if "consider importing this macro:\n"@.is_prefix_of(note) {
            seq![note.skip("consider importing this macro:\n"@.len() as int)]
        } else {
            Seq::empty()
        }
    }

    /// What the suggested replacements of all notes import, note by note.
    pub open spec fn replacement_candidates(self) -> Seq<Seq<char>> {
        self.children.flat_map(|child: ChildView| child.suggestions())
    }

    /// The candidates that the record yields: those of a missing macro,
    /// then those of the suggested replacements.
    pub open spec fn candidates(self) -> Seq<Seq<char>> {
        self.macro_candidates() + self.replacement_candidates()
    }

    /// The record is about `file` alone: no primary span and no span of a
    /// note names another file.
    pub open spec fn is_local_to(self, file: Seq<char>) -> bool {
        &&& forall|i: int|
            0 <= i < self.spans.len() ==> !((#[trigger] self.spans[i]).is_primary
                && self.spans[i].is_foreign_to(file))
        &&& forall|i: int|
            0 <= i < self.children.len() ==> !(#[trigger] self.children[i]).is_foreign_to(file)
    }

    /// What the record adds to a run on `file`: its candidates where it is
    /// about that file alone, and nothing where it is not.
    pub open spec fn contribution(self, file: Seq<char>) -> Seq<Seq<char>> {
        if self.is_local_to(file) {
            self.candidates()
        } else {
            Seq::empty()
        }
    }
}

impl Span {
    /// Whether the span names another file than `file`.
    pub fn is_foreign_to(&self, file: &str) -> (r: bool)
        ensures
            r == self@.is_foreign_to(file@),
    {
        match &self.file_name {
            Some(name) => !same_text(name.as_str(), file),
            None => false,
        }
    }

    /// The path that the suggested replacement imports, if it is an import.
    pub fn suggestion(&self) -> (r: Option<String>)
        ensures
            r.deep_view() == self@.suggestion(),
    {
        match &self.suggested_replacement {
            Some(text) => match extract("use ", trim(text.as_str()), ";") {
                Some(path) => Some(path.to_owned()),
                None => None,
            },
            None => None,
        }
    }
}

impl Child {
    /// Whether some span of the note names another file than `file`.
    pub fn is_foreign_to(&self, file: &str) -> (r: bool)
        ensures
            r == self@.is_foreign_to(file@),
    {
        let mut i: usize = 0;
        while i < self.spans.len()
            invariant
                i <= self.spans.len(),
                forall|k: int| 0 <= k < i ==> !(#[trigger] self@.spans[k]).is_foreign_to(file@),
            decreases self.spans.len() - i,
        {
            if self.spans[i].is_foreign_to(file) {
                assert(self@.spans[i as int].is_foreign_to(file@));
                return true;
            }
            i += 1;
        }
        false
    }

    /// The paths that the note's spans suggest to import.
    pub fn suggestions(&self) -> (r: Vec<String>)
        ensures
            r.deep_view() == self@.suggestions(),
    {
        let ghost spans = self@.spans;
        let ghost pick = |span: SpanView| span.suggestion();
        let mut found: Vec<String> = Vec::new();
        let mut i: usize = 0;
        assert(spans.take(0) =~= Seq::empty());
        assert(found.deep_view() =~= spans.take(0).filter_map(pick));
        while i < self.spans.len()
            invariant
                i <= self.spans.len(),
                spans == self@.spans,
                pick == |span: SpanView| span.suggestion(),
                found.deep_view() == spans.take(i as int).filter_map(pick),
            decreases self.spans.len() - i,
        {
            proof {
                spans.lemma_filter_map_take_succ(pick, i as int);
            }
            match self.spans[i].suggestion() {
                Some(path) => {
                    let ghost before = found.deep_view();
                    found.push(path);
                    assert(found.deep_view() =~= before + seq![path@]);
                },
                None => {},
            }
            i += 1;
        }
        assert(spans.take(self.spans.len() as int) =~= spans);
        found
    }
}

impl DiagnosticRecord {
    /// What the first note of a missing macro offers.
    pub fn macro_candidates(&self) -> (r: Vec<String>)
        ensures
            r.deep_view() == self@.macro_candidates(),
    {
        let none: Vec<String> = Vec::new();
        assert(none.deep_view() =~= Seq::<Seq<char>>::empty());
        if self.has_code {
            return none;
        }
        if extract("cannot find macro `", self.message.as_str(), "` in this scope").is_none() {
            return none;
        }
        if self.children.len() == 0 {
            proof {
                reveal_strlit("consider importing one of these items:");
                reveal_strlit("consider importing this macro:\n");
            }
            return none;
        }
        let note = self.children[0].message.as_str();
        assert(note@ == self@.first_note());
        match strip_prefix("consider importing one of these items:", note) {
            Some(list) => to_strings(&lines_of(list)),
            None => match strip_prefix("consider importing this macro:\n", note) {
                Some(item) => {
                    let mut one: Vec<String> = Vec::new();
                    one.push(item.to_owned());
                    assert(one.deep_view() =~= seq![item@]);
                    one
                },
                None => none,
            },
        }
    }

    /// What the suggested replacements of all notes import.
    pub fn replacement_candidates(&self) -> (r: Vec<String>)
        ensures
            r.deep_view() == self@.replacement_candidates(),
    {
        let ghost children = self@.children;
        let ghost each = |child: ChildView| child.suggestions();
        let mut found: Vec<String> = Vec::new();
        let mut i: usize = 0;
        assert(children.take(0) =~= Seq::empty());
        assert(found.deep_view() =~= children.take(0).flat_map(each));
        while i < self.children.len()
            invariant
                i <= self.children.len(),
                children == self@.children,
                each == |child: ChildView| child.suggestions(),
                found.deep_view() == children.take(i as int).flat_map(each),
            decreases self.children.len() - i,
        {
            proof {
                children.lemma_take_succ_push(i as int);
                children.take(i as int).lemma_flat_map_push(each, children[i as int]);
            }
            let mut more = self.children[i].suggestions();
            let ghost before = found.deep_view();
            let ghost added = more.deep_view();
            found.append(&mut more);
            assert(found.deep_view() =~= before + added);
            i += 1;
        }
        assert(children.take(self.children.len() as int) =~= children);
        found
    }

    /// Whether the record is about `file` alone.
    pub fn is_local_to(&self, file: &str) -> (r: bool)
        ensures
            r == self@.is_local_to(file@),
    {
        let mut i: usize = 0;
        while i < self.spans.len()
            invariant
                i <= self.spans.len(),
                forall|k: int|
                    0 <= k < i ==> !((#[trigger] self@.spans[k]).is_primary
                        && self@.spans[k].is_foreign_to(file@)),
            decreases self.spans.len() - i,
        {
            if self.spans[i].is_primary && self.spans[i].is_foreign_to(file) {
                assert(self@.spans[i as int].is_primary && self@.spans[i as int].is_foreign_to(
                    file@,
                ));
                return false;
            }
            i += 1;
        }
        let mut j: usize = 0;
        while j < self.children.len()
            invariant
                j <= self.children.len(),
                forall|k: int|
                    0 <= k < self.spans.len() ==> !((#[trigger] self@.spans[k]).is_primary
                        && self@.spans[k].is_foreign_to(file@)),
                forall|k: int| 0 <= k < j ==> !(#[trigger] self@.children[k]).is_foreign_to(file@),
            decreases self.children.len() - j,
        {
            if self.children[j].is_foreign_to(file) {
                assert(self@.children[j as int].is_foreign_to(file@));
                return false;
            }
            j += 1;
        }
        true
    }

    /// What the record adds to a run on `file`: its candidates where it is
    /// about that file alone, and nothing where it is not.
    pub fn contribution(&self, file: &str) -> (r: Vec<String>)
        ensures
            r.deep_view() == self@.contribution(file@),
    {
        if self.is_local_to(file) {
            error(self)
        } else {
            let none: Vec<String> = Vec::new();
            assert(none.deep_view() =~= Seq::<Seq<char>>::empty());
            none
        }
    }
}

/// The candidate fixes that a diagnostic suggests.
///
/// A record without a code that reports a missing macro yields what its
/// first note offers. Every record yields, after those, the paths that the
/// suggested replacements of its notes import. Nothing is left out for
/// occurring twice.
pub fn error(record: &DiagnosticRecord) -> (candidates: Vec<String>)
    ensures
        candidates.deep_view() == record@.candidates(),
{
    let mut candidates = record.macro_candidates();
    let mut more = record.replacement_candidates();
    let ghost first = candidates.deep_view();
    let ghost second = more.deep_view();
    candidates.append(&mut more);
    assert(candidates.deep_view() =~= first + second);
    candidates
}

/// A record yields the same candidates whenever it is read.
pub proof fn lemma_candidates_depend_on_record_alone(a: RecordView, b: RecordView)
    requires
        a == b,
    ensures
        a.candidates() == b.candidates(),
{
}

/// A record with a primary span in another file adds nothing to a run.
pub proof fn lemma_foreign_record_adds_nothing(record: RecordView, file: Seq<char>, i: int)
    requires
        0 <= i < record.spans.len(),
        record.spans[i].is_primary,
        record.spans[i].file_name is Some,
        record.spans[i].file_name != Some(file),
    ensures
        record.contribution(file) == Seq::<Seq<char>>::empty(),
{
    assert(record.spans[i].is_foreign_to(file));
}

} // verus!
