//! The run on one compilation unit: what is accepted and what is excluded
//! from one attempt to the next, and when the run ends.

use crate::candidates::CandidateSet;
use crate::choice::{basis, basis_of, disambiguate, is_outcome, may_win, Basis};
use crate::diagnostic::{DiagnosticRecord, RecordView};
use crate::text::{copies, same_text, terminal, terminal_of};
use crate::wire::{diagnostics, records_in};
use vstd::prelude::*;

verus! {

/// The number of attempts after which a run ends, whatever it found.
pub const ATTEMPT_CAP: usize = 10;

/// What the driver asks for after an attempt.
#[derive(Debug, Clone, Copy, PartialEq, Eq)]
pub enum Verdict {
    /// The compiler succeeded: the whole build is done.
    Succeeded,
    /// Something was accepted: compile again with it.
    Retry,
    /// Nothing new came, or the attempts are used up: hand out what was accepted.
    Settled,
}

/// One choice of an attempt: which candidates ended in one identifier, which
/// of them was accepted, and how it was chosen.
#[derive(Debug, PartialEq, Eq)]
pub struct Resolution {
    /// The identifier that the candidates end in.
    pub ident: String,
    /// The candidates, in the order in which they were proposed.
    pub candidates: Vec<String>,
    /// The candidate that was accepted.
    pub winner: String,
    /// How the choice was made.
    pub how: Basis,
}

pub struct ResolutionView {
    pub ident: Seq<char>,
    pub candidates: Seq<Seq<char>>,
    pub winner: Seq<char>,
    pub how: Basis,
}

impl View for Resolution {
    type V = ResolutionView;

    open spec fn view(&self) -> ResolutionView {
        ResolutionView {
            ident: self.ident@,
            candidates: self.candidates.deep_view(),
            winner: self.winner@,
            how: self.how,
        }
    }
}

impl DeepView for Resolution {
    type V = ResolutionView;

    open spec fn deep_view(&self) -> ResolutionView {
        self.view()
    }
}

/// The candidates that `records` offer to a run on `file`, record by record.
pub open spec fn offered(records: Seq<RecordView>, file: Seq<char>) -> Seq<Seq<char>> {
    records.flat_map(|record: RecordView| record.contribution(file))
}

/// `items` without what occurred before: each item where it first stands.
pub open spec fn distinct(items: Seq<Seq<char>>) -> Seq<Seq<char>>
    decreases items.len(),
{
    if items.len() == 0 {
        items
    } else {
        let before = distinct(items.drop_last());
        if before.contains(items.last()) {
            before
        } else {
            before.push(items.last())
        }
    }
}

/// The proposed candidates that end in the identifier `name`, in their order.
pub open spec fn class_of(proposed: Seq<Seq<char>>, name: Seq<char>) -> Seq<Seq<char>> {
    proposed.filter(|c: Seq<char>| terminal_of(c) == name)
}

/// One of the first `until` proposed candidates ends in `name`.
pub open spec fn named_before(proposed: Seq<Seq<char>>, until: int, name: Seq<char>) -> bool {
    exists|j: int|
        0 <= j < until && j < proposed.len() && terminal_of(#[trigger] proposed[j]) == name
}

/// One of the accepted candidates ends in `name`.
pub open spec fn has_winner(accepted: Seq<Seq<char>>, name: Seq<char>) -> bool {
    exists|k: int| 0 <= k < accepted.len() && terminal_of(#[trigger] accepted[k]) == name
}

/// The proposed candidates whose identifier one of the first `until` names
/// are settled: each is accepted or rejected, and nothing else is; who is
/// accepted may win among those that end as it does; no two of the accepted
/// end alike; who is rejected ends as one of the accepted does.
pub open spec fn settled_until(
    proposed: Seq<Seq<char>>,
    until: int,
    accepted: Seq<Seq<char>>,
    rejected: Seq<Seq<char>>,
) -> bool {
    &&& forall|c: Seq<char>|
        #![trigger accepted.contains(c)]
        #![trigger rejected.contains(c)]
        #![trigger proposed.contains(c)]
        (accepted.contains(c) || rejected.contains(c)) <==> (proposed.contains(c)
            && named_before(proposed, until, terminal_of(c)))
    &&& forall|c: Seq<char>| #[trigger]
        accepted.contains(c) ==> may_win(class_of(proposed, terminal_of(c)), c)
    &&& forall|a: Seq<char>, b: Seq<char>|
        #![trigger accepted.contains(a), accepted.contains(b)]
        accepted.contains(a) && accepted.contains(b) && terminal_of(a) == terminal_of(b) ==> a
            == b
    &&& forall|c: Seq<char>| #[trigger]
        rejected.contains(c) ==> has_winner(accepted, terminal_of(c))
}

/// What was proposed is settled: each candidate is accepted or rejected,
/// and nothing else is; who is accepted may win among those that end as it
/// does; no two of the accepted end alike; who is rejected ends as one of
/// the accepted does.
pub open spec fn settles(
    proposed: Seq<Seq<char>>,
    accepted: Seq<Seq<char>>,
    rejected: Seq<Seq<char>>,
) -> bool {
    settled_until(proposed, proposed.len() as int, accepted, rejected)
}

/// The members of a class are the proposed candidates that end in its name.
proof fn lemma_class_members(proposed: Seq<Seq<char>>, name: Seq<char>)
    ensures
        forall|c: Seq<char>|
            #![trigger class_of(proposed, name).contains(c)]
            class_of(proposed, name).contains(c) <==> (proposed.contains(c) && terminal_of(c)
                == name),
{
    let same = |c: Seq<char>| terminal_of(c) == name;
    let class = class_of(proposed, name);
    assert forall|c: Seq<char>| class.contains(c) implies proposed.contains(c) && terminal_of(c)
        == name by {
        proposed.lemma_filter_contains_rev(same, c);
        let j = choose|j: int| 0 <= j < class.len() && class[j] == c;
        proposed.lemma_filter_pred(same, j);
    }
    assert forall|c: Seq<char>|
        proposed.contains(c) && terminal_of(c) == name implies class.contains(c) by {
        let i = choose|i: int| 0 <= i < proposed.len() && proposed[i] == c;
        proposed.lemma_filter_contains(same, i);
    }
}

/// One candidate more names the identifiers named before, and its own.
proof fn lemma_named_one_more(proposed: Seq<Seq<char>>, until: int)
    requires
        0 <= until < proposed.len(),
    ensures
        forall|name: Seq<char>|
            #![trigger named_before(proposed, until + 1, name)]
            named_before(proposed, until + 1, name) <==> (named_before(proposed, until, name)
                || name == terminal_of(proposed[until])),
{
    assert forall|name: Seq<char>|
        #![trigger named_before(proposed, until + 1, name)]
        named_before(proposed, until + 1, name) <==> (named_before(proposed, until, name) || name
            == terminal_of(proposed[until])) by {
        if named_before(proposed, until + 1, name) {
            let j = choose|j: int|
                0 <= j < until + 1 && j < proposed.len() && terminal_of(#[trigger] proposed[j])
                    == name;
            if j < until {
                assert(named_before(proposed, until, name));
            }
        }
        if named_before(proposed, until, name) {
            let j = choose|j: int|
                0 <= j < until && j < proposed.len() && terminal_of(#[trigger] proposed[j])
                    == name;
            assert(0 <= j < until + 1 && terminal_of(proposed[j]) == name);
        }
        if name == terminal_of(proposed[until]) {
            assert(0 <= until < until + 1 && terminal_of(proposed[until]) == name);
        }
    }
}

/// What the choice in the class of the next candidate gives, where nothing
/// named that class before: a winner that is new, and losers of the class.
proof fn lemma_class_outcome(
    proposed: Seq<Seq<char>>,
    until: int,
    accepted: Seq<Seq<char>>,
    rejected: Seq<Seq<char>>,
    pick: int,
    won: Seq<char>,
    lost: Seq<Seq<char>>,
)
    requires
        0 <= until < proposed.len(),
        proposed.no_duplicates(),
        settled_until(proposed, until, accepted, rejected),
        !named_before(proposed, until, terminal_of(proposed[until])),
        is_outcome(class_of(proposed, terminal_of(proposed[until])), pick, won, lost),
    ensures
        proposed.contains(won),
        !accepted.contains(won),
        !rejected.contains(won),
        !lost.contains(won),
        forall|c: Seq<char>| #[trigger]
            lost.contains(c) ==> proposed.contains(c) && !accepted.contains(c),
{
    let name = terminal_of(proposed[until]);
    let same = |c: Seq<char>| terminal_of(c) == name;
    let class = class_of(proposed, name);
    lemma_class_members(proposed, name);
    assert(proposed.contains(proposed[until]));
    assert(class.contains(proposed[until]));
    crate::choice::lemma_filter_keeps_distinct(proposed, same);
    crate::choice::lemma_losers_are_the_rest(class, pick);
    crate::choice::lemma_winner_is_no_loser(class, pick);
    assert(class.contains(won));
    assert forall|c: Seq<char>| #[trigger] lost.contains(c) implies class.contains(c) by {}
}

/// Settling the class of the next candidate, where nothing named it before,
/// settles one candidate more.
proof fn lemma_settle_class(
    proposed: Seq<Seq<char>>,
    until: int,
    accepted: Seq<Seq<char>>,
    rejected: Seq<Seq<char>>,
    pick: int,
    won: Seq<char>,
    lost: Seq<Seq<char>>,
    rejected_after: Seq<Seq<char>>,
)
    requires
        0 <= until < proposed.len(),
        proposed.no_duplicates(),
        settled_until(proposed, until, accepted, rejected),
        !named_before(proposed, until, terminal_of(proposed[until])),
        is_outcome(class_of(proposed, terminal_of(proposed[until])), pick, won, lost),
        forall|c: Seq<char>|
            #![trigger rejected_after.contains(c)]
            rejected_after.contains(c) <==> (rejected.contains(c) || lost.contains(c)),
    ensures
        settled_until(proposed, until + 1, accepted.push(won), rejected_after),
{
    let name = terminal_of(proposed[until]);
    let same = |c: Seq<char>| terminal_of(c) == name;
    let class = class_of(proposed, name);
    let after = accepted.push(won);
    lemma_class_members(proposed, name);
    assert(proposed.contains(proposed[until]));
    assert(class.contains(proposed[until]));
    crate::choice::lemma_filter_keeps_distinct(proposed, same);
    crate::choice::lemma_winner_may_win(class, pick);
    crate::choice::lemma_losers_are_the_rest(class, pick);
    crate::choice::lemma_winner_is_no_loser(class, pick);
    assert(class.contains(won));
    assert(terminal_of(won) == name);
    assert forall|c: Seq<char>| #[trigger] lost.contains(c) implies class.contains(c) by {}
    lemma_named_one_more(proposed, until);
    assert forall|c: Seq<char>| after.contains(c) <==> (accepted.contains(c) || c == won) by {
        if after.contains(c) {
            let k = choose|k: int| 0 <= k < after.len() && after[k] == c;
            if k < accepted.len() {
                assert(accepted[k] == c);
            }
        }
        if accepted.contains(c) {
            let k = choose|k: int| 0 <= k < accepted.len() && accepted[k] == c;
            assert(after[k] == c);
        }
        assert(after[accepted.len() as int] == won);
    }
    assert forall|c: Seq<char>|
        #![trigger after.contains(c)]
        #![trigger rejected_after.contains(c)]
        #![trigger proposed.contains(c)]
        (after.contains(c) || rejected_after.contains(c)) <==> (proposed.contains(c)
            && named_before(proposed, until + 1, terminal_of(c))) by {
        assert(class.contains(c) <==> (c == won || lost.contains(c)));
    }
    assert forall|c: Seq<char>| #[trigger] after.contains(c) implies may_win(
        class_of(proposed, terminal_of(c)),
        c,
    ) by {}
    assert forall|a: Seq<char>, b: Seq<char>|
        #![trigger after.contains(a), after.contains(b)]
        after.contains(a) && after.contains(b) && terminal_of(a) == terminal_of(b) implies a
            == b by {}
    assert(has_winner(after, name)) by {
        assert(terminal_of(after[accepted.len() as int]) == name);
    }
    assert forall|c: Seq<char>| #[trigger] rejected_after.contains(c) implies has_winner(
        after,
        terminal_of(c),
    ) by {
        if rejected.contains(c) {
            let k = choose|k: int|
                0 <= k < accepted.len() && terminal_of(#[trigger] accepted[k]) == terminal_of(c);
            assert(terminal_of(after[k]) == terminal_of(c));
        }
    }
}

/// A candidate whose identifier was named before is settled already.
proof fn lemma_settle_skip(
    proposed: Seq<Seq<char>>,
    until: int,
    accepted: Seq<Seq<char>>,
    rejected: Seq<Seq<char>>,
)
    requires
        0 <= until < proposed.len(),
        settled_until(proposed, until, accepted, rejected),
        named_before(proposed, until, terminal_of(proposed[until])),
    ensures
        settled_until(proposed, until + 1, accepted, rejected),
{
    lemma_named_one_more(proposed, until);
}

/// The choices account for what was accepted: there is one for each
/// accepted candidate, in the same order; it names the identifier that the
/// candidate ends in, the proposed candidates that end in it, the candidate
/// itself as the winner, and how the choice among them is made.
pub open spec fn accounts_for(
    proposed: Seq<Seq<char>>,
    accepted: Seq<Seq<char>>,
    choices: Seq<ResolutionView>,
) -> bool {
    &&& choices.len() == accepted.len()
    &&& forall|k: int|
        0 <= k < choices.len() ==> {
            &&& (#[trigger] choices[k]).winner == accepted[k]
            &&& choices[k].ident == terminal_of(accepted[k])
            &&& choices[k].candidates == class_of(proposed, choices[k].ident)
            &&& choices[k].how == basis_of(choices[k].candidates)
        }
}

/// The two hold nothing in common.
pub open spec fn are_apart(accepted: Seq<Seq<char>>, excluded: Seq<Seq<char>>) -> bool {
    forall|i: int, j: int|
        0 <= i < accepted.len() && 0 <= j < excluded.len() ==> accepted[i] != excluded[j]
}

/// The state of a run.
pub struct DriverView {
    /// The file of the unit.
    pub file: Seq<char>,
    /// The accepted candidates, oldest first.
    pub imports: Seq<Seq<char>>,
    /// The excluded candidates, oldest first.
    pub excluded: Seq<Seq<char>>,
    /// The attempts made.
    pub attempts: nat,
    /// The choices of the last attempt, in the order of what it accepted.
    pub choices: Seq<ResolutionView>,
}

impl DriverView {
    /// `candidate` was accepted or excluded before.
    pub open spec fn knows(self, candidate: Seq<char>) -> bool {
        self.imports.contains(candidate) || self.excluded.contains(candidate)
    }

    /// What an attempt proposes: the candidates that its records offer and
    /// that the run does not know yet, each once.
    pub open spec fn proposal(self, records: Seq<RecordView>) -> Seq<Seq<char>> {
        distinct(offered(records, self.file).filter(|c: Seq<char>| !self.knows(c)))
    }

    /// Nothing is accepted twice, excluded twice, or both accepted and
    /// excluded, and the attempts are within the cap.
    pub open spec fn wf(self) -> bool {
        &&& self.imports.no_duplicates()
        &&& self.excluded.no_duplicates()
        &&& are_apart(self.imports, self.excluded)
        &&& self.attempts <= ATTEMPT_CAP
    }

    /// What one attempt makes of a run: `after` is the state that follows
    /// this one, and `verdict` what the driver asks for, when the compiler
    /// ended with `success` and wrote `records`.
    ///
    /// The attempt is counted, up to the cap. What was accepted or excluded
    /// stays, in its order. A success changes nothing more. A failure
    /// settles what its records propose, and its choices account for what
    /// it accepted; the run is settled when the records propose nothing or
    /// the attempts are used up, and goes on otherwise.
    pub open spec fn absorbs(
        self,
        success: bool,
        records: Seq<RecordView>,
        after: DriverView,
        verdict: Verdict,
    ) -> bool {
        &&& after.wf()
        &&& after.file == self.file
        &&& after.attempts == if self.attempts < ATTEMPT_CAP {
            self.attempts + 1
        } else {
            ATTEMPT_CAP as nat
        }
        &&& self.imports.is_prefix_of(after.imports)
        &&& self.excluded.is_prefix_of(after.excluded)
        &&& if success {
            &&& verdict == Verdict::Succeeded
            &&& after.imports == self.imports
            &&& after.excluded == self.excluded
            &&& after.choices == Seq::<ResolutionView>::empty()
        } else {
            &&& settles(
                self.proposal(records),
                after.imports.skip(self.imports.len() as int),
                after.excluded.skip(self.excluded.len() as int),
            )
            &&& accounts_for(
                self.proposal(records),
                after.imports.skip(self.imports.len() as int),
                after.choices,
            )
            &&& verdict == if self.proposal(records).len() == 0 || after.attempts
                >= ATTEMPT_CAP {
                Verdict::Settled
            } else {
                Verdict::Retry
            }
        }
    }
}

/// The declaration that imports `candidate`.
pub open spec fn import_line(candidate: Seq<char>) -> Seq<char> {
    "use "@ + candidate + ";"@
}

/// One declaration for each of `imports`, in their order.
pub open spec fn rendered(imports: Seq<Seq<char>>) -> Seq<char> {
    imports.flat_map(|candidate: Seq<char>| import_line(candidate))
}

/// Writes one import declaration for each member of `set`, oldest first.
pub fn render(set: &CandidateSet) -> (text: String)
    ensures
        text@ == rendered(set@),
{
    let items = set.members();
    let ghost all = set@;
    let ghost line = |candidate: Seq<char>| import_line(candidate);
    let mut text = String::new();
    let mut i: usize = 0;
    proof {
        assert(all.take(0) =~= Seq::empty());
        assert(text@ =~= all.take(0).flat_map(line));
    }
    while i < items.len()
        invariant
            i <= items.len(),
            all == items.deep_view(),
            line == |candidate: Seq<char>| import_line(candidate),
            text@ == all.take(i as int).flat_map(line),
        decreases items.len() - i,
    {
        proof {
            all.lemma_take_succ_push(i as int);
            all.take(i as int).lemma_flat_map_push(line, all[i as int]);
        }
        let ghost before = text@;
        text.append("use ");
        text.append(items[i].as_str());
        text.append(";");
        assert(text@ =~= before + import_line(all[i as int]));
        i += 1;
    }
    assert(all.take(items.len() as int) =~= all);
    text
}

/// The driver of a run on one compilation unit.
pub struct Driver {
    file: String,
    imports: CandidateSet,
    excluded: CandidateSet,
    attempts: usize,
    choices: Vec<Resolution>,
}

impl View for Driver {
    type V = DriverView;

    closed spec fn view(&self) -> DriverView {
        DriverView {
            file: self.file@,
            imports: self.imports@,
            excluded: self.excluded@,
            attempts: self.attempts as nat,
            choices: self.choices.deep_view(),
        }
    }
}

impl Driver {
    #[verifier::type_invariant]
    spec fn is_sound(&self) -> bool {
        self@.wf()
    }

    /// A run on the unit in `file`, with nothing accepted, nothing excluded
    /// and no attempt made.
    pub fn new(file: String) -> (driver: Driver)
        ensures
            driver@.wf(),
            driver@.file == file@,
            driver@.imports == Seq::<Seq<char>>::empty(),
            driver@.excluded == Seq::<Seq<char>>::empty(),
            driver@.attempts == 0,
            driver@.choices == Seq::<ResolutionView>::empty(),
    {
        let driver = Driver {
            file,
            imports: CandidateSet::new(),
            excluded: CandidateSet::new(),
            attempts: 0,
            choices: Vec::new(),
        };
        assert(driver.choices.deep_view() =~= Seq::<ResolutionView>::empty());
        driver
    }

    /// The file of the unit.
    pub fn file(&self) -> (file: &str)
        ensures
            file@ == self@.file,
    {
        self.file.as_str()
    }

    /// The accepted candidates.
    pub fn imports(&self) -> (set: &CandidateSet)
        ensures
            set@ == self@.imports,
    {
        &self.imports
    }

    /// The excluded candidates.
    pub fn excluded(&self) -> (set: &CandidateSet)
        ensures
            set@ == self@.excluded,
    {
        &self.excluded
    }

    /// The attempts made.
    pub fn attempts(&self) -> (n: usize)
        ensures
            n == self@.attempts,
            n <= ATTEMPT_CAP,
    {
        proof {
            use_type_invariant(self);
        }
        self.attempts
    }

    /// The choices of the last attempt, one for each candidate that it
    /// accepted: what a progress log tells of.
    pub fn choices(&self) -> (made: &Vec<Resolution>)
        ensures
            made.deep_view() == self@.choices,
    {
        &self.choices
    }

    /// What an attempt with these records proposes.
    pub fn propose(&self, records: &Vec<DiagnosticRecord>) -> (proposed: CandidateSet)
        ensures
            proposed@ == self@.proposal(records.deep_view()),
            proposed@.no_duplicates(),
            forall|k: int| 0 <= k < proposed@.len() ==> !self@.knows(#[trigger] proposed@[k]),
    {
        let ghost all = records.deep_view();
        let ghost file = self@.file;
        let ghost each = |record: RecordView| record.contribution(file);
        let ghost fresh = |c: Seq<char>| !self@.knows(c);
        let mut proposed = CandidateSet::new();
        let mut r: usize = 0;
        proof {
            reveal(Seq::filter);
            assert(all.take(0) =~= Seq::empty());
            assert(all.take(0).flat_map(each) =~= Seq::<Seq<char>>::empty());
        }
        while r < records.len()
            invariant
                r <= records.len(),
                all == records.deep_view(),
                file == self@.file,
                each == |record: RecordView| record.contribution(file),
                fresh == |c: Seq<char>| !self@.knows(c),
                proposed@ == distinct(all.take(r as int).flat_map(each).filter(fresh)),
                proposed@.no_duplicates(),
                forall|k: int| 0 <= k < proposed@.len() ==> !self@.knows(#[trigger] proposed@[k]),
            decreases records.len() - r,
        {
            let found = records[r].contribution(self.file.as_str());
            let ghost seen = all.take(r as int).flat_map(each);
            let ghost given = found.deep_view();
            proof {
                all.lemma_take_succ_push(r as int);
                all.take(r as int).lemma_flat_map_push(each, all[r as int]);
                assert(given == each(all[r as int]));
                assert(seen + given.take(0) =~= seen);
            }
            let mut k: usize = 0;
            while k < found.len()
                invariant
                    k <= found.len(),
                    given == found.deep_view(),
                    fresh == |c: Seq<char>| !self@.knows(c),
                    proposed@ == distinct((seen + given.take(k as int)).filter(fresh)),
                    proposed@.no_duplicates(),
                    forall|k: int|
                        0 <= k < proposed@.len() ==> !self@.knows(#[trigger] proposed@[k]),
                decreases found.len() - k,
            {
                let candidate = found[k].clone();
                proof {
                    assert(candidate@ == given[k as int]);
                    let prefix = seen + given.take(k as int);
                    assert(seen + given.take(k + 1) =~= prefix.push(given[k as int]));
                    prefix.lemma_filter_push(given[k as int], fresh);
                    assert(prefix.filter(fresh).push(given[k as int]).drop_last()
                        =~= prefix.filter(fresh));
                }
                if !self.imports.contains(candidate.as_str()) && !self.excluded.contains(
                    candidate.as_str(),
                ) {
                    proposed.insert(candidate);
                }
                k += 1;
            }
            proof {
                assert(given.take(found.len() as int) =~= given);
            }
            r += 1;
        }
        proof {
            assert(all.take(records.len() as int) =~= all);
        }
        proposed
    }
}

fn named_earlier(items: &Vec<String>, until: usize, name: &str) -> (r: bool)
    requires
        until <= items.len(),
    ensures
        r == named_before(items.deep_view(), until as int, name@),
{
    let mut j: usize = 0;
    while j < until
        invariant
            j <= until <= items.len(),
            forall|k: int| 0 <= k < j ==> terminal_of(#[trigger] items.deep_view()[k]) != name@,
        decreases until - j,
    {
        if same_text(terminal(items[j].as_str()), name) {
            assert(terminal_of(items.deep_view()[j as int]) == name@);
            return true;
        }
        j += 1;
    }
    false
}

fn class(items: &Vec<String>, name: &str) -> (group: Vec<String>)
    ensures
        group.deep_view() == class_of(items.deep_view(), name@),
{
    let ghost all = items.deep_view();
    let ghost same = |c: Seq<char>| terminal_of(c) == name@;
    let mut group: Vec<String> = Vec::new();
    let mut i: usize = 0;
    proof {
        reveal(Seq::filter);
        assert(all.take(0) =~= Seq::empty());
        assert(group.deep_view() =~= all.take(0).filter(same));
    }
    while i < items.len()
        invariant
            i <= items.len(),
            all == items.deep_view(),
            same == |c: Seq<char>| terminal_of(c) == name@,
            group.deep_view() == all.take(i as int).filter(same),
        decreases items.len() - i,
    {
        proof {
            all.lemma_take_succ_push(i as int);
            all.take(i as int).lemma_filter_push(all[i as int], same);
        }
        if same_text(terminal(items[i].as_str()), name) {
            let ghost before = group.deep_view();
            group.push(items[i].clone());
            assert(group.deep_view() =~= before.push(all[i as int]));
        }
        i += 1;
    }
    assert(all.take(items.len() as int) =~= all);
    group
}

/// Settles what was proposed: of the candidates that end in one identifier
/// one is accepted, and the others are excluded.
fn settle(
    imports: &mut CandidateSet,
    excluded: &mut CandidateSet,
    proposed: &CandidateSet,
) -> (made: Vec<Resolution>)
    requires
        old(imports)@.no_duplicates(),
        old(excluded)@.no_duplicates(),
        are_apart(old(imports)@, old(excluded)@),
        forall|k: int|
            0 <= k < proposed@.len() ==> !old(imports)@.contains(#[trigger] proposed@[k])
                && !old(excluded)@.contains(proposed@[k]),
    ensures
        are_apart(final(imports)@, final(excluded)@),
        final(imports)@.no_duplicates(),
        final(excluded)@.no_duplicates(),
        old(imports)@.is_prefix_of(final(imports)@),
        old(excluded)@.is_prefix_of(final(excluded)@),
        settles(
            proposed@,
            final(imports)@.skip(old(imports)@.len() as int),
            final(excluded)@.skip(old(excluded)@.len() as int),
        ),
        accounts_for(
            proposed@,
            final(imports)@.skip(old(imports)@.len() as int),
            made.deep_view(),
        ),
{
    let items = proposed.members();
    let mut made: Vec<Resolution> = Vec::new();
    let ghost all = proposed@;
    let ghost first = imports@;
    let ghost second = excluded@;
    let ghost accepted = Seq::<Seq<char>>::empty();
    let ghost rejected = Seq::<Seq<char>>::empty();
    let mut i: usize = 0;
    proof {
        assert(first + accepted =~= first);
        assert(second + rejected =~= second);
    }
    while i < items.len()
        invariant
            i <= items.len(),
            all == items.deep_view(),
            all.no_duplicates(),
            forall|k: int|
                0 <= k < all.len() ==> !first.contains(#[trigger] all[k]) && !second.contains(
                    all[k],
                ),
            are_apart(imports@, excluded@),
            imports@.no_duplicates(),
            excluded@.no_duplicates(),
            imports@ == first + accepted,
            excluded@ == second + rejected,
            settled_until(all, i as int, accepted, rejected),
            accounts_for(all, accepted, made.deep_view()),
        decreases items.len() - i,
    {
        let name = terminal(items[i].as_str());
        assert(name@ == terminal_of(all[i as int]));
        if named_earlier(items, i, name) {
            proof {
                lemma_settle_skip(all, i as int, accepted, rejected);
            }
        } else {
            let group = class(items, name);
            proof {
                lemma_class_members(all, name@);
                assert(all.contains(all[i as int]));
                assert(group.deep_view().contains(all[i as int]));
            }
            let how = basis(&group);
            let candidates = copies(&group);
            let (won, lost) = disambiguate(group);
            let ghost pick = choose|pick: int| #[trigger]
                is_outcome(group.deep_view(), pick, won@, lost.deep_view());
            let ghost gone = lost.deep_view();
            let ghost before = rejected;
            proof {
                lemma_class_outcome(all, i as int, accepted, rejected, pick, won@, gone);
                let w = choose|w: int| 0 <= w < all.len() && all[w] == won@;
                assert(!first.contains(all[w]) && !second.contains(all[w]));
                assert(!imports@.contains(won@)) by {
                    if imports@.contains(won@) {
                        let k = choose|k: int| 0 <= k < imports@.len() && imports@[k] == won@;
                        if k < first.len() {
                            assert(first[k] == won@);
                        } else {
                            assert(accepted[k - first.len()] == won@);
                        }
                    }
                }
                assert(!excluded@.contains(won@)) by {
                    if excluded@.contains(won@) {
                        let k = choose|k: int| 0 <= k < excluded@.len() && excluded@[k] == won@;
                        if k < second.len() {
                            assert(second[k] == won@);
                        } else {
                            assert(rejected[k - second.len()] == won@);
                        }
                    }
                }
            }
            let ghost winner = won@;
            let choice = Resolution {
                ident: name.to_owned(),
                candidates,
                winner: won.clone(),
                how,
            };
            imports.insert(won);
            proof {
                assert(imports@ =~= first + accepted.push(winner));
                assert(gone.take(0) =~= Seq::<Seq<char>>::empty());
                assert forall|c: Seq<char>| #[trigger]
                    gone.contains(c) implies !imports@.contains(c) && !second.contains(c) by {
                    let w = choose|w: int| 0 <= w < all.len() && all[w] == c;
                    assert(!first.contains(all[w]) && !second.contains(all[w]));
                    if imports@.contains(c) {
                        let k = choose|k: int| 0 <= k < imports@.len() && imports@[k] == c;
                        if k < first.len() {
                            assert(first[k] == c);
                        } else if k < first.len() + accepted.len() {
                            assert(accepted[k - first.len()] == c);
                        }
                    }
                }
            }
            let mut k: usize = 0;
            while k < lost.len()
                invariant
                    k <= lost.len(),
                    gone == lost.deep_view(),
                    imports@.no_duplicates(),
                    excluded@.no_duplicates(),
                    imports@ == first + accepted.push(winner),
                    excluded@ == second + rejected,
                    are_apart(imports@, excluded@),
                    forall|c: Seq<char>| #[trigger]
                        gone.contains(c) ==> !imports@.contains(c) && !second.contains(c),
                    forall|c: Seq<char>|
                        #![trigger rejected.contains(c)]
                        rejected.contains(c) <==> (before.contains(c) || gone.take(
                            k as int,
                        ).contains(c)),
                decreases lost.len() - k,
            {
                let loser = lost[k].clone();
                let ghost one = loser@;
                let ghost held = rejected;
                proof {
                    assert(one == gone[k as int]);
                    assert(gone.contains(one));
                    assert(gone.take(k + 1) =~= gone.take(k as int).push(one));
                }
                let added = excluded.insert(loser);
                proof {
                    if added {
                        rejected = held.push(one);
                        assert(excluded@ =~= second + rejected);
                    } else {
                        assert(held.contains(one)) by {
                            let j = choose|j: int|
                                0 <= j < second.len() + held.len() && (second + held)[j] == one;
                            if j < second.len() {
                                assert(second[j] == one);
                            } else {
                                assert(held[j - second.len()] == one);
                            }
                        }
                    }
                    assert forall|c: Seq<char>|
                        #![trigger rejected.contains(c)]
                        rejected.contains(c) <==> (before.contains(c) || gone.take(
                            k + 1,
                        ).contains(c)) by {
                        let next = gone.take(k + 1);
                        let prev = gone.take(k as int);
                        assert(next.contains(c) <==> (prev.contains(c) || c == one)) by {
                            if next.contains(c) {
                                let j = choose|j: int| 0 <= j < next.len() && next[j] == c;
                                if j < k {
                                    assert(prev[j] == c);
                                }
                            }
                            if prev.contains(c) {
                                let j = choose|j: int| 0 <= j < prev.len() && prev[j] == c;
                                assert(next[j] == c);
                            }
                            assert(next[k as int] == one);
                        }
                        if added {
                            assert(rejected.contains(c) <==> (held.contains(c) || c == one)) by {
                                if rejected.contains(c) {
                                    let j = choose|j: int|
                                        0 <= j < rejected.len() && rejected[j] == c;
                                    if j < held.len() {
                                        assert(held[j] == c);
                                    }
                                }
                                if held.contains(c) {
                                    let j = choose|j: int| 0 <= j < held.len() && held[j] == c;
                                    assert(rejected[j] == c);
                                }
                                assert(rejected[held.len() as int] == one);
                            }
                        }
                    }
                    assert(are_apart(imports@, excluded@)) by {
                        assert forall|a: int, b: int|
                            0 <= a < imports@.len() && 0 <= b < excluded@.len() implies imports@[a]
                            != excluded@[b] by {
                            if added && b == excluded@.len() - 1 {
                                assert(excluded@[b] == one);
                                assert(imports@.contains(imports@[a]));
                            } else {
                                assert(excluded@[b] == (second + held)[b]);
                            }
                        }
                    }
                }
                k += 1;
            }
            proof {
                assert(gone.take(lost.len() as int) =~= gone);
                lemma_settle_class(
                    all,
                    i as int,
                    accepted,
                    before,
                    pick,
                    winner,
                    gone,
                    rejected,
                );
            }
            let ghost told = made.deep_view();
            made.push(choice);
            proof {
                assert(made.deep_view() =~= told.push(choice@));
                accepted = accepted.push(winner);
            }
        }
        i += 1;
    }
    proof {
        assert(imports@.skip(first.len() as int) =~= accepted);
        assert(excluded@.skip(second.len() as int) =~= rejected);
    }
    made
}

impl Driver {
    /// The declarations that import what was accepted: what the compiler is
    /// handed on the next attempt, and what the run gives in the end.
    pub fn rendered(&self) -> (text: String)
        ensures
            text@ == rendered(self@.imports),
    {
        render(&self.imports)
    }

    fn count_attempt(&mut self)
        ensures
            final(self)@ == (DriverView {
                attempts: if old(self)@.attempts < ATTEMPT_CAP {
                    old(self)@.attempts + 1
                } else {
                    ATTEMPT_CAP as nat
                },
                ..old(self)@
            }),
    {
        proof {
            use_type_invariant(&*self);
        }
        if self.attempts < ATTEMPT_CAP {
            self.attempts = self.attempts + 1;
        }
    }

    /// Takes in the outcome of one attempt, the diagnostics given as records.
    pub fn absorb_records(&mut self, success: bool, records: &Vec<DiagnosticRecord>) -> (verdict:
        Verdict)
        ensures
            old(self)@.wf(),
            old(self)@.absorbs(success, records.deep_view(), final(self)@, verdict),
    {
        proof {
            use_type_invariant(&*self);
        }
        if success {
            self.count_attempt();
            self.choices = Vec::new();
            assert(self.choices.deep_view() =~= Seq::<ResolutionView>::empty());
            return Verdict::Succeeded;
        }
        let proposed = self.propose(records);
        self.count_attempt();
        let nothing_new = proposed.len() == 0;
        let mut imports = CandidateSet::new();
        let mut excluded = CandidateSet::new();
        core::mem::swap(&mut self.imports, &mut imports);
        core::mem::swap(&mut self.excluded, &mut excluded);
        self.choices = settle(&mut imports, &mut excluded, &proposed);
        self.excluded = excluded;
        self.imports = imports;
        if nothing_new || self.attempts >= ATTEMPT_CAP {
            Verdict::Settled
        } else {
            Verdict::Retry
        }
    }

    /// Takes in the outcome of one attempt: whether the compiler succeeded,
    /// and what it wrote to its error output.
    pub fn absorb(&mut self, success: bool, output: &str) -> (verdict: Verdict)
        ensures
            old(self)@.wf(),
            old(self)@.absorbs(success, records_in(output@), final(self)@, verdict),
    {
        let records = diagnostics(output);
        self.absorb_records(success, &records)
    }
}

/// Some attempt leads from `before` to `after` with `verdict`.
pub open spec fn follows(before: DriverView, after: DriverView, verdict: Verdict) -> bool {
    exists|success: bool, records: Seq<RecordView>| #[trigger]
        before.absorbs(success, records, after, verdict)
}

/// A run: the states that it went through from the first, and the verdict
/// of each attempt, where every verdict but the last asked to go on.
pub open spec fn is_run(states: Seq<DriverView>, verdicts: Seq<Verdict>) -> bool {
    &&& states.len() == verdicts.len() + 1
    &&& states[0].attempts == 0
    &&& forall|k: int|
        0 <= k < verdicts.len() ==> follows(states[k], states[k + 1], #[trigger] verdicts[k])
    &&& forall|k: int| 0 <= k < verdicts.len() - 1 ==> #[trigger] verdicts[k] == Verdict::Retry
}

/// A run counts its attempts: the state after `k` attempts holds `k`.
proof fn lemma_run_counts(states: Seq<DriverView>, verdicts: Seq<Verdict>, k: int)
    requires
        is_run(states, verdicts),
        0 <= k <= verdicts.len(),
    ensures
        states[k].attempts == k,
        k <= ATTEMPT_CAP,
    decreases k,
{
    if k > 0 {
        lemma_run_counts(states, verdicts, k - 1);
        assert(follows(states[k - 1], states[k - 1 + 1], verdicts[k - 1]));
        if k - 1 > 0 {
            assert(follows(states[k - 2], states[k - 2 + 1], verdicts[k - 2]));
            assert(verdicts[k - 2] == Verdict::Retry);
        }
    }
}

/// No run makes more attempts than the cap allows.
pub proof fn lemma_run_ends_within_cap(states: Seq<DriverView>, verdicts: Seq<Verdict>)
    requires
        is_run(states, verdicts),
    ensures
        verdicts.len() <= ATTEMPT_CAP,
{
    lemma_run_counts(states, verdicts, verdicts.len() as int);
}

/// In a run nothing that was accepted or excluded is given up: what a state
/// holds, every later state holds too, in the same order, and so neither
/// set ever gets smaller.
pub proof fn lemma_run_only_adds(
    states: Seq<DriverView>,
    verdicts: Seq<Verdict>,
    earlier: int,
    later: int,
)
    requires
        is_run(states, verdicts),
        0 <= earlier <= later < states.len(),
    ensures
        states[earlier].imports.is_prefix_of(states[later].imports),
        states[earlier].excluded.is_prefix_of(states[later].excluded),
        states[earlier].imports.len() <= states[later].imports.len(),
        states[earlier].excluded.len() <= states[later].excluded.len(),
    decreases later - earlier,
{
    if earlier < later {
        lemma_run_only_adds(states, verdicts, earlier, later - 1);
        assert(follows(states[later - 1], states[later - 1 + 1], verdicts[later - 1]));
        assert(states[earlier].imports =~= states[later].imports.subrange(
            0,
            states[earlier].imports.len() as int,
        ));
        assert(states[earlier].excluded =~= states[later].excluded.subrange(
            0,
            states[earlier].excluded.len() as int,
        ));
    }
}

} // verus!
