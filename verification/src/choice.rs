//! Choosing one candidate among several that end in the same identifier.

use crate::text::{same_text, strip_prefix};
use rand::seq::IteratorRandom;
use rand::thread_rng;
use vstd::prelude::*;

verus! {

/// `a` is a path of the standard library and `b` the path of the same item
/// in its core subset: `std::` and `core::` in front of the same text.
pub open spec fn std_twin(a: Seq<char>, b: Seq<char>) -> bool {
    &&& "std::"@.is_prefix_of(a)
    &&& "core::"@.is_prefix_of(b)
    &&& a.skip("std::"@.len() as int) == b.skip("core::"@.len() as int)
}

/// Whether `a` and `b` name one item, `a` through `std` and `b` through `core`.
pub fn std_and_core(a: &str, b: &str) -> (r: bool)
    ensures
        r == std_twin(a@, b@),
{
    match strip_prefix("std::", a) {
        Some(item) => match strip_prefix("core::", b) {
            Some(other) => same_text(item, other),
            None => false,
        },
        None => false,
    }
}

/// Some candidate is the `std` path of which `candidate` is the `core` path.
pub open spec fn is_shadowed(candidates: Seq<Seq<char>>, candidate: Seq<char>) -> bool {
    exists|i: int| 0 <= i < candidates.len() && std_twin(#[trigger] candidates[i], candidate)
}

/// The candidates that no other one shadows, in their order.
pub open spec fn survivors(candidates: Seq<Seq<char>>) -> Seq<Seq<char>> {
    candidates.filter(|c: Seq<char>| !is_shadowed(candidates, c))
}

/// The candidates that another one shadows, in their order.
pub open spec fn shadowed(candidates: Seq<Seq<char>>) -> Seq<Seq<char>> {
    candidates.filter(|c: Seq<char>| is_shadowed(candidates, c))
}

/// The paths that win wherever they compete.
pub open spec fn is_preferred(candidate: Seq<char>) -> bool {
    candidate == "std::ops::Range"@
}

/// Whether `candidate` is one of the preferred paths.
pub fn preferred(candidate: &str) -> (r: bool)
    ensures
        r == is_preferred(candidate@),
{
    same_text(candidate, "std::ops::Range")
}

/// The position of the first preferred candidate, and the number of
/// candidates where none is preferred.
pub open spec fn first_preferred(candidates: Seq<Seq<char>>) -> int
    decreases candidates.len(),
{
    if candidates.len() == 0 || is_preferred(candidates[0]) {
        0
    } else {
        1 + first_preferred(candidates.skip(1))
    }
}

/// Neither the number of survivors nor the preferred paths decide: the
/// choice is left to chance.
pub open spec fn needs_tiebreak(candidates: Seq<Seq<char>>) -> bool {
    let kept = survivors(candidates);
    kept.len() > 1 && first_preferred(kept) >= kept.len()
}

/// How a choice among candidates is made.
#[derive(Debug, Clone, Copy, PartialEq, Eq)]
pub enum Basis {
    /// There is one candidate, and nothing to choose.
    Alone,
    /// One candidate is left once the `core` paths that a `std` path
    /// shadows are set aside.
    StdOverCore,
    /// A preferred path is among the survivors.
    Preferred,
    /// Nothing decides: chance does.
    Chance,
}

/// How the choice among `candidates` is made.
pub open spec fn basis_of(candidates: Seq<Seq<char>>) -> Basis {
    let kept = survivors(candidates);
    if candidates.len() <= 1 {
        Basis::Alone
    } else if kept.len() <= 1 {
        Basis::StdOverCore
    } else if first_preferred(kept) < kept.len() {
        Basis::Preferred
    } else {
        Basis::Chance
    }
}

/// The position among the survivors of the one that wins, `pick` standing
/// for what chance gave.
pub open spec fn choice(candidates: Seq<Seq<char>>, pick: int) -> int {
    let kept = survivors(candidates);
    if kept.len() <= 1 {
        0
    } else if first_preferred(kept) < kept.len() {
        first_preferred(kept)
    } else {
        pick % (kept.len() as int)
    }
}

/// The candidate that wins.
pub open spec fn winner(candidates: Seq<Seq<char>>, pick: int) -> Seq<char> {
    survivors(candidates)[choice(candidates, pick)]
}

/// The candidates that lose: the other survivors, then the shadowed ones.
pub open spec fn losers(candidates: Seq<Seq<char>>, pick: int) -> Seq<Seq<char>> {
    survivors(candidates).remove(choice(candidates, pick)) + shadowed(candidates)
}

/// A path of `std` is never shadowed: what shadows stands before a path of
/// `core`.
pub proof fn lemma_std_is_not_shadowed(candidates: Seq<Seq<char>>, a: Seq<char>, b: Seq<char>)
    requires
        std_twin(a, b),
    ensures
        !is_shadowed(candidates, a),
{
    reveal_strlit("std::");
    reveal_strlit("core::");
    assert(a[0] == "std::"@[0]) by {
        assert(a.subrange(0, "std::"@.len() as int)[0] == a[0]);
    }
    assert forall|i: int| 0 <= i < candidates.len() implies !std_twin(
        #[trigger] candidates[i],
        a,
    ) by {
        if "core::"@.is_prefix_of(a) {
            assert(a.subrange(0, "core::"@.len() as int)[0] == a[0]);
        }
    }
}

/// Of one candidate or more, one at least survives.
pub proof fn lemma_some_survive(candidates: Seq<Seq<char>>)
    requires
        candidates.len() > 0,
    ensures
        survivors(candidates).len() > 0,
{
    let keep = |c: Seq<char>| !is_shadowed(candidates, c);
    let first = candidates[0];
    if is_shadowed(candidates, first) {
        let i = choose|i: int| 0 <= i < candidates.len() && std_twin(
            #[trigger] candidates[i],
            first,
        );
        lemma_std_is_not_shadowed(candidates, candidates[i], first);
        candidates.lemma_filter_contains(keep, i);
    } else {
        candidates.lemma_filter_contains(keep, 0);
    }
}

proof fn lemma_first_preferred_is(candidates: Seq<Seq<char>>, at: int)
    requires
        0 <= at <= candidates.len(),
        forall|k: int| 0 <= k < at ==> !is_preferred(candidates[k]),
        at == candidates.len() || is_preferred(candidates[at]),
    ensures
        first_preferred(candidates) == at,
    decreases at,
{
    if at > 0 {
        lemma_first_preferred_is(candidates.skip(1), at - 1);
    }
}

fn is_shadowed_in(suggestions: &Vec<String>, candidate: &str) -> (r: bool)
    ensures
        r == is_shadowed(suggestions.deep_view(), candidate@),
{
    let mut i: usize = 0;
    while i < suggestions.len()
        invariant
            i <= suggestions.len(),
            forall|k: int| 0 <= k < i ==> !std_twin(suggestions.deep_view()[k], candidate@),
        decreases suggestions.len() - i,
    {
        if std_and_core(suggestions[i].as_str(), candidate) {
            assert(std_twin(suggestions.deep_view()[i as int], candidate@));
            return true;
        }
        i += 1;
    }
    false
}

/// Parts the candidates into those that survive and those that are
/// shadowed, each part in the order of the whole.
pub fn collapse(suggestions: &Vec<String>) -> (parts: (Vec<String>, Vec<String>))
    ensures
        parts.0.deep_view() == survivors(suggestions.deep_view()),
        parts.1.deep_view() == shadowed(suggestions.deep_view()),
{
    let ghost all = suggestions.deep_view();
    let ghost keep = |c: Seq<char>| !is_shadowed(all, c);
    let ghost lose = |c: Seq<char>| is_shadowed(all, c);
    let mut kept: Vec<String> = Vec::new();
    let mut dropped: Vec<String> = Vec::new();
    let mut i: usize = 0;
    proof {
        reveal(Seq::filter);
        assert(all.take(0) =~= Seq::empty());
        assert(kept.deep_view() =~= all.take(0).filter(keep));
        assert(dropped.deep_view() =~= all.take(0).filter(lose));
    }
    while i < suggestions.len()
        invariant
            i <= suggestions.len(),
            all == suggestions.deep_view(),
            keep == |c: Seq<char>| !is_shadowed(all, c),
            lose == |c: Seq<char>| is_shadowed(all, c),
            kept.deep_view() == all.take(i as int).filter(keep),
            dropped.deep_view() == all.take(i as int).filter(lose),
        decreases suggestions.len() - i,
    {
        let candidate = suggestions[i].clone();
        proof {
            assert(candidate@ == all[i as int]);
            all.lemma_take_succ_push(i as int);
            all.take(i as int).lemma_filter_push(all[i as int], keep);
            all.take(i as int).lemma_filter_push(all[i as int], lose);
        }
        if is_shadowed_in(suggestions, candidate.as_str()) {
            let ghost before = dropped.deep_view();
            dropped.push(candidate);
            assert(dropped.deep_view() =~= before.push(all[i as int]));
        } else {
            let ghost before = kept.deep_view();
            kept.push(candidate);
            assert(kept.deep_view() =~= before.push(all[i as int]));
        }
        i += 1;
    }
    assert(all.take(suggestions.len() as int) =~= all);
    (kept, dropped)
}

fn preferred_index(candidates: &Vec<String>) -> (at: usize)
    ensures
        at == first_preferred(candidates.deep_view()),
{
    let mut i: usize = 0;
    while i < candidates.len() && !preferred(candidates[i].as_str())
        invariant
            i <= candidates.len(),
            forall|k: int| 0 <= k < i ==> !is_preferred(candidates.deep_view()[k]),
        decreases candidates.len() - i,
    {
        i += 1;
    }
    proof {
        lemma_first_preferred_is(candidates.deep_view(), i as int);
    }
    i
}

/// Tells how the choice among `suggestions` is made: what `disambiguate`
/// goes by when it is given them.
pub fn basis(suggestions: &Vec<String>) -> (how: Basis)
    ensures
        how == basis_of(suggestions.deep_view()),
{
    if suggestions.len() <= 1 {
        return Basis::Alone;
    }
    let (kept, _) = collapse(suggestions);
    if kept.len() <= 1 {
        Basis::StdOverCore
    } else if preferred_index(&kept) < kept.len() {
        Basis::Preferred
    } else {
        Basis::Chance
    }
}

/// The survivor that wins without chance, if the policy names one.
fn decided(kept: &Vec<String>) -> (at: Option<usize>)
    requires
        kept.len() > 0,
    ensures
        match at {
            Some(at) => at < kept.len() && (kept.len() == 1 || first_preferred(kept.deep_view())
                < kept.len()) && at == if kept.len() == 1 {
                0
            } else {
                first_preferred(kept.deep_view())
            },
            None => kept.len() > 1 && first_preferred(kept.deep_view()) >= kept.len(),
        },
{
    if kept.len() == 1 {
        return Some(0);
    }
    let at = preferred_index(kept);
    if at < kept.len() {
        Some(at)
    } else {
        None
    }
}

fn conclude(kept: Vec<String>, dropped: Vec<String>, at: usize) -> (r: (String, Vec<String>))
    requires
        at < kept.len(),
    ensures
        r.0@ == kept.deep_view()[at as int],
        r.1.deep_view() == kept.deep_view().remove(at as int) + dropped.deep_view(),
{
    let mut rest = kept;
    let mut others = dropped;
    let winner = rest.remove(at);
    rest.append(&mut others);
    assert(rest.deep_view() =~= kept.deep_view().remove(at as int) + dropped.deep_view());
    (winner, rest)
}

/// Chooses among `suggestions` with `pick` in the place of chance.
///
/// The `core` paths that a `std` path shadows are set aside. A single
/// survivor wins; else the first preferred survivor; else the survivor whose
/// position is `pick`, counted round the survivors. The others lose, the
/// shadowed ones among them.
pub fn disambiguate_with(suggestions: Vec<String>, pick: usize) -> (r: (String, Vec<String>))
    requires
        suggestions.len() > 0,
    ensures
        r.0@ == winner(suggestions.deep_view(), pick as int),
        r.1.deep_view() == losers(suggestions.deep_view(), pick as int),
        suggestions.len() == 1 ==> r.0@ == suggestions.deep_view()[0] && r.1.len() == 0,
{
    let (kept, dropped) = collapse(&suggestions);
    proof {
        lemma_some_survive(suggestions.deep_view());
        if suggestions.len() == 1 {
            lemma_single_candidate_wins(suggestions.deep_view(), pick as int);
        }
    }
    let at = match decided(&kept) {
        Some(at) => at,
        None => pick % kept.len(),
    };
    conclude(kept, dropped, at)
}

/// Calls `IteratorRandom::choose` of `rand` on the range `0..bound`, with
/// the generator that `rand::thread_rng` gives. Trusted: it gives nothing
/// exactly when the range is empty, and else a number of the range. Which
/// number is left open: two calls may differ. The generator is seeded by
/// the system when a thread first asks for it, and `rand` panics where the
/// system has no seed to give.
#[verifier::external_body]
fn random_index(bound: usize) -> (r: Option<usize>)
    ensures
        r is None <==> bound == 0,
        r matches Some(i) ==> i < bound,
{
    (0..bound).choose(&mut thread_rng())
}

/// `won` and `lost` are what the policy gives for `candidates` when chance
/// gives `pick`.
pub open spec fn is_outcome(
    candidates: Seq<Seq<char>>,
    pick: int,
    won: Seq<char>,
    lost: Seq<Seq<char>>,
) -> bool {
    &&& 0 <= pick
    &&& won == winner(candidates, pick)
    &&& lost == losers(candidates, pick)
}

/// Chooses among `suggestions`, by chance where the policy leaves it open.
///
/// What comes back is what `disambiguate_with` gives for some `pick`; where
/// no tiebreak is needed it is the same for every `pick`, and chance is not
/// asked.
pub fn disambiguate(suggestions: Vec<String>) -> (r: (String, Vec<String>))
    requires
        suggestions.len() > 0,
    ensures
        exists|pick: int| #[trigger]
            is_outcome(suggestions.deep_view(), pick, r.0@, r.1.deep_view()),
        !needs_tiebreak(suggestions.deep_view()) ==> is_outcome(
            suggestions.deep_view(),
            0,
            r.0@,
            r.1.deep_view(),
        ),
        suggestions.len() == 1 ==> r.0@ == suggestions.deep_view()[0] && r.1.len() == 0,
{
    let (kept, dropped) = collapse(&suggestions);
    proof {
        lemma_some_survive(suggestions.deep_view());
        if suggestions.len() == 1 {
            lemma_single_candidate_wins(suggestions.deep_view(), 0);
        }
    }
    let ghost all = suggestions.deep_view();
    let at = match decided(&kept) {
        Some(at) => at,
        None => random_index(kept.len()).unwrap(),
    };
    assert(at == choice(all, at as int)) by {
        if needs_tiebreak(all) {
            vstd::arithmetic::div_mod::lemma_small_mod(at as nat, kept.len() as nat);
        }
    }
    let r = conclude(kept, dropped, at);
    assert(is_outcome(all, at as int, r.0@, r.1.deep_view()));
    r
}

/// The policy, as a judgement on one candidate: it is among the candidates,
/// nothing shadows it, and it is preferred if a survivor is.
pub open spec fn may_win(candidates: Seq<Seq<char>>, candidate: Seq<char>) -> bool {
    &&& candidates.contains(candidate)
    &&& !is_shadowed(candidates, candidate)
    &&& forall|i: int|
        0 <= i < candidates.len() && !is_shadowed(candidates, #[trigger] candidates[i])
            && is_preferred(candidates[i]) ==> is_preferred(candidate)
}

/// The first preferred candidate is preferred, and none before it is.
pub proof fn lemma_first_preferred(candidates: Seq<Seq<char>>)
    ensures
        0 <= first_preferred(candidates) <= candidates.len(),
        first_preferred(candidates) < candidates.len() ==> is_preferred(
            candidates[first_preferred(candidates)],
        ),
        forall|k: int| 0 <= k < first_preferred(candidates) ==> !is_preferred(candidates[k]),
    decreases candidates.len(),
{
    if !(candidates.len() == 0 || is_preferred(candidates[0])) {
        let rest = candidates.skip(1);
        lemma_first_preferred(rest);
        assert forall|k: int| 0 <= k < 1 + first_preferred(rest) implies !is_preferred(
            candidates[k],
        ) by {
            if k > 0 {
                assert(candidates[k] == rest[k - 1]);
            }
        }
    }
}

/// The position that `choice` gives lies among the survivors.
pub proof fn lemma_choice_in_range(candidates: Seq<Seq<char>>, pick: int)
    requires
        candidates.len() > 0,
        0 <= pick,
    ensures
        0 <= choice(candidates, pick) < survivors(candidates).len(),
{
    lemma_some_survive(candidates);
    lemma_first_preferred(survivors(candidates));
    vstd::arithmetic::div_mod::lemma_mod_pos_bound(pick, survivors(candidates).len() as int);
}

/// Whatever chance gives, the winner is one that the policy lets win.
pub proof fn lemma_winner_may_win(candidates: Seq<Seq<char>>, pick: int)
    requires
        candidates.len() > 0,
        0 <= pick,
    ensures
        may_win(candidates, winner(candidates, pick)),
{
    let keep = |c: Seq<char>| !is_shadowed(candidates, c);
    let kept = survivors(candidates);
    let at = choice(candidates, pick);
    let won = winner(candidates, pick);
    lemma_choice_in_range(candidates, pick);
    lemma_first_preferred(kept);
    candidates.lemma_filter_pred(keep, at);
    assert(kept.contains(won));
    candidates.lemma_filter_contains_rev(keep, won);
    assert forall|i: int|
        0 <= i < candidates.len() && !is_shadowed(candidates, #[trigger] candidates[i])
            && is_preferred(candidates[i]) implies is_preferred(won) by {
        candidates.lemma_filter_contains(keep, i);
        let j = choose|j: int| 0 <= j < kept.len() && kept[j] == candidates[i];
        if kept.len() > 1 {
            assert(first_preferred(kept) <= j);
        }
    }
}

/// Where a preferred candidate survives, a preferred candidate wins, and
/// chance is not asked.
pub proof fn lemma_preferred_wins(candidates: Seq<Seq<char>>, pick: int, i: int)
    requires
        0 <= i < candidates.len(),
        is_preferred(candidates[i]),
        !is_shadowed(candidates, candidates[i]),
        0 <= pick,
    ensures
        is_preferred(winner(candidates, pick)),
        !needs_tiebreak(candidates),
{
    let keep = |c: Seq<char>| !is_shadowed(candidates, c);
    let kept = survivors(candidates);
    lemma_winner_may_win(candidates, pick);
    lemma_first_preferred(kept);
    candidates.lemma_filter_contains(keep, i);
    let j = choose|j: int| 0 <= j < kept.len() && kept[j] == candidates[i];
    assert(first_preferred(kept) <= j);
}

/// One candidate alone wins, nothing loses, and chance is not asked.
pub proof fn lemma_single_candidate_wins(candidates: Seq<Seq<char>>, pick: int)
    requires
        candidates.len() == 1,
        0 <= pick,
    ensures
        !needs_tiebreak(candidates),
        winner(candidates, pick) == candidates[0],
        losers(candidates, pick) == Seq::<Seq<char>>::empty(),
{
    let keep = |c: Seq<char>| !is_shadowed(candidates, c);
    let lose = |c: Seq<char>| is_shadowed(candidates, c);
    let only = candidates[0];
    if is_shadowed(candidates, only) {
        lemma_std_is_not_shadowed(candidates, only, only);
    }
    assert(candidates =~= Seq::<Seq<char>>::empty().push(only));
    Seq::<Seq<char>>::empty().lemma_filter_push(only, keep);
    Seq::<Seq<char>>::empty().lemma_filter_push(only, lose);
    assert(Seq::<Seq<char>>::empty().filter(keep) =~= Seq::<Seq<char>>::empty()) by {
        reveal(Seq::filter);
    }
    assert(Seq::<Seq<char>>::empty().filter(lose) =~= Seq::<Seq<char>>::empty()) by {
        reveal(Seq::filter);
    }
    assert(survivors(candidates) =~= seq![only]);
    assert(shadowed(candidates) =~= Seq::<Seq<char>>::empty());
    assert(losers(candidates, pick) =~= Seq::<Seq<char>>::empty());
}

/// Of the `std` path and the `core` path of one item, the `std` path wins
/// and the `core` path loses, in whichever order they come, and chance is
/// not asked.
pub proof fn lemma_std_wins_over_core(a: Seq<char>, b: Seq<char>, pick: int)
    requires
        std_twin(a, b),
        0 <= pick,
    ensures
        !needs_tiebreak(seq![a, b]),
        winner(seq![a, b], pick) == a,
        losers(seq![a, b], pick) == seq![b],
        !needs_tiebreak(seq![b, a]),
        winner(seq![b, a], pick) == a,
        losers(seq![b, a], pick) == seq![b],
{
    lemma_pair_collapses(seq![a, b], a, b);
    lemma_pair_collapses(seq![b, a], a, b);
    assert(seq![a].remove(0) + seq![b] =~= seq![b]);
}

proof fn lemma_pair_collapses(candidates: Seq<Seq<char>>, a: Seq<char>, b: Seq<char>)
    requires
        std_twin(a, b),
        candidates == seq![a, b] || candidates == seq![b, a],
    ensures
        survivors(candidates) == seq![a],
        shadowed(candidates) == seq![b],
{
    let keep = |c: Seq<char>| !is_shadowed(candidates, c);
    let lose = |c: Seq<char>| is_shadowed(candidates, c);
    let none = Seq::<Seq<char>>::empty();
    lemma_std_is_not_shadowed(candidates, a, b);
    assert(is_shadowed(candidates, b)) by {
        if candidates == seq![a, b] {
            assert(std_twin(candidates[0], b));
        } else {
            assert(std_twin(candidates[1], b));
        }
    }
    assert(none.filter(keep) =~= none && none.filter(lose) =~= none) by {
        reveal(Seq::filter);
    }
    let x = candidates[0];
    let y = candidates[1];
    assert(candidates =~= none.push(x).push(y));
    none.lemma_filter_push(x, keep);
    none.lemma_filter_push(x, lose);
    none.push(x).lemma_filter_push(y, keep);
    none.push(x).lemma_filter_push(y, lose);
    assert(survivors(candidates) =~= seq![a]);
    assert(shadowed(candidates) =~= seq![b]);
}

/// Chance is the basis of a choice exactly where a tiebreak is needed.
pub proof fn lemma_chance_only_breaks_ties(candidates: Seq<Seq<char>>)
    ensures
        basis_of(candidates) == Basis::Chance <==> needs_tiebreak(candidates),
{
    candidates.lemma_filter_len(|c: Seq<char>| !is_shadowed(candidates, c));
}

/// Where no tiebreak is needed, what chance would give changes nothing.
pub proof fn lemma_decided_ignores_chance(candidates: Seq<Seq<char>>, pick: int, other: int)
    requires
        !needs_tiebreak(candidates),
    ensures
        winner(candidates, pick) == winner(candidates, other),
        losers(candidates, pick) == losers(candidates, other),
{
}

/// The winner and the losers are the candidates, each where it was: who is
/// a candidate has won or lost, and nobody else has.
pub proof fn lemma_losers_are_the_rest(candidates: Seq<Seq<char>>, pick: int)
    requires
        candidates.len() > 0,
        0 <= pick,
    ensures
        forall|c: Seq<char>|
            candidates.contains(c) <==> (c == winner(candidates, pick) || losers(
                candidates,
                pick,
            ).contains(c)),
{
    let keep = |c: Seq<char>| !is_shadowed(candidates, c);
    let lose = |c: Seq<char>| is_shadowed(candidates, c);
    let kept = survivors(candidates);
    let gone = shadowed(candidates);
    let at = choice(candidates, pick);
    let won = winner(candidates, pick);
    let lost = losers(candidates, pick);
    lemma_choice_in_range(candidates, pick);
    assert forall|c: Seq<char>| candidates.contains(c) implies (c == won || lost.contains(
        c,
    )) by {
        let i = choose|i: int| 0 <= i < candidates.len() && candidates[i] == c;
        if is_shadowed(candidates, c) {
            candidates.lemma_filter_contains(lose, i);
            let j = choose|j: int| 0 <= j < gone.len() && gone[j] == c;
            assert(lost[kept.len() - 1 + j] == c);
        } else {
            candidates.lemma_filter_contains(keep, i);
            let j = choose|j: int| 0 <= j < kept.len() && kept[j] == c;
            if j < at {
                assert(lost[j] == c);
            } else if j > at {
                assert(lost[j - 1] == c);
            }
        }
    }
    assert forall|c: Seq<char>| (c == won || lost.contains(c)) implies candidates.contains(
        c,
    ) by {
        if c == won {
            assert(kept.contains(c));
            candidates.lemma_filter_contains_rev(keep, c);
        } else {
            let j = choose|j: int| 0 <= j < lost.len() && lost[j] == c;
            if j < kept.len() - 1 {
                assert(kept.remove(at)[j] == c);
                if j < at {
                    assert(kept[j] == c);
                } else {
                    assert(kept[j + 1] == c);
                }
                assert(kept.contains(c));
                candidates.lemma_filter_contains_rev(keep, c);
            } else {
                assert(gone[j - (kept.len() - 1)] == c);
                assert(gone.contains(c));
                candidates.lemma_filter_contains_rev(lose, c);
            }
        }
    }
}

/// What is kept of a sequence without duplicates has none.
pub proof fn lemma_filter_keeps_distinct(
    items: Seq<Seq<char>>,
    keep: spec_fn(Seq<char>) -> bool,
)
    requires
        items.no_duplicates(),
    ensures
        items.filter(keep).no_duplicates(),
    decreases items.len(),
{
    reveal(Seq::filter);
    if items.len() > 0 {
        let front = items.drop_last();
        lemma_filter_keeps_distinct(front, keep);
        if keep(items.last()) && front.filter(keep).contains(items.last()) {
            front.lemma_filter_contains_rev(keep, items.last());
        }
    }
}

/// Among candidates that differ from one another, the winner is no loser,
/// and no loser occurs twice.
pub proof fn lemma_winner_is_no_loser(candidates: Seq<Seq<char>>, pick: int)
    requires
        candidates.len() > 0,
        candidates.no_duplicates(),
        0 <= pick,
    ensures
        !losers(candidates, pick).contains(winner(candidates, pick)),
        losers(candidates, pick).no_duplicates(),
{
    let keep = |c: Seq<char>| !is_shadowed(candidates, c);
    let lose = |c: Seq<char>| is_shadowed(candidates, c);
    let kept = survivors(candidates);
    let gone = shadowed(candidates);
    let at = choice(candidates, pick);
    let lost = losers(candidates, pick);
    lemma_choice_in_range(candidates, pick);
    lemma_filter_keeps_distinct(candidates, keep);
    lemma_filter_keeps_distinct(candidates, lose);
    candidates.lemma_filter_pred(keep, at);
    let rest = kept.remove(at);
    assert forall|j: int| 0 <= j < rest.len() implies rest[j] != kept[at] && keep(
        #[trigger] rest[j],
    ) by {
        if j < at {
            assert(rest[j] == kept[j]);
            candidates.lemma_filter_pred(keep, j);
        } else {
            assert(rest[j] == kept[j + 1]);
            candidates.lemma_filter_pred(keep, j + 1);
        }
    }
    assert forall|j: int| 0 <= j < gone.len() implies lose(#[trigger] gone[j]) by {
        candidates.lemma_filter_pred(lose, j);
    }
    assert(rest.no_duplicates()) by {
        assert forall|i: int, j: int| 0 <= i < rest.len() && 0 <= j < rest.len() && i
            != j implies rest[i] != rest[j] by {
            let a = if i < at { i } else { i + 1 };
            let b = if j < at { j } else { j + 1 };
            assert(rest[i] == kept[a] && rest[j] == kept[b]);
        }
    }
    assert forall|j: int| 0 <= j < lost.len() implies lost[j] != kept[at] by {
        if j < rest.len() {
            assert(lost[j] == rest[j]);
        } else {
            assert(lost[j] == gone[j - rest.len()]);
        }
    }
    assert forall|i: int, j: int| 0 <= i < lost.len() && 0 <= j < lost.len() && i
        != j implies lost[i] != lost[j] by {
        if i < rest.len() {
            assert(lost[i] == rest[i]);
        } else {
            assert(lost[i] == gone[i - rest.len()]);
        }
        if j < rest.len() {
            assert(lost[j] == rest[j]);
        } else {
            assert(lost[j] == gone[j - rest.len()]);
        }
    }
}

} // verus!
