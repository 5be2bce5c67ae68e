//! Sets of candidate fixes: the fully qualified paths that a run has accepted
//! or excluded.

use vstd::prelude::*;

verus! {

/// A set of candidates, each held once, in the order in which they came.
pub struct CandidateSet {
    items: Vec<String>,
}

impl View for CandidateSet {
    type V = Seq<Seq<char>>;

    /// The members, oldest first.
    closed spec fn view(&self) -> Seq<Seq<char>> {
        self.items.deep_view()
    }
}

impl CandidateSet {
    #[verifier::type_invariant]
    spec fn holds_each_once(&self) -> bool {
        self.items.deep_view().no_duplicates()
    }

    /// The set with no member.
    pub fn new() -> (set: Self)
        ensures
            set@ == Seq::<Seq<char>>::empty(),
    {
        let set = CandidateSet { items: Vec::new() };
        assert(set.items.deep_view() =~= Seq::<Seq<char>>::empty());
        set
    }

    /// The number of members. No member is held twice.
    pub fn len(&self) -> (n: usize)
        ensures
            n == self@.len(),
            self@.no_duplicates(),
    {
        proof {
            use_type_invariant(self);
        }
        self.items.len()
    }

    /// Whether `candidate` is a member.
    pub fn contains(&self, candidate: &str) -> (found: bool)
        ensures
            found == self@.contains(candidate@),
    {
        let wanted = candidate.to_owned();
        let mut i: usize = 0;
        while i < self.items.len()
            invariant
                i <= self.items.len(),
                wanted@ == candidate@,
                forall|k: int| 0 <= k < i ==> self.items.deep_view()[k] != candidate@,
            decreases self.items.len() - i,
        {
            if self.items[i] == wanted {
                assert(self.items.deep_view()[i as int] == candidate@);
                return true;
            }
            i += 1;
        }
        false
    }

    /// Adds `candidate` unless it is a member already, and tells whether it
    /// was added. The members before it stay, in their order.
    pub fn insert(&mut self, candidate: String) -> (added: bool)
        ensures
            added == !old(self)@.contains(candidate@),
            final(self)@ == if added {
                old(self)@.push(candidate@)
            } else {
                old(self)@
            },
            final(self)@.no_duplicates(),
    {
        proof {
            use_type_invariant(&*self);
        }
        if self.contains(candidate.as_str()) {
            false
        } else {
            let mut items: Vec<String> = Vec::new();
            assert(items.deep_view() =~= Seq::<Seq<char>>::empty());
            core::mem::swap(&mut self.items, &mut items);
            let ghost before = items.deep_view();
            items.push(candidate);
            assert(items.deep_view() =~= before.push(candidate@));
            self.items = items;
            true
        }
    }

    /// The members, oldest first.
    pub fn members(&self) -> (items: &Vec<String>)
        ensures
            items.deep_view() == self@,
            self@.no_duplicates(),
    {
        proof {
            use_type_invariant(self);
        }
        &self.items
    }
}

} // verus!
