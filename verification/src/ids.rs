//! The proposal ids that occur in a log, with constant-time lookup.

use crate::entry::ProposeId;
use std::collections::HashMap;
use vstd::multiset::Multiset;
use vstd::prelude::*;

verus! {

broadcast use vstd::std_specs::hash::group_hash_axioms;

/// A multiset of proposal ids. An id stays in it until it has been removed as often as it was
/// inserted, so an id that two entries share is still there when one of them is dropped.
pub struct IdBag {
    /// How often each id occurs; an id that does not occur is absent
    counts: HashMap<u128, usize>,
    /// The ids themselves
    ids: Ghost<Multiset<ProposeId>>,
}

impl View for IdBag {
    type V = Multiset<ProposeId>;

    closed spec fn view(&self) -> Multiset<ProposeId> {
        self.ids@
    }
}

/// Two ids with the same key are the same.
pub proof fn lemma_key_injective(a: ProposeId, b: ProposeId)
    ensures
        a.as_key() == b.as_key() ==> a == b,
{
}

impl IdBag {
    /// Whether the counts are those of the ids.
    pub closed spec fn wf(&self) -> bool {
        forall|id: ProposeId|
            #![trigger self.ids@.count(id)]
            {
                &&& self.counts@.contains_key(id.as_key()) <==> self.ids@.count(id) > 0
                &&& self.counts@.contains_key(id.as_key()) ==> self.counts@[id.as_key()]
                    == self.ids@.count(id)
            }
    }

    /// Creates an empty multiset.
    pub fn new() -> (bag: Self)
        ensures
            bag.wf(),
            bag@ == Multiset::<ProposeId>::empty(),
    {
        IdBag { counts: HashMap::new(), ids: Ghost(Multiset::empty()) }
    }

    /// Inserts an id once more.
    pub fn insert(&mut self, id: ProposeId)
        requires
            old(self).wf(),
            old(self)@.len() < usize::MAX,
        ensures
            final(self).wf(),
            final(self)@ == old(self)@.insert(id),
    {
        let key = id.key();
        let seen: usize = match self.counts.get(&key) {
            Some(n) => *n,
            None => 0,
        };
        assert(self.ids@.count(id) == seen);
        assert(seen <= self.ids@.len()) by {
            broadcast use vstd::multiset::group_multiset_axioms;

        }
        let _ = self.counts.insert(key, seen + 1);
        proof {
            let before = self.ids@;
            self.ids@ = before.insert(id);
            assert forall|other: ProposeId| #![trigger self.ids@.count(other)] {
                &&& self.counts@.contains_key(other.as_key()) <==> self.ids@.count(other) > 0
                &&& self.counts@.contains_key(other.as_key()) ==> self.counts@[other.as_key()]
                    == self.ids@.count(other)
            } by {
                lemma_key_injective(id, other);
                assert(before.count(other) >= 0);
            }
        }
    }

    /// Removes an id once.
    pub fn remove(&mut self, id: ProposeId)
        requires
            old(self).wf(),
        ensures
            final(self).wf(),
            final(self)@ == old(self)@.remove(id),
    {
        let key = id.key();
        let seen: usize = match self.counts.get(&key) {
            Some(n) => *n,
            None => 0,
        };
        assert(self.ids@.count(id) == seen);
        if seen > 1 {
            let _ = self.counts.insert(key, seen - 1);
        } else {
            let _ = self.counts.remove(&key);
        }
        proof {
            let before = self.ids@;
            self.ids@ = before.remove(id);
            assert forall|other: ProposeId| #![trigger self.ids@.count(other)] {
                &&& self.counts@.contains_key(other.as_key()) <==> self.ids@.count(other) > 0
                &&& self.counts@.contains_key(other.as_key()) ==> self.counts@[other.as_key()]
                    == self.ids@.count(other)
            } by {
                lemma_key_injective(id, other);
                assert(before.count(other) >= 0);
            }
        }
    }

    /// Whether an id occurs.
    pub fn contains(&self, id: &ProposeId) -> (found: bool)
        requires
            self.wf(),
        ensures
            found == self@.contains(*id),
    {
        assert(self.ids@.count(*id) >= 0);
        self.counts.contains_key(&id.key())
    }

    /// Removes all ids.
    pub fn clear(&mut self)
        ensures
            final(self).wf(),
            final(self)@ == Multiset::<ProposeId>::empty(),
    {
        self.counts.clear();
        proof {
            self.ids@ = Multiset::empty();
        }
    }
}

} // verus!
