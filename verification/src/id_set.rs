//! A set of part ids.
//!
//! Both peers keep one: the sender for the parts that no Ack has confirmed
//! yet, the receiver for the parts that have arrived.  The ids are held in a
//! vector in strictly increasing order, so a member is found by bisection and
//! nothing is held twice.

use vstd::prelude::*;

verus! {

/// True if each element is less than the ones after it.
pub open spec fn increasing(s: Seq<u32>) -> bool {
    forall|i: int, j: int| 0 <= i < j < s.len() ==> s[i] < s[j]
}

/// The test "is in `known`", as a function of the id.
pub open spec fn member_of(known: Set<u32>) -> spec_fn(u32) -> bool {
    |id: u32| known.contains(id)
}

/// The test "is not in `known`", as a function of the id.
pub open spec fn missing_from(known: Set<u32>) -> spec_fn(u32) -> bool {
    |id: u32| !known.contains(id)
}

/// A finite set of part ids.
pub struct IdSet {
    ids: Vec<u32>,
}

impl View for IdSet {
    type V = Set<u32>;

    closed spec fn view(&self) -> Set<u32> {
        self.ids@.to_set()
    }
}

impl IdSet {
    /// The invariant: the ids are stored in strictly increasing order.
    pub closed spec fn wf(&self) -> bool {
        increasing(self.ids@)
    }

    /// The members, least first.
    pub closed spec fn ascending(&self) -> Seq<u32> {
        self.ids@
    }

    /// How the set and the list of its members relate.
    pub proof fn lemma_ascending(&self)
        requires
            self.wf(),
        ensures
            increasing(self.ascending()),
            self.ascending().no_duplicates(),
            self.ascending().to_set() == self@,
            self.ascending().len() == self@.len(),
            self@.finite(),
            forall|id: u32| self@.contains(id) <==> self.ascending().contains(id),
    {
        let s = self.ids@;
        assert(s.no_duplicates());
        s.unique_seq_to_set();
        vstd::seq_lib::seq_to_set_is_finite(s);
    }

    /// The empty set.
    pub fn new() -> (set: Self)
        ensures
            set.wf(),
            set@ == Set::<u32>::empty(),
    {
        let set = IdSet { ids: Vec::new() };
        proof {
            assert(set.ids@.to_set() =~= Set::<u32>::empty());
        }
        set
    }

    /// The number of members.
    pub fn len(&self) -> (n: usize)
        requires
            self.wf(),
        ensures
            n == self@.len(),
    {
        proof {
            self.lemma_ascending();
        }
        self.ids.len()
    }

    /// True if the set has no member.
    pub fn is_empty(&self) -> (empty: bool)
        requires
            self.wf(),
        ensures
            empty == (self@ == Set::<u32>::empty()),
    {
        proof {
            self.lemma_ascending();
            if self.ids@.len() == 0 {
                assert(self@ =~= Set::<u32>::empty());
            } else {
                assert(self.ids@.contains(self.ids@[0]));
            }
        }
        self.ids.len() == 0
    }

    /// The index of the first stored id that is not less than `id`.
    fn position(&self, id: u32) -> (at: usize)
        requires
            self.wf(),
        ensures
            at <= self.ids@.len(),
            forall|i: int| 0 <= i < at ==> self.ids@[i] < id,
            forall|i: int| at <= i < self.ids@.len() ==> self.ids@[i] >= id,
    {
        let mut low: usize = 0;
        let mut high: usize = self.ids.len();
        while low < high
            invariant
                low <= high <= self.ids@.len(),
                increasing(self.ids@),
                forall|i: int| 0 <= i < low ==> self.ids@[i] < id,
                forall|i: int| high <= i < self.ids@.len() ==> self.ids@[i] >= id,
            decreases high - low,
        {
            let middle = low + (high - low) / 2;
            if self.ids[middle] < id {
                low = middle + 1;
            } else {
                high = middle;
            }
        }
        low
    }

    /// Tells whether `id` is a member.
    pub fn contains(&self, id: u32) -> (found: bool)
        requires
            self.wf(),
        ensures
            found == self@.contains(id),
    {
        let at = self.position(id);
        let found = at < self.ids.len() && self.ids[at] == id;
        proof {
            if found {
                assert(self.ids@[at as int] == id);
                assert(self.ids@.contains(id));
            }
        }
        found
    }

    /// Adds `id`.  Adding a member again changes nothing.  Returns whether
    /// `id` is new to the set.
    pub fn insert(&mut self, id: u32) -> (fresh: bool)
        requires
            old(self).wf(),
        ensures
            final(self).wf(),
            final(self)@ == old(self)@.insert(id),
            fresh == !old(self)@.contains(id),
    {
        let at = self.position(id);
        if at < self.ids.len() && self.ids[at] == id {
            proof {
                assert(self.ids@[at as int] == id);
                assert(self.ids@.contains(id));
                assert(self@ =~= self@.insert(id));
            }
            return false;
        }
        let ghost before = self.ids@;
        self.ids.insert(at, id);
        proof {
            let after = self.ids@;
            assert(after == before.insert(at as int, id));
            assert forall|i: int, j: int| 0 <= i < j < after.len() implies after[i] < after[j] by {
                let oi = if i < at { i } else { i - 1 };
                let oj = if j < at { j } else { j - 1 };
                if i != at && j != at {
                    assert(before[oi] < before[oj]);
                }
            }
            assert forall|x: u32| after.to_set().contains(x) <==> before.to_set().insert(
                id,
            ).contains(x) by {
                if after.contains(x) {
                    let k = choose|k: int| 0 <= k < after.len() && after[k] == x;
                    if k != at {
                        let ok = if k < at { k } else { k - 1 };
                        assert(before[ok] == x);
                    }
                }
                if before.contains(x) {
                    let k = choose|k: int| 0 <= k < before.len() && before[k] == x;
                    let nk = if k < at { k } else { k + 1 };
                    assert(after[nk] == x);
                }
                if x == id {
                    assert(after[at as int] == x);
                }
            }
            assert(after.to_set() =~= before.to_set().insert(id));
            assert(!before.contains(id)) by {
                if before.contains(id) {
                    let k = choose|k: int| 0 <= k < before.len() && before[k] == id;
                    assert(k < at || k >= at);
                }
            }
        }
        true
    }

    /// Takes `id` out.  Taking out what is no member changes nothing.
    /// Returns whether `id` was a member.
    pub fn remove(&mut self, id: u32) -> (present: bool)
        requires
            old(self).wf(),
        ensures
            final(self).wf(),
            final(self)@ == old(self)@.remove(id),
            present == old(self)@.contains(id),
    {
        let at = self.position(id);
        if at >= self.ids.len() || self.ids[at] != id {
            proof {
                assert(!self.ids@.contains(id)) by {
                    if self.ids@.contains(id) {
                        let k = choose|k: int| 0 <= k < self.ids@.len() && self.ids@[k] == id;
                        assert(k < at || k >= at);
                    }
                }
                assert(self@ =~= self@.remove(id));
            }
            return false;
        }
        let ghost before = self.ids@;
        self.ids.remove(at);
        proof {
            let after = self.ids@;
            assert(after == before.remove(at as int));
            assert(before[at as int] == id);
            assert(before.contains(id));
            assert forall|i: int, j: int| 0 <= i < j < after.len() implies after[i] < after[j] by {
                let oi = if i < at { i } else { i + 1 };
                let oj = if j < at { j } else { j + 1 };
                assert(before[oi] < before[oj]);
            }
            assert forall|x: u32| after.to_set().contains(x) <==> before.to_set().remove(
                id,
            ).contains(x) by {
                if after.contains(x) {
                    let k = choose|k: int| 0 <= k < after.len() && after[k] == x;
                    let ok = if k < at { k } else { k + 1 };
                    assert(before[ok] == x);
                    assert(ok != at);
                    assert(x != id);
                }
                if before.contains(x) && x != id {
                    let k = choose|k: int| 0 <= k < before.len() && before[k] == x;
                    let nk = if k < at { k } else { k - 1 };
                    assert(after[nk] == x);
                }
            }
            assert(after.to_set() =~= before.to_set().remove(id));
        }
        true
    }

    /// A copy of the members, least first.
    pub fn to_vec(&self) -> (members: Vec<u32>)
        requires
            self.wf(),
        ensures
            members@ == self.ascending(),
    {
        self.ids.clone()
    }
}

} // verus!
