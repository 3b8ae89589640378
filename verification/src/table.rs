//! A small association table keyed by request id, used for the per-request
//! election state and the buffered client requests. Keys are unique; lookup
//! is by linear scan, which suits the handful of requests in flight at once.

use vstd::prelude::*;

use crate::envelope::ReqId;

verus! {

/// An association table from request ids to values, with unique keys.
pub struct ReqTable<V> {
    pub entries: Vec<(ReqId, V)>,
}

impl<V> ReqTable<V> {
    /// The key of the entry at position `i`.
    pub open spec fn key_at(self, i: int) -> ReqId {
        self.entries@[i].0
    }

    /// Some entry is keyed by `id`.
    pub open spec fn has(self, id: ReqId) -> bool {
        exists|i: int| 0 <= i < self.entries@.len() && self.key_at(i) == id
    }

    /// The position of the entry keyed by `id`.
    pub open spec fn index_of(self, id: ReqId) -> int {
        choose|i: int| 0 <= i < self.entries@.len() && self.key_at(i) == id
    }

    /// The value stored under `id`.
    pub open spec fn val(self, id: ReqId) -> V {
        self.entries@[self.index_of(id)].1
    }

    /// Keys are unique.
    pub open spec fn wf(self) -> bool {
        forall|i: int, j: int| 0 <= i < j < self.entries@.len() ==> self.key_at(i) != self.key_at(j)
    }

    /// The table is empty.
    pub open spec fn spec_is_empty(self) -> bool {
        self.entries@.len() == 0
    }

    /// An entry position with the sought key is the position `index_of`
    /// names: keys are unique.
    pub proof fn lemma_index_at(self, id: ReqId, i: int)
        requires
            self.wf(),
            0 <= i < self.entries@.len(),
            self.key_at(i) == id,
        ensures
            self.has(id),
            self.index_of(id) == i,
    {
        assert(self.has(id));
        let j = self.index_of(id);
        if i < j {
            assert(self.key_at(i) != self.key_at(j));
        } else if j < i {
            assert(self.key_at(j) != self.key_at(i));
        }
    }

    /// An empty table.
    pub fn new() -> (t: Self)
        ensures
            t.wf(),
            t.entries@.len() == 0,
            forall|id: ReqId| !t.has(id),
    {
        ReqTable { entries: Vec::new() }
    }

    /// Whether no entry is present.
    pub fn is_empty(&self) -> (r: bool)
        ensures
            r == self.spec_is_empty(),
    {
        self.entries.len() == 0
    }

    /// The position of the entry keyed by `id`, if any.
    fn find(&self, id: ReqId) -> (r: Option<usize>)
        ensures
            r matches Some(i) ==> 0 <= i < self.entries@.len() && self.key_at(i as int) == id,
            r is None ==> !self.has(id),
    {
        let n = self.entries.len();
        let mut i: usize = 0;
        while i < n
            invariant
                i <= n == self.entries@.len(),
                forall|j: int| 0 <= j < i ==> self.key_at(j) != id,
            decreases n - i,
        {
            if self.entries[i].0 == id {
                return Some(i);
            }
            i = i + 1;
        }
        None
    }

    /// Whether an entry is keyed by `id`.
    pub fn contains(&self, id: ReqId) -> (r: bool)
        ensures
            r == self.has(id),
    {
        match self.find(id) {
            Some(i) => {
                proof {
                    assert(self.has(id));
                }
                true
            },
            None => false,
        }
    }

    /// A reference to the value stored under `id`, if any.
    pub fn get(&self, id: ReqId) -> (r: Option<&V>)
        requires
            self.wf(),
        ensures
            (r is Some) == self.has(id),
            r matches Some(v) ==> *v == self.val(id),
    {
        match self.find(id) {
            Some(i) => {
                proof {
                    self.lemma_index_at(id, i as int);
                }
                Some(&self.entries[i].1)
            },
            None => None,
        }
    }

    /// Stores `v` under `id`, replacing any earlier value.
    pub fn insert(&mut self, id: ReqId, v: V)
        requires
            old(self).wf(),
        ensures
            final(self).wf(),
            final(self).has(id),
            final(self).val(id) == v,
            forall|id2: ReqId| id2 != id ==> final(self).has(id2) == old(self).has(id2),
            forall|id2: ReqId|
                id2 != id && old(self).has(id2) ==> final(self).val(id2) == old(self).val(id2),
            old(self).has(id) ==> final(self).entries@.len() == old(self).entries@.len(),
            !old(self).has(id) ==> final(self).entries@.len() == old(self).entries@.len() + 1,
    {
        let ghost m0 = *self;
        let found = self.find(id);
        let i: usize = match found {
            Some(i) => {
                self.entries[i] = (id, v);
                proof {
                    assert forall|k: int, j: int|
                        0 <= k < j < self.entries@.len() implies self.key_at(k) != self.key_at(
                        j,
                    ) by {
                        assert(m0.key_at(k) != m0.key_at(j));
                    }
                    m0.lemma_index_at(id, i as int);
                }
                i
            },
            None => {
                self.entries.push((id, v));
                proof {
                    assert forall|k: int, j: int|
                        0 <= k < j < self.entries@.len() implies self.key_at(k) != self.key_at(
                        j,
                    ) by {
                        if j == self.entries@.len() - 1 {
                            assert(m0.key_at(k) != id);
                        } else {
                            assert(m0.key_at(k) != m0.key_at(j));
                        }
                    }
                }
                self.entries.len() - 1
            },
        };
        proof {
            self.lemma_index_at(id, i as int);
            assert forall|id2: ReqId|
                id2 != id implies final_entry_eq(m0, *self, id2) by {
                if m0.has(id2) {
                    let j = m0.index_of(id2);
                    m0.lemma_index_at(id2, j);
                    assert(j != i);
                    assert(self.key_at(j) == id2);
                    self.lemma_index_at(id2, j);
                    assert(self.entries@[j] == m0.entries@[j]);
                } else {
                    if self.has(id2) {
                        let j = self.index_of(id2);
                        if j < m0.entries@.len() && j != i {
                            assert(m0.key_at(j) == id2);
                        } else {
                            assert(self.key_at(j) == id);
                        }
                        assert(false);
                    }
                }
            }
            assert forall|id2: ReqId| id2 != id implies self.has(id2) == m0.has(id2) by {
                assert(final_entry_eq(m0, *self, id2));
            }
            assert forall|id2: ReqId| id2 != id && m0.has(id2) implies self.val(id2) == m0.val(
                id2,
            ) by {
                assert(final_entry_eq(m0, *self, id2));
            }
        }
    }

    /// Removes the entry keyed by `id`, if any.
    pub fn remove(&mut self, id: ReqId) -> (r: Option<V>)
        requires
            old(self).wf(),
        ensures
            final(self).wf(),
            (r is Some) == old(self).has(id),
            r matches Some(v) ==> v == old(self).val(id),
            !final(self).has(id),
            r is None ==> *final(self) == *old(self),
            forall|id2: ReqId| id2 != id ==> final(self).has(id2) == old(self).has(id2),
            forall|id2: ReqId|
                id2 != id && old(self).has(id2) ==> final(self).val(id2) == old(self).val(id2),
    {
        let ghost m0 = *self;
        match self.find(id) {
            Some(i) => {
                proof {
                    m0.lemma_index_at(id, i as int);
                }
                let (_key, v) = self.entries.remove(i);
                proof {
                    assert forall|k: int|
                        0 <= k < self.entries@.len() implies self.entries@[k] == if k < i {
                        m0.entries@[k]
                    } else {
                        m0.entries@[k + 1]
                    } by {}
                    assert forall|k: int, j: int|
                        0 <= k < j < self.entries@.len() implies self.key_at(k) != self.key_at(
                        j,
                    ) by {
                        let k0 = if k < i { k } else { k + 1 };
                        let j0 = if j < i { j } else { j + 1 };
                        assert(m0.key_at(k0) != m0.key_at(j0));
                    }
                    assert(!self.has(id)) by {
                        if self.has(id) {
                            let j = self.index_of(id);
                            let j0 = if j < i { j } else { j + 1 };
                            assert(m0.key_at(j0) == id);
                            m0.lemma_index_at(id, j0);
                        }
                    }
                    assert forall|id2: ReqId| id2 != id implies self.has(id2) == m0.has(id2) && (
                    m0.has(id2) ==> self.val(id2) == m0.val(id2)) by {
                        if m0.has(id2) {
                            let j0 = m0.index_of(id2);
                            m0.lemma_index_at(id2, j0);
                            let j = if j0 < i { j0 } else { j0 - 1 };
                            assert(self.key_at(j) == id2);
                            self.lemma_index_at(id2, j);
                            assert(self.entries@[j] == m0.entries@[j0]);
                        } else {
                            if self.has(id2) {
                                let j = self.index_of(id2);
                                let j0 = if j < i { j } else { j + 1 };
                                assert(m0.key_at(j0) == id2);
                            }
                        }
                    }
                }
                Some(v)
            },
            None => None,
        }
    }
}

/// Key `id` stands in both tables alike, with the same value.
pub open spec fn final_entry_eq<V>(t1: ReqTable<V>, t2: ReqTable<V>, id: ReqId) -> bool {
    &&& t2.has(id) == t1.has(id)
    &&& (t1.has(id) ==> t2.val(id) == t1.val(id))
}

} // verus!
