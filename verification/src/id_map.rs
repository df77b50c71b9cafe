//! The identifier map of one source document: from each of its object
//! identifiers to the identifier that the object takes in the merged
//! document.

use vstd::prelude::*;
use crate::object::ObjectId;
use crate::table::{ascending, holds, lemma_slot, lemma_slot_of_entry, search, slot};

verus! {

/// A finite map from identifiers to identifiers.
#[derive(Debug, PartialEq, Eq)]
pub struct IdMap {
    pairs: Vec<(ObjectId, ObjectId)>,
}

impl View for IdMap {
    type V = Map<ObjectId, ObjectId>;

    closed spec fn view(&self) -> Map<ObjectId, ObjectId> {
        Map::new(
            |id: ObjectId| holds(self.pairs@, id),
            |id: ObjectId| self.pairs@[slot(self.pairs@, id)].1,
        )
    }
}

impl IdMap {
    /// The map's invariant: its pairs ascend strictly by the identifier
    /// mapped from.
    pub closed spec fn wf(&self) -> bool {
        ascending(self.pairs@)
    }

    /// An empty map.
    pub fn new() -> (map: IdMap)
        ensures
            map.wf(),
            map@ == Map::<ObjectId, ObjectId>::empty(),
    {
        let map = IdMap { pairs: Vec::new() };
        assert(map@ =~= Map::<ObjectId, ObjectId>::empty());
        map
    }

    /// Maps `from` to `to`, in place of whatever `from` was mapped to.
    pub fn insert(&mut self, from: ObjectId, to: ObjectId)
        requires
            old(self).wf(),
        ensures
            final(self).wf(),
            final(self)@ == old(self)@.insert(from, to),
    {
        let ghost before = self.pairs@;
        match search(&self.pairs, &from) {
            Ok(at) => {
                self.pairs[at].1 = to;
                proof {
                    let after = self.pairs@;
                    assert(after =~= before.update(at as int, (from, to)));
                    assert forall|i: int, j: int| 0 <= i < j < after.len() implies (
                    #[trigger] after[i]).0.before((#[trigger] after[j]).0) by {
                        assert(before[i].0.before(before[j].0));
                    }
                    assert forall|id: ObjectId|
                        holds(after, id) <==> (id == from || holds(before, id)) by {
                        if holds(after, id) {
                            let w = choose|i: int|
                                0 <= i < after.len() && (#[trigger] after[i]).0 == id;
                            assert(before[w].0 == id);
                        }
                        if holds(before, id) {
                            let w = choose|i: int|
                                0 <= i < before.len() && (#[trigger] before[i]).0 == id;
                            assert(after[w].0 == id);
                        }
                        if id == from {
                            assert(after[at as int].0 == id);
                        }
                    }
                    assert forall|id: ObjectId| holds(after, id) implies after[slot(after, id)].1
                        == (if id == from {
                        to
                    } else {
                        before[slot(before, id)].1
                    }) by {
                        let w = choose|i: int|
                            0 <= i < after.len() && (#[trigger] after[i]).0 == id;
                        lemma_slot_of_entry(after, w);
                        lemma_slot_of_entry(before, w);
                    }
                    assert(self@ =~= old(self)@.insert(from, to));
                }
            },
            Err(at) => {
                self.pairs.insert(at, (from, to));
                proof {
                    let after = self.pairs@;
                    assert(after =~= before.insert(at as int, (from, to)));
                    assert forall|i: int, j: int| 0 <= i < j < after.len() implies (
                    #[trigger] after[i]).0.before((#[trigger] after[j]).0) by {
                        let a = if i < at { i } else { i - 1 };
                        let b = if j < at { j } else { j - 1 };
                        if i != at && j != at {
                            assert(before[a].0.before(before[b].0));
                        } else if i == at {
                            assert(!before[b].0.before(from));
                        } else {
                            assert(before[a].0.before(from));
                        }
                    }
                    assert forall|id: ObjectId|
                        holds(after, id) <==> (id == from || holds(before, id)) by {
                        if holds(after, id) {
                            let w = choose|i: int|
                                0 <= i < after.len() && (#[trigger] after[i]).0 == id;
                            if w != at {
                                let b = if w < at { w } else { w - 1 };
                                assert(before[b].0 == id);
                            }
                        }
                        if holds(before, id) {
                            let w = choose|i: int|
                                0 <= i < before.len() && (#[trigger] before[i]).0 == id;
                            let a = if w < at { w } else { w + 1 };
                            assert(after[a].0 == id);
                        }
                        if id == from {
                            assert(after[at as int].0 == id);
                        }
                    }
                    assert forall|id: ObjectId| holds(after, id) implies after[slot(after, id)].1
                        == (if id == from {
                        to
                    } else {
                        before[slot(before, id)].1
                    }) by {
                        let w = choose|i: int|
                            0 <= i < after.len() && (#[trigger] after[i]).0 == id;
                        lemma_slot_of_entry(after, w);
                        if w != at {
                            let b = if w < at { w } else { w - 1 };
                            assert(before[b].0 == id);
                            lemma_slot_of_entry(before, b);
                        }
                    }
                    assert(self@ =~= old(self)@.insert(from, to));
                }
            },
        }
    }

    /// The identifier that `id` is mapped to, if it is mapped.
    pub fn get(&self, id: &ObjectId) -> (target: Option<ObjectId>)
        requires
            self.wf(),
        ensures
            target == (if self@.contains_key(*id) {
                Some(self@[*id])
            } else {
                None
            }),
    {
        match search(&self.pairs, id) {
            Ok(at) => {
                proof {
                    lemma_slot(self.pairs@, *id, at as int);
                }
                Some(self.pairs[at].1)
            },
            Err(_) => None,
        }
    }
}

} // verus!
