//! The object table: objects keyed by identifier, kept in ascending order
//! of their identifiers.

use vstd::prelude::*;
use crate::object::{Object, ObjectId, ObjectModel};

verus! {

/// Whether the identifiers of `entries` ascend strictly.
pub open spec fn ascending<T>(entries: Seq<(ObjectId, T)>) -> bool {
    forall|i: int, j: int|
        0 <= i < j < entries.len() ==> (#[trigger] entries[i]).0.before((#[trigger] entries[j]).0)
}

/// Whether `at` is where `id` stands or would have to go: every earlier
/// entry comes before `id`, no later one does.
pub open spec fn divides<T>(entries: Seq<(ObjectId, T)>, id: ObjectId, at: int) -> bool {
    &&& 0 <= at <= entries.len()
    &&& forall|i: int| 0 <= i < at ==> (#[trigger] entries[i]).0.before(id)
    &&& forall|i: int| at <= i < entries.len() ==> !(#[trigger] entries[i]).0.before(id)
}

/// Whether some entry is keyed by `id`.
pub open spec fn holds<T>(entries: Seq<(ObjectId, T)>, id: ObjectId) -> bool {
    exists|i: int| 0 <= i < entries.len() && (#[trigger] entries[i]).0 == id
}

/// The position of the entry keyed by `id`, where there is one; otherwise
/// the position at which it would have to go.
pub open spec fn slot<T>(entries: Seq<(ObjectId, T)>, id: ObjectId) -> int {
    choose|at: int| divides(entries, id, at)
}

/// The entries after `value` has been stored under `id`: it takes the place
/// of the entry keyed by `id`, or goes where the order puts it.
pub open spec fn stored<T>(entries: Seq<(ObjectId, T)>, id: ObjectId, value: T) -> Seq<
    (ObjectId, T),
> {
    if holds(entries, id) {
        entries.update(slot(entries, id), (id, value))
    } else {
        entries.insert(slot(entries, id), (id, value))
    }
}

/// In an ascending table there is one dividing position for each identifier.
pub proof fn lemma_slot<T>(entries: Seq<(ObjectId, T)>, id: ObjectId, at: int)
    requires
        ascending(entries),
        divides(entries, id, at),
    ensures
        slot(entries, id) == at,
        holds(entries, id) <==> (at < entries.len() && entries[at].0 == id),
{
    let c = slot(entries, id);
    assert(divides(entries, id, c));
    if c < at {
        assert(entries[c].0.before(id));
    }
    if at < c {
        assert(entries[at].0.before(id));
    }
    if holds(entries, id) {
        let w = choose|i: int| 0 <= i < entries.len() && (#[trigger] entries[i]).0 == id;
        if w < at {
            assert(entries[w].0.before(id));
        }
        if w > at {
            assert(entries[at].0.before(entries[w].0));
        }
    }
}

/// In ascending entries each entry stands at the slot of its identifier.
pub proof fn lemma_slot_of_entry<T>(entries: Seq<(ObjectId, T)>, at: int)
    requires
        ascending(entries),
        0 <= at < entries.len(),
    ensures
        holds(entries, entries[at].0),
        slot(entries, entries[at].0) == at,
        divides(entries, entries[at].0, at),
{
    let id = entries[at].0;
    assert forall|i: int| 0 <= i < at implies (#[trigger] entries[i]).0.before(id) by {}
    assert forall|i: int| at <= i < entries.len() implies !(#[trigger] entries[i]).0.before(
        id,
    ) by {
        if at < i {
            assert(entries[at].0.before(entries[i].0));
        }
    }
    lemma_slot(entries, id, at);
}

/// Finds `id` among ascending entries by halving: `Ok` with its position,
/// or `Err` with the position at which it would have to go.
pub fn search<T>(entries: &Vec<(ObjectId, T)>, id: &ObjectId) -> (found: Result<usize, usize>)
    requires
        ascending(entries@),
    ensures
        match found {
            Ok(at) => at < entries.len() && entries@[at as int].0 == *id && divides(
                entries@,
                *id,
                at as int,
            ),
            Err(at) => !holds(entries@, *id) && divides(entries@, *id, at as int),
        },
{
    let mut low: usize = 0;
    let mut high: usize = entries.len();
    while low < high
        invariant
            low <= high <= entries.len(),
            ascending(entries@),
            forall|i: int| 0 <= i < low ==> (#[trigger] entries@[i]).0.before(*id),
            forall|i: int| high <= i < entries.len() ==> !(#[trigger] entries@[i]).0.before(*id),
        decreases high - low,
    {
        let middle: usize = low + (high - low) / 2;
        if entries[middle].0.precedes(id) {
            low = middle + 1;
        } else {
            high = middle;
        }
    }
    if low < entries.len() && entries[low].0 == *id {
        Ok(low)
    } else {
        proof {
            if holds(entries@, *id) {
                let w = choose|i: int| 0 <= i < entries.len() && (#[trigger] entries@[i]).0 == *id;
                if w < low {
                    assert(entries@[w].0.before(*id));
                }
                if w > low {
                    assert(entries@[low as int].0.before(entries@[w].0));
                }
            }
        }
        Err(low)
    }
}

/// The objects of one document, each under its identifier.
///
/// The entries are kept in ascending order of their identifiers, so no
/// identifier stands twice and the table is walked in that order.
#[derive(Debug, PartialEq, Eq)]
pub struct ObjectTable {
    entries: Vec<(ObjectId, Object)>,
}

/// The value of a list of table entries, entry by entry.
pub open spec fn table_model(entries: Seq<(ObjectId, Object)>) -> Seq<(ObjectId, ObjectModel)> {
    Seq::new(entries.len(), |i: int| (entries[i].0, entries[i].1@))
}

impl View for ObjectTable {
    type V = Seq<(ObjectId, ObjectModel)>;

    closed spec fn view(&self) -> Seq<(ObjectId, ObjectModel)> {
        table_model(self.entries@)
    }
}

impl ObjectTable {
    /// The table's invariant: its identifiers ascend strictly.
    pub open spec fn wf(&self) -> bool {
        ascending(self@)
    }

    proof fn lemma_entries_ascend(&self)
        requires
            self.wf(),
        ensures
            ascending(self.entries@),
            self@.len() == self.entries@.len(),
            forall|id: ObjectId, at: int|
                divides(self.entries@, id, at) <==> divides(self@, id, at),
            forall|id: ObjectId| holds(self.entries@, id) <==> holds(self@, id),
    {
        assert forall|i: int, j: int| 0 <= i < j < self.entries@.len() implies (
        #[trigger] self.entries@[i]).0.before((#[trigger] self.entries@[j]).0) by {
            assert(self@[i].0.before(self@[j].0));
        }
        assert forall|id: ObjectId, at: int| divides(self.entries@, id, at) implies divides(
            self@,
            id,
            at,
        ) by {
            assert forall|i: int| 0 <= i < at implies (#[trigger] self@[i]).0.before(id) by {
                assert(self.entries@[i].0.before(id));
            }
            assert forall|i: int| at <= i < self@.len() implies !(#[trigger] self@[i]).0.before(
                id,
            ) by {
                assert(!self.entries@[i].0.before(id));
            }
        }
        assert forall|id: ObjectId, at: int| divides(self@, id, at) implies divides(
            self.entries@,
            id,
            at,
        ) by {
            assert forall|i: int| 0 <= i < at implies (#[trigger] self.entries@[i]).0.before(
                id,
            ) by {
                assert(self@[i].0.before(id));
            }
            assert forall|i: int| at <= i < self.entries@.len() implies !(
            #[trigger] self.entries@[i]).0.before(id) by {
                assert(!self@[i].0.before(id));
            }
        }
        assert forall|id: ObjectId| holds(self.entries@, id) implies holds(self@, id) by {
            let w = choose|i: int|
                0 <= i < self.entries@.len() && (#[trigger] self.entries@[i]).0 == id;
            assert(self@[w].0 == id);
        }
        assert forall|id: ObjectId| holds(self@, id) implies holds(self.entries@, id) by {
            let w = choose|i: int| 0 <= i < self@.len() && (#[trigger] self@[i]).0 == id;
            assert(self.entries@[w].0 == id);
        }
    }

    /// An empty table.
    pub fn new() -> (table: ObjectTable)
        ensures
            table@ == Seq::<(ObjectId, ObjectModel)>::empty(),
            table.wf(),
    {
        let table = ObjectTable { entries: Vec::new() };
        assert(table@ =~= Seq::<(ObjectId, ObjectModel)>::empty());
        table
    }

    /// The number of objects.
    pub fn len(&self) -> (n: usize)
        ensures
            n == self@.len(),
    {
        self.entries.len()
    }

    /// Whether the table holds no object.
    pub fn is_empty(&self) -> (empty: bool)
        ensures
            empty == (self@.len() == 0),
    {
        self.entries.len() == 0
    }

    /// The identifier at position `at` of the ascending order.
    pub fn id_at(&self, at: usize) -> (id: ObjectId)
        requires
            at < self@.len(),
        ensures
            id == self@[at as int].0,
    {
        self.entries[at].0
    }

    /// The object at position `at` of the ascending order.
    pub fn object_at(&self, at: usize) -> (object: &Object)
        requires
            at < self@.len(),
        ensures
            object@ == self@[at as int].1,
    {
        &self.entries[at].1
    }

    /// The position of the object keyed by `id`, if the table holds one.
    pub fn position(&self, id: &ObjectId) -> (found: Option<usize>)
        requires
            self.wf(),
        ensures
            match found {
                Some(at) => holds(self@, *id) && at == slot(self@, *id) && at < self@.len()
                    && self@[at as int].0 == *id,
                None => !holds(self@, *id),
            },
    {
        proof {
            self.lemma_entries_ascend();
        }
        match search(&self.entries, id) {
            Ok(at) => {
                proof {
                    lemma_slot(self@, *id, at as int);
                }
                Some(at)
            },
            Err(_) => None,
        }
    }

    /// Whether the table holds an object keyed by `id`.
    pub fn contains_key(&self, id: &ObjectId) -> (present: bool)
        requires
            self.wf(),
        ensures
            present == holds(self@, *id),
    {
        self.position(id).is_some()
    }

    /// The object keyed by `id`, if the table holds one.
    pub fn get(&self, id: &ObjectId) -> (object: Option<&Object>)
        requires
            self.wf(),
        ensures
            match object {
                Some(found) => holds(self@, *id) && self@[slot(self@, *id)] == (*id, found@),
                None => !holds(self@, *id),
            },
    {
        match self.position(id) {
            Some(at) => Some(&self.entries[at].1),
            None => None,
        }
    }

    /// The object at position `at`, for changing it in place. The table is
    /// afterwards as before but for that object.
    pub fn object_at_mut(&mut self, at: usize) -> (object: &mut Object)
        requires
            at < old(self)@.len(),
        ensures
            object@ == old(self)@[at as int].1,
            final(self)@ == old(self)@.update(
                at as int,
                (old(self)@[at as int].0, (*final(object))@),
            ),
    {
        &mut self.entries[at].1
    }

    /// Stores `object` under `id`. An object already keyed by `id` is
    /// replaced and handed back; otherwise the entry goes to the place that
    /// the order gives it.
    pub fn insert(&mut self, id: ObjectId, object: Object) -> (previous: Option<Object>)
        requires
            old(self).wf(),
        ensures
            final(self).wf(),
            final(self)@ == stored(old(self)@, id, object@),
            holds(final(self)@, id),
            final(self)@[slot(final(self)@, id)] == (id, object@),
            match previous {
                Some(replaced) => holds(old(self)@, id) && replaced@ == old(self)@[slot(
                    old(self)@,
                    id,
                )].1,
                None => !holds(old(self)@, id),
            },
    {
        let ghost before = self@;
        proof {
            self.lemma_entries_ascend();
        }
        match search(&self.entries, &id) {
            Ok(at) => {
                proof {
                    lemma_slot(before, id, at as int);
                }
                let mut replaced = object;
                core::mem::swap(&mut self.entries[at].1, &mut replaced);
                assert(self@ =~= before.update(at as int, (id, object@)));
                assert(self@[at as int].0 == id);
                proof {
                    assert forall|i: int, j: int| 0 <= i < j < self@.len() implies (
                    #[trigger] self@[i]).0.before((#[trigger] self@[j]).0) by {
                        assert(before[i].0.before(before[j].0));
                    }
                    lemma_slot_of_entry(self@, at as int);
                }
                Some(replaced)
            },
            Err(at) => {
                proof {
                    lemma_slot(before, id, at as int);
                }
                self.entries.insert(at, (id, object));
                assert(self@ =~= before.insert(at as int, (id, object@)));
                assert(self@[at as int].0 == id);
                assert forall|i: int, j: int| 0 <= i < j < self@.len() implies (
                #[trigger] self@[i]).0.before((#[trigger] self@[j]).0) by {
                    let a = if i < at { i } else { i - 1 };
                    let b = if j < at { j } else { j - 1 };
                    if i != at && j != at {
                        assert(before[a].0.before(before[b].0));
                    } else if i == at {
                        assert(!before[b].0.before(id));
                    } else {
                        assert(before[a].0.before(id));
                    }
                }
                proof {
                    lemma_slot_of_entry(self@, at as int);
                }
                None
            },
        }
    }
}

} // verus!
