//! The identifier allocator of one merge, and the first pass over a source
//! document: a fresh identifier for every object of its table.

use vstd::prelude::*;
use crate::id_map::IdMap;
use crate::object::ObjectId;
use crate::table::{ascending, holds, lemma_slot_of_entry, slot, ObjectTable};

verus! {

/// The identifier with object number `number` and generation 0.
pub open spec fn fresh_id(number: int) -> ObjectId {
    ObjectId { number: number as u32, generation: 0 }
}

/// The identifier map of a table whose objects receive, in ascending order
/// of their identifiers, the numbers from `first` on.
pub open spec fn id_map_of<T>(table: Seq<(ObjectId, T)>, first: int) -> Map<ObjectId, ObjectId> {
    Map::new(|id: ObjectId| holds(table, id), |id: ObjectId| fresh_id(first + slot(table, id)))
}

/// Hands out object numbers one after the other, starting at 1. One
/// allocator serves one merge and all of its source documents.
#[derive(Debug)]
pub struct IdAllocator {
    next: u32,
}

impl IdAllocator {
    /// The number that the next allocation hands out.
    pub closed spec fn upcoming(&self) -> int {
        self.next as int
    }

    /// The upcoming number is an object number.
    pub proof fn lemma_upcoming_in_range(&self)
        ensures
            0 <= self.upcoming() <= u32::MAX,
    {
    }

    /// An allocator whose first identifier has number 1.
    pub fn new() -> (allocator: IdAllocator)
        ensures
            allocator.upcoming() == 1,
    {
        IdAllocator { next: 1 }
    }

    /// The number that the next allocation hands out.
    pub fn next_number(&self) -> (number: u32)
        ensures
            number == self.upcoming(),
    {
        self.next
    }

    /// A fresh identifier: the upcoming number with generation 0. The
    /// number after it is handed out next.
    pub fn allocate(&mut self) -> (id: ObjectId)
        requires
            old(self).upcoming() < u32::MAX,
        ensures
            id == fresh_id(old(self).upcoming()),
            final(self).upcoming() == old(self).upcoming() + 1,
    {
        let id = ObjectId { number: self.next, generation: 0 };
        self.next = self.next + 1;
        id
    }
}

/// A prefix of ascending entries ascends, holds what the entries hold
/// before its end, and gives each of its identifiers the same slot.
pub proof fn lemma_prefix<T>(table: Seq<(ObjectId, T)>, n: int)
    requires
        ascending(table),
        0 <= n <= table.len(),
    ensures
        ascending(table.take(n)),
        forall|id: ObjectId|
            holds(table.take(n), id) <==> (holds(table, id) && slot(table, id) < n),
        forall|id: ObjectId|
            holds(table.take(n), id) ==> slot(table.take(n), id) == slot(table, id),
{
    let prefix = table.take(n);
    assert forall|id: ObjectId| holds(prefix, id) implies holds(table, id) && slot(table, id) < n
        && slot(prefix, id) == slot(table, id) by {
        let w = choose|i: int| 0 <= i < prefix.len() && (#[trigger] prefix[i]).0 == id;
        assert(table[w].0 == id);
        lemma_slot_of_entry(table, w);
        lemma_slot_of_entry(prefix, w);
    }
    assert forall|id: ObjectId| holds(table, id) && slot(table, id) < n implies holds(
        prefix,
        id,
    ) by {
        let w = choose|i: int| 0 <= i < table.len() && (#[trigger] table[i]).0 == id;
        lemma_slot_of_entry(table, w);
        assert(prefix[w].0 == id);
    }
}

/// Taking one more entry into the table maps its identifier to the next
/// number and leaves the rest of the map as it was.
pub proof fn lemma_id_map_extend<T>(table: Seq<(ObjectId, T)>, first: int, n: int)
    requires
        ascending(table),
        0 <= n < table.len(),
    ensures
        id_map_of(table.take(n + 1), first) == id_map_of(table.take(n), first).insert(
            table[n].0,
            fresh_id(first + n),
        ),
{
    lemma_prefix(table, n);
    lemma_prefix(table, n + 1);
    lemma_slot_of_entry(table, n);
    let longer = id_map_of(table.take(n + 1), first);
    let shorter = id_map_of(table.take(n), first).insert(table[n].0, fresh_id(first + n));
    assert forall|id: ObjectId| longer.contains_key(id) <==> shorter.contains_key(id) by {
        if holds(table, id) {
            let w = choose|i: int| 0 <= i < table.len() && (#[trigger] table[i]).0 == id;
            lemma_slot_of_entry(table, w);
        }
    }
    assert forall|id: ObjectId| longer.contains_key(id) implies longer[id] == shorter[id] by {
        let w = choose|i: int| 0 <= i < table.len() && (#[trigger] table[i]).0 == id;
        lemma_slot_of_entry(table, w);
    }
    assert(longer =~= shorter);
}

/// The first pass over a source document: allocates a fresh identifier for
/// every object of `table`, in ascending order of the old identifiers, and
/// records each pair in the map that is handed back.
pub fn allocate_ids(table: &ObjectTable, allocator: &mut IdAllocator) -> (id_map: IdMap)
    requires
        table.wf(),
        old(allocator).upcoming() + table@.len() <= u32::MAX,
    ensures
        id_map.wf(),
        id_map@ == id_map_of(table@, old(allocator).upcoming()),
        final(allocator).upcoming() == old(allocator).upcoming() + table@.len(),
{
    let ghost first = allocator.upcoming();
    let n: usize = table.len();
    let mut id_map = IdMap::new();
    let mut i: usize = 0;
    assert(id_map@ =~= id_map_of(table@.take(0), first));
    while i < n
        invariant
            table.wf(),
            n == table@.len(),
            i <= n,
            first + n <= u32::MAX,
            allocator.upcoming() == first + i,
            id_map.wf(),
            id_map@ == id_map_of(table@.take(i as int), first),
        decreases n - i,
    {
        let old_id = table.id_at(i);
        let new_id = allocator.allocate();
        id_map.insert(old_id, new_id);
        proof {
            lemma_id_map_extend(table@, first, i as int);
        }
        i = i + 1;
    }
    assert(table@.take(n as int) =~= table@);
    id_map
}

} // verus!
