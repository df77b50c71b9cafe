//! The graph copier: every object of a source document goes into the merged
//! table under its fresh identifier, with its references rewritten.

use vstd::prelude::*;
use crate::allocate::{allocate_ids, fresh_id, id_map_of, IdAllocator};
use crate::id_map::IdMap;
use crate::object::{ObjectId, ObjectModel};
use crate::rewrite::{rewritten, update_references};
use crate::table::{lemma_slot, lemma_slot_of_entry, ObjectTable};

verus! {

/// What a source table contributes to the merged table when its objects
/// receive the numbers from `first` on: each object in ascending order of
/// its old identifier, under its fresh identifier, with every reference
/// redirected through the table's identifier map.
pub open spec fn copied(table: Seq<(ObjectId, ObjectModel)>, first: int) -> Seq<
    (ObjectId, ObjectModel),
> {
    Seq::new(
        table.len(),
        |i: int| (fresh_id(first + i), rewritten(table[i].1, id_map_of(table, first))),
    )
}

/// Whether every identifier of `table` comes before `id`.
pub open spec fn all_before(table: Seq<(ObjectId, ObjectModel)>, id: ObjectId) -> bool {
    forall|i: int| 0 <= i < table.len() ==> (#[trigger] table[i]).0.before(id)
}

/// Both passes over one source document. The first allocates a fresh
/// identifier for every object of `table`; the second copies every object
/// into `merged` under its fresh identifier, with its references rewritten
/// through the complete map, which is handed back.
pub fn migrate_objects(
    table: &ObjectTable,
    allocator: &mut IdAllocator,
    merged: &mut ObjectTable,
) -> (id_map: IdMap)
    requires
        table.wf(),
        old(merged).wf(),
        old(allocator).upcoming() + table@.len() <= u32::MAX,
        all_before(old(merged)@, fresh_id(old(allocator).upcoming())),
    ensures
        id_map.wf(),
        id_map@ == id_map_of(table@, old(allocator).upcoming()),
        final(allocator).upcoming() == old(allocator).upcoming() + table@.len(),
        final(merged).wf(),
        final(merged)@ == old(merged)@ + copied(table@, old(allocator).upcoming()),
        all_before(final(merged)@, fresh_id(final(allocator).upcoming())),
{
    let ghost first = allocator.upcoming();
    let ghost before = merged@;
    proof {
        allocator.lemma_upcoming_in_range();
    }
    let id_map = allocate_ids(table, allocator);
    let n: usize = table.len();
    let mut i: usize = 0;
    assert(merged@ =~= before + copied(table@, first).take(0));
    while i < n
        invariant
            table.wf(),
            id_map.wf(),
            merged.wf(),
            n == table@.len(),
            i <= n,
            0 <= first,
            first + n <= u32::MAX,
            id_map@ == id_map_of(table@, first),
            all_before(before, fresh_id(first)),
            merged@ == before + copied(table@, first).take(i as int),
        decreases n - i,
    {
        let old_id = table.id_at(i);
        let mut object = table.object_at(i).clone();
        update_references(&mut object, &id_map);
        proof {
            lemma_slot_of_entry(table@, i as int);
        }
        let new_id = id_map.get(&old_id).unwrap();
        let ghost held = merged@;
        proof {
            assert(new_id == fresh_id(first + i));
            assert forall|j: int| 0 <= j < held.len() implies (#[trigger] held[j]).0.before(
                new_id,
            ) by {
                if j < before.len() {
                    assert(before[j].0.before(fresh_id(first)));
                } else {
                    assert(held[j] == copied(table@, first)[j - before.len()]);
                }
            }
            lemma_slot(held, new_id, held.len() as int);
        }
        let _ = merged.insert(new_id, object);
        assert(merged@ =~= before + copied(table@, first).take(i as int + 1));
        i = i + 1;
    }
    assert(copied(table@, first).take(n as int) =~= copied(table@, first));
    assert forall|j: int| 0 <= j < merged@.len() implies (#[trigger] merged@[j]).0.before(
        fresh_id(first + n),
    ) by {
        if j < before.len() {
            assert(before[j].0.before(fresh_id(first)));
        } else {
            assert(merged@[j] == copied(table@, first)[j - before.len()]);
        }
    }
    id_map
}

} // verus!
