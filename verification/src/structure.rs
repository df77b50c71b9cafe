//! The shape of the merged table: how long it is, which identifier stands
//! where, and where the copies and pages of each source are found in it.

use vstd::prelude::*;
use crate::allocate::{fresh_id, id_map_of};
use crate::graph::copied;
use crate::merge::{
    copied_all, lemma_total_bounds, lemma_total_nonnegative, merged_table, migrated_all,
    numbered_within, object_total, SourceModel,
};
use crate::object::ObjectId;
use crate::ordering::in_key_order;
use crate::page_order::migrated;
use crate::table::{ascending, holds};

verus! {

/// The number that the first object of source `k` receives.
pub open spec fn first_number(sources: Seq<SourceModel>, k: int) -> int {
    1 + object_total(sources.take(k))
}

/// The identifier map of source `k`.
pub open spec fn source_map(sources: Seq<SourceModel>, k: int) -> Map<ObjectId, ObjectId> {
    id_map_of(sources[k].table, first_number(sources, k))
}

/// The merged identifiers of the pages of source `k`, in its page order.
pub open spec fn source_pages(sources: Seq<SourceModel>, k: int) -> Seq<ObjectId> {
    migrated(in_key_order(sources[k].pages), source_map(sources, k))
}

/// There are as many copies as the sources hold objects, and copy `j`
/// stands under the fresh identifier of number `1 + j`.
pub proof fn lemma_copies_numbered(sources: Seq<SourceModel>)
    ensures
        copied_all(sources).len() == object_total(sources),
        forall|j: int|
            0 <= j < copied_all(sources).len() ==> (#[trigger] copied_all(sources)[j]).0
                == fresh_id(1 + j),
    decreases sources.len(),
{
    if sources.len() > 0 {
        lemma_copies_numbered(sources.drop_last());
    }
}

/// The copies of source `k` stand together in the merged order, behind the
/// copies of the sources before it.
pub proof fn lemma_copies_of_source(sources: Seq<SourceModel>, k: int, i: int)
    requires
        0 <= k < sources.len(),
        0 <= i < sources[k].table.len(),
    ensures
        0 <= object_total(sources.take(k)) + i < copied_all(sources).len(),
        copied_all(sources)[object_total(sources.take(k)) + i] == copied(
            sources[k].table,
            first_number(sources, k),
        )[i],
    decreases sources.len(),
{
    let front = sources.drop_last();
    lemma_copies_numbered(front);
    lemma_copies_numbered(sources);
    lemma_total_nonnegative(front);
    if k == sources.len() - 1 {
        assert(sources.take(k) =~= front);
    } else {
        assert(front.take(k) =~= sources.take(k));
        lemma_copies_of_source(front, k, i);
        lemma_copies_numbered(front);
    }
}

/// The pages of source `k` stand together in the merged page order, behind
/// the pages of the sources before it.
pub proof fn lemma_pages_of_source(sources: Seq<SourceModel>, k: int, i: int)
    requires
        0 <= k < sources.len(),
        0 <= i < source_pages(sources, k).len(),
    ensures
        0 <= migrated_all(sources.take(k)).len() + i < migrated_all(sources).len(),
        migrated_all(sources)[migrated_all(sources.take(k)).len() + i] == source_pages(
            sources,
            k,
        )[i],
    decreases sources.len(),
{
    let front = sources.drop_last();
    if k == sources.len() - 1 {
        assert(sources.take(k) =~= front);
    } else {
        assert(front.take(k) =~= sources.take(k));
        lemma_pages_of_source(front, k, i);
    }
}

/// The merged table holds the copies, the `Pages` node and the catalog, in
/// this order and numbered on from 1 without a gap.
pub proof fn lemma_merged_numbered(sources: Seq<SourceModel>)
    requires
        object_total(sources) + 3 <= u32::MAX,
    ensures
        merged_table(sources).len() == object_total(sources) + 2,
        forall|j: int|
            0 <= j < merged_table(sources).len() ==> (#[trigger] merged_table(sources)[j]).0
                == fresh_id(1 + j),
        ascending(merged_table(sources)),
        forall|id: ObjectId|
            holds(merged_table(sources), id) <==> numbered_within(
                id,
                1,
                3 + object_total(sources),
            ),
{
    lemma_copies_numbered(sources);
    lemma_total_nonnegative(sources);
    let merged = merged_table(sources);
    let total = object_total(sources);
    assert forall|j: int| 0 <= j < merged.len() implies (#[trigger] merged[j]).0 == fresh_id(
        1 + j,
    ) by {
        if j < total {
            assert(merged[j].0 == copied_all(sources)[j].0);
        }
    }
    assert forall|a: int, b: int| 0 <= a < b < merged.len() implies (#[trigger] merged[a]).0.before(
        (#[trigger] merged[b]).0,
    ) by {
        assert(merged[a].0 == fresh_id(1 + a));
        assert(merged[b].0 == fresh_id(1 + b));
    }
    assert forall|id: ObjectId| holds(merged, id) implies numbered_within(id, 1, 3 + total) by {
        let w = choose|i: int| 0 <= i < merged.len() && (#[trigger] merged[i]).0 == id;
        assert(id == fresh_id(1 + w));
    }
    assert forall|id: ObjectId| numbered_within(id, 1, 3 + total) implies holds(merged, id) by {
        let number = choose|number: int| 1 <= number < 3 + total && id == #[trigger] fresh_id(
            number,
        );
        assert(merged[number - 1].0 == id);
    }
}

/// The offset of a source's copies never exceeds the object total.
pub proof fn lemma_first_number_bounds(sources: Seq<SourceModel>, k: int)
    requires
        0 <= k < sources.len(),
    ensures
        1 <= first_number(sources, k),
        first_number(sources, k) + sources[k].table.len() <= 1 + object_total(sources),
{
    lemma_total_bounds(sources, k);
    lemma_total_bounds(sources, k + 1);
    assert(sources.take(k + 1).drop_last() =~= sources.take(k));
}

} // verus!
