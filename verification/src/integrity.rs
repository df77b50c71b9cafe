//! Referential integrity: the merge introduces no reference that points at
//! nothing.

use vstd::prelude::*;
use crate::allocate::{fresh_id, id_map_of};
use crate::graph::copied;
use crate::merge::{
    catalog_id_of, copied_all, lemma_pages_within, lemma_total_nonnegative, merged_table,
    merged_trailer, migrated_all, numbered_within, object_total, pages_id_of, tables_ascend,
    SourceModel,
};
use crate::names::parent_key_bytes;
use crate::object::{first_index, has_key, lemma_has_key_first, ObjectId, ObjectModel};
use crate::page_tree::{pages_node, references_to, with_parent};
use crate::rewrite::{redirected, rewritten, rewritten_entries, rewritten_items};
use crate::structure::{
    first_number, lemma_copies_numbered, lemma_copies_of_source, lemma_first_number_bounds,
    lemma_merged_numbered,
};
use crate::table::{ascending, holds, lemma_slot_of_entry};

verus! {

/// Whether every reference inside `object` points at an identifier of
/// `allowed`. References are looked for in arrays, dictionaries and stream
/// dictionaries, however deep.
pub open spec fn all_references(object: ObjectModel, allowed: Set<ObjectId>) -> bool
    decreases object,
{
    match object {
        ObjectModel::Reference(id) => allowed.contains(id),
        ObjectModel::Array(items) => forall|i: int|
            0 <= i < items.len() ==> all_references(#[trigger] items[i], allowed),
        ObjectModel::Dictionary(entries) => forall|i: int|
            0 <= i < entries.len() ==> all_references((#[trigger] entries[i]).value, allowed),
        ObjectModel::Stream(entries, _, _, _) => forall|i: int|
            0 <= i < entries.len() ==> all_references((#[trigger] entries[i]).value, allowed),
        _ => true,
    }
}

/// The identifiers under which a table holds an object.
pub open spec fn keys_of(table: Seq<(ObjectId, ObjectModel)>) -> Set<ObjectId> {
    Set::new(|id: ObjectId| holds(table, id))
}

/// Whether every reference inside every object of the table points at an
/// object of the table.
pub open spec fn closed(table: Seq<(ObjectId, ObjectModel)>) -> bool {
    forall|i: int|
        0 <= i < table.len() ==> all_references((#[trigger] table[i]).1, keys_of(table))
}

/// The fresh identifiers of the numbers from `low` up to, and not
/// including, `high`.
pub open spec fn numbered(low: int, high: int) -> Set<ObjectId> {
    Set::new(|id: ObjectId| numbered_within(id, low, high))
}

/// References that all point into a set point into every larger set.
pub proof fn lemma_references_widen(
    object: ObjectModel,
    small: Set<ObjectId>,
    large: Set<ObjectId>,
)
    requires
        all_references(object, small),
        forall|id: ObjectId| small.contains(id) ==> large.contains(id),
    ensures
        all_references(object, large),
    decreases object,
{
    match object {
        ObjectModel::Array(items) => {
            assert forall|i: int| 0 <= i < items.len() implies all_references(
                #[trigger] items[i],
                large,
            ) by {
                lemma_references_widen(items[i], small, large);
            }
        },
        ObjectModel::Dictionary(entries) => {
            assert forall|i: int| 0 <= i < entries.len() implies all_references(
                (#[trigger] entries[i]).value,
                large,
            ) by {
                lemma_references_widen(entries[i].value, small, large);
            }
        },
        ObjectModel::Stream(entries, _, _, _) => {
            assert forall|i: int| 0 <= i < entries.len() implies all_references(
                (#[trigger] entries[i]).value,
                large,
            ) by {
                lemma_references_widen(entries[i].value, small, large);
            }
        },
        _ => {},
    }
}

/// Rewriting sends every reference where the map sends its target: if the
/// references of an object point into `before`, and the map redirects every
/// identifier of `before` into `after`, the references of the rewritten
/// object point into `after`.
pub proof fn lemma_rewritten_references(
    object: ObjectModel,
    map: Map<ObjectId, ObjectId>,
    before: Set<ObjectId>,
    after: Set<ObjectId>,
)
    requires
        all_references(object, before),
        forall|id: ObjectId| before.contains(id) ==> after.contains(redirected(id, map)),
    ensures
        all_references(rewritten(object, map), after),
    decreases object,
{
    match object {
        ObjectModel::Array(items) => {
            let result = rewritten_items(items, map);
            assert forall|i: int| 0 <= i < result.len() implies all_references(
                #[trigger] result[i],
                after,
            ) by {
                lemma_rewritten_references(items[i], map, before, after);
            }
        },
        ObjectModel::Dictionary(entries) => {
            let result = rewritten_entries(entries, map);
            assert forall|i: int| 0 <= i < result.len() implies all_references(
                (#[trigger] result[i]).value,
                after,
            ) by {
                lemma_rewritten_references(entries[i].value, map, before, after);
            }
        },
        ObjectModel::Stream(entries, _, _, _) => {
            let result = rewritten_entries(entries, map);
            assert forall|i: int| 0 <= i < result.len() implies all_references(
                (#[trigger] result[i]).value,
                after,
            ) by {
                lemma_rewritten_references(entries[i].value, map, before, after);
            }
        },
        _ => {},
    }
}

/// Every reference points at some identifier.
pub proof fn lemma_references_anywhere(object: ObjectModel)
    ensures
        all_references(object, Set::full()),
    decreases object,
{
    match object {
        ObjectModel::Array(items) => {
            assert forall|i: int| 0 <= i < items.len() implies all_references(
                #[trigger] items[i],
                Set::full(),
            ) by {
                lemma_references_anywhere(items[i]);
            }
        },
        ObjectModel::Dictionary(entries) => {
            assert forall|i: int| 0 <= i < entries.len() implies all_references(
                (#[trigger] entries[i]).value,
                Set::full(),
            ) by {
                lemma_references_anywhere(entries[i].value);
            }
        },
        ObjectModel::Stream(entries, _, _, _) => {
            assert forall|i: int| 0 <= i < entries.len() implies all_references(
                (#[trigger] entries[i]).value,
                Set::full(),
            ) by {
                lemma_references_anywhere(entries[i].value);
            }
        },
        _ => {},
    }
}

/// Taking a parent keeps the references of an object inside a set that
/// holds the parent.
pub proof fn lemma_with_parent_references(
    object: ObjectModel,
    parent: ObjectId,
    allowed: Set<ObjectId>,
)
    requires
        all_references(object, allowed),
        allowed.contains(parent),
    ensures
        all_references(with_parent(object, parent), allowed),
{
    if let ObjectModel::Dictionary(entries) = object {
        let key = parent_key_bytes();
        let value = ObjectModel::Reference(parent);
        let result = with_parent(object, parent)->Dictionary_0;
        if has_key(entries, key) {
            lemma_has_key_first(entries, key);
        }
        assert forall|i: int| 0 <= i < result.len() implies all_references(
            (#[trigger] result[i]).value,
            allowed,
        ) by {
            if has_key(entries, key) {
                if i != first_index(entries, key) {
                    assert(result[i] == entries[i]);
                }
            } else {
                if i < entries.len() {
                    assert(result[i] == entries[i]);
                }
            }
        }
    }
}

/// A copy refers only to copies of its own source, but for references that
/// pointed at nothing in the source and are passed through as they were.
pub proof fn lemma_copy_references(table: Seq<(ObjectId, ObjectModel)>, first: int, i: int)
    requires
        ascending(table),
        0 <= i < table.len(),
    ensures
        all_references(
            copied(table, first)[i].1,
            Set::new(
                |id: ObjectId|
                    numbered_within(id, first, first + table.len()) || !holds(table, id),
            ),
        ),
{
    let map = id_map_of(table, first);
    let after = Set::new(
        |id: ObjectId| numbered_within(id, first, first + table.len()) || !holds(table, id),
    );
    lemma_references_anywhere(table[i].1);
    assert forall|id: ObjectId| after.contains(redirected(id, map)) by {
        if holds(table, id) {
            let at = choose|j: int| 0 <= j < table.len() && (#[trigger] table[j]).0 == id;
            lemma_slot_of_entry(table, at);
            assert(map[id] == fresh_id(first + at));
            assert(numbered_within(map[id], first, first + table.len()));
        }
    }
    lemma_rewritten_references(table[i].1, map, Set::full(), after);
}

/// A copy of an object of a closed table refers only to copies of that
/// table.
pub proof fn lemma_closed_copy_references(
    table: Seq<(ObjectId, ObjectModel)>,
    first: int,
    i: int,
)
    requires
        ascending(table),
        closed(table),
        0 <= i < table.len(),
    ensures
        all_references(copied(table, first)[i].1, numbered(first, first + table.len())),
{
    let map = id_map_of(table, first);
    let after = numbered(first, first + table.len());
    assert forall|id: ObjectId| keys_of(table).contains(id) implies after.contains(
        redirected(id, map),
    ) by {
        let at = choose|j: int| 0 <= j < table.len() && (#[trigger] table[j]).0 == id;
        lemma_slot_of_entry(table, at);
        assert(map[id] == fresh_id(first + at));
        assert(numbered_within(map[id], first, first + table.len()));
    }
    lemma_rewritten_references(table[i].1, map, keys_of(table), after);
}

/// The copies of closed sources refer only to copies.
pub proof fn lemma_copies_closed(sources: Seq<SourceModel>)
    requires
        tables_ascend(sources),
        forall|k: int| 0 <= k < sources.len() ==> closed((#[trigger] sources[k]).table),
    ensures
        forall|j: int|
            0 <= j < copied_all(sources).len() ==> all_references(
                (#[trigger] copied_all(sources)[j]).1,
                numbered(1, 1 + object_total(sources)),
            ),
    decreases sources.len(),
{
    if sources.len() > 0 {
        let front = sources.drop_last();
        let last = sources.last();
        let first = 1 + object_total(front);
        let all = numbered(1, 1 + object_total(sources));
        assert forall|k: int| 0 <= k < front.len() implies ascending(
            (#[trigger] front[k]).table,
        ) && closed(front[k].table) by {
            assert(ascending(sources[k].table));
            assert(closed(sources[k].table));
        }
        lemma_copies_closed(front);
        lemma_total_nonnegative(front);
        assert(ascending(sources[sources.len() - 1].table));
        assert(closed(sources[sources.len() - 1].table));
        assert forall|j: int| 0 <= j < copied_all(sources).len() implies all_references(
            (#[trigger] copied_all(sources)[j]).1,
            all,
        ) by {
            if j < copied_all(front).len() {
                let part = numbered(1, 1 + object_total(front));
                assert(all_references(copied_all(front)[j].1, part));
                assert forall|id: ObjectId| part.contains(id) implies all.contains(id) by {
                    let number = choose|number: int|
                        1 <= number < 1 + object_total(front) && id == #[trigger] fresh_id(
                            number,
                        );
                    assert(1 <= number < 1 + object_total(sources));
                }
                lemma_references_widen(copied_all(front)[j].1, part, all);
            } else {
                let i = j - copied_all(front).len();
                let part = numbered(first, first + last.table.len());
                lemma_closed_copy_references(last.table, first, i);
                assert forall|id: ObjectId| part.contains(id) implies all.contains(id) by {
                    let number = choose|number: int|
                        first <= number < first + last.table.len() && id == #[trigger] fresh_id(
                            number,
                        );
                    assert(1 <= number < 1 + object_total(sources));
                }
                lemma_references_widen(copied(last.table, first)[i].1, part, all);
            }
        }
    }
}

/// Merging closed sources gives a closed table, and the trailer's root is
/// an object of it: every reference in the merged document points at an
/// object of the merged document.
pub proof fn lemma_merged_closed(sources: Seq<SourceModel>)
    requires
        tables_ascend(sources),
        object_total(sources) + 3 <= u32::MAX,
        forall|k: int| 0 <= k < sources.len() ==> closed((#[trigger] sources[k]).table),
    ensures
        closed(merged_table(sources)),
        forall|i: int|
            0 <= i < merged_trailer(sources).len() ==> all_references(
                (#[trigger] merged_trailer(sources)[i]).value,
                keys_of(merged_table(sources)),
            ),
{
    let merged = merged_table(sources);
    let total = object_total(sources);
    let keys = keys_of(merged);
    let copies = copied_all(sources);
    let pages_id = pages_id_of(sources);
    let page_ids = migrated_all(sources);
    lemma_merged_numbered(sources);
    lemma_copies_numbered(sources);
    lemma_copies_closed(sources);
    lemma_pages_within(sources);
    lemma_total_nonnegative(sources);
    assert forall|id: ObjectId| numbered(1, 1 + total).contains(id) implies keys.contains(id) by {
        let number = choose|number: int| 1 <= number < 1 + total && id == #[trigger] fresh_id(
            number,
        );
        assert(numbered_within(id, 1, 3 + total));
    }
    assert(keys.contains(pages_id)) by {
        assert(numbered_within(fresh_id(1 + total), 1, 3 + total));
    }
    assert(keys.contains(catalog_id_of(sources))) by {
        assert(numbered_within(fresh_id(2 + total), 1, 3 + total));
    }
    assert forall|j: int| 0 <= j < merged.len() implies all_references(
        (#[trigger] merged[j]).1,
        keys,
    ) by {
        if j < total {
            assert(all_references(copies[j].1, numbered(1, 1 + total)));
            lemma_references_widen(copies[j].1, numbered(1, 1 + total), keys);
            lemma_with_parent_references(copies[j].1, pages_id, keys);
        } else if j == total {
            let entries = pages_node(page_ids)->Dictionary_0;
            let kids = references_to(page_ids);
            assert forall|w: int| 0 <= w < kids.len() implies all_references(
                #[trigger] kids[w],
                keys,
            ) by {
                assert(numbered_within(page_ids[w], 1, 1 + total));
                assert(numbered(1, 1 + total).contains(page_ids[w]));
            }
            assert(all_references(entries[1].value, keys));
            assert forall|i: int| 0 <= i < entries.len() implies all_references(
                (#[trigger] entries[i]).value,
                keys,
            ) by {}
        } else {
            let entries = merged[j].1->Dictionary_0;
            assert forall|i: int| 0 <= i < entries.len() implies all_references(
                (#[trigger] entries[i]).value,
                keys,
            ) by {}
        }
    }
}

/// The merge introduces no reference that points at nothing: every
/// reference inside the merged copy of object `i` of source `k` points at
/// an object of the merged table, unless it is a reference that pointed at
/// nothing in its source and was passed through as it was.
pub proof fn lemma_no_reference_lost(sources: Seq<SourceModel>, k: int, i: int)
    requires
        tables_ascend(sources),
        object_total(sources) + 3 <= u32::MAX,
        0 <= k < sources.len(),
        0 <= i < sources[k].table.len(),
    ensures
        0 <= first_number(sources, k) - 1 + i < object_total(sources),
        all_references(
            merged_table(sources)[first_number(sources, k) - 1 + i].1,
            Set::new(
                |id: ObjectId|
                    holds(merged_table(sources), id) || !holds(sources[k].table, id),
            ),
        ),
{
    let merged = merged_table(sources);
    let total = object_total(sources);
    let table = sources[k].table;
    let first = first_number(sources, k);
    let j = first - 1 + i;
    let allowed = Set::new(|id: ObjectId| holds(merged, id) || !holds(table, id));
    let own = Set::new(
        |id: ObjectId| numbered_within(id, first, first + table.len()) || !holds(table, id),
    );
    lemma_merged_numbered(sources);
    lemma_copies_numbered(sources);
    lemma_copies_of_source(sources, k, i);
    lemma_first_number_bounds(sources, k);
    lemma_total_nonnegative(sources);
    assert(ascending(sources[k].table));
    lemma_copy_references(table, first, i);
    assert forall|id: ObjectId| own.contains(id) implies allowed.contains(id) by {
        if numbered_within(id, first, first + table.len()) {
            let number = choose|number: int|
                first <= number < first + table.len() && id == #[trigger] fresh_id(number);
            assert(numbered_within(id, 1, 3 + total));
        }
    }
    let copy = copied_all(sources)[j].1;
    lemma_references_widen(copy, own, allowed);
    assert(allowed.contains(pages_id_of(sources))) by {
        assert(numbered_within(fresh_id(1 + total), 1, 3 + total));
    }
    lemma_with_parent_references(copy, pages_id_of(sources), allowed);
}

} // verus!
