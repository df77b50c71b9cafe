//! Well-formed objects: no dictionary, however deep, carries a key twice.
//! Rewriting, taking a parent and merging keep objects well-formed.

use vstd::prelude::*;
use crate::allocate::id_map_of;
use crate::graph::copied;
use crate::merge::{
    catalog_node, copied_all, merged_table, migrated_all, object_total, pages_id_of, SourceModel,
};
use crate::names::{
    count_key_bytes, kids_key_bytes, pages_bytes, parent_key_bytes, type_key_bytes,
};
use crate::object::{
    first_index, has_key, lemma_has_key_first, unique_keys, with_entry, EntryModel, ObjectId,
    ObjectModel,
};
use crate::page_tree::{pages_node, references_to, with_parent};
use crate::rewrite::{rewritten, rewritten_entries, rewritten_items};
use crate::structure::lemma_copies_numbered;

verus! {

/// Whether no dictionary inside `object`, the object itself and stream
/// dictionaries included, carries a key twice.
pub open spec fn well_formed(object: ObjectModel) -> bool
    decreases object,
{
    match object {
        ObjectModel::Array(items) => forall|i: int|
            0 <= i < items.len() ==> well_formed(#[trigger] items[i]),
        ObjectModel::Dictionary(entries) => unique_keys(entries) && forall|i: int|
            0 <= i < entries.len() ==> well_formed((#[trigger] entries[i]).value),
        ObjectModel::Stream(entries, _, _, _) => unique_keys(entries) && forall|i: int|
            0 <= i < entries.len() ==> well_formed((#[trigger] entries[i]).value),
        _ => true,
    }
}

/// Whether every object of the table is well-formed.
pub open spec fn table_well_formed(table: Seq<(ObjectId, ObjectModel)>) -> bool {
    forall|i: int| 0 <= i < table.len() ==> well_formed((#[trigger] table[i]).1)
}

/// Storing an entry keeps the keys of a dictionary apart, and its values
/// well-formed where the stored value is.
pub proof fn lemma_with_entry_well_formed(
    entries: Seq<EntryModel>,
    key: Seq<u8>,
    value: ObjectModel,
)
    requires
        unique_keys(entries),
        forall|i: int| 0 <= i < entries.len() ==> well_formed((#[trigger] entries[i]).value),
        well_formed(value),
    ensures
        unique_keys(with_entry(entries, key, value)),
        forall|i: int|
            0 <= i < with_entry(entries, key, value).len() ==> well_formed(
                (#[trigger] with_entry(entries, key, value)[i]).value,
            ),
{
    let after = with_entry(entries, key, value);
    if has_key(entries, key) {
        lemma_has_key_first(entries, key);
        let at = first_index(entries, key);
        assert forall|i: int, j: int| 0 <= i < j < after.len() implies (#[trigger] after[i]).key
            != (#[trigger] after[j]).key by {
            assert(after[i].key == entries[i].key);
            assert(after[j].key == entries[j].key);
        }
        assert forall|i: int| 0 <= i < after.len() implies well_formed(
            (#[trigger] after[i]).value,
        ) by {
            if i != at {
                assert(after[i] == entries[i]);
            }
        }
    } else {
        assert forall|i: int, j: int| 0 <= i < j < after.len() implies (#[trigger] after[i]).key
            != (#[trigger] after[j]).key by {
            assert(after[i] == entries[i]);
            if j < entries.len() {
                assert(after[j] == entries[j]);
            }
        }
        assert forall|i: int| 0 <= i < after.len() implies well_formed(
            (#[trigger] after[i]).value,
        ) by {
            if i < entries.len() {
                assert(after[i] == entries[i]);
            }
        }
    }
}

/// Rewriting keeps an object well-formed: it changes no key.
pub proof fn lemma_rewritten_well_formed(object: ObjectModel, map: Map<ObjectId, ObjectId>)
    requires
        well_formed(object),
    ensures
        well_formed(rewritten(object, map)),
    decreases object,
{
    match object {
        ObjectModel::Array(items) => {
            let result = rewritten_items(items, map);
            assert forall|i: int| 0 <= i < result.len() implies well_formed(
                #[trigger] result[i],
            ) by {
                lemma_rewritten_well_formed(items[i], map);
            }
        },
        ObjectModel::Dictionary(entries) => {
            lemma_rewritten_entries_well_formed(entries, map);
        },
        ObjectModel::Stream(entries, _, _, _) => {
            lemma_rewritten_entries_well_formed(entries, map);
        },
        _ => {},
    }
}

/// Rewriting the values of a dictionary keeps its keys apart and its
/// values well-formed.
pub proof fn lemma_rewritten_entries_well_formed(
    entries: Seq<EntryModel>,
    map: Map<ObjectId, ObjectId>,
)
    requires
        unique_keys(entries),
        forall|i: int| 0 <= i < entries.len() ==> well_formed((#[trigger] entries[i]).value),
    ensures
        unique_keys(rewritten_entries(entries, map)),
        forall|i: int|
            0 <= i < entries.len() ==> well_formed(
                (#[trigger] rewritten_entries(entries, map)[i]).value,
            ),
    decreases entries,
{
    let result = rewritten_entries(entries, map);
    assert forall|i: int, j: int| 0 <= i < j < result.len() implies (#[trigger] result[i]).key
        != (#[trigger] result[j]).key by {
        assert(entries[i].key != entries[j].key);
    }
    assert forall|i: int| 0 <= i < entries.len() implies well_formed(
        (#[trigger] result[i]).value,
    ) by {
        lemma_rewritten_well_formed(entries[i].value, map);
    }
}

/// Taking a parent keeps an object well-formed.
pub proof fn lemma_with_parent_well_formed(object: ObjectModel, parent: ObjectId)
    requires
        well_formed(object),
    ensures
        well_formed(with_parent(object, parent)),
{
    if let ObjectModel::Dictionary(entries) = object {
        lemma_with_entry_well_formed(
            entries,
            parent_key_bytes(),
            ObjectModel::Reference(parent),
        );
    }
}

/// The `Pages` node and the catalog are well-formed.
pub proof fn lemma_nodes_well_formed(page_ids: Seq<ObjectId>, pages_id: ObjectId)
    ensures
        well_formed(pages_node(page_ids)),
        well_formed(catalog_node(pages_id)),
{
    assert(type_key_bytes()[0] != kids_key_bytes()[0]);
    assert(type_key_bytes()[0] != count_key_bytes()[0]);
    assert(kids_key_bytes()[0] != count_key_bytes()[0]);
    assert(type_key_bytes()[0] != pages_bytes()[0]);
    let tree = pages_node(page_ids)->Dictionary_0;
    let kids = references_to(page_ids);
    assert forall|i: int| 0 <= i < kids.len() implies well_formed(#[trigger] kids[i]) by {}
    assert(well_formed(tree[1].value));
    assert forall|i: int| 0 <= i < tree.len() implies well_formed((#[trigger] tree[i]).value) by {}
    let catalog = catalog_node(pages_id)->Dictionary_0;
    assert forall|i: int| 0 <= i < catalog.len() implies well_formed(
        (#[trigger] catalog[i]).value,
    ) by {}
}

/// The copies of well-formed sources are well-formed.
pub proof fn lemma_copies_well_formed(sources: Seq<SourceModel>)
    requires
        forall|k: int| 0 <= k < sources.len() ==> table_well_formed((#[trigger] sources[k]).table),
    ensures
        table_well_formed(copied_all(sources)),
    decreases sources.len(),
{
    if sources.len() > 0 {
        let front = sources.drop_last();
        let last = sources.last();
        let first = 1 + object_total(front);
        assert forall|k: int| 0 <= k < front.len() implies table_well_formed(
            (#[trigger] front[k]).table,
        ) by {
            assert(table_well_formed(sources[k].table));
        }
        lemma_copies_well_formed(front);
        assert(table_well_formed(sources[sources.len() - 1].table));
        assert forall|j: int| 0 <= j < copied_all(sources).len() implies well_formed(
            (#[trigger] copied_all(sources)[j]).1,
        ) by {
            if j < copied_all(front).len() {
                assert(copied_all(sources)[j] == copied_all(front)[j]);
            } else {
                let i = j - copied_all(front).len();
                assert(copied_all(sources)[j] == copied(last.table, first)[i]);
                assert(well_formed(last.table[i].1));
                lemma_rewritten_well_formed(last.table[i].1, id_map_of(last.table, first));
            }
        }
    }
}

/// Merging well-formed sources gives a well-formed table.
pub proof fn lemma_merged_well_formed(sources: Seq<SourceModel>)
    requires
        forall|k: int| 0 <= k < sources.len() ==> table_well_formed((#[trigger] sources[k]).table),
    ensures
        table_well_formed(merged_table(sources)),
{
    let merged = merged_table(sources);
    let copies = copied_all(sources);
    let total = object_total(sources);
    lemma_copies_numbered(sources);
    lemma_copies_well_formed(sources);
    lemma_nodes_well_formed(migrated_all(sources), pages_id_of(sources));
    assert forall|j: int| 0 <= j < merged.len() implies well_formed((#[trigger] merged[j]).1) by {
        if j < total {
            assert(well_formed(copies[j].1));
            lemma_with_parent_well_formed(copies[j].1, pages_id_of(sources));
        }
    }
}

} // verus!
