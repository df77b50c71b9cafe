//! The kinds of objects, as their `Type` entries name them: a merge keeps
//! the kind of every object it copies and adds one `Pages` node and one
//! catalog.

use vstd::prelude::*;
use crate::allocate::id_map_of;
use crate::dictionary::{lemma_lookup_at, lemma_lookup_other};
use crate::graph::copied;
use crate::laws::{entry_of, lemma_catalog_entries, lemma_pages_node_entries};
use crate::merge::{
    catalog_id_of, catalog_node, copied_all, merged_table, merged_trailer, migrated_all,
    object_total, pages_id_of, SourceModel,
};
use crate::names::{catalog_bytes, pages_bytes, parent_key_bytes, root_key_bytes, type_key_bytes};
use crate::object::{
    first_at, first_index, has_key, lemma_first_index, lemma_has_key_first, lookup, EntryModel,
    ObjectId, ObjectModel,
};
use crate::page_tree::{pages_node, with_parent};
use crate::rewrite::{rewritten, rewritten_entries};
use crate::structure::{
    first_number, lemma_copies_numbered, lemma_copies_of_source, lemma_first_number_bounds,
    source_map,
};

verus! {

/// Whether `object` is a dictionary whose `Type` entry is the name `name`.
pub open spec fn is_typed(object: ObjectModel, name: Seq<u8>) -> bool {
    entry_of(object, type_key_bytes()) == Some(ObjectModel::Name(name))
}

/// Whether no object of any source is of the kind `name`.
pub open spec fn none_typed(sources: Seq<SourceModel>, name: Seq<u8>) -> bool {
    forall|k: int, i: int|
        0 <= k < sources.len() && 0 <= i < sources[k].table.len() ==> !is_typed(
            (#[trigger] sources[k].table[i]).1,
            name,
        )
}

/// A lookup in rewritten entries gives the rewritten value of the lookup.
pub proof fn lemma_lookup_rewritten(
    entries: Seq<EntryModel>,
    map: Map<ObjectId, ObjectId>,
    key: Seq<u8>,
)
    ensures
        lookup(rewritten_entries(entries, map), key) == match lookup(entries, key) {
            Some(value) => Some(rewritten(value, map)),
            None => None,
        },
{
    let after = rewritten_entries(entries, map);
    if has_key(entries, key) {
        lemma_has_key_first(entries, key);
        let at = first_index(entries, key);
        assert(after[at].key == key);
        assert forall|j: int| 0 <= j < at implies (#[trigger] after[j]).key != key by {
            assert(entries[j].key != key);
        }
        assert(first_at(after, key, at));
        lemma_first_index(after, key, at);
    } else {
        if has_key(after, key) {
            let w = choose|i: int| 0 <= i < after.len() && (#[trigger] after[i]).key == key;
            assert(entries[w].key == key);
        }
    }
}

/// Rewriting keeps the kind of an object.
pub proof fn lemma_rewritten_kind(object: ObjectModel, map: Map<ObjectId, ObjectId>, name: Seq<u8>)
    ensures
        is_typed(rewritten(object, map), name) == is_typed(object, name),
{
    if let ObjectModel::Dictionary(entries) = object {
        lemma_lookup_rewritten(entries, map, type_key_bytes());
    }
}

/// Taking a parent keeps the kind of an object.
pub proof fn lemma_with_parent_kind(object: ObjectModel, parent: ObjectId, name: Seq<u8>)
    ensures
        is_typed(with_parent(object, parent), name) == is_typed(object, name),
{
    if let ObjectModel::Dictionary(entries) = object {
        assert(parent_key_bytes()[0] != type_key_bytes()[0]);
        lemma_lookup_other(
            entries,
            parent_key_bytes(),
            ObjectModel::Reference(parent),
            type_key_bytes(),
        );
    }
}

/// The merged copy of an object is of the kind of the object.
pub proof fn lemma_kind_of_copy(sources: Seq<SourceModel>, k: int, i: int, name: Seq<u8>)
    requires
        0 <= k < sources.len(),
        0 <= i < sources[k].table.len(),
    ensures
        0 <= first_number(sources, k) - 1 + i < object_total(sources),
        is_typed(merged_table(sources)[first_number(sources, k) - 1 + i].1, name) == is_typed(
            sources[k].table[i].1,
            name,
        ),
{
    let j = first_number(sources, k) - 1 + i;
    lemma_copies_numbered(sources);
    lemma_copies_of_source(sources, k, i);
    lemma_first_number_bounds(sources, k);
    let copy = copied_all(sources)[j].1;
    lemma_rewritten_kind(sources[k].table[i].1, source_map(sources, k), name);
    lemma_with_parent_kind(copy, pages_id_of(sources), name);
}

/// Where no source object is of a kind, no copy is.
pub proof fn lemma_copies_not_typed(sources: Seq<SourceModel>, name: Seq<u8>)
    requires
        none_typed(sources, name),
    ensures
        forall|j: int|
            0 <= j < copied_all(sources).len() ==> !is_typed(
                (#[trigger] copied_all(sources)[j]).1,
                name,
            ),
    decreases sources.len(),
{
    if sources.len() > 0 {
        let front = sources.drop_last();
        let last = sources.last();
        let first = 1 + object_total(front);
        assert forall|k: int, i: int|
            0 <= k < front.len() && 0 <= i < front[k].table.len() implies !is_typed(
            (#[trigger] front[k].table[i]).1,
            name,
        ) by {
            assert(!is_typed(sources[k].table[i].1, name));
        }
        lemma_copies_not_typed(front, name);
        assert forall|j: int| 0 <= j < copied_all(sources).len() implies !is_typed(
            (#[trigger] copied_all(sources)[j]).1,
            name,
        ) by {
            if j < copied_all(front).len() {
                assert(copied_all(sources)[j] == copied_all(front)[j]);
            } else {
                let i = j - copied_all(front).len();
                assert(copied_all(sources)[j] == copied(last.table, first)[i]);
                assert(!is_typed(sources[sources.len() - 1].table[i].1, name));
                lemma_rewritten_kind(last.table[i].1, id_map_of(last.table, first), name);
            }
        }
    }
}

/// The merged table ends in one `Pages` node and one catalog, the trailer's
/// root refers to that catalog and the catalog to that `Pages` node,
/// whatever the sources are and however many.
pub proof fn lemma_one_root(sources: Seq<SourceModel>)
    ensures
        merged_table(sources).len() == object_total(sources) + 2,
        merged_table(sources)[object_total(sources)] == (
            pages_id_of(sources),
            pages_node(migrated_all(sources)),
        ),
        merged_table(sources)[object_total(sources) + 1] == (
            catalog_id_of(sources),
            catalog_node(pages_id_of(sources)),
        ),
        is_typed(merged_table(sources)[object_total(sources)].1, pages_bytes()),
        is_typed(merged_table(sources)[object_total(sources) + 1].1, catalog_bytes()),
        lookup(merged_trailer(sources), root_key_bytes()) == Some(
            ObjectModel::Reference(catalog_id_of(sources)),
        ),
        entry_of(merged_table(sources)[object_total(sources) + 1].1, pages_bytes()) == Some(
            ObjectModel::Reference(pages_id_of(sources)),
        ),
{
    lemma_copies_numbered(sources);
    lemma_pages_node_entries(migrated_all(sources));
    lemma_catalog_entries(pages_id_of(sources));
    assert(first_at(merged_trailer(sources), root_key_bytes(), 0));
    lemma_lookup_at(merged_trailer(sources), root_key_bytes(), 0);
}

/// Where no source object is a catalog or a `Pages` node, the merged table
/// holds exactly one catalog and exactly one `Pages` node: the two that
/// the merge adds.
pub proof fn lemma_one_catalog_one_pages(sources: Seq<SourceModel>)
    requires
        none_typed(sources, catalog_bytes()),
        none_typed(sources, pages_bytes()),
    ensures
        forall|j: int|
            0 <= j < merged_table(sources).len() ==> (is_typed(
                (#[trigger] merged_table(sources)[j]).1,
                catalog_bytes(),
            ) <==> j == object_total(sources) + 1),
        forall|j: int|
            0 <= j < merged_table(sources).len() ==> (is_typed(
                (#[trigger] merged_table(sources)[j]).1,
                pages_bytes(),
            ) <==> j == object_total(sources)),
{
    let merged = merged_table(sources);
    let total = object_total(sources);
    lemma_one_root(sources);
    lemma_copies_numbered(sources);
    lemma_copies_not_typed(sources, catalog_bytes());
    lemma_copies_not_typed(sources, pages_bytes());
    assert(catalog_bytes()[0] != pages_bytes()[0]);
    assert(catalog_bytes() != pages_bytes());
    assert forall|j: int| 0 <= j < merged.len() implies (is_typed(
        (#[trigger] merged[j]).1,
        catalog_bytes(),
    ) <==> j == total + 1) && (is_typed(merged[j].1, pages_bytes()) <==> j == total) by {
        if j < total {
            let copy = copied_all(sources)[j].1;
            lemma_with_parent_kind(copy, pages_id_of(sources), catalog_bytes());
            lemma_with_parent_kind(copy, pages_id_of(sources), pages_bytes());
        }
    }
}

} // verus!
