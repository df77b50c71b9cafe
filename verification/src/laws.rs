//! What holds of every merge: the number and order of the pages, their
//! parent, and the shape of the merged table.

use vstd::prelude::*;
use crate::allocate::{fresh_id, id_map_of};
use crate::dictionary::{lemma_lookup_at, lemma_lookup_stored};
use crate::graph::copied;
use crate::merge::{
    catalog_node, copied_all, lemma_pages_within, merged_table, migrated_all, numbered_within,
    object_total, pages_id_of, tables_ascend, SourceModel,
};
use crate::names::{
    catalog_bytes, count_key_bytes, kids_key_bytes, pages_bytes, parent_key_bytes, type_key_bytes,
};
use crate::object::{first_at, lookup, ObjectId, ObjectModel};
use crate::ordering::{in_key_order, lemma_key_order_sorts};
use crate::page_order::migrated;
use crate::page_tree::{pages_node, references_to, with_parent};
use crate::rewrite::rewritten;
use crate::structure::{
    first_number, lemma_copies_numbered, lemma_copies_of_source, lemma_first_number_bounds,
    lemma_merged_numbered, lemma_pages_of_source, source_map, source_pages,
};
use crate::table::{ascending, holds, lemma_slot_of_entry, slot};

verus! {

/// The value that a dictionary holds under `key`; nothing for an object
/// that is no dictionary.
pub open spec fn entry_of(object: ObjectModel, key: Seq<u8>) -> Option<ObjectModel> {
    match object {
        ObjectModel::Dictionary(entries) => lookup(entries, key),
        _ => None,
    }
}

/// The number of pages in all the sources together.
pub open spec fn page_total(sources: Seq<SourceModel>) -> int
    decreases sources.len(),
{
    if sources.len() == 0 {
        0
    } else {
        page_total(sources.drop_last()) + sources.last().pages.len()
    }
}

/// Whether every page of the source is an object of its table.
pub open spec fn pages_held(source: SourceModel) -> bool {
    forall|i: int|
        0 <= i < source.pages.len() ==> holds(source.table, (#[trigger] source.pages[i]).1)
}

/// The `Pages` node holds its type, its kids and their count under their
/// keys.
pub proof fn lemma_pages_node_entries(page_ids: Seq<ObjectId>)
    ensures
        entry_of(pages_node(page_ids), type_key_bytes()) == Some(
            ObjectModel::Name(pages_bytes()),
        ),
        entry_of(pages_node(page_ids), kids_key_bytes()) == Some(
            ObjectModel::Array(references_to(page_ids)),
        ),
        entry_of(pages_node(page_ids), count_key_bytes()) == Some(
            ObjectModel::Integer((page_ids.len() as i64) as int),
        ),
{
    let entries = pages_node(page_ids)->Dictionary_0;
    assert(type_key_bytes()[0] != kids_key_bytes()[0]);
    assert(type_key_bytes()[0] != count_key_bytes()[0]);
    assert(kids_key_bytes()[0] != count_key_bytes()[0]);
    assert(first_at(entries, type_key_bytes(), 0));
    assert(first_at(entries, kids_key_bytes(), 1));
    assert(first_at(entries, count_key_bytes(), 2));
    lemma_lookup_at(entries, type_key_bytes(), 0);
    lemma_lookup_at(entries, kids_key_bytes(), 1);
    lemma_lookup_at(entries, count_key_bytes(), 2);
}

/// The catalog holds its type and the reference to the page tree under
/// their keys.
pub proof fn lemma_catalog_entries(pages_id: ObjectId)
    ensures
        entry_of(catalog_node(pages_id), type_key_bytes()) == Some(
            ObjectModel::Name(catalog_bytes()),
        ),
        entry_of(catalog_node(pages_id), pages_bytes()) == Some(
            ObjectModel::Reference(pages_id),
        ),
{
    let entries = catalog_node(pages_id)->Dictionary_0;
    assert(type_key_bytes()[0] != pages_bytes()[0]);
    assert(first_at(entries, type_key_bytes(), 0));
    assert(first_at(entries, pages_bytes(), 1));
    lemma_lookup_at(entries, type_key_bytes(), 0);
    lemma_lookup_at(entries, pages_bytes(), 1);
}

/// Where the map holds every page, each page is carried over and none is
/// left out.
pub proof fn lemma_migrated_all_mapped(pages: Seq<(u32, ObjectId)>, map: Map<ObjectId, ObjectId>)
    requires
        forall|i: int| 0 <= i < pages.len() ==> map.contains_key((#[trigger] pages[i]).1),
    ensures
        migrated(pages, map).len() == pages.len(),
        forall|i: int|
            0 <= i < pages.len() ==> #[trigger] migrated(pages, map)[i] == map[pages[i].1],
    decreases pages.len(),
{
    if pages.len() > 0 {
        let front = pages.drop_last();
        assert forall|i: int| 0 <= i < front.len() implies map.contains_key(
            (#[trigger] front[i]).1,
        ) by {
            assert(map.contains_key(pages[i].1));
        }
        lemma_migrated_all_mapped(front, map);
        assert(map.contains_key(pages[pages.len() - 1].1));
    }
}

/// The page order of a source holds only pages of that source.
pub proof fn lemma_ordered_pages_held(source: SourceModel)
    requires
        pages_held(source),
    ensures
        in_key_order(source.pages).len() == source.pages.len(),
        forall|i: int|
            0 <= i < source.pages.len() ==> holds(
                source.table,
                (#[trigger] in_key_order(source.pages)[i]).1,
            ),
{
    broadcast use vstd::seq_lib::group_to_multiset_ensures;

    lemma_key_order_sorts(source.pages);
    let ordered = in_key_order(source.pages);
    assert forall|i: int| 0 <= i < source.pages.len() implies holds(
        source.table,
        (#[trigger] ordered[i]).1,
    ) by {
        assert(ordered.to_multiset().count(ordered[i]) > 0);
        assert(source.pages.to_multiset().count(ordered[i]) > 0);
        assert(source.pages.contains(ordered[i]));
        let w = choose|w: int| 0 <= w < source.pages.len() && source.pages[w] == ordered[i];
        assert(holds(source.table, source.pages[w].1));
    }
}

/// The merged document has as many pages as the sources have together,
/// where every page of a source is an object of that source: the `Pages`
/// node lists that many kids, and its count says so wherever the number
/// fits a PDF integer.
pub proof fn lemma_page_count(sources: Seq<SourceModel>)
    requires
        forall|k: int| 0 <= k < sources.len() ==> pages_held(#[trigger] sources[k]),
    ensures
        migrated_all(sources).len() == page_total(sources),
        merged_table(sources)[object_total(sources)] == (
            pages_id_of(sources),
            pages_node(migrated_all(sources)),
        ),
        entry_of(merged_table(sources)[object_total(sources)].1, kids_key_bytes()) == Some(
            ObjectModel::Array(references_to(migrated_all(sources))),
        ),
        references_to(migrated_all(sources)).len() == page_total(sources),
        page_total(sources) <= i64::MAX ==> entry_of(
            merged_table(sources)[object_total(sources)].1,
            count_key_bytes(),
        ) == Some(ObjectModel::Integer(page_total(sources))),
    decreases sources.len(),
{
    lemma_copies_numbered(sources);
    lemma_pages_node_entries(migrated_all(sources));
    lemma_page_total(sources);
}

/// The merged page list is as long as the sources' page lists together,
/// where every page of a source is an object of that source.
pub proof fn lemma_page_total(sources: Seq<SourceModel>)
    requires
        forall|k: int| 0 <= k < sources.len() ==> pages_held(#[trigger] sources[k]),
    ensures
        migrated_all(sources).len() == page_total(sources),
        0 <= page_total(sources),
    decreases sources.len(),
{
    if sources.len() > 0 {
        let front = sources.drop_last();
        let last = sources.last();
        assert forall|k: int| 0 <= k < front.len() implies pages_held(#[trigger] front[k]) by {
            assert(pages_held(sources[k]));
        }
        lemma_page_total(front);
        assert(pages_held(sources[sources.len() - 1]));
        lemma_ordered_pages_held(last);
        lemma_migrated_all_mapped(
            in_key_order(last.pages),
            id_map_of(last.table, 1 + object_total(front)),
        );
    }
}

/// Every page that the merged `Pages` node lists is an object of the merged
/// table, and where that object is a dictionary, its `Parent` entry refers
/// to the merged `Pages` node.
pub proof fn lemma_parent_of_pages(sources: Seq<SourceModel>, w: int)
    requires
        tables_ascend(sources),
        object_total(sources) + 3 <= u32::MAX,
        0 <= w < migrated_all(sources).len(),
    ensures
        holds(merged_table(sources), migrated_all(sources)[w]),
        merged_table(sources)[slot(merged_table(sources), migrated_all(sources)[w])].1
            is Dictionary ==> entry_of(
            merged_table(sources)[slot(merged_table(sources), migrated_all(sources)[w])].1,
            parent_key_bytes(),
        ) == Some(ObjectModel::Reference(pages_id_of(sources))),
{
    let merged = merged_table(sources);
    let id = migrated_all(sources)[w];
    lemma_pages_within(sources);
    lemma_merged_numbered(sources);
    lemma_copies_numbered(sources);
    assert(numbered_within(id, 1, 1 + object_total(sources)));
    let number = choose|number: int|
        1 <= number < 1 + object_total(sources) && id == #[trigger] fresh_id(number);
    let at = number - 1;
    assert(merged[at].0 == id);
    lemma_slot_of_entry(merged, at);
    let copies = copied_all(sources);
    assert(copies[at].0 == id);
    assert(migrated_all(sources).contains(id));
    assert(merged[at] == (id, with_parent(copies[at].1, pages_id_of(sources))));
    if let ObjectModel::Dictionary(entries) = copies[at].1 {
        lemma_lookup_stored(
            entries,
            parent_key_bytes(),
            ObjectModel::Reference(pages_id_of(sources)),
        );
    }
}

/// The pages of the merged document are the pages of the sources, document
/// by document and each document's pages in its own page order: the page at
/// place `i` of source `k` stands in the merged page list behind the pages
/// of the sources before it, at place `i` of its own, and the merged object
/// under it is the source's page object with its references rewritten
/// through the source's map and the merged `Pages` node as its parent.
pub proof fn lemma_page_order(sources: Seq<SourceModel>, k: int, i: int)
    requires
        tables_ascend(sources),
        object_total(sources) + 3 <= u32::MAX,
        0 <= k < sources.len(),
        pages_held(sources[k]),
        0 <= i < sources[k].pages.len(),
    ensures
        ({
            let page = in_key_order(sources[k].pages)[i].1;
            let at = slot(sources[k].table, page);
            let new_id = fresh_id(first_number(sources, k) + at);
            let place = migrated_all(sources.take(k)).len() + i;
            &&& 0 <= at < sources[k].table.len()
            &&& sources[k].table[at].0 == page
            &&& 0 <= place < migrated_all(sources).len()
            &&& migrated_all(sources)[place] == new_id
            &&& 0 <= first_number(sources, k) - 1 + at < object_total(sources)
            &&& merged_table(sources)[first_number(sources, k) - 1 + at] == (
                new_id,
                with_parent(
                    rewritten(sources[k].table[at].1, source_map(sources, k)),
                    pages_id_of(sources),
                ),
            )
        }),
{
    let source = sources[k];
    let ordered = in_key_order(source.pages);
    let map = source_map(sources, k);
    let first = first_number(sources, k);
    lemma_ordered_pages_held(source);
    lemma_migrated_all_mapped(ordered, map);
    let page = ordered[i].1;
    assert(holds(source.table, page));
    let found = choose|j: int| 0 <= j < source.table.len() && (#[trigger] source.table[j]).0 == page;
    assert(ascending(source.table));
    lemma_slot_of_entry(source.table, found);
    let at = slot(source.table, page);
    let new_id = fresh_id(first + at);
    assert(source_pages(sources, k)[i] == new_id);
    lemma_pages_of_source(sources, k, i);
    let place = migrated_all(sources.take(k)).len() + i;
    assert(migrated_all(sources)[place] == new_id);
    lemma_copies_of_source(sources, k, at);
    lemma_copies_numbered(sources);
    lemma_first_number_bounds(sources, k);
    let j = first - 1 + at;
    assert(copied_all(sources)[j] == copied(source.table, first)[at]);
    assert(migrated_all(sources).contains(new_id));
}

/// Merging a single document with one page adds two objects to the copies
/// of its own, the `Pages` node and the catalog; the merged page list holds
/// the one page, and the merged object under it is the source's page object
/// with its references rewritten and the `Pages` node as its parent.
pub proof fn lemma_single_page_document(source: SourceModel)
    requires
        ascending(source.table),
        source.table.len() + 3 <= u32::MAX,
        source.pages.len() == 1,
        holds(source.table, source.pages[0].1),
    ensures
        ({
            let sources = seq![source];
            let at = slot(source.table, source.pages[0].1);
            let n = source.table.len() as int;
            let new_id = fresh_id(1 + at);
            &&& merged_table(sources).len() == n + 2
            &&& 0 <= at < n
            &&& migrated_all(sources) == seq![new_id]
            &&& merged_table(sources)[at] == (
                new_id,
                with_parent(
                    rewritten(source.table[at].1, id_map_of(source.table, 1)),
                    fresh_id(1 + n),
                ),
            )
            &&& merged_table(sources)[n] == (fresh_id(1 + n), pages_node(seq![new_id]))
            &&& merged_table(sources)[n + 1] == (fresh_id(2 + n), catalog_node(fresh_id(1 + n)))
        }),
{
    let sources = seq![source];
    assert(sources.drop_last() =~= Seq::<SourceModel>::empty());
    assert(sources.take(0) =~= Seq::<SourceModel>::empty());
    assert(object_total(sources.drop_last()) == 0);
    assert(page_total(sources.drop_last()) == 0);
    assert(sources.last() == source);
    assert(object_total(sources) == source.table.len());
    assert(in_key_order(source.pages) =~= source.pages) by {
        assert(source.pages.drop_last() =~= Seq::<(u32, ObjectId)>::empty());
        assert(in_key_order(source.pages.drop_last()) =~= Seq::<(u32, ObjectId)>::empty());
        assert(Seq::<(u32, ObjectId)>::empty().push(source.pages.last()) =~= source.pages);
    }
    assert(tables_ascend(sources));
    assert(pages_held(sources[0]));
    lemma_page_order(sources, 0, 0);
    lemma_page_total(sources);
    lemma_merged_numbered(sources);
    lemma_copies_numbered(sources);
    assert(page_total(sources) == 1);
    let at = slot(source.table, source.pages[0].1);
    assert(migrated_all(sources) =~= seq![fresh_id(1 + at)]);
}

} // verus!
