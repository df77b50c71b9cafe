//! The merge: the objects of every source document under fresh identifiers,
//! one page tree over all their pages, one catalog, and a trailer that
//! refers to it.

use vstd::prelude::*;
use crate::allocate::{fresh_id, id_map_of, IdAllocator};
use crate::document::Document;
use crate::graph::{all_before, copied, migrate_objects};
use crate::id_map::IdMap;
use crate::names::{
    catalog_bytes, catalog_name, pages_bytes, pages_name, root_key, root_key_bytes, type_key,
    type_key_bytes,
};
use crate::object::{
    has_key, Dictionary, EntryModel, Object, ObjectId, ObjectModel,
};
use crate::ordering::in_key_order;
use crate::page_order::{migrate_pages, migrated};
use crate::page_tree::{build_pages_node, pages_node, reparent_pages, reparented};
use crate::table::{ascending, lemma_slot, lemma_slot_of_entry};

verus! {

/// One input of a merge: a document and its pages, each with the key that
/// orders it among the pages of that document.
#[derive(Debug, PartialEq, Eq)]
pub struct Source {
    pub document: Document,
    pub pages: Vec<(u32, ObjectId)>,
}

/// What a merge reads of one source: its object table and its page list.
pub struct SourceModel {
    pub table: Seq<(ObjectId, ObjectModel)>,
    pub pages: Seq<(u32, ObjectId)>,
}

impl View for Source {
    type V = SourceModel;

    open spec fn view(&self) -> SourceModel {
        SourceModel { table: self.document.objects@, pages: self.pages@ }
    }
}

/// The sources as the merge reads them, in the order given.
pub open spec fn sources_model(sources: Seq<Source>) -> Seq<SourceModel> {
    Seq::new(sources.len(), |k: int| sources[k]@)
}

/// The number of objects in all the sources together.
pub open spec fn object_total(sources: Seq<SourceModel>) -> int
    decreases sources.len(),
{
    if sources.len() == 0 {
        0
    } else {
        object_total(sources.drop_last()) + sources.last().table.len()
    }
}

/// The copies of all the sources' objects: the sources in the order given,
/// numbered on from 1 without a gap.
pub open spec fn copied_all(sources: Seq<SourceModel>) -> Seq<(ObjectId, ObjectModel)>
    decreases sources.len(),
{
    if sources.len() == 0 {
        Seq::empty()
    } else {
        copied_all(sources.drop_last()) + copied(
            sources.last().table,
            1 + object_total(sources.drop_last()),
        )
    }
}

/// The merged identifiers of all the sources' pages: each source's pages in
/// its page order, the sources in the order given.
pub open spec fn migrated_all(sources: Seq<SourceModel>) -> Seq<ObjectId>
    decreases sources.len(),
{
    if sources.len() == 0 {
        Seq::empty()
    } else {
        migrated_all(sources.drop_last()) + migrated(
            in_key_order(sources.last().pages),
            id_map_of(sources.last().table, 1 + object_total(sources.drop_last())),
        )
    }
}

/// The identifier of the merged `Pages` node: the first after the copies.
pub open spec fn pages_id_of(sources: Seq<SourceModel>) -> ObjectId {
    fresh_id(1 + object_total(sources))
}

/// The identifier of the merged catalog: the one after the `Pages` node.
pub open spec fn catalog_id_of(sources: Seq<SourceModel>) -> ObjectId {
    fresh_id(2 + object_total(sources))
}

/// The catalog over the page tree rooted at `pages_id`.
pub open spec fn catalog_node(pages_id: ObjectId) -> ObjectModel {
    ObjectModel::Dictionary(
        seq![
            EntryModel { key: type_key_bytes(), value: ObjectModel::Name(catalog_bytes()) },
            EntryModel { key: pages_bytes(), value: ObjectModel::Reference(pages_id) },
        ],
    )
}

/// The merged object table: the copies of all the sources' objects, every
/// page among them with the merged `Pages` node as its parent, then that
/// node, then the catalog.
pub open spec fn merged_table(sources: Seq<SourceModel>) -> Seq<(ObjectId, ObjectModel)> {
    reparented(copied_all(sources), migrated_all(sources), pages_id_of(sources)).push(
        (pages_id_of(sources), pages_node(migrated_all(sources))),
    ).push((catalog_id_of(sources), catalog_node(pages_id_of(sources))))
}

/// The merged trailer: its one entry refers to the catalog.
pub open spec fn merged_trailer(sources: Seq<SourceModel>) -> Seq<EntryModel> {
    seq![
        EntryModel {
            key: root_key_bytes(),
            value: ObjectModel::Reference(catalog_id_of(sources)),
        },
    ]
}

/// Whether every source's object table is in order.
pub open spec fn sources_wf(sources: Seq<Source>) -> bool {
    forall|k: int| 0 <= k < sources.len() ==> (#[trigger] sources[k]).document.objects.wf()
}

/// The object total of a list of sources grows by the last table's length.
pub proof fn lemma_total_step(sources: Seq<SourceModel>, k: int)
    requires
        0 <= k < sources.len(),
    ensures
        object_total(sources.take(k + 1)) == object_total(sources.take(k)) + sources[k].table.len(),
        copied_all(sources.take(k + 1)) == copied_all(sources.take(k)) + copied(
            sources[k].table,
            1 + object_total(sources.take(k)),
        ),
        migrated_all(sources.take(k + 1)) == migrated_all(sources.take(k)) + migrated(
            in_key_order(sources[k].pages),
            id_map_of(sources[k].table, 1 + object_total(sources.take(k))),
        ),
        object_total(sources.take(k)) >= 0,
{
    assert(sources.take(k + 1).drop_last() =~= sources.take(k));
    lemma_total_bounds(sources, k);
}

/// The object total of a prefix is at least 0 and at most the total.
pub proof fn lemma_total_bounds(sources: Seq<SourceModel>, k: int)
    requires
        0 <= k <= sources.len(),
    ensures
        0 <= object_total(sources.take(k)) <= object_total(sources),
    decreases sources.len() - k,
{
    lemma_total_nonnegative(sources.take(k));
    if k == sources.len() {
        assert(sources.take(k) =~= sources);
    } else {
        assert(sources.take(k + 1).drop_last() =~= sources.take(k));
        lemma_total_bounds(sources, k + 1);
    }
}

/// An object total is never negative.
pub proof fn lemma_total_nonnegative(sources: Seq<SourceModel>)
    ensures
        0 <= object_total(sources),
    decreases sources.len(),
{
    if sources.len() > 0 {
        lemma_total_nonnegative(sources.drop_last());
    }
}

/// Whether every source's table ascends in its identifiers.
pub open spec fn tables_ascend(sources: Seq<SourceModel>) -> bool {
    forall|k: int| 0 <= k < sources.len() ==> ascending((#[trigger] sources[k]).table)
}

/// Whether `id` is the fresh identifier of a number from `low` up to, and
/// not including, `high`.
pub open spec fn numbered_within(id: ObjectId, low: int, high: int) -> bool {
    exists|number: int| low <= number < high && id == #[trigger] fresh_id(number)
}

/// Every identifier that a table's map gives lies in the range of numbers
/// that the table's objects received.
pub proof fn lemma_migrated_within(
    pages: Seq<(u32, ObjectId)>,
    table: Seq<(ObjectId, ObjectModel)>,
    first: int,
)
    requires
        ascending(table),
    ensures
        forall|w: int|
            0 <= w < migrated(pages, id_map_of(table, first)).len() ==> numbered_within(
                #[trigger] migrated(pages, id_map_of(table, first))[w],
                first,
                first + table.len(),
            ),
    decreases pages.len(),
{
    let map = id_map_of(table, first);
    if pages.len() > 0 {
        let front = migrated(pages.drop_last(), map);
        lemma_migrated_within(pages.drop_last(), table, first);
        let id = pages.last().1;
        if map.contains_key(id) {
            let at = choose|i: int| 0 <= i < table.len() && (#[trigger] table[i]).0 == id;
            lemma_slot_of_entry(table, at);
            assert(map[id] == fresh_id(first + at));
            assert(numbered_within(map[id], first, first + table.len()));
        }
        assert forall|w: int| 0 <= w < migrated(pages, map).len() implies numbered_within(
            #[trigger] migrated(pages, map)[w],
            first,
            first + table.len(),
        ) by {
            if w < front.len() {
                assert(migrated(pages, map)[w] == front[w]);
            }
        }
    }
}

/// Every migrated page identifier is the fresh identifier of a number that
/// one of the copies received.
pub proof fn lemma_pages_within(sources: Seq<SourceModel>)
    requires
        tables_ascend(sources),
    ensures
        forall|w: int|
            0 <= w < migrated_all(sources).len() ==> numbered_within(
                #[trigger] migrated_all(sources)[w],
                1,
                1 + object_total(sources),
            ),
    decreases sources.len(),
{
    if sources.len() > 0 {
        let front = sources.drop_last();
        assert forall|k: int| 0 <= k < front.len() implies ascending(
            (#[trigger] front[k]).table,
        ) by {
            assert(ascending(sources[k].table));
        }
        lemma_pages_within(front);
        lemma_total_nonnegative(front);
        let first = 1 + object_total(front);
        let last = sources.last();
        assert(ascending(sources[sources.len() - 1].table));
        lemma_migrated_within(in_key_order(last.pages), last.table, first);
        let own = migrated(in_key_order(last.pages), id_map_of(last.table, first));
        assert forall|w: int| 0 <= w < migrated_all(sources).len() implies numbered_within(
            #[trigger] migrated_all(sources)[w],
            1,
            1 + object_total(sources),
        ) by {
            let id = migrated_all(sources)[w];
            if w < migrated_all(front).len() {
                assert(numbered_within(migrated_all(front)[w], 1, 1 + object_total(front)));
                let number = choose|number: int|
                    1 <= number < 1 + object_total(front) && id == #[trigger] fresh_id(number);
                assert(1 <= number < 1 + object_total(sources));
            } else {
                assert(numbered_within(
                    own[w - migrated_all(front).len()],
                    first,
                    first + last.table.len(),
                ));
                let number = choose|number: int|
                    first <= number < first + last.table.len() && id == #[trigger] fresh_id(
                        number,
                    );
                assert(1 <= number < 1 + object_total(sources));
            }
        }
    }
}

/// Builds the catalog over the page tree rooted at `pages_id`.
pub fn build_catalog(pages_id: ObjectId) -> (node: Object)
    ensures
        node@ == catalog_node(pages_id),
{
    let mut dict = Dictionary::new();
    dict.set(type_key(), Object::Name(catalog_name()));
    proof {
        let one = dict@;
        assert(one =~= seq![
            EntryModel { key: type_key_bytes(), value: ObjectModel::Name(catalog_bytes()) },
        ]);
        assert(!has_key(one, pages_bytes())) by {
            assert(one[0].key[0] != pages_bytes()[0]);
        }
    }
    dict.set(pages_name(), Object::Reference(pages_id));
    let node = Object::Dictionary(dict);
    assert(node@->Dictionary_0 =~= catalog_node(pages_id)->Dictionary_0);
    node
}

/// Merges the sources into one document of version 1.5.
///
/// Every object of every source is copied under a fresh identifier, the
/// sources in the order given and the numbers on from 1, with its
/// references rewritten through the identifier map of its own source. One
/// `Pages` node lists the pages of all the sources, each source's pages in
/// ascending order of their keys; every page takes that node as its parent.
/// One catalog refers to the `Pages` node and the trailer's `Root` to the
/// catalog. The counter of the merged document is the number that the next
/// allocation would have handed out.
pub fn merge_documents(sources: &Vec<Source>) -> (merged: Document)
    requires
        sources_wf(sources@),
        object_total(sources_model(sources@)) + 3 <= u32::MAX,
    ensures
        merged.version@ == "1.5"@,
        merged.objects.wf(),
        merged.objects@ == merged_table(sources_model(sources@)),
        merged.trailer@ == merged_trailer(sources_model(sources@)),
        merged.max_id == object_total(sources_model(sources@)) + 3,
{
    let ghost models = sources_model(sources@);
    let mut merged = Document::with_version("1.5");
    let mut allocator = IdAllocator::new();
    let mut id_maps: Vec<IdMap> = Vec::with_capacity(sources.len());
    let n: usize = sources.len();

    let mut k: usize = 0;
    assert(models.take(0) =~= Seq::<SourceModel>::empty());
    assert(merged.objects@ =~= copied_all(models.take(0)));
    while k < n
        invariant
            n == sources.len(),
            k <= n,
            models == sources_model(sources@),
            sources_wf(sources@),
            object_total(models) + 3 <= u32::MAX,
            merged.version@ == "1.5"@,
            merged.trailer@ == Seq::<EntryModel>::empty(),
            merged.objects.wf(),
            merged.objects@ == copied_all(models.take(k as int)),
            allocator.upcoming() == 1 + object_total(models.take(k as int)),
            all_before(merged.objects@, fresh_id(allocator.upcoming())),
            id_maps.len() == k,
            forall|j: int|
                0 <= j < k ==> (#[trigger] id_maps@[j]).wf() && id_maps@[j]@ == id_map_of(
                    models[j].table,
                    1 + object_total(models.take(j)),
                ),
        decreases n - k,
    {
        proof {
            lemma_total_step(models, k as int);
            lemma_total_bounds(models, k as int + 1);
            assert(sources@[k as int].document.objects.wf());
        }
        let id_map = migrate_objects(
            &sources[k].document.objects,
            &mut allocator,
            &mut merged.objects,
        );
        id_maps.push(id_map);
        k = k + 1;
    }
    assert(models.take(n as int) =~= models);

    let mut all_page_ids: Vec<ObjectId> = Vec::new();
    let mut k: usize = 0;
    assert(all_page_ids@ =~= migrated_all(models.take(0)));
    while k < n
        invariant
            n == sources.len(),
            k <= n,
            models == sources_model(sources@),
            id_maps.len() == n,
            forall|j: int|
                0 <= j < n ==> (#[trigger] id_maps@[j]).wf() && id_maps@[j]@ == id_map_of(
                    models[j].table,
                    1 + object_total(models.take(j)),
                ),
            all_page_ids@ == migrated_all(models.take(k as int)),
        decreases n - k,
    {
        proof {
            lemma_total_step(models, k as int);
        }
        migrate_pages(&sources[k].pages, &id_maps[k], &mut all_page_ids);
        k = k + 1;
    }
    assert(models.take(n as int) =~= models);

    let ghost copies = merged.objects@;
    let pages_id = allocator.allocate();
    proof {
        lemma_slot(copies, pages_id, copies.len() as int);
    }
    let _ = merged.objects.insert(pages_id, build_pages_node(&all_page_ids));
    let ghost with_pages = merged.objects@;
    assert(with_pages =~= copies.push((pages_id, pages_node(all_page_ids@))));

    reparent_pages(&mut merged.objects, &all_page_ids, pages_id);
    proof {
        assert(tables_ascend(models)) by {
            assert forall|j: int| 0 <= j < models.len() implies ascending(
                (#[trigger] models[j]).table,
            ) by {
                assert(sources@[j].document.objects.wf());
            }
        }
        lemma_pages_within(models);
        assert(!all_page_ids@.contains(pages_id)) by {
            if all_page_ids@.contains(pages_id) {
                let w = choose|w: int| 0 <= w < all_page_ids@.len() && all_page_ids@[w] == pages_id;
                assert(numbered_within(all_page_ids@[w], 1, 1 + object_total(models)));
            }
        }
        assert(merged.objects@ =~= reparented(copies, all_page_ids@, pages_id).push(
            (pages_id, pages_node(all_page_ids@)),
        ));
    }

    let ghost reparented_table = merged.objects@;
    let catalog_id = allocator.allocate();
    proof {
        assert forall|i: int| 0 <= i < reparented_table.len() implies (
        #[trigger] reparented_table[i]).0.before(catalog_id) by {
            lemma_total_nonnegative(models);
            assert(pages_id == fresh_id(1 + object_total(models)));
            assert(catalog_id == fresh_id(2 + object_total(models)));
            assert(pages_id.before(catalog_id));
            if i < copies.len() {
                assert(reparented_table[i].0 == copies[i].0);
                assert(copies[i].0.before(pages_id));
            } else {
                assert(reparented_table[i].0 == pages_id);
            }
        }
        lemma_slot(reparented_table, catalog_id, reparented_table.len() as int);
    }
    let _ = merged.objects.insert(catalog_id, build_catalog(pages_id));
    assert(merged.objects@ =~= merged_table(models));

    merged.trailer.set(root_key(), Object::Reference(catalog_id));
    assert(merged.trailer@ =~= merged_trailer(models));
    merged.max_id = allocator.next_number();
    merged
}

} // verus!
