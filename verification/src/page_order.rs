//! The order of pages: each source document's page list is put in ascending
//! order of its page keys, and each page identifier is exchanged for the
//! identifier that the page has in the merged document.

use vstd::prelude::*;
use crate::id_map::IdMap;
use crate::object::ObjectId;
use crate::ordering::{in_key_order, sort_by_key};

verus! {

/// The identifiers that the pages have in the merged document, in the
/// order given: each page's identifier is looked up in `map`, and a page
/// whose identifier the map does not hold is left out.
pub open spec fn migrated(pages: Seq<(u32, ObjectId)>, map: Map<ObjectId, ObjectId>) -> Seq<
    ObjectId,
>
    decreases pages.len(),
{
    if pages.len() == 0 {
        Seq::empty()
    } else if map.contains_key(pages.last().1) {
        migrated(pages.drop_last(), map).push(map[pages.last().1])
    } else {
        migrated(pages.drop_last(), map)
    }
}

/// Appends to `page_ids` the merged identifier of every page of `pages`, in
/// page order, leaving out a page whose identifier `id_map` does not hold.
pub fn migrate_pages(pages: &Vec<(u32, ObjectId)>, id_map: &IdMap, page_ids: &mut Vec<ObjectId>)
    requires
        id_map.wf(),
    ensures
        final(page_ids)@ == old(page_ids)@ + migrated(in_key_order(pages@), id_map@),
{
    let ordered = sort_by_key(pages);
    let ghost before = page_ids@;
    let n: usize = ordered.len();
    let mut i: usize = 0;
    assert(ordered@.take(0) =~= Seq::<(u32, ObjectId)>::empty());
    assert(page_ids@ =~= before + migrated(ordered@.take(0), id_map@));
    while i < n
        invariant
            id_map.wf(),
            n == ordered.len(),
            i <= n,
            page_ids@ == before + migrated(ordered@.take(i as int), id_map@),
        decreases n - i,
    {
        proof {
            assert(ordered@.take(i as int + 1).drop_last() =~= ordered@.take(i as int));
        }
        match id_map.get(&ordered[i].1) {
            Some(new_page_id) => {
                page_ids.push(new_page_id);
                assert(page_ids@ =~= before + migrated(ordered@.take(i as int + 1), id_map@));
            },
            None => {},
        }
        i = i + 1;
    }
    assert(ordered@.take(n as int) =~= ordered@);
}

} // verus!
