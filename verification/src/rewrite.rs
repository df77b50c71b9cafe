//! The reference-rewrite transform: every reference inside an object is
//! redirected through an identifier map. The transform follows the nesting
//! of arrays, dictionaries and stream dictionaries, never a reference.

use vstd::prelude::*;
use crate::id_map::IdMap;
use crate::object::{
    entries_model, object_model, objects_model, EntryModel, Object, ObjectId, ObjectModel,
};

verus! {

/// Where a reference to `id` points after rewriting: to what the map gives
/// for it, or where it pointed before if the map does not hold it.
pub open spec fn redirected(id: ObjectId, map: Map<ObjectId, ObjectId>) -> ObjectId {
    if map.contains_key(id) {
        map[id]
    } else {
        id
    }
}

/// The elements of an array, each rewritten.
pub open spec fn rewritten_items(items: Seq<ObjectModel>, map: Map<ObjectId, ObjectId>) -> Seq<
    ObjectModel,
>
    decreases items,
{
    Seq::new(
        items.len(),
        |i: int|
            if 0 <= i < items.len() {
                rewritten(items[i], map)
            } else {
                ObjectModel::Null
            },
    )
}

/// The entries of a dictionary, each value rewritten under its own key.
pub open spec fn rewritten_entries(entries: Seq<EntryModel>, map: Map<ObjectId, ObjectId>) -> Seq<
    EntryModel,
>
    decreases entries,
{
    Seq::new(
        entries.len(),
        |i: int|
            EntryModel {
                key: entries[i].key,
                value: if 0 <= i < entries.len() {
                    rewritten(entries[i].value, map)
                } else {
                    ObjectModel::Null
                },
            },
    )
}

/// An object with every reference inside it redirected through `map`. A
/// stream's payload and every value that is no reference stay as they are.
pub open spec fn rewritten(object: ObjectModel, map: Map<ObjectId, ObjectId>) -> ObjectModel
    decreases object,
{
    match object {
        ObjectModel::Reference(id) => ObjectModel::Reference(redirected(id, map)),
        ObjectModel::Array(items) => ObjectModel::Array(rewritten_items(items, map)),
        ObjectModel::Dictionary(entries) => ObjectModel::Dictionary(
            rewritten_entries(entries, map),
        ),
        ObjectModel::Stream(entries, content, allows_compression, start_position) => {
            ObjectModel::Stream(
                rewritten_entries(entries, map),
                content,
                allows_compression,
                start_position,
            )
        },
        other => other,
    }
}

/// Rewrites the elements of an array in place.
fn update_items(items: &mut Vec<Object>, id_map: &IdMap)
    requires
        id_map.wf(),
    ensures
        objects_model(final(items)@) == rewritten_items(objects_model(old(items)@), id_map@),
    decreases *old(items),
{
    let n: usize = items.len();
    let ghost before = items@;
    let mut k: usize = 0;
    while k < n
        invariant
            id_map.wf(),
            items.len() == n,
            before.len() == n,
            k <= n,
            forall|j: int|
                0 <= j < k ==> object_model(#[trigger] items@[j]) == rewritten(
                    object_model(before[j]),
                    id_map@,
                ),
            forall|j: int| k <= j < n ==> #[trigger] items@[j] == before[j],
            forall|j: int| 0 <= j < n ==> decreases_to!(*old(items) => #[trigger] before[j]),
        decreases n - k,
    {
        update_references(&mut items[k], id_map);
        k = k + 1;
    }
    assert(objects_model(items@) =~= rewritten_items(objects_model(before), id_map@));
}

/// Rewrites the values of a dictionary's entries in place.
fn update_entries(entries: &mut Vec<(Vec<u8>, Object)>, id_map: &IdMap)
    requires
        id_map.wf(),
    ensures
        entries_model(final(entries)@) == rewritten_entries(
            entries_model(old(entries)@),
            id_map@,
        ),
    decreases *old(entries),
{
    let n: usize = entries.len();
    let ghost before = entries@;
    let mut k: usize = 0;
    while k < n
        invariant
            id_map.wf(),
            entries.len() == n,
            before.len() == n,
            k <= n,
            forall|j: int|
                0 <= j < k ==> (#[trigger] entries@[j]).0 == before[j].0 && object_model(
                    entries@[j].1,
                ) == rewritten(object_model(before[j].1), id_map@),
            forall|j: int| k <= j < n ==> #[trigger] entries@[j] == before[j],
            forall|j: int| 0 <= j < n ==> decreases_to!(*old(entries) => (#[trigger] before[j]).1),
        decreases n - k,
    {
        update_references(&mut entries[k].1, id_map);
        k = k + 1;
    }
    assert(entries_model(entries@) =~= rewritten_entries(entries_model(before), id_map@));
}

/// Redirects every reference inside `object` through `id_map`: a reference
/// whose target the map holds points to the mapped identifier afterwards,
/// any other is left as it is. Keys, payloads and all other values stay.
pub fn update_references(object: &mut Object, id_map: &IdMap)
    requires
        id_map.wf(),
    ensures
        final(object)@ == rewritten(old(object)@, id_map@),
    decreases *old(object),
{
    match object {
        Object::Reference(id) => {
            match id_map.get(id) {
                Some(target) => {
                    *id = target;
                },
                None => {},
            }
        },
        Object::Dictionary(dict) => {
            update_entries(&mut dict.entries, id_map);
        },
        Object::Array(items) => {
            update_items(items, id_map);
        },
        Object::Stream(stream) => {
            update_entries(&mut stream.dict.entries, id_map);
        },
        _ => {},
    }
}

} // verus!
