//! The merged page tree: one `Pages` node that lists every migrated page,
//! and the back-reference of each page to that node.

use vstd::prelude::*;
use crate::names::{
    count_key, count_key_bytes, kids_key, kids_key_bytes, pages_bytes, pages_name, parent_key,
    parent_key_bytes, type_key, type_key_bytes,
};
use crate::object::{
    first_at, has_key, lemma_first_index, objects_model, with_entry, Dictionary, EntryModel,
    Object, ObjectId, ObjectModel,
};
use crate::table::{ascending, holds, lemma_slot_of_entry, ObjectTable};

verus! {

/// References to the given identifiers, one for each and in their order.
pub open spec fn references_to(ids: Seq<ObjectId>) -> Seq<ObjectModel> {
    Seq::new(ids.len(), |i: int| ObjectModel::Reference(ids[i]))
}

/// The `Pages` node over the given pages: its type, its kids in page order
/// and their count.
pub open spec fn pages_node(page_ids: Seq<ObjectId>) -> ObjectModel {
    ObjectModel::Dictionary(
        seq![
            EntryModel { key: type_key_bytes(), value: ObjectModel::Name(pages_bytes()) },
            EntryModel {
                key: kids_key_bytes(),
                value: ObjectModel::Array(references_to(page_ids)),
            },
            EntryModel {
                key: count_key_bytes(),
                value: ObjectModel::Integer((page_ids.len() as i64) as int),
            },
        ],
    )
}

/// An object with its `Parent` entry set to a reference to `parent`, if it
/// is a dictionary; any other object as it is.
pub open spec fn with_parent(object: ObjectModel, parent: ObjectId) -> ObjectModel {
    match object {
        ObjectModel::Dictionary(entries) => ObjectModel::Dictionary(
            with_entry(entries, parent_key_bytes(), ObjectModel::Reference(parent)),
        ),
        other => other,
    }
}

/// A table in which every object keyed by one of `page_ids` has taken
/// `parent` as its parent, and every other object is as before.
pub open spec fn reparented(
    table: Seq<(ObjectId, ObjectModel)>,
    page_ids: Seq<ObjectId>,
    parent: ObjectId,
) -> Seq<(ObjectId, ObjectModel)> {
    Seq::new(
        table.len(),
        |i: int|
            if page_ids.contains(table[i].0) {
                (table[i].0, with_parent(table[i].1, parent))
            } else {
                table[i]
            },
    )
}

/// Setting the parent a second time changes nothing.
pub proof fn lemma_with_parent_twice(object: ObjectModel, parent: ObjectId)
    ensures
        with_parent(with_parent(object, parent), parent) == with_parent(object, parent),
{
    if let ObjectModel::Dictionary(entries) = object {
        let key = parent_key_bytes();
        let value = ObjectModel::Reference(parent);
        let once = with_entry(entries, key, value);
        if has_key(entries, key) {
            crate::object::lemma_has_key_first(entries, key);
            let at = crate::object::first_index(entries, key);
            assert(first_at(once, key, at)) by {
                assert forall|j: int| 0 <= j < at implies (#[trigger] once[j]).key != key by {
                    assert(entries[j].key != key);
                }
            }
            lemma_first_index(once, key, at);
            assert(with_entry(once, key, value) =~= once);
        } else {
            let at = entries.len() as int;
            assert(first_at(once, key, at)) by {
                assert forall|j: int| 0 <= j < at implies (#[trigger] once[j]).key != key by {
                    assert(entries[j].key == once[j].key);
                }
            }
            lemma_first_index(once, key, at);
            assert(with_entry(once, key, value) =~= once);
        }
    }
}

/// Builds the `Pages` node over the given pages.
pub fn build_pages_node(page_ids: &Vec<ObjectId>) -> (node: Object)
    ensures
        node@ == pages_node(page_ids@),
{
    let n: usize = page_ids.len();
    let mut kids: Vec<Object> = Vec::with_capacity(n);
    let mut i: usize = 0;
    while i < n
        invariant
            n == page_ids.len(),
            i <= n,
            kids.len() == i,
            forall|j: int| 0 <= j < i ==> (#[trigger] kids@[j])@ == ObjectModel::Reference(
                page_ids@[j],
            ),
        decreases n - i,
    {
        kids.push(Object::Reference(page_ids[i]));
        i = i + 1;
    }
    assert(objects_model(kids@) =~= references_to(page_ids@));
    let count: i64 = n as i64;
    let mut dict = Dictionary::new();
    dict.set(type_key(), Object::Name(pages_name()));
    proof {
        let one = dict@;
        assert(one =~= seq![
            EntryModel { key: type_key_bytes(), value: ObjectModel::Name(pages_bytes()) },
        ]);
        assert(!has_key(one, kids_key_bytes())) by {
            assert(one[0].key[0] != kids_key_bytes()[0]);
        }
    }
    dict.set(kids_key(), Object::Array(kids));
    proof {
        let two = dict@;
        assert(!has_key(two, count_key_bytes())) by {
            assert(two[0].key[0] != count_key_bytes()[0]);
            assert(two[1].key[0] != count_key_bytes()[0]);
        }
    }
    dict.set(count_key(), Object::Integer(count));
    let node = Object::Dictionary(dict);
    assert(node@->Dictionary_0 =~= pages_node(page_ids@)->Dictionary_0);
    node
}

/// Sets the `Parent` entry of `object` to a reference to `parent`, if the
/// object is a dictionary.
pub fn set_parent(object: &mut Object, parent: ObjectId)
    ensures
        final(object)@ == with_parent(old(object)@, parent),
{
    match object {
        Object::Dictionary(dict) => {
            dict.set(parent_key(), Object::Reference(parent));
        },
        _ => {},
    }
}

/// Makes `parent` the parent of every page: for each identifier of
/// `page_ids` that the table holds, the object under it takes a `Parent`
/// entry that refers to `parent`, in place of any it had.
pub fn reparent_pages(table: &mut ObjectTable, page_ids: &Vec<ObjectId>, parent: ObjectId)
    requires
        old(table).wf(),
    ensures
        final(table).wf(),
        final(table)@ == reparented(old(table)@, page_ids@, parent),
{
    let ghost before = table@;
    let n: usize = page_ids.len();
    let mut i: usize = 0;
    assert(table@ =~= reparented(before, page_ids@.take(0), parent));
    while i < n
        invariant
            n == page_ids.len(),
            i <= n,
            ascending(before),
            table.wf(),
            table@ == reparented(before, page_ids@.take(i as int), parent),
        decreases n - i,
    {
        let page_id = page_ids[i];
        let ghost held = table@;
        let ghost done = page_ids@.take(i as int);
        let ghost next = page_ids@.take(i as int + 1);
        proof {
            assert(next =~= done.push(page_id));
            assert forall|id: ObjectId| next.contains(id) <==> (done.contains(id) || id
                == page_id) by {
                if done.contains(id) {
                    let w = choose|w: int| 0 <= w < done.len() && done[w] == id;
                    assert(next[w] == id);
                }
                if id == page_id {
                    assert(next[i as int] == id);
                }
            }
        }
        match table.position(&page_id) {
            Some(at) => {
                set_parent(table.object_at_mut(at), parent);
                proof {
                    lemma_slot_of_entry(before, at as int);
                    lemma_with_parent_twice(before[at as int].1, parent);
                    assert forall|j: int| 0 <= j < before.len() && j != at implies (
                    #[trigger] before[j]).0 != page_id by {
                        if j < at {
                            assert(before[j].0.before(before[at as int].0));
                        } else {
                            assert(before[at as int].0.before(before[j].0));
                        }
                    }
                    assert(table@ =~= reparented(before, next, parent));
                }
            },
            None => {
                proof {
                    assert forall|j: int| 0 <= j < before.len() implies (#[trigger] before[j]).0
                        != page_id by {
                        assert(held[j].0 == before[j].0);
                    }
                    assert(table@ =~= reparented(before, next, parent));
                }
            },
        }
        proof {
            assert forall|a: int, b: int| 0 <= a < b < table@.len() implies (
            #[trigger] table@[a]).0.before((#[trigger] table@[b]).0) by {
                assert(before[a].0.before(before[b].0));
            }
        }
        i = i + 1;
    }
    assert(page_ids@.take(n as int) =~= page_ids@);
}

} // verus!
