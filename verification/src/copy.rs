//! Deep copies of objects.

use vstd::prelude::*;
use crate::object::{
    copy_bytes, entries_model, objects_model, Dictionary, Object, Stream,
};

verus! {

/// Copies a list of objects, element by element.
fn copy_objects(items: &Vec<Object>) -> (copy: Vec<Object>)
    ensures
        objects_model(copy@) == objects_model(items@),
    decreases items,
{
    let n: usize = items.len();
    let mut copy: Vec<Object> = Vec::with_capacity(n);
    let mut i: usize = 0;
    while i < n
        invariant
            items.len() == n,
            i <= n,
            copy.len() == i,
            forall|j: int| 0 <= j < i ==> (#[trigger] copy@[j])@ == items@[j]@,
        decreases n - i,
    {
        let item = copy_object(&items[i]);
        copy.push(item);
        i = i + 1;
    }
    assert(objects_model(copy@) =~= objects_model(items@));
    copy
}

/// Copies a list of dictionary entries, entry by entry.
fn copy_entries(entries: &Vec<(Vec<u8>, Object)>) -> (copy: Vec<(Vec<u8>, Object)>)
    ensures
        entries_model(copy@) == entries_model(entries@),
    decreases entries,
{
    let n: usize = entries.len();
    let mut copy: Vec<(Vec<u8>, Object)> = Vec::with_capacity(n);
    let mut i: usize = 0;
    while i < n
        invariant
            entries.len() == n,
            i <= n,
            copy.len() == i,
            forall|j: int|
                0 <= j < i ==> (#[trigger] copy@[j]).0@ == entries@[j].0@ && copy@[j].1@
                    == entries@[j].1@,
        decreases n - i,
    {
        let key = copy_bytes(&entries[i].0);
        let value = copy_object(&entries[i].1);
        copy.push((key, value));
        i = i + 1;
    }
    assert(entries_model(copy@) =~= entries_model(entries@));
    copy
}

/// Copies one object with everything nested in it.
fn copy_object(object: &Object) -> (copy: Object)
    ensures
        copy@ == object@,
    decreases object,
{
    match object {
        Object::Null => Object::Null,
        Object::Boolean(b) => Object::Boolean(*b),
        Object::Integer(i) => Object::Integer(*i),
        Object::Real(bits) => Object::Real(*bits),
        Object::Name(name) => Object::Name(copy_bytes(name)),
        Object::String(bytes, format) => Object::String(copy_bytes(bytes), *format),
        Object::Array(items) => Object::Array(copy_objects(items)),
        Object::Dictionary(dict) => Object::Dictionary(
            Dictionary { entries: copy_entries(&dict.entries) },
        ),
        Object::Stream(stream) => Object::Stream(
            Stream {
                dict: Dictionary { entries: copy_entries(&stream.dict.entries) },
                content: copy_bytes(&stream.content),
                allows_compression: stream.allows_compression,
                start_position: stream.start_position,
            },
        ),
        Object::Reference(id) => Object::Reference(*id),
    }
}

impl Clone for Object {
    /// A deep copy: the same value, sharing nothing.
    fn clone(&self) -> (copy: Object)
        ensures
            copy@ == self@,
    {
        copy_object(self)
    }
}

impl Clone for Stream {
    /// A deep copy: the same dictionary, payload and flags.
    fn clone(&self) -> (copy: Stream)
        ensures
            copy.dict@ == self.dict@,
            copy.content@ == self.content@,
            copy.allows_compression == self.allows_compression,
            copy.start_position == self.start_position,
    {
        Stream {
            dict: Dictionary { entries: copy_entries(&self.dict.entries) },
            content: copy_bytes(&self.content),
            allows_compression: self.allows_compression,
            start_position: self.start_position,
        }
    }
}

impl Clone for Dictionary {
    /// A deep copy: the same entries in the same order.
    fn clone(&self) -> (copy: Dictionary)
        ensures
            copy@ == self@,
    {
        Dictionary { entries: copy_entries(&self.entries) }
    }
}

} // verus!
