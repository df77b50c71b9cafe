//! The PDF object model: identifiers, the tagged union of object kinds,
//! dictionaries and streams, with the mathematical view of each.

use vstd::prelude::*;

verus! {

/// Identifies one indirect object inside a document's object table.
#[derive(Clone, Copy, Debug, PartialEq, Eq, Structural, PartialOrd, Ord, Hash)]
pub struct ObjectId {
    /// The object number.
    pub number: u32,
    /// The generation; 0 for every object that a merge numbers.
    pub generation: u16,
}

impl ObjectId {
    /// The order of identifiers: by number, then by generation.
    pub open spec fn before(self, other: ObjectId) -> bool {
        self.number < other.number || (self.number == other.number && self.generation
            < other.generation)
    }

    /// Whether this identifier comes before `other`.
    pub fn precedes(&self, other: &ObjectId) -> (earlier: bool)
        ensures
            earlier == self.before(*other),
    {
        self.number < other.number || (self.number == other.number && self.generation
            < other.generation)
    }
}

/// How a byte string is written out.
#[derive(Clone, Copy, Debug, PartialEq, Eq, Structural)]
pub enum StringFormat {
    Literal,
    Hexadecimal,
}

/// A PDF object.
///
/// A real number is carried as the bit pattern of its single-precision
/// value; the engine never computes with it.
#[derive(Debug, PartialEq, Eq)]
pub enum Object {
    Null,
    Boolean(bool),
    Integer(i64),
    Real(u32),
    Name(Vec<u8>),
    String(Vec<u8>, StringFormat),
    Array(Vec<Object>),
    Dictionary(Dictionary),
    Stream(Stream),
    Reference(ObjectId),
}

/// An ordered list of named entries.
///
/// A dictionary that is built with `new` and `set` carries no key twice
/// (`unique_keys`), and keeps its entries in the order in which their keys
/// were first set.
#[derive(Debug, PartialEq, Eq)]
pub struct Dictionary {
    /// Each entry as its key and its value.
    pub entries: Vec<(Vec<u8>, Object)>,
}

/// A stream: its metadata dictionary and an uninterpreted payload.
#[derive(Debug, PartialEq, Eq)]
pub struct Stream {
    /// The stream's dictionary.
    pub dict: Dictionary,
    /// The payload, as raw bytes.
    pub content: Vec<u8>,
    /// Whether a writer may compress the payload.
    pub allows_compression: bool,
    /// Where the payload began in the file it was read from, if known.
    pub start_position: Option<usize>,
}

/// One dictionary entry as a mathematical value.
pub struct EntryModel {
    pub key: Seq<u8>,
    pub value: ObjectModel,
}

/// The mathematical value of an object.
pub enum ObjectModel {
    Null,
    Boolean(bool),
    Integer(int),
    Real(u32),
    Name(Seq<u8>),
    String(Seq<u8>, StringFormat),
    Array(Seq<ObjectModel>),
    Dictionary(Seq<EntryModel>),
    Stream(Seq<EntryModel>, Seq<u8>, bool, Option<usize>),
    Reference(ObjectId),
}

/// The value of a list of objects, element by element.
pub open spec fn objects_model(items: Seq<Object>) -> Seq<ObjectModel>
    decreases items,
{
    Seq::new(
        items.len(),
        |i: int|
            if 0 <= i < items.len() {
                object_model(items[i])
            } else {
                ObjectModel::Null
            },
    )
}

/// The value of a list of dictionary entries, entry by entry.
pub open spec fn entries_model(entries: Seq<(Vec<u8>, Object)>) -> Seq<EntryModel>
    decreases entries,
{
    Seq::new(
        entries.len(),
        |i: int|
            EntryModel {
                key: entries[i].0@,
                value: if 0 <= i < entries.len() {
                    object_model(entries[i].1)
                } else {
                    ObjectModel::Null
                },
            },
    )
}

/// The value of one object.
pub open spec fn object_model(object: Object) -> ObjectModel
    decreases object,
{
    match object {
        Object::Null => ObjectModel::Null,
        Object::Boolean(b) => ObjectModel::Boolean(b),
        Object::Integer(i) => ObjectModel::Integer(i as int),
        Object::Real(bits) => ObjectModel::Real(bits),
        Object::Name(name) => ObjectModel::Name(name@),
        Object::String(bytes, format) => ObjectModel::String(bytes@, format),
        Object::Array(items) => ObjectModel::Array(objects_model(items@)),
        Object::Dictionary(dict) => ObjectModel::Dictionary(entries_model(dict.entries@)),
        Object::Stream(stream) => ObjectModel::Stream(
            entries_model(stream.dict.entries@),
            stream.content@,
            stream.allows_compression,
            stream.start_position,
        ),
        Object::Reference(id) => ObjectModel::Reference(id),
    }
}


impl View for Object {
    type V = ObjectModel;

    open spec fn view(&self) -> ObjectModel {
        object_model(*self)
    }
}

impl View for Dictionary {
    type V = Seq<EntryModel>;

    open spec fn view(&self) -> Seq<EntryModel> {
        entries_model(self.entries@)
    }
}

/// Whether some entry carries `key`.
pub open spec fn has_key(entries: Seq<EntryModel>, key: Seq<u8>) -> bool {
    exists|i: int| 0 <= i < entries.len() && (#[trigger] entries[i]).key == key
}

/// Whether `i` is the first position at which `key` stands.
pub open spec fn first_at(entries: Seq<EntryModel>, key: Seq<u8>, i: int) -> bool {
    &&& 0 <= i < entries.len()
    &&& entries[i].key == key
    &&& forall|j: int| 0 <= j < i ==> (#[trigger] entries[j]).key != key
}

/// The first position at which `key` stands, where there is one.
pub open spec fn first_index(entries: Seq<EntryModel>, key: Seq<u8>) -> int {
    choose|i: int| first_at(entries, key, i)
}

/// The value stored under `key`, if any.
pub open spec fn lookup(entries: Seq<EntryModel>, key: Seq<u8>) -> Option<ObjectModel> {
    if has_key(entries, key) {
        Some(entries[first_index(entries, key)].value)
    } else {
        None
    }
}

/// The entries after `value` has been stored under `key`: an entry that
/// carries the key keeps its place and takes the new value, otherwise a
/// new entry goes to the end.
pub open spec fn with_entry(entries: Seq<EntryModel>, key: Seq<u8>, value: ObjectModel) -> Seq<
    EntryModel,
> {
    if has_key(entries, key) {
        entries.update(first_index(entries, key), EntryModel { key, value })
    } else {
        entries.push(EntryModel { key, value })
    }
}

/// Whether no key stands twice.
pub open spec fn unique_keys(entries: Seq<EntryModel>) -> bool {
    forall|i: int, j: int|
        0 <= i < j < entries.len() ==> (#[trigger] entries[i]).key != (#[trigger] entries[j]).key
}

/// A first position is the only first position.
pub proof fn lemma_first_index(entries: Seq<EntryModel>, key: Seq<u8>, i: int)
    requires
        first_at(entries, key, i),
    ensures
        has_key(entries, key),
        first_index(entries, key) == i,
{
    let c = first_index(entries, key);
    assert(first_at(entries, key, c));
    if c < i {
        assert(entries[c].key != key);
    }
    if i < c {
        assert(entries[i].key != key);
    }
}

/// A key that stands somewhere has a first position.
pub proof fn lemma_has_key_first(entries: Seq<EntryModel>, key: Seq<u8>)
    requires
        has_key(entries, key),
    ensures
        first_at(entries, key, first_index(entries, key)),
    decreases entries.len(),
{
    let w = choose|i: int| 0 <= i < entries.len() && (#[trigger] entries[i]).key == key;
    lemma_first_before(entries, key, w);
}

proof fn lemma_first_before(entries: Seq<EntryModel>, key: Seq<u8>, w: int)
    requires
        0 <= w < entries.len(),
        entries[w].key == key,
    ensures
        exists|i: int| first_at(entries, key, i),
    decreases w,
{
    if exists|j: int| 0 <= j < w && (#[trigger] entries[j]).key == key {
        let j = choose|j: int| 0 <= j < w && (#[trigger] entries[j]).key == key;
        lemma_first_before(entries, key, j);
    } else {
        assert(first_at(entries, key, w));
    }
}

/// Compares two byte strings.
pub fn bytes_equal(a: &[u8], b: &[u8]) -> (same: bool)
    ensures
        same == (a@ == b@),
{
    if a.len() != b.len() {
        return false;
    }
    let n: usize = a.len();
    let mut i: usize = 0;
    while i < n
        invariant
            a.len() == n,
            b.len() == n,
            i <= n,
            forall|j: int| 0 <= j < i ==> a@[j] == b@[j],
        decreases n - i,
    {
        if a[i] != b[i] {
            return false;
        }
        i = i + 1;
    }
    assert(a@ =~= b@);
    true
}

/// Copies a byte string.
pub fn copy_bytes(bytes: &Vec<u8>) -> (copy: Vec<u8>)
    ensures
        copy@ == bytes@,
{
    let n: usize = bytes.len();
    let mut copy: Vec<u8> = Vec::with_capacity(n);
    let mut i: usize = 0;
    while i < n
        invariant
            bytes.len() == n,
            i <= n,
            copy@ == bytes@.take(i as int),
        decreases n - i,
    {
        copy.push(bytes[i]);
        assert(bytes@.take(i as int + 1) =~= bytes@.take(i as int).push(bytes@[i as int]));
        i = i + 1;
    }
    assert(bytes@.take(n as int) =~= bytes@);
    copy
}

} // verus!
