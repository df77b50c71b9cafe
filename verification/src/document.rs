//! A document: its object table, trailer, version and identifier counter.

use vstd::prelude::*;
use vstd::string::StringExecFns;
use crate::object::{Dictionary, EntryModel, Object, ObjectId, ObjectModel};
use crate::table::{stored, ObjectTable};

verus! {

/// One PDF document held in memory.
#[derive(Debug, PartialEq, Eq)]
pub struct Document {
    /// The version of the PDF specification that the document follows.
    pub version: String,
    /// The trailer; in a finished document its `Root` entry refers to the
    /// catalog.
    pub trailer: Dictionary,
    /// The indirect objects.
    pub objects: ObjectTable,
    /// The highest object number handed out so far.
    pub max_id: u32,
}

impl Document {
    /// An empty document of the given version.
    pub fn with_version(version: &str) -> (document: Document)
        ensures
            document.version@ == version@,
            document.trailer@ == Seq::<EntryModel>::empty(),
            document.objects@ == Seq::<(ObjectId, ObjectModel)>::empty(),
            document.objects.wf(),
            document.max_id == 0,
    {
        Document {
            version: String::from_str(version),
            trailer: Dictionary::new(),
            objects: ObjectTable::new(),
            max_id: 0,
        }
    }

    /// Hands out the next object number, with generation 0.
    pub fn new_object_id(&mut self) -> (id: ObjectId)
        requires
            old(self).max_id < u32::MAX,
        ensures
            id == (ObjectId { number: (old(self).max_id + 1) as u32, generation: 0 }),
            final(self).max_id == old(self).max_id + 1,
            final(self).version == old(self).version,
            final(self).trailer == old(self).trailer,
            final(self).objects == old(self).objects,
    {
        self.max_id = self.max_id + 1;
        ObjectId { number: self.max_id, generation: 0 }
    }

    /// Stores `object` under the next object number and hands back its
    /// identifier.
    pub fn add_object(&mut self, object: Object) -> (id: ObjectId)
        requires
            old(self).max_id < u32::MAX,
            old(self).objects.wf(),
        ensures
            id == (ObjectId { number: (old(self).max_id + 1) as u32, generation: 0 }),
            final(self).max_id == old(self).max_id + 1,
            final(self).version == old(self).version,
            final(self).trailer == old(self).trailer,
            final(self).objects.wf(),
            final(self).objects@ == stored(old(self).objects@, id, object@),
    {
        let id = self.new_object_id();
        let _ = self.objects.insert(id, object);
        id
    }
}

} // verus!
