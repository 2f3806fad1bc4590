//! The objects that the database stores, and the errors of the library.
use vstd::prelude::*;

verus! {

/// The errors that the storage, undo and dependency operations report.
#[derive(Debug)]
pub enum DBError {
    NotFound(String),
    Locked(String),
    Overwrite,
    NoUndoEvent,
    ObjNotFound,
    FileNotFound,
    PropertyNotFound,
    ObjLacksTrait,
    TimedOut,
    Other(String),
}

/// An object of a drawing as the database holds it: its identifier and the
/// encoded form of the entity (a wall, a door, a dimension...).
pub struct DataObject {
    pub id: u128,
    pub data: Vec<u8>,
}

/// What an object is, mathematically: its identifier and its bytes.
pub struct ObjectView {
    pub id: u128,
    pub data: Seq<u8>,
}

impl View for DataObject {
    type V = ObjectView;

    open spec fn view(&self) -> ObjectView {
        ObjectView { id: self.id, data: self.data@ }
    }
}

impl DataObject {
    /// An object with the given identifier and encoded entity.
    pub fn new(id: u128, data: Vec<u8>) -> (r: DataObject)
        ensures
            r@ == (ObjectView { id, data: data@ }),
    {
        DataObject { id, data }
    }

    /// The identifier of the object.
    pub fn get_id(&self) -> (r: u128)
        ensures
            r == self.id,
    {
        self.id
    }

    /// Gives the object another identifier.
    pub fn set_id(&mut self, id: u128)
        ensures
            final(self)@ == (ObjectView { id, data: old(self)@.data }),
    {
        self.id = id;
    }

    /// A copy of the object.
    pub fn duplicate(&self) -> (r: DataObject)
        ensures
            r@ == self@,
    {
        let data = self.data.clone();
        proof {
            assert(data@ =~= self.data@);
        }
        DataObject { id: self.id, data }
    }
}

impl Clone for DataObject {
    fn clone(&self) -> (r: DataObject)
        ensures
            r@ == self@,
    {
        self.duplicate()
    }
}

} // verus!
