//! The storage, undo and dependency core of a collaborative CAD kernel.
//!
//! Objects are kept by identifier in a concurrent map; every change made
//! inside an undo event is recorded so that the event can be undone and
//! redone; a dependency graph between pieces of geometry says which objects
//! must be refreshed when another one changes.
use vstd::prelude::*;

pub mod ids;
pub mod data_object;
pub mod concurrent_map;
pub mod geometry_kernel;
pub mod operation_manager;
pub mod app_state;
pub mod text;
pub mod entity_ops;
pub mod entities;

pub use ids::{RefID, UserID, UndoEventID, QueryID};
pub use data_object::{DBError, DataObject};

verus! {

} // verus!
