//! The identifiers of pieces of geometry and the references between them.
use vstd::prelude::*;
use crate::ids::RefID;

verus! {

/// The index of a piece of geometry among the results of an object.
pub type ResultInd = usize;

/// The index of a reference among the references of an object.
pub type ReferInd = usize;

/// One piece of geometry of an object: the object and the index of the
/// piece among its results.
#[derive(Debug, Clone, Copy, PartialEq, Eq, Hash, Structural)]
pub struct GeometryId {
    pub id: RefID,
    pub index: ResultInd,
}

impl GeometryId {
    /// The piece `index` of the object `id`.
    pub fn new(id: RefID, index: usize) -> (r: GeometryId)
        ensures
            r == (GeometryId { id, index }),
    {
        GeometryId { id, index }
    }
}

/// A dependency: the piece `owner` follows the piece `other`.
#[derive(Debug, Clone, Copy, PartialEq, Eq, Hash, Structural)]
pub struct Reference {
    pub owner: GeometryId,
    pub other: GeometryId,
}

impl Reference {
    /// The piece `owner_index` of the object `owner_id` following `other`.
    pub fn new(owner_id: RefID, owner_index: usize, other: GeometryId) -> (r: Reference)
        ensures
            r == (Reference { owner: GeometryId { id: owner_id, index: owner_index }, other }),
    {
        Reference { owner: GeometryId::new(owner_id, owner_index), other }
    }
}

/// The shape of a piece of geometry: a point, a line or a rectangle.
#[derive(Debug, Clone, Copy, PartialEq, Eq, Structural)]
pub enum GeometryKind {
    Point,
    Line,
    Rect,
}

/// The shape that a reference asks for; `Any` accepts every shape.
#[derive(Debug, Clone, Copy, PartialEq, Eq, Structural)]
pub enum RefType {
    Point,
    Line,
    Rect,
    Any,
}

/// Whether a reference asking for `t` accepts geometry of shape `kind`.
pub open spec fn accepts(t: RefType, kind: GeometryKind) -> bool {
    match t {
        RefType::Point => kind == GeometryKind::Point,
        RefType::Line => kind == GeometryKind::Line,
        RefType::Rect => kind == GeometryKind::Rect,
        RefType::Any => true,
    }
}

impl RefType {
    /// Whether this reference type accepts geometry of shape `other`.
    pub fn type_equals(&self, other: &GeometryKind) -> (r: bool)
        ensures
            r == accepts(*self, *other),
    {
        match self {
            RefType::Point => match other {
                GeometryKind::Point => true,
                _ => false,
            },
            RefType::Line => match other {
                GeometryKind::Line => true,
                _ => false,
            },
            RefType::Rect => match other {
                GeometryKind::Rect => true,
                _ => false,
            },
            RefType::Any => true,
        }
    }
}

impl GeometryKind {
    /// The reference type that asks for exactly this shape.
    pub fn get_type(&self) -> (r: RefType)
        ensures
            accepts(r, *self),
            r != RefType::Any,
    {
        match self {
            GeometryKind::Point => RefType::Point,
            GeometryKind::Line => RefType::Line,
            GeometryKind::Rect => RefType::Rect,
        }
    }
}

} // verus!
