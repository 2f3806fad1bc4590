use flexi_cad::geometry_kernel::{GeometryId, GeometryKind, RefType, Reference};
use flexi_cad::DataObject;

#[test]
fn lib_it_works() {
    assert_eq!(2 + 2, 4);
}

#[test]
fn type_equals_matches_shapes() {
    assert!(RefType::Point.type_equals(&GeometryKind::Point));
    assert!(!RefType::Point.type_equals(&GeometryKind::Line));
    assert!(!RefType::Point.type_equals(&GeometryKind::Rect));
    assert!(RefType::Line.type_equals(&GeometryKind::Line));
    assert!(!RefType::Line.type_equals(&GeometryKind::Rect));
    assert!(RefType::Rect.type_equals(&GeometryKind::Rect));
    assert!(!RefType::Rect.type_equals(&GeometryKind::Point));
    assert!(RefType::Any.type_equals(&GeometryKind::Point));
    assert!(RefType::Any.type_equals(&GeometryKind::Line));
    assert!(RefType::Any.type_equals(&GeometryKind::Rect));
}

#[test]
fn get_type_asks_for_the_same_shape() {
    assert_eq!(GeometryKind::Point.get_type(), RefType::Point);
    assert_eq!(GeometryKind::Line.get_type(), RefType::Line);
    assert_eq!(GeometryKind::Rect.get_type(), RefType::Rect);
}

#[test]
fn references_and_pieces() {
    let g = GeometryId::new(7, 2);
    assert_eq!(g, GeometryId { id: 7, index: 2 });
    let r = Reference::new(9, 1, g);
    assert_eq!(r.owner, GeometryId { id: 9, index: 1 });
    assert_eq!(r.other, g);
}

#[test]
fn data_objects_keep_their_bytes() {
    let mut obj = DataObject::new(5, b"some data".to_vec());
    assert_eq!(obj.get_id(), 5);
    let copy = obj.duplicate();
    assert_eq!(copy.id, 5);
    assert_eq!(copy.data, b"some data".to_vec());
    obj.set_id(6);
    assert_eq!(obj.get_id(), 6);
    assert_eq!(obj.data, b"some data".to_vec());
    let cloned = obj.clone();
    assert_eq!(cloned.id, 6);
    assert_eq!(cloned.data, obj.data);
}
