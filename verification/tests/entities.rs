use flexi_cad::entities::{DimensionRefs, WallRefs};
use flexi_cad::geometry_kernel::{GeometryId, Reference};

fn g(id: u128, index: usize) -> GeometryId {
    GeometryId::new(id, index)
}

#[test]
fn wall_refs_number_the_followed_openings_from_three() {
    let wall = WallRefs { id: 9, first: Some(g(1, 0)), second: None, openings: vec![None, Some(g(2, 3)), Some(g(4, 3))] };
    let refs = wall.get_refs();
    assert_eq!(
        refs,
        vec![
            Some(Reference::new(9, 0, g(1, 0))),
            None,
            Some(Reference { owner: g(9, 2), other: g(9, 0) }),
            Some(Reference { owner: g(9, 2), other: g(9, 1) }),
            Some(Reference::new(9, 3, g(2, 3))),
            Some(Reference::new(9, 4, g(4, 3))),
        ]
    );
    assert_eq!(wall.get_available_refs(), vec![1]);
    assert_eq!(wall.get_num_refs(), 5);
    assert_eq!(wall.get_num_results(), 6);
}

#[test]
fn clearing_and_deleting_wall_refs() {
    let mut wall = WallRefs { id: 9, first: Some(g(1, 0)), second: Some(g(1, 1)), openings: vec![Some(g(2, 3)), Some(g(4, 3))] };
    assert!(wall.get_available_refs().is_empty());
    wall.delete_ref(4);
    assert_eq!(wall.openings, vec![Some(g(2, 3))]);
    wall.delete_ref(7);
    assert_eq!(wall.openings.len(), 1);
    wall.delete_ref(0);
    assert_eq!(wall.first, None);
    assert_eq!(wall.get_available_refs(), vec![0]);
    wall.clear_refs();
    assert_eq!(wall.second, None);
    assert_eq!(wall.openings, vec![None]);
    assert_eq!(wall.get_available_refs(), vec![0, 1]);
    assert_eq!(wall.get_refs().len(), 4);
}

#[test]
fn dimension_refs() {
    let dim = DimensionRefs { id: 3, first: None, second: Some(g(8, 1)) };
    assert_eq!(dim.get_refs(), vec![None, Some(Reference::new(3, 1, g(8, 1)))]);
    assert_eq!(dim.get_available_refs(), vec![0]);
    assert_eq!(dim.get_num_refs(), 2);
}

#[test]
fn a_wall_keeps_the_openings_that_follow_something() {
    let wall = WallRefs { id: 9, first: None, second: None, openings: vec![None, Some(g(2, 3)), None, Some(g(4, 3))] };
    assert_eq!(wall.followed_openings(), vec![1, 3]);
    let bare = WallRefs { id: 9, first: None, second: None, openings: vec![None, None] };
    assert!(bare.followed_openings().is_empty());
}
