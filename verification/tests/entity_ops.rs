use flexi_cad::app_state::{begin_undo_event, get_all_deps, get_obj, init_file, iterate_all, AppState, add_obj};
use flexi_cad::entity_ops::{copy_objs, copy_objs_as, retarget_refs};
use flexi_cad::geometry_kernel::{GeometryId, Reference};
use flexi_cad::{DBError, DataObject};
use std::collections::HashMap;

fn new_v4() -> u128 {
    uuid::Uuid::new_v4().as_u128()
}

#[test]
fn copy_objs_maps_each_object_to_its_copy() {
    let mut state = AppState::new();
    let f = String::from("copy_objs");
    init_file(&mut state, f.clone());
    let event = new_v4();
    begin_undo_event(&mut state, &f, 1, event, String::from("add objs")).unwrap();
    add_obj(&mut state, &f, event, DataObject::new(1, b"first".to_vec()), &Vec::new()).unwrap();
    add_obj(&mut state, &f, event, DataObject::new(2, b"second".to_vec()), &Vec::new()).unwrap();
    let orig_to_dups = copy_objs(&mut state, &f, event, vec![(1, b"first copy".to_vec(), Vec::new()), (2, b"second copy".to_vec(), Vec::new())]).unwrap();
    assert_eq!(orig_to_dups.len(), 2);
    let c1 = orig_to_dups[&1];
    let c2 = orig_to_dups[&2];
    assert_ne!(c1, c2);
    assert_eq!(get_obj(&mut state, &f, c1).unwrap().data, b"first copy".to_vec());
    assert_eq!(get_obj(&mut state, &f, c2).unwrap().data, b"second copy".to_vec());
    assert_eq!(get_obj(&mut state, &f, 1).unwrap().data, b"first".to_vec());
}

#[test]
fn copy_objs_stops_at_a_missing_object() {
    let mut state = AppState::new();
    let f = String::from("missing");
    assert!(copy_objs(&mut state, &f, 1, Vec::new()).unwrap().is_empty());
    assert!(matches!(copy_objs(&mut state, &f, 1, vec![(1, vec![], Vec::new())]), Err(DBError::FileNotFound)));
    init_file(&mut state, f.clone());
    let event = new_v4();
    begin_undo_event(&mut state, &f, 1, event, String::from("e")).unwrap();
    assert!(matches!(copy_objs(&mut state, &f, event, vec![(9, vec![], Vec::new())]), Err(DBError::NotFound(_))));
    add_obj(&mut state, &f, event, DataObject::new(1, vec![]), &Vec::new()).unwrap();
    assert!(matches!(copy_objs(&mut state, &f, new_v4(), vec![(1, vec![], Vec::new())]), Err(DBError::NoUndoEvent)));
}

#[test]
fn references_to_copied_objects_are_turned_to_the_copies() {
    let mut orig_to_copy = HashMap::new();
    orig_to_copy.insert(1u128, 11u128);
    let refs = vec![
        Some(Reference::new(2, 0, GeometryId::new(1, 3))),
        None,
        Some(Reference::new(2, 2, GeometryId::new(5, 0))),
        Some(Reference::new(2, 3, GeometryId::new(1, 1))),
    ];
    let out = retarget_refs(&refs, &orig_to_copy);
    assert_eq!(out, vec![(0, 3, GeometryId::new(11, 3)), (3, 1, GeometryId::new(11, 1))]);
    assert!(retarget_refs(&Vec::new(), &orig_to_copy).is_empty());
}

#[test]
fn copies_are_recorded_in_the_event() {
    let mut state = AppState::new();
    let f = String::from("recorded");
    init_file(&mut state, f.clone());
    begin_undo_event(&mut state, &f, 1, 1, String::from("add")).unwrap();
    add_obj(&mut state, &f, 1, DataObject::new(1, vec![1]), &Vec::new()).unwrap();
    flexi_cad::app_state::end_undo_event(&mut state, &f, 1).unwrap();
    begin_undo_event(&mut state, &f, 1, 2, String::from("copy")).unwrap();
    let m = copy_objs(&mut state, &f, 2, vec![(1, vec![1], Vec::new())]).unwrap();
    let copy = m[&1];
    assert!(get_obj(&mut state, &f, copy).is_ok());
    flexi_cad::app_state::end_undo_event(&mut state, &f, 2).unwrap();
    flexi_cad::app_state::undo_latest(&mut state, &f, 1).unwrap();
    assert!(get_obj(&mut state, &f, copy).is_err());
    assert!(get_obj(&mut state, &f, 1).is_ok());
}

#[test]
fn copied_objects_bring_their_references() {
    let mut state = AppState::new();
    let f = String::from("copy_refs");
    init_file(&mut state, f.clone());
    let event = new_v4();
    begin_undo_event(&mut state, &f, 1, event, String::from("e")).unwrap();
    add_obj(&mut state, &f, event, DataObject::new(1, vec![1]), &Vec::new()).unwrap();
    add_obj(&mut state, &f, event, DataObject::new(2, vec![2]), &Vec::new()).unwrap();
    let copies = vec![
        (1, vec![10], vec![None, Some(Reference::new(1, 2, GeometryId::new(1, 0)))]),
        (2, vec![20], vec![Some(Reference::new(2, 0, GeometryId::new(7, 0)))]),
    ];
    let m = copy_objs(&mut state, &f, event, copies).unwrap();
    let (c1, c2) = (m[&1], m[&2]);
    let found = get_all_deps(&mut state, &f, vec![GeometryId::new(c1, 0)]).unwrap();
    assert_eq!(found.len(), 1);
    assert_eq!(*found.get_index(0).unwrap(), Reference::new(c1, 2, GeometryId::new(c1, 0)));
    let found = get_all_deps(&mut state, &f, vec![GeometryId::new(7, 0)]).unwrap();
    assert_eq!(found.len(), 1);
    assert_eq!(*found.get_index(0).unwrap(), Reference::new(c2, 0, GeometryId::new(7, 0)));
}

#[test]
fn a_failed_copy_keeps_the_copies_made_before_it() {
    let mut state = AppState::new();
    let f = String::from("partial");
    init_file(&mut state, f.clone());
    let event = new_v4();
    begin_undo_event(&mut state, &f, 1, event, String::from("e")).unwrap();
    add_obj(&mut state, &f, event, DataObject::new(1, vec![1]), &Vec::new()).unwrap();
    let copies = vec![(1, vec![10], Vec::new()), (3, vec![30], Vec::new())];
    assert!(matches!(copy_objs(&mut state, &f, event, copies), Err(DBError::NotFound(_))));
    let all = iterate_all(&mut state, &f).unwrap();
    assert_eq!(all.len(), 2);
    assert!(all.iter().any(|o| o.id != 1 && o.data == vec![10]));
}

#[test]
fn copies_under_given_identifiers() {
    let mut state = AppState::new();
    let f = String::from("given");
    init_file(&mut state, f.clone());
    let event = new_v4();
    begin_undo_event(&mut state, &f, 1, event, String::from("e")).unwrap();
    add_obj(&mut state, &f, event, DataObject::new(1, vec![1]), &Vec::new()).unwrap();
    add_obj(&mut state, &f, event, DataObject::new(2, vec![2]), &Vec::new()).unwrap();
    let m = copy_objs_as(&mut state, &f, event, vec![(1, vec![10], Vec::new()), (2, vec![20], Vec::new())], &vec![50, 60]).unwrap();
    assert_eq!((m[&1], m[&2]), (50, 60));
    assert_eq!(get_obj(&mut state, &f, 60).unwrap().data, vec![20]);
    // A taken identifier stops the copying with `Overwrite`, after the
    // copies before it.
    let r = copy_objs_as(&mut state, &f, event, vec![(1, vec![11], Vec::new()), (2, vec![21], Vec::new())], &vec![70, 60]);
    assert!(matches!(r, Err(DBError::Overwrite)));
    assert_eq!(get_obj(&mut state, &f, 70).unwrap().data, vec![11]);
    assert_eq!(get_obj(&mut state, &f, 60).unwrap().data, vec![20]);
    assert_eq!(iterate_all(&mut state, &f).unwrap().len(), 5);
}
