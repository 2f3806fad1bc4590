use flexi_cad::geometry_kernel::{GeometryId, Reference};
use flexi_cad::operation_manager::{copy_refs, refresh_goes_on, OperationManager};
use flexi_cad::{DBError, DataObject};

fn new_v4() -> u128 {
    uuid::Uuid::new_v4().as_u128()
}

fn piece(id: u128, index: usize) -> GeometryId {
    GeometryId::new(id, index)
}

fn with_objects(ids: &[u128]) -> (OperationManager, u128, u128) {
    let mut ops = OperationManager::new();
    let user = new_v4();
    let event = new_v4();
    ops.begin_undo_event(user, event, String::from("setup")).unwrap();
    for id in ids {
        ops.add_object(event, DataObject::new(*id, vec![1]), &Vec::new()).unwrap();
    }
    (ops, user, event)
}

#[test]
fn added_references_are_followed() {
    let (mut ops, _, event) = with_objects(&[1]);
    let refs = vec![Some(Reference::new(2, 0, piece(1, 0))), None, Some(Reference::new(2, 1, piece(1, 1)))];
    ops.add_object(event, DataObject::new(2, vec![2]), &refs).unwrap();
    let found = ops.get_all_deps(vec![piece(1, 0), piece(1, 1)]);
    assert_eq!(found.len(), 2);
    assert_eq!(*found.get_index(0).unwrap(), Reference::new(2, 0, piece(1, 0)));
    assert_eq!(*found.get_index(1).unwrap(), Reference::new(2, 1, piece(1, 1)));
}

#[test]
fn add_deps_needs_the_object() {
    let (mut ops, _, _) = with_objects(&[1, 2]);
    let refs = vec![Some(Reference::new(2, 0, piece(1, 0)))];
    assert!(matches!(ops.add_deps(3, &refs), Err(DBError::NotFound(_))));
    assert_eq!(ops.get_all_deps(vec![piece(1, 0)]).len(), 0);
    ops.add_deps(2, &refs).unwrap();
    assert_eq!(ops.get_all_deps(vec![piece(1, 0)]).len(), 1);
    ops.remove_dep(&piece(1, 0), &piece(2, 0));
    assert_eq!(ops.get_all_deps(vec![piece(1, 0)]).len(), 0);
}

#[test]
fn deleting_forgets_the_pieces() {
    let (mut ops, _, event) = with_objects(&[1]);
    let refs = vec![Some(Reference::new(2, 0, piece(1, 0)))];
    ops.add_object(event, DataObject::new(2, vec![2]), &refs).unwrap();
    ops.register_deps(&vec![Some(Reference::new(3, 0, piece(2, 0)))]);
    assert_eq!(ops.get_all_deps(vec![piece(1, 0)]).len(), 2);
    let removed = ops.delete_obj(event, 2, 1).unwrap();
    assert_eq!(removed.data, vec![2]);
    assert_eq!(ops.get_all_deps(vec![piece(1, 0)]).len(), 0);
    assert!(matches!(ops.delete_obj(event, 2, 1), Err(DBError::NotFound(_))));
}

#[test]
fn copies_go_in_the_event() {
    let (mut ops, user, event) = with_objects(&[1]);
    let copy = ops.copy_obj(event, 1, vec![9], &Vec::new()).unwrap();
    assert_ne!(copy, 1);
    assert_eq!(ops.get_obj(copy).unwrap().data, vec![9]);
    let named = ops.copy_obj_as(event, 1, 77, vec![8], &Vec::new()).unwrap();
    assert_eq!(named, 77);
    assert!(matches!(ops.copy_obj(event, 5, vec![], &Vec::new()), Err(DBError::NotFound(_))));
    ops.end_undo_event(event).unwrap();
    ops.undo_latest(user).unwrap();
    assert!(ops.get_obj(copy).is_err());
    assert!(ops.get_obj(77).is_err());
    assert!(ops.get_obj(1).is_err());
}

#[test]
fn update_set_from_refs_follows_the_answers() {
    let (mut ops, _, _) = with_objects(&[1, 2, 3, 4]);
    ops.register_deps(&vec![
        Some(Reference::new(2, 0, piece(1, 0))),
        Some(Reference::new(3, 0, piece(1, 1))),
        Some(Reference::new(4, 0, piece(3, 0))),
    ]);
    // Object 1 offers two pieces, object 3 is gone, object 4 has no pieces.
    let answers = vec![(1u128, Ok(2usize)), (3u128, Err(DBError::ObjNotFound)), (4u128, Err(DBError::ObjLacksTrait))];
    let (refs, gone) = ops.update_set_from_refs(answers).unwrap();
    assert!(gone.contains(&3) && gone.len() == 1);
    assert_eq!(refs.len(), 2);
    assert_eq!(*refs.get_index(0).unwrap(), Reference::new(2, 0, piece(1, 0)));
    assert_eq!(*refs.get_index(1).unwrap(), Reference::new(3, 0, piece(1, 1)));
    // What followed the gone object is forgotten.
    assert_eq!(ops.get_all_deps(vec![piece(3, 0)]).len(), 0);
}

#[test]
fn update_set_from_refs_stops_at_an_error() {
    let (mut ops, _, _) = with_objects(&[1, 2]);
    ops.register_deps(&vec![Some(Reference::new(2, 0, piece(1, 0)))]);
    let answers = vec![(2u128, Err(DBError::ObjNotFound)), (1u128, Err(DBError::TimedOut)), (1u128, Err(DBError::Overwrite))];
    assert!(matches!(ops.update_set_from_refs(answers), Err(DBError::TimedOut)));
    // Nothing was forgotten.
    assert_eq!(ops.get_all_deps(vec![piece(1, 0)]).len(), 1);
}

#[test]
fn open_and_save_an_operation_manager() {
    let (ops, _, _) = with_objects(&[5, 6]);
    let bytes = ops.save().unwrap();
    let (opened, mut keys) = OperationManager::open(&bytes).unwrap();
    keys.sort();
    assert_eq!(keys, vec![5, 6]);
    assert_eq!(opened.iterate_all().len(), 2);
}

#[test]
fn modify_without_undo() {
    let (mut ops, user, event) = with_objects(&[5]);
    ops.end_undo_event(event).unwrap();
    ops.modify_obj_no_undo(5, vec![3]).unwrap();
    assert_eq!(ops.get_obj(5).unwrap().data, vec![3]);
    let event = new_v4();
    ops.begin_undo_event(user, event, String::from("m")).unwrap();
    ops.modify_obj(event, 5, vec![4]).unwrap();
    ops.take_undo_snapshot(event, 5).unwrap();
    ops.suspend_event(event).unwrap();
    ops.resume_event(event).unwrap();
    let changed = ops.cancel_event(event).unwrap();
    assert!(changed.contains(&5));
    assert_eq!(ops.get_obj(5).unwrap().data, vec![3]);
    ops.redo_latest(user).unwrap_err();
}

#[test]
fn debug_state_of_an_operation_manager() {
    let ops = OperationManager::new();
    let mut out = String::new();
    ops.debug_state(&mut out);
    assert_eq!(out, "Objects:\n\nPending:\n\nUndo Stack:\nRedo Stack:\n\n\n0 Dependencies:\n\n");
}

#[test]
fn a_refresh_goes_on_past_gone_objects_only() {
    assert!(refresh_goes_on(&Ok(3)));
    assert!(refresh_goes_on(&Err(DBError::ObjNotFound)));
    assert!(refresh_goes_on(&Err(DBError::ObjLacksTrait)));
    assert!(!refresh_goes_on(&Err(DBError::NotFound(String::from("x")))));
    assert!(!refresh_goes_on(&Err(DBError::TimedOut)));
}

#[test]
fn copies_register_their_own_references() {
    let (mut ops, _, event) = with_objects(&[1, 5]);
    // A wall whose end points were cleared: its line follows its own points,
    // and an opening follows a piece of object 5.
    let refs = vec![
        None,
        None,
        Some(Reference::new(1, 2, piece(1, 0))),
        Some(Reference::new(1, 2, piece(1, 1))),
        Some(Reference::new(1, 3, piece(5, 0))),
    ];
    let copy = ops.copy_obj_as(event, 1, 77, vec![8], &refs).unwrap();
    assert_eq!(copy, 77);
    let from_point = ops.get_all_deps(vec![piece(77, 0)]);
    assert_eq!(from_point.len(), 1);
    assert_eq!(*from_point.get_index(0).unwrap(), Reference::new(77, 2, piece(77, 0)));
    let from_other = ops.get_all_deps(vec![piece(5, 0)]);
    assert_eq!(from_other.len(), 1);
    assert_eq!(*from_other.get_index(0).unwrap(), Reference::new(77, 3, piece(5, 0)));
    assert_eq!(ops.get_all_deps(vec![piece(1, 0)]).len(), 0);
    // A copy that cannot be added registers nothing.
    let other = vec![Some(Reference::new(1, 4, piece(1, 9)))];
    assert!(matches!(ops.copy_obj_as(event, 5, 77, vec![], &other), Err(DBError::Overwrite)));
    assert_eq!(ops.get_all_deps(vec![piece(77, 9)]).len(), 0);
    let fresh = ops.copy_obj(event, 1, vec![3], &refs).unwrap();
    assert_eq!(ops.get_all_deps(vec![piece(fresh, 1)]).len(), 1);
}

#[test]
fn references_move_to_the_copy() {
    let refs = vec![
        Some(Reference::new(1, 2, piece(1, 0))),
        None,
        Some(Reference::new(1, 3, piece(4, 1))),
        Some(Reference::new(6, 0, piece(1, 2))),
    ];
    let moved = copy_refs(&refs, 1, 9);
    assert_eq!(
        moved,
        vec![
            Some(Reference::new(9, 2, piece(9, 0))),
            None,
            Some(Reference::new(9, 3, piece(4, 1))),
            Some(Reference::new(6, 0, piece(9, 2))),
        ]
    );
}
