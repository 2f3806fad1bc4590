use flexi_cad::operation_manager::data_manager::DataManager;
use flexi_cad::operation_manager::data_manager::undo::{PendingEvents, UndoStack};
use flexi_cad::{DBError, DataObject};

fn new_v4() -> u128 {
    uuid::Uuid::new_v4().as_u128()
}

fn u(n: u128) -> String {
    uuid::Uuid::from_u128(n).to_string()
}

fn obj(data: &str) -> DataObject {
    DataObject::new(new_v4(), data.as_bytes().to_vec())
}

#[test]
fn test_add() {
    let mut db = DataManager::new();
    let user = new_v4();
    let event = db.begin_undo_event(user, String::from("add obj")).unwrap();
    let o = obj("some data");
    let id = o.get_id();
    db.add_obj(event, o).unwrap();
    let read = db.get_obj(id).unwrap();
    assert_eq!(b"some data".to_vec(), read.data);
    db.end_undo_event(event).unwrap();
}

#[test]
fn tests_test_delete() {
    let mut db = DataManager::new();
    let user = new_v4();
    let event = db.begin_undo_event(user, String::from("add obj")).unwrap();
    let o = obj("some data");
    let id = o.get_id();
    db.add_obj(event, o).unwrap();
    db.delete_obj(event, id).unwrap();
    db.end_undo_event(event).unwrap();
    assert!(db.get_obj(id).is_err());
}

#[test]
fn test_modify() {
    let mut db = DataManager::new();
    let user = new_v4();
    let event = db.begin_undo_event(user, String::from("add obj")).unwrap();
    let o = obj("some data");
    let id = o.get_id();
    db.add_obj(event, o).unwrap();
    db.get_mut_obj(event, id, b"new data".to_vec()).unwrap();
    let read = db.get_obj(id).unwrap();
    assert_eq!(b"new data".to_vec(), read.data);
    db.end_undo_event(event).unwrap();
}

#[test]
fn test_add_undo() {
    let mut db = DataManager::new();
    let user = new_v4();
    let event = db.begin_undo_event(user, String::from("add obj")).unwrap();
    let o = obj("some data");
    let id = o.get_id();
    db.add_obj(event, o).unwrap();
    db.end_undo_event(event).unwrap();
    db.undo_latest(user).unwrap();
    assert!(db.get_obj(id).is_err());
}

#[test]
fn test_delete_undo() {
    let mut db = DataManager::new();
    let user = new_v4();
    let event = db.begin_undo_event(user, String::from("add obj")).unwrap();
    let o = obj("some data");
    let id = o.get_id();
    db.add_obj(event, o).unwrap();
    db.end_undo_event(event).unwrap();
    let event2 = db.begin_undo_event(user, String::from("delete obj")).unwrap();
    db.delete_obj(event2, id).unwrap();
    db.end_undo_event(event2).unwrap();
    db.undo_latest(user).unwrap();
    let read = db.get_obj(id).unwrap();
    assert_eq!(b"some data".to_vec(), read.data);
}

#[test]
fn test_modify_undo() {
    let mut db = DataManager::new();
    let user = new_v4();
    let event = db.begin_undo_event(user, String::from("add obj")).unwrap();
    let o = obj("some data");
    let id = o.get_id();
    db.add_obj(event, o).unwrap();
    db.end_undo_event(event).unwrap();
    let event_2 = db.begin_undo_event(user, String::from("modify obj")).unwrap();
    db.get_mut_obj(event_2, id, b"new data".to_vec()).unwrap();
    db.end_undo_event(event_2).unwrap();
    db.undo_latest(user).unwrap();
    let read = db.get_obj(id).unwrap();
    assert_eq!(b"some data".to_vec(), read.data);
}

#[test]
fn test_modify_redo() {
    let mut db = DataManager::new();
    let user = new_v4();
    let event = db.begin_undo_event(user, String::from("add obj")).unwrap();
    let o = obj("some data");
    let id = o.get_id();
    db.add_obj(event, o).unwrap();
    db.end_undo_event(event).unwrap();
    let event_2 = db.begin_undo_event(user, String::from("modify obj")).unwrap();
    db.get_mut_obj(event_2, id, b"new data".to_vec()).unwrap();
    db.end_undo_event(event_2).unwrap();
    db.undo_latest(user).unwrap();
    db.redo_latest(user).unwrap();
    let read = db.get_obj(id).unwrap();
    assert_eq!(b"new data".to_vec(), read.data);
}

#[test]
fn three_users_in_turn() {
    // Three users work on one object in turn; every event ends and every
    // change is recorded under its own user.
    let mut db = DataManager::new();
    let setup_user = new_v4();
    let setup_event = db.begin_undo_event(setup_user, String::from("setup")).unwrap();
    let a = obj("A");
    let a_id = a.get_id();
    db.add_obj(setup_event, a).unwrap();
    db.end_undo_event(setup_event).unwrap();
    assert_eq!(db.get_obj(a_id).unwrap().data, b"A".to_vec());
    let user_2 = new_v4();
    let event_2 = db.begin_undo_event(user_2, String::from("Op 2")).unwrap();
    db.get_mut_obj(event_2, a_id, b"B".to_vec()).unwrap();
    db.end_undo_event(event_2).unwrap();
    let user_3 = new_v4();
    let event_3 = db.begin_undo_event(user_3, String::from("Op 3")).unwrap();
    db.get_mut_obj(event_3, a_id, b"C".to_vec()).unwrap();
    db.end_undo_event(event_3).unwrap();
    db.undo_latest(user_2).unwrap();
    assert_eq!(db.get_obj(a_id).unwrap().data, b"A".to_vec());
}

#[test]
fn undo_then_redo_gives_back_the_objects() {
    let mut db = DataManager::new();
    let user = new_v4();
    let keep = obj("keep");
    let keep_id = keep.get_id();
    let event = db.begin_undo_event(user, String::from("setup")).unwrap();
    db.add_obj(event, keep).unwrap();
    db.end_undo_event(event).unwrap();
    let added = obj("added");
    let added_id = added.get_id();
    let event_2 = db.begin_undo_event(user, String::from("several changes")).unwrap();
    db.add_obj(event_2, added).unwrap();
    db.get_mut_obj(event_2, keep_id, b"changed".to_vec()).unwrap();
    db.get_mut_obj(event_2, added_id, b"changed again".to_vec()).unwrap();
    db.end_undo_event(event_2).unwrap();
    let changed = db.undo_latest(user).unwrap();
    assert!(changed.contains(&keep_id) && changed.contains(&added_id) && changed.len() == 2);
    assert_eq!(db.get_obj(keep_id).unwrap().data, b"keep".to_vec());
    assert!(db.get_obj(added_id).is_err());
    db.redo_latest(user).unwrap();
    assert_eq!(db.get_obj(keep_id).unwrap().data, b"changed".to_vec());
    assert_eq!(db.get_obj(added_id).unwrap().data, b"changed again".to_vec());
    db.undo_latest(user).unwrap();
    assert_eq!(db.get_obj(keep_id).unwrap().data, b"keep".to_vec());
}

#[test]
fn events_must_be_open() {
    let mut db = DataManager::new();
    let event = new_v4();
    assert!(matches!(db.add_obj(event, obj("x")), Err(DBError::NoUndoEvent)));
    assert!(matches!(db.end_undo_event(event), Err(DBError::NoUndoEvent)));
    assert!(matches!(db.suspend_event(event), Err(DBError::NoUndoEvent)));
    assert!(matches!(db.resume_event(event), Err(DBError::NoUndoEvent)));
    assert!(matches!(db.cancel_event(event), Err(DBError::NoUndoEvent)));
    assert!(matches!(db.undo_latest(new_v4()), Err(DBError::NoUndoEvent)));
    assert!(matches!(db.redo_latest(new_v4()), Err(DBError::NoUndoEvent)));
}

#[test]
fn adding_twice_is_overwrite() {
    let mut db = DataManager::new();
    let user = new_v4();
    let event = db.begin_undo_event(user, String::from("add")).unwrap();
    let o = obj("x");
    db.add_obj(event, o.clone()).unwrap();
    assert!(matches!(db.add_obj(event, o), Err(DBError::Overwrite)));
}

#[test]
fn nested_events_end_at_their_outer_level() {
    let mut db = DataManager::new();
    let user = new_v4();
    let event = db.begin_undo_event(user, String::from("outer")).unwrap();
    db.begin_undo_event_as(user, event, String::from("inner")).unwrap();
    let o = obj("x");
    let id = o.get_id();
    db.add_obj(event, o).unwrap();
    db.end_undo_event(event).unwrap();
    // Still open: the undo stack is empty.
    assert!(matches!(db.undo_latest(user), Err(DBError::NoUndoEvent)));
    db.end_undo_event(event).unwrap();
    db.undo_latest(user).unwrap();
    assert!(db.get_obj(id).is_err());
}

#[test]
fn suspended_events_record_nothing() {
    let mut db = DataManager::new();
    let user = new_v4();
    let o = obj("x");
    let id = o.get_id();
    let event = db.begin_undo_event(user, String::from("add")).unwrap();
    db.add_obj(event, o).unwrap();
    db.suspend_event(event).unwrap();
    db.get_mut_obj(event, id, b"y".to_vec()).unwrap();
    db.resume_event(event).unwrap();
    db.end_undo_event(event).unwrap();
    db.undo_latest(user).unwrap();
    // The addition was recorded and is undone; the modification was not.
    assert!(db.get_obj(id).is_err());
}

#[test]
fn cancel_reverts_the_event() {
    let mut db = DataManager::new();
    let user = new_v4();
    let o = obj("before");
    let id = o.get_id();
    let setup = db.begin_undo_event(user, String::from("setup")).unwrap();
    db.add_obj(setup, o).unwrap();
    db.end_undo_event(setup).unwrap();
    let event = db.begin_undo_event(user, String::from("change")).unwrap();
    db.get_mut_obj(event, id, b"after".to_vec()).unwrap();
    let changed = db.cancel_event(event).unwrap();
    assert!(changed.contains(&id));
    assert_eq!(db.get_obj(id).unwrap().data, b"before".to_vec());
    assert!(matches!(db.end_undo_event(event), Err(DBError::NoUndoEvent)));
}

#[test]
fn snapshots_let_undo_restore_direct_changes() {
    let mut db = DataManager::new();
    let user = new_v4();
    let o = obj("before");
    let id = o.get_id();
    let setup = db.begin_undo_event(user, String::from("setup")).unwrap();
    db.add_obj(setup, o).unwrap();
    db.end_undo_event(setup).unwrap();
    let event = db.begin_undo_event(user, String::from("snapshot")).unwrap();
    db.take_undo_snapshot(event, id).unwrap();
    db.get_mut_obj_no_undo(id, b"after".to_vec()).unwrap();
    db.end_undo_event(event).unwrap();
    db.undo_latest(user).unwrap();
    assert_eq!(db.get_obj(id).unwrap().data, b"before".to_vec());
    assert!(matches!(db.take_undo_snapshot(new_v4(), id), Err(DBError::NoUndoEvent)));
}

#[test]
fn missing_objects_are_not_found_in_events() {
    let mut db = DataManager::new();
    let user = new_v4();
    let event = db.begin_undo_event(user, String::from("e")).unwrap();
    assert!(matches!(db.delete_obj(event, new_v4()), Err(DBError::NotFound(_))));
    assert!(matches!(db.get_mut_obj(event, new_v4(), vec![]), Err(DBError::NotFound(_))));
    assert!(matches!(db.take_undo_snapshot(event, new_v4()), Err(DBError::NotFound(_))));
    assert!(matches!(db.get_mut_obj_no_undo(new_v4(), vec![]), Err(DBError::NotFound(_))));
}

#[test]
fn saving_and_opening_a_manager() {
    let mut db = DataManager::new();
    let user = new_v4();
    let event = db.begin_undo_event(user, String::from("e")).unwrap();
    db.add_obj(event, DataObject::new(21, vec![4, 5])).unwrap();
    db.end_undo_event(event).unwrap();
    let bytes = db.save().unwrap();
    let (opened, keys) = DataManager::open(&bytes).unwrap();
    assert_eq!(keys, vec![21]);
    assert_eq!(opened.get_obj(21).unwrap().data, vec![4, 5]);
    assert!(matches!(DataManager::open(&[9]), Err(DBError::Other(_))));
}

#[test]
fn duplicates_of_manager_objects() {
    let mut db = DataManager::new();
    let user = new_v4();
    let event = db.begin_undo_event(user, String::from("e")).unwrap();
    db.add_obj(event, DataObject::new(31, vec![7])).unwrap();
    let copy = db.duplicate_obj_as(31, 32).unwrap();
    assert_eq!((copy.id, copy.data), (32, vec![7]));
    let fresh = db.duplicate_obj(31).unwrap();
    assert_eq!(fresh.data, vec![7]);
    assert_eq!(db.iterate_all().len(), 1);
}

#[test]
fn debug_state_of_a_manager() {
    let mut db = DataManager::new();
    let mut out = String::new();
    db.debug_state(&mut out);
    assert_eq!(out, "Objects:\n\nPending:\n\nUndo Stack:\nRedo Stack:\n\n");
    db.begin_undo_event_as(2, 1, String::from("add")).unwrap();
    db.add_obj(1, DataObject::new(40, vec![1, 2])).unwrap();
    let mut out = String::new();
    db.debug_state(&mut out);
    assert_eq!(
        out,
        format!("Objects:\n{}: 2 bytes\n\nPending:\n{} -> {} by {}: add, 1 changes\n\nUndo Stack:\nRedo Stack:\n\n", u(40), u(1), u(1), u(2))
    );
    db.end_undo_event(1).unwrap();
    let mut out = String::new();
    db.debug_state(&mut out);
    assert_eq!(out, format!("Objects:\n{}: 2 bytes\n\nPending:\n\nUndo Stack:\n{} by {}: add, 1 changes\nRedo Stack:\n\n", u(40), u(1), u(2)));
}

#[test]
fn begun_events_get_fresh_identifiers() {
    let mut db = DataManager::new();
    let a = db.begin_undo_event(1, String::from("a")).unwrap();
    let b = db.begin_undo_event(1, String::from("b")).unwrap();
    assert!(a != 0 && b != 0 && a != b);
    assert_eq!(db.event_depths(a), Some((0, 0)));
    assert_eq!(db.event_depths(b), Some((0, 0)));
    db.end_undo_event(a).unwrap();
    assert_eq!(db.event_depths(a), None);
}

#[test]
fn fresh_events_begin_only_once() {
    let mut db = DataManager::new();
    assert_eq!(db.begin_fresh_event(3, 7, String::from("a")).unwrap(), 7);
    assert_eq!(db.event_depths(7), Some((0, 0)));
    assert!(matches!(db.begin_fresh_event(3, 7, String::from("b")), Err(DBError::Overwrite)));
    assert_eq!(db.event_depths(7), Some((0, 0)));
    db.end_undo_event(7).unwrap();
    assert_eq!(db.event_depths(7), None);
}

fn stack_text(stack: &UndoStack) -> String {
    let mut out = String::new();
    stack.debug_state(&mut out);
    out
}

#[test]
fn nested_begins_need_as_many_ends() {
    let mut pending = PendingEvents::new();
    let mut stack = UndoStack::new();
    for _ in 0..3 {
        pending.begin_event(2, 1, String::from("nest")).unwrap();
    }
    pending.end_event(&mut stack, 1).unwrap();
    pending.end_event(&mut stack, 1).unwrap();
    assert_eq!(stack_text(&stack), "Undo Stack:\nRedo Stack:\n");
    pending.end_event(&mut stack, 1).unwrap();
    assert_eq!(stack_text(&stack), "Undo Stack:\n00000000-0000-0000-0000-000000000001 by 00000000-0000-0000-0000-000000000002: nest, 0 changes\nRedo Stack:\n");
    assert!(matches!(pending.end_event(&mut stack, 1), Err(DBError::NoUndoEvent)));
    assert_eq!(pending.depths(1), None);
}
