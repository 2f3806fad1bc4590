use flexi_cad::app_state::{
    add_deps, add_obj, begin_undo_event, event_depths, get_all_deps, cancel_event, copy_obj, debug_state, delete_obj, end_undo_event, get_obj,
    init_file, iterate_all, modify_obj, modify_obj_no_undo, open_file, redo_latest, remove_dep, resume_event,
    save_as_file, save_file, suspend_event, take_undo_snapshot, undo_latest, update_set_from_refs, AppState,
};
use flexi_cad::geometry_kernel::{GeometryId, Reference};
use flexi_cad::{DBError, DataObject};

fn new_v4() -> u128 {
    uuid::Uuid::new_v4().as_u128()
}

fn file(name: &str) -> String {
    String::from(name)
}

#[test]
fn missing_files_are_file_not_found() {
    let mut state = AppState::new();
    let f = file("nowhere.flx");
    let e = new_v4();
    assert!(matches!(save_file(&mut state, &f), Err(DBError::FileNotFound)));
    assert!(matches!(begin_undo_event(&mut state, &f, 1, e, String::new()), Err(DBError::FileNotFound)));
    assert!(matches!(end_undo_event(&mut state, &f, e), Err(DBError::FileNotFound)));
    assert!(matches!(undo_latest(&mut state, &f, 1), Err(DBError::FileNotFound)));
    assert!(matches!(redo_latest(&mut state, &f, 1), Err(DBError::FileNotFound)));
    assert!(matches!(suspend_event(&mut state, &f, e), Err(DBError::FileNotFound)));
    assert!(matches!(resume_event(&mut state, &f, e), Err(DBError::FileNotFound)));
    assert!(matches!(cancel_event(&mut state, &f, e), Err(DBError::FileNotFound)));
    assert!(matches!(take_undo_snapshot(&mut state, &f, e, 1), Err(DBError::FileNotFound)));
    assert!(matches!(add_obj(&mut state, &f, e, DataObject::new(1, vec![]), &Vec::new()), Err(DBError::FileNotFound)));
    assert!(matches!(get_obj(&mut state, &f, 1), Err(DBError::FileNotFound)));
    assert!(matches!(modify_obj(&mut state, &f, e, 1, vec![]), Err(DBError::FileNotFound)));
    assert!(matches!(delete_obj(&mut state, &f, e, 1, 0), Err(DBError::FileNotFound)));
    assert!(matches!(copy_obj(&mut state, &f, e, 1, vec![], &Vec::new()), Err(DBError::FileNotFound)));
    assert!(matches!(save_as_file(&mut state, &f, file("b"), Ok(())), Err(DBError::FileNotFound)));
}

#[test]
fn a_drawing_lives_under_its_path() {
    let mut state = AppState::new();
    let f = file("a.flx");
    init_file(&mut state, f.clone());
    let user = new_v4();
    let event = new_v4();
    begin_undo_event(&mut state, &f, user, event, String::from("add")).unwrap();
    add_obj(&mut state, &f, event, DataObject::new(1, b"some data".to_vec()), &Vec::new()).unwrap();
    modify_obj(&mut state, &f, event, 1, b"new data".to_vec()).unwrap();
    end_undo_event(&mut state, &f, event).unwrap();
    assert_eq!(get_obj(&mut state, &f, 1).unwrap().data, b"new data".to_vec());
    // Opening the same path again changes nothing.
    init_file(&mut state, f.clone());
    assert_eq!(get_obj(&mut state, &f, 1).unwrap().data, b"new data".to_vec());
    let changed = undo_latest(&mut state, &f, user).unwrap();
    assert!(changed.contains(&1));
    assert!(get_obj(&mut state, &f, 1).is_err());
    redo_latest(&mut state, &f, user).unwrap();
    assert_eq!(get_obj(&mut state, &f, 1).unwrap().data, b"new data".to_vec());
}

#[test]
fn save_open_and_save_as() {
    let mut state = AppState::new();
    let f = file("first.flx");
    init_file(&mut state, f.clone());
    let event = new_v4();
    begin_undo_event(&mut state, &f, 1, event, String::from("add")).unwrap();
    add_obj(&mut state, &f, event, DataObject::new(7, vec![1, 2]), &Vec::new()).unwrap();
    end_undo_event(&mut state, &f, event).unwrap();
    let bytes = save_file(&mut state, &f).unwrap();
    let g = file("second.flx");
    let keys = open_file(&mut state, g.clone(), &bytes).unwrap();
    assert_eq!(keys, vec![7]);
    assert_eq!(get_obj(&mut state, &g, 7).unwrap().data, vec![1, 2]);
    // Already open: nothing is read again.
    assert_eq!(open_file(&mut state, g.clone(), &bytes).unwrap(), Vec::<u128>::new());
    assert!(matches!(open_file(&mut state, file("bad.flx"), &[1]), Err(DBError::Other(_))));
    // A failed write leaves the drawing where it was.
    let h = file("third.flx");
    assert!(matches!(save_as_file(&mut state, &f, h.clone(), Err(DBError::TimedOut)), Err(DBError::TimedOut)));
    assert!(get_obj(&mut state, &f, 7).is_ok());
    save_as_file(&mut state, &f, h.clone(), Ok(())).unwrap();
    assert!(matches!(get_obj(&mut state, &f, 7), Err(DBError::FileNotFound)));
    assert_eq!(get_obj(&mut state, &h, 7).unwrap().data, vec![1, 2]);
}

#[test]
fn objects_and_dependencies_in_a_drawing() {
    let mut state = AppState::new();
    let f = file("deps.flx");
    init_file(&mut state, f.clone());
    let user = new_v4();
    let event = new_v4();
    begin_undo_event(&mut state, &f, user, event, String::from("e")).unwrap();
    add_obj(&mut state, &f, event, DataObject::new(1, vec![]), &Vec::new()).unwrap();
    let refs = vec![Some(Reference::new(2, 0, GeometryId::new(1, 0)))];
    add_obj(&mut state, &f, event, DataObject::new(2, vec![]), &refs).unwrap();
    add_deps(&mut state, &f, 2, &refs).unwrap();
    let (found, gone) = update_set_from_refs(&mut state, &f, vec![(1, Ok(1))]).unwrap();
    assert_eq!(found.len(), 1);
    assert_eq!(gone.len(), 0);
    remove_dep(&mut state, &f, &GeometryId::new(1, 0), &GeometryId::new(2, 0)).unwrap();
    let (found, _) = update_set_from_refs(&mut state, &f, vec![(1, Ok(1))]).unwrap();
    assert_eq!(found.len(), 0);
    let copy = copy_obj(&mut state, &f, event, 1, vec![5], &Vec::new()).unwrap();
    assert_eq!(get_obj(&mut state, &f, copy).unwrap().data, vec![5]);
    take_undo_snapshot(&mut state, &f, event, 1).unwrap();
    modify_obj_no_undo(&mut state, &f, 1, vec![6]).unwrap();
    suspend_event(&mut state, &f, event).unwrap();
    resume_event(&mut state, &f, event).unwrap();
    assert_eq!(iterate_all(&mut state, &f).unwrap().len(), 3);
    let removed = delete_obj(&mut state, &f, event, 2, 1).unwrap();
    assert_eq!(removed.id, 2);
    let changed = cancel_event(&mut state, &f, event).unwrap();
    assert!(changed.contains(&1) && changed.contains(&2));
    assert_eq!(iterate_all(&mut state, &f).unwrap().len(), 0);
}

#[test]
fn debug_state_heads_each_drawing_with_its_path() {
    let mut state = AppState::new();
    assert_eq!(debug_state(&mut state), "");
    init_file(&mut state, file("x"));
    assert_eq!(debug_state(&mut state).lines().next().unwrap(), "File: \"x\"");
    assert_eq!(
        debug_state(&mut state),
        "File: \"x\"\nObjects:\n\nPending:\n\nUndo Stack:\nRedo Stack:\n\n\n0 Dependencies:\n\n"
    );
}

#[test]
fn queries_on_a_drawing() {
    let mut state = AppState::new();
    let f = file("q.flx");
    assert!(!state.is_open(&f));
    assert_eq!(event_depths(&mut state, &f, 1), None);
    assert!(matches!(get_all_deps(&mut state, &f, Vec::new()), Err(DBError::FileNotFound)));
    init_file(&mut state, f.clone());
    assert!(state.is_open(&f));
    begin_undo_event(&mut state, &f, 1, 5, String::from("e")).unwrap();
    begin_undo_event(&mut state, &f, 1, 5, String::from("e")).unwrap();
    suspend_event(&mut state, &f, 5).unwrap();
    assert_eq!(event_depths(&mut state, &f, 5), Some((1, 1)));
    assert_eq!(event_depths(&mut state, &f, 6), None);
    add_obj(&mut state, &f, 5, DataObject::new(1, vec![]), &Vec::new()).unwrap();
    let refs = vec![Some(Reference::new(2, 0, GeometryId::new(1, 0)))];
    add_obj(&mut state, &f, 5, DataObject::new(2, vec![]), &refs).unwrap();
    let found = get_all_deps(&mut state, &f, vec![GeometryId::new(1, 0)]).unwrap();
    assert_eq!(found.len(), 1);
    assert_eq!(*found.get_index(0).unwrap(), Reference::new(2, 0, GeometryId::new(1, 0)));
}

#[test]
fn operations_change_only_the_drawing_they_name() {
    let mut state = AppState::new();
    let a = file("a");
    let b = file("b");
    init_file(&mut state, a.clone());
    init_file(&mut state, b.clone());
    for f in [&a, &b] {
        begin_undo_event(&mut state, f, 1, 2, String::from("e")).unwrap();
        add_obj(&mut state, f, 2, DataObject::new(3, vec![1]), &Vec::new()).unwrap();
        end_undo_event(&mut state, f, 2).unwrap();
    }
    undo_latest(&mut state, &a, 1).unwrap();
    assert!(get_obj(&mut state, &a, 3).is_err());
    assert_eq!(get_obj(&mut state, &b, 3).unwrap().data, vec![1]);
    begin_undo_event(&mut state, &b, 1, 4, String::from("m")).unwrap();
    modify_obj(&mut state, &b, 4, 3, vec![2]).unwrap();
    assert!(matches!(modify_obj(&mut state, &a, 4, 3, vec![2]), Err(DBError::NoUndoEvent)));
    assert_eq!(iterate_all(&mut state, &a).unwrap().len(), 0);
}

#[test]
fn debug_state_escapes_the_path() {
    let mut state = AppState::new();
    let path = "C:\\a \"b\"";
    init_file(&mut state, file(path));
    let dump = debug_state(&mut state);
    assert_eq!(dump.lines().next().unwrap(), format!("File: {:?}", path));
}

#[test]
fn a_failed_save_as_returns_the_write_error() {
    let mut state = AppState::new();
    init_file(&mut state, file("o"));
    let r = save_as_file(&mut state, &file("o"), file("n"), Err(DBError::Other(String::from("disk full"))));
    assert!(matches!(r, Err(DBError::Other(s)) if s == "disk full"));
    assert!(state.is_open(&file("o")));
    assert!(!state.is_open(&file("n")));
}
