use flexi_cad::operation_manager::data_manager::database::FileDatabase;
use flexi_cad::{DBError, DataObject};

fn new_v4() -> u128 {
    uuid::Uuid::new_v4().as_u128()
}

fn obj(data: &str) -> DataObject {
    DataObject::new(new_v4(), data.as_bytes().to_vec())
}

#[test]
fn test_read() {
    let mut db = FileDatabase::new();
    let o = obj("some data");
    let id = o.get_id();
    db.add(o).unwrap();
    let read = db.get(id).unwrap();
    assert_eq!(b"some data".to_vec(), read.data);
}

#[test]
fn test_write() {
    let mut db = FileDatabase::new();
    let o = obj("some data");
    let id = o.get_id();
    db.add(o).unwrap();
    db.get_mut(id, b"new data".to_vec()).unwrap();
    let read = db.get(id).unwrap();
    assert_eq!(b"new data".to_vec(), read.data);
}

#[test]
fn database_test_delete() {
    let mut db = FileDatabase::new();
    let o = obj("some data");
    let id = o.get_id();
    db.add(o).unwrap();
    let removed = db.remove(id).unwrap();
    assert_eq!(b"some data".to_vec(), removed.data);
    assert!(db.get(id).is_err());
}

#[test]
fn test_duplicate() {
    let mut db = FileDatabase::new();
    let o = obj("some data");
    db.add(o.clone()).unwrap();
    assert!(db.add(o).is_err());
}

#[test]
fn test_filing() {
    let o1 = obj("first");
    let o2 = obj("second");
    let o3 = obj("third");
    let (id_1, id_2, id_3) = (o1.get_id(), o2.get_id(), o3.get_id());
    let bytes = {
        let mut db = FileDatabase::new();
        db.add(o1).unwrap();
        db.add(o2).unwrap();
        db.add(o3).unwrap();
        db.save().unwrap()
    };
    let mut db = FileDatabase::new();
    let keys = db.open(&bytes).unwrap();
    assert_eq!(keys.len(), 3);
    assert_eq!(db.get(id_1).unwrap().data, b"first".to_vec());
    assert_eq!(db.get(id_2).unwrap().data, b"second".to_vec());
    assert_eq!(db.get(id_3).unwrap().data, b"third".to_vec());
}

#[test]
fn missing_objects_are_not_found() {
    let mut db = FileDatabase::new();
    assert!(matches!(db.get(new_v4()), Err(DBError::NotFound(_))));
    assert!(matches!(db.remove(new_v4()), Err(DBError::NotFound(_))));
    assert!(matches!(db.get_mut(new_v4(), vec![1]), Err(DBError::NotFound(_))));
    assert!(matches!(db.duplicate(new_v4()), Err(DBError::NotFound(_))));
}

#[test]
fn the_nil_key_is_not_found() {
    let mut db = FileDatabase::new();
    db.add(DataObject::new(0, vec![1, 2])).unwrap();
    assert!(db.contains(0));
    assert!(matches!(db.get(0), Err(DBError::NotFound(_))));
    assert!(matches!(db.get_mut(0, vec![3]), Err(DBError::NotFound(_))));
}

#[test]
fn duplicates_get_their_own_identifier() {
    let mut db = FileDatabase::new();
    let o = obj("some data");
    let id = o.get_id();
    db.add(o).unwrap();
    let copy = db.duplicate_as(id, 42).unwrap();
    assert_eq!(copy.id, 42);
    assert_eq!(copy.data, b"some data".to_vec());
    let fresh = db.duplicate(id).unwrap();
    assert_ne!(fresh.id, id);
    assert_eq!(fresh.data, b"some data".to_vec());
}

#[test]
fn iterate_all_gives_each_object_once() {
    let mut db = FileDatabase::new();
    for i in 1..=5u128 {
        db.add(DataObject::new(i, vec![i as u8])).unwrap();
    }
    let mut ids: Vec<u128> = db.iterate_all().iter().map(|o| o.id).collect();
    ids.sort();
    assert_eq!(ids, vec![1, 2, 3, 4, 5]);
}

#[test]
fn open_refuses_bytes_it_cannot_read() {
    let mut db = FileDatabase::new();
    assert!(matches!(db.open(&[1, 2, 3]), Err(DBError::Other(_))));
}

#[test]
fn open_refuses_an_identifier_twice() {
    let bytes = {
        let mut db = FileDatabase::new();
        db.add(DataObject::new(3, vec![1])).unwrap();
        db.save().unwrap()
    };
    let mut doubled = bytes.clone();
    // Two records under the same identifier: the length prefix says 2, then the record twice.
    doubled[0] = 2;
    doubled.extend_from_slice(&bytes[8..]);
    let mut db = FileDatabase::new();
    assert!(matches!(db.open(&doubled), Err(DBError::Overwrite)));
}

#[test]
fn saving_then_opening_gives_back_the_objects() {
    let mut db = FileDatabase::new();
    db.add(DataObject::new(10, vec![1, 2, 3])).unwrap();
    db.add(DataObject::new(11, vec![])).unwrap();
    let bytes = db.save().unwrap();
    let mut other = FileDatabase::new();
    let mut keys = other.open(&bytes).unwrap();
    keys.sort();
    assert_eq!(keys, vec![10, 11]);
    assert_eq!(other.get(10).unwrap().data, vec![1, 2, 3]);
    assert_eq!(other.get(11).unwrap().data, Vec::<u8>::new());
}

#[test]
fn debug_state_lists_the_objects() {
    let mut db = FileDatabase::new();
    db.add(DataObject::new(12, vec![1, 2, 3])).unwrap();
    let mut out = String::new();
    db.debug_state(&mut out);
    assert_eq!(out, "Objects:\n00000000-0000-0000-0000-00000000000c: 3 bytes\n");
}

#[test]
fn saved_bytes_are_bincode_little_endian_records() {
    let mut db = FileDatabase::new();
    db.add(DataObject::new(3, vec![1, 2])).unwrap();
    let bytes = db.save().unwrap();
    let mut expected = vec![1, 0, 0, 0, 0, 0, 0, 0];
    expected.extend_from_slice(&3u128.to_le_bytes());
    expected.extend_from_slice(&[2, 0, 0, 0, 0, 0, 0, 0, 1, 2]);
    assert_eq!(bytes, expected);
    // Bytes after a full encoding are left unread.
    let mut longer = bytes.clone();
    longer.push(9);
    let mut other = FileDatabase::new();
    assert_eq!(other.open(&longer).unwrap(), vec![3]);
    // A list that ends early is not read.
    let mut short = FileDatabase::new();
    assert!(matches!(short.open(&bytes[..bytes.len() - 1]), Err(DBError::Other(_))));
}
