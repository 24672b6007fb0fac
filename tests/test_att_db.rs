use att_db::att_database::{AttAttribute, AttDatabase, AttErrorCode, AttPermissions};
use att_db::ids::{AttHandle, Uuid};
use att_db::test_att_db::TestAttDatabase;

fn attribute(handle: u16, readable: bool) -> AttAttribute {
    AttAttribute {
        handle: AttHandle(handle),
        type_: Uuid(0x2A00),
        permissions: AttPermissions { readable, writable: false },
    }
}

fn handles(db: &TestAttDatabase) -> Vec<u16> {
    db.list_attributes().iter().map(|a| a.handle.0).collect()
}

#[test]
fn reads_listed_and_refuses_others() {
    let db = TestAttDatabase::new(vec![
        (attribute(1, true), vec![0xAA]),
        (attribute(2, false), vec![0xBB]),
    ]);
    assert_eq!(db.read_attribute(AttHandle(1)), Ok(vec![0xAA]));
    assert_eq!(db.read_attribute(AttHandle(2)), Err(AttErrorCode::ReadNotPermitted));
    assert_eq!(db.read_attribute(AttHandle(3)), Err(AttErrorCode::InvalidHandle));
    assert_eq!(db.list_attributes(), vec![attribute(1, true), attribute(2, false)]);
}

#[test]
fn readable_empty_value_is_read() {
    let db = TestAttDatabase::new(vec![(attribute(7, true), vec![])]);
    assert_eq!(db.read_attribute(AttHandle(7)), Ok(vec![]));
}

#[test]
fn every_listed_handle_resolves() {
    let db = TestAttDatabase::new(vec![
        (attribute(10, true), vec![1, 2, 3]),
        (attribute(4, false), vec![4]),
        (attribute(65535, true), vec![5]),
        (attribute(0, true), vec![6]),
    ]);
    for att in db.list_attributes() {
        let r = db.read_attribute(att.handle);
        if att.permissions.readable {
            assert!(r.is_ok());
        } else {
            assert_eq!(r, Err(AttErrorCode::ReadNotPermitted));
        }
    }
    assert_eq!(db.read_attribute(AttHandle(5)), Err(AttErrorCode::InvalidHandle));
    assert_eq!(db.read_attribute(AttHandle(65535)), Ok(vec![5]));
    assert_eq!(db.read_attribute(AttHandle(0)), Ok(vec![6]));
}

#[test]
fn listing_ascends_whatever_the_input_order() {
    let db = TestAttDatabase::new(vec![
        (attribute(9, true), vec![]),
        (attribute(3, true), vec![]),
        (attribute(6, false), vec![]),
        (attribute(1, true), vec![]),
    ]);
    assert_eq!(handles(&db), vec![1, 3, 6, 9]);
}

#[test]
fn listing_twice_gives_the_same_sequence() {
    let db = TestAttDatabase::new(vec![
        (attribute(2, true), vec![0x02]),
        (attribute(1, false), vec![0x01]),
    ]);
    let first = db.list_attributes();
    let second = db.list_attributes();
    assert_eq!(first, second);
}

#[test]
fn later_duplicate_handle_wins() {
    let db = TestAttDatabase::new(vec![
        (attribute(5, true), vec![0x01]),
        (attribute(6, true), vec![0x06]),
        (attribute(5, false), vec![0x02]),
    ]);
    assert_eq!(handles(&db), vec![5, 6]);
    assert_eq!(db.read_attribute(AttHandle(5)), Err(AttErrorCode::ReadNotPermitted));

    let db = TestAttDatabase::new(vec![
        (attribute(5, false), vec![0x01]),
        (attribute(5, true), vec![0x02]),
    ]);
    assert_eq!(db.read_attribute(AttHandle(5)), Ok(vec![0x02]));
    assert_eq!(db.list_attributes(), vec![attribute(5, true)]);
}

#[test]
fn empty_database_lists_nothing() {
    let db = TestAttDatabase::new(vec![]);
    assert!(db.list_attributes().is_empty());
    assert_eq!(db.read_attribute(AttHandle(0)), Err(AttErrorCode::InvalidHandle));
}

#[test]
fn refused_read_leaves_the_database_unchanged() {
    let db = TestAttDatabase::new(vec![
        (attribute(1, false), vec![0xBB]),
        (attribute(2, true), vec![0xCC]),
    ]);
    let before = db.list_attributes();
    assert_eq!(db.read_attribute(AttHandle(1)), Err(AttErrorCode::ReadNotPermitted));
    assert_eq!(db.list_attributes(), before);
    assert_eq!(db.read_attribute(AttHandle(2)), Ok(vec![0xCC]));
}
