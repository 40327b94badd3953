use blocksy3::command::Command;
use blocksy3::commit_log::CommitCommand;
use blocksy3::db::{Db, DbConfig, DbError};
use blocksy3::log::Log;
use blocksy3::mem_log_file::{create, MemLogFile};
use blocksy3::tree::TreeError;
use blocksy3::batch_player::PlayerError;

type MemDb = Db<MemLogFile<Command>, MemLogFile<CommitCommand>>;

fn config(dir: Option<&str>, trees: &[&str]) -> DbConfig {
    DbConfig { dir: dir.map(String::from), trees: trees.iter().map(|t| t.to_string()).collect() }
}

fn open_mem() -> MemDb {
    Db::open(config(None, &["t1", "t2"])).unwrap()
}

fn read(db: &MemDb, tree: &str, key: &[u8]) -> Option<Vec<u8>> {
    let view = db.read_view();
    view.tree(tree).read(db, key).unwrap()
}

#[test]
fn write_is_visible_after_commit() {
    let mut db = open_mem();
    let batch = db.write_batch().unwrap();
    batch.tree("t1").write(&mut db, b"k1", b"v1").unwrap();
    assert_eq!(read(&db, "t1", b"k1"), None);
    batch.commit(&mut db).unwrap();
    batch.close(&mut db);
    assert_eq!(read(&db, "t1", b"k1"), Some(b"v1".to_vec()));
    assert_eq!(read(&db, "t2", b"k1"), None);
}

#[test]
fn delete_range_shadows_earlier_write_of_same_batch() {
    let mut db = open_mem();
    let batch = db.write_batch().unwrap();
    batch.tree("t1").write(&mut db, b"k1", b"v1").unwrap();
    batch.tree("t1").delete_range(&mut db, b"k1", b"k2").unwrap();
    batch.commit(&mut db).unwrap();
    batch.close(&mut db);
    assert_eq!(read(&db, "t1", b"k1"), None);
}

#[test]
fn write_after_delete_range_of_same_batch_wins() {
    let mut db = open_mem();
    let batch = db.write_batch().unwrap();
    batch.tree("t1").write(&mut db, b"k1", b"v1").unwrap();
    batch.tree("t1").delete_range(&mut db, b"k1", b"k2").unwrap();
    batch.tree("t1").write(&mut db, b"k1", b"v1").unwrap();
    batch.commit(&mut db).unwrap();
    batch.close(&mut db);
    assert_eq!(read(&db, "t1", b"k1"), Some(b"v1".to_vec()));
}

#[test]
fn pop_without_save_point_is_refused() {
    let mut db = open_mem();
    let mut batch = db.write_batch().unwrap();
    assert_eq!(
        batch.pop_save_point(&mut db),
        Err(DbError::Tree { tree: 0, error: TreeError::Player(PlayerError::NoSavePoint) })
    );
    assert_eq!(
        batch.rollback_save_point(&mut db),
        Err(DbError::Tree { tree: 0, error: TreeError::Player(PlayerError::NoSavePoint) })
    );
    assert!(batch.is_usable());
    batch.close(&mut db);
}

#[test]
fn commit_numbers_grow_without_gaps_for_readers() {
    let mut db = open_mem();
    assert_eq!(db.view_commit_limit().0, 0);
    for round in 0..5u64 {
        let batch = db.write_batch().unwrap();
        batch.tree("t1").write(&mut db, b"k", &[round as u8]).unwrap();
        batch.commit(&mut db).unwrap();
        batch.close(&mut db);
        assert_eq!(db.view_commit_limit().0, round + 1);
        assert_eq!(read(&db, "t1", b"k"), Some(vec![round as u8]));
    }
}

#[test]
fn snapshot_isolation() {
    let mut db = open_mem();
    let batch = db.write_batch().unwrap();
    batch.tree("t1").write(&mut db, b"k1", b"v1").unwrap();
    batch.commit(&mut db).unwrap();
    batch.close(&mut db);
    let view = db.read_view();
    let batch = db.write_batch().unwrap();
    batch.tree("t1").write(&mut db, b"k1", b"v2").unwrap();
    batch.tree("t1").write(&mut db, b"k2", b"v2").unwrap();
    batch.commit(&mut db).unwrap();
    batch.close(&mut db);
    assert_eq!(view.tree("t1").read(&db, b"k1"), Ok(Some(b"v1".to_vec())));
    assert_eq!(view.tree("t1").read(&db, b"k2"), Ok(None));
    assert_eq!(read(&db, "t1", b"k1"), Some(b"v2".to_vec()));
    assert_eq!(read(&db, "t1", b"k2"), Some(b"v2".to_vec()));
}

#[test]
fn save_point_rollback() {
    let mut db = open_mem();
    let mut batch = db.write_batch().unwrap();
    batch.tree("t1").write(&mut db, b"k", b"v0").unwrap();
    batch.tree("t2").write(&mut db, b"k", b"w0").unwrap();
    batch.push_save_point(&mut db).unwrap();
    batch.tree("t1").write(&mut db, b"k", b"v1").unwrap();
    batch.tree("t2").delete(&mut db, b"k").unwrap();
    batch.rollback_save_point(&mut db).unwrap();
    batch.commit(&mut db).unwrap();
    batch.close(&mut db);
    assert_eq!(read(&db, "t1", b"k"), Some(b"v0".to_vec()));
    assert_eq!(read(&db, "t2", b"k"), Some(b"w0".to_vec()));
}

#[test]
fn empty_key_and_empty_value_round_trip() {
    let mut db = open_mem();
    let batch = db.write_batch().unwrap();
    batch.tree("t1").write(&mut db, b"", b"").unwrap();
    batch.commit(&mut db).unwrap();
    batch.close(&mut db);
    assert_eq!(read(&db, "t1", b""), Some(vec![]));
    assert_eq!(read(&db, "t1", b"\0"), None);
}

#[test]
fn delete_range_from_a_key_to_itself_is_a_no_op() {
    let mut db = open_mem();
    let batch = db.write_batch().unwrap();
    batch.tree("t1").write(&mut db, b"k", b"v").unwrap();
    batch.commit(&mut db).unwrap();
    batch.close(&mut db);
    let batch = db.write_batch().unwrap();
    batch.tree("t1").delete_range(&mut db, b"k", b"k").unwrap();
    batch.commit(&mut db).unwrap();
    batch.close(&mut db);
    assert_eq!(read(&db, "t1", b"k"), Some(b"v".to_vec()));
}

#[test]
fn later_write_overrides_a_range_delete_and_earlier_does_not() {
    let mut db = open_mem();
    let batch = db.write_batch().unwrap();
    batch.tree("t1").write(&mut db, b"b", b"old").unwrap();
    batch.commit(&mut db).unwrap();
    batch.close(&mut db);
    let batch = db.write_batch().unwrap();
    batch.tree("t1").delete_range(&mut db, b"a", b"c").unwrap();
    batch.commit(&mut db).unwrap();
    batch.close(&mut db);
    assert_eq!(read(&db, "t1", b"b"), None);
    let batch = db.write_batch().unwrap();
    batch.tree("t1").write(&mut db, b"b", b"new").unwrap();
    batch.commit(&mut db).unwrap();
    batch.close(&mut db);
    assert_eq!(read(&db, "t1", b"b"), Some(b"new".to_vec()));
}

#[test]
fn delete_hides_a_write() {
    let mut db = open_mem();
    let batch = db.write_batch().unwrap();
    batch.tree("t1").write(&mut db, b"k", b"v").unwrap();
    batch.commit(&mut db).unwrap();
    batch.close(&mut db);
    let batch = db.write_batch().unwrap();
    batch.tree("t1").delete(&mut db, b"k").unwrap();
    assert_eq!(read(&db, "t1", b"k"), Some(b"v".to_vec()));
    batch.commit(&mut db).unwrap();
    batch.close(&mut db);
    assert_eq!(read(&db, "t1", b"k"), None);
}

#[test]
fn abort_makes_nothing_visible() {
    let mut db = open_mem();
    let batch = db.write_batch().unwrap();
    batch.tree("t1").write(&mut db, b"k", b"v").unwrap();
    let before = db.view_commit_limit();
    batch.abort(&mut db);
    batch.close(&mut db);
    assert_eq!(db.view_commit_limit(), before);
    assert_eq!(read(&db, "t1", b"k"), None);
}

#[test]
fn unknown_tree_is_an_error() {
    let mut db = open_mem();
    let batch = db.write_batch().unwrap();
    assert_eq!(batch.tree("t3").write(&mut db, b"k", b"v"), Err(DbError::UnknownTree));
    assert_eq!(batch.tree("commits").delete(&mut db, b"k"), Err(DbError::UnknownTree));
    batch.close(&mut db);
    let view = db.read_view();
    assert_eq!(view.tree("t3").read(&db, b"k"), Err(DbError::UnknownTree));
    assert!(matches!(view.tree("t3").cursor(&db), Err(DbError::UnknownTree)));
    assert_eq!(view.tree("").entries(&db), Err(DbError::UnknownTree));
    assert_eq!(db.find_tree("t1"), Some(0));
    assert_eq!(db.find_tree("t2"), Some(1));
    assert_eq!(db.find_tree("t"), None);
}

#[test]
fn closed_batch_can_write_no_more() {
    let mut db = open_mem();
    let batch = db.write_batch().unwrap();
    let other = db.write_batch().unwrap();
    other.tree("t1").write(&mut db, b"k", b"v").unwrap();
    other.close(&mut db);
    let stale = db.write_batch().unwrap();
    stale.tree("t1").write(&mut db, b"a", b"b").unwrap();
    batch.close(&mut db);
    stale.commit(&mut db).unwrap();
    assert_eq!(read(&db, "t1", b"a"), Some(b"b".to_vec()));
    assert_eq!(read(&db, "t1", b"k"), None);
}

#[test]
fn tree_names_must_be_distinct_and_not_reserved() {
    let commit_log = || Log::new(create::<CommitCommand>());
    let logs = |n: usize| (0..n).map(|_| Log::new(create::<Command>())).collect::<Vec<_>>();
    let names = |names: &[&str]| names.iter().map(|n| n.to_string()).collect::<Vec<_>>();
    assert!(matches!(
        MemDb::new(names(&["a", "commits"]), logs(2), commit_log()),
        Err(DbError::ReservedTreeName)
    ));
    assert!(matches!(
        MemDb::new(names(&["a", "b", "a"]), logs(3), commit_log()),
        Err(DbError::DuplicateTreeName)
    ));
    assert!(matches!(
        MemDb::new(names(&["a", "b"]), logs(1), commit_log()),
        Err(DbError::LogCountMismatch)
    ));
    assert!(matches!(
        MemDb::new(names(&["commits", "commits"]), logs(2), commit_log()),
        Err(DbError::ReservedTreeName)
    ));
    let db = MemDb::new(names(&[]), logs(0), commit_log()).unwrap();
    assert!(!db.initialized());
}

#[test]
fn db_cursor_walks_one_tree() {
    let mut db = open_mem();
    let batch = db.write_batch().unwrap();
    batch.tree("t1").write(&mut db, b"a", b"1").unwrap();
    batch.tree("t1").write(&mut db, b"b", b"2").unwrap();
    batch.tree("t2").write(&mut db, b"c", b"3").unwrap();
    batch.commit(&mut db).unwrap();
    batch.close(&mut db);
    let view = db.read_view();
    let mut cursor = view.tree("t1").cursor(&db).unwrap();
    assert!(!cursor.valid());
    cursor.seek_first(&db);
    assert_eq!(cursor.key(), b"a".to_vec());
    assert_eq!(cursor.value(&db), Ok(b"1".to_vec()));
    cursor.next(&db);
    assert_eq!(cursor.key(), b"b".to_vec());
    assert_eq!(cursor.value(&db), Ok(b"2".to_vec()));
    cursor.next(&db);
    assert!(!cursor.valid());
    cursor.seek_last(&db);
    assert_eq!(cursor.key(), b"b".to_vec());
    cursor.prev(&db);
    assert_eq!(cursor.key(), b"a".to_vec());
    cursor.seek_key(&db, b"aa");
    assert_eq!(cursor.key(), b"b".to_vec());
    cursor.seek_key(&db, b"c");
    assert!(!cursor.valid());
    cursor.seek_key_rev(&db, b"aa");
    assert_eq!(cursor.key(), b"a".to_vec());
    let mut other = view.tree("t2").cursor(&db).unwrap();
    other.seek_key(&db, b"c");
    assert_eq!(other.value(&db), Ok(b"3".to_vec()));
    assert_eq!(read(&db, "t2", b"c"), Some(other.value(&db).unwrap()));
}

#[test]
fn seek_agrees_with_read_for_every_committed_key() {
    let mut db = open_mem();
    let batch = db.write_batch().unwrap();
    for k in [b"a", b"c", b"e"] {
        batch.tree("t1").write(&mut db, k, k).unwrap();
    }
    batch.tree("t1").delete(&mut db, b"c").unwrap();
    batch.commit(&mut db).unwrap();
    batch.close(&mut db);
    let view = db.read_view();
    let mut cursor = view.tree("t1").cursor(&db).unwrap();
    for k in [b"a", b"b", b"c", b"d", b"e", b"f"] {
        cursor.seek_key(&db, k);
        let at_key = cursor.valid() && cursor.key() == k.to_vec();
        let read = view.tree("t1").read(&db, k).unwrap();
        assert_eq!(at_key, read.is_some());
        if at_key {
            assert_eq!(Some(cursor.value(&db).unwrap()), read);
        }
    }
}

#[test]
fn sync_of_logs_in_memory_succeeds() {
    let mut db = open_mem();
    let batch = db.write_batch().unwrap();
    batch.tree("t1").write(&mut db, b"k", b"v").unwrap();
    batch.commit(&mut db).unwrap();
    assert_eq!(db.sync(), Ok(()));
    assert_eq!(read(&db, "t1", b"k"), Some(b"v".to_vec()));
}

#[test]
fn open_in_memory_checks_its_configuration() {
    let db = MemDb::open(config(None, &["a", "b", "c"])).unwrap();
    assert!(db.initialized());
    assert_eq!(db.view_commit_limit().0, 0);
    assert_eq!(db.find_tree("c"), Some(2));
    assert!(matches!(MemDb::open(config(Some("/tmp/db"), &["a"])), Err(DbError::NotInMemory)));
    assert!(matches!(MemDb::open(config(None, &["commits"])), Err(DbError::ReservedTreeName)));
    assert!(matches!(MemDb::open(config(None, &["a", "a"])), Err(DbError::DuplicateTreeName)));
    assert!(MemDb::open(config(None, &[])).is_ok());
}

#[test]
fn a_batch_is_committed_once() {
    let mut db = open_mem();
    let batch = db.write_batch().unwrap();
    batch.tree("t1").write(&mut db, b"k", b"v").unwrap();
    batch.commit(&mut db).unwrap();
    let limit = db.view_commit_limit();
    batch.tree("t1").write(&mut db, b"k", b"w").unwrap();
    assert_eq!(batch.commit(&mut db), Err(DbError::BatchEnded));
    assert_eq!(db.view_commit_limit(), limit);
    assert_eq!(read(&db, "t1", b"k"), Some(b"v".to_vec()));
    batch.close(&mut db);
}

#[test]
fn a_batch_that_was_given_up_is_not_committed() {
    let mut db = open_mem();
    let batch = db.write_batch().unwrap();
    batch.tree("t2").write(&mut db, b"k", b"v").unwrap();
    batch.abort(&mut db);
    assert_eq!(batch.commit(&mut db), Err(DbError::BatchEnded));
    batch.abort(&mut db);
    batch.close(&mut db);
    assert_eq!(read(&db, "t2", b"k"), None);
    assert_eq!(db.view_commit_limit().0, 0);
}
