use std::cell::Cell;
use std::rc::Rc;

use blocksy3::command::Command;
use blocksy3::commit_log::CommitCommand;
use blocksy3::db::{Db, DbError};
use blocksy3::log::Log;
use blocksy3::log_file::{LogError, LogFile, Record, StateOf};
use blocksy3::mem_log_file::{create, MemLogFile};
use blocksy3::tree::TreeError;
use blocksy3::types::Address;

/// A log in memory that fails every append while its switch is on.
struct Flaky<C: Record> {
    inner: MemLogFile<C>,
    broken: Rc<Cell<bool>>,
}

impl<C: Record> LogFile for Flaky<C> {
    type Cmd = C;

    fn state(&self) -> StateOf<Self> {
        unreachable!()
    }

    fn is_empty(&self) -> Result<bool, LogError> {
        self.inner.is_empty()
    }

    fn append(&mut self, cmd: &C) -> Result<Address, LogError> {
        if self.broken.get() {
            Err(LogError::Io { message: "broken".to_string() })
        } else {
            self.inner.append(cmd)
        }
    }

    fn read_at(&self, address: Address) -> Result<(C, Option<Address>), LogError> {
        self.inner.read_at(address)
    }

    fn sync(&mut self) -> Result<(), LogError> {
        if self.broken.get() {
            Err(LogError::Io { message: "broken".to_string() })
        } else {
            self.inner.sync()
        }
    }
}

fn flaky<C: Record>(broken: &Rc<Cell<bool>>) -> Log<Flaky<C>> {
    Log::new(Flaky { inner: create::<C>(), broken: broken.clone() })
}

#[test]
fn failed_commit_leaves_the_view_unchanged() {
    let tree_switch = Rc::new(Cell::new(false));
    let commit_switch = Rc::new(Cell::new(false));
    let names = vec!["t1".to_string(), "t2".to_string()];
    let logs = vec![flaky::<Command>(&tree_switch), flaky::<Command>(&tree_switch)];
    let mut db: Db<Flaky<Command>, Flaky<CommitCommand>> =
        Db::new(names, logs, flaky::<CommitCommand>(&commit_switch)).unwrap();
    db.init().unwrap();

    let batch = db.write_batch().unwrap();
    batch.tree("t1").write(&mut db, b"k", b"v").unwrap();
    batch.tree("t2").write(&mut db, b"k", b"v").unwrap();
    let before = db.view_commit_limit();

    commit_switch.set(true);
    let r = batch.commit(&mut db);
    assert!(matches!(r, Err(DbError::CommitLog(LogError::Io { .. }))));
    assert_eq!(db.view_commit_limit(), before);
    let view = db.read_view();
    assert_eq!(view.tree("t1").read(&db, b"k").unwrap(), None);
    assert_eq!(view.tree("t2").read(&db, b"k").unwrap(), None);

    commit_switch.set(false);
    assert_eq!(batch.commit(&mut db), Err(DbError::BatchEnded));
    batch.close(&mut db);

    let batch = db.write_batch().unwrap();
    batch.tree("t1").write(&mut db, b"k", b"v").unwrap();
    batch.tree("t2").write(&mut db, b"k", b"v").unwrap();
    tree_switch.set(true);
    let r = batch.commit(&mut db);
    assert!(matches!(r, Err(DbError::Tree { tree: 0, error: TreeError::Log(_) })));
    assert_eq!(db.view_commit_limit(), before);

    tree_switch.set(false);
    batch.commit(&mut db).unwrap();
    assert!(db.view_commit_limit().0 > before.0);
    let view = db.read_view();
    assert_eq!(view.tree("t1").read(&db, b"k").unwrap(), Some(b"v".to_vec()));
    assert_eq!(view.tree("t2").read(&db, b"k").unwrap(), Some(b"v".to_vec()));
    batch.close(&mut db);
}

#[test]
fn failed_sync_names_the_log_that_failed() {
    let tree_switch = Rc::new(Cell::new(false));
    let commit_switch = Rc::new(Cell::new(false));
    let names = vec!["t1".to_string(), "t2".to_string()];
    let logs = vec![flaky::<Command>(&tree_switch), flaky::<Command>(&tree_switch)];
    let mut db: Db<Flaky<Command>, Flaky<CommitCommand>> =
        Db::new(names, logs, flaky::<CommitCommand>(&commit_switch)).unwrap();
    db.init().unwrap();
    let batch = db.write_batch().unwrap();
    batch.tree("t1").write(&mut db, b"k", b"v").unwrap();
    batch.commit(&mut db).unwrap();
    batch.close(&mut db);
    assert_eq!(db.sync(), Ok(()));

    commit_switch.set(true);
    assert!(matches!(db.sync(), Err(DbError::CommitLog(LogError::Io { .. }))));
    tree_switch.set(true);
    assert!(matches!(db.sync(), Err(DbError::Tree { tree: 0, error: TreeError::Log(_) })));
    let view = db.read_view();
    assert_eq!(view.tree("t1").read(&db, b"k").unwrap(), Some(b"v".to_vec()));

    tree_switch.set(false);
    commit_switch.set(false);
    assert_eq!(db.sync(), Ok(()));
}

#[test]
fn abort_is_logged_in_every_tree_that_can_take_it() {
    let tree_switch = Rc::new(Cell::new(false));
    let commit_switch = Rc::new(Cell::new(false));
    let names = vec!["t1".to_string(), "t2".to_string()];
    let logs = vec![flaky::<Command>(&tree_switch), flaky::<Command>(&tree_switch)];
    let mut db: Db<Flaky<Command>, Flaky<CommitCommand>> =
        Db::new(names, logs, flaky::<CommitCommand>(&commit_switch)).unwrap();
    db.init().unwrap();
    let batch = db.write_batch().unwrap();
    batch.abort(&mut db);
    tree_switch.set(true);
    batch.abort(&mut db);
    tree_switch.set(false);
    batch.close(&mut db);
    let (mut logs, _) = db.into_logs();
    // Each tree log holds the opening, one abort and the close.
    for log in logs.iter_mut() {
        assert_eq!(log.append(&Command::Open { batch: blocksy3::types::Batch(9) }), Ok(Address(3)));
    }
}

#[test]
fn reopen_after_a_failed_commit_shows_the_last_commit() {
    let tree_switch = Rc::new(Cell::new(false));
    let commit_switch = Rc::new(Cell::new(false));
    let names = vec!["t1".to_string(), "t2".to_string()];
    let logs = vec![flaky::<Command>(&tree_switch), flaky::<Command>(&tree_switch)];
    let mut db: Db<Flaky<Command>, Flaky<CommitCommand>> =
        Db::new(names, logs, flaky::<CommitCommand>(&commit_switch)).unwrap();
    db.init().unwrap();

    let first = db.write_batch().unwrap();
    first.tree("t1").write(&mut db, b"k", b"old").unwrap();
    first.commit(&mut db).unwrap();
    first.close(&mut db);
    let limit = db.view_commit_limit();

    let second = db.write_batch().unwrap();
    second.tree("t1").write(&mut db, b"k", b"new").unwrap();
    second.tree("t2").write(&mut db, b"k", b"new").unwrap();
    commit_switch.set(true);
    assert!(matches!(second.commit(&mut db), Err(DbError::CommitLog(LogError::Io { .. }))));
    commit_switch.set(false);

    let db = db.reopen().unwrap();
    assert_eq!(db.view_commit_limit(), limit);
    let view = db.read_view();
    assert_eq!(view.tree("t1").read(&db, b"k").unwrap(), Some(b"old".to_vec()));
    assert_eq!(view.tree("t2").read(&db, b"k").unwrap(), None);
}

#[test]
fn reopen_after_failed_and_given_up_attempts_between_commits() {
    let tree_switch = Rc::new(Cell::new(false));
    let commit_switch = Rc::new(Cell::new(false));
    let names = vec!["t1".to_string(), "t2".to_string()];
    let logs = vec![flaky::<Command>(&tree_switch), flaky::<Command>(&tree_switch)];
    let mut db: Db<Flaky<Command>, Flaky<CommitCommand>> =
        Db::new(names, logs, flaky::<CommitCommand>(&commit_switch)).unwrap();
    db.init().unwrap();

    let first = db.write_batch().unwrap();
    first.tree("t1").write(&mut db, b"a", b"1").unwrap();
    first.commit(&mut db).unwrap();
    first.close(&mut db);

    let failed = db.write_batch().unwrap();
    failed.tree("t1").write(&mut db, b"a", b"lost").unwrap();
    commit_switch.set(true);
    assert!(matches!(failed.commit(&mut db), Err(DbError::CommitLog(_))));
    commit_switch.set(false);
    failed.abort(&mut db);

    let given_up = db.write_batch().unwrap();
    given_up.tree("t2").write(&mut db, b"b", b"lost").unwrap();
    given_up.abort(&mut db);
    given_up.close(&mut db);

    let second = db.write_batch().unwrap();
    second.tree("t2").write(&mut db, b"b", b"2").unwrap();
    second.commit(&mut db).unwrap();
    second.close(&mut db);
    failed.close(&mut db);

    let third = db.write_batch().unwrap();
    third.tree("t1").write(&mut db, b"c", b"3").unwrap();
    third.commit(&mut db).unwrap();
    let limit = db.view_commit_limit();

    let mut db = db.reopen().unwrap();
    assert_eq!(db.view_commit_limit(), limit);
    let view = db.read_view();
    assert_eq!(view.tree("t1").read(&db, b"a").unwrap(), Some(b"1".to_vec()));
    assert_eq!(view.tree("t2").read(&db, b"b").unwrap(), Some(b"2".to_vec()));
    assert_eq!(view.tree("t1").read(&db, b"c").unwrap(), Some(b"3".to_vec()));

    let fourth = db.write_batch().unwrap();
    fourth.tree("t1").write(&mut db, b"d", b"4").unwrap();
    fourth.commit(&mut db).unwrap();
    fourth.close(&mut db);
    let db = db.reopen().unwrap();
    let view = db.read_view();
    assert_eq!(view.tree("t1").read(&db, b"d").unwrap(), Some(b"4").map(|v| v.to_vec()));
}
