use blocksy3::batch_player::PlayerError;
use blocksy3::command::Command;
use blocksy3::commit_log::{CommitCommand, CommitLog};
use blocksy3::db::{Db, DbError};
use blocksy3::loader::{load, DbInitState, LoadError};
use blocksy3::log::Log;
use blocksy3::mem_log_file::{create, MemLogFile};
use blocksy3::tree::{Tree, TreeError};
use blocksy3::types::{Batch, BatchCommit, Commit, Key, Value};

type MemDb = Db<MemLogFile<Command>, MemLogFile<CommitCommand>>;

fn open(logs: Vec<Log<MemLogFile<Command>>>, commits: Log<MemLogFile<CommitCommand>>) -> Result<MemDb, DbError> {
    let names = vec!["t1".to_string(), "t2".to_string()];
    let mut db = Db::new(names, logs, commits)?;
    db.init()?;
    Ok(db)
}

fn fresh() -> MemDb {
    open(
        vec![Log::new(create::<Command>()), Log::new(create::<Command>())],
        Log::new(create::<CommitCommand>()),
    )
    .unwrap()
}

fn reopen(db: MemDb) -> MemDb {
    db.reopen().unwrap()
}

fn read(db: &MemDb, tree: &str, key: &[u8]) -> Option<Vec<u8>> {
    db.read_view().tree(tree).read(db, key).unwrap()
}

fn key(text: &str) -> Key {
    Key::from_slice(text.as_bytes())
}

fn tree_log(commands: Vec<Command>) -> Log<MemLogFile<Command>> {
    let mut log = Log::new(create::<Command>());
    for cmd in commands {
        log.append(&cmd).unwrap();
    }
    log
}

fn commit_log(records: Vec<(u64, u64, u64)>) -> Log<MemLogFile<CommitCommand>> {
    let mut log = Log::new(create::<CommitCommand>());
    for (batch, batch_commit, commit) in records {
        log.append(&CommitCommand {
            batch: Batch(batch),
            batch_commit: BatchCommit(batch_commit),
            commit: Commit(commit),
        })
        .unwrap();
    }
    log
}

fn write(batch: u64, k: &str, v: &str) -> Command {
    Command::Write { batch: Batch(batch), key: key(k), value: Value::from_slice(v.as_bytes()) }
}

fn ready(batch: u64, batch_commit: u64) -> Command {
    Command::ReadyCommit { batch: Batch(batch), batch_commit: BatchCommit(batch_commit) }
}

fn abort(batch: u64, batch_commit: u64) -> Command {
    Command::AbortCommit { batch: Batch(batch), batch_commit: BatchCommit(batch_commit) }
}

fn open_cmd(batch: u64) -> Command {
    Command::Open { batch: Batch(batch) }
}

fn close(batch: u64) -> Command {
    Command::Close { batch: Batch(batch) }
}

fn load_one(
    commands: Vec<Command>,
    commits: Vec<(u64, u64, u64)>,
) -> (Result<DbInitState, LoadError>, Vec<Tree<MemLogFile<Command>>>) {
    let mut trees = vec![Tree::new(tree_log(commands))];
    let commit_log = CommitLog::new(commit_log(commits));
    let r = load(&commit_log, &mut trees);
    (r, trees)
}

#[test]
fn cross_tree_atomicity_on_restart() {
    let mut db = fresh();
    let batch = db.write_batch().unwrap();
    batch.tree("t1").write(&mut db, b"k", b"v").unwrap();
    batch.tree("t2").write(&mut db, b"k", b"v").unwrap();
    batch.commit(&mut db).unwrap();
    db.sync().unwrap();
    let db = reopen(db);
    assert_eq!(read(&db, "t1", b"k"), Some(b"v".to_vec()));
    assert_eq!(read(&db, "t2", b"k"), Some(b"v".to_vec()));
}

#[test]
fn reopened_database_shows_the_last_commit() {
    let mut db = fresh();
    let batch = db.write_batch().unwrap();
    batch.tree("t1").write(&mut db, b"a", b"1").unwrap();
    batch.commit(&mut db).unwrap();
    batch.close(&mut db);
    let batch = db.write_batch().unwrap();
    batch.tree("t1").write(&mut db, b"a", b"2").unwrap();
    batch.tree("t1").write(&mut db, b"b", b"3").unwrap();
    batch.commit(&mut db).unwrap();
    batch.close(&mut db);
    let uncommitted = db.write_batch().unwrap();
    uncommitted.tree("t1").write(&mut db, b"a", b"lost").unwrap();
    uncommitted.tree("t2").write(&mut db, b"z", b"lost").unwrap();
    let limit = db.view_commit_limit();

    let db = reopen(db);
    assert_eq!(db.view_commit_limit(), limit);
    assert_eq!(read(&db, "t1", b"a"), Some(b"2".to_vec()));
    assert_eq!(read(&db, "t1", b"b"), Some(b"3".to_vec()));
    assert_eq!(read(&db, "t2", b"z"), None);
}

#[test]
fn reopened_database_goes_on_as_if_never_closed() {
    let mut db = fresh();
    let batch = db.write_batch().unwrap();
    batch.tree("t1").write(&mut db, b"a", b"1").unwrap();
    batch.commit(&mut db).unwrap();
    batch.close(&mut db);

    let mut db = reopen(db);
    let old_view = db.read_view();
    let batch = db.write_batch().unwrap();
    batch.tree("t1").delete_range(&mut db, b"a", b"b").unwrap();
    batch.tree("t2").write(&mut db, b"c", b"2").unwrap();
    batch.commit(&mut db).unwrap();
    batch.close(&mut db);
    assert_eq!(db.view_commit_limit(), Commit(2));
    assert_eq!(read(&db, "t1", b"a"), None);
    assert_eq!(read(&db, "t2", b"c"), Some(b"2".to_vec()));
    assert_eq!(old_view.tree("t1").read(&db, b"a"), Ok(Some(b"1".to_vec())));

    let db = reopen(db);
    assert_eq!(db.view_commit_limit(), Commit(2));
    assert_eq!(read(&db, "t1", b"a"), None);
    assert_eq!(read(&db, "t2", b"c"), Some(b"2".to_vec()));
}

#[test]
fn empty_logs_load_to_zero_counters() {
    let (r, trees) = load_one(vec![], vec![]);
    assert_eq!(
        r,
        Ok(DbInitState {
            next_batch: Batch(0),
            next_batch_commit: BatchCommit(0),
            next_commit: Commit(0)
        })
    );
    assert!(trees[0].initialized());
}

#[test]
fn load_gives_the_counters_after_the_largest_seen() {
    let (r, trees) = load_one(
        vec![
            open_cmd(3),
            write(3, "k", "v"),
            ready(3, 5),
            close(3),
            open_cmd(9),
            abort(9, 11),
        ],
        vec![(3, 5, 7)],
    );
    assert_eq!(
        r,
        Ok(DbInitState {
            next_batch: Batch(10),
            next_batch_commit: BatchCommit(12),
            next_commit: Commit(8)
        })
    );
    assert_eq!(trees[0].watermark(), 8);
    assert_eq!(
        trees[0].read(Commit(8), &key("k")),
        Ok(Some(Value::from_slice(b"v")))
    );
    assert_eq!(trees[0].read(Commit(7), &key("k")), Ok(None));
}

#[test]
fn load_commits_an_attempt_that_was_ended_out_of_order() {
    // Batch 1 is made ready before batch 0, and committed after it.
    let (r, trees) = load_one(
        vec![
            open_cmd(0),
            open_cmd(1),
            write(1, "k", "one"),
            ready(1, 0),
            write(0, "k", "zero"),
            ready(0, 1),
        ],
        vec![(0, 1, 0), (1, 0, 1)],
    );
    assert_eq!(
        r,
        Ok(DbInitState {
            next_batch: Batch(2),
            next_batch_commit: BatchCommit(2),
            next_commit: Commit(2)
        })
    );
    assert_eq!(trees[0].read(Commit(1), &key("k")), Ok(Some(Value::from_slice(b"zero"))));
    assert_eq!(trees[0].read(Commit(2), &key("k")), Ok(Some(Value::from_slice(b"one"))));
}

#[test]
fn load_fails_on_a_commit_without_its_end() {
    let (r, _) = load_one(vec![open_cmd(0), write(0, "k", "v")], vec![(0, 0, 0)]);
    assert_eq!(r, Err(LoadError::Tree { tree: 0, error: TreeError::CommitNotFound }));
}

#[test]
fn load_fails_on_mismatched_batch_and_attempt() {
    let (r, _) = load_one(vec![open_cmd(0), ready(0, 1)], vec![(0, 0, 0)]);
    assert_eq!(r, Err(LoadError::Tree { tree: 0, error: TreeError::BatchMismatch }));
    let (r, _) = load_one(vec![open_cmd(1), ready(1, 0)], vec![(0, 0, 0)]);
    assert_eq!(r, Err(LoadError::Tree { tree: 0, error: TreeError::BatchMismatch }));
}

#[test]
fn load_fails_on_an_attempt_that_is_made_ready_twice() {
    let (r, _) = load_one(
        vec![open_cmd(0), open_cmd(1), ready(1, 1), ready(1, 1), ready(0, 0)],
        vec![(0, 0, 0)],
    );
    assert_eq!(r, Err(LoadError::Tree { tree: 0, error: TreeError::DuplicateBatchCommit }));
    let (r, _) = load_one(
        vec![open_cmd(0), open_cmd(1), abort(1, 1), ready(1, 1), ready(0, 0)],
        vec![(0, 0, 0)],
    );
    assert_eq!(r, Err(LoadError::Tree { tree: 0, error: TreeError::DuplicateBatchCommit }));
}

#[test]
fn load_takes_an_abort_that_follows_the_ready_of_its_attempt() {
    let (r, trees) = load_one(
        vec![
            open_cmd(0),
            open_cmd(1),
            write(1, "gone", "x"),
            ready(1, 1),
            abort(1, 1),
            close(1),
            write(0, "k", "v"),
            ready(0, 0),
        ],
        vec![(0, 0, 0)],
    );
    assert_eq!(
        r,
        Ok(DbInitState {
            next_batch: Batch(2),
            next_batch_commit: BatchCommit(2),
            next_commit: Commit(1)
        })
    );
    assert_eq!(trees[0].read(Commit(1), &key("k")), Ok(Some(Value::from_slice(b"v"))));
    assert_eq!(trees[0].read(Commit(1), &key("gone")), Ok(None));
}

#[test]
fn load_fails_on_a_batch_closed_before_its_commit() {
    let (r, _) = load_one(
        vec![open_cmd(0), open_cmd(1), ready(1, 1), close(1), ready(0, 0)],
        vec![(0, 0, 0), (1, 1, 1)],
    );
    assert_eq!(r, Err(LoadError::Tree { tree: 0, error: TreeError::BatchClosedBeforeCommit }));
}

#[test]
fn load_fails_on_commands_that_the_recording_refuses() {
    let (r, _) = load_one(vec![write(0, "k", "v")], vec![(0, 0, 0)]);
    assert_eq!(
        r,
        Err(LoadError::Tree { tree: 0, error: TreeError::Player(PlayerError::UnknownBatch) })
    );
    let (r, _) = load_one(vec![open_cmd(0), open_cmd(0)], vec![(0, 0, 0)]);
    assert_eq!(
        r,
        Err(LoadError::Tree { tree: 0, error: TreeError::Player(PlayerError::BatchExists) })
    );
    let (r, _) = load_one(vec![close(0)], vec![(0, 0, 0)]);
    assert_eq!(
        r,
        Err(LoadError::Tree { tree: 0, error: TreeError::Player(PlayerError::UnknownBatch) })
    );
    let (r, _) = load_one(
        vec![open_cmd(0), Command::RollbackSavePoint { batch: Batch(0) }],
        vec![(0, 0, 0)],
    );
    assert_eq!(
        r,
        Err(LoadError::Tree { tree: 0, error: TreeError::Player(PlayerError::NoSavePoint) })
    );
}

#[test]
fn load_fails_on_commits_that_do_not_grow() {
    let (r, _) = load_one(
        vec![open_cmd(0), ready(0, 0), ready(0, 1)],
        vec![(0, 0, 3), (0, 1, 3)],
    );
    assert_eq!(r, Err(LoadError::Tree { tree: 0, error: TreeError::NonMonotonicCommit }));
    let mut no_trees: Vec<Tree<MemLogFile<Command>>> = vec![];
    let commits = CommitLog::new(commit_log(vec![(0, 0, 3), (0, 1, 2)]));
    assert_eq!(load(&commits, &mut no_trees), Err(LoadError::NonMonotonicCommit));
}

#[test]
fn load_fails_when_a_counter_is_used_up() {
    let (r, _) = load_one(vec![open_cmd(u64::MAX)], vec![]);
    assert_eq!(r, Err(LoadError::CounterOverflow));
    let mut no_trees: Vec<Tree<MemLogFile<Command>>> = vec![];
    let commits = CommitLog::new(commit_log(vec![(0, 0, u64::MAX)]));
    assert_eq!(load(&commits, &mut no_trees), Err(LoadError::CounterOverflow));
}

#[test]
fn init_with_an_empty_commit_log_recovers_nothing() {
    let db = open(
        vec![tree_log(vec![open_cmd(4), write(4, "k", "v")]), tree_log(vec![])],
        commit_log(vec![]),
    )
    .unwrap();
    assert!(db.initialized());
    assert_eq!(db.view_commit_limit(), Commit(0));
    assert_eq!(read(&db, "t1", b"k"), None);
}

#[test]
fn init_reports_logs_that_do_not_fit() {
    let r = open(vec![tree_log(vec![]), tree_log(vec![])], commit_log(vec![(0, 0, 0)]));
    assert!(matches!(
        r,
        Err(DbError::Load(LoadError::Tree { tree: 0, error: TreeError::CommitNotFound }))
    ));
}

#[test]
fn commit_log_records_in_order() {
    let mut log = CommitLog::new(Log::new(create::<CommitCommand>()));
    assert_eq!(log.is_empty(), Ok(true));
    log.commit(Batch(1), BatchCommit(2), Commit(3)).unwrap();
    log.commit(Batch(4), BatchCommit(5), Commit(6)).unwrap();
    assert_eq!(log.is_empty(), Ok(false));
    let mut replay = log.replay();
    assert_eq!(
        log.replay_next(&mut replay),
        Some(Ok(CommitCommand { batch: Batch(1), batch_commit: BatchCommit(2), commit: Commit(3) }))
    );
    assert_eq!(
        log.replay_next(&mut replay),
        Some(Ok(CommitCommand { batch: Batch(4), batch_commit: BatchCommit(5), commit: Commit(6) }))
    );
    assert_eq!(log.replay_next(&mut replay), None);
    assert_eq!(log.sync(), Ok(()));
}

#[test]
fn into_logs_gives_the_logs_back_in_order() {
    let mut db = fresh();
    let batch = db.write_batch().unwrap();
    batch.tree("t2").write(&mut db, b"k", b"v").unwrap();
    batch.commit(&mut db).unwrap();
    batch.close(&mut db);
    let (logs, commits) = db.into_logs();
    assert_eq!(logs.len(), 2);
    let db = open(logs, commits).unwrap();
    assert_eq!(read(&db, "t2", b"k"), Some(b"v".to_vec()));
    assert_eq!(read(&db, "t1", b"k"), None);
}

#[test]
fn reopen_many_times_between_commits() {
    let mut db = fresh();
    for round in 0..4u8 {
        let mut batch = db.write_batch().unwrap();
        batch.tree("t1").write(&mut db, &[round], &[round]).unwrap();
        batch.push_save_point(&mut db).unwrap();
        batch.tree("t1").write(&mut db, b"gone", b"gone").unwrap();
        batch.rollback_save_point(&mut db).unwrap();
        batch.tree("t2").delete_range(&mut db, &[0], &[round]).unwrap();
        batch.tree("t2").write(&mut db, &[round], &[round]).unwrap();
        batch.commit(&mut db).unwrap();
        batch.close(&mut db);
        db = reopen(db);
        assert_eq!(db.view_commit_limit(), Commit(round as u64 + 1));
        for k in 0..=round {
            assert_eq!(read(&db, "t1", &[k]), Some(vec![k]));
            assert_eq!(read(&db, "t2", &[k]), if k == round { Some(vec![k]) } else { None });
        }
        assert_eq!(read(&db, "t1", b"gone"), None);
    }
}

#[test]
fn reopen_after_an_aborted_attempt_of_another_batch() {
    let mut db = fresh();
    let given_up = db.write_batch().unwrap();
    given_up.tree("t1").write(&mut db, b"a", b"no").unwrap();
    given_up.abort(&mut db);
    given_up.close(&mut db);
    let batch = db.write_batch().unwrap();
    batch.tree("t1").write(&mut db, b"b", b"yes").unwrap();
    batch.commit(&mut db).unwrap();
    batch.close(&mut db);
    let db = reopen(db);
    assert_eq!(read(&db, "t1", b"a"), None);
    assert_eq!(read(&db, "t1", b"b"), Some(b"yes".to_vec()));
}

#[test]
fn reopen_after_a_refused_commit_of_a_batch_that_was_given_up() {
    let mut db = fresh();
    let batch = db.write_batch().unwrap();
    batch.tree("t1").write(&mut db, b"a", b"1").unwrap();
    batch.abort(&mut db);
    assert_eq!(batch.commit(&mut db), Err(DbError::BatchEnded));
    batch.close(&mut db);
    let again = db.write_batch().unwrap();
    again.tree("t1").write(&mut db, b"a", b"2").unwrap();
    again.commit(&mut db).unwrap();
    again.close(&mut db);
    let db = reopen(db);
    assert_eq!(read(&db, "t1", b"a"), Some(b"2".to_vec()));
}

#[test]
fn load_fails_on_an_attempt_that_is_given_up_twice() {
    let (r, _) = load_one(
        vec![open_cmd(0), abort(0, 0), abort(0, 0), open_cmd(1), ready(1, 1)],
        vec![(1, 1, 0)],
    );
    assert!(matches!(
        r,
        Err(LoadError::Tree { tree: 0, error: TreeError::DuplicateBatchCommit })
    ));
}

#[test]
fn load_fails_on_an_attempt_that_is_made_ready_after_it_was_given_up() {
    let (r, _) = load_one(
        vec![open_cmd(0), abort(0, 0), ready(0, 0), open_cmd(1), ready(1, 1)],
        vec![(1, 1, 0)],
    );
    assert!(matches!(
        r,
        Err(LoadError::Tree { tree: 0, error: TreeError::DuplicateBatchCommit })
    ));
}

#[test]
fn load_fails_on_an_attempt_that_is_given_up_twice_after_it_was_made_ready() {
    let (r, _) = load_one(
        vec![open_cmd(0), ready(0, 0), abort(0, 0), abort(0, 0), open_cmd(1), ready(1, 1)],
        vec![(1, 1, 0)],
    );
    assert!(matches!(
        r,
        Err(LoadError::Tree { tree: 0, error: TreeError::DuplicateBatchCommit })
    ));
}

#[test]
fn load_fails_on_a_range_that_ends_before_it_starts() {
    let (r, _) = load_one(
        vec![
            open_cmd(0),
            Command::DeleteRange { batch: Batch(0), start_key: key("b"), end_key: key("a") },
            ready(0, 0),
        ],
        vec![(0, 0, 0)],
    );
    assert!(matches!(
        r,
        Err(LoadError::Tree { tree: 0, error: TreeError::Player(PlayerError::InvalidRange) })
    ));
}

#[test]
fn reopen_after_a_given_up_attempt_shows_the_last_commit() {
    let mut db = fresh();
    let kept = db.write_batch().unwrap();
    kept.tree("t1").write(&mut db, b"k", b"old").unwrap();
    kept.commit(&mut db).unwrap();
    kept.close(&mut db);
    let limit = db.view_commit_limit();
    let given_up = db.write_batch().unwrap();
    given_up.tree("t1").write(&mut db, b"k", b"new").unwrap();
    given_up.tree("t2").delete(&mut db, b"k").unwrap();
    given_up.abort(&mut db);
    let still_open = db.write_batch().unwrap();
    still_open.tree("t1").write(&mut db, b"l", b"x").unwrap();
    let db = reopen(db);
    assert_eq!(db.view_commit_limit(), limit);
    assert_eq!(read(&db, "t1", b"k"), Some(b"old".to_vec()));
    assert_eq!(read(&db, "t1", b"l"), None);
}

#[test]
fn reopened_database_hands_out_new_numbers() {
    let mut db = fresh();
    for round in 0..3u8 {
        let batch = db.write_batch().unwrap();
        batch.tree("t1").write(&mut db, &[round], &[round]).unwrap();
        batch.commit(&mut db).unwrap();
        batch.close(&mut db);
    }
    let mut db = reopen(db);
    let limit = db.view_commit_limit();
    let batch = db.write_batch().unwrap();
    batch.tree("t1").write(&mut db, b"k", b"v").unwrap();
    batch.commit(&mut db).unwrap();
    batch.close(&mut db);
    assert_eq!(db.view_commit_limit(), Commit(limit.0 + 1));
    let mut db = reopen(db);
    assert_eq!(read(&db, "t1", b"k"), Some(b"v".to_vec()));
    for round in 0..3u8 {
        assert_eq!(read(&db, "t1", &[round]), Some(vec![round]));
    }
    let (logs, _) = {
        let batch = db.write_batch().unwrap();
        batch.close(&mut db);
        db.into_logs()
    };
    let mut opened = Vec::new();
    for log in logs.into_iter().take(1) {
        let mut replay = log.replay();
        while let Some(record) = log.replay_next(&mut replay) {
            if let (Command::Open { batch }, _) = record.unwrap() {
                opened.push(batch.0);
            }
        }
    }
    assert_eq!(opened, vec![0, 1, 2, 3, 4]);
}
