use blocksy3::batch_player::PlayerError;
use blocksy3::command::Command;
use blocksy3::log::Log;
use blocksy3::log_file::LogFile;
use blocksy3::mem_log_file::{create, MemLogFile};
use blocksy3::tree::{commit_to_index, Tree, TreeError};
use blocksy3::types::{Address, Batch, BatchCommit, Commit, Key, Value};

fn key(text: &str) -> Key {
    Key::from_slice(text.as_bytes())
}

fn value(text: &str) -> Value {
    Value::from_slice(text.as_bytes())
}

fn new_tree() -> Tree<MemLogFile<Command>> {
    let mut tree = Tree::new(Log::new(create::<Command>()));
    assert!(!tree.initialized());
    tree.skip_init();
    assert!(tree.initialized());
    tree
}

#[test]
fn mem_log_addresses_are_places() {
    let mut log = create::<Command>();
    assert_eq!(log.is_empty(), Ok(true));
    assert_eq!(log.append(&Command::Open { batch: Batch(0) }), Ok(Address(0)));
    assert_eq!(log.append(&Command::Close { batch: Batch(0) }), Ok(Address(1)));
    assert_eq!(log.is_empty(), Ok(false));
    let (first, next) = log.read_at(Address(0)).unwrap();
    assert!(matches!(first, Command::Open { batch: Batch(0) }));
    assert_eq!(next, Some(Address(1)));
    let (second, next) = log.read_at(Address(1)).unwrap();
    assert!(matches!(second, Command::Close { batch: Batch(0) }));
    assert_eq!(next, None);
    assert!(log.read_at(Address(2)).is_err());
    assert_eq!(log.sync(), Ok(()));
}

#[test]
fn log_replay_yields_every_record_once() {
    let mut log = Log::new(create::<Command>());
    let mut replay = log.replay();
    assert!(log.replay_next(&mut replay).is_none());
    for b in 0..3 {
        log.append(&Command::Open { batch: Batch(b) }).unwrap();
    }
    let mut replay = log.replay();
    for b in 0..3 {
        let (cmd, address) = log.replay_next(&mut replay).unwrap().unwrap();
        assert_eq!(cmd.batch(), Batch(b));
        assert_eq!(address, Address(b));
    }
    assert!(log.replay_next(&mut replay).is_none());
    assert!(log.replay_next(&mut replay).is_none());
}

#[test]
fn tree_write_commit_read() {
    let mut tree = new_tree();
    let writer = tree.batch(Batch(0));
    writer.open(&mut tree).unwrap();
    writer.write(&mut tree, key("k"), value("v")).unwrap();
    writer.ready_commit(&mut tree, BatchCommit(0)).unwrap();
    assert_eq!(tree.read(Commit(0), &key("k")), Ok(None));
    writer.commit_to_index(&mut tree, BatchCommit(0), Commit(0));
    assert_eq!(tree.watermark(), 1);
    assert_eq!(tree.read(Commit(1), &key("k")), Ok(Some(value("v"))));
    assert_eq!(tree.read(Commit(0), &key("k")), Ok(None));
    writer.close(&mut tree).unwrap();
    assert_eq!(tree.read(Commit(1), &key("k")), Ok(Some(value("v"))));
}

#[test]
fn tree_empty_key_and_empty_value() {
    let mut tree = new_tree();
    let writer = tree.batch(Batch(0));
    writer.open(&mut tree).unwrap();
    writer.write(&mut tree, key(""), value("")).unwrap();
    writer.ready_commit(&mut tree, BatchCommit(0)).unwrap();
    writer.commit_to_index(&mut tree, BatchCommit(0), Commit(0));
    assert_eq!(tree.read(Commit(1), &key("")), Ok(Some(value(""))));
    let mut cursor = tree.cursor(Commit(1));
    cursor.seek_first(&tree);
    assert!(cursor.valid());
    assert_eq!(cursor.key(), key(""));
    assert_eq!(cursor.value(&tree), Ok(value("")));
}

#[test]
fn tree_refuses_what_the_batch_cannot_record() {
    let mut tree = new_tree();
    let writer = tree.batch(Batch(0));
    assert_eq!(
        writer.write(&mut tree, key("k"), value("v")),
        Err(TreeError::Player(PlayerError::UnknownBatch))
    );
    writer.open(&mut tree).unwrap();
    assert_eq!(writer.open(&mut tree), Err(TreeError::Player(PlayerError::BatchExists)));
    assert_eq!(
        writer.pop_save_point(&mut tree),
        Err(TreeError::Player(PlayerError::NoSavePoint))
    );
    assert_eq!(
        writer.rollback_save_point(&mut tree),
        Err(TreeError::Player(PlayerError::NoSavePoint))
    );
    writer.push_save_point(&mut tree).unwrap();
    writer.pop_save_point(&mut tree).unwrap();
    writer.close(&mut tree).unwrap();
    assert_eq!(writer.close(&mut tree), Err(TreeError::Player(PlayerError::UnknownBatch)));
    // Only what was taken stands in the log: open, push, pop, close.
    let mut log = tree.into_log();
    assert_eq!(log.append(&Command::Open { batch: Batch(1) }), Ok(Address(4)));
}

#[test]
fn tree_cursor_reads_values_from_the_log() {
    let mut tree = new_tree();
    let writer = tree.batch(Batch(0));
    writer.open(&mut tree).unwrap();
    writer.write(&mut tree, key("b"), value("2")).unwrap();
    writer.write(&mut tree, key("a"), value("1")).unwrap();
    writer.delete(&mut tree, key("b")).unwrap();
    writer.write(&mut tree, key("c"), value("3")).unwrap();
    writer.ready_commit(&mut tree, BatchCommit(0)).unwrap();
    writer.commit_to_index(&mut tree, BatchCommit(0), Commit(0));
    let mut cursor = tree.cursor(Commit(1));
    assert!(!cursor.valid());
    cursor.seek_first(&tree);
    assert_eq!(cursor.key(), key("a"));
    assert_eq!(cursor.value(&tree), Ok(value("1")));
    assert_eq!(cursor.value(&tree), Ok(value("1")));
    cursor.next(&tree);
    assert_eq!(cursor.key(), key("c"));
    assert_eq!(cursor.value(&tree), Ok(value("3")));
    cursor.prev(&tree);
    assert_eq!(cursor.value(&tree), Ok(value("1")));
    cursor.seek_key(&tree, key("b"));
    assert_eq!(cursor.key(), key("c"));
    cursor.seek_key_rev(&tree, key("b"));
    assert_eq!(cursor.key(), key("a"));
    cursor.seek_last(&tree);
    assert_eq!(cursor.key(), key("c"));
    cursor.next(&tree);
    assert!(!cursor.valid());
    assert_eq!(
        tree.entries(Commit(1)),
        Ok(vec![(key("a"), value("1")), (key("c"), value("3"))])
    );
}

#[test]
fn tree_aborted_attempt_commits_nothing() {
    let mut tree = new_tree();
    let writer = tree.batch(Batch(0));
    writer.open(&mut tree).unwrap();
    writer.write(&mut tree, key("k"), value("v")).unwrap();
    writer.abort_commit(&mut tree, BatchCommit(0)).unwrap();
    writer.commit_to_index(&mut tree, BatchCommit(0), Commit(0));
    assert_eq!(tree.watermark(), 1);
    assert_eq!(tree.read(Commit(1), &key("k")), Ok(None));
}

#[test]
fn tree_sync_of_a_log_in_memory_succeeds() {
    let mut tree = new_tree();
    assert_eq!(tree.sync(), Ok(()));
}

#[test]
fn commit_to_index_needs_an_ended_attempt() {
    let mut player = blocksy3::batch_player::BatchPlayer::new();
    let mut index = blocksy3::index::Index::new();
    assert_eq!(
        commit_to_index(&player, &mut index, Batch(0), BatchCommit(0), Commit(0)),
        Err(PlayerError::UnknownBatch)
    );
    player.record(&Command::Open { batch: Batch(0) }, Address(0)).unwrap();
    player
        .record(&Command::Write { batch: Batch(0), key: key("k"), value: value("v") }, Address(1))
        .unwrap();
    assert_eq!(
        commit_to_index(&player, &mut index, Batch(0), BatchCommit(0), Commit(0)),
        Err(PlayerError::NotTerminated)
    );
    assert_eq!(index.watermark(), 0);
    player
        .record(&Command::ReadyCommit { batch: Batch(0), batch_commit: BatchCommit(0) }, Address(2))
        .unwrap();
    assert_eq!(
        commit_to_index(&player, &mut index, Batch(0), BatchCommit(0), Commit(5)),
        Ok(())
    );
    assert_eq!(index.watermark(), 6);
    assert_eq!(index.read(Commit(6), &key("k")), Some(Address(1)));
    assert_eq!(index.read(Commit(5), &key("k")), None);
}
