use blocksy3::batch_player::{BatchPlayer, IndexOp, PlayerError};
use blocksy3::command::Command;
use blocksy3::types::{Address, Batch, BatchCommit, Key, Value};

const B: Batch = Batch(7);

fn key(text: &str) -> Key {
    Key::from_slice(text.as_bytes())
}

fn write(k: &str) -> Command {
    Command::Write { batch: B, key: key(k), value: Value::from_slice(b"v") }
}

fn wrote(k: &str, address: u64) -> IndexOp {
    IndexOp::Write { key: key(k), address: Address(address) }
}

fn player_with(commands: Vec<Command>) -> BatchPlayer {
    let mut player = BatchPlayer::new();
    player.record(&Command::Open { batch: B }, Address(0)).unwrap();
    let mut address = 1;
    for cmd in commands {
        player.record(&cmd, Address(address)).unwrap();
        address += 1;
    }
    player
}

#[test]
fn player_open_and_close() {
    let mut player = BatchPlayer::new();
    assert!(!player.contains(B));
    assert_eq!(player.record(&Command::Open { batch: B }, Address(0)), Ok(()));
    assert!(player.contains(B));
    assert_eq!(
        player.record(&Command::Open { batch: B }, Address(1)),
        Err(PlayerError::BatchExists)
    );
    assert_eq!(player.record(&Command::Close { batch: B }, Address(1)), Ok(()));
    assert!(!player.contains(B));
    assert_eq!(
        player.record(&Command::Close { batch: B }, Address(2)),
        Err(PlayerError::UnknownBatch)
    );
    assert_eq!(player.record(&write("k"), Address(2)), Err(PlayerError::UnknownBatch));
    assert_eq!(player.check(&write("k")), Some(PlayerError::UnknownBatch));
    assert_eq!(player.check(&Command::Open { batch: B }), None);
}

#[test]
fn player_replays_up_to_the_ready_commit() {
    let player = player_with(vec![
        write("a"),
        Command::Delete { batch: B, key: key("b") },
        Command::DeleteRange { batch: B, start_key: key("c"), end_key: key("d") },
        Command::ReadyCommit { batch: B, batch_commit: BatchCommit(3) },
        write("e"),
        Command::ReadyCommit { batch: B, batch_commit: BatchCommit(4) },
    ]);
    let first = vec![
        wrote("a", 1),
        IndexOp::Delete { key: key("b"), address: Address(2) },
        IndexOp::DeleteRange { start_key: key("c"), end_key: key("d"), address: Address(3) },
    ];
    assert_eq!(player.replay(B, BatchCommit(3)), Ok(first.clone()));
    let mut second = first;
    second.push(wrote("e", 5));
    assert_eq!(player.replay(B, BatchCommit(4)), Ok(second));
}

#[test]
fn player_replay_of_an_aborted_attempt_is_empty() {
    let player = player_with(vec![
        write("a"),
        Command::AbortCommit { batch: B, batch_commit: BatchCommit(1) },
        Command::ReadyCommit { batch: B, batch_commit: BatchCommit(2) },
    ]);
    assert_eq!(player.replay(B, BatchCommit(1)), Ok(vec![]));
    assert_eq!(player.replay(B, BatchCommit(2)), Ok(vec![wrote("a", 1)]));
}

#[test]
fn player_replay_without_an_end_is_an_error() {
    let player = player_with(vec![write("a")]);
    assert_eq!(player.replay(B, BatchCommit(0)), Err(PlayerError::NotTerminated));
    assert_eq!(player.replay(Batch(8), BatchCommit(0)), Err(PlayerError::UnknownBatch));
}

#[test]
fn player_rollback_cuts_back_to_the_save_point() {
    let player = player_with(vec![
        write("a"),
        Command::PushSavePoint { batch: B },
        write("b"),
        Command::PushSavePoint { batch: B },
        write("c"),
        Command::RollbackSavePoint { batch: B },
        write("d"),
        Command::ReadyCommit { batch: B, batch_commit: BatchCommit(0) },
        Command::RollbackSavePoint { batch: B },
        Command::ReadyCommit { batch: B, batch_commit: BatchCommit(1) },
    ]);
    assert_eq!(
        player.replay(B, BatchCommit(0)),
        Ok(vec![wrote("a", 1), wrote("b", 3), wrote("d", 7)])
    );
    assert_eq!(player.replay(B, BatchCommit(1)), Ok(vec![wrote("a", 1)]));
}

#[test]
fn player_pop_drops_the_save_point_only() {
    let mut player = player_with(vec![
        write("a"),
        Command::PushSavePoint { batch: B },
        write("b"),
        Command::PopSavePoint { batch: B },
        Command::ReadyCommit { batch: B, batch_commit: BatchCommit(0) },
    ]);
    assert_eq!(player.replay(B, BatchCommit(0)), Ok(vec![wrote("a", 1), wrote("b", 3)]));
    assert_eq!(
        player.record(&Command::RollbackSavePoint { batch: B }, Address(9)),
        Err(PlayerError::NoSavePoint)
    );
}

#[test]
fn player_pop_and_rollback_need_a_save_point() {
    let mut player = player_with(vec![write("a")]);
    assert_eq!(
        player.check(&Command::PopSavePoint { batch: B }),
        Some(PlayerError::NoSavePoint)
    );
    assert_eq!(
        player.record(&Command::PopSavePoint { batch: B }, Address(5)),
        Err(PlayerError::NoSavePoint)
    );
    assert_eq!(
        player.record(&Command::RollbackSavePoint { batch: B }, Address(5)),
        Err(PlayerError::NoSavePoint)
    );
    player.record(&Command::ReadyCommit { batch: B, batch_commit: BatchCommit(0) }, Address(5)).unwrap();
    assert_eq!(player.replay(B, BatchCommit(0)), Ok(vec![wrote("a", 1)]));
}

#[test]
fn player_emergency_close_drops_the_recording() {
    let mut player = player_with(vec![write("a")]);
    player.emergency_close(B);
    assert!(!player.contains(B));
    player.emergency_close(B);
    assert!(!player.contains(B));
}

#[test]
fn player_keeps_batches_apart() {
    let mut player = player_with(vec![write("a")]);
    let other = Batch(9);
    player.record(&Command::Open { batch: other }, Address(10)).unwrap();
    player
        .record(
            &Command::Write { batch: other, key: key("z"), value: Value::from_slice(b"") },
            Address(11),
        )
        .unwrap();
    player.record(&Command::ReadyCommit { batch: other, batch_commit: BatchCommit(0) }, Address(12)).unwrap();
    player.record(&Command::ReadyCommit { batch: B, batch_commit: BatchCommit(1) }, Address(13)).unwrap();
    assert_eq!(player.replay(other, BatchCommit(0)), Ok(vec![wrote("z", 11)]));
    assert_eq!(player.replay(B, BatchCommit(1)), Ok(vec![wrote("a", 1)]));
    assert_eq!(player.replay(B, BatchCommit(0)), Err(PlayerError::NotTerminated));
}

#[test]
fn command_batch_names_the_batch() {
    assert_eq!(Command::Open { batch: B }.batch(), B);
    assert_eq!(write("k").batch(), B);
    assert_eq!(Command::Delete { batch: Batch(1), key: key("k") }.batch(), Batch(1));
    assert_eq!(
        Command::DeleteRange { batch: Batch(2), start_key: key("a"), end_key: key("b") }.batch(),
        Batch(2)
    );
    assert_eq!(Command::PushSavePoint { batch: Batch(3) }.batch(), Batch(3));
    assert_eq!(Command::PopSavePoint { batch: Batch(4) }.batch(), Batch(4));
    assert_eq!(Command::RollbackSavePoint { batch: Batch(5) }.batch(), Batch(5));
    assert_eq!(
        Command::ReadyCommit { batch: Batch(6), batch_commit: BatchCommit(0) }.batch(),
        Batch(6)
    );
    assert_eq!(
        Command::AbortCommit { batch: Batch(8), batch_commit: BatchCommit(0) }.batch(),
        Batch(8)
    );
    assert_eq!(Command::Close { batch: Batch(9) }.batch(), Batch(9));
}

#[test]
fn record_refuses_a_range_that_ends_before_it_starts() {
    let mut player = BatchPlayer::new();
    player.record(&Command::Open { batch: Batch(0) }, Address(0)).unwrap();
    let inverted = Command::DeleteRange {
        batch: Batch(0),
        start_key: Key(b"b".to_vec()),
        end_key: Key(b"a".to_vec()),
    };
    assert_eq!(player.check(&inverted), Some(PlayerError::InvalidRange));
    assert_eq!(player.record(&inverted, Address(1)), Err(PlayerError::InvalidRange));
    let empty = Command::DeleteRange {
        batch: Batch(0),
        start_key: Key(b"a".to_vec()),
        end_key: Key(b"a".to_vec()),
    };
    assert_eq!(player.record(&empty, Address(1)), Ok(()));
    assert!(!player.ended(Batch(0)));
    player
        .record(&Command::ReadyCommit { batch: Batch(0), batch_commit: BatchCommit(0) }, Address(2))
        .unwrap();
    assert!(player.ended(Batch(0)));
    assert!(!player.ended(Batch(1)));
    assert_eq!(player.replay(Batch(0), BatchCommit(0)).map(|ops| ops.len()), Ok(1));
}
