use blocksy3::cmdscript::{exec, parse_commands, ExecError, Line};
use blocksy3::command::Command;
use blocksy3::commit_log::CommitCommand;
use blocksy3::db::Db;
use blocksy3::log::Log;
use blocksy3::mem_log_file::{create, MemLogFile};

fn script_db() -> Db<MemLogFile<Command>, MemLogFile<CommitCommand>> {
    let names = vec!["t1".to_string(), "t2".to_string()];
    let logs = vec![Log::new(create::<Command>()), Log::new(create::<Command>())];
    let mut db = Db::new(names, logs, Log::new(create::<CommitCommand>())).unwrap();
    db.init().unwrap();
    db
}

fn run_lines(script: &str) -> Result<Vec<Line>, String> {
    let tokens: Vec<String> = script.split(&[' ', '\n'][..]).map(String::from).collect();
    let (path, commands) = parse_commands(tokens).map_err(|e| format!("{:?}", e))?;
    assert_eq!(path, None);
    let mut db = script_db();
    exec(&mut db, &commands).map_err(|e| format!("{:?}", e))
}

fn run(script: &str) -> Result<(), String> {
    run_lines(script).map(|_| ())
}

fn line(key: &str, value: Option<&str>) -> Line {
    Line { key: key.as_bytes().to_vec(), value: value.map(|v| v.as_bytes().to_vec()) }
}

#[test]
#[should_panic]
fn read_assert_some_panic_1() {
    run("

mem
write t1 k1 v1
read-assert t1 k1 v0

").unwrap()
}

#[test]
#[should_panic]
fn read_assert_some_panic_2() {
    run("

mem
read-assert t1 k1 v0

").unwrap()
}

#[test]
#[should_panic]
fn read_assert_none_panic() {
    run("

mem
write t1 k1 v1
read-assert t1 k1 <none>

").unwrap()
}

#[test]
fn delete_range_same_batch_as_write_1() -> Result<(), String> {
    run("

mem
batch-open b1
batch-write b1 t1 k1 v1
batch-delete-range b1 t1 k1 k2
batch-commit b1
batch-close b1
read-assert t1 k1 <none>

")
}

#[test]
fn delete_range_same_batch_as_write_2() -> Result<(), String> {
    run("

mem
batch-open b1
batch-write b1 t1 k1 v1
batch-delete-range b1 t1 k1 k2
batch-write b1 t1 k1 v1
batch-commit b1
batch-close b1
read-assert t1 k1 v1

")
}

#[test]
fn script_write_is_read() {
    assert_eq!(
        run_lines("mem write t1 k1 v1 read-assert t1 k1 v1 read t1 k1 read t2 k1"),
        Ok(vec![line("k1", Some("v1")), line("k1", Some("v1")), line("k1", None)])
    );
}

#[test]
fn script_read_assert_says_what_it_found() {
    let tokens: Vec<String> =
        "mem write t1 k1 v1 read-assert t1 k1 v0".split(' ').map(String::from).collect();
    let (_, commands) = parse_commands(tokens).unwrap();
    let mut db = script_db();
    assert_eq!(
        exec(&mut db, &commands),
        Err(ExecError::AssertFailed {
            key: "k1".to_string(),
            expected: Some("v0".to_string()),
            found: Some(b"v1".to_vec()),
        })
    );
}

#[test]
fn script_snapshot_isolation() {
    assert_eq!(
        run_lines(
            "mem write t1 k1 v1 view-open v batch-open b batch-write b t1 k1 v2 batch-commit b \
             batch-close b view-read v t1 k1 read t1 k1 view-close v"
        ),
        Ok(vec![line("k1", Some("v1")), line("k1", Some("v2"))])
    );
}

#[test]
fn script_save_point_rollback() {
    assert_eq!(
        run_lines(
            "mem batch-open b batch-write b t1 k v0 batch-push-save-point b batch-write b t1 k v1 \
             batch-rollback-save-point b batch-commit b batch-close b read-assert t1 k v0"
        ),
        Ok(vec![line("k", Some("v0"))])
    );
}

#[test]
fn script_save_point_pop_keeps_what_was_written() {
    assert_eq!(
        run_lines(
            "mem batch-open b batch-write b t1 k v0 batch-push-save-point b batch-write b t1 k v1 \
             batch-pop-save-point b batch-commit b batch-close b read-assert t1 k v1"
        ),
        Ok(vec![line("k", Some("v1"))])
    );
}

#[test]
fn script_iterate_lists_keys_in_order() {
    assert_eq!(
        run_lines(
            "mem write t1 b 2 write t1 a 1 write t1 c 3 delete t1 b write t2 z 9 iterate t1 / \
             view-open v view-iterate v t2"
        ),
        Ok(vec![line("a", Some("1")), line("c", Some("3")), line("z", Some("9"))])
    );
}

#[test]
fn script_delete_range_excludes_its_end() {
    assert_eq!(
        run_lines("mem write t1 a 1 write t1 b 2 write t1 c 3 delete-range t1 a c iterate t1"),
        Ok(vec![line("c", Some("3"))])
    );
}

#[test]
fn script_abort_shows_nothing() {
    assert_eq!(
        run_lines("mem batch-open b batch-write b t1 k v batch-abort b batch-close b read t1 k"),
        Ok(vec![line("k", None)])
    );
}

#[test]
fn script_unknown_names_are_errors() {
    assert_eq!(
        run("mem batch-write b t1 k v"),
        Err(format!("{:?}", ExecError::UnknownBatch { name: "b".to_string() }))
    );
    assert_eq!(
        run("mem view-read v t1 k"),
        Err(format!("{:?}", ExecError::UnknownView { name: "v".to_string() }))
    );
    assert_eq!(run("mem delete-range t1 b a"), Err(format!("{:?}", ExecError::InvalidRange)));
    assert!(run("mem write t3 k v").is_err());
}

#[test]
fn script_delete_and_delete_range_leave_nothing_to_read() {
    assert_eq!(
        run_lines(
            "mem write t1 a 1 write t1 b 2 write t1 c 3 delete t1 a read-assert t1 a <none> \
             delete-range t1 b c read-assert t1 b <none> read-assert t1 c 3"
        ),
        Ok(vec![line("a", None), line("b", None), line("c", Some("3"))])
    );
}

#[test]
fn script_refuses_a_range_and_a_tree_before_it_logs() {
    let tokens: Vec<String> =
        "mem delete-range t1 b a".split(' ').map(String::from).collect();
    let (_, commands) = parse_commands(tokens).unwrap();
    let mut db = script_db();
    assert_eq!(exec(&mut db, &commands), Err(ExecError::InvalidRange));
    let tokens: Vec<String> = "mem delete t9 a".split(' ').map(String::from).collect();
    let (_, commands) = parse_commands(tokens).unwrap();
    assert_eq!(
        exec(&mut db, &commands),
        Err(ExecError::Db(blocksy3::db::DbError::UnknownTree))
    );
    let (logs, _) = db.into_logs();
    for mut log in logs {
        assert_eq!(log.is_empty(), Ok(true));
        log.append(&Command::Open { batch: blocksy3::types::Batch(0) }).unwrap();
    }
}

#[test]
fn script_with_no_command_shows_nothing() {
    assert_eq!(run_lines("mem"), Ok(vec![]));
}

#[test]
fn script_batch_verbs_name_the_batch_that_is_not_open() {
    let unknown = Err(format!("{:?}", ExecError::UnknownBatch { name: "b".to_string() }));
    for verb in [
        "batch-delete b t1 k",
        "batch-delete-range b t1 a c",
        "batch-delete-range b t1 c a",
        "batch-push-save-point b",
        "batch-pop-save-point b",
        "batch-rollback-save-point b",
        "batch-commit b",
        "batch-abort b",
        "batch-close b",
    ] {
        assert_eq!(run(&format!("mem batch-open a {}", verb)), unknown);
    }
    assert_eq!(run("mem batch-open b batch-close b batch-commit b"), unknown);
    assert_eq!(
        run("mem view-open w view-iterate v t1"),
        Err(format!("{:?}", ExecError::UnknownView { name: "v".to_string() }))
    );
    assert_eq!(
        run("mem view-open v view-close v view-read v t1 k"),
        Err(format!("{:?}", ExecError::UnknownView { name: "v".to_string() }))
    );
    assert_eq!(run("mem view-close v"), Ok(()));
}

#[test]
fn script_batch_refuses_a_range_that_ends_before_it_starts() {
    assert_eq!(
        run("mem batch-open b batch-delete-range b t1 c a"),
        Err(format!("{:?}", ExecError::InvalidRange))
    );
    assert_eq!(
        run_lines("mem write t1 k v batch-open b batch-delete-range b t1 k k batch-commit b read t1 k"),
        Ok(vec![line("k", Some("v"))])
    );
}

#[test]
fn script_write_leaves_other_keys_and_trees_alone() {
    assert_eq!(
        run_lines(
            "mem write t1 a 1 write t2 a 2 write t1 b 3 delete t2 b delete-range t1 b c \
             read t1 a read t2 a read t1 b read t2 b"
        ),
        Ok(vec![line("a", Some("1")), line("a", Some("2")), line("b", None), line("b", None)])
    );
}

#[test]
fn script_empty_range_deletes_nothing() {
    assert_eq!(
        run_lines("mem write t1 k v delete-range t1 k k read-assert t1 k v iterate t1"),
        Ok(vec![line("k", Some("v")), line("k", Some("v"))])
    );
}

#[test]
fn script_view_reads_at_the_limit_it_was_opened_with() {
    assert_eq!(
        run_lines(
            "mem write t1 k 1 view-open v write t1 k 2 write t1 l 3 view-read v t1 k \
             view-iterate v t1 view-open v view-read v t1 k view-iterate v t1"
        ),
        Ok(vec![
            line("k", Some("1")),
            line("k", Some("1")),
            line("k", Some("2")),
            line("k", Some("2")),
            line("l", Some("3")),
        ])
    );
}

#[test]
fn script_batch_opened_again_under_its_name_is_a_new_batch() {
    assert_eq!(
        run_lines(
            "mem batch-open b batch-write b t1 k 1 batch-open b batch-write b t1 l 2 \
             batch-commit b batch-close b read t1 k read t1 l"
        ),
        Ok(vec![line("k", None), line("l", Some("2"))])
    );
}

#[test]
fn script_save_point_commands_without_a_save_point_fail() {
    let refused = Err(format!(
        "{:?}",
        ExecError::Db(blocksy3::db::DbError::Tree {
            tree: 0,
            error: blocksy3::tree::TreeError::Player(
                blocksy3::batch_player::PlayerError::NoSavePoint
            ),
        })
    ));
    assert_eq!(run("mem batch-open b batch-pop-save-point b"), refused);
    assert_eq!(run("mem batch-open b batch-rollback-save-point b"), refused);
    assert_eq!(
        run_lines(
            "mem batch-open b batch-push-save-point b batch-write b t1 k 1 \
             batch-pop-save-point b batch-commit b read t1 k"
        ),
        Ok(vec![line("k", Some("1"))])
    );
}

#[test]
fn script_commits_a_batch_once() {
    let ended = Err(format!("{:?}", ExecError::Db(blocksy3::db::DbError::BatchEnded)));
    assert_eq!(run("mem batch-open b batch-write b t1 k v batch-commit b batch-commit b"), ended);
    assert_eq!(run("mem batch-open b batch-write b t1 k v batch-abort b batch-commit b"), ended);
    assert_eq!(
        run_lines(
            "mem batch-open b batch-write b t1 k v batch-abort b batch-close b \
             batch-open b batch-write b t1 k w batch-commit b batch-close b read t1 k"
        ),
        Ok(vec![line("k", Some("w"))])
    );
}
