use blocksy3::cmdscript::{parse_commands, Command, ParseError};

fn words(script: &str) -> Vec<String> {
    script.split(' ').map(String::from).collect()
}

fn s(text: &str) -> String {
    text.to_string()
}

#[test]
fn parse_mem_and_path() {
    assert_eq!(parse_commands(words("mem")), Ok((None, vec![])));
    assert_eq!(parse_commands(words("path /tmp/db")), Ok((Some(s("/tmp/db")), vec![])));
    assert_eq!(parse_commands(words("  mem  ")), Ok((None, vec![])));
}

#[test]
fn parse_needs_path_or_mem() {
    assert_eq!(parse_commands(vec![]), Err(ParseError::ExpectedPathOrMem));
    assert_eq!(parse_commands(words("")), Err(ParseError::ExpectedPathOrMem));
    assert_eq!(parse_commands(words("path")), Err(ParseError::ExpectedPathOrMem));
    assert_eq!(parse_commands(words("disk x")), Err(ParseError::ExpectedPathOrMem));
}

#[test]
fn parse_every_verb() {
    let script = "mem write t k v / delete t k / delete-range t a b / read t k / \
                  read-assert t k v / read-assert t k <none> / iterate t / batch-open b / \
                  batch-write b t k v / batch-delete b t k / batch-delete-range b t a z / \
                  batch-push-save-point b / batch-pop-save-point b / \
                  batch-rollback-save-point b / batch-commit b / batch-abort b / batch-close b / \
                  view-open w / view-read w t k / view-iterate w t / view-close w";
    let expected = vec![
        Command::Write { tree: s("t"), key: s("k"), value: s("v") },
        Command::Delete { tree: s("t"), key: s("k") },
        Command::DeleteRange { tree: s("t"), start: s("a"), end: s("b") },
        Command::Read { tree: s("t"), key: s("k") },
        Command::ReadAssert { tree: s("t"), key: s("k"), expected_value: Some(s("v")) },
        Command::ReadAssert { tree: s("t"), key: s("k"), expected_value: None },
        Command::Iterate { tree: s("t") },
        Command::BatchOpen { batch: s("b") },
        Command::BatchWrite { batch: s("b"), tree: s("t"), key: s("k"), value: s("v") },
        Command::BatchDelete { batch: s("b"), tree: s("t"), key: s("k") },
        Command::BatchDeleteRange { batch: s("b"), tree: s("t"), start: s("a"), end: s("z") },
        Command::BatchPushSavePoint { batch: s("b") },
        Command::BatchPopSavePoint { batch: s("b") },
        Command::BatchRollbackSavePoint { batch: s("b") },
        Command::BatchCommit { batch: s("b") },
        Command::BatchAbort { batch: s("b") },
        Command::BatchClose { batch: s("b") },
        Command::ViewOpen { view: s("w") },
        Command::ViewRead { view: s("w"), tree: s("t"), key: s("k") },
        Command::ViewIterate { view: s("w"), tree: s("t") },
        Command::ViewClose { view: s("w") },
    ];
    assert_eq!(parse_commands(words(script)), Ok((None, expected)));
}

#[test]
fn parse_separator_counts_for_nothing() {
    assert_eq!(
        parse_commands(words("mem / / iterate t / /")),
        Ok((None, vec![Command::Iterate { tree: s("t") }]))
    );
}

#[test]
fn parse_operand_may_look_like_a_verb() {
    assert_eq!(
        parse_commands(words("mem write write / read")),
        Ok((None, vec![Command::Write { tree: s("write"), key: s("/"), value: s("read") }]))
    );
}

#[test]
fn parse_unknown_command() {
    assert_eq!(
        parse_commands(words("mem write t k v frobnicate t")),
        Err(ParseError::UnknownCommand { name: s("frobnicate") })
    );
}

#[test]
fn parse_missing_operands() {
    assert_eq!(parse_commands(words("mem write")), Err(ParseError::ExpectedTreeName));
    assert_eq!(parse_commands(words("mem write t")), Err(ParseError::ExpectedKeyName));
    assert_eq!(parse_commands(words("mem write t k")), Err(ParseError::ExpectedKeyValue));
    assert_eq!(parse_commands(words("mem delete-range t a")), Err(ParseError::ExpectedKeyName));
    assert_eq!(parse_commands(words("mem read-assert t k")), Err(ParseError::ExpectedKeyValue));
    assert_eq!(parse_commands(words("mem batch-open")), Err(ParseError::ExpectedBatchName));
    assert_eq!(parse_commands(words("mem batch-write b")), Err(ParseError::ExpectedTreeName));
    assert_eq!(parse_commands(words("mem view-open")), Err(ParseError::ExpectedViewName));
    assert_eq!(parse_commands(words("mem view-read v")), Err(ParseError::ExpectedTreeName));
    assert_eq!(parse_commands(words("mem view-read v t")), Err(ParseError::ExpectedKeyName));
}

#[test]
fn parse_stops_at_the_first_error() {
    assert_eq!(
        parse_commands(words("mem nonsense write")),
        Err(ParseError::UnknownCommand { name: s("nonsense") })
    );
}
