//! A small line-oriented script language that drives a database: one verb
//! per command, followed by its operands.

use vstd::prelude::*;
use vstd::slice::slice_to_vec;

use crate::batch_player::{IndexOpView, Step, legal, lemma_terminator, played, terminator_from};
use crate::command::{Command as LogCommand, CommandView as LogCommandView};
use crate::commit_log::CommitCommand;
use crate::db::{
    Db,
    DbError,
    DbView,
    ReadView,
    WriteBatch,
    lemma_committed_delete_hides,
    lemma_committed_delete_range_hides,
    lemma_committed_keeps_untouched,
    lemma_committed_write_is_read,
    abort_done,
    batch_opened,
    close_done,
    commit_done,
    lemma_same_views_twice,
    logs_in_all,
    logs_in_tree,
    same_views,
    tree_closed,
    tree_committed,
    was_listed,
    was_read,
};
use crate::log_file::{LogFile, lemma_push_record};
use crate::recovery::recoverable;
use crate::tree::{is_listing, pairs_view, stored_value, touches, tree_keeps};
use crate::types::{
    Batch,
    BatchCommit,
    Commit,
    Key,
    KeyOrder,
    Value,
    in_range,
    key_lt,
    order_bytes,
};

verus! {

/// One command of a script.
#[derive(Clone, Debug, PartialEq, Eq)]
pub enum Command {
    Write { tree: String, key: String, value: String },
    Delete { tree: String, key: String },
    DeleteRange { tree: String, start: String, end: String },
    Read { tree: String, key: String },
    ReadAssert { tree: String, key: String, expected_value: Option<String> },
    Iterate { tree: String },
    BatchOpen { batch: String },
    BatchWrite { batch: String, tree: String, key: String, value: String },
    BatchDelete { batch: String, tree: String, key: String },
    BatchDeleteRange { batch: String, tree: String, start: String, end: String },
    BatchPushSavePoint { batch: String },
    BatchPopSavePoint { batch: String },
    BatchRollbackSavePoint { batch: String },
    BatchCommit { batch: String },
    BatchAbort { batch: String },
    BatchClose { batch: String },
    ViewOpen { view: String },
    ViewRead { view: String, tree: String, key: String },
    ViewIterate { view: String, tree: String },
    ViewClose { view: String },
}

/// Why a script could not be parsed.
#[derive(Clone, Debug, PartialEq, Eq)]
pub enum ParseError {
    ExpectedPathOrMem,
    ExpectedBatchName,
    ExpectedViewName,
    ExpectedTreeName,
    ExpectedKeyName,
    ExpectedKeyValue,
    UnknownCommand { name: String },
}

/// The verb that a command starts with.
#[derive(Clone, Copy, Debug, PartialEq, Eq, Structural)]
pub enum Verb {
    Write,
    Delete,
    DeleteRange,
    Read,
    ReadAssert,
    Iterate,
    BatchOpen,
    BatchWrite,
    BatchDelete,
    BatchDeleteRange,
    BatchPushSavePoint,
    BatchPopSavePoint,
    BatchRollbackSavePoint,
    BatchCommit,
    BatchAbort,
    BatchClose,
    ViewOpen,
    ViewRead,
    ViewIterate,
    ViewClose,
}

/// What an operand of a command names.
#[derive(Clone, Copy, Debug, PartialEq, Eq, Structural)]
pub enum Operand {
    Batch,
    View,
    Tree,
    Key,
    Value,
}

/// A command as a verb and the words that follow it. For `read-assert` the
/// operands are the tree and the key; the value it expects stands apart.
pub struct CommandView {
    pub verb: Verb,
    pub operands: Seq<Seq<char>>,
    pub expected_value: Option<Seq<char>>,
}

pub enum ParseErrorView {
    ExpectedPathOrMem,
    ExpectedBatchName,
    ExpectedViewName,
    ExpectedTreeName,
    ExpectedKeyName,
    ExpectedKeyValue,
    UnknownCommand { name: Seq<char> },
}

impl View for ParseError {
    type V = ParseErrorView;

    open spec fn view(&self) -> ParseErrorView {
        match *self {
            ParseError::ExpectedPathOrMem => ParseErrorView::ExpectedPathOrMem,
            ParseError::ExpectedBatchName => ParseErrorView::ExpectedBatchName,
            ParseError::ExpectedViewName => ParseErrorView::ExpectedViewName,
            ParseError::ExpectedTreeName => ParseErrorView::ExpectedTreeName,
            ParseError::ExpectedKeyName => ParseErrorView::ExpectedKeyName,
            ParseError::ExpectedKeyValue => ParseErrorView::ExpectedKeyValue,
            ParseError::UnknownCommand { name } => ParseErrorView::UnknownCommand { name: name@ },
        }
    }
}

pub open spec fn plain(verb: Verb, operands: Seq<Seq<char>>) -> CommandView {
    CommandView { verb, operands, expected_value: None }
}

impl View for Command {
    type V = CommandView;

    open spec fn view(&self) -> CommandView {
        match *self {
            Command::Write { tree, key, value } => plain(Verb::Write, seq![tree@, key@, value@]),
            Command::Delete { tree, key } => plain(Verb::Delete, seq![tree@, key@]),
            Command::DeleteRange { tree, start, end } => plain(
                Verb::DeleteRange,
                seq![tree@, start@, end@],
            ),
            Command::Read { tree, key } => plain(Verb::Read, seq![tree@, key@]),
            Command::ReadAssert { tree, key, expected_value } => CommandView {
                verb: Verb::ReadAssert,
                operands: seq![tree@, key@],
                expected_value: match expected_value {
                    Some(value) => Some(value@),
                    None => None,
                },
            },
            Command::Iterate { tree } => plain(Verb::Iterate, seq![tree@]),
            Command::BatchOpen { batch } => plain(Verb::BatchOpen, seq![batch@]),
            Command::BatchWrite { batch, tree, key, value } => plain(
                Verb::BatchWrite,
                seq![batch@, tree@, key@, value@],
            ),
            Command::BatchDelete { batch, tree, key } => plain(
                Verb::BatchDelete,
                seq![batch@, tree@, key@],
            ),
            Command::BatchDeleteRange { batch, tree, start, end } => plain(
                Verb::BatchDeleteRange,
                seq![batch@, tree@, start@, end@],
            ),
            Command::BatchPushSavePoint { batch } => plain(Verb::BatchPushSavePoint, seq![batch@]),
            Command::BatchPopSavePoint { batch } => plain(Verb::BatchPopSavePoint, seq![batch@]),
            Command::BatchRollbackSavePoint { batch } => plain(
                Verb::BatchRollbackSavePoint,
                seq![batch@],
            ),
            Command::BatchCommit { batch } => plain(Verb::BatchCommit, seq![batch@]),
            Command::BatchAbort { batch } => plain(Verb::BatchAbort, seq![batch@]),
            Command::BatchClose { batch } => plain(Verb::BatchClose, seq![batch@]),
            Command::ViewOpen { view } => plain(Verb::ViewOpen, seq![view@]),
            Command::ViewRead { view, tree, key } => plain(Verb::ViewRead, seq![view@, tree@, key@]),
            Command::ViewIterate { view, tree } => plain(Verb::ViewIterate, seq![view@, tree@]),
            Command::ViewClose { view } => plain(Verb::ViewClose, seq![view@]),
        }
    }
}

/// The verb that a word spells, if it spells one.
pub open spec fn verb_of(word: Seq<char>) -> Option<Verb> {
    if word == "write"@ {
        Some(Verb::Write)
    } else if word == "delete"@ {
        Some(Verb::Delete)
    } else if word == "delete-range"@ {
        Some(Verb::DeleteRange)
    } else if word == "read"@ {
        Some(Verb::Read)
    } else if word == "read-assert"@ {
        Some(Verb::ReadAssert)
    } else if word == "iterate"@ {
        Some(Verb::Iterate)
    } else if word == "batch-open"@ {
        Some(Verb::BatchOpen)
    } else if word == "batch-write"@ {
        Some(Verb::BatchWrite)
    } else if word == "batch-delete"@ {
        Some(Verb::BatchDelete)
    } else if word == "batch-delete-range"@ {
        Some(Verb::BatchDeleteRange)
    } else if word == "batch-push-save-point"@ {
        Some(Verb::BatchPushSavePoint)
    } else if word == "batch-pop-save-point"@ {
        Some(Verb::BatchPopSavePoint)
    } else if word == "batch-rollback-save-point"@ {
        Some(Verb::BatchRollbackSavePoint)
    } else if word == "batch-commit"@ {
        Some(Verb::BatchCommit)
    } else if word == "batch-abort"@ {
        Some(Verb::BatchAbort)
    } else if word == "batch-close"@ {
        Some(Verb::BatchClose)
    } else if word == "view-open"@ {
        Some(Verb::ViewOpen)
    } else if word == "view-read"@ {
        Some(Verb::ViewRead)
    } else if word == "view-iterate"@ {
        Some(Verb::ViewIterate)
    } else if word == "view-close"@ {
        Some(Verb::ViewClose)
    } else {
        None
    }
}

/// The words that a verb takes, in their order.
pub open spec fn operands_of(verb: Verb) -> Seq<Operand> {
    match verb {
        Verb::Write => seq![Operand::Tree, Operand::Key, Operand::Value],
        Verb::Delete => seq![Operand::Tree, Operand::Key],
        Verb::DeleteRange => seq![Operand::Tree, Operand::Key, Operand::Key],
        Verb::Read => seq![Operand::Tree, Operand::Key],
        Verb::ReadAssert => seq![Operand::Tree, Operand::Key, Operand::Value],
        Verb::Iterate => seq![Operand::Tree],
        Verb::BatchOpen => seq![Operand::Batch],
        Verb::BatchWrite => seq![Operand::Batch, Operand::Tree, Operand::Key, Operand::Value],
        Verb::BatchDelete => seq![Operand::Batch, Operand::Tree, Operand::Key],
        Verb::BatchDeleteRange => seq![Operand::Batch, Operand::Tree, Operand::Key, Operand::Key],
        Verb::BatchPushSavePoint => seq![Operand::Batch],
        Verb::BatchPopSavePoint => seq![Operand::Batch],
        Verb::BatchRollbackSavePoint => seq![Operand::Batch],
        Verb::BatchCommit => seq![Operand::Batch],
        Verb::BatchAbort => seq![Operand::Batch],
        Verb::BatchClose => seq![Operand::Batch],
        Verb::ViewOpen => seq![Operand::View],
        Verb::ViewRead => seq![Operand::View, Operand::Tree, Operand::Key],
        Verb::ViewIterate => seq![Operand::View, Operand::Tree],
        Verb::ViewClose => seq![Operand::View],
    }
}

/// The error for a script that ends where an operand should stand.
pub open spec fn missing(operand: Operand) -> ParseErrorView {
    match operand {
        Operand::Batch => ParseErrorView::ExpectedBatchName,
        Operand::View => ParseErrorView::ExpectedViewName,
        Operand::Tree => ParseErrorView::ExpectedTreeName,
        Operand::Key => ParseErrorView::ExpectedKeyName,
        Operand::Value => ParseErrorView::ExpectedKeyValue,
    }
}

/// The command that a verb and its operands make. The last word of a
/// `read-assert` is the value to expect, or `<none>` for no value.
pub open spec fn command_of(verb: Verb, words: Seq<Seq<char>>) -> CommandView {
    if verb == Verb::ReadAssert {
        CommandView {
            verb,
            operands: words.take(2),
            expected_value: if words[2] == "<none>"@ {
                None
            } else {
                Some(words[2])
            },
        }
    } else {
        plain(verb, words)
    }
}

/// The words of a script: its tokens without the empty ones.
pub open spec fn words_of(tokens: Seq<Seq<char>>) -> Seq<Seq<char>>
    decreases tokens.len(),
{
    if tokens.len() == 0 {
        Seq::empty()
    } else if tokens.last().len() == 0 {
        words_of(tokens.drop_last())
    } else {
        words_of(tokens.drop_last()).push(tokens.last())
    }
}

/// The commands that the words from `i` on spell. A lone `/` parts two
/// commands and says nothing.
pub open spec fn parse_body(words: Seq<Seq<char>>, i: int) -> Result<
    Seq<CommandView>,
    ParseErrorView,
>
    decreases words.len() - i,
{
    if i < 0 || i >= words.len() {
        Ok(Seq::empty())
    } else if words[i] == "/"@ {
        parse_body(words, i + 1)
    } else {
        match verb_of(words[i]) {
            None => Err(ParseErrorView::UnknownCommand { name: words[i] }),
            Some(verb) => {
                let wanted = operands_of(verb);
                let given = words.len() - i - 1;
                if given < wanted.len() {
                    Err(missing(wanted[given]))
                } else {
                    let next = i + 1 + wanted.len();
                    match parse_body(words, next) {
                        Ok(rest) => Ok(
                            seq![command_of(verb, words.subrange(i + 1, next))] + rest,
                        ),
                        Err(e) => Err(e),
                    }
                }
            },
        }
    }
}

/// What a script says: where the database lives (`None` for one in memory)
/// and the commands to run on it. The script starts with `mem`, or with
/// `path` and a directory.
pub open spec fn parse_script(tokens: Seq<Seq<char>>) -> Result<
    (Option<Seq<char>>, Seq<CommandView>),
    ParseErrorView,
> {
    let words = words_of(tokens);
    if words.len() == 0 {
        Err(ParseErrorView::ExpectedPathOrMem)
    } else if words[0] == "path"@ {
        if words.len() < 2 {
            Err(ParseErrorView::ExpectedPathOrMem)
        } else {
            match parse_body(words, 2) {
                Ok(commands) => Ok((Some(words[1]), commands)),
                Err(e) => Err(e),
            }
        }
    } else if words[0] == "mem"@ {
        match parse_body(words, 1) {
            Ok(commands) => Ok((None, commands)),
            Err(e) => Err(e),
        }
    } else {
        Err(ParseErrorView::ExpectedPathOrMem)
    }
}

pub open spec fn strings_view(strings: Seq<String>) -> Seq<Seq<char>> {
    Seq::new(strings.len(), |i: int| strings[i]@)
}

pub open spec fn commands_view(commands: Seq<Command>) -> Seq<CommandView> {
    Seq::new(commands.len(), |i: int| commands[i]@)
}

pub open spec fn path_view(path: Option<String>) -> Option<Seq<char>> {
    match path {
        Some(p) => Some(p@),
        None => None,
    }
}

fn is_word(word: &String, literal: &str) -> (b: bool)
    ensures
        b == (word@ == literal@),
{
    let other = literal.to_owned();
    *word == other
}

fn verb_of_word(word: &String) -> (verb: Option<Verb>)
    ensures
        verb == verb_of(word@),
{
    if is_word(word, "write") {
        Some(Verb::Write)
    } else if is_word(word, "delete") {
        Some(Verb::Delete)
    } else if is_word(word, "delete-range") {
        Some(Verb::DeleteRange)
    } else if is_word(word, "read") {
        Some(Verb::Read)
    } else if is_word(word, "read-assert") {
        Some(Verb::ReadAssert)
    } else if is_word(word, "iterate") {
        Some(Verb::Iterate)
    } else if is_word(word, "batch-open") {
        Some(Verb::BatchOpen)
    } else if is_word(word, "batch-write") {
        Some(Verb::BatchWrite)
    } else if is_word(word, "batch-delete") {
        Some(Verb::BatchDelete)
    } else if is_word(word, "batch-delete-range") {
        Some(Verb::BatchDeleteRange)
    } else if is_word(word, "batch-push-save-point") {
        Some(Verb::BatchPushSavePoint)
    } else if is_word(word, "batch-pop-save-point") {
        Some(Verb::BatchPopSavePoint)
    } else if is_word(word, "batch-rollback-save-point") {
        Some(Verb::BatchRollbackSavePoint)
    } else if is_word(word, "batch-commit") {
        Some(Verb::BatchCommit)
    } else if is_word(word, "batch-abort") {
        Some(Verb::BatchAbort)
    } else if is_word(word, "batch-close") {
        Some(Verb::BatchClose)
    } else if is_word(word, "view-open") {
        Some(Verb::ViewOpen)
    } else if is_word(word, "view-read") {
        Some(Verb::ViewRead)
    } else if is_word(word, "view-iterate") {
        Some(Verb::ViewIterate)
    } else if is_word(word, "view-close") {
        Some(Verb::ViewClose)
    } else {
        None
    }
}

fn operand_list(verb: Verb) -> (operands: Vec<Operand>)
    ensures
        operands@ == operands_of(verb),
        operands@.len() <= 4,
        verb == Verb::ReadAssert ==> operands@.len() == 3,
{
    let operands = match verb {
        Verb::Write => vec![Operand::Tree, Operand::Key, Operand::Value],
        Verb::Delete => vec![Operand::Tree, Operand::Key],
        Verb::DeleteRange => vec![Operand::Tree, Operand::Key, Operand::Key],
        Verb::Read => vec![Operand::Tree, Operand::Key],
        Verb::ReadAssert => vec![Operand::Tree, Operand::Key, Operand::Value],
        Verb::Iterate => vec![Operand::Tree],
        Verb::BatchOpen => vec![Operand::Batch],
        Verb::BatchWrite => vec![Operand::Batch, Operand::Tree, Operand::Key, Operand::Value],
        Verb::BatchDelete => vec![Operand::Batch, Operand::Tree, Operand::Key],
        Verb::BatchDeleteRange => vec![Operand::Batch, Operand::Tree, Operand::Key, Operand::Key],
        Verb::BatchPushSavePoint => vec![Operand::Batch],
        Verb::BatchPopSavePoint => vec![Operand::Batch],
        Verb::BatchRollbackSavePoint => vec![Operand::Batch],
        Verb::BatchCommit => vec![Operand::Batch],
        Verb::BatchAbort => vec![Operand::Batch],
        Verb::BatchClose => vec![Operand::Batch],
        Verb::ViewOpen => vec![Operand::View],
        Verb::ViewRead => vec![Operand::View, Operand::Tree, Operand::Key],
        Verb::ViewIterate => vec![Operand::View, Operand::Tree],
        Verb::ViewClose => vec![Operand::View],
    };
    assert(operands@ =~= operands_of(verb));
    operands
}

fn missing_operand(operand: Operand) -> (error: ParseError)
    ensures
        error@ == missing(operand),
{
    match operand {
        Operand::Batch => ParseError::ExpectedBatchName,
        Operand::View => ParseError::ExpectedViewName,
        Operand::Tree => ParseError::ExpectedTreeName,
        Operand::Key => ParseError::ExpectedKeyName,
        Operand::Value => ParseError::ExpectedKeyValue,
    }
}

/// How many operands a verb takes.
proof fn lemma_operand_count(verb: Verb)
    ensures
        operands_of(verb).len() == match verb {
            Verb::Iterate
            | Verb::BatchOpen
            | Verb::BatchPushSavePoint
            | Verb::BatchPopSavePoint
            | Verb::BatchRollbackSavePoint
            | Verb::BatchCommit
            | Verb::BatchAbort
            | Verb::BatchClose
            | Verb::ViewOpen
            | Verb::ViewClose => 1nat,
            Verb::Delete | Verb::Read | Verb::ViewIterate => 2nat,
            Verb::Write
            | Verb::DeleteRange
            | Verb::ReadAssert
            | Verb::BatchDelete
            | Verb::ViewRead => 3nat,
            Verb::BatchWrite | Verb::BatchDeleteRange => 4nat,
        },
{
}

/// Builds the command of `verb` from the words that follow it, the first
/// of which stands at `at`.
fn make_command(verb: Verb, words: &Vec<String>, at: usize) -> (command: Command)
    requires
        at + operands_of(verb).len() <= words@.len(),
    ensures
        command@ == command_of(
            verb,
            strings_view(words@).subrange(at as int, at + operands_of(verb).len()),
        ),
{
    let ghost given = strings_view(words@).subrange(at as int, at + operands_of(verb).len());
    proof {
        lemma_operand_count(verb);
    }
    assert(words@.len() == words.len());
    let command = match verb {
        Verb::Write => Command::Write {
            tree: words[at].clone(),
            key: words[at + 1].clone(),
            value: words[at + 2].clone(),
        },
        Verb::Delete => Command::Delete { tree: words[at].clone(), key: words[at + 1].clone() },
        Verb::DeleteRange => Command::DeleteRange {
            tree: words[at].clone(),
            start: words[at + 1].clone(),
            end: words[at + 2].clone(),
        },
        Verb::Read => Command::Read { tree: words[at].clone(), key: words[at + 1].clone() },
        Verb::ReadAssert => {
            let expected_value = if is_word(&words[at + 2], "<none>") {
                None
            } else {
                Some(words[at + 2].clone())
            };
            Command::ReadAssert {
                tree: words[at].clone(),
                key: words[at + 1].clone(),
                expected_value,
            }
        },
        Verb::Iterate => Command::Iterate { tree: words[at].clone() },
        Verb::BatchOpen => Command::BatchOpen { batch: words[at].clone() },
        Verb::BatchWrite => Command::BatchWrite {
            batch: words[at].clone(),
            tree: words[at + 1].clone(),
            key: words[at + 2].clone(),
            value: words[at + 3].clone(),
        },
        Verb::BatchDelete => Command::BatchDelete {
            batch: words[at].clone(),
            tree: words[at + 1].clone(),
            key: words[at + 2].clone(),
        },
        Verb::BatchDeleteRange => Command::BatchDeleteRange {
            batch: words[at].clone(),
            tree: words[at + 1].clone(),
            start: words[at + 2].clone(),
            end: words[at + 3].clone(),
        },
        Verb::BatchPushSavePoint => Command::BatchPushSavePoint { batch: words[at].clone() },
        Verb::BatchPopSavePoint => Command::BatchPopSavePoint { batch: words[at].clone() },
        Verb::BatchRollbackSavePoint => Command::BatchRollbackSavePoint {
            batch: words[at].clone(),
        },
        Verb::BatchCommit => Command::BatchCommit { batch: words[at].clone() },
        Verb::BatchAbort => Command::BatchAbort { batch: words[at].clone() },
        Verb::BatchClose => Command::BatchClose { batch: words[at].clone() },
        Verb::ViewOpen => Command::ViewOpen { view: words[at].clone() },
        Verb::ViewRead => Command::ViewRead {
            view: words[at].clone(),
            tree: words[at + 1].clone(),
            key: words[at + 2].clone(),
        },
        Verb::ViewIterate => Command::ViewIterate {
            view: words[at].clone(),
            tree: words[at + 1].clone(),
        },
        Verb::ViewClose => Command::ViewClose { view: words[at].clone() },
    };
    assert(command@.operands =~= command_of(verb, given).operands);
    command
}

/// Drops the empty tokens.
fn words_of_tokens(tokens: &Vec<String>) -> (words: Vec<String>)
    ensures
        strings_view(words@) == words_of(strings_view(tokens@)),
{
    let mut words: Vec<String> = Vec::new();
    let mut i: usize = 0;
    assert(strings_view(tokens@).take(0) =~= Seq::empty());
    while i < tokens.len()
        invariant
            i <= tokens@.len(),
            strings_view(words@) == words_of(strings_view(tokens@).take(i as int)),
        decreases tokens.len() - i,
    {
        let ghost before = strings_view(words@);
        let ghost upto = strings_view(tokens@).take(i + 1);
        assert(upto.drop_last() =~= strings_view(tokens@).take(i as int));
        assert(upto.last() == tokens@[i as int]@);
        if !tokens[i].as_str().is_empty() {
            words.push(tokens[i].clone());
            assert(strings_view(words@) =~= before.push(tokens@[i as int]@));
        }
        i = i + 1;
    }
    assert(strings_view(tokens@).take(i as int) =~= strings_view(tokens@));
    words
}

/// Parses the commands that the words from `start` on spell.
fn parse_from(words: &Vec<String>, start: usize) -> (r: Result<Vec<Command>, ParseError>)
    requires
        start <= words@.len(),
    ensures
        match parse_body(strings_view(words@), start as int) {
            Ok(commands) => r matches Ok(c) && commands_view(c@) == commands,
            Err(e) => r matches Err(error) && error@ == e,
        },
{
    let ghost all = strings_view(words@);
    let mut commands: Vec<Command> = Vec::new();
    let mut i: usize = start;
    assert(commands_view(commands@) =~= Seq::empty());
    while i < words.len()
        invariant
            start <= i <= words@.len(),
            all == strings_view(words@),
            parse_body(all, start as int) == (match parse_body(all, i as int) {
                Ok(rest) => Ok::<Seq<CommandView>, ParseErrorView>(commands_view(commands@) + rest),
                Err(e) => Err(e),
            }),
        decreases words.len() - i,
    {
        if is_word(&words[i], "/") {
            i = i + 1;
            continue ;
        }
        match verb_of_word(&words[i]) {
            None => {
                return Err(ParseError::UnknownCommand { name: words[i].clone() });
            },
            Some(verb) => {
                let wanted = operand_list(verb);
                let given = words.len() - i - 1;
                if given < wanted.len() {
                    return Err(missing_operand(wanted[given]));
                }
                let command = make_command(verb, words, i + 1);
                let ghost done = commands_view(commands@);
                commands.push(command);
                let next = i + 1 + wanted.len();
                proof {
                    assert(commands_view(commands@) =~= done.push(command@));
                    match parse_body(all, next as int) {
                        Ok(rest) => {
                            assert(done + (seq![command@] + rest) =~= done.push(command@) + rest);
                        },
                        Err(_) => {},
                    }
                }
                i = next;
            },
        }
    }
    assert(commands_view(commands@) + Seq::empty() =~= commands_view(commands@));
    Ok(commands)
}

/// Parses a script from its tokens. Empty tokens count for nothing.
pub fn parse_commands(tokens: Vec<String>) -> (r: Result<(Option<String>, Vec<Command>), ParseError>)
    ensures
        match parse_script(strings_view(tokens@)) {
            Ok((path, commands)) => r matches Ok((p, c)) && path_view(p) == path && commands_view(
                c@,
            ) == commands,
            Err(e) => r matches Err(error) && error@ == e,
        },
{
    let words = words_of_tokens(&tokens);
    if words.len() == 0 {
        return Err(ParseError::ExpectedPathOrMem);
    }
    if is_word(&words[0], "path") {
        if words.len() < 2 {
            return Err(ParseError::ExpectedPathOrMem);
        }
        match parse_from(&words, 2) {
            Ok(commands) => Ok((Some(words[1].clone()), commands)),
            Err(e) => Err(e),
        }
    } else if is_word(&words[0], "mem") {
        match parse_from(&words, 1) {
            Ok(commands) => Ok((None, commands)),
            Err(e) => Err(e),
        }
    } else {
        Err(ParseError::ExpectedPathOrMem)
    }
}


/// One line of what a script shows: a key, and the value read under it.
#[derive(Clone, Debug, PartialEq, Eq)]
pub struct Line {
    pub key: Vec<u8>,
    pub value: Option<Vec<u8>>,
}

/// Why a script stopped.
#[derive(Clone, Debug, PartialEq, Eq)]
pub enum ExecError {
    /// The database failed.
    Db(DbError),
    /// No batch of that name is open.
    UnknownBatch { name: String },
    /// No view of that name is open.
    UnknownView { name: String },
    /// A `read-assert` read something else than it expected.
    AssertFailed { key: String, expected: Option<String>, found: Option<Vec<u8>> },
    /// A range to delete ends before it starts.
    InvalidRange,
}

/// The batches and views that a script has opened, by their names.
pub struct Session {
    batches: Vec<(String, WriteBatch)>,
    views: Vec<(String, ReadView)>,
}

/// A batch that a script has open: its number, and whether a failure has
/// made it unusable.
pub struct OpenBatch {
    pub number: Batch,
    pub unusable: bool,
}

/// What a script has open: its batches, and the commit limits of its
/// views, each under its name.
pub struct SessionView {
    pub batches: Map<Seq<char>, OpenBatch>,
    pub views: Map<Seq<char>, Commit>,
}

pub open spec fn open_batch(batch: WriteBatch) -> OpenBatch {
    OpenBatch { number: batch.number(), unusable: batch.unusable() }
}

/// Whether the entry at `i` stands under `name`.
pub open spec fn is_at<V>(entries: Seq<(Seq<char>, V)>, name: Seq<char>, i: int) -> bool {
    0 <= i < entries.len() && entries[i].0 == name
}

/// No two entries stand under one name.
pub open spec fn distinct<V>(entries: Seq<(Seq<char>, V)>) -> bool {
    forall|i: int, j: int|
        0 <= i < j < entries.len() ==> (#[trigger] entries[i]).0 != (#[trigger] entries[j]).0
}

/// The entries, each under its name.
pub open spec fn by_name<V>(entries: Seq<(Seq<char>, V)>) -> Map<Seq<char>, V> {
    Map::new(
        |name: Seq<char>| exists|i: int| is_at(entries, name, i),
        |name: Seq<char>| entries[choose|i: int| is_at(entries, name, i)].1,
    )
}

proof fn lemma_by_name_at<V>(entries: Seq<(Seq<char>, V)>, i: int)
    requires
        distinct(entries),
        0 <= i < entries.len(),
    ensures
        by_name(entries).contains_key(entries[i].0),
        by_name(entries)[entries[i].0] == entries[i].1,
{
    let name = entries[i].0;
    assert(is_at(entries, name, i));
    let j = choose|j: int| is_at(entries, name, j);
    if j < i {
        assert(entries[j].0 != entries[i].0);
    }
    if i < j {
        assert(entries[i].0 != entries[j].0);
    }
}

proof fn lemma_by_name_push<V>(entries: Seq<(Seq<char>, V)>, name: Seq<char>, value: V)
    requires
        distinct(entries),
        !by_name(entries).contains_key(name),
    ensures
        distinct(entries.push((name, value))),
        by_name(entries.push((name, value))) == by_name(entries).insert(name, value),
{
    let after = entries.push((name, value));
    let last = entries.len() as int;
    assert forall|i: int, j: int| 0 <= i < j < after.len() implies (#[trigger] after[i]).0 != (
    #[trigger] after[j]).0 by {
        if j == last {
            if after[i].0 == name {
                assert(is_at(entries, name, i));
            }
        } else {
            assert(entries[i].0 != entries[j].0);
        }
    }
    assert(is_at(after, name, last));
    lemma_by_name_at(after, last);
    assert forall|n: Seq<char>| by_name(after).contains_key(n) <==> (n == name || by_name(
        entries,
    ).contains_key(n)) by {
        if by_name(after).contains_key(n) && n != name {
            let j = choose|j: int| is_at(after, n, j);
            assert(is_at(entries, n, j));
        }
        if by_name(entries).contains_key(n) {
            let j = choose|j: int| is_at(entries, n, j);
            assert(is_at(after, n, j));
        }
    }
    assert forall|n: Seq<char>| by_name(entries).contains_key(n) && n != name implies by_name(
        after,
    )[n] == by_name(entries)[n] by {
        let j = choose|j: int| is_at(entries, n, j);
        lemma_by_name_at(entries, j);
        assert(after[j] == entries[j]);
        lemma_by_name_at(after, j);
    }
    assert(by_name(after) =~= by_name(entries).insert(name, value));
}

proof fn lemma_by_name_remove<V>(entries: Seq<(Seq<char>, V)>, i: int)
    requires
        distinct(entries),
        0 <= i < entries.len(),
    ensures
        distinct(entries.remove(i)),
        by_name(entries.remove(i)) == by_name(entries).remove(entries[i].0),
{
    let after = entries.remove(i);
    let name = entries[i].0;
    assert forall|k: int| 0 <= k < after.len() implies #[trigger] after[k] == entries[if k < i {
        k
    } else {
        k + 1
    }] by {}
    assert forall|a: int, b: int| 0 <= a < b < after.len() implies (#[trigger] after[a]).0 != (
    #[trigger] after[b]).0 by {
        let x = if a < i { a } else { a + 1 };
        let y = if b < i { b } else { b + 1 };
        assert(after[a] == entries[x]);
        assert(after[b] == entries[y]);
        assert(entries[x].0 != entries[y].0);
    }
    assert forall|n: Seq<char>| by_name(after).contains_key(n) <==> (n != name && by_name(
        entries,
    ).contains_key(n)) by {
        if by_name(after).contains_key(n) {
            let k = choose|k: int| is_at(after, n, k);
            let x = if k < i { k } else { k + 1 };
            assert(after[k] == entries[x]);
            assert(is_at(entries, n, x));
            if x < i {
                assert(entries[x].0 != entries[i].0);
            } else {
                assert(entries[i].0 != entries[x].0);
            }
        }
        if by_name(entries).contains_key(n) && n != name {
            let x = choose|x: int| is_at(entries, n, x);
            let k = if x < i { x } else { x - 1 };
            assert(after[k] == entries[x]);
            assert(is_at(after, n, k));
        }
    }
    assert forall|n: Seq<char>| by_name(after).contains_key(n) implies by_name(after)[n]
        == by_name(entries)[n] by {
        let k = choose|k: int| is_at(after, n, k);
        let x = if k < i { k } else { k + 1 };
        assert(after[k] == entries[x]);
        lemma_by_name_at(after, k);
        lemma_by_name_at(entries, x);
    }
    assert(by_name(after) =~= by_name(entries).remove(name));
}

/// The bytes of a word of a script.
pub open spec fn bytes_of(word: Seq<char>) -> Seq<u8> {
    vstd::utf8::encode_utf8(word)
}

pub open spec fn value_view(value: Option<Vec<u8>>) -> Option<Seq<u8>> {
    match value {
        Some(v) => Some(v@),
        None => None,
    }
}

pub open spec fn expected_view(value: Option<String>) -> Option<Seq<u8>> {
    match value {
        Some(v) => Some(bytes_of(v@)),
        None => None,
    }
}

fn word_bytes(word: &String) -> (bytes: Vec<u8>)
    ensures
        bytes@ == bytes_of(word@),
{
    slice_to_vec(word.as_str().as_bytes())
}

fn same_bytes(a: &Vec<u8>, b: &Vec<u8>) -> (r: bool)
    ensures
        r == (a@ == b@),
{
    order_bytes(a, b) == KeyOrder::Equal
}

fn copy_bytes(bytes: &Vec<u8>) -> (copy: Vec<u8>)
    ensures
        copy@ == bytes@,
{
    bytes.clone()
}

/// Whether what was read is what was expected.
fn as_expected(found: &Option<Vec<u8>>, expected: &Option<String>) -> (r: bool)
    ensures
        r == (value_view(*found) == expected_view(*expected)),
{
    match (found, expected) {
        (None, None) => true,
        (Some(found), Some(expected)) => same_bytes(found, &word_bytes(expected)),
        _ => false,
    }
}

/// The place of the first of `names` that is `name`, if there is one.
pub open spec fn first_named(names: Seq<Seq<char>>, name: Seq<char>, found: Option<usize>) -> bool {
    match found {
        Some(i) => {
            &&& i < names.len()
            &&& names[i as int] == name
            &&& forall|k: int| 0 <= k < i ==> #[trigger] names[k] != name
        },
        None => forall|k: int| 0 <= k < names.len() ==> #[trigger] names[k] != name,
    }
}

impl View for Session {
    type V = SessionView;

    closed spec fn view(&self) -> SessionView {
        SessionView { batches: by_name(self.batch_entries()), views: by_name(self.view_entries()) }
    }
}

impl Session {
    /// The names of the batches that the script has open, oldest first.
    pub closed spec fn batch_names(&self) -> Seq<Seq<char>> {
        Seq::new(self.batches@.len(), |i: int| self.batches@[i].0@)
    }

    /// The names of the views that the script has open, oldest first.
    pub closed spec fn view_names(&self) -> Seq<Seq<char>> {
        Seq::new(self.views@.len(), |i: int| self.views@[i].0@)
    }

    /// The batches that the script has open, oldest first.
    pub closed spec fn batch_entries(&self) -> Seq<(Seq<char>, OpenBatch)> {
        Seq::new(self.batches@.len(), |i: int| (self.batches@[i].0@, open_batch(self.batches@[i].1)))
    }

    /// The views that the script has open, oldest first.
    pub closed spec fn view_entries(&self) -> Seq<(Seq<char>, Commit)> {
        Seq::new(self.views@.len(), |i: int| (self.views@[i].0@, self.views@[i].1.commit_limit()))
    }

    /// No two batches and no two views are open under one name.
    pub closed spec fn wf(&self) -> bool {
        distinct(self.batch_entries()) && distinct(self.view_entries())
    }

    /// A session with no batch and no view open.
    pub fn new() -> (session: Session)
        ensures
            session.wf(),
            session@.batches == Map::<Seq<char>, OpenBatch>::empty(),
            session@.views == Map::<Seq<char>, Commit>::empty(),
            session.batch_names() == Seq::<Seq<char>>::empty(),
            session.view_names() == Seq::<Seq<char>>::empty(),
    {
        let session = Session { batches: Vec::new(), views: Vec::new() };
        assert(session.batch_names() =~= Seq::<Seq<char>>::empty());
        assert(session.view_names() =~= Seq::<Seq<char>>::empty());
        assert(session@.batches =~= Map::<Seq<char>, OpenBatch>::empty());
        assert(session@.views =~= Map::<Seq<char>, Commit>::empty());
        session
    }

    /// The place of the open batch called `name`.
    fn find_batch(&self, name: &String) -> (r: Option<usize>)
        ensures
            first_named(self.batch_names(), name@, r),
            r matches Some(i) ==> i < self.batches@.len(),
            self.wf() ==> match r {
                Some(i) => self@.batches.contains_key(name@) && self@.batches[name@] == open_batch(
                    self.batches@[i as int].1,
                ),
                None => !self@.batches.contains_key(name@),
            },
    {
        let ghost names = self.batch_names();
        let mut i: usize = 0;
        while i < self.batches.len()
            invariant
                i <= self.batches@.len(),
                names == self.batch_names(),
                forall|k: int| 0 <= k < i ==> #[trigger] names[k] != name@,
            decreases self.batches.len() - i,
        {
            if self.batches[i].0 == *name {
                assert(names[i as int] == name@);
                proof {
                    if self.wf() {
                        lemma_by_name_at(self.batch_entries(), i as int);
                    }
                }
                return Some(i);
            }
            assert(names[i as int] != name@);
            i = i + 1;
        }
        proof {
            if self@.batches.contains_key(name@) {
                let k = choose|k: int| is_at(self.batch_entries(), name@, k);
                assert(names[k] == name@);
            }
        }
        None
    }

    /// The place of the open view called `name`.
    fn find_view(&self, name: &String) -> (r: Option<usize>)
        ensures
            first_named(self.view_names(), name@, r),
            r matches Some(i) ==> i < self.views@.len(),
            self.wf() ==> match r {
                Some(i) => self@.views.contains_key(name@) && self@.views[name@]
                    == self.views@[i as int].1.commit_limit(),
                None => !self@.views.contains_key(name@),
            },
    {
        let ghost names = self.view_names();
        let mut i: usize = 0;
        while i < self.views.len()
            invariant
                i <= self.views@.len(),
                names == self.view_names(),
                forall|k: int| 0 <= k < i ==> #[trigger] names[k] != name@,
            decreases self.views.len() - i,
        {
            if self.views[i].0 == *name {
                assert(names[i as int] == name@);
                proof {
                    if self.wf() {
                        lemma_by_name_at(self.view_entries(), i as int);
                    }
                }
                return Some(i);
            }
            assert(names[i as int] != name@);
            i = i + 1;
        }
        proof {
            if self@.views.contains_key(name@) {
                let k = choose|k: int| is_at(self.view_entries(), name@, k);
                assert(names[k] == name@);
            }
        }
        None
    }

    /// Takes the batch called `name` out of the session.
    fn take_batch(&mut self, name: &String) -> (r: Option<WriteBatch>)
        requires
            old(self).wf(),
        ensures
            final(self).wf(),
            final(self)@.views == old(self)@.views,
            match r {
                Some(batch) => {
                    &&& old(self)@.batches.contains_key(name@)
                    &&& old(self)@.batches[name@] == open_batch(batch)
                    &&& final(self)@.batches == old(self)@.batches.remove(name@)
                },
                None => !old(self)@.batches.contains_key(name@) && final(self)@ == old(self)@,
            },
    {
        let ghost entries = self.batch_entries();
        match self.find_batch(name) {
            Some(i) => {
                let (_, batch) = self.batches.remove(i);
                proof {
                    assert(self.batch_entries() =~= entries.remove(i as int));
                    lemma_by_name_remove(entries, i as int);
                }
                Some(batch)
            },
            None => None,
        }
    }

    /// Puts a batch into the session under `name`, in place of the one that
    /// had the name.
    fn put_batch(&mut self, name: &String, batch: WriteBatch)
        requires
            old(self).wf(),
        ensures
            final(self).wf(),
            final(self)@.views == old(self)@.views,
            final(self)@.batches == old(self)@.batches.insert(name@, open_batch(batch)),
    {
        let ghost put = open_batch(batch);
        let ghost before = self@.batches;
        let _ = self.take_batch(name);
        let ghost entries = self.batch_entries();
        self.batches.push((name.clone(), batch));
        proof {
            assert(self.batch_entries() =~= entries.push((name@, put)));
            lemma_by_name_push(entries, name@, put);
            assert(before.remove(name@).insert(name@, put) =~= before.insert(name@, put));
        }
    }

    /// Takes the view called `name` out of the session.
    fn take_view(&mut self, name: &String)
        requires
            old(self).wf(),
        ensures
            final(self).wf(),
            final(self)@.batches == old(self)@.batches,
            final(self)@.views == old(self)@.views.remove(name@),
    {
        let ghost entries = self.view_entries();
        let ghost before = self@.views;
        match self.find_view(name) {
            Some(i) => {
                self.views.remove(i);
                proof {
                    assert(self.view_entries() =~= entries.remove(i as int));
                    lemma_by_name_remove(entries, i as int);
                }
            },
            None => {
                assert(before.remove(name@) =~= before);
            },
        }
    }

    /// Puts a view into the session under `name`, in place of the one that
    /// had the name.
    fn put_view(&mut self, name: &String, view: ReadView)
        requires
            old(self).wf(),
        ensures
            final(self).wf(),
            final(self)@.batches == old(self)@.batches,
            final(self)@.views == old(self)@.views.insert(name@, view.commit_limit()),
    {
        let ghost before = self@.views;
        self.take_view(name);
        let ghost entries = self.view_entries();
        self.views.push((name.clone(), view));
        proof {
            assert(self.view_entries() =~= entries.push((name@, view.commit_limit())));
            lemma_by_name_push(entries, name@, view.commit_limit());
            assert(before.remove(name@).insert(name@, view.commit_limit()) =~= before.insert(
                name@,
                view.commit_limit(),
            ));
        }
    }
}

/// What every command of a script leaves standing: the database is
/// recovered, has the trees it had, its views see no less, and the views
/// that were taken before read what they read.
pub open spec fn carried_on(before: DbView, after: DbView) -> bool {
    &&& after.initialized
    &&& after.names == before.names
    &&& after.trees.len() == before.trees.len()
    &&& after.view_commit_limit >= before.view_commit_limit
    &&& same_views(before, after)
}

/// No counter of the database has run out: a batch can be opened and
/// committed.
pub open spec fn has_numbers(db: DbView) -> bool {
    db.next_batch < u64::MAX && db.next_batch_commit < u64::MAX && db.next_commit < u64::MAX
}

/// What a write in a batch of its own made of the database. It succeeds
/// only in a tree that the database has and while no counter has run out,
/// and then the views that are taken afterwards read the value under the
/// key, and under every other key and in every other tree what the views
/// read that were taken before. On a reliable database it fails on no
/// other ground. A tree that the database
/// has not is refused before anything is logged.
pub open spec fn written_now(
    before: DbView,
    reliable: bool,
    after: DbView,
    tree: Seq<char>,
    key: Seq<u8>,
    value: Seq<u8>,
    r: Result<(), DbError>,
) -> bool {
    &&& carried_on(before, after)
    &&& recoverable(before) ==> recoverable(after)
    &&& match r {
        Ok(()) => {
            &&& before.tree_number(tree) matches Some(i)
            &&& has_numbers(before)
            &&& after.view_commit_limit == before.next_commit + 1
            &&& after.value(i, Commit(after.view_commit_limit), key) == Some(value)
            &&& forall|t: int, other: Seq<u8>|
                0 <= t < before.trees.len() && !(t == i && other == key) ==> #[trigger] after.value(
                    t,
                    Commit(after.view_commit_limit),
                    other,
                ) == before.value(t, Commit(before.view_commit_limit), other)
        },
        Err(e) => {
            &&& after.view_commit_limit == before.view_commit_limit
            &&& if before.tree_number(tree) is None {
                e == DbError::UnknownTree && after == before
            } else {
                &&& !(e is UnknownTree)
                &&& e is CounterOverflow ==> !has_numbers(before)
                &&& reliable ==> e is CounterOverflow
            }
        },
    }
}

/// What a batch of one command that was opened, committed and closed
/// leaves under a key that its operations do not touch: `opened` is the
/// database with the batch open and its command logged, `done` the one
/// after the commit, `closed` the one after the batch was closed.
proof fn lemma_own_batch_keeps(
    before: DbView,
    opened: DbView,
    done: DbView,
    closed: DbView,
    batch: Batch,
    tree: int,
    key: Seq<u8>,
)
    requires
        opened.valid(),
        same_views(before, done),
        same_views(done, closed),
        opened.view_commit_limit == before.view_commit_limit,
        opened.next_commit < u64::MAX,
        done.view_commit_limit == opened.next_commit + 1,
        closed.view_commit_limit == done.view_commit_limit,
        0 <= tree < opened.trees.len(),
        before.trees.len() == opened.trees.len(),
        opened.trees[tree].batches.contains_key(batch),
        legal(opened.trees[tree].batches[batch]),
        terminator_from(
            opened.trees[tree].batches[batch],
            BatchCommit(opened.next_batch_commit),
            0,
        ) is None,
        tree_committed(
            opened.trees[tree],
            done.trees[tree],
            batch,
            BatchCommit(opened.next_batch_commit),
            Commit(opened.next_commit),
        ),
        forall|j: int|
            0 <= j < played(opened.trees[tree].batches[batch]).ops.len() ==> !touches(
                #[trigger] played(opened.trees[tree].batches[batch]).ops[j],
                key,
            ),
    ensures
        closed.value(tree, Commit(closed.view_commit_limit), key) == before.value(
            tree,
            Commit(before.view_commit_limit),
            key,
        ),
{
    lemma_committed_keeps_untouched(
        opened.trees[tree],
        done.trees[tree],
        batch,
        BatchCommit(opened.next_batch_commit),
        Commit(opened.next_commit),
        key,
    );
    assert(tree_keeps(done.trees[tree], closed.trees[tree], done.view_commit_limit));
    assert(tree_keeps(before.trees[tree], done.trees[tree], before.view_commit_limit));
}

/// Writes one value in a batch of its own, and commits and closes the
/// batch. After that the views of the database read the value.
pub fn write_now<T: LogFile<Cmd = LogCommand>, C: LogFile<Cmd = CommitCommand>>(
    db: &mut Db<T, C>,
    tree: &String,
    key: &Vec<u8>,
    value: &Vec<u8>,
) -> (r: Result<(), DbError>)
    requires
        old(db).wf(),
        old(db)@.initialized,
    ensures
        final(db).wf(),
        final(db).reliable() == old(db).reliable(),
        written_now(old(db)@, old(db).reliable(), final(db)@, tree@, key@, value@, r),
{
    let ghost d0 = db@;
    assert(same_views(d0, d0));
    if db.find_tree(tree.as_str()).is_none() {
        return Err(DbError::UnknownTree);
    }
    let ghost i = d0.tree_number(tree@).unwrap();
    let batch = match db.write_batch() {
        Ok(batch) => batch,
        Err(e) => {
            return Err(e);
        },
    };
    let ghost b = batch.number();
    let ghost d1 = db@;
    proof {
        db.lemma_wf();
        assert(d1.trees[i] == d0.trees[i].appended(
            d1.trees[i].records.last().0,
            LogCommandView::Open { batch: b },
        ));
        assert(d1.trees[i].batches[b] =~= Seq::<Step>::empty());
        assert forall|k: int| 0 <= k < d1.trees.len() implies (#[trigger] d1.trees[k]).batches.contains_key(
            b,
        ) && d1.trees[k].batches[b] =~= Seq::<Step>::empty() by {
            assert(d1.trees[k] == d0.trees[k].appended(
                d1.trees[k].records.last().0,
                LogCommandView::Open { batch: b },
            ));
        }
    }
    if let Err(e) = batch.tree(tree.as_str()).write(db, key.as_slice(), value.as_slice()) {
        let ghost failed = db@;
        batch.close(db);
        proof {
            assert(d1.tree_number(tree@) == Some(i));
            lemma_same_views_twice(d0, d1, failed);
            lemma_same_views_twice(d0, failed, db@);
        }
        return Err(e);
    }
    let ghost d2 = db@;
    let ghost write = LogCommandView::Write { batch: b, key: key@, value: value@ };
    let ghost address = d2.trees[i].records.last().0;
    proof {
        db.lemma_wf();
        assert(d1.tree_number(tree@) == Some(i));
        assert(d2.trees[i] == d1.trees[i].appended(address, write));

        lemma_push_record(d1.trees[i].records, address, write);
        assert(stored_value(d2.trees[i].records, address, key@) == Some(value@));
        let steps = d2.trees[i].batches[b];
        assert(steps == Seq::<Step>::empty().push(
            Step::Op(IndexOpView::Write { key: key@, address }),
        ));
        assert(steps.drop_last() =~= Seq::<Step>::empty());
        assert(legal(steps.drop_last()));
        assert(played(steps.drop_last()).ops.len() == 0);
        assert(legal(steps));
    }
    if let Err(e) = batch.commit(db) {
        let ghost failed = db@;
        batch.close(db);
        proof {
            lemma_same_views_twice(d0, d1, d2);
            lemma_same_views_twice(d0, d2, failed);
            lemma_same_views_twice(d0, failed, db@);
            if old(db).reliable() {
                assert(e is CounterOverflow || e is Tree);
                if e is Tree {
                    assert(false);
                }
            }
        }
        return Err(e);
    }
    let ghost d3 = db@;
    let ghost commit = Commit(d2.next_commit);
    let ghost batch_commit = BatchCommit(d2.next_batch_commit);
    proof {
        db.lemma_wf();
        let steps = d2.trees[i].batches[b];
        assert(terminator_from(steps, batch_commit, 1) is None);
        assert(terminator_from(steps, batch_commit, 0) is None);
        assert(tree_committed(d2.trees[i], d3.trees[i], b, batch_commit, commit));
        lemma_committed_write_is_read(
            d2.trees[i],
            d3.trees[i],
            b,
            batch_commit,
            commit,
            key@,
            value@,
            address,
        );
    }
    batch.close(db);
    proof {
        db.lemma_wf();
        let d4 = db@;
        lemma_same_views_twice(d0, d1, d2);
        lemma_same_views_twice(d0, d2, d3);
        lemma_same_views_twice(d0, d3, d4);
        assert(tree_closed(d3.trees[i], d4.trees[i], old(db).reliable(), b));
        let limit = Commit(d3.view_commit_limit);
        let found = d3.trees[i].index.visible(limit, key@).unwrap();
        if d4.trees[i].records != d3.trees[i].records {
            let last = d4.trees[i].records.last();
            lemma_push_record(d3.trees[i].records, last.0, last.1);
        }
        assert(stored_value(d4.trees[i].records, found, key@) == Some(value@));
        assert forall|t: int, other: Seq<u8>|
            0 <= t < d0.trees.len() && !(t == i && other == key@) implies #[trigger] d4.value(
            t,
            Commit(d4.view_commit_limit),
            other,
        ) == d0.value(t, Commit(d0.view_commit_limit), other) by {
            let steps = d2.trees[t].batches[b];
            if t != i {
                assert(d2.trees[t] == d1.trees[t]);
                assert(d1.trees[t].batches.contains_key(b));
                assert(steps =~= Seq::<Step>::empty());
            } else {
                assert(played(steps).ops =~= seq![IndexOpView::Write { key: key@, address }]);
            }
            assert(legal(steps));
            lemma_terminator(steps, batch_commit, 0);
            assert(tree_committed(d2.trees[t], d3.trees[t], b, batch_commit, commit));
            lemma_own_batch_keeps(d0, d2, d3, d4, b, t, other);
        }
    }
    Ok(())
}


/// What is deleted: the key `first`, or the keys from `first` up to
/// `second`, `second` excluded.
pub open spec fn is_deleted(first: Seq<u8>, second: Option<Seq<u8>>, key: Seq<u8>) -> bool {
    match second {
        None => key == first,
        Some(end) => in_range(key, first, end),
    }
}

pub open spec fn end_view(second: Option<&Vec<u8>>) -> Option<Seq<u8>> {
    match second {
        Some(end) => Some(end@),
        None => None,
    }
}

/// What a deletion in a batch of its own made of the database. A range
/// that ends before it starts is refused, and then a tree that the
/// database has not, both before anything is logged. Otherwise the
/// deletion succeeds while no counter has run out, and then the views that
/// are taken afterwards read nothing under what was deleted, and under
/// every other key and in every other tree what the views read that were
/// taken before. On a reliable database it fails on no other ground.
pub open spec fn deleted_now(
    before: DbView,
    reliable: bool,
    after: DbView,
    tree: Seq<char>,
    first: Seq<u8>,
    second: Option<Seq<u8>>,
    r: Result<(), ExecError>,
) -> bool {
    &&& carried_on(before, after)
    &&& recoverable(before) ==> recoverable(after)
    &&& match r {
        Ok(()) => {
            &&& !(second matches Some(end) && key_lt(end, first))
            &&& before.tree_number(tree) matches Some(i)
            &&& has_numbers(before)
            &&& after.view_commit_limit == before.next_commit + 1
            &&& forall|key: Seq<u8>|
                is_deleted(first, second, key) ==> #[trigger] after.value(
                    i,
                    Commit(after.view_commit_limit),
                    key,
                ) is None
            &&& forall|t: int, other: Seq<u8>|
                0 <= t < before.trees.len() && !(t == i && is_deleted(first, second, other))
                    ==> #[trigger] after.value(t, Commit(after.view_commit_limit), other)
                    == before.value(t, Commit(before.view_commit_limit), other)
        },
        Err(e) => {
            &&& after.view_commit_limit == before.view_commit_limit
            &&& if second matches Some(end) && key_lt(end, first) {
                e == ExecError::InvalidRange && after == before
            } else if before.tree_number(tree) is None {
                e == ExecError::Db(DbError::UnknownTree) && after == before
            } else {
                &&& e is Db
                &&& e != ExecError::Db(DbError::UnknownTree)
                &&& e == ExecError::Db(DbError::CounterOverflow) ==> !has_numbers(before)
                &&& reliable ==> e == ExecError::Db(DbError::CounterOverflow)
            }
        },
    }
}

/// Deletes a key, or a range of keys, in a batch of its own, and commits
/// and closes the batch. After that the views of the database read nothing
/// under what was deleted. A range that ends before it starts, and a tree
/// that the database has not, are refused before anything is logged.
fn in_own_batch<T: LogFile<Cmd = LogCommand>, C: LogFile<Cmd = CommitCommand>>(
    db: &mut Db<T, C>,
    tree: &String,
    first: &Vec<u8>,
    second: Option<&Vec<u8>>,
) -> (r: Result<(), ExecError>)
    requires
        old(db).wf(),
        old(db)@.initialized,
    ensures
        final(db).wf(),
        final(db).reliable() == old(db).reliable(),
        deleted_now(old(db)@, old(db).reliable(), final(db)@, tree@, first@, end_view(second), r),
{
    let ghost d0 = db@;
    assert(same_views(d0, d0));
    if let Some(end) = second {
        if order_bytes(first, end) == KeyOrder::Greater {
            return Err(ExecError::InvalidRange);
        }
        proof {
            crate::types::lemma_key_lt_total(first@, end@);
        }
    }
    if db.find_tree(tree.as_str()).is_none() {
        return Err(ExecError::Db(DbError::UnknownTree));
    }
    let ghost i = d0.tree_number(tree@).unwrap();
    let batch = match db.write_batch() {
        Ok(batch) => batch,
        Err(e) => {
            return Err(ExecError::Db(e));
        },
    };
    let ghost b = batch.number();
    let ghost d1 = db@;
    proof {
        db.lemma_wf();
        assert(d1.tree_number(tree@) == Some(i));
        assert forall|k: int| 0 <= k < d1.trees.len() implies (#[trigger] d1.trees[k]).batches.contains_key(
            b,
        ) && d1.trees[k].batches[b] =~= Seq::<Step>::empty() by {
            assert(d1.trees[k] == d0.trees[k].appended(
                d1.trees[k].records.last().0,
                LogCommandView::Open { batch: b },
            ));
        }
    }
    let written = match second {
        None => batch.tree(tree.as_str()).delete(db, first.as_slice()),
        Some(end) => batch.tree(tree.as_str()).delete_range(db, first.as_slice(), end.as_slice()),
    };
    let ghost d2 = db@;
    let ghost cmd = match second {
        None => LogCommandView::Delete { batch: b, key: first@ },
        Some(end) => LogCommandView::DeleteRange { batch: b, start_key: first@, end_key: end@ },
    };
    proof {
        lemma_same_views_twice(d0, d1, d2);
        assert(played(d1.trees[i].batches[b]).ops.len() == 0);
        assert(crate::batch_player::rejection(d1.trees[i].batches, cmd) is None);
    }
    if let Err(e) = written {
        batch.close(db);
        proof {
            lemma_same_views_twice(d0, d2, db@);
        }
        return Err(ExecError::Db(e));
    }
    let ghost address = d2.trees[i].records.last().0;
    let ghost op = match second {
        None => IndexOpView::Delete { key: first@, address },
        Some(end) => IndexOpView::DeleteRange { start_key: first@, end_key: end@, address },
    };
    proof {
        db.lemma_wf();
        assert(d2.trees[i] == d1.trees[i].appended(address, cmd));
        let steps = d2.trees[i].batches[b];
        assert(steps == Seq::<Step>::empty().push(Step::Op(op)));
        assert(steps.drop_last() =~= Seq::<Step>::empty());
        assert(legal(steps.drop_last()));
        assert(played(steps.drop_last()).ops.len() == 0);
        assert(legal(steps));
        assert forall|k: int| 0 <= k < d2.trees.len() implies (#[trigger] d2.trees[k]).batches.contains_key(
            b,
        ) by {
            if k != i {
                assert(d2.trees[k] == d1.trees[k]);
            }
        }
    }
    let committed = batch.commit(db);
    let ghost d3 = db@;
    let ghost commit = Commit(d2.next_commit);
    let ghost batch_commit = BatchCommit(d2.next_batch_commit);
    proof {
        db.lemma_wf();
        lemma_same_views_twice(d0, d2, d3);
        match committed {
            Ok(()) => {
                let steps = d2.trees[i].batches[b];
                assert(terminator_from(steps, batch_commit, 1) is None);
                assert(terminator_from(steps, batch_commit, 0) is None);
                assert(tree_committed(d2.trees[i], d3.trees[i], b, batch_commit, commit));
                assert forall|key: Seq<u8>|
                    is_deleted(first@, end_view(second), key) implies #[trigger] d3.value(
                    i,
                    Commit(d3.view_commit_limit),
                    key,
                ) is None by {
                    match second {
                        None => {
                            lemma_committed_delete_hides(
                                d2.trees[i],
                                d3.trees[i],
                                b,
                                batch_commit,
                                commit,
                                first@,
                                address,
                            );
                        },
                        Some(end) => {
                            lemma_committed_delete_range_hides(
                                d2.trees[i],
                                d3.trees[i],
                                b,
                                batch_commit,
                                commit,
                                first@,
                                end@,
                                address,
                                key,
                            );
                        },
                    }
                }
            },
            Err(_) => {
                let e = committed->Err_0;
                if old(db).reliable() {
                    if e is Tree {
                        assert(d2.trees[e->tree as int].batches.contains_key(b));
                        assert(false);
                    }
                }
            },
        }
    }
    batch.close(db);
    proof {
        let d4 = db@;
        lemma_same_views_twice(d0, d3, d4);
        if committed is Ok {
            assert(tree_closed(d3.trees[i], d4.trees[i], old(db).reliable(), b));
            assert forall|t: int, other: Seq<u8>|
                0 <= t < d0.trees.len() && !(t == i && is_deleted(first@, end_view(second), other))
                    implies #[trigger] d4.value(t, Commit(d4.view_commit_limit), other) == d0.value(
                t,
                Commit(d0.view_commit_limit),
                other,
            ) by {
                let steps = d2.trees[t].batches[b];
                if t != i {
                    assert(d2.trees[t] == d1.trees[t]);
                    assert(steps =~= Seq::<Step>::empty());
                } else {
                    assert(played(steps).ops =~= seq![op]);
                }
                assert(legal(steps));
                lemma_terminator(steps, batch_commit, 0);
                assert(tree_committed(d2.trees[t], d3.trees[t], b, batch_commit, commit));
                lemma_own_batch_keeps(d0, d2, d3, d4, b, t, other);
            }
            assert forall|key: Seq<u8>|
                is_deleted(first@, end_view(second), key) implies #[trigger] d4.value(
                i,
                Commit(d4.view_commit_limit),
                key,
            ) is None by {
                assert(d3.value(i, Commit(d3.view_commit_limit), key) is None);
                assert(d4.trees[i].index == d3.trees[i].index);
            }
        }
    }
    match committed {
        Ok(()) => Ok(()),
        Err(e) => Err(ExecError::Db(e)),
    }
}

/// The keys and values that lines show. A line without a value counts as
/// one with an empty value.
pub open spec fn shown(lines: Seq<Line>) -> Seq<(Seq<u8>, Seq<u8>)> {
    Seq::new(
        lines.len(),
        |i: int|
            (
                lines[i].key@,
                match lines[i].value {
                    Some(v) => v@,
                    None => Seq::empty(),
                },
            ),
    )
}

/// What the database said to a command that only it can refuse.
pub open spec fn db_said(r: Result<(), ExecError>) -> Option<Result<(), DbError>> {
    match r {
        Ok(()) => Some(Ok(())),
        Err(ExecError::Db(e)) => Some(Err(e)),
        Err(_) => None,
    }
}

/// The command was refused because no batch called `name` is open.
pub open spec fn no_such_batch(r: Result<(), ExecError>, name: Seq<char>) -> bool {
    r matches Err(ExecError::UnknownBatch { name: unknown }) && unknown@ == name
}

/// The command was refused because no view called `name` is open.
pub open spec fn no_such_view(r: Result<(), ExecError>, name: Seq<char>) -> bool {
    r matches Err(ExecError::UnknownView { name: unknown }) && unknown@ == name
}

/// What a read at the commit limit `limit` shows: one line with the key
/// and what a view with that limit reads under it in the tree, or nothing
/// where the database refuses the read.
pub open spec fn line_shown(
    db: DbView,
    reliable: bool,
    limit: Commit,
    tree: Seq<char>,
    key: Seq<u8>,
    lines: Seq<Line>,
    r: Result<(), ExecError>,
) -> bool {
    match r {
        Ok(()) => {
            &&& lines.len() == 1
            &&& lines[0].key@ == key
            &&& was_read(db, reliable, tree, limit, key, Ok(lines[0].value))
        },
        Err(ExecError::Db(e)) => lines.len() == 0 && was_read(db, reliable, tree, limit, key, Err(e)),
        Err(_) => false,
    }
}

/// What a read that expects `expected` shows: the line that a plain read
/// shows where the value read is the one expected, and else a failure
/// that holds the key, the value expected and the value read.
pub open spec fn line_expected(
    db: DbView,
    reliable: bool,
    limit: Commit,
    tree: Seq<char>,
    key: Seq<char>,
    expected: Option<String>,
    lines: Seq<Line>,
    r: Result<(), ExecError>,
) -> bool {
    match r {
        Ok(()) => {
            &&& lines.len() == 1
            &&& lines[0].key@ == bytes_of(key)
            &&& was_read(db, reliable, tree, limit, bytes_of(key), Ok(lines[0].value))
            &&& value_view(lines[0].value) == expected_view(expected)
        },
        Err(ExecError::AssertFailed { key: asked, expected: wanted, found }) => {
            &&& lines.len() == 0
            &&& asked@ == key
            &&& expected_view(wanted) == expected_view(expected)
            &&& was_read(db, reliable, tree, limit, bytes_of(key), Ok(found))
            &&& value_view(found) != expected_view(expected)
        },
        Err(ExecError::Db(e)) => lines.len() == 0 && was_read(
            db,
            reliable,
            tree,
            limit,
            bytes_of(key),
            Err(e),
        ),
        Err(_) => false,
    }
}

/// What a listing at the commit limit `limit` shows: the keys under which
/// a view with that limit sees a value in the tree, in their order, each
/// with its value; or nothing where the database refuses the listing.
pub open spec fn listing_shown(
    db: DbView,
    reliable: bool,
    limit: Commit,
    tree: Seq<char>,
    lines: Seq<Line>,
    r: Result<(), ExecError>,
) -> bool {
    match r {
        Ok(()) => {
            &&& db.tree_number(tree) matches Some(i)
            &&& limit.0 <= db.view_commit_limit
            &&& is_listing(db.trees[i], limit, shown(lines))
            &&& forall|k: int| 0 <= k < lines.len() ==> (#[trigger] lines[k]).value is Some
        },
        Err(ExecError::Db(e)) => lines.len() == 0 && was_listed(
            db,
            reliable,
            tree,
            limit,
            Err::<Vec<(Key, Value)>, DbError>(e),
        ),
        Err(_) => false,
    }
}

/// What a command that logs `cmd` for an open batch in one tree made of
/// the database.
pub open spec fn logged_for_batch(
    before: DbView,
    reliable: bool,
    after: DbView,
    tree: Seq<char>,
    batch: OpenBatch,
    cmd: LogCommandView,
    r: Result<(), ExecError>,
) -> bool {
    db_said(r) matches Some(said) && logs_in_tree(
        before,
        reliable,
        after,
        tree,
        batch.unusable,
        cmd,
        said,
    )
}

/// What a command on a save point of the batch called `name` made of the
/// database and of the session: `cmd` is logged for the batch in every
/// tree, and the batch is unusable afterwards where a tree after the
/// first refused.
pub open spec fn save_point_moved(
    before: DbView,
    reliable: bool,
    after: DbView,
    session: SessionView,
    left: SessionView,
    name: Seq<char>,
    cmd: LogCommandView,
    r: Result<(), ExecError>,
) -> bool {
    let batch = session.batches[name];
    &&& left.views == session.views
    &&& left.batches.contains_key(name)
    &&& left.batches == session.batches.insert(
        name,
        OpenBatch { number: batch.number, unusable: left.batches[name].unusable },
    )
    &&& db_said(r) matches Some(said) && logs_in_all(
        before,
        reliable,
        after,
        batch.unusable,
        left.batches[name].unusable,
        cmd,
        said,
    )
}

/// What one command of a script made of the database, of what the script
/// has open and of what it shows. `session` is what was open before the
/// command and `left` what is open after it; `lines` is what the command
/// added to what the script shows.
///
/// `write`, `delete` and `delete-range` work in a batch of their own that
/// is committed at once. `read`, `read-assert` and `iterate` show what a
/// view taken now reads. A command on a batch does to the batch of that
/// name what the database's own operation does, and a command on a view
/// reads at the commit limit of the view of that name; both are refused
/// exactly where no batch or view of the name is open.
pub open spec fn command_did(
    before: DbView,
    reliable: bool,
    after: DbView,
    session: SessionView,
    left: SessionView,
    command: Command,
    lines: Seq<Line>,
    r: Result<(), ExecError>,
) -> bool {
    let now = Commit(before.view_commit_limit);
    match command {
        Command::Write { tree, key, value } => {
            &&& left == session
            &&& lines.len() == 0
            &&& db_said(r) matches Some(said) && written_now(
                before,
                reliable,
                after,
                tree@,
                bytes_of(key@),
                bytes_of(value@),
                said,
            )
        },
        Command::Delete { tree, key } => {
            &&& left == session
            &&& lines.len() == 0
            &&& deleted_now(before, reliable, after, tree@, bytes_of(key@), None, r)
        },
        Command::DeleteRange { tree, start, end } => {
            &&& left == session
            &&& lines.len() == 0
            &&& deleted_now(
                before,
                reliable,
                after,
                tree@,
                bytes_of(start@),
                Some(bytes_of(end@)),
                r,
            )
        },
        Command::Read { tree, key } => {
            &&& left == session
            &&& after == before
            &&& line_shown(before, reliable, now, tree@, bytes_of(key@), lines, r)
        },
        Command::ReadAssert { tree, key, expected_value } => {
            &&& left == session
            &&& after == before
            &&& line_expected(before, reliable, now, tree@, key@, expected_value, lines, r)
        },
        Command::Iterate { tree } => {
            &&& left == session
            &&& after == before
            &&& listing_shown(before, reliable, now, tree@, lines, r)
        },
        Command::BatchOpen { batch } => {
            &&& lines.len() == 0
            &&& left.views == session.views
            &&& match r {
                Ok(()) => {
                    &&& left.batches == session.batches.insert(
                        batch@,
                        OpenBatch { number: Batch(before.next_batch), unusable: false },
                    )
                    &&& batch_opened(
                        before,
                        reliable,
                        after,
                        Ok::<Batch, DbError>(Batch(before.next_batch)),
                    )
                },
                Err(ExecError::Db(e)) => left == session && batch_opened(
                    before,
                    reliable,
                    after,
                    Err::<Batch, DbError>(e),
                ),
                Err(_) => false,
            }
        },
        Command::BatchWrite { batch, tree, key, value } => {
            &&& left == session
            &&& lines.len() == 0
            &&& if session.batches.contains_key(batch@) {
                logged_for_batch(
                    before,
                    reliable,
                    after,
                    tree@,
                    session.batches[batch@],
                    LogCommandView::Write {
                        batch: session.batches[batch@].number,
                        key: bytes_of(key@),
                        value: bytes_of(value@),
                    },
                    r,
                )
            } else {
                no_such_batch(r, batch@) && after == before
            }
        },
        Command::BatchDelete { batch, tree, key } => {
            &&& left == session
            &&& lines.len() == 0
            &&& if session.batches.contains_key(batch@) {
                logged_for_batch(
                    before,
                    reliable,
                    after,
                    tree@,
                    session.batches[batch@],
                    LogCommandView::Delete {
                        batch: session.batches[batch@].number,
                        key: bytes_of(key@),
                    },
                    r,
                )
            } else {
                no_such_batch(r, batch@) && after == before
            }
        },
        Command::BatchDeleteRange { batch, tree, start, end } => {
            &&& left == session
            &&& lines.len() == 0
            &&& if !session.batches.contains_key(batch@) {
                no_such_batch(r, batch@) && after == before
            } else if key_lt(bytes_of(end@), bytes_of(start@)) {
                r == Err::<(), ExecError>(ExecError::InvalidRange) && after == before
            } else {
                logged_for_batch(
                    before,
                    reliable,
                    after,
                    tree@,
                    session.batches[batch@],
                    LogCommandView::DeleteRange {
                        batch: session.batches[batch@].number,
                        start_key: bytes_of(start@),
                        end_key: bytes_of(end@),
                    },
                    r,
                )
            }
        },
        Command::BatchPushSavePoint { batch } => {
            &&& lines.len() == 0
            &&& if session.batches.contains_key(batch@) {
                save_point_moved(
                    before,
                    reliable,
                    after,
                    session,
                    left,
                    batch@,
                    LogCommandView::PushSavePoint { batch: session.batches[batch@].number },
                    r,
                )
            } else {
                no_such_batch(r, batch@) && after == before && left == session
            }
        },
        Command::BatchPopSavePoint { batch } => {
            &&& lines.len() == 0
            &&& if session.batches.contains_key(batch@) {
                save_point_moved(
                    before,
                    reliable,
                    after,
                    session,
                    left,
                    batch@,
                    LogCommandView::PopSavePoint { batch: session.batches[batch@].number },
                    r,
                )
            } else {
                no_such_batch(r, batch@) && after == before && left == session
            }
        },
        Command::BatchRollbackSavePoint { batch } => {
            &&& lines.len() == 0
            &&& if session.batches.contains_key(batch@) {
                save_point_moved(
                    before,
                    reliable,
                    after,
                    session,
                    left,
                    batch@,
                    LogCommandView::RollbackSavePoint { batch: session.batches[batch@].number },
                    r,
                )
            } else {
                no_such_batch(r, batch@) && after == before && left == session
            }
        },
        Command::BatchCommit { batch } => {
            &&& left == session
            &&& lines.len() == 0
            &&& if session.batches.contains_key(batch@) {
                db_said(r) matches Some(said) && commit_done(
                    before,
                    reliable,
                    after,
                    session.batches[batch@].number,
                    session.batches[batch@].unusable,
                    said,
                )
            } else {
                no_such_batch(r, batch@) && after == before
            }
        },
        Command::BatchAbort { batch } => {
            &&& left == session
            &&& lines.len() == 0
            &&& if session.batches.contains_key(batch@) {
                r is Ok && abort_done(before, reliable, after, session.batches[batch@].number)
            } else {
                no_such_batch(r, batch@) && after == before
            }
        },
        Command::BatchClose { batch } => {
            &&& lines.len() == 0
            &&& left.views == session.views
            &&& if session.batches.contains_key(batch@) {
                &&& r is Ok
                &&& left.batches == session.batches.remove(batch@)
                &&& close_done(before, reliable, after, session.batches[batch@].number)
            } else {
                no_such_batch(r, batch@) && after == before && left == session
            }
        },
        Command::ViewOpen { view } => {
            &&& r is Ok
            &&& after == before
            &&& lines.len() == 0
            &&& left.batches == session.batches
            &&& left.views == session.views.insert(view@, now)
        },
        Command::ViewRead { view, tree, key } => {
            &&& left == session
            &&& after == before
            &&& if session.views.contains_key(view@) {
                line_shown(before, reliable, session.views[view@], tree@, bytes_of(key@), lines, r)
            } else {
                no_such_view(r, view@) && lines.len() == 0
            }
        },
        Command::ViewIterate { view, tree } => {
            &&& left == session
            &&& after == before
            &&& if session.views.contains_key(view@) {
                listing_shown(before, reliable, session.views[view@], tree@, lines, r)
            } else {
                no_such_view(r, view@) && lines.len() == 0
            }
        },
        Command::ViewClose { view } => {
            &&& r is Ok
            &&& after == before
            &&& lines.len() == 0
            &&& left.batches == session.batches
            &&& left.views == session.views.remove(view@)
        },
    }
}

/// What one command of a script made of the database, of what the script
/// has open and of what it shows. Whatever the command, the database keeps
/// its trees, the views that were taken before read what they read, and
/// what the script had shown stays shown; what the command itself did is
/// said by `command_did`.
pub open spec fn command_ran(
    before: DbView,
    reliable: bool,
    after: DbView,
    session: SessionView,
    left: SessionView,
    command: Command,
    shown_before: Seq<Line>,
    shown_after: Seq<Line>,
    r: Result<(), ExecError>,
) -> bool {
    &&& carried_on(before, after)
    &&& shown_after.len() >= shown_before.len()
    &&& shown_after.take(shown_before.len() as int) == shown_before
    &&& recoverable(before) ==> recoverable(after)
    &&& r is Err ==> after.view_commit_limit == before.view_commit_limit
    &&& command_did(
        before,
        reliable,
        after,
        session,
        left,
        command,
        shown_after.skip(shown_before.len() as int),
        r,
    )
}

/// One step of a script: what is in the database, what the script has
/// open, and what it has shown.
pub struct Stage {
    pub db: DbView,
    pub session: SessionView,
    pub shown: Seq<Line>,
}

/// The commands were run one after the other, up to the first that failed:
/// `stages` are the stage before the first command and the one after every
/// command that was run. At every stage the database is in order.
pub open spec fn ran_in_steps(
    before: DbView,
    reliable: bool,
    after: DbView,
    commands: Seq<Command>,
    stages: Seq<Stage>,
    r: Result<Vec<Line>, ExecError>,
) -> bool {
    let done = stages.len() - 1;
    &&& 1 <= stages.len() <= commands.len() + 1
    &&& stages[0] == (Stage {
        db: before,
        session: SessionView { batches: Map::empty(), views: Map::empty() },
        shown: Seq::empty(),
    })
    &&& stages.last().db == after
    &&& forall|k: int| 0 <= k < stages.len() ==> (#[trigger] stages[k]).db.valid()
    &&& forall|k: int|
        0 <= k < done - 1 ==> stepped(stages[k], reliable, stages[k + 1], #[trigger] commands[k], Ok(()))
    &&& match r {
        Ok(lines) => {
            &&& done == commands.len()
            &&& lines@ == stages.last().shown
            &&& done >= 1 ==> stepped(
                stages[done - 1],
                reliable,
                stages[done],
                commands[done - 1],
                Ok(()),
            )
        },
        Err(e) => {
            &&& done >= 1
            &&& stepped(stages[done - 1], reliable, stages[done], commands[done - 1], Err(e))
        },
    }
}

/// The command led from one stage of a script to the next.
pub open spec fn stepped(
    from: Stage,
    reliable: bool,
    to: Stage,
    command: Command,
    r: Result<(), ExecError>,
) -> bool {
    command_ran(from.db, reliable, to.db, from.session, to.session, command, from.shown, to.shown, r)
}

/// What a script made of the database: its commands were run one after
/// the other, each on what the one before it left, up to the first that
/// failed. The script starts with no batch and no view open. The result is
/// what all of the commands showed, or the error of the one that failed.
pub open spec fn script_ran(
    before: DbView,
    reliable: bool,
    after: DbView,
    commands: Seq<Command>,
    r: Result<Vec<Line>, ExecError>,
) -> bool {
    exists|stages: Seq<Stage>| ran_in_steps(before, reliable, after, commands, stages, r)
}

/// Shows what a view with the commit limit of `view` reads under `key` in
/// the tree called `tree`.
fn show_line<T: LogFile<Cmd = LogCommand>, C: LogFile<Cmd = CommitCommand>>(
    db: &Db<T, C>,
    view: &ReadView,
    tree: &String,
    key: &String,
    out: &mut Vec<Line>,
) -> (r: Result<(), ExecError>)
    requires
        db.wf(),
        db@.initialized,
    ensures
        final(out)@.len() >= old(out)@.len(),
        final(out)@.take(old(out)@.len() as int) == old(out)@,
        line_shown(
            db@,
            db.reliable(),
            view.commit_limit(),
            tree@,
            bytes_of(key@),
            final(out)@.skip(old(out)@.len() as int),
            r,
        ),
{
    let bytes = word_bytes(key);
    assert(out@.take(out@.len() as int) =~= out@);
    match view.tree(tree.as_str()).read(db, bytes.as_slice()) {
        Ok(value) => {
            out.push(Line { key: bytes, value });
            assert(out@.take(old(out)@.len() as int) =~= old(out)@);
            Ok(())
        },
        Err(e) => Err(ExecError::Db(e)),
    }
}

/// Shows what a view with the commit limit of `view` sees in the tree
/// called `tree`, key by key.
fn iterate<T: LogFile<Cmd = LogCommand>, C: LogFile<Cmd = CommitCommand>>(
    db: &Db<T, C>,
    view: &ReadView,
    tree: &String,
    out: &mut Vec<Line>,
) -> (r: Result<(), ExecError>)
    requires
        db.wf(),
        db@.initialized,
    ensures
        final(out)@.len() >= old(out)@.len(),
        final(out)@.take(old(out)@.len() as int) == old(out)@,
        listing_shown(
            db@,
            db.reliable(),
            view.commit_limit(),
            tree@,
            final(out)@.skip(old(out)@.len() as int),
            r,
        ),
{
    assert(out@.take(out@.len() as int) =~= out@);
    let entries = match view.tree(tree.as_str()).entries(db) {
        Ok(entries) => entries,
        Err(e) => {
            return Err(ExecError::Db(e));
        },
    };
    let ghost listing = pairs_view(entries@);
    let ghost start = out@.len();
    let mut i: usize = 0;
    while i < entries.len()
        invariant
            i <= entries@.len(),
            start == old(out)@.len(),
            listing == pairs_view(entries@),
            out@.len() == start + i,
            out@.take(start as int) == old(out)@,
            forall|k: int|
                0 <= k < i ==> (#[trigger] out@[start + k]).key@ == listing[k].0 && value_view(
                    out@[start + k].value,
                ) == Some(listing[k].1),
        decreases entries.len() - i,
    {
        let ghost before = out@;
        let line = Line {
            key: copy_bytes(&entries[i].0.0),
            value: Some(copy_bytes(&entries[i].1.0)),
        };
        out.push(line);
        proof {
            assert(out@.take(start as int) =~= before.take(start as int));
            assert forall|k: int| 0 <= k < i + 1 implies (#[trigger] out@[start + k]).key@
                == listing[k].0 && value_view(out@[start + k].value) == Some(listing[k].1) by {
                if k < i {
                    assert(out@[start + k] == before[start + k]);
                }
            }
        }
        i = i + 1;
    }
    proof {
        let added = out@.skip(start as int);
        let lines = shown(added);
        assert(lines =~= listing) by {
            assert forall|k: int| 0 <= k < listing.len() implies lines[k] == listing[k] by {
                assert(added[k] == out@[start + k]);
            }
        }
        assert forall|k: int| 0 <= k < added.len() implies (#[trigger] added[k]).value is Some by {
            assert(added[k] == out@[start + k]);
        }
    }
    Ok(())
}

/// Runs one command of a script on the database, and adds what the
/// command shows to `out`.
pub fn exec_command<T: LogFile<Cmd = LogCommand>, C: LogFile<Cmd = CommitCommand>>(
    db: &mut Db<T, C>,
    session: &mut Session,
    command: &Command,
    out: &mut Vec<Line>,
) -> (r: Result<(), ExecError>)
    requires
        old(db).wf(),
        old(db)@.initialized,
        old(session).wf(),
    ensures
        final(db).wf(),
        final(db).reliable() == old(db).reliable(),
        final(session).wf(),
        command_ran(
            old(db)@,
            old(db).reliable(),
            final(db)@,
            old(session)@,
            final(session)@,
            *command,
            old(out)@,
            final(out)@,
            r,
        ),
{
    assert(out@.take(out@.len() as int) =~= out@);
    assert(same_views(db@, db@));
    match command {
        Command::Write { tree, key, value } => {
            match write_now(db, tree, &word_bytes(key), &word_bytes(value)) {
                Ok(()) => Ok(()),
                Err(e) => Err(ExecError::Db(e)),
            }
        },
        Command::Delete { tree, key } => in_own_batch(db, tree, &word_bytes(key), None),
        Command::DeleteRange { tree, start, end } => {
            let end = word_bytes(end);
            in_own_batch(db, tree, &word_bytes(start), Some(&end))
        },
        Command::Read { tree, key } => {
            let view = db.read_view();
            show_line(db, &view, tree, key, out)
        },
        Command::ReadAssert { tree, key, expected_value } => {
            let view = db.read_view();
            let bytes = word_bytes(key);
            match view.tree(tree.as_str()).read(db, bytes.as_slice()) {
                Ok(value) => {
                    if as_expected(&value, expected_value) {
                        out.push(Line { key: bytes, value });
                        assert(out@.take(old(out)@.len() as int) =~= old(out)@);
                        Ok(())
                    } else {
                        Err(
                            ExecError::AssertFailed {
                                key: key.clone(),
                                expected: expected_value.clone(),
                                found: value,
                            },
                        )
                    }
                },
                Err(e) => Err(ExecError::Db(e)),
            }
        },
        Command::Iterate { tree } => {
            let view = db.read_view();
            iterate(db, &view, tree, out)
        },
        Command::BatchOpen { batch } => {
            match db.write_batch() {
                Ok(opened) => {
                    session.put_batch(batch, opened);
                    Ok(())
                },
                Err(e) => Err(ExecError::Db(e)),
            }
        },
        Command::BatchWrite { batch, tree, key, value } => {
            match session.find_batch(batch) {
                None => Err(ExecError::UnknownBatch { name: batch.clone() }),
                Some(i) => {
                    let key = word_bytes(key);
                    let value = word_bytes(value);
                    match session.batches[i].1.tree(tree.as_str()).write(
                        db,
                        key.as_slice(),
                        value.as_slice(),
                    ) {
                        Ok(()) => Ok(()),
                        Err(e) => Err(ExecError::Db(e)),
                    }
                },
            }
        },
        Command::BatchDelete { batch, tree, key } => {
            match session.find_batch(batch) {
                None => Err(ExecError::UnknownBatch { name: batch.clone() }),
                Some(i) => {
                    let key = word_bytes(key);
                    match session.batches[i].1.tree(tree.as_str()).delete(db, key.as_slice()) {
                        Ok(()) => Ok(()),
                        Err(e) => Err(ExecError::Db(e)),
                    }
                },
            }
        },
        Command::BatchDeleteRange { batch, tree, start, end } => {
            match session.find_batch(batch) {
                None => Err(ExecError::UnknownBatch { name: batch.clone() }),
                Some(i) => {
                    let start = word_bytes(start);
                    let end = word_bytes(end);
                    if order_bytes(&start, &end) == KeyOrder::Greater {
                        return Err(ExecError::InvalidRange);
                    }
                    proof {
                        crate::types::lemma_key_lt_total(start@, end@);
                    }
                    match session.batches[i].1.tree(tree.as_str()).delete_range(
                        db,
                        start.as_slice(),
                        end.as_slice(),
                    ) {
                        Ok(()) => Ok(()),
                        Err(e) => Err(ExecError::Db(e)),
                    }
                },
            }
        },
        Command::BatchPushSavePoint { batch } => {
            match session.take_batch(batch) {
                None => Err(ExecError::UnknownBatch { name: batch.clone() }),
                Some(found) => {
                    let mut found = found;
                    let done = found.push_save_point(db);
                    let ghost put = open_batch(found);
                    session.put_batch(batch, found);
                    assert(session@.batches =~= old(session)@.batches.insert(batch@, put));
                    match done {
                        Ok(()) => Ok(()),
                        Err(e) => Err(ExecError::Db(e)),
                    }
                },
            }
        },
        Command::BatchPopSavePoint { batch } => {
            match session.take_batch(batch) {
                None => Err(ExecError::UnknownBatch { name: batch.clone() }),
                Some(found) => {
                    let mut found = found;
                    let done = found.pop_save_point(db);
                    let ghost put = open_batch(found);
                    session.put_batch(batch, found);
                    assert(session@.batches =~= old(session)@.batches.insert(batch@, put));
                    match done {
                        Ok(()) => Ok(()),
                        Err(e) => Err(ExecError::Db(e)),
                    }
                },
            }
        },
        Command::BatchRollbackSavePoint { batch } => {
            match session.take_batch(batch) {
                None => Err(ExecError::UnknownBatch { name: batch.clone() }),
                Some(found) => {
                    let mut found = found;
                    let done = found.rollback_save_point(db);
                    let ghost put = open_batch(found);
                    session.put_batch(batch, found);
                    assert(session@.batches =~= old(session)@.batches.insert(batch@, put));
                    match done {
                        Ok(()) => Ok(()),
                        Err(e) => Err(ExecError::Db(e)),
                    }
                },
            }
        },
        Command::BatchCommit { batch } => {
            match session.find_batch(batch) {
                None => Err(ExecError::UnknownBatch { name: batch.clone() }),
                Some(i) => match session.batches[i].1.commit(db) {
                    Ok(()) => Ok(()),
                    Err(e) => Err(ExecError::Db(e)),
                },
            }
        },
        Command::BatchAbort { batch } => {
            match session.find_batch(batch) {
                None => Err(ExecError::UnknownBatch { name: batch.clone() }),
                Some(i) => {
                    session.batches[i].1.abort(db);
                    Ok(())
                },
            }
        },
        Command::BatchClose { batch } => {
            match session.take_batch(batch) {
                None => Err(ExecError::UnknownBatch { name: batch.clone() }),
                Some(closed) => {
                    closed.close(db);
                    Ok(())
                },
            }
        },
        Command::ViewOpen { view } => {
            let opened = db.read_view();
            session.put_view(view, opened);
            Ok(())
        },
        Command::ViewRead { view, tree, key } => {
            match session.find_view(view) {
                None => Err(ExecError::UnknownView { name: view.clone() }),
                Some(i) => {
                    let found = session.views[i].1;
                    show_line(db, &found, tree, key, out)
                },
            }
        },
        Command::ViewIterate { view, tree } => {
            match session.find_view(view) {
                None => Err(ExecError::UnknownView { name: view.clone() }),
                Some(i) => {
                    let found = session.views[i].1;
                    iterate(db, &found, tree, out)
                },
            }
        },
        Command::ViewClose { view } => {
            session.take_view(view);
            Ok(())
        },
    }
}

/// Runs the commands of a script on the database, up to the first that
/// fails, and gives what they show.
pub fn exec<T: LogFile<Cmd = LogCommand>, C: LogFile<Cmd = CommitCommand>>(
    db: &mut Db<T, C>,
    commands: &Vec<Command>,
) -> (r: Result<Vec<Line>, ExecError>)
    requires
        old(db).wf(),
        old(db)@.initialized,
    ensures
        final(db).wf(),
        final(db).reliable() == old(db).reliable(),
        carried_on(old(db)@, final(db)@),
        script_ran(old(db)@, old(db).reliable(), final(db)@, commands@, r),
        recoverable(old(db)@) ==> recoverable(final(db)@),
{
    let mut session = Session::new();
    let mut out: Vec<Line> = Vec::new();
    let mut i: usize = 0;
    let ghost reliable = db.reliable();
    let ghost mut stages: Seq<Stage> = seq![Stage { db: db@, session: session@, shown: out@ }];
    proof {
        db.lemma_wf();
    }
    assert(same_views(db@, db@));
    assert(stages[0].session == (SessionView { batches: Map::empty(), views: Map::empty() }));
    assert(stages[0].shown =~= Seq::<Line>::empty());
    while i < commands.len()
        invariant
            db.wf(),
            session.wf(),
            reliable == old(db).reliable(),
            db.reliable() == reliable,
            carried_on(old(db)@, db@),
            i <= commands@.len(),
            recoverable(old(db)@) ==> recoverable(db@),
            stages.len() == i + 1,
            stages[0] == (Stage {
                db: old(db)@,
                session: SessionView { batches: Map::empty(), views: Map::empty() },
                shown: Seq::empty(),
            }),
            stages[i as int] == (Stage { db: db@, session: session@, shown: out@ }),
            forall|k: int| 0 <= k < stages.len() ==> (#[trigger] stages[k]).db.valid(),
            forall|k: int|
                0 <= k < i ==> stepped(
                    stages[k],
                    reliable,
                    stages[k + 1],
                    #[trigger] commands@[k],
                    Ok(()),
                ),
        decreases commands.len() - i,
    {
        let ghost before = db@;
        let ghost stages_before = stages;
        let done = exec_command(db, &mut session, &commands[i], &mut out);
        proof {
            lemma_same_views_twice(old(db)@, before, db@);
            db.lemma_wf();
            stages = stages.push(Stage { db: db@, session: session@, shown: out@ });
            assert forall|k: int| 0 <= k < stages.len() implies (#[trigger] stages[k]).db.valid() by {
                if k < stages_before.len() {
                    assert(stages[k] == stages_before[k]);
                }
            }
            assert forall|k: int| 0 <= k < i implies stepped(
                stages[k],
                reliable,
                stages[k + 1],
                #[trigger] commands@[k],
                Ok(()),
            ) by {
                assert(stages[k] == stages_before[k]);
                assert(stages[k + 1] == stages_before[k + 1]);
            }
            assert(stages[i as int] == stages_before[i as int]);
            assert(stepped(stages[i as int], reliable, stages[i + 1], commands@[i as int], done));
        }
        if let Err(e) = done {
            proof {
                assert(ran_in_steps(
                    old(db)@,
                    reliable,
                    db@,
                    commands@,
                    stages,
                    Err::<Vec<Line>, ExecError>(e),
                ));
            }
            return Err(e);
        }
        i = i + 1;
    }
    proof {
        assert(ran_in_steps(
            old(db)@,
            reliable,
            db@,
            commands@,
            stages,
            Ok::<Vec<Line>, ExecError>(out),
        ));
    }
    Ok(out)
}

} // verus!
