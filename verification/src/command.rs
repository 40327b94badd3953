//! The commands that a tree's log carries.

use vstd::prelude::*;
use crate::types::{Batch, BatchCommit, Key, Value};

verus! {

/// One record of a tree's log.
#[derive(Clone, Debug)]
pub enum Command {
    Open { batch: Batch },
    Write { batch: Batch, key: Key, value: Value },
    Delete { batch: Batch, key: Key },
    DeleteRange { batch: Batch, start_key: Key, end_key: Key },
    PushSavePoint { batch: Batch },
    PopSavePoint { batch: Batch },
    RollbackSavePoint { batch: Batch },
    ReadyCommit { batch: Batch, batch_commit: BatchCommit },
    AbortCommit { batch: Batch, batch_commit: BatchCommit },
    Close { batch: Batch },
}

/// What a command says, with keys and values as byte sequences.
pub enum CommandView {
    Open { batch: Batch },
    Write { batch: Batch, key: Seq<u8>, value: Seq<u8> },
    Delete { batch: Batch, key: Seq<u8> },
    DeleteRange { batch: Batch, start_key: Seq<u8>, end_key: Seq<u8> },
    PushSavePoint { batch: Batch },
    PopSavePoint { batch: Batch },
    RollbackSavePoint { batch: Batch },
    ReadyCommit { batch: Batch, batch_commit: BatchCommit },
    AbortCommit { batch: Batch, batch_commit: BatchCommit },
    Close { batch: Batch },
}

impl CommandView {
    /// The batch that the command belongs to.
    pub open spec fn batch(self) -> Batch {
        match self {
            CommandView::Open { batch } => batch,
            CommandView::Write { batch, .. } => batch,
            CommandView::Delete { batch, .. } => batch,
            CommandView::DeleteRange { batch, .. } => batch,
            CommandView::PushSavePoint { batch } => batch,
            CommandView::PopSavePoint { batch } => batch,
            CommandView::RollbackSavePoint { batch } => batch,
            CommandView::ReadyCommit { batch, .. } => batch,
            CommandView::AbortCommit { batch, .. } => batch,
            CommandView::Close { batch } => batch,
        }
    }
}

impl View for Command {
    type V = CommandView;

    open spec fn view(&self) -> CommandView {
        match *self {
            Command::Open { batch } => CommandView::Open { batch },
            Command::Write { batch, key, value } => CommandView::Write {
                batch,
                key: key@,
                value: value@,
            },
            Command::Delete { batch, key } => CommandView::Delete { batch, key: key@ },
            Command::DeleteRange { batch, start_key, end_key } => CommandView::DeleteRange {
                batch,
                start_key: start_key@,
                end_key: end_key@,
            },
            Command::PushSavePoint { batch } => CommandView::PushSavePoint { batch },
            Command::PopSavePoint { batch } => CommandView::PopSavePoint { batch },
            Command::RollbackSavePoint { batch } => CommandView::RollbackSavePoint { batch },
            Command::ReadyCommit { batch, batch_commit } => CommandView::ReadyCommit {
                batch,
                batch_commit,
            },
            Command::AbortCommit { batch, batch_commit } => CommandView::AbortCommit {
                batch,
                batch_commit,
            },
            Command::Close { batch } => CommandView::Close { batch },
        }
    }
}

impl Command {
    /// The batch that the command belongs to.
    pub fn batch(&self) -> (batch: Batch)
        ensures
            batch == self@.batch(),
    {
        match self {
            Command::Open { batch } => *batch,
            Command::Write { batch, .. } => *batch,
            Command::Delete { batch, .. } => *batch,
            Command::DeleteRange { batch, .. } => *batch,
            Command::PushSavePoint { batch } => *batch,
            Command::PopSavePoint { batch } => *batch,
            Command::RollbackSavePoint { batch } => *batch,
            Command::ReadyCommit { batch, .. } => *batch,
            Command::AbortCommit { batch, .. } => *batch,
            Command::Close { batch } => *batch,
        }
    }

    /// A copy of the command.
    pub fn duplicate(&self) -> (cmd: Command)
        ensures
            cmd@ == self@,
    {
        match self {
            Command::Open { batch } => Command::Open { batch: *batch },
            Command::Write { batch, key, value } => Command::Write {
                batch: *batch,
                key: key.duplicate(),
                value: value.duplicate(),
            },
            Command::Delete { batch, key } => Command::Delete { batch: *batch, key: key.duplicate() },
            Command::DeleteRange { batch, start_key, end_key } => Command::DeleteRange {
                batch: *batch,
                start_key: start_key.duplicate(),
                end_key: end_key.duplicate(),
            },
            Command::PushSavePoint { batch } => Command::PushSavePoint { batch: *batch },
            Command::PopSavePoint { batch } => Command::PopSavePoint { batch: *batch },
            Command::RollbackSavePoint { batch } => Command::RollbackSavePoint { batch: *batch },
            Command::ReadyCommit { batch, batch_commit } => Command::ReadyCommit {
                batch: *batch,
                batch_commit: *batch_commit,
            },
            Command::AbortCommit { batch, batch_commit } => Command::AbortCommit {
                batch: *batch,
                batch_commit: *batch_commit,
            },
            Command::Close { batch } => Command::Close { batch: *batch },
        }
    }
}

} // verus!
