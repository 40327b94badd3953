//! The commit log: the one log of a database that says which commit
//! attempts became commits, and in which order.

use vstd::prelude::*;
use crate::log::{Log, Replay};
use crate::log_file::{LogError, LogFile, Record};
use crate::types::{Address, Batch, BatchCommit, Commit};

verus! {

/// One record of the commit log: the attempt `batch_commit` of `batch`
/// became the commit `commit`.
#[derive(Clone, Copy, Debug, PartialEq, Eq, Structural)]
pub struct CommitCommand {
    pub batch: Batch,
    pub batch_commit: BatchCommit,
    pub commit: Commit,
}

impl View for CommitCommand {
    type V = CommitCommand;

    open spec fn view(&self) -> CommitCommand {
        *self
    }
}

impl Record for CommitCommand {
    fn duplicate(&self) -> (r: Self) {
        *self
    }
}

pub struct CommitLog<C: LogFile<Cmd = CommitCommand>> {
    log: Log<C>,
}

impl<C: LogFile<Cmd = CommitCommand>> CommitLog<C> {
    pub closed spec fn inv(&self) -> bool {
        self.log.inv()
    }

    /// The records of the commit log, oldest first, each with its address.
    pub closed spec fn records(&self) -> Seq<(Address, CommitCommand)> {
        self.log.records()
    }

    pub closed spec fn reliable(&self) -> bool {
        self.log.reliable()
    }

    /// How many of the records, from the first on, are durable.
    pub closed spec fn durable(&self) -> nat {
        self.log.durable()
    }

    /// No more records are durable than there are.
    pub proof fn lemma_durable(&self)
        requires
            self.inv(),
        ensures
            self.durable() <= self.records().len(),
    {
        self.log.lemma_ordered();
    }

    pub fn new(log: Log<C>) -> (commit_log: CommitLog<C>)
        requires
            log.inv(),
        ensures
            commit_log.inv(),
            commit_log.records() == log.records(),
            commit_log.reliable() == log.reliable(),
    {
        CommitLog { log }
    }

    /// Gives the log back.
    pub fn into_log(self) -> (log: Log<C>)
        requires
            self.inv(),
        ensures
            log.inv(),
            log.records() == self.records(),
            log.reliable() == self.reliable(),
    {
        self.log
    }

    pub fn is_empty(&self) -> (r: Result<bool, LogError>)
        requires
            self.inv(),
        ensures
            r matches Ok(empty) ==> empty == (self.records().len() == 0),
            self.reliable() ==> r is Ok,
    {
        self.log.is_empty()
    }

    /// Starts a replay of the commit log from its first record.
    pub fn replay(&self) -> (replay: Replay)
        ensures
            replay.wf(self.records()),
            replay.remaining(self.records()) == self.records(),
    {
        self.log.replay()
    }

    /// The next record of the replay, `None` when the replay is over.
    pub fn replay_next(&self, replay: &mut Replay) -> (r: Option<Result<CommitCommand, LogError>>)
        requires
            self.inv(),
            old(replay).wf(self.records()),
        ensures
            final(replay).wf(self.records()),
            ({
                let before = old(replay).remaining(self.records());
                let after = final(replay).remaining(self.records());
                match r {
                    None => before.len() == 0 && after.len() == 0,
                    Some(Ok(cmd)) => {
                        &&& before.len() > 0
                        &&& before[0].1 == cmd
                        &&& after == before.drop_first()
                    },
                    Some(Err(_)) => !self.reliable() && after.len() == 0,
                }
            }),
    {
        match self.log.replay_next(replay) {
            None => None,
            Some(Ok((cmd, _))) => Some(Ok(cmd)),
            Some(Err(e)) => Some(Err(e)),
        }
    }

    /// Records that the attempt `batch_commit` of `batch` is the commit
    /// `commit`.
    pub fn commit(&mut self, batch: Batch, batch_commit: BatchCommit, commit: Commit) -> (r: Result<
        (),
        LogError,
    >)
        requires
            old(self).inv(),
        ensures
            final(self).inv(),
            final(self).reliable() == old(self).reliable(),
            match r {
                Ok(()) => final(self).records().len() == old(self).records().len() + 1 && final(self).records().drop_last() == old(self).records() && final(self).records().last().1
                    == (CommitCommand { batch, batch_commit, commit }),
                Err(_) => final(self).records() == old(self).records() && !old(self).reliable(),
            },
    {
        let cmd = CommitCommand { batch, batch_commit, commit };
        match self.log.append(&cmd) {
            Ok(address) => {
                assert(self.records().drop_last() =~= old(self).records());
                Ok(())
            },
            Err(e) => Err(e),
        }
    }

    /// Makes every record of the commit log durable.
    pub fn sync(&mut self) -> (r: Result<(), LogError>)
        requires
            old(self).inv(),
        ensures
            final(self).inv(),
            final(self).records() == old(self).records(),
            final(self).reliable() == old(self).reliable(),
            old(self).durable() <= final(self).durable() <= final(self).records().len(),
            r is Ok ==> final(self).durable() == final(self).records().len(),
            old(self).reliable() ==> r is Ok,
    {
        self.log.sync()
    }
}

} // verus!
