//! A log of commands over a `LogFile`, with a replay of all it holds.

use vstd::prelude::*;
use crate::log_file::{LogError, LogFile, has_record, lemma_position, position, record_at};
use crate::types::Address;

verus! {

pub struct Log<F: LogFile> {
    log_file: F,
}

enum ReplayState {
    Start,
    At(Address),
    Done,
}

/// How far a replay of a log has come.
pub struct Replay {
    state: ReplayState,
}

impl Replay {
    /// The replay can go on over a log that holds `records`.
    pub closed spec fn wf<V>(&self, records: Seq<(Address, V)>) -> bool {
        self.state matches ReplayState::At(address) ==> has_record(records, address)
    }

    /// The records that the replay has yet to yield.
    pub closed spec fn remaining<V>(&self, records: Seq<(Address, V)>) -> Seq<(Address, V)> {
        match self.state {
            ReplayState::Start => records,
            ReplayState::At(address) => records.subrange(
                position(records, address),
                records.len() as int,
            ),
            ReplayState::Done => Seq::empty(),
        }
    }
}

impl<F: LogFile> Log<F> {
    pub closed spec fn inv(&self) -> bool {
        self.log_file.state().wf()
    }

    /// The records of the log in the order of their appends, each with its
    /// address.
    pub closed spec fn records(&self) -> Seq<(Address, <F::Cmd as View>::V)> {
        self.log_file.state().records
    }

    pub closed spec fn reliable(&self) -> bool {
        self.log_file.state().reliable
    }

    /// How many of the records, from the first on, are durable.
    pub closed spec fn durable(&self) -> nat {
        self.log_file.state().durable
    }

    pub proof fn lemma_ordered(&self)
        requires
            self.inv(),
        ensures
            crate::log_file::ordered(self.records()),
            self.durable() <= self.records().len(),
    {
    }

    pub fn new(log_file: F) -> (log: Log<F>)
        requires
            log_file.state().wf(),
        ensures
            log.inv(),
            log.records() == log_file.state().records,
            log.reliable() == log_file.state().reliable,
    {
        Log { log_file }
    }

    /// Gives the log file back.
    pub fn into_log_file(self) -> (log_file: F)
        requires
            self.inv(),
        ensures
            log_file.state().wf(),
            log_file.state().records == self.records(),
            log_file.state().reliable == self.reliable(),
    {
        self.log_file
    }

    pub fn is_empty(&self) -> (r: Result<bool, LogError>)
        requires
            self.inv(),
        ensures
            r matches Ok(empty) ==> empty == (self.records().len() == 0),
            self.reliable() ==> r is Ok,
    {
        self.log_file.is_empty()
    }

    pub fn append(&mut self, cmd: &F::Cmd) -> (r: Result<Address, LogError>)
        requires
            old(self).inv(),
        ensures
            final(self).inv(),
            final(self).reliable() == old(self).reliable(),
            old(self).durable() <= final(self).durable() <= final(self).records().len(),
            match r {
                Ok(address) => final(self).records() == old(self).records().push((address, cmd@)),
                Err(_) => final(self).records() == old(self).records(),
            },
            old(self).reliable() ==> r is Ok,
    {
        self.log_file.append(cmd)
    }

    /// The record at `address`.
    pub fn read_at(&self, address: Address) -> (r: Result<F::Cmd, LogError>)
        requires
            self.inv(),
        ensures
            r matches Ok(cmd) ==> has_record(self.records(), address) && cmd@ == record_at(
                self.records(),
                address,
            ),
            self.reliable() && has_record(self.records(), address) ==> r is Ok,
    {
        match self.log_file.read_at(address) {
            Ok((cmd, _)) => Ok(cmd),
            Err(e) => Err(e),
        }
    }

    /// Makes every record appended so far durable.
    pub fn sync(&mut self) -> (r: Result<(), LogError>)
        requires
            old(self).inv(),
        ensures
            final(self).inv(),
            final(self).records() == old(self).records(),
            final(self).reliable() == old(self).reliable(),
            old(self).durable() <= final(self).durable() <= final(self).records().len(),
            r is Ok ==> final(self).durable() == final(self).records().len(),
            old(self).reliable() ==> r is Ok,
    {
        self.log_file.sync()
    }

    /// Starts a replay of the log from its first record.
    pub fn replay(&self) -> (replay: Replay)
        ensures
            replay.wf(self.records()),
            replay.remaining(self.records()) == self.records(),
    {
        Replay { state: ReplayState::Start }
    }

    /// The next record of the replay with its address, `None` when the
    /// replay is over. After an error the replay is over.
    pub fn replay_next(&self, replay: &mut Replay) -> (r: Option<
        Result<(F::Cmd, Address), LogError>,
    >)
        requires
            self.inv(),
            old(replay).wf(self.records()),
        ensures
            final(replay).wf(self.records()),
            ({
                let before = old(replay).remaining(self.records());
                let after = final(replay).remaining(self.records());
                match r {
                    None => before.len() == 0 && after.len() == 0,
                    Some(Ok((cmd, address))) => {
                        &&& before.len() > 0
                        &&& before[0] == (address, cmd@)
                        &&& after == before.drop_first()
                        &&& has_record(self.records(), address)
                        &&& record_at(self.records(), address) == cmd@
                    },
                    Some(Err(_)) => !self.reliable() && after.len() == 0,
                }
            }),
    {
        let ghost records = self.records();
        let address = match replay.state {
            ReplayState::Done => {
                return None;
            },
            ReplayState::At(address) => address,
            ReplayState::Start => {
                match self.log_file.is_empty() {
                    Err(e) => {
                        replay.state = ReplayState::Done;
                        return Some(Err(e));
                    },
                    Ok(true) => {
                        replay.state = ReplayState::Done;
                        return None;
                    },
                    Ok(false) => {
                        proof {
                            lemma_position(records, 0);
                            assert(records.subrange(0, records.len() as int) =~= records);
                        }
                        Address(0)
                    },
                }
            },
        };
        let ghost p = position(records, address);
        assert(old(replay).remaining(records) == records.subrange(p, records.len() as int));
        match self.log_file.read_at(address) {
            Err(e) => {
                replay.state = ReplayState::Done;
                Some(Err(e))
            },
            Ok((cmd, next)) => {
                match next {
                    Some(n) => {
                        proof {
                            lemma_position(records, p + 1);
                            assert(records.subrange(p + 1, records.len() as int) =~= records.subrange(
                                p,
                                records.len() as int,
                            ).drop_first());
                        }
                        replay.state = ReplayState::At(n);
                    },
                    None => {
                        proof {
                            assert(records.subrange(p, records.len() as int).drop_first()
                                =~= Seq::empty());
                        }
                        replay.state = ReplayState::Done;
                    },
                }
                Some(Ok((cmd, address)))
            },
        }
    }
}

} // verus!
