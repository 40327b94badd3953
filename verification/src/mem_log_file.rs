//! A log that lives in memory: a growing vector of records, each addressed
//! by its place in the vector. What it holds is as durable as it gets.

use vstd::prelude::*;
use crate::log_file::{LogError, LogFile, LogState, Record, has_record, position};
use crate::types::Address;

verus! {

pub struct MemLogFile<C: Record> {
    buffers: Vec<C>,
}

/// A new, empty log in memory.
pub fn create<C: Record>() -> (log: MemLogFile<C>)
    ensures
        log.state().wf(),
        log.state().reliable,
        log.state().records.len() == 0,
{
    MemLogFile { buffers: Vec::new() }
}

impl<C: Record> MemLogFile<C> {
    proof fn lemma_positions(&self)
        ensures
            self.buffers@.len() <= usize::MAX,
            self.state().wf(),
            forall|a: Address| #[trigger]
                has_record(self.state().records, a) <==> a.0 < self.buffers@.len(),
            forall|a: Address| #[trigger]
                has_record(self.state().records, a) ==> position(self.state().records, a) == a.0,
    {
        vstd::std_specs::vec::axiom_spec_len(&self.buffers);
        let records = self.state().records;
        assert forall|a: Address| a.0 < self.buffers@.len() implies #[trigger] has_record(
            records,
            a,
        ) by {
            assert(records[a.0 as int].0 == a);
        }
    }
}

impl<C: Record> LogFile for MemLogFile<C> {
    type Cmd = C;

    closed spec fn state(&self) -> LogState<C::V> {
        LogState {
            records: Seq::new(
                self.buffers@.len(),
                |i: int| (Address(i as u64), self.buffers@[i]@),
            ),
            reliable: true,
            durable: self.buffers@.len(),
        }
    }

    fn is_empty(&self) -> (r: Result<bool, LogError>) {
        Ok(self.buffers.len() == 0)
    }

    fn append(&mut self, cmd: &C) -> (r: Result<Address, LogError>) {
        let address = Address(self.buffers.len() as u64);
        self.buffers.push(cmd.duplicate());
        proof {
            self.lemma_positions();
            assert(final(self).state().records =~= old(self).state().records.push((address, cmd@)));
        }
        Ok(address)
    }

    fn read_at(&self, address: Address) -> (r: Result<(C, Option<Address>), LogError>) {
        proof {
            self.lemma_positions();
        }
        if address.0 >= self.buffers.len() as u64 {
            return Err(LogError::NoRecord { address });
        }
        let i = address.0 as usize;
        assert(has_record(self.state().records, address));
        assert(position(self.state().records, address) == i);
        let cmd = self.buffers[i].duplicate();
        let next = if i + 1 < self.buffers.len() {
            Some(Address((i + 1) as u64))
        } else {
            None
        };
        Ok((cmd, next))
    }

    fn sync(&mut self) -> (r: Result<(), LogError>) {
        Ok(())
    }
}

} // verus!
