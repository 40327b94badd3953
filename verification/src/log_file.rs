//! What the engine asks of a place to keep a log: an append-only store of
//! records, each found again by the address that its append returned.

use vstd::prelude::*;
use crate::types::Address;

verus! {

/// Why a log could not do what was asked.
#[derive(Clone, Debug, PartialEq, Eq)]
pub enum LogError {
    /// No record starts at the address.
    NoRecord { address: Address },
    /// The store behind the log failed.
    Io { message: String },
    /// What the store holds is no record.
    Corrupt { message: String },
}

/// A value that a log can keep and hand out again.
pub trait Record: Sized + View {
    /// A copy of the record.
    fn duplicate(&self) -> (r: Self)
        ensures
            r@ == self@,
    ;
}

/// The addresses of a log grow from record to record, and the first
/// record stands at address 0.
pub open spec fn ordered<V>(records: Seq<(Address, V)>) -> bool {
    &&& forall|i: int, j: int|
        0 <= i < j < records.len() ==> (#[trigger] records[i]).0.0 < (#[trigger] records[j]).0.0
    &&& records.len() > 0 ==> records[0].0 == Address(0)
}

/// A record starts at `address`.
pub open spec fn has_record<V>(records: Seq<(Address, V)>, address: Address) -> bool {
    exists|i: int| 0 <= i < records.len() && (#[trigger] records[i]).0 == address
}

/// The place in the log of the record that starts at `address`.
pub open spec fn position<V>(records: Seq<(Address, V)>, address: Address) -> int {
    choose|i: int| 0 <= i < records.len() && (#[trigger] records[i]).0 == address
}

/// The record that starts at `address`.
pub open spec fn record_at<V>(records: Seq<(Address, V)>, address: Address) -> V {
    records[position(records, address)].1
}

/// The address of the record that follows the one at place `i`.
pub open spec fn next_address<V>(records: Seq<(Address, V)>, i: int) -> Option<Address> {
    if 0 <= i + 1 < records.len() {
        Some(records[i + 1].0)
    } else {
        None
    }
}

/// In an ordered log an address names one place only.
pub proof fn lemma_position<V>(records: Seq<(Address, V)>, i: int)
    requires
        ordered(records),
        0 <= i < records.len(),
    ensures
        has_record(records, records[i].0),
        position(records, records[i].0) == i,
{
    let p = position(records, records[i].0);
    assert(records[i].0 == records[i].0);
    if p < i {
        assert(records[p].0.0 < records[i].0.0);
    } else if i < p {
        assert(records[i].0.0 < records[p].0.0);
    }
}

/// The records before the last one of an ordered log are ordered.
pub proof fn lemma_ordered_prefix<V>(records: Seq<(Address, V)>, last: (Address, V))
    requires
        ordered(records.push(last)),
    ensures
        ordered(records),
{
    let grown = records.push(last);
    assert forall|i: int, j: int| 0 <= i < j < records.len() implies (#[trigger] records[i]).0.0 < (
    #[trigger] records[j]).0.0 by {
        assert(grown[i] == records[i]);
        assert(grown[j] == records[j]);
    }
    if records.len() > 0 {
        assert(grown[0] == records[0]);
    }
}

/// A record that is appended under a fresh, larger address is found there,
/// and the records before it are found where they were.
pub proof fn lemma_push_record<V>(records: Seq<(Address, V)>, address: Address, record: V)
    requires
        ordered(records.push((address, record))),
    ensures
        !has_record(records, address),
        has_record(records.push((address, record)), address),
        record_at(records.push((address, record)), address) == record,
        forall|a: Address| #[trigger]
            has_record(records, a) ==> has_record(records.push((address, record)), a) && record_at(
                records.push((address, record)),
                a,
            ) == record_at(records, a),
{
    lemma_ordered_prefix(records, (address, record));
    let after = records.push((address, record));
    let n = records.len() as int;
    assert(after[n] == (address, record));
    lemma_position(after, n);
    if has_record(records, address) {
        let p = position(records, address);
        assert(after[p] == records[p]);
        assert(after[p].0.0 < after[n].0.0);
    }
    assert forall|a: Address| #[trigger] has_record(records, a) implies has_record(after, a)
        && record_at(after, a) == record_at(records, a) by {
        let p = position(records, a);
        assert(after[p] == records[p]);
        lemma_position(after, p);
    }
}

/// What a log holds: its records in the order of the appends, each with
/// its address, and whether the log is reliable. A reliable log never fails
/// on a request that its contents can answer; one that is not may fail at
/// any time, and then leaves its contents as they were.
pub struct LogState<V> {
    pub records: Seq<(Address, V)>,
    pub reliable: bool,
    /// How many of the records, from the first on, are durable: a crash
    /// does not lose them.
    pub durable: nat,
}

impl<V> LogState<V> {
    pub open spec fn wf(self) -> bool {
        ordered(self.records) && self.durable <= self.records.len()
    }
}

/// The state of a log file of type `F`.
pub type StateOf<F> = LogState<<<F as LogFile>::Cmd as View>::V>;

/// An append-only store of records.
pub trait LogFile: Sized {
    type Cmd: Record;

    /// What the log holds. This serves the contracts only, and is never
    /// called.
    spec fn state(&self) -> LogState<<Self::Cmd as View>::V>;

    fn is_empty(&self) -> (r: Result<bool, LogError>)
        requires
            self.state().wf(),
        ensures
            r matches Ok(empty) ==> empty == (self.state().records.len() == 0),
            self.state().reliable ==> r is Ok,
    ;

    /// Appends one record, whole or not at all.
    fn append(&mut self, cmd: &Self::Cmd) -> (r: Result<Address, LogError>)
        requires
            old(self).state().wf(),
        ensures
            final(self).state().wf(),
            final(self).state().reliable == old(self).state().reliable,
            final(self).state().durable >= old(self).state().durable,
            match r {
                Ok(address) => final(self).state().records == old(self).state().records.push(
                    (address, cmd@),
                ),
                Err(_) => final(self).state().records == old(self).state().records,
            },
            old(self).state().reliable ==> r is Ok,
    ;

    /// The record at `address`, and the address of the record after it.
    fn read_at(&self, address: Address) -> (r: Result<(Self::Cmd, Option<Address>), LogError>)
        requires
            self.state().wf(),
        ensures
            r matches Ok((cmd, next)) ==> has_record(self.state().records, address) && cmd@
                == record_at(self.state().records, address) && next == next_address(
                self.state().records,
                position(self.state().records, address),
            ),
            self.state().reliable && has_record(self.state().records, address) ==> r is Ok,
    ;

    /// Makes every record appended so far durable. Where it fails, no
    /// record that was durable is lost.
    fn sync(&mut self) -> (r: Result<(), LogError>)
        requires
            old(self).state().wf(),
        ensures
            final(self).state().wf(),
            final(self).state().records == old(self).state().records,
            final(self).state().reliable == old(self).state().reliable,
            final(self).state().durable >= old(self).state().durable,
            r is Ok ==> final(self).state().durable == final(self).state().records.len(),
            old(self).state().reliable ==> r is Ok,
    ;
}

} // verus!
