//! One tree: a log of commands, the recordings of its open batches and the
//! index over what was committed.

use vstd::prelude::*;
use crate::batch_player::{
    BatchPlayer,
    IndexOp,
    IndexOpView,
    PlayerError,
    Step,
    lemma_replayed_bounded,
    lemma_terminator,
    max_ops,
    ops_view,
    played,
    recorded,
    rejection,
    replayed,
    terminator_from,
    unended,
};
use crate::command::{Command, CommandView};
use crate::index::{
    BatchIdx,
    Entry,
    Index,
    IndexView,
    RangeDeleteView,
    ReadValue,
    first_visible,
    last_visible,
    latest_range_delete,
    lemma_visible_is_written,
    new_index,
};
use crate::log::{Log, Replay};
use crate::log_file::{
    LogError,
    LogFile,
    Record,
    has_record,
    lemma_push_record,
    ordered,
    record_at,
};
use crate::types::{Address, Batch, BatchCommit, Commit, Key, Value, key_le};

verus! {

impl Record for Command {
    fn duplicate(&self) -> (r: Self) {
        Command::duplicate(self)
    }
}

/// Why a tree could not do what was asked.
#[derive(Clone, Debug, PartialEq, Eq)]
pub enum TreeError {
    /// The log failed.
    Log(LogError),
    /// The command does not fit what the batch has recorded.
    Player(PlayerError),
    /// The record that the index points to is no write of the key.
    UnexpectedLog,
    /// A record of the tree's log ends a batch of the commit in hand under
    /// another attempt, or another batch under its attempt.
    BatchMismatch,
    /// The tree's log ends a commit attempt twice. Only an attempt that
    /// was made ready may be ended once more, by the record that gives it
    /// up.
    DuplicateBatchCommit,
    /// The tree's log holds no end of the commit attempt.
    CommitNotFound,
    /// The batch was closed before its commit came up.
    BatchClosedBeforeCommit,
    /// The commit does not lie above the commits before it.
    NonMonotonicCommit,
}

/// What one operation of a commit makes of the index.
pub open spec fn apply_op(index: IndexView, commit: Commit, op: IndexOpView, batch_idx: BatchIdx) -> IndexView {
    match op {
        IndexOpView::Write { key, address } => index.with_entry(
            key,
            Entry { commit, value: ReadValue::Written(address), batch_idx },
        ),
        IndexOpView::Delete { key, address } => index.with_entry(
            key,
            Entry { commit, value: ReadValue::Deleted(address), batch_idx },
        ),
        IndexOpView::DeleteRange { start_key, end_key, .. } => index.with_range(
            RangeDeleteView { commit, start: start_key, end: end_key, batch_idx },
        ),
    }
}

/// What the operations of a commit make of the index, each numbered by its
/// place among them.
pub open spec fn apply_ops(index: IndexView, commit: Commit, ops: Seq<IndexOpView>) -> IndexView
    decreases ops.len(),
{
    if ops.len() == 0 {
        index
    } else {
        apply_op(
            apply_ops(index, commit, ops.drop_last()),
            commit,
            ops.last(),
            BatchIdx((ops.len() - 1) as u32),
        )
    }
}

/// The operations of a commit leave the watermark alone, and what is being
/// written.
pub proof fn lemma_apply_ops_frame(index: IndexView, commit: Commit, ops: Seq<IndexOpView>)
    ensures
        apply_ops(index, commit, ops).watermark == index.watermark,
        apply_ops(index, commit, ops).writing == index.writing,
    decreases ops.len(),
{
    if ops.len() > 0 {
        lemma_apply_ops_frame(index, commit, ops.drop_last());
    }
}

/// The index after a whole commit: its operations are in, and the
/// watermark stands above it.
pub open spec fn committed(index: IndexView, commit: Commit, ops: Seq<IndexOpView>) -> IndexView {
    IndexView { watermark: (commit.0 + 1) as u64, ..apply_ops(index, commit, ops) }
}

/// An index can take `commit`: it lies at or above the watermark, and a
/// watermark can stand above it.
pub open spec fn can_commit(index: IndexView, commit: Commit) -> bool {
    index.watermark <= commit.0 < u64::MAX
}

/// The value that the record at `address` writes under `key`, `None` where
/// the record is no write of that key.
pub open spec fn stored_value(
    records: Seq<(Address, CommandView)>,
    address: Address,
    key: Seq<u8>,
) -> Option<Seq<u8>> {
    if has_record(records, address) {
        match record_at(records, address) {
            CommandView::Write { key: k, value, .. } => if k == key {
                Some(value)
            } else {
                None
            },
            _ => None,
        }
    } else {
        None
    }
}

/// Every write among `steps` names the address of a record that writes
/// its key.
pub open spec fn steps_found(records: Seq<(Address, CommandView)>, steps: Seq<Step>) -> bool {
    forall|i: int|
        0 <= i < steps.len() ==> ((#[trigger] steps[i]) matches Step::Op(
            IndexOpView::Write { key, address },
        ) ==> stored_value(records, address, key) is Some)
}

/// Every write among `ops` names the address of a record that writes its
/// key.
pub open spec fn ops_found(records: Seq<(Address, CommandView)>, ops: Seq<IndexOpView>) -> bool {
    forall|i: int|
        0 <= i < ops.len() ==> ((#[trigger] ops[i]) matches IndexOpView::Write { key, address }
            ==> stored_value(records, address, key) is Some)
}

/// Every write in the recordings names the address of a record that
/// writes its key.
pub open spec fn batches_found(
    records: Seq<(Address, CommandView)>,
    batches: Map<Batch, Seq<Step>>,
) -> bool {
    forall|b: Batch| batches.contains_key(b) ==> steps_found(records, #[trigger] batches[b])
}

/// The index never names an address whose record is not a write of the
/// key.
pub open spec fn index_found(records: Seq<(Address, CommandView)>, index: IndexView) -> bool {
    forall|k: Seq<u8>, i: int|
        index.points.contains_key(k) && 0 <= i < index.points[k].len() ==> ((
        #[trigger] index.points[k][i]).value matches ReadValue::Written(address) ==> stored_value(
            records,
            address,
            k,
        ) is Some)
}

/// What a record writes under a key, it still writes after an append.
pub proof fn lemma_stored_value_kept(
    records: Seq<(Address, CommandView)>,
    last: (Address, CommandView),
    address: Address,
    key: Seq<u8>,
)
    requires
        ordered(records.push(last)),
        stored_value(records, address, key) is Some,
    ensures
        stored_value(records.push(last), address, key) == stored_value(records, address, key),
{
    lemma_push_record(records, last.0, last.1);
    assert(has_record(records, address));
}

/// The operations that a recording comes to are operations that it holds.
proof fn lemma_played_found(records: Seq<(Address, CommandView)>, steps: Seq<Step>)
    requires
        steps_found(records, steps),
    ensures
        ops_found(records, played(steps).ops),
    decreases steps.len(),
{
    if steps.len() > 0 {
        let rest = steps.drop_last();
        assert forall|i: int| 0 <= i < rest.len() implies ((#[trigger] rest[i]) matches Step::Op(
            IndexOpView::Write { key, address },
        ) ==> stored_value(records, address, key) is Some) by {
            assert(rest[i] == steps[i]);
        }
        lemma_played_found(records, rest);
        let before = played(rest).ops;
        let after = played(steps).ops;
        assert(steps.last() == steps[steps.len() - 1]);
        assert forall|i: int| 0 <= i < after.len() implies ((
        #[trigger] after[i]) matches IndexOpView::Write { key, address } ==> stored_value(
            records,
            address,
            key,
        ) is Some) by {
            if i < before.len() {
                assert(after[i] == before[i]);
            }
        }
    }
}

/// What a commit attempt puts into the index are operations that the
/// recording holds.
pub proof fn lemma_replayed_found(
    records: Seq<(Address, CommandView)>,
    steps: Seq<Step>,
    batch_commit: BatchCommit,
)
    requires
        steps_found(records, steps),
    ensures
        replayed(steps, batch_commit) matches Some(ops) ==> ops_found(records, ops),
{
    lemma_terminator(steps, batch_commit, 0);
    match terminator_from(steps, batch_commit, 0) {
        Some(t) => {
            let upto = steps.take(t);
            assert forall|i: int| 0 <= i < upto.len() implies ((
            #[trigger] upto[i]) matches Step::Op(IndexOpView::Write { key, address })
                ==> stored_value(records, address, key) is Some) by {
                assert(upto[i] == steps[i]);
            }
            lemma_played_found(records, upto);
        },
        None => {},
    }
}

/// An index that names only writes of its keys does so after a commit
/// whose writes are found in the log.
pub proof fn lemma_apply_ops_found(
    records: Seq<(Address, CommandView)>,
    index: IndexView,
    commit: Commit,
    ops: Seq<IndexOpView>,
)
    requires
        index_found(records, index),
        ops_found(records, ops),
    ensures
        index_found(records, apply_ops(index, commit, ops)),
        index_found(records, committed(index, commit, ops)),
    decreases ops.len(),
{
    if ops.len() > 0 {
        let rest = ops.drop_last();
        assert forall|i: int| 0 <= i < rest.len() implies ((
        #[trigger] rest[i]) matches IndexOpView::Write { key, address } ==> stored_value(
            records,
            address,
            key,
        ) is Some) by {
            assert(rest[i] == ops[i]);
        }
        lemma_apply_ops_found(records, index, commit, rest);
        let before = apply_ops(index, commit, rest);
        let after = apply_ops(index, commit, ops);
        assert(ops.last() == ops[ops.len() - 1]);
        assert forall|k: Seq<u8>, i: int|
            after.points.contains_key(k) && 0 <= i < after.points[k].len() implies ((
        #[trigger] after.points[k][i]).value matches ReadValue::Written(address) ==> stored_value(
            records,
            address,
            k,
        ) is Some) by {
            if before.points.contains_key(k) && i < before.points[k].len() {
                assert(after.points[k][i] == before.points[k][i]);
            }
        }
    }
}

/// A tree whose recordings and index name only writes of their keys does so
/// after a command was appended and recorded.
pub proof fn lemma_appended_sound(tree: TreeView, address: Address, cmd: CommandView)
    requires
        tree.sound(),
        ordered(tree.records.push((address, cmd))),
        rejection(tree.batches, cmd) is None,
    ensures
        tree.appended(address, cmd).sound(),
{
    let after = tree.appended(address, cmd);
    lemma_push_record(tree.records, address, cmd);
    assert forall|b: Batch| after.batches.contains_key(b) implies steps_found(
        after.records,
        #[trigger] after.batches[b],
    ) by {
        let steps = after.batches[b];
        assert forall|i: int| 0 <= i < steps.len() implies ((#[trigger] steps[i]) matches Step::Op(
            IndexOpView::Write { key, address: a },
        ) ==> stored_value(after.records, a, key) is Some) by {
            if tree.batches.contains_key(b) && i < tree.batches[b].len() {
                assert(steps_found(tree.records, tree.batches[b]));
                assert(steps[i] == tree.batches[b][i]);
                match steps[i] {
                    Step::Op(IndexOpView::Write { key, address: a }) => {
                        lemma_stored_value_kept(tree.records, (address, cmd), a, key);
                    },
                    _ => {},
                }
            }
        }
    }
    assert forall|k: Seq<u8>, i: int|
        after.index.points.contains_key(k) && 0 <= i < after.index.points[k].len() implies ((
    #[trigger] after.index.points[k][i]).value matches ReadValue::Written(a) ==> stored_value(
        after.records,
        a,
        k,
    ) is Some) by {
        match after.index.points[k][i].value {
            ReadValue::Written(a) => {
                lemma_stored_value_kept(tree.records, (address, cmd), a, k);
            },
            _ => {},
        }
    }
}

/// The operation touches the key: it writes or deletes it, or deletes a
/// range that holds it.
pub open spec fn touches(op: IndexOpView, key: Seq<u8>) -> bool {
    match op {
        IndexOpView::Write { key: k, .. } => k == key,
        IndexOpView::Delete { key: k, .. } => k == key,
        IndexOpView::DeleteRange { start_key, end_key, .. } => crate::types::in_range(
            key,
            start_key,
            end_key,
        ),
    }
}

/// Operations that do not touch a key change nothing that any reader sees
/// under it.
pub proof fn lemma_untouched_key(
    index: IndexView,
    commit: Commit,
    ops: Seq<IndexOpView>,
    limit: Commit,
    key: Seq<u8>,
)
    requires
        forall|j: int| 0 <= j < ops.len() ==> !touches(#[trigger] ops[j], key),
    ensures
        apply_ops(index, commit, ops).visible(limit, key) == index.visible(limit, key),
    decreases ops.len(),
{
    if ops.len() > 0 {
        let rest = ops.drop_last();
        assert forall|j: int| 0 <= j < rest.len() implies !touches(#[trigger] rest[j], key) by {
            assert(rest[j] == ops[j]);
        }
        lemma_untouched_key(index, commit, rest, limit, key);
        let base = apply_ops(index, commit, rest);
        let after = apply_ops(index, commit, ops);
        assert(!touches(ops.last(), key));
        match ops.last() {
            IndexOpView::DeleteRange { start_key, end_key, .. } => {
                assert(after.ranges.drop_last() =~= base.ranges);
            },
            _ => {
                assert(after.history(key) == base.history(key));
            },
        }
    }
}

/// Range deletes that all lie below a commit limit are seen alike from
/// that limit and from every limit above it.
proof fn lemma_ranges_below(ranges: Seq<RangeDeleteView>, floor: Commit, limit: Commit, key: Seq<u8>)
    requires
        forall|i: int| 0 <= i < ranges.len() ==> (#[trigger] ranges[i]).commit.0 < floor.0,
        floor.0 <= limit.0,
    ensures
        latest_range_delete(ranges, limit, key) == latest_range_delete(ranges, floor, key),
    decreases ranges.len(),
{
    if ranges.len() > 0 {
        let rest = ranges.drop_last();
        assert forall|i: int| 0 <= i < rest.len() implies (#[trigger] rest[i]).commit.0
            < floor.0 by {
            assert(rest[i] == ranges[i]);
        }
        assert(ranges.last() == ranges[ranges.len() - 1]);
        lemma_ranges_below(rest, floor, limit, key);
    }
}

/// An index in which no commit is being written shows from every limit
/// at or above its watermark what it shows from the watermark.
pub proof fn lemma_nothing_above_watermark(index: IndexView, limit: Commit, key: Seq<u8>)
    requires
        index.inv(),
        index.writing is None,
        index.watermark <= limit.0,
    ensures
        index.visible(limit, key) == index.visible(Commit(index.watermark), key),
{
    let floor = Commit(index.watermark);
    let history = index.history(key);
    if history.len() > 0 {
        assert(index.settled(index.points[key][history.len() - 1].commit));
    }
    assert forall|i: int| 0 <= i < index.ranges.len() implies (#[trigger] index.ranges[i]).commit.0
        < floor.0 by {
        assert(index.settled(index.ranges[i].commit));
    }
    lemma_ranges_below(index.ranges, floor, limit, key);
}

/// No reader whose limit lies at or below a commit sees what the commit
/// puts into the index.
pub proof fn lemma_commit_unseen(
    index: IndexView,
    commit: Commit,
    ops: Seq<IndexOpView>,
    limit: Commit,
    key: Seq<u8>,
)
    requires
        limit.0 <= commit.0,
    ensures
        apply_ops(index, commit, ops).visible(limit, key) == index.visible(limit, key),
        committed(index, commit, ops).visible(limit, key) == index.visible(limit, key),
    decreases ops.len(),
{
    if ops.len() > 0 {
        lemma_commit_unseen(index, commit, ops.drop_last(), limit, key);
        let before = apply_ops(index, commit, ops.drop_last());
        let batch_idx = BatchIdx((ops.len() - 1) as u32);
        match ops.last() {
            IndexOpView::Write { key: k, address } => {
                crate::index::lemma_later_entry_unseen(
                    before,
                    k,
                    Entry { commit, value: ReadValue::Written(address), batch_idx },
                    limit,
                    key,
                );
            },
            IndexOpView::Delete { key: k, address } => {
                crate::index::lemma_later_entry_unseen(
                    before,
                    k,
                    Entry { commit, value: ReadValue::Deleted(address), batch_idx },
                    limit,
                    key,
                );
            },
            IndexOpView::DeleteRange { start_key, end_key, .. } => {
                crate::index::lemma_later_range_unseen(
                    before,
                    RangeDeleteView { commit, start: start_key, end: end_key, batch_idx },
                    limit,
                    key,
                );
            },
        }
    }
}

/// The records `a` are the first of the records `b`.
pub open spec fn is_prefix(
    a: Seq<(Address, CommandView)>,
    b: Seq<(Address, CommandView)>,
) -> bool {
    a.len() <= b.len() && b.take(a.len() as int) == a
}

/// What a record writes under a key, it still writes after the log has
/// grown.
pub proof fn lemma_stored_value_in_prefix(
    a: Seq<(Address, CommandView)>,
    b: Seq<(Address, CommandView)>,
    address: Address,
    key: Seq<u8>,
)
    requires
        is_prefix(a, b),
        ordered(b),
        stored_value(a, address, key) is Some,
    ensures
        stored_value(b, address, key) == stored_value(a, address, key),
{
    assert(ordered(a)) by {
        assert forall|i: int, j: int| 0 <= i < j < a.len() implies (#[trigger] a[i]).0.0 < (
        #[trigger] a[j]).0.0 by {
            assert(b.take(a.len() as int)[i] == b[i]);
            assert(b.take(a.len() as int)[j] == b[j]);
        }
        if a.len() > 0 {
            assert(b.take(a.len() as int)[0] == b[0]);
        }
    }
    let p = crate::log_file::position(a, address);
    assert(b.take(a.len() as int)[p] == b[p]);
    crate::log_file::lemma_position(a, p);
    crate::log_file::lemma_position(b, p);
}

/// A reader whose limit lies at or below `floor` reads in `after` what it
/// read in `before`.
pub open spec fn tree_keeps(before: TreeView, after: TreeView, floor: u64) -> bool {
    forall|limit: Commit, key: Seq<u8>|
        limit.0 <= floor ==> #[trigger] after.value(limit, key) == before.value(limit, key)
}

/// A tree whose log has grown, and whose index shows the readers up to
/// `floor` what it showed them, lets them read what they read.
pub proof fn lemma_tree_keeps(before: TreeView, after: TreeView, floor: u64)
    requires
        is_prefix(before.records, after.records),
        ordered(after.records),
        index_found(before.records, before.index),
        forall|limit: Commit, key: Seq<u8>|
            limit.0 <= floor ==> #[trigger] after.index.visible(limit, key) == before.index.visible(
                limit,
                key,
            ),
    ensures
        tree_keeps(before, after, floor),
{
    assert forall|limit: Commit, key: Seq<u8>| limit.0 <= floor implies #[trigger] after.value(
        limit,
        key,
    ) == before.value(limit, key) by {
        assert(after.index.visible(limit, key) == before.index.visible(limit, key));
        lemma_visible_is_written(before.index, limit, key);
        match before.index.visible(limit, key) {
            Some(address) => {
                lemma_stored_value_in_prefix(before.records, after.records, address, key);
            },
            None => {},
        }
    }
}

/// `entries` are the keys under which a reader with `limit` sees a value
/// in the tree, in their order, each with its value.
pub open spec fn is_listing(tree: TreeView, limit: Commit, entries: Seq<(Seq<u8>, Seq<u8>)>) -> bool {
    &&& forall|i: int, j: int|
        0 <= i < j < entries.len() ==> crate::types::key_lt(
            (#[trigger] entries[i]).0,
            (#[trigger] entries[j]).0,
        )
    &&& forall|i: int|
        0 <= i < entries.len() ==> tree.index.visible(limit, (#[trigger] entries[i]).0) is Some
            && tree.value(limit, entries[i].0) == Some(entries[i].1)
    &&& forall|k: Seq<u8>| #[trigger]
        tree.index.visible(limit, k) is Some ==> exists|i: int|
            0 <= i < entries.len() && (#[trigger] entries[i]).0 == k
}

pub open spec fn value_view(value: Option<Value>) -> Option<Seq<u8>> {
    match value {
        Some(v) => Some(v@),
        None => None,
    }
}

pub open spec fn pairs_view(entries: Seq<(Key, Value)>) -> Seq<(Seq<u8>, Seq<u8>)> {
    Seq::new(entries.len(), |i: int| (entries[i].0@, entries[i].1@))
}

/// What a tree holds.
pub struct TreeView {
    /// The tree was recovered from its log, or needed no recovery.
    pub initialized: bool,
    /// The records of the log, each with its address.
    pub records: Seq<(Address, CommandView)>,
    /// The recordings of the open batches.
    pub batches: Map<Batch, Seq<Step>>,
    pub index: IndexView,
}

impl TreeView {
    /// The tree after `cmd` was appended at `address` and recorded.
    pub open spec fn appended(self, address: Address, cmd: CommandView) -> TreeView {
        TreeView {
            records: self.records.push((address, cmd)),
            batches: recorded(self.batches, cmd, address),
            ..self
        }
    }

    /// The recordings and the index name only addresses of records that
    /// write their keys.
    pub open spec fn sound(self) -> bool {
        &&& batches_found(self.records, self.batches)
        &&& index_found(self.records, self.index)
    }

    /// The value that a reader with `limit` sees under `key`.
    pub open spec fn value(self, limit: Commit, key: Seq<u8>) -> Option<Seq<u8>> {
        match self.index.visible(limit, key) {
            Some(address) => stored_value(self.records, address, key),
            None => None,
        }
    }
}

pub struct Tree<F: LogFile<Cmd = Command>> {
    initialized: bool,
    log: Log<F>,
    batch_player: BatchPlayer,
    index: Index,
}

/// The hand of one batch in one tree.
pub struct BatchWriter {
    batch: Batch,
}

/// A cursor over a tree as a reader with a commit limit sees it.
pub struct Cursor {
    index_cursor: crate::index::Cursor,
    value: Option<Value>,
}

/// Puts the operations of the commit attempt `batch_commit` of `batch`
/// into the index under `commit`.
pub fn commit_to_index(
    batch_player: &BatchPlayer,
    index: &mut Index,
    batch: Batch,
    batch_commit: BatchCommit,
    commit: Commit,
) -> (r: Result<(), PlayerError>)
    requires
        batch_player.wf(),
        old(index).wf(),
        old(index)@.writing is None,
        can_commit(old(index)@, commit),
    ensures
        final(index).wf(),
        final(index)@.writing is None,
        match r {
            Ok(()) => {
                &&& batch_player@.contains_key(batch)
                &&& replayed(batch_player@[batch], batch_commit) matches Some(ops)
                &&& final(index)@ == committed(old(index)@, commit, ops)
            },
            Err(e) => {
                &&& final(index)@ == old(index)@
                &&& if batch_player@.contains_key(batch) {
                    e == PlayerError::NotTerminated && replayed(
                        batch_player@[batch],
                        batch_commit,
                    ) is None
                } else {
                    e == PlayerError::UnknownBatch
                }
            },
        },
{
    let index_ops = match batch_player.replay(batch, batch_commit) {
        Ok(ops) => ops,
        Err(e) => {
            return Err(e);
        },
    };
    let ghost ops = ops_view(index_ops@);
    let ghost before = old(index)@;
    proof {
        batch_player.lemma_legal(batch);
        lemma_replayed_bounded(batch_player@[batch], batch_commit);
    }
    let writer = index.writer(commit);
    let ghost started = index@;
    let mut i: usize = 0;
    assert(ops.take(0) =~= Seq::empty());
    while i < index_ops.len()
        invariant
            index.wf(),
            ops == ops_view(index_ops@),
            ops.len() <= max_ops(),
            forall|k: int| 0 <= k < ops.len() ==> crate::batch_player::in_order(#[trigger] ops[k]),
            i <= index_ops@.len(),
            writer.commit() == commit,
            started == (IndexView { writing: Some(commit), ..before }),
            index@ == (IndexView {
                writing: Some(commit),
                ..apply_ops(before, commit, ops.take(i as int))
            }),
        decreases index_ops.len() - i,
    {
        let ghost upto = ops.take(i + 1);
        assert(upto.drop_last() =~= ops.take(i as int));
        assert(upto.last() == index_ops@[i as int]@);
        let batch_idx = BatchIdx(i as u32);
        match &index_ops[i] {
            IndexOp::Write { key, address } => {
                writer.write(index, key.duplicate(), *address, batch_idx);
            },
            IndexOp::Delete { key, address } => {
                writer.delete(index, key.duplicate(), *address, batch_idx);
            },
            IndexOp::DeleteRange { start_key, end_key, address } => {
                assert(crate::batch_player::in_order(ops[i as int]));
                writer.delete_range(
                    index,
                    start_key.duplicate(),
                    end_key.duplicate(),
                    *address,
                    batch_idx,
                );
            },
        }
        i = i + 1;
    }
    assert(ops.take(i as int) =~= ops);
    proof {
        lemma_apply_ops_frame(before, commit, ops);
    }
    writer.finish(index);
    Ok(())
}

impl<F: LogFile<Cmd = Command>> View for Tree<F> {
    type V = TreeView;

    closed spec fn view(&self) -> TreeView {
        TreeView {
            initialized: self.initialized,
            records: self.log.records(),
            batches: self.batch_player@,
            index: self.index@,
        }
    }
}

impl<F: LogFile<Cmd = Command>> Tree<F> {
    /// The parts of the tree are sound, and no commit is half written.
    pub closed spec fn wf(&self) -> bool {
        &&& self.log.inv()
        &&& self.batch_player.wf()
        &&& self.index.wf()
        &&& self.index@.writing is None
        &&& self@.sound()
    }

    /// The log of the tree never fails on a request that it can answer.
    pub closed spec fn reliable(&self) -> bool {
        self.log.reliable()
    }

    /// Whether the batch is open in the tree and a commit of it was tried
    /// or given up.
    pub fn batch_ended(&self, batch: Batch) -> (r: bool)
        requires
            self.wf(),
        ensures
            r == (self@.batches.contains_key(batch) && !unended(self@.batches[batch])),
    {
        self.batch_player.ended(batch)
    }

    /// How many of the records of the log, from the first on, are durable.
    pub closed spec fn durable(&self) -> nat {
        self.log.durable()
    }

    pub proof fn lemma_wf(&self)
        requires
            self.wf(),
        ensures
            self@.index.inv(),
            self@.index.writing is None,
            self@.sound(),
            crate::log_file::ordered(self@.records),
            self.durable() <= self@.records.len(),
    {
        self.index.lemma_wf();
        self.log.lemma_ordered();
    }

    /// A tree over `log`, with nothing in its index yet.
    pub fn new(log: Log<F>) -> (tree: Tree<F>)
        requires
            log.inv(),
        ensures
            tree.wf(),
            tree.reliable() == log.reliable(),
            tree@ == (TreeView {
                initialized: false,
                records: log.records(),
                batches: Map::empty(),
                index: new_index(),
            }),
    {
        Tree { initialized: false, log, batch_player: BatchPlayer::new(), index: Index::new() }
    }

    /// Gives the log back.
    pub fn into_log(self) -> (log: Log<F>)
        requires
            self.wf(),
        ensures
            log.inv(),
            log.records() == self@.records,
            log.reliable() == self.reliable(),
    {
        self.log
    }

    /// Starts the recovery of the tree from its log.
    pub fn init_replayer(&self) -> (replayer: InitReplayer)
        requires
            self.wf(),
            !self@.initialized,
        ensures
            replayer.wf(self),
            replayer.remaining() == self@.records,
            replayer@ == (ReplayerView {
                batches: Map::empty(),
                waiting: Set::empty(),
                given_up: Set::empty(),
                max_batch: None,
                max_batch_commit: None,
            }),
    {
        InitReplayer {
            replay: self.log.replay(),
            batch_players: BatchPlayer::new(),
            max_batch_seen: None,
            max_batch_commit_seen: None,
            waiting_to_commit: PairSet::new(),
            given_up: PairSet::new(),
            records: Ghost(self.log.records()),
        }
    }

    /// Takes the tree as it stands for recovered.
    pub fn skip_init(&mut self)
        requires
            old(self).wf(),
        ensures
            final(self).wf(),
            final(self).reliable() == old(self).reliable(),
            final(self)@ == (TreeView { initialized: true, ..old(self)@ }),
    {
        self.initialized = true;
    }

    /// Whether the tree was recovered.
    pub fn initialized(&self) -> (r: bool)
        ensures
            r == self@.initialized,
    {
        self.initialized
    }

    /// The commit limit up to which readers may read.
    pub fn watermark(&self) -> (w: u64)
        ensures
            w == self@.index.watermark,
    {
        self.index.watermark()
    }

    /// The hand of `batch` in this tree.
    pub fn batch(&self, batch: Batch) -> (writer: BatchWriter)
        requires
            self@.initialized,
        ensures
            writer.number() == batch,
    {
        BatchWriter { batch }
    }

    /// Turns the record that the index points to into the value of `key`.
    fn value_at(&self, address: Address, key: &Key) -> (r: Result<Value, TreeError>)
        requires
            self.wf(),
        ensures
            match r {
                Ok(value) => stored_value(self@.records, address, key@) == Some(value@),
                Err(TreeError::UnexpectedLog) => has_record(self@.records, address) && stored_value(
                    self@.records,
                    address,
                    key@,
                ) is None,
                Err(TreeError::Log(_)) => !(self.reliable() && has_record(self@.records, address)),
                Err(_) => false,
            },
    {
        match self.log.read_at(address) {
            Err(e) => Err(TreeError::Log(e)),
            Ok(cmd) => match cmd {
                Command::Write { key: log_key, value, .. } => {
                    if log_key.same(key) {
                        Ok(value)
                    } else {
                        Err(TreeError::UnexpectedLog)
                    }
                },
                _ => Err(TreeError::UnexpectedLog),
            },
        }
    }

    /// The value that a reader with `commit_limit` sees under `key`. Where
    /// the index shows none, the log is not asked. Only a failure of the log
    /// keeps a value back.
    pub fn read(&self, commit_limit: Commit, key: &Key) -> (r: Result<Option<Value>, TreeError>)
        requires
            self.wf(),
            self@.initialized,
            commit_limit.0 <= self@.index.watermark,
        ensures
            match r {
                Ok(value) => value_view(value) == self@.value(commit_limit, key@),
                Err(TreeError::Log(_)) => !self.reliable() && self@.index.visible(
                    commit_limit,
                    key@,
                ) is Some,
                Err(_) => false,
            },
            self@.index.visible(commit_limit, key@) is None ==> r matches Ok(None),
    {
        proof {
            lemma_visible_is_written(self@.index, commit_limit, key@);
        }
        match self.index.read(commit_limit, key) {
            None => Ok(None),
            Some(address) => match self.value_at(address, key) {
                Ok(value) => Ok(Some(value)),
                Err(e) => Err(e),
            },
        }
    }

    /// The keys under which a reader with `commit_limit` sees a value, in
    /// their order, each with its value.
    pub fn entries(&self, commit_limit: Commit) -> (r: Result<Vec<(Key, Value)>, TreeError>)
        requires
            self.wf(),
            self@.initialized,
            commit_limit.0 <= self@.index.watermark,
        ensures
            match r {
                Ok(entries) => is_listing(self@, commit_limit, pairs_view(entries@)),
                Err(TreeError::Log(_)) => !self.reliable(),
                Err(_) => false,
            },
    {
        let found = self.index.visible_entries(commit_limit);
        let ghost scan = crate::index::entries_view(found@);
        let mut entries: Vec<(Key, Value)> = Vec::new();
        let mut i: usize = 0;
        while i < found.len()
            invariant
                self.wf(),
                i <= found@.len(),
                scan == crate::index::entries_view(found@),
                crate::index::is_scan(self@.index, commit_limit, scan),
                entries@.len() == i,
                forall|k: int|
                    0 <= k < i ==> (#[trigger] entries@[k]).0@ == scan[k].0 && stored_value(
                        self@.records,
                        scan[k].1,
                        scan[k].0,
                    ) == Some(entries@[k].1@),
            decreases found.len() - i,
        {
            assert(scan[i as int] == (found@[i as int].0@, found@[i as int].1));
            assert(self@.index.visible(commit_limit, scan[i as int].0) == Some(scan[i as int].1));
            proof {
                lemma_visible_is_written(self@.index, commit_limit, scan[i as int].0);
            }
            let value = match self.value_at(found[i].1, &found[i].0) {
                Ok(value) => value,
                Err(e) => {
                    return Err(e);
                },
            };
            entries.push((found[i].0.duplicate(), value));
            i = i + 1;
        }
        proof {
            let pairs = pairs_view(entries@);
            assert forall|a: int, b: int| 0 <= a < b < pairs.len() implies crate::types::key_lt(
                (#[trigger] pairs[a]).0,
                (#[trigger] pairs[b]).0,
            ) by {
                assert(pairs[a].0 == scan[a].0);
                assert(pairs[b].0 == scan[b].0);
            }
            assert forall|k: int| 0 <= k < pairs.len() implies self@.index.visible(
                commit_limit,
                (#[trigger] pairs[k]).0,
            ) is Some && self@.value(commit_limit, pairs[k].0) == Some(pairs[k].1) by {
                assert(entries@[k].0@ == scan[k].0);
                assert(self@.index.visible(commit_limit, scan[k].0) == Some(scan[k].1));
            }
            assert forall|key: Seq<u8>| #[trigger]
                self@.index.visible(commit_limit, key) is Some implies exists|k: int|
                0 <= k < pairs.len() && (#[trigger] pairs[k]).0 == key by {
                let k = choose|k: int| 0 <= k < scan.len() && (#[trigger] scan[k]).0 == key;
                assert(pairs[k].0 == key);
            }
        }
        Ok(entries)
    }

    /// A cursor for a reader with `commit_limit`, at no key yet.
    pub fn cursor(&self, commit_limit: Commit) -> (cursor: Cursor)
        requires
            self@.initialized,
            commit_limit.0 <= self@.index.watermark,
        ensures
            cursor.commit_limit() == commit_limit,
            cursor.current() is None,
            cursor.cached() is None,
    {
        Cursor { index_cursor: self.index.cursor(commit_limit), value: None }
    }

    /// Makes every record of the log durable. Nothing else of the tree
    /// is changed.
    pub fn sync(&mut self) -> (r: Result<(), TreeError>)
        requires
            old(self).wf(),
        ensures
            final(self).wf(),
            final(self)@ == old(self)@,
            final(self).reliable() == old(self).reliable(),
            old(self).durable() <= final(self).durable() <= final(self)@.records.len(),
            match r {
                Ok(()) => final(self).durable() == final(self)@.records.len(),
                Err(e) => e is Log && !old(self).reliable(),
            },
    {
        match self.log.sync() {
            Ok(()) => Ok(()),
            Err(e) => Err(TreeError::Log(e)),
        }
    }
}

impl BatchWriter {
    /// The batch that the writer writes for.
    pub closed spec fn number(&self) -> Batch {
        self.batch
    }

    /// The hand of `batch`, for any tree.
    pub fn for_batch(batch: Batch) -> (writer: BatchWriter)
        ensures
            writer.number() == batch,
    {
        BatchWriter { batch }
    }

    /// Appends `cmd` to the log of the tree and records it for the batch.
    /// A command that the recording refuses is not appended.
    pub fn append_record<F: LogFile<Cmd = Command>>(&self, tree: &mut Tree<F>, cmd: Command) -> (r:
        Result<(), TreeError>)
        requires
            old(tree).wf(),
        ensures
            final(tree).wf(),
            final(tree).reliable() == old(tree).reliable(),
            match r {
                Ok(()) => rejection(old(tree)@.batches, cmd@) is None && final(tree)@ == old(tree)@.appended(final(tree)@.records.last().0, cmd@),
                Err(TreeError::Player(e)) => rejection(old(tree)@.batches, cmd@) == Some(e)
                    && final(tree)@ == old(tree)@,
                Err(TreeError::Log(_)) => rejection(old(tree)@.batches, cmd@) is None
                    && !old(tree).reliable() && final(tree)@ == old(tree)@,
                Err(_) => false,
            },
    {
        if let Some(e) = tree.batch_player.check(&cmd) {
            return Err(TreeError::Player(e));
        }
        match tree.log.append(&cmd) {
            Err(e) => Err(TreeError::Log(e)),
            Ok(address) => {
                let recorded = tree.batch_player.record(&cmd, address);
                assert(recorded is Ok);
                assert(tree@.records.last() == (address, cmd@));
                proof {
                    tree.log.lemma_ordered();
                    lemma_appended_sound(old(tree)@, address, cmd@);
                }
                Ok(())
            },
        }
    }

    pub fn open<F: LogFile<Cmd = Command>>(&self, tree: &mut Tree<F>) -> (r: Result<(), TreeError>)
        requires
            old(tree).wf(),
        ensures
            final(tree).wf(),
            final(tree).reliable() == old(tree).reliable(),
            writes(*old(tree), *final(tree), CommandView::Open { batch: self.number() }, r),
    {
        self.append_record(tree, Command::Open { batch: self.batch })
    }

    pub fn write<F: LogFile<Cmd = Command>>(&self, tree: &mut Tree<F>, key: Key, value: Value) -> (r:
        Result<(), TreeError>)
        requires
            old(tree).wf(),
        ensures
            final(tree).wf(),
            final(tree).reliable() == old(tree).reliable(),
            writes(
                *old(tree),
                *final(tree),
                CommandView::Write { batch: self.number(), key: key@, value: value@ },
                r,
            ),
    {
        self.append_record(tree, Command::Write { batch: self.batch, key, value })
    }

    pub fn delete<F: LogFile<Cmd = Command>>(&self, tree: &mut Tree<F>, key: Key) -> (r: Result<
        (),
        TreeError,
    >)
        requires
            old(tree).wf(),
        ensures
            final(tree).wf(),
            final(tree).reliable() == old(tree).reliable(),
            writes(
                *old(tree),
                *final(tree),
                CommandView::Delete { batch: self.number(), key: key@ },
                r,
            ),
    {
        self.append_record(tree, Command::Delete { batch: self.batch, key })
    }

    /// Deletes the keys from `start_key` up to `end_key`, `end_key`
    /// excluded.
    pub fn delete_range<F: LogFile<Cmd = Command>>(
        &self,
        tree: &mut Tree<F>,
        start_key: Key,
        end_key: Key,
    ) -> (r: Result<(), TreeError>)
        requires
            old(tree).wf(),
            key_le(start_key@, end_key@),
        ensures
            final(tree).wf(),
            final(tree).reliable() == old(tree).reliable(),
            writes(
                *old(tree),
                *final(tree),
                CommandView::DeleteRange {
                    batch: self.number(),
                    start_key: start_key@,
                    end_key: end_key@,
                },
                r,
            ),
    {
        self.append_record(tree, Command::DeleteRange { batch: self.batch, start_key, end_key })
    }

    pub fn push_save_point<F: LogFile<Cmd = Command>>(&self, tree: &mut Tree<F>) -> (r: Result<
        (),
        TreeError,
    >)
        requires
            old(tree).wf(),
        ensures
            final(tree).wf(),
            final(tree).reliable() == old(tree).reliable(),
            writes(*old(tree), *final(tree), CommandView::PushSavePoint { batch: self.number() }, r),
    {
        self.append_record(tree, Command::PushSavePoint { batch: self.batch })
    }

    pub fn pop_save_point<F: LogFile<Cmd = Command>>(&self, tree: &mut Tree<F>) -> (r: Result<
        (),
        TreeError,
    >)
        requires
            old(tree).wf(),
        ensures
            final(tree).wf(),
            final(tree).reliable() == old(tree).reliable(),
            writes(*old(tree), *final(tree), CommandView::PopSavePoint { batch: self.number() }, r),
    {
        self.append_record(tree, Command::PopSavePoint { batch: self.batch })
    }

    pub fn rollback_save_point<F: LogFile<Cmd = Command>>(&self, tree: &mut Tree<F>) -> (r: Result<
        (),
        TreeError,
    >)
        requires
            old(tree).wf(),
        ensures
            final(tree).wf(),
            final(tree).reliable() == old(tree).reliable(),
            writes(
                *old(tree),
                *final(tree),
                CommandView::RollbackSavePoint { batch: self.number() },
                r,
            ),
    {
        self.append_record(tree, Command::RollbackSavePoint { batch: self.batch })
    }

    pub fn ready_commit<F: LogFile<Cmd = Command>>(
        &self,
        tree: &mut Tree<F>,
        batch_commit: BatchCommit,
    ) -> (r: Result<(), TreeError>)
        requires
            old(tree).wf(),
        ensures
            final(tree).wf(),
            final(tree).reliable() == old(tree).reliable(),
            writes(
                *old(tree),
                *final(tree),
                CommandView::ReadyCommit { batch: self.number(), batch_commit },
                r,
            ),
    {
        self.append_record(tree, Command::ReadyCommit { batch: self.batch, batch_commit })
    }

    pub fn abort_commit<F: LogFile<Cmd = Command>>(
        &self,
        tree: &mut Tree<F>,
        batch_commit: BatchCommit,
    ) -> (r: Result<(), TreeError>)
        requires
            old(tree).wf(),
        ensures
            final(tree).wf(),
            final(tree).reliable() == old(tree).reliable(),
            writes(
                *old(tree),
                *final(tree),
                CommandView::AbortCommit { batch: self.number(), batch_commit },
                r,
            ),
    {
        self.append_record(tree, Command::AbortCommit { batch: self.batch, batch_commit })
    }

    /// Puts what the commit attempt `batch_commit` made ready into the
    /// index under `commit`. The attempt must have been ended in this tree,
    /// and the index must be able to take the commit.
    pub fn commit_to_index<F: LogFile<Cmd = Command>>(
        &self,
        tree: &mut Tree<F>,
        batch_commit: BatchCommit,
        commit: Commit,
    )
        requires
            old(tree).wf(),
            can_commit(old(tree)@.index, commit),
            old(tree)@.batches.contains_key(self.number()),
            replayed(old(tree)@.batches[self.number()], batch_commit) is Some,
        ensures
            final(tree).wf(),
            final(tree).reliable() == old(tree).reliable(),
            final(tree)@ == (TreeView {
                index: committed(
                    old(tree)@.index,
                    commit,
                    replayed(old(tree)@.batches[self.number()], batch_commit).unwrap(),
                ),
                ..old(tree)@
            }),
    {
        proof {
            let before = old(tree)@;
            assert(steps_found(before.records, before.batches[self.batch]));
            lemma_replayed_found(before.records, before.batches[self.batch], batch_commit);
            lemma_apply_ops_found(
                before.records,
                before.index,
                commit,
                replayed(before.batches[self.batch], batch_commit).unwrap(),
            );
        }
        let r = commit_to_index(
            &tree.batch_player,
            &mut tree.index,
            self.batch,
            batch_commit,
            commit,
        );
        assert(r is Ok);
    }

    /// Ends the batch in this tree. Where the log fails, the recording of
    /// the batch is dropped all the same.
    pub fn close<F: LogFile<Cmd = Command>>(&self, tree: &mut Tree<F>) -> (r: Result<(), TreeError>)
        requires
            old(tree).wf(),
        ensures
            final(tree).wf(),
            final(tree).reliable() == old(tree).reliable(),
            match r {
                Ok(()) => old(tree)@.batches.contains_key(self.number()) && final(tree)@ == old(tree)@.appended(
                    final(tree)@.records.last().0,
                    CommandView::Close { batch: self.number() },
                ),
                Err(TreeError::Player(e)) => e == PlayerError::UnknownBatch && !old(tree)@.batches.contains_key(self.number()) && final(tree)@ == old(tree)@,
                Err(TreeError::Log(_)) => !old(tree).reliable() && final(tree)@ == (TreeView {
                    batches: old(tree)@.batches.remove(self.number()),
                    ..old(tree)@
                }),
                Err(_) => false,
            },
    {
        let r = self.append_record(tree, Command::Close { batch: self.batch });
        match r {
            Err(TreeError::Log(e)) => {
                tree.batch_player.emergency_close(self.batch);
                Err(TreeError::Log(e))
            },
            other => other,
        }
    }
}

/// What an attempt to log `cmd` made of a tree: on success the command is
/// appended and recorded; a command that the recording of its batch refuses,
/// and one that the log fails to take, leave the tree as it was.
pub open spec fn writes<F: LogFile<Cmd = Command>>(
    before: Tree<F>,
    after: Tree<F>,
    cmd: CommandView,
    r: Result<(), TreeError>,
) -> bool {
    match r {
        Ok(()) => rejection(before@.batches, cmd) is None && after@ == before@.appended(
            after@.records.last().0,
            cmd,
        ),
        Err(TreeError::Player(e)) => rejection(before@.batches, cmd) == Some(e) && after@
            == before@,
        Err(TreeError::Log(_)) => rejection(before@.batches, cmd) is None && !before.reliable()
            && after@ == before@,
        Err(_) => false,
    }
}

impl Cursor {
    pub closed spec fn commit_limit(&self) -> Commit {
        self.index_cursor.commit_limit()
    }

    /// The key that the cursor stands at and the address of its value.
    pub closed spec fn current(&self) -> Option<(Seq<u8>, Address)> {
        self.index_cursor.current()
    }

    /// The value that the cursor has read at its place, if it has.
    pub closed spec fn cached(&self) -> Option<Seq<u8>> {
        match self.value {
            Some(value) => Some(value@),
            None => None,
        }
    }

    pub fn valid(&self) -> (r: bool)
        ensures
            r == self.current() is Some,
    {
        self.index_cursor.valid()
    }

    pub fn key(&self) -> (key: Key)
        requires
            self.current() is Some,
        ensures
            key@ == self.current().unwrap().0,
    {
        self.index_cursor.key()
    }

    /// The value at the cursor: the one it has read before at this place,
    /// or else the one that the log holds at the address.
    pub fn value<F: LogFile<Cmd = Command>>(&mut self, tree: &Tree<F>) -> (r: Result<
        Value,
        TreeError,
    >)
        requires
            tree.wf(),
            old(self).current() is Some,
        ensures
            final(self).commit_limit() == old(self).commit_limit(),
            final(self).current() == old(self).current(),
            ({
                let (key, address) = old(self).current().unwrap();
                match old(self).cached() {
                    Some(cached) => r matches Ok(value) && value@ == cached && final(self).cached()
                        == Some(cached),
                    None => match r {
                        Ok(value) => stored_value(tree@.records, address, key) == Some(value@)
                            && final(self).cached() == Some(value@),
                        Err(TreeError::UnexpectedLog) => has_record(tree@.records, address)
                            && stored_value(tree@.records, address, key) is None && final(self).cached() is None,
                        Err(TreeError::Log(_)) => !(tree.reliable() && has_record(
                            tree@.records,
                            address,
                        )) && final(self).cached() is None,
                        Err(_) => false,
                    },
                }
            }),
            tree@.index.visible(old(self).commit_limit(), old(self).current().unwrap().0) == Some(
                old(self).current().unwrap().1,
            ) ==> (r matches Err(e) ==> e is Log && !tree.reliable()),
    {
        proof {
            lemma_visible_is_written(
                tree@.index,
                self.commit_limit(),
                self.current().unwrap().0,
            );
        }
        if let Some(value) = &self.value {
            return Ok(value.duplicate());
        }
        let address = self.index_cursor.address();
        let key = self.index_cursor.key();
        match tree.value_at(address, &key) {
            Ok(value) => {
                self.value = Some(value.duplicate());
                Ok(value)
            },
            Err(e) => Err(e),
        }
    }

    pub fn next<F: LogFile<Cmd = Command>>(&mut self, tree: &Tree<F>)
        requires
            tree.wf(),
            old(self).current() is Some,
            old(self).commit_limit().0 <= tree@.index.watermark,
        ensures
            final(self).commit_limit() == old(self).commit_limit(),
            final(self).cached() is None,
            first_visible(
                tree@.index,
                old(self).commit_limit(),
                Some((old(self).current().unwrap().0, false)),
                final(self).current(),
            ),
    {
        self.value = None;
        self.index_cursor.next(&tree.index)
    }

    pub fn prev<F: LogFile<Cmd = Command>>(&mut self, tree: &Tree<F>)
        requires
            tree.wf(),
            old(self).current() is Some,
            old(self).commit_limit().0 <= tree@.index.watermark,
        ensures
            final(self).commit_limit() == old(self).commit_limit(),
            final(self).cached() is None,
            last_visible(
                tree@.index,
                old(self).commit_limit(),
                Some((old(self).current().unwrap().0, false)),
                final(self).current(),
            ),
    {
        self.value = None;
        self.index_cursor.prev(&tree.index)
    }

    pub fn seek_first<F: LogFile<Cmd = Command>>(&mut self, tree: &Tree<F>)
        requires
            tree.wf(),
            old(self).commit_limit().0 <= tree@.index.watermark,
        ensures
            final(self).commit_limit() == old(self).commit_limit(),
            final(self).cached() is None,
            first_visible(tree@.index, old(self).commit_limit(), None, final(self).current()),
    {
        self.value = None;
        self.index_cursor.seek_first(&tree.index)
    }

    pub fn seek_last<F: LogFile<Cmd = Command>>(&mut self, tree: &Tree<F>)
        requires
            tree.wf(),
            old(self).commit_limit().0 <= tree@.index.watermark,
        ensures
            final(self).commit_limit() == old(self).commit_limit(),
            final(self).cached() is None,
            last_visible(tree@.index, old(self).commit_limit(), None, final(self).current()),
    {
        self.value = None;
        self.index_cursor.seek_last(&tree.index)
    }

    pub fn seek_key<F: LogFile<Cmd = Command>>(&mut self, tree: &Tree<F>, key: Key)
        requires
            tree.wf(),
            old(self).commit_limit().0 <= tree@.index.watermark,
        ensures
            final(self).commit_limit() == old(self).commit_limit(),
            final(self).cached() is None,
            first_visible(
                tree@.index,
                old(self).commit_limit(),
                Some((key@, true)),
                final(self).current(),
            ),
    {
        self.value = None;
        self.index_cursor.seek_key(&tree.index, key)
    }

    pub fn seek_key_rev<F: LogFile<Cmd = Command>>(&mut self, tree: &Tree<F>, key: Key)
        requires
            tree.wf(),
            old(self).commit_limit().0 <= tree@.index.watermark,
        ensures
            final(self).commit_limit() == old(self).commit_limit(),
            final(self).cached() is None,
            last_visible(
                tree@.index,
                old(self).commit_limit(),
                Some((key@, true)),
                final(self).current(),
            ),
    {
        self.value = None;
        self.index_cursor.seek_key_rev(&tree.index, key)
    }
}


/// A small set of commit attempts.
struct PairSet {
    items: Vec<(Batch, BatchCommit)>,
}

impl View for PairSet {
    type V = Set<(Batch, BatchCommit)>;

    closed spec fn view(&self) -> Set<(Batch, BatchCommit)> {
        Set::new(|pair: (Batch, BatchCommit)| self.items@.contains(pair))
    }
}

impl PairSet {
    spec fn wf(&self) -> bool {
        forall|i: int, j: int|
            0 <= i < j < self.items@.len() ==> self.items@[i] != self.items@[j]
    }

    fn new() -> (set: PairSet)
        ensures
            set.wf(),
            set@ == Set::<(Batch, BatchCommit)>::empty(),
    {
        let set = PairSet { items: Vec::new() };
        assert(set@ =~= Set::empty());
        set
    }

    /// The place of `pair` among the items.
    fn find(&self, pair: (Batch, BatchCommit)) -> (r: Option<usize>)
        ensures
            match r {
                Some(i) => i < self.items@.len() && self.items@[i as int] == pair,
                None => !self@.contains(pair),
            },
    {
        let mut i: usize = 0;
        while i < self.items.len()
            invariant
                i <= self.items@.len(),
                forall|j: int| 0 <= j < i ==> self.items@[j] != pair,
            decreases self.items.len() - i,
        {
            if self.items[i].0.0 == pair.0.0 && self.items[i].1.0 == pair.1.0 {
                return Some(i);
            }
            i = i + 1;
        }
        None
    }

    fn contains(&self, pair: (Batch, BatchCommit)) -> (r: bool)
        ensures
            r == self@.contains(pair),
    {
        self.find(pair).is_some()
    }

    fn insert(&mut self, pair: (Batch, BatchCommit))
        requires
            old(self).wf(),
            !old(self)@.contains(pair),
        ensures
            final(self).wf(),
            final(self)@ == old(self)@.insert(pair),
    {
        self.items.push(pair);
        proof {
            assert forall|p: (Batch, BatchCommit)| final(self)@.contains(p) <==> old(
                self,
            )@.insert(pair).contains(p) by {
                if final(self).items@.contains(p) {
                    let i = choose|i: int| 0 <= i < final(self).items@.len() && final(self).items@[i] == p;
                    if i < old(self).items@.len() {
                        assert(old(self).items@[i] == p);
                    }
                }
                if old(self).items@.contains(p) {
                    let i = choose|i: int| 0 <= i < old(self).items@.len() && old(self).items@[i] == p;
                    assert(final(self).items@[i] == p);
                }
                if p == pair {
                    assert(final(self).items@[old(self).items@.len() as int] == p);
                }
            }
            assert(final(self)@ =~= old(self)@.insert(pair));
        }
    }

    /// Takes `pair` out, and says whether it was in.
    fn remove(&mut self, pair: (Batch, BatchCommit)) -> (r: bool)
        requires
            old(self).wf(),
        ensures
            final(self).wf(),
            r == old(self)@.contains(pair),
            final(self)@ == old(self)@.remove(pair),
    {
        match self.find(pair) {
            None => {
                assert(final(self)@ =~= old(self)@.remove(pair));
                false
            },
            Some(i) => {
                self.items.remove(i);
                proof {
                    let before = old(self).items@;
                    let after = final(self).items@;
                    assert(before.contains(pair));
                    assert forall|p: (Batch, BatchCommit)| final(self)@.contains(p) <==> old(
                        self,
                    )@.remove(pair).contains(p) by {
                        if after.contains(p) {
                            let j = choose|j: int| 0 <= j < after.len() && after[j] == p;
                            if j < i {
                                assert(before[j] == p);
                            } else {
                                assert(before[j + 1] == p);
                            }
                        }
                        if before.contains(p) && p != pair {
                            let j = choose|j: int| 0 <= j < before.len() && before[j] == p;
                            if j < i {
                                assert(after[j] == p);
                            } else {
                                assert(after[j - 1] == p);
                            }
                        }
                    }
                    assert(final(self)@ =~= old(self)@.remove(pair));
                }
                true
            },
        }
    }
}

/// What the recovery of one tree has gathered from the tree's log.
pub struct ReplayerView {
    /// The recordings of the batches that the log has opened and not closed.
    pub batches: Map<Batch, Seq<Step>>,
    /// The commit attempts that the log has ended and whose commit has not
    /// come up.
    pub waiting: Set<(Batch, BatchCommit)>,
    /// Those of the waiting attempts that the log has given up.
    pub given_up: Set<(Batch, BatchCommit)>,
    /// The largest batch number met.
    pub max_batch: Option<Batch>,
    /// The largest number of a commit attempt met.
    pub max_batch_commit: Option<BatchCommit>,
}

/// The recovery of one tree: a replay of the tree's log, driven commit by
/// commit from the commit log.
pub struct InitReplayer {
    replay: Replay,
    batch_players: BatchPlayer,
    max_batch_seen: Option<Batch>,
    max_batch_commit_seen: Option<BatchCommit>,
    waiting_to_commit: PairSet,
    given_up: PairSet,
    records: Ghost<Seq<(Address, CommandView)>>,
}

pub open spec fn later_batch(seen: Option<Batch>, batch: Batch) -> Option<Batch> {
    match seen {
        Some(max) => if max.0 >= batch.0 {
            Some(max)
        } else {
            Some(batch)
        },
        None => Some(batch),
    }
}

pub open spec fn later_batch_commit(
    seen: Option<BatchCommit>,
    batch_commit: Option<BatchCommit>,
) -> Option<BatchCommit> {
    match (seen, batch_commit) {
        (Some(max), Some(new)) => if max.0 >= new.0 {
            Some(max)
        } else {
            Some(new)
        },
        (Some(max), None) => Some(max),
        (None, new) => new,
    }
}

/// The commit attempt that a command ends, if it ends one.
pub open spec fn attempt_ended(cmd: CommandView) -> Option<BatchCommit> {
    match cmd {
        CommandView::ReadyCommit { batch_commit, .. } => Some(batch_commit),
        CommandView::AbortCommit { batch_commit, .. } => Some(batch_commit),
        _ => None,
    }
}

/// What the commit of an ended attempt makes of the index: the operations
/// that the attempt made ready go in under `commit`, none where it was
/// aborted, and the watermark rises above the commit.
pub open spec fn commit_attempt(
    batches: Map<Batch, Seq<Step>>,
    index: IndexView,
    batch: Batch,
    batch_commit: BatchCommit,
    commit: Commit,
) -> Result<IndexView, TreeError> {
    if !batches.contains_key(batch) {
        Err(TreeError::BatchClosedBeforeCommit)
    } else if !can_commit(index, commit) {
        Err(TreeError::NonMonotonicCommit)
    } else {
        match replayed(batches[batch], batch_commit) {
            Some(ops) => Ok(committed(index, commit, ops)),
            None => Err(TreeError::Player(PlayerError::NotTerminated)),
        }
    }
}

/// What one record of the tree's log makes of the recovery while the commit
/// (`batch`, `batch_commit`, `commit`) is looked for, and whether the
/// record ends the search.
///
/// The record is recorded for its batch. If it ends the attempt looked
/// for, the attempt is committed. If it ends another attempt, that one
/// waits for its commit, and the recovery remembers whether the record
/// made it ready or gave it up. A record that ends the batch under another
/// attempt, or another batch under the attempt, makes the logs disagree.
///
/// An attempt that waits may be ended once more in one case only: it was
/// made ready and is now given up. That is what a commit leaves in a tree
/// that had made the attempt ready when another tree failed. Every other
/// record that ends an attempt that waits, a second `ReadyCommit`, an
/// `AbortCommit` after an `AbortCommit`, a `ReadyCommit` after an
/// `AbortCommit`, ends the attempt twice and is refused with
/// `DuplicateBatchCommit`.
pub open spec fn replay_record(
    replayer: ReplayerView,
    index: IndexView,
    batch: Batch,
    batch_commit: BatchCommit,
    commit: Commit,
    address: Address,
    cmd: CommandView,
) -> Result<(ReplayerView, IndexView, bool), TreeError> {
    match rejection(replayer.batches, cmd) {
        Some(e) => Err(TreeError::Player(e)),
        None => {
            let seen = ReplayerView {
                batches: recorded(replayer.batches, cmd, address),
                waiting: replayer.waiting,
                given_up: replayer.given_up,
                max_batch: later_batch(replayer.max_batch, cmd.batch()),
                max_batch_commit: later_batch_commit(replayer.max_batch_commit, attempt_ended(cmd)),
            };
            match attempt_ended(cmd) {
                None => Ok((seen, index, false)),
                Some(ended) => {
                    if (cmd.batch() == batch) != (ended == batch_commit) {
                        Err(TreeError::BatchMismatch)
                    } else if cmd.batch() == batch {
                        match commit_attempt(seen.batches, index, batch, batch_commit, commit) {
                            Ok(after) => Ok((seen, after, true)),
                            Err(e) => Err(e),
                        }
                    } else if seen.waiting.contains((cmd.batch(), ended)) {
                        if cmd is AbortCommit && !seen.given_up.contains((cmd.batch(), ended)) {
                            Ok(
                                (
                                    ReplayerView {
                                        given_up: seen.given_up.insert((cmd.batch(), ended)),
                                        ..seen
                                    },
                                    index,
                                    false,
                                ),
                            )
                        } else {
                            Err(TreeError::DuplicateBatchCommit)
                        }
                    } else {
                        Ok(
                            (
                                ReplayerView {
                                    waiting: seen.waiting.insert((cmd.batch(), ended)),
                                    given_up: if cmd is AbortCommit {
                                        seen.given_up.insert((cmd.batch(), ended))
                                    } else {
                                        seen.given_up.remove((cmd.batch(), ended))
                                    },
                                    ..seen
                                },
                                index,
                                false,
                            ),
                        )
                    }
                },
            }
        },
    }
}

/// What the records of the tree's log make of the recovery up to the one
/// that ends the attempt looked for, and the records that are left.
pub open spec fn replay_records(
    replayer: ReplayerView,
    index: IndexView,
    batch: Batch,
    batch_commit: BatchCommit,
    commit: Commit,
    records: Seq<(Address, CommandView)>,
) -> Result<(ReplayerView, IndexView, Seq<(Address, CommandView)>), TreeError>
    decreases records.len(),
{
    if records.len() == 0 {
        Err(TreeError::CommitNotFound)
    } else {
        match replay_record(
            replayer,
            index,
            batch,
            batch_commit,
            commit,
            records[0].0,
            records[0].1,
        ) {
            Err(e) => Err(e),
            Ok((next, after, true)) => Ok((next, after, records.drop_first())),
            Ok((next, after, false)) => replay_records(
                next,
                after,
                batch,
                batch_commit,
                commit,
                records.drop_first(),
            ),
        }
    }
}

/// What the commit (`batch`, `batch_commit`, `commit`) of the commit log
/// makes of the recovery of one tree. An attempt that waits is committed
/// at once; otherwise the tree's log is replayed up to the record that ends
/// the attempt.
pub open spec fn replay_commit(
    replayer: ReplayerView,
    index: IndexView,
    batch: Batch,
    batch_commit: BatchCommit,
    commit: Commit,
    records: Seq<(Address, CommandView)>,
) -> Result<(ReplayerView, IndexView, Seq<(Address, CommandView)>), TreeError> {
    if replayer.waiting.contains((batch, batch_commit)) {
        match commit_attempt(replayer.batches, index, batch, batch_commit, commit) {
            Ok(after) => Ok(
                (
                    ReplayerView {
                        waiting: replayer.waiting.remove((batch, batch_commit)),
                        given_up: replayer.given_up.remove((batch, batch_commit)),
                        ..replayer
                    },
                    after,
                    records,
                ),
            ),
            Err(e) => Err(e),
        }
    } else {
        replay_records(replayer, index, batch, batch_commit, commit, records)
    }
}

/// The largest batch number in what was seen and in `records`.
pub open spec fn max_batch_of(seen: Option<Batch>, records: Seq<(Address, CommandView)>) -> Option<
    Batch,
>
    decreases records.len(),
{
    if records.len() == 0 {
        seen
    } else {
        later_batch(max_batch_of(seen, records.drop_last()), records.last().1.batch())
    }
}

/// The largest number of a commit attempt in what was seen and in
/// `records`.
pub open spec fn max_batch_commit_of(
    seen: Option<BatchCommit>,
    records: Seq<(Address, CommandView)>,
) -> Option<BatchCommit>
    decreases records.len(),
{
    if records.len() == 0 {
        seen
    } else {
        later_batch_commit(
            max_batch_commit_of(seen, records.drop_last()),
            attempt_ended(records.last().1),
        )
    }
}

impl View for InitReplayer {
    type V = ReplayerView;

    closed spec fn view(&self) -> ReplayerView {
        ReplayerView {
            batches: self.batch_players@,
            waiting: self.waiting_to_commit@,
            given_up: self.given_up@,
            max_batch: self.max_batch_seen,
            max_batch_commit: self.max_batch_commit_seen,
        }
    }
}

impl InitReplayer {
    /// The replayer replays the log of `tree`.
    pub closed spec fn wf<F: LogFile<Cmd = Command>>(&self, tree: &Tree<F>) -> bool {
        &&& self.records@ == tree.log.records()
        &&& self.replay.wf(self.records@)
        &&& self.batch_players.wf()
        &&& self.waiting_to_commit.wf()
        &&& self.given_up.wf()
        &&& batches_found(self.records@, self.batch_players@)
    }

    /// The records of the tree's log that the replay has yet to read.
    pub closed spec fn remaining(&self) -> Seq<(Address, CommandView)> {
        self.replay.remaining(self.records@)
    }

    fn update_max_batch_and_batch_commit(
        &mut self,
        new_batch: Batch,
        new_batch_commit: Option<BatchCommit>,
    )
        ensures
            final(self).max_batch_seen == later_batch(old(self).max_batch_seen, new_batch),
            final(self).max_batch_commit_seen == later_batch_commit(
                old(self).max_batch_commit_seen,
                new_batch_commit,
            ),
            final(self).replay == old(self).replay,
            final(self).batch_players == old(self).batch_players,
            final(self).waiting_to_commit == old(self).waiting_to_commit,
            final(self).given_up == old(self).given_up,
            final(self).records == old(self).records,
    {
        self.max_batch_seen = match self.max_batch_seen {
            None => Some(new_batch),
            Some(curr_max_batch) => if curr_max_batch.0 >= new_batch.0 {
                Some(curr_max_batch)
            } else {
                Some(new_batch)
            },
        };
        self.max_batch_commit_seen = match (self.max_batch_commit_seen, new_batch_commit) {
            (None, new_batch_commit) => new_batch_commit,
            (Some(curr_max), Some(new_max)) => if curr_max.0 >= new_max.0 {
                Some(curr_max)
            } else {
                Some(new_max)
            },
            (Some(curr_max), None) => Some(curr_max),
        };
    }

    /// Commits an attempt that the tree's log has ended.
    fn commit_ended<F: LogFile<Cmd = Command>>(
        &self,
        tree: &mut Tree<F>,
        batch: Batch,
        batch_commit: BatchCommit,
        commit: Commit,
    ) -> (r: Result<(), TreeError>)
        requires
            old(tree).wf(),
            self.wf(old(tree)),
        ensures
            final(tree).wf(),
            self.wf(final(tree)),
            final(tree).reliable() == old(tree).reliable(),
            final(tree)@.records == old(tree)@.records,
            final(tree)@.batches == old(tree)@.batches,
            final(tree)@.initialized == old(tree)@.initialized,
            match commit_attempt(self@.batches, old(tree)@.index, batch, batch_commit, commit) {
                Ok(after) => r is Ok && final(tree)@.index == after,
                Err(e) => r == Err::<(), TreeError>(e) && final(tree)@.index == old(tree)@.index,
            },
    {
        if !self.batch_players.contains(batch) {
            return Err(TreeError::BatchClosedBeforeCommit);
        }
        if !(tree.index.watermark() <= commit.0 && commit.0 < u64::MAX) {
            return Err(TreeError::NonMonotonicCommit);
        }
        proof {
            let records = tree@.records;
            assert(steps_found(records, self@.batches[batch]));
            lemma_replayed_found(records, self@.batches[batch], batch_commit);
            match replayed(self@.batches[batch], batch_commit) {
                Some(ops) => lemma_apply_ops_found(records, tree@.index, commit, ops),
                None => {},
            }
        }
        match commit_to_index(&self.batch_players, &mut tree.index, batch, batch_commit, commit) {
            Ok(()) => Ok(()),
            Err(e) => Err(TreeError::Player(e)),
        }
    }

    /// Takes in one record of the tree's log.
    fn replay_one<F: LogFile<Cmd = Command>>(
        &mut self,
        tree: &mut Tree<F>,
        batch: Batch,
        batch_commit: BatchCommit,
        commit: Commit,
        cmd: &Command,
        address: Address,
    ) -> (r: Result<bool, TreeError>)
        requires
            old(tree).wf(),
            old(self).wf(old(tree)),
            has_record(old(tree)@.records, address),
            record_at(old(tree)@.records, address) == cmd@,
        ensures
            final(tree).wf(),
            final(self).wf(final(tree)),
            final(self).remaining() == old(self).remaining(),
            final(tree).reliable() == old(tree).reliable(),
            final(tree)@.records == old(tree)@.records,
            final(tree)@.batches == old(tree)@.batches,
            final(tree)@.initialized == old(tree)@.initialized,
            match replay_record(
                old(self)@,
                old(tree)@.index,
                batch,
                batch_commit,
                commit,
                address,
                cmd@,
            ) {
                Ok((next, after, done)) => r == Ok::<bool, TreeError>(done) && final(self)@ == next
                    && final(tree)@.index == after,
                Err(e) => r == Err::<bool, TreeError>(e) && final(tree)@.index == old(tree)@.index,
            },
            r matches Ok(done) ==> (!done ==> final(tree)@.index == old(tree)@.index),
    {
        if let Err(e) = self.batch_players.record(cmd, address) {
            return Err(TreeError::Player(e));
        }
        proof {
            let records = self.records@;
            let before = old(self)@.batches;
            let after = self@.batches;
            assert forall|b: Batch| after.contains_key(b) implies steps_found(
                records,
                #[trigger] after[b],
            ) by {
                if before.contains_key(b) {
                    assert(steps_found(records, before[b]));
                }
            }
        }
        let cmd_batch = cmd.batch();
        let ended = match cmd {
            Command::ReadyCommit { batch_commit, .. } => Some(*batch_commit),
            Command::AbortCommit { batch_commit, .. } => Some(*batch_commit),
            _ => None,
        };
        self.update_max_batch_and_batch_commit(cmd_batch, ended);
        match ended {
            None => Ok(false),
            Some(ended) => {
                let is_target_batch = cmd_batch.0 == batch.0;
                let is_target_batch_commit = ended.0 == batch_commit.0;
                if is_target_batch != is_target_batch_commit {
                    return Err(TreeError::BatchMismatch);
                }
                if is_target_batch {
                    match self.commit_ended(tree, batch, batch_commit, commit) {
                        Ok(()) => Ok(true),
                        Err(e) => Err(e),
                    }
                } else if self.waiting_to_commit.contains((cmd_batch, ended)) {
                    match cmd {
                        Command::AbortCommit { .. } => {
                            if self.given_up.contains((cmd_batch, ended)) {
                                Err(TreeError::DuplicateBatchCommit)
                            } else {
                                self.given_up.insert((cmd_batch, ended));
                                Ok(false)
                            }
                        },
                        _ => Err(TreeError::DuplicateBatchCommit),
                    }
                } else {
                    self.waiting_to_commit.insert((cmd_batch, ended));
                    let ghost before = self.given_up@;
                    let was_given_up = self.given_up.remove((cmd_batch, ended));
                    match cmd {
                        Command::AbortCommit { .. } => {
                            self.given_up.insert((cmd_batch, ended));
                            assert(self.given_up@ =~= before.insert((cmd_batch, ended)));
                        },
                        _ => {},
                    }
                    Ok(false)
                }
            },
        }
    }

    /// Brings the tree up to the commit (`batch`, `batch_commit`,
    /// `commit`) of the commit log. The records of other attempts that the
    /// replay passes are kept waiting; one that ends an attempt that waits
    /// is an error, but for the `AbortCommit` of an attempt that was made
    /// ready and not yet given up.
    pub fn replay_commit<F: LogFile<Cmd = Command>>(
        &mut self,
        tree: &mut Tree<F>,
        batch: Batch,
        batch_commit: BatchCommit,
        commit: Commit,
    ) -> (r: Result<(), TreeError>)
        requires
            old(tree).wf(),
            old(self).wf(old(tree)),
        ensures
            final(tree).wf(),
            final(self).wf(final(tree)),
            final(tree).reliable() == old(tree).reliable(),
            final(tree)@.records == old(tree)@.records,
            final(tree)@.batches == old(tree)@.batches,
            final(tree)@.initialized == old(tree)@.initialized,
            match r {
                Ok(()) => replay_commit(
                    old(self)@,
                    old(tree)@.index,
                    batch,
                    batch_commit,
                    commit,
                    old(self).remaining(),
                ) == Ok::<_, TreeError>((final(self)@, final(tree)@.index, final(self).remaining())),
                Err(TreeError::Log(_)) => !old(tree).reliable(),
                Err(e) => replay_commit(
                    old(self)@,
                    old(tree)@.index,
                    batch,
                    batch_commit,
                    commit,
                    old(self).remaining(),
                ) == Err::<(ReplayerView, IndexView, Seq<(Address, CommandView)>), TreeError>(e),
            },
            r is Err ==> final(tree)@.index == old(tree)@.index,
    {
        if self.waiting_to_commit.remove((batch, batch_commit)) {
            let was_given_up = self.given_up.remove((batch, batch_commit));
            return self.commit_ended(tree, batch, batch_commit, commit);
        }
        assert(self@ == old(self)@) by {
            assert(self@.waiting =~= old(self)@.waiting);
        }
        let ghost goal = replay_commit(
            old(self)@,
            old(tree)@.index,
            batch,
            batch_commit,
            commit,
            old(self).remaining(),
        );
        loop
            invariant
                tree.wf(),
                self.wf(tree),
                tree.reliable() == old(tree).reliable(),
                tree@.records == old(tree)@.records,
                tree@.batches == old(tree)@.batches,
                tree@.initialized == old(tree)@.initialized,
                tree@.index == old(tree)@.index,
                goal == replay_records(
                    self@,
                    tree@.index,
                    batch,
                    batch_commit,
                    commit,
                    self.remaining(),
                ),
                goal == replay_commit(
                    old(self)@,
                    old(tree)@.index,
                    batch,
                    batch_commit,
                    commit,
                    old(self).remaining(),
                ),
            decreases self.remaining().len(),
        {
            let next = tree.log.replay_next(&mut self.replay);
            match next {
                None => {
                    return Err(TreeError::CommitNotFound);
                },
                Some(Err(e)) => {
                    return Err(TreeError::Log(e));
                },
                Some(Ok((cmd, address))) => {
                    match self.replay_one(tree, batch, batch_commit, commit, &cmd, address) {
                        Err(e) => {
                            return Err(e);
                        },
                        Ok(true) => {
                            return Ok(());
                        },
                        Ok(false) => {},
                    }
                },
            }
        }
    }

    /// Reads the tree's log to its end, once the commit log is exhausted,
    /// and gives the largest batch number and the largest number of a
    /// commit attempt that the log holds.
    pub fn replay_rest<F: LogFile<Cmd = Command>>(&mut self, tree: &Tree<F>) -> (r: Result<
        (Option<Batch>, Option<BatchCommit>),
        TreeError,
    >)
        requires
            tree.wf(),
            old(self).wf(tree),
        ensures
            final(self).wf(tree),
            final(self).remaining().len() == 0,
            match r {
                Ok((max_batch, max_batch_commit)) => {
                    &&& max_batch == max_batch_of(old(self)@.max_batch, old(self).remaining())
                    &&& max_batch_commit == max_batch_commit_of(
                        old(self)@.max_batch_commit,
                        old(self).remaining(),
                    )
                    &&& final(self)@ == (ReplayerView {
                        max_batch,
                        max_batch_commit,
                        ..old(self)@
                    })
                },
                Err(e) => e is Log && !tree.reliable(),
            },
    {
        let ghost all = self.remaining();
        let ghost done: Seq<(Address, CommandView)> = Seq::empty();
        assert(done + self.remaining() =~= all);
        loop
            invariant
                tree.wf(),
                self.wf(tree),
                all == old(self).remaining(),
                done + self.remaining() == all,
                self.max_batch_seen == max_batch_of(old(self)@.max_batch, done),
                self.max_batch_commit_seen == max_batch_commit_of(
                    old(self)@.max_batch_commit,
                    done,
                ),
                self.batch_players == old(self).batch_players,
                self.waiting_to_commit == old(self).waiting_to_commit,
                self.given_up == old(self).given_up,
            decreases self.remaining().len(),
        {
            let ghost left = self.remaining();
            let next = tree.log.replay_next(&mut self.replay);
            match next {
                None => {
                    assert(done =~= all);
                    return Ok((self.max_batch_seen, self.max_batch_commit_seen));
                },
                Some(Err(e)) => {
                    return Err(TreeError::Log(e));
                },
                Some(Ok((cmd, address))) => {
                    let ended = match cmd {
                        Command::ReadyCommit { batch_commit, .. } => Some(batch_commit),
                        Command::AbortCommit { batch_commit, .. } => Some(batch_commit),
                        _ => None,
                    };
                    self.update_max_batch_and_batch_commit(cmd.batch(), ended);
                    proof {
                        let grown = done.push((address, cmd@));
                        assert(grown.drop_last() =~= done);
                        assert(grown + left.drop_first() =~= all);
                        done = grown;
                    }
                },
            }
        }
    }

    /// Ends the recovery: the tree is ready for use.
    pub fn init_success<F: LogFile<Cmd = Command>>(self, tree: &mut Tree<F>)
        requires
            old(tree).wf(),
        ensures
            final(tree).wf(),
            final(tree).reliable() == old(tree).reliable(),
            final(tree)@ == (TreeView { initialized: true, ..old(tree)@ }),
    {
        tree.initialized = true;
    }
}

} // verus!
