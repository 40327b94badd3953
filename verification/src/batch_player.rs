//! A recording, batch by batch, of the commands that were appended to a
//! tree's log, from which the operations of a committed batch are played
//! into the index.

use vstd::prelude::*;
use std::collections::BTreeMap;
use crate::command::{Command, CommandView};
use crate::types::{Address, Batch, BatchCommit, Key, KeyOrder, key_le, lemma_key_lt_total, order_bytes};

verus! {

/// One change to the index, with the address of the log record that asked
/// for it.
#[derive(Clone, Debug, PartialEq, Eq)]
pub enum IndexOp {
    Write { key: Key, address: Address },
    Delete { key: Key, address: Address },
    DeleteRange { start_key: Key, end_key: Key, address: Address },
}

pub enum IndexOpView {
    Write { key: Seq<u8>, address: Address },
    Delete { key: Seq<u8>, address: Address },
    DeleteRange { start_key: Seq<u8>, end_key: Seq<u8>, address: Address },
}

impl View for IndexOp {
    type V = IndexOpView;

    open spec fn view(&self) -> IndexOpView {
        match *self {
            IndexOp::Write { key, address } => IndexOpView::Write { key: key@, address },
            IndexOp::Delete { key, address } => IndexOpView::Delete { key: key@, address },
            IndexOp::DeleteRange { start_key, end_key, address } => IndexOpView::DeleteRange {
                start_key: start_key@,
                end_key: end_key@,
                address,
            },
        }
    }
}

impl IndexOp {
    /// A copy of the operation.
    pub fn duplicate(&self) -> (op: IndexOp)
        ensures
            op@ == self@,
    {
        match self {
            IndexOp::Write { key, address } => IndexOp::Write {
                key: key.duplicate(),
                address: *address,
            },
            IndexOp::Delete { key, address } => IndexOp::Delete {
                key: key.duplicate(),
                address: *address,
            },
            IndexOp::DeleteRange { start_key, end_key, address } => IndexOp::DeleteRange {
                start_key: start_key.duplicate(),
                end_key: end_key.duplicate(),
                address: *address,
            },
        }
    }
}

pub open spec fn ops_view(ops: Seq<IndexOp>) -> Seq<IndexOpView> {
    Seq::new(ops.len(), |i: int| ops[i]@)
}

/// Why the player refused a command.
#[derive(Clone, Copy, Debug, PartialEq, Eq, Structural)]
pub enum PlayerError {
    /// The batch to open is open already.
    BatchExists,
    /// The batch is not open.
    UnknownBatch,
    /// There is no save point to pop or to roll back to.
    NoSavePoint,
    /// The batch holds as many operations as a commit can number.
    BatchFull,
    /// The commit asked for was neither made ready nor aborted.
    NotTerminated,
    /// The range to delete ends before it starts.
    InvalidRange,
}

/// One entry of a batch's recording.
pub enum Step {
    Op(IndexOpView),
    PushSavePoint,
    PopSavePoint,
    RollbackSavePoint,
    ReadyCommit(BatchCommit),
    AbortCommit(BatchCommit),
}

/// What a recording comes to: the operations that stand, and the stack of
/// save points, each the number of operations that stood when it was set.
pub struct Played {
    pub ops: Seq<IndexOpView>,
    pub save_points: Seq<nat>,
}

/// The most operations that one batch can hold.
pub open spec fn max_ops() -> nat {
    u32::MAX as nat
}

/// The recording takes the step: an operation finds room, and a pop or a
/// rollback finds a save point.
/// No step of the recording ends a commit attempt: no commit of the batch
/// was tried or given up.
pub open spec fn unended(steps: Seq<Step>) -> bool {
    forall|t: int|
        0 <= t < steps.len() ==> !((#[trigger] steps[t]) is ReadyCommit) && !(steps[t] is AbortCommit)
}

/// The operation is in order: a range to delete does not end before it
/// starts.
pub open spec fn in_order(op: IndexOpView) -> bool {
    op matches IndexOpView::DeleteRange { start_key, end_key, .. } ==> key_le(start_key, end_key)
}

pub open spec fn accepts(played: Played, step: Step) -> bool {
    match step {
        Step::Op(op) => in_order(op) && played.ops.len() < max_ops(),
        Step::PopSavePoint | Step::RollbackSavePoint => played.save_points.len() > 0,
        _ => true,
    }
}

/// What one more step makes of a recording. A rollback cuts the operations
/// back to the newest save point and drops it; a pop only drops it.
pub open spec fn apply_step(played: Played, step: Step) -> Played {
    match step {
        Step::Op(op) => Played { ops: played.ops.push(op), save_points: played.save_points },
        Step::PushSavePoint => Played {
            ops: played.ops,
            save_points: played.save_points.push(played.ops.len()),
        },
        Step::PopSavePoint => if played.save_points.len() > 0 {
            Played { ops: played.ops, save_points: played.save_points.drop_last() }
        } else {
            played
        },
        Step::RollbackSavePoint => if played.save_points.len() > 0 {
            Played {
                ops: if played.save_points.last() <= played.ops.len() {
                    played.ops.take(played.save_points.last() as int)
                } else {
                    played.ops
                },
                save_points: played.save_points.drop_last(),
            }
        } else {
            played
        },
        Step::ReadyCommit(_) | Step::AbortCommit(_) => played,
    }
}

/// What a recording comes to, step by step.
pub open spec fn played(steps: Seq<Step>) -> Played
    decreases steps.len(),
{
    if steps.len() == 0 {
        Played { ops: Seq::empty(), save_points: Seq::empty() }
    } else {
        apply_step(played(steps.drop_last()), steps.last())
    }
}

/// Every step of the recording was taken by what stood before it.
pub open spec fn legal(steps: Seq<Step>) -> bool
    decreases steps.len(),
{
    steps.len() == 0 || (legal(steps.drop_last()) && accepts(
        played(steps.drop_last()),
        steps.last(),
    ))
}

/// A legal recording never holds more operations than a commit can number.
pub proof fn lemma_played_bounded(steps: Seq<Step>)
    requires
        legal(steps),
    ensures
        played(steps).ops.len() <= max_ops(),
        forall|i: int| 0 <= i < played(steps).ops.len() ==> in_order(#[trigger] played(steps).ops[i]),
    decreases steps.len(),
{
    if steps.len() > 0 {
        lemma_played_bounded(steps.drop_last());
    }
}

/// The start of a legal recording is legal.
pub proof fn lemma_legal_prefix(steps: Seq<Step>, i: int)
    requires
        legal(steps),
        0 <= i <= steps.len(),
    ensures
        legal(steps.take(i)),
    decreases steps.len(),
{
    if i == steps.len() {
        assert(steps.take(i) =~= steps);
    } else {
        assert(steps.drop_last().take(i) =~= steps.take(i));
        lemma_legal_prefix(steps.drop_last(), i);
    }
}

/// The place that `terminator_from` finds lies in the recording, from `i`
/// on, and ends the attempt.
pub proof fn lemma_terminator(steps: Seq<Step>, batch_commit: BatchCommit, i: int)
    requires
        0 <= i,
    ensures
        terminator_from(steps, batch_commit, i) matches Some(t) ==> i <= t < steps.len() && ends(
            steps[t],
            batch_commit,
        ),
    decreases steps.len() - i,
{
    if i < steps.len() && !ends(steps[i], batch_commit) {
        lemma_terminator(steps, batch_commit, i + 1);
    }
}

/// A recording whose last step ends the attempt holds an end of it.
pub proof fn lemma_terminated(steps: Seq<Step>, batch_commit: BatchCommit, i: int)
    requires
        0 <= i < steps.len(),
        ends(steps.last(), batch_commit),
    ensures
        terminator_from(steps, batch_commit, i) is Some,
        i == 0 ==> replayed(steps, batch_commit) is Some,
    decreases steps.len() - i,
{
    if !ends(steps[i], batch_commit) {
        lemma_terminated(steps, batch_commit, i + 1);
    }
}

/// What a commit attempt of a legal recording puts into the index can be
/// numbered.
pub proof fn lemma_replayed_bounded(steps: Seq<Step>, batch_commit: BatchCommit)
    requires
        legal(steps),
    ensures
        replayed(steps, batch_commit) matches Some(ops) ==> ops.len() <= max_ops() && forall|i: int|
            0 <= i < ops.len() ==> in_order(#[trigger] ops[i]),
{
    lemma_terminator(steps, batch_commit, 0);
    match terminator_from(steps, batch_commit, 0) {
        Some(t) => {
            lemma_legal_prefix(steps, t);
            lemma_played_bounded(steps.take(t));
        },
        None => {},
    }
}

/// The step ends the commit attempt `batch_commit`.
pub open spec fn ends(step: Step, batch_commit: BatchCommit) -> bool {
    step == Step::ReadyCommit(batch_commit) || step == Step::AbortCommit(batch_commit)
}

/// The place of the first step from `i` on that ends `batch_commit`.
pub open spec fn terminator_from(steps: Seq<Step>, batch_commit: BatchCommit, i: int) -> Option<int>
    decreases steps.len() - i,
{
    if i < 0 || i >= steps.len() {
        None
    } else if ends(steps[i], batch_commit) {
        Some(i)
    } else {
        terminator_from(steps, batch_commit, i + 1)
    }
}

/// The operations that the commit attempt `batch_commit` puts into the
/// index: those that stood when it was made ready, none if it was aborted.
/// `None` where the recording holds no end of that attempt.
pub open spec fn replayed(steps: Seq<Step>, batch_commit: BatchCommit) -> Option<Seq<IndexOpView>> {
    match terminator_from(steps, batch_commit, 0) {
        None => None,
        Some(i) => if steps[i] == Step::AbortCommit(batch_commit) {
            Some(Seq::empty())
        } else {
            Some(played(steps.take(i)).ops)
        },
    }
}

/// The step that a command leaves in the recording of its batch. `Open` and
/// `Close` leave none: they make and drop the recording.
pub open spec fn step_of(cmd: CommandView, address: Address) -> Option<Step> {
    match cmd {
        CommandView::Open { .. } | CommandView::Close { .. } => None,
        CommandView::Write { key, .. } => Some(Step::Op(IndexOpView::Write { key, address })),
        CommandView::Delete { key, .. } => Some(Step::Op(IndexOpView::Delete { key, address })),
        CommandView::DeleteRange { start_key, end_key, .. } => Some(
            Step::Op(IndexOpView::DeleteRange { start_key, end_key, address }),
        ),
        CommandView::PushSavePoint { .. } => Some(Step::PushSavePoint),
        CommandView::PopSavePoint { .. } => Some(Step::PopSavePoint),
        CommandView::RollbackSavePoint { .. } => Some(Step::RollbackSavePoint),
        CommandView::ReadyCommit { batch_commit, .. } => Some(Step::ReadyCommit(batch_commit)),
        CommandView::AbortCommit { batch_commit, .. } => Some(Step::AbortCommit(batch_commit)),
    }
}

/// Why the recordings `batches` refuse a command, `None` where they take it.
/// The address plays no part in this.
pub open spec fn rejection(batches: Map<Batch, Seq<Step>>, cmd: CommandView) -> Option<
    PlayerError,
> {
    match cmd {
        CommandView::Open { batch } => if batches.contains_key(batch) {
            Some(PlayerError::BatchExists)
        } else {
            None
        },
        CommandView::Close { batch } => if batches.contains_key(batch) {
            None
        } else {
            Some(PlayerError::UnknownBatch)
        },
        _ => if !batches.contains_key(cmd.batch()) {
            Some(PlayerError::UnknownBatch)
        } else {
            let so_far = played(batches[cmd.batch()]);
            match step_of(cmd, Address(0)) {
                Some(Step::Op(op)) => if !in_order(op) {
                    Some(PlayerError::InvalidRange)
                } else if so_far.ops.len() < max_ops() {
                    None
                } else {
                    Some(PlayerError::BatchFull)
                },
                Some(Step::PopSavePoint) | Some(Step::RollbackSavePoint) => if so_far.save_points.len()
                    > 0 {
                    None
                } else {
                    Some(PlayerError::NoSavePoint)
                },
                _ => None,
            }
        },
    }
}

/// The recordings after a command that they take.
pub open spec fn recorded(batches: Map<Batch, Seq<Step>>, cmd: CommandView, address: Address) -> Map<
    Batch,
    Seq<Step>,
> {
    match cmd {
        CommandView::Open { batch } => batches.insert(batch, Seq::empty()),
        CommandView::Close { batch } => batches.remove(batch),
        _ => batches.insert(
            cmd.batch(),
            batches[cmd.batch()].push(step_of(cmd, address).unwrap()),
        ),
    }
}

enum SimpleCommand {
    Write { key: Key, address: Address },
    Delete { key: Key, address: Address },
    DeleteRange { start_key: Key, end_key: Key, address: Address },
    PushSavePoint,
    PopSavePoint,
    RollbackSavePoint,
    ReadyCommit { batch_commit: BatchCommit },
    AbortCommit { batch_commit: BatchCommit },
}

impl View for SimpleCommand {
    type V = Step;

    closed spec fn view(&self) -> Step {
        match *self {
            SimpleCommand::Write { key, address } => Step::Op(
                IndexOpView::Write { key: key@, address },
            ),
            SimpleCommand::Delete { key, address } => Step::Op(
                IndexOpView::Delete { key: key@, address },
            ),
            SimpleCommand::DeleteRange { start_key, end_key, address } => Step::Op(
                IndexOpView::DeleteRange { start_key: start_key@, end_key: end_key@, address },
            ),
            SimpleCommand::PushSavePoint => Step::PushSavePoint,
            SimpleCommand::PopSavePoint => Step::PopSavePoint,
            SimpleCommand::RollbackSavePoint => Step::RollbackSavePoint,
            SimpleCommand::ReadyCommit { batch_commit } => Step::ReadyCommit(batch_commit),
            SimpleCommand::AbortCommit { batch_commit } => Step::AbortCommit(batch_commit),
        }
    }
}

spec fn nats(v: Seq<usize>) -> Seq<nat> {
    Seq::new(v.len(), |i: int| v[i] as nat)
}

struct BatchData {
    commands: Vec<SimpleCommand>,
    /// The stack of save points that the commands leave.
    save_points: Vec<usize>,
    /// The number of operations that stand after the commands.
    live: usize,
}

impl View for BatchData {
    type V = Seq<Step>;

    closed spec fn view(&self) -> Seq<Step> {
        Seq::new(self.commands@.len(), |i: int| self.commands@[i]@)
    }
}

impl BatchData {
    spec fn wf(&self) -> bool {
        &&& nats(self.save_points@) == played(self@).save_points
        &&& self.live == played(self@).ops.len()
        &&& legal(self@)
    }

    fn new() -> (data: BatchData)
        ensures
            data.wf(),
            data@ == Seq::<Step>::empty(),
    {
        let data = BatchData { commands: Vec::new(), save_points: Vec::new(), live: 0 };
        assert(data@ =~= Seq::empty());
        assert(nats(data.save_points@) =~= Seq::empty());
        data
    }

    /// Whether a step of the recording ends a commit attempt.
    fn ended(&self) -> (r: bool)
        ensures
            r == !unended(self@),
    {
        let mut i: usize = 0;
        while i < self.commands.len()
            invariant
                i <= self.commands@.len(),
                forall|t: int|
                    0 <= t < i ==> !((#[trigger] self@[t]) is ReadyCommit) && !(self@[t] is AbortCommit),
            decreases self.commands.len() - i,
        {
            match &self.commands[i] {
                SimpleCommand::ReadyCommit { .. } | SimpleCommand::AbortCommit { .. } => {
                    assert(self@[i as int] is ReadyCommit || self@[i as int] is AbortCommit);
                    return true;
                },
                _ => {
                    assert(!(self@[i as int] is ReadyCommit) && !(self@[i as int] is AbortCommit));
                },
            }
            i = i + 1;
        }
        false
    }

    /// Why the recording refuses the step that `cmd` leaves, if it does.
    fn refuses(&self, cmd: &Command) -> (r: Option<PlayerError>)
        requires
            self.wf(),
            !(cmd@ is Open),
            !(cmd@ is Close),
        ensures
            r == rejection(Map::empty().insert(cmd@.batch(), self@), cmd@),
    {
        assert(nats(self.save_points@).len() == self.save_points@.len());
        match cmd {
            Command::Write { .. } | Command::Delete { .. } => {
                if self.live < u32::MAX as usize {
                    None
                } else {
                    Some(PlayerError::BatchFull)
                }
            },
            Command::DeleteRange { start_key, end_key, .. } => {
                proof {
                    lemma_key_lt_total(start_key@, end_key@);
                }
                if order_bytes(&start_key.0, &end_key.0) == KeyOrder::Greater {
                    Some(PlayerError::InvalidRange)
                } else if self.live < u32::MAX as usize {
                    None
                } else {
                    Some(PlayerError::BatchFull)
                }
            },
            Command::PopSavePoint { .. } | Command::RollbackSavePoint { .. } => {
                if self.save_points.len() > 0 {
                    None
                } else {
                    Some(PlayerError::NoSavePoint)
                }
            },
            _ => None,
        }
    }

    /// Adds the step that `cmd` leaves.
    fn push(&mut self, cmd: &Command, address: Address)
        requires
            old(self).wf(),
            step_of(cmd@, address) is Some,
            accepts(played(old(self)@), step_of(cmd@, address).unwrap()),
        ensures
            final(self).wf(),
            final(self)@ == old(self)@.push(step_of(cmd@, address).unwrap()),
    {
        let ghost before = self@;
        let ghost step = step_of(cmd@, address).unwrap();
        assert(nats(self.save_points@).len() == self.save_points@.len());
        let ghost stack = nats(self.save_points@);
        let simple = match cmd {
            Command::Write { key, .. } => {
                self.live = self.live + 1;
                SimpleCommand::Write { key: key.duplicate(), address }
            },
            Command::Delete { key, .. } => {
                self.live = self.live + 1;
                SimpleCommand::Delete { key: key.duplicate(), address }
            },
            Command::DeleteRange { start_key, end_key, .. } => {
                self.live = self.live + 1;
                SimpleCommand::DeleteRange {
                    start_key: start_key.duplicate(),
                    end_key: end_key.duplicate(),
                    address,
                }
            },
            Command::PushSavePoint { .. } => {
                self.save_points.push(self.live);
                assert(nats(self.save_points@) =~= stack.push(self.live as nat));
                SimpleCommand::PushSavePoint
            },
            Command::PopSavePoint { .. } => {
                self.save_points.pop();
                assert(nats(self.save_points@) =~= stack.drop_last());
                SimpleCommand::PopSavePoint
            },
            Command::RollbackSavePoint { .. } => {
                let save_point = self.save_points.pop().unwrap();
                assert(nats(self.save_points@) =~= stack.drop_last());
                assert(save_point as nat == stack.last());
                if save_point <= self.live {
                    self.live = save_point;
                }
                SimpleCommand::RollbackSavePoint
            },
            Command::ReadyCommit { batch_commit, .. } => SimpleCommand::ReadyCommit {
                batch_commit: *batch_commit,
            },
            Command::AbortCommit { batch_commit, .. } => SimpleCommand::AbortCommit {
                batch_commit: *batch_commit,
            },
            _ => {
                proof {
                    assert(false);
                }
                SimpleCommand::PushSavePoint
            },
        };
        assert(simple@ == step);
        self.commands.push(simple);
        proof {
            assert(self@ =~= before.push(step));
            assert(self@.drop_last() =~= before);
        }
    }

    /// The operations that the commit attempt `batch_commit` puts into the
    /// index.
    fn replay(&self, batch_commit: BatchCommit) -> (r: Option<Vec<IndexOp>>)
        ensures
            match replayed(self@, batch_commit) {
                Some(ops) => r matches Some(v) && ops_view(v@) == ops,
                None => r is None,
            },
    {
        let ghost steps = self@;
        let mut ops: Vec<IndexOp> = Vec::new();
        let mut save_points: Vec<usize> = Vec::new();
        let mut i: usize = 0;
        assert(steps.take(0) =~= Seq::empty());
        assert(ops_view(ops@) =~= Seq::empty());
        assert(nats(save_points@) =~= Seq::empty());
        while i < self.commands.len()
            invariant
                steps == self@,
                i <= self.commands@.len(),
                terminator_from(steps, batch_commit, 0) == terminator_from(
                    steps,
                    batch_commit,
                    i as int,
                ),
                ops_view(ops@) == played(steps.take(i as int)).ops,
                nats(save_points@) == played(steps.take(i as int)).save_points,
            decreases self.commands.len() - i,
        {
            let ghost before = played(steps.take(i as int));
            let ghost ops_before = ops_view(ops@);
            let ghost stack = nats(save_points@);
            assert(stack.len() == save_points@.len());
            assert(ops_before.len() == ops@.len());
            assert(steps.take(i + 1).drop_last() =~= steps.take(i as int));
            assert(steps.take(i + 1).last() == steps[i as int]);
            assert(steps[i as int] == self.commands@[i as int]@);
            match &self.commands[i] {
                SimpleCommand::Write { key, address } => {
                    let op = IndexOp::Write { key: key.duplicate(), address: *address };
                    ops.push(op);
                    assert(ops_view(ops@) =~= ops_before.push(op@));
                },
                SimpleCommand::Delete { key, address } => {
                    let op = IndexOp::Delete { key: key.duplicate(), address: *address };
                    ops.push(op);
                    assert(ops_view(ops@) =~= ops_before.push(op@));
                },
                SimpleCommand::DeleteRange { start_key, end_key, address } => {
                    let op = IndexOp::DeleteRange {
                        start_key: start_key.duplicate(),
                        end_key: end_key.duplicate(),
                        address: *address,
                    };
                    ops.push(op);
                    assert(ops_view(ops@) =~= ops_before.push(op@));
                },
                SimpleCommand::PushSavePoint => {
                    save_points.push(ops.len());
                    assert(nats(save_points@) =~= stack.push(ops_before.len()));
                },
                SimpleCommand::PopSavePoint => {
                    if save_points.len() > 0 {
                        save_points.pop();
                        assert(nats(save_points@) =~= stack.drop_last());
                    }
                },
                SimpleCommand::RollbackSavePoint => {
                    if save_points.len() > 0 {
                        let save_point = save_points.pop().unwrap();
                        assert(nats(save_points@) =~= stack.drop_last());
                        assert(save_point as nat == stack.last());
                        if save_point <= ops.len() {
                            ops.truncate(save_point);
                            assert(ops_view(ops@) =~= ops_before.take(save_point as int));
                        }
                    }
                },
                SimpleCommand::ReadyCommit { batch_commit: bc } => {
                    if batch_commit == *bc {
                        return Some(ops);
                    }
                },
                SimpleCommand::AbortCommit { batch_commit: bc } => {
                    if batch_commit == *bc {
                        ops.clear();
                        assert(ops_view(ops@) =~= Seq::empty());
                        return Some(ops);
                    }
                },
            }
            i = i + 1;
        }
        None
    }
}

/// The recordings of the open batches of one tree.
pub struct BatchPlayer {
    batches: BTreeMap<u64, BatchData>,
}

impl View for BatchPlayer {
    type V = Map<Batch, Seq<Step>>;

    closed spec fn view(&self) -> Map<Batch, Seq<Step>> {
        Map::new(
            |batch: Batch| self.batches@.contains_key(batch.0),
            |batch: Batch| self.batches@[batch.0]@,
        )
    }
}

impl BatchPlayer {
    /// Every recording is in step with the save points and the count of
    /// operations that are kept beside it.
    pub closed spec fn wf(&self) -> bool {
        forall|b: u64| #[trigger] self.batches@.contains_key(b) ==> self.batches@[b].wf()
    }

    pub fn new() -> (player: BatchPlayer)
        ensures
            player.wf(),
            player@ == Map::<Batch, Seq<Step>>::empty(),
    {
        let player = BatchPlayer { batches: BTreeMap::new() };
        assert(player@ =~= Map::empty());
        player
    }

    /// The recording of every batch is legal.
    pub proof fn lemma_legal(&self, batch: Batch)
        requires
            self.wf(),
            self@.contains_key(batch),
        ensures
            legal(self@[batch]),
    {
        assert(self.batches@.contains_key(batch.0));
    }

    /// Whether the batch has a recording.
    pub fn contains(&self, batch: Batch) -> (r: bool)
        ensures
            r == self@.contains_key(batch),
    {
        self.batches.contains_key(&batch.0)
    }

    /// Whether the batch is open and a commit of it was tried or given up.
    pub fn ended(&self, batch: Batch) -> (r: bool)
        requires
            self.wf(),
        ensures
            r == (self@.contains_key(batch) && !unended(self@[batch])),
    {
        broadcast use vstd::std_specs::btree::group_btree_axioms;

        match self.batches.get(&batch.0) {
            None => false,
            Some(data) => {
                assert(self@[batch] == data@);
                data.ended()
            },
        }
    }

    /// Why the player would refuse `cmd`, `None` where it would take it.
    pub fn check(&self, cmd: &Command) -> (r: Option<PlayerError>)
        requires
            self.wf(),
        ensures
            r == rejection(self@, cmd@),
    {
        broadcast use vstd::std_specs::btree::group_btree_axioms;

        let batch = cmd.batch();
        match cmd {
            Command::Open { .. } => {
                if self.batches.contains_key(&batch.0) {
                    Some(PlayerError::BatchExists)
                } else {
                    None
                }
            },
            Command::Close { .. } => {
                if self.batches.contains_key(&batch.0) {
                    None
                } else {
                    Some(PlayerError::UnknownBatch)
                }
            },
            _ => {
                match self.batches.get(&batch.0) {
                    None => Some(PlayerError::UnknownBatch),
                    Some(data) => {
                        assert(self@[batch] == data@);
                        data.refuses(cmd)
                    },
                }
            },
        }
    }

    /// Records a command that was appended to the log at `address`. `Open`
    /// starts the recording of its batch and `Close` drops it; every other
    /// command is added to the recording of its batch. A command that the
    /// player refuses leaves it as it was.
    pub fn record(&mut self, cmd: &Command, address: Address) -> (r: Result<(), PlayerError>)
        requires
            old(self).wf(),
        ensures
            final(self).wf(),
            match rejection(old(self)@, cmd@) {
                Some(e) => r == Err::<(), PlayerError>(e) && final(self)@ == old(self)@,
                None => r is Ok && final(self)@ == recorded(old(self)@, cmd@, address),
            },
    {
        broadcast use vstd::std_specs::btree::group_btree_axioms;

        if let Some(e) = self.check(cmd) {
            return Err(e);
        }
        let batch = cmd.batch();
        match cmd {
            Command::Open { .. } => {
                self.batches.insert(batch.0, BatchData::new());
            },
            Command::Close { .. } => {
                self.batches.remove(&batch.0);
            },
            _ => {
                let mut data = self.batches.remove(&batch.0).unwrap();
                assert(data@ == old(self)@[batch]);
                data.push(cmd, address);
                self.batches.insert(batch.0, data);
            },
        }
        assert(final(self)@ =~= recorded(old(self)@, cmd@, address));
        Ok(())
    }

    /// The operations that the commit attempt `batch_commit` of `batch`
    /// puts into the index: those that stood when the attempt was made
    /// ready, the save points applied; none if the attempt was aborted.
    pub fn replay(&self, batch: Batch, batch_commit: BatchCommit) -> (r: Result<
        Vec<IndexOp>,
        PlayerError,
    >)
        ensures
            match r {
                Ok(ops) => self@.contains_key(batch) && replayed(self@[batch], batch_commit)
                    == Some(ops_view(ops@)),
                Err(e) => if self@.contains_key(batch) {
                    e == PlayerError::NotTerminated && replayed(self@[batch], batch_commit) is None
                } else {
                    e == PlayerError::UnknownBatch
                },
            },
    {
        broadcast use vstd::std_specs::btree::group_btree_axioms;

        match self.batches.get(&batch.0) {
            None => Err(PlayerError::UnknownBatch),
            Some(data) => {
                assert(self@[batch] == data@);
                match data.replay(batch_commit) {
                    Some(ops) => Ok(ops),
                    None => Err(PlayerError::NotTerminated),
                }
            },
        }
    }

    /// Drops the recording of a batch whose `Close` could not be logged.
    pub fn emergency_close(&mut self, batch: Batch)
        requires
            old(self).wf(),
        ensures
            final(self).wf(),
            final(self)@ == old(self)@.remove(batch),
    {
        broadcast use vstd::std_specs::btree::group_btree_axioms;

        self.batches.remove(&batch.0);
        assert(final(self)@ =~= old(self)@.remove(batch));
    }
}

} // verus!
