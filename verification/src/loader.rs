//! Recovery: the commit log is read from its start, and every commit in it
//! is brought into the index of every tree from the tree's own log.

use vstd::prelude::*;
use crate::command::{Command, CommandView};
use crate::commit_log::{CommitCommand, CommitLog};
use crate::index::IndexView;
use crate::log_file::{LogError, LogFile};
use crate::tree::{
    InitReplayer,
    ReplayerView,
    Tree,
    TreeError,
    TreeView,
    commit_attempt,
    lemma_apply_ops_frame,
    max_batch_commit_of,
    max_batch_of,
    replay_commit,
    replay_record,
    replay_records,
};
use crate::batch_player::replayed;
use crate::types::{Address, Batch, BatchCommit, Commit};

verus! {

/// The counters that a recovered database goes on from.
#[derive(Clone, Copy, Debug, PartialEq, Eq, Structural)]
pub struct DbInitState {
    pub next_batch: Batch,
    pub next_batch_commit: BatchCommit,
    pub next_commit: Commit,
}

/// Why the logs could not be recovered.
#[derive(Clone, Debug, PartialEq, Eq)]
pub enum LoadError {
    /// The commit log failed.
    CommitLog(LogError),
    /// The log of the tree with this number failed, or does not fit the
    /// commit log.
    Tree { tree: usize, error: TreeError },
    /// A commit of the commit log does not lie above the commit before it.
    NonMonotonicCommit,
    /// The logs hold the largest number that a counter can take.
    CounterOverflow,
}

/// How far the recovery of one tree has come.
pub struct TreePoint {
    pub replayer: ReplayerView,
    pub index: IndexView,
    /// The records of the tree's log that are yet to be read.
    pub remaining: Seq<(Address, CommandView)>,
}

/// The recovery of a tree before anything was read.
pub open spec fn start_point(tree: TreeView) -> TreePoint {
    TreePoint {
        replayer: ReplayerView {
            batches: Map::empty(),
            waiting: Set::empty(),
            given_up: Set::empty(),
            max_batch: None,
            max_batch_commit: None,
        },
        index: tree.index,
        remaining: tree.records,
    }
}

pub open spec fn start_points(trees: Seq<TreeView>) -> Seq<TreePoint> {
    Seq::new(trees.len(), |i: int| start_point(trees[i]))
}

/// What one commit of the commit log makes of the recovery of the trees
/// from number `j` on, taken in their order. The first tree that fails
/// ends the recovery.
pub open spec fn replay_commit_in_trees(points: Seq<TreePoint>, record: CommitCommand, j: int) -> Result<
    Seq<TreePoint>,
    LoadError,
>
    decreases points.len() - j,
{
    if j < 0 || j >= points.len() {
        Ok(points)
    } else {
        match replay_commit(
            points[j].replayer,
            points[j].index,
            record.batch,
            record.batch_commit,
            record.commit,
            points[j].remaining,
        ) {
            Err(e) => Err(LoadError::Tree { tree: j as usize, error: e }),
            Ok((replayer, index, remaining)) => replay_commit_in_trees(
                points.update(j, TreePoint { replayer, index, remaining }),
                record,
                j + 1,
            ),
        }
    }
}

/// What the commits of the commit log make of the recovery, taken in
/// their order, and the last commit among them. Every commit must lie above
/// the one before it.
pub open spec fn replay_commits(
    points: Seq<TreePoint>,
    max_commit: Option<Commit>,
    commits: Seq<(Address, CommitCommand)>,
) -> Result<(Seq<TreePoint>, Option<Commit>), LoadError>
    decreases commits.len(),
{
    if commits.len() == 0 {
        Ok((points, max_commit))
    } else {
        let record = commits[0].1;
        match replay_commit_in_trees(points, record, 0) {
            Err(e) => Err(e),
            Ok(next) => if max_commit matches Some(max) && max.0 >= record.commit.0 {
                Err(LoadError::NonMonotonicCommit)
            } else {
                replay_commits(next, Some(record.commit), commits.drop_first())
            },
        }
    }
}

pub open spec fn merge_batch(a: Option<Batch>, b: Option<Batch>) -> Option<Batch> {
    match (a, b) {
        (Some(x), Some(y)) => if x.0 >= y.0 {
            Some(x)
        } else {
            Some(y)
        },
        (Some(x), None) => Some(x),
        (None, y) => y,
    }
}

pub open spec fn merge_batch_commit(a: Option<BatchCommit>, b: Option<BatchCommit>) -> Option<
    BatchCommit,
> {
    match (a, b) {
        (Some(x), Some(y)) => if x.0 >= y.0 {
            Some(x)
        } else {
            Some(y)
        },
        (Some(x), None) => Some(x),
        (None, y) => y,
    }
}

/// The largest batch number that the logs of the trees hold.
pub open spec fn max_batch_in_trees(points: Seq<TreePoint>) -> Option<Batch>
    decreases points.len(),
{
    if points.len() == 0 {
        None
    } else {
        merge_batch(
            max_batch_in_trees(points.drop_last()),
            max_batch_of(points.last().replayer.max_batch, points.last().remaining),
        )
    }
}

/// The largest number of a commit attempt that the logs of the trees hold.
pub open spec fn max_batch_commit_in_trees(points: Seq<TreePoint>) -> Option<BatchCommit>
    decreases points.len(),
{
    if points.len() == 0 {
        None
    } else {
        merge_batch_commit(
            max_batch_commit_in_trees(points.drop_last()),
            max_batch_commit_of(points.last().replayer.max_batch_commit, points.last().remaining),
        )
    }
}

/// The number after the largest one in use: 0 where none is in use, none
/// where the largest is the last that there is.
pub open spec fn next_after(max: Option<u64>) -> Option<u64> {
    match max {
        None => Some(0),
        Some(m) => if m < u64::MAX {
            Some((m + 1) as u64)
        } else {
            None
        },
    }
}

pub open spec fn batch_number(batch: Option<Batch>) -> Option<u64> {
    match batch {
        Some(b) => Some(b.0),
        None => None,
    }
}

pub open spec fn batch_commit_number(batch_commit: Option<BatchCommit>) -> Option<u64> {
    match batch_commit {
        Some(b) => Some(b.0),
        None => None,
    }
}

pub open spec fn commit_number(commit: Option<Commit>) -> Option<u64> {
    match commit {
        Some(c) => Some(c.0),
        None => None,
    }
}

/// The commits that the commit log records rise from record to record.
pub open spec fn commits_rise(commits: Seq<(Address, CommitCommand)>) -> bool {
    forall|i: int, j: int|
        0 <= i < j < commits.len() ==> (#[trigger] commits[i]).1.commit.0 < (
        #[trigger] commits[j]).1.commit.0
}

/// The counters go by the commit log: its commits rise, the next commit
/// lies above every one of them, and the commit limit of the views is one
/// above the last of them, 0 where there is none.
pub open spec fn commits_counted(
    commits: Seq<(Address, CommitCommand)>,
    next_commit: u64,
    view_commit_limit: u64,
) -> bool {
    &&& commits_rise(commits)
    &&& forall|k: int| 0 <= k < commits.len() ==> (#[trigger] commits[k]).1.commit.0 < next_commit
    &&& view_commit_limit == if commits.len() == 0 {
        0
    } else {
        commits.last().1.commit.0 + 1
    }
}

/// Commits that recovery takes rise from record to record, lie above the
/// commit that went before them, and the last of them is the one that the
/// counters go on from.
pub proof fn lemma_replayed_commits_rise(
    points: Seq<TreePoint>,
    max_commit: Option<Commit>,
    commits: Seq<(Address, CommitCommand)>,
)
    requires
        replay_commits(points, max_commit, commits) is Ok,
    ensures
        commits_rise(commits),
        forall|k: int|
            0 <= k < commits.len() && max_commit is Some ==> max_commit.unwrap().0 < (
            #[trigger] commits[k]).1.commit.0,
        replay_commits(points, max_commit, commits).unwrap().1 == if commits.len() == 0 {
            max_commit
        } else {
            Some(commits.last().1.commit)
        },
    decreases commits.len(),
{
    if commits.len() > 0 {
        let record = commits[0].1;
        let next = replay_commit_in_trees(points, record, 0).unwrap();
        let rest = commits.drop_first();
        lemma_replayed_commits_rise(next, Some(record.commit), rest);
        assert forall|k: int| 1 <= k < commits.len() implies record.commit.0 < (
        #[trigger] commits[k]).1.commit.0 by {
            assert(commits[k] == rest[k - 1]);
        }
        assert forall|i: int, j: int| 0 <= i < j < commits.len() implies (
        #[trigger] commits[i]).1.commit.0 < (#[trigger] commits[j]).1.commit.0 by {
            assert(commits[j] == rest[j - 1]);
            if i > 0 {
                assert(commits[i] == rest[i - 1]);
            }
        }
        if rest.len() > 0 {
            assert(rest.last() == commits.last());
        }
    }
}

/// The counters that recovery gives go by the commit log.
pub proof fn lemma_loaded_counts(commits: Seq<(Address, CommitCommand)>, trees: Seq<TreeView>)
    requires
        loaded(commits, trees) is Ok,
    ensures
        commits_counted(
            commits,
            loaded(commits, trees).unwrap().0.next_commit.0,
            loaded(commits, trees).unwrap().0.next_commit.0,
        ),
{
    lemma_replayed_commits_rise(start_points(trees), None, commits);
}

/// What recovery makes of the logs: the counters to go on from, and the
/// index of every tree. The commits of the commit log are replayed in
/// their order; the rest of every tree's log only raises the counters.
pub open spec fn loaded(commits: Seq<(Address, CommitCommand)>, trees: Seq<TreeView>) -> Result<
    (DbInitState, Seq<IndexView>),
    LoadError,
> {
    match replay_commits(start_points(trees), None, commits) {
        Err(e) => Err(e),
        Ok((points, max_commit)) => match (
            next_after(batch_number(max_batch_in_trees(points))),
            next_after(batch_commit_number(max_batch_commit_in_trees(points))),
            next_after(commit_number(max_commit)),
        ) {
            (Some(next_batch), Some(next_batch_commit), Some(next_commit)) => Ok(
                (
                    DbInitState {
                        next_batch: Batch(next_batch),
                        next_batch_commit: BatchCommit(next_batch_commit),
                        next_commit: Commit(next_commit),
                    },
                    Seq::new(points.len(), |i: int| points[i].index),
                ),
            ),
            _ => Err(LoadError::CounterOverflow),
        },
    }
}

pub open spec fn tree_views<T: LogFile<Cmd = Command>>(trees: Seq<Tree<T>>) -> Seq<TreeView> {
    Seq::new(trees.len(), |i: int| trees[i]@)
}

pub open spec fn tree_points<T: LogFile<Cmd = Command>>(
    trees: Seq<Tree<T>>,
    replayers: Seq<InitReplayer>,
) -> Seq<TreePoint> {
    Seq::new(
        trees.len(),
        |i: int|
            TreePoint {
                replayer: replayers[i]@,
                index: trees[i]@.index,
                remaining: replayers[i].remaining(),
            },
    )
}

/// A commit that recovery brings into a tree leaves the watermark of the
/// tree's index right above it.
pub proof fn lemma_replay_commit_watermark(
    replayer: ReplayerView,
    index: IndexView,
    batch: Batch,
    batch_commit: BatchCommit,
    commit: Commit,
    records: Seq<(Address, CommandView)>,
)
    ensures
        replay_commit(replayer, index, batch, batch_commit, commit, records) matches Ok(
            (_, after, _),
        ) ==> after.watermark == commit.0 + 1 && commit.0 < u64::MAX,
{
    lemma_commit_attempt_watermark(replayer.batches, index, batch, batch_commit, commit);
    lemma_replay_records_watermark(replayer, index, batch, batch_commit, commit, records);
}

proof fn lemma_commit_attempt_watermark(
    batches: Map<Batch, Seq<crate::batch_player::Step>>,
    index: IndexView,
    batch: Batch,
    batch_commit: BatchCommit,
    commit: Commit,
)
    ensures
        commit_attempt(batches, index, batch, batch_commit, commit) matches Ok(after)
            ==> after.watermark == commit.0 + 1 && commit.0 < u64::MAX,
{
    if batches.contains_key(batch) {
        match replayed(batches[batch], batch_commit) {
            Some(ops) => lemma_apply_ops_frame(index, commit, ops),
            None => {},
        }
    }
}

proof fn lemma_replay_records_watermark(
    replayer: ReplayerView,
    index: IndexView,
    batch: Batch,
    batch_commit: BatchCommit,
    commit: Commit,
    records: Seq<(Address, CommandView)>,
)
    ensures
        replay_records(replayer, index, batch, batch_commit, commit, records) matches Ok(
            (_, after, _),
        ) ==> after.watermark == commit.0 + 1 && commit.0 < u64::MAX,
    decreases records.len(),
{
    if records.len() > 0 {
        match replay_record(
            replayer,
            index,
            batch,
            batch_commit,
            commit,
            records[0].0,
            records[0].1,
        ) {
            Err(_) => {},
            Ok((next, after, done)) => {
                if done {
                    lemma_commit_attempt_watermark(
                        next.batches,
                        index,
                        batch,
                        batch_commit,
                        commit,
                    );
                } else {
                    lemma_replay_records_watermark(
                        next,
                        after,
                        batch,
                        batch_commit,
                        commit,
                        records.drop_first(),
                    );
                }
            },
        }
    }
}

fn next_number(max: Option<u64>) -> (r: Option<u64>)
    ensures
        r == next_after(max),
{
    match max {
        None => Some(0),
        Some(m) => if m < u64::MAX {
            Some(m + 1)
        } else {
            None
        },
    }
}

/// Brings one commit of the commit log into every tree.
fn replay_commit_all<T: LogFile<Cmd = Command>>(
    trees: &mut Vec<Tree<T>>,
    replayers: &mut Vec<InitReplayer>,
    record: CommitCommand,
) -> (r: Result<(), LoadError>)
    requires
        old(trees)@.len() == old(replayers)@.len(),
        forall|i: int|
            0 <= i < old(trees)@.len() ==> (#[trigger] old(trees)@[i]).wf() && old(replayers)@[i].wf(
                &old(trees)@[i],
            ),
    ensures
        final(trees)@.len() == old(trees)@.len(),
        final(replayers)@.len() == old(trees)@.len(),
        forall|i: int|
            0 <= i < final(trees)@.len() ==> {
                &&& (#[trigger] final(trees)@[i]).wf()
                &&& final(replayers)@[i].wf(&final(trees)@[i])
                &&& final(trees)@[i].reliable() == old(trees)@[i].reliable()
                &&& final(trees)@[i]@.records == old(trees)@[i]@.records
                &&& final(trees)@[i]@.batches == old(trees)@[i]@.batches
                &&& final(trees)@[i]@.initialized == old(trees)@[i]@.initialized
            },
        match r {
            Ok(()) => {
                &&& replay_commit_in_trees(tree_points(old(trees)@, old(replayers)@), record, 0)
                    == Ok::<Seq<TreePoint>, LoadError>(tree_points(final(trees)@, final(replayers)@))
                &&& forall|i: int|
                    0 <= i < final(trees)@.len() ==> (#[trigger] final(trees)@[i])@.index.watermark
                        == record.commit.0 + 1
            },
            Err(LoadError::Tree { tree, error: TreeError::Log(_) }) => tree < old(trees)@.len()
                && !old(trees)@[tree as int].reliable(),
            Err(e) => replay_commit_in_trees(tree_points(old(trees)@, old(replayers)@), record, 0)
                == Err::<Seq<TreePoint>, LoadError>(e),
        },
        r matches Err(e) ==> e is Tree,
{
    let ghost goal = replay_commit_in_trees(tree_points(old(trees)@, old(replayers)@), record, 0);
    let mut j: usize = 0;
    while j < trees.len()
        invariant
            j <= trees@.len(),
            trees@.len() == old(trees)@.len(),
            replayers@.len() == old(trees)@.len(),
            forall|i: int|
                0 <= i < trees@.len() ==> {
                    &&& (#[trigger] trees@[i]).wf()
                    &&& replayers@[i].wf(&trees@[i])
                    &&& trees@[i].reliable() == old(trees)@[i].reliable()
                    &&& trees@[i]@.records == old(trees)@[i]@.records
                    &&& trees@[i]@.batches == old(trees)@[i]@.batches
                    &&& trees@[i]@.initialized == old(trees)@[i]@.initialized
                },
            goal == replay_commit_in_trees(tree_points(old(trees)@, old(replayers)@), record, 0),
            goal == replay_commit_in_trees(tree_points(trees@, replayers@), record, j as int),
            forall|i: int|
                0 <= i < j ==> (#[trigger] trees@[i])@.index.watermark == record.commit.0 + 1,
        decreases trees.len() - j,
    {
        let ghost points = tree_points(trees@, replayers@);
        let ghost trees_before = trees@;
        let ghost replayers_before = replayers@;
        proof {
            lemma_replay_commit_watermark(
                points[j as int].replayer,
                points[j as int].index,
                record.batch,
                record.batch_commit,
                record.commit,
                points[j as int].remaining,
            );
        }
        assert(points[j as int].replayer == replayers@[j as int]@);
        assert(points[j as int].index == trees@[j as int]@.index);
        assert(points[j as int].remaining == replayers@[j as int].remaining());
        let r = replayers[j].replay_commit(
            &mut trees[j],
            record.batch,
            record.batch_commit,
            record.commit,
        );
        proof {
            assert forall|i: int| 0 <= i < trees@.len() implies {
                &&& (#[trigger] trees@[i]).wf()
                &&& replayers@[i].wf(&trees@[i])
                &&& trees@[i].reliable() == old(trees)@[i].reliable()
                &&& trees@[i]@.records == old(trees)@[i]@.records
                &&& trees@[i]@.batches == old(trees)@[i]@.batches
                &&& trees@[i]@.initialized == old(trees)@[i]@.initialized
            } by {
                if i != j {
                    assert(trees@[i] == trees_before[i]);
                    assert(replayers@[i] == replayers_before[i]);
                }
            }
        }
        match r {
            Err(e) => {
                proof {
                    if e is Log {
                        assert(!old(trees)@[j as int].reliable());
                    } else {
                        assert(replay_commit(
                            points[j as int].replayer,
                            points[j as int].index,
                            record.batch,
                            record.batch_commit,
                            record.commit,
                            points[j as int].remaining,
                        ) == Err::<(ReplayerView, IndexView, Seq<(Address, CommandView)>), TreeError>(
                            e,
                        ));
                        assert(goal == Err::<Seq<TreePoint>, LoadError>(
                            LoadError::Tree { tree: j, error: e },
                        ));
                    }
                }
                return Err(LoadError::Tree { tree: j, error: e });
            },
            Ok(()) => {
                proof {
                    let now = tree_points(trees@, replayers@);
                    assert(now =~= points.update(j as int, now[j as int])) by {
                        assert forall|i: int| 0 <= i < now.len() && i != j implies now[i]
                            == points[i] by {
                            assert(trees@[i] == trees_before[i]);
                            assert(replayers@[i] == replayers_before[i]);
                        }
                    }
                    assert forall|i: int| 0 <= i < j + 1 implies (
                    #[trigger] trees@[i])@.index.watermark == record.commit.0 + 1 by {
                        if i != j {
                            assert(trees@[i] == trees_before[i]);
                        }
                    }
                }
            },
        }
        j = j + 1;
    }
    assert(goal == Ok::<Seq<TreePoint>, LoadError>(tree_points(trees@, replayers@)));
    Ok(())
}

/// Recovers the trees from their logs, led by the commit log. The trees
/// must be new: nothing recovered yet, nothing in their indexes. Where
/// recovery fails, no tree is marked as recovered.
pub fn load<T: LogFile<Cmd = Command>, C: LogFile<Cmd = CommitCommand>>(
    commit_log: &CommitLog<C>,
    trees: &mut Vec<Tree<T>>,
) -> (r: Result<DbInitState, LoadError>)
    requires
        commit_log.inv(),
        forall|i: int|
            0 <= i < old(trees)@.len() ==> {
                &&& (#[trigger] old(trees)@[i]).wf()
                &&& !old(trees)@[i]@.initialized
                &&& old(trees)@[i]@.index.watermark == 0
            },
    ensures
        final(trees)@.len() == old(trees)@.len(),
        forall|i: int|
            0 <= i < final(trees)@.len() ==> {
                &&& (#[trigger] final(trees)@[i]).wf()
                &&& final(trees)@[i].reliable() == old(trees)@[i].reliable()
                &&& final(trees)@[i]@.records == old(trees)@[i]@.records
                &&& final(trees)@[i]@.batches == old(trees)@[i]@.batches
            },
        match r {
            Ok(state) => {
                &&& loaded(commit_log.records(), tree_views(old(trees)@)) == Ok::<
                    (DbInitState, Seq<IndexView>),
                    LoadError,
                >((state, Seq::new(final(trees)@.len(), |i: int| final(trees)@[i]@.index)))
                &&& forall|i: int|
                    0 <= i < final(trees)@.len() ==> (#[trigger] final(trees)@[i])@.initialized
                        && final(trees)@[i]@.index.watermark == state.next_commit.0
            },
            Err(LoadError::CommitLog(_)) => !commit_log.reliable(),
            Err(LoadError::Tree { tree, error: TreeError::Log(_) }) => tree < old(trees)@.len()
                && !old(trees)@[tree as int].reliable(),
            Err(e) => loaded(commit_log.records(), tree_views(old(trees)@)) == Err::<
                (DbInitState, Seq<IndexView>),
                LoadError,
            >(e),
        },
        r is Err ==> forall|i: int|
            0 <= i < final(trees)@.len() ==> !(#[trigger] final(trees)@[i])@.initialized,
{
    let ghost start = start_points(tree_views(old(trees)@));
    let ghost commits = commit_log.records();
    let mut replayers: Vec<InitReplayer> = Vec::new();
    let mut k: usize = 0;
    while k < trees.len()
        invariant
            k <= trees@.len(),
            trees@ == old(trees)@,
            replayers@.len() == k,
            forall|i: int|
                0 <= i < trees@.len() ==> (#[trigger] trees@[i]).wf() && !trees@[i]@.initialized,
            forall|i: int|
                0 <= i < k ==> {
                    &&& (#[trigger] replayers@[i]).wf(&trees@[i])
                    &&& replayers@[i]@ == start_point(trees@[i]@).replayer
                    &&& replayers@[i].remaining() == trees@[i]@.records
                },
        decreases trees.len() - k,
    {
        let replayer = trees[k].init_replayer();
        replayers.push(replayer);
        k = k + 1;
    }
    assert(tree_points(trees@, replayers@) =~= start);
    let ghost goal = replay_commits(start, None, commits);
    let mut commit_replay = commit_log.replay();
    let mut max_commit: Option<Commit> = None;
    loop
        invariant
            commit_log.inv(),
            commits == commit_log.records(),
            commit_replay.wf(commits),
            trees@.len() == old(trees)@.len(),
            replayers@.len() == old(trees)@.len(),
            forall|i: int|
                0 <= i < trees@.len() ==> {
                    &&& (#[trigger] trees@[i]).wf()
                    &&& replayers@[i].wf(&trees@[i])
                    &&& trees@[i].reliable() == old(trees)@[i].reliable()
                    &&& trees@[i]@.records == old(trees)@[i]@.records
                    &&& trees@[i]@.batches == old(trees)@[i]@.batches
                    &&& !trees@[i]@.initialized
                    &&& trees@[i]@.index.watermark == (match max_commit {
                        Some(c) => c.0 + 1,
                        None => 0,
                    })
                },
            goal == replay_commits(start_points(tree_views(old(trees)@)), None, commits),
            goal == replay_commits(
                tree_points(trees@, replayers@),
                max_commit,
                commit_replay.remaining(commits),
            ),
        ensures
            commit_replay.remaining(commits).len() == 0,
            trees@.len() == old(trees)@.len(),
            replayers@.len() == old(trees)@.len(),
            forall|i: int|
                0 <= i < trees@.len() ==> {
                    &&& (#[trigger] trees@[i]).wf()
                    &&& replayers@[i].wf(&trees@[i])
                    &&& trees@[i].reliable() == old(trees)@[i].reliable()
                    &&& trees@[i]@.records == old(trees)@[i]@.records
                    &&& trees@[i]@.batches == old(trees)@[i]@.batches
                    &&& !trees@[i]@.initialized
                    &&& trees@[i]@.index.watermark == (match max_commit {
                        Some(c) => c.0 + 1,
                        None => 0,
                    })
                },
            goal == Ok::<(Seq<TreePoint>, Option<Commit>), LoadError>(
                (tree_points(trees@, replayers@), max_commit),
            ),
        decreases commit_replay.remaining(commits).len(),
    {
        let ghost left = commit_replay.remaining(commits);
        let next = commit_log.replay_next(&mut commit_replay);
        let record = match next {
            None => {
                break ;
            },
            Some(Err(e)) => {
                return Err(LoadError::CommitLog(e));
            },
            Some(Ok(record)) => record,
        };
        assert(left.len() > 0 && left[0].1 == record);
        let ghost points_before = tree_points(trees@, replayers@);
        let ghost trees_before = trees@;
        match replay_commit_all(trees, &mut replayers, record) {
            Err(e) => {
                proof {
                    if e matches LoadError::Tree { error: TreeError::Log(_), .. } {
                        assert(trees_before[e->tree as int].wf());
                    } else {
                        assert(replay_commit_in_trees(points_before, record, 0) == Err::<
                            Seq<TreePoint>,
                            LoadError,
                        >(e));
                        assert(goal == Err::<(Seq<TreePoint>, Option<Commit>), LoadError>(e));
                    }
                }
                return Err(e);
            },
            Ok(()) => {},
        }
        if let Some(max) = max_commit {
            if max.0 >= record.commit.0 {
                proof {
                    assert(goal == Err::<(Seq<TreePoint>, Option<Commit>), LoadError>(
                        LoadError::NonMonotonicCommit,
                    ));
                }
                return Err(LoadError::NonMonotonicCommit);
            }
        }
        max_commit = Some(record.commit);
    }
    let ghost points = tree_points(trees@, replayers@);
    let mut max_batch: Option<Batch> = None;
    let mut max_batch_commit: Option<BatchCommit> = None;
    let mut j: usize = 0;
    assert(points.take(0) =~= Seq::empty());
    while j < trees.len()
        invariant
            j <= trees@.len(),
            trees@.len() == old(trees)@.len(),
            replayers@.len() == old(trees)@.len(),
            points.len() == trees@.len(),
            forall|i: int|
                0 <= i < trees@.len() ==> {
                    &&& (#[trigger] trees@[i]).wf()
                    &&& replayers@[i].wf(&trees@[i])
                    &&& trees@[i].reliable() == old(trees)@[i].reliable()
                    &&& trees@[i]@.records == old(trees)@[i]@.records
                    &&& trees@[i]@.batches == old(trees)@[i]@.batches
                    &&& !trees@[i]@.initialized
                    &&& trees@[i]@.index == points[i].index
                    &&& trees@[i]@.index.watermark == (match max_commit {
                        Some(c) => c.0 + 1,
                        None => 0,
                    })
                },
            forall|i: int|
                j <= i < trees@.len() ==> (#[trigger] replayers@[i])@ == points[i].replayer
                    && replayers@[i].remaining() == points[i].remaining,
            max_batch == max_batch_in_trees(points.take(j as int)),
            max_batch_commit == max_batch_commit_in_trees(points.take(j as int)),
        decreases trees.len() - j,
    {
        let ghost replayers_before = replayers@;
        assert(points.take(j + 1).drop_last() =~= points.take(j as int));
        assert(points.take(j + 1).last() == points[j as int]);
        assert(replayers@[j as int]@ == points[j as int].replayer);
        let rest = replayers[j].replay_rest(&trees[j]);
        proof {
            assert forall|i: int| 0 <= i < trees@.len() implies replayers@[i].wf(
                &(#[trigger] trees@[i]),
            ) by {
                if i != j {
                    assert(replayers@[i] == replayers_before[i]);
                }
            }
            assert forall|i: int| j + 1 <= i < trees@.len() implies (#[trigger] replayers@[i])@
                == points[i].replayer && replayers@[i].remaining() == points[i].remaining by {
                assert(replayers@[i] == replayers_before[i]);
            }
        }
        let (tree_max_batch, tree_max_batch_commit) = match rest {
            Ok(max) => max,
            Err(e) => {
                return Err(LoadError::Tree { tree: j, error: e });
            },
        };
        max_batch = match (max_batch, tree_max_batch) {
            (Some(x), Some(y)) => if x.0 >= y.0 {
                Some(x)
            } else {
                Some(y)
            },
            (Some(x), None) => Some(x),
            (None, y) => y,
        };
        max_batch_commit = match (max_batch_commit, tree_max_batch_commit) {
            (Some(x), Some(y)) => if x.0 >= y.0 {
                Some(x)
            } else {
                Some(y)
            },
            (Some(x), None) => Some(x),
            (None, y) => y,
        };
        j = j + 1;
    }
    assert(points.take(j as int) =~= points);
    let next_batch = next_number(
        match max_batch {
            Some(b) => Some(b.0),
            None => None,
        },
    );
    let next_batch_commit = next_number(
        match max_batch_commit {
            Some(b) => Some(b.0),
            None => None,
        },
    );
    let next_commit = next_number(
        match max_commit {
            Some(c) => Some(c.0),
            None => None,
        },
    );
    let state = match (next_batch, next_batch_commit, next_commit) {
        (Some(next_batch), Some(next_batch_commit), Some(next_commit)) => DbInitState {
            next_batch: Batch(next_batch),
            next_batch_commit: BatchCommit(next_batch_commit),
            next_commit: Commit(next_commit),
        },
        _ => {
            return Err(LoadError::CounterOverflow);
        },
    };
    let mut k: usize = 0;
    while k < trees.len()
        invariant
            k <= trees@.len(),
            trees@.len() == old(trees)@.len(),
            points.len() == trees@.len(),
            forall|i: int|
                0 <= i < trees@.len() ==> {
                    &&& (#[trigger] trees@[i]).wf()
                    &&& trees@[i].reliable() == old(trees)@[i].reliable()
                    &&& trees@[i]@.records == old(trees)@[i]@.records
                    &&& trees@[i]@.batches == old(trees)@[i]@.batches
                    &&& trees@[i]@.index == points[i].index
                    &&& trees@[i]@.index.watermark == state.next_commit.0
                    &&& trees@[i]@.initialized == (i < k)
                },
        decreases trees.len() - k,
    {
        let ghost before = trees@;
        trees[k].skip_init();
        proof {
            assert forall|i: int| 0 <= i < trees@.len() implies {
                &&& (#[trigger] trees@[i]).wf()
                &&& trees@[i].reliable() == old(trees)@[i].reliable()
                &&& trees@[i]@.records == old(trees)@[i]@.records
                &&& trees@[i]@.batches == old(trees)@[i]@.batches
                &&& trees@[i]@.index == points[i].index
                &&& trees@[i]@.index.watermark == state.next_commit.0
                &&& trees@[i]@.initialized == (i < k + 1)
            } by {
                if i != k {
                    assert(trees@[i] == before[i]);
                }
            }
        }
        k = k + 1;
    }
    proof {
        assert(Seq::new(trees@.len(), |i: int| trees@[i]@.index) =~= Seq::new(
            points.len(),
            |i: int| points[i].index,
        ));
    }
    Ok(state)
}

} // verus!
