//! What recovery makes of the logs that a database writes.
//!
//! Recovery replays the commits of the commit log over the log of every
//! tree. A database is restorable where that replay takes every commit and
//! comes to the indexes and the commit limit that the database shows; it
//! is recoverable where, besides, what the trees have logged since the
//! last commit will replay with the next commit. A new database is
//! recoverable, and every operation of a database keeps it so: writes,
//! save points, commits that go well, commits that fail, attempts that
//! are given up, batches that are closed or left open.
//!
//! The recovery of a later commit passes the records of every attempt
//! that ended before it. It takes the end of an attempt of another batch
//! and lets the attempt wait; it takes a second end of an attempt that
//! waits only where the attempt was made ready and is then given up, which
//! is what a commit that fails leaves in the trees that were ready. No
//! batch has two attempts in the logs: a batch is committed once.

use vstd::prelude::*;
use crate::batch_player::{Step, lemma_terminated, recorded, rejection, replayed, unended};
use crate::command::CommandView;
use crate::commit_log::CommitCommand;
use crate::db::{
    DbError,
    DbView,
    abort_made,
    batch_opened,
    close_done,
    commit_made,
    opened_then_closed,
    logged_upto,
    logs_in_all,
    logs_in_tree,
    recovered,
    tree_closed,
    tree_committed,
    tried,
    tried_to_log,
};
use crate::index::{IndexView, new_index};
use crate::loader::{
    LoadError,
    TreePoint,
    loaded,
    batch_commit_number,
    batch_number,
    max_batch_commit_in_trees,
    max_batch_in_trees,
    next_after,
    replay_commit_in_trees,
    replay_commits,
    start_points,
};
use crate::tree::{
    ReplayerView,
    TreeError,
    TreeView,
    is_prefix,
    attempt_ended,
    can_commit,
    committed,
    later_batch,
    later_batch_commit,
    max_batch_commit_of,
    max_batch_of,
    replay_commit,
    replay_record,
    replay_records,
};
use crate::types::{Address, Batch, BatchCommit, Commit};

verus! {

/// The recordings after every one of the records was recorded, `None`
/// where a record was refused.
pub open spec fn record_all(
    batches: Map<Batch, Seq<Step>>,
    records: Seq<(Address, CommandView)>,
) -> Option<Map<Batch, Seq<Step>>>
    decreases records.len(),
{
    if records.len() == 0 {
        Some(batches)
    } else {
        match rejection(batches, records[0].1) {
            Some(_) => None,
            None => record_all(
                recorded(batches, records[0].1, records[0].0),
                records.drop_first(),
            ),
        }
    }
}

/// Every commit lies above the one before it, and the first one above
/// `max_commit`.
pub open spec fn rising(max_commit: Option<Commit>, commits: Seq<(Address, CommitCommand)>) -> bool
    decreases commits.len(),
{
    commits.len() > 0 ==> {
        &&& max_commit matches Some(max) ==> max.0 < commits[0].1.commit.0
        &&& rising(Some(commits[0].1.commit), commits.drop_first())
    }
}

/// The recordings that a replay of the whole log of a tree comes to hold
/// every recording of the tree in use, step for step, and only batches
/// whose numbers were handed out.
pub open spec fn covers(
    recordings: Map<Batch, Seq<Step>>,
    live: Map<Batch, Seq<Step>>,
    next_batch: u64,
) -> bool {
    &&& forall|b: Batch| #[trigger]
        live.contains_key(b) ==> recordings.contains_key(b) && recordings[b] == live[b]
    &&& forall|b: Batch| #[trigger] recordings.contains_key(b) ==> b.0 < next_batch
}

/// The trees as recovery finds them: their logs, and nothing else.
pub open spec fn unrecovered(trees: Seq<TreeView>) -> Seq<TreeView> {
    Seq::new(
        trees.len(),
        |i: int|
            TreeView {
                initialized: false,
                records: trees[i].records,
                batches: Map::empty(),
                index: new_index(),
            },
    )
}

proof fn lemma_record_all_push(
    batches: Map<Batch, Seq<Step>>,
    records: Seq<(Address, CommandView)>,
    last: (Address, CommandView),
)
    requires
        record_all(batches, records) is Some,
        rejection(record_all(batches, records).unwrap(), last.1) is None,
    ensures
        record_all(batches, records.push(last)) == Some(
            recorded(record_all(batches, records).unwrap(), last.1, last.0),
        ),
    decreases records.len(),
{
    let grown = records.push(last);
    assert(grown[0] == if records.len() == 0 {
        last
    } else {
        records[0]
    });
    if records.len() == 0 {
        assert(grown.drop_first() =~= records);
        assert(record_all(batches, records) == Some(batches));
        let after = recorded(batches, last.1, last.0);
        assert(record_all(after, grown.drop_first()) == Some(after));
        assert(record_all(batches, grown) == Some(after));
    } else {
        assert(grown.drop_first() =~= records.drop_first().push(last));
        assert(rejection(batches, records[0].1) is None);
        let next = recorded(batches, records[0].1, records[0].0);
        assert(record_all(batches, records) == record_all(next, records.drop_first()));
        lemma_record_all_push(next, records.drop_first(), last);
        assert(record_all(batches, grown) == record_all(next, grown.drop_first()));
    }
}

proof fn lemma_rising_push(
    max_commit: Option<Commit>,
    commits: Seq<(Address, CommitCommand)>,
    commit: (Address, CommitCommand),
)
    requires
        rising(max_commit, commits),
        max_commit matches Some(max) ==> max.0 < commit.1.commit.0,
        forall|k: int| 0 <= k < commits.len() ==> (#[trigger] commits[k]).1.commit.0 < commit.1.commit.0,
    ensures
        rising(max_commit, commits.push(commit)),
    decreases commits.len(),
{
    let grown = commits.push(commit);
    if commits.len() == 0 {
        assert(grown[0] == commit);
        assert(grown.drop_first() =~= commits);
        assert(rising(Some(commit.1.commit), grown.drop_first()));
        assert(rising(max_commit, grown));
    } else {
        assert(grown[0] == commits[0]);
        assert(grown.drop_first() =~= commits.drop_first().push(commit));
        assert forall|k: int| 0 <= k < commits.drop_first().len() implies (
        #[trigger] commits.drop_first()[k]).1.commit.0 < commit.1.commit.0 by {
            assert(commits.drop_first()[k] == commits[k + 1]);
        }
        assert(commits[0].1.commit.0 < commit.1.commit.0);
        lemma_rising_push(Some(commits[0].1.commit), commits.drop_first(), commit);
        assert(rising(Some(grown[0].1.commit), grown.drop_first()));
        assert(rising(max_commit, grown));
    }
}

/// The last of rising commits is the largest, and the replay of commits
/// that succeeds ends with it.
proof fn lemma_replay_commits_max(
    points: Seq<TreePoint>,
    max_commit: Option<Commit>,
    commits: Seq<(Address, CommitCommand)>,
)
    ensures
        replay_commits(points, max_commit, commits) matches Ok((_, max)) ==> max == (if commits.len()
            > 0 {
            Some(commits.last().1.commit)
        } else {
            max_commit
        }),
    decreases commits.len(),
{
    if commits.len() > 0 {
        match replay_commit_in_trees(points, commits[0].1, 0) {
            Ok(next) => {
                lemma_replay_commits_max(next, Some(commits[0].1.commit), commits.drop_first());
                if commits.len() > 1 {
                    assert(commits.drop_first().last() == commits.last());
                }
            },
            Err(_) => {},
        }
    }
}

/// A command that the tree in use took, the replay takes too.
proof fn lemma_covered_record(
    recordings: Map<Batch, Seq<Step>>,
    live: Map<Batch, Seq<Step>>,
    next_batch: u64,
    then_next_batch: u64,
    address: Address,
    cmd: CommandView,
)
    requires
        covers(recordings, live, next_batch),
        rejection(live, cmd) is None,
        next_batch <= then_next_batch,
        cmd is Open ==> next_batch <= cmd.batch().0 < then_next_batch,
    ensures
        rejection(recordings, cmd) is None,
        covers(recorded(recordings, cmd, address), recorded(live, cmd, address), then_next_batch),
{
    let b = cmd.batch();
    if cmd is Open {
        if recordings.contains_key(b) {
            assert(b.0 < next_batch);
        }
    } else {
        assert(live.contains_key(b));
    }
    let after = recorded(recordings, cmd, address);
    let live_after = recorded(live, cmd, address);
    assert forall|x: Batch| #[trigger] live_after.contains_key(x) implies after.contains_key(x)
        && after[x] == live_after[x] by {
        if x != b {
            assert(live.contains_key(x));
        }
    }
    assert forall|x: Batch| #[trigger] after.contains_key(x) implies x.0 < then_next_batch by {
        if x != b {
            assert(recordings.contains_key(x));
        } else if !(cmd is Open) {
            assert(live.contains_key(b));
            assert(recordings.contains_key(b));
        }
    }
}


/// No batch of the recordings has a number above `max`.
pub open spec fn at_most(batches: Map<Batch, Seq<Step>>, max: Option<Batch>) -> bool {
    forall|b: Batch| #[trigger] batches.contains_key(b) ==> (max matches Some(m) && b.0 <= m.0)
}

/// `a` is no batch, or a batch whose number is not above that of `b`.
pub open spec fn not_above(a: Option<Batch>, b: Option<Batch>) -> bool {
    a matches Some(x) ==> (b matches Some(y) && x.0 <= y.0)
}

proof fn lemma_at_most_recorded(
    batches: Map<Batch, Seq<Step>>,
    max: Option<Batch>,
    address: Address,
    cmd: CommandView,
)
    requires
        at_most(batches, max),
    ensures
        at_most(recorded(batches, cmd, address), later_batch(max, cmd.batch())),
{
    let after = recorded(batches, cmd, address);
    assert forall|b: Batch| #[trigger] after.contains_key(b) implies (later_batch(
        max,
        cmd.batch(),
    ) matches Some(m) && b.0 <= m.0) by {
        if b != cmd.batch() {
            assert(batches.contains_key(b));
        }
    }
}

proof fn lemma_replay_records_at_most(
    replayer: ReplayerView,
    index: IndexView,
    batch: Batch,
    batch_commit: BatchCommit,
    commit: Commit,
    records: Seq<(Address, CommandView)>,
)
    requires
        at_most(replayer.batches, replayer.max_batch),
    ensures
        replay_records(replayer, index, batch, batch_commit, commit, records) matches Ok(
            (next, _, _),
        ) ==> at_most(next.batches, next.max_batch),
    decreases records.len(),
{
    if records.len() > 0 {
        let (address, cmd) = records[0];
        lemma_at_most_recorded(replayer.batches, replayer.max_batch, address, cmd);
        match replay_record(replayer, index, batch, batch_commit, commit, address, cmd) {
            Ok((next, after, done)) => {
                if !done {
                    lemma_replay_records_at_most(
                        next,
                        after,
                        batch,
                        batch_commit,
                        commit,
                        records.drop_first(),
                    );
                }
            },
            Err(_) => {},
        }
    }
}

proof fn lemma_replay_in_trees_at_most(points: Seq<TreePoint>, commit: CommitCommand, j: int)
    requires
        0 <= j,
        forall|i: int|
            0 <= i < points.len() ==> at_most(
                (#[trigger] points[i]).replayer.batches,
                points[i].replayer.max_batch,
            ),
    ensures
        replay_commit_in_trees(points, commit, j) matches Ok(after) ==> after.len() == points.len()
            && forall|i: int|
            0 <= i < after.len() ==> at_most(
                (#[trigger] after[i]).replayer.batches,
                after[i].replayer.max_batch,
            ),
    decreases points.len() - j,
{
    if j < points.len() {
        let point = points[j];
        lemma_replay_records_at_most(
            point.replayer,
            point.index,
            commit.batch,
            commit.batch_commit,
            commit.commit,
            point.remaining,
        );
        match replay_commit(
            point.replayer,
            point.index,
            commit.batch,
            commit.batch_commit,
            commit.commit,
            point.remaining,
        ) {
            Ok((replayer, index, remaining)) => {
                let next = points.update(j, TreePoint { replayer, index, remaining });
                assert forall|i: int| 0 <= i < next.len() implies at_most(
                    (#[trigger] next[i]).replayer.batches,
                    next[i].replayer.max_batch,
                ) by {
                    if i != j {
                        assert(next[i] == points[i]);
                    }
                }
                lemma_replay_in_trees_at_most(next, commit, j + 1);
            },
            Err(_) => {},
        }
    }
}

proof fn lemma_replay_commits_at_most(
    points: Seq<TreePoint>,
    max_commit: Option<Commit>,
    commits: Seq<(Address, CommitCommand)>,
)
    requires
        forall|i: int|
            0 <= i < points.len() ==> at_most(
                (#[trigger] points[i]).replayer.batches,
                points[i].replayer.max_batch,
            ),
    ensures
        replay_commits(points, max_commit, commits) matches Ok((after, _)) ==> after.len()
            == points.len() && forall|i: int|
            0 <= i < after.len() ==> at_most(
                (#[trigger] after[i]).replayer.batches,
                after[i].replayer.max_batch,
            ),
    decreases commits.len(),
{
    if commits.len() > 0 {
        lemma_replay_in_trees_at_most(points, commits[0].1, 0);
        match replay_commit_in_trees(points, commits[0].1, 0) {
            Ok(next) => {
                lemma_replay_commits_at_most(
                    next,
                    Some(commits[0].1.commit),
                    commits.drop_first(),
                );
            },
            Err(_) => {},
        }
    }
}

/// Where the recordings take the records and one more, they take the
/// records, and then the one.
proof fn lemma_record_all_split(
    batches: Map<Batch, Seq<Step>>,
    records: Seq<(Address, CommandView)>,
    last: (Address, CommandView),
)
    requires
        record_all(batches, records.push(last)) is Some,
    ensures
        record_all(batches, records) is Some,
        rejection(record_all(batches, records).unwrap(), last.1) is None,
        record_all(batches, records.push(last)) == Some(
            recorded(record_all(batches, records).unwrap(), last.1, last.0),
        ),
    decreases records.len(),
{
    let grown = records.push(last);
    if records.len() == 0 {
        assert(grown[0] == last);
        assert(grown.drop_first() =~= records);
        assert(record_all(batches, records) == Some(batches));
        let after = recorded(batches, last.1, last.0);
        assert(record_all(after, grown.drop_first()) == Some(after));
    } else {
        assert(grown[0] == records[0]);
        assert(grown.drop_first() =~= records.drop_first().push(last));
        let next = recorded(batches, records[0].1, records[0].0);
        assert(rejection(batches, records[0].1) is None);
        assert(record_all(batches, grown) == record_all(next, grown.drop_first()));
        lemma_record_all_split(next, records.drop_first(), last);
        assert(record_all(batches, records) == record_all(next, records.drop_first()));
    }
}

/// The recordings after the records hold no batch above the largest batch
/// of the recordings before and of the records.
proof fn lemma_record_all_at_most(
    batches: Map<Batch, Seq<Step>>,
    max: Option<Batch>,
    records: Seq<(Address, CommandView)>,
)
    requires
        at_most(batches, max),
        record_all(batches, records) is Some,
    ensures
        at_most(record_all(batches, records).unwrap(), max_batch_of(max, records)),
    decreases records.len(),
{
    if records.len() > 0 {
        let rest = records.drop_last();
        let last = records.last();
        assert(rest.push(last) =~= records);
        lemma_record_all_split(batches, rest, last);
        lemma_record_all_at_most(batches, max, rest);
        lemma_at_most_recorded(
            record_all(batches, rest).unwrap(),
            max_batch_of(max, rest),
            last.0,
            last.1,
        );
    }
}

/// The largest batch of a tree is not above the largest batch of all
/// trees.
proof fn lemma_max_batch_in_trees(points: Seq<TreePoint>, i: int)
    requires
        0 <= i < points.len(),
    ensures
        not_above(
            max_batch_of(points[i].replayer.max_batch, points[i].remaining),
            max_batch_in_trees(points),
        ),
    decreases points.len(),
{
    if i < points.len() - 1 {
        assert(points.drop_last()[i] == points[i]);
        lemma_max_batch_in_trees(points.drop_last(), i);
    }
}

/// Every commit of rising commits lies at or below the last.
proof fn lemma_rising_last(max_commit: Option<Commit>, commits: Seq<(Address, CommitCommand)>, k: int)
    requires
        rising(max_commit, commits),
        0 <= k < commits.len(),
    ensures
        commits[k].1.commit.0 <= commits.last().1.commit.0,
        max_commit matches Some(max) ==> max.0 < commits.last().1.commit.0,
    decreases commits.len(),
{
    if commits.len() > 1 {
        let rest = commits.drop_first();
        assert(rest.last() == commits.last());
        if k > 0 {
            assert(rest[k - 1] == commits[k]);
            lemma_rising_last(Some(commits[0].1.commit), rest, k - 1);
        } else {
            lemma_rising_last(Some(commits[0].1.commit), rest, 0);
        }
    }
}

/// The largest batch number and the largest number of a commit attempt of
/// the log of a tree: of the records that the replay has read and of those
/// that are left.
pub open spec fn largest(point: TreePoint) -> (Option<Batch>, Option<BatchCommit>) {
    (
        max_batch_of(point.replayer.max_batch, point.remaining),
        max_batch_commit_of(point.replayer.max_batch_commit, point.remaining),
    )
}

/// The largest numbers of records can be taken from the first record on.
proof fn lemma_largest_front(
    seen: Option<Batch>,
    seen_commit: Option<BatchCommit>,
    records: Seq<(Address, CommandView)>,
)
    requires
        records.len() > 0,
    ensures
        max_batch_of(seen, records) == max_batch_of(
            later_batch(seen, records[0].1.batch()),
            records.drop_first(),
        ),
        max_batch_commit_of(seen_commit, records) == max_batch_commit_of(
            later_batch_commit(seen_commit, attempt_ended(records[0].1)),
            records.drop_first(),
        ),
    decreases records.len(),
{
    if records.len() == 1 {
        assert(records.drop_last().len() == 0);
        assert(records.drop_first().len() == 0);
        assert(records.last() == records[0]);
        assert(max_batch_of(seen, records.drop_last()) == seen);
        assert(max_batch_commit_of(seen_commit, records.drop_last()) == seen_commit);
    } else {
        let init = records.drop_last();
        lemma_largest_front(seen, seen_commit, init);
        assert(init[0] == records[0]);
        assert(init.drop_first() =~= records.drop_first().drop_last());
        assert(records.drop_first().last() == records.last());
    }
}

/// The replay of a commit in a tree leaves the largest numbers of the
/// tree's log as they are.
proof fn lemma_replay_records_largest(
    replayer: ReplayerView,
    index: IndexView,
    batch: Batch,
    batch_commit: BatchCommit,
    commit: Commit,
    records: Seq<(Address, CommandView)>,
)
    ensures
        replay_records(replayer, index, batch, batch_commit, commit, records) matches Ok(
            (next, _, left),
        ) ==> max_batch_of(next.max_batch, left) == max_batch_of(replayer.max_batch, records)
            && max_batch_commit_of(next.max_batch_commit, left) == max_batch_commit_of(
            replayer.max_batch_commit,
            records,
        ),
    decreases records.len(),
{
    if records.len() > 0 {
        let (address, cmd) = records[0];
        lemma_largest_front(replayer.max_batch, replayer.max_batch_commit, records);
        match replay_record(replayer, index, batch, batch_commit, commit, address, cmd) {
            Ok((next, after, done)) => {
                if !done {
                    lemma_replay_records_largest(
                        next,
                        after,
                        batch,
                        batch_commit,
                        commit,
                        records.drop_first(),
                    );
                }
            },
            Err(_) => {},
        }
    }
}

proof fn lemma_replay_in_trees_largest(points: Seq<TreePoint>, commit: CommitCommand, j: int)
    requires
        0 <= j,
    ensures
        replay_commit_in_trees(points, commit, j) matches Ok(after) ==> after.len() == points.len()
            && forall|i: int| 0 <= i < after.len() ==> largest(#[trigger] after[i]) == largest(points[i]),
    decreases points.len() - j,
{
    if j < points.len() {
        let point = points[j];
        lemma_replay_records_largest(
            point.replayer,
            point.index,
            commit.batch,
            commit.batch_commit,
            commit.commit,
            point.remaining,
        );
        match replay_commit(
            point.replayer,
            point.index,
            commit.batch,
            commit.batch_commit,
            commit.commit,
            point.remaining,
        ) {
            Ok((replayer, index, remaining)) => {
                let next = points.update(j, TreePoint { replayer, index, remaining });
                assert(largest(next[j]) == largest(points[j]));
                lemma_replay_in_trees_largest(next, commit, j + 1);
                match replay_commit_in_trees(next, commit, j + 1) {
                    Ok(after) => {
                        assert forall|i: int| 0 <= i < after.len() implies largest(
                            #[trigger] after[i],
                        ) == largest(points[i]) by {
                            assert(largest(after[i]) == largest(next[i]));
                            if i != j {
                                assert(next[i] == points[i]);
                            }
                        }
                    },
                    Err(_) => {},
                }
            },
            Err(_) => {},
        }
    }
}

proof fn lemma_replay_commits_largest(
    points: Seq<TreePoint>,
    max_commit: Option<Commit>,
    commits: Seq<(Address, CommitCommand)>,
)
    ensures
        replay_commits(points, max_commit, commits) matches Ok((after, _)) ==> after.len()
            == points.len() && forall|i: int|
            0 <= i < after.len() ==> largest(#[trigger] after[i]) == largest(points[i]),
    decreases commits.len(),
{
    if commits.len() > 0 {
        lemma_replay_in_trees_largest(points, commits[0].1, 0);
        match replay_commit_in_trees(points, commits[0].1, 0) {
            Ok(next) => {
                lemma_replay_commits_largest(next, Some(commits[0].1.commit), commits.drop_first());
                match replay_commits(next, Some(commits[0].1.commit), commits.drop_first()) {
                    Ok((after, _)) => {
                        assert forall|i: int| 0 <= i < after.len() implies largest(
                            #[trigger] after[i],
                        ) == largest(points[i]) by {
                            assert(largest(after[i]) == largest(next[i]));
                        }
                    },
                    Err(_) => {},
                }
            },
            Err(_) => {},
        }
    }
}

/// `a` is no attempt, or an attempt whose number is not above that of `b`.
pub open spec fn attempt_not_above(a: Option<BatchCommit>, b: Option<BatchCommit>) -> bool {
    a matches Some(x) ==> (b matches Some(y) && x.0 <= y.0)
}

/// No record holds a number above the largest numbers of the records.
proof fn lemma_largest_bounds(
    seen: Option<Batch>,
    seen_commit: Option<BatchCommit>,
    records: Seq<(Address, CommandView)>,
    j: int,
)
    requires
        0 <= j < records.len(),
    ensures
        not_above(Some(records[j].1.batch()), max_batch_of(seen, records)),
        attempt_not_above(attempt_ended(records[j].1), max_batch_commit_of(seen_commit, records)),
        not_above(seen, max_batch_of(seen, records)),
        attempt_not_above(seen_commit, max_batch_commit_of(seen_commit, records)),
    decreases records.len(),
{
    let init = records.drop_last();
    if init.len() > 0 {
        let k = if j < init.len() { j } else { 0 };
        lemma_largest_bounds(seen, seen_commit, init, k);
        assert(init[k] == records[k]);
    } else {
        assert(max_batch_of(seen, init) == seen);
        assert(max_batch_commit_of(seen_commit, init) == seen_commit);
    }
}

/// The largest attempt of a tree is not above the largest attempt of all
/// trees.
proof fn lemma_max_batch_commit_in_trees(points: Seq<TreePoint>, i: int)
    requires
        0 <= i < points.len(),
    ensures
        attempt_not_above(
            max_batch_commit_of(points[i].replayer.max_batch_commit, points[i].remaining),
            max_batch_commit_in_trees(points),
        ),
    decreases points.len(),
{
    if i < points.len() - 1 {
        assert(points.drop_last()[i] == points[i]);
        lemma_max_batch_commit_in_trees(points.drop_last(), i);
    }
}

/// The numbers that a database hands out after it has recovered from a
/// commit log that holds a commit are new: the counters that recovery
/// gives lie above the batch number of every record of the log of every
/// tree, above the number of every commit attempt that such a record
/// ends, and above every commit of the commit log.
pub proof fn lemma_recovered_numbers_are_new(
    commits: Seq<(Address, CommitCommand)>,
    trees: Seq<TreeView>,
)
    requires
        commits.len() > 0,
        recovered(commits, trees) is Ok,
    ensures
        recovered(commits, trees) == loaded(commits, trees),
        forall|i: int, j: int|
            0 <= i < trees.len() && 0 <= j < trees[i].records.len() ==> {
                &&& (#[trigger] trees[i].records[j]).1.batch().0 < loaded(
                    commits,
                    trees,
                ).unwrap().0.next_batch.0
                &&& attempt_ended(trees[i].records[j].1) matches Some(ended) ==> ended.0 < loaded(
                    commits,
                    trees,
                ).unwrap().0.next_batch_commit.0
            },
        forall|k: int|
            0 <= k < commits.len() ==> (#[trigger] commits[k]).1.commit.0 < loaded(
                commits,
                trees,
            ).unwrap().0.next_commit.0,
{
    let start = start_points(trees);
    let points = replay_commits(start, None, commits).unwrap().0;
    lemma_replay_commits_largest(start, None, commits);
    crate::loader::lemma_loaded_counts(commits, trees);
    assert forall|i: int, j: int|
        0 <= i < trees.len() && 0 <= j < trees[i].records.len() implies {
        &&& (#[trigger] trees[i].records[j]).1.batch().0 < loaded(
            commits,
            trees,
        ).unwrap().0.next_batch.0
        &&& attempt_ended(trees[i].records[j].1) matches Some(ended) ==> ended.0 < loaded(
            commits,
            trees,
        ).unwrap().0.next_batch_commit.0
    } by {
        assert(largest(points[i]) == largest(start[i]));
        lemma_largest_bounds(None, None, trees[i].records, j);
        lemma_max_batch_in_trees(points, i);
        lemma_max_batch_commit_in_trees(points, i);
    }
}

/// A tree that was asked to log a command has its old log at the start of
/// its log.
proof fn lemma_tried_is_prefix(before: TreeView, after: TreeView, reliable: bool, cmd: CommandView)
    requires
        tried_to_log(before, after, reliable, cmd),
    ensures
        is_prefix(before.records, after.records),
        after.index == before.index,
{
    assert(after.records.take(before.records.len() as int) =~= before.records);
}

proof fn lemma_appended_is_prefix(before: TreeView, after: TreeView, cmd: CommandView)
    requires
        after == before || after == before.appended(after.records.last().0, cmd),
    ensures
        is_prefix(before.records, after.records),
        after.index == before.index,
{
    assert(after.records.take(before.records.len() as int) =~= before.records);
}

/// A database in which a commit attempt was given up is still restorable:
/// after a crash it opens with what the last commit left.
pub proof fn lemma_given_up_keeps_restorable(
    before: DbView,
    after: DbView,
    reliable: bool,
    number: Batch,
)
    requires
        restorable(before),
        abort_made(before, reliable, after, number),
    ensures
        restorable(after),
{
    assert forall|i: int| 0 <= i < before.trees.len() implies (#[trigger] after.trees[i]).index
        == before.trees[i].index && is_prefix(before.trees[i].records, after.trees[i].records) by {
        if before.next_batch_commit == u64::MAX {
            assert(after.trees[i] == before.trees[i]);
            assert(after.trees[i].records.take(before.trees[i].records.len() as int)
                =~= before.trees[i].records);
        } else {
            lemma_tried_is_prefix(
                before.trees[i],
                after.trees[i],
                reliable,
                CommandView::AbortCommit {
                    batch: number,
                    batch_commit: BatchCommit(before.next_batch_commit),
                },
            );
        }
    }
    lemma_later_records_keep_restorable(before, after);
}

/// A database in which a commit has failed is still restorable: after a
/// crash it opens with what the last commit that went well left, and
/// shows nothing of the batch whose commit failed.
pub proof fn lemma_failed_commit_keeps_restorable(
    before: DbView,
    after: DbView,
    reliable: bool,
    number: Batch,
    unusable: bool,
    r: Result<(), DbError>,
)
    requires
        restorable(before),
        commit_made(before, reliable, after, number, unusable, r),
        r is Err,
    ensures
        restorable(after),
{
    let ready = CommandView::ReadyCommit {
        batch: number,
        batch_commit: BatchCommit(before.next_batch_commit),
    };
    let abort = CommandView::AbortCommit {
        batch: number,
        batch_commit: BatchCommit(before.next_batch_commit),
    };
    let e = r->Err_0;
    assert forall|i: int| 0 <= i < before.trees.len() implies (#[trigger] after.trees[i]).index
        == before.trees[i].index && is_prefix(before.trees[i].records, after.trees[i].records) by {
        let old_tree = before.trees[i];
        let new_tree = after.trees[i];
        match e {
            DbError::Tree { tree, error } => {
                if i < tree {
                    let address = choose|address: Address|
                        rejection(old_tree.batches, ready) is None && #[trigger] tried_to_log(
                            old_tree.appended(address, ready),
                            new_tree,
                            reliable,
                            abort,
                        );
                    let readied = old_tree.appended(address, ready);
                    lemma_tried_is_prefix(readied, new_tree, reliable, abort);
                    assert(new_tree.records.take(old_tree.records.len() as int)
                        =~= old_tree.records) by {
                        assert(readied.records.take(old_tree.records.len() as int)
                            =~= old_tree.records);
                        assert(new_tree.records.take(readied.records.len() as int)
                            == readied.records);
                        assert forall|k: int| 0 <= k < old_tree.records.len() implies new_tree.records[k]
                            == old_tree.records[k] by {
                            assert(new_tree.records.take(readied.records.len() as int)[k]
                                == new_tree.records[k]);
                            assert(readied.records[k] == old_tree.records[k]);
                        }
                    }
                } else if i > tree {
                    lemma_tried_is_prefix(old_tree, new_tree, reliable, abort);
                } else {
                    assert(new_tree == old_tree);
                    assert(new_tree.records.take(old_tree.records.len() as int)
                        =~= old_tree.records);
                }
            },
            DbError::CommitLog(_) => {
                assert(new_tree == old_tree.appended(new_tree.records.last().0, ready));
                lemma_appended_is_prefix(old_tree, new_tree, ready);
            },
            _ => {
                assert(after == before);
                assert(new_tree.records.take(old_tree.records.len() as int) =~= old_tree.records);
            },
        }
    }
    lemma_later_records_keep_restorable(before, after);
}

/// A database in which a batch was closed is still restorable.
pub proof fn lemma_closed_keeps_restorable(
    before: DbView,
    after: DbView,
    reliable: bool,
    number: Batch,
)
    requires
        restorable(before),
        close_done(before, reliable, after, number),
    ensures
        restorable(after),
{
    assert forall|i: int| 0 <= i < before.trees.len() implies (#[trigger] after.trees[i]).index
        == before.trees[i].index && is_prefix(before.trees[i].records, after.trees[i].records) by {
        assert(tree_closed(before.trees[i], after.trees[i], reliable, number));
        assert(after.trees[i].records.take(before.trees[i].records.len() as int)
            =~= before.trees[i].records);
    }
    lemma_later_records_keep_restorable(before, after);
}

/// A database in which a batch has logged a command in one tree, or has
/// tried to, is still restorable.
pub proof fn lemma_logged_in_tree_keeps_restorable(
    before: DbView,
    after: DbView,
    reliable: bool,
    name: Seq<char>,
    unusable: bool,
    cmd: CommandView,
    r: Result<(), DbError>,
)
    requires
        restorable(before),
        logs_in_tree(before, reliable, after, name, unusable, cmd, r),
    ensures
        restorable(after),
{
    assert forall|i: int| 0 <= i < before.trees.len() implies (#[trigger] after.trees[i]).index
        == before.trees[i].index && is_prefix(before.trees[i].records, after.trees[i].records) by {
        lemma_appended_is_prefix(before.trees[i], after.trees[i], cmd);
    }
    lemma_later_records_keep_restorable(before, after);
}

/// A database in which a batch has logged a command in every tree, or in
/// the first of them up to one that refused, is still restorable.
pub proof fn lemma_logged_in_all_keeps_restorable(
    before: DbView,
    after: DbView,
    reliable: bool,
    was_unusable: bool,
    is_unusable: bool,
    cmd: CommandView,
    r: Result<(), DbError>,
)
    requires
        restorable(before),
        logs_in_all(before, reliable, after, was_unusable, is_unusable, cmd, r),
    ensures
        restorable(after),
{
    assert forall|i: int| 0 <= i < before.trees.len() implies (#[trigger] after.trees[i]).index
        == before.trees[i].index && is_prefix(before.trees[i].records, after.trees[i].records) by {
        lemma_appended_is_prefix(before.trees[i], after.trees[i], cmd);
    }
    lemma_later_records_keep_restorable(before, after);
}

/// A database in which a batch was opened, or in which the opening
/// failed, is still restorable.
pub proof fn lemma_opened_keeps_restorable(
    before: DbView,
    after: DbView,
    reliable: bool,
    r: Result<Batch, DbError>,
)
    requires
        restorable(before),
        batch_opened(before, reliable, after, r),
    ensures
        restorable(after),
{
    assert forall|i: int| 0 <= i < before.trees.len() implies (#[trigger] after.trees[i]).index
        == before.trees[i].index && is_prefix(before.trees[i].records, after.trees[i].records) by {
        let old_tree = before.trees[i];
        let new_tree = after.trees[i];
        match r {
            Ok(batch) => {
                lemma_appended_is_prefix(old_tree, new_tree, CommandView::Open { batch });
            },
            Err(DbError::Tree { tree, error }) => {
                let batch = Batch(before.next_batch);
                if i < tree {
                    let address = choose|address: Address| #[trigger]
                        tree_closed(
                            old_tree.appended(address, CommandView::Open { batch }),
                            new_tree,
                            reliable,
                            batch,
                        );
                    let opened = old_tree.appended(address, CommandView::Open { batch });
                    assert(opened.batches.contains_key(batch));
                    assert forall|k: int| 0 <= k < old_tree.records.len() implies new_tree.records[k]
                        == old_tree.records[k] by {
                        assert(opened.records[k] == old_tree.records[k]);
                    }
                    assert(new_tree.records.take(old_tree.records.len() as int)
                        =~= old_tree.records);
                } else {
                    assert(new_tree == old_tree);
                    assert(new_tree.records.take(old_tree.records.len() as int)
                        =~= old_tree.records);
                }
            },
            Err(_) => {
                assert(after == before);
                assert(new_tree.records.take(old_tree.records.len() as int) =~= old_tree.records);
            },
        }
    }
    lemma_later_records_keep_restorable(before, after);
}

/// The recovery of a tree before it has read anything.
pub open spec fn fresh_replayer() -> ReplayerView {
    ReplayerView {
        batches: Map::empty(),
        waiting: Set::empty(),
        given_up: Set::empty(),
        max_batch: None,
        max_batch_commit: None,
    }
}

/// What the commits of the commit log, one after the other, make of the
/// recovery of one tree: the replayer, the index, and the records of the
/// tree's log that no commit has reached.
pub open spec fn tree_replayed(
    replayer: ReplayerView,
    index: IndexView,
    records: Seq<(Address, CommandView)>,
    commits: Seq<(Address, CommitCommand)>,
) -> Result<(ReplayerView, IndexView, Seq<(Address, CommandView)>), TreeError>
    decreases commits.len(),
{
    if commits.len() == 0 {
        Ok((replayer, index, records))
    } else {
        let commit = commits[0].1;
        match replay_commit(
            replayer,
            index,
            commit.batch,
            commit.batch_commit,
            commit.commit,
            records,
        ) {
            Err(e) => Err(e),
            Ok((next, after, left)) => tree_replayed(next, after, left, commits.drop_first()),
        }
    }
}

/// Records behind the one that ends the attempt looked for play no part
/// in the replay: they are left.
proof fn lemma_replay_records_more(
    replayer: ReplayerView,
    index: IndexView,
    batch: Batch,
    batch_commit: BatchCommit,
    commit: Commit,
    records: Seq<(Address, CommandView)>,
    more: Seq<(Address, CommandView)>,
)
    ensures
        replay_records(replayer, index, batch, batch_commit, commit, records) matches Ok(
            (next, after, left),
        ) ==> replay_records(replayer, index, batch, batch_commit, commit, records + more) == Ok::<
            _,
            TreeError,
        >((next, after, left + more)),
    decreases records.len(),
{
    if records.len() > 0 {
        let all = records + more;
        assert(all[0] == records[0]);
        assert(all.drop_first() =~= records.drop_first() + more);
        match replay_record(
            replayer,
            index,
            batch,
            batch_commit,
            commit,
            records[0].0,
            records[0].1,
        ) {
            Ok((next, after, done)) => {
                if !done {
                    lemma_replay_records_more(
                        next,
                        after,
                        batch,
                        batch_commit,
                        commit,
                        records.drop_first(),
                        more,
                    );
                }
            },
            Err(_) => {},
        }
    }
}

/// Records that the log of a tree gains behind those that the commits
/// reach change nothing in what the commits make of the tree.
proof fn lemma_tree_replayed_more(
    replayer: ReplayerView,
    index: IndexView,
    records: Seq<(Address, CommandView)>,
    commits: Seq<(Address, CommitCommand)>,
    more: Seq<(Address, CommandView)>,
)
    ensures
        tree_replayed(replayer, index, records, commits) matches Ok((next, after, left))
            ==> tree_replayed(replayer, index, records + more, commits) == Ok::<_, TreeError>(
            (next, after, left + more),
        ),
    decreases commits.len(),
{
    if commits.len() > 0 {
        let commit = commits[0].1;
        lemma_replay_records_more(
            replayer,
            index,
            commit.batch,
            commit.batch_commit,
            commit.commit,
            records,
            more,
        );
        match replay_commit(
            replayer,
            index,
            commit.batch,
            commit.batch_commit,
            commit.commit,
            records,
        ) {
            Ok((next, after, left)) => {
                lemma_tree_replayed_more(next, after, left, commits.drop_first(), more);
            },
            Err(_) => {},
        }
    }
}

/// What one more commit makes of the recovery of a tree: what it makes of
/// what the commits before it left.
proof fn lemma_tree_replayed_push(
    replayer: ReplayerView,
    index: IndexView,
    records: Seq<(Address, CommandView)>,
    commits: Seq<(Address, CommitCommand)>,
    last: (Address, CommitCommand),
)
    ensures
        tree_replayed(replayer, index, records, commits.push(last)) == match tree_replayed(
            replayer,
            index,
            records,
            commits,
        ) {
            Err(e) => Err(e),
            Ok((next, after, left)) => replay_commit(
                next,
                after,
                last.1.batch,
                last.1.batch_commit,
                last.1.commit,
                left,
            ),
        },
    decreases commits.len(),
{
    let grown = commits.push(last);
    if commits.len() == 0 {
        assert(grown.drop_first().len() == 0);
        assert(grown[0] == last);
        match replay_commit(
            replayer,
            index,
            last.1.batch,
            last.1.batch_commit,
            last.1.commit,
            records,
        ) {
            Ok((next, after, left)) => {
                assert(tree_replayed(next, after, left, grown.drop_first()) == Ok::<_, TreeError>(
                    (next, after, left),
                ));
            },
            Err(_) => {},
        }
    } else {
        assert(grown[0] == commits[0]);
        assert(grown.drop_first() =~= commits.drop_first().push(last));
        let commit = commits[0].1;
        match replay_commit(
            replayer,
            index,
            commit.batch,
            commit.batch_commit,
            commit.commit,
            records,
        ) {
            Ok((next, after, left)) => {
                lemma_tree_replayed_push(next, after, left, commits.drop_first(), last);
            },
            Err(_) => {},
        }
    }
}

/// The point of a tree in the recovery after the commits.
pub open spec fn point_after(point: TreePoint, commits: Seq<(Address, CommitCommand)>) -> TreePoint {
    match tree_replayed(point.replayer, point.index, point.remaining, commits) {
        Ok((replayer, index, remaining)) => TreePoint { replayer, index, remaining },
        Err(_) => point,
    }
}

proof fn lemma_commit_in_trees(points: Seq<TreePoint>, commit: CommitCommand, j: int)
    requires
        0 <= j <= points.len(),
        forall|i: int|
            j <= i < points.len() ==> replay_commit(
                (#[trigger] points[i]).replayer,
                points[i].index,
                commit.batch,
                commit.batch_commit,
                commit.commit,
                points[i].remaining,
            ) is Ok,
    ensures
        replay_commit_in_trees(points, commit, j) matches Ok(after) && after.len() == points.len()
            && (forall|i: int| 0 <= i < j ==> (#[trigger] after[i]) == points[i]) && (forall|i: int|
            j <= i < points.len() ==> Ok::<_, TreeError>(
                ((#[trigger] after[i]).replayer, after[i].index, after[i].remaining),
            ) == replay_commit(
                points[i].replayer,
                points[i].index,
                commit.batch,
                commit.batch_commit,
                commit.commit,
                points[i].remaining,
            )),
    decreases points.len() - j,
{
    if j < points.len() {
        let point = points[j];
        let (replayer, index, remaining) = replay_commit(
            point.replayer,
            point.index,
            commit.batch,
            commit.batch_commit,
            commit.commit,
            point.remaining,
        )->Ok_0;
        let next = points.update(j, TreePoint { replayer, index, remaining });
        assert forall|i: int| j + 1 <= i < next.len() implies replay_commit(
            (#[trigger] next[i]).replayer,
            next[i].index,
            commit.batch,
            commit.batch_commit,
            commit.commit,
            next[i].remaining,
        ) is Ok by {
            assert(next[i] == points[i]);
        }
        lemma_commit_in_trees(next, commit, j + 1);
        let after = replay_commit_in_trees(next, commit, j + 1)->Ok_0;
        assert(after[j] == next[j]);
        assert forall|i: int| 0 <= i < j implies (#[trigger] after[i]) == points[i] by {
            assert(after[i] == next[i]);
        }
        assert forall|i: int| j <= i < points.len() implies Ok::<_, TreeError>(
            ((#[trigger] after[i]).replayer, after[i].index, after[i].remaining),
        ) == replay_commit(
            points[i].replayer,
            points[i].index,
            commit.batch,
            commit.batch_commit,
            commit.commit,
            points[i].remaining,
        ) by {
            if i > j {
                assert(next[i] == points[i]);
            }
        }
    }
}

/// The recovery of the trees is the recovery of every tree by itself:
/// where the commits rise and every tree takes them, loading takes them,
/// and brings every tree to where the commits bring it.
pub proof fn lemma_trees_replayed(
    points: Seq<TreePoint>,
    max_commit: Option<Commit>,
    commits: Seq<(Address, CommitCommand)>,
)
    requires
        rising(max_commit, commits),
        forall|i: int|
            0 <= i < points.len() ==> tree_replayed(
                (#[trigger] points[i]).replayer,
                points[i].index,
                points[i].remaining,
                commits,
            ) is Ok,
    ensures
        replay_commits(points, max_commit, commits) matches Ok((after, _)) && after.len()
            == points.len() && (forall|i: int|
            0 <= i < points.len() ==> (#[trigger] after[i]) == point_after(points[i], commits)),
    decreases commits.len(),
{
    if commits.len() == 0 {
    } else {
        let commit = commits[0].1;
        lemma_commit_in_trees(points, commit, 0);
        let next = replay_commit_in_trees(points, commit, 0)->Ok_0;
        assert forall|i: int| 0 <= i < next.len() implies tree_replayed(
            (#[trigger] next[i]).replayer,
            next[i].index,
            next[i].remaining,
            commits.drop_first(),
        ) is Ok && point_after(next[i], commits.drop_first()) == point_after(
            points[i],
            commits,
        ) by {
            assert(tree_replayed(
                points[i].replayer,
                points[i].index,
                points[i].remaining,
                commits,
            ) is Ok);
        }
        lemma_trees_replayed(next, Some(commit.commit), commits.drop_first());
    }
}

/// What a record that ends a commit attempt of another batch than the one
/// looked for makes of the attempts that wait and of those given up,
/// `None` where it ends the attempt twice.
pub open spec fn end_taken(
    waiting: Set<(Batch, BatchCommit)>,
    given_up: Set<(Batch, BatchCommit)>,
    cmd: CommandView,
) -> Option<(Set<(Batch, BatchCommit)>, Set<(Batch, BatchCommit)>)> {
    match attempt_ended(cmd) {
        None => Some((waiting, given_up)),
        Some(ended) => {
            let pair = (cmd.batch(), ended);
            if waiting.contains(pair) {
                if cmd is AbortCommit && !given_up.contains(pair) {
                    Some((waiting, given_up.insert(pair)))
                } else {
                    None
                }
            } else {
                Some(
                    (
                        waiting.insert(pair),
                        if cmd is AbortCommit {
                            given_up.insert(pair)
                        } else {
                            given_up.remove(pair)
                        },
                    ),
                )
            }
        },
    }
}

/// The attempts that wait and those given up after the records, `None`
/// where a record ends an attempt twice.
pub open spec fn ends_taken(
    waiting: Set<(Batch, BatchCommit)>,
    given_up: Set<(Batch, BatchCommit)>,
    records: Seq<(Address, CommandView)>,
) -> Option<(Set<(Batch, BatchCommit)>, Set<(Batch, BatchCommit)>)>
    decreases records.len(),
{
    if records.len() == 0 {
        Some((waiting, given_up))
    } else {
        match end_taken(waiting, given_up, records[0].1) {
            None => None,
            Some((w, g)) => ends_taken(w, g, records.drop_first()),
        }
    }
}

proof fn lemma_ends_taken_push(
    waiting: Set<(Batch, BatchCommit)>,
    given_up: Set<(Batch, BatchCommit)>,
    records: Seq<(Address, CommandView)>,
    last: (Address, CommandView),
)
    ensures
        ends_taken(waiting, given_up, records.push(last)) == match ends_taken(
            waiting,
            given_up,
            records,
        ) {
            None => None,
            Some((w, g)) => end_taken(w, g, last.1),
        },
    decreases records.len(),
{
    let grown = records.push(last);
    if records.len() == 0 {
        assert(grown[0] == last);
        assert(grown.drop_first().len() == 0);
        match end_taken(waiting, given_up, last.1) {
            Some((w, g)) => {
                assert(ends_taken(w, g, grown.drop_first()) == Some((w, g)));
            },
            None => {},
        }
    } else {
        assert(grown[0] == records[0]);
        assert(grown.drop_first() =~= records.drop_first().push(last));
        match end_taken(waiting, given_up, records[0].1) {
            Some((w, g)) => {
                lemma_ends_taken_push(w, g, records.drop_first(), last);
            },
            None => {},
        }
    }
}

/// The records that a tree has logged since the last commit, and then the
/// record that makes a new attempt ready, replay as the commit of the
/// attempt: the replay takes every record, lets the attempts that the
/// records end wait, and puts into the index what the recording of the
/// batch comes to.
proof fn lemma_tail_replays(
    replayer: ReplayerView,
    index: IndexView,
    batch: Batch,
    batch_commit: BatchCommit,
    commit: Commit,
    tail: Seq<(Address, CommandView)>,
    address: Address,
)
    requires
        record_all(replayer.batches, tail) is Some,
        record_all(replayer.batches, tail).unwrap().contains_key(batch),
        ends_taken(replayer.waiting, replayer.given_up, tail) is Some,
        forall|p: int|
            0 <= p < tail.len() ==> (attempt_ended((#[trigger] tail[p]).1) matches Some(ended)
                ==> tail[p].1.batch() != batch && ended != batch_commit),
        can_commit(index, commit),
    ensures
        replay_records(
            replayer,
            index,
            batch,
            batch_commit,
            commit,
            tail.push((address, CommandView::ReadyCommit { batch, batch_commit })),
        ) matches Ok((next, after, left)) && {
            let recordings = recorded(
                record_all(replayer.batches, tail).unwrap(),
                CommandView::ReadyCommit { batch, batch_commit },
                address,
            );
            &&& next.batches == recordings
            &&& Some((next.waiting, next.given_up)) == ends_taken(
                replayer.waiting,
                replayer.given_up,
                tail,
            )
            &&& replayed(recordings[batch], batch_commit) matches Some(ops) && after == committed(
                index,
                commit,
                ops,
            )
            &&& left.len() == 0
        },
    decreases tail.len(),
{
    let ready = CommandView::ReadyCommit { batch, batch_commit };
    let records = tail.push((address, ready));
    if tail.len() == 0 {
        assert(records[0] == (address, ready));
        assert(records.drop_first().len() == 0);
        let recordings = recorded(replayer.batches, ready, address);
        lemma_terminated(recordings[batch], batch_commit, 0);
    } else {
        let (first_address, cmd) = tail[0];
        assert(records[0] == tail[0]);
        assert(records.drop_first() =~= tail.drop_first().push((address, ready)));
        let step = replay_record(replayer, index, batch, batch_commit, commit, first_address, cmd);
        assert(step is Ok);
        let (next, after, done) = step->Ok_0;
        assert(!done);
        assert(after == index);
        assert(Some((next.waiting, next.given_up)) == end_taken(
            replayer.waiting,
            replayer.given_up,
            cmd,
        ));
        let rest = tail.drop_first();
        assert forall|p: int| 0 <= p < rest.len() implies (attempt_ended(
            (#[trigger] rest[p]).1,
        ) matches Some(ended) ==> rest[p].1.batch() != batch && ended != batch_commit) by {
            assert(rest[p] == tail[p + 1]);
        }
        lemma_tail_replays(next, index, batch, batch_commit, commit, rest, address);
    }
}

/// Every attempt of the set has a number below `bound`.
pub open spec fn numbered_below(attempts: Set<(Batch, BatchCommit)>, bound: u64) -> bool {
    forall|pair: (Batch, BatchCommit)| #[trigger] attempts.contains(pair) ==> pair.1.0 < bound
}

/// The records that a tree has logged since the last commit are in order:
/// their batches and the attempts that they end have numbers that were
/// handed out, and a batch that is still open has in its recording the end
/// of every attempt of it that they end.
pub open spec fn tail_in_order(
    live: Map<Batch, Seq<Step>>,
    tail: Seq<(Address, CommandView)>,
    next_batch: u64,
    next_batch_commit: u64,
) -> bool {
    forall|p: int|
        0 <= p < tail.len() ==> {
            &&& (#[trigger] tail[p]).1.batch().0 < next_batch
            &&& attempt_ended(tail[p].1) matches Some(ended) ==> ended.0 < next_batch_commit && (
            live.contains_key(tail[p].1.batch()) ==> !unended(live[tail[p].1.batch()]))
        }
}

/// The tree is what its log and the commit log make of it: the replay of
/// the commits over the tree's log takes every commit, comes to the index
/// of the tree and to `replayer`, and leaves `tail`, the records that the
/// tree has logged since the last commit. The recordings that the tail
/// makes hold every recording of the tree in use, no record of the tail
/// ends an attempt twice, and the tail is in order.
pub open spec fn tree_follows(
    tree: TreeView,
    next_batch: u64,
    next_batch_commit: u64,
    commits: Seq<(Address, CommitCommand)>,
    replayer: ReplayerView,
    tail: Seq<(Address, CommandView)>,
) -> bool {
    &&& tree_replayed(fresh_replayer(), new_index(), tree.records, commits) == Ok::<_, TreeError>(
        (replayer, tree.index, tail),
    )
    &&& record_all(replayer.batches, tail) matches Some(recordings) && covers(
        recordings,
        tree.batches,
        next_batch,
    )
    &&& numbered_below(replayer.waiting, next_batch_commit)
    &&& ends_taken(replayer.waiting, replayer.given_up, tail) matches Some((waiting, given_up))
        && numbered_below(waiting, next_batch_commit) && numbered_below(
        given_up,
        next_batch_commit,
    )
    &&& tail_in_order(tree.batches, tail, next_batch, next_batch_commit)
}

/// `replayers` and `tails` show that the trees of the database are what
/// the logs make of them.
pub open spec fn witnessed(
    db: DbView,
    replayers: Seq<ReplayerView>,
    tails: Seq<Seq<(Address, CommandView)>>,
) -> bool {
    &&& replayers.len() == db.trees.len()
    &&& tails.len() == db.trees.len()
    &&& rising(None, db.commits)
    &&& forall|k: int|
        0 <= k < db.commits.len() ==> (#[trigger] db.commits[k]).1.commit.0 < db.next_commit
    &&& db.view_commit_limit == (if db.commits.len() > 0 {
        db.commits.last().1.commit.0 + 1
    } else {
        0
    })
    &&& forall|i: int|
        0 <= i < db.trees.len() ==> tree_follows(
            #[trigger] db.trees[i],
            db.next_batch,
            db.next_batch_commit,
            db.commits,
            replayers[i],
            tails[i],
        )
}

/// The database is what its logs make of it: recovery takes every commit
/// of the commit log and comes to the indexes and the commit limit of the
/// database, and whatever the trees have logged since the last commit,
/// records of open batches and the ends of attempts that failed or were
/// given up, will not stand in the way of the recovery of a later commit.
pub open spec fn recoverable(db: DbView) -> bool {
    exists|replayers: Seq<ReplayerView>, tails: Seq<Seq<(Address, CommandView)>>|
        witnessed(db, replayers, tails)
}

/// Recovery takes every commit of the commit log in the log of the tree,
/// and comes to the index of the tree.
pub open spec fn tree_restored(tree: TreeView, commits: Seq<(Address, CommitCommand)>) -> bool {
    tree_replayed(fresh_replayer(), new_index(), tree.records, commits) matches Ok(
        (_, index, _),
    ) && index == tree.index
}

/// Recovery gives back what the database shows: it takes every commit of
/// the commit log and comes to the indexes and the commit limit of the
/// database. What the logs hold behind the last commit is left open.
pub open spec fn restorable(db: DbView) -> bool {
    &&& rising(None, db.commits)
    &&& db.view_commit_limit == (if db.commits.len() > 0 {
        db.commits.last().1.commit.0 + 1
    } else {
        0
    })
    &&& forall|i: int| 0 <= i < db.trees.len() ==> tree_restored(#[trigger] db.trees[i], db.commits)
}

/// A database that is recoverable is restorable.
pub proof fn lemma_recoverable_is_restorable(db: DbView)
    requires
        recoverable(db),
    ensures
        restorable(db),
{
    let (replayers, tails) = choose|
        replayers: Seq<ReplayerView>,
        tails: Seq<Seq<(Address, CommandView)>>,
    | witnessed(db, replayers, tails);
    assert forall|i: int| 0 <= i < db.trees.len() implies tree_restored(
        #[trigger] db.trees[i],
        db.commits,
    ) by {
        assert(tree_follows(
            db.trees[i],
            db.next_batch,
            db.next_batch_commit,
            db.commits,
            replayers[i],
            tails[i],
        ));
    }
}

/// Whatever the trees log after the last commit, the database stays
/// restorable: `after` has the commits, the commit limit and the indexes
/// of `before`, and the log of every tree starts with what it held.
pub proof fn lemma_later_records_keep_restorable(before: DbView, after: DbView)
    requires
        restorable(before),
        after.commits == before.commits,
        after.view_commit_limit == before.view_commit_limit,
        after.trees.len() == before.trees.len(),
        forall|i: int|
            0 <= i < before.trees.len() ==> (#[trigger] after.trees[i]).index
                == before.trees[i].index && is_prefix(
                before.trees[i].records,
                after.trees[i].records,
            ),
    ensures
        restorable(after),
{
    assert forall|i: int| 0 <= i < after.trees.len() implies tree_restored(
        #[trigger] after.trees[i],
        after.commits,
    ) by {
        let old_records = before.trees[i].records;
        let new_records = after.trees[i].records;
        assert(tree_restored(before.trees[i], before.commits));
        assert(after.trees[i].index == before.trees[i].index);
        assert(is_prefix(old_records, new_records));
        let more = new_records.skip(old_records.len() as int);
        assert(new_records =~= old_records + more);
        lemma_tree_replayed_more(fresh_replayer(), new_index(), old_records, before.commits, more);
    }
}

/// A database that is restorable shows after recovery what it showed
/// before: recovery, where it does not find a counter used up, gives every
/// tree the index that it had, and the views the commit limit that they
/// had.
pub proof fn lemma_recovery_restores(db: DbView)
    requires
        restorable(db),
    ensures
        match recovered(db.commits, unrecovered(db.trees)) {
            Ok((state, indexes)) => {
                &&& state.next_commit.0 == db.view_commit_limit
                &&& indexes.len() == db.trees.len()
                &&& forall|i: int|
                    0 <= i < db.trees.len() ==> (#[trigger] indexes[i]) == db.trees[i].index
            },
            Err(e) => e == LoadError::CounterOverflow,
        },
{
    let trees = unrecovered(db.trees);
    if db.commits.len() == 0 {
        let indexes = Seq::new(trees.len(), |i: int| trees[i].index);
        assert forall|i: int| 0 <= i < db.trees.len() implies (#[trigger] indexes[i])
            == db.trees[i].index by {
            assert(tree_restored(db.trees[i], db.commits));
        }
    } else {
        let points = start_points(trees);
        assert forall|i: int| 0 <= i < points.len() implies tree_replayed(
            (#[trigger] points[i]).replayer,
            points[i].index,
            points[i].remaining,
            db.commits,
        ) is Ok by {
            assert(tree_restored(db.trees[i], db.commits));
            assert(points[i].replayer == fresh_replayer());
        }
        lemma_trees_replayed(points, None, db.commits);
        lemma_replay_commits_max(points, None, db.commits);
        match loaded(db.commits, trees) {
            Ok((state, indexes)) => {
                let after = replay_commits(points, None, db.commits)->Ok_0.0;
                assert forall|i: int| 0 <= i < db.trees.len() implies (#[trigger] indexes[i])
                    == db.trees[i].index by {
                    assert(tree_restored(db.trees[i], db.commits));
                    assert(points[i].replayer == fresh_replayer());
                    assert(after[i] == point_after(points[i], db.commits));
                }
            },
            Err(_) => {},
        }
    }
}

/// A database with nothing in its logs is recoverable.
pub proof fn lemma_new_is_recoverable(db: DbView)
    requires
        db.commits.len() == 0,
        db.view_commit_limit == 0,
        forall|i: int|
            0 <= i < db.trees.len() ==> (#[trigger] db.trees[i]).records.len() == 0
                && db.trees[i].batches == Map::<Batch, Seq<Step>>::empty() && db.trees[i].index
                == new_index(),
    ensures
        recoverable(db),
{
    let replayers = Seq::new(db.trees.len(), |i: int| fresh_replayer());
    let tails = Seq::new(db.trees.len(), |i: int| Seq::<(Address, CommandView)>::empty());
    assert forall|i: int| 0 <= i < db.trees.len() implies tree_follows(
        #[trigger] db.trees[i],
        db.next_batch,
        db.next_batch_commit,
        db.commits,
        replayers[i],
        tails[i],
    ) by {
        assert(db.trees[i].records =~= Seq::<(Address, CommandView)>::empty());
    }
    assert(witnessed(db, replayers, tails));
}

/// Counters that grow keep a tree in line with its logs.
proof fn lemma_tree_follows_on(
    tree: TreeView,
    next_batch: u64,
    next_batch_commit: u64,
    commits: Seq<(Address, CommitCommand)>,
    replayer: ReplayerView,
    tail: Seq<(Address, CommandView)>,
    then_next_batch: u64,
    then_next_batch_commit: u64,
)
    requires
        tree_follows(tree, next_batch, next_batch_commit, commits, replayer, tail),
        next_batch <= then_next_batch,
        next_batch_commit <= then_next_batch_commit,
    ensures
        tree_follows(tree, then_next_batch, then_next_batch_commit, commits, replayer, tail),
{
}

/// A tree that has dropped recordings is still in line with its logs.
proof fn lemma_tree_dropped(
    tree: TreeView,
    after: TreeView,
    next_batch: u64,
    next_batch_commit: u64,
    commits: Seq<(Address, CommitCommand)>,
    replayer: ReplayerView,
    tail: Seq<(Address, CommandView)>,
)
    requires
        tree_follows(tree, next_batch, next_batch_commit, commits, replayer, tail),
        after.records == tree.records,
        after.index == tree.index,
        forall|b: Batch| #[trigger]
            after.batches.contains_key(b) ==> tree.batches.contains_key(b) && after.batches[b]
                == tree.batches[b],
    ensures
        tree_follows(after, next_batch, next_batch_commit, commits, replayer, tail),
{
    assert forall|p: int| 0 <= p < tail.len() implies {
        &&& (#[trigger] tail[p]).1.batch().0 < next_batch
        &&& attempt_ended(tail[p].1) matches Some(ended) ==> ended.0 < next_batch_commit && (
        after.batches.contains_key(tail[p].1.batch()) ==> !unended(
            after.batches[tail[p].1.batch()],
        ))
    } by {
        if after.batches.contains_key(tail[p].1.batch()) {
            assert(tree.batches.contains_key(tail[p].1.batch()));
        }
    }
}

/// A tree that has logged and recorded a command is still in line with
/// its logs, with the command at the end of what it has logged since the
/// last commit. A record that ends an attempt must not end it twice.
proof fn lemma_tree_appended(
    tree: TreeView,
    next_batch: u64,
    next_batch_commit: u64,
    commits: Seq<(Address, CommitCommand)>,
    replayer: ReplayerView,
    tail: Seq<(Address, CommandView)>,
    address: Address,
    cmd: CommandView,
    then_next_batch: u64,
    then_next_batch_commit: u64,
)
    requires
        tree_follows(tree, next_batch, next_batch_commit, commits, replayer, tail),
        rejection(tree.batches, cmd) is None,
        next_batch <= then_next_batch,
        next_batch_commit <= then_next_batch_commit,
        cmd is Open ==> next_batch <= cmd.batch().0 < then_next_batch,
        attempt_ended(cmd) matches Some(ended) ==> ended.0 < then_next_batch_commit && end_taken(
            ends_taken(replayer.waiting, replayer.given_up, tail).unwrap().0,
            ends_taken(replayer.waiting, replayer.given_up, tail).unwrap().1,
            cmd,
        ) is Some,
    ensures
        tree_follows(
            tree.appended(address, cmd),
            then_next_batch,
            then_next_batch_commit,
            commits,
            replayer,
            tail.push((address, cmd)),
        ),
{
    let after = tree.appended(address, cmd);
    let grown = tail.push((address, cmd));
    let recordings = record_all(replayer.batches, tail).unwrap();
    lemma_tree_replayed_more(
        fresh_replayer(),
        new_index(),
        tree.records,
        commits,
        seq![(address, cmd)],
    );
    assert(tree.records + seq![(address, cmd)] =~= after.records);
    assert(tail + seq![(address, cmd)] =~= grown);
    lemma_covered_record(recordings, tree.batches, next_batch, then_next_batch, address, cmd);
    lemma_record_all_push(replayer.batches, tail, (address, cmd));
    lemma_ends_taken_push(replayer.waiting, replayer.given_up, tail, (address, cmd));
    let b = cmd.batch();
    if !(cmd is Open) {
        assert(tree.batches.contains_key(b));
        assert(recordings.contains_key(b));
        assert(b.0 < next_batch);
    }
    assert forall|p: int| 0 <= p < grown.len() implies {
        &&& (#[trigger] grown[p]).1.batch().0 < then_next_batch
        &&& attempt_ended(grown[p].1) matches Some(ended) ==> ended.0 < then_next_batch_commit && (
        after.batches.contains_key(grown[p].1.batch()) ==> !unended(
            after.batches[grown[p].1.batch()],
        ))
    } by {
        if p < tail.len() {
            assert(grown[p] == tail[p]);
            let x = tail[p].1.batch();
            if attempt_ended(tail[p].1) is Some && after.batches.contains_key(x) {
                if x == b {
                    if cmd is Open {
                        assert(x.0 < next_batch);
                    } else {
                        assert(tree.batches.contains_key(x));
                        let steps = tree.batches[x];
                        let t = choose|t: int|
                            0 <= t < steps.len() && ((#[trigger] steps[t]) is ReadyCommit || steps[t] is AbortCommit);
                        assert(after.batches[x][t] == steps[t]);
                    }
                } else {
                    assert(tree.batches.contains_key(x));
                    assert(after.batches[x] == tree.batches[x]);
                }
            }
        } else {
            assert(grown[p] == (address, cmd));
            if attempt_ended(cmd) is Some {
                let steps = after.batches[b];
                assert(steps.last() is ReadyCommit || steps.last() is AbortCommit);
                assert(steps[steps.len() - 1] == steps.last());
            }
        }
    }
}

/// The replayer that the commits bring the recovery of a tree to.
pub open spec fn replayer_after(
    records: Seq<(Address, CommandView)>,
    commits: Seq<(Address, CommitCommand)>,
) -> ReplayerView {
    tree_replayed(fresh_replayer(), new_index(), records, commits)->Ok_0.0
}

/// A tree that has committed a batch of which no commit was tried before
/// is in line with its logs and with the commit log that records the
/// commit: what the tree has logged since the commit before, and the
/// record that made the attempt ready, replay as the new commit.
proof fn lemma_tree_committed(
    tree: TreeView,
    after: TreeView,
    next_batch: u64,
    next_batch_commit: u64,
    commits: Seq<(Address, CommitCommand)>,
    replayer: ReplayerView,
    tail: Seq<(Address, CommandView)>,
    batch: Batch,
    commit: Commit,
    record: (Address, CommitCommand),
)
    requires
        tree_follows(tree, next_batch, next_batch_commit, commits, replayer, tail),
        next_batch_commit < u64::MAX,
        record.1 == (CommitCommand {
            batch,
            batch_commit: BatchCommit(next_batch_commit),
            commit,
        }),
        tree_committed(tree, after, batch, BatchCommit(next_batch_commit), commit),
        can_commit(tree.index, commit),
        tree.batches.contains_key(batch) ==> unended(tree.batches[batch]),
    ensures
        tree_follows(
            after,
            next_batch,
            (next_batch_commit + 1) as u64,
            commits.push(record),
            replayer_after(after.records, commits.push(record)),
            Seq::empty(),
        ),
{
    let batch_commit = BatchCommit(next_batch_commit);
    let ready = CommandView::ReadyCommit { batch, batch_commit };
    let address = after.records.last().0;
    let readied = tree.appended(address, ready);
    let recordings = record_all(replayer.batches, tail).unwrap();
    assert(tree.batches.contains_key(batch));
    assert(recordings.contains_key(batch));
    assert(recordings[batch] == tree.batches[batch]);
    assert forall|p: int| 0 <= p < tail.len() implies (attempt_ended(
        (#[trigger] tail[p]).1,
    ) matches Some(ended) ==> tail[p].1.batch() != batch && ended != batch_commit) by {}
    lemma_tail_replays(replayer, tree.index, batch, batch_commit, commit, tail, address);
    let grown = tail.push((address, ready));
    lemma_tree_replayed_more(
        fresh_replayer(),
        new_index(),
        tree.records,
        commits,
        seq![(address, ready)],
    );
    assert(tree.records + seq![(address, ready)] =~= after.records);
    assert(tail + seq![(address, ready)] =~= grown);
    lemma_tree_replayed_push(fresh_replayer(), new_index(), after.records, commits, record);
    assert(!replayer.waiting.contains((batch, batch_commit)));
    let (next, index, left) = replay_records(
        replayer,
        tree.index,
        batch,
        batch_commit,
        commit,
        grown,
    )->Ok_0;
    assert(left =~= Seq::<(Address, CommandView)>::empty());
    assert(tree_replayed(fresh_replayer(), new_index(), after.records, commits.push(record))
        == Ok::<_, TreeError>((next, index, Seq::<(Address, CommandView)>::empty())));
    let after_ready = recorded(recordings, ready, address);
    assert(after_ready[batch] == readied.batches[batch]);
    assert(index == after.index);
    lemma_covered_record(recordings, tree.batches, next_batch, next_batch, address, ready);
    assert(record_all(next.batches, Seq::<(Address, CommandView)>::empty()) == Some(next.batches));
}

/// A database that has logged a command that ends no attempt in its first
/// `n` trees, and handed out no batch number but that of an `Open`, is
/// still recoverable.
pub proof fn lemma_logged_upto_keeps_recoverable(
    before: DbView,
    after: DbView,
    cmd: CommandView,
    n: int,
)
    requires
        recoverable(before),
        after == (DbView { trees: after.trees, next_batch: after.next_batch, ..before }),
        before.next_batch <= after.next_batch,
        cmd is Open ==> before.next_batch <= cmd.batch().0 < after.next_batch,
        attempt_ended(cmd) is None,
        logged_upto(before.trees, after.trees, cmd, n),
    ensures
        recoverable(after),
{
    let (replayers, tails) = choose|
        replayers: Seq<ReplayerView>,
        tails: Seq<Seq<(Address, CommandView)>>,
    | witnessed(before, replayers, tails);
    let new_tails = Seq::new(
        tails.len(),
        |i: int|
            if i < n {
                tails[i].push((after.trees[i].records.last().0, cmd))
            } else {
                tails[i]
            },
    );
    assert forall|i: int| 0 <= i < after.trees.len() implies tree_follows(
        #[trigger] after.trees[i],
        after.next_batch,
        after.next_batch_commit,
        after.commits,
        replayers[i],
        new_tails[i],
    ) by {
        assert(tree_follows(
            before.trees[i],
            before.next_batch,
            before.next_batch_commit,
            before.commits,
            replayers[i],
            tails[i],
        ));
        if i < n {
            lemma_tree_appended(
                before.trees[i],
                before.next_batch,
                before.next_batch_commit,
                before.commits,
                replayers[i],
                tails[i],
                after.trees[i].records.last().0,
                cmd,
                after.next_batch,
                after.next_batch_commit,
            );
        } else {
            assert(after.trees[i] == before.trees[i]);
            lemma_tree_follows_on(
                before.trees[i],
                before.next_batch,
                before.next_batch_commit,
                before.commits,
                replayers[i],
                tails[i],
                after.next_batch,
                after.next_batch_commit,
            );
        }
    }
    assert(witnessed(after, replayers, new_tails));
}

/// A database that has logged a command that ends no attempt in every
/// tree, and handed out no batch number but that of an `Open`, is still
/// recoverable.
pub proof fn lemma_logged_keeps_recoverable(before: DbView, after: DbView, cmd: CommandView)
    requires
        recoverable(before),
        after == (DbView { trees: after.trees, next_batch: after.next_batch, ..before }),
        before.next_batch <= after.next_batch,
        cmd is Open ==> before.next_batch <= cmd.batch().0 < after.next_batch,
        attempt_ended(cmd) is None,
        logged_upto(before.trees, after.trees, cmd, before.trees.len() as int),
    ensures
        recoverable(after),
{
    lemma_logged_upto_keeps_recoverable(before, after, cmd, before.trees.len() as int);
}

/// A database that has logged a command that ends no attempt in one tree
/// is still recoverable.
pub proof fn lemma_logged_in_tree_keeps_recoverable(
    before: DbView,
    after: DbView,
    tree: int,
    cmd: CommandView,
)
    requires
        recoverable(before),
        before.same_but_trees(after),
        0 <= tree < before.trees.len(),
        !(cmd is Open),
        attempt_ended(cmd) is None,
        rejection(before.trees[tree].batches, cmd) is None,
        after.trees[tree] == before.trees[tree].appended(after.trees[tree].records.last().0, cmd),
        forall|k: int|
            0 <= k < before.trees.len() && k != tree ==> (#[trigger] after.trees[k])
                == before.trees[k],
    ensures
        recoverable(after),
{
    let (replayers, tails) = choose|
        replayers: Seq<ReplayerView>,
        tails: Seq<Seq<(Address, CommandView)>>,
    | witnessed(before, replayers, tails);
    let new_tails = tails.update(tree, tails[tree].push((after.trees[tree].records.last().0, cmd)));
    assert forall|i: int| 0 <= i < after.trees.len() implies tree_follows(
        #[trigger] after.trees[i],
        after.next_batch,
        after.next_batch_commit,
        after.commits,
        replayers[i],
        new_tails[i],
    ) by {
        assert(tree_follows(
            before.trees[i],
            before.next_batch,
            before.next_batch_commit,
            before.commits,
            replayers[i],
            tails[i],
        ));
        if i == tree {
            lemma_tree_appended(
                before.trees[i],
                before.next_batch,
                before.next_batch_commit,
                before.commits,
                replayers[i],
                tails[i],
                after.trees[i].records.last().0,
                cmd,
                after.next_batch,
                after.next_batch_commit,
            );
        }
    }
    assert(witnessed(after, replayers, new_tails));
}

/// A tree that was asked to close a batch is still in line with its logs.
proof fn lemma_tree_closed(
    tree: TreeView,
    after: TreeView,
    reliable: bool,
    batch: Batch,
    next_batch: u64,
    next_batch_commit: u64,
    commits: Seq<(Address, CommitCommand)>,
    replayer: ReplayerView,
    tail: Seq<(Address, CommandView)>,
)
    requires
        tree_follows(tree, next_batch, next_batch_commit, commits, replayer, tail),
        tree_closed(tree, after, reliable, batch),
    ensures
        tree_follows(
            after,
            next_batch,
            next_batch_commit,
            commits,
            replayer,
            if after.records == tree.records {
                tail
            } else {
                tail.push((after.records.last().0, CommandView::Close { batch }))
            },
        ),
{
    let cmd = CommandView::Close { batch };
    if after.records == tree.records {
        if after != tree {
            if after != (TreeView { batches: tree.batches.remove(batch), ..tree }) {
                let grown = tree.records.push((after.records.last().0, cmd));
                assert(grown.len() == tree.records.len() + 1);
            }
            lemma_tree_dropped(tree, after, next_batch, next_batch_commit, commits, replayer, tail);
        }
    } else {
        assert(after == tree.appended(after.records.last().0, cmd));
        lemma_tree_appended(
            tree,
            next_batch,
            next_batch_commit,
            commits,
            replayer,
            tail,
            after.records.last().0,
            cmd,
            next_batch,
            next_batch_commit,
        );
    }
}

/// A database that has closed a batch in every tree is still recoverable.
pub proof fn lemma_closed_keeps_recoverable(
    before: DbView,
    after: DbView,
    reliable: bool,
    batch: Batch,
)
    requires
        recoverable(before),
        before.same_but_trees(after),
        forall|i: int|
            0 <= i < before.trees.len() ==> tree_closed(
                before.trees[i],
                #[trigger] after.trees[i],
                reliable,
                batch,
            ),
    ensures
        recoverable(after),
{
    let (replayers, tails) = choose|
        replayers: Seq<ReplayerView>,
        tails: Seq<Seq<(Address, CommandView)>>,
    | witnessed(before, replayers, tails);
    let cmd = CommandView::Close { batch };
    let new_tails = Seq::new(
        tails.len(),
        |i: int|
            if after.trees[i].records == before.trees[i].records {
                tails[i]
            } else {
                tails[i].push((after.trees[i].records.last().0, cmd))
            },
    );
    assert forall|i: int| 0 <= i < after.trees.len() implies tree_follows(
        #[trigger] after.trees[i],
        after.next_batch,
        after.next_batch_commit,
        after.commits,
        replayers[i],
        new_tails[i],
    ) by {
        assert(tree_follows(
            before.trees[i],
            before.next_batch,
            before.next_batch_commit,
            before.commits,
            replayers[i],
            tails[i],
        ));
        assert(tree_closed(before.trees[i], after.trees[i], reliable, batch));
        lemma_tree_closed(
            before.trees[i],
            after.trees[i],
            reliable,
            batch,
            before.next_batch,
            before.next_batch_commit,
            before.commits,
            replayers[i],
            tails[i],
        );
    }
    assert(witnessed(after, replayers, new_tails));
}

/// A database that has committed a batch of which no commit was tried
/// before is still recoverable: what every tree has logged since the
/// commit before replays as the new commit.
pub proof fn lemma_commit_keeps_recoverable(
    before: DbView,
    after: DbView,
    batch: Batch,
    commit_address: Address,
)
    requires
        recoverable(before),
        before.inv(),
        before.initialized,
        before.next_commit < u64::MAX,
        before.next_batch_commit < u64::MAX,
        !tried(before, batch),
        after == (DbView {
            trees: after.trees,
            commits: before.commits.push(
                (
                    commit_address,
                    CommitCommand {
                        batch,
                        batch_commit: BatchCommit(before.next_batch_commit),
                        commit: Commit(before.next_commit),
                    },
                ),
            ),
            next_batch_commit: (before.next_batch_commit + 1) as u64,
            next_commit: (before.next_commit + 1) as u64,
            view_commit_limit: (before.next_commit + 1) as u64,
            ..before
        }),
        after.trees.len() == before.trees.len(),
        forall|i: int|
            0 <= i < before.trees.len() ==> tree_committed(
                before.trees[i],
                #[trigger] after.trees[i],
                batch,
                BatchCommit(before.next_batch_commit),
                Commit(before.next_commit),
            ),
    ensures
        recoverable(after),
{
    let (replayers, tails) = choose|
        replayers: Seq<ReplayerView>,
        tails: Seq<Seq<(Address, CommandView)>>,
    | witnessed(before, replayers, tails);
    let batch_commit = BatchCommit(before.next_batch_commit);
    let commit = Commit(before.next_commit);
    let record = (commit_address, CommitCommand { batch, batch_commit, commit });
    let new_replayers = Seq::new(
        replayers.len(),
        |i: int| replayer_after(after.trees[i].records, after.commits),
    );
    let new_tails = Seq::new(tails.len(), |i: int| Seq::<(Address, CommandView)>::empty());
    lemma_rising_push(None, before.commits, record);
    assert(after.commits.last() == record);
    assert forall|k: int| 0 <= k < after.commits.len() implies (#[trigger] after.commits[k]).1.commit.0
        < after.next_commit by {
        if k < before.commits.len() {
            assert(after.commits[k] == before.commits[k]);
        }
    }
    assert forall|i: int| 0 <= i < after.trees.len() implies tree_follows(
        #[trigger] after.trees[i],
        after.next_batch,
        after.next_batch_commit,
        after.commits,
        new_replayers[i],
        new_tails[i],
    ) by {
        let old_tree = before.trees[i];
        assert(tree_follows(
            old_tree,
            before.next_batch,
            before.next_batch_commit,
            before.commits,
            replayers[i],
            tails[i],
        ));
        assert(tree_committed(old_tree, after.trees[i], batch, batch_commit, commit));
        assert(old_tree.index.watermark == before.view_commit_limit);
        lemma_tree_committed(
            old_tree,
            after.trees[i],
            before.next_batch,
            before.next_batch_commit,
            before.commits,
            replayers[i],
            tails[i],
            batch,
            commit,
            record,
        );
    }
    assert(witnessed(after, new_replayers, new_tails));
}

/// No attempt of the set has a number above `max`.
pub open spec fn attempts_at_most(
    attempts: Set<(Batch, BatchCommit)>,
    max: Option<BatchCommit>,
) -> bool {
    forall|pair: (Batch, BatchCommit)| #[trigger]
        attempts.contains(pair) ==> (max matches Some(m) && pair.1.0 <= m.0)
}

proof fn lemma_replay_records_attempts(
    replayer: ReplayerView,
    index: IndexView,
    batch: Batch,
    batch_commit: BatchCommit,
    commit: Commit,
    records: Seq<(Address, CommandView)>,
)
    requires
        attempts_at_most(replayer.waiting, replayer.max_batch_commit),
        attempts_at_most(replayer.given_up, replayer.max_batch_commit),
    ensures
        replay_records(replayer, index, batch, batch_commit, commit, records) matches Ok(
            (next, _, _),
        ) ==> attempts_at_most(next.waiting, next.max_batch_commit) && attempts_at_most(
            next.given_up,
            next.max_batch_commit,
        ),
    decreases records.len(),
{
    if records.len() > 0 {
        let (address, cmd) = records[0];
        match replay_record(replayer, index, batch, batch_commit, commit, address, cmd) {
            Ok((next, after, done)) => {
                if !done {
                    lemma_replay_records_attempts(
                        next,
                        after,
                        batch,
                        batch_commit,
                        commit,
                        records.drop_first(),
                    );
                }
            },
            Err(_) => {},
        }
    }
}

/// The attempts that wait after the commits, and those given up, have
/// numbers that the replay has met.
proof fn lemma_tree_replayed_attempts(
    replayer: ReplayerView,
    index: IndexView,
    records: Seq<(Address, CommandView)>,
    commits: Seq<(Address, CommitCommand)>,
)
    requires
        attempts_at_most(replayer.waiting, replayer.max_batch_commit),
        attempts_at_most(replayer.given_up, replayer.max_batch_commit),
    ensures
        tree_replayed(replayer, index, records, commits) matches Ok((next, _, _))
            ==> attempts_at_most(next.waiting, next.max_batch_commit) && attempts_at_most(
            next.given_up,
            next.max_batch_commit,
        ),
    decreases commits.len(),
{
    if commits.len() > 0 {
        let commit = commits[0].1;
        lemma_replay_records_attempts(
            replayer,
            index,
            commit.batch,
            commit.batch_commit,
            commit.commit,
            records,
        );
        match replay_commit(
            replayer,
            index,
            commit.batch,
            commit.batch_commit,
            commit.commit,
            records,
        ) {
            Ok((next, after, left)) => {
                lemma_tree_replayed_attempts(next, after, left, commits.drop_first());
            },
            Err(_) => {},
        }
    }
}

/// The attempts that wait after records that end attempts, and those
/// given up, have numbers that the records hold or that were met before.
proof fn lemma_ends_taken_attempts(
    waiting: Set<(Batch, BatchCommit)>,
    given_up: Set<(Batch, BatchCommit)>,
    max: Option<BatchCommit>,
    records: Seq<(Address, CommandView)>,
)
    requires
        attempts_at_most(waiting, max),
        attempts_at_most(given_up, max),
    ensures
        ends_taken(waiting, given_up, records) matches Some((w, g)) ==> attempts_at_most(
            w,
            max_batch_commit_of(max, records),
        ) && attempts_at_most(g, max_batch_commit_of(max, records)),
    decreases records.len(),
{
    if records.len() > 0 {
        lemma_largest_front(None, max, records);
        match end_taken(waiting, given_up, records[0].1) {
            Some((w, g)) => {
                lemma_ends_taken_attempts(
                    w,
                    g,
                    later_batch_commit(max, attempt_ended(records[0].1)),
                    records.drop_first(),
                );
            },
            None => {},
        }
    }
}

/// A database that was recovered from the logs of a recoverable database
/// with at least one commit is recoverable.
///
/// `after` is what recovery made of the logs of `before`: the trees have
/// the indexes that recovery gave them and no open batch, and the counters
/// stand where recovery put them.
pub proof fn lemma_recovered_is_recoverable(before: DbView, after: DbView)
    requires
        recoverable(before),
        before.commits.len() > 0,
        recovered(before.commits, unrecovered(before.trees)) matches Ok((state, indexes)) && {
            &&& after.commits == before.commits
            &&& after.next_batch == state.next_batch.0
            &&& after.next_batch_commit == state.next_batch_commit.0
            &&& after.next_commit == state.next_commit.0
            &&& after.view_commit_limit == state.next_commit.0
            &&& after.trees.len() == before.trees.len()
            &&& forall|i: int|
                0 <= i < before.trees.len() ==> (#[trigger] after.trees[i]) == (TreeView {
                    initialized: true,
                    index: indexes[i],
                    ..unrecovered(before.trees)[i]
                })
        },
    ensures
        recoverable(after),
{
    let (replayers, tails) = choose|
        replayers: Seq<ReplayerView>,
        tails: Seq<Seq<(Address, CommandView)>>,
    | witnessed(before, replayers, tails);
    let trees = unrecovered(before.trees);
    let commits = before.commits;
    let start = start_points(trees);
    assert forall|i: int| 0 <= i < start.len() implies {
        &&& (#[trigger] start[i]).replayer == fresh_replayer()
        &&& tree_replayed(start[i].replayer, start[i].index, start[i].remaining, commits)
            == Ok::<_, TreeError>((replayers[i], before.trees[i].index, tails[i]))
        &&& at_most(start[i].replayer.batches, start[i].replayer.max_batch)
    } by {
        assert(tree_follows(
            before.trees[i],
            before.next_batch,
            before.next_batch_commit,
            commits,
            replayers[i],
            tails[i],
        ));
    }
    lemma_trees_replayed(start, None, commits);
    lemma_replay_commits_max(start, None, commits);
    lemma_replay_commits_at_most(start, None, commits);
    lemma_recoverable_is_restorable(before);
    lemma_recovery_restores(before);
    let (points, max_commit) = replay_commits(start, None, commits)->Ok_0;
    let (state, indexes) = recovered(commits, trees)->Ok_0;
    assert forall|k: int| 0 <= k < commits.len() implies (#[trigger] commits[k]).1.commit.0
        < after.next_commit by {
        lemma_rising_last(None, commits, k);
    }
    assert forall|i: int| 0 <= i < after.trees.len() implies tree_follows(
        #[trigger] after.trees[i],
        after.next_batch,
        after.next_batch_commit,
        after.commits,
        replayers[i],
        tails[i],
    ) by {
        let replayer = replayers[i];
        let tail = tails[i];
        assert(tree_follows(
            before.trees[i],
            before.next_batch,
            before.next_batch_commit,
            commits,
            replayer,
            tail,
        ));
        assert(indexes[i] == before.trees[i].index);
        assert(points[i] == point_after(start[i], commits));
        assert(points[i].replayer == replayer);
        assert(points[i].remaining == tail);
        lemma_record_all_at_most(replayer.batches, replayer.max_batch, tail);
        lemma_max_batch_in_trees(points, i);
        lemma_max_batch_commit_in_trees(points, i);
        let recordings = record_all(replayer.batches, tail).unwrap();
        assert forall|b: Batch| #[trigger] recordings.contains_key(b) implies b.0
            < after.next_batch by {
            assert(at_most(recordings, max_batch_of(replayer.max_batch, tail)));
        }
        lemma_tree_replayed_attempts(
            fresh_replayer(),
            new_index(),
            before.trees[i].records,
            commits,
        );
        lemma_ends_taken_attempts(
            replayer.waiting,
            replayer.given_up,
            replayer.max_batch_commit,
            tail,
        );
        let high = max_batch_commit_of(replayer.max_batch_commit, tail);
        if tail.len() > 0 {
            lemma_largest_bounds(replayer.max_batch, replayer.max_batch_commit, tail, 0);
        }
        assert(attempt_not_above(replayer.max_batch_commit, high));
        assert forall|p: int| 0 <= p < tail.len() implies {
            &&& (#[trigger] tail[p]).1.batch().0 < after.next_batch
            &&& attempt_ended(tail[p].1) matches Some(ended) ==> ended.0 < after.next_batch_commit
        } by {
            lemma_largest_bounds(replayer.max_batch, replayer.max_batch_commit, tail, p);
        }
    }
    assert(witnessed(after, replayers, tails));
}

/// A tree that was asked to log the end of an attempt with a number that
/// was not handed out before is still in line with its logs.
proof fn lemma_tree_tried_end(
    tree: TreeView,
    after: TreeView,
    reliable: bool,
    cmd: CommandView,
    next_batch: u64,
    next_batch_commit: u64,
    commits: Seq<(Address, CommitCommand)>,
    replayer: ReplayerView,
    tail: Seq<(Address, CommandView)>,
    then_next_batch_commit: u64,
)
    requires
        tree_follows(tree, next_batch, next_batch_commit, commits, replayer, tail),
        tried_to_log(tree, after, reliable, cmd),
        !(cmd is Open),
        next_batch_commit <= then_next_batch_commit,
        attempt_ended(cmd) matches Some(ended) ==> ended.0 < then_next_batch_commit && end_taken(
            ends_taken(replayer.waiting, replayer.given_up, tail).unwrap().0,
            ends_taken(replayer.waiting, replayer.given_up, tail).unwrap().1,
            cmd,
        ) is Some,
    ensures
        tree_follows(
            after,
            next_batch,
            then_next_batch_commit,
            commits,
            replayer,
            if after == tree {
                tail
            } else {
                tail.push((after.records.last().0, cmd))
            },
        ),
{
    if after == tree {
        lemma_tree_follows_on(
            tree,
            next_batch,
            next_batch_commit,
            commits,
            replayer,
            tail,
            next_batch,
            then_next_batch_commit,
        );
    } else {
        assert(after == tree.appended(after.records.last().0, cmd));
        lemma_tree_appended(
            tree,
            next_batch,
            next_batch_commit,
            commits,
            replayer,
            tail,
            after.records.last().0,
            cmd,
            next_batch,
            then_next_batch_commit,
        );
    }
}

/// A database in which a commit attempt was given up is still
/// recoverable: the end of the attempt stands in the way of no later
/// commit.
pub proof fn lemma_given_up_keeps_recoverable(
    before: DbView,
    after: DbView,
    reliable: bool,
    number: Batch,
)
    requires
        recoverable(before),
        abort_made(before, reliable, after, number),
    ensures
        recoverable(after),
{
    if before.next_batch_commit < u64::MAX {
        let (replayers, tails) = choose|
            replayers: Seq<ReplayerView>,
            tails: Seq<Seq<(Address, CommandView)>>,
        | witnessed(before, replayers, tails);
        let cmd = CommandView::AbortCommit {
            batch: number,
            batch_commit: BatchCommit(before.next_batch_commit),
        };
        let new_tails = Seq::new(
            tails.len(),
            |i: int|
                if after.trees[i] == before.trees[i] {
                    tails[i]
                } else {
                    tails[i].push((after.trees[i].records.last().0, cmd))
                },
        );
        assert forall|i: int| 0 <= i < after.trees.len() implies tree_follows(
            #[trigger] after.trees[i],
            after.next_batch,
            after.next_batch_commit,
            after.commits,
            replayers[i],
            new_tails[i],
        ) by {
            assert(tree_follows(
                before.trees[i],
                before.next_batch,
                before.next_batch_commit,
                before.commits,
                replayers[i],
                tails[i],
            ));
            assert(tried_to_log(before.trees[i], after.trees[i], reliable, cmd));
            lemma_tree_tried_end(
                before.trees[i],
                after.trees[i],
                reliable,
                cmd,
                before.next_batch,
                before.next_batch_commit,
                before.commits,
                replayers[i],
                tails[i],
                after.next_batch_commit,
            );
        }
        assert(witnessed(after, replayers, new_tails));
    }
}

/// A database in which a commit has failed is still recoverable: what the
/// attempt left in the logs, a `ReadyCommit`, an `AbortCommit` or both,
/// stands in the way of no later commit.
pub proof fn lemma_failed_commit_keeps_recoverable(
    before: DbView,
    after: DbView,
    reliable: bool,
    number: Batch,
    unusable: bool,
    r: Result<(), DbError>,
)
    requires
        recoverable(before),
        commit_made(before, reliable, after, number, unusable, r),
        r is Err,
    ensures
        recoverable(after),
{
    let e = r->Err_0;
    if !(e is Tree) && !(e is CommitLog) {
        assert(after == before);
    } else {
        let (replayers, tails) = choose|
            replayers: Seq<ReplayerView>,
            tails: Seq<Seq<(Address, CommandView)>>,
        | witnessed(before, replayers, tails);
        let batch_commit = BatchCommit(before.next_batch_commit);
        let ready = CommandView::ReadyCommit { batch: number, batch_commit };
        let abort = CommandView::AbortCommit { batch: number, batch_commit };
        let new_tails = Seq::new(
            tails.len(),
            |i: int| after.trees[i].records.skip(before.trees[i].records.len() - tails[i].len()),
        );
        assert forall|i: int| 0 <= i < after.trees.len() implies tree_follows(
            #[trigger] after.trees[i],
            after.next_batch,
            after.next_batch_commit,
            after.commits,
            replayers[i],
            new_tails[i],
        ) by {
            let old_tree = before.trees[i];
            let new_tree = after.trees[i];
            let replayer = replayers[i];
            let tail = tails[i];
            assert(tree_follows(
                old_tree,
                before.next_batch,
                before.next_batch_commit,
                before.commits,
                replayer,
                tail,
            ));
            lemma_tail_is_the_end(old_tree.records, before.commits, replayer, old_tree.index, tail);
            let kept = old_tree.records.len() - tail.len();
            let step = match e {
                DbError::Tree { tree, .. } => if i < tree {
                    2int
                } else if i > tree {
                    1int
                } else {
                    0int
                },
                _ => 3int,
            };
            if step == 0 {
                assert(new_tree == old_tree);
                lemma_tree_follows_on(
                    old_tree,
                    before.next_batch,
                    before.next_batch_commit,
                    before.commits,
                    replayer,
                    tail,
                    after.next_batch,
                    after.next_batch_commit,
                );
                assert(new_tails[i] =~= tail);
            } else if step == 1 {
                assert(tried_to_log(old_tree, new_tree, reliable, abort));
                lemma_tree_tried_end(
                    old_tree,
                    new_tree,
                    reliable,
                    abort,
                    before.next_batch,
                    before.next_batch_commit,
                    before.commits,
                    replayer,
                    tail,
                    after.next_batch_commit,
                );
                if new_tree == old_tree {
                    assert(new_tails[i] =~= tail);
                } else {
                    assert(new_tails[i] =~= tail.push((new_tree.records.last().0, abort)));
                }
            } else if step == 3 {
                let address = new_tree.records.last().0;
                assert(new_tree == old_tree.appended(address, ready));
                lemma_tree_appended(
                    old_tree,
                    before.next_batch,
                    before.next_batch_commit,
                    before.commits,
                    replayer,
                    tail,
                    address,
                    ready,
                    after.next_batch,
                    after.next_batch_commit,
                );
                assert(new_tails[i] =~= tail.push((address, ready)));
            } else {
                let address = choose|address: Address|
                    rejection(old_tree.batches, ready) is None && #[trigger] tried_to_log(
                        old_tree.appended(address, ready),
                        new_tree,
                        reliable,
                        abort,
                    );
                let readied = old_tree.appended(address, ready);
                lemma_tree_appended(
                    old_tree,
                    before.next_batch,
                    before.next_batch_commit,
                    before.commits,
                    replayer,
                    tail,
                    address,
                    ready,
                    after.next_batch,
                    after.next_batch_commit,
                );
                let grown = tail.push((address, ready));
                lemma_ends_taken_push(replayer.waiting, replayer.given_up, tail, (address, ready));
                lemma_tree_tried_end(
                    readied,
                    new_tree,
                    reliable,
                    abort,
                    after.next_batch,
                    after.next_batch_commit,
                    before.commits,
                    replayer,
                    grown,
                    after.next_batch_commit,
                );
                if new_tree == readied {
                    assert(new_tails[i] =~= grown);
                } else {
                    assert(new_tails[i] =~= grown.push((new_tree.records.last().0, abort)));
                }
            }
        }
        assert(witnessed(after, replayers, new_tails));
    }
}

/// What the commits leave of the log of a tree is the end of the log.
proof fn lemma_tail_is_the_end(
    records: Seq<(Address, CommandView)>,
    commits: Seq<(Address, CommitCommand)>,
    replayer: ReplayerView,
    index: IndexView,
    tail: Seq<(Address, CommandView)>,
)
    requires
        tree_replayed(fresh_replayer(), new_index(), records, commits) == Ok::<_, TreeError>(
            (replayer, index, tail),
        ),
    ensures
        tail.len() <= records.len(),
        records.skip(records.len() - tail.len()) == tail,
{
    lemma_tree_replayed_left(fresh_replayer(), new_index(), records, commits);
}

proof fn lemma_replay_records_left(
    replayer: ReplayerView,
    index: IndexView,
    batch: Batch,
    batch_commit: BatchCommit,
    commit: Commit,
    records: Seq<(Address, CommandView)>,
)
    ensures
        replay_records(replayer, index, batch, batch_commit, commit, records) matches Ok(
            (_, _, left),
        ) ==> left.len() <= records.len() && records.skip(records.len() - left.len()) == left,
    decreases records.len(),
{
    if records.len() > 0 {
        match replay_record(
            replayer,
            index,
            batch,
            batch_commit,
            commit,
            records[0].0,
            records[0].1,
        ) {
            Ok((next, after, done)) => {
                let rest = records.drop_first();
                if !done {
                    lemma_replay_records_left(next, after, batch, batch_commit, commit, rest);
                    match replay_records(next, after, batch, batch_commit, commit, rest) {
                        Ok((_, _, left)) => {
                            let from = records.len() - left.len();
                            assert forall|k: int| 0 <= k < left.len() implies records.skip(from)[k]
                                == rest.skip(from - 1)[k] by {
                                assert(records[from + k] == rest[from - 1 + k]);
                            }
                            assert(records.skip(from) =~= rest.skip(from - 1));
                        },
                        Err(_) => {},
                    }
                } else {
                    assert(records.skip(1) =~= rest);
                }
            },
            Err(_) => {},
        }
    }
}

proof fn lemma_tree_replayed_left(
    replayer: ReplayerView,
    index: IndexView,
    records: Seq<(Address, CommandView)>,
    commits: Seq<(Address, CommitCommand)>,
)
    ensures
        tree_replayed(replayer, index, records, commits) matches Ok((_, _, left)) ==> left.len()
            <= records.len() && records.skip(records.len() - left.len()) == left,
    decreases commits.len(),
{
    if commits.len() == 0 {
        assert(records.skip(0) =~= records);
    } else {
        let commit = commits[0].1;
        lemma_replay_records_left(
            replayer,
            index,
            commit.batch,
            commit.batch_commit,
            commit.commit,
            records,
        );
        match replay_commit(
            replayer,
            index,
            commit.batch,
            commit.batch_commit,
            commit.commit,
            records,
        ) {
            Ok((next, after, left)) => {
                assert(records.skip(records.len() - left.len()) =~= left) by {
                    if replayer.waiting.contains((commit.batch, commit.batch_commit)) {
                        assert(records.skip(0) =~= records);
                    }
                }
                lemma_tree_replayed_left(next, after, left, commits.drop_first());
                match tree_replayed(next, after, left, commits.drop_first()) {
                    Ok((_, _, last)) => {
                        let from = records.len() - left.len();
                        let then = left.len() - last.len();
                        assert forall|k: int| 0 <= k < last.len() implies records.skip(
                            from + then,
                        )[k] == left.skip(then)[k] by {
                            assert(records.skip(from)[then + k] == left[then + k]);
                        }
                        assert(records.skip(records.len() - last.len()) =~= left.skip(then));
                    },
                    Err(_) => {},
                }
            },
            Err(_) => {},
        }
    }
}

/// A database in which the opening of a batch failed is still
/// recoverable: the trees before the one that failed have logged the
/// opening of the batch and were asked to close it again.
pub proof fn lemma_failed_opening_keeps_recoverable(
    before: DbView,
    after: DbView,
    reliable: bool,
    tree: int,
)
    requires
        recoverable(before),
        before.next_batch < u64::MAX,
        after == (DbView {
            trees: after.trees,
            next_batch: (before.next_batch + 1) as u64,
            ..before
        }),
        after.trees.len() == before.trees.len(),
        forall|i: int|
            0 <= i < tree && i < before.trees.len() ==> opened_then_closed(
                before.trees[i],
                #[trigger] after.trees[i],
                reliable,
                Batch(before.next_batch),
            ),
        forall|i: int|
            tree <= i < before.trees.len() ==> (#[trigger] after.trees[i]) == before.trees[i],
    ensures
        recoverable(after),
{
    let (replayers, tails) = choose|
        replayers: Seq<ReplayerView>,
        tails: Seq<Seq<(Address, CommandView)>>,
    | witnessed(before, replayers, tails);
    let batch = Batch(before.next_batch);
    let open = CommandView::Open { batch };
    let close = CommandView::Close { batch };
    let new_tails = Seq::new(
        tails.len(),
        |i: int|
            if i >= tree {
                tails[i]
            } else if after.trees[i].records.len() == before.trees[i].records.len() + 1 {
                tails[i].push(after.trees[i].records.last())
            } else {
                tails[i].push(
                    after.trees[i].records[after.trees[i].records.len() - 2],
                ).push(after.trees[i].records.last())
            },
    );
    assert forall|i: int| 0 <= i < after.trees.len() implies tree_follows(
        #[trigger] after.trees[i],
        after.next_batch,
        after.next_batch_commit,
        after.commits,
        replayers[i],
        new_tails[i],
    ) by {
        let old_tree = before.trees[i];
        let new_tree = after.trees[i];
        assert(tree_follows(
            old_tree,
            before.next_batch,
            before.next_batch_commit,
            before.commits,
            replayers[i],
            tails[i],
        ));
        if i >= tree {
            lemma_tree_follows_on(
                old_tree,
                before.next_batch,
                before.next_batch_commit,
                before.commits,
                replayers[i],
                tails[i],
                after.next_batch,
                after.next_batch_commit,
            );
        } else {
            let address = choose|address: Address| #[trigger]
                tree_closed(old_tree.appended(address, open), new_tree, reliable, batch);
            let opened = old_tree.appended(address, open);
            let recordings = record_all(replayers[i].batches, tails[i]).unwrap();
            if old_tree.batches.contains_key(batch) {
                assert(recordings.contains_key(batch));
            }
            lemma_tree_appended(
                old_tree,
                before.next_batch,
                before.next_batch_commit,
                before.commits,
                replayers[i],
                tails[i],
                address,
                open,
                after.next_batch,
                after.next_batch_commit,
            );
            lemma_tree_closed(
                opened,
                new_tree,
                reliable,
                batch,
                after.next_batch,
                after.next_batch_commit,
                before.commits,
                replayers[i],
                tails[i].push((address, open)),
            );
            assert(opened.records.last() == (address, open));
            if new_tree.records == opened.records {
            } else {
                assert(new_tree.records[new_tree.records.len() - 2] == (address, open));
            }
        }
    }
    assert(witnessed(after, replayers, new_tails));
}

/// The largest batch number that the logs of the trees hold.
pub open spec fn high_batch(trees: Seq<TreeView>) -> Option<Batch> {
    max_batch_in_trees(start_points(unrecovered(trees)))
}

/// The largest number of a commit attempt that the logs of the trees
/// hold.
pub open spec fn high_attempt(trees: Seq<TreeView>) -> Option<BatchCommit> {
    max_batch_commit_in_trees(start_points(unrecovered(trees)))
}

/// The counters of the database stand right above what its logs hold: no
/// number was handed out that the logs do not show.
pub open spec fn counted(db: DbView) -> bool {
    &&& next_after(batch_number(high_batch(db.trees))) == Some(db.next_batch)
    &&& next_after(batch_commit_number(high_attempt(db.trees))) == Some(db.next_batch_commit)
    &&& db.next_commit == db.view_commit_limit
}

/// No batch is open in the database.
pub open spec fn at_rest(db: DbView) -> bool {
    forall|i: int|
        0 <= i < db.trees.len() ==> (#[trigger] db.trees[i]).batches == Map::<
            Batch,
            Seq<Step>,
        >::empty()
}

/// The largest numbers of all trees go by the largest numbers of every
/// tree.
proof fn lemma_same_highs(a: Seq<TreePoint>, b: Seq<TreePoint>)
    requires
        a.len() == b.len(),
        forall|i: int| 0 <= i < a.len() ==> largest(#[trigger] a[i]) == largest(b[i]),
    ensures
        max_batch_in_trees(a) == max_batch_in_trees(b),
        max_batch_commit_in_trees(a) == max_batch_commit_in_trees(b),
    decreases a.len(),
{
    if a.len() > 0 {
        assert(largest(a.last()) == largest(b.last())) by {
            assert(largest(a[a.len() - 1]) == largest(b[a.len() - 1]));
        }
        assert forall|i: int| 0 <= i < a.drop_last().len() implies largest(
            #[trigger] a.drop_last()[i],
        ) == largest(b.drop_last()[i]) by {
            assert(largest(a[i]) == largest(b[i]));
        }
        lemma_same_highs(a.drop_last(), b.drop_last());
    }
}

/// A restart changes nothing in a database at rest whose counters stand
/// right above what its logs hold: the database that recovery makes of
/// the logs is the database that wrote them. So whatever is done with
/// the database after a restart comes out as it would have without.
///
/// `after` is what recovery made of the logs of `before`.
pub proof fn lemma_restart_changes_nothing(before: DbView, after: DbView)
    requires
        restorable(before),
        counted(before),
        at_rest(before),
        before.initialized,
        before.commits.len() > 0,
        forall|i: int| 0 <= i < before.trees.len() ==> (#[trigger] before.trees[i]).initialized,
        recovered(before.commits, unrecovered(before.trees)) matches Ok((state, indexes)) && {
            &&& after.initialized
            &&& after.names == before.names
            &&& after.commits == before.commits
            &&& after.next_batch == state.next_batch.0
            &&& after.next_batch_commit == state.next_batch_commit.0
            &&& after.next_commit == state.next_commit.0
            &&& after.view_commit_limit == state.next_commit.0
            &&& after.trees.len() == before.trees.len()
            &&& forall|i: int|
                0 <= i < before.trees.len() ==> (#[trigger] after.trees[i]) == (TreeView {
                    initialized: true,
                    index: indexes[i],
                    ..unrecovered(before.trees)[i]
                })
        },
    ensures
        after == before,
{
    lemma_recovery_restores(before);
    let trees = unrecovered(before.trees);
    let start = start_points(trees);
    lemma_replay_commits_largest(start, None, before.commits);
    let points = replay_commits(start, None, before.commits)->Ok_0.0;
    lemma_same_highs(points, start);
    assert forall|i: int| 0 <= i < before.trees.len() implies (#[trigger] after.trees[i])
        == before.trees[i] by {
        assert(before.trees[i].batches == Map::<Batch, Seq<Step>>::empty());
    }
    assert(after.trees =~= before.trees);
}

/// The largest numbers of all trees after some trees have logged a record
/// lie between what they were and what the record makes of them.
proof fn lemma_highs_between(
    before: Seq<TreePoint>,
    after: Seq<TreePoint>,
    batch: Batch,
    ended: Option<BatchCommit>,
)
    requires
        after.len() == before.len(),
        forall|i: int|
            0 <= i < before.len() ==> largest(#[trigger] after[i]) == largest(before[i]) || largest(
                after[i],
            ) == (
                later_batch(largest(before[i]).0, batch),
                later_batch_commit(largest(before[i]).1, ended),
            ),
    ensures
        max_batch_in_trees(after) == max_batch_in_trees(before) || max_batch_in_trees(after)
            == later_batch(max_batch_in_trees(before), batch),
        max_batch_commit_in_trees(after) == max_batch_commit_in_trees(before)
            || max_batch_commit_in_trees(after) == later_batch_commit(
            max_batch_commit_in_trees(before),
            ended,
        ),
        (forall|i: int|
            0 <= i < before.len() ==> largest(#[trigger] after[i]) == (
                later_batch(largest(before[i]).0, batch),
                later_batch_commit(largest(before[i]).1, ended),
            )) && before.len() > 0 ==> max_batch_in_trees(after) == later_batch(
            max_batch_in_trees(before),
            batch,
        ) && max_batch_commit_in_trees(after) == later_batch_commit(
            max_batch_commit_in_trees(before),
            ended,
        ),
    decreases before.len(),
{
    if before.len() > 0 {
        let n = before.len() - 1;
        assert(largest(after[n]) == largest(before[n]) || largest(after[n]) == (
            later_batch(largest(before[n]).0, batch),
            later_batch_commit(largest(before[n]).1, ended),
        ));
        assert forall|i: int| 0 <= i < before.drop_last().len() implies largest(
            #[trigger] after.drop_last()[i],
        ) == largest(before.drop_last()[i]) || largest(after.drop_last()[i]) == (
            later_batch(largest(before.drop_last()[i]).0, batch),
            later_batch_commit(largest(before.drop_last()[i]).1, ended),
        ) by {
            assert(largest(after[i]) == largest(before[i]) || largest(after[i]) == (
                later_batch(largest(before[i]).0, batch),
                later_batch_commit(largest(before[i]).1, ended),
            ));
        }
        lemma_highs_between(before.drop_last(), after.drop_last(), batch, ended);
        if forall|i: int|
            0 <= i < before.len() ==> largest(#[trigger] after[i]) == (
                later_batch(largest(before[i]).0, batch),
                later_batch_commit(largest(before[i]).1, ended),
            ) {
            assert forall|i: int| 0 <= i < before.drop_last().len() implies largest(
                #[trigger] after.drop_last()[i],
            ) == (
                later_batch(largest(before.drop_last()[i]).0, batch),
                later_batch_commit(largest(before.drop_last()[i]).1, ended),
            ) by {
                assert(largest(after[i]) == (
                    later_batch(largest(before[i]).0, batch),
                    later_batch_commit(largest(before[i]).1, ended),
                ));
            }
        }
    }
}

/// What every tree of `after` has logged more than the tree of `before`:
/// nothing, or one record of the batch that ends what `ended` says.
pub open spec fn logged_one(
    before: Seq<TreeView>,
    after: Seq<TreeView>,
    batch: Batch,
    ended: Option<BatchCommit>,
) -> bool {
    &&& after.len() == before.len()
    &&& forall|i: int|
        0 <= i < before.len() ==> (#[trigger] after[i]).records == before[i].records || (exists|
            address: Address,
            cmd: CommandView,
        |
            after[i].records == before[i].records.push((address, cmd)) && cmd.batch() == batch
                && attempt_ended(cmd) == ended)
}

/// Counters that stand right above what the logs hold still do when the
/// trees log records of a batch that the logs hold already.
proof fn lemma_counted_on(before: DbView, after: DbView, batch: Batch)
    requires
        counted(before),
        after.trees != before.trees ==> batch.0 < before.next_batch,
        logged_one(before.trees, after.trees, batch, None),
        after.next_batch == before.next_batch,
        after.next_batch_commit == before.next_batch_commit,
        after.next_commit == before.next_commit,
        after.view_commit_limit == before.view_commit_limit,
    ensures
        counted(after),
{
    let a = start_points(unrecovered(before.trees));
    let b = start_points(unrecovered(after.trees));
    assert forall|i: int| 0 <= i < a.len() implies largest(#[trigger] b[i]) == largest(a[i])
        || largest(b[i]) == (
        later_batch(largest(a[i]).0, batch),
        later_batch_commit(largest(a[i]).1, None),
    ) by {
        lemma_largest_pushed(before.trees[i], after.trees[i], batch, None);
    }
    lemma_highs_between(a, b, batch, None);
    if !(batch.0 < before.next_batch) {
        assert(after.trees =~= before.trees);
    }
}

/// What one more record makes of the largest numbers of a tree's log.
proof fn lemma_largest_pushed(
    before: TreeView,
    after: TreeView,
    batch: Batch,
    ended: Option<BatchCommit>,
)
    requires
        after.records == before.records || (exists|address: Address, cmd: CommandView|
            after.records == before.records.push((address, cmd)) && cmd.batch() == batch
                && attempt_ended(cmd) == ended),
    ensures
        max_batch_of(None, after.records) == max_batch_of(None, before.records) || max_batch_of(
            None,
            after.records,
        ) == later_batch(max_batch_of(None, before.records), batch),
        max_batch_commit_of(None, after.records) == max_batch_commit_of(None, before.records)
            || max_batch_commit_of(None, after.records) == later_batch_commit(
            max_batch_commit_of(None, before.records),
            ended,
        ),
        after.records != before.records ==> max_batch_of(None, after.records) == later_batch(
            max_batch_of(None, before.records),
            batch,
        ) && max_batch_commit_of(None, after.records) == later_batch_commit(
            max_batch_commit_of(None, before.records),
            ended,
        ),
        after.records == before.records ==> max_batch_of(None, after.records) == max_batch_of(
            None,
            before.records,
        ) && max_batch_commit_of(None, after.records) == max_batch_commit_of(
            None,
            before.records,
        ),
{
    if after.records != before.records {
        let (address, cmd) = choose|address: Address, cmd: CommandView|
            after.records == before.records.push((address, cmd)) && cmd.batch() == batch
                && attempt_ended(cmd) == ended;
        assert(after.records.drop_last() =~= before.records);
        assert(after.records.last() == (address, cmd));
    }
}

/// Counters that stand right above what the logs hold still do after a
/// batch was opened in a database that has a tree.
pub proof fn lemma_opened_keeps_counted(
    before: DbView,
    after: DbView,
    reliable: bool,
    r: Result<Batch, DbError>,
)
    requires
        counted(before),
        batch_opened(before, reliable, after, r),
        r is Ok,
        before.trees.len() > 0,
    ensures
        counted(after),
{
    let batch = Batch(before.next_batch);
    let a = start_points(unrecovered(before.trees));
    let b = start_points(unrecovered(after.trees));
    assert forall|i: int| 0 <= i < a.len() implies largest(#[trigger] b[i]) == (
        later_batch(largest(a[i]).0, batch),
        later_batch_commit(largest(a[i]).1, None),
    ) by {
        let address = after.trees[i].records.last().0;
        assert(after.trees[i] == before.trees[i].appended(address, CommandView::Open { batch }));
        lemma_largest_pushed(before.trees[i], after.trees[i], batch, None);
        assert(after.trees[i].records.len() == before.trees[i].records.len() + 1);
    }
    lemma_highs_between(a, b, batch, None);
}

/// Counters that stand right above what the logs hold still do after a
/// batch has logged a command in one tree, or has tried to.
pub proof fn lemma_logged_in_tree_keeps_counted(
    before: DbView,
    after: DbView,
    reliable: bool,
    name: Seq<char>,
    unusable: bool,
    cmd: CommandView,
    r: Result<(), DbError>,
)
    requires
        counted(before),
        before.inv(),
        logs_in_tree(before, reliable, after, name, unusable, cmd, r),
        attempt_ended(cmd) is None,
        !(cmd is Open),
    ensures
        counted(after),
{
    let batch = cmd.batch();
    assert forall|i: int| 0 <= i < before.trees.len() implies (#[trigger] after.trees[i]).records
        == before.trees[i].records || (exists|address: Address, c: CommandView|
        after.trees[i].records == before.trees[i].records.push((address, c)) && c.batch() == batch
            && attempt_ended(c) == None::<BatchCommit>) by {
        if after.trees[i].records != before.trees[i].records {
            assert(after.trees[i].records == before.trees[i].records.push(
                (after.trees[i].records.last().0, cmd),
            ));
        }
    }
    if after.trees != before.trees {
        let i = before.tree_number(name).unwrap();
        assert(before.trees[i].batches.contains_key(batch));
    }
    lemma_counted_on(before, after, batch);
}

/// Counters that stand right above what the logs hold still do after a
/// batch has logged a command on its save points in every tree, or in the
/// first trees up to one that refused.
pub proof fn lemma_logged_in_all_keeps_counted(
    before: DbView,
    after: DbView,
    reliable: bool,
    was_unusable: bool,
    is_unusable: bool,
    cmd: CommandView,
    r: Result<(), DbError>,
)
    requires
        counted(before),
        before.inv(),
        logs_in_all(before, reliable, after, was_unusable, is_unusable, cmd, r),
        attempt_ended(cmd) is None,
        !(cmd is Open),
    ensures
        counted(after),
{
    let batch = cmd.batch();
    assert forall|i: int| 0 <= i < before.trees.len() implies (#[trigger] after.trees[i]).records
        == before.trees[i].records || (exists|address: Address, c: CommandView|
        after.trees[i].records == before.trees[i].records.push((address, c)) && c.batch() == batch
            && attempt_ended(c) == None::<BatchCommit>) by {
        if after.trees[i].records != before.trees[i].records {
            assert(after.trees[i].records == before.trees[i].records.push(
                (after.trees[i].records.last().0, cmd),
            ));
        }
    }
    if after.trees != before.trees {
        if forall|i: int| 0 <= i < before.trees.len() ==> after.trees[i] == before.trees[i] {
            assert(after.trees =~= before.trees);
        }
        let i = choose|i: int| 0 <= i < before.trees.len() && after.trees[i] != before.trees[i];
        assert(rejection(before.trees[i].batches, cmd) is None);
        assert(before.trees[i].batches.contains_key(batch));
    }
    lemma_counted_on(before, after, batch);
}

/// Counters that stand right above what the logs hold still do after a
/// batch was closed.
pub proof fn lemma_closed_keeps_counted(
    before: DbView,
    after: DbView,
    reliable: bool,
    number: Batch,
)
    requires
        counted(before),
        before.inv(),
        close_done(before, reliable, after, number),
    ensures
        counted(after),
{
    assert forall|i: int| 0 <= i < before.trees.len() implies (#[trigger] after.trees[i]).records
        == before.trees[i].records || (exists|address: Address, c: CommandView|
        after.trees[i].records == before.trees[i].records.push((address, c)) && c.batch() == number
            && attempt_ended(c) == None::<BatchCommit>) by {
        assert(tree_closed(before.trees[i], after.trees[i], reliable, number));
        if after.trees[i].records != before.trees[i].records {
            assert(after.trees[i].records == before.trees[i].records.push(
                (after.trees[i].records.last().0, CommandView::Close { batch: number }),
            ));
        }
    }
    if exists|i: int|
        0 <= i < before.trees.len() && (#[trigger] after.trees[i]).records
            != before.trees[i].records {
        let i = choose|i: int|
            0 <= i < before.trees.len() && (#[trigger] after.trees[i]).records
                != before.trees[i].records;
        assert(tree_closed(before.trees[i], after.trees[i], reliable, number));
        assert(before.trees[i].batches.contains_key(number));
        lemma_counted_on(before, after, number);
    } else {
        let a = start_points(unrecovered(before.trees));
        let b = start_points(unrecovered(after.trees));
        lemma_same_highs(b, a);
    }
}

/// Counters that stand right above what the logs hold still do after a
/// commit that went well in a database that has a tree.
pub proof fn lemma_commit_keeps_counted(
    before: DbView,
    after: DbView,
    reliable: bool,
    number: Batch,
    unusable: bool,
    r: Result<(), DbError>,
)
    requires
        counted(before),
        before.inv(),
        commit_made(before, reliable, after, number, unusable, r),
        r is Ok,
        before.trees.len() > 0,
    ensures
        counted(after),
{
    let batch_commit = BatchCommit(before.next_batch_commit);
    let ready = CommandView::ReadyCommit { batch: number, batch_commit };
    let a = start_points(unrecovered(before.trees));
    let b = start_points(unrecovered(after.trees));
    assert forall|i: int| 0 <= i < a.len() implies largest(#[trigger] b[i]) == (
        later_batch(largest(a[i]).0, number),
        later_batch_commit(largest(a[i]).1, Some(batch_commit)),
    ) by {
        let address = after.trees[i].records.last().0;
        assert(tree_committed(
            before.trees[i],
            after.trees[i],
            number,
            batch_commit,
            Commit(before.next_commit),
        ));
        assert(after.trees[i].records == before.trees[i].records.push((address, ready)));
        lemma_largest_pushed(before.trees[i], after.trees[i], number, Some(batch_commit));
        assert(after.trees[i].records.len() == before.trees[i].records.len() + 1);
    }
    lemma_highs_between(a, b, number, Some(batch_commit));
    assert(tree_committed(
        before.trees[0],
        after.trees[0],
        number,
        batch_commit,
        Commit(before.next_commit),
    ));
    assert(before.trees[0].batches.contains_key(number));
}

/// The counters of a database with nothing in its logs, which has handed
/// out no number, stand right above what the logs hold.
pub proof fn lemma_new_is_counted(db: DbView)
    requires
        db.next_batch == 0,
        db.next_batch_commit == 0,
        db.next_commit == 0,
        db.view_commit_limit == 0,
        forall|i: int| 0 <= i < db.trees.len() ==> (#[trigger] db.trees[i]).records.len() == 0,
    ensures
        counted(db),
{
    lemma_no_records_no_highs(start_points(unrecovered(db.trees)));
}

proof fn lemma_no_records_no_highs(points: Seq<TreePoint>)
    requires
        forall|i: int|
            0 <= i < points.len() ==> (#[trigger] points[i]).remaining.len() == 0
                && points[i].replayer.max_batch is None && points[i].replayer.max_batch_commit is None,
    ensures
        max_batch_in_trees(points) is None,
        max_batch_commit_in_trees(points) is None,
    decreases points.len(),
{
    if points.len() > 0 {
        assert(points.last() == points[points.len() - 1]);
        assert forall|i: int| 0 <= i < points.drop_last().len() implies (
        #[trigger] points.drop_last()[i]).remaining.len() == 0
            && points.drop_last()[i].replayer.max_batch is None
            && points.drop_last()[i].replayer.max_batch_commit is None by {
            assert(points.drop_last()[i] == points[i]);
        }
        lemma_no_records_no_highs(points.drop_last());
    }
}

} // verus!
