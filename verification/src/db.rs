//! The database: named trees that share one commit clock, write batches
//! that commit in all trees at once, and read views that see the trees as
//! they stood at one commit limit.

use vstd::prelude::*;
use crate::batch_player::{
    IndexOpView,
    Step,
    legal,
    lemma_played_bounded,
    lemma_terminated,
    played,
    rejection,
    replayed,
    terminator_from,
    unended,
};
use crate::command::{Command, CommandView};
use crate::commit_log::{CommitCommand, CommitLog};
use crate::index::{
    BatchIdx,
    Entry,
    IndexView,
    RangeDeleteView,
    ReadValue,
    first_visible,
    last_visible,
    later,
    latest_range_delete,
    new_index,
};
use crate::loader::{DbInitState, LoadError, commits_counted, load, loaded, tree_views};
use crate::log::Log;
use crate::log_file::{LogError, LogFile, has_record, lemma_push_record, ordered};
use crate::mem_log_file::{MemLogFile, create};
use crate::recovery::{
    lemma_closed_keeps_recoverable,
    lemma_commit_keeps_recoverable,
    lemma_failed_commit_keeps_recoverable,
    lemma_failed_opening_keeps_recoverable,
    lemma_given_up_keeps_recoverable,
    lemma_logged_upto_keeps_recoverable,
    lemma_logged_in_tree_keeps_recoverable,
    lemma_logged_keeps_recoverable,
    lemma_later_records_keep_restorable,
    lemma_new_is_recoverable,
    lemma_recoverable_is_restorable,
    lemma_recovered_is_recoverable,
    lemma_recovery_restores,
    lemma_restart_changes_nothing,
    at_rest,
    counted,
    recoverable,
    restorable,
    unrecovered,
};
use crate::tree::{
    BatchWriter,
    Tree,
    TreeError,
    TreeView,
    apply_ops,
    can_commit,
    committed,
    is_listing,
    is_prefix,
    lemma_apply_ops_frame,
    lemma_commit_unseen,
    lemma_nothing_above_watermark,
    lemma_tree_keeps,
    lemma_untouched_key,
    pairs_view,
    stored_value,
    touches,
    tree_keeps,
};
use crate::types::{Address, Batch, BatchCommit, Commit, Key, Value, key_le};

verus! {

/// Where a database lives and which trees it has.
#[derive(Clone, Debug, PartialEq, Eq)]
pub struct DbConfig {
    /// The directory of the logs; `None` for a database in memory.
    pub dir: Option<String>,
    /// The names of the trees.
    pub trees: Vec<String>,
}

/// Why the database could not do what was asked.
#[derive(Clone, Debug, PartialEq, Eq)]
pub enum DbError {
    /// There are not as many tree logs as tree names.
    LogCountMismatch,
    /// A tree has the name that is kept for the commit log.
    ReservedTreeName,
    /// Two trees have one name.
    DuplicateTreeName,
    /// The database has no tree of that name.
    UnknownTree,
    /// The tree with this number failed.
    Tree { tree: usize, error: TreeError },
    /// The commit log failed.
    CommitLog(LogError),
    /// The logs could not be recovered.
    Load(LoadError),
    /// A counter has reached the last number that it can take.
    CounterOverflow,
    /// An operation of the batch has reached some trees and not others.
    BatchUnusable,
    /// A commit of the batch was tried before: the batch was committed, or
    /// the attempt failed or was given up.
    BatchEnded,
    /// The read view was not taken from this database.
    ViewAhead,
    /// The configuration names a directory, and this database keeps its
    /// logs in memory.
    NotInMemory,
}

/// What a database holds.
pub struct DbView {
    /// The database was recovered from its logs.
    pub initialized: bool,
    pub names: Seq<Seq<char>>,
    pub trees: Seq<TreeView>,
    /// The records of the commit log, oldest first.
    pub commits: Seq<(Address, CommitCommand)>,
    pub next_batch: u64,
    pub next_batch_commit: u64,
    pub next_commit: u64,
    /// The commit limit of the read views that are taken now: one above
    /// the last commit.
    pub view_commit_limit: u64,
}

/// No tree has the name of the commit log, and no two trees have one name.
pub open spec fn valid_names(names: Seq<Seq<char>>) -> bool {
    &&& forall|i: int| 0 <= i < names.len() ==> #[trigger] names[i] != "commits"@
    &&& forall|i: int, j: int| 0 <= i < j < names.len() ==> #[trigger] names[i] != #[trigger] names[j]
}

/// What is wrong with the tree names, or with the number of logs for them.
pub open spec fn config_error(names: Seq<Seq<char>>, logs: nat) -> Option<DbError> {
    if logs != names.len() {
        Some(DbError::LogCountMismatch)
    } else if exists|i: int| 0 <= i < names.len() && #[trigger] names[i] == "commits"@ {
        Some(DbError::ReservedTreeName)
    } else if exists|i: int, j: int|
        0 <= i < j < names.len() && #[trigger] names[i] == #[trigger] names[j] {
        Some(DbError::DuplicateTreeName)
    } else {
        None
    }
}

impl DbView {
    /// The number of the tree called `name`, if there is one.
    pub open spec fn tree_number(self, name: Seq<char>) -> Option<int> {
        if exists|i: int| 0 <= i < self.names.len() && #[trigger] self.names[i] == name {
            Some(choose|i: int| 0 <= i < self.names.len() && #[trigger] self.names[i] == name)
        } else {
            None
        }
    }

    /// What holds of every database: its trees have names of their own,
    /// and once it is recovered, every tree is, no commit is half written,
    /// the index of every tree is complete up to the commit limit of the
    /// views, every open batch has a number that was handed out, and the
    /// counters of commits go by the commit log.
    pub open spec fn inv(self) -> bool {
        &&& self.names.len() == self.trees.len()
        &&& valid_names(self.names)
        &&& self.view_commit_limit <= self.next_commit
        &&& forall|i: int|
            0 <= i < self.trees.len() ==> {
                &&& (#[trigger] self.trees[i]).initialized == self.initialized
                &&& self.trees[i].index.writing is None
                &&& self.trees[i].index.watermark == self.view_commit_limit
                &&& forall|b: Batch| #[trigger]
                    self.trees[i].batches.contains_key(b) ==> b.0 < self.next_batch
            }
        &&& !self.initialized ==> self.view_commit_limit == 0 && self.next_batch == 0
        &&& self.initialized ==> commits_counted(
            self.commits,
            self.next_commit,
            self.view_commit_limit,
        )
    }

    /// The database is in order, and so is every tree of it: its index,
    /// the addresses of its log, and what the index says of the log.
    pub open spec fn valid(self) -> bool {
        &&& self.inv()
        &&& forall|i: int|
            0 <= i < self.trees.len() ==> (#[trigger] self.trees[i]).index.inv() && ordered(
                self.trees[i].records,
            ) && self.trees[i].sound()
    }

    /// The value that a reader with `limit` sees under `key` in the tree
    /// with number `tree`.
    pub open spec fn value(self, tree: int, limit: Commit, key: Seq<u8>) -> Option<Seq<u8>> {
        self.trees[tree].value(limit, key)
    }

    /// `after` differs from this database in its trees at most.
    pub open spec fn same_but_trees(self, after: DbView) -> bool {
        &&& after == (DbView { trees: after.trees, ..self })
        &&& after.trees.len() == self.trees.len()
    }
}

pub open spec fn names_view(names: Seq<String>) -> Seq<Seq<char>> {
    Seq::new(names.len(), |i: int| names[i]@)
}

pub struct Db<T: LogFile<Cmd = Command>, C: LogFile<Cmd = CommitCommand>> {
    initialized: bool,
    names: Vec<String>,
    trees: Vec<Tree<T>>,
    commit_log: CommitLog<C>,
    next_batch: u64,
    next_batch_commit: u64,
    next_commit: u64,
    view_commit_limit: u64,
}

impl<T: LogFile<Cmd = Command>, C: LogFile<Cmd = CommitCommand>> View for Db<T, C> {
    type V = DbView;

    closed spec fn view(&self) -> DbView {
        DbView {
            initialized: self.initialized,
            names: names_view(self.names@),
            trees: tree_views(self.trees@),
            commits: self.commit_log.records(),
            next_batch: self.next_batch,
            next_batch_commit: self.next_batch_commit,
            next_commit: self.next_commit,
            view_commit_limit: self.view_commit_limit,
        }
    }
}

fn is_reserved(name: &String) -> (r: bool)
    ensures
        r == (name@ == "commits"@),
{
    let reserved = "commits".to_owned();
    *name == reserved
}

/// What is wrong with the tree names, or with the number of logs for them.
fn check_config(names: &Vec<String>, logs: usize) -> (r: Option<DbError>)
    ensures
        r == config_error(names_view(names@), logs as nat),
        r is None ==> valid_names(names_view(names@)),
{
    let ghost views = names_view(names@);
    if logs != names.len() {
        return Some(DbError::LogCountMismatch);
    }
    let mut i: usize = 0;
    while i < names.len()
        invariant
            i <= names@.len(),
            logs == names@.len(),
            views == names_view(names@),
            forall|k: int| 0 <= k < i ==> #[trigger] views[k] != "commits"@,
        decreases names.len() - i,
    {
        if is_reserved(&names[i]) {
            assert(views[i as int] == "commits"@);
            return Some(DbError::ReservedTreeName);
        }
        i = i + 1;
    }
    let mut j: usize = 0;
    while j < names.len()
        invariant
            j <= names@.len(),
            logs == names@.len(),
            views == names_view(names@),
            forall|k: int| 0 <= k < views.len() ==> #[trigger] views[k] != "commits"@,
            forall|a: int, b: int| 0 <= a < b < j ==> #[trigger] views[a] != #[trigger] views[b],
        decreases names.len() - j,
    {
        let mut k: usize = 0;
        while k < j
            invariant
                k <= j < names@.len(),
                logs == names@.len(),
                views == names_view(names@),
                forall|k: int| 0 <= k < views.len() ==> #[trigger] views[k] != "commits"@,
                forall|a: int| 0 <= a < k ==> #[trigger] views[a] != views[j as int],
            decreases j - k,
        {
            if names[k] == names[j] {
                assert(views[k as int] == views[j as int]);
                return Some(DbError::DuplicateTreeName);
            }
            k = k + 1;
        }
        j = j + 1;
    }
    None
}

impl<T: LogFile<Cmd = Command>, C: LogFile<Cmd = CommitCommand>> Db<T, C> {
    /// The parts of the database are sound and fit together.
    pub closed spec fn wf(&self) -> bool {
        &&& self@.inv()
        &&& self.commit_log.inv()
        &&& forall|i: int| 0 <= i < self.trees@.len() ==> (#[trigger] self.trees@[i]).wf()
    }

    /// No log of the database ever fails on a request that it can answer.
    pub closed spec fn reliable(&self) -> bool {
        &&& self.commit_log.reliable()
        &&& forall|i: int| 0 <= i < self.trees@.len() ==> (#[trigger] self.trees@[i]).reliable()
    }

    pub proof fn lemma_wf(&self)
        requires
            self.wf(),
        ensures
            self@.inv(),
            self@.valid(),
            forall|i: int|
                0 <= i < self@.trees.len() ==> (#[trigger] self@.trees[i]).index.inv() && ordered(
                    self@.trees[i].records,
                ) && self@.trees[i].sound(),
    {
        assert forall|i: int| 0 <= i < self@.trees.len() implies (
        #[trigger] self@.trees[i]).index.inv() && ordered(self@.trees[i].records)
            && self@.trees[i].sound() by {
            assert(self.trees@[i].wf());
            self.trees@[i].lemma_wf();
        }
    }

    /// A database over the logs of its trees and its commit log, not yet
    /// recovered. `tree_logs` holds the log of every tree, in the order of
    /// `names`.
    pub fn new(names: Vec<String>, tree_logs: Vec<Log<T>>, commit_log: Log<C>) -> (r: Result<
        Db<T, C>,
        DbError,
    >)
        requires
            commit_log.inv(),
            forall|i: int| 0 <= i < tree_logs@.len() ==> (#[trigger] tree_logs@[i]).inv(),
        ensures
            match config_error(names_view(names@), tree_logs@.len()) {
                Some(e) => r == Err::<Db<T, C>, DbError>(e),
                None => {
                    &&& r matches Ok(db)
                    &&& db.wf()
                    &&& !db@.initialized
                    &&& db@.names == names_view(names@)
                    &&& db@.trees.len() == names@.len()
                    &&& forall|i: int|
                        0 <= i < db@.trees.len() ==> (#[trigger] db@.trees[i]) == (TreeView {
                            initialized: false,
                            records: tree_logs@[i].records(),
                            batches: Map::empty(),
                            index: new_index(),
                        })
                    &&& db@.commits == commit_log.records()
                    &&& db@.next_batch == 0
                    &&& db@.next_batch_commit == 0
                    &&& db@.next_commit == 0
                    &&& db@.view_commit_limit == 0
                    &&& db.reliable() == (commit_log.reliable() && forall|i: int|
                        0 <= i < tree_logs@.len() ==> (#[trigger] tree_logs@[i]).reliable())
                },
            },
    {
        if let Some(e) = check_config(&names, tree_logs.len()) {
            return Err(e);
        }
        let mut tree_logs = tree_logs;
        let ghost logs = tree_logs@;
        let mut trees: Vec<Tree<T>> = Vec::new();
        while tree_logs.len() > 0
            invariant
                trees@.len() + tree_logs@.len() == logs.len(),
                forall|i: int|
                    0 <= i < tree_logs@.len() ==> (#[trigger] tree_logs@[i]) == logs[trees@.len() + i],
                forall|i: int| 0 <= i < logs.len() ==> (#[trigger] logs[i]).inv(),
                forall|i: int|
                    0 <= i < trees@.len() ==> {
                        &&& (#[trigger] trees@[i]).wf()
                        &&& trees@[i].reliable() == logs[i].reliable()
                        &&& trees@[i]@ == (TreeView {
                            initialized: false,
                            records: logs[i].records(),
                            batches: Map::empty(),
                            index: new_index(),
                        })
                    },
            decreases tree_logs.len(),
        {
            let ghost left = tree_logs@;
            let log = tree_logs.remove(0);
            assert(log == logs[trees@.len() as int]);
            assert forall|i: int| 0 <= i < tree_logs@.len() implies (#[trigger] tree_logs@[i])
                == logs[trees@.len() + 1 + i] by {
                assert(tree_logs@[i] == left[i + 1]);
            }
            trees.push(Tree::new(log));
        }
        let db = Db {
            initialized: false,
            names,
            trees,
            commit_log: CommitLog::new(commit_log),
            next_batch: 0,
            next_batch_commit: 0,
            next_commit: 0,
            view_commit_limit: 0,
        };
        proof {
            assert forall|i: int| 0 <= i < db@.trees.len() implies {
                &&& (#[trigger] db@.trees[i]).initialized == db@.initialized
                &&& db@.trees[i].index.writing is None
                &&& db@.trees[i].index.watermark == db@.view_commit_limit
                &&& forall|b: Batch| #[trigger]
                    db@.trees[i].batches.contains_key(b) ==> b.0 < db@.next_batch
            } by {
                assert(db.trees@[i].wf());
            }
            assert forall|i: int| 0 <= i < db@.trees.len() implies (#[trigger] db@.trees[i])
                == (TreeView {
                initialized: false,
                records: logs[i].records(),
                batches: Map::empty(),
                index: new_index(),
            }) by {
                assert(db.trees@[i].wf());
            }
            assert(db.reliable() == (commit_log.reliable() && forall|i: int|
                0 <= i < logs.len() ==> (#[trigger] logs[i]).reliable())) by {
                if db.reliable() {
                    assert forall|i: int| 0 <= i < logs.len() implies (
                    #[trigger] logs[i]).reliable() by {
                        assert(db.trees@[i].reliable());
                    }
                }
                if commit_log.reliable() && forall|i: int|
                    0 <= i < logs.len() ==> (#[trigger] logs[i]).reliable() {
                    assert forall|i: int| 0 <= i < db.trees@.len() implies (
                    #[trigger] db.trees@[i]).reliable() by {
                        assert(logs[i].reliable());
                    }
                }
            }
        }
        Ok(db)
    }

    /// The number of the tree called `name`.
    pub fn find_tree(&self, name: &str) -> (r: Option<usize>)
        requires
            self.wf(),
        ensures
            match r {
                Some(i) => self@.tree_number(name@) == Some(i as int) && i < self@.trees.len(),
                None => self@.tree_number(name@) is None,
            },
    {
        let wanted = name.to_owned();
        let ghost names = self@.names;
        let mut i: usize = 0;
        while i < self.names.len()
            invariant
                i <= self.names@.len(),
                self.wf(),
                names == self@.names,
                names == names_view(self.names@),
                wanted@ == name@,
                forall|k: int| 0 <= k < i ==> #[trigger] names[k] != name@,
            decreases self.names.len() - i,
        {
            if self.names[i] == wanted {
                proof {
                    assert(names[i as int] == name@);
                    let c = self@.tree_number(name@).unwrap();
                    if c != i {
                        if c < i {
                            assert(names[c] != names[i as int]);
                        } else {
                            assert(names[i as int] != names[c]);
                        }
                    }
                }
                return Some(i);
            }
            i = i + 1;
        }
        None
    }
}


pub open spec fn bytes_view(value: Option<Vec<u8>>) -> Option<Seq<u8>> {
    match value {
        Some(v) => Some(v@),
        None => None,
    }
}

/// What recovery makes of the logs of a database. With an empty commit log
/// there is nothing to recover: the counters start at 0. Otherwise the logs
/// are loaded.
pub open spec fn recovered(commits: Seq<(Address, CommitCommand)>, trees: Seq<TreeView>) -> Result<
    (DbInitState, Seq<IndexView>),
    LoadError,
> {
    if commits.len() == 0 {
        Ok(
            (
                DbInitState {
                    next_batch: Batch(0),
                    next_batch_commit: BatchCommit(0),
                    next_commit: Commit(0),
                },
                Seq::new(trees.len(), |i: int| trees[i].index),
            ),
        )
    } else {
        loaded(commits, trees)
    }
}

/// The first `n` trees have taken `cmd` into their logs and recordings,
/// and the others are as they were.
pub open spec fn logged_upto(
    before: Seq<TreeView>,
    after: Seq<TreeView>,
    cmd: CommandView,
    n: int,
) -> bool {
    &&& after.len() == before.len()
    &&& forall|i: int|
        0 <= i < n && i < before.len() ==> rejection(before[i].batches, cmd) is None && (
        #[trigger] after[i]) == before[i].appended(after[i].records.last().0, cmd)
    &&& forall|i: int| n <= i < before.len() ==> (#[trigger] after[i]) == before[i]
}

/// The tree refused `cmd` with `error`: the recording of the batch did, or
/// the log failed, which a reliable log does not.
pub open spec fn refused(tree: TreeView, reliable: bool, cmd: CommandView, error: TreeError) -> bool {
    match error {
        TreeError::Player(e) => rejection(tree.batches, cmd) == Some(e),
        TreeError::Log(_) => rejection(tree.batches, cmd) is None && !reliable,
        _ => false,
    }
}

/// The indexes of the trees are as they were: no reader sees a change.
pub open spec fn same_indexes(before: Seq<TreeView>, after: Seq<TreeView>) -> bool {
    &&& after.len() == before.len()
    &&& forall|i: int|
        0 <= i < before.len() ==> (#[trigger] after[i]).index == before[i].index
            && after[i].initialized == before[i].initialized
}

impl<T: LogFile<Cmd = Command>, C: LogFile<Cmd = CommitCommand>> Db<T, C> {
    /// Recovers the database from its logs.
    pub fn init(&mut self) -> (r: Result<(), DbError>)
        requires
            old(self).wf(),
            !old(self)@.initialized,
        ensures
            final(self)@.names == old(self)@.names,
            final(self)@.commits == old(self)@.commits,
            final(self)@.trees.len() == old(self)@.trees.len(),
            final(self).reliable() == old(self).reliable(),
            r is Err ==> !final(self)@.initialized && forall|i: int|
                0 <= i < final(self)@.trees.len() ==> !(#[trigger] final(self)@.trees[i]).initialized,
            r is Ok && old(self)@.commits.len() == 0 && (forall|i: int|
                0 <= i < old(self)@.trees.len() ==> (#[trigger] old(self)@.trees[i])
                    == unrecovered(old(self)@.trees)[i] && old(self)@.trees[i].records.len() == 0)
                ==> recoverable(final(self)@),
            match r {
                Ok(()) => {
                    &&& final(self).wf()
                    &&& final(self)@.initialized
                    &&& recovered(old(self)@.commits, old(self)@.trees) matches Ok((state, indexes))
                    &&& final(self)@.next_batch == state.next_batch.0
                    &&& final(self)@.next_batch_commit == state.next_batch_commit.0
                    &&& final(self)@.next_commit == state.next_commit.0
                    &&& final(self)@.view_commit_limit == state.next_commit.0
                    &&& forall|i: int|
                        0 <= i < old(self)@.trees.len() ==> (#[trigger] final(self)@.trees[i])
                            == (TreeView {
                            initialized: true,
                            index: indexes[i],
                            ..old(self)@.trees[i]
                        })
                },
                Err(DbError::CommitLog(_)) => !old(self).reliable(),
                Err(DbError::Load(LoadError::CommitLog(_))) => !old(self).reliable(),
                Err(DbError::Load(LoadError::Tree { error: TreeError::Log(_), .. })) => !old(self).reliable(),
                Err(DbError::Load(e)) => recovered(old(self)@.commits, old(self)@.trees) == Err::<
                    (DbInitState, Seq<IndexView>),
                    LoadError,
                >(e),
                Err(_) => false,
            },
    {
        let ghost before = self@;
        let ghost trees_before = self.trees@;
        assert(tree_views(trees_before) == before.trees);
        assert forall|i: int| 0 <= i < self.trees@.len() implies {
            &&& (#[trigger] self.trees@[i]).wf()
            &&& !self.trees@[i]@.initialized
            &&& self.trees@[i]@.index.watermark == 0
        } by {
            assert(before.trees[i] == self.trees@[i]@);
        }
        let empty = match self.commit_log.is_empty() {
            Ok(empty) => empty,
            Err(e) => {
                return Err(DbError::CommitLog(e));
            },
        };
        if empty {
            let mut k: usize = 0;
            while k < self.trees.len()
                invariant
                    k <= self.trees@.len(),
                    self.trees@.len() == trees_before.len(),
                    forall|i: int|
                        0 <= i < self.trees@.len() ==> {
                            &&& (#[trigger] self.trees@[i]).wf()
                            &&& self.trees@[i].reliable() == trees_before[i].reliable()
                            &&& self.trees@[i]@ == (TreeView {
                                initialized: i < k,
                                ..trees_before[i]@
                            })
                        },
                    self.names == old(self).names,
                    self.commit_log == old(self).commit_log,
                    self.next_batch == old(self).next_batch,
                    self.next_batch_commit == old(self).next_batch_commit,
                    self.next_commit == old(self).next_commit,
                    self.view_commit_limit == old(self).view_commit_limit,
                    self.initialized == old(self).initialized,
                decreases self.trees.len() - k,
            {
                let ghost trees_now = self.trees@;
                self.trees[k].skip_init();
                proof {
                    assert forall|i: int| 0 <= i < self.trees@.len() implies {
                        &&& (#[trigger] self.trees@[i]).wf()
                        &&& self.trees@[i].reliable() == trees_before[i].reliable()
                        &&& self.trees@[i]@ == (TreeView {
                            initialized: i < k + 1,
                            ..trees_before[i]@
                        })
                    } by {
                        if i != k {
                            assert(self.trees@[i] == trees_now[i]);
                        }
                    }
                }
                k = k + 1;
            }
            self.next_batch = 0;
            self.next_batch_commit = 0;
            self.next_commit = 0;
            self.view_commit_limit = 0;
            self.initialized = true;
            proof {
                assert forall|i: int| 0 <= i < before.trees.len() implies (
                #[trigger] self@.trees[i]) == (TreeView {
                    initialized: true,
                    index: before.trees[i].index,
                    ..before.trees[i]
                }) by {
                    assert(self.trees@[i].wf());
                    assert(before.trees[i] == trees_before[i]@);
                }
                assert forall|i: int| 0 <= i < self@.trees.len() implies {
                    &&& (#[trigger] self@.trees[i]).initialized == self@.initialized
                    &&& self@.trees[i].index.writing is None
                    &&& self@.trees[i].index.watermark == self@.view_commit_limit
                    &&& forall|b: Batch| #[trigger]
                        self@.trees[i].batches.contains_key(b) ==> b.0 < self@.next_batch
                } by {
                    assert(self.trees@[i].wf());
                    assert(before.trees[i] == trees_before[i]@);
                    assert forall|b: Batch| #[trigger]
                        before.trees[i].batches.contains_key(b) implies false by {
                        assert(b.0 < before.next_batch);
                    }
                }
                assert(self.reliable() == old(self).reliable()) by {
                    if old(self).reliable() {
                        assert forall|i: int| 0 <= i < self.trees@.len() implies (
                        #[trigger] self.trees@[i]).reliable() by {
                            assert(trees_before[i].reliable());
                        }
                    }
                    if self.reliable() {
                        assert forall|i: int| 0 <= i < trees_before.len() implies (
                        #[trigger] trees_before[i]).reliable() by {
                            assert(self.trees@[i].reliable());
                        }
                    }
                }
                if forall|i: int|
                    0 <= i < before.trees.len() ==> (#[trigger] before.trees[i]) == unrecovered(
                        before.trees,
                    )[i] && before.trees[i].records.len() == 0 {
                    assert forall|i: int| 0 <= i < self@.trees.len() implies (
                    #[trigger] self@.trees[i]).records.len() == 0 && self@.trees[i].batches
                        == Map::<Batch, Seq<Step>>::empty() && self@.trees[i].index
                        == new_index() by {
                        assert(before.trees[i] == unrecovered(before.trees)[i]);
                    }
                    lemma_new_is_recoverable(self@);
                }
            }
            return Ok(());
        }
        let loaded = load(&self.commit_log, &mut self.trees);
        proof {
            assert(self.reliable() == old(self).reliable()) by {
                if old(self).reliable() {
                    assert forall|i: int| 0 <= i < self.trees@.len() implies (
                    #[trigger] self.trees@[i]).reliable() by {
                        assert(trees_before[i].reliable());
                    }
                }
                if self.reliable() {
                    assert forall|i: int| 0 <= i < trees_before.len() implies (
                    #[trigger] trees_before[i]).reliable() by {
                        assert(self.trees@[i].reliable());
                    }
                }
            }
        }
        match loaded {
            Err(e) => {
                proof {
                    if e matches LoadError::Tree { error: TreeError::Log(_), .. } {
                        assert(!trees_before[e->tree as int].reliable());
                    }
                }
                Err(DbError::Load(e))
            },
            Ok(state) => {
                self.next_batch = state.next_batch.0;
                self.next_batch_commit = state.next_batch_commit.0;
                self.next_commit = state.next_commit.0;
                self.view_commit_limit = state.next_commit.0;
                self.initialized = true;
                proof {
                    crate::loader::lemma_loaded_counts(before.commits, before.trees);
                    let indexes = Seq::new(self.trees@.len(), |i: int| self.trees@[i]@.index);
                    assert forall|i: int| 0 <= i < before.trees.len() implies (
                    #[trigger] self@.trees[i]) == (TreeView {
                        initialized: true,
                        index: indexes[i],
                        ..before.trees[i]
                    }) by {
                        assert(self.trees@[i].wf());
                        assert(before.trees[i] == trees_before[i]@);
                    }
                    assert forall|i: int| 0 <= i < self@.trees.len() implies {
                        &&& (#[trigger] self@.trees[i]).initialized == self@.initialized
                        &&& self@.trees[i].index.writing is None
                        &&& self@.trees[i].index.watermark == self@.view_commit_limit
                        &&& forall|b: Batch| #[trigger]
                            self@.trees[i].batches.contains_key(b) ==> b.0 < self@.next_batch
                    } by {
                        assert(self.trees@[i].wf());
                        self.trees@[i].lemma_wf();
                        assert(before.trees[i] == trees_before[i]@);
                        assert forall|b: Batch| #[trigger]
                            before.trees[i].batches.contains_key(b) implies false by {
                            assert(b.0 < before.next_batch);
                        }
                    }
                }
                Ok(())
            },
        }
    }

    /// Gives the logs back: those of the trees in their order, and the
    /// commit log.
    pub fn into_logs(self) -> (logs: (Vec<Log<T>>, Log<C>))
        requires
            self.wf(),
        ensures
            logs.0@.len() == self@.trees.len(),
            forall|i: int|
                0 <= i < logs.0@.len() ==> (#[trigger] logs.0@[i]).inv() && logs.0@[i].records()
                    == self@.trees[i].records,
            logs.1.inv(),
            logs.1.records() == self@.commits,
    {
        let mut trees = self.trees;
        let ghost all = trees@;
        let mut logs: Vec<Log<T>> = Vec::new();
        while trees.len() > 0
            invariant
                logs@.len() + trees@.len() == all.len(),
                forall|i: int| 0 <= i < all.len() ==> (#[trigger] all[i]).wf(),
                forall|i: int| 0 <= i < trees@.len() ==> (#[trigger] trees@[i]) == all[logs@.len() + i],
                forall|i: int|
                    0 <= i < logs@.len() ==> (#[trigger] logs@[i]).inv() && logs@[i].records()
                        == all[i]@.records,
            decreases trees.len(),
        {
            let ghost left = trees@;
            let tree = trees.remove(0);
            assert(tree == all[logs@.len() as int]);
            assert forall|i: int| 0 <= i < trees@.len() implies (#[trigger] trees@[i]) == all[logs@.len()
                + 1 + i] by {
                assert(trees@[i] == left[i + 1]);
            }
            logs.push(tree.into_log());
        }
        (logs, self.commit_log.into_log())
    }

    /// Closes the database and opens it again from its logs, as after a
    /// crash. A database that is restorable shows again what it showed:
    /// every tree has the index that it had, with the records that its log
    /// held, and the views have the commit limit that they had. With
    /// reliable logs the opening fails only where a counter is used up.
    /// A database that is recoverable and has committed at least once is
    /// recoverable again. A database at rest, one in which no batch is
    /// open, that has committed at least once and whose counters stand
    /// right above what its logs hold comes back as it was: whatever is
    /// done with it afterwards comes out as it would have without the
    /// restart.
    pub fn reopen(self) -> (r: Result<Db<T, C>, DbError>)
        requires
            self.wf(),
        ensures
            match r {
                Ok(db) => {
                    &&& db.wf()
                    &&& db@.initialized
                    &&& db@.names == self@.names
                    &&& db@.commits == self@.commits
                    &&& db@.trees.len() == self@.trees.len()
                    &&& forall|i: int|
                        0 <= i < db@.trees.len() ==> (#[trigger] db@.trees[i]).records
                            == self@.trees[i].records
                    &&& restorable(self@) ==> db@.view_commit_limit == self@.view_commit_limit
                        && forall|i: int|
                        0 <= i < db@.trees.len() ==> (#[trigger] db@.trees[i]).index
                            == self@.trees[i].index
                    &&& restorable(self@) ==> restorable(db@)
                    &&& recoverable(self@) ==> restorable(self@)
                    &&& recoverable(self@) && self@.commits.len() > 0 ==> recoverable(db@)
                    &&& restorable(self@) && counted(self@) && at_rest(self@) && self@.initialized
                        && self@.commits.len() > 0 ==> db@ == self@
                },
                Err(DbError::CommitLog(_)) => !self.reliable(),
                Err(DbError::Load(LoadError::CommitLog(_))) => !self.reliable(),
                Err(DbError::Load(LoadError::Tree { error: TreeError::Log(_), .. })) => !self.reliable(),
                Err(DbError::Load(e)) => recovered(self@.commits, unrecovered(self@.trees)) == Err::<
                    (DbInitState, Seq<IndexView>),
                    LoadError,
                >(e),
                Err(_) => false,
            },
            restorable(self@) && self.reliable() ==> r is Ok || r == Err::<Db<T, C>, DbError>(
                DbError::Load(LoadError::CounterOverflow),
            ),
    {
        let ghost before = self@;
        proof {
            self.lemma_wf();
        }
        let ghost was_reliable = self.reliable();
        let ghost old_trees = self.trees@;
        proof {
            assert(before.trees == tree_views(old_trees));
        }
        let Db { names, trees, commit_log, .. } = self;
        let mut trees = trees;
        let mut logs: Vec<Log<T>> = Vec::new();
        while trees.len() > 0
            invariant
                logs@.len() + trees@.len() == old_trees.len(),
                forall|i: int| 0 <= i < old_trees.len() ==> (#[trigger] old_trees[i]).wf(),
                forall|i: int|
                    0 <= i < trees@.len() ==> (#[trigger] trees@[i]) == old_trees[logs@.len() + i],
                forall|i: int|
                    0 <= i < logs@.len() ==> (#[trigger] logs@[i]).inv() && logs@[i].records()
                        == old_trees[i]@.records && logs@[i].reliable() == old_trees[i].reliable(),
            decreases trees.len(),
        {
            let ghost left = trees@;
            let tree = trees.remove(0);
            assert(tree == old_trees[logs@.len() as int]);
            assert forall|i: int| 0 <= i < trees@.len() implies (#[trigger] trees@[i])
                == old_trees[logs@.len() + 1 + i] by {
                assert(trees@[i] == left[i + 1]);
            }
            logs.push(tree.into_log());
        }
        let commit_log = commit_log.into_log();
        proof {
            assert(valid_names(names_view(names@)));
            assert(config_error(names_view(names@), logs@.len()) is None);
        }
        let mut db = match Db::new(names, logs, commit_log) {
            Ok(db) => db,
            Err(e) => {
                return Err(e);
            },
        };
        let ghost fresh = db@;
        proof {
            assert(fresh.trees =~= unrecovered(before.trees)) by {
                assert forall|i: int| 0 <= i < fresh.trees.len() implies fresh.trees[i]
                    == unrecovered(before.trees)[i] by {
                    assert(before.trees[i] == old_trees[i]@);
                }
            }
            assert(db.reliable() == was_reliable) by {
                if was_reliable {
                    assert forall|i: int| 0 <= i < logs@.len() implies (
                    #[trigger] logs@[i]).reliable() by {
                        assert(old_trees[i].reliable());
                    }
                }
                if db.reliable() {
                    assert forall|i: int| 0 <= i < old_trees.len() implies (
                    #[trigger] old_trees[i]).reliable() by {
                        assert(logs@[i].reliable());
                    }
                }
            }
            if recoverable(before) {
                lemma_recoverable_is_restorable(before);
            }
            if restorable(before) {
                lemma_recovery_restores(before);
            }
        }
        match db.init() {
            Ok(()) => {
                proof {
                    if recoverable(before) && before.commits.len() > 0 {
                        lemma_recovered_is_recoverable(before, db@);
                    }
                    if restorable(before) && counted(before) && at_rest(before) && before.initialized
                        && before.commits.len() > 0 {
                        lemma_restart_changes_nothing(before, db@);
                    }
                    if restorable(before) {
                        assert forall|i: int| 0 <= i < before.trees.len() implies (
                        #[trigger] db@.trees[i]).index == before.trees[i].index && is_prefix(
                            before.trees[i].records,
                            db@.trees[i].records,
                        ) by {
                            assert(db@.trees[i].records.take(before.trees[i].records.len() as int)
                                =~= before.trees[i].records);
                        }
                        lemma_later_records_keep_restorable(before, db@);
                    }
                }
                Ok(db)
            },
            Err(e) => Err(e),
        }
    }

    /// A view of the database as it stands now.
    pub fn read_view(&self) -> (view: ReadView)
        requires
            self@.initialized,
        ensures
            view.commit_limit() == Commit(self@.view_commit_limit),
    {
        ReadView { commit_limit: Commit(self.view_commit_limit) }
    }

    /// The commit limit of the views that are taken now.
    pub fn view_commit_limit(&self) -> (limit: Commit)
        ensures
            limit == Commit(self@.view_commit_limit),
    {
        Commit(self.view_commit_limit)
    }

    /// Whether the database was recovered.
    pub fn initialized(&self) -> (r: bool)
        ensures
            r == self@.initialized,
    {
        self.initialized
    }

    /// How many of the records of the log of the tree with number `tree`,
    /// from the first on, are durable.
    pub closed spec fn durable_records(&self, tree: int) -> nat {
        self.trees@[tree].durable()
    }

    /// How many of the records of the commit log, from the first on, are
    /// durable.
    pub closed spec fn durable_commits(&self) -> nat {
        self.commit_log.durable()
    }

    /// Makes every record of every log durable: those of the trees in
    /// their order, then those of the commit log. The first log that fails
    /// ends it. Nothing that the database shows is changed.
    pub fn sync(&mut self) -> (r: Result<(), DbError>)
        requires
            old(self).wf(),
        ensures
            final(self).wf(),
            final(self)@ == old(self)@,
            final(self).reliable() == old(self).reliable(),
            old(self).durable_commits() <= final(self).durable_commits() <= final(self)@.commits.len(),
            forall|i: int|
                0 <= i < final(self)@.trees.len() ==> old(self).durable_records(i) <= (
                #[trigger] final(self).durable_records(i)) <= final(self)@.trees[i].records.len(),
            match r {
                Ok(()) => {
                    &&& final(self).durable_commits() == final(self)@.commits.len()
                    &&& forall|i: int|
                        0 <= i < final(self)@.trees.len() ==> (#[trigger] final(self).durable_records(i)) == final(self)@.trees[i].records.len()
                },
                Err(DbError::Tree { tree, error }) => tree < old(self)@.trees.len() && error is Log
                    && !old(self).reliable(),
                Err(DbError::CommitLog(_)) => !old(self).reliable(),
                Err(_) => false,
            },
    {
        let ghost before = self@;
        let ghost trees_before = self.trees@;
        let mut i: usize = 0;
        let mut failed: Option<(usize, TreeError)> = None;
        proof {
            self.commit_log.lemma_durable();
            assert forall|k: int| 0 <= k < self.trees@.len() implies (
            #[trigger] self.trees@[k]).durable() <= self.trees@[k]@.records.len() by {
                assert(self.trees@[k].wf());
                self.trees@[k].lemma_wf();
            }
        }
        while i < self.trees.len() && failed.is_none()
            invariant
                old(self).wf(),
                before == old(self)@,
                trees_before == old(self).trees@,
                i <= self.trees@.len(),
                self.trees@.len() == trees_before.len(),
                self.names == old(self).names,
                self.commit_log == old(self).commit_log,
                self.commit_log.durable() <= self.commit_log.records().len(),
                self.next_batch == old(self).next_batch,
                self.next_batch_commit == old(self).next_batch_commit,
                self.next_commit == old(self).next_commit,
                self.view_commit_limit == old(self).view_commit_limit,
                self.initialized == old(self).initialized,
                forall|k: int|
                    0 <= k < self.trees@.len() ==> {
                        &&& (#[trigger] self.trees@[k]).wf()
                        &&& self.trees@[k].reliable() == trees_before[k].reliable()
                        &&& self.trees@[k]@ == trees_before[k]@
                        &&& trees_before[k].durable() <= self.trees@[k].durable()
                            <= self.trees@[k]@.records.len()
                    },
                match failed {
                    None => forall|k: int|
                        0 <= k < i ==> (#[trigger] self.trees@[k]).durable()
                            == self.trees@[k]@.records.len(),
                    Some((tree, error)) => tree < trees_before.len() && error is Log
                        && !trees_before[tree as int].reliable(),
                },
            decreases
                    (if failed is None {
                        self.trees.len() - i + 1
                    } else {
                        0
                    }),
        {
            let ghost trees_now = self.trees@;
            assert(trees_now[i as int].wf());
            let synced = self.trees[i].sync();
            proof {
                assert forall|k: int| 0 <= k < self.trees@.len() implies {
                    &&& (#[trigger] self.trees@[k]).wf()
                    &&& self.trees@[k].reliable() == trees_before[k].reliable()
                    &&& self.trees@[k]@ == trees_before[k]@
                    &&& trees_before[k].durable() <= self.trees@[k].durable()
                        <= self.trees@[k]@.records.len()
                } by {
                    if k != i {
                        assert(self.trees@[k] == trees_now[k]);
                    }
                }
            }
            match synced {
                Ok(()) => {
                    proof {
                        assert forall|k: int| 0 <= k < i + 1 implies (
                        #[trigger] self.trees@[k]).durable() == self.trees@[k]@.records.len() by {
                            if k != i {
                                assert(self.trees@[k] == trees_now[k]);
                            }
                        }
                    }
                    i = i + 1;
                },
                Err(e) => {
                    failed = Some((i, e));
                },
            }
        }
        proof {
            assert(self@.trees =~= before.trees);
            assert(self@ == before);
            assert(self.reliable() == old(self).reliable()) by {
                if old(self).reliable() {
                    assert forall|k: int| 0 <= k < self.trees@.len() implies (
                    #[trigger] self.trees@[k]).reliable() by {
                        assert(trees_before[k].reliable());
                    }
                }
                if self.reliable() {
                    assert forall|k: int| 0 <= k < trees_before.len() implies (
                    #[trigger] trees_before[k]).reliable() by {
                        assert(self.trees@[k].reliable());
                    }
                }
            }
            assert forall|k: int| 0 <= k < self@.trees.len() implies old(self).durable_records(k) <= (
            #[trigger] self.durable_records(k)) <= self@.trees[k].records.len() by {
                assert(self.trees@[k].wf());
            }
        }
        if let Some((tree, error)) = failed {
            proof {
                if old(self).reliable() {
                    assert(trees_before[tree as int].reliable());
                }
            }
            return Err(DbError::Tree { tree, error });
        }
        let synced = self.commit_log.sync();
        proof {
            assert(self@ == before);
            assert forall|k: int| 0 <= k < self@.trees.len() implies (#[trigger] self.durable_records(
                k,
            )) == self@.trees[k].records.len() by {
                assert(self.trees@[k].durable() == self.trees@[k]@.records.len());
            }
        }
        match synced {
            Ok(()) => Ok(()),
            Err(e) => Err(DbError::CommitLog(e)),
        }
    }

    /// Appends `cmd` to the log of every tree, in the order of the trees,
    /// up to the first tree that refuses it.
    fn append_all(&mut self, cmd: &Command) -> (r: Result<(), (usize, TreeError)>)
        requires
            old(self).wf(),
            old(self)@.initialized,
            cmd@ is Open ==> cmd@.batch().0 < old(self)@.next_batch,
        ensures
            final(self).wf(),
            final(self).reliable() == old(self).reliable(),
            old(self)@.same_but_trees(final(self)@),
            same_indexes(old(self)@.trees, final(self)@.trees),
            same_views(old(self)@, final(self)@),
            match r {
                Ok(()) => logged_upto(
                    old(self)@.trees,
                    final(self)@.trees,
                    cmd@,
                    old(self)@.trees.len() as int,
                ),
                Err((tree, error)) => {
                    &&& tree < old(self)@.trees.len()
                    &&& logged_upto(old(self)@.trees, final(self)@.trees, cmd@, tree as int)
                    &&& refused(old(self)@.trees[tree as int], old(self).reliable(), cmd@, error)
                },
            },
    {
        let ghost before = self@;
        let ghost trees_before = self.trees@;
        let mut j: usize = 0;
        let mut failed: Option<(usize, TreeError)> = None;
        while j < self.trees.len() && failed.is_none()
            invariant
                old(self).wf(),
                before == old(self)@,
                trees_before == old(self).trees@,
                cmd@ is Open ==> cmd@.batch().0 < before.next_batch,
                j <= self.trees@.len(),
                self.trees@.len() == trees_before.len(),
                self.names == old(self).names,
                self.commit_log == old(self).commit_log,
                self.next_batch == old(self).next_batch,
                self.next_batch_commit == old(self).next_batch_commit,
                self.next_commit == old(self).next_commit,
                self.view_commit_limit == old(self).view_commit_limit,
                self.initialized == old(self).initialized,
                forall|i: int|
                    0 <= i < self.trees@.len() ==> {
                        &&& (#[trigger] self.trees@[i]).wf()
                        &&& self.trees@[i].reliable() == trees_before[i].reliable()
                    },
                match failed {
                    None => logged_upto(before.trees, tree_views(self.trees@), cmd@, j as int),
                    Some((tree, error)) => {
                        &&& tree < trees_before.len()
                        &&& logged_upto(before.trees, tree_views(self.trees@), cmd@, tree as int)
                        &&& refused(before.trees[tree as int], old(self).reliable(), cmd@, error)
                    },
                },
            decreases
                    (if failed is None {
                        self.trees.len() - j + 1
                    } else {
                        0
                    }),
        {
            let ghost trees_now = self.trees@;
            assert(trees_now[j as int].wf());
            assert(before.trees[j as int] == trees_before[j as int]@);
            assert(tree_views(trees_now)[j as int] == before.trees[j as int]);
            let writer = BatchWriter::for_batch(cmd.batch());
            let r = writer.append_record(&mut self.trees[j], cmd.duplicate());
            proof {
                assert forall|i: int| 0 <= i < self.trees@.len() implies {
                    &&& (#[trigger] self.trees@[i]).wf()
                    &&& self.trees@[i].reliable() == trees_before[i].reliable()
                } by {
                    if i != j {
                        assert(self.trees@[i] == trees_now[i]);
                    }
                }
                let views_now = tree_views(trees_now);
                let views = tree_views(self.trees@);
                assert forall|i: int| 0 <= i < views.len() && i != j implies #[trigger] views[i]
                    == views_now[i] by {
                    assert(self.trees@[i] == trees_now[i]);
                }
            }
            match r {
                Ok(()) => {
                    j = j + 1;
                },
                Err(e) => {
                    proof {
                        if e is Log {
                            assert(!trees_before[j as int].reliable());
                        }
                    }
                    failed = Some((j, e));
                },
            }
        }
        proof {
            let after = self@;
            assert(after.trees.len() == before.trees.len());
            assert forall|i: int| 0 <= i < before.trees.len() implies (#[trigger] after.trees[i]).index
                == before.trees[i].index && after.trees[i].initialized
                == before.trees[i].initialized && (forall|b: Batch| #[trigger]
                after.trees[i].batches.contains_key(b) ==> b.0 < after.next_batch) by {
                assert(before.trees[i].initialized == before.initialized);
                assert forall|b: Batch| #[trigger]
                    before.trees[i].batches.contains_key(b) implies b.0 < before.next_batch by {}
            }
            assert(before.same_but_trees(after));
            assert(self.reliable() == old(self).reliable()) by {
                if old(self).reliable() {
                    assert forall|i: int| 0 <= i < self.trees@.len() implies (
                    #[trigger] self.trees@[i]).reliable() by {
                        assert(trees_before[i].reliable());
                    }
                }
                if self.reliable() {
                    assert forall|i: int| 0 <= i < trees_before.len() implies (
                    #[trigger] trees_before[i]).reliable() by {
                        assert(self.trees@[i].reliable());
                    }
                }
            }
            old(self).lemma_wf();
            self.lemma_wf();
            assert forall|i: int| 0 <= i < before.trees.len() implies is_prefix(
                before.trees[i].records,
                (#[trigger] after.trees[i]).records,
            ) by {
                assert(after.trees[i].records.take(before.trees[i].records.len() as int)
                    =~= before.trees[i].records);
            }
            lemma_logs_grown(before, after);
        }
        match failed {
            None => Ok(()),
            Some(f) => Err(f),
        }
    }
}

/// A view of a database at one commit limit.
#[derive(Clone, Copy, Debug, PartialEq, Eq, Structural)]
pub struct ReadView {
    commit_limit: Commit,
}

impl ReadView {
    /// The commit limit of the view: it sees the commits below it.
    pub closed spec fn commit_limit(&self) -> Commit {
        self.commit_limit
    }
}


impl Db<MemLogFile<Command>, MemLogFile<CommitCommand>> {
    /// Opens a new database in memory with the trees that `config` names.
    /// A configuration with a directory is for a database over files,
    /// which is opened with `new` over the logs in those files.
    pub fn open(config: DbConfig) -> (r: Result<
        Db<MemLogFile<Command>, MemLogFile<CommitCommand>>,
        DbError,
    >)
        ensures
            match r {
                Ok(db) => {
                    &&& config.dir is None
                    &&& config_error(names_view(config.trees@), config.trees@.len()) is None
                    &&& db.wf()
                    &&& db.reliable()
                    &&& recoverable(db@)
                    &&& db@.initialized
                    &&& db@.names == names_view(config.trees@)
                    &&& db@.trees.len() == config.trees@.len()
                    &&& db@.commits.len() == 0
                    &&& db@.next_batch == 0
                    &&& db@.next_batch_commit == 0
                    &&& db@.next_commit == 0
                    &&& db@.view_commit_limit == 0
                    &&& forall|i: int|
                        0 <= i < db@.trees.len() ==> (#[trigger] db@.trees[i]) == (TreeView {
                            initialized: true,
                            records: Seq::empty(),
                            batches: Map::empty(),
                            index: new_index(),
                        })
                },
                Err(e) => if config.dir is Some {
                    e == DbError::NotInMemory
                } else {
                    config_error(names_view(config.trees@), config.trees@.len()) == Some(e)
                },
            },
    {
        if config.dir.is_some() {
            return Err(DbError::NotInMemory);
        }
        let names = config.trees;
        let mut logs: Vec<Log<MemLogFile<Command>>> = Vec::new();
        let mut i: usize = 0;
        while i < names.len()
            invariant
                i <= names@.len(),
                logs@.len() == i,
                forall|k: int|
                    0 <= k < logs@.len() ==> (#[trigger] logs@[k]).inv() && logs@[k].reliable()
                        && logs@[k].records().len() == 0,
            decreases names.len() - i,
        {
            logs.push(Log::new(create::<Command>()));
            i = i + 1;
        }
        let mut db = match Db::new(names, logs, Log::new(create::<CommitCommand>())) {
            Ok(db) => db,
            Err(e) => {
                return Err(e);
            },
        };
        let ghost fresh = db@;
        proof {
            assert forall|i: int| 0 <= i < fresh.trees.len() implies (#[trigger] fresh.trees[i])
                == unrecovered(fresh.trees)[i] && fresh.trees[i].records.len() == 0 by {}
        }
        match db.init() {
            Ok(()) => {
                proof {
                    assert forall|i: int| 0 <= i < db@.trees.len() implies (#[trigger] db@.trees[i])
                        == (TreeView {
                        initialized: true,
                        records: Seq::empty(),
                        batches: Map::empty(),
                        index: new_index(),
                    }) by {
                        assert(fresh.trees[i].records =~= Seq::empty());
                    }
                }
                Ok(db)
            },
            Err(e) => Err(e),
        }
    }
}

/// The views that were taken before read in `after` what they read in
/// `before`: whatever their commit limit, up to that of `before`.
pub open spec fn same_views(before: DbView, after: DbView) -> bool {
    &&& after.trees.len() == before.trees.len()
    &&& forall|i: int|
        0 <= i < before.trees.len() ==> tree_keeps(
            before.trees[i],
            #[trigger] after.trees[i],
            before.view_commit_limit,
        )
}

/// Views that read the same after one step and after the next read the
/// same after both.
pub proof fn lemma_same_views_twice(first: DbView, second: DbView, third: DbView)
    requires
        same_views(first, second),
        same_views(second, third),
        first.view_commit_limit <= second.view_commit_limit,
    ensures
        same_views(first, third),
{
    assert forall|i: int| 0 <= i < first.trees.len() implies tree_keeps(
        first.trees[i],
        #[trigger] third.trees[i],
        first.view_commit_limit,
    ) by {
        assert(tree_keeps(first.trees[i], second.trees[i], first.view_commit_limit));
        assert(tree_keeps(second.trees[i], third.trees[i], second.view_commit_limit));
        assert forall|limit: Commit, key: Seq<u8>|
            limit.0 <= first.view_commit_limit implies #[trigger] third.trees[i].value(limit, key)
            == first.trees[i].value(limit, key) by {
            assert(second.trees[i].value(limit, key) == first.trees[i].value(limit, key));
        }
    }
}

/// Trees whose logs have grown and whose indexes are as they were let the
/// views read what they read.
proof fn lemma_logs_grown(before: DbView, after: DbView)
    requires
        after.trees.len() == before.trees.len(),
        forall|i: int|
            0 <= i < before.trees.len() ==> {
                &&& (#[trigger] after.trees[i]).index == before.trees[i].index
                &&& is_prefix(before.trees[i].records, after.trees[i].records)
                &&& ordered(after.trees[i].records)
                &&& before.trees[i].sound()
            },
    ensures
        same_views(before, after),
{
    assert forall|i: int| 0 <= i < before.trees.len() implies tree_keeps(
        before.trees[i],
        #[trigger] after.trees[i],
        before.view_commit_limit,
    ) by {
        lemma_tree_keeps(before.trees[i], after.trees[i], before.view_commit_limit);
    }
}

/// The tree is as it was, or has taken `cmd` into its log and recording.
pub open spec fn maybe_logged(before: TreeView, after: TreeView, cmd: CommandView) -> bool {
    after == before || after == before.appended(after.records.last().0, cmd)
}

/// The tree was asked to log `cmd`. It has taken the command into its log
/// and recording, unless the recording of the batch refused the command, or
/// the log failed, which a reliable log does not; then it is as it was.
pub open spec fn tried_to_log(
    before: TreeView,
    after: TreeView,
    reliable: bool,
    cmd: CommandView,
) -> bool {
    if rejection(before.batches, cmd) is Some {
        after == before
    } else if reliable {
        after == before.appended(after.records.last().0, cmd)
    } else {
        maybe_logged(before, after, cmd)
    }
}

/// The tree has made the attempt `batch_commit` of `batch` ready and put
/// it into its index under `commit`.
pub open spec fn tree_committed(
    before: TreeView,
    after: TreeView,
    batch: Batch,
    batch_commit: BatchCommit,
    commit: Commit,
) -> bool {
    let cmd = CommandView::ReadyCommit { batch, batch_commit };
    let ready = before.appended(after.records.last().0, cmd);
    &&& rejection(before.batches, cmd) is None
    &&& replayed(ready.batches[batch], batch_commit) is Some
    &&& after == (TreeView {
        index: committed(
            before.index,
            commit,
            replayed(ready.batches[batch], batch_commit).unwrap(),
        ),
        ..ready
    })
}

/// The tree has made an attempt ready, and was then asked to log that
/// the attempt was given up.
pub open spec fn readied_then_aborted(
    before: TreeView,
    after: TreeView,
    reliable: bool,
    ready: CommandView,
    abort: CommandView,
) -> bool {
    exists|address: Address|
        rejection(before.batches, ready) is None && #[trigger] tried_to_log(
            before.appended(address, ready),
            after,
            reliable,
            abort,
        )
}

/// A commit of the batch was tried before, or given up: the recording of
/// the batch in some tree holds the end of a commit attempt.
pub open spec fn tried(db: DbView, number: Batch) -> bool {
    exists|i: int|
        0 <= i < db.trees.len() && (#[trigger] db.trees[i]).batches.contains_key(number) && !unended(
            db.trees[i].batches[number],
        )
}

/// What an attempt to commit the batch `number` made of the database.
///
/// A batch is committed once. One of which a commit was tried before,
/// whether it went well, failed or was given up, is refused: a batch and
/// the number of its commit attempt go together, and a log that ends one
/// batch under two attempts cannot be recovered.
///
/// On success every tree has made the attempt ready and put it into its
/// index under the next commit, the commit log has recorded the commit,
/// and the commit limit of the views stands right above it. The commit is
/// no less than the commit limit was, and lies above every commit that the
/// commit log had recorded. A batch that is
/// unusable, and a counter that is used up, leave the database as it was.
/// Where a tree refuses or fails to make the attempt ready, the trees
/// before it have made it ready, and every tree but that one was asked to
/// log that the attempt was given up. Where the commit log fails, every
/// tree has made the attempt ready. A commit that fails changes nothing
/// that any reader sees.
pub open spec fn commit_done(
    before: DbView,
    reliable: bool,
    after: DbView,
    number: Batch,
    unusable: bool,
    r: Result<(), DbError>,
) -> bool {
    &&& commit_made(before, reliable, after, number, unusable, r)
    &&& recoverable(before) ==> recoverable(after)
}

/// What an attempt to commit the batch `number` made of the logs, the
/// indexes and the counters of the database.
pub open spec fn commit_made(
    before: DbView,
    reliable: bool,
    after: DbView,
    number: Batch,
    unusable: bool,
    r: Result<(), DbError>,
) -> bool {
    &&& after.initialized
    &&& after.names == before.names
    &&& after.next_batch == before.next_batch
    &&& after.trees.len() == before.trees.len()
    &&& after.view_commit_limit >= before.view_commit_limit
    &&& r is Ok ==> after.view_commit_limit > before.view_commit_limit
    &&& same_views(before, after)
    &&& match r {
        Ok(()) => {
            let batch_commit = BatchCommit(before.next_batch_commit);
            let commit = Commit(before.next_commit);
            &&& !unusable
            &&& !tried(before, number)
            &&& before.next_batch_commit < u64::MAX
            &&& before.next_commit < u64::MAX
            &&& after.next_batch_commit == before.next_batch_commit + 1
            &&& after.next_commit == before.next_commit + 1
            &&& after.view_commit_limit == before.next_commit + 1
            &&& before.view_commit_limit <= commit.0
            &&& forall|k: int|
                0 <= k < before.commits.len() ==> (#[trigger] before.commits[k]).1.commit.0
                    < commit.0
            &&& after.commits.len() == before.commits.len() + 1
            &&& after.commits.drop_last() == before.commits
            &&& after.commits.last().1 == (CommitCommand {
                batch: number,
                batch_commit,
                commit,
            })
            &&& forall|i: int|
                0 <= i < before.trees.len() ==> tree_committed(
                    before.trees[i],
                    #[trigger] after.trees[i],
                    number,
                    batch_commit,
                    commit,
                )
        },
        Err(e) => {
            &&& after.view_commit_limit == before.view_commit_limit
            &&& after.commits == before.commits
            &&& same_indexes(before.trees, after.trees)
            &&& match e {
                DbError::BatchUnusable => unusable && after == before,
                DbError::BatchEnded => !unusable && tried(before, number) && after == before,
                DbError::CounterOverflow => !unusable && !tried(before, number) && (
                before.next_batch_commit == u64::MAX || before.next_commit == u64::MAX) && after
                    == before,
                DbError::Tree { tree, error } => {
                    let ready = CommandView::ReadyCommit {
                        batch: number,
                        batch_commit: BatchCommit(before.next_batch_commit),
                    };
                    let abort = CommandView::AbortCommit {
                        batch: number,
                        batch_commit: BatchCommit(before.next_batch_commit),
                    };
                    &&& !unusable
                    &&& !tried(before, number)
                    &&& tree < before.trees.len()
                    &&& refused(before.trees[tree as int], reliable, ready, error)
                    &&& after.next_batch_commit == before.next_batch_commit + 1
                    &&& after.next_commit == before.next_commit
                    &&& after.trees[tree as int] == before.trees[tree as int]
                    &&& forall|i: int|
                        0 <= i < tree ==> readied_then_aborted(
                            before.trees[i],
                            #[trigger] after.trees[i],
                            reliable,
                            ready,
                            abort,
                        )
                    &&& forall|i: int|
                        tree < i < before.trees.len() ==> tried_to_log(
                            before.trees[i],
                            #[trigger] after.trees[i],
                            reliable,
                            abort,
                        )
                },
                DbError::CommitLog(_) => {
                    &&& !unusable
                    &&& !tried(before, number)
                    &&& !reliable
                    &&& after.next_batch_commit == before.next_batch_commit + 1
                    &&& after.next_commit == before.next_commit + 1
                    &&& logged_upto(
                        before.trees,
                        after.trees,
                        CommandView::ReadyCommit {
                            batch: number,
                            batch_commit: BatchCommit(before.next_batch_commit),
                        },
                        before.trees.len() as int,
                    )
                },
                _ => false,
            }
        },
    }
}

/// The tree was asked to close `batch`. A tree that has no recording of
/// the batch is as it was. Otherwise the `Close` was logged and recorded,
/// or, where the log failed, which a reliable log does not, the recording
/// was dropped without it.
pub open spec fn tree_closed(before: TreeView, after: TreeView, reliable: bool, batch: Batch) -> bool {
    if !before.batches.contains_key(batch) {
        after == before
    } else if reliable {
        after == before.appended(after.records.last().0, CommandView::Close { batch })
    } else {
        ||| after == before.appended(after.records.last().0, CommandView::Close { batch })
        ||| after == (TreeView { batches: before.batches.remove(batch), ..before })
    }
}

/// What the giving up of a commit of the batch `number` made of the
/// database: every tree was asked to log the end of one more attempt as
/// aborted. Nothing that any reader sees is changed.
pub open spec fn abort_done(before: DbView, reliable: bool, after: DbView, number: Batch) -> bool {
    &&& abort_made(before, reliable, after, number)
    &&& recoverable(before) ==> recoverable(after)
}

/// What the giving up of a commit made of the logs and the counters of
/// the database.
pub open spec fn abort_made(before: DbView, reliable: bool, after: DbView, number: Batch) -> bool {
    &&& after == (DbView {
        trees: after.trees,
        next_batch_commit: after.next_batch_commit,
        ..before
    })
    &&& same_indexes(before.trees, after.trees)
    &&& same_views(before, after)
    &&& if before.next_batch_commit == u64::MAX {
        after == before
    } else {
        &&& after.next_batch_commit == before.next_batch_commit + 1
        &&& forall|i: int|
            0 <= i < before.trees.len() ==> tried_to_log(
                before.trees[i],
                #[trigger] after.trees[i],
                reliable,
                CommandView::AbortCommit {
                    batch: number,
                    batch_commit: BatchCommit(before.next_batch_commit),
                },
            )
    }
}

/// What the closing of the batch `number` made of the database: every
/// tree was asked to close the batch.
pub open spec fn close_done(before: DbView, reliable: bool, after: DbView, number: Batch) -> bool {
    &&& before.same_but_trees(after)
    &&& same_views(before, after)
    &&& recoverable(before) ==> recoverable(after)
    &&& forall|i: int|
        0 <= i < before.trees.len() ==> tree_closed(
            before.trees[i],
            #[trigger] after.trees[i],
            reliable,
            number,
        )
}

impl<T: LogFile<Cmd = Command>, C: LogFile<Cmd = CommitCommand>> Db<T, C> {
    /// Appends `cmd` to the log of one tree.
    fn append_one(&mut self, tree: usize, cmd: Command) -> (r: Result<(), TreeError>)
        requires
            old(self).wf(),
            old(self)@.initialized,
            tree < old(self)@.trees.len(),
            cmd@ is Open ==> cmd@.batch().0 < old(self)@.next_batch,
        ensures
            final(self).wf(),
            final(self).reliable() == old(self).reliable(),
            old(self)@.same_but_trees(final(self)@),
            same_indexes(old(self)@.trees, final(self)@.trees),
            same_views(old(self)@, final(self)@),
            forall|i: int|
                0 <= i < old(self)@.trees.len() && i != tree ==> (#[trigger] final(self)@.trees[i])
                    == old(self)@.trees[i],
            match r {
                Ok(()) => rejection(old(self)@.trees[tree as int].batches, cmd@) is None && final(self)@.trees[tree as int] == old(self)@.trees[tree as int].appended(
                    final(self)@.trees[tree as int].records.last().0,
                    cmd@,
                ),
                Err(error) => final(self)@ == old(self)@ && refused(
                    old(self)@.trees[tree as int],
                    old(self).reliable(),
                    cmd@,
                    error,
                ),
            },
    {
        let ghost before = self@;
        let ghost trees_before = self.trees@;
        assert(trees_before[tree as int].wf());
        assert(before.trees[tree as int] == trees_before[tree as int]@);
        let writer = BatchWriter::for_batch(cmd.batch());
        let r = writer.append_record(&mut self.trees[tree], cmd);
        proof {
            let after = self@;
            assert forall|i: int| 0 <= i < self.trees@.len() implies (#[trigger] self.trees@[i]).wf()
                && self.trees@[i].reliable() == trees_before[i].reliable() by {
                if i != tree {
                    assert(self.trees@[i] == trees_before[i]);
                }
            }
            assert forall|i: int| 0 <= i < before.trees.len() && i != tree implies (
            #[trigger] after.trees[i]) == before.trees[i] by {
                assert(self.trees@[i] == trees_before[i]);
            }
            assert forall|i: int| 0 <= i < before.trees.len() implies (#[trigger] after.trees[i]).index
                == before.trees[i].index && after.trees[i].initialized
                == before.trees[i].initialized && after.trees[i].index.watermark
                == before.view_commit_limit && (forall|b: Batch| #[trigger]
                after.trees[i].batches.contains_key(b) ==> b.0 < after.next_batch) by {
                assert(before.trees[i].initialized == before.initialized);
                assert forall|b: Batch| #[trigger]
                    before.trees[i].batches.contains_key(b) implies b.0 < before.next_batch by {}
                if i != tree {
                    assert(after.trees[i] == before.trees[i]);
                }
            }
            assert(before.same_but_trees(after));
            if r is Err {
                assert(after.trees =~= before.trees);
                if r matches Err(TreeError::Log(_)) {
                    assert(!trees_before[tree as int].reliable());
                }
            }
            old(self).lemma_wf();
            assert forall|i: int| 0 <= i < before.trees.len() implies is_prefix(
                before.trees[i].records,
                (#[trigger] after.trees[i]).records,
            ) && ordered(after.trees[i].records) by {
                assert(after.trees[i].records.take(before.trees[i].records.len() as int)
                    =~= before.trees[i].records);
                assert(self.trees@[i].wf());
                self.trees@[i].lemma_wf();
            }
            lemma_logs_grown(before, after);
            assert(self.reliable() == old(self).reliable()) by {
                if old(self).reliable() {
                    assert forall|i: int| 0 <= i < self.trees@.len() implies (
                    #[trigger] self.trees@[i]).reliable() by {
                        assert(trees_before[i].reliable());
                    }
                }
                if self.reliable() {
                    assert forall|i: int| 0 <= i < trees_before.len() implies (
                    #[trigger] trees_before[i]).reliable() by {
                        assert(self.trees@[i].reliable());
                    }
                }
            }
        }
        r
    }

    /// Asks every tree but `except` to log that the attempt `batch_commit`
    /// of `batch` was given up. A tree that refuses, and a log that fails,
    /// are passed over.
    fn abort_others(&mut self, batch: Batch, batch_commit: BatchCommit, except: Option<usize>)
        requires
            old(self).wf(),
            old(self)@.initialized,
        ensures
            final(self).wf(),
            final(self).reliable() == old(self).reliable(),
            old(self)@.same_but_trees(final(self)@),
            same_indexes(old(self)@.trees, final(self)@.trees),
            same_views(old(self)@, final(self)@),
            forall|i: int|
                0 <= i < old(self)@.trees.len() ==> if except == Some(i as usize) {
                    (#[trigger] final(self)@.trees[i]) == old(self)@.trees[i]
                } else {
                    tried_to_log(
                        old(self)@.trees[i],
                        final(self)@.trees[i],
                        old(self).reliable(),
                        CommandView::AbortCommit { batch, batch_commit },
                    )
                },
    {
        let ghost before = self@;
        let ghost reliable = self.reliable();
        let ghost cmd = CommandView::AbortCommit { batch, batch_commit };
        let mut i: usize = 0;
        assert(same_views(before, before));
        while i < self.trees.len()
            invariant
                self.wf(),
                self@.initialized,
                self.reliable() == old(self).reliable(),
                before == old(self)@,
                before.same_but_trees(self@),
                same_indexes(before.trees, self@.trees),
                same_views(before, self@),
                i <= self@.trees.len(),
                cmd == (CommandView::AbortCommit { batch, batch_commit }),
                reliable == old(self).reliable(),
                forall|k: int|
                    0 <= k < i ==> if except == Some(k as usize) {
                        (#[trigger] self@.trees[k]) == before.trees[k]
                    } else {
                        tried_to_log(before.trees[k], self@.trees[k], reliable, cmd)
                    },
                forall|k: int| i <= k < before.trees.len() ==> (#[trigger] self@.trees[k]) == before.trees[k],
            decreases self.trees.len() - i,
        {
            let skip = match except {
                Some(e) => e == i,
                None => false,
            };
            if !skip {
                let ghost now = self@;
                let _ = self.append_one(i, Command::AbortCommit { batch, batch_commit });
                proof {
                    assert(now.trees[i as int] == before.trees[i as int]);
                    assert forall|k: int| 0 <= k < i + 1 implies if except == Some(k as usize) {
                        (#[trigger] self@.trees[k]) == before.trees[k]
                    } else {
                        tried_to_log(before.trees[k], self@.trees[k], reliable, cmd)
                    } by {
                        if k != i {
                            assert(self@.trees[k] == now.trees[k]);
                        }
                    }
                    assert forall|k: int| i + 1 <= k < before.trees.len() implies (
                    #[trigger] self@.trees[k]) == before.trees[k] by {
                        assert(self@.trees[k] == now.trees[k]);
                    }
                    assert forall|k: int| 0 <= k < before.trees.len() implies (
                    #[trigger] self@.trees[k]).index == before.trees[k].index && self@.trees[k].initialized
                        == before.trees[k].initialized by {
                        assert(now.trees[k].index == before.trees[k].index);
                    }
                    lemma_same_views_twice(before, now, self@);
                }
            }
            i = i + 1;
        }
    }

    /// Whether a commit of `batch` was tried or given up in some tree.
    fn tried_in_a_tree(&self, batch: Batch) -> (r: bool)
        requires
            self.wf(),
        ensures
            r == tried(self@, batch),
    {
        let mut i: usize = 0;
        while i < self.trees.len()
            invariant
                self.wf(),
                i <= self.trees@.len(),
                forall|k: int|
                    0 <= k < i ==> !((#[trigger] self@.trees[k]).batches.contains_key(batch) && !unended(
                        self@.trees[k].batches[batch],
                    )),
            decreases self.trees.len() - i,
        {
            assert(self.trees@[i as int].wf());
            assert(self@.trees[i as int] == self.trees@[i as int]@);
            if self.trees[i].batch_ended(batch) {
                return true;
            }
            i = i + 1;
        }
        false
    }

    /// Ends `batch` in every tree. Where the `Close` cannot be logged, the
    /// recording is dropped all the same.
    fn close_all(&mut self, batch: Batch)
        requires
            old(self).wf(),
            old(self)@.initialized,
        ensures
            final(self).wf(),
            final(self).reliable() == old(self).reliable(),
            old(self)@.same_but_trees(final(self)@),
            same_views(old(self)@, final(self)@),
            forall|i: int|
                0 <= i < old(self)@.trees.len() ==> tree_closed(
                    old(self)@.trees[i],
                    #[trigger] final(self)@.trees[i],
                    old(self).reliable(),
                    batch,
                ),
    {
        let ghost before = self@;
        let ghost trees_before = self.trees@;
        let ghost reliable = self.reliable();
        let writer = BatchWriter::for_batch(batch);
        let mut i: usize = 0;
        while i < self.trees.len()
            invariant
                old(self).wf(),
                before == old(self)@,
                trees_before == old(self).trees@,
                writer.number() == batch,
                i <= self.trees@.len(),
                self.trees@.len() == trees_before.len(),
                self.names == old(self).names,
                self.commit_log == old(self).commit_log,
                self.next_batch == old(self).next_batch,
                self.next_batch_commit == old(self).next_batch_commit,
                self.next_commit == old(self).next_commit,
                self.view_commit_limit == old(self).view_commit_limit,
                self.initialized == old(self).initialized,
                forall|k: int|
                    0 <= k < self.trees@.len() ==> {
                        &&& (#[trigger] self.trees@[k]).wf()
                        &&& self.trees@[k].reliable() == trees_before[k].reliable()
                    },
                reliable == old(self).reliable(),
                forall|k: int|
                    0 <= k < i ==> tree_closed(
                        trees_before[k]@,
                        (#[trigger] self.trees@[k])@,
                        reliable,
                        batch,
                    )
                        && (forall|b: Batch| #[trigger]
                        self.trees@[k]@.batches.contains_key(b) ==> trees_before[k]@.batches.contains_key(b)),
                forall|k: int| i <= k < self.trees@.len() ==> (#[trigger] self.trees@[k]) == trees_before[k],
            decreases self.trees.len() - i,
        {
            let ghost trees_now = self.trees@;
            assert(trees_now[i as int].wf());
            let _ = writer.close(&mut self.trees[i]);
            proof {
                assert forall|k: int| 0 <= k < self.trees@.len() implies {
                    &&& (#[trigger] self.trees@[k]).wf()
                    &&& self.trees@[k].reliable() == trees_before[k].reliable()
                } by {
                    if k != i {
                        assert(self.trees@[k] == trees_now[k]);
                    }
                }
                assert forall|k: int| 0 <= k < i + 1 implies tree_closed(
                    trees_before[k]@,
                    (#[trigger] self.trees@[k])@,
                    reliable,
                    batch,
                ) && (forall|b: Batch| #[trigger]
                    self.trees@[k]@.batches.contains_key(b) ==> trees_before[k]@.batches.contains_key(
                        b,
                    )) by {
                    if k != i {
                        assert(self.trees@[k] == trees_now[k]);
                    } else {
                        let t = self.trees@[k]@;
                        let o = trees_before[k]@;
                        assert(trees_now[k] == trees_before[k]);
                        if !o.batches.contains_key(batch) {
                            assert(o.batches.remove(batch) =~= o.batches);
                        }
                        if reliable {
                            assert(trees_before[k].reliable());
                        }
                    }
                }
                assert forall|k: int| i + 1 <= k < self.trees@.len() implies (
                #[trigger] self.trees@[k]) == trees_before[k] by {
                    assert(self.trees@[k] == trees_now[k]);
                }
            }
            i = i + 1;
        }
        proof {
            let after = self@;
            assert forall|k: int| 0 <= k < before.trees.len() implies tree_closed(
                before.trees[k],
                #[trigger] after.trees[k],
                reliable,
                batch,
            ) && after.trees[k].index.watermark == before.view_commit_limit && (forall|b: Batch| #[trigger]
                after.trees[k].batches.contains_key(b) ==> b.0 < after.next_batch) by {
                assert(tree_closed(trees_before[k]@, self.trees@[k]@, reliable, batch));
                assert(before.trees[k].initialized == before.initialized);
                assert forall|b: Batch| #[trigger]
                    before.trees[k].batches.contains_key(b) implies b.0 < before.next_batch by {}
            }
            assert(before.same_but_trees(after));
            assert(self.reliable() == old(self).reliable()) by {
                if old(self).reliable() {
                    assert forall|k: int| 0 <= k < self.trees@.len() implies (
                    #[trigger] self.trees@[k]).reliable() by {
                        assert(trees_before[k].reliable());
                    }
                }
                if self.reliable() {
                    assert forall|k: int| 0 <= k < trees_before.len() implies (
                    #[trigger] trees_before[k]).reliable() by {
                        assert(self.trees@[k].reliable());
                    }
                }
            }
            old(self).lemma_wf();
            assert forall|k: int| 0 <= k < before.trees.len() implies {
                &&& (#[trigger] after.trees[k]).index == before.trees[k].index
                &&& is_prefix(before.trees[k].records, after.trees[k].records)
                &&& ordered(after.trees[k].records)
            } by {
                assert(tree_closed(before.trees[k], after.trees[k], reliable, batch));
                assert(after.trees[k].records.take(before.trees[k].records.len() as int)
                    =~= before.trees[k].records);
                assert(self.trees@[k].wf());
                self.trees@[k].lemma_wf();
            }
            lemma_logs_grown(before, after);
        }
    }

    /// Opens a write batch: it gets the next batch number, and every tree
    /// logs its opening.
    pub fn write_batch(&mut self) -> (r: Result<WriteBatch, DbError>)
        requires
            old(self).wf(),
            old(self)@.initialized,
        ensures
            final(self).wf(),
            final(self).reliable() == old(self).reliable(),
            batch_opened(old(self)@, old(self).reliable(), final(self)@, opened(r)),
            r matches Ok(batch) ==> !batch.unusable(),
    {
        assert(same_views(self@, self@));
        if self.next_batch == u64::MAX {
            return Err(DbError::CounterOverflow);
        }
        let ghost before = self@;
        let batch = Batch(self.next_batch);
        self.next_batch = self.next_batch + 1;
        proof {
            assert forall|i: int| 0 <= i < self@.trees.len() implies {
                &&& (#[trigger] self@.trees[i]).initialized == self@.initialized
                &&& self@.trees[i].index.writing is None
                &&& self@.trees[i].index.watermark == self@.view_commit_limit
                &&& forall|b: Batch| #[trigger]
                    self@.trees[i].batches.contains_key(b) ==> b.0 < self@.next_batch
            } by {
                assert(before.trees[i].initialized == before.initialized);
                assert forall|b: Batch| #[trigger]
                    before.trees[i].batches.contains_key(b) implies b.0 < before.next_batch by {}
            }
            assert(self.reliable() == old(self).reliable());
        }
        let ghost started = self@;
        assert(same_views(before, started));
        match self.append_all(&Command::Open { batch }) {
            Ok(()) => {
                proof {
                    lemma_same_views_twice(before, started, self@);
                    if recoverable(before) {
                        lemma_logged_keeps_recoverable(
                            before,
                            self@,
                            CommandView::Open { batch },
                        );
                    }
                }
                Ok(WriteBatch { batch, unusable: false })
            },
            Err((tree, error)) => {
                proof {
                    assert(!before.trees[tree as int].batches.contains_key(batch)) by {
                        if before.trees[tree as int].batches.contains_key(batch) {
                            assert(batch.0 < before.next_batch);
                        }
                    }
                }
                let ghost opened = self@;
                self.close_all(batch);
                proof {
                    lemma_same_views_twice(before, started, opened);
                    lemma_same_views_twice(before, opened, self@);
                    assert forall|i: int| 0 <= i < before.trees.len() implies (
                    #[trigger] self@.trees[i]).index == before.trees[i].index && self@.trees[i].initialized
                        == before.trees[i].initialized by {
                        assert(tree_closed(opened.trees[i], self@.trees[i], old(self).reliable(), batch));
                        assert(opened.trees[i].index == started.trees[i].index);
                    }
                    assert forall|i: int| 0 <= i < tree implies opened_then_closed(
                        before.trees[i],
                        #[trigger] self@.trees[i],
                        old(self).reliable(),
                        batch,
                    ) by {
                        let address = opened.trees[i].records.last().0;
                        assert(opened.trees[i] == before.trees[i].appended(
                            address,
                            CommandView::Open { batch },
                        ));
                        assert(tree_closed(
                            before.trees[i].appended(address, CommandView::Open { batch }),
                            self@.trees[i],
                            old(self).reliable(),
                            batch,
                        ));
                    }
                    assert forall|i: int| tree <= i < before.trees.len() implies (
                    #[trigger] self@.trees[i]) == before.trees[i] by {
                        assert(opened.trees[i] == before.trees[i]);
                        assert(tree_closed(opened.trees[i], self@.trees[i], old(self).reliable(), batch));
                        if before.trees[i].batches.contains_key(batch) {
                            assert(batch.0 < before.next_batch);
                        }
                    }
                    if recoverable(before) {
                        lemma_failed_opening_keeps_recoverable(
                            before,
                            self@,
                            old(self).reliable(),
                            tree as int,
                        );
                    }
                }
                Err(DbError::Tree { tree, error })
            },
        }
    }
}

/// A write batch: what it writes becomes visible in all trees at once,
/// when it is committed.
pub struct WriteBatch {
    batch: Batch,
    unusable: bool,
}

/// The hand of a write batch in one tree.
pub struct WriteTree<'batch> {
    tree: String,
    batch: &'batch WriteBatch,
}

/// The hand of a read view in one tree.
pub struct ReadTree<'view> {
    tree: String,
    view: &'view ReadView,
}


/// The tree has logged the opening of the batch and was then asked to
/// close it again.
pub open spec fn opened_then_closed(
    before: TreeView,
    after: TreeView,
    reliable: bool,
    batch: Batch,
) -> bool {
    exists|address: Address| #[trigger]
        tree_closed(before.appended(address, CommandView::Open { batch }), after, reliable, batch)
}

/// The number of the batch that was opened, or why none was.
pub open spec fn opened(r: Result<WriteBatch, DbError>) -> Result<Batch, DbError> {
    match r {
        Ok(batch) => Ok(batch.number()),
        Err(e) => Err(e),
    }
}

/// What the opening of a write batch made of the database. The batch has
/// the next batch number, and every tree has logged its opening. Where the
/// log of a tree fails, the trees before it have logged the opening and
/// were asked to close the batch again, and the other trees are as they
/// were. Nothing that any reader sees is changed.
pub open spec fn batch_opened(
    before: DbView,
    reliable: bool,
    after: DbView,
    r: Result<Batch, DbError>,
) -> bool {
    &&& after == (DbView {
        trees: after.trees,
        next_batch: after.next_batch,
        ..before
    })
    &&& same_indexes(before.trees, after.trees)
    &&& same_views(before, after)
    &&& recoverable(before) ==> recoverable(after)
    &&& match r {
        Ok(batch) => {
            &&& before.next_batch < u64::MAX
            &&& batch == Batch(before.next_batch)
            &&& after.next_batch == before.next_batch + 1
            &&& logged_upto(
                before.trees,
                after.trees,
                CommandView::Open { batch },
                before.trees.len() as int,
            )
        },
        Err(DbError::CounterOverflow) => before.next_batch == u64::MAX && after
            == before,
        Err(DbError::Tree { tree, error }) => {
            &&& error is Log
            &&& !reliable
            &&& after.next_batch == before.next_batch + 1
            &&& forall|i: int|
                0 <= i < after.trees.len() ==> !(
                #[trigger] after.trees[i]).batches.contains_key(
                    Batch(before.next_batch),
                )
            &&& tree < before.trees.len()
            &&& forall|i: int|
                0 <= i < tree ==> opened_then_closed(
                    before.trees[i],
                    #[trigger] after.trees[i],
                    reliable,
                    Batch(before.next_batch),
                )
            &&& forall|i: int|
                tree <= i < before.trees.len() ==> (#[trigger] after.trees[i]) == before.trees[i]
        },
        Err(_) => false,
    }
}

/// What a read of `key` in the tree called `name` gives a view with the
/// commit limit `limit`: the value that the view sees there. A tree that
/// the database has not, and a view from elsewhere, are refused. Where the
/// index shows no value the log is not asked; otherwise only a failure of
/// the log, which a reliable log does not have, keeps the value back.
pub open spec fn was_read(
    db: DbView,
    reliable: bool,
    name: Seq<char>,
    limit: Commit,
    key: Seq<u8>,
    r: Result<Option<Vec<u8>>, DbError>,
) -> bool {
    match db.tree_number(name) {
        None => r == Err::<Option<Vec<u8>>, DbError>(DbError::UnknownTree),
        Some(i) => if limit.0 > db.view_commit_limit {
            r == Err::<Option<Vec<u8>>, DbError>(DbError::ViewAhead)
        } else {
            match r {
                Ok(value) => bytes_view(value) == db.value(i, limit, key),
                Err(DbError::Tree { tree, error: TreeError::Log(_) }) => tree == i && !reliable
                    && db.trees[i].index.visible(limit, key) is Some,
                Err(_) => false,
            }
        },
    }
}

/// What a listing of the tree called `name` gives a view with the commit
/// limit `limit`: the keys under which the view sees a value, in their
/// order, each with its value.
pub open spec fn was_listed(
    db: DbView,
    reliable: bool,
    name: Seq<char>,
    limit: Commit,
    r: Result<Vec<(Key, Value)>, DbError>,
) -> bool {
    match db.tree_number(name) {
        None => r == Err::<Vec<(Key, Value)>, DbError>(DbError::UnknownTree),
        Some(i) => if limit.0 > db.view_commit_limit {
            r == Err::<Vec<(Key, Value)>, DbError>(DbError::ViewAhead)
        } else {
            match r {
                Ok(entries) => is_listing(db.trees[i], limit, pairs_view(entries@)),
                Err(DbError::Tree { tree, error: TreeError::Log(_) }) => tree == i && !reliable,
                Err(_) => false,
            }
        },
    }
}

/// What an attempt to log `cmd` in every tree made of the database. The
/// trees take the command in their order. A batch of which one tree has
/// taken a command that a later tree refused is unusable from then on.
pub open spec fn logs_in_all(
    before: DbView,
    reliable: bool,
    after: DbView,
    was_unusable: bool,
    is_unusable: bool,
    cmd: CommandView,
    r: Result<(), DbError>,
) -> bool {
    &&& before.same_but_trees(after)
    &&& same_indexes(before.trees, after.trees)
    &&& same_views(before, after)
    &&& recoverable(before) ==> recoverable(after)
    &&& match r {
        Ok(()) => !was_unusable && !is_unusable && logged_upto(
            before.trees,
            after.trees,
            cmd,
            before.trees.len() as int,
        ),
        Err(DbError::BatchUnusable) => was_unusable && is_unusable && after == before,
        Err(DbError::Tree { tree, error }) => {
            &&& !was_unusable
            &&& tree < before.trees.len()
            &&& logged_upto(before.trees, after.trees, cmd, tree as int)
            &&& refused(before.trees[tree as int], reliable, cmd, error)
            &&& is_unusable == (tree > 0)
        },
        Err(_) => false,
    }
}

/// What an attempt to log `cmd` in the tree called `name` made of the
/// database.
pub open spec fn logs_in_tree(
    before: DbView,
    reliable: bool,
    after: DbView,
    name: Seq<char>,
    unusable: bool,
    cmd: CommandView,
    r: Result<(), DbError>,
) -> bool {
    &&& before.same_but_trees(after)
    &&& same_indexes(before.trees, after.trees)
    &&& same_views(before, after)
    &&& recoverable(before) ==> recoverable(after)
    &&& match r {
        Ok(()) => {
            &&& !unusable
            &&& before.tree_number(name) matches Some(i)
            &&& rejection(before.trees[i].batches, cmd) is None
            &&& after.trees[i] == before.trees[i].appended(after.trees[i].records.last().0, cmd)
            &&& forall|k: int|
                0 <= k < before.trees.len() && k != i ==> (#[trigger] after.trees[k])
                    == before.trees[k]
        },
        Err(DbError::BatchUnusable) => unusable && after == before,
        Err(DbError::UnknownTree) => !unusable && before.tree_number(name) is None && after
            == before,
        Err(DbError::Tree { tree, error }) => {
            &&& !unusable
            &&& before.tree_number(name) == Some(tree as int)
            &&& refused(before.trees[tree as int], reliable, cmd, error)
            &&& after == before
        },
        Err(_) => false,
    }
}

impl WriteBatch {
    /// The number of the batch.
    pub closed spec fn number(&self) -> Batch {
        self.batch
    }

    /// An operation of the batch has reached some trees and not others:
    /// the batch can only be aborted and closed.
    pub closed spec fn unusable(&self) -> bool {
        self.unusable
    }

    /// Whether the batch can still write and commit.
    pub fn is_usable(&self) -> (r: bool)
        ensures
            r == !self.unusable(),
    {
        !self.unusable
    }

    /// The hand of the batch in the tree called `tree`.
    pub fn tree<'batch>(&'batch self, tree: &str) -> (r: WriteTree<'batch>)
        ensures
            r.name() == tree@,
            r.batch() == *self,
    {
        WriteTree { tree: tree.to_owned(), batch: self }
    }

    fn log_all<T: LogFile<Cmd = Command>, C: LogFile<Cmd = CommitCommand>>(
        &mut self,
        db: &mut Db<T, C>,
        cmd: Command,
    ) -> (r: Result<(), DbError>)
        requires
            old(db).wf(),
            old(db)@.initialized,
            !(cmd@ is Open),
            cmd@ is PushSavePoint || cmd@ is PopSavePoint || cmd@ is RollbackSavePoint,
        ensures
            final(db).wf(),
            final(db).reliable() == old(db).reliable(),
            final(self).number() == old(self).number(),
            logs_in_all(
                old(db)@,
                old(db).reliable(),
                final(db)@,
                old(self).unusable(),
                final(self).unusable(),
                cmd@,
                r,
            ),
    {
        assert(same_views(db@, db@));
        if self.unusable {
            return Err(DbError::BatchUnusable);
        }
        let ghost before = db@;
        match db.append_all(&cmd) {
            Ok(()) => {
                proof {
                    if recoverable(before) {
                        lemma_logged_keeps_recoverable(before, db@, cmd@);
                    }
                }
                Ok(())
            },
            Err((tree, error)) => {
                if tree > 0 {
                    self.unusable = true;
                }
                proof {
                    if recoverable(before) {
                        lemma_logged_upto_keeps_recoverable(before, db@, cmd@, tree as int);
                    }
                }
                Err(DbError::Tree { tree, error })
            },
        }
    }

    /// Sets a save point in every tree.
    pub fn push_save_point<T: LogFile<Cmd = Command>, C: LogFile<Cmd = CommitCommand>>(
        &mut self,
        db: &mut Db<T, C>,
    ) -> (r: Result<(), DbError>)
        requires
            old(db).wf(),
            old(db)@.initialized,
        ensures
            final(db).wf(),
            final(db).reliable() == old(db).reliable(),
            final(self).number() == old(self).number(),
            logs_in_all(
                old(db)@,
                old(db).reliable(),
                final(db)@,
                old(self).unusable(),
                final(self).unusable(),
                CommandView::PushSavePoint { batch: old(self).number() },
                r,
            ),
    {
        self.log_all(db, Command::PushSavePoint { batch: self.batch })
    }

    /// Drops the newest save point in every tree. With no save point set,
    /// the first tree refuses and nothing is changed.
    pub fn pop_save_point<T: LogFile<Cmd = Command>, C: LogFile<Cmd = CommitCommand>>(
        &mut self,
        db: &mut Db<T, C>,
    ) -> (r: Result<(), DbError>)
        requires
            old(db).wf(),
            old(db)@.initialized,
        ensures
            final(db).wf(),
            final(db).reliable() == old(db).reliable(),
            final(self).number() == old(self).number(),
            logs_in_all(
                old(db)@,
                old(db).reliable(),
                final(db)@,
                old(self).unusable(),
                final(self).unusable(),
                CommandView::PopSavePoint { batch: old(self).number() },
                r,
            ),
    {
        self.log_all(db, Command::PopSavePoint { batch: self.batch })
    }

    /// Takes back, in every tree, what the batch did since its newest save
    /// point, and drops the save point. With no save point set, the first
    /// tree refuses and nothing is changed.
    pub fn rollback_save_point<T: LogFile<Cmd = Command>, C: LogFile<Cmd = CommitCommand>>(
        &mut self,
        db: &mut Db<T, C>,
    ) -> (r: Result<(), DbError>)
        requires
            old(db).wf(),
            old(db)@.initialized,
        ensures
            final(db).wf(),
            final(db).reliable() == old(db).reliable(),
            final(self).number() == old(self).number(),
            logs_in_all(
                old(db)@,
                old(db).reliable(),
                final(db)@,
                old(self).unusable(),
                final(self).unusable(),
                CommandView::RollbackSavePoint { batch: old(self).number() },
                r,
            ),
    {
        self.log_all(db, Command::RollbackSavePoint { batch: self.batch })
    }

    /// Commits the batch: every tree makes the attempt ready, the commit
    /// log records the commit, every tree puts the attempt into its index,
    /// and the views taken from now on see it. A commit that fails changes
    /// nothing that any reader sees.
    pub fn commit<T: LogFile<Cmd = Command>, C: LogFile<Cmd = CommitCommand>>(
        &self,
        db: &mut Db<T, C>,
    ) -> (r: Result<(), DbError>)
        requires
            old(db).wf(),
            old(db)@.initialized,
        ensures
            final(db).wf(),
            final(db).reliable() == old(db).reliable(),
            commit_done(
                old(db)@,
                old(db).reliable(),
                final(db)@,
                self.number(),
                self.unusable(),
                r,
            ),
    {
        assert(same_views(db@, db@));
        if self.unusable {
            return Err(DbError::BatchUnusable);
        }
        if db.tried_in_a_tree(self.batch) {
            return Err(DbError::BatchEnded);
        }
        if db.next_batch_commit == u64::MAX || db.next_commit == u64::MAX {
            return Err(DbError::CounterOverflow);
        }
        let ghost before = db@;
        let batch = self.batch;
        let batch_commit = BatchCommit(db.next_batch_commit);
        db.next_batch_commit = db.next_batch_commit + 1;
        proof {
            assert(db@.trees == before.trees);
            assert(db.reliable() == old(db).reliable());
        }
        let ghost numbered = db@;
        assert(same_views(before, numbered));
        let ghost cmd = CommandView::ReadyCommit { batch, batch_commit };
        if let Err((tree, error)) = db.append_all(&Command::ReadyCommit { batch, batch_commit }) {
            let ghost readied = db@;
            db.abort_others(batch, batch_commit, Some(tree));
            proof {
                lemma_same_views_twice(before, numbered, readied);
                lemma_same_views_twice(before, readied, db@);
                let abort = CommandView::AbortCommit { batch, batch_commit };
                assert forall|i: int| 0 <= i < tree implies readied_then_aborted(
                    before.trees[i],
                    #[trigger] db@.trees[i],
                    old(db).reliable(),
                    cmd,
                    abort,
                ) by {
                    let address = readied.trees[i].records.last().0;
                    assert(readied.trees[i] == before.trees[i].appended(address, cmd));
                    assert(tried_to_log(
                        before.trees[i].appended(address, cmd),
                        db@.trees[i],
                        old(db).reliable(),
                        abort,
                    ));
                }
                assert forall|i: int| tree < i < before.trees.len() implies tried_to_log(
                    before.trees[i],
                    #[trigger] db@.trees[i],
                    old(db).reliable(),
                    abort,
                ) by {
                    vstd::std_specs::vec::axiom_spec_len(&db.trees);
                    assert(db@.trees.len() == db.trees@.len());
                    assert(i as usize != tree);
                    assert(readied.trees[i] == numbered.trees[i]);
                    assert(tried_to_log(
                        readied.trees[i],
                        db@.trees[i],
                        old(db).reliable(),
                        abort,
                    ));
                }
                assert(readied.trees[tree as int] == numbered.trees[tree as int]);
                assert forall|i: int| 0 <= i < before.trees.len() implies (
                #[trigger] db@.trees[i]).index == before.trees[i].index && db@.trees[i].initialized
                    == before.trees[i].initialized by {
                    assert(readied.trees[i].index == before.trees[i].index);
                }
                if recoverable(before) {
                    lemma_failed_commit_keeps_recoverable(
                        before,
                        db@,
                        old(db).reliable(),
                        self.number(),
                        self.unusable(),
                        Err(DbError::Tree { tree, error }),
                    );
                }
            }
            return Err(DbError::Tree { tree, error });
        }
        let ghost ready = db@;
        let commit = Commit(db.next_commit);
        db.next_commit = db.next_commit + 1;
        proof {
            assert(db@.trees == ready.trees);
            assert(db.reliable() == old(db).reliable());
            lemma_same_views_twice(before, numbered, ready);
            old(db).lemma_wf();
            db.lemma_wf();
        }
        if let Err(e) = db.commit_log.commit(batch, batch_commit, commit) {
            proof {
                assert(db@.trees == ready.trees);
                assert(same_views(ready, db@));
                lemma_same_views_twice(before, ready, db@);
                if recoverable(before) {
                    lemma_failed_commit_keeps_recoverable(
                        before,
                        db@,
                        old(db).reliable(),
                        self.number(),
                        self.unusable(),
                        Err(DbError::CommitLog(e)),
                    );
                }
            }
            return Err(DbError::CommitLog(e));
        }
        let ghost trees_ready = db.trees@;
        let writer = BatchWriter::for_batch(batch);
        let mut i: usize = 0;
        assert(db@.trees == ready.trees);
        assert(old(db).reliable() == (db.commit_log.reliable() && forall|k: int|
            0 <= k < trees_ready.len() ==> (#[trigger] trees_ready[k]).reliable()));
        while i < db.trees.len()
            invariant
                old(db).wf(),
                before == old(db)@,
                ready.inv(),
                ready.initialized,
                ready.next_batch == before.next_batch,
                names_view(db.names@) == before.names,
                db.initialized == old(db).initialized,
                db.next_batch == old(db).next_batch,
                db.next_batch_commit == old(db).next_batch_commit + 1,
                db.next_commit == old(db).next_commit + 1,
                db.view_commit_limit == old(db).view_commit_limit,
                db.commit_log.inv(),
                old(db).reliable() == (db.commit_log.reliable() && forall|k: int|
                    0 <= k < trees_ready.len() ==> (#[trigger] trees_ready[k]).reliable()),
                db.commit_log.records().len() == before.commits.len() + 1,
                db.commit_log.records().drop_last() == before.commits,
                db.commit_log.records().last().1 == (CommitCommand { batch, batch_commit, commit }),
                before.trees.len() == trees_ready.len(),
                ready.trees == tree_views(trees_ready),
                before.same_but_trees(DbView { next_batch_commit: before.next_batch_commit, ..ready }),
                logged_upto(before.trees, ready.trees, cmd, before.trees.len() as int),
                same_indexes(before.trees, ready.trees),
                cmd == (CommandView::ReadyCommit { batch, batch_commit }),
                writer.number() == batch,
                commit == Commit(before.next_commit),
                before.next_commit < u64::MAX,
                i <= db.trees@.len(),
                db.trees@.len() == trees_ready.len(),
                forall|k: int|
                    0 <= k < db.trees@.len() ==> {
                        &&& (#[trigger] db.trees@[k]).wf()
                        &&& db.trees@[k].reliable() == trees_ready[k].reliable()
                    },
                forall|k: int|
                    0 <= k < i ==> tree_committed(
                        before.trees[k],
                        (#[trigger] db.trees@[k])@,
                        batch,
                        batch_commit,
                        commit,
                    ),
                forall|k: int| i <= k < db.trees@.len() ==> (#[trigger] db.trees@[k]) == trees_ready[k],
            decreases db.trees.len() - i,
        {
            let ghost trees_now = db.trees@;
            proof {
                let k = i as int;
                assert(trees_now[k] == trees_ready[k]);
                assert(ready.trees[k] == trees_ready[k]@);
                assert(ready.trees[k] == before.trees[k].appended(
                    ready.trees[k].records.last().0,
                    cmd,
                ));
                assert(before.trees[k].index.watermark == before.view_commit_limit);
                assert(ready.trees[k].index == before.trees[k].index);
                let steps = ready.trees[k].batches[batch];
                assert(steps.last() == Step::ReadyCommit(batch_commit));
                lemma_terminated(steps, batch_commit, 0);
            }
            writer.commit_to_index(&mut db.trees[i], batch_commit, commit);
            proof {
                assert forall|k: int| 0 <= k < db.trees@.len() implies {
                    &&& (#[trigger] db.trees@[k]).wf()
                    &&& db.trees@[k].reliable() == trees_ready[k].reliable()
                } by {
                    if k != i {
                        assert(db.trees@[k] == trees_now[k]);
                    }
                }
                assert forall|k: int| 0 <= k < i + 1 implies tree_committed(
                    before.trees[k],
                    (#[trigger] db.trees@[k])@,
                    batch,
                    batch_commit,
                    commit,
                ) by {
                    if k != i {
                        assert(db.trees@[k] == trees_now[k]);
                    }
                }
                assert forall|k: int| i + 1 <= k < db.trees@.len() implies (
                #[trigger] db.trees@[k]) == trees_ready[k] by {
                    assert(db.trees@[k] == trees_now[k]);
                }
            }
            i = i + 1;
        }
        db.view_commit_limit = commit.0 + 1;
        proof {
            let after = db@;
            assert(commits_counted(after.commits, after.next_commit, after.view_commit_limit)) by {
                let last = after.commits.len() - 1;
                assert(after.commits.drop_last() == before.commits);
                assert forall|k: int| 0 <= k < last implies after.commits[k] == before.commits[k] by {
                    assert(after.commits.drop_last()[k] == after.commits[k]);
                }
                assert(after.commits[last].1.commit == commit);
            }
            assert forall|k: int| 0 <= k < after.trees.len() implies {
                &&& (#[trigger] after.trees[k]).initialized == after.initialized
                &&& after.trees[k].index.writing is None
                &&& after.trees[k].index.watermark == after.view_commit_limit
                &&& forall|b: Batch| #[trigger]
                    after.trees[k].batches.contains_key(b) ==> b.0 < after.next_batch
                &&& tree_committed(before.trees[k], after.trees[k], batch, batch_commit, commit)
            } by {
                assert(tree_committed(
                    before.trees[k],
                    db.trees@[k]@,
                    batch,
                    batch_commit,
                    commit,
                ));
                assert(db.trees@[k].wf());
                db.trees@[k].lemma_wf();
                assert(before.trees[k].initialized == before.initialized);
                assert(ready.trees[k] == trees_ready[k]@);
                crate::tree::lemma_apply_ops_frame(
                    before.trees[k].index,
                    commit,
                    replayed(after.trees[k].batches[batch], batch_commit).unwrap(),
                );
                assert forall|b: Batch| #[trigger]
                    after.trees[k].batches.contains_key(b) implies b.0 < after.next_batch by {
                    assert(ready.trees[k].batches.contains_key(b));
                }
            }
            assert(db.reliable() == old(db).reliable()) by {
                if old(db).reliable() {
                    assert forall|k: int| 0 <= k < db.trees@.len() implies (
                    #[trigger] db.trees@[k]).reliable() by {
                        assert(trees_ready[k].reliable());
                    }
                }
                if db.reliable() {
                    assert forall|k: int| 0 <= k < trees_ready.len() implies (
                    #[trigger] trees_ready[k]).reliable() by {
                        assert(db.trees@[k].reliable());
                    }
                }
            }
            if recoverable(before) {
                assert(after.commits =~= before.commits.push(after.commits.last()));
                lemma_commit_keeps_recoverable(before, after, batch, after.commits.last().0);
            }
            assert forall|k: int| 0 <= k < before.trees.len() implies tree_keeps(
                before.trees[k],
                #[trigger] after.trees[k],
                before.view_commit_limit,
            ) by {
                let old_tree = before.trees[k];
                let new_tree = after.trees[k];
                assert(tree_committed(old_tree, new_tree, batch, batch_commit, commit));
                assert(new_tree.records.take(old_tree.records.len() as int) =~= old_tree.records);
                assert(db.trees@[k].wf());
                db.trees@[k].lemma_wf();
                assert(old_tree.sound());
                let ops = replayed(new_tree.batches[batch], batch_commit).unwrap();
                assert forall|limit: Commit, key: Seq<u8>|
                    limit.0 <= before.view_commit_limit implies #[trigger] new_tree.index.visible(
                    limit,
                    key,
                ) == old_tree.index.visible(limit, key) by {
                    lemma_commit_unseen(old_tree.index, commit, ops, limit, key);
                }
                lemma_tree_keeps(old_tree, new_tree, before.view_commit_limit);
            }
        }
        Ok(())
    }

    /// Gives the commit up: every tree is asked to log the end of one more
    /// attempt as aborted, and does so unless it has no recording of the
    /// batch or its log fails. Nothing that any reader sees is changed.
    pub fn abort<T: LogFile<Cmd = Command>, C: LogFile<Cmd = CommitCommand>>(
        &self,
        db: &mut Db<T, C>,
    )
        requires
            old(db).wf(),
            old(db)@.initialized,
        ensures
            final(db).wf(),
            final(db).reliable() == old(db).reliable(),
            abort_done(old(db)@, old(db).reliable(), final(db)@, self.number()),
    {
        assert(same_views(db@, db@));
        if db.next_batch_commit == u64::MAX {
            return ;
        }
        let ghost before = db@;
        let batch_commit = BatchCommit(db.next_batch_commit);
        db.next_batch_commit = db.next_batch_commit + 1;
        proof {
            assert(db@.trees == before.trees);
            assert(db.reliable() == old(db).reliable());
        }
        let ghost numbered = db@;
        assert(same_views(before, numbered));
        db.abort_others(self.batch, batch_commit, None);
        proof {
            lemma_same_views_twice(before, numbered, db@);
            if recoverable(before) {
                lemma_given_up_keeps_recoverable(before, db@, old(db).reliable(), self.number());
            }
        }
    }

    /// Ends the batch in every tree.
    pub fn close<T: LogFile<Cmd = Command>, C: LogFile<Cmd = CommitCommand>>(
        self,
        db: &mut Db<T, C>,
    )
        requires
            old(db).wf(),
            old(db)@.initialized,
        ensures
            final(db).wf(),
            final(db).reliable() == old(db).reliable(),
            close_done(old(db)@, old(db).reliable(), final(db)@, self.number()),
    {
        db.close_all(self.batch);
        proof {
            if recoverable(old(db)@) {
                lemma_closed_keeps_recoverable(old(db)@, db@, old(db).reliable(), self.batch);
            }
        }
    }
}

impl<'batch> WriteTree<'batch> {
    /// The name of the tree.
    pub closed spec fn name(&self) -> Seq<char> {
        self.tree@
    }

    /// The batch that the hand belongs to.
    pub closed spec fn batch(&self) -> WriteBatch {
        *self.batch
    }

    fn log<T: LogFile<Cmd = Command>, C: LogFile<Cmd = CommitCommand>>(
        &self,
        db: &mut Db<T, C>,
        cmd: Command,
    ) -> (r: Result<(), DbError>)
        requires
            old(db).wf(),
            old(db)@.initialized,
            cmd@ is Write || cmd@ is Delete || cmd@ is DeleteRange,
        ensures
            final(db).wf(),
            final(db).reliable() == old(db).reliable(),
            logs_in_tree(
                old(db)@,
                old(db).reliable(),
                final(db)@,
                self.name(),
                self.batch().unusable(),
                cmd@,
                r,
            ),
    {
        assert(same_views(db@, db@));
        if self.batch.unusable {
            return Err(DbError::BatchUnusable);
        }
        let tree = match db.find_tree(self.tree.as_str()) {
            Some(tree) => tree,
            None => {
                return Err(DbError::UnknownTree);
            },
        };
        let ghost before = db@;
        let ghost shown = cmd@;
        match db.append_one(tree, cmd) {
            Ok(()) => {
                proof {
                    if recoverable(before) {
                        lemma_logged_in_tree_keeps_recoverable(before, db@, tree as int, shown);
                    }
                }
                Ok(())
            },
            Err(error) => Err(DbError::Tree { tree, error }),
        }
    }

    /// Writes `value` under `key`.
    pub fn write<T: LogFile<Cmd = Command>, C: LogFile<Cmd = CommitCommand>>(
        &self,
        db: &mut Db<T, C>,
        key: &[u8],
        value: &[u8],
    ) -> (r: Result<(), DbError>)
        requires
            old(db).wf(),
            old(db)@.initialized,
        ensures
            final(db).wf(),
            final(db).reliable() == old(db).reliable(),
            logs_in_tree(
                old(db)@,
                old(db).reliable(),
                final(db)@,
                self.name(),
                self.batch().unusable(),
                CommandView::Write { batch: self.batch().number(), key: key@, value: value@ },
                r,
            ),
    {
        self.log(
            db,
            Command::Write {
                batch: self.batch.batch,
                key: Key::from_slice(key),
                value: Value::from_slice(value),
            },
        )
    }

    /// Deletes what stands under `key`.
    pub fn delete<T: LogFile<Cmd = Command>, C: LogFile<Cmd = CommitCommand>>(
        &self,
        db: &mut Db<T, C>,
        key: &[u8],
    ) -> (r: Result<(), DbError>)
        requires
            old(db).wf(),
            old(db)@.initialized,
        ensures
            final(db).wf(),
            final(db).reliable() == old(db).reliable(),
            logs_in_tree(
                old(db)@,
                old(db).reliable(),
                final(db)@,
                self.name(),
                self.batch().unusable(),
                CommandView::Delete { batch: self.batch().number(), key: key@ },
                r,
            ),
    {
        self.log(db, Command::Delete { batch: self.batch.batch, key: Key::from_slice(key) })
    }

    /// Deletes what stands under the keys from `start_key` up to
    /// `end_key`, `end_key` excluded.
    pub fn delete_range<T: LogFile<Cmd = Command>, C: LogFile<Cmd = CommitCommand>>(
        &self,
        db: &mut Db<T, C>,
        start_key: &[u8],
        end_key: &[u8],
    ) -> (r: Result<(), DbError>)
        requires
            old(db).wf(),
            old(db)@.initialized,
            key_le(start_key@, end_key@),
        ensures
            final(db).wf(),
            final(db).reliable() == old(db).reliable(),
            logs_in_tree(
                old(db)@,
                old(db).reliable(),
                final(db)@,
                self.name(),
                self.batch().unusable(),
                CommandView::DeleteRange {
                    batch: self.batch().number(),
                    start_key: start_key@,
                    end_key: end_key@,
                },
                r,
            ),
    {
        self.log(
            db,
            Command::DeleteRange {
                batch: self.batch.batch,
                start_key: Key::from_slice(start_key),
                end_key: Key::from_slice(end_key),
            },
        )
    }
}

impl ReadView {
    /// The hand of the view in the tree called `tree`.
    pub fn tree<'view>(&'view self, tree: &str) -> (r: ReadTree<'view>)
        ensures
            r.name() == tree@,
            r.commit_limit() == self.commit_limit(),
    {
        ReadTree { tree: tree.to_owned(), view: self }
    }
}

/// A cursor over one tree of a database as a read view sees it.
pub struct Cursor {
    tree: usize,
    inner: crate::tree::Cursor,
}

impl<'view> ReadTree<'view> {
    /// The name of the tree.
    pub closed spec fn name(&self) -> Seq<char> {
        self.tree@
    }

    pub closed spec fn commit_limit(&self) -> Commit {
        self.view.commit_limit
    }

    /// The value that the view sees under `key`.
    pub fn read<T: LogFile<Cmd = Command>, C: LogFile<Cmd = CommitCommand>>(
        &self,
        db: &Db<T, C>,
        key: &[u8],
    ) -> (r: Result<Option<Vec<u8>>, DbError>)
        requires
            db.wf(),
            db@.initialized,
        ensures
            was_read(db@, db.reliable(), self.name(), self.commit_limit(), key@, r),
    {
        let tree = match db.find_tree(self.tree.as_str()) {
            Some(tree) => tree,
            None => {
                return Err(DbError::UnknownTree);
            },
        };
        if self.view.commit_limit.0 > db.view_commit_limit {
            return Err(DbError::ViewAhead);
        }
        assert(db.trees@[tree as int].wf());
        assert(db@.trees[tree as int] == db.trees@[tree as int]@);
        assert(db@.trees[tree as int].initialized == db@.initialized);
        let key = Key::from_slice(key);
        match db.trees[tree].read(self.view.commit_limit, &key) {
            Ok(Some(value)) => Ok(Some(value.0)),
            Ok(None) => Ok(None),
            Err(error) => {
                proof {
                    if error is Log && db.reliable() {
                        assert(db.trees@[tree as int].reliable());
                    }
                }
                Err(DbError::Tree { tree, error })
            },
        }
    }

    /// The keys under which the view sees a value in the tree, in their
    /// order, each with its value.
    pub fn entries<T: LogFile<Cmd = Command>, C: LogFile<Cmd = CommitCommand>>(
        &self,
        db: &Db<T, C>,
    ) -> (r: Result<Vec<(Key, Value)>, DbError>)
        requires
            db.wf(),
            db@.initialized,
        ensures
            was_listed(db@, db.reliable(), self.name(), self.commit_limit(), r),
    {
        let tree = match db.find_tree(self.tree.as_str()) {
            Some(tree) => tree,
            None => {
                return Err(DbError::UnknownTree);
            },
        };
        if self.view.commit_limit.0 > db.view_commit_limit {
            return Err(DbError::ViewAhead);
        }
        assert(db.trees@[tree as int].wf());
        assert(db@.trees[tree as int] == db.trees@[tree as int]@);
        assert(db@.trees[tree as int].initialized == db@.initialized);
        match db.trees[tree].entries(self.view.commit_limit) {
            Ok(entries) => Ok(entries),
            Err(error) => {
                proof {
                    if error is Log && db.reliable() {
                        assert(db.trees@[tree as int].reliable());
                    }
                }
                Err(DbError::Tree { tree, error })
            },
        }
    }

    /// A cursor over the tree as the view sees it, at no key yet.
    pub fn cursor<T: LogFile<Cmd = Command>, C: LogFile<Cmd = CommitCommand>>(
        &self,
        db: &Db<T, C>,
    ) -> (r: Result<Cursor, DbError>)
        requires
            db.wf(),
            db@.initialized,
        ensures
            match db@.tree_number(self.name()) {
                None => r == Err::<Cursor, DbError>(DbError::UnknownTree),
                Some(i) => if self.commit_limit().0 > db@.view_commit_limit {
                    r == Err::<Cursor, DbError>(DbError::ViewAhead)
                } else {
                    &&& r matches Ok(cursor)
                    &&& cursor.tree() == i
                    &&& cursor.commit_limit() == self.commit_limit()
                    &&& cursor.current() is None
                    &&& cursor.cached() is None
                    &&& cursor.fits(db@)
                },
            },
    {
        let tree = match db.find_tree(self.tree.as_str()) {
            Some(tree) => tree,
            None => {
                return Err(DbError::UnknownTree);
            },
        };
        if self.view.commit_limit.0 > db.view_commit_limit {
            return Err(DbError::ViewAhead);
        }
        assert(db.trees@[tree as int].wf());
        assert(db@.trees[tree as int] == db.trees@[tree as int]@);
        assert(db@.trees[tree as int].initialized == db@.initialized);
        Ok(Cursor { tree, inner: db.trees[tree].cursor(self.view.commit_limit) })
    }
}

impl Cursor {
    /// The number of the tree that the cursor moves in.
    pub closed spec fn tree(&self) -> int {
        self.tree as int
    }

    pub closed spec fn commit_limit(&self) -> Commit {
        self.inner.commit_limit()
    }

    /// The key that the cursor stands at and the address of its value.
    pub closed spec fn current(&self) -> Option<(Seq<u8>, Address)> {
        self.inner.current()
    }

    /// The value that the cursor has read at its place, if it has.
    pub closed spec fn cached(&self) -> Option<Seq<u8>> {
        self.inner.cached()
    }

    /// The database has the tree of the cursor, and is complete up to the
    /// commit limit of the cursor.
    pub open spec fn fits(&self, db: DbView) -> bool {
        &&& db.initialized
        &&& 0 <= self.tree() < db.trees.len()
        &&& self.commit_limit().0 <= db.view_commit_limit
    }

    /// The cursor stands at a key.
    pub fn valid(&self) -> (r: bool)
        ensures
            r == self.current() is Some,
    {
        self.inner.valid()
    }

    pub fn key(&self) -> (key: Vec<u8>)
        requires
            self.current() is Some,
        ensures
            key@ == self.current().unwrap().0,
    {
        self.inner.key().0
    }

    /// The value at the cursor: the one it has read before at this place,
    /// or else the one that the log of the tree holds at the address.
    pub fn value<T: LogFile<Cmd = Command>, C: LogFile<Cmd = CommitCommand>>(
        &mut self,
        db: &Db<T, C>,
    ) -> (r: Result<Vec<u8>, DbError>)
        requires
            db.wf(),
            old(self).fits(db@),
            old(self).current() is Some,
        ensures
            final(self).tree() == old(self).tree(),
            final(self).commit_limit() == old(self).commit_limit(),
            final(self).current() == old(self).current(),
            ({
                let (key, address) = old(self).current().unwrap();
                let records = db@.trees[old(self).tree()].records;
                match old(self).cached() {
                    Some(cached) => r matches Ok(value) && value@ == cached && final(self).cached()
                        == Some(cached),
                    None => match r {
                        Ok(value) => stored_value(records, address, key) == Some(value@) && final(self).cached() == Some(value@),
                        Err(DbError::Tree { tree, error: TreeError::UnexpectedLog }) => has_record(
                            records,
                            address,
                        ) && stored_value(records, address, key) is None && final(self).cached() is None,
                        Err(DbError::Tree { tree, error: TreeError::Log(_) }) => !(db.reliable()
                            && has_record(records, address)) && final(self).cached() is None,
                        Err(_) => false,
                    },
                }
            }),
            db@.trees[old(self).tree()].index.visible(
                old(self).commit_limit(),
                old(self).current().unwrap().0,
            ) == Some(old(self).current().unwrap().1) ==> (r matches Err(
                DbError::Tree { error, .. },
            ) ==> error is Log && !db.reliable()),
    {
        assert(db.trees@[self.tree as int].wf());
        assert(db@.trees[self.tree as int] == db.trees@[self.tree as int]@);
        match self.inner.value(&db.trees[self.tree]) {
            Ok(value) => Ok(value.0),
            Err(error) => {
                proof {
                    if error is Log && db.reliable() {
                        assert(db.trees@[self.tree as int].reliable());
                    }
                }
                Err(DbError::Tree { tree: self.tree, error })
            },
        }
    }

    /// Moves to the next key under which the view sees a value.
    pub fn next<T: LogFile<Cmd = Command>, C: LogFile<Cmd = CommitCommand>>(&mut self, db: &Db<T, C>)
        requires
            db.wf(),
            old(self).fits(db@),
            old(self).current() is Some,
        ensures
            final(self).tree() == old(self).tree(),
            final(self).commit_limit() == old(self).commit_limit(),
            final(self).cached() is None,
            first_visible(
                db@.trees[old(self).tree()].index,
                old(self).commit_limit(),
                Some((old(self).current().unwrap().0, false)),
                final(self).current(),
            ),
    {
        assert(db.trees@[self.tree as int].wf());
        assert(db@.trees[self.tree as int] == db.trees@[self.tree as int]@);
        self.inner.next(&db.trees[self.tree])
    }

    /// Moves to the previous key under which the view sees a value.
    pub fn prev<T: LogFile<Cmd = Command>, C: LogFile<Cmd = CommitCommand>>(&mut self, db: &Db<T, C>)
        requires
            db.wf(),
            old(self).fits(db@),
            old(self).current() is Some,
        ensures
            final(self).tree() == old(self).tree(),
            final(self).commit_limit() == old(self).commit_limit(),
            final(self).cached() is None,
            last_visible(
                db@.trees[old(self).tree()].index,
                old(self).commit_limit(),
                Some((old(self).current().unwrap().0, false)),
                final(self).current(),
            ),
    {
        assert(db.trees@[self.tree as int].wf());
        assert(db@.trees[self.tree as int] == db.trees@[self.tree as int]@);
        self.inner.prev(&db.trees[self.tree])
    }

    /// Moves to the first key under which the view sees a value.
    pub fn seek_first<T: LogFile<Cmd = Command>, C: LogFile<Cmd = CommitCommand>>(
        &mut self,
        db: &Db<T, C>,
    )
        requires
            db.wf(),
            old(self).fits(db@),
        ensures
            final(self).tree() == old(self).tree(),
            final(self).commit_limit() == old(self).commit_limit(),
            final(self).cached() is None,
            first_visible(
                db@.trees[old(self).tree()].index,
                old(self).commit_limit(),
                None,
                final(self).current(),
            ),
    {
        assert(db.trees@[self.tree as int].wf());
        assert(db@.trees[self.tree as int] == db.trees@[self.tree as int]@);
        self.inner.seek_first(&db.trees[self.tree])
    }

    /// Moves to the last key under which the view sees a value.
    pub fn seek_last<T: LogFile<Cmd = Command>, C: LogFile<Cmd = CommitCommand>>(
        &mut self,
        db: &Db<T, C>,
    )
        requires
            db.wf(),
            old(self).fits(db@),
        ensures
            final(self).tree() == old(self).tree(),
            final(self).commit_limit() == old(self).commit_limit(),
            final(self).cached() is None,
            last_visible(
                db@.trees[old(self).tree()].index,
                old(self).commit_limit(),
                None,
                final(self).current(),
            ),
    {
        assert(db.trees@[self.tree as int].wf());
        assert(db@.trees[self.tree as int] == db.trees@[self.tree as int]@);
        self.inner.seek_last(&db.trees[self.tree])
    }

    /// Moves to the first key at or after `key` under which the view sees
    /// a value.
    pub fn seek_key<T: LogFile<Cmd = Command>, C: LogFile<Cmd = CommitCommand>>(
        &mut self,
        db: &Db<T, C>,
        key: &[u8],
    )
        requires
            db.wf(),
            old(self).fits(db@),
        ensures
            final(self).tree() == old(self).tree(),
            final(self).commit_limit() == old(self).commit_limit(),
            final(self).cached() is None,
            first_visible(
                db@.trees[old(self).tree()].index,
                old(self).commit_limit(),
                Some((key@, true)),
                final(self).current(),
            ),
    {
        assert(db.trees@[self.tree as int].wf());
        assert(db@.trees[self.tree as int] == db.trees@[self.tree as int]@);
        self.inner.seek_key(&db.trees[self.tree], Key::from_slice(key))
    }

    /// Moves to the last key at or before `key` under which the view sees
    /// a value.
    pub fn seek_key_rev<T: LogFile<Cmd = Command>, C: LogFile<Cmd = CommitCommand>>(
        &mut self,
        db: &Db<T, C>,
        key: &[u8],
    )
        requires
            db.wf(),
            old(self).fits(db@),
        ensures
            final(self).tree() == old(self).tree(),
            final(self).commit_limit() == old(self).commit_limit(),
            final(self).cached() is None,
            last_visible(
                db@.trees[old(self).tree()].index,
                old(self).commit_limit(),
                Some((key@, true)),
                final(self).current(),
            ),
    {
        assert(db.trees@[self.tree as int].wf());
        assert(db@.trees[self.tree as int] == db.trees@[self.tree as int]@);
        self.inner.seek_key_rev(&db.trees[self.tree], Key::from_slice(key))
    }
}


/// An attempt that the recording holds no end of is ended by the step that
/// makes it ready.
proof fn lemma_new_attempt(steps: Seq<Step>, batch_commit: BatchCommit, i: int)
    requires
        0 <= i <= steps.len(),
        terminator_from(steps, batch_commit, i) is None,
    ensures
        terminator_from(steps.push(Step::ReadyCommit(batch_commit)), batch_commit, i) == Some(
            steps.len() as int,
        ),
    decreases steps.len() - i,
{
    let grown = steps.push(Step::ReadyCommit(batch_commit));
    if i < steps.len() {
        assert(grown[i] == steps[i]);
        lemma_new_attempt(steps, batch_commit, i + 1);
    }
}

/// The range deletes that a commit adds come after those that the index
/// held, carry the commit, and are numbered below the number of its
/// operations.
pub proof fn lemma_apply_ops_ranges(index: IndexView, commit: Commit, ops: Seq<IndexOpView>)
    requires
        ops.len() <= u32::MAX + 1,
    ensures
        apply_ops(index, commit, ops).ranges.len() >= index.ranges.len(),
        forall|i: int|
            0 <= i < index.ranges.len() ==> (#[trigger] apply_ops(index, commit, ops).ranges[i])
                == index.ranges[i],
        forall|i: int|
            index.ranges.len() <= i < apply_ops(index, commit, ops).ranges.len() ==> (
            #[trigger] apply_ops(index, commit, ops).ranges[i]).commit == commit && apply_ops(
                index,
                commit,
                ops,
            ).ranges[i].batch_idx.0 < ops.len(),
    decreases ops.len(),
{
    if ops.len() > 0 {
        lemma_apply_ops_ranges(index, commit, ops.drop_last());
    }
}

/// The newest range delete that a reader sees over a key is one of the
/// range deletes, lies below the reader's limit, and holds the key.
proof fn lemma_latest_range_delete_member(ranges: Seq<RangeDeleteView>, limit: Commit, key: Seq<u8>)
    ensures
        latest_range_delete(ranges, limit, key) matches Some(range) ==> range.commit.0 < limit.0
            && exists|i: int| 0 <= i < ranges.len() && #[trigger] ranges[i] == range,
    decreases ranges.len(),
{
    if ranges.len() > 0 {
        let n = ranges.len() - 1;
        assert(ranges[n] == ranges.last());
        lemma_latest_range_delete_member(ranges.drop_last(), limit, key);
        match latest_range_delete(ranges.drop_last(), limit, key) {
            Some(range) => {
                let i = choose|i: int|
                    0 <= i < ranges.drop_last().len() && #[trigger] ranges.drop_last()[i] == range;
                assert(ranges[i] == range);
            },
            None => {},
        }
    }
}

/// The entries that a commit adds to the histories come after those that
/// the index held, carry the commit, and are numbered below the number of
/// its operations.
pub proof fn lemma_apply_ops_points(index: IndexView, commit: Commit, ops: Seq<IndexOpView>)
    requires
        ops.len() <= u32::MAX + 1,
    ensures
        forall|k: Seq<u8>, i: int|
            apply_ops(index, commit, ops).points.contains_key(k) && 0 <= i < apply_ops(
                index,
                commit,
                ops,
            ).points[k].len() ==> {
                let entry = #[trigger] apply_ops(index, commit, ops).points[k][i];
                ||| index.points.contains_key(k) && i < index.points[k].len() && entry
                    == index.points[k][i]
                ||| entry.commit == commit && entry.batch_idx.0 < ops.len()
            },
    decreases ops.len(),
{
    if ops.len() > 0 {
        lemma_apply_ops_points(index, commit, ops.drop_last());
        let before = apply_ops(index, commit, ops.drop_last());
        let after = apply_ops(index, commit, ops);
        assert forall|k: Seq<u8>, i: int|
            after.points.contains_key(k) && 0 <= i < after.points[k].len() implies {
            let entry = #[trigger] after.points[k][i];
            ||| index.points.contains_key(k) && i < index.points[k].len() && entry
                == index.points[k][i]
            ||| entry.commit == commit && entry.batch_idx.0 < ops.len()
        } by {
            if before.points.contains_key(k) && i < before.points[k].len() {
                assert(after.points[k][i] == before.points[k][i]);
            }
        }
    }
}

/// What a commit attempt that the recording held no end of puts into the
/// index: all that the recording comes to.
proof fn lemma_new_attempt_plays_all(
    before: TreeView,
    after: TreeView,
    batch: Batch,
    batch_commit: BatchCommit,
    commit: Commit,
)
    requires
        before.batches.contains_key(batch),
        legal(before.batches[batch]),
        terminator_from(before.batches[batch], batch_commit, 0) is None,
        tree_committed(before, after, batch, batch_commit, commit),
    ensures
        after.index == committed(before.index, commit, played(before.batches[batch]).ops),
        played(before.batches[batch]).ops.len() <= u32::MAX,
{
    let steps = before.batches[batch];
    let cmd = CommandView::ReadyCommit { batch, batch_commit };
    let ready = before.appended(after.records.last().0, cmd);
    let grown = steps.push(Step::ReadyCommit(batch_commit));
    assert(ready.batches[batch] == grown);
    lemma_new_attempt(steps, batch_commit, 0);
    assert(grown.take(steps.len() as int) =~= steps);
    lemma_played_bounded(steps);
}

/// A commit changes nothing under a key that no operation of the batch
/// touches.
///
/// `before` is a tree, and `after` the tree after the attempt
/// `batch_commit` of its batch `batch`, of which the recording held no
/// end, was committed as `commit`. Where none of the operations that the
/// recording comes to touches `key`, a view with the commit limit right
/// above `commit` reads under `key` what a view with the commit limit of
/// before the commit reads.
pub proof fn lemma_committed_keeps_untouched(
    before: TreeView,
    after: TreeView,
    batch: Batch,
    batch_commit: BatchCommit,
    commit: Commit,
    key: Seq<u8>,
)
    requires
        before.index.inv(),
        before.index.writing is None,
        can_commit(before.index, commit),
        before.batches.contains_key(batch),
        legal(before.batches[batch]),
        terminator_from(before.batches[batch], batch_commit, 0) is None,
        tree_committed(before, after, batch, batch_commit, commit),
        forall|j: int|
            0 <= j < played(before.batches[batch]).ops.len() ==> !touches(
                #[trigger] played(before.batches[batch]).ops[j],
                key,
            ),
    ensures
        after.value(Commit((commit.0 + 1) as u64), key) == after.value(
            Commit(before.index.watermark),
            key,
        ),
{
    lemma_new_attempt_plays_all(before, after, batch, batch_commit, commit);
    let ops = played(before.batches[batch]).ops;
    let above = Commit((commit.0 + 1) as u64);
    let floor = Commit(before.index.watermark);
    lemma_untouched_key(before.index, commit, ops, above, key);
    lemma_untouched_key(before.index, commit, ops, floor, key);
    lemma_nothing_above_watermark(before.index, above, key);
    let grown = apply_ops(before.index, commit, ops);
    assert(after.index.visible(above, key) == grown.visible(above, key));
    assert(after.index.visible(floor, key) == grown.visible(floor, key));
}

/// Deletes of ranges that end where they start, or before, change
/// nothing: where every operation that the recording of the batch comes to
/// is such a delete, a view with the commit limit right above the commit
/// reads under every key what a view with the commit limit of before the
/// commit reads.
pub proof fn lemma_committed_empty_ranges_change_nothing(
    before: TreeView,
    after: TreeView,
    batch: Batch,
    batch_commit: BatchCommit,
    commit: Commit,
    key: Seq<u8>,
)
    requires
        before.index.inv(),
        before.index.writing is None,
        can_commit(before.index, commit),
        before.batches.contains_key(batch),
        legal(before.batches[batch]),
        terminator_from(before.batches[batch], batch_commit, 0) is None,
        tree_committed(before, after, batch, batch_commit, commit),
        forall|j: int|
            0 <= j < played(before.batches[batch]).ops.len() ==> (#[trigger] played(
                before.batches[batch],
            ).ops[j] matches IndexOpView::DeleteRange { start_key, end_key, .. } && key_le(
                end_key,
                start_key,
            )),
    ensures
        after.value(Commit((commit.0 + 1) as u64), key) == after.value(
            Commit(before.index.watermark),
            key,
        ),
{
    let ops = played(before.batches[batch]).ops;
    assert forall|j: int| 0 <= j < ops.len() implies !touches(#[trigger] ops[j], key) by {
        match ops[j] {
            IndexOpView::DeleteRange { start_key, end_key, .. } => {
                crate::types::lemma_empty_range(key, start_key, end_key);
            },
            _ => {},
        }
    }
    lemma_committed_keeps_untouched(before, after, batch, batch_commit, commit, key);
}

/// A key that a batch deletes last has no value after the commit of the
/// batch.
///
/// `before` is a tree whose batch `batch` has the delete of `key` as the
/// last of the operations that its recording comes to, those that were
/// rolled back left out; `after` is the tree after the attempt
/// `batch_commit`, of which the recording held no end, was committed as
/// `commit`. Then a view with the commit limit right above `commit` reads
/// nothing under `key`.
pub proof fn lemma_committed_delete_hides(
    before: TreeView,
    after: TreeView,
    batch: Batch,
    batch_commit: BatchCommit,
    commit: Commit,
    key: Seq<u8>,
    address: Address,
)
    requires
        can_commit(before.index, commit),
        before.batches.contains_key(batch),
        legal(before.batches[batch]),
        played(before.batches[batch]).ops.len() > 0,
        played(before.batches[batch]).ops.last() == (IndexOpView::Delete { key, address }),
        terminator_from(before.batches[batch], batch_commit, 0) is None,
        tree_committed(before, after, batch, batch_commit, commit),
    ensures
        after.value(Commit((commit.0 + 1) as u64), key) is None,
{
    let steps = before.batches[batch];
    lemma_new_attempt_plays_all(before, after, batch, batch_commit, commit);
    let ops = played(steps).ops;
    let prev = ops.drop_last();
    assert(ops =~= prev.push(IndexOpView::Delete { key, address }));
    assert(ops.drop_last() =~= prev);
    let limit = Commit((commit.0 + 1) as u64);
    let base = apply_ops(before.index, commit, prev);
    let entry = Entry {
        commit,
        value: ReadValue::Deleted(address),
        batch_idx: BatchIdx((ops.len() - 1) as u32),
    };
    assert(apply_ops(before.index, commit, ops) == base.with_entry(key, entry));
    assert(after.index.points == base.with_entry(key, entry).points);
    assert(after.index.history(key).last() == entry);
    assert(after.index.point(limit, key) == Some(entry));
}

/// A key in a range that a batch deletes last has no value after the
/// commit of the batch.
///
/// `before` is a tree whose batch `batch` has the delete of the range from
/// `start` to `end` as the last of the operations that its recording comes
/// to, those that were rolled back left out; `after` is the tree after the
/// attempt `batch_commit`, of which the recording held no end, was
/// committed as `commit`. Then a view with the commit limit right above
/// `commit` reads nothing under a key of the range, whatever the batch
/// wrote there before.
pub proof fn lemma_committed_delete_range_hides(
    before: TreeView,
    after: TreeView,
    batch: Batch,
    batch_commit: BatchCommit,
    commit: Commit,
    start: Seq<u8>,
    end: Seq<u8>,
    address: Address,
    key: Seq<u8>,
)
    requires
        before.index.inv(),
        before.index.writing is None,
        can_commit(before.index, commit),
        before.batches.contains_key(batch),
        legal(before.batches[batch]),
        played(before.batches[batch]).ops.len() > 0,
        played(before.batches[batch]).ops.last() == (IndexOpView::DeleteRange {
            start_key: start,
            end_key: end,
            address,
        }),
        terminator_from(before.batches[batch], batch_commit, 0) is None,
        tree_committed(before, after, batch, batch_commit, commit),
        crate::types::in_range(key, start, end),
    ensures
        after.value(Commit((commit.0 + 1) as u64), key) is None,
{
    let steps = before.batches[batch];
    lemma_new_attempt_plays_all(before, after, batch, batch_commit, commit);
    let ops = played(steps).ops;
    let prev = ops.drop_last();
    assert(ops =~= prev.push(IndexOpView::DeleteRange { start_key: start, end_key: end, address }));
    assert(ops.drop_last() =~= prev);
    let limit = Commit((commit.0 + 1) as u64);
    let base = apply_ops(before.index, commit, prev);
    let range = RangeDeleteView {
        commit,
        start,
        end,
        batch_idx: BatchIdx((ops.len() - 1) as u32),
    };
    assert(apply_ops(before.index, commit, ops) == base.with_range(range));
    let index = after.index;
    assert(index.ranges == base.ranges.push(range));
    assert(index.ranges.last() == range);
    assert(latest_range_delete(index.ranges, limit, key) == Some(range));
    assert(index.points == base.points);
    lemma_apply_ops_points(before.index, commit, prev);
    crate::index::lemma_latest_entry_member(index.history(key), limit);
    match index.point(limit, key) {
        Some(entry) => {
            let i = choose|i: int|
                0 <= i < index.history(key).len() && #[trigger] index.history(key)[i] == entry;
            assert(base.points[key][i] == entry);
            if before.index.points.contains_key(key) && i < before.index.points[key].len()
                && entry == before.index.points[key][i] {
                assert(before.index.settled(before.index.points[key][i].commit));
            }
            assert(!later(entry.commit, entry.batch_idx, range.commit, range.batch_idx));
        },
        None => {},
    }
    assert(index.visible(limit, key) is None);
}

/// A value that a batch writes last is read after the commit of the batch.
///
/// `before` is a tree whose batch `batch` has the write of `value` under
/// `key`, logged at `address`, as the last of the operations that its
/// recording comes to, those that were rolled back left out; `after` is
/// the tree after the attempt `batch_commit`, of which the recording held
/// no end, was committed as `commit`. Then a view with the commit limit
/// right above `commit` reads `value` under `key`, whatever the batch
/// deleted there before.
pub proof fn lemma_committed_write_is_read(
    before: TreeView,
    after: TreeView,
    batch: Batch,
    batch_commit: BatchCommit,
    commit: Commit,
    key: Seq<u8>,
    value: Seq<u8>,
    address: Address,
)
    requires
        before.index.inv(),
        before.index.writing is None,
        can_commit(before.index, commit),
        ordered(after.records),
        before.batches.contains_key(batch),
        legal(before.batches[batch]),
        played(before.batches[batch]).ops.len() > 0,
        played(before.batches[batch]).ops.last() == (IndexOpView::Write { key, address }),
        terminator_from(before.batches[batch], batch_commit, 0) is None,
        stored_value(before.records, address, key) == Some(value),
        tree_committed(before, after, batch, batch_commit, commit),
    ensures
        after.value(Commit((commit.0 + 1) as u64), key) == Some(value),
{
    let steps = before.batches[batch];
    let cmd = CommandView::ReadyCommit { batch, batch_commit };
    let ready = before.appended(after.records.last().0, cmd);
    let grown = steps.push(Step::ReadyCommit(batch_commit));
    assert(ready.batches[batch] == grown);
    lemma_new_attempt(steps, batch_commit, 0);
    assert(grown.take(steps.len() as int) =~= steps);
    let ops = played(steps).ops;
    assert(replayed(grown, batch_commit) == Some(ops));
    lemma_played_bounded(steps);
    let prev = ops.drop_last();
    let write = IndexOpView::Write { key, address };
    assert(ops =~= prev.push(write));
    assert(ops.drop_last() =~= prev);
    let limit = Commit((commit.0 + 1) as u64);
    let base = apply_ops(before.index, commit, prev);
    let entry = Entry {
        commit,
        value: ReadValue::Written(address),
        batch_idx: BatchIdx((ops.len() - 1) as u32),
    };
    assert(apply_ops(before.index, commit, ops) == base.with_entry(key, entry));
    let index = after.index;
    assert(index.points == base.with_entry(key, entry).points);
    assert(index.ranges == base.ranges);
    assert(index.history(key).last() == entry);
    assert(index.point(limit, key) == Some(entry));
    lemma_apply_ops_ranges(before.index, commit, prev);
    lemma_latest_range_delete_member(index.ranges, limit, key);
    match latest_range_delete(index.ranges, limit, key) {
        Some(range) => {
            let i = choose|i: int| 0 <= i < index.ranges.len() && #[trigger] index.ranges[i] == range;
            if i < before.index.ranges.len() {
                assert(base.ranges[i] == before.index.ranges[i]);
                assert(before.index.settled(before.index.ranges[i].commit));
            } else {
                assert(base.ranges[i].commit == commit && base.ranges[i].batch_idx.0 < prev.len());
            }
            assert(later(commit, entry.batch_idx, range.commit, range.batch_idx));
        },
        None => {},
    }
    assert(index.visible(limit, key) == Some(address));
    assert(after.records == before.records.push((after.records.last().0, cmd)));
    assert(ordered(before.records)) by {
        assert forall|i: int, j: int| 0 <= i < j < before.records.len() implies (
        #[trigger] before.records[i]).0.0 < (#[trigger] before.records[j]).0.0 by {
            assert(after.records[i] == before.records[i]);
            assert(after.records[j] == before.records[j]);
        }
        if before.records.len() > 0 {
            assert(after.records[0] == before.records[0]);
        }
    }
    lemma_push_record(before.records, after.records.last().0, cmd);
}

} // verus!
