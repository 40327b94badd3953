//! What a script is sure to do on a reliable database: which of its
//! commands cannot fail, and what is read after them.
use vstd::prelude::*;

use crate::batch_player::{
    IndexOpView,
    Played,
    Step,
    apply_step,
    legal,
    lemma_terminator,
    max_ops,
    played,
    step_of,
    terminator_from,
    unended,
};
use crate::cmdscript::{
    Command,
    ExecError,
    Line,
    OpenBatch,
    SessionView,
    Stage,
    bytes_of,
    command_did,
    deleted_now,
    expected_view,
    has_numbers,
    line_expected,
    logged_for_batch,
    ran_in_steps,
    save_point_moved,
    script_ran,
    stepped,
    value_view,
    written_now,
};
use crate::command::CommandView;
use crate::db::{
    DbError,
    DbView,
    batch_opened,
    close_done,
    commit_done,
    lemma_committed_delete_range_hides,
    lemma_committed_write_is_read,
    tree_committed,
};
use crate::log_file::lemma_push_record;
use crate::recovery::{
    lemma_closed_keeps_restorable,
    lemma_failed_commit_keeps_restorable,
    lemma_given_up_keeps_restorable,
    lemma_logged_in_all_keeps_restorable,
    lemma_logged_in_tree_keeps_restorable,
    lemma_opened_keeps_restorable,
    restorable,
};
use crate::tree::{can_commit, stored_value};
use crate::types::{
    Address,
    Batch,
    BatchCommit,
    Commit,
    in_range,
    key_lt,
    lemma_key_lt_irreflexive,
    lemma_key_lt_transitive,
};

verus! {

/// The batch `number` is open in every tree of the database and no commit
/// of it was tried. In the tree `tree` its recording comes to `so_far`; in
/// the other trees it holds as many save points.
pub open spec fn batch_stands(db: DbView, number: Batch, tree: int, so_far: Played) -> bool {
    &&& 0 <= tree < db.trees.len()
    &&& forall|k: int|
        0 <= k < db.trees.len() ==> {
            &&& (#[trigger] db.trees[k]).batches.contains_key(number)
            &&& legal(db.trees[k].batches[number])
            &&& unended(db.trees[k].batches[number])
            &&& played(db.trees[k].batches[number]).save_points.len() == so_far.save_points.len()
        }
    &&& played(db.trees[tree].batches[number]) == so_far
}

/// The values that the records of `before` hold are held by `after` too.
pub open spec fn values_kept(
    before: Seq<(Address, CommandView)>,
    after: Seq<(Address, CommandView)>,
) -> bool {
    forall|address: Address, key: Seq<u8>|
        (#[trigger] stored_value(before, address, key)) is Some ==> stored_value(after, address, key)
            == stored_value(before, address, key)
}

/// A recording that grows by a step that ends no attempt: it stays
/// without end, and comes to what the step makes of what it came to.
proof fn lemma_step_recorded(steps: Seq<Step>, step: Step)
    requires
        unended(steps),
        !(step is ReadyCommit),
        !(step is AbortCommit),
    ensures
        unended(steps.push(step)),
        played(steps.push(step)) == apply_step(played(steps), step),
        legal(steps.push(step)) == (legal(steps) && crate::batch_player::accepts(played(steps), step)),
{
    let grown = steps.push(step);
    assert(grown.drop_last() =~= steps);
    assert forall|t: int| 0 <= t < grown.len() implies !((#[trigger] grown[t]) is ReadyCommit) && !(
    grown[t] is AbortCommit) by {
        if t < steps.len() {
            assert(grown[t] == steps[t]);
        }
    }
}

/// A record that is appended keeps the values of the records before it.
proof fn lemma_values_kept(records: Seq<(Address, CommandView)>, address: Address, cmd: CommandView)
    requires
        crate::log_file::ordered(records.push((address, cmd))),
    ensures
        values_kept(records, records.push((address, cmd))),
{
    lemma_push_record(records, address, cmd);
}

/// On a reliable database the opening of a batch fails only where the
/// batch numbers have run out. The batch that is opened has the next
/// number, and stands in every tree with an empty recording.
pub proof fn lemma_open_is_owed(before: DbView, after: DbView, r: Result<Batch, DbError>, tree: int)
    requires
        batch_opened(before, true, after, r),
        before.valid(),
        after.valid(),
        before.next_batch < u64::MAX,
        0 <= tree < before.trees.len(),
    ensures
        r == Ok::<Batch, DbError>(Batch(before.next_batch)),
        batch_stands(
            after,
            Batch(before.next_batch),
            tree,
            Played { ops: Seq::empty(), save_points: Seq::empty() },
        ),
        forall|k: int|
            0 <= k < before.trees.len() ==> values_kept(
                before.trees[k].records,
                (#[trigger] after.trees[k]).records,
            ),
{
    let number = Batch(before.next_batch);
    assert(r is Ok);
    assert(after.trees.len() == before.trees.len());
    assert forall|k: int| 0 <= k < after.trees.len() implies {
        &&& (#[trigger] after.trees[k]).batches.contains_key(number)
        &&& after.trees[k].batches[number] == Seq::<Step>::empty()
    } by {
        assert(after.trees[k] == before.trees[k].appended(
            after.trees[k].records.last().0,
            CommandView::Open { batch: number },
        ));
    }
    assert forall|k: int| 0 <= k < before.trees.len() implies values_kept(
        before.trees[k].records,
        (#[trigger] after.trees[k]).records,
    ) by {
        assert(after.trees[k] == before.trees[k].appended(
            after.trees[k].records.last().0,
            CommandView::Open { batch: number },
        ));
        lemma_values_kept(
            before.trees[k].records,
            after.trees[k].records.last().0,
            CommandView::Open { batch: number },
        );
    }
}

/// On a reliable database a write, a delete or a delete of a range that
/// does not end before it starts fails in an open batch only where the
/// tree is not known or the batch is full.
/// The operation is then the last that the recording of the batch in that
/// tree comes to, and a value that was written is stored where the
/// operation says.
pub proof fn lemma_log_is_owed(
    before: DbView,
    after: DbView,
    tree_name: Seq<char>,
    number: Batch,
    cmd: CommandView,
    r: Result<(), ExecError>,
    tree: int,
    so_far: Played,
)
    requires
        logged_for_batch(
            before,
            true,
            after,
            tree_name,
            OpenBatch { number, unusable: false },
            cmd,
            r,
        ),
        cmd.batch() == number,
        cmd is Write || cmd is Delete || cmd is DeleteRange,
        cmd matches CommandView::DeleteRange { start_key, end_key, .. } ==> crate::types::key_le(
            start_key,
            end_key,
        ),
        before.valid(),
        after.valid(),
        before.tree_number(tree_name) == Some(tree),
        batch_stands(before, number, tree, so_far),
        so_far.ops.len() < max_ops(),
    ensures
        r is Ok,
        before.same_but_trees(after),
        step_of(cmd, after.trees[tree].records.last().0) matches Some(Step::Op(op)) && batch_stands(
            after,
            number,
            tree,
            Played { ops: so_far.ops.push(op), save_points: so_far.save_points },
        ),
        cmd matches CommandView::Write { key, value, .. } ==> stored_value(
            after.trees[tree].records,
            after.trees[tree].records.last().0,
            key,
        ) == Some(value),
        values_kept(before.trees[tree].records, after.trees[tree].records),
{
    let steps = before.trees[tree].batches[number];
    assert(before.trees[tree].batches.contains_key(number));
    assert(crate::batch_player::rejection(before.trees[tree].batches, cmd) is None);
    assert(r is Ok);
    let address = after.trees[tree].records.last().0;
    assert(after.trees[tree] == before.trees[tree].appended(address, cmd));
    let step = step_of(cmd, address).unwrap();
    lemma_step_recorded(steps, step);
    assert(after.trees[tree].batches[number] == steps.push(step));
    assert forall|k: int| 0 <= k < after.trees.len() implies {
        &&& (#[trigger] after.trees[k]).batches.contains_key(number)
        &&& legal(after.trees[k].batches[number])
        &&& unended(after.trees[k].batches[number])
        &&& played(after.trees[k].batches[number]).save_points.len() == so_far.save_points.len()
    } by {
        if k != tree {
            assert(after.trees[k] == before.trees[k]);
        }
    }
    lemma_push_record(before.trees[tree].records, address, cmd);
}

/// On a reliable database a command on the save points of an open batch
/// fails only where a save point is popped or rolled back to and none is
/// set. The batch stays usable, and its recording in every tree comes to
/// what the step makes of what it came to.
pub proof fn lemma_save_point_is_owed(
    before: DbView,
    after: DbView,
    session: SessionView,
    left: SessionView,
    name: Seq<char>,
    number: Batch,
    cmd: CommandView,
    r: Result<(), ExecError>,
    tree: int,
    so_far: Played,
)
    requires
        save_point_moved(before, true, after, session, left, name, cmd, r),
        session.batches[name] == (OpenBatch { number, unusable: false }),
        cmd.batch() == number,
        cmd is PushSavePoint || cmd is PopSavePoint || cmd is RollbackSavePoint,
        cmd is PushSavePoint || so_far.save_points.len() > 0,
        before.valid(),
        after.valid(),
        batch_stands(before, number, tree, so_far),
    ensures
        r is Ok,
        before.same_but_trees(after),
        left.batches.contains_key(name),
        left.batches[name] == (OpenBatch { number, unusable: false }),
        batch_stands(after, number, tree, apply_step(so_far, step_of(cmd, Address(0)).unwrap())),
        values_kept(before.trees[tree].records, after.trees[tree].records),
{
    let step = step_of(cmd, Address(0)).unwrap();
    assert forall|k: int| 0 <= k < before.trees.len() implies crate::batch_player::rejection(
        (#[trigger] before.trees[k]).batches,
        cmd,
    ) is None by {
        assert(before.trees[k].batches.contains_key(number));
    }
    assert(r is Ok);
    assert forall|k: int| 0 <= k < after.trees.len() implies {
        &&& (#[trigger] after.trees[k]).batches.contains_key(number)
        &&& legal(after.trees[k].batches[number])
        &&& unended(after.trees[k].batches[number])
        &&& played(after.trees[k].batches[number]) == apply_step(
            played(before.trees[k].batches[number]),
            step,
        )
    } by {
        let address = after.trees[k].records.last().0;
        assert(after.trees[k] == before.trees[k].appended(address, cmd));
        assert(step_of(cmd, address) == Some(step));
        assert(before.trees[k].batches.contains_key(number));
        lemma_step_recorded(before.trees[k].batches[number], step);
    }
    let address = after.trees[tree].records.last().0;
    assert(after.trees[tree] == before.trees[tree].appended(address, cmd));
    lemma_push_record(before.trees[tree].records, address, cmd);
}

/// On a reliable database the commit of an open batch of which no commit
/// was tried fails only where the numbers of commits have run out. The
/// views that are taken afterwards have the commit limit right above the
/// commit, and every tree has put into its index what the recording of the
/// batch comes to.
pub proof fn lemma_commit_is_owed(
    before: DbView,
    after: DbView,
    number: Batch,
    r: Result<(), DbError>,
    tree: int,
    so_far: Played,
)
    requires
        commit_done(before, true, after, number, false, r),
        before.valid(),
        batch_stands(before, number, tree, so_far),
        before.next_batch_commit < u64::MAX,
        before.next_commit < u64::MAX,
    ensures
        r is Ok,
        after.view_commit_limit == before.next_commit + 1,
        after.names == before.names,
        can_commit(before.trees[tree].index, Commit(before.next_commit)),
        legal(before.trees[tree].batches[number]),
        terminator_from(
            before.trees[tree].batches[number],
            BatchCommit(before.next_batch_commit),
            0,
        ) is None,
        tree_committed(
            before.trees[tree],
            after.trees[tree],
            number,
            BatchCommit(before.next_batch_commit),
            Commit(before.next_commit),
        ),
{
    let ready = CommandView::ReadyCommit {
        batch: number,
        batch_commit: BatchCommit(before.next_batch_commit),
    };
    assert forall|k: int| 0 <= k < before.trees.len() implies crate::batch_player::rejection(
        (#[trigger] before.trees[k]).batches,
        ready,
    ) is None by {
        assert(before.trees[k].batches.contains_key(number));
    }
    match r {
        Ok(()) => {},
        Err(e) => {
            if e is Tree {
                assert(before.trees[e->tree as int].batches.contains_key(number));
            }
            assert(false);
        },
    }
    lemma_terminator(before.trees[tree].batches[number], BatchCommit(before.next_batch_commit), 0);
}

/// The closing of a batch changes nothing that is read in a tree.
pub proof fn lemma_close_keeps_values(before: DbView, after: DbView, number: Batch, tree: int)
    requires
        close_done(before, true, after, number),
        after.valid(),
        0 <= tree < before.trees.len(),
    ensures
        before.same_but_trees(after),
        forall|limit: Commit, key: Seq<u8>| #[trigger]
            after.value(tree, limit, key) == before.value(tree, limit, key),
{
    if after.trees[tree] != before.trees[tree] {
        let address = after.trees[tree].records.last().0;
        let cmd = CommandView::Close { batch: number };
        assert(after.trees[tree] == before.trees[tree].appended(address, cmd));
        lemma_push_record(before.trees[tree].records, address, cmd);
        assert forall|limit: Commit, key: Seq<u8>| #[trigger]
            after.value(tree, limit, key) == before.value(tree, limit, key) by {
            assert(after.trees[tree].index == before.trees[tree].index);
            match before.trees[tree].index.visible(limit, key) {
                Some(found) => {
                    if !crate::log_file::has_record(before.trees[tree].records, found) {
                        if crate::log_file::has_record(after.trees[tree].records, found) {
                            let p = crate::log_file::position(after.trees[tree].records, found);
                            crate::log_file::lemma_position(after.trees[tree].records, p);
                        }
                    }
                },
                None => {},
            }
        }
    }
}

/// On a reliable database a read that expects what the views of the
/// database read cannot fail, and shows that.
pub proof fn lemma_read_assert_is_owed(
    db: DbView,
    tree_name: Seq<char>,
    key: Seq<char>,
    expected: Option<String>,
    lines: Seq<Line>,
    r: Result<(), ExecError>,
    tree: int,
)
    requires
        line_expected(db, true, Commit(db.view_commit_limit), tree_name, key, expected, lines, r),
        db.tree_number(tree_name) == Some(tree),
        db.value(tree, Commit(db.view_commit_limit), bytes_of(key)) == expected_view(expected),
    ensures
        r is Ok,
        lines.len() == 1,
        lines[0].key@ == bytes_of(key),
        value_view(lines[0].value) == expected_view(expected),
{
}

/// On a reliable database a write in a batch of its own fails only where
/// the tree is not known or a counter has run out.
pub proof fn lemma_write_is_owed(
    before: DbView,
    after: DbView,
    tree_name: Seq<char>,
    key: Seq<u8>,
    value: Seq<u8>,
    r: Result<(), DbError>,
)
    requires
        written_now(before, true, after, tree_name, key, value, r),
        before.tree_number(tree_name) is Some,
        has_numbers(before),
    ensures
        r is Ok,
{
}

/// What the command that led to stage `k` of a script came to: the error
/// of the script where the script failed and the stage is its last.
pub open spec fn outcome(stages: Seq<Stage>, r: Result<Vec<Line>, ExecError>, k: int) -> Result<
    (),
    ExecError,
> {
    match r {
        Err(e) => if k == stages.len() - 1 {
            Err(e)
        } else {
            Ok(())
        },
        Ok(_) => Ok(()),
    }
}

/// Every stage of a script but the first was reached from the stage
/// before it by the command of its place.
proof fn lemma_stage(
    before: DbView,
    after: DbView,
    commands: Seq<Command>,
    stages: Seq<Stage>,
    r: Result<Vec<Line>, ExecError>,
    k: int,
)
    requires
        ran_in_steps(before, true, after, commands, stages, r),
        1 <= k < stages.len(),
    ensures
        stepped(stages[k - 1], true, stages[k], commands[k - 1], outcome(stages, r, k)),
        stages[k - 1].db.valid(),
        stages[k].db.valid(),
        stages[k].db.names == stages[k - 1].db.names,
        stages[k].db.trees.len() == stages[k - 1].db.trees.len(),
{
    let done = stages.len() - 1;
    if k < done {
        let j = k - 1;
        assert(stepped(stages[j], true, stages[j + 1], commands[j], Ok(())));
    }
}

/// The script that writes a value and then expects to read it.
pub open spec fn write_and_expect(tree: String, key: String, value: String) -> Seq<Command> {
    seq![
        Command::Write { tree, key, value },
        Command::ReadAssert { tree, key, expected_value: Some(value) },
    ]
}

/// What a script writes, it reads back: on a reliable database that has
/// the tree and whose counters have not run out, the script that writes
/// a value under a key and then expects to read that value under the key
/// succeeds, and shows the key with the value.
pub proof fn lemma_script_reads_what_it_wrote(
    before: DbView,
    after: DbView,
    tree: String,
    key: String,
    value: String,
    r: Result<Vec<Line>, ExecError>,
)
    requires
        script_ran(before, true, after, write_and_expect(tree, key, value), r),
        before.tree_number(tree@) is Some,
        has_numbers(before),
    ensures
        r matches Ok(lines) && lines@.len() == 1 && lines@[0].key@ == bytes_of(key@) && value_view(
            lines@[0].value,
        ) == Some(bytes_of(value@)),
{
    let commands = write_and_expect(tree, key, value);
    let stages = choose|stages: Seq<Stage>| ran_in_steps(before, true, after, commands, stages, r);
    let done = stages.len() - 1;
    let i = before.tree_number(tree@).unwrap();
    if done >= 1 {
        lemma_stage(before, after, commands, stages, r, 1);
        let said = crate::cmdscript::db_said(outcome(stages, r, 1)).unwrap();
        lemma_write_is_owed(before, stages[1].db, tree@, bytes_of(key@), bytes_of(value@), said);
        assert(stages[1].shown =~= stages[0].shown);
    }
    if done >= 2 {
        lemma_stage(before, after, commands, stages, r, 2);
        let lines = stages[2].shown.skip(stages[1].shown.len() as int);
        lemma_read_assert_is_owed(
            stages[1].db,
            tree@,
            key@,
            Some(value),
            lines,
            outcome(stages, r, 2),
            i,
        );
        assert(lines[0] == stages[2].shown[0]);
    }
}

/// What the database said to the opening of a batch, as the script has
/// it.
pub open spec fn opening(number: Batch, r: Result<(), ExecError>) -> Result<Batch, DbError> {
    match r {
        Err(ExecError::Db(e)) => Err(e),
        _ => Ok(number),
    }
}

/// The script that writes a value in a batch, then deletes a range in the
/// same batch, commits, and expects to read nothing under the key.
pub open spec fn write_then_delete_range(
    batch: String,
    tree: String,
    key: String,
    value: String,
    start: String,
    end: String,
) -> Seq<Command> {
    seq![
        Command::BatchOpen { batch },
        Command::BatchWrite { batch, tree, key, value },
        Command::BatchDeleteRange { batch, tree, start, end },
        Command::BatchCommit { batch },
        Command::BatchClose { batch },
        Command::ReadAssert { tree, key, expected_value: None },
    ]
}

/// A delete of a range hides what the same batch wrote before it: on a
/// reliable database that has the tree and whose counters have not run
/// out, the script that writes a value under a key in a batch, then
/// deletes in the same batch a range that holds the key, commits the
/// batch and expects to read nothing under the key succeeds.
#[verifier::rlimit(80)]
#[verifier::spinoff_prover]
pub proof fn lemma_script_range_delete_hides_earlier_write(
    before: DbView,
    after: DbView,
    batch: String,
    tree: String,
    key: String,
    value: String,
    start: String,
    end: String,
    r: Result<Vec<Line>, ExecError>,
)
    requires
        script_ran(
            before,
            true,
            after,
            write_then_delete_range(batch, tree, key, value, start, end),
            r,
        ),
        before.initialized,
        before.tree_number(tree@) is Some,
        has_numbers(before),
        in_range(bytes_of(key@), bytes_of(start@), bytes_of(end@)),
    ensures
        r matches Ok(lines) && lines@.len() == 1 && lines@[0].key@ == bytes_of(key@)
            && lines@[0].value is None,
{
    let commands = write_then_delete_range(batch, tree, key, value, start, end);
    let stages = choose|stages: Seq<Stage>| ran_in_steps(before, true, after, commands, stages, r);
    let done = stages.len() - 1;
    let i = before.tree_number(tree@).unwrap();
    let n = Batch(before.next_batch);
    let k = bytes_of(key@);
    let none = Played { ops: Seq::empty(), save_points: Seq::empty() };
    crate::types::lemma_key_lt_total(bytes_of(start@), bytes_of(end@));
    if key_lt(bytes_of(end@), bytes_of(start@)) {
        lemma_key_lt_irreflexive(k);
        if k != bytes_of(start@) {
            lemma_key_lt_transitive(bytes_of(start@), k, bytes_of(end@));
            lemma_key_lt_transitive(bytes_of(start@), bytes_of(end@), bytes_of(start@));
            lemma_key_lt_irreflexive(bytes_of(start@));
        } else {
            lemma_key_lt_transitive(k, bytes_of(end@), k);
        }
    }
    if done >= 1 {
        lemma_stage(before, after, commands, stages, r, 1);
        lemma_open_is_owed(before, stages[1].db, opening(n, outcome(stages, r, 1)), i);
        assert(stages[1].shown =~= stages[0].shown);
    }
    if done >= 2 {
        lemma_stage(before, after, commands, stages, r, 2);
        lemma_log_is_owed(
            stages[1].db,
            stages[2].db,
            tree@,
            n,
            CommandView::Write { batch: n, key: k, value: bytes_of(value@) },
            outcome(stages, r, 2),
            i,
            none,
        );
        assert(stages[2].shown =~= stages[1].shown);
    }
    let a1 = stages[2].db.trees[i].records.last().0;
    let first = Played {
        ops: none.ops.push(IndexOpView::Write { key: k, address: a1 }),
        save_points: none.save_points,
    };
    if done >= 3 {
        lemma_stage(before, after, commands, stages, r, 3);
        lemma_log_is_owed(
            stages[2].db,
            stages[3].db,
            tree@,
            n,
            CommandView::DeleteRange {
                batch: n,
                start_key: bytes_of(start@),
                end_key: bytes_of(end@),
            },
            outcome(stages, r, 3),
            i,
            first,
        );
        assert(stages[3].shown =~= stages[2].shown);
    }
    let a2 = stages[3].db.trees[i].records.last().0;
    let second = Played {
        ops: first.ops.push(
            IndexOpView::DeleteRange {
                start_key: bytes_of(start@),
                end_key: bytes_of(end@),
                address: a2,
            },
        ),
        save_points: first.save_points,
    };
    if done >= 4 {
        lemma_stage(before, after, commands, stages, r, 4);
        let said = crate::cmdscript::db_said(outcome(stages, r, 4)).unwrap();
        lemma_commit_is_owed(stages[3].db, stages[4].db, n, said, i, second);
        lemma_committed_delete_range_hides(
            stages[3].db.trees[i],
            stages[4].db.trees[i],
            n,
            BatchCommit(before.next_batch_commit),
            Commit(before.next_commit),
            bytes_of(start@),
            bytes_of(end@),
            a2,
            k,
        );
        assert(stages[4].shown =~= stages[3].shown);
    }
    if done >= 5 {
        lemma_stage(before, after, commands, stages, r, 5);
        lemma_close_keeps_values(stages[4].db, stages[5].db, n, i);
        assert(stages[5].shown =~= stages[4].shown);
    }
    if done >= 6 {
        lemma_stage(before, after, commands, stages, r, 6);
        let lines = stages[6].shown.skip(stages[5].shown.len() as int);
        lemma_read_assert_is_owed(stages[5].db, tree@, key@, None, lines, outcome(stages, r, 6), i);
        assert(lines[0] == stages[6].shown[0]);
    }
}

/// The script that writes a value in a batch, deletes a range in the same
/// batch, writes a value under the key once more, commits, and expects to
/// read the value that was written last.
pub open spec fn write_after_delete_range(
    batch: String,
    tree: String,
    key: String,
    earlier: String,
    start: String,
    end: String,
    value: String,
) -> Seq<Command> {
    seq![
        Command::BatchOpen { batch },
        Command::BatchWrite { batch, tree, key, value: earlier },
        Command::BatchDeleteRange { batch, tree, start, end },
        Command::BatchWrite { batch, tree, key, value },
        Command::BatchCommit { batch },
        Command::BatchClose { batch },
        Command::ReadAssert { tree, key, expected_value: Some(value) },
    ]
}

/// A write wins over a delete of a range that the same batch made before
/// it: on a reliable database that has the tree and whose counters have
/// not run out, the script that writes under a key in a batch, deletes a
/// range in the same batch, writes a value under the key once more, in
/// the range or not, commits the batch and expects to read that value
/// under the key succeeds.
#[verifier::rlimit(80)]
#[verifier::spinoff_prover]
pub proof fn lemma_script_write_wins_over_earlier_range_delete(
    before: DbView,
    after: DbView,
    batch: String,
    tree: String,
    key: String,
    earlier: String,
    start: String,
    end: String,
    value: String,
    r: Result<Vec<Line>, ExecError>,
)
    requires
        script_ran(
            before,
            true,
            after,
            write_after_delete_range(batch, tree, key, earlier, start, end, value),
            r,
        ),
        before.initialized,
        before.tree_number(tree@) is Some,
        has_numbers(before),
        !key_lt(bytes_of(end@), bytes_of(start@)),
    ensures
        r matches Ok(lines) && lines@.len() == 1 && lines@[0].key@ == bytes_of(key@) && value_view(
            lines@[0].value,
        ) == Some(bytes_of(value@)),
{
    let commands = write_after_delete_range(batch, tree, key, earlier, start, end, value);
    crate::types::lemma_key_lt_total(bytes_of(start@), bytes_of(end@));
    let stages = choose|stages: Seq<Stage>| ran_in_steps(before, true, after, commands, stages, r);
    let done = stages.len() - 1;
    let i = before.tree_number(tree@).unwrap();
    let n = Batch(before.next_batch);
    let k = bytes_of(key@);
    let none = Played { ops: Seq::empty(), save_points: Seq::empty() };
    if done >= 1 {
        lemma_stage(before, after, commands, stages, r, 1);
        lemma_open_is_owed(before, stages[1].db, opening(n, outcome(stages, r, 1)), i);
        assert(stages[1].shown =~= stages[0].shown);
    }
    if done >= 2 {
        lemma_stage(before, after, commands, stages, r, 2);
        lemma_log_is_owed(
            stages[1].db,
            stages[2].db,
            tree@,
            n,
            CommandView::Write { batch: n, key: k, value: bytes_of(earlier@) },
            outcome(stages, r, 2),
            i,
            none,
        );
        assert(stages[2].shown =~= stages[1].shown);
    }
    let a0 = stages[2].db.trees[i].records.last().0;
    let written = Played {
        ops: none.ops.push(IndexOpView::Write { key: k, address: a0 }),
        save_points: none.save_points,
    };
    if done >= 3 {
        lemma_stage(before, after, commands, stages, r, 3);
        lemma_log_is_owed(
            stages[2].db,
            stages[3].db,
            tree@,
            n,
            CommandView::DeleteRange {
                batch: n,
                start_key: bytes_of(start@),
                end_key: bytes_of(end@),
            },
            outcome(stages, r, 3),
            i,
            written,
        );
        assert(stages[3].shown =~= stages[2].shown);
    }
    let a1 = stages[3].db.trees[i].records.last().0;
    let first = Played {
        ops: written.ops.push(
            IndexOpView::DeleteRange {
                start_key: bytes_of(start@),
                end_key: bytes_of(end@),
                address: a1,
            },
        ),
        save_points: written.save_points,
    };
    if done >= 4 {
        lemma_stage(before, after, commands, stages, r, 4);
        lemma_log_is_owed(
            stages[3].db,
            stages[4].db,
            tree@,
            n,
            CommandView::Write { batch: n, key: k, value: bytes_of(value@) },
            outcome(stages, r, 4),
            i,
            first,
        );
        assert(stages[4].shown =~= stages[3].shown);
    }
    let a2 = stages[4].db.trees[i].records.last().0;
    let second = Played {
        ops: first.ops.push(IndexOpView::Write { key: k, address: a2 }),
        save_points: first.save_points,
    };
    if done >= 5 {
        lemma_stage(before, after, commands, stages, r, 5);
        let said = crate::cmdscript::db_said(outcome(stages, r, 5)).unwrap();
        lemma_commit_is_owed(stages[4].db, stages[5].db, n, said, i, second);
        lemma_committed_write_is_read(
            stages[4].db.trees[i],
            stages[5].db.trees[i],
            n,
            BatchCommit(before.next_batch_commit),
            Commit(before.next_commit),
            k,
            bytes_of(value@),
            a2,
        );
        assert(stages[5].shown =~= stages[4].shown);
    }
    if done >= 6 {
        lemma_stage(before, after, commands, stages, r, 6);
        lemma_close_keeps_values(stages[5].db, stages[6].db, n, i);
        assert(stages[6].shown =~= stages[5].shown);
    }
    if done >= 7 {
        lemma_stage(before, after, commands, stages, r, 7);
        let lines = stages[7].shown.skip(stages[6].shown.len() as int);
        lemma_read_assert_is_owed(
            stages[6].db,
            tree@,
            key@,
            Some(value),
            lines,
            outcome(stages, r, 7),
            i,
        );
        assert(lines[0] == stages[7].shown[0]);
    }
}

/// The script that writes a value in a batch, sets a save point, writes a
/// second value under the same key, rolls back to the save point, commits,
/// and expects to read the first value.
pub open spec fn write_and_roll_back(
    batch: String,
    tree: String,
    key: String,
    first: String,
    second: String,
) -> Seq<Command> {
    seq![
        Command::BatchOpen { batch },
        Command::BatchWrite { batch, tree, key, value: first },
        Command::BatchPushSavePoint { batch },
        Command::BatchWrite { batch, tree, key, value: second },
        Command::BatchRollbackSavePoint { batch },
        Command::BatchCommit { batch },
        Command::BatchClose { batch },
        Command::ReadAssert { tree, key, expected_value: Some(first) },
    ]
}

/// What is rolled back is not committed: on a reliable database that has
/// the tree and whose counters have not run out, the script that writes a
/// value under a key in a batch, sets a save point, writes a second value
/// under the key, rolls back to the save point, commits the batch and
/// expects to read the first value under the key succeeds.
#[verifier::rlimit(80)]
#[verifier::spinoff_prover]
pub proof fn lemma_script_roll_back_keeps_first_value(
    before: DbView,
    after: DbView,
    batch: String,
    tree: String,
    key: String,
    first: String,
    second: String,
    r: Result<Vec<Line>, ExecError>,
)
    requires
        script_ran(before, true, after, write_and_roll_back(batch, tree, key, first, second), r),
        before.initialized,
        before.tree_number(tree@) is Some,
        has_numbers(before),
    ensures
        r matches Ok(lines) && lines@.len() == 1 && lines@[0].key@ == bytes_of(key@) && value_view(
            lines@[0].value,
        ) == Some(bytes_of(first@)),
{
    let commands = write_and_roll_back(batch, tree, key, first, second);
    let stages = choose|stages: Seq<Stage>| ran_in_steps(before, true, after, commands, stages, r);
    let done = stages.len() - 1;
    let i = before.tree_number(tree@).unwrap();
    let n = Batch(before.next_batch);
    let k = bytes_of(key@);
    let none = Played { ops: Seq::empty(), save_points: Seq::empty() };
    if done >= 1 {
        lemma_stage(before, after, commands, stages, r, 1);
        lemma_open_is_owed(before, stages[1].db, opening(n, outcome(stages, r, 1)), i);
        assert(stages[1].shown =~= stages[0].shown);
    }
    if done >= 2 {
        lemma_stage(before, after, commands, stages, r, 2);
        lemma_log_is_owed(
            stages[1].db,
            stages[2].db,
            tree@,
            n,
            CommandView::Write { batch: n, key: k, value: bytes_of(first@) },
            outcome(stages, r, 2),
            i,
            none,
        );
        assert(stages[2].shown =~= stages[1].shown);
    }
    let a1 = stages[2].db.trees[i].records.last().0;
    let written = Played {
        ops: none.ops.push(IndexOpView::Write { key: k, address: a1 }),
        save_points: none.save_points,
    };
    let saved = apply_step(written, Step::PushSavePoint);
    if done >= 3 {
        lemma_stage(before, after, commands, stages, r, 3);
        lemma_save_point_is_owed(
            stages[2].db,
            stages[3].db,
            stages[2].session,
            stages[3].session,
            batch@,
            n,
            CommandView::PushSavePoint { batch: n },
            outcome(stages, r, 3),
            i,
            written,
        );
        assert(stages[3].shown =~= stages[2].shown);
    }
    let a2 = stages[4].db.trees[i].records.last().0;
    let rewritten = Played {
        ops: saved.ops.push(IndexOpView::Write { key: k, address: a2 }),
        save_points: saved.save_points,
    };
    if done >= 4 {
        lemma_stage(before, after, commands, stages, r, 4);
        lemma_log_is_owed(
            stages[3].db,
            stages[4].db,
            tree@,
            n,
            CommandView::Write { batch: n, key: k, value: bytes_of(second@) },
            outcome(stages, r, 4),
            i,
            saved,
        );
        assert(stages[4].shown =~= stages[3].shown);
    }
    let rolled_back = apply_step(rewritten, Step::RollbackSavePoint);
    assert(rolled_back.ops =~= written.ops);
    if done >= 5 {
        lemma_stage(before, after, commands, stages, r, 5);
        lemma_save_point_is_owed(
            stages[4].db,
            stages[5].db,
            stages[4].session,
            stages[5].session,
            batch@,
            n,
            CommandView::RollbackSavePoint { batch: n },
            outcome(stages, r, 5),
            i,
            rewritten,
        );
        assert(stages[5].shown =~= stages[4].shown);
    }
    if done >= 6 {
        lemma_stage(before, after, commands, stages, r, 6);
        let said = crate::cmdscript::db_said(outcome(stages, r, 6)).unwrap();
        lemma_commit_is_owed(stages[5].db, stages[6].db, n, said, i, rolled_back);
        lemma_committed_write_is_read(
            stages[5].db.trees[i],
            stages[6].db.trees[i],
            n,
            BatchCommit(before.next_batch_commit),
            Commit(before.next_commit),
            k,
            bytes_of(first@),
            a1,
        );
        assert(stages[6].shown =~= stages[5].shown);
    }
    if done >= 7 {
        lemma_stage(before, after, commands, stages, r, 7);
        lemma_close_keeps_values(stages[6].db, stages[7].db, n, i);
        assert(stages[7].shown =~= stages[6].shown);
    }
    if done >= 8 {
        lemma_stage(before, after, commands, stages, r, 8);
        let lines = stages[8].shown.skip(stages[7].shown.len() as int);
        lemma_read_assert_is_owed(
            stages[7].db,
            tree@,
            key@,
            Some(first),
            lines,
            outcome(stages, r, 8),
            i,
        );
        assert(lines[0] == stages[8].shown[0]);
    }
}

/// The script that writes a value in a batch, commits and closes the
/// batch, and expects to read the value.
pub open spec fn write_in_batch(batch: String, tree: String, key: String, value: String) -> Seq<
    Command,
> {
    seq![
        Command::BatchOpen { batch },
        Command::BatchWrite { batch, tree, key, value },
        Command::BatchCommit { batch },
        Command::BatchClose { batch },
        Command::ReadAssert { tree, key, expected_value: Some(value) },
    ]
}

/// What a batch writes is read once the batch is committed: on a reliable
/// database that has the tree and whose counters have not run out, the
/// script that opens a batch, writes a value under a key, commits and
/// closes the batch and expects to read the value under the key succeeds.
/// The key and the value may be empty.
#[verifier::rlimit(80)]
#[verifier::spinoff_prover]
pub proof fn lemma_script_committed_write_is_read(
    before: DbView,
    after: DbView,
    batch: String,
    tree: String,
    key: String,
    value: String,
    r: Result<Vec<Line>, ExecError>,
)
    requires
        script_ran(before, true, after, write_in_batch(batch, tree, key, value), r),
        before.initialized,
        before.tree_number(tree@) is Some,
        has_numbers(before),
    ensures
        r matches Ok(lines) && lines@.len() == 1 && lines@[0].key@ == bytes_of(key@) && value_view(
            lines@[0].value,
        ) == Some(bytes_of(value@)),
{
    let commands = write_in_batch(batch, tree, key, value);
    let stages = choose|stages: Seq<Stage>| ran_in_steps(before, true, after, commands, stages, r);
    let done = stages.len() - 1;
    let i = before.tree_number(tree@).unwrap();
    let n = Batch(before.next_batch);
    let k = bytes_of(key@);
    let none = Played { ops: Seq::empty(), save_points: Seq::empty() };
    if done >= 1 {
        lemma_stage(before, after, commands, stages, r, 1);
        lemma_open_is_owed(before, stages[1].db, opening(n, outcome(stages, r, 1)), i);
        assert(stages[1].shown =~= stages[0].shown);
    }
    if done >= 2 {
        lemma_stage(before, after, commands, stages, r, 2);
        lemma_log_is_owed(
            stages[1].db,
            stages[2].db,
            tree@,
            n,
            CommandView::Write { batch: n, key: k, value: bytes_of(value@) },
            outcome(stages, r, 2),
            i,
            none,
        );
        assert(stages[2].shown =~= stages[1].shown);
    }
    let address = stages[2].db.trees[i].records.last().0;
    let written = Played {
        ops: none.ops.push(IndexOpView::Write { key: k, address }),
        save_points: none.save_points,
    };
    if done >= 3 {
        lemma_stage(before, after, commands, stages, r, 3);
        let said = crate::cmdscript::db_said(outcome(stages, r, 3)).unwrap();
        lemma_commit_is_owed(stages[2].db, stages[3].db, n, said, i, written);
        lemma_committed_write_is_read(
            stages[2].db.trees[i],
            stages[3].db.trees[i],
            n,
            BatchCommit(before.next_batch_commit),
            Commit(before.next_commit),
            k,
            bytes_of(value@),
            address,
        );
        assert(stages[3].shown =~= stages[2].shown);
    }
    if done >= 4 {
        lemma_stage(before, after, commands, stages, r, 4);
        lemma_close_keeps_values(stages[3].db, stages[4].db, n, i);
        assert(stages[4].shown =~= stages[3].shown);
    }
    if done >= 5 {
        lemma_stage(before, after, commands, stages, r, 5);
        let lines = stages[5].shown.skip(stages[4].shown.len() as int);
        lemma_read_assert_is_owed(
            stages[4].db,
            tree@,
            key@,
            Some(value),
            lines,
            outcome(stages, r, 5),
            i,
        );
        assert(lines[0] == stages[5].shown[0]);
    }
}

/// The delete of a range that ends where it starts is no deletion: where
/// it succeeds in a batch of its own, the views that are taken afterwards
/// read under every key of every tree what the views read that were taken
/// before.
pub proof fn lemma_empty_range_deletes_nothing(
    before: DbView,
    after: DbView,
    reliable: bool,
    tree_name: Seq<char>,
    start: Seq<u8>,
    end: Seq<u8>,
    r: Result<(), ExecError>,
    tree: int,
    key: Seq<u8>,
)
    requires
        deleted_now(before, reliable, after, tree_name, start, Some(end), r),
        r is Ok,
        crate::types::key_le(end, start),
        0 <= tree < before.trees.len(),
    ensures
        after.value(tree, Commit(after.view_commit_limit), key) == before.value(
            tree,
            Commit(before.view_commit_limit),
            key,
        ),
{
    crate::types::lemma_empty_range(key, start, end);
}

/// The command ends with a commit: it is a commit of a batch, or a write
/// or a deletion in a batch of its own.
pub open spec fn commits(command: Command) -> bool {
    command is BatchCommit || command is Write || command is Delete || command is DeleteRange
}

/// No command of a script but one that commits changes what a crash would
/// restore, and a commit that fails does not either: after any other
/// command, whatever came of it, a database that was restorable is
/// restorable.
pub proof fn lemma_command_keeps_restorable(
    before: DbView,
    reliable: bool,
    after: DbView,
    session: SessionView,
    left: SessionView,
    command: Command,
    lines: Seq<Line>,
    r: Result<(), ExecError>,
)
    requires
        command_did(before, reliable, after, session, left, command, lines, r),
        restorable(before),
        !commits(command) || (command is BatchCommit && r is Err),
    ensures
        restorable(after),
{
    match command {
        Command::BatchOpen { batch } => {
            lemma_opened_keeps_restorable(
                before,
                after,
                reliable,
                opening(Batch(before.next_batch), r),
            );
        },
        Command::BatchWrite { batch, tree, key, value } => {
            if session.batches.contains_key(batch@) {
                lemma_logged_in_tree_keeps_restorable(
                    before,
                    after,
                    reliable,
                    tree@,
                    session.batches[batch@].unusable,
                    CommandView::Write {
                        batch: session.batches[batch@].number,
                        key: bytes_of(key@),
                        value: bytes_of(value@),
                    },
                    crate::cmdscript::db_said(r).unwrap(),
                );
            }
        },
        Command::BatchDelete { batch, tree, key } => {
            if session.batches.contains_key(batch@) {
                lemma_logged_in_tree_keeps_restorable(
                    before,
                    after,
                    reliable,
                    tree@,
                    session.batches[batch@].unusable,
                    CommandView::Delete {
                        batch: session.batches[batch@].number,
                        key: bytes_of(key@),
                    },
                    crate::cmdscript::db_said(r).unwrap(),
                );
            }
        },
        Command::BatchDeleteRange { batch, tree, start, end } => {
            if session.batches.contains_key(batch@) && !key_lt(bytes_of(end@), bytes_of(start@)) {
                lemma_logged_in_tree_keeps_restorable(
                    before,
                    after,
                    reliable,
                    tree@,
                    session.batches[batch@].unusable,
                    CommandView::DeleteRange {
                        batch: session.batches[batch@].number,
                        start_key: bytes_of(start@),
                        end_key: bytes_of(end@),
                    },
                    crate::cmdscript::db_said(r).unwrap(),
                );
            }
        },
        Command::BatchPushSavePoint { batch } => {
            if session.batches.contains_key(batch@) {
                lemma_logged_in_all_keeps_restorable(
                    before,
                    after,
                    reliable,
                    session.batches[batch@].unusable,
                    left.batches[batch@].unusable,
                    CommandView::PushSavePoint { batch: session.batches[batch@].number },
                    crate::cmdscript::db_said(r).unwrap(),
                );
            }
        },
        Command::BatchPopSavePoint { batch } => {
            if session.batches.contains_key(batch@) {
                lemma_logged_in_all_keeps_restorable(
                    before,
                    after,
                    reliable,
                    session.batches[batch@].unusable,
                    left.batches[batch@].unusable,
                    CommandView::PopSavePoint { batch: session.batches[batch@].number },
                    crate::cmdscript::db_said(r).unwrap(),
                );
            }
        },
        Command::BatchRollbackSavePoint { batch } => {
            if session.batches.contains_key(batch@) {
                lemma_logged_in_all_keeps_restorable(
                    before,
                    after,
                    reliable,
                    session.batches[batch@].unusable,
                    left.batches[batch@].unusable,
                    CommandView::RollbackSavePoint { batch: session.batches[batch@].number },
                    crate::cmdscript::db_said(r).unwrap(),
                );
            }
        },
        Command::BatchCommit { batch } => {
            if session.batches.contains_key(batch@) {
                lemma_failed_commit_keeps_restorable(
                    before,
                    after,
                    reliable,
                    session.batches[batch@].number,
                    session.batches[batch@].unusable,
                    crate::cmdscript::db_said(r).unwrap(),
                );
            }
        },
        Command::BatchAbort { batch } => {
            if session.batches.contains_key(batch@) {
                lemma_given_up_keeps_restorable(
                    before,
                    after,
                    reliable,
                    session.batches[batch@].number,
                );
            }
        },
        Command::BatchClose { batch } => {
            if session.batches.contains_key(batch@) {
                lemma_closed_keeps_restorable(
                    before,
                    after,
                    reliable,
                    session.batches[batch@].number,
                );
            }
        },
        _ => {},
    }
}

} // verus!
