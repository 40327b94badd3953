//! A delete of an empty range among the operations of a batch: the commit
//! of the batch leaves to read what it would leave without it.
use vstd::prelude::*;

use crate::batch_player::IndexOpView;
use crate::db::{lemma_apply_ops_points, lemma_apply_ops_ranges};
use crate::index::{
    BatchIdx,
    Entry,
    IndexView,
    RangeDeleteView,
    latest_entry,
    latest_range_delete,
};
use crate::tree::{apply_op, apply_ops, can_commit, committed};
use crate::types::{Commit, key_le, lemma_empty_range};

verus! {

/// The place of an operation of the commit `commit` once one more
/// operation stands at the place `at`: the operations from `at` on move up
/// by one.
pub open spec fn moved(commit: Commit, at: int, of: Commit, idx: BatchIdx) -> BatchIdx {
    if of == commit && idx.0 >= at {
        BatchIdx((idx.0 + 1) as u32)
    } else {
        idx
    }
}

pub open spec fn moved_entry(commit: Commit, at: int, entry: Entry) -> Entry {
    Entry { batch_idx: moved(commit, at, entry.commit, entry.batch_idx), ..entry }
}

pub open spec fn moved_range(commit: Commit, at: int, range: RangeDeleteView) -> RangeDeleteView {
    RangeDeleteView { batch_idx: moved(commit, at, range.commit, range.batch_idx), ..range }
}

/// `wide` holds what `plain` holds and one range delete more, `extra`, at
/// the place `m` of its range deletes; the operations of the commit from
/// the place `at` on stand one place higher in `wide`.
pub open spec fn widened(
    plain: IndexView,
    wide: IndexView,
    commit: Commit,
    at: int,
    m: int,
    extra: RangeDeleteView,
) -> bool {
    &&& forall|k: Seq<u8>| plain.points.contains_key(k) <==> wide.points.contains_key(k)
    &&& forall|k: Seq<u8>| #[trigger]
        plain.points.contains_key(k) ==> wide.points[k].len() == plain.points[k].len()
    &&& forall|k: Seq<u8>, i: int|
        plain.points.contains_key(k) && 0 <= i < plain.points[k].len() ==> {
            &&& (#[trigger] wide.points[k][i]) == moved_entry(commit, at, plain.points[k][i])
            &&& plain.points[k][i].commit == commit ==> plain.points[k][i].batch_idx.0 < u32::MAX
        }
    &&& 0 <= m <= plain.ranges.len()
    &&& wide.ranges.len() == plain.ranges.len() + 1
    &&& wide.ranges[m] == extra
    &&& forall|i: int|
        0 <= i < plain.ranges.len() ==> {
            &&& (#[trigger] plain.ranges[i]).commit == commit ==> plain.ranges[i].batch_idx.0
                < u32::MAX
            &&& wide.ranges[if i < m {
                i
            } else {
                i + 1
            }] == moved_range(commit, at, plain.ranges[i])
        }
}

/// Histories that differ in the places of their entries only show the
/// same entry, place apart.
proof fn lemma_same_entry(
    plain: Seq<Entry>,
    wide: Seq<Entry>,
    commit: Commit,
    at: int,
    limit: Commit,
)
    requires
        wide.len() == plain.len(),
        forall|i: int| 0 <= i < plain.len() ==> (#[trigger] wide[i]) == moved_entry(commit, at, plain[i]),
    ensures
        latest_entry(wide, limit) == match latest_entry(plain, limit) {
            Some(entry) => Some(moved_entry(commit, at, entry)),
            None => None,
        },
        latest_entry(plain, limit) matches Some(entry) ==> exists|i: int|
            0 <= i < plain.len() && plain[i] == entry,
    decreases plain.len(),
{
    if plain.len() > 0 {
        let last = plain.len() - 1;
        assert(wide[last] == moved_entry(commit, at, plain[last]));
        assert forall|i: int| 0 <= i < plain.drop_last().len() implies (
        #[trigger] wide.drop_last()[i]) == moved_entry(commit, at, plain.drop_last()[i]) by {
            assert(wide[i] == moved_entry(commit, at, plain[i]));
        }
        lemma_same_entry(plain.drop_last(), wide.drop_last(), commit, at, limit);
        if latest_entry(plain, limit) is Some {
            let entry = latest_entry(plain, limit).unwrap();
            if plain[last].commit.0 < limit.0 {
                assert(plain[last] == entry);
            } else {
                let i = choose|i: int| 0 <= i < plain.drop_last().len() && plain.drop_last()[i] == entry;
                assert(plain[i] == entry);
            }
        }
    }
}

/// Range deletes that differ in the places of their operations, and in one
/// empty range that the one holds and the other does not, show the same
/// range delete over a key, place apart.
proof fn lemma_same_range(
    plain: Seq<RangeDeleteView>,
    wide: Seq<RangeDeleteView>,
    commit: Commit,
    at: int,
    m: int,
    extra: RangeDeleteView,
    limit: Commit,
    key: Seq<u8>,
)
    requires
        key_le(extra.end, extra.start),
        0 <= m,
        if m <= plain.len() {
            &&& wide.len() == plain.len() + 1
            &&& wide[m] == extra
        } else {
            wide.len() == plain.len()
        },
        forall|i: int|
            0 <= i < plain.len() ==> wide[if i < m {
                i
            } else {
                i + 1
            }] == moved_range(commit, at, #[trigger] plain[i]),
    ensures
        latest_range_delete(wide, limit, key) == match latest_range_delete(plain, limit, key) {
            Some(range) => Some(moved_range(commit, at, range)),
            None => None,
        },
        latest_range_delete(plain, limit, key) matches Some(range) ==> exists|i: int|
            0 <= i < plain.len() && plain[i] == range,
    decreases wide.len(),
{
    if wide.len() > 0 {
        if m == plain.len() {
            lemma_empty_range(key, extra.start, extra.end);
            assert(wide.last() == extra);
            assert forall|i: int| 0 <= i < plain.len() implies wide.drop_last()[if i < m + 1 {
                i
            } else {
                i + 1
            }] == moved_range(commit, at, #[trigger] plain[i]) by {
                assert(wide[i] == moved_range(commit, at, plain[i]));
            }
            lemma_same_range(plain, wide.drop_last(), commit, at, m + 1, extra, limit, key);
        } else {
            let last = plain.len() - 1;
            assert(wide.last() == moved_range(commit, at, plain[last]));
            assert forall|i: int| 0 <= i < plain.drop_last().len() implies wide.drop_last()[if i
                < m {
                i
            } else {
                i + 1
            }] == moved_range(commit, at, #[trigger] plain.drop_last()[i]) by {
                assert(wide[if i < m {
                    i
                } else {
                    i + 1
                }] == moved_range(commit, at, plain[i]));
            }
            if m < plain.len() {
                assert(wide.drop_last()[m] == extra);
            }
            lemma_same_range(
                plain.drop_last(),
                wide.drop_last(),
                commit,
                at,
                m,
                extra,
                limit,
                key,
            );
            if latest_range_delete(plain, limit, key) is Some {
                let range = latest_range_delete(plain, limit, key).unwrap();
                if !(plain[last].commit.0 < limit.0 && crate::types::in_range(
                    key,
                    plain[last].start,
                    plain[last].end,
                )) {
                    let i = choose|i: int|
                        0 <= i < plain.drop_last().len() && plain.drop_last()[i] == range;
                    assert(plain[i] == range);
                }
            }
        }
    }
}

/// An index with one empty range delete more shows what the index
/// without it shows.
pub proof fn lemma_widened_reads_alike(
    plain: IndexView,
    wide: IndexView,
    commit: Commit,
    at: int,
    m: int,
    extra: RangeDeleteView,
    limit: Commit,
    key: Seq<u8>,
)
    requires
        widened(plain, wide, commit, at, m, extra),
        key_le(extra.end, extra.start),
    ensures
        wide.visible(limit, key) == plain.visible(limit, key),
{
    if plain.points.contains_key(key) {
        assert(wide.points[key].len() == plain.points[key].len());
    }
    lemma_same_entry(plain.history(key), wide.history(key), commit, at, limit);
    lemma_same_range(plain.ranges, wide.ranges, commit, at, m, extra, limit, key);
    match (plain.point(limit, key), latest_range_delete(plain.ranges, limit, key)) {
        (Some(entry), Some(range)) => {
            let i = choose|i: int| 0 <= i < plain.history(key).len() && plain.history(key)[i] == entry;
            assert(plain.points.contains_key(key));
            assert(wide.points[key][i] == moved_entry(commit, at, plain.points[key][i]));
            assert(plain.points[key][i].commit == commit ==> plain.points[key][i].batch_idx.0
                < u32::MAX);
            let j = choose|j: int| 0 <= j < plain.ranges.len() && plain.ranges[j] == range;
            assert(plain.ranges[j].commit == commit ==> plain.ranges[j].batch_idx.0 < u32::MAX);
        },
        _ => {},
    }
}

/// One more operation keeps an index and its widened twin in step.
proof fn lemma_widened_step(
    plain: IndexView,
    wide: IndexView,
    commit: Commit,
    at: int,
    m: int,
    extra: RangeDeleteView,
    op: IndexOpView,
    n: int,
)
    requires
        widened(plain, wide, commit, at, m, extra),
        0 <= at <= n,
        n + 1 <= u32::MAX,
    ensures
        widened(
            apply_op(plain, commit, op, BatchIdx(n as u32)),
            apply_op(wide, commit, op, BatchIdx((n + 1) as u32)),
            commit,
            at,
            m,
            extra,
        ),
{
    let plain_after = apply_op(plain, commit, op, BatchIdx(n as u32));
    let wide_after = apply_op(wide, commit, op, BatchIdx((n + 1) as u32));
    match op {
        IndexOpView::DeleteRange { start_key, end_key, .. } => {
            assert forall|i: int| 0 <= i < plain_after.ranges.len() implies {
                &&& (#[trigger] plain_after.ranges[i]).commit == commit
                    ==> plain_after.ranges[i].batch_idx.0 < u32::MAX
                &&& wide_after.ranges[if i < m {
                    i
                } else {
                    i + 1
                }] == moved_range(commit, at, plain_after.ranges[i])
            } by {
                if i < plain.ranges.len() {
                    assert(plain_after.ranges[i] == plain.ranges[i]);
                    assert(wide.ranges[if i < m {
                        i
                    } else {
                        i + 1
                    }] == moved_range(commit, at, plain.ranges[i]));
                }
            }
        },
        _ => {
            let key = match op {
                IndexOpView::Write { key, .. } => key,
                IndexOpView::Delete { key, .. } => key,
                IndexOpView::DeleteRange { start_key, .. } => start_key,
            };
            if plain.points.contains_key(key) {
                assert(wide.points[key].len() == plain.points[key].len());
            }
            assert(wide.history(key).len() == plain.history(key).len());
            assert forall|k: Seq<u8>| plain_after.points.contains_key(k)
                <==> wide_after.points.contains_key(k) by {
                if k != key {
                    assert(plain.points.contains_key(k) <==> wide.points.contains_key(k));
                }
            }
            assert forall|k: Seq<u8>| #[trigger]
                plain_after.points.contains_key(k) implies wide_after.points[k].len()
                == plain_after.points[k].len() by {
                if k != key {
                    assert(plain.points.contains_key(k));
                }
            }
            assert forall|k: Seq<u8>, i: int|
                plain_after.points.contains_key(k) && 0 <= i < plain_after.points[k].len() implies {
                &&& (#[trigger] wide_after.points[k][i]) == moved_entry(
                    commit,
                    at,
                    plain_after.points[k][i],
                )
                &&& plain_after.points[k][i].commit == commit
                    ==> plain_after.points[k][i].batch_idx.0 < u32::MAX
            } by {
                if k != key {
                    assert(plain.points.contains_key(k));
                    assert(wide.points[k][i] == moved_entry(commit, at, plain.points[k][i]));
                } else if i < plain.history(key).len() {
                    assert(plain.points.contains_key(key));
                    assert(wide.points[k][i] == moved_entry(commit, at, plain.points[k][i]));
                }
            }
        },
    }
}

/// The delete of a range that ends where it starts, or before, changes
/// nothing wherever it stands among the operations of a batch: with the
/// operations `before` in front of it and the operations `after` behind
/// it, the commit leaves every reader to see under every key what the
/// commit of `before` and `after` alone leaves.
pub proof fn lemma_empty_range_in_a_batch(
    index: IndexView,
    commit: Commit,
    before: Seq<IndexOpView>,
    empty: IndexOpView,
    after: Seq<IndexOpView>,
    limit: Commit,
    key: Seq<u8>,
)
    requires
        index.inv(),
        index.writing is None,
        can_commit(index, commit),
        empty matches IndexOpView::DeleteRange { start_key, end_key, .. } && key_le(
            end_key,
            start_key,
        ),
        before.len() + 1 + after.len() <= u32::MAX,
    ensures
        committed(index, commit, before + seq![empty] + after).visible(limit, key) == committed(
            index,
            commit,
            before + after,
        ).visible(limit, key),
{
    let extra = extra_range(commit, empty, before.len() as int);
    lemma_empty_range_widens(index, commit, before, empty, after);
    let plain = apply_ops(index, commit, before + after);
    let wide = apply_ops(index, commit, before + seq![empty] + after);
    let m = apply_ops(index, commit, before).ranges.len() as int;
    lemma_widened_reads_alike(plain, wide, commit, before.len() as int, m, extra, limit, key);
    assert(committed(index, commit, before + after).visible(limit, key) == plain.visible(limit, key));
    assert(committed(index, commit, before + seq![empty] + after).visible(limit, key)
        == wide.visible(limit, key));
}

/// The range delete that the operation `empty` leaves at the place `at`:
/// for an operation that is no delete of a range, one over no key.
pub open spec fn extra_range(commit: Commit, empty: IndexOpView, at: int) -> RangeDeleteView {
    match empty {
        IndexOpView::DeleteRange { start_key, end_key, .. } => RangeDeleteView {
            commit,
            start: start_key,
            end: end_key,
            batch_idx: BatchIdx(at as u32),
        },
        _ => RangeDeleteView {
            commit,
            start: Seq::empty(),
            end: Seq::empty(),
            batch_idx: BatchIdx(at as u32),
        },
    }
}

proof fn lemma_empty_range_widens(
    index: IndexView,
    commit: Commit,
    before: Seq<IndexOpView>,
    empty: IndexOpView,
    after: Seq<IndexOpView>,
)
    requires
        index.inv(),
        index.writing is None,
        can_commit(index, commit),
        empty is DeleteRange,
        before.len() + 1 + after.len() <= u32::MAX,
    ensures
        widened(
            apply_ops(index, commit, before + after),
            apply_ops(index, commit, before + seq![empty] + after),
            commit,
            before.len() as int,
            apply_ops(index, commit, before).ranges.len() as int,
            extra_range(commit, empty, before.len() as int),
        ),
    decreases after.len(),
{
    let at = before.len() as int;
    let base = apply_ops(index, commit, before);
    let m = base.ranges.len() as int;
    let extra = extra_range(commit, empty, at);
    if after.len() == 0 {
        assert(before + after =~= before);
        let with = before + seq![empty] + after;
        assert(with.drop_last() =~= before);
        assert(with.last() == empty);
        let wide = apply_ops(index, commit, with);
        assert(wide == base.with_range(extra));
        lemma_apply_ops_points(index, commit, before);
        lemma_apply_ops_ranges(index, commit, before);
        assert forall|k: Seq<u8>, i: int|
            base.points.contains_key(k) && 0 <= i < base.points[k].len() implies {
            &&& (#[trigger] wide.points[k][i]) == moved_entry(commit, at, base.points[k][i])
            &&& base.points[k][i].commit == commit ==> base.points[k][i].batch_idx.0 < u32::MAX
        } by {
            let entry = base.points[k][i];
            if index.points.contains_key(k) && i < index.points[k].len() && entry
                == index.points[k][i] {
                assert(index.settled(index.points[k][i].commit));
            }
        }
        assert forall|i: int| 0 <= i < base.ranges.len() implies {
            &&& (#[trigger] base.ranges[i]).commit == commit ==> base.ranges[i].batch_idx.0
                < u32::MAX
            &&& wide.ranges[if i < m {
                i
            } else {
                i + 1
            }] == moved_range(commit, at, base.ranges[i])
        } by {
            if i < index.ranges.len() {
                assert(index.settled(index.ranges[i].commit));
            }
        }
    } else {
        let rest = after.drop_last();
        let op = after.last();
        lemma_empty_range_widens(index, commit, before, empty, rest);
        let plain_ops = before + after;
        let wide_ops = before + seq![empty] + after;
        assert(plain_ops.drop_last() =~= before + rest);
        assert(wide_ops.drop_last() =~= before + seq![empty] + rest);
        assert(plain_ops.last() == op);
        assert(wide_ops.last() == op);
        lemma_widened_step(
            apply_ops(index, commit, before + rest),
            apply_ops(index, commit, before + seq![empty] + rest),
            commit,
            at,
            m,
            extra,
            op,
            plain_ops.len() - 1,
        );
    }
}

} // verus!
