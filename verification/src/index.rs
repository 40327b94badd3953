//! The index of one tree: for every key the history of what was written
//! and deleted under it, commit by commit, and the ranges that were deleted.
//! A reader sees the index as it stood below a commit limit.

use vstd::prelude::*;
use crate::types::{
    Address,
    Commit,
    Key,
    KeyOrder,
    in_range,
    key_le,
    key_lt,
    lemma_key_lt_irreflexive,
    lemma_key_lt_total,
    lemma_key_lt_transitive,
};

verus! {

/// The place of an operation among those of its commit: later operations
/// of a commit carry larger numbers.
#[derive(Clone, Copy, Debug, PartialEq, Eq, Structural)]
pub struct BatchIdx(pub u32);

/// What a commit did to a key, with the address of the log record.
#[derive(Clone, Copy, Debug, PartialEq, Eq, Structural)]
pub enum ReadValue {
    Written(Address),
    Deleted(Address),
}

/// One entry of the history of a key.
#[derive(Clone, Copy, Debug, PartialEq, Eq, Structural)]
pub struct Entry {
    pub commit: Commit,
    pub value: ReadValue,
    pub batch_idx: BatchIdx,
}

/// A deleted range of keys, its end excluded.
pub struct RangeDeleteView {
    pub commit: Commit,
    pub start: Seq<u8>,
    pub end: Seq<u8>,
    pub batch_idx: BatchIdx,
}

/// What an index holds.
pub struct IndexView {
    /// Every commit below the watermark is complete: a reader may use any
    /// commit limit up to it.
    pub watermark: u64,
    /// The commit that is being written, if one is.
    pub writing: Option<Commit>,
    /// The history of every key that was ever written or deleted.
    pub points: Map<Seq<u8>, Seq<Entry>>,
    /// The range deletes in the order in which they came.
    pub ranges: Seq<RangeDeleteView>,
}

/// An index that holds nothing.
pub open spec fn new_index() -> IndexView {
    IndexView { watermark: 0, writing: None, points: Map::empty(), ranges: Seq::empty() }
}

/// The newest entry of a history that a reader with `limit` sees.
pub open spec fn latest_entry(history: Seq<Entry>, limit: Commit) -> Option<Entry>
    decreases history.len(),
{
    if history.len() == 0 {
        None
    } else if history.last().commit.0 < limit.0 {
        Some(history.last())
    } else {
        latest_entry(history.drop_last(), limit)
    }
}

/// The newest range delete over `key` that a reader with `limit` sees.
pub open spec fn latest_range_delete(ranges: Seq<RangeDeleteView>, limit: Commit, key: Seq<u8>) -> Option<
    RangeDeleteView,
>
    decreases ranges.len(),
{
    if ranges.len() == 0 {
        None
    } else if ranges.last().commit.0 < limit.0 && in_range(
        key,
        ranges.last().start,
        ranges.last().end,
    ) {
        Some(ranges.last())
    } else {
        latest_range_delete(ranges.drop_last(), limit, key)
    }
}

/// The operation at (`commit`, `batch_idx`) came after the one at
/// (`other_commit`, `other_idx`).
pub open spec fn later(
    commit: Commit,
    batch_idx: BatchIdx,
    other_commit: Commit,
    other_idx: BatchIdx,
) -> bool {
    commit.0 > other_commit.0 || (commit.0 == other_commit.0 && batch_idx.0 > other_idx.0)
}

/// The address of the value that stands for a key, given the newest entry
/// of its history and the newest range delete over it that the reader sees.
/// A value stands where the entry is a write and no range delete came at or
/// after it.
pub open spec fn resolve(point: Option<Entry>, range: Option<(Commit, BatchIdx)>) -> Option<
    Address,
> {
    match point {
        Some(Entry { commit, value: ReadValue::Written(address), batch_idx }) => match range {
            None => Some(address),
            Some((range_commit, range_idx)) => if later(
                commit,
                batch_idx,
                range_commit,
                range_idx,
            ) {
                Some(address)
            } else {
                None
            },
        },
        _ => None,
    }
}

/// The commits of a history never go down.
pub open spec fn monotone(history: Seq<Entry>) -> bool {
    forall|i: int, j: int|
        0 <= i <= j < history.len() ==> (#[trigger] history[i]).commit.0 <= (
        #[trigger] history[j]).commit.0
}

pub open spec fn monotone_ranges(ranges: Seq<RangeDeleteView>) -> bool {
    forall|i: int, j: int|
        0 <= i <= j < ranges.len() ==> (#[trigger] ranges[i]).commit.0 <= (
        #[trigger] ranges[j]).commit.0
}

impl IndexView {
    /// The commit is complete, or it is the one being written.
    pub open spec fn settled(self, commit: Commit) -> bool {
        commit.0 < self.watermark || self.writing == Some(commit)
    }

    /// What holds of every index: the commit being written is not below
    /// the watermark, every entry belongs to a complete commit or to the
    /// one being written, and the commits of a history and of the range
    /// deletes never go down.
    pub open spec fn inv(self) -> bool {
        &&& self.writing matches Some(c) ==> c.0 >= self.watermark
        &&& forall|k: Seq<u8>, i: int|
            self.points.contains_key(k) && 0 <= i < self.points[k].len() ==> self.settled(
                (#[trigger] self.points[k][i]).commit,
            )
        &&& forall|i: int|
            0 <= i < self.ranges.len() ==> self.settled((#[trigger] self.ranges[i]).commit)
        &&& forall|k: Seq<u8>| self.points.contains_key(k) ==> monotone(#[trigger] self.points[k])
        &&& monotone_ranges(self.ranges)
    }

    /// The history of a key, empty for a key that was never touched.
    pub open spec fn history(self, key: Seq<u8>) -> Seq<Entry> {
        if self.points.contains_key(key) {
            self.points[key]
        } else {
            Seq::empty()
        }
    }

    /// The newest entry for `key` that a reader with `limit` sees.
    pub open spec fn point(self, limit: Commit, key: Seq<u8>) -> Option<Entry> {
        latest_entry(self.history(key), limit)
    }

    /// The newest range delete over `key` that a reader with `limit` sees.
    pub open spec fn range_delete(self, limit: Commit, key: Seq<u8>) -> Option<(Commit, BatchIdx)> {
        match latest_range_delete(self.ranges, limit, key) {
            Some(range) => Some((range.commit, range.batch_idx)),
            None => None,
        }
    }

    /// The address of the value that a reader with `limit` sees under
    /// `key`, `None` where it sees none.
    pub open spec fn visible(self, limit: Commit, key: Seq<u8>) -> Option<Address> {
        resolve(self.point(limit, key), self.range_delete(limit, key))
    }

    /// The index with one more entry in the history of `key`.
    pub open spec fn with_entry(self, key: Seq<u8>, entry: Entry) -> IndexView {
        IndexView { points: self.points.insert(key, self.history(key).push(entry)), ..self }
    }

    /// The index with one more range delete.
    pub open spec fn with_range(self, range: RangeDeleteView) -> IndexView {
        IndexView { ranges: self.ranges.push(range), ..self }
    }
}

/// A key lies on the asked side of a lower bound: at or above it where the
/// bound is inclusive, above it where it is not. No bound holds no key back.
pub open spec fn above(bound: Option<(Seq<u8>, bool)>, key: Seq<u8>) -> bool {
    match bound {
        None => true,
        Some((b, inclusive)) => if inclusive {
            key_le(b, key)
        } else {
            key_lt(b, key)
        },
    }
}

/// The same for an upper bound.
pub open spec fn below(bound: Option<(Seq<u8>, bool)>, key: Seq<u8>) -> bool {
    match bound {
        None => true,
        Some((b, inclusive)) => if inclusive {
            key_le(key, b)
        } else {
            key_lt(key, b)
        },
    }
}

/// `found` is the first key on the asked side of `bound` under which a
/// reader with `limit` sees a value, with the address of that value; it is
/// `None` where the reader sees no value under any such key.
pub open spec fn first_visible(
    index: IndexView,
    limit: Commit,
    bound: Option<(Seq<u8>, bool)>,
    found: Option<(Seq<u8>, Address)>,
) -> bool {
    match found {
        Some((key, address)) => {
            &&& above(bound, key)
            &&& index.visible(limit, key) == Some(address)
            &&& forall|k: Seq<u8>|
                above(bound, k) && key_lt(k, key) ==> #[trigger] index.visible(limit, k) is None
        },
        None => forall|k: Seq<u8>| above(bound, k) ==> #[trigger] index.visible(limit, k) is None,
    }
}

/// `found` is the last key on the asked side of `bound` under which a
/// reader with `limit` sees a value.
pub open spec fn last_visible(
    index: IndexView,
    limit: Commit,
    bound: Option<(Seq<u8>, bool)>,
    found: Option<(Seq<u8>, Address)>,
) -> bool {
    match found {
        Some((key, address)) => {
            &&& below(bound, key)
            &&& index.visible(limit, key) == Some(address)
            &&& forall|k: Seq<u8>|
                below(bound, k) && key_lt(key, k) ==> #[trigger] index.visible(limit, k) is None
        },
        None => forall|k: Seq<u8>| below(bound, k) ==> #[trigger] index.visible(limit, k) is None,
    }
}

/// `entries` are the keys under which a reader with `limit` sees a value,
/// in their order, each with the address of its value.
pub open spec fn is_scan(index: IndexView, limit: Commit, entries: Seq<(Seq<u8>, Address)>) -> bool {
    &&& forall|i: int, j: int|
        0 <= i < j < entries.len() ==> key_lt((#[trigger] entries[i]).0, (#[trigger] entries[j]).0)
    &&& forall|i: int|
        0 <= i < entries.len() ==> index.visible(limit, (#[trigger] entries[i]).0) == Some(
            entries[i].1,
        )
    &&& forall|k: Seq<u8>| #[trigger]
        index.visible(limit, k) is Some ==> exists|i: int|
            0 <= i < entries.len() && (#[trigger] entries[i]).0 == k
}

/// A reader sees the newest entry of a history below its limit: no entry
/// below the limit stands after it, and none has a larger commit.
pub proof fn lemma_latest_entry(history: Seq<Entry>, limit: Commit)
    requires
        monotone(history),
    ensures
        match latest_entry(history, limit) {
            Some(entry) => exists|i: int|
                {
                    &&& 0 <= i < history.len()
                    &&& #[trigger] history[i] == entry
                    &&& entry.commit.0 < limit.0
                    &&& forall|j: int| i < j < history.len() ==> (#[trigger] history[j]).commit.0 >= limit.0
                    &&& forall|j: int|
                        0 <= j < history.len() && (#[trigger] history[j]).commit.0 < limit.0
                            ==> history[j].commit.0 <= entry.commit.0
                },
            None => forall|j: int| 0 <= j < history.len() ==> (#[trigger] history[j]).commit.0 >= limit.0,
        },
    decreases history.len(),
{
    if history.len() > 0 {
        let n = history.len() - 1;
        if history.last().commit.0 < limit.0 {
            assert(history[n] == history.last());
        } else {
            let rest = history.drop_last();
            assert forall|i: int, j: int| 0 <= i <= j < rest.len() implies (#[trigger] rest[i]).commit.0
                <= (#[trigger] rest[j]).commit.0 by {
                assert(rest[i] == history[i]);
                assert(rest[j] == history[j]);
            }
            lemma_latest_entry(rest, limit);
            match latest_entry(rest, limit) {
                Some(entry) => {
                    let i = choose|i: int|
                        {
                            &&& 0 <= i < rest.len()
                            &&& #[trigger] rest[i] == entry
                            &&& entry.commit.0 < limit.0
                            &&& forall|j: int|
                                i < j < rest.len() ==> (#[trigger] rest[j]).commit.0 >= limit.0
                            &&& forall|j: int|
                                0 <= j < rest.len() && (#[trigger] rest[j]).commit.0 < limit.0
                                    ==> rest[j].commit.0 <= entry.commit.0
                        };
                    assert(history[i] == entry);
                    assert forall|j: int| i < j < history.len() implies (
                    #[trigger] history[j]).commit.0 >= limit.0 by {
                        if j < n {
                            assert(rest[j] == history[j]);
                        }
                    }
                    assert forall|j: int|
                        0 <= j < history.len() && (#[trigger] history[j]).commit.0
                            < limit.0 implies history[j].commit.0 <= entry.commit.0 by {
                        assert(rest[j] == history[j]);
                    }
                },
                None => {
                    assert forall|j: int| 0 <= j < history.len() implies (
                    #[trigger] history[j]).commit.0 >= limit.0 by {
                        if j < n {
                            assert(rest[j] == history[j]);
                        }
                    }
                },
            }
        }
    }
}

/// A write stands against a range delete over its key if and only if it
/// came later: in a later commit, or later in the same one.
pub proof fn lemma_write_against_range_delete(
    address: Address,
    commit: Commit,
    batch_idx: BatchIdx,
    range_commit: Commit,
    range_idx: BatchIdx,
)
    ensures
        resolve(
            Some(Entry { commit, value: ReadValue::Written(address), batch_idx }),
            Some((range_commit, range_idx)),
        ) == (if later(commit, batch_idx, range_commit, range_idx) {
            Some(address)
        } else {
            None
        }),
        later(range_commit, range_idx, commit, batch_idx) ==> !later(
            commit,
            batch_idx,
            range_commit,
            range_idx,
        ),
{
}

/// A range delete that ends where it starts, or before, changes nothing
/// that any reader sees.
pub proof fn lemma_empty_range_delete(
    index: IndexView,
    range: RangeDeleteView,
    limit: Commit,
    key: Seq<u8>,
)
    requires
        key_le(range.end, range.start),
    ensures
        index.with_range(range).visible(limit, key) == index.visible(limit, key),
{
    crate::types::lemma_empty_range(key, range.start, range.end);
    let after = index.with_range(range);
    assert(after.ranges.last() == range);
    assert(after.ranges.drop_last() =~= index.ranges);
}

/// A seek to a key agrees with a read of it: where the reader sees a
/// value under the key, the seek stops at the key, with the address of that
/// value; and where the seek stops at the key, the reader sees the value
/// there.
pub proof fn lemma_seek_agrees_with_read(
    index: IndexView,
    limit: Commit,
    key: Seq<u8>,
    found: Option<(Seq<u8>, Address)>,
)
    requires
        first_visible(index, limit, Some((key, true)), found),
    ensures
        index.visible(limit, key) matches Some(address) ==> found == Some((key, address)),
        found matches Some((k, address)) ==> (k == key ==> index.visible(limit, key) == Some(
            address,
        )),
{
    if index.visible(limit, key) is Some {
        assert(above(Some((key, true)), key));
        match found {
            Some((k, _)) => {
                if k != key {
                    assert(key_lt(key, k));
                }
            },
            None => {},
        }
    }
}

/// A seek to a key that lies after every key of the index finds nothing.
pub proof fn lemma_seek_past_last_key(
    index: IndexView,
    limit: Commit,
    key: Seq<u8>,
    found: Option<(Seq<u8>, Address)>,
)
    requires
        first_visible(index, limit, Some((key, true)), found),
        forall|k: Seq<u8>| index.points.contains_key(k) ==> key_lt(k, key),
    ensures
        found is None,
{
    match found {
        Some((k, _)) => {
            lemma_visible_has_history(index, limit, k);
            lemma_key_lt_total(k, key);
        },
        None => {},
    }
}

/// The entry that a reader sees is an entry of the history.
pub proof fn lemma_latest_entry_member(history: Seq<Entry>, limit: Commit)
    ensures
        latest_entry(history, limit) matches Some(entry) ==> exists|i: int|
            0 <= i < history.len() && #[trigger] history[i] == entry,
    decreases history.len(),
{
    if history.len() > 0 {
        let n = history.len() - 1;
        assert(history[n] == history.last());
        lemma_latest_entry_member(history.drop_last(), limit);
        match latest_entry(history.drop_last(), limit) {
            Some(entry) => {
                let i = choose|i: int|
                    0 <= i < history.drop_last().len() && #[trigger] history.drop_last()[i] == entry;
                assert(history[i] == entry);
            },
            None => {},
        }
    }
}

/// The address that a reader sees under a key is the address of a write in
/// the history of the key.
pub proof fn lemma_visible_is_written(index: IndexView, limit: Commit, key: Seq<u8>)
    ensures
        index.visible(limit, key) matches Some(address) ==> index.points.contains_key(key)
            && exists|i: int|
            0 <= i < index.points[key].len() && (#[trigger] index.points[key][i]).value
                == ReadValue::Written(address),
{
    lemma_latest_entry_member(index.history(key), limit);
    match index.visible(limit, key) {
        Some(address) => {
            let entry = index.point(limit, key).unwrap();
            let i = choose|i: int|
                0 <= i < index.history(key).len() && #[trigger] index.history(key)[i] == entry;
            assert(index.points[key][i].value == ReadValue::Written(address));
        },
        None => {},
    }
}

/// A reader sees a value only under a key that has a history.
pub proof fn lemma_visible_has_history(index: IndexView, limit: Commit, key: Seq<u8>)
    ensures
        index.visible(limit, key) is Some ==> index.points.contains_key(key),
{
}

/// What a reader sees does not change when entries or range deletes of
/// commits at or above its limit are added.
pub proof fn lemma_later_entry_unseen(index: IndexView, key: Seq<u8>, entry: Entry, limit: Commit, k: Seq<u8>)
    requires
        entry.commit.0 >= limit.0,
    ensures
        index.with_entry(key, entry).visible(limit, k) == index.visible(limit, k),
{
    let after = index.with_entry(key, entry);
    if k == key {
        assert(after.history(k).drop_last() =~= index.history(k));
    }
}

pub proof fn lemma_later_range_unseen(index: IndexView, range: RangeDeleteView, limit: Commit, k: Seq<u8>)
    requires
        range.commit.0 >= limit.0,
    ensures
        index.with_range(range).visible(limit, k) == index.visible(limit, k),
{
    let after = index.with_range(range);
    assert(after.ranges.drop_last() =~= index.ranges);
}


struct RangeDelete {
    commit: Commit,
    start: Key,
    end: Key,
    batch_idx: BatchIdx,
}

impl View for RangeDelete {
    type V = RangeDeleteView;

    closed spec fn view(&self) -> RangeDeleteView {
        RangeDeleteView {
            commit: self.commit,
            start: self.start@,
            end: self.end@,
            batch_idx: self.batch_idx,
        }
    }
}

struct Node {
    key: Key,
    history: Vec<Entry>,
}

spec fn sorted(nodes: Seq<Node>) -> bool {
    forall|i: int, j: int|
        0 <= i < j < nodes.len() ==> key_lt((#[trigger] nodes[i]).key@, (#[trigger] nodes[j]).key@)
}

spec fn has_node(nodes: Seq<Node>, key: Seq<u8>) -> bool {
    exists|i: int| 0 <= i < nodes.len() && (#[trigger] nodes[i]).key@ == key
}

spec fn node_position(nodes: Seq<Node>, key: Seq<u8>) -> int {
    choose|i: int| 0 <= i < nodes.len() && (#[trigger] nodes[i]).key@ == key
}

spec fn points_of(nodes: Seq<Node>) -> Map<Seq<u8>, Seq<Entry>> {
    Map::new(
        |key: Seq<u8>| has_node(nodes, key),
        |key: Seq<u8>| nodes[node_position(nodes, key)].history@,
    )
}

spec fn ranges_of(ranges: Seq<RangeDelete>) -> Seq<RangeDeleteView> {
    Seq::new(ranges.len(), |i: int| ranges[i]@)
}

proof fn lemma_node_position(nodes: Seq<Node>, i: int)
    requires
        sorted(nodes),
        0 <= i < nodes.len(),
    ensures
        has_node(nodes, nodes[i].key@),
        node_position(nodes, nodes[i].key@) == i,
        points_of(nodes).contains_key(nodes[i].key@),
        points_of(nodes)[nodes[i].key@] == nodes[i].history@,
{
    let key = nodes[i].key@;
    assert(nodes[i].key@ == key);
    let p = node_position(nodes, key);
    lemma_key_lt_irreflexive(key);
    if p < i {
        assert(key_lt(nodes[p].key@, nodes[i].key@));
    } else if i < p {
        assert(key_lt(nodes[i].key@, nodes[p].key@));
    }
}

/// A new history for the node at `p` is a new history for its key.
proof fn lemma_points_update(nodes: Seq<Node>, p: int, node: Node)
    requires
        sorted(nodes),
        0 <= p < nodes.len(),
        node.key@ == nodes[p].key@,
    ensures
        sorted(nodes.update(p, node)),
        points_of(nodes.update(p, node)) == points_of(nodes).insert(node.key@, node.history@),
{
    let after = nodes.update(p, node);
    assert forall|i: int, j: int| 0 <= i < j < after.len() implies key_lt(
        (#[trigger] after[i]).key@,
        (#[trigger] after[j]).key@,
    ) by {
        assert(after[i].key@ == nodes[i].key@);
        assert(after[j].key@ == nodes[j].key@);
    }
    assert forall|key: Seq<u8>| has_node(after, key) <==> has_node(nodes, key) by {
        if has_node(after, key) {
            let i = node_position(after, key);
            assert(nodes[i].key@ == key);
        }
        if has_node(nodes, key) {
            let i = node_position(nodes, key);
            assert(after[i].key@ == key);
        }
    }
    lemma_node_position(nodes, p);
    assert forall|key: Seq<u8>| has_node(after, key) implies points_of(after)[key] == points_of(
        nodes,
    ).insert(node.key@, node.history@)[key] by {
        let i = node_position(after, key);
        lemma_node_position(after, i);
        if i != p {
            assert(after[i] == nodes[i]);
            lemma_node_position(nodes, i);
            lemma_key_lt_irreflexive(key);
            if i < p {
                assert(key_lt(nodes[i].key@, nodes[p].key@));
            } else {
                assert(key_lt(nodes[p].key@, nodes[i].key@));
            }
        }
    }
    assert(points_of(after) =~= points_of(nodes).insert(node.key@, node.history@));
}

/// A node that is put in at its place in the order brings its key and its
/// history, and leaves the others as they were.
proof fn lemma_points_insert(nodes: Seq<Node>, p: int, node: Node)
    requires
        sorted(nodes),
        0 <= p <= nodes.len(),
        forall|i: int| 0 <= i < p ==> key_lt((#[trigger] nodes[i]).key@, node.key@),
        forall|i: int| p <= i < nodes.len() ==> key_lt(node.key@, (#[trigger] nodes[i]).key@),
    ensures
        sorted(nodes.insert(p, node)),
        !points_of(nodes).contains_key(node.key@),
        points_of(nodes.insert(p, node)) == points_of(nodes).insert(node.key@, node.history@),
{
    let after = nodes.insert(p, node);
    assert forall|i: int, j: int| 0 <= i < j < after.len() implies key_lt(
        (#[trigger] after[i]).key@,
        (#[trigger] after[j]).key@,
    ) by {
        let a = if i < p { i } else { i - 1 };
        let b = if j < p { j } else { j - 1 };
        if i != p {
            assert(after[i] == nodes[a]);
        }
        if j != p {
            assert(after[j] == nodes[b]);
        }
        if i != p && j != p {
            assert(key_lt(nodes[a].key@, nodes[b].key@));
        }
    }
    lemma_key_lt_irreflexive(node.key@);
    if has_node(nodes, node.key@) {
        let i = node_position(nodes, node.key@);
        assert(nodes[i].key@ == node.key@);
    }
    assert forall|key: Seq<u8>| has_node(after, key) <==> (has_node(nodes, key) || key
        == node.key@) by {
        if has_node(after, key) {
            let i = node_position(after, key);
            if i < p {
                assert(nodes[i].key@ == key);
            } else if i > p {
                assert(nodes[i - 1].key@ == key);
            }
        }
        if has_node(nodes, key) {
            let i = node_position(nodes, key);
            if i < p {
                assert(after[i].key@ == key);
            } else {
                assert(after[i + 1].key@ == key);
            }
        }
        if key == node.key@ {
            assert(after[p].key@ == key);
        }
    }
    assert forall|key: Seq<u8>| has_node(after, key) implies points_of(after)[key] == points_of(
        nodes,
    ).insert(node.key@, node.history@)[key] by {
        let i = node_position(after, key);
        lemma_node_position(after, i);
        if i < p {
            assert(after[i] == nodes[i]);
            lemma_node_position(nodes, i);
        } else if i > p {
            assert(after[i] == nodes[i - 1]);
            lemma_node_position(nodes, i - 1);
        }
    }
    assert(points_of(after) =~= points_of(nodes).insert(node.key@, node.history@));
}

proof fn lemma_with_entry_inv(index: IndexView, key: Seq<u8>, entry: Entry)
    requires
        index.inv(),
        index.writing == Some(entry.commit),
    ensures
        index.with_entry(key, entry).inv(),
{
    let after = index.with_entry(key, entry);
    let before = index.history(key);
    let history = before.push(entry);
    assert forall|i: int| 0 <= i < before.len() implies (#[trigger] before[i]).commit.0
        <= entry.commit.0 by {
        assert(index.settled(index.points[key][i].commit));
    }
    assert(monotone(history)) by {
        assert forall|i: int, j: int| 0 <= i <= j < history.len() implies (
        #[trigger] history[i]).commit.0 <= (#[trigger] history[j]).commit.0 by {
            if j < before.len() {
                assert(before[i] == history[i]);
                assert(before[j] == history[j]);
                assert(monotone(index.points[key]));
            } else if i < before.len() {
                assert(before[i] == history[i]);
            }
        }
    }
    assert forall|k: Seq<u8>, i: int|
        after.points.contains_key(k) && 0 <= i < after.points[k].len() implies after.settled(
        (#[trigger] after.points[k][i]).commit,
    ) by {
        if k == key {
            if i < before.len() {
                assert(history[i] == before[i]);
                assert(index.settled(index.points[k][i].commit));
            }
        } else {
            assert(index.settled(index.points[k][i].commit));
        }
    }
    assert forall|k: Seq<u8>| after.points.contains_key(k) implies monotone(
        #[trigger] after.points[k],
    ) by {
        if k != key {
            assert(monotone(index.points[k]));
        }
    }
}

proof fn lemma_with_range_inv(index: IndexView, range: RangeDeleteView)
    requires
        index.inv(),
        index.writing == Some(range.commit),
    ensures
        index.with_range(range).inv(),
{
    let after = index.with_range(range);
    assert forall|i: int| 0 <= i < after.ranges.len() implies after.settled(
        (#[trigger] after.ranges[i]).commit,
    ) by {
        if i < index.ranges.len() {
            assert(after.ranges[i] == index.ranges[i]);
            assert(index.settled(index.ranges[i].commit));
        }
    }
    assert forall|i: int, j: int| 0 <= i <= j < after.ranges.len() implies (
    #[trigger] after.ranges[i]).commit.0 <= (#[trigger] after.ranges[j]).commit.0 by {
        if j < index.ranges.len() {
            assert(after.ranges[i] == index.ranges[i]);
            assert(after.ranges[j] == index.ranges[j]);
        } else if i < index.ranges.len() {
            assert(after.ranges[i] == index.ranges[i]);
            assert(index.settled(index.ranges[i].commit));
        }
    }
    assert forall|k: Seq<u8>, i: int|
        after.points.contains_key(k) && 0 <= i < after.points[k].len() implies after.settled(
        (#[trigger] after.points[k][i]).commit,
    ) by {
        assert(index.settled(index.points[k][i].commit));
    }
}

pub open spec fn entries_view(entries: Seq<(Key, Address)>) -> Seq<(Seq<u8>, Address)> {
    Seq::new(entries.len(), |i: int| (entries[i].0@, entries[i].1))
}

/// The index of one tree.
pub struct Index {
    maybe_next_commit: u64,
    writing: Option<Commit>,
    nodes: Vec<Node>,
    range_deletes: Vec<RangeDelete>,
}

/// The right to put the operations of one commit into an index.
pub struct Writer {
    commit: Commit,
}

/// A place in an index as a reader with a commit limit sees it: at a key
/// under which it sees a value, or nowhere.
pub struct Cursor {
    commit_limit: Commit,
    current: Option<(Key, Address)>,
}

impl View for Index {
    type V = IndexView;

    closed spec fn view(&self) -> IndexView {
        IndexView {
            watermark: self.maybe_next_commit,
            writing: self.writing,
            points: points_of(self.nodes@),
            ranges: ranges_of(self.range_deletes@),
        }
    }
}

/// The newest entry of `history` below `limit`.
fn latest_within(history: &Vec<Entry>, limit: Commit) -> (r: Option<Entry>)
    ensures
        r == latest_entry(history@, limit),
{
    let mut i: usize = history.len();
    assert(history@.take(i as int) =~= history@);
    while i > 0
        invariant
            i <= history@.len(),
            latest_entry(history@, limit) == latest_entry(history@.take(i as int), limit),
        decreases i,
    {
        let ghost upto = history@.take(i as int);
        assert(upto.last() == history@[i - 1]);
        assert(upto.drop_last() =~= history@.take(i - 1));
        i = i - 1;
        if history[i].commit.0 < limit.0 {
            return Some(history[i]);
        }
    }
    None
}

impl Index {
    /// The keys of the index stand in their order, each once, and what the
    /// index holds meets `IndexView::inv`.
    pub closed spec fn wf(&self) -> bool {
        &&& sorted(self.nodes@)
        &&& self@.inv()
    }

    pub proof fn lemma_wf(&self)
        requires
            self.wf(),
        ensures
            self@.inv(),
    {
    }

    pub fn new() -> (index: Index)
        ensures
            index.wf(),
            index@ == new_index(),
    {
        let index = Index {
            maybe_next_commit: 0,
            writing: None,
            nodes: Vec::new(),
            range_deletes: Vec::new(),
        };
        assert(index@.points =~= Map::empty());
        assert(index@.ranges =~= Seq::empty());
        index
    }

    /// The commit limit up to which readers may read.
    pub fn watermark(&self) -> (w: u64)
        ensures
            w == self@.watermark,
    {
        self.maybe_next_commit
    }

    /// The place of `key` among the nodes, and whether a node holds it.
    fn find(&self, key: &Key) -> (r: (usize, bool))
        requires
            sorted(self.nodes@),
        ensures
            r.0 <= self.nodes@.len(),
            forall|i: int| 0 <= i < r.0 ==> key_lt((#[trigger] self.nodes@[i]).key@, key@),
            forall|i: int|
                r.0 <= i < self.nodes@.len() ==> key_le(key@, (#[trigger] self.nodes@[i]).key@),
            r.1 <==> (r.0 < self.nodes@.len() && self.nodes@[r.0 as int].key@ == key@),
            r.1 <==> has_node(self.nodes@, key@),
    {
        let mut lo: usize = 0;
        let mut hi: usize = self.nodes.len();
        while lo < hi
            invariant
                sorted(self.nodes@),
                lo <= hi <= self.nodes@.len(),
                forall|i: int| 0 <= i < lo ==> key_lt((#[trigger] self.nodes@[i]).key@, key@),
                forall|i: int|
                    hi <= i < self.nodes@.len() ==> key_le(key@, (#[trigger] self.nodes@[i]).key@),
            decreases hi - lo,
        {
            let mid = lo + (hi - lo) / 2;
            let ghost mid_key = self.nodes@[mid as int].key@;
            match self.nodes[mid].key.order(key) {
                KeyOrder::Less => {
                    assert forall|i: int| 0 <= i < mid + 1 implies key_lt(
                        (#[trigger] self.nodes@[i]).key@,
                        key@,
                    ) by {
                        if i < mid {
                            assert(key_lt(self.nodes@[i].key@, self.nodes@[mid as int].key@));
                            lemma_key_lt_transitive(self.nodes@[i].key@, mid_key, key@);
                        }
                    }
                    lo = mid + 1;
                },
                _ => {
                    assert forall|i: int| mid <= i < self.nodes@.len() implies key_le(
                        key@,
                        (#[trigger] self.nodes@[i]).key@,
                    ) by {
                        lemma_key_lt_total(mid_key, key@);
                        if i > mid {
                            assert(key_lt(self.nodes@[mid as int].key@, self.nodes@[i].key@));
                            if key@ != mid_key {
                                lemma_key_lt_transitive(key@, mid_key, self.nodes@[i].key@);
                            }
                        }
                    }
                    hi = mid;
                },
            }
        }
        let found = lo < self.nodes.len() && self.nodes[lo].key.same(key);
        proof {
            lemma_key_lt_irreflexive(key@);
            if has_node(self.nodes@, key@) {
                let i = node_position(self.nodes@, key@);
                if i > lo {
                    assert(key_le(key@, self.nodes@[lo as int].key@));
                    assert(key_lt(self.nodes@[lo as int].key@, self.nodes@[i].key@));
                    if key@ != self.nodes@[lo as int].key@ {
                        lemma_key_lt_transitive(key@, self.nodes@[lo as int].key@, key@);
                    }
                }
            }
            if found {
                assert(self.nodes@[lo as int].key@ == key@);
            }
        }
        (lo, found)
    }

    /// The newest entry for `key` below `commit_limit`.
    pub fn point_query(&self, commit_limit: Commit, key: &Key) -> (r: Option<Entry>)
        requires
            self.wf(),
        ensures
            r == self@.point(commit_limit, key@),
    {
        let (p, found) = self.find(key);
        if found {
            proof {
                lemma_node_position(self.nodes@, p as int);
            }
            self.node_value_within_commit_limit(commit_limit, p)
        } else {
            None
        }
    }

    fn node_value_within_commit_limit(&self, commit_limit: Commit, node: usize) -> (r: Option<Entry>)
        requires
            node < self.nodes@.len(),
        ensures
            r == latest_entry(self.nodes@[node as int].history@, commit_limit),
    {
        latest_within(&self.nodes[node].history, commit_limit)
    }

    /// The newest range delete over `key` below `commit_limit`.
    pub fn range_delete_query(&self, commit_limit: Commit, key: &Key) -> (r: Option<
        (Commit, BatchIdx),
    >)
        ensures
            r == self@.range_delete(commit_limit, key@),
    {
        let ghost ranges = self@.ranges;
        let mut i: usize = self.range_deletes.len();
        assert(ranges.take(i as int) =~= ranges);
        while i > 0
            invariant
                ranges == self@.ranges,
                i <= self.range_deletes@.len(),
                latest_range_delete(ranges, commit_limit, key@) == latest_range_delete(
                    ranges.take(i as int),
                    commit_limit,
                    key@,
                ),
            decreases i,
        {
            let ghost upto = ranges.take(i as int);
            assert(upto.last() == self.range_deletes@[i - 1]@);
            assert(upto.drop_last() =~= ranges.take(i - 1));
            i = i - 1;
            let range = &self.range_deletes[i];
            if range.commit.0 < commit_limit.0 && key.within(&range.start, &range.end) {
                return Some((range.commit, range.batch_idx));
            }
        }
        None
    }

    /// The address of the value that a reader with `commit_limit` sees
    /// under `key`.
    pub fn key_true_value(&self, commit_limit: Commit, key: &Key) -> (r: Option<Address>)
        requires
            self.wf(),
        ensures
            r == self@.visible(commit_limit, key@),
    {
        let point_result = self.point_query(commit_limit, key);
        let range_delete_result = self.range_delete_query(commit_limit, key);
        Self::inner_true_value(point_result, range_delete_result)
    }

    fn node_true_value(&self, commit_limit: Commit, node: usize) -> (r: Option<Address>)
        requires
            self.wf(),
            node < self.nodes@.len(),
        ensures
            r == self@.visible(commit_limit, self.nodes@[node as int].key@),
    {
        proof {
            lemma_node_position(self.nodes@, node as int);
        }
        let point_result = self.node_value_within_commit_limit(commit_limit, node);
        let range_delete_result = self.range_delete_query(commit_limit, &self.nodes[node].key);
        Self::inner_true_value(point_result, range_delete_result)
    }

    /// Sets the newest entry of a key against the newest range delete over
    /// it: a write stands if no range delete came at or after it.
    pub fn inner_true_value(
        point_result: Option<Entry>,
        range_delete_result: Option<(Commit, BatchIdx)>,
    ) -> (r: Option<Address>)
        ensures
            r == resolve(point_result, range_delete_result),
    {
        match (point_result, range_delete_result) {
            (None, _) => None,
            (
                Some(Entry { commit, value: ReadValue::Written(address), batch_idx }),
                Some((range_commit, range_idx)),
            ) => {
                if commit.0 > range_commit.0 {
                    Some(address)
                } else if commit.0 == range_commit.0 {
                    if batch_idx.0 > range_idx.0 {
                        Some(address)
                    } else {
                        None
                    }
                } else {
                    None
                }
            },
            (Some(Entry { value: ReadValue::Deleted(_), .. }), _) => None,
            (Some(Entry { value: ReadValue::Written(address), .. }), None) => Some(address),
        }
    }

    /// The address of the value that a reader with `commit_limit` sees
    /// under `key`.
    pub fn read(&self, commit_limit: Commit, key: &Key) -> (r: Option<Address>)
        requires
            self.wf(),
            commit_limit.0 <= self@.watermark,
        ensures
            r == self@.visible(commit_limit, key@),
    {
        self.key_true_value(commit_limit, key)
    }

    /// A cursor for a reader with `commit_limit`, at no key yet.
    pub fn cursor(&self, commit_limit: Commit) -> (cursor: Cursor)
        requires
            commit_limit.0 <= self@.watermark,
        ensures
            cursor.commit_limit() == commit_limit,
            cursor.current() is None,
    {
        Cursor { commit_limit, current: None }
    }

    /// Starts to write `commit`. No other commit may be in writing, and the
    /// commit may not lie below the watermark.
    pub fn writer(&mut self, commit: Commit) -> (writer: Writer)
        requires
            old(self).wf(),
            old(self)@.writing is None,
            commit.0 >= old(self)@.watermark,
        ensures
            final(self).wf(),
            final(self)@ == (IndexView { writing: Some(commit), ..old(self)@ }),
            writer.commit() == commit,
    {
        self.writing = Some(commit);
        proof {
            let before = old(self)@;
            let after = self@;
            assert forall|k: Seq<u8>, i: int|
                after.points.contains_key(k) && 0 <= i < after.points[k].len() implies after.settled(
                (#[trigger] after.points[k][i]).commit,
            ) by {
                assert(before.settled(before.points[k][i].commit));
            }
            assert forall|i: int| 0 <= i < after.ranges.len() implies after.settled(
                (#[trigger] after.ranges[i]).commit,
            ) by {
                assert(before.settled(before.ranges[i].commit));
            }
        }
        Writer { commit }
    }

    /// The first node from `start` on under which a reader with
    /// `commit_limit` sees a value.
    fn first_within_commit_limit(&self, commit_limit: Commit, start: usize) -> (r: Option<
        (usize, Address),
    >)
        requires
            self.wf(),
            start <= self.nodes@.len(),
        ensures
            match r {
                Some((j, address)) => {
                    &&& start <= j < self.nodes@.len()
                    &&& self@.visible(commit_limit, self.nodes@[j as int].key@) == Some(address)
                    &&& forall|i: int|
                        start <= i < j ==> self@.visible(
                            commit_limit,
                            (#[trigger] self.nodes@[i]).key@,
                        ) is None
                },
                None => forall|i: int|
                    start <= i < self.nodes@.len() ==> self@.visible(
                        commit_limit,
                        (#[trigger] self.nodes@[i]).key@,
                    ) is None,
            },
    {
        let mut j: usize = start;
        while j < self.nodes.len()
            invariant
                self.wf(),
                start <= j <= self.nodes@.len(),
                forall|i: int|
                    start <= i < j ==> self@.visible(
                        commit_limit,
                        (#[trigger] self.nodes@[i]).key@,
                    ) is None,
            decreases self.nodes.len() - j,
        {
            if let Some(address) = self.node_true_value(commit_limit, j) {
                return Some((j, address));
            }
            j = j + 1;
        }
        None
    }

    /// The last node before `end` under which a reader with `commit_limit`
    /// sees a value.
    fn last_within_commit_limit(&self, commit_limit: Commit, end: usize) -> (r: Option<
        (usize, Address),
    >)
        requires
            self.wf(),
            end <= self.nodes@.len(),
        ensures
            match r {
                Some((j, address)) => {
                    &&& j < end
                    &&& self@.visible(commit_limit, self.nodes@[j as int].key@) == Some(address)
                    &&& forall|i: int|
                        j < i < end ==> self@.visible(
                            commit_limit,
                            (#[trigger] self.nodes@[i]).key@,
                        ) is None
                },
                None => forall|i: int|
                    0 <= i < end ==> self@.visible(
                        commit_limit,
                        (#[trigger] self.nodes@[i]).key@,
                    ) is None,
            },
    {
        let mut j: usize = end;
        while j > 0
            invariant
                self.wf(),
                j <= end <= self.nodes@.len(),
                forall|i: int|
                    j <= i < end ==> self@.visible(
                        commit_limit,
                        (#[trigger] self.nodes@[i]).key@,
                    ) is None,
            decreases j,
        {
            j = j - 1;
            if let Some(address) = self.node_true_value(commit_limit, j) {
                return Some((j, address));
            }
        }
        None
    }

    /// What a scan upward from `start` finds is the first visible key on
    /// the asked side of the bound, where the nodes from `start` on are the
    /// ones on that side.
    proof fn lemma_first_visible(
        &self,
        limit: Commit,
        bound: Option<(Seq<u8>, bool)>,
        start: int,
        found: Option<(usize, Address)>,
    )
        requires
            self.wf(),
            0 <= start <= self.nodes@.len(),
            forall|i: int| 0 <= i < start ==> !above(bound, (#[trigger] self.nodes@[i]).key@),
            forall|i: int|
                start <= i < self.nodes@.len() ==> above(bound, (#[trigger] self.nodes@[i]).key@),
            match found {
                Some((j, address)) => {
                    &&& start <= j < self.nodes@.len()
                    &&& self@.visible(limit, self.nodes@[j as int].key@) == Some(address)
                    &&& forall|i: int|
                        start <= i < j ==> self@.visible(limit, (#[trigger] self.nodes@[i]).key@) is None
                },
                None => forall|i: int|
                    start <= i < self.nodes@.len() ==> self@.visible(
                        limit,
                        (#[trigger] self.nodes@[i]).key@,
                    ) is None,
            },
        ensures
            first_visible(
                self@,
                limit,
                bound,
                match found {
                    Some((j, address)) => Some((self.nodes@[j as int].key@, address)),
                    None => None,
                },
            ),
    {
        let nodes = self.nodes@;
        assert forall|k: Seq<u8>|
            above(bound, k) && (found matches Some((j, _)) ==> key_lt(
                k,
                nodes[j as int].key@,
            )) implies #[trigger] self@.visible(limit, k) is None by {
            if self@.visible(limit, k) is Some {
                let i = node_position(nodes, k);
                assert(nodes[i].key@ == k);
                assert(i >= start);
                match found {
                    Some((j, _)) => {
                        lemma_key_lt_irreflexive(k);
                        if i > j {
                            assert(key_lt(nodes[j as int].key@, nodes[i].key@));
                            lemma_key_lt_transitive(k, nodes[j as int].key@, k);
                        }
                    },
                    None => {},
                }
            }
        }
    }

    proof fn lemma_last_visible(
        &self,
        limit: Commit,
        bound: Option<(Seq<u8>, bool)>,
        end: int,
        found: Option<(usize, Address)>,
    )
        requires
            self.wf(),
            0 <= end <= self.nodes@.len(),
            forall|i: int| 0 <= i < end ==> below(bound, (#[trigger] self.nodes@[i]).key@),
            forall|i: int|
                end <= i < self.nodes@.len() ==> !below(bound, (#[trigger] self.nodes@[i]).key@),
            match found {
                Some((j, address)) => {
                    &&& j < end
                    &&& self@.visible(limit, self.nodes@[j as int].key@) == Some(address)
                    &&& forall|i: int|
                        j < i < end ==> self@.visible(limit, (#[trigger] self.nodes@[i]).key@) is None
                },
                None => forall|i: int|
                    0 <= i < end ==> self@.visible(limit, (#[trigger] self.nodes@[i]).key@) is None,
            },
        ensures
            last_visible(
                self@,
                limit,
                bound,
                match found {
                    Some((j, address)) => Some((self.nodes@[j as int].key@, address)),
                    None => None,
                },
            ),
    {
        let nodes = self.nodes@;
        assert forall|k: Seq<u8>|
            below(bound, k) && (found matches Some((j, _)) ==> key_lt(
                nodes[j as int].key@,
                k,
            )) implies #[trigger] self@.visible(limit, k) is None by {
            if self@.visible(limit, k) is Some {
                let i = node_position(nodes, k);
                assert(nodes[i].key@ == k);
                assert(i < end);
                match found {
                    Some((j, _)) => {
                        lemma_key_lt_irreflexive(k);
                        if i < j {
                            assert(key_lt(nodes[i].key@, nodes[j as int].key@));
                            lemma_key_lt_transitive(k, nodes[j as int].key@, k);
                        }
                    },
                    None => {},
                }
            }
        }
    }

    /// The keys under which a reader with `commit_limit` sees a value, in
    /// their order, each with the address of its value.
    pub fn visible_entries(&self, commit_limit: Commit) -> (r: Vec<(Key, Address)>)
        requires
            self.wf(),
            commit_limit.0 <= self@.watermark,
        ensures
            is_scan(self@, commit_limit, entries_view(r@)),
    {
        let mut found: Vec<(Key, Address)> = Vec::new();
        let ghost mut places: Seq<int> = Seq::empty();
        let mut j: usize = 0;
        while j < self.nodes.len()
            invariant
                self.wf(),
                j <= self.nodes@.len(),
                places.len() == found@.len(),
                forall|i: int|
                    0 <= i < places.len() ==> 0 <= (#[trigger] places[i]) < j && found@[i].0@
                        == self.nodes@[places[i]].key@ && self@.visible(
                        commit_limit,
                        self.nodes@[places[i]].key@,
                    ) == Some(found@[i].1),
                forall|a: int, b: int| 0 <= a < b < places.len() ==> places[a] < places[b],
                forall|n: int|
                    0 <= n < j && self@.visible(commit_limit, (#[trigger] self.nodes@[n]).key@) is Some
                        ==> exists|i: int| 0 <= i < places.len() && #[trigger] places[i] == n,
            decreases self.nodes.len() - j,
        {
            if let Some(address) = self.node_true_value(commit_limit, j) {
                let ghost before = places;
                found.push((self.nodes[j].key.duplicate(), address));
                proof {
                    places = places.push(j as int);
                    assert forall|n: int|
                        0 <= n < j + 1 && self@.visible(
                            commit_limit,
                            (#[trigger] self.nodes@[n]).key@,
                        ) is Some implies exists|i: int|
                        0 <= i < places.len() && #[trigger] places[i] == n by {
                        if n < j {
                            let i = choose|i: int| 0 <= i < before.len() && #[trigger] before[i] == n;
                            assert(places[i] == n);
                        } else {
                            assert(places[before.len() as int] == n);
                        }
                    }
                }
            }
            j = j + 1;
        }
        proof {
            let entries = entries_view(found@);
            let nodes = self.nodes@;
            assert forall|a: int, b: int| 0 <= a < b < entries.len() implies key_lt(
                (#[trigger] entries[a]).0,
                (#[trigger] entries[b]).0,
            ) by {
                assert(places[a] < places[b]);
                assert(key_lt(nodes[places[a]].key@, nodes[places[b]].key@));
            }
            assert forall|i: int| 0 <= i < entries.len() implies self@.visible(
                commit_limit,
                (#[trigger] entries[i]).0,
            ) == Some(entries[i].1) by {
                assert(0 <= places[i] < j);
            }
            assert forall|k: Seq<u8>| #[trigger] self@.visible(commit_limit, k) is Some implies exists|
                i: int,
            | 0 <= i < entries.len() && (#[trigger] entries[i]).0 == k by {
                let n = node_position(nodes, k);
                assert(nodes[n].key@ == k);
                let i = choose|i: int| 0 <= i < places.len() && #[trigger] places[i] == n;
                assert(entries[i].0 == k);
            }
        }
        found
    }

    /// Adds an entry to the history of `key`, which gets a node if it has
    /// none.
    fn update_value(&mut self, key: Key, entry: Entry)
        requires
            old(self).wf(),
            old(self)@.writing == Some(entry.commit),
        ensures
            final(self).wf(),
            final(self)@ == old(self)@.with_entry(key@, entry),
    {
        let ghost before = self.nodes@;
        let (p, found) = self.find(&key);
        if found {
            proof {
                lemma_node_position(before, p as int);
            }
            self.nodes[p].history.push(entry);
            proof {
                assert(self.nodes@ =~= before.update(p as int, self.nodes@[p as int]));
                lemma_points_update(before, p as int, self.nodes@[p as int]);
            }
        } else {
            let mut history: Vec<Entry> = Vec::new();
            history.push(entry);
            let node = Node { key, history };
            proof {
                assert(node.history@ =~= Seq::<Entry>::empty().push(entry));
                assert forall|i: int| p <= i < before.len() implies key_lt(
                    node.key@,
                    (#[trigger] before[i]).key@,
                ) by {
                    if before[i].key@ == node.key@ {
                        assert(has_node(before, node.key@));
                    }
                }
                lemma_points_insert(before, p as int, node);
            }
            self.nodes.insert(p, node);
        }
        proof {
            assert(self@.points == old(self)@.with_entry(key@, entry).points);
            assert(self@ == old(self)@.with_entry(key@, entry));
            lemma_with_entry_inv(old(self)@, key@, entry);
        }
    }
}

impl Writer {
    /// The commit that the writer writes.
    pub closed spec fn commit(&self) -> Commit {
        self.commit
    }

    /// Notes that the commit wrote `key` by the log record at `addr`.
    pub fn write(&self, index: &mut Index, key: Key, addr: Address, batch_idx: BatchIdx)
        requires
            old(index).wf(),
            old(index)@.writing == Some(self.commit()),
        ensures
            final(index).wf(),
            final(index)@ == old(index)@.with_entry(
                key@,
                Entry { commit: self.commit(), value: ReadValue::Written(addr), batch_idx },
            ),
    {
        index.update_value(
            key,
            Entry { commit: self.commit, value: ReadValue::Written(addr), batch_idx },
        );
    }

    /// Notes that the commit deleted `key` by the log record at `addr`.
    pub fn delete(&self, index: &mut Index, key: Key, addr: Address, batch_idx: BatchIdx)
        requires
            old(index).wf(),
            old(index)@.writing == Some(self.commit()),
        ensures
            final(index).wf(),
            final(index)@ == old(index)@.with_entry(
                key@,
                Entry { commit: self.commit(), value: ReadValue::Deleted(addr), batch_idx },
            ),
    {
        index.update_value(
            key,
            Entry { commit: self.commit, value: ReadValue::Deleted(addr), batch_idx },
        );
    }

    /// Notes that the commit deleted the keys from `start` up to `end`,
    /// `end` excluded. A range that ends before it starts holds no key.
    pub fn delete_range(
        &self,
        index: &mut Index,
        start: Key,
        end: Key,
        addr: Address,
        batch_idx: BatchIdx,
    )
        requires
            old(index).wf(),
            old(index)@.writing == Some(self.commit()),
            key_le(start@, end@),
        ensures
            final(index).wf(),
            final(index)@ == old(index)@.with_range(
                RangeDeleteView { commit: self.commit(), start: start@, end: end@, batch_idx },
            ),
    {
        let ghost range = RangeDeleteView {
            commit: self.commit,
            start: start@,
            end: end@,
            batch_idx,
        };
        index.range_deletes.push(RangeDelete { commit: self.commit, start, end, batch_idx });
        proof {
            assert(index@.ranges =~= old(index)@.ranges.push(range));
            lemma_with_range_inv(old(index)@, range);
        }
    }

    /// Ends the writing of the commit: readers may now use a commit limit
    /// that takes it in.
    pub fn finish(self, index: &mut Index)
        requires
            old(index).wf(),
            old(index)@.writing == Some(self.commit()),
            self.commit().0 < u64::MAX,
        ensures
            final(index).wf(),
            final(index)@ == (IndexView {
                watermark: (self.commit().0 + 1) as u64,
                writing: None,
                ..old(index)@
            }),
    {
        index.maybe_next_commit = self.commit.0 + 1;
        index.writing = None;
        proof {
            let before = old(index)@;
            let after = index@;
            assert forall|k: Seq<u8>, i: int|
                after.points.contains_key(k) && 0 <= i < after.points[k].len() implies after.settled(
                (#[trigger] after.points[k][i]).commit,
            ) by {
                assert(before.settled(before.points[k][i].commit));
            }
            assert forall|i: int| 0 <= i < after.ranges.len() implies after.settled(
                (#[trigger] after.ranges[i]).commit,
            ) by {
                assert(before.settled(before.ranges[i].commit));
            }
        }
    }
}

impl Cursor {
    pub closed spec fn commit_limit(&self) -> Commit {
        self.commit_limit
    }

    /// The key that the cursor stands at and the address of the value that
    /// it sees there.
    pub closed spec fn current(&self) -> Option<(Seq<u8>, Address)> {
        match self.current {
            Some((key, address)) => Some((key@, address)),
            None => None,
        }
    }

    /// The cursor stands at a key.
    pub fn valid(&self) -> (r: bool)
        ensures
            r == self.current() is Some,
    {
        self.current.is_some()
    }

    pub fn key(&self) -> (key: Key)
        requires
            self.current() is Some,
        ensures
            key@ == self.current().unwrap().0,
    {
        match &self.current {
            Some((key, _)) => key.duplicate(),
            None => Key(Vec::new()),
        }
    }

    pub fn address(&self) -> (address: Address)
        requires
            self.current() is Some,
        ensures
            address == self.current().unwrap().1,
    {
        match &self.current {
            Some((_, address)) => *address,
            None => Address(0),
        }
    }

    fn place(&mut self, index: &Index, found: Option<(usize, Address)>)
        requires
            found matches Some((j, _)) ==> j < index.nodes@.len(),
        ensures
            final(self).commit_limit() == old(self).commit_limit(),
            final(self).current() == (match found {
                Some((j, address)) => Some((index.nodes@[j as int].key@, address)),
                None => None,
            }),
    {
        self.current = match found {
            Some((j, address)) => Some((index.nodes[j].key.duplicate(), address)),
            None => None,
        };
    }

    /// Moves to the next key under which the reader sees a value.
    pub fn next(&mut self, index: &Index)
        requires
            index.wf(),
            old(self).current() is Some,
            old(self).commit_limit().0 <= index@.watermark,
        ensures
            final(self).commit_limit() == old(self).commit_limit(),
            first_visible(
                index@,
                old(self).commit_limit(),
                Some((old(self).current().unwrap().0, false)),
                final(self).current(),
            ),
    {
        let key = self.key();
        let (p, found) = index.find(&key);
        assert(index.nodes@.len() == index.nodes.len());
        let start = if found { p + 1 } else { p };
        let next = index.first_within_commit_limit(self.commit_limit, start);
        proof {
            let bound = Some((key@, false));
            let nodes = index.nodes@;
            assert forall|i: int| 0 <= i < start implies !above(bound, (#[trigger] nodes[i]).key@) by {
                lemma_key_lt_total(key@, nodes[i].key@);
            }
            assert forall|i: int| start <= i < nodes.len() implies above(
                bound,
                (#[trigger] nodes[i]).key@,
            ) by {
                if found {
                    assert(key_lt(nodes[p as int].key@, nodes[i].key@));
                } else {
                    if nodes[i].key@ == key@ {
                        assert(has_node(nodes, key@));
                    }
                }
            }
            index.lemma_first_visible(self.commit_limit, bound, start as int, next);
        }
        self.place(index, next);
    }

    /// Moves to the previous key under which the reader sees a value.
    pub fn prev(&mut self, index: &Index)
        requires
            index.wf(),
            old(self).current() is Some,
            old(self).commit_limit().0 <= index@.watermark,
        ensures
            final(self).commit_limit() == old(self).commit_limit(),
            last_visible(
                index@,
                old(self).commit_limit(),
                Some((old(self).current().unwrap().0, false)),
                final(self).current(),
            ),
    {
        let key = self.key();
        let (p, _) = index.find(&key);
        let prev = index.last_within_commit_limit(self.commit_limit, p);
        proof {
            let bound = Some((key@, false));
            let nodes = index.nodes@;
            assert forall|i: int| p <= i < nodes.len() implies !below(
                bound,
                (#[trigger] nodes[i]).key@,
            ) by {
                lemma_key_lt_total(key@, nodes[i].key@);
            }
            index.lemma_last_visible(self.commit_limit, bound, p as int, prev);
        }
        self.place(index, prev);
    }

    /// Moves to the first key under which the reader sees a value.
    pub fn seek_first(&mut self, index: &Index)
        requires
            index.wf(),
            old(self).commit_limit().0 <= index@.watermark,
        ensures
            final(self).commit_limit() == old(self).commit_limit(),
            first_visible(index@, old(self).commit_limit(), None, final(self).current()),
    {
        let first = index.first_within_commit_limit(self.commit_limit, 0);
        proof {
            index.lemma_first_visible(self.commit_limit, None, 0, first);
        }
        self.place(index, first);
    }

    /// Moves to the last key under which the reader sees a value.
    pub fn seek_last(&mut self, index: &Index)
        requires
            index.wf(),
            old(self).commit_limit().0 <= index@.watermark,
        ensures
            final(self).commit_limit() == old(self).commit_limit(),
            last_visible(index@, old(self).commit_limit(), None, final(self).current()),
    {
        let last = index.last_within_commit_limit(self.commit_limit, index.nodes.len());
        proof {
            index.lemma_last_visible(self.commit_limit, None, index.nodes@.len() as int, last);
        }
        self.place(index, last);
    }

    /// Moves to the first key at or after `key` under which the reader
    /// sees a value.
    pub fn seek_key(&mut self, index: &Index, key: Key)
        requires
            index.wf(),
            old(self).commit_limit().0 <= index@.watermark,
        ensures
            final(self).commit_limit() == old(self).commit_limit(),
            first_visible(
                index@,
                old(self).commit_limit(),
                Some((key@, true)),
                final(self).current(),
            ),
    {
        let (p, _) = index.find(&key);
        let first = index.first_within_commit_limit(self.commit_limit, p);
        proof {
            let bound = Some((key@, true));
            let nodes = index.nodes@;
            assert forall|i: int| 0 <= i < p implies !above(bound, (#[trigger] nodes[i]).key@) by {
                lemma_key_lt_total(key@, nodes[i].key@);
            }
            index.lemma_first_visible(self.commit_limit, bound, p as int, first);
        }
        self.place(index, first);
    }

    /// Moves to the last key at or before `key` under which the reader
    /// sees a value.
    pub fn seek_key_rev(&mut self, index: &Index, key: Key)
        requires
            index.wf(),
            old(self).commit_limit().0 <= index@.watermark,
        ensures
            final(self).commit_limit() == old(self).commit_limit(),
            last_visible(
                index@,
                old(self).commit_limit(),
                Some((key@, true)),
                final(self).current(),
            ),
    {
        let (p, found) = index.find(&key);
        assert(index.nodes@.len() == index.nodes.len());
        let end = if found { p + 1 } else { p };
        let last = index.last_within_commit_limit(self.commit_limit, end);
        proof {
            let bound = Some((key@, true));
            let nodes = index.nodes@;
            assert forall|i: int| 0 <= i < end implies below(bound, (#[trigger] nodes[i]).key@) by {
            }
            assert forall|i: int| end <= i < nodes.len() implies !below(
                bound,
                (#[trigger] nodes[i]).key@,
            ) by {
                lemma_key_lt_total(key@, nodes[i].key@);
                if found {
                    assert(key_lt(nodes[p as int].key@, nodes[i].key@));
                } else {
                    if nodes[i].key@ == key@ {
                        assert(has_node(nodes, key@));
                    }
                }
            }
            index.lemma_last_visible(self.commit_limit, bound, end as int, last);
        }
        self.place(index, last);
    }
}

} // verus!
