//! Keys, values and the counters that identify batches and commits.

use vstd::prelude::*;
use vstd::slice::slice_to_vec;

verus! {

/// A position in a log, handed out by an append and taken by a read.
#[derive(Clone, Copy, Debug, PartialEq, Eq, Structural)]
pub struct Address(pub u64);

/// An open write batch.
#[derive(Clone, Copy, Debug, PartialEq, Eq, Structural)]
pub struct Batch(pub u64);

/// One attempt to commit a batch.
#[derive(Clone, Copy, Debug, PartialEq, Eq, Structural)]
pub struct BatchCommit(pub u64);

/// A tick of the commit clock that all trees of a database share.
#[derive(Clone, Copy, Debug, PartialEq, Eq, Structural)]
pub struct Commit(pub u64);

/// A key: any byte string, the empty one included.
#[derive(Clone, Debug, PartialEq, Eq, PartialOrd, Ord, Hash)]
pub struct Key(pub Vec<u8>);

/// A value: any byte string, the empty one included.
#[derive(Clone, Debug, PartialEq, Eq, PartialOrd, Ord, Hash)]
pub struct Value(pub Vec<u8>);

/// How one key stands to another.
#[derive(Clone, Copy, Debug, PartialEq, Eq, Structural)]
pub enum KeyOrder {
    Less,
    Equal,
    Greater,
}

/// `a` sorts before `b`, given that the two agree on every byte before `i`.
pub open spec fn bytes_lt_from(a: Seq<u8>, b: Seq<u8>, i: int) -> bool
    decreases a.len() - i,
{
    if i < 0 || i >= b.len() {
        false
    } else if i >= a.len() {
        true
    } else if a[i] != b[i] {
        a[i] < b[i]
    } else {
        bytes_lt_from(a, b, i + 1)
    }
}

/// The order of keys: unsigned lexicographic, a proper prefix first.
pub open spec fn key_lt(a: Seq<u8>, b: Seq<u8>) -> bool {
    bytes_lt_from(a, b, 0)
}

pub open spec fn key_le(a: Seq<u8>, b: Seq<u8>) -> bool {
    a == b || key_lt(a, b)
}

/// `key` lies in the half-open range from `start` to `end`.
pub open spec fn in_range(key: Seq<u8>, start: Seq<u8>, end: Seq<u8>) -> bool {
    key_le(start, key) && key_lt(key, end)
}

proof fn lemma_lt_from_irreflexive(a: Seq<u8>, i: int)
    requires
        0 <= i,
    ensures
        !bytes_lt_from(a, a, i),
    decreases a.len() - i,
{
    if i < a.len() {
        lemma_lt_from_irreflexive(a, i + 1);
    }
}

proof fn lemma_lt_from_transitive(a: Seq<u8>, b: Seq<u8>, c: Seq<u8>, i: int)
    requires
        0 <= i,
        bytes_lt_from(a, b, i),
        bytes_lt_from(b, c, i),
    ensures
        bytes_lt_from(a, c, i),
    decreases a.len() - i,
{
    if i < a.len() && a[i] == b[i] && b[i] == c[i] {
        lemma_lt_from_transitive(a, b, c, i + 1);
    }
}

proof fn lemma_lt_from_total(a: Seq<u8>, b: Seq<u8>, i: int)
    requires
        0 <= i <= a.len(),
        i <= b.len(),
    ensures
        bytes_lt_from(a, b, i) || bytes_lt_from(b, a, i) || (a.len() == b.len() && forall|j: int|
            i <= j < a.len() ==> a[j] == b[j]),
    decreases a.len() - i,
{
    if i < a.len() && i < b.len() && a[i] == b[i] {
        lemma_lt_from_total(a, b, i + 1);
    }
}

/// Where two keys agree on the bytes from `j` up to `i`, comparing from `j`
/// comes to comparing from `i`.
proof fn lemma_lt_from_skip(a: Seq<u8>, b: Seq<u8>, j: int, i: int)
    requires
        0 <= j <= i,
        i <= a.len(),
        i <= b.len(),
        forall|k: int| j <= k < i ==> a[k] == b[k],
    ensures
        bytes_lt_from(a, b, j) == bytes_lt_from(a, b, i),
    decreases i - j,
{
    if j < i {
        lemma_lt_from_skip(a, b, j + 1, i);
    }
}

/// No key sorts before itself.
pub proof fn lemma_key_lt_irreflexive(a: Seq<u8>)
    ensures
        !key_lt(a, a),
{
    lemma_lt_from_irreflexive(a, 0);
}

/// The order of keys is transitive.
pub proof fn lemma_key_lt_transitive(a: Seq<u8>, b: Seq<u8>, c: Seq<u8>)
    requires
        key_lt(a, b),
        key_lt(b, c),
    ensures
        key_lt(a, c),
{
    lemma_lt_from_transitive(a, b, c, 0);
}

/// Of two keys, one sorts before the other or they are the same key, and
/// only one of the three holds.
pub proof fn lemma_key_lt_total(a: Seq<u8>, b: Seq<u8>)
    ensures
        key_lt(a, b) || key_lt(b, a) || a == b,
        !(key_lt(a, b) && key_lt(b, a)),
        a == b ==> !key_lt(a, b),
{
    lemma_lt_from_total(a, b, 0);
    if a.len() == b.len() && (forall|j: int| 0 <= j < a.len() ==> a[j] == b[j]) {
        assert(a =~= b);
    }
    if key_lt(a, b) && key_lt(b, a) {
        lemma_key_lt_transitive(a, b, a);
        lemma_key_lt_irreflexive(a);
    }
    lemma_key_lt_irreflexive(a);
}

/// Nothing lies in a range that ends where it starts, or before.
pub proof fn lemma_empty_range(key: Seq<u8>, start: Seq<u8>, end: Seq<u8>)
    requires
        key_le(end, start),
    ensures
        !in_range(key, start, end),
{
    if in_range(key, start, end) {
        lemma_key_lt_irreflexive(key);
        if start == key {
            if end != start {
                lemma_key_lt_transitive(key, end, start);
            }
        } else {
            lemma_key_lt_transitive(start, key, end);
            if end == start {
                lemma_key_lt_irreflexive(start);
            } else {
                lemma_key_lt_transitive(start, end, start);
                lemma_key_lt_irreflexive(start);
            }
        }
    }
}

/// Compares two byte strings in the order of keys.
pub fn order_bytes(a: &Vec<u8>, b: &Vec<u8>) -> (r: KeyOrder)
    ensures
        r == KeyOrder::Less <==> key_lt(a@, b@),
        r == KeyOrder::Equal <==> a@ == b@,
        r == KeyOrder::Greater <==> key_lt(b@, a@),
{
    let mut i: usize = 0;
    while i < a.len() && i < b.len()
        invariant
            i <= a.len(),
            i <= b.len(),
            forall|k: int| 0 <= k < i ==> a@[k] == b@[k],
        decreases a.len() - i,
    {
        if a[i] < b[i] {
            proof {
                lemma_lt_from_skip(a@, b@, 0, i as int);
                lemma_key_lt_total(a@, b@);
            }
            return KeyOrder::Less;
        }
        if a[i] > b[i] {
            proof {
                lemma_lt_from_skip(b@, a@, 0, i as int);
                lemma_key_lt_total(a@, b@);
            }
            return KeyOrder::Greater;
        }
        i = i + 1;
    }
    proof {
        lemma_lt_from_skip(a@, b@, 0, i as int);
        lemma_lt_from_skip(b@, a@, 0, i as int);
        lemma_key_lt_total(a@, b@);
    }
    if a.len() < b.len() {
        KeyOrder::Less
    } else if a.len() > b.len() {
        KeyOrder::Greater
    } else {
        assert(a@ =~= b@);
        KeyOrder::Equal
    }
}

impl View for Key {
    type V = Seq<u8>;

    open spec fn view(&self) -> Seq<u8> {
        self.0@
    }
}

impl View for Value {
    type V = Seq<u8>;

    open spec fn view(&self) -> Seq<u8> {
        self.0@
    }
}

impl Key {
    pub fn from_slice(other: &[u8]) -> (key: Key)
        ensures
            key@ == other@,
    {
        Key(slice_to_vec(other))
    }

    /// A copy of the key.
    pub fn duplicate(&self) -> (key: Key)
        ensures
            key@ == self@,
    {
        Key(self.0.clone())
    }

    /// How this key stands to `other` in the order of keys.
    pub fn order(&self, other: &Key) -> (r: KeyOrder)
        ensures
            r == KeyOrder::Less <==> key_lt(self@, other@),
            r == KeyOrder::Equal <==> self@ == other@,
            r == KeyOrder::Greater <==> key_lt(other@, self@),
    {
        order_bytes(&self.0, &other.0)
    }

    /// The two keys hold the same bytes.
    pub fn same(&self, other: &Key) -> (r: bool)
        ensures
            r == (self@ == other@),
    {
        self.order(other) == KeyOrder::Equal
    }

    /// This key sorts before `other`.
    pub fn precedes(&self, other: &Key) -> (r: bool)
        ensures
            r == key_lt(self@, other@),
    {
        self.order(other) == KeyOrder::Less
    }

    /// This key lies in the half-open range from `start` to `end`.
    pub fn within(&self, start: &Key, end: &Key) -> (r: bool)
        ensures
            r == in_range(self@, start@, end@),
    {
        proof {
            lemma_key_lt_total(start@, self@);
        }
        start.order(self) != KeyOrder::Greater && self.order(end) == KeyOrder::Less
    }
}

impl Value {
    pub fn from_slice(other: &[u8]) -> (value: Value)
        ensures
            value@ == other@,
    {
        Value(slice_to_vec(other))
    }

    /// A copy of the value.
    pub fn duplicate(&self) -> (value: Value)
        ensures
            value@ == self@,
    {
        Value(self.0.clone())
    }
}

} // verus!
