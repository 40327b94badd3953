use blocksy3::index::{BatchIdx, Entry, Index, ReadValue};
use blocksy3::types::{Address, Commit, Key};

fn key(text: &str) -> Key {
    Key::from_slice(text.as_bytes())
}

fn written(commit: u64, address: u64, idx: u32) -> Option<Entry> {
    Some(Entry {
        commit: Commit(commit),
        value: ReadValue::Written(Address(address)),
        batch_idx: BatchIdx(idx),
    })
}

/// Keys a, c, e written at commit 0; c deleted at commit 1; the range from
/// d to f deleted at commit 2; e written again at commit 3.
fn sample() -> Index {
    let mut index = Index::new();
    let w = index.writer(Commit(0));
    w.write(&mut index, key("c"), Address(10), BatchIdx(0));
    w.write(&mut index, key("a"), Address(11), BatchIdx(1));
    w.write(&mut index, key("e"), Address(12), BatchIdx(2));
    w.finish(&mut index);
    let w = index.writer(Commit(1));
    w.delete(&mut index, key("c"), Address(20), BatchIdx(0));
    w.finish(&mut index);
    let w = index.writer(Commit(2));
    w.delete_range(&mut index, key("d"), key("f"), Address(30), BatchIdx(0));
    w.finish(&mut index);
    let w = index.writer(Commit(3));
    w.write(&mut index, key("e"), Address(40), BatchIdx(0));
    w.finish(&mut index);
    index
}

#[test]
fn index_new_is_empty() {
    let index = Index::new();
    assert_eq!(index.watermark(), 0);
    assert_eq!(index.read(Commit(0), &key("a")), None);
    let mut cursor = index.cursor(Commit(0));
    assert!(!cursor.valid());
    cursor.seek_first(&index);
    assert!(!cursor.valid());
    cursor.seek_last(&index);
    assert!(!cursor.valid());
}

#[test]
fn index_watermark_stands_above_the_last_commit() {
    let index = sample();
    assert_eq!(index.watermark(), 4);
}

#[test]
fn index_read_sees_the_index_below_its_limit() {
    let index = sample();
    assert_eq!(index.read(Commit(0), &key("a")), None);
    assert_eq!(index.read(Commit(1), &key("a")), Some(Address(11)));
    assert_eq!(index.read(Commit(1), &key("c")), Some(Address(10)));
    assert_eq!(index.read(Commit(2), &key("c")), None);
    assert_eq!(index.read(Commit(4), &key("c")), None);
    assert_eq!(index.read(Commit(2), &key("e")), Some(Address(12)));
    assert_eq!(index.read(Commit(3), &key("e")), None);
    assert_eq!(index.read(Commit(4), &key("e")), Some(Address(40)));
    assert_eq!(index.read(Commit(4), &key("b")), None);
    assert_eq!(index.read(Commit(4), &key("")), None);
}

#[test]
fn index_queries_give_the_newest_below_the_limit() {
    let index = sample();
    assert_eq!(index.point_query(Commit(1), &key("e")), written(0, 12, 2));
    assert_eq!(index.point_query(Commit(4), &key("e")), written(3, 40, 0));
    assert_eq!(
        index.point_query(Commit(4), &key("c")),
        Some(Entry {
            commit: Commit(1),
            value: ReadValue::Deleted(Address(20)),
            batch_idx: BatchIdx(0)
        })
    );
    assert_eq!(index.point_query(Commit(0), &key("e")), None);
    assert_eq!(index.point_query(Commit(4), &key("x")), None);
    assert_eq!(index.range_delete_query(Commit(2), &key("e")), None);
    assert_eq!(index.range_delete_query(Commit(3), &key("e")), Some((Commit(2), BatchIdx(0))));
    assert_eq!(index.range_delete_query(Commit(3), &key("d")), Some((Commit(2), BatchIdx(0))));
    assert_eq!(index.range_delete_query(Commit(3), &key("f")), None);
    assert_eq!(index.range_delete_query(Commit(3), &key("c")), None);
    assert_eq!(index.key_true_value(Commit(4), &key("e")), Some(Address(40)));
}

#[test]
fn index_write_against_range_delete() {
    let range = |commit: u64, idx: u32| Some((Commit(commit), BatchIdx(idx)));
    assert_eq!(Index::inner_true_value(written(5, 1, 0), None), Some(Address(1)));
    assert_eq!(Index::inner_true_value(written(5, 1, 0), range(4, 9)), Some(Address(1)));
    assert_eq!(Index::inner_true_value(written(5, 1, 3), range(5, 2)), Some(Address(1)));
    assert_eq!(Index::inner_true_value(written(5, 1, 2), range(5, 2)), None);
    assert_eq!(Index::inner_true_value(written(5, 1, 1), range(5, 2)), None);
    assert_eq!(Index::inner_true_value(written(5, 1, 9), range(6, 0)), None);
    assert_eq!(Index::inner_true_value(None, range(6, 0)), None);
    assert_eq!(Index::inner_true_value(None, None), None);
    let deleted = Some(Entry {
        commit: Commit(5),
        value: ReadValue::Deleted(Address(1)),
        batch_idx: BatchIdx(0),
    });
    assert_eq!(Index::inner_true_value(deleted, None), None);
    assert_eq!(Index::inner_true_value(deleted, range(1, 0)), None);
}

#[test]
fn index_empty_range_delete_changes_nothing() {
    let mut index = sample();
    let w = index.writer(Commit(4));
    w.delete_range(&mut index, key("a"), key("a"), Address(50), BatchIdx(0));
    w.delete_range(&mut index, key("e"), key("a"), Address(51), BatchIdx(1));
    w.finish(&mut index);
    assert_eq!(index.read(Commit(5), &key("a")), Some(Address(11)));
    assert_eq!(index.read(Commit(5), &key("e")), Some(Address(40)));
    assert_eq!(index.read(Commit(5), &key("c")), None);
}

#[test]
fn index_cursor_walks_the_visible_keys() {
    let index = sample();
    let mut cursor = index.cursor(Commit(4));
    cursor.seek_first(&index);
    assert!(cursor.valid());
    assert_eq!(cursor.key(), key("a"));
    assert_eq!(cursor.address(), Address(11));
    cursor.next(&index);
    assert_eq!(cursor.key(), key("e"));
    assert_eq!(cursor.address(), Address(40));
    cursor.next(&index);
    assert!(!cursor.valid());

    cursor.seek_last(&index);
    assert_eq!(cursor.key(), key("e"));
    cursor.prev(&index);
    assert_eq!(cursor.key(), key("a"));
    cursor.prev(&index);
    assert!(!cursor.valid());
}

#[test]
fn index_cursor_sees_its_own_commit_limit() {
    let index = sample();
    let mut cursor = index.cursor(Commit(1));
    cursor.seek_first(&index);
    assert_eq!(cursor.key(), key("a"));
    cursor.next(&index);
    assert_eq!(cursor.key(), key("c"));
    assert_eq!(cursor.address(), Address(10));
    cursor.next(&index);
    assert_eq!(cursor.key(), key("e"));
    assert_eq!(cursor.address(), Address(12));

    let mut cursor = index.cursor(Commit(3));
    cursor.seek_last(&index);
    assert_eq!(cursor.key(), key("a"));
    let mut cursor = index.cursor(Commit(0));
    cursor.seek_first(&index);
    assert!(!cursor.valid());
}

#[test]
fn index_seek_key_finds_the_key_or_the_next() {
    let index = sample();
    let mut cursor = index.cursor(Commit(4));
    cursor.seek_key(&index, key("a"));
    assert_eq!(cursor.key(), key("a"));
    cursor.seek_key(&index, key(""));
    assert_eq!(cursor.key(), key("a"));
    cursor.seek_key(&index, key("b"));
    assert_eq!(cursor.key(), key("e"));
    cursor.seek_key(&index, key("c"));
    assert_eq!(cursor.key(), key("e"));
    cursor.seek_key(&index, key("e"));
    assert_eq!(cursor.key(), key("e"));
    assert_eq!(Some(cursor.address()), index.read(Commit(4), &key("e")));
}

#[test]
fn index_seek_past_the_last_key_is_invalid() {
    let index = sample();
    let mut cursor = index.cursor(Commit(4));
    cursor.seek_key(&index, key("ea"));
    assert!(!cursor.valid());
    cursor.seek_key(&index, key("z"));
    assert!(!cursor.valid());
    cursor.seek_key_rev(&index, key(""));
    assert!(!cursor.valid());
}

#[test]
fn index_seek_key_rev_finds_the_key_or_the_one_before() {
    let index = sample();
    let mut cursor = index.cursor(Commit(4));
    cursor.seek_key_rev(&index, key("z"));
    assert_eq!(cursor.key(), key("e"));
    cursor.seek_key_rev(&index, key("e"));
    assert_eq!(cursor.key(), key("e"));
    cursor.seek_key_rev(&index, key("d"));
    assert_eq!(cursor.key(), key("a"));
    cursor.seek_key_rev(&index, key("a"));
    assert_eq!(cursor.key(), key("a"));
}

#[test]
fn index_cursor_keeps_its_view_while_the_index_grows() {
    let mut index = sample();
    let mut cursor = index.cursor(Commit(4));
    cursor.seek_first(&index);
    assert_eq!(cursor.key(), key("a"));
    let w = index.writer(Commit(4));
    w.write(&mut index, key("b"), Address(60), BatchIdx(0));
    w.delete(&mut index, key("e"), Address(61), BatchIdx(1));
    w.finish(&mut index);
    cursor.next(&index);
    assert_eq!(cursor.key(), key("e"));
    assert_eq!(cursor.address(), Address(40));
    let mut fresh = index.cursor(Commit(5));
    fresh.seek_first(&index);
    assert_eq!(fresh.key(), key("a"));
    fresh.next(&index);
    assert_eq!(fresh.key(), key("b"));
    fresh.next(&index);
    assert!(!fresh.valid());
}

#[test]
fn index_visible_entries_lists_in_key_order() {
    let index = sample();
    assert_eq!(
        index.visible_entries(Commit(4)),
        vec![(key("a"), Address(11)), (key("e"), Address(40))]
    );
    assert_eq!(
        index.visible_entries(Commit(1)),
        vec![(key("a"), Address(11)), (key("c"), Address(10)), (key("e"), Address(12))]
    );
    assert_eq!(index.visible_entries(Commit(0)), vec![]);
}

#[test]
fn index_many_keys_stay_sorted() {
    let mut index = Index::new();
    let w = index.writer(Commit(0));
    let order = [5u8, 1, 9, 3, 7, 0, 8, 2, 6, 4];
    for (i, k) in order.iter().enumerate() {
        w.write(&mut index, Key(vec![*k]), Address(*k as u64), BatchIdx(i as u32));
    }
    w.finish(&mut index);
    let entries = index.visible_entries(Commit(1));
    let expected: Vec<(Key, Address)> = (0u8..10).map(|k| (Key(vec![k]), Address(k as u64))).collect();
    assert_eq!(entries, expected);
    for k in 0u8..10 {
        assert_eq!(index.read(Commit(1), &Key(vec![k])), Some(Address(k as u64)));
    }
}
