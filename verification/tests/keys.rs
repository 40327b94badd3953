use blocksy3::types::{order_bytes, Key, KeyOrder, Value};

fn key(bytes: &[u8]) -> Key {
    Key::from_slice(bytes)
}

#[test]
fn key_from_slice_copies_the_bytes() {
    assert_eq!(Key::from_slice(b"abc"), Key(b"abc".to_vec()));
    assert_eq!(Value::from_slice(b""), Value(vec![]));
    assert_eq!(key(b"abc").duplicate(), key(b"abc"));
}

#[test]
fn key_order_is_unsigned_lexicographic() {
    assert_eq!(key(b"a").order(&key(b"b")), KeyOrder::Less);
    assert_eq!(key(b"b").order(&key(b"a")), KeyOrder::Greater);
    assert_eq!(key(b"ab").order(&key(b"ab")), KeyOrder::Equal);
    assert_eq!(key(b"").order(&key(b"")), KeyOrder::Equal);
    assert_eq!(key(b"").order(&key(b"\0")), KeyOrder::Less);
    assert_eq!(key(b"a").order(&key(b"ab")), KeyOrder::Less);
    assert_eq!(key(b"ab").order(&key(b"a")), KeyOrder::Greater);
    assert_eq!(key(&[0x7f]).order(&key(&[0x80])), KeyOrder::Less);
    assert_eq!(key(&[0xff]).order(&key(&[0x00, 0xff])), KeyOrder::Greater);
    assert_eq!(order_bytes(&vec![1, 2, 3], &vec![1, 2, 4]), KeyOrder::Less);
}

#[test]
fn key_order_agrees_with_the_derived_order() {
    let keys: Vec<Vec<u8>> =
        vec![vec![], vec![0], vec![0, 0], vec![0, 255], vec![1], vec![127], vec![128], vec![255, 0]];
    for a in &keys {
        for b in &keys {
            let expected = match a.cmp(b) {
                std::cmp::Ordering::Less => KeyOrder::Less,
                std::cmp::Ordering::Equal => KeyOrder::Equal,
                std::cmp::Ordering::Greater => KeyOrder::Greater,
            };
            assert_eq!(key(a).order(&key(b)), expected);
            assert_eq!(key(a).same(&key(b)), a == b);
            assert_eq!(key(a).precedes(&key(b)), a < b);
        }
    }
}

#[test]
fn key_within_a_half_open_range() {
    assert!(key(b"k1").within(&key(b"k1"), &key(b"k2")));
    assert!(key(b"k1x").within(&key(b"k1"), &key(b"k2")));
    assert!(!key(b"k2").within(&key(b"k1"), &key(b"k2")));
    assert!(!key(b"k0").within(&key(b"k1"), &key(b"k2")));
    assert!(!key(b"k1").within(&key(b"k1"), &key(b"k1")));
    assert!(!key(b"k1").within(&key(b"k2"), &key(b"k1")));
}
