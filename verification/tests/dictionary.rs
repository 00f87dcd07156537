use bencode::dict::BMap;
use bencode::order::{bytes_eq, bytes_lt};
use bencode::value::{BDict, Benc};

fn keys<T>(map: &BMap<T>) -> Vec<Vec<u8>> {
    map.as_slice().iter().map(|e| e.0.clone()).collect()
}

#[test]
fn new_map_is_empty() {
    let map: BMap<i64> = BMap::new();
    assert_eq!(map.len(), 0);
    assert!(map.is_empty());
    assert!(map.as_slice().is_empty());
    assert_eq!(map.get(b"a"), None);
    assert_eq!(map.get(b""), None);
}

#[test]
fn insert_keeps_keys_ascending() {
    let mut map: BMap<i64> = BMap::new();
    assert_eq!(map.insert(b"m".to_vec(), 1), None);
    assert_eq!(map.insert(b"z".to_vec(), 2), None);
    assert_eq!(map.insert(b"a".to_vec(), 3), None);
    assert_eq!(map.insert(b"mm".to_vec(), 4), None);
    assert_eq!(map.insert(Vec::new(), 5), None);
    assert_eq!(map.len(), 5);
    assert!(!map.is_empty());
    assert_eq!(
        keys(&map),
        vec![Vec::new(), b"a".to_vec(), b"m".to_vec(), b"mm".to_vec(), b"z".to_vec()]
    );
    let values: Vec<i64> = map.as_slice().iter().map(|e| e.1).collect();
    assert_eq!(values, vec![5, 3, 1, 4, 2]);
}

#[test]
fn insert_replaces_and_returns_the_old_value() {
    let mut map: BMap<i64> = BMap::new();
    assert_eq!(map.insert(b"a".to_vec(), 1), None);
    assert_eq!(map.insert(b"b".to_vec(), 2), None);
    assert_eq!(map.insert(b"a".to_vec(), 10), Some(1));
    assert_eq!(map.insert(b"a".to_vec(), 11), Some(10));
    assert_eq!(map.insert(b"b".to_vec(), 20), Some(2));
    assert_eq!(map.len(), 2);
    assert_eq!(map.get(b"a"), Some(&11));
    assert_eq!(map.get(b"b"), Some(&20));
    assert_eq!(keys(&map), vec![b"a".to_vec(), b"b".to_vec()]);
}

#[test]
fn get_finds_each_key_and_no_other() {
    let mut map: BMap<i64> = BMap::new();
    for n in 0..50i64 {
        map.insert(vec![(n * 5 % 256) as u8, (n % 7) as u8], n);
    }
    assert_eq!(map.len(), 50);
    for n in 0..50i64 {
        assert_eq!(map.get(&[(n * 5 % 256) as u8, (n % 7) as u8]), Some(&n));
    }
    assert_eq!(map.get(&[1, 1]), None);
    assert_eq!(map.get(&[0]), None);
    assert_eq!(map.get(&[0, 0, 0]), None);
    let sorted = keys(&map);
    for pair in sorted.windows(2) {
        assert!(pair[0] < pair[1]);
    }
}

#[test]
fn insertion_order_does_not_matter() {
    let mut first: BMap<i64> = BMap::new();
    first.insert(b"x".to_vec(), 1);
    first.insert(b"y".to_vec(), 2);
    first.insert(b"w".to_vec(), 3);
    let mut second: BMap<i64> = BMap::new();
    second.insert(b"w".to_vec(), 3);
    second.insert(b"y".to_vec(), 0);
    second.insert(b"x".to_vec(), 1);
    second.insert(b"y".to_vec(), 2);
    assert_eq!(first, second);
    second.insert(b"y".to_vec(), 9);
    assert_ne!(first, second);
}

#[test]
fn clone_of_a_map_is_equal() {
    let mut map: BDict = BDict::new();
    map.insert(b"k".to_vec(), Benc::L(vec![Benc::I(1)]));
    map.insert(b"j".to_vec(), Benc::S(b"v".to_vec()));
    let copy = map.clone();
    assert_eq!(copy, map);
    assert_eq!(keys(&copy), vec![b"j".to_vec(), b"k".to_vec()]);
    let mut numbers: BMap<i64> = BMap::new();
    numbers.insert(b"b".to_vec(), 2);
    numbers.insert(b"a".to_vec(), 1);
    assert_eq!(numbers.clone(), numbers);
}

#[test]
fn keys_are_ordered_byte_by_byte() {
    assert!(bytes_lt(b"", b"a"));
    assert!(!bytes_lt(b"", b""));
    assert!(!bytes_lt(b"a", b""));
    assert!(bytes_lt(b"a", b"b"));
    assert!(!bytes_lt(b"b", b"a"));
    assert!(!bytes_lt(b"a", b"a"));
    assert!(bytes_lt(b"a", b"aa"));
    assert!(!bytes_lt(b"aa", b"a"));
    assert!(bytes_lt(b"ab", b"b"));
    assert!(bytes_lt(b"B", b"a"));
    assert!(bytes_lt(b"Z", b"a"));
    assert!(bytes_lt(b"10", b"9"));
    assert!(bytes_lt(&[0, 255], &[1]));
    assert!(bytes_lt(&[127], &[128]));
    assert!(bytes_lt(&[b'z'], &[255]));
    assert!(bytes_lt(b"abc", b"abd"));
    assert!(!bytes_lt(b"abd", b"abc"));
}

#[test]
fn byte_order_agrees_with_slice_order() {
    let samples: Vec<&[u8]> =
        vec![b"", b"a", b"aa", b"ab", b"b", b"B", &[0], &[255], &[0, 0], b"spam", b"cow"];
    for a in &samples {
        for b in &samples {
            assert_eq!(bytes_lt(a, b), a < b);
            assert_eq!(bytes_eq(a, b), a == b);
        }
    }
}

#[test]
fn bytes_are_equal_when_they_hold_the_same() {
    assert!(bytes_eq(b"", b""));
    assert!(bytes_eq(b"spam", b"spam"));
    assert!(!bytes_eq(b"spam", b"spam "));
    assert!(!bytes_eq(b"spam", b"spaM"));
    assert!(!bytes_eq(b"", b"a"));
}

#[test]
fn map_from_pairs_lets_the_last_pair_win() {
    let map: BMap<i64> = BMap::from_pairs(vec![
        (b"b".to_vec(), 1),
        (b"a".to_vec(), 2),
        (b"b".to_vec(), 3),
        (b"c".to_vec(), 4),
        (b"a".to_vec(), 5),
    ]);
    assert_eq!(keys(&map), vec![b"a".to_vec(), b"b".to_vec(), b"c".to_vec()]);
    assert_eq!(map.get(b"a"), Some(&5));
    assert_eq!(map.get(b"b"), Some(&3));
    assert_eq!(map.get(b"c"), Some(&4));
    let empty: BMap<i64> = BMap::from_pairs(Vec::new());
    assert!(empty.is_empty());
}

#[test]
fn map_from_pairs_is_insertion_in_order() {
    let pairs: Vec<(Vec<u8>, i64)> =
        vec![(b"x".to_vec(), 1), (b"w".to_vec(), 2), (b"x".to_vec(), 3)];
    let mut by_hand: BMap<i64> = BMap::new();
    for (key, value) in pairs.clone() {
        by_hand.insert(key, value);
    }
    assert_eq!(BMap::from_pairs(pairs), by_hand);
}
