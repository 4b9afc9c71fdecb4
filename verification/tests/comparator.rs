use lsmkv::util::comparator::{
    bytewise_order, is_before, is_same, shared_prefix_len, BytewiseComparator, Comparator,
};
use std::cmp::Ordering;

#[test]
fn test_bytewise_comparator_separator() {
    let mut tests = vec![
        ("", "1111", ""),
        ("1111", "", "1111"),
        ("1111", "111", "1111"),
        ("123", "1234", "123"),
        ("1234", "1234", "1234"),
        ("1", "2", "1"),
        ("1357", "2", "1357"),
        ("1111", "12345", "1111"),
        ("1111", "13345", "12"),
    ];
    let c = BytewiseComparator::default();
    for (a, b, expect) in tests.drain(..) {
        let res = c.find_shortest_separator(a.as_bytes(), b.as_bytes());
        assert_eq!(std::str::from_utf8(&res).unwrap(), expect);
    }
    // special 0xff case
    let a: Vec<u8> = vec![48, 255];
    let b: Vec<u8> = vec![48, 49, 50, 51];
    let res = c.find_shortest_separator(a.as_slice(), b.as_slice());
    assert_eq!(res, a);
}

#[test]
fn test_bytewise_comparator_successor() {
    let mut tests = vec![("", ""), ("111", "2"), ("222", "3")];
    let c = BytewiseComparator::default();
    for (input, expect) in tests.drain(..) {
        let res = c.find_short_successor(input.as_bytes());
        assert_eq!(std::str::from_utf8(&res).unwrap(), expect);
    }
    // special 0xff case
    let mut corner_tests = vec![
        (vec![0xff, 0xff, 1], vec![255u8, 255u8, 2]),
        (vec![0xff, 0xff, 0xff], vec![255u8, 255u8, 255u8]),
    ];
    for (input, expect) in corner_tests.drain(..) {
        let res = c.find_short_successor(input.as_slice());
        assert_eq!(res, expect)
    }
}

#[test]
fn test_shortening_examples() {
    let c = BytewiseComparator::default();
    assert_eq!(c.find_shortest_separator(b"1111", b"13345"), b"12".to_vec());
    assert_eq!(c.find_short_successor(b"1111"), b"2".to_vec());
    assert_eq!(
        c.find_short_successor(&[0xff, 0xff, 0xff]),
        vec![0xff, 0xff, 0xff]
    );
}

#[test]
fn test_bytewise_compare() {
    let c = BytewiseComparator::default();
    assert_eq!(c.compare(b"", b""), Ordering::Equal);
    assert_eq!(c.compare(b"", b"a"), Ordering::Less);
    assert_eq!(c.compare(b"a", b""), Ordering::Greater);
    assert_eq!(c.compare(b"abc", b"abd"), Ordering::Less);
    assert_eq!(c.compare(b"abc", b"ab"), Ordering::Greater);
    assert_eq!(c.compare(&[0xff], &[0x01, 0x02]), Ordering::Greater);
    assert_eq!(c.compare(b"abc", b"abc"), Ordering::Equal);
    assert!(c.admits(b"anything"));
    assert_eq!(BytewiseComparator::name(), "leveldb.BytewiseComparator");
}

#[test]
fn test_separator_stays_in_range() {
    let c = BytewiseComparator::default();
    let pairs: Vec<(&[u8], &[u8])> = vec![
        (b"abc", b"abz"),
        (b"a", b"c"),
        (b"abcdef", b"abd"),
        (b"", b"a"),
        (b"zz", b"a"),
    ];
    for (start, limit) in pairs {
        let sep = c.find_shortest_separator(start, limit);
        assert_ne!(c.compare(start, &sep), Ordering::Greater);
        if c.compare(start, limit) == Ordering::Less {
            assert_eq!(c.compare(&sep, limit), Ordering::Less);
        } else {
            assert_eq!(sep, start.to_vec());
        }
        let succ = c.find_short_successor(start);
        assert_ne!(c.compare(start, &succ), Ordering::Greater);
    }
}

#[test]
fn test_order_helpers() {
    let c = BytewiseComparator::default();
    assert!(is_before(&c, b"a", b"b"));
    assert!(!is_before(&c, b"b", b"a"));
    assert!(!is_before(&c, b"a", b"a"));
    assert!(is_same(&c, b"a", b"a"));
    assert!(!is_same(&c, b"a", b"ab"));
    assert_eq!(bytewise_order(b"a", b"b"), -1);
    assert_eq!(bytewise_order(b"b", b"a"), 1);
    assert_eq!(bytewise_order(b"b", b"b"), 0);
    assert_eq!(shared_prefix_len(b"abcd", b"abxy"), 2);
    assert_eq!(shared_prefix_len(b"ab", b"abxy"), 2);
    assert_eq!(shared_prefix_len(b"", b"abxy"), 0);
}
