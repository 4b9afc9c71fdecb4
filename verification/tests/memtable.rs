use std::cmp::Ordering;
use lsmkv::db::format::{
    InternalKeyComparator, LookUpKey, ParsedInteralKey, ValueType, K_MAX_SEQUENCE_NUMBER,
};
use lsmkv::db::memtable::{encode_record, KeyComparator, MemTable};
use lsmkv::util::comparator::{BytewiseComparator, Comparator};
use lsmkv::util::status::Error;
use std::str;

fn new_mem_table() -> MemTable<BytewiseComparator> {
    let icmp = InternalKeyComparator::new(BytewiseComparator::default());
    MemTable::new(icmp, 1 << 32)
}

fn add_test_data_set(memtable: &mut MemTable<BytewiseComparator>) -> Vec<(&'static str, &'static str)> {
    let tests = vec![
        (2, ValueType::KTypeValue, "boo", "boo"),
        (4, ValueType::KTypeValue, "foo", "val3"),
        (3, ValueType::KTypeDeletion, "foo", ""),
        (2, ValueType::KTypeValue, "foo", "val2"),
        (1, ValueType::KTypeValue, "foo", "val1"),
    ];
    let mut results = vec![];
    for (seq, t, key, value) in tests.clone().drain(..) {
        memtable.add(seq, t, key.as_bytes(), value.as_bytes()).unwrap();
        results.push((key, value));
    }
    results
}

#[test]
fn test_memtable_add_get() {
    let mut memtable = new_mem_table();
    memtable.add(1, ValueType::KTypeValue, b"foo", b"val1").unwrap();
    memtable.add(2, ValueType::KTypeValue, b"foo", b"val2").unwrap();
    memtable.add(3, ValueType::KTypeDeletion, b"foo", b"").unwrap();
    memtable.add(4, ValueType::KTypeValue, b"foo", b"val3").unwrap();
    memtable.add(2, ValueType::KTypeValue, b"boo", b"boo").unwrap();

    let v = memtable.get(&LookUpKey::new(b"null", 10));
    assert!(v.is_none());
    let v = memtable.get(&LookUpKey::new(b"foo", 10));
    assert_eq!(b"val3", v.unwrap().unwrap().as_slice());
    let v = memtable.get(&LookUpKey::new(b"foo", 0));
    assert!(v.is_none());
    let v = memtable.get(&LookUpKey::new(b"foo", 1));
    assert_eq!(b"val1", v.unwrap().unwrap().as_slice());
    let v = memtable.get(&LookUpKey::new(b"foo", 3));
    assert!(v.unwrap().is_err());
    let v = memtable.get(&LookUpKey::new(b"boo", 3));
    assert_eq!(b"boo", v.unwrap().unwrap().as_slice());
}

#[test]
fn test_memtable_iter() {
    let mut memtable = new_mem_table();
    assert!(!memtable.iter().valid());
    let entries = add_test_data_set(&mut memtable);
    let mut iter = memtable.iter();
    assert!(!iter.valid());
    // Forward scan
    iter.seek_to_first();
    assert!(iter.valid());
    for (key, value) in entries.iter() {
        let k = iter.key();
        let pkey = ParsedInteralKey::decode_from(k).unwrap();
        assert_eq!(
            pkey.user_key(),
            key.as_bytes(),
            "expected key: {:?}, but got {:?}",
            *key,
            pkey.user_key()
        );
        assert_eq!(
            str::from_utf8(iter.value()).unwrap(),
            *value,
            "expected value: {:?}, but got {:?}",
            *value,
            str::from_utf8(iter.value()).unwrap()
        );
        iter.next();
    }
    assert!(!iter.valid());

    // Backward scan
    iter.seek_to_last();
    assert!(iter.valid());
    for (key, value) in entries.iter().rev() {
        let k = iter.key();
        let pkey = ParsedInteralKey::decode_from(k).unwrap();
        assert_eq!(
            pkey.user_key(),
            key.as_bytes(),
            "expected key: {:?}, but got {:?}",
            *key,
            pkey.user_key()
        );
        assert_eq!(
            str::from_utf8(iter.value()).unwrap(),
            *value,
            "expected value: {:?}, but got {:?}",
            *value,
            str::from_utf8(iter.value()).unwrap()
        );
        iter.prev();
    }
    assert!(!iter.valid());
}

#[test]
fn test_get_returns_the_version_asked_for() {
    let mut memtable = new_mem_table();
    memtable.add(5, ValueType::KTypeValue, b"k", b"five").unwrap();
    memtable.add(9, ValueType::KTypeValue, b"k", b"nine").unwrap();
    assert_eq!(memtable.get(&LookUpKey::new(b"k", 9)), Some(Ok(b"nine".to_vec())));
    assert_eq!(memtable.get(&LookUpKey::new(b"k", 5)), Some(Ok(b"five".to_vec())));
    assert_eq!(memtable.get(&LookUpKey::new(b"k", 8)), Some(Ok(b"five".to_vec())));
    assert_eq!(
        memtable.get(&LookUpKey::new(b"k", K_MAX_SEQUENCE_NUMBER)),
        Some(Ok(b"nine".to_vec()))
    );
    assert_eq!(memtable.get(&LookUpKey::new(b"k", 4)), None);
}

#[test]
fn test_deleted_is_not_absent() {
    let mut memtable = new_mem_table();
    memtable.add(1, ValueType::KTypeValue, b"k", b"v").unwrap();
    memtable.add(2, ValueType::KTypeDeletion, b"k", b"").unwrap();
    assert_eq!(memtable.get(&LookUpKey::new(b"k", 2)), Some(Err(Error::NotFound)));
    assert_eq!(memtable.get(&LookUpKey::new(b"k", 7)), Some(Err(Error::NotFound)));
    assert_eq!(memtable.get(&LookUpKey::new(b"k", 1)), Some(Ok(b"v".to_vec())));
    assert_eq!(memtable.get(&LookUpKey::new(b"never", 7)), None);
}

#[test]
fn test_add_refuses_misuse() {
    let mut memtable = new_mem_table();
    assert!(memtable.add(1, ValueType::KTypeValue, b"k", b"v").is_ok());
    assert_eq!(
        memtable.add(1, ValueType::KTypeValue, b"k", b"other"),
        Err(Error::InvalidArgument)
    );
    assert_eq!(
        memtable.add(1, ValueType::KTypeDeletion, b"k", b""),
        Err(Error::InvalidArgument)
    );
    assert_eq!(
        memtable.add(1 << 56, ValueType::KTypeValue, b"k", b"v"),
        Err(Error::InvalidArgument)
    );
    assert_eq!(memtable.get(&LookUpKey::new(b"k", 1)), Some(Ok(b"v".to_vec())));
}

#[test]
fn test_record_layout_and_size() {
    let record = encode_record(3, ValueType::KTypeValue, b"ab", b"xyz");
    assert_eq!(
        record,
        vec![10, b'a', b'b', 1, 3, 0, 0, 0, 0, 0, 0, 3, b'x', b'y', b'z']
    );
    let mut memtable = new_mem_table();
    assert_eq!(memtable.max_mem_size(), 1 << 32);
    assert_eq!(memtable.approximate_memory_usage(), 0);
    memtable.add(3, ValueType::KTypeValue, b"ab", b"xyz").unwrap();
    assert_eq!(memtable.approximate_memory_usage(), record.len());
    memtable.refer();
    memtable.unref();
}

#[test]
fn test_memtable_iterator_seek() {
    let mut memtable = new_mem_table();
    add_test_data_set(&mut memtable);
    let mut iter = memtable.iter();
    iter.seek(LookUpKey::new(b"foo", 3).internal_key());
    assert!(iter.valid());
    let parsed = ParsedInteralKey::decode_from(iter.key()).unwrap();
    assert_eq!(parsed.user_key(), b"foo");
    assert_eq!(parsed.sequence, 3);
    assert_eq!(parsed.value_type, ValueType::KTypeDeletion);
    iter.seek(LookUpKey::new(b"zzz", 3).internal_key());
    assert!(!iter.valid());
    iter.seek(b"bad");
    assert!(!iter.valid());
}

#[test]
fn test_key_comparator() {
    let c = KeyComparator { internal: InternalKeyComparator::new(BytewiseComparator::default()) };
    let a = encode_record(7, ValueType::KTypeValue, b"foo", b"1");
    let b = encode_record(9, ValueType::KTypeValue, b"foo", b"2");
    let d = encode_record(1, ValueType::KTypeValue, b"hello", b"3");
    assert_eq!(c.compare(&a, &b), Ordering::Greater);
    assert_eq!(c.compare(&b, &a), Ordering::Less);
    assert_eq!(c.compare(&a, &d), Ordering::Less);
    assert!(c.admits(&a));
    assert!(!c.admits(&[3, 1, 2, 3]));
    let sep = c.find_shortest_separator(&a, &d);
    assert_eq!(c.compare(&a, &sep), Ordering::Less);
    assert_eq!(c.compare(&sep, &d), Ordering::Less);
    assert_eq!(c.find_shortest_separator(&a, &b), a);
    let succ = c.find_short_successor(&a);
    assert_ne!(c.compare(&a, &succ), Ordering::Greater);
    assert_eq!(KeyComparator::<BytewiseComparator>::name(), "KeyComparator");
}
