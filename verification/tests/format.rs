use lsmkv::db::dbformat::ValueType as TagType;
use std::cmp::Ordering;
use lsmkv::db::dbformat::{parse_key, ParseInternelKey};
use lsmkv::db::format::{
    append_Internal_key, extract_user_key, pack_sequence_and_type, InternalKey,
    InternalKeyComparator, LookUpKey, ParsedInteralKey, ValueType, K_MAX_SEQUENCE_NUMBER,
    VALUE_TYPE_FOR_SEEK,
};
use lsmkv::util::coding::decode_fixed_64;
use lsmkv::util::comparator::{BytewiseComparator, Comparator};
use lsmkv::util::status::Error;

#[test]
fn test_pack_seq_and_type() {
    let mut tests: Vec<(u64, ValueType, Vec<u8>)> = vec![
        (1, ValueType::KTypeValue, vec![1, 1, 0, 0, 0, 0, 0, 0]),
        (2, ValueType::KTypeDeletion, vec![0, 2, 0, 0, 0, 0, 0, 0]),
        (
            K_MAX_SEQUENCE_NUMBER,
            ValueType::KTypeDeletion,
            vec![0, 255, 255, 255, 255, 255, 255, 255],
        ),
    ];
    for (seq, t, expect) in tests.drain(..) {
        let u = decode_fixed_64(expect.as_slice());
        assert_eq!(pack_sequence_and_type(seq, t), u);
    }
}

fn assert_encoded_decoded(key: &str, seq: u64, vt: ValueType) {
    let encoded = InternalKey::new(key.as_bytes(), seq, vt);
    assert_eq!(key.as_bytes(), encoded.user_key());
    let decoded = encoded.parse().expect("");
    assert_eq!(key.as_bytes(), decoded.user_key());
    assert_eq!(seq, decoded.sequence);
    assert_eq!(vt, decoded.value_type);
}

#[test]
fn test_internal_key_encode_decode() {
    let test_keys = ["", "k", "hello", "longggggggggggggggggggggg"];
    let test_seqs = [
        1,
        2,
        3,
        (1u64 << 8) - 1,
        1u64 << 8,
        (1u64 << 8) + 1,
        (1u64 << 16) - 1,
        1u64 << 16,
        (1u64 << 16) + 1,
        (1u64 << 32) - 1,
        1u64 << 32,
        (1u64 << 32) + 1,
    ];
    for i in 0..test_keys.len() {
        for j in 0..test_seqs.len() {
            assert_encoded_decoded(test_keys[i], test_seqs[j], ValueType::KTypeValue);
            assert_encoded_decoded(test_keys[i], test_seqs[j], ValueType::KTypeDeletion);
        }
    }
}

#[test]
fn test_icmp_cmp() {
    let icmp = InternalKeyComparator::new(BytewiseComparator::default());
    let tests = vec![
        (
            ("", 100, ValueType::KTypeValue),
            ("", 100, ValueType::KTypeValue),
            Ordering::Equal,
        ),
        (
            ("", 90, ValueType::KTypeValue),
            ("", 100, ValueType::KTypeValue),
            Ordering::Greater,
        ), // physically less but logically larger
        (
            ("", 90, ValueType::KTypeValue),
            ("", 90, ValueType::KTypeDeletion),
            Ordering::Equal,
        ), // Only cmp KTypeValue seq if the user keys are same
        (
            ("a", 90, ValueType::KTypeValue),
            ("b", 100, ValueType::KTypeValue),
            Ordering::Less,
        ),
    ];
    for (a, b, expected) in tests {
        let ka = InternalKey::new(a.0.as_bytes(), a.1, a.2);
        let kb = InternalKey::new(b.0.as_bytes(), b.1, b.2);
        assert_eq!(expected, icmp.compare(ka.data(), kb.data()));
    }
}

#[test]
fn test_icmp_separator() {
    let tests = vec![
        // ukey are the same
        (
            ("foo", 100, ValueType::KTypeValue),
            ("foo", 99, ValueType::KTypeValue),
            ("foo", 100, ValueType::KTypeValue),
        ),
        (
            ("foo", 100, ValueType::KTypeValue),
            ("foo", 101, ValueType::KTypeValue),
            ("foo", 100, ValueType::KTypeValue),
        ),
        (
            ("foo", 100, ValueType::KTypeValue),
            ("foo", 100, ValueType::KTypeValue),
            ("foo", 100, ValueType::KTypeValue),
        ),
        // ukey are disordered
        (
            ("foo", 100, ValueType::KTypeValue),
            ("bar", 99, ValueType::KTypeValue),
            ("foo", 100, ValueType::KTypeValue),
        ),
        // ukey are different but correctly ordered
        (
            ("foo", 100, ValueType::KTypeValue),
            ("hello", 200, ValueType::KTypeValue),
            ("g", K_MAX_SEQUENCE_NUMBER, VALUE_TYPE_FOR_SEEK),
        ),
        // When a's ukey is the prefix of b's
        (
            ("foo", 100, ValueType::KTypeValue),
            ("foobar", 200, ValueType::KTypeValue),
            ("foo", 100, ValueType::KTypeValue),
        ),
        // When b's ukey is the prefix of a's
        (
            ("foobar", 100, ValueType::KTypeValue),
            ("foo", 200, ValueType::KTypeValue),
            ("foobar", 100, ValueType::KTypeValue),
        ),
    ];
    let icmp = InternalKeyComparator::new(BytewiseComparator::default());
    for (a, b, expected) in tests {
        let ka = InternalKey::new(a.0.as_bytes(), a.1, a.2);
        let kb = InternalKey::new(b.0.as_bytes(), b.1, b.2);
        assert_eq!(
            InternalKey::new(expected.0.as_bytes(), expected.1, expected.2).data(),
            icmp.find_shortest_separator(ka.data(), kb.data())
                .as_slice()
        );
    }
}

#[test]
fn test_icmp_successor() {
    let tests = vec![
        (
            (Vec::from("foo".as_bytes()), 100, ValueType::KTypeValue),
            (
                Vec::from("g".as_bytes()),
                K_MAX_SEQUENCE_NUMBER,
                VALUE_TYPE_FOR_SEEK,
            ),
        ),
        (
            (vec![255u8, 255u8], 100, ValueType::KTypeValue),
            (vec![255u8, 255u8], 100, ValueType::KTypeValue),
        ),
    ];
    let icmp = InternalKeyComparator::new(BytewiseComparator::default());
    for (k, expected) in tests {
        assert_eq!(
            icmp.find_short_successor(InternalKey::new(k.0.as_slice(), k.1, k.2).data()),
            InternalKey::new(expected.0.as_slice(), expected.1, expected.2).data()
        );
    }
}

#[test]
fn test_sequence_beyond_56_bits_is_refused() {
    assert_eq!(
        InternalKey::try_new(b"k", 1 << 56, ValueType::KTypeValue).err(),
        Some(Error::InvalidArgument)
    );
    assert!(InternalKey::try_new(b"k", (1 << 56) - 1, ValueType::KTypeValue).is_ok());
    assert!(LookUpKey::try_new(b"k", 1 << 56).is_err());
    assert!(LookUpKey::try_new(b"k", 7).is_ok());
}

#[test]
fn test_internal_key_layout() {
    let key = InternalKey::new(b"ab", 0x0102, ValueType::KTypeValue);
    assert_eq!(key.data(), &[b'a', b'b', 1, 2, 1, 0, 0, 0, 0, 0]);
    assert_eq!(key.encode(), key.data());
    assert_eq!(extract_user_key(key.data()), b"ab");
    let tomb = InternalKey::new(b"ab", 3, ValueType::KTypeDeletion);
    assert_eq!(tomb.data(), &[b'a', b'b', 0, 3, 0, 0, 0, 0, 0, 0]);
    let parsed = ParsedInteralKey::from(&tomb);
    assert_eq!(parsed.sequence, 3);
    assert_eq!(parsed.value_type, ValueType::KTypeDeletion);
    assert_eq!(parsed.internal_key_encoding_length(), 10);
    let mut dst = vec![7u8];
    append_Internal_key(&mut dst, &ParsedInteralKey::new(b"ab", 3, ValueType::KTypeDeletion));
    assert_eq!(&dst[1..], tomb.data());
    assert!(ParsedInteralKey::decode_from(&[1, 2, 3]).is_none());
    assert!(InternalKey::decode_from(&[1, 2, 3]).parse().is_none());
    let mut cleared = InternalKey::new(b"ab", 3, ValueType::KTypeValue);
    cleared.clear();
    assert_eq!(cleared.data().len(), 0);
    assert_eq!(InternalKey::default().data().len(), 0);
}

#[test]
fn test_lookup_key_layout() {
    let key = LookUpKey::new(b"foo", 5);
    assert_eq!(
        key.memtable_key(),
        &[11, b'f', b'o', b'o', 1, 5, 0, 0, 0, 0, 0, 0]
    );
    assert_eq!(key.internal_key(), &[b'f', b'o', b'o', 1, 5, 0, 0, 0, 0, 0, 0]);
    assert_eq!(key.user_key(), b"foo");
}

#[test]
fn test_value_type_codes() {
    assert_eq!(ValueType::from(0u8), ValueType::KTypeDeletion);
    assert_eq!(ValueType::from(1u8), ValueType::KTypeValue);
    assert_eq!(ValueType::from(0x100u64), ValueType::KTypeDeletion);
    assert_eq!(ValueType::from(0x101u64), ValueType::KTypeValue);
    assert_eq!(ValueType::KTypeDeletion.to_u8(), 0);
    assert_eq!(ValueType::KTypeValue.to_u8(), 1);
}

#[test]
fn test_internal_order_is_newest_first() {
    let icmp = InternalKeyComparator::new(BytewiseComparator::default());
    let newer = InternalKey::new(b"k", 9, ValueType::KTypeValue);
    let older = InternalKey::new(b"k", 3, ValueType::KTypeValue);
    assert_eq!(icmp.compare(newer.data(), older.data()), Ordering::Less);
    assert_eq!(icmp.compare(older.data(), newer.data()), Ordering::Greater);
    assert!(icmp.admits(newer.data()));
    assert!(!icmp.admits(b"short"));
    assert_eq!(
        InternalKeyComparator::<BytewiseComparator>::name(),
        "leveldb.InternalKeyComparator"
    );
}

#[test]
fn test_parse_tag() {
    assert_eq!(parse_key(0x0501), (TagType::TypeValue, 5));
    assert_eq!(parse_key(0x0500), (TagType::TypeDeletion, 5));
    let key = InternalKey::new(b"ab", 7, ValueType::KTypeValue);
    let parts = ParseInternelKey(key.data()).unwrap();
    assert_eq!(parts.0, b"ab");
    assert_eq!(parts.1, 7);
    assert_eq!(parts.2, TagType::TypeValue);
    assert!(ParseInternelKey(&[1, 2, 3]).is_none());
    let empty = ParseInternelKey(&[]).unwrap();
    assert_eq!(empty.1, 0);
    assert_eq!(empty.2, TagType::TypeDeletion);
}
