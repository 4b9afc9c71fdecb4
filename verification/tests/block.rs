use lsmkv::db::block::{Block, BlockBuilder, BlockIterator};
use lsmkv::db::ldbiterator::LdbIterator;
use lsmkv::util::coding::{decode_fixed_32, put_fixed_32};
use lsmkv::util::comparator::BytewiseComparator;
use lsmkv::util::status::Error;

fn new_test_block() -> Vec<u8> {
    let mut samples = vec!["1", "12", "123", "abc", "abd", "acd", "bbb"];
    let mut builder = BlockBuilder::new(3, BytewiseComparator::default());
    for key in samples.drain(..) {
        builder.add(key.as_bytes(), key.as_bytes()).unwrap();
    }
    // restarts: [0, 18, 42]
    // entries data size: 51
    Vec::from(builder.finish())
}

fn build(entries: &[(Vec<u8>, Vec<u8>)], interval: usize) -> Vec<u8> {
    let mut builder = BlockBuilder::new(interval, BytewiseComparator::default());
    for (key, value) in entries {
        builder.add(key, value).unwrap();
    }
    Vec::from(builder.finish())
}

fn scan(data: Vec<u8>) -> Vec<(Vec<u8>, Vec<u8>)> {
    let block = Block::new(data).unwrap();
    let mut iter = block.iter(BytewiseComparator::default());
    let mut out = vec![];
    iter.seek_to_first();
    while iter.valid() {
        out.push((iter.key().to_vec(), iter.value().to_vec()));
        iter.next();
    }
    assert!(iter.status().is_ok());
    out
}

fn numbered(n: usize) -> Vec<(Vec<u8>, Vec<u8>)> {
    (0..n)
        .map(|i| {
            (
                format!("key{:04}", i).into_bytes(),
                format!("value{}", i * 7).into_bytes(),
            )
        })
        .collect()
}

#[test]
fn test_corrupted_block() {
    // Invalid data size
    let res = Block::new(vec![0, 0, 0]);
    assert!(res.is_err());

    let mut data = vec![];
    let mut test_restarts = vec![0, 10, 20];
    let length = test_restarts.len() as u32;
    for restart in test_restarts.drain(..) {
        put_fixed_32(&mut data, restart);
    }
    // Append invalid length of restarts
    put_fixed_32(&mut data, length + 1);
    let res = Block::new(data);
    assert!(res.is_err());
    assert_eq!(res.err(), Some(Error::Corruption));
}

#[test]
fn test_new_empty_block() {
    let ucmp = BytewiseComparator::default();
    let ucmp2 = ucmp.clone();
    let mut builder = BlockBuilder::new(2, ucmp);
    let data = builder.finish();
    println!("{:?}", data);
    let length = data.len();
    let restarts_len = decode_fixed_32(&data[length - 4..length]);
    let restarts = &data[..length - 4];
    assert_eq!(restarts_len, 1);
    assert_eq!(restarts.len() as u32 / 4, restarts_len);
    assert_eq!(decode_fixed_32(restarts), 0);
    let block = Block::new(Vec::from(data)).unwrap();
    let mut iter = block.iter(ucmp2);
    assert!(!iter.valid());
    iter.seek_to_first();
    assert!(!iter.valid());
    iter.seek_to_last();
    assert!(!iter.valid());
    iter.seek(b"a");
    assert!(!iter.valid());
    assert!(iter.status().is_ok());
}

#[test]
fn test_new_block_from_bytes() {
    let data = new_test_block();
    assert_eq!(Block::num_restarts(&data), 3);
    let block = Block::new(data).unwrap();
    assert_eq!(block.restart_offset(), 51);
}

#[test]
fn test_simple_empty_key() {
    let ucmp = BytewiseComparator::default();
    let mut builder = BlockBuilder::new(2, ucmp);
    builder.add(b"", b"test").unwrap();
    let data = builder.finish();
    let block = Block::new(Vec::from(data)).unwrap();
    let mut iter = block.iter(BytewiseComparator::default());
    iter.seek("".as_bytes());
    assert!(iter.valid());
    let k = iter.key();
    let v = iter.value();
    assert_eq!(std::str::from_utf8(k).unwrap(), "");
    assert_eq!(std::str::from_utf8(v).unwrap(), "test");
    iter.next();
    assert!(!iter.valid());
}

#[test]
fn test_restart_offsets_of_seven_entries() {
    let data = new_test_block();
    assert_eq!(data.len(), 51 + 3 * 4 + 4);
    assert_eq!(decode_fixed_32(&data[51..55]), 0);
    assert_eq!(decode_fixed_32(&data[55..59]), 18);
    assert_eq!(decode_fixed_32(&data[59..63]), 42);
    assert_eq!(decode_fixed_32(&data[63..67]), 3);
    let keys = ["1", "12", "123", "abc", "abd", "acd", "bbb"];
    let got = scan(data);
    assert_eq!(got.len(), 7);
    for (pair, key) in got.iter().zip(keys.iter()) {
        assert_eq!(pair.0, key.as_bytes());
        assert_eq!(pair.1, key.as_bytes());
    }
}

#[test]
fn test_entry_bytes_are_prefix_compressed() {
    let mut builder = BlockBuilder::new(16, BytewiseComparator::default());
    builder.add(b"abc", b"x").unwrap();
    builder.add(b"abd", b"yz").unwrap();
    assert_eq!(builder.current_size_estimate(), 7 + 6 + 8);
    let data = Vec::from(builder.finish());
    assert_eq!(
        data,
        vec![0, 3, 1, b'a', b'b', b'c', b'x', 2, 1, 2, b'd', b'y', b'z', 0, 0, 0, 0, 1, 0, 0, 0]
    );
}

#[test]
fn test_round_trip_around_restart_interval() {
    let interval = 4;
    for n in [0usize, 1, interval - 1, interval, interval + 1, 2 * interval, 37] {
        let entries = numbered(n);
        assert_eq!(scan(build(&entries, interval)), entries);
    }
    for interval in [1usize, 2, 3, 16] {
        let entries = numbered(9);
        assert_eq!(scan(build(&entries, interval)), entries);
    }
}

#[test]
fn test_builder_refuses_misuse() {
    let mut builder = BlockBuilder::new(2, BytewiseComparator::default());
    assert!(builder.is_empty());
    assert!(builder.add(b"b", b"1").is_ok());
    assert!(!builder.is_empty());
    assert_eq!(builder.add(b"a", b"2"), Err(Error::InvalidArgument));
    assert_eq!(builder.add(b"b", b"2"), Err(Error::InvalidArgument));
    assert!(builder.add(b"c", b"3").is_ok());
    let finished = Vec::from(builder.finish());
    assert_eq!(builder.add(b"d", b"4"), Err(Error::InvalidArgument));
    assert_eq!(Vec::from(builder.finish()), finished);
    builder.reset();
    assert!(builder.is_empty());
    assert!(builder.add(b"a", b"1").is_ok());
    assert_eq!(scan(Vec::from(builder.finish())), vec![(b"a".to_vec(), b"1".to_vec())]);
}

#[test]
fn test_seek_in_block() {
    let entries = numbered(25);
    let block = Block::new(build(&entries, 4)).unwrap();
    let mut iter = block.iter(BytewiseComparator::default());
    for (i, (key, value)) in entries.iter().enumerate() {
        iter.seek(key);
        assert!(iter.valid());
        assert_eq!(iter.key(), key.as_slice());
        assert_eq!(iter.value(), value.as_slice());
        let mut before = key.clone();
        before.pop();
        iter.seek(&before);
        assert!(iter.valid());
        let expect = if i % 10 == 0 { i } else { i - i % 10 };
        assert_eq!(iter.key(), entries[expect].0.as_slice());
        let mut after = key.clone();
        after.push(0);
        iter.seek(&after);
        if i + 1 < entries.len() {
            assert_eq!(iter.key(), entries[i + 1].0.as_slice());
        } else {
            assert!(!iter.valid());
        }
    }
    iter.seek(b"");
    assert_eq!(iter.key(), entries[0].0.as_slice());
    iter.seek(b"zzz");
    assert!(!iter.valid());
}

#[test]
fn test_backward_scan_of_block() {
    let entries = numbered(11);
    let block = Block::new(build(&entries, 3)).unwrap();
    let mut iter = block.iter(BytewiseComparator::default());
    iter.seek_to_last();
    let mut got = vec![];
    while iter.valid() {
        got.push((iter.key().to_vec(), iter.value().to_vec()));
        iter.prev();
    }
    got.reverse();
    assert_eq!(got, entries);
    iter.seek_to_first();
    iter.next();
    iter.prev();
    assert_eq!(iter.key(), entries[0].0.as_slice());
}

#[test]
fn test_entry_beyond_region_is_corruption() {
    // One entry that declares a value longer than the entry region.
    let mut data = vec![0u8, 1, 9, b'k', b'v'];
    put_fixed_32(&mut data, 0);
    put_fixed_32(&mut data, 1);
    let block = Block::new(data).unwrap();
    let mut iter = block.iter(BytewiseComparator::default());
    iter.seek_to_first();
    assert!(!iter.valid());
    assert_eq!(iter.status(), Err(Error::Corruption));
    iter.seek_to_last();
    assert!(!iter.valid());
    assert_eq!(iter.status(), Err(Error::Corruption));
    // An entry that shares more bytes than the key before it has.
    let mut data = vec![2u8, 1, 0, b'k'];
    put_fixed_32(&mut data, 0);
    put_fixed_32(&mut data, 1);
    let block = Block::new(data).unwrap();
    let mut iter = block.iter(BytewiseComparator::default());
    iter.seek_to_first();
    assert!(!iter.valid());
    assert_eq!(iter.status(), Err(Error::Corruption));
}

#[test]
fn test_cursor_interface() {
    fn first_key<I: LdbIterator>(iter: &mut I) -> Option<Vec<u8>> {
        iter.seek_to_first();
        if iter.valid() {
            Some(iter.key().to_vec())
        } else {
            None
        }
    }
    let entries = numbered(3);
    let data = build(&entries, 2);
    let limit = (data.len() - 12) as u32;
    let mut iter = BlockIterator::new(BytewiseComparator::default(), data, limit, 2);
    assert_eq!(first_key(&mut iter), Some(entries[0].0.clone()));
    assert_eq!(Block::default().restart_offset(), 0);
}
