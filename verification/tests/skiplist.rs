use std::str;
use lsmkv::db::skiplist::{
    height_of_draw, random_height, SkipList, SkipListIterator, HEIGHT_DRAWS, MAX_HEIGHT,
};
use lsmkv::util::arena::BlockArena;
use lsmkv::util::comparator::BytewiseComparator;
use lsmkv::util::status::Error;

fn new_test_skl() -> SkipList<BytewiseComparator, BlockArena> {
    SkipList::new(BytewiseComparator::default(), BlockArena::default())
}

fn construct_skl_from_nodes(nodes: Vec<(&str, usize)>) -> SkipList<BytewiseComparator, BlockArena> {
    let mut skl = new_test_skl();
    for (key, height) in nodes {
        skl.insert_with_height(key.as_bytes(), height).unwrap();
    }
    skl
}

fn forward(skl: &SkipList<BytewiseComparator, BlockArena>) -> Vec<Vec<u8>> {
    let mut iter = SkipListIterator::new(skl);
    let mut out = vec![];
    iter.seek_to_first();
    while iter.valid() {
        out.push(iter.key().to_vec());
        iter.next();
    }
    out
}

fn backward(skl: &SkipList<BytewiseComparator, BlockArena>) -> Vec<Vec<u8>> {
    let mut iter = SkipListIterator::new(skl);
    let mut out = vec![];
    iter.seek_to_last();
    while iter.valid() {
        out.push(iter.key().to_vec());
        iter.prev();
    }
    out
}

#[test]
fn test_rand_height() {
    for _ in 0..100 {
        let height = random_height();
        assert_eq!(height < MAX_HEIGHT, true);
        assert!(height >= 1);
    }
}

#[test]
fn test_height_of_draw() {
    assert_eq!(height_of_draw(1), 1);
    assert_eq!(height_of_draw(3), 1);
    assert_eq!(height_of_draw(2), 2);
    assert_eq!(height_of_draw(6), 2);
    assert_eq!(height_of_draw(4), 3);
    assert_eq!(height_of_draw(8), 4);
    assert_eq!(height_of_draw(512), 10);
    assert_eq!(height_of_draw(0), MAX_HEIGHT - 1);
    assert_eq!(height_of_draw(1024), MAX_HEIGHT - 1);
    let mut counts = vec![0usize; MAX_HEIGHT];
    for draw in 0..HEIGHT_DRAWS {
        counts[height_of_draw(draw)] += 1;
    }
    assert_eq!(counts[0], 0);
    assert_eq!(counts[1], 512);
    assert_eq!(counts[2], 256);
    assert_eq!(counts[10], 1);
    assert_eq!(counts[11], 1);
}

#[test]
fn test_heights_vary() {
    let mut lowest = 0;
    let mut higher = 0;
    for _ in 0..400 {
        if random_height() == 1 {
            lowest += 1;
        } else {
            higher += 1;
        }
    }
    assert!(lowest > 0);
    assert!(higher > 0);
}

#[test]
fn test_find_greater_or_equal() {
    let inputs = vec![
        ("key1", 5),
        ("key3", 1),
        ("key5", 2),
        ("key7", 4),
        ("key9", 3),
    ];

    let skl = construct_skl_from_nodes(inputs);
    let mut iter = SkipListIterator::new(&skl);
    // test the scenario for un-inserted key
    iter.seek("key4".as_bytes());
    assert_eq!(iter.key(), "key5".as_bytes());
    iter.prev();
    assert_eq!(iter.key(), "key3".as_bytes());
    // test the scenario for inserted key
    iter.seek("key5".as_bytes());
    assert_eq!(iter.key(), "key5".as_bytes());
    iter.prev();
    assert_eq!(iter.key(), "key3".as_bytes());
}

#[test]
fn test_contains() {
    let inputs = vec![
        ("key1", 5),
        ("key3", 1),
        ("key5", 2),
        ("key7", 4),
        ("key9", 3),
    ];
    let skl = construct_skl_from_nodes(inputs);
    assert!(skl.contains(b"key1"));
    assert!(!skl.contains(b"key4"));
    assert!(!skl.contains(b"keys"));
}

#[test]
fn test_find_last() {
    let inputs = vec![
        ("key1", 5),
        ("key3", 1),
        ("key5", 2),
        ("key7", 4),
        ("key9", 3),
    ];
    let skl = construct_skl_from_nodes(inputs);
    let mut iter = SkipListIterator::new(&skl);
    iter.seek_to_last();
    assert_eq!(iter.key(), b"key9");
}

#[test]
fn test_duplicate_insert_is_refused() {
    let inputs = vec!["key1", "key1"];
    let mut skl = new_test_skl();
    assert!(skl.insert(inputs[0].as_bytes()).is_ok());
    assert_eq!(skl.insert(inputs[1].as_bytes()), Err(Error::InvalidArgument));
    assert_eq!(skl.len(), 1);
    assert_eq!(skl.size(), 4);
}

#[test]
fn test_empty_skiplist_iterator() {
    let skl = new_test_skl();
    let mut iter = SkipListIterator::new(&skl);
    assert!(!iter.valid());
    iter.seek_to_first();
    assert!(!iter.valid());
    iter.seek_to_last();
    assert!(!iter.valid());
    iter.seek(b"any");
    assert!(!iter.valid());
}

#[test]
fn test_insert() {
    let inputs = vec!["key1", "key3", "key5", "key7", "key9"];
    let mut skl = new_test_skl();
    for key in inputs.clone() {
        skl.insert(key.as_bytes()).unwrap();
    }
    let keys = forward(&skl);
    assert_eq!(keys.len(), inputs.len());
    for (key, input_key) in keys.iter().zip(inputs.iter()) {
        assert_eq!(key.as_slice(), input_key.as_bytes());
    }
    assert_eq!(skl.size(), 20);
}

#[test]
fn test_skiplist_basic() {
    let mut skl = new_test_skl();
    let inputs = vec!["key1", "key11", "key13", "key3", "key5", "key7", "key9"];
    for key in inputs.clone() {
        skl.insert(key.as_bytes()).unwrap()
    }
    let mut iter = SkipListIterator::new(&skl);
    assert!(!iter.valid());

    iter.seek_to_first();
    assert_eq!("key1", std::str::from_utf8(iter.key()).unwrap());
    for key in inputs.clone() {
        if !iter.valid() {
            break;
        }
        assert_eq!(key, std::str::from_utf8(iter.key()).unwrap());
        iter.next();
    }
    assert!(!iter.valid());

    iter.seek_to_first();
    iter.next();
    iter.prev();
    assert_eq!(inputs[0], str::from_utf8(iter.key()).unwrap());
    iter.seek_to_first();
    iter.seek_to_last();
    for key in inputs.into_iter().rev() {
        if !iter.valid() {
            break;
        }
        assert_eq!(key, str::from_utf8(iter.key()).unwrap());
        iter.prev();
    }
    assert!(!iter.valid());
    iter.seek("key7".as_bytes());
    assert_eq!("key7", str::from_utf8(iter.key()).unwrap());
    iter.seek("key4".as_bytes());
    assert_eq!("key5", str::from_utf8(iter.key()).unwrap());
    iter.seek("".as_bytes());
    assert_eq!("key1", str::from_utf8(iter.key()).unwrap());
    iter.seek("llllllllllllllll".as_bytes());
    assert!(!iter.valid());
}

#[test]
fn test_increasing_inserts_iterate_in_order() {
    let mut skl = new_test_skl();
    let keys: Vec<Vec<u8>> = (0..200).map(|i| format!("k{:05}", i).into_bytes()).collect();
    for key in keys.iter() {
        skl.insert(key).unwrap();
    }
    assert_eq!(forward(&skl), keys);
    let mut reversed = keys.clone();
    reversed.reverse();
    assert_eq!(backward(&skl), reversed);
}

#[test]
fn test_shuffled_inserts_iterate_in_order() {
    let mut skl = new_test_skl();
    let mut keys: Vec<Vec<u8>> = (0..300u32)
        .map(|i| format!("k{:05}", (i * 7919) % 300).into_bytes())
        .collect();
    for (i, key) in keys.iter().enumerate() {
        skl.insert_with_height(key, 1 + i % MAX_HEIGHT).unwrap();
    }
    keys.sort();
    assert_eq!(forward(&skl), keys);
    assert_eq!(skl.len(), 300);
    for key in keys.iter() {
        assert!(skl.contains(key));
    }
}
