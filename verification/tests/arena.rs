use lsmkv::util::arena::{ArenaTrait, BlockArena, Handle, OffsetArena, BLOCK_SIZE};
use rand::Rng;

#[test]
fn test_new_arena() {
    let a = BlockArena::default();
    assert_eq!(a.memory_used(), 0);
    assert_eq!(a.bytes_remaining(), 0);
    assert_eq!(a.blocks_len(), 0);
}

#[test]
#[should_panic]
fn test_allocate_empty_should_panic() {
    let mut a = BlockArena::default();
    a.allocate(0, 0);
}

#[test]
fn test_allocate_new_block() {
    let mut a = BlockArena::default();
    let mut expect_size = 0;
    for (i, size) in [1, 128, 256, 1000, 4096, 10000].iter().enumerate() {
        a.allocate_new_block(*size);
        expect_size += *size;
        assert_eq!(a.memory_used(), expect_size, "memory used should match");
        assert_eq!(a.blocks_len(), i + 1, "number of blocks should match")
    }
}

#[test]
fn test_allocate_fallback() {
    let mut a = BlockArena::default();
    assert_eq!(a.memory_used(), 0);
    a.allocate_fallback(1);
    assert_eq!(a.memory_used(), BLOCK_SIZE);
    assert_eq!(a.bytes_remaining(), BLOCK_SIZE - 1);
    a.allocate_fallback(BLOCK_SIZE / 4 + 1);
    assert_eq!(a.memory_used(), BLOCK_SIZE + BLOCK_SIZE / 4 + 1);
}

#[test]
fn test_allocate_mixed() {
    let mut a = BlockArena::default();
    let mut allocated: Vec<(Handle, usize)> = vec![];
    let mut allocated_size = 0;
    let n = 10000;
    let mut r = rand::thread_rng();
    for i in 0..n {
        let size = if i % (n / 10) == 0 {
            if i == 0 {
                continue;
            }
            i
        } else {
            if i == 1 {
                1
            } else {
                r.gen_range(1, i)
            }
        };
        let handle = a.allocate(size, 8);
        assert_eq!(handle.offset % 8, 0);
        allocated_size += size;
        allocated.push((handle, size));
        assert!(
            a.memory_used() >= allocated_size,
            "the memory used {} should be greater or equal to expecting allocated {}",
            a.memory_used(),
            allocated_size
        );
    }
    // No two regions of one block overlap.
    let mut by_block: Vec<Vec<(usize, usize)>> = vec![vec![]; a.blocks_len()];
    for (handle, size) in allocated.iter() {
        by_block[handle.block].push((handle.offset, *size));
    }
    for regions in by_block.iter_mut() {
        regions.sort();
        for pair in regions.windows(2) {
            assert!(pair[0].0 + pair[0].1 <= pair[1].0);
        }
    }
}

#[test]
fn test_allocate_aligned_cuts_from_open_block() {
    let mut a = BlockArena::default();
    let first = a.allocate_aligned(3, 8);
    assert_eq!(first, Handle { block: 0, offset: 0 });
    assert_eq!(a.memory_used(), BLOCK_SIZE);
    let second = a.allocate_aligned(5, 8);
    assert_eq!(second, Handle { block: 0, offset: 8 });
    assert_eq!(a.bytes_remaining(), BLOCK_SIZE - 13);
    assert_eq!(a.memory_used(), BLOCK_SIZE);
    let large = a.allocate_aligned(BLOCK_SIZE, 8);
    assert_eq!(large, Handle { block: 1, offset: 0 });
    assert_eq!(a.memory_used(), 2 * BLOCK_SIZE);
    let third = a.allocate_aligned(1, 1);
    assert_eq!(third, Handle { block: 0, offset: 13 });
}

#[test]
fn test_offset_arena() {
    let mut a = OffsetArena::with_capacity(32);
    assert_eq!(a.memory_used(), 0);
    assert_eq!(a.allocate(3, 8), Some(0));
    assert_eq!(a.allocate(5, 8), Some(8));
    assert_eq!(a.memory_used(), 13);
    assert_eq!(a.allocate(17, 16), None);
    assert_eq!(a.memory_used(), 13);
    assert_eq!(a.allocate(16, 16), Some(16));
    assert_eq!(a.memory_used(), 32);
    assert_eq!(a.allocate(1, 1), None);
}
