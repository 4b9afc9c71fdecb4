//! A bump allocator over blocks that it owns. It hands out handles, block
//! index and offset, to regions that stay where they are until the arena is
//! dropped.

use vstd::prelude::*;

verus! {

/// The size of an ordinary block.
pub const BLOCK_SIZE: usize = 4096;

/// A region of an arena: a block and the offset of the region in it.
#[derive(Debug, Clone, Copy, PartialEq, Eq, Structural)]
pub struct Handle {
    pub block: usize,
    pub offset: usize,
}

/// An allocator that never frees a single region.
pub trait ArenaTrait {
    /// The invariant of the arena.
    spec fn wf(&self) -> bool;

    /// The bytes that the arena has taken from the system.
    spec fn used(&self) -> nat;

    /// Whether a region of `size` bytes at `handle` has been handed out
    /// or may still be filled.
    spec fn holds(&self, handle: Handle, size: nat) -> bool;

    /// Whether no byte from `handle` on, in its block, has been handed out.
    spec fn free(&self, handle: Handle) -> bool;

    /// A region that has been handed out lies apart from what is free.
    proof fn held_apart(&self, held: Handle, size: nat, other: Handle)
        requires
            self.wf(),
            self.holds(held, size),
            self.free(other),
        ensures
            held.block != other.block || held.offset + size <= other.offset,
    ;

    /// A region of `size` bytes whose offset is a multiple of `align`, cut
    /// from what was free.
    fn allocate(&mut self, size: usize, align: usize) -> (r: Handle)
        requires
            old(self).wf(),
            size > 0,
            align > 0,
            old(self).used() + size + BLOCK_SIZE <= usize::MAX,
        ensures
            final(self).wf(),
            final(self).holds(r, size as nat),
            old(self).free(r),
            r.offset % align == 0,
            old(self).used() <= final(self).used() <= old(self).used() + size + BLOCK_SIZE,
            forall|h: Handle, n: nat| old(self).holds(h, n) ==> final(self).holds(h, n),
    ;

    /// The bytes that the arena has taken from the system.
    fn memory_used(&self) -> (r: usize)
        requires
            self.wf(),
        ensures
            r == self.used(),
    ;
}

/// An arena that cuts regions from blocks of `BLOCK_SIZE` bytes and gives a
/// request of more than a quarter of that a block of its own.
pub struct BlockArena {
    current: usize,
    alloc_offset: usize,
    alloc_bytes_remaining: usize,
    blocks: Vec<Vec<u8>>,
    memory_usage: usize,
}

/// The sum of the lengths of the first `n` blocks.
pub open spec fn total_len(blocks: Seq<Vec<u8>>, n: nat) -> nat
    decreases n,
{
    if n == 0 {
        0
    } else {
        total_len(blocks, (n - 1) as nat) + blocks[n - 1]@.len()
    }
}

proof fn lemma_total_len_push(blocks: Seq<Vec<u8>>, block: Vec<u8>, n: nat)
    requires
        n <= blocks.len(),
    ensures
        total_len(blocks.push(block), n) == total_len(blocks, n),
    decreases n,
{
    if n > 0 {
        lemma_total_len_push(blocks, block, (n - 1) as nat);
    }
}

impl Default for BlockArena {
    fn default() -> (r: Self)
        ensures
            r.wf(),
            r.used() == 0,
            r.block_count() == 0,
            r.remaining() == 0,
    {
        BlockArena {
            current: 0,
            alloc_offset: 0,
            alloc_bytes_remaining: 0,
            blocks: Vec::new(),
            memory_usage: 0,
        }
    }
}

impl BlockArena {
    /// The number of blocks.
    pub closed spec fn block_count(&self) -> nat {
        self.blocks@.len()
    }

    /// The bytes that are left in the block that regions are cut from.
    pub closed spec fn remaining(&self) -> nat {
        self.alloc_bytes_remaining as nat
    }

    /// The open block and the offset up to which it has been handed out.
    pub closed spec fn cursor(&self) -> (usize, usize) {
        (self.current, self.alloc_offset)
    }

    /// The length of block `i`.
    pub closed spec fn block_len(&self, i: int) -> nat {
        self.blocks@[i]@.len()
    }

    /// The part of block `i`, from its start, that has been handed out.
    pub closed spec fn frontier(&self, i: int) -> nat {
        if i == self.current && self.alloc_bytes_remaining > 0 {
            self.alloc_offset as nat
        } else {
            self.block_len(i)
        }
    }

    /// The invariant: the accounting is the sum of the block lengths, and
    /// the open block has the bytes left that the counter says.
    pub closed spec fn inv(&self) -> bool {
        &&& self.memory_usage as nat == total_len(self.blocks@, self.blocks@.len())
        &&& self.alloc_bytes_remaining > 0 ==> {
            &&& self.current < self.blocks@.len()
            &&& self.alloc_offset + self.alloc_bytes_remaining == self.block_len(
                self.current as int,
            )
        }
    }

    /// The number of blocks.
    pub fn blocks_len(&self) -> (r: usize)
        ensures
            r == self.block_count(),
    {
        self.blocks.len()
    }

    /// The bytes that are left in the block that regions are cut from.
    pub fn bytes_remaining(&self) -> (r: usize)
        ensures
            r == self.remaining(),
    {
        self.alloc_bytes_remaining
    }

    /// Takes a new block of `bytes` bytes, all zero, and returns its index.
    pub fn allocate_new_block(&mut self, bytes: usize) -> (r: usize)
        requires
            old(self).inv(),
            old(self).used() + bytes <= usize::MAX,
        ensures
            final(self).inv(),
            r == old(self).block_count(),
            final(self).block_count() == old(self).block_count() + 1,
            final(self).block_len(r as int) == bytes,
            final(self).used() == old(self).used() + bytes,
            final(self).remaining() == old(self).remaining(),
            final(self).cursor() == old(self).cursor(),
            forall|i: int|
                0 <= i < old(self).block_count() ==> final(self).block_len(i) == old(self).block_len(
                    i,
                ),
    {
        let mut new_block: Vec<u8> = Vec::new();
        let mut i: usize = 0;
        while i < bytes
            invariant
                i <= bytes,
                new_block@.len() == i,
            decreases bytes - i,
        {
            new_block.push(0u8);
            i += 1;
        }
        let index = self.blocks.len();
        proof {
            lemma_total_len_push(self.blocks@, new_block, self.blocks@.len());
        }
        self.blocks.push(new_block);
        self.memory_usage = self.memory_usage + bytes;
        index
    }

    /// A region of `size` bytes at the start of a new block: a block of its
    /// own when `size` is more than a quarter of `BLOCK_SIZE`, else an
    /// ordinary block, from which later regions are cut.
    pub fn allocate_fallback(&mut self, size: usize) -> (r: Handle)
        requires
            old(self).inv(),
            size > 0,
            old(self).used() + size + BLOCK_SIZE <= usize::MAX,
        ensures
            final(self).inv(),
            r.block == old(self).block_count(),
            r.offset == 0,
            final(self).block_count() == old(self).block_count() + 1,
            size > BLOCK_SIZE / 4 ==> final(self).used() == old(self).used() + size && final(self).remaining() == old(self).remaining() && final(self).block_len(r.block as int)
                == size,
            size <= BLOCK_SIZE / 4 ==> final(self).used() == old(self).used() + BLOCK_SIZE
                && final(self).remaining() == BLOCK_SIZE - size && final(self).block_len(
                r.block as int,
            ) == BLOCK_SIZE,
            final(self).holds(r, size as nat),
            old(self).free(r),
            forall|h: Handle, n: nat| old(self).holds(h, n) ==> final(self).holds(h, n),
    {
        if size > BLOCK_SIZE / 4 {
            let block = self.allocate_new_block(size);
            return Handle { block, offset: 0 };
        }
        let block = self.allocate_new_block(BLOCK_SIZE);
        self.current = block;
        self.alloc_offset = size;
        self.alloc_bytes_remaining = BLOCK_SIZE - size;
        Handle { block, offset: 0 }
    }

    /// A region of `bytes` bytes at a multiple of `align`: cut from the open
    /// block where it has room, else from a new block.
    pub fn allocate_aligned(&mut self, bytes: usize, align: usize) -> (r: Handle)
        requires
            old(self).inv(),
            bytes > 0,
            align > 0,
            old(self).used() + bytes + BLOCK_SIZE <= usize::MAX,
        ensures
            final(self).inv(),
            final(self).holds(r, bytes as nat),
            old(self).free(r),
            r.offset % align == 0,
            old(self).fits(bytes, align) ==> final(self).used() == old(self).used() && final(self).block_count() == old(self).block_count(),
            !old(self).fits(bytes, align) ==> r.block == old(self).block_count() && final(self).block_count() == old(self).block_count() + 1 && final(self).used() == old(self).used() + if bytes > BLOCK_SIZE / 4 {
                bytes
            } else {
                BLOCK_SIZE
            },
            forall|h: Handle, n: nat| old(self).holds(h, n) ==> final(self).holds(h, n),
    {
        let current_mod = self.alloc_offset % align;
        let slop = if current_mod == 0 {
            0
        } else {
            align - current_mod
        };
        if slop <= self.alloc_bytes_remaining && bytes <= self.alloc_bytes_remaining - slop {
            let block_size = self.blocks[self.current].len();
            assert(self.alloc_offset + self.alloc_bytes_remaining == block_size);
            let needed = bytes + slop;
            let result = self.alloc_offset + slop;
            proof {
                assert((self.alloc_offset + slop) % (align as int) == 0) by (nonlinear_arith)
                    requires
                        align > 0,
                        current_mod == self.alloc_offset % align,
                        slop == if current_mod == 0 {
                            0
                        } else {
                            align - current_mod
                        },
                ;
            }
            self.alloc_offset = self.alloc_offset + needed;
            self.alloc_bytes_remaining = self.alloc_bytes_remaining - needed;
            Handle { block: self.current, offset: result }
        } else {
            self.allocate_fallback(bytes)
        }
    }

    /// The padding that brings the open block's offset to a multiple of
    /// `align`.
    pub closed spec fn slop(&self, align: usize) -> nat {
        if self.alloc_offset % align == 0 {
            0
        } else {
            (align - self.alloc_offset % align) as nat
        }
    }

    /// Whether the open block has room for `bytes` bytes at a multiple of
    /// `align`.
    pub closed spec fn fits(&self, bytes: usize, align: usize) -> bool {
        bytes + self.slop(align) <= self.alloc_bytes_remaining
    }
}

impl ArenaTrait for BlockArena {
    closed spec fn wf(&self) -> bool {
        self.inv()
    }

    closed spec fn used(&self) -> nat {
        self.memory_usage as nat
    }

    closed spec fn holds(&self, handle: Handle, size: nat) -> bool {
        &&& handle.block < self.blocks@.len()
        &&& handle.offset + size <= self.frontier(handle.block as int)
        &&& self.frontier(handle.block as int) <= self.block_len(handle.block as int)
    }

    closed spec fn free(&self, handle: Handle) -> bool {
        handle.block >= self.blocks@.len() || handle.offset >= self.frontier(handle.block as int)
    }

    proof fn held_apart(&self, held: Handle, size: nat, other: Handle) {
    }

    fn allocate(&mut self, size: usize, align: usize) -> (r: Handle) {
        self.allocate_aligned(size, align)
    }

    fn memory_used(&self) -> (r: usize) {
        self.memory_usage
    }
}

/// An arena of one region of fixed size that hands out offsets into it.
pub struct OffsetArena {
    used: usize,
    cap: usize,
}

impl OffsetArena {
    #[verifier::type_invariant]
    spec fn inv(self) -> bool {
        self.used <= self.cap
    }

    /// The bytes that have been handed out, padding included.
    pub closed spec fn used(&self) -> nat {
        self.used as nat
    }

    /// The size of the region.
    pub closed spec fn capacity(&self) -> nat {
        self.cap as nat
    }

    /// The padding that brings the next offset to a multiple of `align`.
    pub open spec fn padding(&self, align: usize) -> nat {
        if self.used() % (align as nat) == 0 {
            0
        } else {
            (align - self.used() % (align as nat)) as nat
        }
    }

    /// An arena over a region of `cap` bytes, none of them handed out.
    pub fn with_capacity(cap: usize) -> (r: Self)
        ensures
            r.used() == 0,
            r.capacity() == cap,
    {
        OffsetArena { used: 0, cap }
    }

    /// The bytes that have been handed out, padding included.
    pub fn memory_used(&self) -> (r: usize)
        ensures
            r == self.used(),
    {
        self.used
    }

    /// The offset of a region of `size` bytes at a multiple of `align`,
    /// behind all regions handed out before; `None`, and nothing changes,
    /// where the region does not fit.
    pub fn allocate(&mut self, size: usize, align: usize) -> (r: Option<usize>)
        requires
            align > 0,
        ensures
            final(self).capacity() == old(self).capacity(),
            match r {
                Some(offset) => {
                    &&& offset == old(self).used() + old(self).padding(align)
                    &&& offset % align == 0
                    &&& final(self).used() == offset + size
                    &&& final(self).used() <= final(self).capacity()
                },
                None => {
                    &&& old(self).used() + old(self).padding(align) + size > old(self).capacity()
                    &&& final(self).used() == old(self).used()
                },
            },
    {
        proof {
            use_type_invariant(&*self);
        }
        let rest = self.used % align;
        let slop = if rest == 0 {
            0
        } else {
            align - rest
        };
        let room = self.cap - self.used;
        if slop > room || size > room - slop {
            return None;
        }
        let offset = self.used + slop;
        proof {
            assert((self.used + slop) % (align as int) == 0) by (nonlinear_arith)
                requires
                    align > 0,
                    rest == self.used % align,
                    slop == if rest == 0 {
                        0
                    } else {
                        align - rest
                    },
            ;
        }
        self.used = offset + size;
        Some(offset)
    }
}

} // verus!
