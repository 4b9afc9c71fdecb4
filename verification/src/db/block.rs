//! Blocks of sorted key/value pairs with prefix-compressed keys.
//!
//! An entry is three varints (the number of key bytes shared with the key
//! before, the number of key bytes that follow, the length of the value),
//! then the unshared key bytes and the value. Every so many entries a key is
//! stored in full: a restart point. The block ends with the offsets of the
//! restart points and their number, four bytes each.

use crate::db::ldbiterator::LdbIterator;
use crate::db::ldbiterator::Pairs;
use crate::util::coding::append_bytes;
use crate::util::coding::copy_bytes;
use crate::util::coding::decode_fixed_32;
use crate::util::coding::decode_varint32;
use crate::util::coding::fixed32_bytes;
use crate::util::coding::get_varint_32;
use crate::util::coding::le_value;
use crate::util::coding::lemma_decode_encoded32;
use crate::util::coding::lemma_fixed32_value;
use crate::util::coding::lemma_varint_bytes_len;
use crate::util::coding::put_fixed_32;
use crate::util::coding::put_varint_32;
use crate::util::coding::varint_bytes;
use crate::util::coding::varint_length;
use crate::util::comparator::common_prefix_len;
use crate::util::comparator::is_before;
use crate::util::comparator::lemma_common_prefix;
use crate::util::comparator::shared_prefix_len;
use crate::util::comparator::sorts_before;
use crate::util::comparator::Comparator;
use crate::util::status::Error;
use vstd::prelude::*;

verus! {

/// A sequence of key/value pairs.
pub type Entries = Seq<(Seq<u8>, Seq<u8>)>;

/// The bytes of one entry whose key shares its first `shared` bytes with the
/// key before.
pub open spec fn entry_bytes(shared: nat, key: Seq<u8>, value: Seq<u8>) -> Seq<u8> {
    varint_bytes(shared) + varint_bytes((key.len() - shared) as nat) + varint_bytes(value.len())
        + key.skip(shared as int) + value
}

/// The number of key bytes that entry `i` leaves out: none at a restart
/// point, else the common prefix with the key before.
pub open spec fn shared_at(entries: Entries, interval: nat, i: int) -> nat {
    if i <= 0 || interval == 0 || i % (interval as int) == 0 {
        0
    } else {
        common_prefix_len(entries[i - 1].0, entries[i].0)
    }
}

/// The bytes of entry `i`.
pub open spec fn entry_bytes_at(entries: Entries, interval: nat, i: int) -> Seq<u8> {
    entry_bytes(shared_at(entries, interval, i), entries[i].0, entries[i].1)
}

/// The bytes of the first `n` entries, one behind the other.
pub open spec fn entries_bytes(entries: Entries, interval: nat, n: nat) -> Seq<u8>
    decreases n,
{
    if n == 0 {
        Seq::empty()
    } else {
        entries_bytes(entries, interval, (n - 1) as nat) + entry_bytes_at(
            entries,
            interval,
            n - 1,
        )
    }
}

/// The offsets of the restart points among the first `n` entries: offset 0,
/// then the offset of every entry whose index is a positive multiple of the
/// interval.
pub open spec fn restart_offsets(entries: Entries, interval: nat, n: nat) -> Seq<nat>
    decreases n,
{
    if n == 0 {
        seq![0nat]
    } else {
        let before = restart_offsets(entries, interval, (n - 1) as nat);
        if n - 1 > 0 && interval > 0 && (n - 1) % (interval as int) == 0 {
            before.push(entries_bytes(entries, interval, (n - 1) as nat).len())
        } else {
            before
        }
    }
}

/// The restart offsets as four-byte integers, one behind the other.
pub open spec fn restart_array_bytes(offsets: Seq<nat>) -> Seq<u8>
    decreases offsets.len(),
{
    if offsets.len() == 0 {
        Seq::empty()
    } else {
        restart_array_bytes(offsets.drop_last()) + fixed32_bytes(offsets.last() as u32)
    }
}

/// The block of `entries`: the entries, the restart offsets, their number.
pub open spec fn block_bytes(entries: Entries, interval: nat) -> Seq<u8> {
    let offsets = restart_offsets(entries, interval, entries.len());
    entries_bytes(entries, interval, entries.len()) + restart_array_bytes(offsets) + fixed32_bytes(
        offsets.len() as u32,
    )
}

/// The length of a restart array.
pub proof fn lemma_restart_array_len(offsets: Seq<nat>)
    ensures
        restart_array_bytes(offsets).len() == 4 * offsets.len(),
    decreases offsets.len(),
{
    if offsets.len() > 0 {
        lemma_restart_array_len(offsets.drop_last());
    }
}

/// The bytes of the first `n` entries do not depend on the entries behind.
pub proof fn lemma_entries_bytes_prefix(a: Entries, b: Entries, interval: nat, n: nat)
    requires
        n <= a.len(),
        n <= b.len(),
        forall|i: int| 0 <= i < n ==> a[i] == b[i],
    ensures
        entries_bytes(a, interval, n) == entries_bytes(b, interval, n),
        restart_offsets(a, interval, n) == restart_offsets(b, interval, n),
    decreases n,
{
    if n > 0 {
        lemma_entries_bytes_prefix(a, b, interval, (n - 1) as nat);
    }
}

/// The place of an entry within its run between restart points, counted
/// from 1, reaches the interval exactly when the next entry starts a run.
pub proof fn lemma_restart_step(i: int, interval: int)
    requires
        interval >= 1,
        i >= 1,
    ensures
        ((i - 1) % interval + 1 >= interval) <==> i % interval == 0,
        i % interval != 0 ==> i % interval == (i - 1) % interval + 1,
        (i - 1) % interval + 1 <= interval,
{
    let q = (i - 1) / interval;
    let r = (i - 1) % interval;
    assert(i - 1 == q * interval + r && 0 <= r < interval) by (nonlinear_arith)
        requires
            q == (i - 1) / interval,
            r == (i - 1) % interval,
            interval >= 1,
    ;
    if r + 1 == interval {
        assert(i == (q + 1) * interval) by (nonlinear_arith)
            requires
                i - 1 == q * interval + r,
                r + 1 == interval,
        ;
        assert(i % interval == 0) by (nonlinear_arith)
            requires
                i == (q + 1) * interval,
                interval >= 1,
        ;
    } else {
        assert(i % interval == r + 1) by (nonlinear_arith)
            requires
                i == q * interval + (r + 1),
                0 <= r + 1 < interval,
        ;
    }
}

/// What one more entry adds to the bytes and the restart points.
#[verifier::rlimit(60)]
pub proof fn lemma_grow(entries: Entries, interval: nat, key: Seq<u8>, value: Seq<u8>)
    requires
        interval >= 1,
    ensures
        ({
            let grown = entries.push((key, value));
            let n = entries.len();
            let restart = n > 0 && (n as int) % (interval as int) == 0;
            let shared = if n == 0 || restart {
                0
            } else {
                common_prefix_len(entries.last().0, key)
            };
            let data = entries_bytes(entries, interval, n);
            let offsets = restart_offsets(entries, interval, n);
            &&& shared_at(grown, interval, n as int) == shared
            &&& entries_bytes(grown, interval, n + 1) == data + entry_bytes(shared, key, value)
            &&& restart_offsets(grown, interval, n + 1) == if restart {
                offsets.push(data.len())
            } else {
                offsets
            }
            &&& block_bytes(entries, interval).len() == data.len() + 4 * offsets.len() + 4
            &&& block_bytes(grown, interval).len() == data.len() + entry_bytes(
                shared,
                key,
                value,
            ).len() + 4 * offsets.len() + 4 + if restart {
                4int
            } else {
                0int
            }
            &&& n > 0 ==> (restart <==> (n - 1) % (interval as int) + 1 >= interval)
            &&& n > 0 && !restart ==> (n as int) % (interval as int) == (n - 1) % (interval as int)
                + 1
            &&& n > 0 ==> (n - 1) % (interval as int) + 1 <= interval
        }),
{
    let grown = entries.push((key, value));
    let n = entries.len();
    lemma_entries_bytes_prefix(entries, grown, interval, n);
    lemma_restart_array_len(restart_offsets(entries, interval, n));
    lemma_restart_array_len(restart_offsets(grown, interval, n + 1));
    if n > 0 {
        lemma_restart_step(n as int, interval as int);
        assert(grown[n - 1] == entries.last());
    }
    assert(grown[n as int] == (key, value));
    assert(grown.len() == n + 1);
}

/// Builds a block from keys added in increasing order.
pub struct BlockBuilder<C: Comparator> {
    buffer: Vec<u8>,
    restarts: Vec<u32>,
    counter: usize,
    finished: bool,
    last_key: Vec<u8>,
    c: C,
    block_restart_interval: usize,
    entries: Ghost<Entries>,
}

impl<C: Comparator> View for BlockBuilder<C> {
    type V = Entries;

    /// The entries added so far.
    closed spec fn view(&self) -> Entries {
        self.entries@
    }
}

impl<C: Comparator> BlockBuilder<C> {
    /// The invariant of a builder.
    pub closed spec fn wf(&self) -> bool {
        let entries = self.entries@;
        let interval = self.block_restart_interval as nat;
        let offsets = restart_offsets(entries, interval, entries.len());
        let data = entries_bytes(entries, interval, entries.len());
        &&& interval >= 1
        &&& data.len() + 4 * offsets.len() + 4 <= u32::MAX
        &&& self.restarts@.len() == offsets.len()
        &&& forall|i: int| 0 <= i < offsets.len() ==> self.restarts@[i] as nat == offsets[i]
        &&& (entries.len() == 0) == (data.len() == 0)
        &&& self.counter <= interval
        &&& self.counter as int == if entries.len() == 0 {
            0int
        } else {
            (entries.len() - 1) % (interval as int) + 1
        }
        &&& self.last_key@ == if entries.len() == 0 {
            Seq::<u8>::empty()
        } else {
            entries.last().0
        }
        &&& forall|i: int| 0 <= i < entries.len() ==> self.c.accepts(#[trigger] entries[i].0)
        &&& if self.finished {
            self.buffer@ == block_bytes(entries, interval)
        } else {
            self.buffer@ == data
        }
    }

    /// The number of entries between restart points.
    pub closed spec fn interval(&self) -> nat {
        self.block_restart_interval as nat
    }

    /// Whether `finish` has been called since the last `reset`.
    pub closed spec fn is_finished(&self) -> bool {
        self.finished
    }

    /// The order that the keys follow.
    pub closed spec fn comparator(&self) -> C {
        self.c
    }

    /// Whether the block stays within the range of 32-bit offsets when
    /// `key` and `value` are added.
    pub open spec fn fits(&self, key: Seq<u8>, value: Seq<u8>) -> bool {
        &&& key.len() <= u32::MAX
        &&& value.len() <= u32::MAX
        &&& block_bytes(self@.push((key, value)), self.interval()).len() <= u32::MAX
    }

    /// Whether `key` may follow the entries added so far.
    pub open spec fn in_order(&self, key: Seq<u8>) -> bool {
        self@.len() == 0 || sorts_before(&self.comparator(), self@.last().0, key)
    }

    /// An empty builder that stores a full key every `n` entries.
    pub fn new(n: usize, c: C) -> (r: BlockBuilder<C>)
        requires
            n >= 1,
        ensures
            r.wf(),
            r@ == Entries::empty(),
            r.interval() == n,
            !r.is_finished(),
            r.comparator() == c,
    {
        let mut restarts: Vec<u32> = Vec::new();
        restarts.push(0);
        proof {
            lemma_restart_array_len(seq![0nat]);
        }
        BlockBuilder {
            c,
            block_restart_interval: n,
            buffer: Vec::new(),
            restarts,
            counter: 0,
            finished: false,
            last_key: Vec::new(),
            entries: Ghost(Seq::empty()),
        }
    }

    /// Forgets all entries.
    pub fn reset(&mut self)
        requires
            old(self).wf(),
        ensures
            final(self).wf(),
            final(self)@ == Entries::empty(),
            final(self).interval() == old(self).interval(),
            final(self).comparator() == old(self).comparator(),
            !final(self).is_finished(),
    {
        self.buffer.clear();
        self.restarts.clear();
        self.restarts.push(0);
        self.counter = 0;
        self.finished = false;
        self.last_key.clear();
        self.entries = Ghost(Seq::empty());
    }

    /// Whether nothing has been written yet: no entry and no restart array.
    pub fn is_empty(&self) -> (r: bool)
        requires
            self.wf(),
        ensures
            r == (self@.len() == 0 && !self.is_finished()),
    {
        proof {
            if self.finished {
                lemma_restart_array_len(
                    restart_offsets(
                        self.entries@,
                        self.block_restart_interval as nat,
                        self.entries@.len(),
                    ),
                );
            }
        }
        self.buffer.is_empty()
    }

    /// Appends the restart array and returns the finished block. A second
    /// call returns the same block.
    #[verifier::rlimit(60)]
    pub fn finish(&mut self) -> (r: &[u8])
        requires
            old(self).wf(),
        ensures
            final(self).wf(),
            final(self)@ == old(self)@,
            final(self).interval() == old(self).interval(),
            final(self).comparator() == old(self).comparator(),
            final(self).is_finished(),
            r@ == block_bytes(old(self)@, old(self).interval()),
    {
        if !self.finished {
            let ghost entries = self.entries@;
            let ghost interval = self.block_restart_interval as nat;
            let ghost offsets = restart_offsets(entries, interval, entries.len());
            let ghost data = entries_bytes(entries, interval, entries.len());
            let n = self.restarts.len();
            let mut i: usize = 0;
            while i < n
                invariant
                    i <= n,
                    n == self.restarts@.len(),
                    n == offsets.len(),
                    forall|j: int| 0 <= j < offsets.len() ==> self.restarts@[j] as nat == offsets[j],
                    self.buffer@ == data + restart_array_bytes(offsets.take(i as int)),
                    self.entries@ == entries,
                    self.block_restart_interval == old(self).block_restart_interval,
                    self.c == old(self).c,
                    self.counter == old(self).counter,
                    self.last_key == old(self).last_key,
                    self.restarts == old(self).restarts,
                    !self.finished,
                decreases n - i,
            {
                let offset = self.restarts[i];
                put_fixed_32(&mut self.buffer, offset);
                proof {
                    let head = offsets.take(i + 1);
                    assert(head.drop_last() =~= offsets.take(i as int));
                    assert(head.last() == offsets[i as int]);
                    assert(offset == offsets[i as int] as u32);
                    assert(self.buffer@ =~= data + restart_array_bytes(head));
                }
                i += 1;
            }
            proof {
                assert(offsets.take(n as int) =~= offsets);
            }
            put_fixed_32(&mut self.buffer, n as u32);
            self.finished = true;
        }
        self.buffer.as_slice()
    }

    /// The size that the block would have if it were finished now.
    pub fn current_size_estimate(&self) -> (r: usize)
        requires
            self.wf(),
            !self.is_finished(),
        ensures
            r == block_bytes(self@, self.interval()).len(),
    {
        proof {
            lemma_restart_array_len(
                restart_offsets(self.entries@, self.block_restart_interval as nat, self.entries@.len()),
            );
        }
        self.buffer.len() + 4 + 4 * self.restarts.len()
    }

    /// Adds an entry. Refused with `InvalidArgument`, and nothing changes,
    /// when the block is finished, when `key` does not sort behind the last
    /// key added, or when the block would outgrow 32-bit offsets.
    #[verifier::rlimit(100)]
    #[verifier::spinoff_prover]
    pub fn add(&mut self, key: &[u8], value: &[u8]) -> (r: Result<(), Error>)
        requires
            old(self).wf(),
            old(self).comparator().accepts(key@),
        ensures
            final(self).wf(),
            final(self).interval() == old(self).interval(),
            final(self).comparator() == old(self).comparator(),
            final(self).is_finished() == old(self).is_finished(),
            r.is_ok() <==> !old(self).is_finished() && old(self).in_order(key@) && old(self).fits(
                key@,
                value@,
            ),
            r.is_ok() ==> final(self)@ == old(self)@.push((key@, value@)),
            r.is_err() ==> final(self)@ == old(self)@ && r == Err::<(), Error>(
                Error::InvalidArgument,
            ),
    {
        if self.finished {
            return Err(Error::InvalidArgument);
        }
        if !self.buffer.is_empty() && !is_before(&self.c, self.last_key.as_slice(), key) {
            return Err(Error::InvalidArgument);
        }
        let ghost entries = self.entries@;
        let ghost interval = self.block_restart_interval as nat;
        let ghost grown = entries.push((key@, value@));
        let ghost data = entries_bytes(entries, interval, entries.len());
        let restart = self.counter >= self.block_restart_interval;
        let shared: usize = if restart {
            0
        } else {
            shared_prefix_len(self.last_key.as_slice(), key)
        };
        let not_shared: usize = key.len() - shared;
        proof {
            lemma_grow(entries, interval, key@, value@);
            lemma_varint_bytes_len(shared as nat);
            lemma_varint_bytes_len(not_shared as nat);
            lemma_varint_bytes_len(value@.len());
        }
        if key.len() > 0xffff_ffff || value.len() > 0xffff_ffff {
            return Err(Error::InvalidArgument);
        }
        let head: u64 = (varint_length(shared) + varint_length(not_shared) + varint_length(
            value.len(),
        )) as u64;
        let slots: u64 = if restart {
            self.restarts.len() as u64 + 1
        } else {
            self.restarts.len() as u64
        };
        let size: u64 = self.buffer.len() as u64 + head + not_shared as u64 + value.len() as u64 + 4
            + 4 * slots;
        if size > 0xffff_ffff {
            return Err(Error::InvalidArgument);
        }
        if restart {
            self.restarts.push(self.buffer.len() as u32);
            self.counter = 0;
        }
        put_varint_32(&mut self.buffer, shared as u32);
        put_varint_32(&mut self.buffer, not_shared as u32);
        put_varint_32(&mut self.buffer, value.len() as u32);
        append_bytes(&mut self.buffer, &key[shared..key.len()]);
        append_bytes(&mut self.buffer, value);
        self.last_key.truncate(shared);
        append_bytes(&mut self.last_key, &key[shared..key.len()]);
        self.counter += 1;
        self.entries = Ghost(grown);
        proof {
            assert(key@.subrange(shared as int, key@.len() as int) =~= key@.skip(shared as int));
            assert(self.buffer@ =~= data + entry_bytes(shared as nat, key@, value@));
            if !restart {
                lemma_common_prefix(old(self).last_key@, key@);
            }
            assert(self.last_key@ =~= key@);
            assert forall|j: int| 0 <= j < grown.len() implies self.c.accepts(
                #[trigger] grown[j].0,
            ) by {
                if j < entries.len() {
                    assert(grown[j] == entries[j]);
                }
            }
        }
        Ok(())
    }
}

/// Where the restart array of a block starts, and how many restart points
/// it has: read from the last four bytes. `None` when the block is shorter
/// than four bytes, longer than 32-bit offsets reach, or too short for the
/// restart points it declares.
pub open spec fn block_layout(data: Seq<u8>) -> Option<(nat, nat)> {
    if data.len() < 4 || data.len() > u32::MAX {
        None
    } else {
        let num = le_value(data.subrange(data.len() - 4, data.len() as int));
        if num <= (data.len() - 4) / 4 {
            Some(((data.len() - 4 * (num + 1)) as nat, num))
        } else {
            None
        }
    }
}

/// The offset stored in slot `index` of the restart array at `restarts`.
pub open spec fn restart_point(data: Seq<u8>, restarts: nat, index: nat) -> nat {
    le_value(data.subrange((restarts + 4 * index) as int, (restarts + 4 * index + 4) as int))
}

/// The entry at `pos` of the entry region `data[..limit]`, behind an entry
/// with key `prev_key`: its key, its value, and the offset behind it. `None`
/// at the end of the region and where the bytes are no entry that lies
/// within the region.
pub open spec fn entry_at(data: Seq<u8>, limit: nat, pos: nat, prev_key: Seq<u8>) -> Option<
    (Seq<u8>, Seq<u8>, nat),
> {
    if pos >= limit || limit > data.len() {
        None
    } else {
        let region = data.subrange(pos as int, limit as int);
        match decode_varint32(region) {
            None => None,
            Some((shared, n0)) => match decode_varint32(region.skip(n0 as int)) {
                None => None,
                Some((unshared, n1)) => match decode_varint32(region.skip((n0 + n1) as int)) {
                    None => None,
                    Some((value_len, n2)) => {
                        let key_start = pos + n0 + n1 + n2;
                        if key_start + unshared + value_len > limit || shared > prev_key.len() {
                            None
                        } else {
                            Some(
                                (
                                    prev_key.take(shared as int) + data.subrange(
                                        key_start as int,
                                        (key_start + unshared) as int,
                                    ),
                                    data.subrange(
                                        (key_start + unshared) as int,
                                        (key_start + unshared + value_len) as int,
                                    ),
                                    key_start + unshared + value_len,
                                ),
                            )
                        }
                    },
                },
            },
        }
    }
}

/// The entries from `pos` on, up to the end of the region or the first
/// place that holds no entry.
pub open spec fn decoded_from(data: Seq<u8>, limit: nat, pos: nat, prev_key: Seq<u8>) -> Entries
    decreases limit - pos,
{
    match entry_at(data, limit, pos, prev_key) {
        Some((key, value, next)) => if pos < next <= limit {
            seq![(key, value)] + decoded_from(data, limit, next, key)
        } else {
            Seq::empty()
        },
        None => Seq::empty(),
    }
}

/// The bytes of the first `m` entries are the front of the bytes of the
/// first `n`, for `m` up to `n`.
pub proof fn lemma_entries_bytes_mono(entries: Entries, interval: nat, m: nat, n: nat)
    requires
        m <= n,
    ensures
        entries_bytes(entries, interval, m).len() <= entries_bytes(entries, interval, n).len(),
        entries_bytes(entries, interval, n).subrange(
            0,
            entries_bytes(entries, interval, m).len() as int,
        ) == entries_bytes(entries, interval, m),
    decreases n - m,
{
    let front = entries_bytes(entries, interval, m);
    if m < n {
        lemma_entries_bytes_mono(entries, interval, m, (n - 1) as nat);
        let a = entries_bytes(entries, interval, (n - 1) as nat);
        let e = entry_bytes_at(entries, interval, n - 1);
        assert((a + e).subrange(0, front.len() as int) =~= a.subrange(0, front.len() as int));
    } else {
        assert(front.subrange(0, front.len() as int) =~= front);
    }
}

/// Three varints in a row are read back one after the other.
#[verifier::rlimit(60)]
pub proof fn lemma_three_varints(region: Seq<u8>, a: u32, b: u32, c: u32, tail: Seq<u8>)
    requires
        region == varint_bytes(a as nat) + varint_bytes(b as nat) + varint_bytes(c as nat) + tail,
    ensures
        decode_varint32(region) == Some((a as nat, varint_bytes(a as nat).len())),
        decode_varint32(region.skip(varint_bytes(a as nat).len() as int)) == Some(
            (b as nat, varint_bytes(b as nat).len()),
        ),
        decode_varint32(
            region.skip((varint_bytes(a as nat).len() + varint_bytes(b as nat).len()) as int),
        ) == Some((c as nat, varint_bytes(c as nat).len())),
        region.skip(
            (varint_bytes(a as nat).len() + varint_bytes(b as nat).len() + varint_bytes(
                c as nat,
            ).len()) as int,
        ) == tail,
{
    let v0 = varint_bytes(a as nat);
    let v1 = varint_bytes(b as nat);
    let v2 = varint_bytes(c as nat);
    let r0 = v1 + v2 + tail;
    let r1 = v2 + tail;
    assert(region =~= v0 + r0);
    lemma_decode_encoded32(a, r0);
    assert(region.skip(v0.len() as int) =~= v1 + r1);
    lemma_decode_encoded32(b, r1);
    assert(region.skip((v0.len() + v1.len()) as int) =~= v2 + tail);
    lemma_decode_encoded32(c, tail);
    assert(region.skip((v0.len() + v1.len() + v2.len()) as int) =~= tail);
}

/// The header of an entry at the front of a region is read back: the three
/// lengths, and behind them the key bytes, the value and the rest.
#[verifier::rlimit(60)]
pub proof fn lemma_entry_header(
    region: Seq<u8>,
    shared: nat,
    key: Seq<u8>,
    value: Seq<u8>,
    rest: Seq<u8>,
)
    requires
        shared <= key.len(),
        key.len() <= u32::MAX,
        value.len() <= u32::MAX,
        region == entry_bytes(shared, key, value) + rest,
    ensures
        ({
            let unshared = (key.len() - shared) as nat;
            let n0 = varint_bytes(shared).len();
            let n1 = varint_bytes(unshared).len();
            let n2 = varint_bytes(value.len()).len();
            &&& n0 >= 1 && n1 >= 1 && n2 >= 1
            &&& entry_bytes(shared, key, value).len() == n0 + n1 + n2 + unshared + value.len()
            &&& decode_varint32(region) == Some((shared, n0))
            &&& decode_varint32(region.skip(n0 as int)) == Some((unshared, n1))
            &&& decode_varint32(region.skip((n0 + n1) as int)) == Some((value.len(), n2))
            &&& region.skip((n0 + n1 + n2) as int) == key.skip(shared as int) + value + rest
        }),
{
    let unshared = (key.len() - shared) as nat;
    let tail = key.skip(shared as int) + value + rest;
    lemma_varint_bytes_len(shared);
    lemma_varint_bytes_len(unshared);
    lemma_varint_bytes_len(value.len());
    assert(region =~= varint_bytes(shared) + varint_bytes(unshared) + varint_bytes(value.len())
        + tail);
    lemma_three_varints(region, shared as u32, unshared as u32, value.len() as u32, tail);
}

/// An entry is read back from its bytes.
#[verifier::rlimit(100)]
#[verifier::spinoff_prover]
pub proof fn lemma_entry_round_trip(
    data: Seq<u8>,
    limit: nat,
    pos: nat,
    prev_key: Seq<u8>,
    shared: nat,
    key: Seq<u8>,
    value: Seq<u8>,
)
    requires
        limit <= data.len(),
        shared <= key.len(),
        shared <= prev_key.len(),
        prev_key.take(shared as int) == key.take(shared as int),
        key.len() <= u32::MAX,
        value.len() <= u32::MAX,
        pos + entry_bytes(shared, key, value).len() <= limit,
        data.subrange(pos as int, (pos + entry_bytes(shared, key, value).len()) as int)
            == entry_bytes(shared, key, value),
    ensures
        entry_at(data, limit, pos, prev_key) == Some(
            (key, value, pos + entry_bytes(shared, key, value).len()),
        ),
        entry_bytes(shared, key, value).len() >= 3,
{
    let unshared = (key.len() - shared) as nat;
    let n0 = varint_bytes(shared).len();
    let n1 = varint_bytes(unshared).len();
    let n2 = varint_bytes(value.len()).len();
    let n = n0 + n1 + n2;
    let kd = key.skip(shared as int);
    let e = entry_bytes(shared, key, value);
    let region = data.subrange(pos as int, limit as int);
    let rest = data.subrange((pos + e.len()) as int, limit as int);
    let tail = kd + value + rest;
    assert(region =~= e + rest) by {
        assert forall|j: int| 0 <= j < e.len() implies region[j] == e[j] by {
            assert(data.subrange(pos as int, (pos + e.len()) as int)[j] == data[pos + j]);
        }
    }
    lemma_entry_header(region, shared, key, value, rest);
    let key_start = pos + n;
    assert(region.skip(n as int) == tail);
    assert(data.subrange(key_start as int, (key_start + unshared) as int) =~= kd) by {
        assert forall|j: int| 0 <= j < unshared implies data[key_start + j] == kd[j] by {
            assert(region.skip(n as int)[j] == region[n + j]);
            assert(tail[j] == kd[j]);
        }
    }
    assert(data.subrange(
        (key_start + unshared) as int,
        (key_start + unshared + value.len()) as int,
    ) =~= value) by {
        assert forall|j: int| 0 <= j < value.len() implies data[key_start + unshared + j]
            == value[j] by {
            assert(region.skip(n as int)[unshared + j] == region[n + unshared + j]);
            assert(tail[unshared + j] == value[j]);
        }
    }
    assert(prev_key.take(shared as int) + kd =~= key) by {
        assert(key.take(shared as int) + key.skip(shared as int) =~= key);
    }
}

/// The offsets of the entries from entry `i` on.
pub open spec fn entry_offsets(entries: Entries, interval: nat, i: nat) -> Seq<nat> {
    Seq::new(
        (entries.len() - i) as nat,
        |j: int| entries_bytes(entries, interval, (i + j) as nat).len(),
    )
}

/// Every entry takes at least three bytes.
pub proof fn lemma_entry_offsets_grow(entries: Entries, interval: nat, i: nat, j: nat)
    requires
        i < j,
    ensures
        entries_bytes(entries, interval, i).len() < entries_bytes(entries, interval, j).len(),
    decreases j - i,
{
    let shared = shared_at(entries, interval, j - 1);
    lemma_varint_bytes_len(shared);
    if i + 1 < j {
        lemma_entry_offsets_grow(entries, interval, i, (j - 1) as nat);
    }
}

/// Decoding from the offset of entry `i` on gives the entries from `i` on,
/// up to the end of the entry region. The key before matters only where
/// entry `i` shares bytes with it.
#[verifier::rlimit(60)]
pub proof fn lemma_decoded_suffix(
    entries: Entries,
    interval: nat,
    data: Seq<u8>,
    i: nat,
    prev: Seq<u8>,
)
    requires
        interval >= 1,
        i <= entries.len(),
        i < entries.len() ==> shared_at(entries, interval, i as int) == 0 || (i > 0 && prev
            == entries[i - 1].0),
        entries_bytes(entries, interval, entries.len()).len() <= data.len(),
        data.subrange(0, entries_bytes(entries, interval, entries.len()).len() as int)
            == entries_bytes(entries, interval, entries.len()),
        forall|j: int|
            0 <= j < entries.len() ==> (#[trigger] entries[j]).0.len() <= u32::MAX
                && entries[j].1.len() <= u32::MAX,
    ensures
        decoded_from(
            data,
            entries_bytes(entries, interval, entries.len()).len(),
            entries_bytes(entries, interval, i).len(),
            prev,
        ) == entries.skip(i as int),
        end_of(
            data,
            entries_bytes(entries, interval, entries.len()).len(),
            entries_bytes(entries, interval, i).len(),
            prev,
        ) == entries_bytes(entries, interval, entries.len()).len(),
        starts_from(
            data,
            entries_bytes(entries, interval, entries.len()).len(),
            entries_bytes(entries, interval, i).len(),
            prev,
        ) == entry_offsets(entries, interval, i),
    decreases entries.len() - i,
{
    let n = entries.len();
    let all = entries_bytes(entries, interval, n);
    let limit = all.len();
    let pos = entries_bytes(entries, interval, i).len();
    if i == n {
        assert(entries.skip(n as int) =~= Entries::empty());
        assert(entry_offsets(entries, interval, n) =~= Seq::<nat>::empty());
    } else {
        let upto = entries_bytes(entries, interval, i + 1);
        lemma_entries_bytes_mono(entries, interval, i + 1, n);
        let key = entries[i as int].0;
        let value = entries[i as int].1;
        let shared = shared_at(entries, interval, i as int);
        let e = entry_bytes(shared, key, value);
        assert(upto == entries_bytes(entries, interval, i) + e);
        if shared > 0 {
            lemma_common_prefix(prev, key);
            assert(prev.take(shared as int) =~= key.take(shared as int));
        } else {
            assert(prev.take(0) =~= key.take(0));
        }
        assert(data.subrange(pos as int, (pos + e.len()) as int) =~= e) by {
            assert forall|j: int| 0 <= j < e.len() implies data[pos + j] == e[j] by {
                assert(data.subrange(0, limit as int)[pos + j] == data[pos + j]);
                assert(all.subrange(0, upto.len() as int)[pos + j] == all[pos + j]);
                assert(upto[pos + j] == e[j]);
            }
        }
        lemma_entry_round_trip(data, limit, pos, prev, shared, key, value);
        lemma_decoded_suffix(entries, interval, data, i + 1, key);
        assert(entries.skip(i as int) =~= seq![entries[i as int]] + entries.skip((i + 1) as int));
        assert(entry_offsets(entries, interval, i) =~= seq![pos] + entry_offsets(
            entries,
            interval,
            i + 1,
        ));
    }
}

/// The restart offsets start with offset 0.
pub proof fn lemma_restart_offsets_first(entries: Entries, interval: nat, n: nat)
    ensures
        restart_offsets(entries, interval, n).len() >= 1,
        restart_offsets(entries, interval, n)[0] == 0,
    decreases n,
{
    if n > 0 {
        lemma_restart_offsets_first(entries, interval, (n - 1) as nat);
    }
}

/// The restart array starts with the bytes of its first offset.
pub proof fn lemma_restart_array_first(offsets: Seq<nat>)
    requires
        offsets.len() >= 1,
    ensures
        restart_array_bytes(offsets).len() >= 4,
        restart_array_bytes(offsets).subrange(0, 4) == fixed32_bytes(offsets[0] as u32),
    decreases offsets.len(),
{
    let front = offsets.drop_last();
    lemma_restart_array_len(front);
    if offsets.len() == 1 {
        assert(restart_array_bytes(front) =~= Seq::<u8>::empty());
        assert(restart_array_bytes(offsets).subrange(0, 4) =~= fixed32_bytes(offsets[0] as u32));
    } else {
        lemma_restart_array_first(front);
        assert(restart_array_bytes(offsets).subrange(0, 4) =~= restart_array_bytes(
            front,
        ).subrange(0, 4));
    }
}

/// A block that is built from entries decodes to those entries: its layout
/// is read back from its last four bytes, its first restart point is offset
/// 0, and decoding from there gives every entry, in order. A block of no
/// entries has one restart point and decodes to nothing.
#[verifier::rlimit(60)]
pub proof fn lemma_block_round_trip(entries: Entries, interval: nat)
    requires
        interval >= 1,
        block_bytes(entries, interval).len() <= u32::MAX,
        forall|j: int|
            0 <= j < entries.len() ==> (#[trigger] entries[j]).0.len() <= u32::MAX
                && entries[j].1.len() <= u32::MAX,
    ensures
        ({
            let data = block_bytes(entries, interval);
            let limit = entries_bytes(entries, interval, entries.len()).len();
            let count = restart_offsets(entries, interval, entries.len()).len();
            &&& block_layout(data) == Some((limit, count))
            &&& count >= 1
            &&& entries.len() == 0 ==> count == 1
            &&& restart_point(data, limit, 0) == 0
            &&& decoded_from(data, limit, 0, Seq::empty()) == entries
        }),
{
    let n = entries.len();
    let data = block_bytes(entries, interval);
    let body = entries_bytes(entries, interval, n);
    let limit = body.len();
    let offsets = restart_offsets(entries, interval, n);
    let array = restart_array_bytes(offsets);
    let count = offsets.len();
    let tail = fixed32_bytes(count as u32);
    lemma_restart_array_len(offsets);
    lemma_restart_offsets_first(entries, interval, n);
    lemma_restart_array_first(offsets);
    lemma_fixed32_value(count as u32);
    lemma_fixed32_value(0u32);
    assert(data.subrange(data.len() - 4, data.len() as int) =~= tail);
    assert(data.subrange(limit as int, (limit + 4) as int) =~= array.subrange(0, 4));
    assert(data.subrange(0, limit as int) =~= body);
    lemma_decoded_suffix(entries, interval, data, 0, Seq::empty());
    assert(entries.skip(0) =~= entries);
}

/// The entries at which the restart points among the first `n` entries
/// stand: entry 0, then every entry whose index is a positive multiple of
/// the interval.
pub open spec fn restart_entries(interval: nat, n: nat) -> Seq<nat>
    decreases n,
{
    if n == 0 {
        seq![0nat]
    } else {
        let before = restart_entries(interval, (n - 1) as nat);
        if n - 1 > 0 && interval > 0 && (n - 1) % (interval as int) == 0 {
            before.push((n - 1) as nat)
        } else {
            before
        }
    }
}

/// Every restart offset is the offset of the entry at which the restart
/// point stands; that entry shares nothing with the key before it.
#[verifier::rlimit(60)]
pub proof fn lemma_restart_entries(entries: Entries, interval: nat, n: nat, r: int)
    requires
        interval >= 1,
        0 <= r < restart_offsets(entries, interval, n).len(),
    ensures
        restart_entries(interval, n).len() == restart_offsets(entries, interval, n).len(),
        restart_offsets(entries, interval, n)[r] == entries_bytes(
            entries,
            interval,
            restart_entries(interval, n)[r],
        ).len(),
        shared_at(entries, interval, restart_entries(interval, n)[r] as int) == 0,
        r > 0 ==> 0 < restart_entries(interval, n)[r] < n,
        r == 0 ==> restart_entries(interval, n)[r] == 0,
    decreases n,
{
    if n > 0 {
        let before = restart_offsets(entries, interval, (n - 1) as nat);
        lemma_restart_offsets_first(entries, interval, (n - 1) as nat);
        lemma_restart_entries(entries, interval, (n - 1) as nat, 0);
        if r < before.len() {
            lemma_restart_entries(entries, interval, (n - 1) as nat, r);
        }
    }
}

/// The restart offsets increase, and all of them lie within the entry
/// region.
#[verifier::rlimit(60)]
pub proof fn lemma_restart_offsets_increase(
    entries: Entries,
    interval: nat,
    n: nat,
    a: int,
    b: int,
)
    requires
        interval >= 1,
        0 <= a <= b < restart_offsets(entries, interval, n).len(),
    ensures
        a < b ==> restart_offsets(entries, interval, n)[a] < restart_offsets(
            entries,
            interval,
            n,
        )[b],
        restart_offsets(entries, interval, n)[b] <= entries_bytes(entries, interval, n).len(),
    decreases n,
{
    lemma_restart_entries(entries, interval, n, a);
    lemma_restart_entries(entries, interval, n, b);
    let at = restart_entries(interval, n)[b];
    lemma_entries_bytes_mono(entries, interval, at, n);
    if n > 0 && a < b {
        let before = restart_offsets(entries, interval, (n - 1) as nat);
        if b < before.len() {
            lemma_restart_offsets_increase(entries, interval, (n - 1) as nat, a, b);
        } else {
            lemma_restart_entries(entries, interval, (n - 1) as nat, a);
            let from = restart_entries(interval, (n - 1) as nat)[a];
            lemma_entry_offsets_grow(entries, interval, from, (n - 1) as nat);
        }
    }
}

/// Slot `r` of a restart array holds the bytes of offset `r`.
pub proof fn lemma_restart_array_at(offsets: Seq<nat>, r: int)
    requires
        0 <= r < offsets.len(),
    ensures
        restart_array_bytes(offsets).len() == 4 * offsets.len(),
        restart_array_bytes(offsets).subrange(4 * r, 4 * r + 4) == fixed32_bytes(
            offsets[r] as u32,
        ),
    decreases offsets.len(),
{
    let front = offsets.drop_last();
    lemma_restart_array_len(front);
    lemma_restart_array_len(offsets);
    if r == offsets.len() - 1 {
        assert(restart_array_bytes(offsets).subrange(4 * r, 4 * r + 4) =~= fixed32_bytes(
            offsets[r] as u32,
        ));
    } else {
        lemma_restart_array_at(front, r);
        assert(restart_array_bytes(offsets).subrange(4 * r, 4 * r + 4) =~= restart_array_bytes(
            front,
        ).subrange(4 * r, 4 * r + 4));
    }
}

/// In a block that is built from entries, decoding from restart point `r`
/// on gives the entries from the one at which the restart point stands, up
/// to the end of the entry region.
#[verifier::rlimit(60)]
pub proof fn lemma_built_block_run(entries: Entries, interval: nat, r: nat)
    requires
        interval >= 1,
        block_bytes(entries, interval).len() <= u32::MAX,
        forall|j: int|
            0 <= j < entries.len() ==> (#[trigger] entries[j]).0.len() <= u32::MAX
                && entries[j].1.len() <= u32::MAX,
        r < restart_offsets(entries, interval, entries.len()).len(),
    ensures
        ({
            let data = block_bytes(entries, interval);
            let limit = entries_bytes(entries, interval, entries.len()).len();
            let at = restart_entries(interval, entries.len())[r as int];
            let start = restart_point(data, limit, r);
            &&& at <= entries.len()
            &&& r > 0 ==> at < entries.len()
            &&& decoded_from(data, limit, start, Seq::empty()) == entries.skip(at as int)
            &&& end_of(data, limit, start, Seq::empty()) == limit
            &&& starts_from(data, limit, start, Seq::empty()) == entry_offsets(
                entries,
                interval,
                at,
            )
        }),
{
    let n = entries.len();
    let data = block_bytes(entries, interval);
    let body = entries_bytes(entries, interval, n);
    let limit = body.len();
    let offsets = restart_offsets(entries, interval, n);
    let array = restart_array_bytes(offsets);
    let at = restart_entries(interval, n)[r as int];
    lemma_restart_entries(entries, interval, n, r as int);
    lemma_restart_array_at(offsets, r as int);
    lemma_entries_bytes_mono(entries, interval, at, n);
    assert(offsets[r as int] <= limit);
    lemma_fixed32_value(offsets[r as int] as u32);
    assert(data.subrange((limit + 4 * r) as int, (limit + 4 * r + 4) as int) =~= array.subrange(
        4 * (r as int),
        4 * (r as int) + 4,
    ));
    assert(restart_point(data, limit, r) == offsets[r as int]);
    assert(data.subrange(0, limit as int) =~= body);
    lemma_decoded_suffix(entries, interval, data, at, Seq::empty());
}

/// A sequence without its first `k` elements, and then without one more, is
/// the sequence without its first `k + 1` elements.
pub proof fn lemma_skip_step<T>(s: Seq<T>, k: int)
    requires
        0 <= k < s.len(),
    ensures
        s.skip(k).drop_first() == s.skip(k + 1),
{
    assert(s.skip(k).drop_first() =~= s.skip(k + 1));
}

/// The offsets at which the entries from `pos` on start.
pub open spec fn starts_from(data: Seq<u8>, limit: nat, pos: nat, prev_key: Seq<u8>) -> Seq<nat>
    decreases limit - pos,
{
    match entry_at(data, limit, pos, prev_key) {
        Some((key, value, next)) => if pos < next <= limit {
            seq![pos] + starts_from(data, limit, next, key)
        } else {
            Seq::empty()
        },
        None => Seq::empty(),
    }
}

/// As many entries start as there are, and where none starts, decoding
/// stops at once.
pub proof fn lemma_starts_len(data: Seq<u8>, limit: nat, pos: nat, prev_key: Seq<u8>)
    ensures
        starts_from(data, limit, pos, prev_key).len() == decoded_from(
            data,
            limit,
            pos,
            prev_key,
        ).len(),
        starts_from(data, limit, pos, prev_key).len() > 0 ==> starts_from(
            data,
            limit,
            pos,
            prev_key,
        )[0] == pos,
        starts_from(data, limit, pos, prev_key).len() == 0 ==> end_of(data, limit, pos, prev_key)
            == pos,
    decreases limit - pos,
{
    match entry_at(data, limit, pos, prev_key) {
        Some((key, value, next)) => {
            if pos < next <= limit {
                lemma_starts_len(data, limit, next, key);
            }
        },
        None => {},
    }
}

/// An immutable block.
pub struct Block {
    size: u32,
    data: Vec<u8>,
    restart_offset: u32,
    owned: bool,
}

impl View for Block {
    type V = Seq<u8>;

    /// The bytes of the block.
    closed spec fn view(&self) -> Seq<u8> {
        self.data@
    }
}

impl Default for Block {
    fn default() -> (r: Self)
        ensures
            r@ == Seq::<u8>::empty(),
            r.restart_offset_view() == 0,
            r.restart_count() == 0,
    {
        Block { size: 0, data: Vec::new(), restart_offset: 0, owned: true }
    }
}

impl Block {
    #[verifier::type_invariant]
    spec fn inv(self) -> bool {
        self.restart_offset + 4 * self.size <= self.data@.len() <= u32::MAX
    }

    /// Where the restart array starts.
    pub closed spec fn restart_offset_view(&self) -> nat {
        self.restart_offset as nat
    }

    /// The number of restart points.
    pub closed spec fn restart_count(&self) -> nat {
        self.size as nat
    }

    /// The number of restart points that the last four bytes declare.
    pub fn num_restarts(data: &[u8]) -> (r: u32)
        requires
            data@.len() >= 4,
        ensures
            r as nat == le_value(data@.subrange(data@.len() - 4, data@.len() as int)),
    {
        let size = data.len();
        let tail = &data[size - 4..size];
        proof {
            assert(tail@.subrange(0, 4) =~= tail@);
        }
        decode_fixed_32(tail)
    }

    /// A block over `data`. `Corruption` when the declared number of restart
    /// points does not fit the length, or the length is beyond 32 bits.
    pub fn new(data: Vec<u8>) -> (r: Result<Self, Error>)
        ensures
            match r {
                Ok(b) => b@ == data@ && block_layout(data@) == Some(
                    (b.restart_offset_view(), b.restart_count()),
                ),
                Err(e) => e == Error::Corruption && block_layout(data@).is_none(),
            },
    {
        let size = data.len();
        if size >= 4 && size <= 0xffff_ffff {
            let max_restarts_allowed = (size - 4) / 4;
            let num = Self::num_restarts(data.as_slice()) as usize;
            if num <= max_restarts_allowed {
                let restart_offset = size - (1 + num) * 4;
                return Ok(
                    Block {
                        data,
                        restart_offset: restart_offset as u32,
                        size: num as u32,
                        owned: true,
                    },
                );
            }
        }
        Err(Error::Corruption)
    }

    /// The offset of the restart array.
    pub fn restart_offset(&self) -> (r: u32)
        ensures
            r == self.restart_offset_view(),
    {
        self.restart_offset
    }

    /// A cursor over the entries, not positioned yet.
    pub fn iter<C: Comparator>(&self, c: C) -> (r: BlockIterator<C>)
        ensures
            r.wf(),
            r@ == Entries::empty(),
            r.data_view() == self@,
            r.limit() == self.restart_offset_view(),
            r.restart_count() == self.restart_count(),
            r.comparator() == c,
            !r.is_corrupt(),
    {
        proof {
            use_type_invariant(self);
        }
        BlockIterator::new(c, copy_bytes(self.data.as_slice()), self.restart_offset, self.size)
    }
}

/// A cursor over the entries of a block.
pub struct BlockIterator<C: Comparator> {
    order: C,
    data: Vec<u8>,
    restarts: u32,
    nums_restarts: u32,
    restart_index: u32,
    key: Vec<u8>,
    err: Option<Error>,
    current: u32,
    shared: u32,
    not_shared: u32,
    value_len: u32,
    key_offset: u32,
}

impl<C: Comparator> View for BlockIterator<C> {
    type V = Entries;

    /// The entries from the cursor on: the one it stands on first. Empty
    /// when the cursor is not positioned.
    closed spec fn view(&self) -> Entries {
        if self.positioned() {
            seq![(self.key@, self.value_view())] + decoded_from(
                self.data@,
                self.restarts as nat,
                self.next_offset(),
                self.key@,
            )
        } else {
            Seq::empty()
        }
    }
}

impl<C: Comparator> BlockIterator<C> {
    /// The layout that every cursor keeps.
    pub closed spec fn wf_layout(&self) -> bool {
        &&& self.restarts + 4 * self.nums_restarts <= self.data@.len()
        &&& self.data@.len() <= u32::MAX
        &&& self.restart_index <= self.nums_restarts
    }

    /// The invariant of a cursor.
    pub closed spec fn wf(&self) -> bool {
        &&& self.wf_layout()
        &&& self.current <= self.restarts
        &&& self.err.is_some() ==> self.current == self.restarts
        &&& self.current < self.restarts ==> {
            &&& self.current < self.key_offset
            &&& self.key_offset + self.not_shared + self.value_len <= self.restarts
            &&& self.restart_index < self.nums_restarts
        }
    }

    /// Whether the cursor stands on an entry.
    pub closed spec fn positioned(&self) -> bool {
        self.err.is_none() && self.current < self.restarts
    }

    /// Whether the cursor met bytes that are no entry.
    pub closed spec fn is_corrupt(&self) -> bool {
        self.err.is_some()
    }

    /// The bytes of the block.
    pub closed spec fn data_view(&self) -> Seq<u8> {
        self.data@
    }

    /// The end of the entry region: the offset of the restart array.
    pub closed spec fn limit(&self) -> nat {
        self.restarts as nat
    }

    /// The number of restart points.
    pub closed spec fn restart_count(&self) -> nat {
        self.nums_restarts as nat
    }

    /// The order of the keys.
    pub closed spec fn comparator(&self) -> C {
        self.order
    }

    /// The offset of the entry that the cursor stands on.
    pub closed spec fn offset(&self) -> nat {
        self.current as nat
    }

    /// The value of the entry that the cursor stands on.
    pub closed spec fn value_view(&self) -> Seq<u8> {
        self.data@.subrange(
            self.key_offset + self.not_shared,
            self.key_offset + self.not_shared + self.value_len,
        )
    }

    /// The offset behind the entry that the cursor stands on.
    pub closed spec fn next_offset(&self) -> nat {
        (self.key_offset + self.not_shared + self.value_len) as nat
    }

    /// The offsets at which the entries from the cursor on start: that of
    /// the entry it stands on first.
    pub closed spec fn starts(&self) -> Seq<nat> {
        if self.positioned() {
            seq![self.current as nat] + starts_from(
                self.data@,
                self.restarts as nat,
                self.next_offset(),
                self.key@,
            )
        } else {
            Seq::empty()
        }
    }

    /// The offsets at which the entries from restart point `r` on start.
    pub open spec fn run_starts(&self, r: nat) -> Seq<nat> {
        starts_from(
            self.data_view(),
            self.limit(),
            restart_point(self.data_view(), self.limit(), r),
            Seq::empty(),
        )
    }

    /// How the offsets of a cursor go with its entries.
    pub proof fn lemma_cursor_offsets(&self)
        requires
            self.wf(),
        ensures
            self.starts().len() == self@.len(),
            self@.len() > 0 ==> self.starts()[0] == self.offset(),
            self@.len() > 1 ==> self.starts()[1] == self.next_offset(),
            self@.len() == 1 ==> self.tail_end() == self.next_offset(),
    {
        if self.positioned() {
            lemma_starts_len(self.data@, self.restarts as nat, self.next_offset(), self.key@);
        }
    }

    /// Where decoding behind the entry that the cursor stands on stops.
    pub closed spec fn tail_end(&self) -> nat {
        end_of(self.data@, self.restarts as nat, self.next_offset(), self.key@)
    }

    /// The entries from the first restart point on; none where the block
    /// has no restart point.
    pub open spec fn first_entries(&self) -> Entries {
        if self.restart_count() == 0 {
            Seq::empty()
        } else {
            decoded_from(
                self.data_view(),
                self.limit(),
                restart_point(self.data_view(), self.limit(), 0),
                Seq::empty(),
            )
        }
    }

    /// A cursor over the entry region `data[..restarts]`, with
    /// `nums_restarts` restart offsets behind it. It is not positioned.
    pub fn new(order: C, data: Vec<u8>, restarts: u32, nums_restarts: u32) -> (r: Self)
        requires
            restarts + 4 * nums_restarts <= data@.len(),
            data@.len() <= u32::MAX,
        ensures
            r.wf(),
            r@ == Entries::empty(),
            r.data_view() == data@,
            r.limit() == restarts,
            r.restart_count() == nums_restarts,
            r.comparator() == order,
            !r.is_corrupt(),
    {
        Self {
            order,
            err: None,
            data,
            restarts,
            nums_restarts,
            restart_index: 0,
            current: restarts,
            shared: 0,
            not_shared: 0,
            value_len: 0,
            key_offset: 0,
            key: Vec::new(),
        }
    }

    /// Marks the cursor as corrupt and unpositions it.
    fn corruption_error(&mut self)
        requires
            old(self).wf_layout(),
        ensures
            final(self).wf(),
            final(self).is_corrupt(),
            final(self)@ == Entries::empty(),
            final(self).err == Some(Error::Corruption),
            final(self).data == old(self).data,
            final(self).restarts == old(self).restarts,
            final(self).nums_restarts == old(self).nums_restarts,
            final(self).order == old(self).order,
    {
        self.err = Some(Error::Corruption);
        self.key.clear();
        self.current = self.restarts;
        self.restart_index = self.nums_restarts;
    }

    /// The offset behind the entry that the cursor stands on.
    fn next_entry_offset(&self) -> (r: u32)
        requires
            self.wf(),
            self.positioned(),
        ensures
            r == self.next_offset(),
            self.current < r <= self.restarts,
    {
        self.key_offset + self.not_shared + self.value_len
    }

    /// The offset stored in slot `index` of the restart array.
    fn get_restart_point(&self, index: u32) -> (r: u32)
        requires
            self.wf_layout(),
            index < self.nums_restarts,
        ensures
            r == restart_point(self.data@, self.restarts as nat, index as nat),
    {
        let start = self.restarts as usize + 4 * (index as usize);
        let slot = &self.data[start..start + 4];
        proof {
            assert(slot@.subrange(0, 4) =~= slot@);
        }
        decode_fixed_32(slot)
    }

    /// Puts the cursor before the entry at restart point `index`, with no
    /// key behind it, and forgets an earlier corruption.
    fn seek_to_restart_point(&mut self, index: u32)
        requires
            old(self).wf_layout(),
            index < old(self).nums_restarts,
        ensures
            final(self).wf_layout(),
            final(self).key@ == Seq::<u8>::empty(),
            final(self).current == restart_point(
                old(self).data@,
                old(self).restarts as nat,
                index as nat,
            ),
            final(self).restart_index == index,
            final(self).err.is_none(),
            final(self).data == old(self).data,
            final(self).restarts == old(self).restarts,
            final(self).nums_restarts == old(self).nums_restarts,
            final(self).order == old(self).order,
    {
        self.key.clear();
        self.restart_index = index;
        self.current = self.get_restart_point(index);
        self.err = None;
    }

    /// Decodes the entry at the cursor's offset, behind the key that the
    /// cursor holds. Where there is none the cursor is unpositioned, and
    /// marked corrupt unless the offset is the end of the entry region.
    #[verifier::rlimit(60)]
    fn decode_entry(&mut self) -> (r: bool)
        requires
            old(self).wf_layout(),
            old(self).err.is_none(),
            old(self).restart_index < old(self).nums_restarts,
        ensures
            final(self).wf(),
            final(self).data == old(self).data,
            final(self).restarts == old(self).restarts,
            final(self).nums_restarts == old(self).nums_restarts,
            final(self).order == old(self).order,
            r == final(self).positioned(),
            match entry_at(
                old(self).data@,
                old(self).restarts as nat,
                old(self).current as nat,
                old(self).key@,
            ) {
                Some((key, value, next)) => r && final(self).key@ == key && final(self).value_view()
                    == value && final(self).next_offset() == next && final(self).current == old(self).current,
                None => !r && (final(self).is_corrupt() <==> old(self).current < old(self).restarts),
            },
            final(self)@ == decoded_from(
                old(self).data@,
                old(self).restarts as nat,
                old(self).current as nat,
                old(self).key@,
            ),
            final(self).starts() == starts_from(
                old(self).data@,
                old(self).restarts as nat,
                old(self).current as nat,
                old(self).key@,
            ),
            r ==> final(self).tail_end() == end_of(
                old(self).data@,
                old(self).restarts as nat,
                old(self).current as nat,
                old(self).key@,
            ),
            !r ==> old(self).current as nat == end_of(
                old(self).data@,
                old(self).restarts as nat,
                old(self).current as nat,
                old(self).key@,
            ),
    {
        if self.current >= self.restarts {
            self.current = self.restarts;
            self.restart_index = self.nums_restarts;
            return false;
        }
        let offset = self.current as usize;
        let limit = self.restarts as usize;
        let ghost region = self.data@.subrange(offset as int, limit as int);
        let (shared, n0) = match get_varint_32(&self.data[offset..limit]) {
            Some(pair) => pair,
            None => {
                self.corruption_error();
                return false;
            },
        };
        proof {
            assert(self.data@.subrange(offset + n0, limit as int) =~= region.skip(n0 as int));
        }
        let (unshared, n1) = match get_varint_32(&self.data[offset + n0..limit]) {
            Some(pair) => pair,
            None => {
                self.corruption_error();
                return false;
            },
        };
        proof {
            assert(self.data@.subrange(offset + n0 + n1, limit as int) =~= region.skip(
                (n0 + n1) as int,
            ));
        }
        let (value_len, n2) = match get_varint_32(&self.data[offset + n0 + n1..limit]) {
            Some(pair) => pair,
            None => {
                self.corruption_error();
                return false;
            },
        };
        let n = n0 + n1 + n2;
        if (unshared as u64) + (value_len as u64) > ((limit - offset - n) as u64) || shared as usize
            > self.key.len() {
            self.corruption_error();
            return false;
        }
        self.key_offset = (offset + n) as u32;
        self.shared = shared;
        self.not_shared = unshared;
        self.value_len = value_len;
        self.key.truncate(shared as usize);
        let from = offset + n;
        let mut i: usize = 0;
        while i < unshared as usize
            invariant
                i <= unshared,
                from + unshared <= self.data@.len(),
                from + unshared <= usize::MAX,
                self.wf_layout(),
                self.key@ == old(self).key@.take(shared as int) + self.data@.subrange(
                    from as int,
                    from + i,
                ),
                self.data == old(self).data,
                self.restarts == old(self).restarts,
                self.nums_restarts == old(self).nums_restarts,
                self.order == old(self).order,
                self.restart_index == old(self).restart_index,
                self.current == old(self).current,
                self.err == old(self).err,
                self.key_offset == from,
                self.not_shared == unshared,
                self.value_len == value_len,
            decreases unshared - i,
        {
            self.key.push(self.data[from + i]);
            proof {
                assert(self.data@.subrange(from as int, from + i + 1) =~= self.data@.subrange(
                    from as int,
                    from + i,
                ).push(self.data@[from + i]));
            }
            i += 1;
        }
        while self.restart_index + 1 < self.nums_restarts && self.get_restart_point(
            self.restart_index + 1,
        ) < self.current
            invariant
                self.wf_layout(),
                self.restart_index < self.nums_restarts,
                from + unshared <= self.data@.len(),
                self.key@ == old(self).key@.take(shared as int) + self.data@.subrange(
                    from as int,
                    from + unshared,
                ),
                self.data == old(self).data,
                self.restarts == old(self).restarts,
                self.nums_restarts == old(self).nums_restarts,
                self.order == old(self).order,
                self.current == old(self).current,
                self.err == old(self).err,
                self.key_offset == from,
                self.not_shared == unshared,
                self.value_len == value_len,
            decreases self.nums_restarts - self.restart_index,
        {
            self.restart_index += 1;
        }
        true
    }

    /// Whether the cursor stands on an entry.
    pub fn valid(&self) -> (r: bool)
        requires
            self.wf(),
        ensures
            r == (self@.len() > 0),
    {
        self.err.is_none() && self.current < self.restarts
    }

    /// `Corruption` when the cursor met bytes that are no entry since it
    /// was last sought.
    pub fn status(&self) -> (r: Result<(), Error>)
        ensures
            r == if self.is_corrupt() {
                Err::<(), Error>(Error::Corruption)
            } else {
                Ok::<(), Error>(())
            },
    {
        if self.err.is_some() {
            Err(Error::Corruption)
        } else {
            Ok(())
        }
    }

    /// The key of the entry that the cursor stands on.
    pub fn key(&self) -> (r: &[u8])
        requires
            self.wf(),
            self@.len() > 0,
        ensures
            r@ == self@[0].0,
    {
        self.key.as_slice()
    }

    /// The value of the entry that the cursor stands on.
    pub fn value(&self) -> (r: &[u8])
        requires
            self.wf(),
            self@.len() > 0,
        ensures
            r@ == self@[0].1,
    {
        let start = (self.key_offset + self.not_shared) as usize;
        &self.data[start..start + self.value_len as usize]
    }

    /// Moves to the first entry.
    pub fn seek_to_first(&mut self)
        requires
            old(self).wf(),
        ensures
            final(self).wf(),
            final(self).data_view() == old(self).data_view(),
            final(self).limit() == old(self).limit(),
            final(self).restart_count() == old(self).restart_count(),
            final(self).comparator() == old(self).comparator(),
            final(self)@ == old(self).first_entries(),
            final(self).is_corrupt() <==> old(self).restart_count() > 0 && old(self).run(0).len()
                == 0 && old(self).run_end(0) < old(self).limit(),
            final(self)@.len() > 0 ==> final(self).tail_end() == old(self).run_end(0),
            final(self)@.len() > 0 ==> final(self).starts() == old(self).run_starts(0),
    {
        if self.nums_restarts == 0 {
            self.err = None;
            self.current = self.restarts;
            return ;
        }
        self.seek_to_restart_point(0);
        self.decode_entry();
    }

    /// Moves to the next entry; behind the last one the cursor is no longer
    /// positioned.
    pub fn next(&mut self)
        requires
            old(self).wf(),
            old(self)@.len() > 0,
        ensures
            final(self).wf(),
            final(self).data_view() == old(self).data_view(),
            final(self).limit() == old(self).limit(),
            final(self).restart_count() == old(self).restart_count(),
            final(self).comparator() == old(self).comparator(),
            final(self)@ == old(self)@.drop_first(),
            final(self)@.len() > 0 ==> final(self).tail_end() == old(self).tail_end(),
            final(self).starts() == old(self).starts().drop_first(),
            final(self)@.len() == 0 ==> (final(self).is_corrupt() <==> old(self).tail_end() < old(self).limit()),
    {
        self.current = self.next_entry_offset();
        self.decode_entry();
        proof {
            assert((seq![(old(self).key@, old(self).value_view())] + final(self)@).drop_first()
                =~= final(self)@);
            assert((seq![old(self).current as nat] + final(self).starts()).drop_first()
                =~= final(self).starts());
        }
    }
}

impl<C: Comparator> BlockIterator<C> {
    /// The entries from restart point `r` on.
    pub open spec fn run(&self, r: nat) -> Entries {
        decoded_from(
            self.data_view(),
            self.limit(),
            restart_point(self.data_view(), self.limit(), r),
            Seq::empty(),
        )
    }

    /// Where decoding from restart point `r` on stops: the end of the entry
    /// region, or before it where the bytes are no entry.
    pub open spec fn run_end(&self, r: nat) -> nat {
        end_of(
            self.data_view(),
            self.limit(),
            restart_point(self.data_view(), self.limit(), r),
            Seq::empty(),
        )
    }

    /// Whether the block is sound: from every restart point on, the bytes
    /// are entries up to the end of the entry region, with keys that the
    /// order admits, and every restart point but the first has an entry.
    pub open spec fn clean(&self) -> bool {
        forall|r: nat|
            r < self.restart_count() ==> {
                &&& #[trigger] self.run_end(r) == self.limit()
                &&& r > 0 ==> self.run(r).len() > 0
                &&& forall|j: int|
                    0 <= j < self.run(r).len() ==> self.comparator().accepts(
                        (#[trigger] self.run(r)[j]).0,
                    )
            }
    }

    /// A cursor that started at restart point `r` and passed `k` entries
    /// stands on an entry: `landed` are the entries from it on, `starts`
    /// their offsets, and `end` is where decoding stops.
    pub open spec fn lands_in_run(
        &self,
        r: nat,
        k: nat,
        landed: Entries,
        starts: Seq<nat>,
        end: nat,
    ) -> bool {
        &&& r < self.restart_count()
        &&& k < self.run(r).len()
        &&& landed == self.run(r).skip(k as int)
        &&& starts == self.run_starts(r).skip(k as int)
        &&& end == self.run_end(r)
    }

    /// A seek for `target` that starts at restart point `r` and passes `k`
    /// entries lands on `landed`, whose entries start at `starts`: `r` is the first restart point or one
    /// whose key sorts before `target`, the `k` entries passed sort before
    /// `target`, and the entry landed on, if any, does not.
    pub open spec fn seek_lands(
        &self,
        r: nat,
        k: nat,
        target: Seq<u8>,
        landed: Entries,
        starts: Seq<nat>,
    ) -> bool {
        let run = self.run(r);
        let c = self.comparator();
        &&& r < self.restart_count()
        &&& starts == self.run_starts(r).skip(k as int)
        &&& r == 0 || (run.len() > 0 && c.accepts(run[0].0) && sorts_before(&c, run[0].0, target))
        &&& k <= run.len()
        &&& landed == run.skip(k as int)
        &&& forall|j: int|
            0 <= j < k ==> c.accepts((#[trigger] run[j]).0) && sorts_before(&c, run[j].0, target)
        &&& k < run.len() ==> c.accepts(run[k as int].0) && !sorts_before(
            &c,
            run[k as int].0,
            target,
        )
    }

    /// Moves to the last entry. The cursor ends unpositioned where the last
    /// restart point is followed by no entry, and corrupt where the bytes
    /// behind it are not entries up to the end of the entry region.
    #[verifier::rlimit(60)]
    pub fn seek_to_last(&mut self)
        requires
            old(self).wf(),
        ensures
            final(self).wf(),
            final(self).data_view() == old(self).data_view(),
            final(self).limit() == old(self).limit(),
            final(self).restart_count() == old(self).restart_count(),
            final(self).comparator() == old(self).comparator(),
            old(self).restart_count() == 0 ==> final(self)@ == Entries::empty() && !final(self).is_corrupt(),
            old(self).restart_count() > 0 ==> ({
                let last = (old(self).restart_count() - 1) as nat;
                let run = old(self).run(last);
                let end = old(self).run_end(last);
                &&& final(self).is_corrupt() <==> end < old(self).limit()
                &&& final(self)@ == if run.len() > 0 && end == old(self).limit() {
                    seq![run.last()]
                } else {
                    Entries::empty()
                }
                &&& final(self)@.len() > 0 ==> final(self).starts() == seq![
                    old(self).run_starts(last).last(),
                ]
            }),
    {
        if self.nums_restarts == 0 {
            self.err = None;
            self.current = self.restarts;
            return ;
        }
        self.seek_to_restart_point(self.nums_restarts - 1);
        let ghost run = old(self).run((old(self).nums_restarts - 1) as nat);
        let ghost st = old(self).run_starts((old(self).nums_restarts - 1) as nat);
        let ghost end = old(self).run_end((old(self).nums_restarts - 1) as nat);
        let mut ok = self.decode_entry();
        proof {
            self.lemma_cursor_offsets();
        }
        while ok && self.next_entry_offset() < self.restarts
            invariant
                ok ==> st.len() > 0 && self.starts().len() == self@.len() && st.last()
                    == self.starts().last(),
                self.wf(),
                self.data == old(self).data,
                self.restarts == old(self).restarts,
                self.nums_restarts == old(self).nums_restarts,
                self.order == old(self).order,
                ok == self.positioned(),
                ok ==> run.len() > 0 && self@.len() > 0 && run.last() == self@.last() && end
                    == end_of(self.data@, self.restarts as nat, self.next_offset(), self.key@),
                !ok ==> self@.len() == 0 && (self.is_corrupt() <==> end < self.restarts) && (
                !self.is_corrupt() ==> run.len() == 0 || end != self.restarts),
            decreases self.restarts - self.current,
        {
            let ghost before = self@;
            let ghost before_starts = self.starts();
            self.current = self.next_entry_offset();
            ok = self.decode_entry();
            proof {
                assert(before.drop_first() =~= self@);
                assert(before_starts.drop_first() =~= self.starts());
                self.lemma_cursor_offsets();
            }
        }
        proof {
            if ok {
                assert(self@ =~= seq![self@.last()]);
                assert(self.starts() =~= seq![self.starts().last()]);
            }
        }
    }

    /// Moves to the first entry whose key does not sort before `target`,
    /// searching from the last restart point whose key sorts before
    /// `target`. A key that the order does not admit marks the cursor
    /// corrupt.
    #[verifier::rlimit(60)]
    pub fn seek(&mut self, target: &[u8])
        requires
            old(self).wf(),
            old(self).comparator().accepts(target@),
        ensures
            final(self).wf(),
            final(self).data_view() == old(self).data_view(),
            final(self).limit() == old(self).limit(),
            final(self).restart_count() == old(self).restart_count(),
            final(self).comparator() == old(self).comparator(),
            final(self).is_corrupt() ==> final(self)@ == Entries::empty(),
            old(self).restart_count() == 0 ==> final(self)@ == Entries::empty() && !final(self).is_corrupt(),
            !final(self).is_corrupt() && old(self).restart_count() > 0 ==> exists|r: nat, k: nat|
                #[trigger] old(self).seek_lands(r, k, target@, final(self)@, final(self).starts()),
            old(self).clean() ==> !final(self).is_corrupt(),
    {
        if self.nums_restarts == 0 {
            self.err = None;
            self.current = self.restarts;
            return ;
        }
        let mut left: u32 = 0;
        let mut right: u32 = self.nums_restarts - 1;
        while left < right
            invariant
                self.wf_layout(),
                self.data == old(self).data,
                self.restarts == old(self).restarts,
                self.nums_restarts == old(self).nums_restarts,
                self.order == old(self).order,
                left <= right < self.nums_restarts,
                self.order.accepts(target@),
                left == 0 || (old(self).run(left as nat).len() > 0 && self.order.accepts(
                    old(self).run(left as nat)[0].0,
                ) && sorts_before(&self.order, old(self).run(left as nat)[0].0, target@)),
            decreases right - left,
        {
            let mid = left + (right - left + 1) / 2;
            self.seek_to_restart_point(mid);
            if !self.decode_entry() {
                proof {
                    if old(self).clean() {
                        assert(old(self).run_end(mid as nat) == old(self).limit());
                        assert(old(self).run(mid as nat).len() > 0);
                    }
                }
                self.corruption_error();
                return ;
            }
            proof {
                if old(self).clean() {
                    assert(old(self).run_end(mid as nat) == old(self).limit());
                    assert(old(self).comparator().accepts(old(self).run(mid as nat)[0].0));
                }
            }
            if !self.order.admits(self.key.as_slice()) {
                self.corruption_error();
                return ;
            }
            if is_before(&self.order, self.key.as_slice(), target) {
                left = mid;
            } else {
                right = mid - 1;
            }
        }
        self.seek_to_restart_point(left);
        self.decode_entry();
        let ghost run = old(self).run(left as nat);
        let ghost st = old(self).run_starts(left as nat);
        let ghost end = old(self).run_end(left as nat);
        let ghost k: nat = 0;
        proof {
            assert(run.skip(0) =~= run);
            assert(st.skip(0) =~= st);
            lemma_starts_len(
                self.data@,
                self.restarts as nat,
                restart_point(self.data@, self.restarts as nat, left as nat),
                Seq::empty(),
            );
        }
        loop
            invariant_except_break
                st.len() == run.len(),
                st == old(self).run_starts(left as nat),
                self.starts() == st.skip(k as int),
                self@.len() > 0 ==> self.tail_end() == end,
                self@.len() == 0 ==> (self.is_corrupt() <==> end < self.restarts),
                end == old(self).run_end(left as nat),
                self.order.accepts(target@),
                left < self.nums_restarts,
                run == old(self).run(left as nat),
                left == 0 || (run.len() > 0 && self.order.accepts(run[0].0) && sorts_before(
                    &self.order,
                    run[0].0,
                    target@,
                )),
                k <= run.len(),
                self@ == run.skip(k as int),
                forall|j: int|
                    0 <= j < k ==> self.order.accepts((#[trigger] run[j]).0) && sorts_before(
                        &self.order,
                        run[j].0,
                        target@,
                    ),
            invariant
                self.wf(),
                self.data@ == old(self).data@,
                self.restarts == old(self).restarts,
                self.nums_restarts == old(self).nums_restarts,
                self.order == old(self).order,
            ensures
                self.is_corrupt() ==> self@ == Entries::empty(),
                !self.is_corrupt() ==> old(self).seek_lands(
                    left as nat,
                    k,
                    target@,
                    self@,
                    self.starts(),
                ),
                old(self).clean() ==> !self.is_corrupt(),
            decreases run.len() - k,
        {
            if !self.valid() {
                proof {
                    assert(k == run.len());
                    if old(self).clean() {
                        assert(old(self).run_end(left as nat) == old(self).limit());
                    }
                }
                break ;
            }
            proof {
                assert(run[k as int] == self@[0]);
                assert(self.key@ == self@[0].0);
                if old(self).clean() {
                    assert(old(self).run_end(left as nat) == old(self).limit());
                    assert(old(self).comparator().accepts(old(self).run(left as nat)[k as int].0));
                }
            }
            if !self.order.admits(self.key.as_slice()) {
                self.corruption_error();
                break ;
            }
            if !is_before(&self.order, self.key.as_slice(), target) {
                break ;
            }
            proof {
                lemma_skip_step(run, k as int);
                lemma_skip_step(st, k as int);
                k = k + 1;
            }
            self.next();
        }
    }

    /// Moves to the entry before the one that the cursor stands on: the
    /// last entry, decoded from the nearest restart point before the cursor,
    /// that starts before the cursor. Before the first restart point the
    /// cursor ends unpositioned.
    #[verifier::rlimit(100)]
    #[verifier::spinoff_prover]
    pub fn prev(&mut self)
        requires
            old(self).wf(),
            old(self)@.len() > 0,
        ensures
            final(self).wf(),
            final(self).data_view() == old(self).data_view(),
            final(self).limit() == old(self).limit(),
            final(self).restart_count() == old(self).restart_count(),
            final(self).comparator() == old(self).comparator(),
            final(self).is_corrupt() ==> final(self)@ == Entries::empty(),
            final(self)@.len() > 0 ==> final(self).offset() < old(self).offset() <= final(self).next_offset() && exists|r: nat, k: nat|
                #[trigger] old(self).lands_in_run(
                    r,
                    k,
                    final(self)@,
                    final(self).starts(),
                    final(self).tail_end(),
                ),
            final(self)@.len() == 0 && !final(self).is_corrupt() ==> restart_point(
                old(self).data_view(),
                old(self).limit(),
                0,
            ) >= old(self).offset(),
            old(self).clean() ==> !final(self).is_corrupt(),
    {
        let came_from = self.current;
        let mut point = self.get_restart_point(self.restart_index);
        while point >= came_from
            invariant
                self.wf(),
                self.positioned(),
                point == restart_point(
                    self.data@,
                    self.restarts as nat,
                    self.restart_index as nat,
                ),
                self.restart_index < self.nums_restarts,
                self.data == old(self).data,
                self.restarts == old(self).restarts,
                self.nums_restarts == old(self).nums_restarts,
                self.order == old(self).order,
                self.current == came_from,
                came_from == old(self).current,
            decreases self.restart_index,
        {
            if self.restart_index == 0 {
                self.current = self.restarts;
                self.restart_index = self.nums_restarts;
                return ;
            }
            self.restart_index -= 1;
            point = self.get_restart_point(self.restart_index);
        }
        let r = self.restart_index;
        self.seek_to_restart_point(r);
        let ghost run = old(self).run(r as nat);
        let ghost st = old(self).run_starts(r as nat);
        let ghost end = old(self).run_end(r as nat);
        let ghost k: nat = 0;
        let mut ok = self.decode_entry();
        proof {
            assert(run.skip(0) =~= run);
            assert(st.skip(0) =~= st);
            lemma_starts_len(
                self.data@,
                self.restarts as nat,
                restart_point(self.data@, self.restarts as nat, r as nat),
                Seq::empty(),
            );
        }
        while ok && self.next_entry_offset() < came_from
            invariant
                st.len() == run.len(),
                st == old(self).run_starts(r as nat),
                ok ==> self.starts() == st.skip(k as int),
                ok ==> self.tail_end() == end,
                !ok ==> end < self.restarts,
                end == old(self).run_end(r as nat),
                self.wf(),
                self.data == old(self).data,
                self.restarts == old(self).restarts,
                self.nums_restarts == old(self).nums_restarts,
                self.order == old(self).order,
                came_from == old(self).current,
                came_from < self.restarts,
                r < self.nums_restarts,
                run == old(self).run(r as nat),
                ok == self.positioned(),
                ok ==> self.current < came_from && k < run.len() && self@ == run.skip(k as int),
                !ok ==> self.is_corrupt(),
            decreases self.restarts - self.current,
        {
            let ghost before = self.starts();
            let ghost before_entries = self@;
            proof {
                lemma_skip_step(run, k as int);
                lemma_skip_step(st, k as int);
                k = k + 1;
            }
            self.current = self.next_entry_offset();
            ok = self.decode_entry();
            proof {
                assert(before.drop_first() =~= self.starts());
                assert(before_entries.drop_first() =~= self@);
            }
        }
        proof {
            if ok {
                assert(old(self).lands_in_run(r as nat, k, self@, self.starts(), self.tail_end()));
            }
        }
    }
}

/// Where decoding from `pos` on stops: the end of the entry region, or the
/// first place before it that holds no entry.
pub open spec fn end_of(data: Seq<u8>, limit: nat, pos: nat, prev_key: Seq<u8>) -> nat
    decreases limit - pos,
{
    match entry_at(data, limit, pos, prev_key) {
        Some((key, value, next)) => if pos < next <= limit {
            end_of(data, limit, next, key)
        } else {
            pos
        },
        None => pos,
    }
}

impl<C: Comparator> LdbIterator for BlockIterator<C> {
    open spec fn cursor_wf(&self) -> bool {
        self.wf()
    }

    open spec fn remaining(&self) -> Pairs {
        self@
    }

    open spec fn same_source(&self, other: &Self) -> bool {
        &&& self.data_view() == other.data_view()
        &&& self.limit() == other.limit()
        &&& self.restart_count() == other.restart_count()
        &&& self.comparator() == other.comparator()
    }

    open spec fn first_pairs(&self) -> Pairs {
        self.first_entries()
    }

    open spec fn last_pairs(&self) -> Pairs {
        if self.restart_count() == 0 {
            Seq::empty()
        } else {
            let last = (self.restart_count() - 1) as nat;
            if self.run(last).len() > 0 && self.run_end(last) == self.limit() {
                seq![self.run(last).last()]
            } else {
                Seq::empty()
            }
        }
    }

    open spec fn can_seek(&self, target: Seq<u8>) -> bool {
        self.comparator().accepts(target)
    }

    open spec fn sought(&self, target: Seq<u8>, after: &Self) -> bool {
        &&& after.is_corrupt() ==> after@ == Entries::empty()
        &&& self.restart_count() == 0 ==> after@ == Entries::empty() && !after.is_corrupt()
        &&& !after.is_corrupt() && self.restart_count() > 0 ==> exists|r: nat, k: nat|
            #[trigger] self.seek_lands(r, k, target, after@, after.starts())
        &&& self.clean() ==> !after.is_corrupt()
    }

    open spec fn stepped_back(&self, after: &Self) -> bool {
        &&& after.is_corrupt() ==> after@ == Entries::empty()
        &&& after@.len() > 0 ==> after.offset() < self.offset() <= after.next_offset()
            && exists|r: nat, k: nat|
            #[trigger] self.lands_in_run(r, k, after@, after.starts(), after.tail_end())
        &&& after@.len() == 0 && !after.is_corrupt() ==> restart_point(
            self.data_view(),
            self.limit(),
            0,
        ) >= self.offset()
        &&& self.clean() ==> !after.is_corrupt()
    }

    open spec fn corrupt(&self) -> bool {
        self.is_corrupt()
    }

    fn valid(&self) -> (r: bool) {
        BlockIterator::valid(self)
    }

    fn seek_to_first(&mut self)
        ensures
            final(self).is_corrupt() <==> old(self).restart_count() > 0 && old(self).run(0).len()
                == 0 && old(self).run_end(0) < old(self).limit(),
            final(self)@.len() > 0 ==> final(self).tail_end() == old(self).run_end(0),
            final(self)@.len() > 0 ==> final(self).starts() == old(self).run_starts(0),
    {
        BlockIterator::seek_to_first(self)
    }

    fn seek_to_last(&mut self)
        ensures
            final(self).is_corrupt() <==> old(self).restart_count() > 0 && old(self).run_end(
                (old(self).restart_count() - 1) as nat,
            ) < old(self).limit(),
            final(self)@.len() > 0 ==> final(self).starts() == seq![
                old(self).run_starts((old(self).restart_count() - 1) as nat).last(),
            ],
    {
        BlockIterator::seek_to_last(self)
    }

    fn seek(&mut self, target: &[u8]) {
        BlockIterator::seek(self, target)
    }

    fn next(&mut self)
        ensures
            final(self)@.len() > 0 ==> final(self).tail_end() == old(self).tail_end(),
            final(self).starts() == old(self).starts().drop_first(),
            final(self)@.len() == 0 ==> (final(self).is_corrupt() <==> old(self).tail_end() < old(self).limit()),
    {
        BlockIterator::next(self)
    }

    fn key(&self) -> (r: &[u8]) {
        BlockIterator::key(self)
    }

    fn value(&self) -> (r: &[u8]) {
        BlockIterator::value(self)
    }

    fn prev(&mut self) {
        BlockIterator::prev(self)
    }

    fn status(&self) -> (r: Result<(), Error>) {
        BlockIterator::status(self)
    }
}

} // verus!
