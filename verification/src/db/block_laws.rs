//! What the cursor of a block does on a block that was built from entries.

use crate::db::block::block_bytes;
use crate::db::block::entries_bytes;
use crate::db::block::entry_offsets;
use crate::db::block::lemma_block_round_trip;
use crate::db::block::lemma_built_block_run;
use crate::db::block::lemma_entry_offsets_grow;
use crate::db::block::lemma_restart_entries;
use crate::db::block::lemma_restart_offsets_first;
use crate::db::block::restart_entries;
use crate::db::block::restart_offsets;
use crate::db::block::BlockIterator;
use crate::db::block::Entries;
use crate::util::comparator::count_before;
use crate::util::comparator::lemma_before_le;
use crate::util::comparator::lemma_count_before;
use crate::util::comparator::lemma_le_before;
use crate::util::comparator::sorts_before;
use crate::util::comparator::strictly_sorted;
use crate::util::comparator::Comparator;
use vstd::prelude::*;

verus! {

/// Among the entries of a built block, the entry that starts before entry
/// `q` and ends at or behind the start of entry `q` is entry `q - 1`.
#[verifier::rlimit(60)]
pub proof fn lemma_step_back(
    entries: Entries,
    interval: nat,
    q: nat,
    at: nat,
    k: nat,
    landed: Entries,
    starts: Seq<nat>,
    next: nat,
)
    requires
        q < entries.len(),
        at <= entries.len(),
        k < entries.skip(at as int).len(),
        landed == entries.skip(at as int).skip(k as int),
        starts == entry_offsets(entries, interval, at).skip(k as int),
        starts[0] < entries_bytes(entries, interval, q).len() <= next,
        landed.len() > 1 ==> next == starts[1],
    ensures
        at + k + 1 == q,
        landed == entries.skip(q - 1),
        starts == entry_offsets(entries, interval, (q - 1) as nat),
{
    let n = entries.len();
    let j = (at + k) as nat;
    let all = entry_offsets(entries, interval, at);
    assert(starts[0] == all[k as int]);
    assert(all[k as int] == entries_bytes(entries, interval, j).len());
    if j > q {
        lemma_entry_offsets_grow(entries, interval, q, j);
    }
    if j + 1 < q {
        lemma_entry_offsets_grow(entries, interval, j + 1, q);
        assert(starts[1] == all[k as int + 1]);
        assert(all[k as int + 1] == entries_bytes(entries, interval, j + 1).len());
    }
    assert(landed =~= entries.skip(j as int));
    assert(starts =~= entry_offsets(entries, interval, j));
}

/// The keys of entries.
pub open spec fn keys_of(entries: Entries) -> Seq<Seq<u8>> {
    Seq::new(entries.len(), |i: int| entries[i].0)
}

impl<C: Comparator> BlockIterator<C> {
    /// Whether the cursor reads the block that is built from `entries`,
    /// with keys that the order admits.
    pub open spec fn reads(&self, entries: Entries, interval: nat) -> bool {
        &&& interval >= 1
        &&& block_bytes(entries, interval).len() <= u32::MAX
        &&& forall|j: int|
            0 <= j < entries.len() ==> (#[trigger] entries[j]).0.len() <= u32::MAX
                && entries[j].1.len() <= u32::MAX && self.comparator().accepts(entries[j].0)
        &&& self.data_view() == block_bytes(entries, interval)
        &&& self.limit() == entries_bytes(entries, interval, entries.len()).len()
        &&& self.restart_count() == restart_offsets(entries, interval, entries.len()).len()
    }

    /// Whether the cursor stands on entry `q` of the block that is built
    /// from `entries`; on none of them for `q == entries.len()`.
    pub open spec fn stands_on(&self, entries: Entries, interval: nat, q: nat) -> bool {
        &&& q <= entries.len()
        &&& self@ == entries.skip(q as int)
        &&& self.starts() == entry_offsets(entries, interval, q)
    }

    /// A block that is built from entries is sound; its first entries are
    /// all the entries, at their offsets.
    #[verifier::rlimit(60)]
    pub proof fn lemma_built_block_clean(&self, entries: Entries, interval: nat)
        requires
            self.reads(entries, interval),
        ensures
            self.clean(),
            self.restart_count() >= 1,
            self.first_entries() == entries,
            self.run_starts(0) == entry_offsets(entries, interval, 0),
    {
        lemma_restart_offsets_first(entries, interval, entries.len());
        lemma_built_block_run(entries, interval, 0);
        lemma_restart_entries(entries, interval, entries.len(), 0);
        assert(entries.skip(0) =~= entries);
        lemma_restart_offsets_first(entries, interval, entries.len());
        lemma_block_round_trip(entries, interval);
        assert forall|r: nat| r < self.restart_count() implies {
            &&& #[trigger] self.run_end(r) == self.limit()
            &&& r > 0 ==> self.run(r).len() > 0
            &&& forall|j: int|
                0 <= j < self.run(r).len() ==> self.comparator().accepts(
                    (#[trigger] self.run(r)[j]).0,
                )
        } by {
            lemma_built_block_run(entries, interval, r);
            let at = restart_entries(interval, entries.len())[r as int];
            assert forall|j: int| 0 <= j < self.run(r).len() implies self.comparator().accepts(
                (#[trigger] self.run(r)[j]).0,
            ) by {
                assert(self.run(r)[j] == entries[at + j]);
            }
        }
    }

    /// In a block that is built from strictly increasing entries, a seek
    /// lands on the first entry of the block whose key does not sort before
    /// the target, and the entries behind it follow.
    #[verifier::rlimit(60)]
    pub proof fn lemma_seek_finds_first(
        &self,
        entries: Entries,
        interval: nat,
        target: Seq<u8>,
        r: nat,
        k: nat,
        landed: Entries,
        starts: Seq<nat>,
    )
        requires
            self.reads(entries, interval),
            strictly_sorted(&self.comparator(), keys_of(entries)),
            self.comparator().accepts(target),
            self.seek_lands(r, k, target, landed, starts),
        ensures
            count_before(&self.comparator(), keys_of(entries), target) <= entries.len(),
            landed == entries.skip(
                count_before(&self.comparator(), keys_of(entries), target) as int,
            ),
            starts == entry_offsets(
                entries,
                interval,
                count_before(&self.comparator(), keys_of(entries), target),
            ),
    {
        let c = self.comparator();
        let keys = keys_of(entries);
        let n = entries.len() as int;
        lemma_built_block_run(entries, interval, r);
        let at = restart_entries(interval, entries.len())[r as int] as int;
        lemma_restart_entries(entries, interval, entries.len(), r as int);
        let run = self.run(r);
        assert(run == entries.skip(at));
        let q = at + k;
        assert forall|j: int| 0 <= j < q implies sorts_before(&c, #[trigger] keys[j], target) by {
            if j < at {
                assert(run[0] == entries[at]);
                assert(sorts_before(&c, keys[j], keys[at]));
                c.le_total(keys[at], target);
                lemma_before_le(&c, keys[j], keys[at], target);
            } else {
                assert(run[j - at] == entries[j]);
            }
        }
        assert forall|j: int| q <= j < n implies !sorts_before(&c, #[trigger] keys[j], target) by {
            assert(run[k as int] == entries[q]);
            if j > q {
                assert(sorts_before(&c, keys[q], keys[j]));
                lemma_le_before(&c, target, keys[q], keys[j]);
                c.le_total(target, keys[j]);
            }
        }
        lemma_count_before(&c, keys, target, q);
        assert(run.skip(k as int) =~= entries.skip(q));
        assert(entry_offsets(entries, interval, at as nat).skip(k as int) =~= entry_offsets(
            entries,
            interval,
            q as nat,
        ));
    }

    /// In a block that is built from entries, a step forward from entry `q`
    /// leads to entry `q + 1`: what `next` leaves is the entries from there
    /// on, at their offsets.
    pub proof fn lemma_next_in_built_block(&self, entries: Entries, interval: nat, q: nat)
        requires
            self.stands_on(entries, interval, q),
            q < entries.len(),
        ensures
            self@.drop_first() == entries.skip((q + 1) as int),
            self.starts().drop_first() == entry_offsets(entries, interval, q + 1),
    {
        assert(entries.skip(q as int).drop_first() =~= entries.skip((q + 1) as int));
        assert(entry_offsets(entries, interval, q).drop_first() =~= entry_offsets(
            entries,
            interval,
            q + 1,
        ));
    }

    /// In a block that is built from entries, a step back from entry `q`
    /// leads to entry `q - 1`: where `prev` lands, as its contract says, is
    /// that entry, and from the first entry it lands nowhere.
    #[verifier::rlimit(60)]
    pub proof fn lemma_prev_in_built_block(
        &self,
        landed: &Self,
        entries: Entries,
        interval: nat,
        q: nat,
        r: nat,
        k: nat,
    )
        requires
            self.wf(),
            landed.wf(),
            self.reads(entries, interval),
            self.stands_on(entries, interval, q),
            q < entries.len(),
            landed@.len() > 0,
            landed.offset() < self.offset() <= landed.next_offset(),
            self.lands_in_run(r, k, landed@, landed.starts(), landed.tail_end()),
        ensures
            q >= 1,
            landed.stands_on(entries, interval, (q - 1) as nat),
    {
        let n = entries.len();
        let at = restart_entries(interval, n)[r as int];
        lemma_built_block_run(entries, interval, r);
        self.lemma_cursor_offsets();
        landed.lemma_cursor_offsets();
        assert(entry_offsets(entries, interval, q)[0] == entries_bytes(entries, interval, q).len());
        lemma_step_back(
            entries,
            interval,
            q,
            at,
            k,
            landed@,
            landed.starts(),
            landed.next_offset(),
        );
    }
}

} // verus!
