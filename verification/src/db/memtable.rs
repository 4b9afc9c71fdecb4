//! The mutable in-memory table: records of a length-prefixed internal key
//! and a length-prefixed value, kept in a skip list.

use crate::db::format::extract_tag;
use crate::db::format::internal_key;
use crate::db::format::lemma_internal_key_parts;
use crate::db::format::lookup_key_bytes;
use crate::db::format::pack_sequence_and_type;
use crate::db::format::sequence_of;
use crate::db::format::type_of;
use crate::db::format::user_key_of;
use crate::db::format::InternalKeyComparator;
use crate::db::format::LookUpKey;
use crate::db::format::ValueType;
use crate::db::format::K_MAX_SEQUENCE_NUMBER;
use crate::db::ldbiterator::LdbIterator;
use crate::db::ldbiterator::Pairs;
use crate::util::comparator::count_before;
use crate::util::comparator::lemma_count_before;
use crate::util::comparator::lemma_le_before;
use crate::util::comparator::strictly_sorted;
use crate::db::skiplist::SkipList;
use crate::db::skiplist::SkipListIterator;
use crate::db::SequenceNumber;
use crate::util::arena::BlockArena;
use crate::util::coding::append_bytes;
use crate::util::coding::copy_bytes;
use crate::util::coding::decode_varint32;
use crate::util::coding::extract_length_prefixed_slice;
use crate::util::coding::lemma_decode_encoded32;
use crate::util::coding::lemma_length_prefixed_round_trip;
use crate::util::coding::length_prefixed;
use crate::util::coding::length_prefixed_range;
use crate::util::coding::length_prefixed_slice;
use crate::util::coding::put_fixed_64;
use crate::util::coding::put_length_prefixed_slice;
use crate::util::coding::put_varint_32;
use crate::util::coding::varint_bytes;
use crate::util::comparator::bytewise_order;
use crate::util::comparator::lemma_count_bound;
use crate::util::comparator::is_same;
use crate::util::comparator::sorts_before;
use crate::util::comparator::sorts_same;
use crate::util::comparator::Comparator;
use crate::util::status::Error;
use std::cmp::Ordering;
use vstd::prelude::*;

verus! {

/// The internal key of a record: what its first length prefix delimits.
pub open spec fn record_key(rec: Seq<u8>) -> Seq<u8> {
    length_prefixed_slice(rec).unwrap()
}

/// The offset behind the internal key of a record.
pub open spec fn record_key_end(rec: Seq<u8>) -> nat {
    match decode_varint32(rec) {
        Some((len, size)) => size + len,
        None => 0,
    }
}

/// The value of a record: what its second length prefix delimits.
pub open spec fn record_value(rec: Seq<u8>) -> Seq<u8> {
    length_prefixed_slice(rec.skip(record_key_end(rec) as int)).unwrap()
}

/// Whether `rec` holds an internal key and a value, each behind its length.
pub open spec fn record_ok(rec: Seq<u8>) -> bool {
    &&& length_prefixed_slice(rec).is_some()
    &&& record_key(rec).len() >= 8
    &&& length_prefixed_slice(rec.skip(record_key_end(rec) as int)).is_some()
}

/// The record of a user key, a version, a value type and a value.
pub open spec fn record_bytes(
    user_key: Seq<u8>,
    seq: u64,
    value_type: ValueType,
    value: Seq<u8>,
) -> Seq<u8> {
    length_prefixed(internal_key(user_key, seq, value_type)) + length_prefixed(value)
}

/// The parts of a record are read back from it.
#[verifier::rlimit(60)]
pub proof fn lemma_record_parts(
    user_key: Seq<u8>,
    seq: u64,
    value_type: ValueType,
    value: Seq<u8>,
)
    requires
        seq <= K_MAX_SEQUENCE_NUMBER,
        user_key.len() + 8 <= u32::MAX,
        value.len() <= u32::MAX,
    ensures
        record_ok(record_bytes(user_key, seq, value_type, value)),
        record_key(record_bytes(user_key, seq, value_type, value)) == internal_key(
            user_key,
            seq,
            value_type,
        ),
        record_value(record_bytes(user_key, seq, value_type, value)) == value,
        length_prefixed_slice(lookup_key_bytes(user_key, seq)) == Some(
            internal_key(user_key, seq, ValueType::KTypeValue),
        ),
{
    let ik = internal_key(user_key, seq, value_type);
    let rec = record_bytes(user_key, seq, value_type, value);
    let tail = length_prefixed(value);
    lemma_internal_key_parts(user_key, seq, value_type);
    lemma_internal_key_parts(user_key, seq, ValueType::KTypeValue);
    lemma_length_prefixed_round_trip(ik, tail);
    lemma_decode_encoded32(ik.len() as u32, ik + tail);
    assert(rec =~= varint_bytes(ik.len()) + (ik + tail));
    assert(rec.skip(record_key_end(rec) as int) =~= tail);
    lemma_length_prefixed_round_trip(value, Seq::empty());
    assert(tail + Seq::<u8>::empty() =~= tail);
    let lk = internal_key(user_key, seq, ValueType::KTypeValue);
    lemma_length_prefixed_round_trip(lk, Seq::empty());
    assert(length_prefixed(lk) + Seq::<u8>::empty() =~= length_prefixed(lk));
}

/// Builds the record of a user key, a version, a value type and a value.
pub fn encode_record(s: SequenceNumber, value_type: ValueType, key: &[u8], value: &[u8]) -> (buf:
    Vec<u8>)
    requires
        s <= K_MAX_SEQUENCE_NUMBER,
        key@.len() + 8 <= u32::MAX,
        value@.len() <= u32::MAX,
    ensures
        buf@ == record_bytes(key@, s, value_type, value@),
{
    let internal_key_size = key.len() + 8;
    let mut buf: Vec<u8> = Vec::new();
    put_varint_32(&mut buf, internal_key_size as u32);
    append_bytes(&mut buf, key);
    put_fixed_64(&mut buf, pack_sequence_and_type(s, value_type));
    put_varint_32(&mut buf, value.len() as u32);
    append_bytes(&mut buf, value);
    proof {
        lemma_internal_key_parts(key@, s, value_type);
        assert(buf@ =~= record_bytes(key@, s, value_type, value@));
    }
    buf
}

/// Well-formed records with one more well-formed record among them are
/// well-formed records.
pub proof fn lemma_insert_keeps_records(recs: Seq<Seq<u8>>, q: int, rec: Seq<u8>)
    requires
        0 <= q <= recs.len(),
        record_ok(rec),
        forall|i: int| 0 <= i < recs.len() ==> record_ok(#[trigger] recs[i]),
    ensures
        forall|i: int|
            0 <= i < recs.insert(q, rec).len() ==> record_ok(#[trigger] recs.insert(q, rec)[i]),
{
    let grown = recs.insert(q, rec);
    assert forall|i: int| 0 <= i < grown.len() implies record_ok(#[trigger] grown[i]) by {
        if i < q {
            assert(grown[i] == recs[i]);
        } else if i > q {
            assert(grown[i] == recs[i - 1]);
        }
    }
}

/// Orders records, and lookup keys, by the internal key behind their first
/// length prefix.
#[derive(Clone)]
pub struct KeyComparator<C: Comparator> {
    pub internal: InternalKeyComparator<C>,
}

impl<C: Comparator> KeyComparator<C> {
    /// A length-prefixed internal key is read back from its bytes.
    pub proof fn lemma_prefixed(&self, key: Seq<u8>)
        requires
            key.len() <= u32::MAX,
        ensures
            length_prefixed_slice(length_prefixed(key)) == Some(key),
    {
        lemma_length_prefixed_round_trip(key, Seq::empty());
        assert(length_prefixed(key) + Seq::<u8>::empty() =~= length_prefixed(key));
    }

    /// An internal key that is read from behind a length prefix is at most
    /// `u32::MAX` bytes long.
    pub proof fn lemma_key_len(&self, rec: Seq<u8>)
        requires
            length_prefixed_slice(rec).is_some(),
        ensures
            record_key(rec).len() <= u32::MAX,
    {
    }
}

impl<C: Comparator> Comparator for KeyComparator<C> {
    open spec fn accepts(&self, key: Seq<u8>) -> bool {
        length_prefixed_slice(key).is_some() && self.internal.accepts(record_key(key))
    }

    open spec fn le(&self, a: Seq<u8>, b: Seq<u8>) -> bool {
        self.internal.le(record_key(a), record_key(b))
    }

    proof fn le_total(&self, a: Seq<u8>, b: Seq<u8>) {
        self.internal.le_total(record_key(a), record_key(b));
    }

    proof fn le_transitive(&self, a: Seq<u8>, b: Seq<u8>, c: Seq<u8>) {
        self.internal.le_transitive(record_key(a), record_key(b), record_key(c));
    }

    fn admits(&self, key: &[u8]) -> (r: bool) {
        match length_prefixed_range(key) {
            Some((start, end)) => self.internal.admits(&key[start..end]),
            None => false,
        }
    }

    fn compare(&self, a: &[u8], b: &[u8]) -> (r: Ordering) {
        let ia = extract_length_prefixed_slice(a);
        let ib = extract_length_prefixed_slice(b);
        self.internal.compare(ia, ib)
    }

    fn name() -> (r: String)
        ensures
            r@ == "KeyComparator"@,
    {
        "KeyComparator".to_owned()
    }

    open spec fn separator(&self, start: Seq<u8>, limit: Seq<u8>) -> Seq<u8> {
        let shorter = self.internal.separator(record_key(start), record_key(limit));
        if shorter == record_key(start) {
            start
        } else {
            length_prefixed(shorter)
        }
    }

    open spec fn successor(&self, key: Seq<u8>) -> Seq<u8> {
        length_prefixed(self.internal.successor(record_key(key)))
    }

    proof fn separator_between(&self, start: Seq<u8>, limit: Seq<u8>) {
        let ks = record_key(start);
        let kl = record_key(limit);
        self.internal.separator_between(ks, kl);
        self.internal.lemma_not_longer(ks, kl);
        self.lemma_key_len(start);
        self.lemma_prefixed(self.internal.separator(ks, kl));
    }

    proof fn successor_after(&self, key: Seq<u8>) {
        let k = record_key(key);
        self.internal.successor_after(k);
        self.internal.lemma_not_longer(k, k);
        self.lemma_key_len(key);
        self.lemma_prefixed(self.internal.successor(k));
    }

    fn find_shortest_separator(&self, start: &[u8], limit: &[u8]) -> (r: Vec<u8>) {
        let ia = extract_length_prefixed_slice(start);
        let ib = extract_length_prefixed_slice(limit);
        let shorter = self.internal.find_shortest_separator(ia, ib);
        proof {
            self.internal.lemma_not_longer(ia@, ib@);
            self.lemma_key_len(start@);
        }
        if bytewise_order(shorter.as_slice(), ia) == 0 {
            copy_bytes(start)
        } else {
            let mut r: Vec<u8> = Vec::new();
            put_length_prefixed_slice(&mut r, shorter.as_slice());
            proof {
                assert(Seq::<u8>::empty() + length_prefixed(shorter@) =~= length_prefixed(shorter@));
            }
            r
        }
    }

    fn find_short_successor(&self, key: &[u8]) -> (r: Vec<u8>) {
        let ia = extract_length_prefixed_slice(key);
        let shorter = self.internal.find_short_successor(ia);
        proof {
            self.internal.lemma_not_longer(ia@, ia@);
            self.lemma_key_len(key@);
        }
        let mut r: Vec<u8> = Vec::new();
        put_length_prefixed_slice(&mut r, shorter.as_slice());
        proof {
            assert(Seq::<u8>::empty() + length_prefixed(shorter@) =~= length_prefixed(shorter@));
        }
        r
    }
}

/// What a lookup of `user_key` as of `version` finds among `recs`: the
/// first record at or behind the lookup key, if its user key is the one
/// looked for. A tombstone is reported as `NotFound`.
pub open spec fn lookup<C: Comparator>(
    c: &KeyComparator<C>,
    recs: Seq<Seq<u8>>,
    user_key: Seq<u8>,
    version: u64,
) -> Option<Result<Seq<u8>, Error>> {
    let q = count_before(c, recs, lookup_key_bytes(user_key, version)) as int;
    if q < recs.len() && sorts_same(
        &c.internal.user_comparator,
        user_key_of(record_key(recs[q])),
        user_key,
    ) {
        found_at(recs[q])
    } else {
        None
    }
}

/// What a lookup finds at record `rec`.
pub open spec fn found_at(rec: Seq<u8>) -> Option<Result<Seq<u8>, Error>> {
    match type_of(record_key(rec)) {
        ValueType::KTypeDeletion => Some(Err(Error::NotFound)),
        ValueType::KTypeValue => Some(Ok(record_value(rec))),
    }
}

/// Among strictly increasing records, a lookup of `user_key` as of
/// `version` finds record `j` when that record has the user key looked for
/// and, among the records of that user key, the newest version at or below
/// `version`: its value, or `NotFound` where it is a tombstone.
#[verifier::rlimit(60)]
pub proof fn lemma_lookup_newest<C: Comparator>(
    c: &KeyComparator<C>,
    recs: Seq<Seq<u8>>,
    j: int,
    user_key: Seq<u8>,
    version: u64,
)
    requires
        strictly_sorted(c, recs),
        forall|i: int| 0 <= i < recs.len() ==> c.accepts(#[trigger] recs[i]),
        0 <= j < recs.len(),
        version <= K_MAX_SEQUENCE_NUMBER,
        user_key.len() + 8 <= u32::MAX,
        c.internal.user_comparator.accepts(user_key),
        sorts_same(&c.internal.user_comparator, user_key_of(record_key(recs[j])), user_key),
        sequence_of(record_key(recs[j])) <= version,
        forall|i: int|
            0 <= i < recs.len() && sorts_same(
                &c.internal.user_comparator,
                user_key_of(record_key(#[trigger] recs[i])),
                user_key,
            ) && sequence_of(record_key(recs[i])) <= version ==> sequence_of(record_key(recs[i]))
                <= sequence_of(record_key(recs[j])),
    ensures
        count_before(c, recs, lookup_key_bytes(user_key, version)) == j,
        lookup(c, recs, user_key, version) == found_at(recs[j]),
{
    let u = &c.internal.user_comparator;
    let lk = lookup_key_bytes(user_key, version);
    let ik = internal_key(user_key, version, ValueType::KTypeValue);
    lemma_record_parts(user_key, version, ValueType::KTypeValue, Seq::empty());
    lemma_internal_key_parts(user_key, version, ValueType::KTypeValue);
    assert(record_key(lk) == ik);
    assert(c.accepts(lk));
    let kj = record_key(recs[j]);
    let ukj = user_key_of(kj);
    assert(c.accepts(recs[j]));
    assert(c.le(lk, recs[j]));
    assert forall|i: int| 0 <= i < j implies sorts_before(c, #[trigger] recs[i], lk) by {
        let ki = record_key(recs[i]);
        let uki = user_key_of(ki);
        assert(c.accepts(recs[i]));
        if c.le(lk, recs[i]) {
            c.internal.lemma_le_user_keys(ik, ki);
            assert(sorts_before(c, recs[i], recs[j]));
            c.le_total(recs[i], recs[j]);
            c.internal.lemma_le_user_keys(ki, kj);
            u.le_transitive(uki, ukj, user_key);
            u.le_transitive(ukj, user_key, uki);
            assert(sequence_of(ki) <= version);
            assert(c.internal.le(kj, ki));
        }
    }
    assert forall|i: int| j <= i < recs.len() implies !sorts_before(c, #[trigger] recs[i], lk) by {
        assert(c.accepts(recs[i]));
        if i > j {
            assert(sorts_before(c, recs[j], recs[i]));
            lemma_le_before(c, lk, recs[j], recs[i]);
            c.le_total(lk, recs[i]);
        }
    }
    lemma_count_before(c, recs, lk, j);
}

/// A lookup of a user key that no record has finds nothing.
pub proof fn lemma_lookup_absent<C: Comparator>(
    c: &KeyComparator<C>,
    recs: Seq<Seq<u8>>,
    user_key: Seq<u8>,
    version: u64,
)
    requires
        forall|i: int|
            0 <= i < recs.len() ==> !sorts_same(
                &c.internal.user_comparator,
                user_key_of(record_key(#[trigger] recs[i])),
                user_key,
            ),
    ensures
        lookup(c, recs, user_key, version).is_none(),
{
    let q = count_before(c, recs, lookup_key_bytes(user_key, version)) as int;
    if q < recs.len() {
        assert(!sorts_same(&c.internal.user_comparator, user_key_of(record_key(recs[q])), user_key));
    }
}

/// The in-memory table.
pub struct MemTable<C: Comparator> {
    refs: usize,
    capacity: usize,
    table: SkipList<KeyComparator<C>, BlockArena>,
}

impl<C: Comparator> View for MemTable<C> {
    type V = Seq<Seq<u8>>;

    /// The records, in order.
    closed spec fn view(&self) -> Seq<Seq<u8>> {
        self.table@
    }
}

impl<C: Comparator> MemTable<C> {
    /// The invariant of the table.
    pub closed spec fn wf(&self) -> bool {
        &&& self.table.wf()
        &&& forall|i: int| 0 <= i < self.table@.len() ==> record_ok(#[trigger] self.table@[i])
    }

    /// The order of the records.
    pub closed spec fn order_of(&self) -> KeyComparator<C> {
        self.table.order_of()
    }

    /// The number of references that are held.
    pub closed spec fn references(&self) -> nat {
        self.refs as nat
    }

    /// The size at which the table is meant to be flushed.
    pub closed spec fn max_size(&self) -> nat {
        self.capacity as nat
    }

    /// The bytes that the records take.
    pub closed spec fn bytes(&self) -> nat {
        self.table.key_bytes()
    }

    /// Whether there is room for a record of `len` bytes.
    pub closed spec fn has_room(&self, len: nat) -> bool {
        self.table.has_room(len)
    }

    /// Whether `rec` can go into the table: the order admits it, no record
    /// sorts at its place, and there is room.
    pub open spec fn can_insert(&self, rec: Seq<u8>) -> bool {
        &&& self.order_of().accepts(rec)
        &&& !(exists|i: int|
            0 <= i < self@.len() && sorts_same(&self.order_of(), #[trigger] self@[i], rec))
        &&& self.has_room(rec.len())
    }

    /// A record can go into the table exactly if it can go into the list
    /// that holds the records.
    proof fn lemma_can_insert(&self, rec: Seq<u8>)
        ensures
            self.can_insert(rec) == self.table.can_insert(rec),
    {
        if exists|i: int|
            0 <= i < self@.len() && sorts_same(&self.order_of(), #[trigger] self@[i], rec) {
            let i = choose|i: int|
                0 <= i < self@.len() && sorts_same(&self.order_of(), #[trigger] self@[i], rec);
            assert(sorts_same(&self.table.order_of(), self.table@[i], rec));
        }
        if exists|i: int|
            0 <= i < self.table@.len() && sorts_same(
                &self.table.order_of(),
                #[trigger] self.table@[i],
                rec,
            ) {
            let i = choose|i: int|
                0 <= i < self.table@.len() && sorts_same(
                    &self.table.order_of(),
                    #[trigger] self.table@[i],
                    rec,
                );
            assert(sorts_same(&self.order_of(), self@[i], rec));
        }
    }

    /// The records are well-formed, admitted by the order and strictly
    /// increasing.
    pub proof fn lemma_records(&self)
        requires
            self.wf(),
        ensures
            strictly_sorted(&self.order_of(), self@),
            forall|i: int|
                0 <= i < self@.len() ==> self.order_of().accepts(#[trigger] self@[i]) && record_ok(
                    self@[i],
                ),
    {
        self.table.lemma_view_sorted();
    }

    /// An empty table.
    pub fn new(c: InternalKeyComparator<C>, max_mem_size: usize) -> (r: Self)
        ensures
            r.wf(),
            r@ == Seq::<Seq<u8>>::empty(),
            r.order_of() == (KeyComparator { internal: c }),
            r.references() == 0,
            r.max_size() == max_mem_size,
            r.bytes() == 0,
    {
        let arena = BlockArena::default();
        let table = SkipList::new(KeyComparator { internal: c }, arena);
        Self { refs: 0, capacity: max_mem_size, table }
    }

    /// The size at which the table is meant to be flushed.
    pub fn max_mem_size(&self) -> (r: usize)
        ensures
            r == self.max_size(),
    {
        self.capacity
    }

    /// Counts one more reference.
    pub fn refer(&mut self)
        requires
            old(self).wf(),
            old(self).references() < usize::MAX,
        ensures
            final(self).wf(),
            final(self)@ == old(self)@,
            final(self).order_of() == old(self).order_of(),
            final(self).references() == old(self).references() + 1,
    {
        self.refs += 1;
    }

    /// Counts one reference less.
    pub fn unref(&mut self)
        requires
            old(self).wf(),
            old(self).references() > 0,
        ensures
            final(self).wf(),
            final(self)@ == old(self)@,
            final(self).order_of() == old(self).order_of(),
            final(self).references() == old(self).references() - 1,
    {
        self.refs -= 1;
    }

    /// A cursor over the records, not positioned yet.
    pub fn iter(&self) -> (r: MemTableIterator<'_, C>)
        requires
            self.wf(),
        ensures
            r.wf(),
            r.records() == self@,
            r.order_of() == self.order_of(),
            r.position().is_none(),
    {
        MemTableIterator::new(&self.table)
    }

    /// The bytes that the records take, length prefixes included.
    pub fn approximate_memory_usage(&self) -> (r: usize)
        ensures
            r == self.bytes(),
    {
        self.table.size()
    }

    /// Adds the record of `key`, version `s`, `value_type` and `value`.
    /// Refused with `InvalidArgument`, and nothing changes, when the version
    /// is beyond 56 bits, when key or value is too long for a 32-bit length,
    /// or when the record cannot go into the table.
    #[verifier::rlimit(100)]
    #[verifier::spinoff_prover]
    pub fn add(&mut self, s: SequenceNumber, value_type: ValueType, key: &[u8], value: &[u8]) -> (r:
        Result<(), Error>)
        requires
            old(self).wf(),
        ensures
            final(self).wf(),
            final(self).order_of() == old(self).order_of(),
            final(self).references() == old(self).references(),
            r.is_ok() <==> s <= K_MAX_SEQUENCE_NUMBER && key@.len() + 8 <= u32::MAX && value@.len()
                <= u32::MAX && old(self).can_insert(record_bytes(key@, s, value_type, value@)),
            r.is_ok() ==> final(self)@ == old(self)@.insert(
                count_before(
                    &old(self).order_of(),
                    old(self)@,
                    record_bytes(key@, s, value_type, value@),
                ) as int,
                record_bytes(key@, s, value_type, value@),
            ) && final(self).bytes() == old(self).bytes() + record_bytes(
                key@,
                s,
                value_type,
                value@,
            ).len(),
            r.is_err() ==> r == Err::<(), Error>(Error::InvalidArgument) && final(self)@ == old(self)@ && final(self).bytes() == old(self).bytes(),
    {
        if s > K_MAX_SEQUENCE_NUMBER || key.len() > 0xffff_fff7 || value.len() > 0xffff_ffff {
            return Err(Error::InvalidArgument);
        }
        let buf = encode_record(s, value_type, key, value);
        let ghost before = self.table@;
        proof {
            self.lemma_can_insert(buf@);
        }
        let r = self.table.insert(buf.as_slice());
        proof {
            if r.is_ok() {
                lemma_record_parts(key@, s, value_type, value@);
                let q = count_before(&old(self).table.order_of(), before, buf@);
                lemma_count_bound(&old(self).table.order_of(), before, buf@);
                lemma_insert_keeps_records(before, q as int, buf@);
            }
        }
        r
    }

    /// The value of `key` as of its version: `Some(Ok(..))` with the value
    /// of the newest record at or below the version, `Some(Err(NotFound))`
    /// where that record is a tombstone, `None` where the key has no record
    /// at or below the version or the user's order does not admit it.
    #[verifier::rlimit(60)]
    pub fn get(&self, key: &LookUpKey) -> (r: Option<Result<Vec<u8>, Error>>)
        requires
            self.wf(),
        ensures
            ({
                let found = if self.order_of().internal.user_comparator.accepts(
                    key.user_key_view(),
                ) {
                    lookup(&self.order_of(), self@, key.user_key_view(), key.sequence())
                } else {
                    None
                };
                match r {
                    None => found.is_none(),
                    Some(Err(e)) => found == Some(Err::<Seq<u8>, Error>(e)),
                    Some(Ok(v)) => found == Some(Ok::<Seq<u8>, Error>(v@)),
                }
            }),
    {
        let mem_key = key.memtable_key();
        let user_key = key.user_key();
        let order = self.table.comparator();
        if !order.internal.user_comparator.admits(user_key) {
            return None;
        }
        proof {
            lemma_record_parts(key.user_key_view(), key.sequence(), ValueType::KTypeValue, Seq::empty());
            lemma_internal_key_parts(key.user_key_view(), key.sequence(), ValueType::KTypeValue);
            self.table.lemma_view_sorted();
        }
        let mut iter = SkipListIterator::new(&self.table);
        iter.seek(mem_key);
        if iter.valid() {
            let entry = iter.key();
            let ghost q = count_before(&self.order_of(), self@, mem_key@) as int;
            proof {
                assert(entry@ == self@[q]);
                assert(record_ok(self.table@[q]));
                assert(self.table.order_of().accepts(self.table@[q]));
            }
            match length_prefixed_range(entry) {
                Some((start, end)) => {
                    let ikey = &entry[start..end];
                    let entry_user_key = &ikey[0..ikey.len() - 8];
                    if is_same(&order.internal.user_comparator, entry_user_key, user_key) {
                        let tag = extract_tag(ikey);
                        if tag % 256 == 0 {
                            Some(Err(Error::NotFound))
                        } else {
                            let rest = &entry[end..entry.len()];
                            proof {
                                assert(rest@ =~= entry@.skip(record_key_end(entry@) as int));
                            }
                            Some(Ok(copy_bytes(extract_length_prefixed_slice(rest))))
                        }
                    } else {
                        None
                    }
                },
                None => None,
            }
        } else {
            None
        }
    }
}

/// A cursor over the records of a table.
pub struct MemTableIterator<'a, C: Comparator> {
    iter: SkipListIterator<'a, KeyComparator<C>, BlockArena>,
    tmp: Vec<u8>,
}

impl<'a, C: Comparator> MemTableIterator<'a, C> {
    /// The invariant of a cursor.
    pub closed spec fn wf(&self) -> bool {
        &&& self.iter.wf()
        &&& forall|i: int|
            0 <= i < self.iter.keys().len() ==> record_ok(#[trigger] self.iter.keys()[i])
    }

    /// The records, in order.
    pub closed spec fn records(&self) -> Seq<Seq<u8>> {
        self.iter.keys()
    }

    /// The order of the records.
    pub closed spec fn order_of(&self) -> KeyComparator<C> {
        self.iter.order_of()
    }

    /// The index of the record that the cursor stands on.
    pub closed spec fn position(&self) -> Option<int> {
        self.iter.position()
    }

    /// A position is an index among the records.
    pub proof fn lemma_position(&self)
        requires
            self.wf(),
        ensures
            self.position().is_some() ==> 0 <= self.position().unwrap() < self.records().len(),
    {
        self.iter.lemma_position();
    }

    /// A cursor over the records of `table`, not positioned yet.
    pub fn new(table: &'a SkipList<KeyComparator<C>, BlockArena>) -> (r: Self)
        requires
            table.wf(),
            forall|i: int| 0 <= i < table@.len() ==> record_ok(#[trigger] table@[i]),
        ensures
            r.wf(),
            r.records() == table@,
            r.order_of() == table.order_of(),
            r.position().is_none(),
    {
        let iter = SkipListIterator::new(table);
        Self { iter, tmp: Vec::new() }
    }

    /// Whether the cursor stands on a record.
    pub fn valid(&self) -> (r: bool)
        ensures
            r == self.position().is_some(),
    {
        self.iter.valid()
    }

    /// Moves to the first record.
    pub fn seek_to_first(&mut self)
        requires
            old(self).wf(),
        ensures
            final(self).wf(),
            final(self).records() == old(self).records(),
            final(self).order_of() == old(self).order_of(),
            final(self).position() == if old(self).records().len() > 0 {
                Some(0int)
            } else {
                None
            },
    {
        self.iter.seek_to_first()
    }

    /// Moves to the last record.
    pub fn seek_to_last(&mut self)
        requires
            old(self).wf(),
        ensures
            final(self).wf(),
            final(self).records() == old(self).records(),
            final(self).order_of() == old(self).order_of(),
            final(self).position() == if old(self).records().len() > 0 {
                Some(old(self).records().len() - 1)
            } else {
                None
            },
    {
        self.iter.seek_to_last();
    }

    /// Moves to the next record; behind the last one the cursor is
    /// unpositioned.
    pub fn next(&mut self)
        requires
            old(self).wf(),
            old(self).position().is_some(),
        ensures
            final(self).wf(),
            final(self).records() == old(self).records(),
            final(self).order_of() == old(self).order_of(),
            final(self).position() == if old(self).position().unwrap() + 1 < old(self).records().len() {
                Some(old(self).position().unwrap() + 1)
            } else {
                None
            },
    {
        self.iter.next();
    }

    /// Moves to the record before; before the first one the cursor is
    /// unpositioned.
    pub fn prev(&mut self)
        requires
            old(self).wf(),
            old(self).position().is_some(),
        ensures
            final(self).wf(),
            final(self).records() == old(self).records(),
            final(self).order_of() == old(self).order_of(),
            final(self).position() == if old(self).position().unwrap() > 0 {
                Some(old(self).position().unwrap() - 1)
            } else {
                None
            },
    {
        self.iter.prev();
    }

    /// The internal key of the record that the cursor stands on.
    pub fn key(&self) -> (r: &[u8])
        requires
            self.wf(),
            self.position().is_some(),
        ensures
            r@ == record_key(self.records()[self.position().unwrap()]),
    {
        let key = self.iter.key();
        proof {
            self.iter.lemma_position();
            assert(record_ok(self.iter.keys()[self.position().unwrap()]));
        }
        extract_length_prefixed_slice(key)
    }

    /// The value of the record that the cursor stands on.
    pub fn value(&self) -> (r: &[u8])
        requires
            self.wf(),
            self.position().is_some(),
        ensures
            r@ == record_value(self.records()[self.position().unwrap()]),
    {
        let key = self.iter.key();
        proof {
            self.iter.lemma_position();
            assert(record_ok(self.iter.keys()[self.position().unwrap()]));
        }
        match length_prefixed_range(key) {
            Some((start, end)) => {
                let rest = &key[end..key.len()];
                proof {
                    assert(rest@ =~= key@.skip(record_key_end(key@) as int));
                }
                extract_length_prefixed_slice(rest)
            },
            None => key,
        }
    }

    /// Moves to the first record whose internal key does not sort before
    /// `target`. With a target that is too long for a 32-bit length, or that
    /// the order does not admit, the cursor is unpositioned.
    pub fn seek(&mut self, target: &[u8])
        requires
            old(self).wf(),
        ensures
            final(self).wf(),
            final(self).records() == old(self).records(),
            final(self).order_of() == old(self).order_of(),
            final(self).position() == if target@.len() <= u32::MAX && old(self).order_of().accepts(
                length_prefixed(target@),
            ) && count_before(&old(self).order_of(), old(self).records(), length_prefixed(target@))
                < old(self).records().len() {
                Some(
                    count_before(
                        &old(self).order_of(),
                        old(self).records(),
                        length_prefixed(target@),
                    ) as int,
                )
            } else {
                None
            },
    {
        self.tmp.clear();
        if target.len() > 0xffff_ffff {
            self.iter.seek(self.tmp.as_slice());
            proof {
                assert(length_prefixed_slice(Seq::<u8>::empty()).is_none());
            }
            return ;
        }
        put_length_prefixed_slice(&mut self.tmp, target);
        proof {
            assert(Seq::<u8>::empty() + length_prefixed(target@) =~= length_prefixed(target@));
        }
        self.iter.seek(self.tmp.as_slice());
    }
}

/// The internal keys and values of records, pair by pair.
pub open spec fn pairs_of(recs: Seq<Seq<u8>>) -> Pairs {
    Seq::new(recs.len(), |i: int| (record_key(recs[i]), record_value(recs[i])))
}

impl<'a, C: Comparator> LdbIterator for MemTableIterator<'a, C> {
    open spec fn cursor_wf(&self) -> bool {
        self.wf()
    }

    open spec fn remaining(&self) -> Pairs {
        match self.position() {
            Some(at) => pairs_of(self.records()).skip(at),
            None => Seq::empty(),
        }
    }

    open spec fn same_source(&self, other: &Self) -> bool {
        self.records() == other.records() && self.order_of() == other.order_of()
    }

    open spec fn first_pairs(&self) -> Pairs {
        pairs_of(self.records())
    }

    open spec fn last_pairs(&self) -> Pairs {
        if self.records().len() > 0 {
            pairs_of(self.records()).skip(self.records().len() - 1)
        } else {
            Seq::empty()
        }
    }

    open spec fn can_seek(&self, target: Seq<u8>) -> bool {
        true
    }

    open spec fn sought(&self, target: Seq<u8>, after: &Self) -> bool {
        after.position() == if target.len() <= u32::MAX && self.order_of().accepts(
            length_prefixed(target),
        ) && count_before(&self.order_of(), self.records(), length_prefixed(target))
            < self.records().len() {
            Some(count_before(&self.order_of(), self.records(), length_prefixed(target)) as int)
        } else {
            None
        }
    }

    open spec fn stepped_back(&self, after: &Self) -> bool {
        after.position() == if self.position().unwrap() > 0 {
            Some(self.position().unwrap() - 1)
        } else {
            None
        }
    }

    open spec fn corrupt(&self) -> bool {
        false
    }

    fn valid(&self) -> (r: bool) {
        proof {
            self.lemma_position();
        }
        MemTableIterator::valid(self)
    }

    fn seek_to_first(&mut self)
        ensures
            final(self).position() == if old(self).records().len() > 0 {
                Some(0int)
            } else {
                None
            },
    {
        MemTableIterator::seek_to_first(self);
        proof {
            assert(pairs_of(self.records()).skip(0) =~= pairs_of(self.records()));
            assert(self.remaining() =~= old(self).first_pairs());
        }
    }

    fn seek_to_last(&mut self)
        ensures
            final(self).position() == if old(self).records().len() > 0 {
                Some(old(self).records().len() - 1)
            } else {
                None
            },
    {
        MemTableIterator::seek_to_last(self);
    }

    fn seek(&mut self, target: &[u8]) {
        MemTableIterator::seek(self, target)
    }

    fn next(&mut self)
        ensures
            final(self).position() == if old(self).position().unwrap() + 1 < old(self).records().len() {
                Some(old(self).position().unwrap() + 1)
            } else {
                None
            },
    {
        proof {
            self.lemma_position();
        }
        MemTableIterator::next(self);
        proof {
            let at = old(self).position().unwrap();
            let pairs = pairs_of(self.records());
            assert(pairs.skip(at).drop_first() =~= pairs.skip(at + 1));
            assert(self.remaining() =~= old(self).remaining().drop_first());
        }
    }

    fn key(&self) -> (r: &[u8]) {
        proof {
            self.lemma_position();
        }
        MemTableIterator::key(self)
    }

    fn value(&self) -> (r: &[u8]) {
        proof {
            self.lemma_position();
        }
        MemTableIterator::value(self)
    }

    fn prev(&mut self) {
        MemTableIterator::prev(self)
    }

    fn status(&self) -> (r: Result<(), Error>) {
        Ok(())
    }
}

} // verus!
