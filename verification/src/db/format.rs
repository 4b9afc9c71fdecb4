//! Internal keys: a user key followed by an eight-byte tag that packs the
//! sequence number and the value type, and the order on them.

use crate::db::SequenceNumber;
use crate::util::coding::append_bytes;
use crate::util::coding::copy_bytes;
use crate::util::coding::decode_fixed_64;
use crate::util::coding::fixed64_bytes;
use crate::util::coding::le_value;
use crate::util::coding::lemma_fixed64_value;
use crate::util::coding::length_prefixed;
use crate::util::coding::put_fixed_64;
use crate::util::coding::put_varint_32;
use crate::util::coding::varint_bytes;
use crate::util::comparator::is_before;
use crate::util::comparator::sorts_before;
use crate::util::comparator::Comparator;
use crate::util::status::Error;
use std::cmp::Ordering;
use vstd::prelude::*;

verus! {

/// Whether a record carries a value or marks a deletion.
#[derive(Debug, Clone, Copy, PartialEq, Eq, Structural)]
pub enum ValueType {
    /// A tombstone; stored as 0.
    KTypeDeletion,
    /// A value; stored as 1.
    KTypeValue,
}

impl ValueType {
    /// The byte that stands for the type in a tag.
    pub open spec fn code(self) -> u8 {
        match self {
            ValueType::KTypeDeletion => 0,
            ValueType::KTypeValue => 1,
        }
    }

    /// The byte that stands for the type in a tag.
    pub fn to_u8(self) -> (r: u8)
        ensures
            r == self.code(),
    {
        match self {
            ValueType::KTypeDeletion => 0,
            ValueType::KTypeValue => 1,
        }
    }
}

/// The type that the low byte of a tag stands for.
pub open spec fn value_type_of(code: nat) -> ValueType {
    if code % 256 == 0 {
        ValueType::KTypeDeletion
    } else {
        ValueType::KTypeValue
    }
}

impl From<u8> for ValueType {
    fn from(x: u8) -> (r: Self) {
        if x == 0 {
            ValueType::KTypeDeletion
        } else {
            ValueType::KTypeValue
        }
    }
}

impl vstd::std_specs::convert::FromSpecImpl<u8> for ValueType {
    open spec fn obeys_from_spec() -> bool {
        true
    }

    open spec fn from_spec(x: u8) -> Self {
        if x == 0 {
            ValueType::KTypeDeletion
        } else {
            ValueType::KTypeValue
        }
    }
}

impl From<u64> for ValueType {
    fn from(x: u64) -> (r: Self) {
        if x % 256 == 0 {
            ValueType::KTypeDeletion
        } else {
            ValueType::KTypeValue
        }
    }
}

impl vstd::std_specs::convert::FromSpecImpl<u64> for ValueType {
    open spec fn obeys_from_spec() -> bool {
        true
    }

    open spec fn from_spec(x: u64) -> Self {
        if x % 256 == 0 {
            ValueType::KTypeDeletion
        } else {
            ValueType::KTypeValue
        }
    }
}

/// The type written into the tag of a key that is only used to seek.
pub const VALUE_TYPE_FOR_SEEK: ValueType = ValueType::KTypeValue;

/// The largest sequence number: 56 bits.
pub const K_MAX_SEQUENCE_NUMBER: u64 = 0x00ff_ffff_ffff_ffff;

/// The tag of a sequence number and a value type: the number in the upper 56
/// bits, the type in the low byte.
pub open spec fn pack_tag(seq: u64, value_type: ValueType) -> u64 {
    (seq * 256 + value_type.code()) as u64
}

/// All of an internal key but its tag.
pub open spec fn user_key_of(ikey: Seq<u8>) -> Seq<u8> {
    ikey.subrange(0, ikey.len() - 8)
}

/// The tag of an internal key: its last eight bytes as a little-endian
/// integer.
pub open spec fn tag_of(ikey: Seq<u8>) -> nat {
    le_value(ikey.subrange(ikey.len() - 8, ikey.len() as int))
}

/// The sequence number in the tag of an internal key.
pub open spec fn sequence_of(ikey: Seq<u8>) -> nat {
    tag_of(ikey) / 256
}

/// The value type in the tag of an internal key.
pub open spec fn type_of(ikey: Seq<u8>) -> ValueType {
    value_type_of(tag_of(ikey) % 256)
}

/// The internal key of a user key, a sequence number and a value type.
pub open spec fn internal_key(user_key: Seq<u8>, seq: u64, value_type: ValueType) -> Seq<u8> {
    user_key + fixed64_bytes(pack_tag(seq, value_type))
}

/// The key under which a lookup of `user_key` as of `seq` seeks.
pub open spec fn lookup_key_bytes(user_key: Seq<u8>, seq: u64) -> Seq<u8> {
    length_prefixed(internal_key(user_key, seq, ValueType::KTypeValue))
}

/// The parts of an internal key are read back from it.
pub proof fn lemma_internal_key_parts(user_key: Seq<u8>, seq: u64, value_type: ValueType)
    requires
        seq <= K_MAX_SEQUENCE_NUMBER,
    ensures
        internal_key(user_key, seq, value_type).len() == user_key.len() + 8,
        user_key_of(internal_key(user_key, seq, value_type)) == user_key,
        tag_of(internal_key(user_key, seq, value_type)) == pack_tag(seq, value_type),
        sequence_of(internal_key(user_key, seq, value_type)) == seq,
        type_of(internal_key(user_key, seq, value_type)) == value_type,
{
    let tag = pack_tag(seq, value_type);
    let k = internal_key(user_key, seq, value_type);
    lemma_fixed64_value(tag);
    assert(k.subrange(0, k.len() - 8) =~= user_key);
    assert(k.subrange(k.len() - 8, k.len() as int) =~= fixed64_bytes(tag));
}

/// Packs a sequence number and a value type into a tag.
pub fn pack_sequence_and_type(seq: u64, value_type: ValueType) -> (r: u64)
    requires
        seq <= K_MAX_SEQUENCE_NUMBER,
    ensures
        r == pack_tag(seq, value_type),
        r == seq * 256 + value_type.code(),
{
    let code: u64 = value_type.to_u8() as u64;
    assert(seq << 8 | code == seq * 256 + code) by (bit_vector)
        requires
            seq <= 0x00ff_ffff_ffff_ffff,
            code <= 1,
    ;
    seq << 8 | code
}

/// Appends the internal key of `key` to `dst`.
pub fn append_Internal_key(dst: &mut Vec<u8>, key: &ParsedInteralKey)
    requires
        key.sequence <= K_MAX_SEQUENCE_NUMBER,
    ensures
        final(dst)@ == old(dst)@ + internal_key(key.user_key@, key.sequence, key.value_type),
{
    append_bytes(dst, key.user_key);
    put_fixed_64(dst, pack_sequence_and_type(key.sequence, key.value_type));
    proof {
        assert(old(dst)@ + key.user_key@ + fixed64_bytes(pack_tag(key.sequence, key.value_type))
            =~= old(dst)@ + internal_key(key.user_key@, key.sequence, key.value_type));
    }
}

/// All of an internal key but its tag.
pub fn extract_user_key(key: &[u8]) -> (r: &[u8])
    requires
        key@.len() >= 8,
    ensures
        r@ == user_key_of(key@),
{
    let size = key.len();
    &key[0..size - 8]
}

/// The tag of an internal key.
pub fn extract_tag(key: &[u8]) -> (r: u64)
    requires
        key@.len() >= 8,
    ensures
        r == tag_of(key@),
{
    let size = key.len();
    let tail = &key[size - 8..size];
    proof {
        assert(tail@.subrange(0, 8) =~= tail@);
    }
    decode_fixed_64(tail)
}

/// An internal key taken apart.
pub struct ParsedInteralKey<'a> {
    pub user_key: &'a [u8],
    pub sequence: SequenceNumber,
    pub value_type: ValueType,
}

/// A user key with its tag, as one byte string.
#[derive(Clone, Debug, PartialEq, Eq)]
pub struct InternalKey {
    rep: Vec<u8>,
}

impl<'a> ParsedInteralKey<'a> {
    pub fn new(key: &'a [u8], seq: SequenceNumber, value_type: ValueType) -> (r: ParsedInteralKey<
        'a,
    >)
        ensures
            r.user_key@ == key@,
            r.sequence == seq,
            r.value_type == value_type,
    {
        ParsedInteralKey { user_key: key, sequence: seq, value_type }
    }

    /// The parts of an internal key of at least eight bytes.
    pub fn from(internal_key: &'a InternalKey) -> (r: ParsedInteralKey<'a>)
        requires
            internal_key@.len() >= 8,
        ensures
            r.user_key@ == user_key_of(internal_key@),
            r.sequence == sequence_of(internal_key@),
            r.value_type == type_of(internal_key@),
    {
        ParsedInteralKey::decode_from(internal_key.data()).unwrap()
    }

    /// The parts of the internal key in `slice`; `None` when it is too short
    /// to hold a tag.
    pub fn decode_from(slice: &'a [u8]) -> (r: Option<ParsedInteralKey<'a>>)
        ensures
            match r {
                Some(p) => slice@.len() >= 8 && p.user_key@ == user_key_of(slice@) && p.sequence
                    == sequence_of(slice@) && p.value_type == type_of(slice@),
                None => slice@.len() < 8,
            },
    {
        let len = slice.len();
        if len < 8 {
            return None;
        }
        let num = extract_tag(slice);
        let value_type = if num % 256 == 0 {
            ValueType::KTypeDeletion
        } else {
            ValueType::KTypeValue
        };
        Some(ParsedInteralKey { user_key: extract_user_key(slice), sequence: num / 256, value_type })
    }

    /// The length of the internal key that these parts make.
    pub fn internal_key_encoding_length(&self) -> (r: usize)
        requires
            self.user_key@.len() + 8 <= usize::MAX,
        ensures
            r == self.user_key@.len() + 8,
    {
        self.user_key.len() + 8
    }

    /// The user key.
    pub fn user_key(&self) -> (r: &'a [u8])
        ensures
            r@ == self.user_key@,
    {
        self.user_key
    }
}

impl Default for InternalKey {
    fn default() -> (r: Self)
        ensures
            r@ == Seq::<u8>::empty(),
    {
        InternalKey { rep: Vec::new() }
    }
}

impl View for InternalKey {
    type V = Seq<u8>;

    closed spec fn view(&self) -> Seq<u8> {
        self.rep@
    }
}

impl InternalKey {
    /// The internal key of a user key, a sequence number within 56 bits and
    /// a value type.
    pub fn new(key: &[u8], seq: SequenceNumber, value_type: ValueType) -> (r: Self)
        requires
            seq <= K_MAX_SEQUENCE_NUMBER,
        ensures
            r@ == internal_key(key@, seq, value_type),
    {
        let mut v = copy_bytes(key);
        put_fixed_64(&mut v, pack_sequence_and_type(seq, value_type));
        InternalKey::decode_from(v.as_slice())
    }

    /// The internal key of a user key, a sequence number and a value type;
    /// a sequence number beyond 56 bits is refused.
    pub fn try_new(key: &[u8], seq: SequenceNumber, value_type: ValueType) -> (r: Result<
        Self,
        Error,
    >)
        ensures
            match r {
                Ok(k) => seq <= K_MAX_SEQUENCE_NUMBER && k@ == internal_key(key@, seq, value_type),
                Err(e) => seq > K_MAX_SEQUENCE_NUMBER && e == Error::InvalidArgument,
            },
    {
        if seq > K_MAX_SEQUENCE_NUMBER {
            Err(Error::InvalidArgument)
        } else {
            Ok(InternalKey::new(key, seq, value_type))
        }
    }

    /// An internal key from its bytes.
    pub fn decode_from(src: &[u8]) -> (r: Self)
        ensures
            r@ == src@,
    {
        InternalKey { rep: copy_bytes(src) }
    }

    /// The bytes of the key.
    pub fn data(&self) -> (r: &[u8])
        ensures
            r@ == self@,
    {
        self.rep.as_slice()
    }

    /// The bytes of the key.
    pub fn encode(&self) -> (r: &[u8])
        ensures
            r@ == self@,
    {
        self.rep.as_slice()
    }

    /// All of the key but its tag.
    pub fn user_key(&self) -> (r: &[u8])
        requires
            self@.len() >= 8,
        ensures
            r@ == user_key_of(self@),
    {
        extract_user_key(self.rep.as_slice())
    }

    /// Empties the key.
    pub fn clear(&mut self)
        ensures
            final(self)@ == Seq::<u8>::empty(),
    {
        self.rep.clear();
    }

    /// The parts of the key; `None` when it is too short to hold a tag.
    pub fn parse(&self) -> (r: Option<ParsedInteralKey<'_>>)
        ensures
            match r {
                Some(p) => self@.len() >= 8 && p.user_key@ == user_key_of(self@) && p.sequence
                    == sequence_of(self@) && p.value_type == type_of(self@),
                None => self@.len() < 8,
            },
    {
        ParsedInteralKey::decode_from(self.rep.as_slice())
    }
}

/// Orders internal keys by user key, ascending under the user's order, and
/// for the same user key by sequence number, descending.
#[derive(Clone)]
pub struct InternalKeyComparator<C: Comparator> {
    pub user_comparator: C,
}

impl<C: Comparator> InternalKeyComparator<C> {
    pub fn new(user_comparator: C) -> (r: Self)
        ensures
            r.user_comparator == user_comparator,
    {
        InternalKeyComparator { user_comparator }
    }

    /// The tag with the largest sequence number, as bytes.
    pub open spec fn max_tag_bytes() -> Seq<u8> {
        fixed64_bytes(pack_tag(K_MAX_SEQUENCE_NUMBER, ValueType::KTypeValue))
    }

    /// Neither the separator nor the successor is longer than the key that
    /// it stands for.
    pub proof fn lemma_not_longer(&self, start: Seq<u8>, limit: Seq<u8>)
        requires
            start.len() >= 8,
        ensures
            self.separator(start, limit).len() <= start.len(),
            self.successor(start).len() <= start.len(),
    {
    }

    /// What the user keys say about the order of two internal keys.
    pub proof fn lemma_le_user_keys(&self, a: Seq<u8>, b: Seq<u8>)
        requires
            self.accepts(a),
            self.accepts(b),
        ensures
            self.le(a, b) ==> self.user_comparator.le(user_key_of(a), user_key_of(b)),
            sorts_before(&self.user_comparator, user_key_of(a), user_key_of(b)) ==> self.le(a, b)
                && !self.le(b, a),
            self.le(a, a),
    {
        self.user_comparator.le_total(user_key_of(a), user_key_of(b));
        self.user_comparator.le_total(user_key_of(a), user_key_of(a));
    }
}

impl<C: Comparator> Comparator for InternalKeyComparator<C> {
    open spec fn accepts(&self, key: Seq<u8>) -> bool {
        key.len() >= 8 && self.user_comparator.accepts(user_key_of(key))
    }

    open spec fn le(&self, a: Seq<u8>, b: Seq<u8>) -> bool {
        sorts_before(&self.user_comparator, user_key_of(a), user_key_of(b)) || (
        self.user_comparator.le(user_key_of(a), user_key_of(b)) && sequence_of(a) >= sequence_of(
            b,
        ))
    }

    proof fn le_total(&self, a: Seq<u8>, b: Seq<u8>) {
        self.user_comparator.le_total(user_key_of(a), user_key_of(b));
    }

    #[verifier::rlimit(60)]
    proof fn le_transitive(&self, a: Seq<u8>, b: Seq<u8>, c: Seq<u8>) {
        let u = &self.user_comparator;
        let ua = user_key_of(a);
        let ub = user_key_of(b);
        let uc = user_key_of(c);
        u.le_total(ua, ub);
        u.le_total(ub, uc);
        u.le_transitive(ua, ub, uc);
        if u.le(uc, ua) {
            u.le_transitive(uc, ua, ub);
            u.le_transitive(ub, uc, ua);
        }
    }

    fn compare(&self, a: &[u8], b: &[u8]) -> (r: Ordering) {
        let ua = extract_user_key(a);
        let ub = extract_user_key(b);
        proof {
            self.user_comparator.le_total(ua@, ub@);
        }
        match self.user_comparator.compare(ua, ub) {
            Ordering::Less => Ordering::Less,
            Ordering::Equal => {
                let anum = extract_tag(a) / 256;
                let bnum = extract_tag(b) / 256;
                if bnum < anum {
                    Ordering::Less
                } else if bnum > anum {
                    Ordering::Greater
                } else {
                    Ordering::Equal
                }
            },
            _ => Ordering::Greater,
        }
    }

    fn name() -> (r: String)
        ensures
            r@ == "leveldb.InternalKeyComparator"@,
    {
        "leveldb.InternalKeyComparator".to_owned()
    }

    fn admits(&self, key: &[u8]) -> (r: bool) {
        key.len() >= 8 && self.user_comparator.admits(extract_user_key(key))
    }

    open spec fn separator(&self, start: Seq<u8>, limit: Seq<u8>) -> Seq<u8> {
        let user_start = user_key_of(start);
        let shorter = self.user_comparator.separator(user_start, user_key_of(limit));
        if shorter.len() < user_start.len() && sorts_before(
            &self.user_comparator,
            user_start,
            shorter,
        ) {
            shorter + Self::max_tag_bytes()
        } else {
            start
        }
    }

    open spec fn successor(&self, key: Seq<u8>) -> Seq<u8> {
        let user_key = user_key_of(key);
        let shorter = self.user_comparator.successor(user_key);
        if shorter.len() < user_key.len() && sorts_before(&self.user_comparator, user_key, shorter) {
            shorter + Self::max_tag_bytes()
        } else {
            key
        }
    }

    #[verifier::rlimit(60)]
    proof fn separator_between(&self, start: Seq<u8>, limit: Seq<u8>) {
        let u = &self.user_comparator;
        let us = user_key_of(start);
        let ul = user_key_of(limit);
        let shorter = u.separator(us, ul);
        let r = self.separator(start, limit);
        u.separator_between(us, ul);
        u.le_total(us, ul);
        u.le_total(us, us);
        if r != start {
            assert(user_key_of(r) =~= shorter);
            u.le_total(ul, shorter);
        }
    }

    proof fn successor_after(&self, key: Seq<u8>) {
        let u = &self.user_comparator;
        let uk = user_key_of(key);
        let shorter = u.successor(uk);
        let r = self.successor(key);
        u.successor_after(uk);
        u.le_total(uk, uk);
        if r != key {
            assert(user_key_of(r) =~= shorter);
        }
    }

    fn find_shortest_separator(&self, start: &[u8], limit: &[u8]) -> (r: Vec<u8>) {
        let user_start = extract_user_key(start);
        let user_limit = extract_user_key(limit);
        let mut shorter = self.user_comparator.find_shortest_separator(user_start, user_limit);
        proof {
            self.user_comparator.separator_between(user_start@, user_limit@);
        }
        if shorter.len() < user_start.len() && is_before(
            &self.user_comparator,
            user_start,
            shorter.as_slice(),
        ) {
            put_fixed_64(
                &mut shorter,
                pack_sequence_and_type(K_MAX_SEQUENCE_NUMBER, ValueType::KTypeValue),
            );
            shorter
        } else {
            copy_bytes(start)
        }
    }

    fn find_short_successor(&self, key: &[u8]) -> (r: Vec<u8>) {
        let user_key = extract_user_key(key);
        let mut shorter = self.user_comparator.find_short_successor(user_key);
        proof {
            self.user_comparator.successor_after(user_key@);
        }
        if shorter.len() < user_key.len() && is_before(
            &self.user_comparator,
            user_key,
            shorter.as_slice(),
        ) {
            put_fixed_64(
                &mut shorter,
                pack_sequence_and_type(K_MAX_SEQUENCE_NUMBER, ValueType::KTypeValue),
            );
            shorter
        } else {
            copy_bytes(key)
        }
    }
}

/// The key of a lookup: the length of the internal key as a varint, the user
/// key, and the tag of the version looked for.
pub struct LookUpKey {
    space: Vec<u8>,
    kstart: usize,
}

impl View for LookUpKey {
    type V = Seq<u8>;

    /// The whole key, length prefix included.
    closed spec fn view(&self) -> Seq<u8> {
        self.space@
    }
}

impl LookUpKey {
    #[verifier::type_invariant]
    spec fn inv(self) -> bool {
        &&& self.kstart + 8 <= self.space@.len()
        &&& self.space@.len() - self.kstart <= u32::MAX
        &&& sequence_of(self.space@) <= K_MAX_SEQUENCE_NUMBER
        &&& self.space@ == lookup_key_bytes(
            self.space@.subrange(self.kstart as int, self.space@.len() - 8),
            sequence_of(self.space@) as u64,
        )
        &&& self.kstart == varint_bytes((self.space@.len() - self.kstart) as nat).len()
    }

    /// The user key looked for.
    pub closed spec fn user_key_view(&self) -> Seq<u8> {
        self.space@.subrange(self.kstart as int, self.space@.len() - 8)
    }

    /// The version looked for.
    pub closed spec fn sequence(&self) -> u64 {
        sequence_of(self.space@) as u64
    }

    /// The key as the in-memory table stores keys: with its length prefix.
    pub fn memtable_key(&self) -> (r: &[u8])
        ensures
            r@ == self@,
            self@ == lookup_key_bytes(self.user_key_view(), self.sequence()),
            self.sequence() <= K_MAX_SEQUENCE_NUMBER,
            self.user_key_view().len() + 8 <= u32::MAX,
    {
        proof {
            use_type_invariant(self);
        }
        self.space.as_slice()
    }

    /// The key without its length prefix.
    pub fn internal_key(&self) -> (r: &[u8])
        ensures
            r@ == internal_key(self.user_key_view(), self.sequence(), ValueType::KTypeValue),
    {
        proof {
            use_type_invariant(self);
            let ik = internal_key(self.user_key_view(), self.sequence(), ValueType::KTypeValue);
            assert(self.space@.subrange(self.kstart as int, self.space@.len() as int) =~= ik);
        }
        &self.space[self.kstart..self.space.len()]
    }

    /// The user key.
    pub fn user_key(&self) -> (r: &[u8])
        ensures
            r@ == self.user_key_view(),
    {
        proof {
            use_type_invariant(self);
        }
        &self.space[self.kstart..self.space.len() - 8]
    }

    /// The key of a lookup of `user_key` as of version `s`.
    #[verifier::rlimit(60)]
    pub fn new(user_key: &[u8], s: SequenceNumber) -> (r: LookUpKey)
        requires
            s <= K_MAX_SEQUENCE_NUMBER,
            user_key@.len() + 8 <= u32::MAX,
        ensures
            r@ == lookup_key_bytes(user_key@, s),
            r.user_key_view() == user_key@,
            r.sequence() == s,
    {
        let mut space: Vec<u8> = Vec::new();
        put_varint_32(&mut space, (user_key.len() + 8) as u32);
        let kstart = space.len();
        append_bytes(&mut space, user_key);
        put_fixed_64(&mut space, pack_sequence_and_type(s, ValueType::KTypeValue));
        proof {
            let ik = internal_key(user_key@, s, ValueType::KTypeValue);
            let tag = fixed64_bytes(pack_tag(s, ValueType::KTypeValue));
            lemma_internal_key_parts(user_key@, s, ValueType::KTypeValue);
            assert(space@ =~= lookup_key_bytes(user_key@, s));
            assert(space@.subrange(kstart as int, space@.len() - 8) =~= user_key@);
            assert(space@.subrange(space@.len() - 8, space@.len() as int) =~= ik.subrange(
                ik.len() - 8,
                ik.len() as int,
            ));
        }
        LookUpKey { space, kstart }
    }

    /// The key of a lookup of `user_key` as of version `s`; a version beyond
    /// 56 bits or a key too long for its length prefix is refused.
    pub fn try_new(user_key: &[u8], s: SequenceNumber) -> (r: Result<LookUpKey, Error>)
        ensures
            match r {
                Ok(k) => s <= K_MAX_SEQUENCE_NUMBER && user_key@.len() + 8 <= u32::MAX && k@
                    == lookup_key_bytes(user_key@, s) && k.user_key_view() == user_key@
                    && k.sequence() == s,
                Err(e) => e == Error::InvalidArgument && (s > K_MAX_SEQUENCE_NUMBER
                    || user_key@.len() + 8 > u32::MAX),
            },
    {
        if s > K_MAX_SEQUENCE_NUMBER || user_key.len() > 0xffff_fff7 {
            Err(Error::InvalidArgument)
        } else {
            Ok(LookUpKey::new(user_key, s))
        }
    }
}

} // verus!
