//! Total orders over byte strings, and the bytewise one.

use std::cmp::Ordering;
use vstd::prelude::*;

verus! {

/// A total preorder over byte strings, with the two key-shortening helpers
/// that index builders use.
pub trait Comparator {
    /// The byte strings that this order is defined on.
    spec fn accepts(&self, key: Seq<u8>) -> bool;

    /// `a` sorts at or before `b`.
    spec fn le(&self, a: Seq<u8>, b: Seq<u8>) -> bool;

    /// Any two keys are comparable.
    proof fn le_total(&self, a: Seq<u8>, b: Seq<u8>)
        requires
            self.accepts(a),
            self.accepts(b),
        ensures
            self.le(a, b) || self.le(b, a),
    ;

    /// The order is transitive.
    proof fn le_transitive(&self, a: Seq<u8>, b: Seq<u8>, c: Seq<u8>)
        requires
            self.accepts(a),
            self.accepts(b),
            self.accepts(c),
            self.le(a, b),
            self.le(b, c),
        ensures
            self.le(a, c),
    ;

    /// Whether this order is defined on `key`.
    fn admits(&self, key: &[u8]) -> (r: bool)
        ensures
            r == self.accepts(key@),
    ;

    /// Three-way comparison.
    fn compare(&self, a: &[u8], b: &[u8]) -> (r: Ordering)
        requires
            self.accepts(a@),
            self.accepts(b@),
        ensures
            (r == Ordering::Less) <==> !self.le(b@, a@),
            (r == Ordering::Greater) <==> !self.le(a@, b@),
    ;

    /// The name of the order.
    fn name() -> String;

    /// The key that `find_shortest_separator` gives for `start` and `limit`.
    spec fn separator(&self, start: Seq<u8>, limit: Seq<u8>) -> Seq<u8>;

    /// The key that `find_short_successor` gives for `key`.
    spec fn successor(&self, key: Seq<u8>) -> Seq<u8>;

    /// The separator lies at or after `start`; it lies before `limit` when
    /// `start` does, and is `start` itself when `start` does not.
    proof fn separator_between(&self, start: Seq<u8>, limit: Seq<u8>)
        requires
            self.accepts(start),
            self.accepts(limit),
        ensures
            self.accepts(self.separator(start, limit)),
            self.le(start, self.separator(start, limit)),
            !self.le(limit, start) ==> !self.le(limit, self.separator(start, limit)),
            self.le(limit, start) ==> self.separator(start, limit) == start,
    ;

    /// The successor lies at or after `key`.
    proof fn successor_after(&self, key: Seq<u8>)
        requires
            self.accepts(key),
        ensures
            self.accepts(self.successor(key)),
            self.le(key, self.successor(key)),
    ;

    /// A short key in the range from `start` up to, and without, `limit`;
    /// `start` itself where the range is empty or nothing shorter is safe.
    fn find_shortest_separator(&self, start: &[u8], limit: &[u8]) -> (r: Vec<u8>)
        requires
            self.accepts(start@),
            self.accepts(limit@),
        ensures
            r@ == self.separator(start@, limit@),
    ;

    /// A short key at or after `key`; `key` itself where nothing shorter is
    /// safe.
    fn find_short_successor(&self, key: &[u8]) -> (r: Vec<u8>)
        requires
            self.accepts(key@),
        ensures
            r@ == self.successor(key@),
    ;
}

/// `a` sorts strictly before `b`.
pub open spec fn sorts_before<C: Comparator>(c: &C, a: Seq<u8>, b: Seq<u8>) -> bool {
    !c.le(b, a)
}

/// `a` and `b` sort at the same place.
pub open spec fn sorts_same<C: Comparator>(c: &C, a: Seq<u8>, b: Seq<u8>) -> bool {
    c.le(a, b) && c.le(b, a)
}

/// Whether `a` sorts strictly before `b`.
pub fn is_before<C: Comparator>(c: &C, a: &[u8], b: &[u8]) -> (r: bool)
    requires
        c.accepts(a@),
        c.accepts(b@),
    ensures
        r == sorts_before(c, a@, b@),
{
    match c.compare(a, b) {
        Ordering::Less => true,
        _ => false,
    }
}

/// Whether `a` and `b` sort at the same place.
pub fn is_same<C: Comparator>(c: &C, a: &[u8], b: &[u8]) -> (r: bool)
    requires
        c.accepts(a@),
        c.accepts(b@),
    ensures
        r == sorts_same(c, a@, b@),
{
    match c.compare(a, b) {
        Ordering::Equal => true,
        _ => false,
    }
}

/// `a` before `b` and `b` at or before `d` put `a` before `d`.
pub proof fn lemma_before_le<C: Comparator>(c: &C, a: Seq<u8>, b: Seq<u8>, d: Seq<u8>)
    requires
        c.accepts(a),
        c.accepts(b),
        c.accepts(d),
        sorts_before(c, a, b),
        c.le(b, d),
    ensures
        sorts_before(c, a, d),
{
    if c.le(d, a) {
        c.le_transitive(b, d, a);
    }
}

/// `a` at or before `b` and `b` before `d` put `a` before `d`.
pub proof fn lemma_le_before<C: Comparator>(c: &C, a: Seq<u8>, b: Seq<u8>, d: Seq<u8>)
    requires
        c.accepts(a),
        c.accepts(b),
        c.accepts(d),
        c.le(a, b),
        sorts_before(c, b, d),
    ensures
        sorts_before(c, a, d),
{
    if c.le(d, a) {
        c.le_transitive(d, a, b);
    }
}

/// The number of keys of `keys` that sort before `key`.
pub open spec fn count_before<C: Comparator>(c: &C, keys: Seq<Seq<u8>>, key: Seq<u8>) -> nat
    decreases keys.len(),
{
    if keys.len() == 0 {
        0
    } else {
        count_before(c, keys.drop_last(), key) + if sorts_before(c, keys.last(), key) {
            1nat
        } else {
            0nat
        }
    }
}

/// Whether `keys` is strictly increasing.
pub open spec fn strictly_sorted<C: Comparator>(c: &C, keys: Seq<Seq<u8>>) -> bool {
    forall|i: int, j: int| 0 <= i < j < keys.len() ==> sorts_before(c, keys[i], keys[j])
}

/// Where the first `q` keys sort before `key` and the others do not, `q`
/// keys sort before `key`.
pub proof fn lemma_count_before<C: Comparator>(c: &C, keys: Seq<Seq<u8>>, key: Seq<u8>, q: int)
    requires
        0 <= q <= keys.len(),
        forall|i: int| 0 <= i < q ==> sorts_before(c, #[trigger] keys[i], key),
        forall|i: int| q <= i < keys.len() ==> !sorts_before(c, #[trigger] keys[i], key),
    ensures
        count_before(c, keys, key) == q,
    decreases keys.len(),
{
    if keys.len() > 0 {
        let front = keys.drop_last();
        let q1 = if q == keys.len() {
            q - 1
        } else {
            q
        };
        assert forall|i: int| 0 <= i < q1 implies sorts_before(c, #[trigger] front[i], key) by {
            assert(front[i] == keys[i]);
        }
        assert forall|i: int| q1 <= i < front.len() implies !sorts_before(
            c,
            #[trigger] front[i],
            key,
        ) by {
            assert(front[i] == keys[i]);
        }
        lemma_count_before(c, front, key, q1);
        assert(keys.last() == keys[keys.len() - 1]);
    }
}

/// No more keys sort before a key than there are.
pub proof fn lemma_count_bound<C: Comparator>(c: &C, keys: Seq<Seq<u8>>, key: Seq<u8>)
    ensures
        count_before(c, keys, key) <= keys.len(),
    decreases keys.len(),
{
    if keys.len() > 0 {
        lemma_count_bound(c, keys.drop_last(), key);
    }
}

/// Lexicographic order on bytes; a proper prefix sorts first.
pub open spec fn bytes_le(a: Seq<u8>, b: Seq<u8>) -> bool
    decreases a.len(),
{
    if a.len() == 0 {
        true
    } else if b.len() == 0 {
        false
    } else if a[0] != b[0] {
        a[0] < b[0]
    } else {
        bytes_le(a.drop_first(), b.drop_first())
    }
}

/// The length of the longest common prefix of `a` and `b`.
pub open spec fn common_prefix_len(a: Seq<u8>, b: Seq<u8>) -> nat
    decreases a.len(),
{
    if a.len() == 0 || b.len() == 0 || a[0] != b[0] {
        0
    } else {
        1 + common_prefix_len(a.drop_first(), b.drop_first())
    }
}

/// The bytewise separator: `start` cut behind the first byte in which it
/// differs from `limit`, with that byte raised by one, where that stays below
/// `limit`; else `start` itself.
pub open spec fn shortest_separator(start: Seq<u8>, limit: Seq<u8>) -> Seq<u8> {
    let d = common_prefix_len(start, limit) as int;
    if d < start.len() && d < limit.len() && start[d] < 255 && start[d] + 1 < limit[d] {
        start.subrange(0, d).push((start[d] + 1) as u8)
    } else {
        start
    }
}

/// The bytewise successor: `key` cut behind its first byte that is not 255,
/// with that byte raised by one; `key` itself when every byte is 255.
pub open spec fn short_successor(key: Seq<u8>) -> Seq<u8>
    decreases key.len(),
{
    if key.len() == 0 {
        key
    } else if key[0] != 255 {
        seq![(key[0] + 1) as u8]
    } else {
        seq![255u8] + short_successor(key.drop_first())
    }
}

/// What the common prefix says about the order of two byte strings.
pub proof fn lemma_common_prefix(a: Seq<u8>, b: Seq<u8>)
    ensures
        common_prefix_len(a, b) <= a.len(),
        common_prefix_len(a, b) <= b.len(),
        a.subrange(0, common_prefix_len(a, b) as int) == b.subrange(
            0,
            common_prefix_len(a, b) as int,
        ),
        common_prefix_len(a, b) < a.len() && common_prefix_len(a, b) < b.len() ==> a[common_prefix_len(
            a,
            b,
        ) as int] != b[common_prefix_len(a, b) as int] && (bytes_le(a, b) <==> a[common_prefix_len(
            a,
            b,
        ) as int] < b[common_prefix_len(a, b) as int]),
        common_prefix_len(a, b) == a.len() ==> bytes_le(a, b),
        common_prefix_len(a, b) == b.len() && common_prefix_len(a, b) < a.len() ==> !bytes_le(
            a,
            b,
        ),
    decreases a.len(),
{
    let d = common_prefix_len(a, b) as int;
    if a.len() == 0 || b.len() == 0 || a[0] != b[0] {
        assert(a.subrange(0, 0) =~= b.subrange(0, 0));
    } else {
        lemma_common_prefix(a.drop_first(), b.drop_first());
        let a1 = a.drop_first();
        let b1 = b.drop_first();
        assert(a.subrange(0, d) =~= seq![a[0]] + a1.subrange(0, d - 1));
        assert(b.subrange(0, d) =~= seq![b[0]] + b1.subrange(0, d - 1));
    }
}

/// A length up to which two byte strings agree, and at which they differ or
/// one of them ends, is the length of their common prefix.
pub proof fn lemma_common_prefix_unique(a: Seq<u8>, b: Seq<u8>, d: int)
    requires
        0 <= d <= a.len(),
        d <= b.len(),
        forall|j: int| 0 <= j < d ==> a[j] == b[j],
        d == a.len() || d == b.len() || a[d] != b[d],
    ensures
        common_prefix_len(a, b) == d,
    decreases a.len(),
{
    if d > 0 {
        let a1 = a.drop_first();
        let b1 = b.drop_first();
        assert forall|j: int| 0 <= j < d - 1 implies a1[j] == b1[j] by {
            assert(a[j + 1] == b[j + 1]);
        }
        lemma_common_prefix_unique(a1, b1, d - 1);
    }
}

/// The common prefix of two byte strings does not depend on their order.
pub proof fn lemma_common_prefix_swap(a: Seq<u8>, b: Seq<u8>)
    ensures
        common_prefix_len(a, b) == common_prefix_len(b, a),
    decreases a.len(),
{
    if !(a.len() == 0 || b.len() == 0 || a[0] != b[0]) {
        lemma_common_prefix_swap(a.drop_first(), b.drop_first());
    }
}

/// Every byte string sorts at or before itself.
pub proof fn lemma_bytes_le_reflexive(a: Seq<u8>)
    ensures
        bytes_le(a, a),
    decreases a.len(),
{
    if a.len() > 0 {
        lemma_bytes_le_reflexive(a.drop_first());
    }
}

/// Any two byte strings are comparable.
pub proof fn lemma_bytes_le_total(a: Seq<u8>, b: Seq<u8>)
    ensures
        bytes_le(a, b) || bytes_le(b, a),
    decreases a.len(),
{
    if a.len() > 0 && b.len() > 0 && a[0] == b[0] {
        lemma_bytes_le_total(a.drop_first(), b.drop_first());
    }
}

/// The bytewise order is transitive.
pub proof fn lemma_bytes_le_transitive(a: Seq<u8>, b: Seq<u8>, c: Seq<u8>)
    requires
        bytes_le(a, b),
        bytes_le(b, c),
    ensures
        bytes_le(a, c),
    decreases a.len(),
{
    if a.len() > 0 && b.len() > 0 && c.len() > 0 && a[0] == b[0] && b[0] == c[0] {
        lemma_bytes_le_transitive(a.drop_first(), b.drop_first(), c.drop_first());
    }
}

/// Two byte strings that sort at the same place are the same string.
pub proof fn lemma_bytes_le_antisymmetric(a: Seq<u8>, b: Seq<u8>)
    requires
        bytes_le(a, b),
        bytes_le(b, a),
    ensures
        a == b,
    decreases a.len(),
{
    if a.len() > 0 && b.len() > 0 {
        lemma_bytes_le_antisymmetric(a.drop_first(), b.drop_first());
        assert(a =~= seq![a[0]] + a.drop_first());
        assert(b =~= seq![b[0]] + b.drop_first());
    } else {
        assert(a =~= b);
    }
}

/// Two byte strings that agree on their first `d` bytes are ordered as their
/// remainders are.
pub proof fn lemma_bytes_le_skip(a: Seq<u8>, b: Seq<u8>, d: int)
    requires
        0 <= d <= a.len(),
        d <= b.len(),
        forall|j: int| 0 <= j < d ==> a[j] == b[j],
    ensures
        bytes_le(a, b) == bytes_le(a.skip(d), b.skip(d)),
    decreases d,
{
    if d == 0 {
        assert(a.skip(0) =~= a);
        assert(b.skip(0) =~= b);
    } else {
        let a1 = a.drop_first();
        let b1 = b.drop_first();
        assert(a[0] == b[0]);
        assert forall|j: int| 0 <= j < d - 1 implies a1[j] == b1[j] by {
            assert(a[j + 1] == b[j + 1]);
        }
        lemma_bytes_le_skip(a1, b1, d - 1);
        assert(a1.skip(d - 1) =~= a.skip(d));
        assert(b1.skip(d - 1) =~= b.skip(d));
    }
}

/// The bytewise separator lies at or after `start` and, when `start` sorts
/// before `limit`, before `limit`.
#[verifier::rlimit(60)]
pub proof fn lemma_shortest_separator(start: Seq<u8>, limit: Seq<u8>)
    ensures
        bytes_le(start, shortest_separator(start, limit)),
        !bytes_le(limit, start) ==> !bytes_le(limit, shortest_separator(start, limit)),
        bytes_le(limit, start) ==> shortest_separator(start, limit) == start,
        shortest_separator(start, limit).len() <= start.len(),
{
    lemma_common_prefix(limit, start);
    lemma_common_prefix_swap(start, limit);
    let r = shortest_separator(start, limit);
    let d = common_prefix_len(start, limit) as int;
    lemma_common_prefix(start, limit);
    lemma_bytes_le_reflexive(start);
    if r != start {
        assert forall|j: int| 0 <= j < d implies start[j] == r[j] by {}
        lemma_bytes_le_skip(start, r, d);
        let s1 = start.skip(d);
        let r1 = r.skip(d);
        assert(s1[0] == start[d]);
        assert(r1[0] == start[d] + 1);
        assert(bytes_le(s1, r1));
        assert forall|j: int| 0 <= j < d implies limit[j] == r[j] by {
            assert(start.subrange(0, d)[j] == limit.subrange(0, d)[j]);
        }
        lemma_bytes_le_skip(limit, r, d);
        let l1 = limit.skip(d);
        assert(l1[0] == limit[d]);
        assert(!bytes_le(l1, r1));
    }
}

/// The bytewise successor lies at or after `key` and is no longer than it.
pub proof fn lemma_short_successor(key: Seq<u8>)
    ensures
        bytes_le(key, short_successor(key)),
        short_successor(key).len() <= key.len(),
    decreases key.len(),
{
    if key.len() == 0 {
    } else if key[0] != 255 {
    } else {
        lemma_short_successor(key.drop_first());
        let r = short_successor(key);
        assert(r.drop_first() =~= short_successor(key.drop_first()));
    }
}

/// The length of the longest common prefix of `a` and `b`.
pub fn shared_prefix_len(a: &[u8], b: &[u8]) -> (d: usize)
    ensures
        d == common_prefix_len(a@, b@),
        d <= a@.len(),
        d <= b@.len(),
{
    let mut d: usize = 0;
    while d < a.len() && d < b.len() && a[d] == b[d]
        invariant
            d <= a@.len(),
            d <= b@.len(),
            forall|j: int| 0 <= j < d ==> a@[j] == b@[j],
        decreases a@.len() - d,
    {
        d += 1;
    }
    proof {
        lemma_common_prefix_unique(a@, b@, d as int);
    }
    d
}

/// The first `n` bytes of `key`, the last of them raised by one.
fn bumped_prefix(key: &[u8], n: usize) -> (r: Vec<u8>)
    requires
        n < key@.len(),
        key@[n as int] < 255,
    ensures
        r@ == key@.subrange(0, n as int).push((key@[n as int] + 1) as u8),
{
    let mut r = crate::util::coding::copy_bytes(&key[0..n]);
    r.push(key[n] + 1);
    r
}

/// The bytewise successor of `key`.
pub fn bytewise_successor(key: &[u8]) -> (r: Vec<u8>)
    ensures
        r@ == short_successor(key@),
{
    let mut i: usize = 0;
    while i < key.len() && key[i] == 255
        invariant
            i <= key@.len(),
            forall|j: int| 0 <= j < i ==> key@[j] == 255,
        decreases key@.len() - i,
    {
        i += 1;
    }
    proof {
        lemma_successor_at(key@, i as int);
    }
    if i < key.len() {
        bumped_prefix(key, i)
    } else {
        crate::util::coding::copy_bytes(key)
    }
}

/// The successor of a key whose first `i` bytes are 255.
proof fn lemma_successor_at(key: Seq<u8>, i: int)
    requires
        0 <= i <= key.len(),
        forall|j: int| 0 <= j < i ==> key[j] == 255,
        i < key.len() ==> key[i] != 255,
    ensures
        i < key.len() ==> short_successor(key) == key.subrange(0, i).push((key[i] + 1) as u8),
        i == key.len() ==> short_successor(key) == key,
    decreases key.len(),
{
    if key.len() == 0 {
    } else if i == 0 {
        assert(key.subrange(0, 0).push((key[0] + 1) as u8) =~= seq![(key[0] + 1) as u8]);
    } else {
        let k1 = key.drop_first();
        assert forall|j: int| 0 <= j < i - 1 implies k1[j] == 255 by {
            assert(key[j + 1] == 255);
        }
        lemma_successor_at(k1, i - 1);
        if i < key.len() {
            assert(seq![255u8] + k1.subrange(0, i - 1).push((k1[i - 1] + 1) as u8) =~= key.subrange(
                0,
                i,
            ).push((key[i] + 1) as u8));
        } else {
            assert(seq![255u8] + k1 =~= key);
        }
    }
}

/// The bytewise separator of `start` and `limit`.
pub fn bytewise_separator(start: &[u8], limit: &[u8]) -> (r: Vec<u8>)
    ensures
        r@ == shortest_separator(start@, limit@),
{
    let d = shared_prefix_len(start, limit);
    if d < start.len() && d < limit.len() && start[d] < 255 && start[d] + 1 < limit[d] {
        bumped_prefix(start, d)
    } else {
        crate::util::coding::copy_bytes(start)
    }
}

/// The order of two byte strings: -1, 0 or 1 as `a` sorts before, with or
/// after `b`.
#[verifier::rlimit(60)]
pub fn bytewise_order(a: &[u8], b: &[u8]) -> (r: i8)
    ensures
        -1 <= r <= 1,
        r == -1 <==> !bytes_le(b@, a@),
        r == 1 <==> !bytes_le(a@, b@),
        r == 0 <==> a@ == b@,
{
    let d = shared_prefix_len(a, b);
    proof {
        lemma_common_prefix(a@, b@);
        assert forall|j: int| 0 <= j < d implies b@[j] == a@[j] by {
            assert(a@.subrange(0, d as int)[j] == b@.subrange(0, d as int)[j]);
        }
        lemma_common_prefix_unique(b@, a@, d as int);
        lemma_common_prefix(b@, a@);
        lemma_bytes_le_total(a@, b@);
        if bytes_le(a@, b@) && bytes_le(b@, a@) {
            lemma_bytes_le_antisymmetric(a@, b@);
        }
        lemma_bytes_le_reflexive(a@);
    }
    if d < a.len() && d < b.len() {
        if a[d] < b[d] {
            -1
        } else {
            1
        }
    } else if a.len() < b.len() {
        -1
    } else if a.len() > b.len() {
        1
    } else {
        0
    }
}

/// Lexicographic order on bytes.
#[derive(Default, Clone, Copy)]
pub struct BytewiseComparator {}

impl Comparator for BytewiseComparator {
    open spec fn accepts(&self, key: Seq<u8>) -> bool {
        true
    }

    open spec fn le(&self, a: Seq<u8>, b: Seq<u8>) -> bool {
        bytes_le(a, b)
    }

    proof fn le_total(&self, a: Seq<u8>, b: Seq<u8>) {
        lemma_bytes_le_total(a, b);
    }

    proof fn le_transitive(&self, a: Seq<u8>, b: Seq<u8>, c: Seq<u8>) {
        lemma_bytes_le_transitive(a, b, c);
    }

    fn name() -> (r: String)
        ensures
            r@ == "leveldb.BytewiseComparator"@,
    {
        "leveldb.BytewiseComparator".to_owned()
    }

    fn admits(&self, key: &[u8]) -> (r: bool) {
        true
    }

    fn compare(&self, a: &[u8], b: &[u8]) -> (r: Ordering)
        ensures
            (r == Ordering::Equal) <==> a@ == b@,
    {
        let o = bytewise_order(a, b);
        if o < 0 {
            Ordering::Less
        } else if o > 0 {
            Ordering::Greater
        } else {
            Ordering::Equal
        }
    }

    open spec fn separator(&self, start: Seq<u8>, limit: Seq<u8>) -> Seq<u8> {
        shortest_separator(start, limit)
    }

    open spec fn successor(&self, key: Seq<u8>) -> Seq<u8> {
        short_successor(key)
    }

    proof fn separator_between(&self, start: Seq<u8>, limit: Seq<u8>) {
        lemma_shortest_separator(start, limit);
    }

    proof fn successor_after(&self, key: Seq<u8>) {
        lemma_short_successor(key);
    }

    fn find_shortest_separator(&self, start: &[u8], limit: &[u8]) -> (r: Vec<u8>) {
        bytewise_separator(start, limit)
    }

    fn find_short_successor(&self, key: &[u8]) -> (r: Vec<u8>) {
        bytewise_successor(key)
    }
}

} // verus!
