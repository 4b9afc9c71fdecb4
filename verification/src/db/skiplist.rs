//! An ordered index of byte strings: a skip list whose nodes live in a slab
//! and refer to each other by index.
//!
//! Node 0 is the head: it has no key and a link at every level. A link of 0
//! stands for "no successor", since nothing ever links to the head.

use crate::util::arena::ArenaTrait;
use crate::util::arena::Handle;
use crate::util::arena::BLOCK_SIZE;
use crate::util::comparator::count_before;
use crate::util::comparator::is_before;
use crate::util::comparator::lemma_before_le;
use crate::util::comparator::lemma_count_before;
use crate::util::comparator::lemma_le_before;
use crate::util::comparator::strictly_sorted;
use crate::util::comparator::is_same;
use crate::util::comparator::sorts_before;
use crate::util::comparator::sorts_same;
use crate::util::comparator::Comparator;
use crate::util::status::Error;
use bytes::Bytes;
use rand::Rng;
use vstd::prelude::*;

verus! {

/// The largest number of levels of a node.
pub const MAX_HEIGHT: usize = 12;

/// `Bytes` of bytes: an immutable byte string. Nothing of its inside is
/// visible here.
#[verifier::external_type_specification]
#[verifier::external_body]
pub struct ExBytes(bytes::Bytes);

/// The bytes that a `Bytes` value holds.
pub uninterp spec fn bytes_view(b: Bytes) -> Seq<u8>;

/// Calls `Bytes::copy_from_slice` of bytes: the result holds a copy of
/// `data`.
#[verifier::external_body]
fn bytes_from_slice(data: &[u8]) -> (r: Bytes)
    ensures
        bytes_view(r) == data@,
{
    Bytes::copy_from_slice(data)
}

/// Calls `Bytes::as_ref` of bytes: the result is the bytes that `b` holds.
#[verifier::external_body]
fn bytes_as_slice(b: &Bytes) -> (r: &[u8])
    ensures
        r@ == bytes_view(*b),
{
    b.as_ref()
}

/// Calls `Bytes::new` of bytes: the result holds no bytes.
#[verifier::external_body]
fn bytes_empty() -> (r: Bytes)
    ensures
        bytes_view(r) == Seq::<u8>::empty(),
{
    Bytes::new()
}

/// Calls `Rng::gen_range` of rand on the generator of the thread: the
/// result lies in the range from `low` up to, and without, `high`.
#[verifier::external_body]
fn random_in_range(low: usize, high: usize) -> (r: usize)
    requires
        low < high,
    ensures
        low <= r < high,
{
    rand::thread_rng().gen_range(low, high)
}

/// A height for a new node: 1 with probability one half, and each further
/// level half as likely as the one below, below `MAX_HEIGHT`.
pub fn random_height() -> (h: usize)
    ensures
        1 <= h < MAX_HEIGHT,
{
    height_of_draw(random_in_range(0, HEIGHT_DRAWS))
}

/// The number of draws that heights are made from: one for every pattern of
/// `MAX_HEIGHT - 2` bits.
pub const HEIGHT_DRAWS: usize = 1024;

/// The levels that a draw adds to the first: one for each of its low bits
/// that is zero, up to the first bit that is one and to `cap` at most.
pub open spec fn extra_levels(draw: nat, cap: nat) -> nat
    decreases cap,
{
    if cap == 0 || draw % 2 == 1 {
        0
    } else {
        1 + extra_levels(draw / 2, (cap - 1) as nat)
    }
}

/// The height that a draw gives: 1 for an odd draw, one more for every low
/// bit that is zero, and `MAX_HEIGHT - 1` at most.
pub open spec fn draw_height(draw: nat) -> nat {
    1 + extra_levels(draw, (MAX_HEIGHT - 2) as nat)
}

/// The height that a draw gives. Of the draws below `HEIGHT_DRAWS` one half
/// gives 1, and each further height half as many as the one below.
pub fn height_of_draw(draw: usize) -> (h: usize)
    ensures
        h == draw_height(draw as nat),
        1 <= h < MAX_HEIGHT,
{
    let mut h: usize = 1;
    let mut rest: usize = draw;
    while h + 1 < MAX_HEIGHT && rest % 2 == 0
        invariant
            1 <= h < MAX_HEIGHT,
            h + extra_levels(rest as nat, (MAX_HEIGHT - 1 - h) as nat) == draw_height(draw as nat),
        decreases MAX_HEIGHT - h,
    {
        rest = rest / 2;
        h += 1;
    }
    h
}

/// A node: its key, the number of its levels, and its place in the arena.
pub struct Node {
    key: Bytes,
    height: usize,
    slot: Handle,
}

/// A skip list of unique keys, ordered by a comparator.
pub struct SkipList<C: Comparator, A: ArenaTrait> {
    max_height: usize,
    head: usize,
    arena: A,
    comparator: C,
    size: usize,
    count: usize,
    nodes: Vec<Node>,
    links: Vec<usize>,
    order: Ghost<Seq<int>>,
    rank: Ghost<Seq<int>>,
}

impl<C: Comparator, A: ArenaTrait> View for SkipList<C, A> {
    type V = Seq<Seq<u8>>;

    /// The keys, in order.
    closed spec fn view(&self) -> Seq<Seq<u8>> {
        Seq::new((self.nodes@.len() - 1) as nat, |i: int| self.key_of(self.order@[i + 1]))
    }
}

impl<C: Comparator, A: ArenaTrait> SkipList<C, A> {
    /// The key of node `x`.
    pub closed spec fn key_of(&self, x: int) -> Seq<u8> {
        bytes_view(self.nodes@[x].key)
    }

    /// The successor of node `x` at level `l`, counted from 0; 0 for none.
    pub closed spec fn link(&self, x: int, l: int) -> usize {
        self.links@[x * 12 + l]
    }

    /// The order of the keys.
    pub closed spec fn order_of(&self) -> C {
        self.comparator
    }

    /// The sum of the lengths of the keys.
    pub closed spec fn key_bytes(&self) -> nat {
        self.size as nat
    }

    /// Whether there is room for one more key of `len` bytes.
    pub closed spec fn has_room(&self, len: nat) -> bool {
        &&& self.size + len <= usize::MAX
        &&& self.arena.used() + 16 * 14 + BLOCK_SIZE <= usize::MAX
    }

    /// Whether `key` can go into the list: the order admits it, no key of
    /// the list sorts at its place, and there is room.
    pub open spec fn can_insert(&self, key: Seq<u8>) -> bool {
        &&& self.order_of().accepts(key)
        &&& !(exists|i: int|
            0 <= i < self@.len() && sorts_same(&self.order_of(), #[trigger] self@[i], key))
        &&& self.has_room(key.len())
    }

    /// A link leads to a node further on that has the link's level.
    pub closed spec fn link_ok(&self, x: int, l: int) -> bool {
        let next = self.link(x, l);
        next == 0 || (0 < next < self.nodes@.len() && self.rank@[next as int] > self.rank@[x] && l
            < self.nodes@[next as int].height)
    }

    /// Node `y` is the last node before place `p` at level `l`.
    pub closed spec fn pred_ok(&self, y: int, l: int, p: int) -> bool {
        &&& 0 <= y < self.nodes@.len()
        &&& self.rank@[y] < p
        &&& l < self.nodes@[y].height
        &&& self.link(y, l) == 0 || self.rank@[self.link(y, l) as int] >= p
    }

    /// The nodes before place `p` sort before `key`, the others do not.
    pub closed spec fn splits_at(&self, p: int, key: Seq<u8>) -> bool {
        &&& 1 <= p <= self.nodes@.len()
        &&& forall|i: int|
            1 <= i < p ==> sorts_before(&self.comparator, #[trigger] self.key_of(self.order@[i]), key)
        &&& forall|i: int|
            p <= i < self.nodes@.len() ==> !sorts_before(
                &self.comparator,
                #[trigger] self.key_of(self.order@[i]),
                key,
            )
    }

    /// The node at place `p`; 0 behind the last.
    pub closed spec fn node_at(&self, p: int) -> usize {
        if p < self.nodes@.len() {
            self.order@[p] as usize
        } else {
            0
        }
    }

    /// The invariant of the list.
    pub closed spec fn wf(&self) -> bool {
        let n = self.nodes@.len() as int;
        &&& n >= 1
        &&& self.head == 0
        &&& self.links@.len() == n * 12
        &&& self.order@.len() == n
        &&& self.rank@.len() == n
        &&& self.order@[0] == 0
        &&& self.rank@[0] == 0
        &&& forall|i: int|
            0 <= i < n ==> 0 <= #[trigger] self.order@[i] < n && self.rank@[self.order@[i]] == i
        &&& forall|x: int|
            0 <= x < n ==> 0 <= #[trigger] self.rank@[x] < n && self.order@[self.rank@[x]] == x
        &&& 1 <= self.max_height <= 12
        &&& self.nodes@[0].height == 12
        &&& forall|x: int| 0 <= x < n ==> 1 <= (#[trigger] self.nodes@[x]).height <= 12
        &&& forall|x: int| 1 <= x < n ==> (#[trigger] self.nodes@[x]).height <= self.max_height
        &&& forall|l: int| self.max_height <= l < 12 ==> #[trigger] self.link(0, l) == 0
        &&& forall|x: int, l: int|
            0 <= x < n && 0 <= l < self.nodes@[x].height ==> #[trigger] self.link_ok(x, l)
        &&& forall|i: int|
            0 <= i < n ==> #[trigger] self.link(self.order@[i], 0) == if i + 1 < n {
                self.order@[i + 1] as usize
            } else {
                0usize
            }
        &&& forall|i: int|
            1 <= i < n ==> self.comparator.accepts(#[trigger] self.key_of(self.order@[i]))
        &&& forall|i: int, j: int|
            1 <= i < j < n ==> sorts_before(
                &self.comparator,
                #[trigger] self.key_of(self.order@[i]),
                #[trigger] self.key_of(self.order@[j]),
            )
        &&& self.count == n - 1
        &&& self.arena.wf()
    }

    /// The keys are admitted by the order and strictly increasing.
    pub proof fn lemma_view_sorted(&self)
        requires
            self.wf(),
        ensures
            strictly_sorted(&self.order_of(), self@),
            forall|i: int| 0 <= i < self@.len() ==> self.order_of().accepts(#[trigger] self@[i]),
    {
        assert forall|i: int, j: int| 0 <= i < j < self@.len() implies sorts_before(
            &self.comparator,
            self@[i],
            self@[j],
        ) by {
            assert(self@[i] == self.key_of(self.order@[i + 1]));
            assert(self@[j] == self.key_of(self.order@[j + 1]));
        }
        assert forall|i: int| 0 <= i < self@.len() implies self.comparator.accepts(
            #[trigger] self@[i],
        ) by {
            assert(self@[i] == self.key_of(self.order@[i + 1]));
        }
    }

    /// A node other than the head has a key that the order admits.
    proof fn lemma_node(&self, x: int)
        requires
            self.wf(),
            1 <= x < self.nodes@.len(),
        ensures
            self.comparator.accepts(self.key_of(x)),
            1 <= self.rank@[x] < self.nodes@.len(),
            self.order@[self.rank@[x]] == x,
    {
        let r = self.rank@[x];
        assert(self.order@[r] == x);
        if r == 0 {
            assert(self.order@[0] == 0);
        }
        assert(self.comparator.accepts(self.key_of(self.order@[r])));
    }

    /// Of two nodes other than the head, the one with the lower rank has
    /// the key that sorts first.
    proof fn lemma_rank_order(&self, x: int, y: int)
        requires
            self.wf(),
            1 <= x < self.nodes@.len(),
            1 <= y < self.nodes@.len(),
            self.rank@[x] < self.rank@[y],
        ensures
            sorts_before(&self.comparator, self.key_of(x), self.key_of(y)),
    {
        self.lemma_node(x);
        self.lemma_node(y);
        let i = self.rank@[x];
        let j = self.rank@[y];
        assert(sorts_before(
            &self.comparator,
            self.key_of(self.order@[i]),
            self.key_of(self.order@[j]),
        ));
    }

    /// What a search that ends at level 0 has found.
    #[verifier::rlimit(60)]
    proof fn lemma_search_end(&self, key: Seq<u8>, x: int)
        requires
            self.wf(),
            self.comparator.accepts(key),
            0 <= x < self.nodes@.len(),
            x == 0 || sorts_before(&self.comparator, self.key_of(x), key),
            self.link(x, 0) == 0 || !sorts_before(
                &self.comparator,
                self.key_of(self.link(x, 0) as int),
                key,
            ),
        ensures
            self.splits_at(self.rank@[x] + 1, key),
            self.link(x, 0) == self.node_at(self.rank@[x] + 1),
    {
        let c = &self.comparator;
        let n = self.nodes@.len() as int;
        let r = self.rank@[x];
        let p = r + 1;
        assert(self.order@[r] == x);
        assert(self.link(self.order@[r], 0) == self.node_at(p));
        assert forall|i: int| 1 <= i < p implies sorts_before(
            c,
            #[trigger] self.key_of(self.order@[i]),
            key,
        ) by {
            let y = self.order@[i];
            assert(self.rank@[y] == i);
            if i < r {
                self.lemma_rank_order(y, x);
                self.lemma_node(x);
                self.lemma_node(y);
                c.le_total(self.key_of(x), key);
                lemma_before_le(c, self.key_of(y), self.key_of(x), key);
            }
        }
        assert forall|i: int| p <= i < n implies !sorts_before(
            c,
            #[trigger] self.key_of(self.order@[i]),
            key,
        ) by {
            let first = self.order@[p];
            let y = self.order@[i];
            assert(self.rank@[first] == p);
            assert(self.rank@[y] == i);
            assert(first == self.link(x, 0));
            if i > p {
                self.lemma_rank_order(first, y);
                self.lemma_node(first);
                self.lemma_node(y);
                c.le_total(self.key_of(first), key);
                lemma_le_before(c, key, self.key_of(first), self.key_of(y));
                c.le_total(self.key_of(y), key);
            }
        }
    }

    /// A node whose key sorts before `key` stands before the place where
    /// `key` splits the list; a node whose key does not, at or behind it.
    proof fn lemma_split_rank(&self, key: Seq<u8>, p: int, y: int)
        requires
            self.wf(),
            self.splits_at(p, key),
            0 <= y < self.nodes@.len(),
        ensures
            y == 0 || sorts_before(&self.comparator, self.key_of(y), key) ==> self.rank@[y] < p,
            y != 0 && !sorts_before(&self.comparator, self.key_of(y), key) ==> self.rank@[y] >= p,
    {
        let r = self.rank@[y];
        assert(self.order@[r] == y);
        if y != 0 {
            self.lemma_node(y);
            assert(self.key_of(self.order@[r]) == self.key_of(y));
        }
    }

    /// An empty list.
    pub fn new(c: C, arena: A) -> (r: Self)
        requires
            arena.wf(),
        ensures
            r.wf(),
            r@ == Seq::<Seq<u8>>::empty(),
            r.order_of() == c,
            r.key_bytes() == 0,
    {
        let mut nodes: Vec<Node> = Vec::new();
        nodes.push(Node { key: bytes_empty(), height: MAX_HEIGHT, slot: Handle { block: 0, offset: 0 } });
        let mut links: Vec<usize> = Vec::new();
        let mut l: usize = 0;
        while l < MAX_HEIGHT
            invariant
                l <= MAX_HEIGHT,
                links@.len() == l,
                forall|j: int| 0 <= j < l ==> links@[j] == 0,
            decreases MAX_HEIGHT - l,
        {
            links.push(0);
            l += 1;
        }
        let ghost start = seq![0int];
        let r = SkipList {
            max_height: 1,
            head: 0,
            arena,
            comparator: c,
            size: 0,
            count: 0,
            nodes,
            links,
            order: Ghost(start),
            rank: Ghost(start),
        };
        proof {
            assert(r@ =~= Seq::<Seq<u8>>::empty());
        }
        r
    }

    /// The key of node `x`.
    fn key(&self, x: usize) -> (r: &[u8])
        requires
            x < self.nodes@.len(),
        ensures
            r@ == self.key_of(x as int),
    {
        bytes_as_slice(&self.nodes[x].key)
    }

    /// The successor of node `x` at level `level`, counted from 1.
    fn next(&self, x: usize, level: usize) -> (r: usize)
        requires
            self.wf(),
            x < self.nodes@.len(),
            1 <= level <= 12,
        ensures
            r == self.link(x as int, level - 1),
    {
        let total = self.links.len();
        assert(x * 12 + 12 <= total);
        self.links[x * MAX_HEIGHT + level - 1]
    }

    /// Whether `key` sorts behind the key of `node`; nothing sorts behind
    /// "no node".
    fn key_is_after_node(&self, key: &[u8], node: usize) -> (r: bool)
        requires
            self.wf(),
            self.comparator.accepts(key@),
            node < self.nodes@.len(),
        ensures
            r == (node != 0 && sorts_before(&self.comparator, self.key_of(node as int), key@)),
    {
        if node == 0 {
            false
        } else {
            proof {
                self.lemma_node(node as int);
            }
            is_before(&self.comparator, self.key(node), key)
        }
    }

    /// The first node whose key does not sort before `key`, 0 if there is
    /// none, and the place of that node. `prev` gets, for each level in
    /// use, the last node before that place.
    #[verifier::rlimit(60)]
    fn find_greater_or_equal(&self, key: &[u8], prev: &mut Vec<usize>) -> (r: (usize, Ghost<int>))
        requires
            self.wf(),
            self.comparator.accepts(key@),
            old(prev)@.len() == 12,
        ensures
            final(prev)@.len() == 12,
            self.splits_at(r.1@, key@),
            r.0 == self.node_at(r.1@),
            r.0 < self.nodes@.len(),
            forall|l: int|
                0 <= l < self.max_height ==> #[trigger] self.pred_ok(
                    final(prev)@[l] as int,
                    l,
                    r.1@,
                ),
            forall|l: int| self.max_height <= l < 12 ==> final(prev)@[l] == old(prev)@[l],
            self.rank@[final(prev)@[0] as int] == r.1@ - 1,
    {
        let c = &self.comparator;
        let mut level: usize = self.max_height;
        let mut x: usize = 0;
        let ghost n = self.nodes@.len() as int;
        loop
            invariant_except_break
                1 <= level <= self.max_height,
            invariant
                self.wf(),
                n == self.nodes@.len(),
                self.comparator.accepts(key@),
                x < n,
                prev@.len() == 12,
                x == 0 || sorts_before(&self.comparator, self.key_of(x as int), key@),
                level >= 1 ==> level - 1 < self.nodes@[x as int].height,
                forall|l: int|
                    level <= l < self.max_height ==> {
                        let y = #[trigger] prev@[l];
                        &&& y < n
                        &&& y == 0 || sorts_before(&self.comparator, self.key_of(y as int), key@)
                        &&& l < self.nodes@[y as int].height
                        &&& self.link(y as int, l) == 0 || !sorts_before(
                            &self.comparator,
                            self.key_of(self.link(y as int, l) as int),
                            key@,
                        )
                    },
                forall|l: int| self.max_height <= l < 12 ==> prev@[l] == old(prev)@[l],
            ensures
                level == 0,
                prev@[0] == x,
            decreases level, n - self.rank@[x as int],
        {
            let next = self.next(x, level);
            proof {
                assert(self.link_ok(x as int, level - 1));
            }
            if self.key_is_after_node(key, next) {
                x = next;
            } else {
                prev[level - 1] = x;
                level -= 1;
                if level == 0 {
                    break ;
                }
            }
        }
        let next = self.next(x, 1);
        let ghost p = self.rank@[x as int] + 1;
        proof {
            assert(self.link_ok(x as int, 0));
            self.lemma_search_end(key@, x as int);
            assert forall|l: int| 0 <= l < self.max_height implies #[trigger] self.pred_ok(
                prev@[l] as int,
                l,
                p,
            ) by {
                let y = prev@[l];
                self.lemma_split_rank(key@, p, y as int);
                assert(self.link_ok(y as int, l));
                if self.link(y as int, l) != 0 {
                    self.lemma_split_rank(key@, p, self.link(y as int, l) as int);
                }
            }
        }
        (next, Ghost(p))
    }

    /// The last node whose key sorts before `key`; the head, 0, if there is
    /// none.
    fn find_less_than(&self, key: &[u8]) -> (r: (usize, Ghost<int>))
        requires
            self.wf(),
            self.comparator.accepts(key@),
        ensures
            self.splits_at(r.1@, key@),
            r.0 < self.nodes@.len(),
            self.rank@[r.0 as int] == r.1@ - 1,
    {
        let mut prev: Vec<usize> = Vec::new();
        let mut l: usize = 0;
        while l < MAX_HEIGHT
            invariant
                l <= MAX_HEIGHT,
                prev@.len() == l,
            decreases MAX_HEIGHT - l,
        {
            prev.push(0);
            l += 1;
        }
        let found = self.find_greater_or_equal(key, &mut prev);
        proof {
            assert(self.pred_ok(prev@[0] as int, 0, found.1@));
        }
        (prev[0], found.1)
    }

    /// The last node; the head, 0, in an empty list.
    #[verifier::rlimit(60)]
    fn find_last(&self) -> (r: usize)
        requires
            self.wf(),
        ensures
            r < self.nodes@.len(),
            self.rank@[r as int] == self.nodes@.len() - 1,
    {
        let mut level: usize = self.max_height;
        let mut x: usize = 0;
        let ghost n = self.nodes@.len() as int;
        loop
            invariant_except_break
                1 <= level <= self.max_height,
            invariant
                self.wf(),
                n == self.nodes@.len(),
                x < n,
                level >= 1 ==> level - 1 < self.nodes@[x as int].height,
            ensures
                self.link(x as int, 0) == 0,
            decreases level, n - self.rank@[x as int],
        {
            let next = self.next(x, level);
            proof {
                assert(self.link_ok(x as int, level - 1));
            }
            if next != 0 {
                x = next;
            } else if level == 1 {
                break ;
            } else {
                level -= 1;
            }
        }
        proof {
            let r = self.rank@[x as int];
            assert(self.order@[r] == x);
            assert(self.link(self.order@[r], 0) == 0);
            if r + 1 < n {
                let y = self.order@[r + 1];
                assert(self.rank@[y] == r + 1);
            }
        }
        x
    }

    /// The order of the keys.
    pub fn comparator(&self) -> (r: &C)
        ensures
            *r == self.order_of(),
    {
        &self.comparator
    }

    /// The sum of the lengths of the keys.
    pub fn size(&self) -> (r: usize)
        ensures
            r == self.key_bytes(),
    {
        self.size
    }

    /// The number of keys.
    pub fn len(&self) -> (r: usize)
        requires
            self.wf(),
        ensures
            r == self@.len(),
    {
        self.count
    }

    /// Whether a key of the list sorts at the place of `key`.
    #[verifier::rlimit(60)]
    pub fn contains(&self, key: &[u8]) -> (r: bool)
        requires
            self.wf(),
        ensures
            r == (self.order_of().accepts(key@) && exists|i: int|
                0 <= i < self@.len() && sorts_same(&self.order_of(), #[trigger] self@[i], key@)),
    {
        if !self.comparator.admits(key) {
            return false;
        }
        let mut prev: Vec<usize> = Vec::new();
        let mut l: usize = 0;
        while l < MAX_HEIGHT
            invariant
                l <= MAX_HEIGHT,
                prev@.len() == l,
            decreases MAX_HEIGHT - l,
        {
            prev.push(0);
            l += 1;
        }
        let found = self.find_greater_or_equal(key, &mut prev);
        let node = found.0;
        let ghost p = found.1@;
        let r = if node != 0 {
            proof {
                self.lemma_node(node as int);
            }
            is_same(&self.comparator, self.key(node), key)
        } else {
            false
        };
        proof {
            self.lemma_same_at(key@, p);
        }
        r
    }

    /// A key of the list sorts at the place of `key` exactly if the key at
    /// the place where `key` splits the list does.
    #[verifier::rlimit(60)]
    proof fn lemma_same_at(&self, key: Seq<u8>, p: int)
        requires
            self.wf(),
            self.comparator.accepts(key),
            self.splits_at(p, key),
        ensures
            (exists|i: int|
                0 <= i < self@.len() && sorts_same(&self.comparator, #[trigger] self@[i], key)) <==> (
            p < self.nodes@.len() && sorts_same(&self.comparator, self.key_of(self.order@[p]), key)),
            p < self.nodes@.len() && !sorts_same(&self.comparator, self.key_of(self.order@[p]), key)
                ==> forall|i: int|
                p <= i < self.nodes@.len() ==> sorts_before(
                    &self.comparator,
                    key,
                    #[trigger] self.key_of(self.order@[i]),
                ),
    {
        let c = &self.comparator;
        let n = self.nodes@.len() as int;
        if p < n {
            let first = self.order@[p];
            assert(self.rank@[first] == p);
            self.lemma_node(first);
            c.le_total(self.key_of(first), key);
            if sorts_same(c, self.key_of(first), key) {
                assert(self@[p - 1] == self.key_of(self.order@[p]));
            }
        }
        assert forall|i: int| 0 <= i < self@.len() && sorts_same(c, #[trigger] self@[i], key)
            implies p < n && sorts_same(c, self.key_of(self.order@[p]), key) by {
            assert(self@[i] == self.key_of(self.order@[i + 1]));
            let y = self.order@[i + 1];
            assert(self.rank@[y] == i + 1);
            self.lemma_node(y);
            if i + 1 < p {
                assert(sorts_before(c, self.key_of(self.order@[i + 1]), key));
            } else if i + 1 > p {
                let first = self.order@[p];
                assert(self.rank@[first] == p);
                self.lemma_node(first);
                self.lemma_rank_order(first, y);
                assert(!sorts_before(c, self.key_of(self.order@[p]), key));
                lemma_le_before(c, key, self.key_of(first), self.key_of(y));
            }
        }
        if p < n && !sorts_same(c, self.key_of(self.order@[p]), key) {
            let first = self.order@[p];
            assert(!sorts_before(c, self.key_of(self.order@[p]), key));
            assert forall|i: int| p <= i < n implies sorts_before(
                c,
                key,
                #[trigger] self.key_of(self.order@[i]),
            ) by {
                let y = self.order@[i];
                assert(self.rank@[y] == i);
                self.lemma_node(y);
                if i > p {
                    self.lemma_rank_order(first, y);
                    c.le_total(key, self.key_of(first));
                    lemma_le_before(c, key, self.key_of(first), self.key_of(y));
                }
            }
        }
    }
}

impl<C: Comparator, A: ArenaTrait> SkipList<C, A> {
    /// `self` is `old` with one more node, of key `key` and height `h`,
    /// linked in at place `p` behind the nodes `prev`.
    closed spec fn grown_from(&self, old: &Self, key: Seq<u8>, p: int, prev: Seq<usize>, h: int) -> bool {
        let n = old.nodes@.len() as int;
        let c = &old.comparator;
        &&& old.wf()
        &&& 1 <= p <= n
        &&& 1 <= h <= 12
        &&& prev.len() == 12
        &&& self.nodes@.len() == n + 1
        &&& forall|x: int| 0 <= x < n ==> #[trigger] self.nodes@[x] == old.nodes@[x]
        &&& self.nodes@[n].height == h
        &&& self.key_of(n) == key
        &&& self.links@.len() == (n + 1) * 12
        &&& forall|x: int, l: int|
            0 <= x <= n && 0 <= l < 12 ==> #[trigger] self.link(x, l) == (if x == n {
                if l < h {
                    old.link(prev[l] as int, l)
                } else {
                    0
                }
            } else if l < h && x == prev[l] {
                n as usize
            } else {
                old.link(x, l)
            })
        &&& self.order@ == old.order@.insert(p, n)
        &&& self.rank@ == Seq::new(
            (n + 1) as nat,
            |x: int|
                if x == n {
                    p
                } else if old.rank@[x] >= p {
                    old.rank@[x] + 1
                } else {
                    old.rank@[x]
                },
        )
        &&& self.max_height == if h > old.max_height {
            h as usize
        } else {
            old.max_height
        }
        &&& self.head == 0
        &&& self.comparator == old.comparator
        &&& self.count == n
        &&& self.arena.wf()
        &&& c.accepts(key)
        &&& forall|i: int| 1 <= i < p ==> sorts_before(c, #[trigger] old.key_of(old.order@[i]), key)
        &&& forall|i: int| p <= i < n ==> sorts_before(c, key, #[trigger] old.key_of(old.order@[i]))
        &&& forall|l: int| 0 <= l < h ==> #[trigger] old.pred_ok(prev[l] as int, l, p)
        &&& old.rank@[prev[0] as int] == p - 1
    }

    /// The ranks and the order of a grown list are inverse to each other.
    #[verifier::rlimit(60)]
    proof fn lemma_grown_ranks(&self, old: &Self, key: Seq<u8>, p: int, prev: Seq<usize>, h: int)
        requires
            self.grown_from(old, key, p, prev, h),
        ensures
            self.order@.len() == self.nodes@.len(),
            self.rank@.len() == self.nodes@.len(),
            self.order@[0] == 0,
            self.rank@[0] == 0,
            forall|i: int|
                0 <= i < self.nodes@.len() ==> 0 <= #[trigger] self.order@[i] < self.nodes@.len()
                    && self.rank@[self.order@[i]] == i,
            forall|x: int|
                0 <= x < self.nodes@.len() ==> 0 <= #[trigger] self.rank@[x] < self.nodes@.len()
                    && self.order@[self.rank@[x]] == x,
            forall|i: int|
                0 <= i < self.nodes@.len() && i != p ==> #[trigger] self.order@[i] == old.order@[if i
                    < p {
                    i
                } else {
                    i - 1
                }],
            self.order@[p] == old.nodes@.len(),
    {
        let n = old.nodes@.len() as int;
        assert forall|i: int| 0 <= i < n + 1 implies 0 <= #[trigger] self.order@[i] < n + 1
            && self.rank@[self.order@[i]] == i by {
            if i < p {
                assert(self.order@[i] == old.order@[i]);
                assert(old.rank@[old.order@[i]] == i);
            } else if i > p {
                assert(self.order@[i] == old.order@[i - 1]);
                assert(old.rank@[old.order@[i - 1]] == i - 1);
            }
        }
        assert forall|x: int| 0 <= x < n + 1 implies 0 <= #[trigger] self.rank@[x] < n + 1
            && self.order@[self.rank@[x]] == x by {
            if x < n {
                let r = old.rank@[x];
                assert(old.order@[r] == x);
            }
        }
    }

    /// The links of a grown list lead on, and at the lowest level to the
    /// very next node.
    #[verifier::rlimit(100)]
    #[verifier::spinoff_prover]
    proof fn lemma_grown_links(&self, old: &Self, key: Seq<u8>, p: int, prev: Seq<usize>, h: int)
        requires
            self.grown_from(old, key, p, prev, h),
        ensures
            forall|l: int| self.max_height <= l < 12 ==> #[trigger] self.link(0, l) == 0,
            forall|x: int, l: int|
                0 <= x < self.nodes@.len() && 0 <= l < self.nodes@[x].height
                    ==> #[trigger] self.link_ok(x, l),
            forall|i: int|
                0 <= i < self.nodes@.len() ==> #[trigger] self.link(self.order@[i], 0) == if i + 1
                    < self.nodes@.len() {
                    self.order@[i + 1] as usize
                } else {
                    0usize
                },
    {
        let n = old.nodes@.len() as int;
        self.lemma_grown_ranks(old, key, p, prev, h);
        assert forall|l: int| self.max_height <= l < 12 implies #[trigger] self.link(0, l) == 0 by {
            assert(old.link(0, l) == 0);
        }
        assert forall|x: int, l: int|
            0 <= x < n + 1 && 0 <= l < self.nodes@[x].height implies #[trigger] self.link_ok(
            x,
            l,
        ) by {
            if x == n {
                let y = prev[l] as int;
                assert(old.pred_ok(y, l, p));
                assert(old.link_ok(y, l));
            } else if l < h && x == prev[l] {
                assert(old.pred_ok(x, l, p));
            } else {
                assert(self.nodes@[x] == old.nodes@[x]);
                assert(old.link_ok(x, l));
                let next = old.link(x, l) as int;
                if next != 0 {
                    assert(self.nodes@[next] == old.nodes@[next]);
                }
            }
        }
        let y0 = prev[0] as int;
        assert(old.pred_ok(y0, 0, p));
        assert(old.order@[old.rank@[y0]] == y0);
        assert forall|i: int| 0 <= i < n + 1 implies #[trigger] self.link(self.order@[i], 0) == if i
            + 1 < n + 1 {
            self.order@[i + 1] as usize
        } else {
            0usize
        } by {
            if i == p {
                assert(old.link(old.order@[p - 1], 0) == if p < n {
                    old.order@[p] as usize
                } else {
                    0usize
                });
                if p < n {
                    assert(self.order@[p + 1] == old.order@[p]);
                }
            } else if i == p - 1 {
                assert(self.order@[i] == y0);
            } else if i < p {
                let x = old.order@[i];
                assert(self.order@[i] == x);
                assert(old.rank@[x] == i);
                assert(old.link(old.order@[i], 0) == old.order@[i + 1] as usize);
                assert(self.order@[i + 1] == old.order@[i + 1]);
            } else {
                let x = old.order@[i - 1];
                assert(self.order@[i] == x);
                assert(old.rank@[x] == i - 1);
                assert(old.link(old.order@[i - 1], 0) == if i < n {
                    old.order@[i] as usize
                } else {
                    0usize
                });
                if i < n {
                    assert(self.order@[i + 1] == old.order@[i]);
                }
            }
        }
    }

    /// A grown list is a list, and its keys are the old keys with the new
    /// key at its place.
    #[verifier::rlimit(100)]
    #[verifier::spinoff_prover]
    proof fn lemma_grown(&self, old: &Self, key: Seq<u8>, p: int, prev: Seq<usize>, h: int)
        requires
            self.grown_from(old, key, p, prev, h),
        ensures
            self.wf(),
            self@ == old@.insert(p - 1, key),
            count_before(&old.comparator, old@, key) == p - 1,
    {
        let n = old.nodes@.len() as int;
        let c = &self.comparator;
        self.lemma_grown_ranks(old, key, p, prev, h);
        self.lemma_grown_links(old, key, p, prev, h);
        assert forall|x: int| 0 <= x < n + 1 implies 1 <= (#[trigger] self.nodes@[x]).height
            <= 12 by {
            if x < n {
                assert(self.nodes@[x] == old.nodes@[x]);
            }
        }
        assert forall|x: int| 1 <= x < n + 1 implies (#[trigger] self.nodes@[x]).height
            <= self.max_height by {
            if x < n {
                assert(self.nodes@[x] == old.nodes@[x]);
            }
        }
        assert(self.nodes@[0] == old.nodes@[0]);
        assert forall|i: int| 1 <= i < n + 1 implies self.key_of(#[trigger] self.order@[i]) == if i
            == p {
            key
        } else if i < p {
            old.key_of(old.order@[i])
        } else {
            old.key_of(old.order@[i - 1])
        } by {
            if i != p {
                let x = self.order@[i];
                assert(self.nodes@[x] == old.nodes@[x]);
            }
        }
        assert forall|i: int| 1 <= i < n + 1 implies c.accepts(
            #[trigger] self.key_of(self.order@[i]),
        ) by {
            if i < p {
                assert(c.accepts(old.key_of(old.order@[i])));
            } else if i > p {
                assert(c.accepts(old.key_of(old.order@[i - 1])));
            }
        }
        assert forall|i: int, j: int| 1 <= i < j < n + 1 implies sorts_before(
            c,
            #[trigger] self.key_of(self.order@[i]),
            #[trigger] self.key_of(self.order@[j]),
        ) by {
            if i == p {
                assert(sorts_before(c, key, old.key_of(old.order@[j - 1])));
            } else if j == p {
                assert(sorts_before(c, old.key_of(old.order@[i]), key));
            } else {
                let oi = if i < p {
                    i
                } else {
                    i - 1
                };
                let oj = if j < p {
                    j
                } else {
                    j - 1
                };
                assert(sorts_before(c, old.key_of(old.order@[oi]), old.key_of(old.order@[oj])));
            }
        }
        assert(self@ =~= old@.insert(p - 1, key)) by {
            assert forall|i: int| 0 <= i < n implies self@[i] == old@.insert(p - 1, key)[i] by {
                assert(self@[i] == self.key_of(self.order@[i + 1]));
                if i < p - 1 {
                    assert(old@[i] == old.key_of(old.order@[i + 1]));
                } else if i > p - 1 {
                    assert(old@[i - 1] == old.key_of(old.order@[i]));
                }
            }
        }
        assert forall|i: int| 0 <= i < p - 1 implies sorts_before(c, #[trigger] old@[i], key) by {
            assert(old@[i] == old.key_of(old.order@[i + 1]));
        }
        assert forall|i: int| p - 1 <= i < old@.len() implies !sorts_before(
            c,
            #[trigger] old@[i],
            key,
        ) by {
            assert(old@[i] == old.key_of(old.order@[i + 1]));
            assert(sorts_before(c, key, old.key_of(old.order@[i + 1])));
            c.le_total(key, old@[i]);
        }
        lemma_count_before(c, old@, key, p - 1);
    }

    /// Inserts `key` with a node of `height` levels. Refused with
    /// `InvalidArgument`, and nothing changes, when the order does not admit
    /// `key`, when a key of the list sorts at the place of `key`, or when
    /// there is no room.
    #[verifier::rlimit(60)]
    pub fn insert_with_height(&mut self, key: &[u8], height: usize) -> (r: Result<(), Error>)
        requires
            old(self).wf(),
            1 <= height <= MAX_HEIGHT,
        ensures
            final(self).wf(),
            final(self).order_of() == old(self).order_of(),
            r.is_ok() <==> old(self).can_insert(key@),
            r.is_ok() ==> final(self)@ == old(self)@.insert(
                count_before(&old(self).order_of(), old(self)@, key@) as int,
                key@,
            ) && final(self).key_bytes() == old(self).key_bytes() + key@.len(),
            r.is_err() ==> r == Err::<(), Error>(Error::InvalidArgument) && final(self)@ == old(self)@ && final(self).key_bytes() == old(self).key_bytes(),
    {
        if !self.comparator.admits(key) {
            return Err(Error::InvalidArgument);
        }
        let mut prev: Vec<usize> = Vec::new();
        let mut l: usize = 0;
        while l < MAX_HEIGHT
            invariant
                l <= MAX_HEIGHT,
                prev@.len() == l,
                forall|j: int| 0 <= j < l ==> prev@[j] == 0,
            decreases MAX_HEIGHT - l,
        {
            prev.push(0);
            l += 1;
        }
        let found = self.find_greater_or_equal(key, &mut prev);
        let next = found.0;
        let ghost p = found.1@;
        proof {
            self.lemma_same_at(key@, p);
        }
        if next != 0 {
            proof {
                self.lemma_node(next as int);
            }
            if is_same(&self.comparator, self.key(next), key) {
                return Err(Error::InvalidArgument);
            }
        }
        if key.len() > usize::MAX - self.size || self.arena.memory_used() > usize::MAX - 224
            - BLOCK_SIZE {
            return Err(Error::InvalidArgument);
        }
        let ghost before = *self;
        let ghost n = self.nodes@.len() as int;
        proof {
            if p < n {
                let first = before.order@[p];
                assert(before.rank@[first] == p);
                assert(next == first);
                assert(forall|i: int|
                    p <= i < n ==> sorts_before(
                        &before.comparator,
                        key@,
                        #[trigger] before.key_of(before.order@[i]),
                    ));
            }
            assert(before.splits_at(p, key@));
            assert forall|j: int| 0 <= j < height implies #[trigger] before.pred_ok(
                prev@[j] as int,
                j,
                p,
            ) by {
                if j >= self.max_height {
                    assert(prev@[j] == 0);
                    assert(self.link(0, j) == 0);
                }
            }
        }
        let slot = self.arena.allocate(24 + 8 * height, 8);
        let id = self.nodes.len();
        let total = self.links.len();
        l = 0;
        while l < MAX_HEIGHT
            invariant
                l <= MAX_HEIGHT,
                1 <= height <= 12,
                before.wf(),
                n == before.nodes@.len(),
                total == n * 12,
                prev@.len() == 12,
                forall|j: int| 0 <= j < height ==> #[trigger] before.pred_ok(prev@[j] as int, j, p),
                self.links@.len() == total + l,
                forall|k: int| 0 <= k < total ==> #[trigger] self.links@[k] == before.links@[k],
                forall|k: int|
                    total <= k < total + l ==> #[trigger] self.links@[k] == if k - total < height {
                        before.link(prev@[k - total] as int, k - total)
                    } else {
                        0usize
                    },
                self.nodes == before.nodes,
                self.max_height == before.max_height,
                self.head == before.head,
                self.comparator == before.comparator,
                self.size == before.size,
                self.count == before.count,
                self.order == before.order,
                self.rank == before.rank,
                self.arena.wf(),
            decreases MAX_HEIGHT - l,
        {
            let v = if l < height {
                proof {
                    assert(before.pred_ok(prev@[l as int] as int, l as int, p));
                }
                self.links[prev[l] * MAX_HEIGHT + l]
            } else {
                0
            };
            self.links.push(v);
            l += 1;
        }
        self.nodes.push(Node { key: bytes_from_slice(key), height, slot });
        proof {
            assert forall|x: int, j: int| 0 <= x <= n && 0 <= j < 12 implies #[trigger] self.link(
                x,
                j,
            ) == (if x == n {
                if j < height {
                    before.link(prev@[j] as int, j)
                } else {
                    0usize
                }
            } else {
                before.link(x, j)
            }) by {
                let k = x * 12 + j;
                assert(self.links@[k] == self.link(x, j));
                if x < n {
                    assert(k < total);
                }
            }
        }
        l = 0;
        while l < height
            invariant
                l <= height <= 12,
                before.wf(),
                n == before.nodes@.len(),
                id == n,
                total == n * 12,
                prev@.len() == 12,
                forall|j: int| 0 <= j < height ==> #[trigger] before.pred_ok(prev@[j] as int, j, p),
                self.links@.len() == total + 12,
                forall|x: int, j: int|
                    0 <= x <= n && 0 <= j < 12 ==> #[trigger] self.link(x, j) == (if x == n {
                        if j < height {
                            before.link(prev@[j] as int, j)
                        } else {
                            0usize
                        }
                    } else if j < l && x == prev@[j] {
                        id
                    } else {
                        before.link(x, j)
                    }),
                self.nodes@ == before.nodes@.push(self.nodes@[n]),
                self.nodes@.len() == n + 1,
                self.nodes@[n].height == height,
                bytes_view(self.nodes@[n].key) == key@,
                self.max_height == before.max_height,
                self.head == before.head,
                self.comparator == before.comparator,
                self.size == before.size,
                self.count == before.count,
                self.order == before.order,
                self.rank == before.rank,
                self.arena.wf(),
            decreases height - l,
        {
            proof {
                assert(before.pred_ok(prev@[l as int] as int, l as int, p));
            }
            let ghost snap = *self;
            let at = prev[l] * MAX_HEIGHT + l;
            self.links[at] = id;
            proof {
                assert forall|x: int, j: int| 0 <= x <= n && 0 <= j < 12 implies #[trigger] self.link(
                    x,
                    j,
                ) == (if x == n {
                    if j < height {
                        before.link(prev@[j] as int, j)
                    } else {
                        0usize
                    }
                } else if j < l + 1 && x == prev@[j] {
                    id
                } else {
                    before.link(x, j)
                }) by {
                    assert(snap.link(x, j) == snap.links@[x * 12 + j]);
                    assert(self.link(x, j) == self.links@[x * 12 + j]);
                    if x * 12 + j == at {
                        assert(x == prev@[l as int] && j == l);
                    }
                }
            }
            l += 1;
        }
        let ghost linked = *self;
        if height > self.max_height {
            self.max_height = height;
        }
        self.count = self.count + 1;
        self.size = self.size + key.len();
        let ghost grown_order = before.order@.insert(p, n);
        let ghost grown_rank = Seq::new(
            (n + 1) as nat,
            |x: int|
                if x == n {
                    p
                } else if before.rank@[x] >= p {
                    before.rank@[x] + 1
                } else {
                    before.rank@[x]
                },
        );
        self.order = Ghost(grown_order);
        self.rank = Ghost(grown_rank);
        proof {
            assert forall|x: int| 0 <= x < n implies #[trigger] self.nodes@[x] == before.nodes@[x] by {}
            assert forall|x: int, j: int| 0 <= x <= n && 0 <= j < 12 implies #[trigger] self.link(
                x,
                j,
            ) == (if x == n {
                if j < height {
                    before.link(prev@[j] as int, j)
                } else {
                    0
                }
            } else if j < height && x == prev@[j] {
                n as usize
            } else {
                before.link(x, j)
            }) by {
                assert(linked.link(x, j) == linked.links@[x * 12 + j]);
                assert(self.link(x, j) == self.links@[x * 12 + j]);
            }
            assert(self.grown_from(&before, key@, p, prev@, height as int));
            self.lemma_grown(&before, key@, p, prev@, height as int);
        }
        Ok(())
    }

    /// Inserts `key` with a node of random height. Refused with
    /// `InvalidArgument`, and nothing changes, when the order does not admit
    /// `key`, when a key of the list sorts at the place of `key`, or when
    /// there is no room.
    pub fn insert(&mut self, key: &[u8]) -> (r: Result<(), Error>)
        requires
            old(self).wf(),
        ensures
            final(self).wf(),
            final(self).order_of() == old(self).order_of(),
            r.is_ok() <==> old(self).can_insert(key@),
            r.is_ok() ==> final(self)@ == old(self)@.insert(
                count_before(&old(self).order_of(), old(self)@, key@) as int,
                key@,
            ) && final(self).key_bytes() == old(self).key_bytes() + key@.len(),
            r.is_err() ==> r == Err::<(), Error>(Error::InvalidArgument) && final(self)@ == old(self)@ && final(self).key_bytes() == old(self).key_bytes(),
    {
        let height = random_height();
        self.insert_with_height(key, height)
    }
}

/// The keys of a list after the first `n` of `keys` were inserted into an
/// empty list, one after the other.
pub open spec fn after_inserts<C: Comparator>(c: &C, keys: Seq<Seq<u8>>, n: nat) -> Seq<Seq<u8>>
    decreases n,
{
    if n == 0 {
        Seq::empty()
    } else {
        let before = after_inserts(c, keys, (n - 1) as nat);
        before.insert(count_before(c, before, keys[n - 1]) as int, keys[n - 1])
    }
}

/// Keys that are inserted in strictly increasing order are held in the
/// order of their insertion: a cursor that walks the list forward meets
/// exactly those keys, first to last, and one that walks backward meets
/// them last to first.
pub proof fn lemma_increasing_inserts<C: Comparator>(c: &C, keys: Seq<Seq<u8>>, n: nat)
    requires
        strictly_sorted(c, keys),
        n <= keys.len(),
    ensures
        after_inserts(c, keys, n) == keys.take(n as int),
    decreases n,
{
    if n == 0 {
        assert(keys.take(0) =~= Seq::<Seq<u8>>::empty());
    } else {
        lemma_increasing_inserts(c, keys, (n - 1) as nat);
        let before = keys.take(n - 1);
        assert forall|i: int| 0 <= i < before.len() implies sorts_before(
            c,
            #[trigger] before[i],
            keys[n - 1],
        ) by {
            assert(before[i] == keys[i]);
        }
        lemma_insert_in_order(c, before, keys[n - 1]);
        assert(before.push(keys[n - 1]) =~= keys.take(n as int));
    }
}

/// A key that sorts behind every key of a strictly increasing sequence
/// goes to its end.
pub proof fn lemma_insert_in_order<C: Comparator>(c: &C, keys: Seq<Seq<u8>>, key: Seq<u8>)
    requires
        forall|i: int| 0 <= i < keys.len() ==> sorts_before(c, #[trigger] keys[i], key),
    ensures
        keys.insert(count_before(c, keys, key) as int, key) == keys.push(key),
{
    lemma_count_before(c, keys, key, keys.len() as int);
    assert(keys.insert(keys.len() as int, key) =~= keys.push(key));
}

impl<C: Comparator, A: ArenaTrait> SkipList<C, A> {
    /// The place where `key` splits the list is the number of keys that
    /// sort before `key`, counted behind the head.
    proof fn lemma_split_count(&self, key: Seq<u8>, p: int)
        requires
            self.wf(),
            self.splits_at(p, key),
        ensures
            count_before(&self.comparator, self@, key) == p - 1,
    {
        let c = &self.comparator;
        assert forall|i: int| 0 <= i < p - 1 implies sorts_before(c, #[trigger] self@[i], key) by {
            assert(self@[i] == self.key_of(self.order@[i + 1]));
        }
        assert forall|i: int| p - 1 <= i < self@.len() implies !sorts_before(
            c,
            #[trigger] self@[i],
            key,
        ) by {
            assert(self@[i] == self.key_of(self.order@[i + 1]));
        }
        lemma_count_before(c, self@, key, p - 1);
    }

    /// The key of a node splits the list at the node.
    proof fn lemma_split_at_node(&self, x: int, p: int)
        requires
            self.wf(),
            1 <= x < self.nodes@.len(),
            self.splits_at(p, self.key_of(x)),
        ensures
            p == self.rank@[x],
    {
        let c = &self.comparator;
        let r = self.rank@[x];
        self.lemma_node(x);
        c.le_total(self.key_of(x), self.key_of(x));
        assert(self.key_of(self.order@[r]) == self.key_of(x));
        if r > p {
            let first = self.order@[p];
            assert(self.rank@[first] == p);
            self.lemma_rank_order(first, x);
            assert(!sorts_before(c, self.key_of(self.order@[p]), self.key_of(x)));
        }
    }
}

/// A cursor over the keys of a skip list.
pub struct SkipListIterator<'a, C: Comparator, A: ArenaTrait> {
    skl: &'a SkipList<C, A>,
    node: usize,
}

impl<'a, C: Comparator, A: ArenaTrait> SkipListIterator<'a, C, A> {
    /// The invariant of a cursor.
    pub closed spec fn wf(&self) -> bool {
        self.skl.wf() && self.node < self.skl.nodes@.len()
    }

    /// The keys of the list, in order.
    pub closed spec fn keys(&self) -> Seq<Seq<u8>> {
        self.skl@
    }

    /// The order of the list.
    pub closed spec fn order_of(&self) -> C {
        self.skl.comparator
    }

    /// The index, among the keys, of the key that the cursor stands on.
    pub closed spec fn position(&self) -> Option<int> {
        if self.node == 0 {
            None
        } else {
            Some(self.skl.rank@[self.node as int] - 1)
        }
    }

    /// A position is an index among the keys.
    pub proof fn lemma_position(&self)
        requires
            self.wf(),
        ensures
            self.position().is_some() ==> 0 <= self.position().unwrap() < self.keys().len(),
    {
        if self.node != 0 {
            self.skl.lemma_node(self.node as int);
        }
    }

    /// A cursor over `skl`, not positioned yet.
    pub fn new(skl: &'a SkipList<C, A>) -> (r: Self)
        requires
            skl.wf(),
        ensures
            r.wf(),
            r.keys() == skl@,
            r.order_of() == skl.order_of(),
            r.position().is_none(),
    {
        Self { skl, node: 0 }
    }

    /// Whether the cursor stands on a key.
    pub fn valid(&self) -> (r: bool)
        ensures
            r == self.position().is_some(),
    {
        self.node != 0
    }

    /// Moves to the first key that does not sort before `target`. With a
    /// target that the order does not admit the cursor is unpositioned.
    pub fn seek(&mut self, target: &[u8])
        requires
            old(self).wf(),
        ensures
            final(self).wf(),
            final(self).keys() == old(self).keys(),
            final(self).order_of() == old(self).order_of(),
            final(self).position() == if old(self).order_of().accepts(target@) && count_before(
                &old(self).order_of(),
                old(self).keys(),
                target@,
            ) < old(self).keys().len() {
                Some(count_before(&old(self).order_of(), old(self).keys(), target@) as int)
            } else {
                None
            },
    {
        if !self.skl.comparator.admits(target) {
            self.node = 0;
            return ;
        }
        let mut prev: Vec<usize> = Vec::new();
        let mut l: usize = 0;
        while l < MAX_HEIGHT
            invariant
                l <= MAX_HEIGHT,
                prev@.len() == l,
            decreases MAX_HEIGHT - l,
        {
            prev.push(0);
            l += 1;
        }
        let found = self.skl.find_greater_or_equal(target, &mut prev);
        proof {
            let p = found.1@;
            self.skl.lemma_split_count(target@, p);
            if p < self.skl.nodes@.len() {
                assert(self.skl.rank@[self.skl.order@[p]] == p);
            }
        }
        self.node = found.0;
    }

    /// Moves to the next key; behind the last one the cursor is
    /// unpositioned.
    pub fn next(&mut self)
        requires
            old(self).wf(),
            old(self).position().is_some(),
        ensures
            final(self).wf(),
            final(self).keys() == old(self).keys(),
            final(self).order_of() == old(self).order_of(),
            final(self).position() == if old(self).position().unwrap() + 1 < old(self).keys().len() {
                Some(old(self).position().unwrap() + 1)
            } else {
                None
            },
    {
        proof {
            let r = self.skl.rank@[self.node as int];
            assert(self.skl.order@[r] == self.node);
            assert(self.skl.link(self.skl.order@[r], 0) == self.skl.node_at(r + 1));
            assert(self.skl.link_ok(self.node as int, 0));
            if r + 1 < self.skl.nodes@.len() {
                assert(self.skl.rank@[self.skl.order@[r + 1]] == r + 1);
            }
        }
        self.node = self.skl.next(self.node, 1);
    }

    /// Moves to the first key.
    pub fn seek_to_first(&mut self)
        requires
            old(self).wf(),
        ensures
            final(self).wf(),
            final(self).keys() == old(self).keys(),
            final(self).order_of() == old(self).order_of(),
            final(self).position() == if old(self).keys().len() > 0 {
                Some(0int)
            } else {
                None
            },
    {
        proof {
            assert(self.skl.link(self.skl.order@[0], 0) == self.skl.node_at(1));
            assert(self.skl.link_ok(0, 0));
            if 1 < self.skl.nodes@.len() {
                assert(self.skl.rank@[self.skl.order@[1]] == 1);
            }
        }
        self.node = self.skl.next(0, 1);
    }

    /// Moves to the last key.
    pub fn seek_to_last(&mut self)
        requires
            old(self).wf(),
        ensures
            final(self).wf(),
            final(self).keys() == old(self).keys(),
            final(self).order_of() == old(self).order_of(),
            final(self).position() == if old(self).keys().len() > 0 {
                Some(old(self).keys().len() - 1)
            } else {
                None
            },
    {
        let last = self.skl.find_last();
        proof {
            assert(self.skl.order@[self.skl.rank@[last as int]] == last);
        }
        self.node = last;
    }

    /// Moves to the key before; before the first one the cursor is
    /// unpositioned.
    pub fn prev(&mut self)
        requires
            old(self).wf(),
            old(self).position().is_some(),
        ensures
            final(self).wf(),
            final(self).keys() == old(self).keys(),
            final(self).order_of() == old(self).order_of(),
            final(self).position() == if old(self).position().unwrap() > 0 {
                Some(old(self).position().unwrap() - 1)
            } else {
                None
            },
    {
        proof {
            self.skl.lemma_node(self.node as int);
        }
        let found = self.skl.find_less_than(self.skl.key(self.node));
        proof {
            self.skl.lemma_split_at_node(self.node as int, found.1@);
            assert(self.skl.order@[self.skl.rank@[found.0 as int]] == found.0);
        }
        self.node = found.0;
    }

    /// The key that the cursor stands on.
    pub fn key(&self) -> (r: &[u8])
        requires
            self.wf(),
            self.position().is_some(),
        ensures
            r@ == self.keys()[self.position().unwrap()],
    {
        proof {
            self.skl.lemma_node(self.node as int);
        }
        self.skl.key(self.node)
    }
}

} // verus!
