//! The ordered in-memory map under the memtable: unique keys kept in the
//! order of a comparator, with a cursor that moves both ways.
use vstd::prelude::*;
use crate::types::Comparator;
use std::cmp::Ordering;

verus! {

/// What a node costs beyond its key and value bytes, for the memory estimate.
pub const NODE_OVERHEAD: usize = 32;

/// The most levels a node can have; the head node has all of them.
pub const MAX_HEIGHT: usize = 12;

/// One node in this many reaches each further level.
pub const BRANCHING_FACTOR: u32 = 4;

/// Relies on rand::random::<u32>: a value drawn from the thread-local
/// generator. Nothing is promised of it. It panics only where the operating
/// system cannot seed that generator.
#[verifier::external_body]
fn random_bits() -> u32 {
    rand::random::<u32>()
}

/// The height that coin flips read from `bits` give, counting up from `h`:
/// each further level while the low digit in base BRANCHING_FACTOR is zero,
/// up to MAX_HEIGHT.
pub open spec fn height_spec(bits: u32, h: nat) -> nat
    decreases MAX_HEIGHT - h,
{
    if h >= MAX_HEIGHT || bits % BRANCHING_FACTOR != 0 {
        h
    } else {
        height_spec(bits / BRANCHING_FACTOR, h + 1)
    }
}

/// The node height that the drawn `bits` give: one level, and one more for
/// each trailing zero digit in base BRANCHING_FACTOR, up to MAX_HEIGHT.
pub fn height_from_bits(bits: u32) -> (h: usize)
    ensures
        h == height_spec(bits, 1),
        1 <= h <= MAX_HEIGHT,
{
    let mut b = bits;
    let mut height: usize = 1;
    while height < MAX_HEIGHT && b % BRANCHING_FACTOR == 0
        invariant
            1 <= height <= MAX_HEIGHT,
            height_spec(b, height as nat) == height_spec(bits, 1),
        decreases MAX_HEIGHT - height,
    {
        height = height + 1;
        b = b / BRANCHING_FACTOR;
    }
    proof {
        lemma_height_bound(b, height as nat);
    }
    height
}

proof fn lemma_height_bound(bits: u32, h: nat)
    requires
        1 <= h <= MAX_HEIGHT,
    ensures
        h <= height_spec(bits, h) <= MAX_HEIGHT,
    decreases MAX_HEIGHT - h,
{
    if h < MAX_HEIGHT && bits % BRANCHING_FACTOR == 0 {
        lemma_height_bound(bits / BRANCHING_FACTOR, h + 1);
    }
}

/// A random node height.
fn random_height() -> (h: usize)
    ensures
        1 <= h <= MAX_HEIGHT,
{
    height_from_bits(random_bits())
}

/// The keys of `s` are in strictly ascending order of `C`.
pub open spec fn sorted_by<C: Comparator>(s: Seq<(Seq<u8>, Seq<u8>)>) -> bool {
    forall|i: int, j: int| 0 <= i < j < s.len() ==> #[trigger] C::less(s[i].0, s[j].0)
}

/// `k` is one of the keys of `s`.
pub open spec fn has_key(s: Seq<(Seq<u8>, Seq<u8>)>, k: Seq<u8>) -> bool {
    exists|i: int| 0 <= i < s.len() && #[trigger] s[i].0 == k
}

/// The index of the first entry of `s` whose key is not before `k`; `s.len()`
/// when there is none.
pub open spec fn lower_bound<C: Comparator>(s: Seq<(Seq<u8>, Seq<u8>)>, k: Seq<u8>) -> int {
    if exists|i: int| 0 <= i < s.len() && !C::less(#[trigger] s[i].0, k) {
        choose|i: int|
            0 <= i < s.len() && !C::less(#[trigger] s[i].0, k) && forall|j: int|
                0 <= j < i ==> C::less(#[trigger] s[j].0, k)
    } else {
        s.len() as int
    }
}

/// Characterises `lower_bound` on a sorted sequence: `i` is it exactly when the
/// keys before `i` come before `k` and the one at `i`, if any, does not.
pub proof fn lemma_lower_bound<C: Comparator>(s: Seq<(Seq<u8>, Seq<u8>)>, k: Seq<u8>, i: int)
    requires
        0 <= i <= s.len(),
        forall|j: int| 0 <= j < i ==> C::less(#[trigger] s[j].0, k),
        i < s.len() ==> !C::less(s[i].0, k),
    ensures
        lower_bound::<C>(s, k) == i,
{
    if i < s.len() {
        assert(exists|x: int| 0 <= x < s.len() && !C::less(#[trigger] s[x].0, k));
        let c = choose|x: int|
            0 <= x < s.len() && !C::less(#[trigger] s[x].0, k) && forall|j: int|
                0 <= j < x ==> C::less(#[trigger] s[j].0, k);
        assert(0 <= i < s.len() && !C::less(s[i].0, k) && forall|j: int|
            0 <= j < i ==> C::less(#[trigger] s[j].0, k));
        if c < i {
            assert(C::less(s[c].0, k));
        } else if c > i {
            assert(C::less(s[i].0, k));
        }
    } else {
        if exists|x: int| 0 <= x < s.len() && !C::less(#[trigger] s[x].0, k) {
            let x = choose|x: int| 0 <= x < s.len() && !C::less(#[trigger] s[x].0, k);
            assert(C::less(s[x].0, k));
        }
    }
}

/// `lower_bound` is in range, the keys before it come before `k`, and the
/// one at it, if any, does not.
pub proof fn lemma_lower_bound_props<C: Comparator>(s: Seq<(Seq<u8>, Seq<u8>)>, k: Seq<u8>)
    ensures
        0 <= lower_bound::<C>(s, k) <= s.len(),
        forall|j: int| 0 <= j < lower_bound::<C>(s, k) ==> C::less(#[trigger] s[j].0, k),
        lower_bound::<C>(s, k) < s.len() ==> !C::less(s[lower_bound::<C>(s, k)].0, k),
{
    if exists|i: int| 0 <= i < s.len() && !C::less(#[trigger] s[i].0, k) {
        let i = choose|i: int| 0 <= i < s.len() && !C::less(#[trigger] s[i].0, k);
        lemma_first_not_less::<C>(s, k, i);
    }
}

proof fn lemma_first_not_less<C: Comparator>(s: Seq<(Seq<u8>, Seq<u8>)>, k: Seq<u8>, i: int)
    requires
        0 <= i < s.len(),
        !C::less(s[i].0, k),
    ensures
        exists|x: int|
            0 <= x < s.len() && !C::less(#[trigger] s[x].0, k) && forall|j: int|
                0 <= j < x ==> C::less(#[trigger] s[j].0, k),
    decreases i,
{
    if forall|j: int| 0 <= j < i ==> C::less(#[trigger] s[j].0, k) {
        assert(0 <= i < s.len() && !C::less(s[i].0, k));
    } else {
        let j = choose|j: int| 0 <= j < i && !C::less(#[trigger] s[j].0, k);
        lemma_first_not_less::<C>(s, k, j);
    }
}

/// A node: its key and value, and one forward link per level.
struct Node {
    key: Vec<u8>,
    value: Vec<u8>,
    next: Vec<Option<usize>>,
}

/// A skip list: an ordered map from byte strings to byte strings with unique
/// keys. Nodes live in an arena; node 0 is the head, with a link on every
/// level. Level 0 links every node in key order; each higher level links a
/// subset of the level below, which searches use to skip ahead.
pub struct SkipMap<C: Comparator> {
    nodes: Vec<Node>,
    approx_mem: usize,
    cmp: C,
    order: Ghost<Seq<int>>,
    rank: Ghost<Seq<int>>,
}

impl<C: Comparator> SkipMap<C> {
    /// The entries, in order.
    pub closed spec fn view(&self) -> Seq<(Seq<u8>, Seq<u8>)> {
        self.order@.map_values(|n: int| (self.nodes@[n].key@, self.nodes@[n].value@))
    }

    /// The running memory estimate.
    pub closed spec fn approx_spec(&self) -> nat {
        self.approx_mem as nat
    }

    closed spec fn key_of(&self, n: int) -> Seq<u8> {
        self.nodes@[n].key@
    }

    closed spec fn height(&self, n: int) -> int {
        self.nodes@[n].next@.len() as int
    }

    closed spec fn link(&self, n: int, h: int) -> Option<usize> {
        self.nodes@[n].next@[h]
    }

    /// Link `l` of node `n` on level 0 is the node after it in key order.
    closed spec fn is_successor_link(&self, n: int, l: Option<usize>) -> bool {
        match l {
            Some(m) => self.rank@[n] + 1 < self.order@.len() && m as int == self.order@[self.rank@[n] + 1],
            None => self.rank@[n] + 1 >= self.order@.len(),
        }
    }

    pub closed spec fn wf(&self) -> bool {
        let n = self.nodes@.len();
        let order = self.order@;
        let rank = self.rank@;
        &&& n >= 1
        &&& self.nodes@[0].next@.len() == MAX_HEIGHT
        &&& forall|x: int| 1 <= x < n ==> 1 <= (#[trigger] self.nodes@[x]).next@.len() <= MAX_HEIGHT
        &&& order.len() == n - 1
        &&& rank.len() == n
        &&& rank[0] == -1
        &&& forall|i: int| 0 <= i < order.len() ==> 1 <= #[trigger] order[i] < n && rank[order[i]] == i
        &&& forall|x: int| 1 <= x < n ==> 0 <= #[trigger] rank[x] < order.len() && order[rank[x]] == x
        &&& sorted_by::<C>(self@)
        &&& forall|x: int| 0 <= x < n ==> self.is_successor_link(x, #[trigger] self.nodes@[x].next@[0])
        &&& forall|x: int, h: int|
            0 <= x < n && 0 <= h < self.nodes@[x].next@.len() ==> (#[trigger] self.nodes@[x].next@[h] matches Some(m) ==> 1
                <= m < n && rank[m as int] > rank[x] && h < self.nodes@[m as int].next@.len())
    }

    /// Whatever inserts built the map, its keys, in the order that a cursor
    /// walks them, ascend strictly.
    pub proof fn lemma_keys_ascending(&self)
        requires
            self.wf(),
        ensures
            sorted_by::<C>(self@),
            forall|i: int, j: int| 0 <= i < j < self@.len() ==> #[trigger] C::less(self@[i].0, self@[j].0),
    {
    }

    proof fn lemma_view(&self)
        requires
            self.wf(),
        ensures
            self@.len() == self.order@.len(),
            forall|i: int| 0 <= i < self.order@.len() ==> (#[trigger] self@[i]).0 == self.key_of(self.order@[i]),
    {
    }

    pub fn new_with_cmp(cmp: C) -> (r: Self)
        ensures
            r.wf(),
            r@ == Seq::<(Seq<u8>, Seq<u8>)>::empty(),
            r.approx_spec() == 0,
    {
        let mut next: Vec<Option<usize>> = Vec::new();
        let mut i: usize = 0;
        while i < MAX_HEIGHT
            invariant
                i <= MAX_HEIGHT,
                next@.len() == i,
                forall|h: int| 0 <= h < i ==> next@[h] is None,
            decreases MAX_HEIGHT - i,
        {
            next.push(None);
            i = i + 1;
        }
        let mut nodes: Vec<Node> = Vec::new();
        nodes.push(Node { key: Vec::new(), value: Vec::new(), next });
        let ghost head_rank: Seq<int> = seq![-1int];
        let r = SkipMap {
            nodes,
            approx_mem: 0,
            cmp,
            order: Ghost(Seq::empty()),
            rank: Ghost(head_rank),
        };
        assert(r@ =~= Seq::<(Seq<u8>, Seq<u8>)>::empty());
        r
    }

    pub fn len(&self) -> (r: usize)
        requires
            self.wf(),
        ensures
            r == self@.len(),
    {
        proof {
            self.lemma_view();
        }
        self.nodes.len() - 1
    }

    pub fn is_empty(&self) -> (r: bool)
        requires
            self.wf(),
        ensures
            r == (self@.len() == 0),
    {
        proof {
            self.lemma_view();
        }
        self.nodes.len() == 1
    }

    /// The memory estimate: key and value bytes plus a fixed cost per node,
    /// summed over the inserts and held at `usize::MAX`.
    pub fn approx_memory(&self) -> (r: usize)
        ensures
            r == self.approx_spec(),
    {
        self.approx_mem
    }

    /// For every level, the last node on that level whose key comes before
    /// `key` (the head where none does). Searches from the top level down.
    fn find_preds(&self, key: &[u8]) -> (r: Vec<usize>)
        requires
            self.wf(),
        ensures
            r@.len() == MAX_HEIGHT,
            forall|h: int| 0 <= h < MAX_HEIGHT ==> self.is_pred(#[trigger] r@[h] as int, key@, h),
            self.rank@[r@[0] as int] + 1 == lower_bound::<C>(self@, key@),
    {
        let mut update: Vec<usize> = Vec::new();
        let mut i: usize = 0;
        while i < MAX_HEIGHT
            invariant
                i <= MAX_HEIGHT,
                update@.len() == i,
            decreases MAX_HEIGHT - i,
        {
            update.push(0);
            i = i + 1;
        }
        let mut x: usize = 0;
        let mut level: usize = MAX_HEIGHT;
        while level > 0
            invariant
                self.wf(),
                update@.len() == MAX_HEIGHT,
                level <= MAX_HEIGHT,
                self.before(x as int, key@),
                level <= self.height(x as int),
                forall|h: int| level <= h < MAX_HEIGHT ==> self.is_pred(#[trigger] update@[h] as int, key@, h),
            decreases level,
        {
            level = level - 1;
            loop
                invariant
                    self.wf(),
                    level < MAX_HEIGHT,
                    self.before(x as int, key@),
                    level < self.height(x as int),
                ensures
                    self.before(x as int, key@),
                    level < self.height(x as int),
                    self.nodes@[x as int].next@[level as int] matches Some(m) ==> !C::less(
                        self.nodes@[m as int].key@,
                        key@,
                    ),
                decreases self.order@.len() - self.rank@[x as int],
            {
                match self.nodes[x].next[level] {
                    Some(m) => {
                        if matches!(C::cmp(self.nodes[m].key.as_slice(), key), Ordering::Less) {
                            x = m;
                        } else {
                            break;
                        }
                    },
                    None => break,
                }
            }
            update.set(level, x);
        }
        proof {
            self.lemma_view();
            let s = self@;
            let u = update@[0] as int;
            assert(self.is_pred(u, key@, 0));
            let r0 = self.rank@[u];
            assert forall|j: int| 0 <= j < r0 + 1 implies C::less(#[trigger] s[j].0, key@) by {
                if j < r0 {
                    assert(C::less(s[j].0, s[r0].0));
                    C::lemma_strict_total_order(s[j].0, s[r0].0, key@);
                }
            }
            if r0 + 1 < s.len() {
                assert(self.is_successor_link(u, self.nodes@[u].next@[0]));
                let y = self.order@[r0 + 1];
                assert(s[r0 + 1].0 == self.key_of(y));
            }
            lemma_lower_bound::<C>(s, key@, r0 + 1);
        }
        update
    }

    /// `x` is the head or a node whose key comes before `key`.
    closed spec fn before(&self, x: int, key: Seq<u8>) -> bool {
        &&& 0 <= x < self.nodes@.len()
        &&& x > 0 ==> C::less(self.key_of(x), key)
    }

    /// `x` is the last node on level `h` whose key comes before `key`.
    closed spec fn is_pred(&self, x: int, key: Seq<u8>, h: int) -> bool {
        &&& self.before(x, key)
        &&& h < self.height(x)
        &&& self.link(x, h) matches Some(m) ==> !C::less(self.key_of(m as int), key)
    }

    pub fn contains(&self, key: &[u8]) -> (r: bool)
        requires
            self.wf(),
        ensures
            r == has_key(self@, key@),
    {
        let update = self.find_preds(key);
        let x = update[0];
        proof {
            self.lemma_view();
            lemma_lower_bound_props::<C>(self@, key@);
        }
        match self.nodes[x].next[0] {
            Some(m) => {
                let o = C::cmp(self.nodes[m].key.as_slice(), key);
                proof {
                    let s = self@;
                    let i = self.rank@[x as int] + 1;
                    assert(self.is_successor_link(x as int, self.nodes@[x as int].next@[0]));
                    assert(m as int == self.order@[i]);
                    assert(s[i].0 == self.key_of(m as int));
                    if o == Ordering::Equal {
                        assert(s[i].0 == key@);
                    } else {
                        assert forall|j: int| 0 <= j < s.len() implies s[j].0 != key@ by {
                            C::lemma_strict_total_order(s[j].0, key@, s[i].0);
                            if j > i {
                                assert(C::less(s[i].0, s[j].0));
                                C::lemma_strict_total_order(key@, s[i].0, s[j].0);
                            }
                        }
                    }
                }
                matches!(o, Ordering::Equal)
            },
            None => {
                proof {
                    let s = self@;
                    assert forall|j: int| 0 <= j < s.len() implies s[j].0 != key@ by {
                        C::lemma_strict_total_order(s[j].0, key@, key@);
                    }
                }
                false
            },
        }
    }
}

impl<C: Comparator> SkipMap<C> {
    /// Inserts a key that the map does not hold yet. The new node gets a
    /// random height and is linked in after the last node before it on each
    /// of its levels.
    #[verifier::rlimit(100)]
    pub fn insert(&mut self, key: Vec<u8>, value: Vec<u8>)
        requires
            old(self).wf(),
            !has_key(old(self)@, key@),
        ensures
            final(self).wf(),
            exists|i: int|
                0 <= i <= old(self)@.len() && final(self)@ == old(self)@.insert(i, (key@, value@)),
            final(self).approx_spec() == if old(self).approx_spec() + key@.len() + value@.len()
                + NODE_OVERHEAD > usize::MAX {
                usize::MAX as nat
            } else {
                (old(self).approx_spec() + key@.len() + value@.len() + NODE_OVERHEAD) as nat
            },
    {
        let update = self.find_preds(key.as_slice());
        let ghost p = self.rank@[update@[0] as int] + 1;
        let ghost s = self@;
        let ghost old_nodes = self.nodes@;
        let ghost order = self.order@;
        let ghost rank = self.rank@;
        let ghost k = key@;
        let ghost v = value@;
        proof {
            self.lemma_view();
            lemma_lower_bound_props::<C>(s, k);
            assert forall|j: int| p <= j < s.len() implies !C::less(#[trigger] s[j].0, k) && s[j].0 != k by {
                if j > p {
                    assert(C::less(s[p].0, s[j].0));
                    C::lemma_strict_total_order(s[p].0, s[j].0, k);
                }
            }
            assert forall|j: int| 0 <= j < s.len() implies (C::less(#[trigger] s[j].0, k) <==> j < p) by {
                if j < p {
                } else {
                }
            }
        }
        let height = random_height();
        let new_id = self.nodes.len();
        let mut next: Vec<Option<usize>> = Vec::new();
        let mut h: usize = 0;
        while h < height
            invariant
                self.wf(),
                self.nodes@ == old_nodes,
                height <= MAX_HEIGHT,
                h <= height,
                update@.len() == MAX_HEIGHT,
                forall|j: int| 0 <= j < MAX_HEIGHT ==> self.is_pred(#[trigger] update@[j] as int, k, j),
                next@.len() == h,
                forall|j: int| 0 <= j < h ==> #[trigger] next@[j] == self.link(update@[j] as int, j),
            decreases height - h,
        {
            let u = update[h];
            next.push(self.nodes[u].next[h]);
            h = h + 1;
        }
        let cost = key.len().saturating_add(value.len()).saturating_add(NODE_OVERHEAD);
        self.approx_mem = self.approx_mem.saturating_add(cost);
        let ghost mem = self.approx_mem;
        let ghost new_next = next@;
        self.nodes.push(Node { key, value, next });
        let mut h: usize = 0;
        while h < height
            invariant
                self.approx_mem == mem,
                self.order@ == order,
                self.rank@ == rank,
                self.nodes@.len() == old_nodes.len() + 1,
                new_id == old_nodes.len(),
                self.nodes@[new_id as int].key@ == k,
                self.nodes@[new_id as int].value@ == v,
                self.nodes@[new_id as int].next@ == new_next,
                height <= MAX_HEIGHT,
                h <= height,
                update@.len() == MAX_HEIGHT,
                forall|j: int| 0 <= j < MAX_HEIGHT ==> 0 <= #[trigger] update@[j] < old_nodes.len() && j < old_nodes[update@[j] as int].next@.len(),
                forall|y: int| 0 <= y < old_nodes.len() ==> {
                    &&& (#[trigger] self.nodes@[y]).key == old_nodes[y].key
                    &&& self.nodes@[y].value == old_nodes[y].value
                    &&& self.nodes@[y].next@.len() == old_nodes[y].next@.len()
                    &&& forall|j: int| 0 <= j < old_nodes[y].next@.len() ==> #[trigger] self.nodes@[y].next@[j]
                        == if j < h && update@[j] == y { Some(new_id) } else { old_nodes[y].next@[j] }
                },
            decreases height - h,
        {
            let u = update[h];
            self.nodes[u].next.set(h, Some(new_id));
            h = h + 1;
        }
        self.order = Ghost(order.insert(p, new_id as int));
        self.rank = Ghost(Seq::new((old_nodes.len() + 1) as nat, |y: int| if y == new_id as int { p } else if rank[y] >= p { rank[y] + 1 } else { rank[y] }));
        proof {
            let n = old_nodes.len() as int;
            let order2 = self.order@;
            let rank2 = self.rank@;
            assert(self@ =~= s.insert(p, (k, v))) by {
                assert forall|i: int| 0 <= i < order2.len() implies #[trigger] self@[i] == s.insert(p, (k, v))[i] by {
                    if i < p {
                        assert(order2[i] == order[i]);
                    } else if i > p {
                        assert(order2[i] == order[i - 1]);
                    }
                }
            }
            assert forall|a: int, b: int| 0 <= a < b < self@.len() implies #[trigger] C::less(self@[a].0, self@[b].0) by {
                let t = self@;
                if b == p {
                    assert(t[a] == s[a]);
                } else if a == p {
                    assert(t[b] == s[b - 1]);
                    assert(!C::less(s[b - 1].0, k) && s[b - 1].0 != k);
                    C::lemma_strict_total_order(k, s[b - 1].0, k);
                } else {
                    let a2 = if a < p { a } else { a - 1 };
                    let b2 = if b < p { b } else { b - 1 };
                    assert(t[a] == s[a2]);
                    assert(t[b] == s[b2]);
                    assert(C::less(s[a2].0, s[b2].0));
                }
            }
            assert(self.nodes@.len() == n + 1);
            assert(self.nodes@[0].next@.len() == MAX_HEIGHT);
            assert(forall|x: int| 1 <= x < n + 1 ==> 1 <= (#[trigger] self.nodes@[x]).next@.len() <= MAX_HEIGHT);
            assert(order2.len() == n);
            assert(rank2.len() == n + 1);
            assert(rank2[0] == -1);
            assert forall|i: int| 0 <= i < order2.len() implies 1 <= #[trigger] order2[i] < n + 1 && rank2[order2[i]] == i by {
                if i < p {
                    assert(order2[i] == order[i]);
                } else if i > p {
                    assert(order2[i] == order[i - 1]);
                }
            }
            assert forall|x: int| 1 <= x < n + 1 implies 0 <= #[trigger] rank2[x] < order2.len() && order2[rank2[x]] == x by {
            }
            assert forall|x: int| 0 <= x < n + 1 implies self.is_successor_link(x, #[trigger] self.nodes@[x].next@[0]) by {
                if x == n {
                    let u = update@[0] as int;
                    assert(self.link(x, 0) == old_nodes[u].next@[0]);
                    if p < s.len() {
                        assert(order2[p + 1] == order[p]);
                    }
                } else if x == update@[0] as int {
                    assert(rank2[x] == p - 1);
                } else {
                    assert(old_nodes[x].next@[0] == old_nodes[x].next@[0]);
                    if rank[x] + 1 < order.len() {
                        let y = order[rank[x] + 1];
                        if rank[x] + 1 == p {
                            assert(rank[update@[0] as int] == rank[x]);
                        }
                        if rank[x] >= p {
                            assert(order2[rank2[x] + 1] == order[rank[x] + 1]);
                        } else {
                            assert(order2[rank2[x] + 1] == order[rank[x] + 1]);
                        }
                    }
                }
            }
            assert forall|x: int, j: int| 0 <= x < n + 1 && 0 <= j < self.nodes@[x].next@.len() implies (#[trigger] self.nodes@[x].next@[j] matches Some(m) ==> 1
                <= m < n + 1 && rank2[m as int] > rank2[x] && j < self.nodes@[m as int].next@.len()) by {
                if x == n {
                    let u = update@[j] as int;
                    assert(self.link(x, j) == old_nodes[u].next@[j]);
                    if let Some(m) = old_nodes[u].next@[j] {
                        assert(!C::less(self.key_of(m as int), k));
                        assert(s[rank[m as int]].0 == old_nodes[m as int].key@);
                    }
                } else if j < height && update@[j] as int == x {
                    assert(self.link(x, j) == Some(new_id));
                    if x > 0 {
                        assert(s[rank[x]].0 == old_nodes[x].key@);
                    }
                } else {
                    assert(self.link(x, j) == old_nodes[x].next@[j]);
                }
            }
        }
    }
}

impl<C: Comparator> SkipMap<C> {
    /// A cursor over the map, placed before the first entry.
    pub fn iter(&self) -> (r: SkipMapIter<'_, C>)
        requires
            self.wf(),
        ensures
            r.inv(),
            r.entries() == self@,
            r.position() is None,
    {
        SkipMapIter { map: self, current: None }
    }
}

/// A cursor over a `SkipMap`. It moves forward along level 0 and back by
/// searching from the head for the last node before the current key.
pub struct SkipMapIter<'a, C: Comparator> {
    map: &'a SkipMap<C>,
    current: Option<usize>,
}

impl<'a, C: Comparator> SkipMapIter<'a, C> {
    /// The entries that the cursor walks.
    pub closed spec fn entries(&self) -> Seq<(Seq<u8>, Seq<u8>)> {
        self.map@
    }

    /// The index of the current entry, if the cursor is valid.
    pub closed spec fn position(&self) -> Option<int> {
        match self.current {
            Some(n) => Some(self.map.rank@[n as int]),
            None => None,
        }
    }

    pub closed spec fn inv(&self) -> bool {
        &&& self.map.wf()
        &&& self.current matches Some(n) ==> 1 <= n < self.map.nodes@.len()
    }

    /// The entries are sorted and the position is within them.
    pub proof fn lemma_inv(&self)
        requires
            self.inv(),
        ensures
            sorted_by::<C>(self.entries()),
            self.position() matches Some(i) ==> 0 <= i < self.entries().len(),
    {
        self.map.lemma_view();
    }

    /// The cursor on the node that follows `x` on level 0.
    fn step_from(&mut self, x: usize)
        requires
            old(self).inv(),
            x < old(self).map.nodes@.len(),
        ensures
            final(self).inv(),
            final(self).map == old(self).map,
            final(self).position() == if old(self).map.rank@[x as int] + 1 < old(self).entries().len() {
                Some(old(self).map.rank@[x as int] + 1)
            } else {
                None
            },
    {
        proof {
            self.map.lemma_view();
            assert(self.map.is_successor_link(x as int, self.map.nodes@[x as int].next@[0]));
            if self.map.rank@[x as int] + 1 < self.map.order@.len() {
                let y = self.map.order@[self.map.rank@[x as int] + 1];
                assert(self.map.rank@[y] == self.map.rank@[x as int] + 1);
            }
        }
        self.current = self.map.nodes[x].next[0];
    }

    pub fn valid(&self) -> (r: bool)
        requires
            self.inv(),
        ensures
            r == self.position() is Some,
    {
        self.current.is_some()
    }

    /// Moves to the first entry; invalid on an empty map.
    pub fn seek_to_first(&mut self)
        requires
            old(self).inv(),
        ensures
            final(self).inv(),
            final(self).entries() == old(self).entries(),
            final(self).position() == if old(self).entries().len() > 0 {
                Some(0int)
            } else {
                None
            },
    {
        self.step_from(0);
    }

    /// Moves to the last entry; invalid on an empty map. Descends from the
    /// top level, going as far along each level as it reaches.
    pub fn seek_to_last(&mut self)
        requires
            old(self).inv(),
        ensures
            final(self).inv(),
            final(self).entries() == old(self).entries(),
            final(self).position() == if old(self).entries().len() > 0 {
                Some(old(self).entries().len() - 1)
            } else {
                None
            },
    {
        let map = self.map;
        let mut x: usize = 0;
        let mut level: usize = MAX_HEIGHT;
        while level > 0
            invariant
                map.wf(),
                level <= MAX_HEIGHT,
                x < map.nodes@.len(),
                level <= map.height(x as int),
                level < MAX_HEIGHT ==> map.nodes@[x as int].next@[level as int] is None,
            decreases level,
        {
            level = level - 1;
            loop
                invariant
                    map.wf(),
                    level < MAX_HEIGHT,
                    x < map.nodes@.len(),
                    level < map.height(x as int),
                ensures
                    x < map.nodes@.len(),
                    level < map.height(x as int),
                    map.nodes@[x as int].next@[level as int] is None,
                decreases map.order@.len() - map.rank@[x as int],
            {
                match map.nodes[x].next[level] {
                    Some(m) => {
                        x = m;
                    },
                    None => break,
                }
            }
        }
        proof {
            map.lemma_view();
            assert(map.is_successor_link(x as int, map.nodes@[x as int].next@[0]));
        }
        if x == 0 {
            self.current = None;
        } else {
            self.current = Some(x);
        }
    }

    /// Moves to the first entry whose key is not before `key`; invalid if there
    /// is none.
    pub fn seek(&mut self, key: &[u8])
        requires
            old(self).inv(),
        ensures
            final(self).inv(),
            final(self).entries() == old(self).entries(),
            final(self).position() == if lower_bound::<C>(old(self).entries(), key@) < old(
                self,
            ).entries().len() {
                Some(lower_bound::<C>(old(self).entries(), key@))
            } else {
                None
            },
    {
        let update = self.map.find_preds(key);
        self.step_from(update[0]);
    }

    /// Steps forward: from before the first entry to the first, from an entry
    /// to the next, and past the last to invalid. Returns whether the cursor
    /// is now valid.
    pub fn advance(&mut self) -> (r: bool)
        requires
            old(self).inv(),
        ensures
            final(self).inv(),
            final(self).entries() == old(self).entries(),
            final(self).position() == match old(self).position() {
                None => if old(self).entries().len() > 0 {
                    Some(0int)
                } else {
                    None
                },
                Some(i) => if i + 1 < old(self).entries().len() {
                    Some(i + 1)
                } else {
                    None
                },
            },
            r == final(self).position() is Some,
    {
        match self.current {
            None => self.step_from(0),
            Some(n) => self.step_from(n),
        }
        self.current.is_some()
    }

    /// Steps forward as `advance` does and returns a copy of the new current
    /// entry.
    pub fn next(&mut self) -> (r: Option<(Vec<u8>, Vec<u8>)>)
        requires
            old(self).inv(),
        ensures
            final(self).inv(),
            final(self).entries() == old(self).entries(),
            final(self).position() == match old(self).position() {
                None => if old(self).entries().len() > 0 {
                    Some(0int)
                } else {
                    None
                },
                Some(i) => if i + 1 < old(self).entries().len() {
                    Some(i + 1)
                } else {
                    None
                },
            },
            match final(self).position() {
                Some(i) => r matches Some(kv) && kv.0@ == final(self).entries()[i].0 && kv.1@
                    == final(self).entries()[i].1,
                None => r is None,
            },
    {
        if self.advance() {
            let (k, v) = self.current();
            Some((crate::memtable::bytes_to_vec(k), crate::memtable::bytes_to_vec(v)))
        } else {
            None
        }
    }

    /// Steps back to the entry before the current one; invalid before the
    /// first entry.
    pub fn prev(&mut self) -> (r: bool)
        requires
            old(self).inv(),
        ensures
            final(self).inv(),
            final(self).entries() == old(self).entries(),
            final(self).position() == match old(self).position() {
                Some(i) => if i > 0 {
                    Some(i - 1)
                } else {
                    None
                },
                None => None,
            },
            r == final(self).position() is Some,
    {
        match self.current {
            Some(n) => {
                let map = self.map;
                let update = map.find_preds(map.nodes[n].key.as_slice());
                let x = update[0];
                proof {
                    map.lemma_view();
                    let s = map@;
                    let i = map.rank@[n as int];
                    assert(s[i].0 == map.key_of(n as int));
                    assert forall|j: int| 0 <= j < i implies C::less(#[trigger] s[j].0, s[i].0) by {
                    }
                    C::lemma_strict_total_order(s[i].0, s[i].0, s[i].0);
                    lemma_lower_bound::<C>(s, s[i].0, i);
                }
                if x == 0 {
                    self.current = None;
                    false
                } else {
                    self.current = Some(x);
                    true
                }
            },
            None => false,
        }
    }

    /// Returns to the state before the first entry.
    pub fn reset(&mut self)
        requires
            old(self).inv(),
        ensures
            final(self).inv(),
            final(self).entries() == old(self).entries(),
            final(self).position() is None,
    {
        self.current = None;
    }

    /// The current key and value.
    pub fn current(&self) -> (r: (&'a [u8], &'a [u8]))
        requires
            self.inv(),
            self.position() is Some,
        ensures
            r.0@ == self.entries()[self.position().unwrap()].0,
            r.1@ == self.entries()[self.position().unwrap()].1,
    {
        let n = self.current.unwrap();
        let map: &'a SkipMap<C> = self.map;
        let node: &'a Node = &map.nodes[n];
        proof {
            map.lemma_view();
        }
        (node.key.as_slice(), node.value.as_slice())
    }
}

} // verus!
