//! A B-tree from `i64` keys to row pointers, with chained leaves for range scans.
use crate::display::{keys_text, push_keys};
use crate::index::node::{ascending, BTreeNode, InternalNode, LeafNode, ORDER, Rid};
use crate::text::{dec, dec_u64, join2};
use vstd::prelude::*;
use vstd::string::*;

verus! {

/// One past the largest page id a node can have: the node encoding keeps `u32::MAX` for "no
/// sibling".
pub const MAX_NODES: usize = 0xFFFF_FFFF;

/// A key and the row it points to.
pub type Entry = (i64, Rid);

/// The entries are in ascending key order; a key can occur more than once.
pub open spec fn sorted(e: Seq<Entry>) -> bool {
    forall|i: int, j: int| 0 <= i <= j < e.len() ==> (#[trigger] e[i]).0 <= (#[trigger] e[j]).0
}

/// How many entries have a key less than `key`.
pub open spec fn below(e: Seq<Entry>, key: i64) -> nat
    decreases e.len(),
{
    if e.len() == 0 {
        0
    } else {
        below(e.drop_last(), key) + if e.last().0 < key {
            1nat
        } else {
            0nat
        }
    }
}

/// The entries after `key` was inserted: before the entries that are not less than it.
pub open spec fn with_key(e: Seq<Entry>, key: i64, rid: Rid) -> Seq<Entry> {
    e.insert(below(e, key) as int, (key, rid))
}

/// Some entry has this key.
pub open spec fn has_key(e: Seq<Entry>, key: i64) -> bool {
    below(e, key) < e.len() && e[below(e, key) as int].0 == key
}

/// The row that `key` points to: that of the first entry with this key.
pub open spec fn rid_of(e: Seq<Entry>, key: i64) -> Option<Rid> {
    if has_key(e, key) {
        Some(e[below(e, key) as int].1)
    } else {
        None
    }
}

/// The entries after the first one with this key was removed.
pub open spec fn without_key(e: Seq<Entry>, key: i64) -> Seq<Entry> {
    if has_key(e, key) {
        e.remove(below(e, key) as int)
    } else {
        e
    }
}

/// The rows of the entries whose keys lie between `start` and `end`, both inclusive, in order.
pub open spec fn rids_between(e: Seq<Entry>, start: i64, end: i64) -> Seq<Rid>
    decreases e.len(),
{
    if e.len() == 0 {
        Seq::empty()
    } else {
        let rest = rids_between(e.drop_last(), start, end);
        if start <= e.last().0 <= end {
            rest.push(e.last().1)
        } else {
            rest
        }
    }
}

spec fn all_lt(e: Seq<Entry>, key: i64) -> bool {
    forall|i: int| 0 <= i < e.len() ==> (#[trigger] e[i]).0 < key
}

spec fn all_le(e: Seq<Entry>, key: i64) -> bool {
    forall|i: int| 0 <= i < e.len() ==> (#[trigger] e[i]).0 <= key
}

spec fn all_ge(e: Seq<Entry>, key: i64) -> bool {
    forall|i: int| 0 <= i < e.len() ==> (#[trigger] e[i]).0 >= key
}

/// Sequences of entries, one after the other.
pub open spec fn concat(ls: Seq<Seq<Entry>>) -> Seq<Entry>
    decreases ls.len(),
{
    if ls.len() == 0 {
        Seq::empty()
    } else {
        concat(ls.drop_last()) + ls.last()
    }
}

proof fn lemma_concat_parts(ls: Seq<Seq<Entry>>, p: int)
    requires
        0 <= p < ls.len(),
    ensures
        concat(ls) == concat(ls.take(p)) + ls[p] + concat(ls.skip(p + 1)),
    decreases ls.len(),
{
    let dl = ls.drop_last();
    if p == ls.len() - 1 {
        assert(ls.take(p) =~= dl);
        assert(ls.skip(p + 1) =~= Seq::empty());
        assert(concat(ls.skip(p + 1)) =~= Seq::empty());
        assert(concat(ls) =~= concat(ls.take(p)) + ls[p] + concat(ls.skip(p + 1)));
    } else {
        lemma_concat_parts(dl, p);
        assert(dl.take(p) =~= ls.take(p));
        assert(ls.skip(p + 1).drop_last() =~= dl.skip(p + 1));
        assert(ls.skip(p + 1).last() == ls.last());
        assert(concat(ls) =~= concat(ls.take(p)) + ls[p] + concat(ls.skip(p + 1)));
    }
}

proof fn lemma_concat_all(ls: Seq<Seq<Entry>>, f: spec_fn(Entry) -> bool)
    requires
        forall|x: int, i: int| 0 <= x < ls.len() && 0 <= i < ls[x].len() ==> f(#[trigger] ls[x][i]),
    ensures
        forall|i: int| 0 <= i < concat(ls).len() ==> f(#[trigger] concat(ls)[i]),
    decreases ls.len(),
{
    if ls.len() > 0 {
        let dl = ls.drop_last();
        assert forall|x: int, i: int| 0 <= x < dl.len() && 0 <= i < dl[x].len() implies f(
            #[trigger] dl[x][i],
        ) by {
            assert(f(ls[x][i]));
        }
        lemma_concat_all(dl, f);
        assert forall|i: int| 0 <= i < concat(ls).len() implies f(#[trigger] concat(ls)[i]) by {
            if i >= concat(dl).len() {
                assert(f(ls[ls.len() - 1][i - concat(dl).len()]));
            } else {
                assert(f(concat(dl)[i]));
            }
        }
    }
}

/// `p` splits the entries into those less than `key` and the rest.
spec fn is_lower(e: Seq<Entry>, p: int, key: i64) -> bool {
    &&& 0 <= p <= e.len()
    &&& forall|i: int| 0 <= i < p ==> (#[trigger] e[i]).0 < key
    &&& forall|i: int| p <= i < e.len() ==> (#[trigger] e[i]).0 >= key
}

proof fn lemma_below(e: Seq<Entry>, p: int, key: i64)
    requires
        is_lower(e, p, key),
    ensures
        below(e, key) == p,
    decreases e.len(),
{
    if e.len() > 0 {
        let dl = e.drop_last();
        let q = if p == e.len() {
            p - 1
        } else {
            p
        };
        assert(is_lower(dl, q, key)) by {
            assert forall|i: int| 0 <= i < q implies (#[trigger] dl[i]).0 < key by {
                assert(dl[i] == e[i]);
            }
            assert forall|i: int| q <= i < dl.len() implies (#[trigger] dl[i]).0 >= key by {
                assert(dl[i] == e[i]);
            }
        }
        lemma_below(dl, q, key);
    }
}

/// In sorted entries `below` is the place of the first entry that is not less than `key`.
pub proof fn lemma_below_sorted(e: Seq<Entry>, key: i64)
    requires
        sorted(e),
    ensures
        0 <= below(e, key) <= e.len(),
        forall|i: int| 0 <= i < below(e, key) ==> (#[trigger] e[i]).0 < key,
        forall|i: int| below(e, key) <= i < e.len() ==> (#[trigger] e[i]).0 >= key,
    decreases e.len(),
{
    if e.len() > 0 {
        let dl = e.drop_last();
        assert(sorted(dl)) by {
            assert forall|i: int, j: int| 0 <= i <= j < dl.len() implies (#[trigger] dl[i]).0 <= (
            #[trigger] dl[j]).0 by {
                assert(e[i].0 <= e[j].0);
            }
        }
        lemma_below_sorted(dl, key);
        let b = below(dl, key);
        if e.last().0 < key {
            assert forall|i: int| 0 <= i < dl.len() implies (#[trigger] dl[i]).0 < key by {
                assert(e[i].0 <= e[e.len() - 1].0);
            }
            assert(b == dl.len()) by {
                if b < dl.len() {
                    assert(dl[b as int].0 >= key);
                }
            }
        }
        assert forall|i: int| 0 <= i < below(e, key) implies (#[trigger] e[i]).0 < key by {
            if i < dl.len() {
                assert(dl[i] == e[i]);
            }
        }
        assert forall|i: int| below(e, key) <= i < e.len() implies (#[trigger] e[i]).0 >= key by {
            if i < dl.len() {
                assert(dl[i] == e[i]);
            }
        }
    }
}

/// The entries of a leaf.
pub open spec fn leaf_entries(n: BTreeNode) -> Seq<Entry> {
    match n {
        BTreeNode::Leaf(l) => Seq::new(l.keys@.len(), |i: int| (l.keys@[i], l.rids@[i])),
        BTreeNode::Internal(_) => Seq::empty(),
    }
}

/// A node has its keys in ascending order, and as many row pointers or children as they need.
pub open spec fn node_shaped(n: BTreeNode) -> bool {
    match n {
        BTreeNode::Leaf(l) => l.keys@.len() == l.rids@.len() && ascending(l.keys@),
        BTreeNode::Internal(m) => m.children@.len() == m.keys@.len() + 1 && ascending(m.keys@),
    }
}

/// Following the leaves from the first one of `chain` visits those of `chain`: every leaf, once.
pub open spec fn is_chain(nodes: Seq<BTreeNode>, chain: Seq<u32>) -> bool {
    &&& chain.no_duplicates()
    &&& forall|x: int|
        0 <= x < chain.len() ==> {
            let id = #[trigger] chain[x];
            &&& id < nodes.len()
            &&& nodes[id as int] matches BTreeNode::Leaf(l) && l.next_leaf == (if x + 1
                < chain.len() {
                Some(chain[x + 1])
            } else {
                None
            })
        }
    &&& forall|a: int|
        0 <= a < nodes.len() && #[trigger] nodes[a] is Leaf ==> chain.contains(a as u32)
}

/// The entries of the leaves of `chain`, in its order.
pub open spec fn chain_entries(nodes: Seq<BTreeNode>, chain: Seq<u32>) -> Seq<Entry> {
    concat(Seq::new(chain.len(), |x: int| leaf_entries(nodes[chain[x] as int])))
}

/// How the nodes make up a tree. For each node: its height above the leaves, the range `lo..hi` of
/// leaves below it (counted from the left) and the range of keys it may hold. `order` lists the
/// leaves from left to right.
pub struct Shape {
    pub level: Seq<nat>,
    pub lo: Seq<int>,
    pub hi: Seq<int>,
    pub kl: Seq<i64>,
    pub kh: Seq<i64>,
    pub order: Seq<u32>,
}

/// How many keys a node holds.
pub open spec fn key_count(n: BTreeNode) -> nat {
    match n {
        BTreeNode::Leaf(l) => l.keys@.len(),
        BTreeNode::Internal(m) => m.keys@.len(),
    }
}

/// No node holds more than `2 * ORDER` keys, as long as there are page ids left to split with.
spec fn slim(n: Seq<BTreeNode>) -> bool {
    n.len() + 1 < MAX_NODES ==> forall|a: int|
        0 <= a < n.len() ==> key_count(#[trigger] n[a]) < 2 * ORDER
}

/// The nodes of a tree with their shape.
struct Tree {
    n: Seq<BTreeNode>,
    s: Shape,
}

impl Tree {
    spec fn leaf(self, x: int) -> Seq<Entry> {
        leaf_entries(self.n[self.s.order[x] as int])
    }

    spec fn leaves(self) -> Seq<Seq<Entry>> {
        Seq::new(self.s.order.len(), |x: int| self.leaf(x))
    }

    spec fn entries(self) -> Seq<Entry> {
        concat(self.leaves())
    }

    /// The facts that no split disturbs at any level.
    spec fn base(self) -> bool {
        let c = self.n.len();
        let s = self.s;
        &&& 0 < c <= MAX_NODES
        &&& s.level.len() == c
        &&& s.lo.len() == c
        &&& s.hi.len() == c
        &&& s.kl.len() == c
        &&& s.kh.len() == c
        &&& forall|a: int| 0 <= a < c ==> 0 <= #[trigger] s.lo[a] < s.hi[a] <= s.order.len()
        &&& forall|x: int| 0 <= x < s.order.len() ==> (#[trigger] s.order[x]) < c
        &&& forall|x: int| 0 <= x < s.order.len() ==> s.level[(#[trigger] s.order[x]) as int] == 0
        &&& forall|x: int| 0 <= x < s.order.len() ==> s.lo[(#[trigger] s.order[x]) as int] == x
        &&& forall|a: int, b: int|
            0 <= a < c && 0 <= b < c && a != b && #[trigger] s.level[a] == #[trigger] s.level[b]
                ==> s.hi[a] <= s.lo[b] || s.hi[b] <= s.lo[a]
    }

    spec fn leaf_ok(self, id: int, l: LeafNode) -> bool {
        let s = self.s;
        let x = s.lo[id];
        &&& s.level[id] == 0
        &&& l.keys@.len() == l.rids@.len()
        &&& ascending(l.keys@)
        &&& forall|i: int| 0 <= i < l.keys@.len() ==> s.kl[id] <= #[trigger] l.keys@[i] <= s.kh[id]
        &&& s.hi[id] == x + 1
        &&& s.order[x] == id
        &&& l.next_leaf == (if x + 1 < s.order.len() {
            Some(s.order[x + 1])
        } else {
            None
        })
    }

    spec fn children_ok(self, id: int, m: InternalNode) -> bool {
        let s = self.s;
        let ch = m.children@;
        let ks = m.keys@;
        &&& forall|k: int|
            0 <= k < ch.len() ==> {
                let c = #[trigger] ch[k];
                &&& c < self.n.len()
                &&& s.level[c as int] + 1 == s.level[id]
                &&& s.lo[id] <= s.lo[c as int]
                &&& s.hi[c as int] <= s.hi[id]
            }
        &&& s.lo[ch[0] as int] == s.lo[id]
        &&& s.hi[ch[ks.len() as int] as int] == s.hi[id]
        &&& s.kl[ch[0] as int] == s.kl[id]
        &&& s.kh[ch[ks.len() as int] as int] == s.kh[id]
        &&& forall|j: int, k: int|
            0 <= j < k < ch.len() ==> {
                let c = (#[trigger] ch[j]) as int;
                let d = (#[trigger] ch[k]) as int;
                &&& s.hi[c] <= s.lo[d]
                &&& k == j + 1 ==> s.hi[c] == s.lo[d] && s.kh[c] == ks[j] && s.kl[d] == ks[j]
            }
    }

    spec fn seps_ok(self, id: int, m: InternalNode) -> bool {
        let s = self.s;
        &&& forall|k: int, x: int|
            #![trigger m.keys@[k], self.leaf(x)]
            0 <= k < m.keys@.len() && s.lo[id] <= x < s.hi[m.children@[k] as int] ==> all_le(
                self.leaf(x),
                m.keys@[k],
            )
        &&& forall|k: int, x: int|
            #![trigger m.keys@[k], self.leaf(x)]
            0 <= k < m.keys@.len() && s.hi[m.children@[k] as int] <= x < s.hi[id] ==> all_ge(
                self.leaf(x),
                m.keys@[k],
            )
    }

    spec fn internal_ok(self, id: int, m: InternalNode) -> bool {
        &&& self.s.level[id] > 0
        &&& m.children@.len() == m.keys@.len() + 1
        &&& ascending(m.keys@)
        &&& forall|k: int|
            0 <= k < m.keys@.len() ==> self.s.kl[id] <= #[trigger] m.keys@[k] <= self.s.kh[id]
        &&& self.children_ok(id, m)
        &&& self.seps_ok(id, m)
    }

    spec fn node_ok(self, id: int) -> bool {
        match self.n[id] {
            BTreeNode::Leaf(l) => self.leaf_ok(id, l),
            BTreeNode::Internal(m) => self.internal_ok(id, m),
        }
    }

    /// Every node up to level `top` is as it should be.
    spec fn upto(self, top: nat) -> bool {
        forall|a: int|
            0 <= a < self.n.len() && self.s.level[a] <= top ==> #[trigger] self.node_ok(a)
    }

    spec fn ok(self) -> bool {
        &&& self.base()
        &&& forall|a: int| 0 <= a < self.n.len() ==> #[trigger] self.node_ok(a)
        &&& sorted(self.entries())
    }

    /// The place of `key` lies below node `id`: every leaf left of it is less than `key`, and no
    /// leaf right of it is.
    spec fn routed(self, id: int, key: i64) -> bool {
        &&& 0 <= id < self.n.len()
        &&& self.s.kl[id] <= key <= self.s.kh[id]
        &&& forall|x: int| 0 <= x < self.s.lo[id] ==> all_lt(#[trigger] self.leaf(x), key)
        &&& forall|x: int|
            self.s.hi[id] <= x < self.s.order.len() ==> all_ge(#[trigger] self.leaf(x), key)
    }
}

/// The child right of every separator less than `key` is where the place of `key` lies.
proof fn lemma_route(t: Tree, id: int, m: InternalNode, key: i64, idx: int)
    requires
        t.ok(),
        t.routed(id, key),
        t.n[id] == BTreeNode::Internal(m),
        0 <= idx <= m.keys@.len(),
        forall|i: int| 0 <= i < idx ==> m.keys@[i] < key,
        forall|i: int| idx <= i < m.keys@.len() ==> m.keys@[i] >= key,
    ensures
        t.routed(m.children@[idx] as int, key),
        t.s.level[m.children@[idx] as int] + 1 == t.s.level[id],
        t.s.lo[id] <= t.s.lo[m.children@[idx] as int],
        t.s.hi[m.children@[idx] as int] <= t.s.hi[id],
{
    assert(t.node_ok(id));
    let c = m.children@[idx] as int;
    assert(t.internal_ok(id, m));
    if idx > 0 {
        assert(t.s.hi[m.children@[idx - 1] as int] <= t.s.lo[m.children@[idx] as int]);
    }
    if idx < m.keys@.len() {
        assert(t.s.hi[m.children@[idx] as int] <= t.s.lo[m.children@[idx + 1] as int]);
    }
    assert forall|x: int| 0 <= x < t.s.lo[c] implies all_lt(#[trigger] t.leaf(x), key) by {
        if x >= t.s.lo[id] {
            assert(idx > 0);
            assert(m.keys@[idx - 1] < key);
            assert(all_le(t.leaf(x), m.keys@[idx - 1]));
        }
    }
    assert forall|x: int| t.s.hi[c] <= x < t.s.order.len() implies all_ge(
        #[trigger] t.leaf(x),
        key,
    ) by {
        if x < t.s.hi[id] {
            assert(idx < m.keys@.len());
            assert(m.keys@[idx] >= key);
            assert(all_ge(t.leaf(x), m.keys@[idx]));
        }
    }
}

/// Where an entry of a leaf stands among all entries.
proof fn lemma_offset(t: Tree, x: int, i: int)
    requires
        0 <= x < t.s.order.len(),
        0 <= i < t.leaf(x).len(),
    ensures
        concat(t.leaves().take(x)).len() + i < t.entries().len(),
        t.entries()[concat(t.leaves().take(x)).len() + i] == t.leaf(x)[i],
{
    lemma_concat_parts(t.leaves(), x);
}

/// A leaf whose left neighbours are less than `key` and whose right neighbours are not, split at
/// `i`, splits all entries.
proof fn lemma_lower(t: Tree, x: int, i: int, key: i64)
    requires
        0 <= x < t.s.order.len(),
        is_lower(t.leaf(x), i, key),
        forall|y: int| 0 <= y < x ==> all_lt(#[trigger] t.leaf(y), key),
        forall|y: int| x < y < t.s.order.len() ==> all_ge(#[trigger] t.leaf(y), key),
    ensures
        is_lower(t.entries(), concat(t.leaves().take(x)).len() + i, key),
        below(t.entries(), key) == concat(t.leaves().take(x)).len() + i,
{
    let ls = t.leaves();
    let a = concat(ls.take(x));
    let b = concat(ls.skip(x + 1));
    lemma_concat_parts(ls, x);
    assert forall|y: int, j: int| 0 <= y < ls.take(x).len() && 0 <= j < ls.take(x)[y].len() implies (
    #[trigger] ls.take(x)[y][j]).0 < key by {
        assert(all_lt(t.leaf(y), key));
    }
    lemma_concat_all(ls.take(x), |e: Entry| e.0 < key);
    assert forall|y: int, j: int|
        0 <= y < ls.skip(x + 1).len() && 0 <= j < ls.skip(x + 1)[y].len() implies (#[trigger] ls.skip(
        x + 1,
    )[y][j]).0 >= key by {
        assert(all_ge(t.leaf(x + 1 + y), key));
    }
    lemma_concat_all(ls.skip(x + 1), |e: Entry| e.0 >= key);
    let e = t.entries();
    let p = a.len() + i;
    assert forall|k: int| 0 <= k < p implies (#[trigger] e[k]).0 < key by {
        if k < a.len() {
            assert(e[k] == a[k]);
        } else {
            assert(e[k] == t.leaf(x)[k - a.len()]);
        }
    }
    assert forall|k: int| p <= k < e.len() implies (#[trigger] e[k]).0 >= key by {
        if k < a.len() + t.leaf(x).len() {
            assert(e[k] == t.leaf(x)[k - a.len()]);
        } else {
            assert(e[k] == b[k - a.len() - t.leaf(x).len()]);
        }
    }
    lemma_below(e, p, key);
}

proof fn lemma_between_cat(a: Seq<Entry>, b: Seq<Entry>, start: i64, end: i64)
    ensures
        rids_between(a + b, start, end) == rids_between(a, start, end) + rids_between(
            b,
            start,
            end,
        ),
    decreases b.len(),
{
    if b.len() == 0 {
        assert(a + b =~= a);
        assert(rids_between(a, start, end) + rids_between(b, start, end) =~= rids_between(
            a,
            start,
            end,
        ));
    } else {
        lemma_between_cat(a, b.drop_last(), start, end);
        assert((a + b).drop_last() =~= a + b.drop_last());
        assert(rids_between(a + b, start, end) =~= rids_between(a, start, end) + rids_between(
            b,
            start,
            end,
        ));
    }
}

proof fn lemma_between_none(e: Seq<Entry>, start: i64, end: i64)
    requires
        forall|i: int| 0 <= i < e.len() ==> (#[trigger] e[i]).0 < start || e[i].0 > end,
    ensures
        rids_between(e, start, end) == Seq::<Rid>::empty(),
    decreases e.len(),
{
    if e.len() > 0 {
        let dl = e.drop_last();
        assert forall|i: int| 0 <= i < dl.len() implies (#[trigger] dl[i]).0 < start || dl[i].0
            > end by {
            assert(dl[i] == e[i]);
        }
        lemma_between_none(dl, start, end);
        assert(e[e.len() - 1].0 < start || e[e.len() - 1].0 > end);
    }
}

/// Removing entry `i` of a leaf.
proof fn lemma_delete(t0: Tree, t1: Tree, id: int, l0: LeafNode, l1: LeafNode, i: int)
    requires
        t0.ok(),
        0 <= id < t0.n.len(),
        t0.n[id] == BTreeNode::Leaf(l0),
        0 <= i < l0.keys@.len(),
        t1.s == t0.s,
        t1.n == t0.n.update(id, BTreeNode::Leaf(l1)),
        l1.keys@ == l0.keys@.remove(i),
        l1.rids@ == l0.rids@.remove(i),
        l1.next_leaf == l0.next_leaf,
    ensures
        t1.ok(),
        t1.entries() == t0.entries().remove(concat(t0.leaves().take(t0.s.lo[id])).len() + i),
{
    assert(t0.node_ok(id));
    let x = t0.s.lo[id];
    assert(t0.s.lo[id] < t0.s.hi[id]);
    let l = t0.leaf(x);
    let off = concat(t0.leaves().take(x)).len();
    assert(t1.leaf(x) =~= l.remove(i));
    assert forall|y: int| 0 <= y < t0.s.order.len() && y != x implies #[trigger] t1.leaf(y)
        == t0.leaf(y) by {
        assert(t0.s.lo[t0.s.order[y] as int] == y);
    }
    lemma_concat_parts(t0.leaves(), x);
    lemma_concat_parts(t1.leaves(), x);
    assert(t1.leaves().take(x) =~= t0.leaves().take(x));
    assert(t1.leaves().skip(x + 1) =~= t0.leaves().skip(x + 1));
    assert(t1.entries() =~= t0.entries().remove(off + i));
    assert forall|a: int, b: int| 0 <= a <= b < t1.entries().len() implies (
    #[trigger] t1.entries()[a]).0 <= (#[trigger] t1.entries()[b]).0 by {
        let a0 = if a < off + i {
            a
        } else {
            a + 1
        };
        let b0 = if b < off + i {
            b
        } else {
            b + 1
        };
        assert(t0.entries()[a0].0 <= t0.entries()[b0].0);
    }
    assert forall|a: int| 0 <= a < t1.n.len() implies #[trigger] t1.node_ok(a) by {
        assert(t0.node_ok(a));
        match t0.n[a] {
            BTreeNode::Leaf(_) => {},
            BTreeNode::Internal(m) => {
                assert(t1.children_ok(a, m));
                assert forall|k: int, y: int|
                    #![trigger m.keys@[k], t1.leaf(y)]
                    0 <= k < m.keys@.len() && t1.s.lo[a] <= y
                        < t1.s.hi[m.children@[k] as int] implies all_le(
                    t1.leaf(y),
                    m.keys@[k],
                ) by {
                    let key = m.keys@[k];
                    assert(m.children@[k] < t0.n.len());
                    assert(all_le(t0.leaf(y), m.keys@[k]));
                    assert(y == x ==> all_le(t1.leaf(y), key));
                }
                assert forall|k: int, y: int|
                    #![trigger m.keys@[k], t1.leaf(y)]
                    0 <= k < m.keys@.len() && t1.s.hi[m.children@[k] as int] <= y
                        < t1.s.hi[a] implies all_ge(t1.leaf(y), m.keys@[k]) by {
                    assert(m.children@[k] < t0.n.len());
                    assert(all_ge(t0.leaf(y), m.keys@[k]));
                }
            },
        }
    }
}

/// Where leaf bound `x` stands after leaf `p` split, if it did.
spec fn shift(x: int, p: int, grow: bool) -> int {
    if grow && x > p {
        x + 1
    } else {
        x
    }
}

/// The contents of the leaves after `key` went into leaf `p`, which split if `grow`.
spec fn leaves_stepped(t0: Tree, t1: Tree, key: i64, p: int, grow: bool) -> bool {
    let g = if grow {
        1int
    } else {
        0int
    };
    &&& 0 <= p < t0.s.order.len()
    &&& t1.s.order.len() == t0.s.order.len() + g
    &&& forall|x: int| 0 <= x < p ==> #[trigger] t1.leaf(x) == t0.leaf(x)
    &&& forall|y: int|
        p + g < y < t1.s.order.len() ==> #[trigger] t1.leaf(y) == t0.leaf(y - g)
    &&& forall|b: i64| #[trigger]
        all_le(t0.leaf(p), b) && key <= b ==> all_le(t1.leaf(p), b) && all_le(t1.leaf(p + g), b)
    &&& forall|b: i64| #[trigger]
        all_ge(t0.leaf(p), b) && key >= b ==> all_ge(t1.leaf(p), b) && all_ge(t1.leaf(p + g), b)
}

/// Node `a` keeps its place, apart from the shift of the leaves.
spec fn shifted(t0: Tree, t1: Tree, a: int, p: int, grow: bool) -> bool {
    &&& t1.s.lo[a] == shift(t0.s.lo[a], p, grow)
    &&& t1.s.hi[a] == shift(t0.s.hi[a], p, grow)
    &&& t1.s.kl[a] == t0.s.kl[a]
    &&& t1.s.kh[a] == t0.s.kh[a]
}

/// What inserting `key` below node `page` does. Levels above `page` are not repaired yet: if
/// `split` is set, `page` was split at that key and the node with that id is its right half.
spec fn stepped(
    t0: Tree,
    t1: Tree,
    page: int,
    key: i64,
    rid: Rid,
    p: int,
    grow: bool,
    split: Option<(i64, u32)>,
) -> bool {
    let s0 = t0.s;
    let s1 = t1.s;
    let top = s0.level[page];
    &&& t1.base()
    &&& t1.n.len() >= t0.n.len()
    &&& t1.upto(top)
    &&& s0.lo[page] <= p < s0.hi[page]
    &&& leaves_stepped(t0, t1, key, p, grow)
    &&& forall|a: int| 0 <= a < t0.n.len() ==> #[trigger] s1.level[a] == s0.level[a]
    &&& forall|a: int|
        #![trigger s1.lo[a]]
        #![trigger s1.hi[a]]
        #![trigger t1.n[a]]
        #![trigger s1.kl[a]]
        #![trigger s1.kh[a]]
        0 <= a < t0.n.len() && s0.level[a] >= top && a != page ==> t1.n[a] == t0.n[a] && shifted(
            t0,
            t1,
            a,
            p,
            grow,
        )
    &&& s1.lo[page] == s0.lo[page]
    &&& s1.kl[page] == s0.kl[page]
    &&& forall|a: int|
        t0.n.len() <= a < t1.n.len() ==> (#[trigger] s1.level[a]) <= top && (s1.level[a] == top
            ==> split is Some && (split->0).1 == a)
    &&& match split {
        None => shifted(t0, t1, page, p, grow),
        Some((k, r)) => {
            &&& grow
            &&& t0.n.len() <= r < t1.n.len()
            &&& s1.level[r as int] == top
            &&& s1.hi[page] == s1.lo[r as int]
            &&& s1.hi[r as int] == s0.hi[page] + 1
            &&& s1.kh[page] == k
            &&& s1.kl[r as int] == k
            &&& s1.kh[r as int] == s0.kh[page]
            &&& s0.kl[page] <= k <= s0.kh[page]
            &&& forall|x: int|
                s1.lo[page] <= x < s1.hi[page] ==> all_le(#[trigger] t1.leaf(x), k)
            &&& forall|x: int|
                s1.lo[r as int] <= x < s1.hi[r as int] ==> all_ge(#[trigger] t1.leaf(x), k)
        },
    }
    &&& t1.entries() == with_key(t0.entries(), key, rid)
}

/// Inserting into a leaf that does not split.
proof fn lemma_leaf_insert(
    t0: Tree,
    t1: Tree,
    id: int,
    l0: LeafNode,
    l1: LeafNode,
    i: int,
    key: i64,
    rid: Rid,
)
    requires
        t0.ok(),
        t0.routed(id, key),
        t0.n[id] == BTreeNode::Leaf(l0),
        0 <= i <= l0.keys@.len(),
        forall|k: int| 0 <= k < i ==> l0.keys@[k] < key,
        forall|k: int| i <= k < l0.keys@.len() ==> l0.keys@[k] >= key,
        t1.s == t0.s,
        t1.n == t0.n.update(id, BTreeNode::Leaf(l1)),
        l1.keys@ == l0.keys@.insert(i, key),
        l1.rids@ == l0.rids@.insert(i, rid),
        l1.next_leaf == l0.next_leaf,
    ensures
        stepped(t0, t1, id, key, rid, t0.s.lo[id], false, None),
        t1.leaf_ok(id, l1),
{
    assert(t0.node_ok(id));
    let x = t0.s.lo[id];
    assert(t0.s.lo[id] < t0.s.hi[id]);
    let l = t0.leaf(x);
    let off = concat(t0.leaves().take(x)).len();
    assert(t1.leaf(x) =~= l.insert(i, (key, rid)));
    assert forall|y: int| 0 <= y < t0.s.order.len() && y != x implies #[trigger] t1.leaf(y)
        == t0.leaf(y) by {
        assert(t0.s.lo[t0.s.order[y] as int] == y);
    }
    assert(is_lower(l, i, key)) by {
        assert forall|k: int| 0 <= k < i implies (#[trigger] l[k]).0 < key by {
            assert(l[k].0 == l0.keys@[k]);
        }
        assert forall|k: int| i <= k < l.len() implies (#[trigger] l[k]).0 >= key by {
            assert(l[k].0 == l0.keys@[k]);
        }
    }
    lemma_lower(t0, x, i, key);
    lemma_concat_parts(t0.leaves(), x);
    lemma_concat_parts(t1.leaves(), x);
    assert(t1.leaves().take(x) =~= t0.leaves().take(x));
    assert(t1.leaves().skip(x + 1) =~= t0.leaves().skip(x + 1));
    assert(t1.entries() =~= with_key(t0.entries(), key, rid));
    assert(t1.leaf_ok(id, l1)) by {
        assert(ascending(l1.keys@));
    }
    assert(t1.upto(0)) by {
        assert forall|a: int| 0 <= a < t1.n.len() && t1.s.level[a] <= 0 implies #[trigger] t1.node_ok(
            a,
        ) by {
            assert(t0.node_ok(a));
        }
    }
    assert forall|b: i64| #[trigger] all_le(t0.leaf(x), b) && key <= b implies all_le(
        t1.leaf(x),
        b,
    ) by {}
    assert forall|b: i64| #[trigger] all_ge(t0.leaf(x), b) && key >= b implies all_ge(
        t1.leaf(x),
        b,
    ) by {}
}

/// The shape after leaf `page`, the `p`th from the left, split off a right half.
spec fn leaf_split_shape(s: Shape, page: int, p: int, k: i64) -> Shape {
    let c = s.level.len();
    Shape {
        level: s.level.push(0),
        lo: Seq::new(
            c + 1,
            |a: int|
                if a == c {
                    p + 1
                } else {
                    shift(s.lo[a], p, true)
                },
        ),
        hi: Seq::new(
            c + 1,
            |a: int|
                if a == c {
                    p + 2
                } else if a == page {
                    p + 1
                } else {
                    shift(s.hi[a], p, true)
                },
        ),
        kl: s.kl.push(k),
        kh: s.kh.update(page, k).push(s.kh[page]),
        order: s.order.insert(p + 1, c as u32),
    }
}

/// Splitting the leaf that was inserted into.
#[verifier::rlimit(40)]
proof fn lemma_leaf_split(
    t0: Tree,
    t1: Tree,
    t2: Tree,
    id: int,
    l1: LeafNode,
    left: LeafNode,
    right: LeafNode,
    mid: int,
    key: i64,
    rid: Rid,
)
    requires
        t0.ok(),
        0 <= id < t0.n.len(),
        stepped(t0, t1, id, key, rid, t0.s.lo[id], false, None),
        t1.s == t0.s,
        t1.n.len() == t0.n.len(),
        t1.n[id] == BTreeNode::Leaf(l1),
        t1.leaf_ok(id, l1),
        forall|a: int| 0 <= a < t0.n.len() && a != id ==> t1.n[a] == t0.n[a],
        0 <= mid < l1.keys@.len(),
        t1.n.len() < MAX_NODES,
        left.keys@ == l1.keys@.take(mid),
        left.rids@ == l1.rids@.take(mid),
        left.next_leaf == Some(t1.n.len() as u32),
        right.keys@ == l1.keys@.skip(mid),
        right.rids@ == l1.rids@.skip(mid),
        right.next_leaf == l1.next_leaf,
        t2.n == t1.n.update(id, BTreeNode::Leaf(left)).push(BTreeNode::Leaf(right)),
        t2.s == leaf_split_shape(t1.s, id, t1.s.lo[id], right.keys@[0]),
    ensures
        stepped(
            t0,
            t2,
            id,
            key,
            rid,
            t0.s.lo[id],
            true,
            Some((right.keys@[0], t1.n.len() as u32)),
        ),
{
    let p = t0.s.lo[id];
    let c = t0.n.len() as int;
    let k = right.keys@[0];
    let s1 = t1.s;
    let s2 = t2.s;
    assert(t0.s.lo[id] < t0.s.hi[id]);
    assert(l1.keys@[mid] == k);
    assert forall|x: int| 0 <= x < p implies #[trigger] t2.leaf(x) == t1.leaf(x) by {
        assert(s2.order[x] == s1.order[x]);
        assert(s1.lo[s1.order[x] as int] == x);
    }
    assert forall|x: int| p + 1 < x < s2.order.len() implies #[trigger] t2.leaf(x) == t1.leaf(
        x - 1,
    ) by {
        assert(s2.order[x] == s1.order[x - 1]);
        assert(s1.lo[s1.order[x - 1] as int] == x - 1);
    }
    let l = t1.leaf(p);
    assert(s2.order[p] == id);
    assert(s2.order[p + 1] == c);
    assert(t2.leaf(p) =~= l.take(mid));
    assert(t2.leaf(p + 1) =~= l.skip(mid));
    // The entries as a whole do not change.
    lemma_concat_parts(t1.leaves(), p);
    lemma_concat_parts(t2.leaves(), p);
    assert(t2.leaves().take(p) =~= t1.leaves().take(p));
    let tail = t2.leaves().skip(p + 1);
    lemma_concat_parts(tail, 0);
    assert(tail.take(0) =~= Seq::empty());
    assert(concat(tail.take(0)) =~= Seq::empty());
    assert(tail.skip(1) =~= t1.leaves().skip(p + 1));
    assert(t2.entries() =~= t1.entries());
    // Contents.
    assert(leaves_stepped(t0, t2, key, p, true)) by {
        assert forall|b: i64| #[trigger] all_le(t0.leaf(p), b) && key <= b implies all_le(
            t2.leaf(p),
            b,
        ) && all_le(t2.leaf(p + 1), b) by {
            assert(all_le(t1.leaf(p), b));
        }
        assert forall|b: i64| #[trigger] all_ge(t0.leaf(p), b) && key >= b implies all_ge(
            t2.leaf(p),
            b,
        ) && all_ge(t2.leaf(p + 1), b) by {
            assert(all_ge(t1.leaf(p), b));
        }
    }
    // Places.
    assert(t2.base()) by {
        assert forall|x: int| 0 <= x < s2.order.len() implies (#[trigger] s2.order[x]) < c + 1
            && s2.level[s2.order[x] as int] == 0 && s2.lo[s2.order[x] as int] == x by {
            if x <= p {
                assert(s2.order[x] == s1.order[x]);
            } else if x > p + 1 {
                assert(s2.order[x] == s1.order[x - 1]);
            }
        }
        assert forall|a: int| 0 <= a < c + 1 implies 0 <= #[trigger] s2.lo[a] < s2.hi[a]
            <= s2.order.len() by {
            if a < c {
                assert(s1.lo[a] < s1.hi[a] <= s1.order.len());
            }
        }
        assert forall|a: int, b: int|
            0 <= a < c + 1 && 0 <= b < c + 1 && a != b && #[trigger] s2.level[a]
                == #[trigger] s2.level[b] implies s2.hi[a] <= s2.lo[b] || s2.hi[b] <= s2.lo[a] by {
            if a < c && b < c {
                assert(s1.level[a] == s1.level[b]);
                assert(s1.lo[a] < s1.hi[a]);
                assert(s1.lo[b] < s1.hi[b]);
            } else if a < c {
                assert(s1.level[a] == s1.level[id]);
                assert(s1.lo[a] < s1.hi[a]);
            } else if b < c {
                assert(s1.level[b] == s1.level[id]);
                assert(s1.lo[b] < s1.hi[b]);
            }
        }
    }
    assert(t2.upto(0)) by {
        assert forall|a: int| 0 <= a < t2.n.len() && t2.s.level[a] <= 0 implies #[trigger] t2.node_ok(
            a,
        ) by {
            if a == c {
                assert(t2.leaf_ok(c, right));
            } else if a == id {
                assert(t2.leaf_ok(id, left));
            } else {
                assert(t1.node_ok(a));
                assert(s1.level[a] == s1.level[id]);
                assert(s1.lo[a] < s1.hi[a]);
                match t1.n[a] {
                    BTreeNode::Leaf(m) => {
                        assert(t1.leaf_ok(a, m));
                        let y = s1.lo[a];
                        if y < p {
                            assert(s2.order[y] == s1.order[y]);
                            assert(s2.order[y + 1] == s1.order[y + 1]);
                        } else {
                            assert(s2.order[y + 1] == s1.order[y]);
                            if y + 1 < s1.order.len() {
                                assert(s2.order[y + 2] == s1.order[y + 1]);
                            }
                        }
                        assert(t2.leaf_ok(a, m));
                    },
                    BTreeNode::Internal(m) => {},
                }
            }
        }
    }
    assert forall|x: int| s2.lo[id] <= x < s2.hi[id] implies all_le(#[trigger] t2.leaf(x), k) by {
        assert(x == p);
        assert forall|j: int| 0 <= j < mid implies (#[trigger] t2.leaf(p)[j]).0 <= k by {
            assert(l1.keys@[j] <= l1.keys@[mid]);
        }
    }
    assert forall|x: int| s2.lo[c] <= x < s2.hi[c] implies all_ge(#[trigger] t2.leaf(x), k) by {
        assert(x == p + 1);
        assert forall|j: int| 0 <= j < l.len() - mid implies (#[trigger] t2.leaf(p + 1)[j]).0
            >= k by {
            assert(l1.keys@[mid] <= l1.keys@[mid + j]);
        }
    }
}

/// The children of a node, none of which split, still tile its range.
proof fn lemma_shifted_children(t0: Tree, t1: Tree, a: int, m: InternalNode, key: i64, p: int, grow: bool)
    requires
        t0.base(),
        t1.base(),
        0 <= a < t0.n.len() <= t1.n.len(),
        t0.internal_ok(a, m),
        t1.s.level[a] == t0.s.level[a],
        shifted(t0, t1, a, p, grow),
        forall|k: int|
            0 <= k < m.children@.len() ==> shifted(
                t0,
                t1,
                (#[trigger] m.children@[k]) as int,
                p,
                grow,
            ) && t1.s.level[m.children@[k] as int] == t0.s.level[m.children@[k] as int],
        leaves_stepped(t0, t1, key, p, grow),
        t0.s.lo[a] <= p < t0.s.hi[a] ==> forall|k: int|
            0 <= k < m.keys@.len() ==> if p < t0.s.hi[m.children@[k] as int] {
                key <= #[trigger] m.keys@[k]
            } else {
                key >= m.keys@[k]
            },
    ensures
        t1.children_ok(a, m),
{
    let s0 = t0.s;
    let s1 = t1.s;
    let g = if grow {
        1int
    } else {
        0int
    };
    let ch = m.children@;
    assert(shifted(t0, t1, ch[m.keys@.len() as int] as int, p, grow));
    assert(shifted(t0, t1, ch[0] as int, p, grow));
    assert forall|k: int| 0 <= k < ch.len() implies {
        let c = #[trigger] ch[k];
        &&& c < t1.n.len()
        &&& s1.level[c as int] + 1 == s1.level[a]
        &&& s1.lo[a] <= s1.lo[c as int]
        &&& s1.hi[c as int] <= s1.hi[a]
    } by {
        assert(shifted(t0, t1, ch[k] as int, p, grow));
    }
    assert forall|j: int, k: int| 0 <= j < k < ch.len() implies {
        let c = (#[trigger] ch[j]) as int;
        let d = (#[trigger] ch[k]) as int;
        &&& s1.hi[c] <= s1.lo[d]
        &&& k == j + 1 ==> s1.hi[c] == s1.lo[d] && s1.kh[c] == m.keys@[j] && s1.kl[d] == m.keys@[j]
    } by {
        assert(s0.hi[ch[j] as int] <= s0.lo[ch[k] as int]);
    }
}

/// The separators of a node, none of whose children split, still separate.
proof fn lemma_shifted_seps(t0: Tree, t1: Tree, a: int, m: InternalNode, key: i64, p: int, grow: bool)
    requires
        t0.base(),
        t1.base(),
        0 <= a < t0.n.len() <= t1.n.len(),
        t0.internal_ok(a, m),
        t1.s.level[a] == t0.s.level[a],
        shifted(t0, t1, a, p, grow),
        forall|k: int|
            0 <= k < m.children@.len() ==> shifted(
                t0,
                t1,
                (#[trigger] m.children@[k]) as int,
                p,
                grow,
            ) && t1.s.level[m.children@[k] as int] == t0.s.level[m.children@[k] as int],
        leaves_stepped(t0, t1, key, p, grow),
        t0.s.lo[a] <= p < t0.s.hi[a] ==> forall|k: int|
            0 <= k < m.keys@.len() ==> if p < t0.s.hi[m.children@[k] as int] {
                key <= #[trigger] m.keys@[k]
            } else {
                key >= m.keys@[k]
            },
    ensures
        t1.seps_ok(a, m),
{
    let s0 = t0.s;
    let s1 = t1.s;
    let g = if grow {
        1int
    } else {
        0int
    };
    let ch = m.children@;
    assert forall|k: int, x: int|
        #![trigger m.keys@[k], t1.leaf(x)]
        0 <= k < m.keys@.len() && s1.lo[a] <= x < s1.hi[ch[k] as int] implies all_le(
        t1.leaf(x),
        m.keys@[k],
    ) by {
        let b = m.keys@[k];
        assert(shifted(t0, t1, ch[k] as int, p, grow));
        assert(ch[k] < t0.n.len());
        assert(s0.hi[ch[k] as int] <= s0.hi[a]);
        if x < p {
            assert(all_le(t0.leaf(x), b));
        } else if x > p + g {
            assert(all_le(t0.leaf(x - g), b));
        } else {
            assert(all_le(t0.leaf(p), b));
        }
    }
    assert forall|k: int, x: int|
        #![trigger m.keys@[k], t1.leaf(x)]
        0 <= k < m.keys@.len() && s1.hi[ch[k] as int] <= x < s1.hi[a] implies all_ge(
        t1.leaf(x),
        m.keys@[k],
    ) by {
        let b = m.keys@[k];
        assert(shifted(t0, t1, ch[k] as int, p, grow));
        assert(ch[k] < t0.n.len());
        assert(s0.lo[a] <= s0.lo[ch[k] as int] < s0.hi[ch[k] as int]);
        if x < p {
            assert(all_ge(t0.leaf(x), b));
        } else if x > p + g {
            assert(all_ge(t0.leaf(x - g), b));
        } else {
            assert(all_ge(t0.leaf(p), b));
        }
    }
}

/// An internal node none of whose children split is still as it should be.
proof fn lemma_shifted(t0: Tree, t1: Tree, a: int, m: InternalNode, key: i64, p: int, grow: bool)
    requires
        t0.base(),
        t1.base(),
        0 <= a < t0.n.len() <= t1.n.len(),
        t0.internal_ok(a, m),
        t1.s.level[a] == t0.s.level[a],
        shifted(t0, t1, a, p, grow),
        forall|k: int|
            0 <= k < m.children@.len() ==> shifted(
                t0,
                t1,
                (#[trigger] m.children@[k]) as int,
                p,
                grow,
            ) && t1.s.level[m.children@[k] as int] == t0.s.level[m.children@[k] as int],
        leaves_stepped(t0, t1, key, p, grow),
        t0.s.lo[a] <= p < t0.s.hi[a] ==> forall|k: int|
            0 <= k < m.keys@.len() ==> if p < t0.s.hi[m.children@[k] as int] {
                key <= #[trigger] m.keys@[k]
            } else {
                key >= m.keys@[k]
            },
    ensures
        t1.internal_ok(a, m),
{
    lemma_shifted_children(t0, t1, a, m, key, p, grow);
    lemma_shifted_seps(t0, t1, a, m, key, p, grow);
}

/// After an insertion below child `child` of `page`, every other node at the level of `page` is
/// as it should be.
proof fn lemma_others(
    t0: Tree,
    t1: Tree,
    page: int,
    child: int,
    key: i64,
    rid: Rid,
    p: int,
    grow: bool,
    split: Option<(i64, u32)>,
    a: int,
)
    requires
        t0.ok(),
        0 <= page < t0.n.len(),
        0 <= child < t0.n.len(),
        t0.s.level[page] == t0.s.level[child] + 1,
        t0.s.lo[page] <= t0.s.lo[child],
        t0.s.hi[child] <= t0.s.hi[page],
        stepped(t0, t1, child, key, rid, p, grow, split),
        0 <= a < t1.n.len(),
        a != page,
        t1.s.level[a] == t0.s.level[page],
    ensures
        a < t0.n.len(),
        t1.node_ok(a),
{
    assert(a < t0.n.len());
    assert(t0.s.level[a] == t0.s.level[page]);
    assert(t0.node_ok(a));
    assert(t1.n[a] == t0.n[a]);
    assert(t0.s.lo[a] < t0.s.hi[a]);
    assert(t0.s.lo[page] < t0.s.hi[page]);
    match t0.n[a] {
        BTreeNode::Leaf(_) => {},
        BTreeNode::Internal(m) => {
            assert forall|k: int| 0 <= k < m.children@.len() implies shifted(
                t0,
                t1,
                (#[trigger] m.children@[k]) as int,
                p,
                grow,
            ) && t1.s.level[m.children@[k] as int] == t0.s.level[m.children@[k] as int] by {
                let c = m.children@[k] as int;
                assert(t0.s.lo[a] <= t0.s.lo[c] && t0.s.hi[c] <= t0.s.hi[a]);
                assert(c != child);
                assert(t1.s.level[c] == t0.s.level[c]);
                assert(t1.s.lo[c] == shift(t0.s.lo[c], p, grow));
            }
            assert(t1.s.lo[a] == shift(t0.s.lo[a], p, grow));
            lemma_shifted(t0, t1, a, m, key, p, grow);
        },
    }
}

/// An insertion below a child that did not split is one below the node.
proof fn lemma_pass(
    t0: Tree,
    t1: Tree,
    page: int,
    m: InternalNode,
    idx: int,
    key: i64,
    rid: Rid,
    p: int,
    grow: bool,
)
    requires
        t0.ok(),
        t0.routed(page, key),
        t0.n[page] == BTreeNode::Internal(m),
        0 <= idx <= m.keys@.len(),
        forall|i: int| 0 <= i < idx ==> m.keys@[i] < key,
        forall|i: int| idx <= i < m.keys@.len() ==> m.keys@[i] >= key,
        stepped(t0, t1, m.children@[idx] as int, key, rid, p, grow, None),
    ensures
        stepped(t0, t1, page, key, rid, p, grow, None),
        t1.n[page] == BTreeNode::Internal(m),
{
    lemma_route(t0, page, m, key, idx);
    let child = m.children@[idx] as int;
    let top = t0.s.level[page];
    assert(t0.node_ok(page));
    assert(t1.n[page] == t0.n[page]);
    assert(t1.s.lo[page] == shift(t0.s.lo[page], p, grow));
    assert forall|k: int| 0 <= k < m.children@.len() implies shifted(
        t0,
        t1,
        (#[trigger] m.children@[k]) as int,
        p,
        grow,
    ) && t1.s.level[m.children@[k] as int] == t0.s.level[m.children@[k] as int] by {
        let c = m.children@[k] as int;
        assert(t1.s.level[c] == t0.s.level[c]);
        if c != child {
            assert(t1.s.lo[c] == shift(t0.s.lo[c], p, grow));
        }
    }
    assert forall|k: int| 0 <= k < m.keys@.len() implies if p < t0.s.hi[m.children@[k] as int] {
        key <= #[trigger] m.keys@[k]
    } else {
        key >= m.keys@[k]
    } by {
        if k < idx {
            assert(t0.s.hi[m.children@[k] as int] <= t0.s.lo[m.children@[idx] as int]);
        } else if k > idx {
            assert(t0.s.hi[m.children@[idx] as int] <= t0.s.lo[m.children@[k] as int]);
            assert(t0.s.lo[m.children@[k] as int] < t0.s.hi[m.children@[k] as int]);
        }
    }
    lemma_shifted(t0, t1, page, m, key, p, grow);
    assert(t1.upto(top)) by {
        assert forall|a: int|
            0 <= a < t1.n.len() && t1.s.level[a] <= top implies #[trigger] t1.node_ok(a) by {
            if t1.s.level[a] == top {
                if a != page {
                    lemma_others(t0, t1, page, child, key, rid, p, grow, None, a);
                }
            }
        }
    }
    assert forall|a: int|
        #![trigger t1.s.lo[a]]
        #![trigger t1.s.hi[a]]
        #![trigger t1.n[a]]
        #![trigger t1.s.kl[a]]
        #![trigger t1.s.kh[a]]
        0 <= a < t0.n.len() && t0.s.level[a] >= top && a != page implies t1.n[a] == t0.n[a]
        && shifted(t0, t1, a, p, grow) by {
        assert(t1.s.lo[a] == shift(t0.s.lo[a], p, grow));
    }
}

/// Replacing an internal node leaves every leaf as it was.
proof fn lemma_same_leaves(t1: Tree, t2: Tree, page: int)
    requires
        t1.base(),
        t2.s == t1.s,
        0 <= page < t1.n.len(),
        t1.s.level[page] > 0,
        t1.n.len() == t2.n.len(),
        forall|a: int| 0 <= a < t1.n.len() && a != page ==> t2.n[a] == t1.n[a],
    ensures
        t2.base(),
        forall|x: int| 0 <= x < t1.s.order.len() ==> #[trigger] t2.leaf(x) == t1.leaf(x),
        t2.entries() == t1.entries(),
{
    assert forall|x: int| 0 <= x < t1.s.order.len() implies #[trigger] t2.leaf(x) == t1.leaf(x) by {
        assert(t1.s.level[t1.s.order[x] as int] == 0);
    }
    assert(t2.leaves() =~= t1.leaves());
}

/// A node keeps its state when neither it nor the leaves nor the shape change.
proof fn lemma_same_node(t1: Tree, t2: Tree, a: int)
    requires
        t1.base(),
        t2.s == t1.s,
        t1.n.len() == t2.n.len(),
        0 <= a < t1.n.len(),
        t2.n[a] == t1.n[a],
        forall|x: int| 0 <= x < t1.s.order.len() ==> #[trigger] t2.leaf(x) == t1.leaf(x),
        t1.node_ok(a),
    ensures
        t2.node_ok(a),
{
    assert(t1.s.lo[a] >= 0 && t1.s.hi[a] <= t1.s.order.len());
    match t1.n[a] {
        BTreeNode::Leaf(_) => {},
        BTreeNode::Internal(m) => {
            assert(t2.children_ok(a, m));
            assert forall|k: int, x: int|
                #![trigger m.keys@[k], t2.leaf(x)]
                0 <= k < m.keys@.len() && t2.s.lo[a] <= x
                    < t2.s.hi[m.children@[k] as int] implies all_le(t2.leaf(x), m.keys@[k]) by {
                assert(m.children@[k] < t1.n.len());
                assert(all_le(t1.leaf(x), m.keys@[k]));
            }
            assert forall|k: int, x: int|
                #![trigger m.keys@[k], t2.leaf(x)]
                0 <= k < m.keys@.len() && t2.s.hi[m.children@[k] as int] <= x
                    < t2.s.hi[a] implies all_ge(t2.leaf(x), m.keys@[k]) by {
                let c = m.children@[k] as int;
                assert(m.children@[k] < t1.n.len());
                assert(t1.s.lo[c] >= 0);
                assert(all_ge(t1.leaf(x), m.keys@[k]));
            }
        },
    }
}

/// Where the children of node `page` stand after child `idx` split at key `k` into itself and `r`.
spec fn placed(
    t0: Tree,
    t1: Tree,
    page: int,
    m: InternalNode,
    idx: int,
    p: int,
    k: i64,
    r: u32,
) -> bool {
    let s0 = t0.s;
    let s1 = t1.s;
    let c = m.children@[idx] as int;
    &&& 0 <= idx <= m.keys@.len()
    &&& m.children@.len() == m.keys@.len() + 1
    &&& forall|j: int|
        0 <= j < m.children@.len() && j != idx ==> {
            let d = (#[trigger] m.children@[j]) as int;
            &&& shifted(t0, t1, d, p, true)
            &&& s1.level[d] + 1 == s0.level[page]
            &&& d < t1.n.len()
        }
    &&& forall|j: int|
        0 <= j < m.children@.len() ==> 0 <= s0.lo[(#[trigger] m.children@[j]) as int]
            < s0.hi[m.children@[j] as int]
    &&& shifted(t0, t1, page, p, true)
    &&& s1.level[page] == s0.level[page]
    &&& s0.lo[page] <= p < s0.hi[page]
    &&& forall|j: int| 0 <= j < idx ==> s0.hi[(#[trigger] m.children@[j]) as int] <= p
    &&& forall|j: int|
        idx < j < m.children@.len() ==> p < s0.lo[(#[trigger] m.children@[j]) as int]
    &&& s0.lo[c] <= p < s0.hi[c]
    &&& c < t1.n.len()
    &&& r < t1.n.len()
    &&& s1.level[c] + 1 == s0.level[page]
    &&& s1.level[r as int] + 1 == s0.level[page]
    &&& s1.lo[c] == s0.lo[c]
    &&& s1.lo[c] < s1.hi[c]
    &&& s1.hi[c] == s1.lo[r as int]
    &&& s1.lo[r as int] < s1.hi[r as int]
    &&& s1.hi[r as int] == s0.hi[c] + 1
    &&& s1.kl[c] == s0.kl[c]
    &&& s1.kh[c] == k
    &&& s1.kl[r as int] == k
    &&& s1.kh[r as int] == s0.kh[c]
    &&& s0.kl[c] <= k <= s0.kh[c]
}

proof fn lemma_absorb_places(
    t0: Tree,
    t1: Tree,
    t2: Tree,
    page: int,
    m: InternalNode,
    m2: InternalNode,
    idx: int,
    key: i64,
    rid: Rid,
    p: int,
    k: i64,
    r: u32,
)
    requires
        t0.ok(),
        t0.routed(page, key),
        t0.n[page] == BTreeNode::Internal(m),
        0 <= idx <= m.keys@.len(),
        forall|i: int| 0 <= i < idx ==> m.keys@[i] < key,
        forall|i: int| idx <= i < m.keys@.len() ==> m.keys@[i] >= key,
        stepped(t0, t1, m.children@[idx] as int, key, rid, p, true, Some((k, r))),
        t2.s == t1.s,
        t2.n == t1.n.update(page, BTreeNode::Internal(m2)),
        m2.keys@ == m.keys@.insert(idx, k),
        m2.children@ == m.children@.insert(idx + 1, r),
    ensures
        placed(t0, t1, page, m, idx, p, k, r),
{
    lemma_route(t0, page, m, key, idx);
    let child = m.children@[idx] as int;
    assert(t0.node_ok(page));
    assert(t1.s.lo[page] == shift(t0.s.lo[page], p, true));
    assert(t1.s.level[page] == t0.s.level[page]);
    assert(t1.s.level[child] == t0.s.level[child]);
    assert(t1.s.lo[child] < t1.s.hi[child]);
    assert(t1.s.lo[r as int] < t1.s.hi[r as int]);
    assert forall|j: int| 0 <= j < m.children@.len() && j != idx implies {
        let d = (#[trigger] m.children@[j]) as int;
        &&& shifted(t0, t1, d, p, true)
        &&& t1.s.level[d] + 1 == t0.s.level[page]
        &&& d < t1.n.len()
    } by {
        let c = m.children@[j] as int;
        assert(t0.s.lo[c] < t0.s.hi[c]);
        assert(t0.s.lo[child] < t0.s.hi[child]);
        if j < idx {
            assert(t0.s.hi[m.children@[j] as int] <= t0.s.lo[m.children@[idx] as int]);
        } else {
            assert(t0.s.hi[m.children@[idx] as int] <= t0.s.lo[m.children@[j] as int]);
        }
        assert(c != child);
        assert(t1.s.level[c] == t0.s.level[c]);
        assert(t1.s.lo[c] == shift(t0.s.lo[c], p, true));
    }
    assert forall|j: int| 0 <= j < idx implies t0.s.hi[(#[trigger] m.children@[j]) as int] <= p by {
        assert(t0.s.hi[m.children@[j] as int] <= t0.s.lo[m.children@[idx] as int]);
    }
    assert forall|j: int| idx < j < m.children@.len() implies p < t0.s.lo[(
    #[trigger] m.children@[j]) as int] by {
        assert(t0.s.hi[m.children@[idx] as int] <= t0.s.lo[m.children@[j] as int]);
    }
}

/// Child `j` of the node lies within it.
proof fn lemma_absorb_child(
    t0: Tree,
    t1: Tree,
    page: int,
    m: InternalNode,
    m2: InternalNode,
    idx: int,
    p: int,
    k: i64,
    r: u32,
    j: int,
)
    requires
        placed(t0, t1, page, m, idx, p, k, r),
        t0.children_ok(page, m),
        m2.keys@ == m.keys@.insert(idx, k),
        m2.children@ == m.children@.insert(idx + 1, r),
        0 <= j < m2.children@.len(),
    ensures
        m2.children@[j] < t1.n.len(),
        t1.s.level[m2.children@[j] as int] + 1 == t1.s.level[page],
        t1.s.lo[page] <= t1.s.lo[m2.children@[j] as int],
        t1.s.hi[m2.children@[j] as int] <= t1.s.hi[page],
{
    let j0 = if j <= idx {
        j
    } else {
        j - 1
    };
    assert(t0.s.lo[page] <= t0.s.lo[m.children@[j0] as int]);
    assert(t0.s.lo[page] <= t0.s.lo[m.children@[idx] as int]);
}

/// Child `i` of the node lies before child `j`, directly if it is the next one.
proof fn lemma_absorb_pair(
    t0: Tree,
    t1: Tree,
    page: int,
    m: InternalNode,
    m2: InternalNode,
    idx: int,
    p: int,
    k: i64,
    r: u32,
    i: int,
    j: int,
)
    requires
        placed(t0, t1, page, m, idx, p, k, r),
        t0.children_ok(page, m),
        m2.keys@ == m.keys@.insert(idx, k),
        m2.children@ == m.children@.insert(idx + 1, r),
        0 <= i < j < m2.children@.len(),
    ensures
        t1.s.hi[m2.children@[i] as int] <= t1.s.lo[m2.children@[j] as int],
        j == i + 1 ==> {
            &&& t1.s.hi[m2.children@[i] as int] == t1.s.lo[m2.children@[j] as int]
            &&& t1.s.kh[m2.children@[i] as int] == m2.keys@[i]
            &&& t1.s.kl[m2.children@[j] as int] == m2.keys@[i]
        },
{
    let ch0 = m.children@;
    let i0 = if i <= idx {
        i
    } else {
        i - 1
    };
    let j0 = if j <= idx {
        j
    } else {
        j - 1
    };
    assert(t0.s.lo[ch0[i0] as int] < t0.s.hi[ch0[i0] as int]);
    assert(t0.s.lo[ch0[j0] as int] < t0.s.hi[ch0[j0] as int]);
    if i0 < j0 {
        assert(t0.s.hi[ch0[i0] as int] <= t0.s.lo[ch0[j0] as int]);
    }
}

proof fn lemma_absorb_children(
    t0: Tree,
    t1: Tree,
    page: int,
    m: InternalNode,
    m2: InternalNode,
    idx: int,
    p: int,
    k: i64,
    r: u32,
)
    requires
        placed(t0, t1, page, m, idx, p, k, r),
        t0.children_ok(page, m),
        m2.keys@ == m.keys@.insert(idx, k),
        m2.children@ == m.children@.insert(idx + 1, r),
    ensures
        t1.children_ok(page, m2),
{
    let s1 = t1.s;
    let ch = m2.children@;
    let ks = m2.keys@;
    assert forall|j: int| 0 <= j < ch.len() implies {
        let c = #[trigger] ch[j];
        &&& c < t1.n.len()
        &&& s1.level[c as int] + 1 == s1.level[page]
        &&& s1.lo[page] <= s1.lo[c as int]
        &&& s1.hi[c as int] <= s1.hi[page]
    } by {
        lemma_absorb_child(t0, t1, page, m, m2, idx, p, k, r, j);
    }
    assert forall|i: int, j: int| 0 <= i < j < ch.len() implies {
        let c = (#[trigger] ch[i]) as int;
        let d = (#[trigger] ch[j]) as int;
        &&& s1.hi[c] <= s1.lo[d]
        &&& j == i + 1 ==> s1.hi[c] == s1.lo[d] && s1.kh[c] == ks[i] && s1.kl[d] == ks[i]
    } by {
        lemma_absorb_pair(t0, t1, page, m, m2, idx, p, k, r, i, j);
    }
    assert(ch[0] == m.children@[0]);
    if idx < m.keys@.len() {
        assert(ch[ks.len() as int] == m.children@[m.keys@.len() as int]);
    }
}

proof fn lemma_absorb_seps_le(
    t0: Tree,
    t1: Tree,
    page: int,
    m: InternalNode,
    m2: InternalNode,
    idx: int,
    key: i64,
    p: int,
    k: i64,
    r: u32,
    j: int,
    x: int,
)
    requires
        placed(t0, t1, page, m, idx, p, k, r),
        t0.children_ok(page, m),
        t0.seps_ok(page, m),
        forall|i: int| 0 <= i < idx ==> m.keys@[i] < key,
        forall|i: int| idx <= i < m.keys@.len() ==> m.keys@[i] >= key,
        leaves_stepped(t0, t1, key, p, true),
        t1.s.hi[page] <= t1.s.order.len(),
        forall|y: int|
            t1.s.lo[m.children@[idx] as int] <= y < t1.s.hi[m.children@[idx] as int] ==> all_le(
                #[trigger] t1.leaf(y),
                k,
            ),
        m2.keys@ == m.keys@.insert(idx, k),
        m2.children@ == m.children@.insert(idx + 1, r),
        0 <= j < m2.keys@.len(),
        t1.s.lo[page] <= x < t1.s.hi[m2.children@[j] as int],
        0 <= t1.s.lo[page],
    ensures
        all_le(t1.leaf(x), m2.keys@[j]),
{
    let s0 = t0.s;
    let s1 = t1.s;
    let ch0 = m.children@;
    if j < idx {
        assert(m2.children@[j] == ch0[j]);
        assert(all_le(t0.leaf(x), m.keys@[j]));
        assert(t1.leaf(x) == t0.leaf(x));
    } else if j == idx {
        assert(m2.children@[j] == ch0[j]);
        if x < s1.lo[ch0[idx] as int] {
            assert(idx > 0);
            assert(s0.hi[ch0[idx - 1] as int] <= s0.lo[ch0[idx] as int]);
            assert(all_le(t0.leaf(x), m.keys@[idx - 1]));
            assert(t1.leaf(x) == t0.leaf(x));
            assert(s0.kl[ch0[idx] as int] == m.keys@[idx - 1]);
        } else {
            assert(all_le(t1.leaf(x), k));
        }
    } else {
        let j0 = j - 1;
        let b = m.keys@[j0];
        assert(m2.keys@[j] == b);
        assert(key <= b);
        assert(s1.hi[m2.children@[j] as int] == s0.hi[ch0[j0] as int] + 1) by {
            if j == idx + 1 {
                assert(m2.children@[j] == r);
            } else {
                assert(m2.children@[j] == ch0[j0]);
            }
        }
        assert(s0.hi[ch0[j0] as int] > p);
        if x < p {
            assert(all_le(t0.leaf(x), b));
            assert(t1.leaf(x) == t0.leaf(x));
        } else if x > p + 1 {
            assert(s1.hi[m2.children@[j] as int] <= s1.order.len()) by {
                assert(s0.hi[ch0[j0] as int] <= s0.hi[page]);
            }
            assert(all_le(t0.leaf(x - 1), b));
            assert(t1.leaf(x) == t0.leaf(x - 1));
        } else {
            assert(all_le(t0.leaf(p), b));
        }
    }
}

proof fn lemma_absorb_seps_ge(
    t0: Tree,
    t1: Tree,
    page: int,
    m: InternalNode,
    m2: InternalNode,
    idx: int,
    key: i64,
    p: int,
    k: i64,
    r: u32,
    j: int,
    x: int,
)
    requires
        placed(t0, t1, page, m, idx, p, k, r),
        t0.children_ok(page, m),
        t0.seps_ok(page, m),
        forall|i: int| 0 <= i < idx ==> m.keys@[i] < key,
        forall|i: int| idx <= i < m.keys@.len() ==> m.keys@[i] >= key,
        leaves_stepped(t0, t1, key, p, true),
        t1.s.hi[page] <= t1.s.order.len(),
        forall|y: int|
            t1.s.lo[r as int] <= y < t1.s.hi[r as int] ==> all_ge(#[trigger] t1.leaf(y), k),
        m2.keys@ == m.keys@.insert(idx, k),
        m2.children@ == m.children@.insert(idx + 1, r),
        0 <= j < m2.keys@.len(),
        t1.s.hi[m2.children@[j] as int] <= x < t1.s.hi[page],
    ensures
        all_ge(t1.leaf(x), m2.keys@[j]),
{
    let s0 = t0.s;
    let s1 = t1.s;
    let ch0 = m.children@;
    if j < idx {
        let b = m.keys@[j];
        assert(m2.children@[j] == ch0[j]);
        assert(m2.keys@[j] == b);
        assert(key > b);
        if x < p {
            assert(all_ge(t0.leaf(x), b));
            assert(t1.leaf(x) == t0.leaf(x));
        } else if x > p + 1 {
            assert(all_ge(t0.leaf(x - 1), b));
            assert(t1.leaf(x) == t0.leaf(x - 1));
        } else {
            assert(all_ge(t0.leaf(p), b));
        }
    } else if j == idx {
        assert(m2.children@[j] == ch0[j]);
        if x < s1.hi[r as int] {
            assert(all_ge(t1.leaf(x), k));
        } else {
            assert(s0.hi[ch0[m.keys@.len() as int] as int] == s0.hi[page]);
            assert(idx < m.keys@.len());
            let b = m.keys@[idx];
            assert(s0.hi[ch0[idx] as int] <= s0.lo[ch0[idx + 1] as int]);
            assert(all_ge(t0.leaf(x - 1), b));
            assert(t1.leaf(x) == t0.leaf(x - 1));
        }
    } else {
        let j0 = j - 1;
        let b = m.keys@[j0];
        assert(m2.keys@[j] == b);
        assert(s1.hi[m2.children@[j] as int] == s0.hi[ch0[j0] as int] + 1) by {
            if j == idx + 1 {
                assert(m2.children@[j] == r);
            } else {
                assert(m2.children@[j] == ch0[j0]);
            }
        }
        assert(s0.hi[ch0[j0] as int] > p);
        assert(all_ge(t0.leaf(x - 1), b));
        assert(t1.leaf(x) == t0.leaf(x - 1));
    }
}

/// The keys of a node after it took up separator `k` between its neighbours.
proof fn lemma_absorb_keys(m: InternalNode, m2: InternalNode, idx: int, k: i64, lo: i64, hi: i64)
    requires
        ascending(m.keys@),
        0 <= idx <= m.keys@.len(),
        forall|j: int| 0 <= j < m.keys@.len() ==> lo <= #[trigger] m.keys@[j] <= hi,
        lo <= k <= hi,
        idx > 0 ==> m.keys@[idx - 1] <= k,
        idx < m.keys@.len() ==> k <= m.keys@[idx],
        m2.keys@ == m.keys@.insert(idx, k),
    ensures
        ascending(m2.keys@),
        forall|j: int| 0 <= j < m2.keys@.len() ==> lo <= #[trigger] m2.keys@[j] <= hi,
{
    assert forall|i: int, j: int| 0 <= i <= j < m2.keys@.len() implies m2.keys@[i] <= m2.keys@[j] by {
        let i0 = if i <= idx {
            i
        } else {
            i - 1
        };
        let j0 = if j <= idx {
            j
        } else {
            j - 1
        };
        if i < idx && j == idx {
            assert(m.keys@[i] <= m.keys@[idx - 1]);
        } else if i == idx && j > idx {
            assert(m.keys@[idx] <= m.keys@[j - 1]);
        } else if i != idx && j != idx {
            assert(m.keys@[i0] <= m.keys@[j0]);
        }
    }
}

/// The node that took up the right half of a child is as it should be.
proof fn lemma_absorb_node(
    t0: Tree,
    t1: Tree,
    t2: Tree,
    page: int,
    m: InternalNode,
    m2: InternalNode,
    idx: int,
    key: i64,
    rid: Rid,
    p: int,
    k: i64,
    r: u32,
)
    requires
        t0.ok(),
        t0.routed(page, key),
        t0.n[page] == BTreeNode::Internal(m),
        0 <= idx <= m.keys@.len(),
        forall|i: int| 0 <= i < idx ==> m.keys@[i] < key,
        forall|i: int| idx <= i < m.keys@.len() ==> m.keys@[i] >= key,
        stepped(t0, t1, m.children@[idx] as int, key, rid, p, true, Some((k, r))),
        t2.s == t1.s,
        t2.n == t1.n.update(page, BTreeNode::Internal(m2)),
        m2.keys@ == m.keys@.insert(idx, k),
        m2.children@ == m.children@.insert(idx + 1, r),
    ensures
        t2.internal_ok(page, m2),
        placed(t0, t1, page, m, idx, p, k, r),
{
    lemma_absorb_places(t0, t1, t2, page, m, m2, idx, key, rid, p, k, r);
    assert(t0.node_ok(page));
    assert(t0.internal_ok(page, m));
    lemma_absorb_children(t0, t1, page, m, m2, idx, p, k, r);
    lemma_same_leaves(t1, t2, page);
    let c = m.children@[idx] as int;
    if idx > 0 {
        assert(t0.s.hi[m.children@[idx - 1] as int] <= t0.s.lo[m.children@[idx] as int]);
    }
    if idx < m.keys@.len() {
        assert(t0.s.hi[m.children@[idx] as int] <= t0.s.lo[m.children@[idx + 1] as int]);
    }
    lemma_absorb_keys(m, m2, idx, k, t0.s.kl[page], t0.s.kh[page]);
    assert(t1.s.lo[page] >= 0 && t1.s.hi[page] <= t1.s.order.len());
    assert(t2.children_ok(page, m2));
    assert forall|j: int, x: int|
        #![trigger m2.keys@[j], t2.leaf(x)]
        0 <= j < m2.keys@.len() && t2.s.lo[page] <= x
            < t2.s.hi[m2.children@[j] as int] implies all_le(t2.leaf(x), m2.keys@[j]) by {
        lemma_absorb_seps_le(t0, t1, page, m, m2, idx, key, p, k, r, j, x);
        assert(t2.s.hi[m2.children@[j] as int] <= t2.s.hi[page]);
    }
    assert forall|j: int, x: int|
        #![trigger m2.keys@[j], t2.leaf(x)]
        0 <= j < m2.keys@.len() && t2.s.hi[m2.children@[j] as int] <= x
            < t2.s.hi[page] implies all_ge(t2.leaf(x), m2.keys@[j]) by {
        lemma_absorb_seps_ge(t0, t1, page, m, m2, idx, key, p, k, r, j, x);
        assert(t2.s.lo[page] <= t2.s.lo[m2.children@[j] as int]);
        assert(t2.s.lo[m2.children@[j] as int] < t2.s.hi[m2.children@[j] as int]);
    }
}

/// Taking up the right half of a child that split.
proof fn lemma_absorb(
    t0: Tree,
    t1: Tree,
    t2: Tree,
    page: int,
    m: InternalNode,
    m2: InternalNode,
    idx: int,
    key: i64,
    rid: Rid,
    p: int,
    k: i64,
    r: u32,
)
    requires
        t0.ok(),
        t0.routed(page, key),
        t0.n[page] == BTreeNode::Internal(m),
        0 <= idx <= m.keys@.len(),
        forall|i: int| 0 <= i < idx ==> m.keys@[i] < key,
        forall|i: int| idx <= i < m.keys@.len() ==> m.keys@[i] >= key,
        stepped(t0, t1, m.children@[idx] as int, key, rid, p, true, Some((k, r))),
        t2.s == t1.s,
        t2.n == t1.n.update(page, BTreeNode::Internal(m2)),
        m2.keys@ == m.keys@.insert(idx, k),
        m2.children@ == m.children@.insert(idx + 1, r),
    ensures
        stepped(t0, t2, page, key, rid, p, true, None),
        t2.n[page] == BTreeNode::Internal(m2),
        t2.internal_ok(page, m2),
{
    lemma_route(t0, page, m, key, idx);
    lemma_absorb_node(t0, t1, t2, page, m, m2, idx, key, rid, p, k, r);
    let child = m.children@[idx] as int;
    let top = t0.s.level[page];
    lemma_same_leaves(t1, t2, page);
    assert(t2.upto(top)) by {
        assert forall|a: int|
            0 <= a < t2.n.len() && t2.s.level[a] <= top implies #[trigger] t2.node_ok(a) by {
            if a != page {
                if t1.s.level[a] == top {
                    lemma_others(t0, t1, page, child, key, rid, p, true, Some((k, r)), a);
                } else {
                    assert(t1.node_ok(a));
                }
                lemma_same_node(t1, t2, a);
            }
        }
    }
    assert forall|a: int|
        #![trigger t2.s.lo[a]]
        #![trigger t2.s.hi[a]]
        #![trigger t2.n[a]]
        #![trigger t2.s.kl[a]]
        #![trigger t2.s.kh[a]]
        0 <= a < t0.n.len() && t0.s.level[a] >= top && a != page implies t2.n[a] == t0.n[a]
        && shifted(t0, t2, a, p, true) by {
        assert(t1.s.lo[a] == shift(t0.s.lo[a], p, true));
        assert(t1.n[a] == t0.n[a]);
    }
    assert(leaves_stepped(t0, t2, key, p, true));
}

/// The shape after internal node `page` split off a right half that starts at leaf `b`.
spec fn internal_split_shape(s: Shape, page: int, b: int, k: i64) -> Shape {
    Shape {
        level: s.level.push(s.level[page]),
        lo: s.lo.push(b),
        hi: s.hi.update(page, b).push(s.hi[page]),
        kl: s.kl.push(k),
        kh: s.kh.update(page, k).push(s.kh[page]),
        order: s.order,
    }
}

/// The halves of a node that split are as they should be.
proof fn lemma_halves(
    t1: Tree,
    t2: Tree,
    page: int,
    m: InternalNode,
    left: InternalNode,
    right: InternalNode,
    mid: int,
)
    requires
        t1.base(),
        0 <= page < t1.n.len(),
        t1.n.len() < MAX_NODES,
        t1.internal_ok(page, m),
        0 <= mid < m.keys@.len(),
        left.keys@ == m.keys@.take(mid),
        left.children@ == m.children@.take(mid + 1),
        right.keys@ == m.keys@.skip(mid + 1),
        right.children@ == m.children@.skip(mid + 1),
        t2.n.len() == t1.n.len() + 1,
        t2.s == internal_split_shape(
            t1.s,
            page,
            t1.s.hi[m.children@[mid] as int],
            m.keys@[mid],
        ),
        forall|x: int| 0 <= x < t1.s.order.len() ==> #[trigger] t2.leaf(x) == t1.leaf(x),
    ensures
        t2.internal_ok(page, left),
        t2.internal_ok(t1.n.len() as int, right),
        t1.s.lo[page] < t1.s.hi[m.children@[mid] as int] < t1.s.hi[page],
        forall|x: int|
            t2.s.lo[page] <= x < t2.s.hi[page] ==> all_le(#[trigger] t2.leaf(x), m.keys@[mid]),
        forall|x: int|
            t2.s.hi[page] <= x < t1.s.hi[page] ==> all_ge(#[trigger] t2.leaf(x), m.keys@[mid]),
{
    let s1 = t1.s;
    let s2 = t2.s;
    let c = t1.n.len() as int;
    let ch = m.children@;
    let b = s1.hi[ch[mid] as int];
    assert(s1.lo[ch[mid] as int] < s1.hi[ch[mid] as int]);
    assert(s1.hi[ch[mid] as int] <= s1.lo[ch[mid + 1] as int]);
    assert(s1.lo[ch[mid + 1] as int] < s1.hi[ch[mid + 1] as int]);
    assert(0 <= s1.lo[page] && s1.hi[page] <= s1.order.len());
    assert forall|j: int| 0 <= j < ch.len() implies (#[trigger] ch[j]) != page && ch[j] < c by {
        assert(s1.level[ch[j] as int] + 1 == s1.level[page]);
    }
    assert(t2.children_ok(page, left)) by {
        let lc = left.children@;
        assert(lc[mid] == ch[mid]);
        assert(lc[0] == ch[0]);
        assert forall|j: int| 0 <= j < lc.len() implies {
            let d = #[trigger] lc[j];
            &&& d < t2.n.len()
            &&& s2.level[d as int] + 1 == s2.level[page]
            &&& s2.lo[page] <= s2.lo[d as int]
            &&& s2.hi[d as int] <= s2.hi[page]
        } by {
            assert(lc[j] == ch[j]);
            if j < mid {
                assert(s1.hi[ch[j] as int] <= s1.lo[ch[mid] as int]);
            }
        }
        assert forall|i: int, j: int| 0 <= i < j < lc.len() implies {
            let d = (#[trigger] lc[i]) as int;
            let e = (#[trigger] lc[j]) as int;
            &&& s2.hi[d] <= s2.lo[e]
            &&& j == i + 1 ==> s2.hi[d] == s2.lo[e] && s2.kh[d] == left.keys@[i] && s2.kl[e]
                == left.keys@[i]
        } by {
            assert(s1.hi[ch[i] as int] <= s1.lo[ch[j] as int]);
        }
    }
    assert(t2.children_ok(c, right)) by {
        let rc = right.children@;
        assert(rc[0] == ch[mid + 1]);
        assert(rc[right.keys@.len() as int] == ch[m.keys@.len() as int]);
        assert forall|j: int| 0 <= j < rc.len() implies {
            let d = #[trigger] rc[j];
            &&& d < t2.n.len()
            &&& s2.level[d as int] + 1 == s2.level[c]
            &&& s2.lo[c] <= s2.lo[d as int]
            &&& s2.hi[d as int] <= s2.hi[c]
        } by {
            assert(rc[j] == ch[mid + 1 + j]);
            assert(s1.hi[ch[mid] as int] <= s1.lo[ch[mid + 1 + j] as int]);
        }
        assert forall|i: int, j: int| 0 <= i < j < rc.len() implies {
            let d = (#[trigger] rc[i]) as int;
            let e = (#[trigger] rc[j]) as int;
            &&& s2.hi[d] <= s2.lo[e]
            &&& j == i + 1 ==> s2.hi[d] == s2.lo[e] && s2.kh[d] == right.keys@[i] && s2.kl[e]
                == right.keys@[i]
        } by {
            assert(s1.hi[ch[mid + 1 + i] as int] <= s1.lo[ch[mid + 1 + j] as int]);
        }
    }
    assert(t2.seps_ok(page, left)) by {
        assert forall|j: int, x: int|
            #![trigger left.keys@[j], t2.leaf(x)]
            0 <= j < left.keys@.len() && s2.lo[page] <= x
                < s2.hi[left.children@[j] as int] implies all_le(t2.leaf(x), left.keys@[j]) by {
            assert(left.children@[j] == ch[j]);
            assert(s1.hi[ch[j] as int] <= s1.hi[page]);
            assert(all_le(t1.leaf(x), m.keys@[j]));
        }
        assert forall|j: int, x: int|
            #![trigger left.keys@[j], t2.leaf(x)]
            0 <= j < left.keys@.len() && s2.hi[left.children@[j] as int] <= x
                < s2.hi[page] implies all_ge(t2.leaf(x), left.keys@[j]) by {
            assert(left.children@[j] == ch[j]);
            assert(0 <= s1.lo[ch[j] as int] < s1.hi[ch[j] as int]);
            assert(all_ge(t1.leaf(x), m.keys@[j]));
        }
    }
    assert(t2.seps_ok(c, right)) by {
        assert forall|j: int, x: int|
            #![trigger right.keys@[j], t2.leaf(x)]
            0 <= j < right.keys@.len() && s2.lo[c] <= x
                < s2.hi[right.children@[j] as int] implies all_le(t2.leaf(x), right.keys@[j]) by {
            assert(right.children@[j] == ch[mid + 1 + j]);
            assert(s1.hi[ch[mid + 1 + j] as int] <= s1.hi[page]);
            assert(all_le(t1.leaf(x), m.keys@[mid + 1 + j]));
        }
        assert forall|j: int, x: int|
            #![trigger right.keys@[j], t2.leaf(x)]
            0 <= j < right.keys@.len() && s2.hi[right.children@[j] as int] <= x
                < s2.hi[c] implies all_ge(t2.leaf(x), right.keys@[j]) by {
            assert(right.children@[j] == ch[mid + 1 + j]);
            assert(0 <= s1.lo[ch[mid + 1 + j] as int] < s1.hi[ch[mid + 1 + j] as int]);
            assert(all_ge(t1.leaf(x), m.keys@[mid + 1 + j]));
        }
    }
    assert forall|x: int| s2.lo[page] <= x < s2.hi[page] implies all_le(
        #[trigger] t2.leaf(x),
        m.keys@[mid],
    ) by {
        assert(all_le(t1.leaf(x), m.keys@[mid]));
    }
    assert forall|x: int| s2.hi[page] <= x < s1.hi[page] implies all_ge(
        #[trigger] t2.leaf(x),
        m.keys@[mid],
    ) by {
        assert(all_ge(t1.leaf(x), m.keys@[mid]));
    }
}

/// A node keeps its state when another node at its level or above splits.
proof fn lemma_split_frame(t1: Tree, t2: Tree, page: int, b: int, k: i64, a: int)
    requires
        t1.base(),
        0 <= page < t1.n.len(),
        t2.n.len() == t1.n.len() + 1,
        t2.s == internal_split_shape(t1.s, page, b, k),
        forall|x: int| 0 <= x < t1.s.order.len() ==> #[trigger] t2.leaf(x) == t1.leaf(x),
        0 <= a < t1.n.len(),
        a != page,
        t1.s.level[a] <= t1.s.level[page],
        t2.n[a] == t1.n[a],
        t1.node_ok(a),
    ensures
        t2.node_ok(a),
{
    assert(t1.s.lo[a] >= 0 && t1.s.hi[a] <= t1.s.order.len());
    match t1.n[a] {
        BTreeNode::Leaf(_) => {},
        BTreeNode::Internal(m) => {
            let ch = m.children@;
            assert forall|j: int| 0 <= j < ch.len() implies (#[trigger] ch[j]) != page && ch[j]
                < t1.n.len() by {
                assert(t1.s.level[ch[j] as int] + 1 == t1.s.level[a]);
            }
            assert(t2.children_ok(a, m));
            assert forall|j: int, x: int|
                #![trigger m.keys@[j], t2.leaf(x)]
                0 <= j < m.keys@.len() && t2.s.lo[a] <= x < t2.s.hi[ch[j] as int] implies all_le(
                t2.leaf(x),
                m.keys@[j],
            ) by {
                assert(t1.s.hi[ch[j] as int] <= t1.s.hi[a]);
                assert(all_le(t1.leaf(x), m.keys@[j]));
            }
            assert forall|j: int, x: int|
                #![trigger m.keys@[j], t2.leaf(x)]
                0 <= j < m.keys@.len() && t2.s.hi[ch[j] as int] <= x < t2.s.hi[a] implies all_ge(
                t2.leaf(x),
                m.keys@[j],
            ) by {
                assert(0 <= t1.s.lo[ch[j] as int] < t1.s.hi[ch[j] as int]);
                assert(all_ge(t1.leaf(x), m.keys@[j]));
            }
        },
    }
}

/// Splitting an internal node that took up a right half.
proof fn lemma_internal_split(
    t0: Tree,
    t1: Tree,
    t2: Tree,
    page: int,
    m: InternalNode,
    left: InternalNode,
    right: InternalNode,
    mid: int,
    key: i64,
    rid: Rid,
    p: int,
)
    requires
        t0.ok(),
        0 <= page < t0.n.len(),
        stepped(t0, t1, page, key, rid, p, true, None),
        t1.n[page] == BTreeNode::Internal(m),
        t1.internal_ok(page, m),
        t1.n.len() < MAX_NODES,
        0 <= mid < m.keys@.len(),
        left.keys@ == m.keys@.take(mid),
        left.children@ == m.children@.take(mid + 1),
        right.keys@ == m.keys@.skip(mid + 1),
        right.children@ == m.children@.skip(mid + 1),
        t2.n == t1.n.update(page, BTreeNode::Internal(left)).push(BTreeNode::Internal(right)),
        t2.s == internal_split_shape(
            t1.s,
            page,
            t1.s.hi[m.children@[mid] as int],
            m.keys@[mid],
        ),
    ensures
        stepped(
            t0,
            t2,
            page,
            key,
            rid,
            p,
            true,
            Some((m.keys@[mid], t1.n.len() as u32)),
        ),
{
    let c = t1.n.len() as int;
    let top = t0.s.level[page];
    let b = t1.s.hi[m.children@[mid] as int];
    let k = m.keys@[mid];
    assert(t1.s.level[page] == top);
    assert forall|x: int| 0 <= x < t1.s.order.len() implies #[trigger] t2.leaf(x) == t1.leaf(x) by {
        assert(t1.s.level[t1.s.order[x] as int] == 0);
    }
    assert(t2.leaves() =~= t1.leaves());
    lemma_halves(t1, t2, page, m, left, right, mid);
    assert(t2.base()) by {
        assert forall|a: int| 0 <= a < c + 1 implies 0 <= #[trigger] t2.s.lo[a] < t2.s.hi[a]
            <= t2.s.order.len() by {
            assert(0 <= t1.s.lo[page] && t1.s.hi[page] <= t1.s.order.len());
            if a < c {
                assert(0 <= t1.s.lo[a] < t1.s.hi[a] <= t1.s.order.len());
            }
        }
        assert forall|x: int| 0 <= x < t2.s.order.len() implies (#[trigger] t2.s.order[x]) < c + 1
            && t2.s.level[t2.s.order[x] as int] == 0 && t2.s.lo[t2.s.order[x] as int] == x by {
            assert(t1.s.order[x] < c);
        }
        assert forall|a: int, d: int|
            0 <= a < c + 1 && 0 <= d < c + 1 && a != d && #[trigger] t2.s.level[a]
                == #[trigger] t2.s.level[d] implies t2.s.hi[a] <= t2.s.lo[d] || t2.s.hi[d]
            <= t2.s.lo[a] by {
            if a < c && d < c {
                assert(t1.s.level[a] == t1.s.level[d]);
            } else if a < c {
                assert(t1.s.level[a] == t1.s.level[page]);
            } else if d < c {
                assert(t1.s.level[d] == t1.s.level[page]);
            }
        }
    }
    assert(t2.upto(top)) by {
        assert forall|a: int|
            0 <= a < t2.n.len() && t2.s.level[a] <= top implies #[trigger] t2.node_ok(a) by {
            if a != page && a != c {
                assert(t1.node_ok(a));
                lemma_split_frame(t1, t2, page, b, k, a);
            }
        }
    }
    assert forall|a: int|
        #![trigger t2.s.lo[a]]
        #![trigger t2.s.hi[a]]
        #![trigger t2.n[a]]
        #![trigger t2.s.kl[a]]
        #![trigger t2.s.kh[a]]
        0 <= a < t0.n.len() && t0.s.level[a] >= top && a != page implies t2.n[a] == t0.n[a]
        && shifted(t0, t2, a, p, true) by {
        assert(t1.s.lo[a] == shift(t0.s.lo[a], p, true));
        assert(t1.n[a] == t0.n[a]);
    }
    assert forall|a: int| 0 <= a < t0.n.len() implies #[trigger] t2.s.level[a] == t0.s.level[a] by {
        assert(t1.s.level[a] == t0.s.level[a]);
    }
    assert forall|a: int| t0.n.len() <= a < t2.n.len() implies (#[trigger] t2.s.level[a]) <= top
        && (t2.s.level[a] == top ==> a == c) by {
        if a < c {
            assert(t1.s.level[a] < top);
        }
    }
    assert(leaves_stepped(t0, t2, key, p, true));
}

/// Inserting into sorted entries keeps them sorted.
pub proof fn lemma_with_key_sorted(e: Seq<Entry>, key: i64, rid: Rid)
    requires
        sorted(e),
    ensures
        sorted(with_key(e, key, rid)),
{
    lemma_below_sorted(e, key);
    let b = below(e, key) as int;
    let f = with_key(e, key, rid);
    assert forall|i: int, j: int| 0 <= i <= j < f.len() implies (#[trigger] f[i]).0 <= (
    #[trigger] f[j]).0 by {
        let i0 = if i < b {
            i
        } else {
            i - 1
        };
        let j0 = if j < b {
            j
        } else {
            j - 1
        };
        if i != b && j != b {
            assert(e[i0].0 <= e[j0].0);
        } else if i != b {
            assert(e[i0].0 < key);
        } else if j != b {
            assert(e[j0].0 >= key);
        }
    }
}

/// The shape after a new root was put above `root` and its right half.
spec fn root_shape(s: Shape, root: int) -> Shape {
    Shape {
        level: s.level.push(s.level[root] + 1),
        lo: s.lo.push(0),
        hi: s.hi.push(s.order.len() as int),
        kl: s.kl.push(i64::MIN),
        kh: s.kh.push(i64::MAX),
        order: s.order,
    }
}

/// A node keeps its state when a node is added above it.
proof fn lemma_root_frame(t1: Tree, t2: Tree, root: int, a: int)
    requires
        t1.base(),
        0 <= root < t1.n.len(),
        t2.n.len() == t1.n.len() + 1,
        t2.s == root_shape(t1.s, root),
        forall|x: int| 0 <= x < t1.s.order.len() ==> #[trigger] t2.leaf(x) == t1.leaf(x),
        0 <= a < t1.n.len(),
        t2.n[a] == t1.n[a],
        t1.node_ok(a),
    ensures
        t2.node_ok(a),
{
    assert(t1.s.lo[a] >= 0 && t1.s.hi[a] <= t1.s.order.len());
    match t1.n[a] {
        BTreeNode::Leaf(_) => {},
        BTreeNode::Internal(m) => {
            let ch = m.children@;
            assert forall|j: int| 0 <= j < ch.len() implies (#[trigger] ch[j]) < t1.n.len() by {}
            assert(t2.children_ok(a, m));
            assert forall|j: int, x: int|
                #![trigger m.keys@[j], t2.leaf(x)]
                0 <= j < m.keys@.len() && t2.s.lo[a] <= x < t2.s.hi[ch[j] as int] implies all_le(
                t2.leaf(x),
                m.keys@[j],
            ) by {
                assert(t1.s.hi[ch[j] as int] <= t1.s.hi[a]);
                assert(all_le(t1.leaf(x), m.keys@[j]));
            }
            assert forall|j: int, x: int|
                #![trigger m.keys@[j], t2.leaf(x)]
                0 <= j < m.keys@.len() && t2.s.hi[ch[j] as int] <= x < t2.s.hi[a] implies all_ge(
                t2.leaf(x),
                m.keys@[j],
            ) by {
                assert(0 <= t1.s.lo[ch[j] as int] < t1.s.hi[ch[j] as int]);
                assert(all_ge(t1.leaf(x), m.keys@[j]));
            }
        },
    }
}

/// Putting a new root above a root that split.
proof fn lemma_new_root(
    t0: Tree,
    t1: Tree,
    t2: Tree,
    root: int,
    m: InternalNode,
    key: i64,
    rid: Rid,
    p: int,
    k: i64,
    r: u32,
)
    requires
        t0.ok(),
        0 <= root < t0.n.len(),
        t0.s.lo[root] == 0,
        t0.s.hi[root] == t0.s.order.len(),
        t0.s.kl[root] == i64::MIN,
        t0.s.kh[root] == i64::MAX,
        forall|a: int| 0 <= a < t0.n.len() ==> #[trigger] t0.s.level[a] <= t0.s.level[root],
        stepped(t0, t1, root, key, rid, p, true, Some((k, r))),
        t1.n.len() < MAX_NODES,
        m.keys@ == seq![k],
        m.children@ == seq![root as u32, r],
        t2.n == t1.n.push(BTreeNode::Internal(m)),
        t2.s == root_shape(t1.s, root),
    ensures
        t2.ok(),
        t2.entries() == with_key(t0.entries(), key, rid),
        forall|a: int| 0 <= a < t2.n.len() ==> #[trigger] t2.s.level[a] <= t2.s.level[t1.n.len() as int],
{
    let c = t1.n.len() as int;
    let top = t0.s.level[root];
    assert(t1.s.level[root] == top);
    assert forall|x: int| 0 <= x < t1.s.order.len() implies #[trigger] t2.leaf(x) == t1.leaf(x) by {
        assert(t1.s.order[x] < c);
    }
    assert(t2.leaves() =~= t1.leaves());
    lemma_with_key_sorted(t0.entries(), key, rid);
    assert forall|a: int| 0 <= a < c implies #[trigger] t1.s.level[a] <= top by {
        if a < t0.n.len() {
            assert(t0.s.level[a] <= top);
        }
    }
    assert(t2.base()) by {
        assert forall|a: int| 0 <= a < c + 1 implies 0 <= #[trigger] t2.s.lo[a] < t2.s.hi[a]
            <= t2.s.order.len() by {
            assert(0 <= t1.s.lo[root] < t1.s.hi[root] <= t1.s.order.len());
            if a < c {
                assert(0 <= t1.s.lo[a] < t1.s.hi[a] <= t1.s.order.len());
            }
        }
        assert forall|x: int| 0 <= x < t2.s.order.len() implies (#[trigger] t2.s.order[x]) < c + 1
            && t2.s.level[t2.s.order[x] as int] == 0 && t2.s.lo[t2.s.order[x] as int] == x by {
            assert(t1.s.order[x] < c);
        }
        assert forall|a: int, d: int|
            0 <= a < c + 1 && 0 <= d < c + 1 && a != d && #[trigger] t2.s.level[a]
                == #[trigger] t2.s.level[d] implies t2.s.hi[a] <= t2.s.lo[d] || t2.s.hi[d]
            <= t2.s.lo[a] by {
            if a < c {
                assert(t1.s.level[a] <= top);
            }
            if d < c {
                assert(t1.s.level[d] <= top);
            }
            if a < c && d < c {
                assert(t1.s.level[a] == t1.s.level[d]);
            }
        }
    }
    assert(t2.internal_ok(c, m)) by {
        let ch = m.children@;
        assert(ch[0] == root && ch[1] == r);
        assert(0 <= t1.s.lo[root] < t1.s.hi[root]);
        assert(t1.s.lo[r as int] < t1.s.hi[r as int]);
        assert(t2.children_ok(c, m));
        assert(m.keys@[0] == k);
        assert(t2.seps_ok(c, m)) by {
            assert forall|j: int, x: int|
                #![trigger m.keys@[j], t2.leaf(x)]
                0 <= j < m.keys@.len() && t2.s.lo[c] <= x < t2.s.hi[ch[j] as int] implies all_le(
                t2.leaf(x),
                m.keys@[j],
            ) by {
                assert(all_le(t1.leaf(x), k));
            }
            assert forall|j: int, x: int|
                #![trigger m.keys@[j], t2.leaf(x)]
                0 <= j < m.keys@.len() && t2.s.hi[ch[j] as int] <= x < t2.s.hi[c] implies all_ge(
                t2.leaf(x),
                m.keys@[j],
            ) by {
                assert(all_ge(t1.leaf(x), k));
            }
        }
    }
    assert forall|a: int| 0 <= a < t2.n.len() implies #[trigger] t2.node_ok(a) by {
        if a < c {
            assert(t1.s.level[a] <= top);
            assert(t1.node_ok(a));
            lemma_root_frame(t1, t2, root, a);
        }
    }
}

/// The shape after nodes `0` and `c` changed places.
spec fn home_shape(s: Shape, c: int) -> Shape {
    Shape {
        level: s.level.update(0, s.level[c]).update(c, s.level[0]),
        lo: s.lo.update(0, s.lo[c]).update(c, s.lo[0]),
        hi: s.hi.update(0, s.hi[c]).update(c, s.hi[0]),
        kl: s.kl.update(0, s.kl[c]).update(c, s.kl[0]),
        kh: s.kh.update(0, s.kh[c]).update(c, s.kh[0]),
        order: Seq::new(
            s.order.len(),
            |x: int|
                if s.order[x] == 0 {
                    c as u32
                } else {
                    s.order[x]
                },
        ),
    }
}

/// The root `c` of `t2` and its first child, node `0`, changed places in `t3`.
spec fn rehomed(t2: Tree, t3: Tree, c: int, m2: InternalNode, m3: InternalNode) -> bool {
    &&& t2.base()
    &&& 0 < c == t2.n.len() - 1
    &&& t2.n[c] == BTreeNode::Internal(m2)
    &&& t2.internal_ok(c, m2)
    &&& m2.children@.len() == 2
    &&& m2.children@[0] == 0
    &&& t2.s.lo[c] == 0
    &&& forall|a: int| 0 <= a < c ==> #[trigger] t2.s.level[a] <= t2.s.level[0]
    &&& m3.keys@ == m2.keys@
    &&& m3.children@ == m2.children@.update(0, c as u32)
    &&& t3.n == t2.n.update(0, BTreeNode::Internal(m3)).update(c, t2.n[0])
    &&& t3.s == home_shape(t2.s, c)
}

proof fn lemma_home_leaves(t2: Tree, t3: Tree, c: int, m2: InternalNode, m3: InternalNode)
    requires
        rehomed(t2, t3, c, m2, m3),
    ensures
        forall|x: int| 0 <= x < t2.s.order.len() ==> #[trigger] t3.leaf(x) == t2.leaf(x),
        t3.leaves() == t2.leaves(),
{
    assert forall|x: int| 0 <= x < t2.s.order.len() implies #[trigger] t3.leaf(x) == t2.leaf(x) by {
        assert(t2.s.order[x] < t2.n.len());
        assert(t2.s.level[t2.s.order[x] as int] == 0);
        assert(t2.s.order[x] != c);
    }
    assert(t3.leaves() =~= t2.leaves());
}

proof fn lemma_home_base(t2: Tree, t3: Tree, c: int, m2: InternalNode, m3: InternalNode)
    requires
        rehomed(t2, t3, c, m2, m3),
    ensures
        t3.base(),
{
    let s = t2.s;
    let z = t3.s;
    assert forall|a: int| 0 <= a < t3.n.len() implies 0 <= #[trigger] z.lo[a] < z.hi[a]
        <= z.order.len() by {
        assert(0 <= s.lo[0] < s.hi[0] <= s.order.len());
        assert(0 <= s.lo[c] < s.hi[c] <= s.order.len());
        assert(0 <= s.lo[a] < s.hi[a] <= s.order.len());
    }
    assert forall|x: int| 0 <= x < z.order.len() implies (#[trigger] z.order[x]) < t3.n.len()
        && z.level[z.order[x] as int] == 0 && z.lo[z.order[x] as int] == x by {
        assert(s.order[x] < t2.n.len());
        assert(s.level[s.order[x] as int] == 0);
        assert(s.lo[s.order[x] as int] == x);
    }
    assert forall|a: int, b: int|
        0 <= a < t3.n.len() && 0 <= b < t3.n.len() && a != b && #[trigger] z.level[a]
            == #[trigger] z.level[b] implies z.hi[a] <= z.lo[b] || z.hi[b] <= z.lo[a] by {
        let i = if a == 0 {
            c
        } else if a == c {
            0
        } else {
            a
        };
        let j = if b == 0 {
            c
        } else if b == c {
            0
        } else {
            b
        };
        assert(s.level[i] == s.level[j]);
    }
}

/// A node below the root is as it should be after the move; `i` is where it was before.
proof fn lemma_home_node(
    t2: Tree,
    t3: Tree,
    c: int,
    m2: InternalNode,
    m3: InternalNode,
    i: int,
    a: int,
)
    requires
        rehomed(t2, t3, c, m2, m3),
        0 <= i < c,
        a == (if i == 0 {
            c
        } else {
            i
        }),
        t2.node_ok(i),
    ensures
        t3.node_ok(a),
{
    lemma_home_leaves(t2, t3, c, m2, m3);
    let s = t2.s;
    let z = t3.s;
    assert(s.level[i] <= s.level[0]);
    assert(s.level[0] + 1 == s.level[c]) by {
        assert(m2.children@[0] == 0);
    }
    assert(s.lo[0] == 0);
    match t2.n[i] {
        BTreeNode::Leaf(l) => {
            let x = s.lo[i];
            assert(0 <= s.lo[i] < s.hi[i] <= s.order.len());
            assert(z.order[x] == a);
            if x + 1 < s.order.len() {
                assert(s.lo[s.order[x + 1] as int] == x + 1);
                assert(s.order[x + 1] != 0);
                assert(z.order[x + 1] == s.order[x + 1]);
            }
            assert(t3.leaf_ok(a, l));
        },
        BTreeNode::Internal(m) => {
            let ch = m.children@;
            assert forall|k: int| 0 <= k < ch.len() implies 0 < (#[trigger] ch[k]) < c by {
                assert(s.level[ch[k] as int] + 1 == s.level[i]);
            }
            assert(t3.children_ok(a, m)) by {
                assert(ch[0] == ch[0]);
                assert(ch[m.keys@.len() as int] == ch[m.keys@.len() as int]);
            }
            assert(t3.seps_ok(a, m)) by {
                assert(0 <= s.lo[i] < s.hi[i] <= s.order.len());
                assert forall|k: int, x: int|
                    #![trigger m.keys@[k], t3.leaf(x)]
                    0 <= k < m.keys@.len() && z.lo[a] <= x < z.hi[ch[k] as int] implies all_le(
                    t3.leaf(x),
                    m.keys@[k],
                ) by {
                    assert(s.hi[ch[k] as int] <= s.hi[i]);
                    assert(all_le(t2.leaf(x), m.keys@[k]));
                }
                assert forall|k: int, x: int|
                    #![trigger m.keys@[k], t3.leaf(x)]
                    0 <= k < m.keys@.len() && z.hi[ch[k] as int] <= x < z.hi[a] implies all_ge(
                    t3.leaf(x),
                    m.keys@[k],
                ) by {
                    assert(0 <= s.lo[ch[k] as int] < s.hi[ch[k] as int]);
                    assert(all_ge(t2.leaf(x), m.keys@[k]));
                }
            }
        },
    }
}

proof fn lemma_home_root(t2: Tree, t3: Tree, c: int, m2: InternalNode, m3: InternalNode)
    requires
        rehomed(t2, t3, c, m2, m3),
    ensures
        t3.node_ok(0),
{
    lemma_home_leaves(t2, t3, c, m2, m3);
    let s = t2.s;
    let z = t3.s;
    let ch = m2.children@;
    let dh = m3.children@;
    assert(ch[0] == 0);
    let r = ch[1] as int;
    assert(s.hi[0] <= s.lo[r]);
    assert(0 <= s.lo[0] < s.hi[0] <= s.order.len());
    assert(s.level[r] + 1 == s.level[c]);
    assert(r != 0 && r != c);
    assert(dh[0] == c && dh[1] == r);
    assert(t3.children_ok(0, m3));
    assert(t3.seps_ok(0, m3)) by {
        assert forall|k: int, x: int|
            #![trigger m3.keys@[k], t3.leaf(x)]
            0 <= k < m3.keys@.len() && z.lo[0] <= x < z.hi[dh[k] as int] implies all_le(
            t3.leaf(x),
            m3.keys@[k],
        ) by {
            assert(k == 0);
            assert(all_le(t2.leaf(x), m2.keys@[k]));
        }
        assert forall|k: int, x: int|
            #![trigger m3.keys@[k], t3.leaf(x)]
            0 <= k < m3.keys@.len() && z.hi[dh[k] as int] <= x < z.hi[0] implies all_ge(
            t3.leaf(x),
            m3.keys@[k],
        ) by {
            assert(k == 0);
            assert(0 <= s.lo[c] < s.hi[c] <= s.order.len());
            assert(all_ge(t2.leaf(x), m2.keys@[k]));
        }
    }
    assert(t3.internal_ok(0, m3));
}

/// The root moves to page `0`, and the node that was there, its first child, to where the root was.
proof fn lemma_home(t2: Tree, t3: Tree, c: int, m2: InternalNode, m3: InternalNode)
    requires
        rehomed(t2, t3, c, m2, m3),
        t2.ok(),
    ensures
        t3.ok(),
        t3.entries() == t2.entries(),
{
    lemma_home_leaves(t2, t3, c, m2, m3);
    lemma_home_base(t2, t3, c, m2, m3);
    lemma_home_root(t2, t3, c, m2, m3);
    assert forall|a: int| 0 <= a < t3.n.len() implies #[trigger] t3.node_ok(a) by {
        if a > 0 {
            let i = if a == c {
                0
            } else {
                a
            };
            assert(t2.node_ok(i));
            lemma_home_node(t2, t3, c, m2, m3, i, a);
        }
    }
}

/// The index of the first key that is not less than `key`.
fn lower_index(keys: &Vec<i64>, key: i64) -> (idx: usize)
    requires
        ascending(keys@),
    ensures
        idx <= keys@.len(),
        forall|i: int| 0 <= i < idx ==> keys@[i] < key,
        forall|i: int| idx <= i < keys@.len() ==> keys@[i] >= key,
{
    let mut idx: usize = 0;
    while idx < keys.len() && keys[idx] < key
        invariant
            idx <= keys@.len(),
            forall|i: int| 0 <= i < idx ==> keys@[i] < key,
        decreases keys@.len() - idx,
    {
        idx = idx + 1;
    }
    idx
}

/// The child of a node to follow for the first place of `key`.
fn first_child(node: &InternalNode, key: i64) -> (idx: usize)
    requires
        ascending(node.keys@),
    ensures
        idx <= node.keys@.len(),
        forall|i: int| 0 <= i < idx ==> node.keys@[i] < key,
        forall|i: int| idx <= i < node.keys@.len() ==> node.keys@[i] >= key,
{
    if key == i64::MIN {
        0
    } else {
        node.find_child_index(key - 1)
    }
}

/// The lines of node `id` and of the nodes below it, each level indented further.
spec fn node_text(t: Tree, id: int, indent: Seq<char>) -> Seq<char>
    decreases t.s.level[id], 1nat, 0nat,
{
    match t.n[id] {
        BTreeNode::Leaf(l) => indent + "[Leaf] keys: "@ + "["@ + keys_text(l.keys@, l.keys@.len())
            + "]"@ + " next→"@ + (match l.next_leaf {
            Some(next) => "Some("@ + dec(next as nat) + ")\n"@,
            None => "None\n"@,
        }),
        BTreeNode::Internal(m) => indent + "[Internal] keys: "@ + "["@ + keys_text(
            m.keys@,
            m.keys@.len(),
        ) + "]"@ + "\n"@ + children_text(t, id, m.children@, indent + "  "@, m.children@.len()),
    }
}

/// The lines of the first `n` children of node `id`.
spec fn children_text(t: Tree, id: int, ch: Seq<u32>, indent: Seq<char>, n: nat) -> Seq<char>
    decreases t.s.level[id], 0nat, n,
{
    if n == 0 {
        Seq::empty()
    } else {
        let child = ch[n - 1] as int;
        children_text(t, id, ch, indent, (n - 1) as nat) + (if t.s.level[child] < t.s.level[id] {
            node_text(t, child, indent)
        } else {
            Seq::empty()
        })
    }
}

/// The B-tree index maps `i64` keys to row pointers. Nodes live in memory; a node's page id is its
/// position in `nodes`, and page `0` is always the root.
pub struct BTree {
    pub nodes: Vec<BTreeNode>,
    pub root_id: u32,
    /// Which tree the nodes make up; not there at run time.
    pub shape: Ghost<Shape>,
}

/// What a split hands up to the parent: the key that separates the halves and the right half.
struct SplitResult {
    promoted_key: i64,
    new_page_id: u32,
}

/// The entries from left to right.
impl View for BTree {
    type V = Seq<Entry>;

    closed spec fn view(&self) -> Seq<Entry> {
        self.tree().entries()
    }
}

impl BTree {
    spec fn tree(&self) -> Tree {
        Tree { n: self.nodes@, s: self.shape@ }
    }

    /// The nodes form one balanced search tree below the root, all leaves at the same depth and
    /// chained from left to right; no node holds more than `2 * ORDER` keys.
    pub closed spec fn wf(&self) -> bool {
        let t = self.tree();
        let r = 0int;
        &&& self.root_id == 0
        &&& t.ok()
        &&& t.s.lo[r] == 0
        &&& t.s.hi[r] == t.s.order.len()
        &&& t.s.kl[r] == i64::MIN
        &&& t.s.kh[r] == i64::MAX
        &&& forall|a: int| 0 <= a < t.n.len() ==> #[trigger] t.s.level[a] <= t.s.level[r]
        &&& slim(t.n)
    }

    /// Page `0` is always the root.
    pub proof fn law_root(&self)
        requires
            self.wf(),
        ensures
            self.root_id == 0,
            self.nodes@.len() > 0,
    {
    }

    /// The keys of every node are in ascending order, at most `2 * ORDER` of them while there are
    /// page ids left to split with. A leaf has a row pointer for each key, and an internal node one
    /// more child than keys. The chain of the leaves, which is returned, visits every leaf once and
    /// reads the entries of the tree in ascending order.
    pub proof fn law_nodes(&self) -> (chain: Seq<u32>)
        requires
            self.wf(),
        ensures
            forall|a: int| 0 <= a < self.nodes@.len() ==> node_shaped(#[trigger] self.nodes@[a]),
            self.nodes@.len() + 1 < MAX_NODES ==> forall|a: int|
                0 <= a < self.nodes@.len() ==> key_count(#[trigger] self.nodes@[a]) <= 2 * ORDER,
            is_chain(self.nodes@, chain),
            self@ == chain_entries(self.nodes@, chain),
            sorted(self@),
    {
        let t = self.tree();
        let chain = t.s.order;
        assert forall|a: int| 0 <= a < self.nodes@.len() implies node_shaped(
            #[trigger] self.nodes@[a],
        ) by {
            assert(t.node_ok(a));
        }
        assert forall|x: int| 0 <= x < chain.len() implies {
            let id = #[trigger] chain[x];
            &&& id < self.nodes@.len()
            &&& self.nodes@[id as int] matches BTreeNode::Leaf(l) && l.next_leaf == (if x + 1
                < chain.len() {
                Some(chain[x + 1])
            } else {
                None
            })
        } by {
            assert(t.node_ok(chain[x] as int));
            assert(t.s.level[chain[x] as int] == 0);
            assert(t.s.lo[chain[x] as int] == x);
        }
        assert forall|x: int, y: int| 0 <= x < y < chain.len() implies chain[x] != chain[y] by {
            assert(t.s.lo[chain[x] as int] == x);
            assert(t.s.lo[chain[y] as int] == y);
        }
        assert forall|a: int|
            0 <= a < self.nodes@.len() && #[trigger] self.nodes@[a] is Leaf implies chain.contains(
            a as u32,
        ) by {
            assert(t.node_ok(a));
            assert(0 <= t.s.lo[a] < t.s.hi[a] <= t.s.order.len());
            assert(chain[t.s.lo[a]] == a);
        }
        assert(t.leaves() =~= Seq::new(
            chain.len(),
            |x: int| leaf_entries(self.nodes@[chain[x] as int]),
        ));
        chain
    }

    /// The entries of a tree are in key order.
    pub proof fn lemma_sorted(&self)
        requires
            self.wf(),
        ensures
            sorted(self@),
    {
    }

    pub fn new() -> (tree: Self)
        ensures
            tree.wf(),
            tree@ == Seq::<Entry>::empty(),
    {
        let mut nodes: Vec<BTreeNode> = Vec::new();
        nodes.push(BTreeNode::Leaf(LeafNode::new()));
        let shape = Ghost(
            Shape {
                level: seq![0nat],
                lo: seq![0int],
                hi: seq![1int],
                kl: seq![i64::MIN],
                kh: seq![i64::MAX],
                order: seq![0u32],
            },
        );
        let tree = Self { nodes, root_id: 0, shape };
        proof {
            let t = tree.tree();
            assert(t.leaf(0) =~= Seq::empty());
            assert(t.leaves() =~= seq![Seq::<Entry>::empty()]);
            lemma_concat_parts(t.leaves(), 0);
            assert(t.leaves().take(0) =~= Seq::empty());
            assert(t.leaves().skip(1) =~= Seq::empty());
            assert(t.entries() =~= Seq::empty());
            assert(t.node_ok(0));
        }
        tree
    }

    /// The tree in lines: each node with its keys, each level indented further, a leaf with the
    /// page of the next one.
    pub closed spec fn text(&self) -> Seq<char> {
        node_text(self.tree(), 0, Seq::empty())
    }

    /// The structure of the tree, for debugging.
    pub fn print_tree(&self) -> (text: String)
        requires
            self.wf(),
        ensures
            text@ == self.text(),
    {
        let mut text = String::new();
        let indent = String::new();
        assert(indent@ =~= Seq::empty());
        self.print_node(self.root_id, indent.as_str(), &mut text);
        assert(text@ =~= self.text());
        text
    }

    /// Appends the lines of a node and of those below it.
    fn print_node(&self, page_id: u32, indent: &str, text: &mut String)
        requires
            self.tree().ok(),
            page_id < self.nodes@.len(),
        ensures
            final(text)@ == old(text)@ + node_text(self.tree(), page_id as int, indent@),
        decreases self.tree().s.level[page_id as int],
    {
        let ghost t = self.tree();
        let ghost id = page_id as int;
        proof {
            assert(t.node_ok(id));
        }
        text.append(indent);
        match &self.nodes[page_id as usize] {
            BTreeNode::Leaf(node) => {
                text.append("[Leaf] keys: ");
                push_keys(text, &node.keys);
                text.append(" next→");
                match node.next_leaf {
                    Some(next) => {
                        let n = dec_u64(next as u64);
                        text.append("Some(");
                        text.append(n.as_str());
                        text.append(")\n");
                    },
                    None => {
                        text.append("None\n");
                    },
                }
                assert(text@ =~= old(text)@ + node_text(t, id, indent@));
            },
            BTreeNode::Internal(node) => {
                text.append("[Internal] keys: ");
                push_keys(text, &node.keys);
                text.append("\n");
                let deeper = join2(indent, "  ");
                let ghost before = text@;
                let ghost ch = node.children@;
                let mut i: usize = 0;
                assert(text@ =~= before + children_text(t, id, ch, deeper@, 0));
                while i < node.children.len()
                    invariant
                        i <= ch.len(),
                        ch == node.children@,
                        t == self.tree(),
                        t.ok(),
                        t.n[id] == BTreeNode::Internal(*node),
                        t.internal_ok(id, *node),
                        id == page_id,
                        text@ == before + children_text(t, id, ch, deeper@, i as nat),
                    decreases ch.len() - i,
                {
                    let child: u32 = node.children[i];
                    assert(ch[i as int] == child);
                    self.print_node(child, deeper.as_str(), text);
                    i = i + 1;
                    assert(text@ =~= before + children_text(t, id, ch, deeper@, i as nat));
                }
                assert(text@ =~= old(text)@ + node_text(t, id, indent@));
            },
        }
    }

    /// Follows internal nodes to the first leaf that can hold `key`.
    fn find_leaf(&self, page_id: u32, key: i64) -> (leaf_id: u32)
        requires
            self.tree().ok(),
            self.tree().routed(page_id as int, key),
        ensures
            self.tree().routed(leaf_id as int, key),
            self.nodes@[leaf_id as int] is Leaf,
    {
        let mut id: u32 = page_id;
        loop
            invariant
                self.tree().ok(),
                self.tree().routed(id as int, key),
            decreases self.tree().s.level[id as int],
        {
            proof {
                assert(self.tree().node_ok(id as int));
            }
            match &self.nodes[id as usize] {
                BTreeNode::Leaf(_) => {
                    return id;
                },
                BTreeNode::Internal(node) => {
                    let idx: usize = first_child(node, key);
                    proof {
                        lemma_route(self.tree(), id as int, *node, key, idx as int);
                    }
                    id = node.children[idx];
                },
            }
        }
    }

    /// Finds the first entry that is not less than `key`: its leaf and its index there.
    fn find_first(&self, key: i64) -> (res: Option<(usize, usize)>)
        requires
            self.wf(),
        ensures
            below(self@, key) <= self@.len(),
            match res {
                Some((id, i)) => {
                    let t = self.tree();
                    &&& id < t.n.len()
                    &&& t.n[id as int] is Leaf
                    &&& i < leaf_entries(t.n[id as int]).len()
                    &&& below(self@, key) == concat(t.leaves().take(t.s.lo[id as int])).len() + i
                    &&& below(self@, key) < self@.len()
                    &&& self@[below(self@, key) as int] == leaf_entries(t.n[id as int])[i as int]
                },
                None => below(self@, key) == self@.len(),
            },
    {
        let ghost t = self.tree();
        let mut id: u32 = self.find_leaf(self.root_id, key);
        loop
            invariant
                self.wf(),
                t == self.tree(),
                id < t.n.len(),
                t.n[id as int] is Leaf,
                forall|x: int| 0 <= x < t.s.lo[id as int] ==> all_lt(#[trigger] t.leaf(x), key),
                forall|x: int|
                    t.s.hi[id as int] <= x < t.s.order.len() ==> all_ge(#[trigger] t.leaf(x), key),
            decreases t.s.order.len() - t.s.lo[id as int],
        {
            let ghost x = t.s.lo[id as int];
            proof {
                assert(t.node_ok(id as int));
                assert(t.s.lo[id as int] < t.s.hi[id as int]);
            }
            match &self.nodes[id as usize] {
                BTreeNode::Leaf(leaf) => {
                    let i: usize = lower_index(&leaf.keys, key);
                    proof {
                        let e = t.leaf(x);
                        assert(is_lower(e, i as int, key)) by {
                            assert forall|k: int| 0 <= k < i implies (#[trigger] e[k]).0 < key by {
                                assert(e[k].0 == leaf.keys@[k]);
                            }
                            assert forall|k: int| i <= k < e.len() implies (#[trigger] e[k]).0
                                >= key by {
                                assert(e[k].0 == leaf.keys@[k]);
                            }
                        }
                        lemma_lower(t, x, i as int, key);
                    }
                    if i < leaf.keys.len() {
                        proof {
                            lemma_offset(t, x, i as int);
                        }
                        return Some((id as usize, i));
                    }
                    match leaf.next_leaf {
                        None => {
                            proof {
                                lemma_concat_parts(t.leaves(), x);
                                assert(t.leaves().skip(x + 1) =~= Seq::empty());
                            }
                            return None;
                        },
                        Some(next) => {
                            proof {
                                assert(next == t.s.order[x + 1]);
                                assert(t.node_ok(next as int));
                                assert(t.s.level[next as int] == 0);
                                assert(all_lt(t.leaf(x), key));
                            }
                            id = next;
                        },
                    }
                },
                BTreeNode::Internal(_) => {
                    return None;
                },
            }
        }
    }

    /// Searches for a key. Returns the row of its first entry if there is one.
    pub fn search(&self, key: i64) -> (res: Option<Rid>)
        requires
            self.wf(),
        ensures
            res == rid_of(self@, key),
    {
        match self.find_first(key) {
            None => None,
            Some((id, i)) => match &self.nodes[id] {
                BTreeNode::Leaf(leaf) => {
                    proof {
                        assert(self.tree().node_ok(id as int));
                    }
                    if leaf.keys[i] == key {
                        Some(leaf.rids[i])
                    } else {
                        None
                    }
                },
                BTreeNode::Internal(_) => None,
            },
        }
    }

    /// Returns the rows of all entries with `start <= key <= end`, in key order.
    pub fn range_scan(&self, start: i64, end: i64) -> (res: Vec<Rid>)
        requires
            self.wf(),
        ensures
            res@ == rids_between(self@, start, end),
    {
        let ghost t = self.tree();
        let mut results: Vec<Rid> = Vec::new();
        let mut id: u32 = self.find_leaf(self.root_id, start);
        proof {
            let x = t.s.lo[id as int];
            let ls = t.leaves().take(x);
            assert forall|y: int, j: int| 0 <= y < ls.len() && 0 <= j < ls[y].len() implies (
            #[trigger] ls[y][j]).0 < start by {
                assert(all_lt(t.leaf(y), start));
            }
            lemma_concat_all(ls, |e: Entry| e.0 < start);
            lemma_between_none(concat(ls), start, end);
        }
        loop
            invariant
                self.wf(),
                t == self.tree(),
                id < t.n.len(),
                t.n[id as int] is Leaf,
                results@ == rids_between(
                    concat(t.leaves().take(t.s.lo[id as int])),
                    start,
                    end,
                ),
            decreases t.s.order.len() - t.s.lo[id as int],
        {
            let ghost x = t.s.lo[id as int];
            let ghost before = concat(t.leaves().take(x));
            proof {
                assert(t.node_ok(id as int));
                assert(t.s.lo[id as int] < t.s.hi[id as int]);
                lemma_concat_parts(t.leaves(), x);
                assert(t.leaf(x).take(0) =~= Seq::empty());
                assert(before + t.leaf(x).take(0) =~= before);
            }
            match &self.nodes[id as usize] {
                BTreeNode::Leaf(leaf) => {
                    let mut i: usize = 0;
                    while i < leaf.keys.len()
                        invariant
                            self.wf(),
                            t == self.tree(),
                            0 <= x < t.s.order.len(),
                            before == concat(t.leaves().take(x)),
                            t.entries() == before + t.leaf(x) + concat(t.leaves().skip(x + 1)),
                            t.leaf(x) == leaf_entries(BTreeNode::Leaf(*leaf)),
                            leaf.keys@.len() == leaf.rids@.len(),
                            i <= leaf.keys@.len(),
                            results@ == rids_between(before + t.leaf(x).take(i as int), start, end),
                        decreases leaf.keys@.len() - i,
                    {
                        let key: i64 = leaf.keys[i];
                        let ghost done = before + t.leaf(x).take(i as int);
                        if key > end {
                            proof {
                                let rest = t.entries().skip(done.len() as int);
                                assert(t.entries() =~= done + rest);
                                assert forall|k: int| 0 <= k < rest.len() implies (
                                #[trigger] rest[k]).0 > end by {
                                    assert(t.entries()[done.len() as int].0 == key);
                                    assert(t.entries()[done.len() as int].0
                                        <= t.entries()[done.len() + k].0);
                                }
                                lemma_between_cat(done, rest, start, end);
                                lemma_between_none(rest, start, end);
                                assert(results@ =~= rids_between(self@, start, end));
                            }
                            return results;
                        }
                        proof {
                            let more = before + t.leaf(x).take(i + 1);
                            assert(more.drop_last() =~= done);
                            assert(more.last() == t.leaf(x)[i as int]);
                        }
                        if key >= start {
                            results.push(leaf.rids[i]);
                        }
                        i = i + 1;
                    }
                    proof {
                        assert(t.leaf(x).take(i as int) =~= t.leaf(x));
                        assert(t.leaves().take(x + 1).drop_last() =~= t.leaves().take(x));
                        assert(concat(t.leaves().take(x + 1)) =~= before + t.leaf(x));
                    }
                    match leaf.next_leaf {
                        None => {
                            proof {
                                assert(t.leaves().take(x + 1) =~= t.leaves());
                            }
                            return results;
                        },
                        Some(next) => {
                            proof {
                                assert(next == t.s.order[x + 1]);
                                assert(t.node_ok(next as int));
                                assert(t.s.level[next as int] == 0);
                            }
                            id = next;
                        },
                    }
                },
                BTreeNode::Internal(_) => {
                    return results;
                },
            }
        }
    }

    /// Deletes the first entry with this key. Leaves are not merged.
    pub fn delete(&mut self, key: i64) -> (found: bool)
        requires
            old(self).wf(),
        ensures
            final(self).wf(),
            found == has_key(old(self)@, key),
            final(self)@ == without_key(old(self)@, key),
    {
        let ghost t0 = self.tree();
        match self.find_first(key) {
            None => false,
            Some((id, i)) => {
                proof {
                    assert(t0.node_ok(id as int));
                }
                let hit = match &self.nodes[id] {
                    BTreeNode::Leaf(leaf) => leaf.keys[i] == key,
                    BTreeNode::Internal(_) => false,
                };
                if !hit {
                    return false;
                }
                match &mut self.nodes[id] {
                    BTreeNode::Leaf(leaf) => {
                        leaf.keys.remove(i);
                        leaf.rids.remove(i);
                    },
                    BTreeNode::Internal(_) => {},
                }
                proof {
                    let l0 = t0.n[id as int]->Leaf_0;
                    let l1 = self.nodes@[id as int]->Leaf_0;
                    lemma_delete(t0, self.tree(), id as int, l0, l1, i as int);
                }
                true
            },
        }
    }

    /// Inserts a key, before any entries it already has.
    pub fn insert(&mut self, key: i64, rid: Rid)
        requires
            old(self).wf(),
        ensures
            final(self).wf(),
            final(self)@ == with_key(old(self)@, key, rid),
    {
        let ghost t0 = self.tree();
        let root: u32 = self.root_id;
        let (res, at) = self.insert_recursive(root, key, rid);
        let ghost p = (at@).0;
        let ghost grow = (at@).1;
        let ghost t1 = self.tree();
        match res {
            Some(split) => {
                // The root split: put a new root above the halves.
                let mut new_root = InternalNode::new();
                new_root.keys.push(split.promoted_key);
                new_root.children.push(root);
                new_root.children.push(split.new_page_id);
                let ghost m2 = new_root;
                // It takes the page of the left half, which moves to a new one.
                let left_id: u32 = self.nodes.len() as u32;
                new_root.children.set(0, left_id);
                let ghost m3 = new_root;
                let mut node = BTreeNode::Internal(new_root);
                std::mem::swap(&mut node, &mut self.nodes[root as usize]);
                self.alloc_page(node);
                let ghost c = t1.n.len() as int;
                let ghost s2 = root_shape(t1.s, 0);
                self.shape = Ghost(home_shape(s2, c));
                proof {
                    let t2 = Tree { n: t1.n.push(BTreeNode::Internal(m2)), s: s2 };
                    assert(m2.keys@ =~= seq![split.promoted_key]);
                    assert(m2.children@ =~= seq![root, split.new_page_id]);
                    lemma_new_root(
                        t0,
                        t1,
                        t2,
                        0,
                        m2,
                        key,
                        rid,
                        p,
                        split.promoted_key,
                        split.new_page_id,
                    );
                    assert(t2.node_ok(c));
                    assert(m3.children@ =~= m2.children@.update(0, c as u32));
                    assert(self.nodes@ =~= t2.n.update(0, BTreeNode::Internal(m3)).update(
                        c,
                        t2.n[0],
                    ));
                    assert forall|a: int| 0 <= a < c implies #[trigger] t2.s.level[a]
                        <= t2.s.level[0] by {
                        if a < t0.n.len() {
                            assert(t0.s.level[a] <= t0.s.level[0]);
                        }
                        assert(t1.s.level[a] <= t1.s.level[0]);
                    }
                    lemma_home(t2, self.tree(), c, m2, m3);
                }
            },
            None => {
                proof {
                    lemma_with_key_sorted(t0.entries(), key, rid);
                    let top = t0.s.level[root as int];
                    assert forall|a: int| 0 <= a < t1.n.len() implies #[trigger] t1.s.level[a]
                        <= top by {
                        if a < t0.n.len() {
                            assert(t0.s.level[a] <= top);
                        }
                    }
                    assert forall|a: int| 0 <= a < t1.n.len() implies #[trigger] t1.node_ok(a) by {
                        assert(t1.s.level[a] <= top);
                    }
                    assert(t1.s.level[root as int] == top);
                }
            },
        }
    }

    /// Inserts below a node. Returns the right half if the node split.
    fn insert_recursive(&mut self, page_id: u32, key: i64, rid: Rid) -> (res: (
        Option<SplitResult>,
        Ghost<(int, bool)>,
    ))
        requires
            old(self).tree().ok(),
            old(self).tree().routed(page_id as int, key),
            slim(old(self).nodes@),
        ensures
            stepped(
                old(self).tree(),
                final(self).tree(),
                page_id as int,
                key,
                rid,
                (res.1@).0,
                (res.1@).1,
                match res.0 {
                    Some(split) => Some((split.promoted_key, split.new_page_id)),
                    None => None,
                },
            ),
            res.0 is Some ==> final(self).nodes@.len() < MAX_NODES,
            slim(final(self).nodes@),
            final(self).root_id == old(self).root_id,
        decreases old(self).tree().s.level[page_id as int],
    {
        let ghost t0 = self.tree();
        proof {
            assert(t0.node_ok(page_id as int));
        }
        let step: Option<(usize, u32)> = match &self.nodes[page_id as usize] {
            BTreeNode::Leaf(_) => None,
            BTreeNode::Internal(node) => {
                let idx: usize = first_child(node, key);
                Some((idx, node.children[idx]))
            },
        };
        match step {
            None => {
                let ghost p = t0.s.lo[page_id as int];
                let mut full = false;
                match &mut self.nodes[page_id as usize] {
                    BTreeNode::Leaf(leaf) => {
                        let pos: usize = lower_index(&leaf.keys, key);
                        let ghost l0 = *leaf;
                        leaf.keys.insert(pos, key);
                        leaf.rids.insert(pos, rid);
                        full = leaf.is_full();
                        proof {
                            let l1 = *leaf;
                            let t1 = Tree {
                                n: t0.n.update(page_id as int, BTreeNode::Leaf(l1)),
                                s: t0.s,
                            };
                            lemma_leaf_insert(
                                t0,
                                t1,
                                page_id as int,
                                l0,
                                l1,
                                pos as int,
                                key,
                                rid,
                            );
                        }
                    },
                    BTreeNode::Internal(_) => {},
                }
                if full && self.nodes.len() < MAX_NODES - 1 {
                    let split = self.split_leaf(page_id, Ghost(t0), Ghost(key), Ghost(rid));
                    (Some(split), Ghost((p, true)))
                } else {
                    (None, Ghost((p, false)))
                }
            },
            Some((idx, child_id)) => {
                let ghost m = t0.n[page_id as int]->Internal_0;
                proof {
                    lemma_route(t0, page_id as int, m, key, idx as int);
                }
                let (res, at) = self.insert_recursive(child_id, key, rid);
                let ghost p = (at@).0;
                let ghost grow = (at@).1;
                let ghost t1 = self.tree();
                match res {
                    None => {
                        proof {
                            lemma_pass(t0, t1, page_id as int, m, idx as int, key, rid, p, grow);
                        }
                        (None, Ghost((p, grow)))
                    },
                    Some(split) => {
                        let mut full = false;
                        proof {
                            assert(t1.n[page_id as int] == t0.n[page_id as int]);
                        }
                        match &mut self.nodes[page_id as usize] {
                            BTreeNode::Internal(node) => {
                                node.keys.insert(idx, split.promoted_key);
                                node.children.insert(idx + 1, split.new_page_id);
                                full = node.is_full();
                                proof {
                                    let m2 = *node;
                                    let t2 = Tree {
                                        n: t1.n.update(page_id as int, BTreeNode::Internal(m2)),
                                        s: t1.s,
                                    };
                                    lemma_absorb(
                                        t0,
                                        t1,
                                        t2,
                                        page_id as int,
                                        m,
                                        m2,
                                        idx as int,
                                        key,
                                        rid,
                                        p,
                                        split.promoted_key,
                                        split.new_page_id,
                                    );
                                }
                            },
                            BTreeNode::Leaf(_) => {},
                        }
                        if full && self.nodes.len() < MAX_NODES - 1 {
                            let up = self.split_internal(
                                page_id,
                                Ghost(t0),
                                Ghost(key),
                                Ghost(rid),
                                Ghost(p),
                            );
                            (Some(up), Ghost((p, true)))
                        } else {
                            (None, Ghost((p, true)))
                        }
                    },
                }
            },
        }
    }

    /// Splits a full leaf into two and chains the halves.
    fn split_leaf(
        &mut self,
        left_id: u32,
        Ghost(t0): Ghost<Tree>,
        Ghost(key): Ghost<i64>,
        Ghost(rid): Ghost<Rid>,
    ) -> (split: SplitResult)
        requires
            t0.ok(),
            0 <= left_id < t0.n.len(),
            stepped(
                t0,
                old(self).tree(),
                left_id as int,
                key,
                rid,
                t0.s.lo[left_id as int],
                false,
                None,
            ),
            old(self).tree().s == t0.s,
            old(self).nodes@.len() == t0.n.len(),
            old(self).nodes@.len() < MAX_NODES - 1,
            old(self).nodes@[left_id as int] matches BTreeNode::Leaf(l) && l.keys@.len() >= 2
                && l.keys@.len() <= 2 * ORDER && old(self).tree().leaf_ok(left_id as int, l),
            forall|a: int|
                0 <= a < t0.n.len() && a != left_id ==> #[trigger] old(self).nodes@[a] == t0.n[a],
            slim(t0.n),
        ensures
            stepped(
                t0,
                final(self).tree(),
                left_id as int,
                key,
                rid,
                t0.s.lo[left_id as int],
                true,
                Some((split.promoted_key, split.new_page_id)),
            ),
            final(self).nodes@.len() < MAX_NODES,
            slim(final(self).nodes@),
            final(self).root_id == old(self).root_id,
    {
        let ghost t1 = self.tree();
        let right_id: u32 = self.nodes.len() as u32;
        let mut right = LeafNode::new();
        let mut promoted_key: i64 = 0;
        let ghost l1 = self.nodes@[left_id as int]->Leaf_0;
        match &mut self.nodes[left_id as usize] {
            BTreeNode::Leaf(left) => {
                let mid: usize = left.keys.len() / 2;
                right.keys = left.keys.split_off(mid);
                right.rids = left.rids.split_off(mid);
                // Chain: left, right, old right sibling.
                right.next_leaf = left.next_leaf;
                left.next_leaf = Some(right_id);
                promoted_key = right.keys[0];
                proof {
                    let r = right;
                    let l = *left;
                    assert(l.keys@ =~= l1.keys@.take(mid as int));
                    assert(l.rids@ =~= l1.rids@.take(mid as int));
                    assert(r.keys@ =~= l1.keys@.skip(mid as int));
                    assert(r.rids@ =~= l1.rids@.skip(mid as int));
                    let t2 = Tree {
                        n: t1.n.update(left_id as int, BTreeNode::Leaf(l)).push(BTreeNode::Leaf(r)),
                        s: leaf_split_shape(
                            t1.s,
                            left_id as int,
                            t1.s.lo[left_id as int],
                            promoted_key,
                        ),
                    };
                    lemma_leaf_split(t0, t1, t2, left_id as int, l1, l, r, mid as int, key, rid);
                }
            },
            BTreeNode::Internal(_) => {},
        }
        self.alloc_page(BTreeNode::Leaf(right));
        self.shape = Ghost(
            leaf_split_shape(t1.s, left_id as int, t1.s.lo[left_id as int], promoted_key),
        );
        SplitResult { promoted_key, new_page_id: right_id }
    }

    /// Splits a full internal node into two; its middle key moves up.
    fn split_internal(
        &mut self,
        left_id: u32,
        Ghost(t0): Ghost<Tree>,
        Ghost(key): Ghost<i64>,
        Ghost(rid): Ghost<Rid>,
        Ghost(p): Ghost<int>,
    ) -> (split: SplitResult)
        requires
            t0.ok(),
            0 <= left_id < t0.n.len(),
            stepped(t0, old(self).tree(), left_id as int, key, rid, p, true, None),
            old(self).nodes@.len() < MAX_NODES - 1,
            old(self).nodes@[left_id as int] matches BTreeNode::Internal(m) && m.keys@.len() >= 2
                && m.keys@.len() <= 2 * ORDER && old(self).tree().internal_ok(left_id as int, m),
            forall|a: int|
                0 <= a < old(self).nodes@.len() && a != left_id ==> key_count(
                    #[trigger] old(self).nodes@[a],
                ) < 2 * ORDER,
        ensures
            stepped(
                t0,
                final(self).tree(),
                left_id as int,
                key,
                rid,
                p,
                true,
                Some((split.promoted_key, split.new_page_id)),
            ),
            final(self).nodes@.len() < MAX_NODES,
            slim(final(self).nodes@),
            final(self).root_id == old(self).root_id,
    {
        let ghost t1 = self.tree();
        let right_id: u32 = self.nodes.len() as u32;
        let mut right = InternalNode::new();
        let mut promoted_key: i64 = 0;
        let ghost m = self.nodes@[left_id as int]->Internal_0;
        let ghost mut b: int = 0;
        match &mut self.nodes[left_id as usize] {
            BTreeNode::Internal(left) => {
                let mid: usize = left.keys.len() / 2;
                promoted_key = left.keys[mid];
                right.keys = left.keys.split_off(mid + 1);
                right.children = left.children.split_off(mid + 1);
                left.keys.pop();
                proof {
                    let r = right;
                    let l = *left;
                    b = t1.s.hi[m.children@[mid as int] as int];
                    assert(l.keys@ =~= m.keys@.take(mid as int));
                    assert(l.children@ =~= m.children@.take(mid + 1));
                    assert(r.keys@ =~= m.keys@.skip(mid + 1));
                    assert(r.children@ =~= m.children@.skip(mid + 1));
                    let t2 = Tree {
                        n: t1.n.update(left_id as int, BTreeNode::Internal(l)).push(
                            BTreeNode::Internal(r),
                        ),
                        s: internal_split_shape(t1.s, left_id as int, b, promoted_key),
                    };
                    lemma_internal_split(
                        t0,
                        t1,
                        t2,
                        left_id as int,
                        m,
                        l,
                        r,
                        mid as int,
                        key,
                        rid,
                        p,
                    );
                }
            },
            BTreeNode::Leaf(_) => {},
        }
        self.alloc_page(BTreeNode::Internal(right));
        self.shape = Ghost(internal_split_shape(t1.s, left_id as int, b, promoted_key));
        SplitResult { promoted_key, new_page_id: right_id }
    }

    /// Adds a node and returns its page id.
    fn alloc_page(&mut self, node: BTreeNode) -> (id: u32)
        requires
            old(self).nodes@.len() < MAX_NODES,
        ensures
            id == old(self).nodes@.len(),
            final(self).nodes@ == old(self).nodes@.push(node),
            final(self).shape == old(self).shape,
            final(self).root_id == old(self).root_id,
    {
        let id: u32 = self.nodes.len() as u32;
        self.nodes.push(node);
        id
    }
}

/// No key occurs twice.
pub open spec fn unique(e: Seq<Entry>) -> bool {
    forall|i: int, j: int|
        0 <= i < j < e.len() ==> (#[trigger] e[i]).0 != (#[trigger] e[j]).0
}

/// A search finds a key exactly when some entry has it, and the row is that of the first one.
pub proof fn law_search(e: Seq<Entry>, key: i64)
    requires
        sorted(e),
    ensures
        has_key(e, key) <==> exists|i: int| 0 <= i < e.len() && (#[trigger] e[i]).0 == key,
        forall|i: int|
            0 <= i < e.len() && (#[trigger] e[i]).0 == key && (forall|j: int|
                0 <= j < i ==> (#[trigger] e[j]).0 != key) ==> rid_of(e, key) == Some(e[i].1),
{
    lemma_below_sorted(e, key);
    let b = below(e, key) as int;
    assert forall|i: int| 0 <= i < e.len() && (#[trigger] e[i]).0 == key implies b < e.len()
        && e[b].0 == key && b <= i by {
        assert(b <= i);
        assert(e[b].0 <= e[i].0);
    }
}

/// A search right after an insertion finds the inserted row, and other keys are found as before.
pub proof fn law_insert(e: Seq<Entry>, key: i64, rid: Rid, other: i64)
    requires
        sorted(e),
    ensures
        sorted(with_key(e, key, rid)),
        rid_of(with_key(e, key, rid), key) == Some(rid),
        other != key ==> rid_of(with_key(e, key, rid), other) == rid_of(e, other),
        unique(e) && !has_key(e, key) ==> unique(with_key(e, key, rid)),
{
    lemma_with_key_sorted(e, key, rid);
    lemma_below_sorted(e, key);
    lemma_below_sorted(e, other);
    let f = with_key(e, key, rid);
    let b = below(e, key) as int;
    let o = below(e, other) as int;
    assert(is_lower(f, b, key)) by {
        assert forall|i: int| 0 <= i < b implies (#[trigger] f[i]).0 < key by {
            assert(f[i] == e[i]);
        }
        assert forall|i: int| b <= i < f.len() implies (#[trigger] f[i]).0 >= key by {
            if i > b {
                assert(f[i] == e[i - 1]);
            }
        }
    }
    lemma_below(f, b, key);
    if other != key {
        let o1 = if other < key {
            o
        } else {
            o + 1
        };
        if other < key {
            assert(o <= b) by {
                if o > b {
                    assert(e[b].0 < other);
                }
            }
        } else {
            assert(b <= o) by {
                if b > o {
                    assert(e[o].0 < key);
                }
            }
        }
        assert(is_lower(f, o1, other)) by {
            assert forall|i: int| 0 <= i < o1 implies (#[trigger] f[i]).0 < other by {
                if i < b {
                    assert(f[i] == e[i]);
                } else if i > b {
                    assert(f[i] == e[i - 1]);
                }
            }
            assert forall|i: int| o1 <= i < f.len() implies (#[trigger] f[i]).0 >= other by {
                if i < b {
                    assert(f[i] == e[i]);
                } else if i > b {
                    assert(f[i] == e[i - 1]);
                }
            }
        }
        lemma_below(f, o1, other);
    }
    if unique(e) && !has_key(e, key) {
        law_search(e, key);
        assert forall|i: int, j: int| 0 <= i < j < f.len() implies (#[trigger] f[i]).0 != (
        #[trigger] f[j]).0 by {
            let i0 = if i < b {
                i
            } else {
                i - 1
            };
            let j0 = if j < b {
                j
            } else {
                j - 1
            };
            if i != b && j != b {
                assert(e[i0].0 != e[j0].0);
            } else if i != b {
                assert(e[i0].0 != key);
            } else {
                assert(e[j0].0 != key);
            }
        }
    }
}

proof fn lemma_without_key_sorted(e: Seq<Entry>, key: i64)
    requires
        sorted(e),
    ensures
        sorted(without_key(e, key)),
        unique(e) ==> unique(without_key(e, key)),
{
    lemma_below_sorted(e, key);
    let f = without_key(e, key);
    let b = below(e, key) as int;
    if has_key(e, key) {
        assert forall|i: int, j: int| 0 <= i <= j < f.len() implies (#[trigger] f[i]).0 <= (
        #[trigger] f[j]).0 && (unique(e) && i < j ==> f[i].0 != f[j].0) by {
            let i0 = if i < b {
                i
            } else {
                i + 1
            };
            let j0 = if j < b {
                j
            } else {
                j + 1
            };
            assert(e[i0].0 <= e[j0].0);
        }
    }
}

/// Where another key starts after the entry at `b`, the first with `key`, was removed.
proof fn lemma_removed_lower(e: Seq<Entry>, b: int, key: i64, o: int, other: i64)
    requires
        is_lower(e, b, key),
        b < e.len(),
        e[b].0 == key,
        is_lower(e, o, other),
        other != key,
    ensures
        other < key ==> o <= b && is_lower(e.remove(b), o, other),
        other > key ==> b < o && is_lower(e.remove(b), o - 1, other),
{
    let f = e.remove(b);
    let o1 = if other < key {
        o
    } else {
        o - 1
    };
    assert forall|i: int| 0 <= i < f.len() implies (#[trigger] f[i]) == (if i < b {
        e[i]
    } else {
        e[i + 1]
    }) by {}
    assert(o != b + 1 || other > key);
}

proof fn lemma_without_key_other(e: Seq<Entry>, key: i64, other: i64)
    requires
        sorted(e),
        has_key(e, key),
        other != key,
    ensures
        rid_of(without_key(e, key), other) == rid_of(e, other),
{
    let b = below(e, key) as int;
    let o = below(e, other) as int;
    let f = e.remove(b);
    assert(is_lower(e, b, key)) by {
        lemma_below_sorted(e, key);
    }
    assert(is_lower(e, o, other)) by {
        lemma_below_sorted(e, other);
    }
    lemma_removed_lower(e, b, key, o, other);
    let o1 = if other < key {
        o
    } else {
        o - 1
    };
    lemma_below(f, o1, other);
}

proof fn lemma_without_key_gone(e: Seq<Entry>, key: i64)
    requires
        sorted(e),
        unique(e),
    ensures
        rid_of(without_key(e, key), key) is None,
{
    lemma_below_sorted(e, key);
    lemma_without_key_sorted(e, key);
    let f = without_key(e, key);
    let b = below(e, key) as int;
    law_search(e, key);
    law_search(f, key);
    if has_key(f, key) {
        let i = choose|i: int| 0 <= i < f.len() && (#[trigger] f[i]).0 == key;
        if has_key(e, key) {
            let i0 = if i < b {
                i
            } else {
                i + 1
            };
            assert(e[i0].0 == key);
            assert(e[i0].0 != e[b].0);
        } else {
            assert(e[i].0 == key);
        }
    }
}

/// After a deletion other keys are found as before; where keys do not repeat, the deleted one is
/// not found any more.
pub proof fn law_delete(e: Seq<Entry>, key: i64, other: i64)
    requires
        sorted(e),
    ensures
        sorted(without_key(e, key)),
        other != key ==> rid_of(without_key(e, key), other) == rid_of(e, other),
        unique(e) ==> unique(without_key(e, key)) && rid_of(without_key(e, key), key) is None,
{
    lemma_without_key_sorted(e, key);
    if has_key(e, key) && other != key {
        lemma_without_key_other(e, key, other);
    }
    if unique(e) {
        lemma_without_key_gone(e, key);
    }
}

/// A range scan returns exactly the rows of the entries whose keys lie in the range.
pub proof fn law_range(e: Seq<Entry>, start: i64, end: i64, rid: Rid)
    ensures
        rids_between(e, start, end).contains(rid) <==> exists|i: int|
            0 <= i < e.len() && (#[trigger] e[i]).1 == rid && start <= e[i].0 <= end,
    decreases e.len(),
{
    if e.len() > 0 {
        let dl = e.drop_last();
        let n = e.len() - 1;
        law_range(dl, start, end, rid);
        let r0 = rids_between(dl, start, end);
        let r = rids_between(e, start, end);
        if r.contains(rid) {
            let k = choose|k: int| 0 <= k < r.len() && r[k] == rid;
            if k < r0.len() {
                assert(r0[k] == rid);
                let i = choose|i: int|
                    0 <= i < dl.len() && (#[trigger] dl[i]).1 == rid && start <= dl[i].0 <= end;
                assert(e[i].1 == rid);
            } else {
                assert(e[n].1 == rid);
            }
        }
        if exists|i: int| 0 <= i < e.len() && (#[trigger] e[i]).1 == rid && start <= e[i].0 <= end {
            let i = choose|i: int|
                0 <= i < e.len() && (#[trigger] e[i]).1 == rid && start <= e[i].0 <= end;
            if i < n {
                assert(dl[i].1 == rid);
                let k = choose|k: int| 0 <= k < r0.len() && r0[k] == rid;
                assert(r[k] == rid);
            } else {
                assert(r[r.len() - 1] == rid);
            }
        }
    }
}

} // verus!
