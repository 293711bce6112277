//! B-tree nodes and their page encoding.
use crate::bytes::{
    bits_of, get_i64, get_u16, get_u32, holds_at, le16, le32, le64, lemma_signed, lemma_un16,
    lemma_un32, lemma_un64, put_i64, put_u16, put_u32, signed_of, un16, un32, un64,
};
pub use crate::storage::page::Rid;
use crate::storage::page::PAGE_SIZE;
use vstd::prelude::*;

verus! {

/// Order of the B-tree: a node that reaches `2 * ORDER` keys splits.
pub const ORDER: usize = 4;

/// A B-tree node.
///
/// An internal node navigates the tree: `[child0 | key0 | child1 | key1 | child2 ...]`.
/// A leaf holds row pointers, `[key0->rid0 | key1->rid1 | ...]`, and is chained to its right
/// sibling for range scans.
#[derive(Debug)]
pub enum BTreeNode {
    Internal(InternalNode),
    Leaf(LeafNode),
}

#[derive(Debug)]
pub struct InternalNode {
    /// Separator keys.
    pub keys: Vec<i64>,
    /// Child page ids, one more than there are keys.
    pub children: Vec<u32>,
}

#[derive(Debug)]
pub struct LeafNode {
    pub keys: Vec<i64>,
    pub rids: Vec<Rid>,
    /// Page id of the right sibling.
    pub next_leaf: Option<u32>,
}

/// `s` is in ascending order; equal neighbours are allowed.
pub open spec fn ascending(s: Seq<i64>) -> bool {
    forall|i: int, j: int| 0 <= i <= j < s.len() ==> s[i] <= s[j]
}

impl InternalNode {
    pub fn new() -> (node: Self)
        ensures
            node.keys@ == Seq::<i64>::empty(),
            node.children@ == Seq::<u32>::empty(),
    {
        Self { keys: Vec::new(), children: Vec::new() }
    }

    pub fn is_full(&self) -> (full: bool)
        ensures
            full == (self.keys@.len() >= 2 * ORDER),
    {
        self.keys.len() >= 2 * ORDER
    }

    /// Finds which child to follow for a search key: the one right of every separator that is at
    /// most `key`.
    pub fn find_child_index(&self, key: i64) -> (idx: usize)
        requires
            ascending(self.keys@),
        ensures
            idx <= self.keys@.len(),
            forall|i: int| 0 <= i < idx ==> self.keys@[i] <= key,
            forall|i: int| idx <= i < self.keys@.len() ==> self.keys@[i] > key,
    {
        let mut idx: usize = 0;
        while idx < self.keys.len() && self.keys[idx] <= key
            invariant
                idx <= self.keys@.len(),
                forall|i: int| 0 <= i < idx ==> self.keys@[i] <= key,
            decreases self.keys@.len() - idx,
        {
            idx = idx + 1;
        }
        idx
    }
}

impl LeafNode {
    pub fn new() -> (node: Self)
        ensures
            node.keys@ == Seq::<i64>::empty(),
            node.rids@ == Seq::<Rid>::empty(),
            node.next_leaf is None,
    {
        Self { keys: Vec::new(), rids: Vec::new(), next_leaf: None }
    }

    pub fn is_full(&self) -> (full: bool)
        ensures
            full == (self.keys@.len() >= 2 * ORDER),
    {
        self.keys.len() >= 2 * ORDER
    }

    /// The position of the first occurrence of `key`.
    pub fn find_key_index(&self, key: i64) -> (res: Option<usize>)
        ensures
            match res {
                Some(idx) => {
                    &&& idx < self.keys@.len()
                    &&& self.keys@[idx as int] == key
                    &&& forall|i: int| 0 <= i < idx ==> self.keys@[i] != key
                },
                None => forall|i: int| 0 <= i < self.keys@.len() ==> self.keys@[i] != key,
            },
    {
        let mut idx: usize = 0;
        while idx < self.keys.len()
            invariant
                idx <= self.keys@.len(),
                forall|i: int| 0 <= i < idx ==> self.keys@[i] != key,
            decreases self.keys@.len() - idx,
        {
            if self.keys[idx] == key {
                return Some(idx);
            }
            idx = idx + 1;
        }
        None
    }
}

/// The bytes of a list of page ids.
pub open spec fn ids_bytes(ids: Seq<u32>) -> Seq<u8>
    decreases ids.len(),
{
    if ids.len() == 0 {
        Seq::empty()
    } else {
        ids_bytes(ids.drop_last()) + le32(ids.last())
    }
}

/// The bytes of a list of keys.
pub open spec fn keys_bytes(keys: Seq<i64>) -> Seq<u8>
    decreases keys.len(),
{
    if keys.len() == 0 {
        Seq::empty()
    } else {
        keys_bytes(keys.drop_last()) + le64(bits_of(keys.last()))
    }
}

/// The fourteen bytes of a leaf entry.
pub open spec fn entry_bytes(key: i64, rid: Rid) -> Seq<u8> {
    le64(bits_of(key)) + le32(rid.page_id) + le16(rid.slot_id)
}

/// The bytes of the first `n` entries of a leaf.
pub open spec fn entries_bytes(keys: Seq<i64>, rids: Seq<Rid>, n: nat) -> Seq<u8>
    decreases n,
{
    if n == 0 {
        Seq::empty()
    } else {
        entries_bytes(keys, rids, (n - 1) as nat) + entry_bytes(keys[n - 1], rids[n - 1])
    }
}

/// The number that stands for a right sibling: `u32::MAX` stands for none.
pub open spec fn next_code(next: Option<u32>) -> u32 {
    match next {
        Some(id) => id,
        None => u32::MAX,
    }
}

/// A node's encoding, without the padding.
pub open spec fn node_bytes(node: BTreeNode) -> Seq<u8> {
    match node {
        BTreeNode::Internal(n) => seq![0u8] + le32(n.keys@.len() as u32) + ids_bytes(n.children@)
            + keys_bytes(n.keys@),
        BTreeNode::Leaf(n) => seq![1u8] + le32(n.keys@.len() as u32) + le32(next_code(n.next_leaf))
            + entries_bytes(n.keys@, n.rids@, n.keys@.len()),
    }
}

/// A node whose encoding fits into one page.
pub open spec fn node_fits(node: BTreeNode) -> bool {
    match node {
        BTreeNode::Internal(n) => {
            5 + 4 * n.children@.len() + 8 * n.keys@.len() <= PAGE_SIZE
        },
        BTreeNode::Leaf(n) => {
            &&& n.keys@.len() <= n.rids@.len()
            &&& 9 + 14 * n.keys@.len() <= PAGE_SIZE
        },
    }
}

/// `s` padded with zeroes to the size of a page.
pub open spec fn padded(s: Seq<u8>) -> Seq<u8> {
    Seq::new(
        PAGE_SIZE as nat,
        |i: int|
            if i < s.len() {
                s[i]
            } else {
                0
            },
    )
}

/// How many bytes of `d` hold the node encoded in it.
pub open spec fn node_extent(d: Seq<u8>) -> int {
    if d[0] == 0 {
        5 + 4 * (un32(d, 1) + 1) + 8 * un32(d, 1)
    } else {
        9 + 14 * un32(d, 1)
    }
}

/// The node encoded in `d`.
pub open spec fn decodes_to(d: Seq<u8>, node: BTreeNode) -> bool {
    let n = un32(d, 1) as int;
    match node {
        BTreeNode::Internal(m) => {
            &&& d[0] == 0
            &&& m.children@ == Seq::new((n + 1) as nat, |i: int| un32(d, 5 + 4 * i))
            &&& m.keys@ == Seq::new(
                n as nat,
                |i: int| signed_of(un64(d, 5 + 4 * (n + 1) + 8 * i)),
            )
        },
        BTreeNode::Leaf(m) => {
            &&& d[0] != 0
            &&& m.next_leaf == (if un32(d, 5) == u32::MAX {
                None
            } else {
                Some(un32(d, 5))
            })
            &&& m.keys@ == Seq::new(n as nat, |i: int| signed_of(un64(d, 9 + 14 * i)))
            &&& m.rids@ == Seq::new(
                n as nat,
                |i: int| Rid { page_id: un32(d, 17 + 14 * i), slot_id: un16(d, 21 + 14 * i) },
            )
        },
    }
}

pub proof fn lemma_ids_len(ids: Seq<u32>)
    ensures
        ids_bytes(ids).len() == 4 * ids.len(),
    decreases ids.len(),
{
    if ids.len() > 0 {
        lemma_ids_len(ids.drop_last());
    }
}

proof fn lemma_keys_len(keys: Seq<i64>)
    ensures
        keys_bytes(keys).len() == 8 * keys.len(),
    decreases keys.len(),
{
    if keys.len() > 0 {
        lemma_keys_len(keys.drop_last());
    }
}

proof fn lemma_entries_len(keys: Seq<i64>, rids: Seq<Rid>, n: nat)
    ensures
        entries_bytes(keys, rids, n).len() == 14 * n,
    decreases n,
{
    if n > 0 {
        lemma_entries_len(keys, rids, (n - 1) as nat);
    }
}

impl BTreeNode {
    /// Serializes a node into one page of bytes.
    pub fn to_bytes(&self) -> (buf: Vec<u8>)
        requires
            node_fits(*self),
        ensures
            buf@ == padded(node_bytes(*self)),
    {
        let mut buf: Vec<u8> = Vec::new();
        match self {
            BTreeNode::Internal(node) => {
                buf.push(0);
                assert(buf@ =~= seq![0u8]);
                put_u32(&mut buf, node.keys.len() as u32);
                let ghost head = buf@;
                let mut i: usize = 0;
                while i < node.children.len()
                    invariant
                        i <= node.children@.len(),
                        buf@ == head + ids_bytes(node.children@.subrange(0, i as int)),
                    decreases node.children@.len() - i,
                {
                    put_u32(&mut buf, node.children[i]);
                    i = i + 1;
                    let ghost part = node.children@.subrange(0, i as int);
                    assert(part.drop_last() =~= node.children@.subrange(0, i - 1));
                    assert(buf@ =~= head + ids_bytes(part));
                }
                assert(node.children@.subrange(0, i as int) =~= node.children@);
                let ghost head = buf@;
                let mut i: usize = 0;
                assert(node.keys@.subrange(0, 0) =~= Seq::empty());
                assert(buf@ =~= head + keys_bytes(node.keys@.subrange(0, 0)));
                while i < node.keys.len()
                    invariant
                        i <= node.keys@.len(),
                        buf@ == head + keys_bytes(node.keys@.subrange(0, i as int)),
                    decreases node.keys@.len() - i,
                {
                    put_i64(&mut buf, node.keys[i]);
                    i = i + 1;
                    let ghost part = node.keys@.subrange(0, i as int);
                    assert(part.drop_last() =~= node.keys@.subrange(0, i - 1));
                    assert(buf@ =~= head + keys_bytes(part));
                }
                assert(node.keys@.subrange(0, i as int) =~= node.keys@);
                proof {
                    lemma_ids_len(node.children@);
                    lemma_keys_len(node.keys@);
                }
            },
            BTreeNode::Leaf(node) => {
                buf.push(1);
                assert(buf@ =~= seq![1u8]);
                put_u32(&mut buf, node.keys.len() as u32);
                let next: u32 = match node.next_leaf {
                    Some(id) => id,
                    None => u32::MAX,
                };
                put_u32(&mut buf, next);
                let ghost head = buf@;
                assert(buf@ =~= head + entries_bytes(node.keys@, node.rids@, 0));
                let mut i: usize = 0;
                while i < node.keys.len()
                    invariant
                        i <= node.keys@.len() <= node.rids@.len(),
                        buf@ == head + entries_bytes(node.keys@, node.rids@, i as nat),
                    decreases node.keys@.len() - i,
                {
                    put_i64(&mut buf, node.keys[i]);
                    put_u32(&mut buf, node.rids[i].page_id);
                    put_u16(&mut buf, node.rids[i].slot_id);
                    i = i + 1;
                    assert(buf@ =~= head + entries_bytes(node.keys@, node.rids@, i as nat));
                }
                proof {
                    lemma_entries_len(node.keys@, node.rids@, node.keys@.len());
                }
            },
        }
        assert(buf@ =~= node_bytes(*self));
        while buf.len() < PAGE_SIZE
            invariant
                node_bytes(*self).len() <= buf@.len() <= PAGE_SIZE,
                buf@ == padded(node_bytes(*self)).subrange(0, buf@.len() as int),
            decreases PAGE_SIZE - buf@.len(),
        {
            buf.push(0);
            assert(buf@ =~= padded(node_bytes(*self)).subrange(0, buf@.len() as int));
        }
        assert(buf@ =~= padded(node_bytes(*self)));
        buf
    }

    /// Deserializes a node from raw page bytes.
    pub fn from_bytes(data: &[u8]) -> (node: Self)
        requires
            data@.len() >= 9,
            node_extent(data@) <= data@.len(),
        ensures
            decodes_to(data@, node),
    {
        let len: usize = data.len();
        let n: usize = get_u32(data, 1) as usize;
        if data[0] == 0 {
            let mut children: Vec<u32> = Vec::new();
            let mut i: usize = 0;
            while i <= n
                invariant
                    i <= n + 1,
                    n == un32(data@, 1),
                    len == data@.len(),
                    5 + 4 * (n + 1) + 8 * n <= len,
                    children@ == Seq::new(i as nat, |k: int| un32(data@, 5 + 4 * k)),
                decreases n + 1 - i,
            {
                children.push(get_u32(data, 5 + 4 * i));
                i = i + 1;
                assert(children@ =~= Seq::new(i as nat, |k: int| un32(data@, 5 + 4 * k)));
            }
            let base: usize = 5 + 4 * (n + 1);
            let mut keys: Vec<i64> = Vec::new();
            let mut j: usize = 0;
            while j < n
                invariant
                    j <= n,
                    len == data@.len(),
                    base + 8 * n <= len,
                    keys@ == Seq::new(j as nat, |k: int| signed_of(un64(data@, base + 8 * k))),
                decreases n - j,
            {
                keys.push(get_i64(data, base + 8 * j));
                j = j + 1;
                assert(keys@ =~= Seq::new(j as nat, |k: int| signed_of(un64(data@, base + 8 * k))));
            }
            let node = InternalNode { keys, children };
            assert(node.keys@ =~= Seq::new(
                n as nat,
                |i: int| signed_of(un64(data@, 5 + 4 * (n + 1) + 8 * i)),
            ));
            BTreeNode::Internal(node)
        } else {
            let next: u32 = get_u32(data, 5);
            let next_leaf = if next == u32::MAX {
                None
            } else {
                Some(next)
            };
            let mut keys: Vec<i64> = Vec::new();
            let mut rids: Vec<Rid> = Vec::new();
            let mut i: usize = 0;
            while i < n
                invariant
                    i <= n,
                    len == data@.len(),
                    9 + 14 * n <= len,
                    keys@ == Seq::new(i as nat, |k: int| signed_of(un64(data@, 9 + 14 * k))),
                    rids@ == Seq::new(
                        i as nat,
                        |k: int|
                            Rid {
                                page_id: un32(data@, 17 + 14 * k),
                                slot_id: un16(data@, 21 + 14 * k),
                            },
                    ),
                decreases n - i,
            {
                let off: usize = 9 + 14 * i;
                keys.push(get_i64(data, off));
                rids.push(Rid { page_id: get_u32(data, off + 8), slot_id: get_u16(data, off + 12) });
                i = i + 1;
                assert(keys@ =~= Seq::new(i as nat, |k: int| signed_of(un64(data@, 9 + 14 * k))));
                assert(rids@ =~= Seq::new(
                    i as nat,
                    |k: int|
                        Rid {
                            page_id: un32(data@, 17 + 14 * k),
                            slot_id: un16(data@, 21 + 14 * k),
                        },
                ));
            }
            BTreeNode::Leaf(LeafNode { keys, rids, next_leaf })
        }
    }
}

pub proof fn lemma_ids_at(ids: Seq<u32>, i: int)
    requires
        0 <= i < ids.len(),
    ensures
        holds_at(ids_bytes(ids), 4 * i, le32(ids[i])),
    decreases ids.len(),
{
    lemma_ids_len(ids);
    lemma_ids_len(ids.drop_last());
    if i < ids.len() - 1 {
        lemma_ids_at(ids.drop_last(), i);
        let b = ids_bytes(ids.drop_last());
        assert forall|k: int| 0 <= k < 4 implies #[trigger] ids_bytes(ids)[4 * i + k] == le32(
            ids[i],
        )[k] by {
            assert(b[4 * i + k] == le32(ids[i])[k]);
        }
    }
}

proof fn lemma_keys_at(keys: Seq<i64>, i: int)
    requires
        0 <= i < keys.len(),
    ensures
        holds_at(keys_bytes(keys), 8 * i, le64(bits_of(keys[i]))),
    decreases keys.len(),
{
    lemma_keys_len(keys);
    lemma_keys_len(keys.drop_last());
    if i < keys.len() - 1 {
        lemma_keys_at(keys.drop_last(), i);
        let b = keys_bytes(keys.drop_last());
        assert forall|k: int| 0 <= k < 8 implies #[trigger] keys_bytes(keys)[8 * i + k] == le64(
            bits_of(keys[i]),
        )[k] by {
            assert(b[8 * i + k] == le64(bits_of(keys[i]))[k]);
        }
    }
}

proof fn lemma_entries_at(keys: Seq<i64>, rids: Seq<Rid>, n: nat, i: int)
    requires
        0 <= i < n,
    ensures
        holds_at(entries_bytes(keys, rids, n), 14 * i, entry_bytes(keys[i], rids[i])),
    decreases n,
{
    lemma_entries_len(keys, rids, n);
    lemma_entries_len(keys, rids, (n - 1) as nat);
    if i < n - 1 {
        lemma_entries_at(keys, rids, (n - 1) as nat, i);
        let b = entries_bytes(keys, rids, (n - 1) as nat);
        assert forall|k: int| 0 <= k < 14 implies #[trigger] entries_bytes(keys, rids, n)[14 * i
            + k] == entry_bytes(keys[i], rids[i])[k] by {
            assert(b[14 * i + k] == entry_bytes(keys[i], rids[i])[k]);
        }
    }
}

/// `holds_at` of a part inside a part.
proof fn lemma_holds_inside(s: Seq<u8>, off: int, outer: Seq<u8>, at: int, inner: Seq<u8>)
    requires
        holds_at(s, off, outer),
        holds_at(outer, at, inner),
    ensures
        holds_at(s, off + at, inner),
{
    assert forall|i: int| 0 <= i < inner.len() implies #[trigger] s[off + at + i] == inner[i] by {
        assert(outer[at + i] == inner[i]);
        assert(s[off + (at + i)] == outer[at + i]);
    }
}

/// Reading back the page that a node was written to gives the node.
pub proof fn law_node_round_trip(node: BTreeNode, back: BTreeNode)
    requires
        node_fits(node),
        match node {
            BTreeNode::Internal(n) => n.children@.len() == n.keys@.len() + 1,
            BTreeNode::Leaf(n) => n.keys@.len() == n.rids@.len() && n.next_leaf != Some(u32::MAX),
        },
        decodes_to(padded(node_bytes(node)), back),
    ensures
        node_extent(padded(node_bytes(node))) <= PAGE_SIZE,
        match (node, back) {
            (BTreeNode::Internal(a), BTreeNode::Internal(b)) => a.keys@ == b.keys@ && a.children@
                == b.children@,
            (BTreeNode::Leaf(a), BTreeNode::Leaf(b)) => a.keys@ == b.keys@ && a.rids@ == b.rids@
                && a.next_leaf == b.next_leaf,
            _ => false,
        },
{
    let d = padded(node_bytes(node));
    match node {
        BTreeNode::Internal(n) => {
            lemma_ids_len(n.children@);
            lemma_keys_len(n.keys@);
            let len = n.keys@.len() as u32;
            assert(holds_at(d, 0, seq![0u8]));
            assert(d[0] == 0);
            assert(holds_at(d, 1, le32(len)));
            lemma_un32(d, 1, len);
            assert(holds_at(d, 5, ids_bytes(n.children@)));
            let base = 5 + 4 * (len + 1);
            assert(holds_at(d, base, keys_bytes(n.keys@)));
            assert forall|i: int| 0 <= i < n.children@.len() implies un32(d, 5 + 4 * i)
                == #[trigger] n.children@[i] by {
                lemma_ids_at(n.children@, i);
                lemma_holds_inside(d, 5, ids_bytes(n.children@), 4 * i, le32(n.children@[i]));
                lemma_un32(d, 5 + 4 * i, n.children@[i]);
            }
            assert forall|i: int| 0 <= i < n.keys@.len() implies signed_of(un64(d, base + 8 * i))
                == #[trigger] n.keys@[i] by {
                lemma_keys_at(n.keys@, i);
                lemma_holds_inside(
                    d,
                    base,
                    keys_bytes(n.keys@),
                    8 * i,
                    le64(bits_of(n.keys@[i])),
                );
                lemma_un64(d, base + 8 * i, bits_of(n.keys@[i]));
                lemma_signed(n.keys@[i]);
            }
            match back {
                BTreeNode::Internal(b) => {
                    assert(b.children@ =~= n.children@);
                    assert(b.keys@ =~= n.keys@);
                },
                BTreeNode::Leaf(b) => {},
            }
        },
        BTreeNode::Leaf(n) => {
            lemma_entries_len(n.keys@, n.rids@, n.keys@.len());
            let len = n.keys@.len() as u32;
            let all = entries_bytes(n.keys@, n.rids@, n.keys@.len());
            assert(holds_at(d, 0, seq![1u8]));
            assert(d[0] == 1);
            assert(holds_at(d, 1, le32(len)));
            lemma_un32(d, 1, len);
            assert(holds_at(d, 5, le32(next_code(n.next_leaf))));
            lemma_un32(d, 5, next_code(n.next_leaf));
            assert(holds_at(d, 9, all));
            assert forall|i: int| 0 <= i < n.keys@.len() implies signed_of(un64(d, 9 + 14 * i))
                == #[trigger] n.keys@[i] && un32(d, 17 + 14 * i) == n.rids@[i].page_id && un16(
                d,
                21 + 14 * i,
            ) == n.rids@[i].slot_id by {
                let e = entry_bytes(n.keys@[i], n.rids@[i]);
                lemma_entries_at(n.keys@, n.rids@, n.keys@.len(), i);
                lemma_holds_inside(d, 9, all, 14 * i, e);
                assert(holds_at(e, 0, le64(bits_of(n.keys@[i]))));
                assert(holds_at(e, 8, le32(n.rids@[i].page_id)));
                assert(holds_at(e, 12, le16(n.rids@[i].slot_id)));
                lemma_holds_inside(d, 9 + 14 * i, e, 0, le64(bits_of(n.keys@[i])));
                lemma_holds_inside(d, 9 + 14 * i, e, 8, le32(n.rids@[i].page_id));
                lemma_holds_inside(d, 9 + 14 * i, e, 12, le16(n.rids@[i].slot_id));
                lemma_un64(d, 9 + 14 * i, bits_of(n.keys@[i]));
                lemma_un32(d, 17 + 14 * i, n.rids@[i].page_id);
                lemma_un16(d, 21 + 14 * i, n.rids@[i].slot_id);
                lemma_signed(n.keys@[i]);
            }
            match back {
                BTreeNode::Leaf(b) => {
                    assert(b.keys@ =~= n.keys@);
                    assert forall|i: int| 0 <= i < n.rids@.len() implies b.rids@[i]
                        == n.rids@[i] by {
                        assert(n.keys@[i] == b.keys@[i]);
                    }
                    assert(b.rids@ =~= n.rids@);
                },
                BTreeNode::Internal(b) => {},
            }
        },
    }
}

} // verus!
