//! Whose turn it is to leave the buffer pool, and how requests are counted.
use crate::buffer::buffer_pool::{
    bump, first_empty, pool_fetch, pool_free, pool_new, pool_unpin, pool_wf, PoolView,
};
use crate::buffer::lru_replacer::{lemma_without, without};
use crate::storage::error::StorageError;
use vstd::prelude::*;

verus! {

/// Frame `a` is evictable and its turn to be evicted comes before that of frame `b`.
pub open spec fn leaves_before(p: PoolView, a: usize, b: usize) -> bool {
    exists|i: int, j: int|
        0 <= i < j < p.order.len() && #[trigger] p.order[i] == a && #[trigger] p.order[j] == b
}

/// Some frame is empty.
pub open spec fn has_empty_frame(p: PoolView) -> bool {
    exists|i: int| 0 <= i < p.frames.len() && (#[trigger] p.frames[i]).page is None
}

/// The frames whose page is not the same in two pools.
pub open spec fn page_changed(p: PoolView, q: PoolView, k: int) -> bool {
    p.frames[k].page != q.frames[k].page
}

proof fn lemma_first_empty(p: PoolView, i: int)
    requires
        0 <= i,
    ensures
        match first_empty(p.frames, i) {
            Some(k) => i <= k < p.frames.len() && p.frames[k].page is None,
            None => forall|k: int| i <= k < p.frames.len() ==> (#[trigger] p.frames[k]).page is Some,
        },
    decreases p.frames.len() - i,
{
    if i < p.frames.len() && p.frames[i].page is Some {
        lemma_first_empty(p, i + 1);
    }
}

/// `without` keeps the order of what it keeps.
proof fn lemma_without_order(s: Seq<usize>, id: usize, a: usize, b: usize)
    requires
        a != id,
        b != id,
    ensures
        (exists|i: int, j: int|
            0 <= i < j < without(s, id).len() && #[trigger] without(s, id)[i] == a
                && #[trigger] without(s, id)[j] == b) <==> (exists|i: int, j: int|
            0 <= i < j < s.len() && #[trigger] s[i] == a && #[trigger] s[j] == b),
    decreases s.len(),
{
    if s.len() > 0 {
        let dl = s.drop_last();
        lemma_without_order(dl, id, a, b);
        lemma_without(dl, id);
        let w = without(dl, id);
        let r = without(s, id);
        if exists|i: int, j: int|
            0 <= i < j < s.len() && #[trigger] s[i] == a && #[trigger] s[j] == b {
            let (i, j) = choose|i: int, j: int|
                0 <= i < j < s.len() && #[trigger] s[i] == a && #[trigger] s[j] == b;
            assert(dl[i] == a);
            assert(dl.contains(a));
            if j < dl.len() {
                assert(dl[j] == b);
                let (k, l) = choose|k: int, l: int|
                    0 <= k < l < w.len() && #[trigger] w[k] == a && #[trigger] w[l] == b;
                assert(r[k] == a && r[l] == b);
            } else {
                assert(w.contains(a));
                let k = choose|k: int| 0 <= k < w.len() && w[k] == a;
                assert(r[k] == a && r[w.len() as int] == b);
            }
        }
        if exists|i: int, j: int|
            0 <= i < j < r.len() && #[trigger] r[i] == a && #[trigger] r[j] == b {
            let (i, j) = choose|i: int, j: int|
                0 <= i < j < r.len() && #[trigger] r[i] == a && #[trigger] r[j] == b;
            assert(w[i] == a);
            assert(w.contains(a));
            if j < w.len() {
                assert(w[j] == b);
                let (k, l) = choose|k: int, l: int|
                    0 <= k < l < dl.len() && #[trigger] dl[k] == a && #[trigger] dl[l] == b;
                assert(s[k] == a && s[l] == b);
            } else {
                assert(dl.contains(a));
                let k = choose|k: int| 0 <= k < dl.len() && dl[k] == a;
                assert(s[k] == a && s[s.len() - 1] == b);
            }
        }
    }
}

/// A frame that becomes evictable leaves after all that are evictable already, and the turns of these
/// stay as they were.
pub proof fn law_last_unpinned_leaves_last(p: PoolView, i: usize, dirty: bool, a: usize, b: usize)
    requires
        pool_wf(p),
        i < p.frames.len(),
        p.frames[i as int].pins == 1,
        p.frames[i as int].page is Some,
    ensures
        p.order.contains(a) ==> leaves_before(pool_unpin(p, i, dirty), a, i),
        leaves_before(p, a, b) ==> leaves_before(pool_unpin(p, i, dirty), a, b),
        !leaves_before(pool_unpin(p, i, dirty), i, a),
{
    let q = pool_unpin(p, i, dirty);
    assert(!p.order.contains(i));
    assert(q.order == p.order.push(i));
    let last = p.order.len() as int;
    assert(q.order[last] == i);
    if p.order.contains(a) {
        let k = choose|k: int| 0 <= k < p.order.len() && p.order[k] == a;
        assert(q.order[k] == a);
    }
    if leaves_before(p, a, b) {
        let (k, l) = choose|k: int, l: int|
            0 <= k < l < p.order.len() && #[trigger] p.order[k] == a && #[trigger] p.order[l] == b;
        assert(q.order[k] == a && q.order[l] == b);
    }
    if leaves_before(q, i, a) {
        let (k, l) = choose|k: int, l: int|
            0 <= k < l < q.order.len() && #[trigger] q.order[k] == i && #[trigger] q.order[l] == a;
        assert(p.order[k] == i);
        assert(p.order.contains(i));
    }
}

/// A page that is cached stays where it is when it is fetched, and the turns of the other frames stay
/// as they were; the frame is not evictable any more.
pub proof fn law_fetched_page_is_spared(p: PoolView, id: u32, a: usize, b: usize)
    requires
        pool_wf(p),
        p.table.contains_key(id),
        p.frames[p.table[id] as int].pins < u32::MAX,
    ensures
        pool_fetch(p, id).1 == Ok::<usize, StorageError>(p.table[id]),
        !pool_fetch(p, id).0.order.contains(p.table[id]),
        a != p.table[id] && b != p.table[id] ==> (leaves_before(pool_fetch(p, id).0, a, b)
            <==> leaves_before(p, a, b)),
        forall|k: int|
            0 <= k < p.frames.len() ==> !#[trigger] page_changed(p, pool_fetch(p, id).0, k),
{
    let i = p.table[id];
    lemma_without(p.order, i);
    if a != i && b != i {
        lemma_without_order(p.order, i, a, b);
        let q = pool_fetch(p, id).0;
        assert(q.order == without(p.order, i));
    }
    assert(i < p.frames.len());
}

/// What is loaded goes into an empty frame if there is one, and no page leaves. Otherwise one page
/// leaves, that of the frame whose turn it is: no evictable frame leaves before it.
pub proof fn law_first_unpinned_leaves_first(p: PoolView, id: u32, other: usize)
    requires
        pool_wf(p),
        !p.table.contains_key(id),
        pool_fetch(p, id).1 is Ok,
    ensures
        ({
            let (q, res) = pool_fetch(p, id);
            let i = res->Ok_0;
            &&& forall|k: int|
                0 <= k < p.frames.len() && k != i ==> !#[trigger] page_changed(p, q, k)
            &&& has_empty_frame(p) ==> p.frames[i as int].page is None
            &&& !has_empty_frame(p) ==> p.order.contains(i) && (p.order.contains(other) && other != i
                ==> leaves_before(p, i, other)) && !leaves_before(p, other, i)
        }),
{
    let m = PoolView { misses: bump(p.misses), ..p };
    lemma_chosen_frame(m, other);
    lemma_turns_alike(p, m, other);
    if has_empty_frame(p) {
        let k = choose|k: int| 0 <= k < p.frames.len() && (#[trigger] p.frames[k]).page is None;
        assert(m.frames[k].page is None);
        assert(has_empty_frame(m));
    }
    if has_empty_frame(m) {
        let k = choose|k: int| 0 <= k < m.frames.len() && (#[trigger] m.frames[k]).page is None;
        assert(p.frames[k].page is None);
    }
}

/// A new page, too, goes into an empty frame, or into the one whose turn it is to be evicted.
pub proof fn law_new_page_takes_the_same_turn(p: PoolView, other: usize)
    requires
        pool_wf(p),
        pool_new(p).1 is Ok,
    ensures
        ({
            let (q, res) = pool_new(p);
            let i = (res->Ok_0).1;
            &&& forall|k: int|
                0 <= k < p.frames.len() && k != i ==> !#[trigger] page_changed(p, q, k)
            &&& has_empty_frame(p) ==> p.frames[i as int].page is None
            &&& !has_empty_frame(p) ==> p.order.contains(i) && (p.order.contains(other) && other != i
                ==> leaves_before(p, i, other)) && !leaves_before(p, other, i)
        }),
{
    lemma_chosen_frame(p, other);
}

proof fn lemma_turns_alike(p: PoolView, m: PoolView, other: usize)
    requires
        p.order == m.order,
    ensures
        forall|a: usize, b: usize| #[trigger] leaves_before(p, a, b) == leaves_before(m, a, b),
{
    assert forall|a: usize, b: usize| #[trigger] leaves_before(p, a, b) == leaves_before(
        m,
        a,
        b,
    ) by {
        if leaves_before(p, a, b) {
            let (k, l) = choose|k: int, l: int|
                0 <= k < l < p.order.len() && #[trigger] p.order[k] == a && #[trigger] p.order[l]
                    == b;
            assert(m.order[k] == a && m.order[l] == b);
        }
        if leaves_before(m, a, b) {
            let (k, l) = choose|k: int, l: int|
                0 <= k < l < m.order.len() && #[trigger] m.order[k] == a && #[trigger] m.order[l]
                    == b;
            assert(p.order[k] == a && p.order[l] == b);
        }
    }
}

proof fn lemma_chosen_frame(p: PoolView, other: usize)
    requires
        p.order.no_duplicates(),
        p.frames.len() <= usize::MAX,
        forall|i: usize| #[trigger] p.order.contains(i) ==> i < p.frames.len(),
        pool_free(p) is Ok,
    ensures
        ({
            let (q, i) = pool_free(p)->Ok_0;
            &&& i < p.frames.len()
            &&& q.frames.len() == p.frames.len()
            &&& forall|k: int| 0 <= k < p.frames.len() && k != i ==> #[trigger] q.frames[k] == p.frames[k]
            &&& has_empty_frame(p) ==> p.frames[i as int].page is None
            &&& !has_empty_frame(p) ==> p.order.contains(i) && (p.order.contains(other) && other != i
                ==> leaves_before(p, i, other)) && !leaves_before(p, other, i)
        }),
{
    lemma_first_empty(p, 0);
    if has_empty_frame(p) {
        let k = choose|k: int| 0 <= k < p.frames.len() && (#[trigger] p.frames[k]).page is None;
        assert(first_empty(p.frames, 0) is Some);
    } else {
        assert(first_empty(p.frames, 0) is None) by {
            if let Some(k) = first_empty(p.frames, 0) {
                assert(p.frames[k].page is None);
            }
        }
        let i = p.order[0];
        assert(p.order.contains(i));
        if p.order.contains(other) && other != i {
            let k = choose|k: int| 0 <= k < p.order.len() && p.order[k] == other;
            assert(p.order[0] == i && p.order[k] == other);
        }
        if leaves_before(p, other, i) {
            let (k, l) = choose|k: int, l: int|
                0 <= k < l < p.order.len() && #[trigger] p.order[k] == other
                    && #[trigger] p.order[l] == i;
            assert(p.order[l] == p.order[0]);
        }
    }
}

/// A request is counted once: as a hit if the page was cached, as a miss if not. The counters stop at
/// the largest number. Nothing else is counted.
pub proof fn law_requests_are_counted(p: PoolView, id: u32, i: usize, dirty: bool)
    requires
        p.hits < u64::MAX,
        p.misses < u64::MAX,
    ensures
        pool_fetch(p, id).0.hits == p.hits + if p.table.contains_key(id) {
            1int
        } else {
            0
        },
        pool_fetch(p, id).0.misses == p.misses + if p.table.contains_key(id) {
            0int
        } else {
            1
        },
        pool_new(p).0.hits == p.hits,
        pool_new(p).0.misses == p.misses,
        pool_unpin(p, i, dirty).hits == p.hits,
        pool_unpin(p, i, dirty).misses == p.misses,
{
}

} // verus!
