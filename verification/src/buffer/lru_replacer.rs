//! Which frame to evict next: the one that has been evictable for the longest time.
use std::collections::VecDeque;
use vstd::prelude::*;

verus! {

/// The frames of `s` other than `id`, in order.
pub open spec fn without(s: Seq<usize>, id: usize) -> Seq<usize>
    decreases s.len(),
{
    if s.len() == 0 {
        s
    } else if s.last() == id {
        without(s.drop_last(), id)
    } else {
        without(s.drop_last(), id).push(s.last())
    }
}

/// `without` removes `id` and nothing else.
pub proof fn lemma_without(s: Seq<usize>, id: usize)
    ensures
        !without(s, id).contains(id),
        forall|x: usize| x != id ==> (#[trigger] without(s, id).contains(x) <==> s.contains(x)),
        s.no_duplicates() ==> without(s, id).no_duplicates(),
        !s.contains(id) ==> without(s, id) == s,
        without(s, id).len() <= s.len(),
    decreases s.len(),
{
    if s.len() > 0 {
        let dl = s.drop_last();
        lemma_without(dl, id);
        let w = without(dl, id);
        let r = without(s, id);
        assert forall|x: usize| s.contains(x) <==> dl.contains(x) || x == s.last() by {
            if s.contains(x) {
                let i = choose|i: int| 0 <= i < s.len() && s[i] == x;
                if i < dl.len() {
                    assert(dl[i] == x);
                }
            }
            if dl.contains(x) {
                let i = choose|i: int| 0 <= i < dl.len() && dl[i] == x;
                assert(s[i] == x);
            }
            assert(s[s.len() - 1] == s.last());
        }
        if s.last() != id {
            assert forall|x: usize| r.contains(x) <==> w.contains(x) || x == s.last() by {
                if r.contains(x) {
                    let i = choose|i: int| 0 <= i < r.len() && r[i] == x;
                    if i < w.len() {
                        assert(w[i] == x);
                    }
                }
                if w.contains(x) {
                    let i = choose|i: int| 0 <= i < w.len() && w[i] == x;
                    assert(r[i] == x);
                }
                assert(r[r.len() - 1] == s.last());
            }
        }
        if s.no_duplicates() {
            assert(dl.no_duplicates()) by {
                assert forall|i: int, j: int|
                    0 <= i < dl.len() && 0 <= j < dl.len() && i != j implies dl[i] != dl[j] by {
                    assert(s[i] != s[j]);
                }
            }
            assert(!dl.contains(s.last())) by {
                if dl.contains(s.last()) {
                    let i = choose|i: int| 0 <= i < dl.len() && dl[i] == s.last();
                    assert(s[i] != s[s.len() - 1]);
                }
            }
            if s.last() != id {
                assert(!w.contains(s.last()));
                assert forall|i: int, j: int|
                    0 <= i < r.len() && 0 <= j < r.len() && i != j implies r[i] != r[j] by {
                    if i < w.len() && j < w.len() {
                        assert(w[i] != w[j]);
                    } else if i < w.len() {
                        assert(w[i] == r[i]);
                    } else {
                        assert(w[j] == r[j]);
                    }
                }
            }
        }
        if !s.contains(id) {
            assert(s.last() != id);
            assert(dl.push(s.last()) =~= s);
        }
    }
}

/// The order after a frame became evictable.
pub open spec fn after_unpin(s: Seq<usize>, id: usize) -> Seq<usize> {
    if s.contains(id) {
        s
    } else {
        s.push(id)
    }
}

/// The order after a frame was used.
pub open spec fn after_access(s: Seq<usize>, id: usize) -> Seq<usize> {
    without(s, id).push(id)
}

/// The next victim, and the order after it left.
pub open spec fn after_evict(s: Seq<usize>) -> (Option<usize>, Seq<usize>) {
    if s.len() == 0 {
        (None, s)
    } else {
        (Some(s[0]), s.skip(1))
    }
}

/// Who leaves when: a frame that was just used leaves last; one that becomes evictable leaves after
/// those that are, and one that is keeps its turn; whoever leaves is the first, and all others stay,
/// in their order.
pub proof fn law_turns(s: Seq<usize>, id: usize, other: usize)
    requires
        s.no_duplicates(),
    ensures
        after_access(s, id).no_duplicates(),
        after_access(s, id).last() == id,
        other != id ==> after_access(s, id).contains(other) == s.contains(other),
        after_unpin(s, id).no_duplicates(),
        s.contains(id) ==> after_unpin(s, id) == s,
        !s.contains(id) ==> after_unpin(s, id).last() == id && after_unpin(s, id).drop_last() == s,
        after_evict(s).0 is None <==> s.len() == 0,
        after_evict(s).0 matches Some(v) ==> s == seq![v] + after_evict(s).1
            && !after_evict(s).1.contains(v),
        without(after_access(s, id), id) == without(s, id),
{
    lemma_without(s, id);
    let w = without(s, id);
    let a = after_access(s, id);
    assert(a.drop_last() =~= w);
    lemma_without(w, id);
    assert(a[a.len() - 1] == id);
    if other != id {
        if a.contains(other) {
            let i = choose|i: int| 0 <= i < a.len() && a[i] == other;
            assert(w[i] == other);
            assert(w.contains(other));
        }
        if s.contains(other) {
            assert(w.contains(other));
            let i = choose|i: int| 0 <= i < w.len() && w[i] == other;
            assert(a[i] == other);
        }
    }
    if !s.contains(id) {
        assert(s.push(id).drop_last() =~= s);
    }
    if s.len() > 0 {
        assert(s =~= seq![s[0]] + s.skip(1));
        if s.skip(1).contains(s[0]) {
            let i = choose|i: int| 0 <= i < s.skip(1).len() && s.skip(1)[i] == s[0];
            assert(s[i + 1] == s[0]);
        }
    }
}

pub struct LruReplacer {
    order: VecDeque<usize>,
    capacity: usize,
}

/// The evictable frames, the next victim first.
impl View for LruReplacer {
    type V = Seq<usize>;

    closed spec fn view(&self) -> Seq<usize> {
        self.order@
    }
}

impl LruReplacer {
    pub fn new(capacity: usize) -> (r: Self)
        ensures
            r@ == Seq::<usize>::empty(),
    {
        Self { order: VecDeque::new(), capacity }
    }

    /// Makes a frame evictable, unless it is already.
    pub fn unpin(&mut self, frame_id: usize)
        ensures
            final(self)@ == (if old(self)@.contains(frame_id) {
                old(self)@
            } else {
                old(self)@.push(frame_id)
            }),
            final(self)@ == after_unpin(old(self)@, frame_id),
    {
        let n: usize = self.order.len();
        let mut i: usize = 0;
        while i < n
            invariant
                i <= n,
                n == self.order@.len(),
                self.order@ == old(self).order@,
                forall|k: int| 0 <= k < i ==> self.order@[k] != frame_id,
            decreases n - i,
        {
            if self.order[i] == frame_id {
                assert(self.order@[i as int] == frame_id);
                return;
            }
            i = i + 1;
        }
        self.order.push_back(frame_id);
    }

    /// Makes a frame not evictable.
    pub fn pin(&mut self, frame_id: usize)
        ensures
            final(self)@ == without(old(self)@, frame_id),
    {
        let ghost s = self.order@;
        let n: usize = self.order.len();
        let mut kept: VecDeque<usize> = VecDeque::new();
        let mut i: usize = 0;
        while i < n
            invariant
                i <= n,
                n == s.len(),
                self.order@ == s,
                kept@ == without(s.take(i as int), frame_id),
            decreases n - i,
        {
            let x: usize = self.order[i];
            assert(s.take(i + 1).drop_last() =~= s.take(i as int));
            if x != frame_id {
                kept.push_back(x);
            }
            i = i + 1;
        }
        assert(s.take(n as int) =~= s);
        self.order = kept;
    }

    /// Takes the next victim.
    pub fn evict(&mut self) -> (res: Option<usize>)
        ensures
            match res {
                Some(id) => old(self)@.len() > 0 && id == old(self)@[0] && final(self)@
                    == old(self)@.subrange(1, old(self)@.len() as int),
                None => old(self)@.len() == 0 && final(self)@ == old(self)@,
            },
            (res, final(self)@) == after_evict(old(self)@),
    {
        self.order.pop_front()
    }

    /// Makes a frame evictable, as the last one to be evicted.
    pub fn record_access(&mut self, frame_id: usize)
        ensures
            final(self)@ == without(old(self)@, frame_id).push(frame_id),
            final(self)@ == after_access(old(self)@, frame_id),
    {
        self.pin(frame_id);
        self.order.push_back(frame_id);
    }

    pub fn size(&self) -> (n: usize)
        ensures
            n == self@.len(),
    {
        self.order.len()
    }
}

} // verus!
