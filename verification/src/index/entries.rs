//! What inserting, deleting and scanning do to the entries of an index, counted one by one.
use crate::index::btree::{
    has_key, lemma_below_sorted, lemma_with_key_sorted, rid_of, rids_between, sorted, with_key,
    without_key, Entry,
};
use crate::index::node::Rid;
use vstd::prelude::*;

verus! {

/// An insertion adds one entry and keeps all others, those with the same key too. The new entry comes
/// before the others with its key.
pub proof fn law_insertion_adds_one_entry(e: Seq<Entry>, key: i64, rid: Rid) -> (p: int)
    requires
        sorted(e),
    ensures
        0 <= p <= e.len(),
        with_key(e, key, rid) == e.insert(p, (key, rid)),
        forall|i: int| 0 <= i < p ==> (#[trigger] e[i]).0 < key,
        forall|i: int| p <= i < e.len() ==> key <= (#[trigger] e[i]).0,
{
    lemma_below_sorted(e, key);
    crate::index::btree::below(e, key) as int
}

/// A deletion takes away one entry, the first with the key, and keeps all others; where no entry has
/// the key it changes nothing.
pub proof fn law_deletion_removes_one_entry(e: Seq<Entry>, key: i64) -> (p: int)
    requires
        sorted(e),
    ensures
        0 <= p <= e.len(),
        forall|i: int| 0 <= i < p ==> (#[trigger] e[i]).0 != key,
        p < e.len() ==> e[p].0 == key && without_key(e, key) == e.remove(p),
        p == e.len() ==> without_key(e, key) == e && !has_key(e, key),
{
    lemma_below_sorted(e, key);
    let b = crate::index::btree::below(e, key) as int;
    if has_key(e, key) {
        b
    } else {
        assert forall|i: int| 0 <= i < e.len() implies (#[trigger] e[i]).0 != key by {
            if b <= i {
                assert(e[b].0 <= e[i].0);
            }
        }
        e.len() as int
    }
}

/// To delete a key right after it was inserted gives the entries that there were, whether the key was
/// there or not.
pub proof fn law_deletion_undoes_insertion(e: Seq<Entry>, key: i64, rid: Rid)
    requires
        sorted(e),
    ensures
        without_key(with_key(e, key, rid), key) == e,
{
    let f = with_key(e, key, rid);
    let p = law_insertion_adds_one_entry(e, key, rid);
    lemma_with_key_sorted(e, key, rid);
    let q = law_deletion_removes_one_entry(f, key);
    assert(f[p] == (key, rid));
    assert(q <= p) by {
        if q > p {
            assert(f[p].0 != key);
        }
    }
    if q < p {
        assert(f[q] == e[q]);
    }
    assert(f.remove(p) =~= e);
}

/// A search gives the row of an entry with the key, and nothing where there is none.
pub proof fn law_search_gives_a_row_of_the_key(e: Seq<Entry>, key: i64)
    requires
        sorted(e),
    ensures
        rid_of(e, key) matches Some(rid) ==> e.contains((key, rid)),
        rid_of(e, key) is None ==> forall|i: int| 0 <= i < e.len() ==> (#[trigger] e[i]).0 != key,
{
    let p = law_deletion_removes_one_entry(e, key);
    if has_key(e, key) {
        let b = crate::index::btree::below(e, key) as int;
        assert(e[b] == (key, rid_of(e, key)->0));
    }
}

/// A range scan returns the rows of the entries whose keys lie in the range, each as often as it is
/// there, in the order of the entries, that is of the keys.
pub proof fn law_range_is_in_order(e: Seq<Entry>, start: i64, end: i64)
    ensures
        rids_between(e, start, end) == e.filter(|x: Entry| start <= x.0 && x.0 <= end).map_values(
            |x: Entry| x.1,
        ),
    decreases e.len(),
{
    let p = |x: Entry| start <= x.0 && x.0 <= end;
    let f = |x: Entry| x.1;
    reveal(Seq::filter);
    if e.len() == 0 {
        assert(e.filter(p).map_values(f) =~= Seq::empty());
    } else {
        law_range_is_in_order(e.drop_last(), start, end);
        let rest = e.drop_last().filter(p);
        if p(e.last()) {
            assert(rest.push(e.last()).map_values(f) =~= rest.map_values(f).push(f(e.last())));
        }
    }
}

} // verus!
