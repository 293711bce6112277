//! Per-column B-tree indexes. Only integer columns are indexed; the indexes live in memory and are
//! rebuilt from the table pages on recovery.
use crate::engine::catalog::pairs_view;
use crate::index::btree::{
    lemma_with_key_sorted, rid_of, rids_between, sorted, with_key, without_key, BTree, Entry,
};
use crate::index::node::Rid;
use crate::text::text_eq;
use vstd::prelude::*;
use vstd::string::*;

verus! {

/// One index: the column it is on, and its entries.
#[verifier::ext_equal]
pub struct IndexView {
    pub table: Seq<char>,
    pub column: Seq<char>,
    pub entries: Seq<Entry>,
}

/// The position of the index on a column, from position `i` on.
pub open spec fn index_at(v: Seq<IndexView>, table: Seq<char>, column: Seq<char>, i: int) -> Option<
    int,
>
    decreases v.len() - i,
{
    if i < 0 || i >= v.len() {
        None
    } else if v[i].table == table && v[i].column == column {
        Some(i)
    } else {
        index_at(v, table, column, i + 1)
    }
}

/// The entries of the index on a column.
pub open spec fn index_get(v: Seq<IndexView>, table: Seq<char>, column: Seq<char>) -> Option<
    Seq<Entry>,
> {
    match index_at(v, table, column, 0) {
        Some(i) => Some(v[i].entries),
        None => None,
    }
}

/// There is an index on the column.
pub open spec fn index_has(v: Seq<IndexView>, table: Seq<char>, column: Seq<char>) -> bool {
    index_at(v, table, column, 0) is Some
}

/// The indexes after one was created, unless it existed.
pub open spec fn index_create(v: Seq<IndexView>, table: Seq<char>, column: Seq<char>) -> Seq<
    IndexView,
> {
    if index_has(v, table, column) {
        v
    } else {
        v.push(IndexView { table, column, entries: Seq::empty() })
    }
}

/// The indexes after the entries of one became `entries`.
pub open spec fn index_set(v: Seq<IndexView>, i: int, entries: Seq<Entry>) -> Seq<IndexView> {
    v.update(i, IndexView { entries, ..v[i] })
}

/// The indexes after a key was inserted, if there is an index on the column.
pub open spec fn index_insert(
    v: Seq<IndexView>,
    table: Seq<char>,
    column: Seq<char>,
    key: i64,
    rid: Rid,
) -> Seq<IndexView> {
    match index_at(v, table, column, 0) {
        Some(i) => index_set(v, i, with_key(v[i].entries, key, rid)),
        None => v,
    }
}

/// The indexes after a key was deleted, if there is an index on the column.
pub open spec fn index_delete(
    v: Seq<IndexView>,
    table: Seq<char>,
    column: Seq<char>,
    key: i64,
) -> Seq<IndexView> {
    match index_at(v, table, column, 0) {
        Some(i) => index_set(v, i, without_key(v[i].entries, key)),
        None => v,
    }
}

/// The row that a key leads to.
pub open spec fn index_search(
    v: Seq<IndexView>,
    table: Seq<char>,
    column: Seq<char>,
    key: i64,
) -> Option<Rid> {
    match index_get(v, table, column) {
        Some(e) => rid_of(e, key),
        None => None,
    }
}

/// The rows of the keys between `start` and `end`.
pub open spec fn index_range(
    v: Seq<IndexView>,
    table: Seq<char>,
    column: Seq<char>,
    start: i64,
    end: i64,
) -> Seq<Rid> {
    match index_get(v, table, column) {
        Some(e) => rids_between(e, start, end),
        None => Seq::empty(),
    }
}

/// The columns that have indexes.
pub open spec fn index_defs_of(v: Seq<IndexView>) -> Seq<(Seq<char>, Seq<char>)> {
    Seq::new(v.len(), |i: int| (v[i].table, v[i].column))
}

/// The entries of every index are in key order, and no column has two indexes.
pub open spec fn indexes_wf(v: Seq<IndexView>) -> bool {
    &&& forall|i: int| 0 <= i < v.len() ==> sorted((#[trigger] v[i]).entries)
    &&& forall|i: int, j: int|
        0 <= i < j < v.len() ==> (#[trigger] v[i]).table != (#[trigger] v[j]).table || v[i].column
            != v[j].column
}

/// What `index_at` finds is the first index on the column.
pub proof fn lemma_index_at(v: Seq<IndexView>, table: Seq<char>, column: Seq<char>, i: int)
    requires
        0 <= i,
    ensures
        match index_at(v, table, column, i) {
            Some(k) => {
                &&& i <= k < v.len()
                &&& v[k].table == table
                &&& v[k].column == column
            },
            None => forall|k: int|
                i <= k < v.len() ==> (#[trigger] v[k]).table != table || v[k].column != column,
        },
    decreases v.len() - i,
{
    if i < v.len() && !(v[i].table == table && v[i].column == column) {
        lemma_index_at(v, table, column, i + 1);
    }
}

struct Index {
    table: String,
    column: String,
    tree: BTree,
}

/// Manages the B-tree indexes, one per indexed column.
pub struct IndexManager {
    indexes: Vec<Index>,
}

/// The indexes in the order in which they were created.
impl View for IndexManager {
    type V = Seq<IndexView>;

    closed spec fn view(&self) -> Seq<IndexView> {
        Seq::new(
            self.indexes@.len(),
            |i: int|
                IndexView {
                    table: self.indexes@[i].table@,
                    column: self.indexes@[i].column@,
                    entries: self.indexes@[i].tree@,
                },
        )
    }
}

impl IndexManager {
    /// Every tree is well formed, and no column has two indexes.
    pub closed spec fn wf(&self) -> bool {
        &&& forall|i: int| 0 <= i < self.indexes@.len() ==> (#[trigger] self.indexes@[i]).tree.wf()
        &&& indexes_wf(self@)
    }

    /// The entries of every index are in key order, and no column has two indexes:
    /// `get_index_defs` lists no column twice.
    pub proof fn law_indexes(&self)
        requires
            self.wf(),
        ensures
            indexes_wf(self@),
            index_defs_of(self@).no_duplicates(),
    {
        let defs = index_defs_of(self@);
        assert forall|i: int, j: int|
            0 <= i < defs.len() && 0 <= j < defs.len() && i != j implies defs[i] != defs[j] by {
            if i < j {
                assert(self@[i].table != self@[j].table || self@[i].column != self@[j].column);
            } else {
                assert(self@[j].table != self@[i].table || self@[j].column != self@[i].column);
            }
        }
    }

    pub fn new() -> (m: Self)
        ensures
            m.wf(),
            m@ == Seq::<IndexView>::empty(),
    {
        let m = Self { indexes: Vec::new() };
        assert(m@ =~= Seq::empty());
        m
    }

    fn find(&self, table: &str, column: &str) -> (res: Option<usize>)
        ensures
            match res {
                Some(i) => i < self.indexes@.len() && index_at(self@, table@, column@, 0) == Some(
                    i as int,
                ),
                None => index_at(self@, table@, column@, 0) is None,
            },
    {
        let mut i: usize = 0;
        while i < self.indexes.len()
            invariant
                i <= self.indexes@.len(),
                index_at(self@, table@, column@, 0) == index_at(self@, table@, column@, i as int),
            decreases self.indexes@.len() - i,
        {
            if text_eq(self.indexes[i].table.as_str(), table) && text_eq(
                self.indexes[i].column.as_str(),
                column,
            ) {
                return Some(i);
            }
            i = i + 1;
        }
        None
    }

    /// Creates an index on a column, unless there is one.
    pub fn create_index(&mut self, table: &str, column: &str)
        requires
            old(self).wf(),
        ensures
            final(self).wf(),
            final(self)@ == index_create(old(self)@, table@, column@),
    {
        let ghost before = self@;
        proof {
            lemma_index_at(before, table@, column@, 0);
        }
        if self.find(table, column).is_none() {
            self.indexes.push(
                Index { table: table.to_owned(), column: column.to_owned(), tree: BTree::new() },
            );
            proof {
                let added = IndexView { table: table@, column: column@, entries: Seq::empty() };
                assert(self@ =~= before.push(added));
            }
        }
    }

    /// Tells whether there is an index on a column.
    pub fn has_index(&self, table: &str, column: &str) -> (b: bool)
        ensures
            b == index_has(self@, table@, column@),
    {
        self.find(table, column).is_some()
    }

    /// Inserts a key into the index on a column, if there is one.
    pub fn insert(&mut self, table: &str, column: &str, key: i64, rid: Rid)
        requires
            old(self).wf(),
        ensures
            final(self).wf(),
            final(self)@ == index_insert(old(self)@, table@, column@, key, rid),
    {
        let ghost before = self@;
        match self.find(table, column) {
            Some(i) => {
                self.indexes[i].tree.insert(key, rid);
                proof {
                    lemma_with_key_sorted(before[i as int].entries, key, rid);
                    assert(self@ =~= index_insert(before, table@, column@, key, rid));
                }
            },
            None => {},
        }
    }

    /// Deletes a key from the index on a column, if there is one.
    pub fn delete(&mut self, table: &str, column: &str, key: i64)
        requires
            old(self).wf(),
        ensures
            final(self).wf(),
            final(self)@ == index_delete(old(self)@, table@, column@, key),
    {
        let ghost before = self@;
        match self.find(table, column) {
            Some(i) => {
                self.indexes[i].tree.delete(key);
                proof {
                    self.indexes@[i as int].tree.lemma_sorted();
                    assert(self@ =~= index_delete(before, table@, column@, key));
                }
            },
            None => {},
        }
    }

    /// Exact-match lookup.
    pub fn search(&self, table: &str, column: &str, key: i64) -> (res: Option<Rid>)
        requires
            self.wf(),
        ensures
            res == index_search(self@, table@, column@, key),
    {
        match self.find(table, column) {
            Some(i) => self.indexes[i].tree.search(key),
            None => None,
        }
    }

    /// Returns the rows of all keys with `start <= key <= end`.
    pub fn range_scan(&self, table: &str, column: &str, start: i64, end: i64) -> (res: Vec<Rid>)
        requires
            self.wf(),
        ensures
            res@ == index_range(self@, table@, column@, start, end),
    {
        match self.find(table, column) {
            Some(i) => self.indexes[i].tree.range_scan(start, end),
            None => Vec::new(),
        }
    }

    /// Returns the columns that have indexes, as pairs of table and column name.
    pub fn get_index_defs(&self) -> (defs: Vec<(String, String)>)
        ensures
            pairs_view(defs@) == index_defs_of(self@),
    {
        let mut defs: Vec<(String, String)> = Vec::new();
        let mut i: usize = 0;
        while i < self.indexes.len()
            invariant
                i <= self.indexes@.len(),
                defs@.len() == i,
                forall|k: int|
                    0 <= k < i ==> (#[trigger] defs@[k]).0@ == self@[k].table && defs@[k].1@
                        == self@[k].column,
            decreases self.indexes@.len() - i,
        {
            defs.push((self.indexes[i].table.clone(), self.indexes[i].column.clone()));
            i = i + 1;
        }
        assert(pairs_view(defs@) =~= index_defs_of(self@));
        defs
    }

    /// Drops all indexes, as recovery does before it fills them anew.
    pub fn clear(&mut self)
        ensures
            final(self).wf(),
            final(self)@ == Seq::<IndexView>::empty(),
    {
        self.indexes = Vec::new();
        assert(self@ =~= Seq::empty());
    }
}

} // verus!
