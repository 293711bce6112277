//! What ORDER BY and LIMIT promise.
use crate::engine::catalog::fits;
use crate::engine::model::{limited, row_rank, sort_place, sort_rank, sort_rows, RowView};
use crate::sql::ast::{DataType, OrderDir, ValueView};
use crate::sql::number::{is_nan, Rank};
use crate::text::law_text_order;
use vstd::prelude::*;

verus! {

/// A value of a column of this type that has a place in the order: NULL, or a value that compares
/// with itself.
pub open spec fn sortable(ty: DataType, v: ValueView) -> bool {
    &&& fits(ty, v)
    &&& (v matches ValueView::Float(bits) ==> !is_nan(bits))
}

/// Column `i` of every row has a sortable value.
pub open spec fn all_sortable(ty: DataType, rows: Seq<RowView>, i: int) -> bool {
    forall|k: int| 0 <= k < rows.len() ==> sortable(ty, (#[trigger] rows[k])[i])
}

/// No row comes before one that stands in front of it.
#[verifier::opaque]
pub open spec fn in_order(rows: Seq<RowView>, i: int, dir: OrderDir) -> bool {
    forall|a: int, b: int|
        0 <= a < b < rows.len() ==> row_rank(#[trigger] rows[b], #[trigger] rows[a], i, dir)
            != Rank::Less
}

/// The rows that compare equal to `row`.
pub open spec fn like(row: RowView, i: int, dir: OrderDir) -> spec_fn(RowView) -> bool {
    |r: RowView| row_rank(r, row, i, dir) == Rank::Equal
}

/// Values of one column are weakly ordered.
proof fn lemma_value_order(ty: DataType, a: ValueView, b: ValueView, c: ValueView)
    requires
        sortable(ty, a),
        sortable(ty, b),
        sortable(ty, c),
    ensures
        sort_rank(a, a) == Rank::Equal,
        sort_rank(a, b) == sort_rank(b, a).flipped(),
        sort_rank(a, b) != Rank::Less && sort_rank(b, c) != Rank::Less ==> sort_rank(a, c)
            != Rank::Less,
        sort_rank(a, b) != Rank::Greater && sort_rank(b, c) != Rank::Greater ==> sort_rank(a, c)
            != Rank::Greater,
{
    match (a, b, c) {
        (ValueView::Text(x), ValueView::Text(y), ValueView::Text(z)) => {
            law_text_order(x, y, z);
            law_text_order(z, y, x);
            law_text_order(x, z, y);
        },
        (ValueView::Text(x), ValueView::Text(y), _) => {
            law_text_order(x, y, x);
        },
        _ => {},
    }
}

proof fn lemma_row_order(ty: DataType, a: RowView, b: RowView, c: RowView, i: int, dir: OrderDir)
    requires
        sortable(ty, a[i]),
        sortable(ty, b[i]),
        sortable(ty, c[i]),
    ensures
        row_rank(a, a, i, dir) == Rank::Equal,
        row_rank(a, b, i, dir) == row_rank(b, a, i, dir).flipped(),
        row_rank(a, b, i, dir) != Rank::Less && row_rank(b, c, i, dir) != Rank::Less ==> row_rank(
            a,
            c,
            i,
            dir,
        ) != Rank::Less,
        row_rank(a, b, i, dir) != Rank::Greater && row_rank(b, c, i, dir) != Rank::Greater
            ==> row_rank(a, c, i, dir) != Rank::Greater,
{
    lemma_value_order(ty, a[i], b[i], c[i]);
}

/// Where a row goes: it comes before all rows behind its place, and not before the one in front of
/// it.
proof fn lemma_place(s: Seq<RowView>, row: RowView, i: int, dir: OrderDir, n: nat)
    requires
        n <= s.len(),
    ensures
        ({
            let p = sort_place(s, row, i, dir, n);
            &&& p <= n
            &&& forall|k: int| p <= k < n ==> row_rank(row, #[trigger] s[k], i, dir) == Rank::Less
            &&& p > 0 ==> row_rank(row, s[p - 1], i, dir) != Rank::Less
        }),
    decreases n,
{
    if n > 0 {
        lemma_place(s, row, i, dir, (n - 1) as nat);
    }
}

/// The rows in `s.insert(p, row)` that satisfy `pred`.
proof fn lemma_filter_insert(s: Seq<RowView>, row: RowView, p: int, pred: spec_fn(RowView) -> bool)
    requires
        0 <= p <= s.len(),
        pred(row) ==> forall|k: int| p <= k < s.len() ==> !pred(#[trigger] s[k]),
    ensures
        s.insert(p, row).filter(pred) == (if pred(row) {
            s.filter(pred).push(row)
        } else {
            s.filter(pred)
        }),
{
    let a = s.take(p);
    let b = s.skip(p);
    assert(s =~= a + b);
    assert(s.insert(p, row) =~= a + seq![row] + b);
    Seq::filter_distributes_over_add(a, b, pred);
    Seq::filter_distributes_over_add(a + seq![row], b, pred);
    Seq::filter_distributes_over_add(a, seq![row], pred);
    assert(seq![row].filter(pred) =~= (if pred(row) {
        seq![row]
    } else {
        Seq::empty()
    })) by {
        reveal(Seq::filter);
        let one = seq![row];
        assert(one.drop_last() =~= Seq::empty());
        assert(one.last() == row);
        assert(one.drop_last().filter(pred) =~= Seq::empty());
        assert(Seq::<RowView>::empty().push(row) =~= one);
    }
    if pred(row) {
        lemma_filter_none(b, pred);
        assert(a.filter(pred) + seq![row] + Seq::empty() =~= (a.filter(pred)
            + Seq::<RowView>::empty()).push(row));
    } else {
        assert(a.filter(pred) + Seq::<RowView>::empty() =~= a.filter(pred));
    }
}

proof fn lemma_filter_none(s: Seq<RowView>, pred: spec_fn(RowView) -> bool)
    requires
        forall|k: int| 0 <= k < s.len() ==> !pred(#[trigger] s[k]),
    ensures
        s.filter(pred) == Seq::<RowView>::empty(),
    decreases s.len(),
{
    reveal(Seq::filter);
    if s.len() > 0 {
        let dl = s.drop_last();
        assert forall|k: int| 0 <= k < dl.len() implies !pred(#[trigger] dl[k]) by {
            assert(dl[k] == s[k]);
        }
        lemma_filter_none(dl, pred);
        assert(s[s.len() - 1] == s.last());
    }
}

/// Inserting `x` between those that are not behind it and those that are not in front of it.
proof fn lemma_between<A>(s: Seq<A>, x: A, p: int, lt: spec_fn(A, A) -> bool, a: int, b: int)
    requires
        0 <= p <= s.len(),
        0 <= a < b <= s.len(),
        forall|k: int, l: int| 0 <= k < l < s.len() ==> !lt(#[trigger] s[l], #[trigger] s[k]),
        forall|k: int| 0 <= k < p ==> !lt(x, #[trigger] s[k]),
        forall|k: int| p <= k < s.len() ==> !lt(#[trigger] s[k], x),
    ensures
        !lt(s.insert(p, x)[b], s.insert(p, x)[a]),
{
    let t = s.insert(p, x);
    if b == p {
        assert(t[a] == s[a]);
    } else if a == p {
        assert(t[b] == s[b - 1]);
    } else {
        let a0 = if a < p {
            a
        } else {
            a - 1
        };
        let b0 = if b < p {
            b
        } else {
            b - 1
        };
        assert(t[a] == s[a0] && t[b] == s[b0]);
    }
}

/// One row comes before another.
spec fn comes_before(i: int, dir: OrderDir) -> spec_fn(RowView, RowView) -> bool {
    |a: RowView, b: RowView| row_rank(a, b, i, dir) == Rank::Less
}

/// Inserting a row at its place keeps rows in order.
proof fn lemma_place_in_order(
    ty: DataType,
    s: Seq<RowView>,
    row: RowView,
    i: int,
    dir: OrderDir,
    a: int,
    b: int,
)
    requires
        all_sortable(ty, s, i),
        sortable(ty, row[i]),
        in_order(s, i, dir),
        0 <= a < b <= s.len(),
    ensures
        ({
            let t = s.insert(sort_place(s, row, i, dir, s.len()) as int, row);
            row_rank(t[b], t[a], i, dir) != Rank::Less
        }),
{
    let p = sort_place(s, row, i, dir, s.len()) as int;
    let lt = comes_before(i, dir);
    assert(0 <= p <= s.len()) by {
        lemma_place(s, row, i, dir, s.len());
    }
    assert forall|k: int| 0 <= k < p implies !lt(row, #[trigger] s[k]) by {
        lemma_place(s, row, i, dir, s.len());
        lemma_behind(ty, s, row, i, dir, p, k);
    }
    assert forall|k: int| p <= k < s.len() implies !lt(#[trigger] s[k], row) by {
        lemma_place(s, row, i, dir, s.len());
        assert(sortable(ty, s[k][i]));
        lemma_not_before(ty, row, s[k], i, dir);
    }
    assert forall|k: int, l: int| 0 <= k < l < s.len() implies !lt(
        #[trigger] s[l],
        #[trigger] s[k],
    ) by {
        reveal(in_order);
        assert(row_rank(s[l], s[k], i, dir) != Rank::Less);
    }
    lemma_between(s, row, p, lt, a, b);
}

/// A row that comes before another does not come behind it.
proof fn lemma_not_before(ty: DataType, a: RowView, b: RowView, i: int, dir: OrderDir)
    requires
        sortable(ty, a[i]),
        sortable(ty, b[i]),
        row_rank(a, b, i, dir) == Rank::Less,
    ensures
        row_rank(b, a, i, dir) != Rank::Less,
{
    lemma_row_order(ty, a, b, a, i, dir);
}

/// A row that does not come before the last of some rows in order comes before none of them.
proof fn lemma_behind(
    ty: DataType,
    s: Seq<RowView>,
    row: RowView,
    i: int,
    dir: OrderDir,
    p: int,
    a: int,
)
    requires
        all_sortable(ty, s, i),
        sortable(ty, row[i]),
        in_order(s, i, dir),
        0 <= a < p <= s.len(),
        row_rank(row, s[p - 1], i, dir) != Rank::Less,
    ensures
        row_rank(row, s[a], i, dir) != Rank::Less,
{
    reveal(in_order);
    let last = s[p - 1];
    let x = s[a];
    assert(sortable(ty, x[i]));
    assert(sortable(ty, last[i]));
    if a < p - 1 {
        assert(row_rank(last, x, i, dir) != Rank::Less);
        lemma_row_order(ty, row, last, x, i, dir);
    }
}

/// Inserting a row at its place puts it behind the rows that compare equal to it.
proof fn lemma_place_behind(
    ty: DataType,
    s: Seq<RowView>,
    row: RowView,
    i: int,
    dir: OrderDir,
    x: RowView,
)
    requires
        all_sortable(ty, s, i),
        sortable(ty, row[i]),
        sortable(ty, x[i]),
    ensures
        s.insert(sort_place(s, row, i, dir, s.len()) as int, row).filter(like(x, i, dir)) == (
        if like(x, i, dir)(row) {
            s.filter(like(x, i, dir)).push(row)
        } else {
            s.filter(like(x, i, dir))
        }),
{
    lemma_place(s, row, i, dir, s.len());
    let p = sort_place(s, row, i, dir, s.len()) as int;
    let pred = like(x, i, dir);
    if pred(row) {
        assert forall|k: int| p <= k < s.len() implies !pred(#[trigger] s[k]) by {
            assert(sortable(ty, s[k][i]));
            assert(row_rank(row, s[k], i, dir) == Rank::Less);
            lemma_row_order(ty, row, x, s[k], i, dir);
            lemma_row_order(ty, x, s[k], row, i, dir);
            lemma_row_order(ty, s[k], x, row, i, dir);
        }
    }
    lemma_filter_insert(s, row, p, pred);
}

proof fn lemma_sort_keeps(rows: Seq<RowView>, i: int, dir: OrderDir, n: nat)
    requires
        n <= rows.len(),
    ensures
        sort_rows(rows, i, dir, n).len() == n,
        sort_rows(rows, i, dir, n).to_multiset() == rows.take(n as int).to_multiset(),
    decreases n,
{
    broadcast use vstd::seq_lib::group_to_multiset_ensures;

    if n == 0 {
        assert(sort_rows(rows, i, dir, 0) =~= rows.take(0));
    } else {
        lemma_sort_keeps(rows, i, dir, (n - 1) as nat);
        let s = sort_rows(rows, i, dir, (n - 1) as nat);
        let row = rows[n - 1];
        lemma_place(s, row, i, dir, s.len());
        let p = sort_place(s, row, i, dir, s.len()) as int;
        let t = s.insert(p, row);
        assert(rows.take(n as int) =~= rows.take(n - 1).push(row));
        assert(t.remove(p) =~= s);
        assert(t[p] == row);
        assert(t.contains(row));
        assert(t.to_multiset().remove(row) =~= s.to_multiset());
        assert(t.to_multiset().count(row) > 0);
        assert(t.to_multiset() =~= s.to_multiset().insert(row));
    }
}

/// ORDER BY loses no row and adds none.
pub proof fn law_sort_keeps_rows(rows: Seq<RowView>, i: int, dir: OrderDir)
    ensures
        sort_rows(rows, i, dir, rows.len()).to_multiset() == rows.to_multiset(),
{
    lemma_sort_keeps(rows, i, dir, rows.len());
    assert(rows.take(rows.len() as int) =~= rows);
}

proof fn lemma_sort_orders(ty: DataType, rows: Seq<RowView>, i: int, dir: OrderDir, n: nat)
    requires
        n <= rows.len(),
        all_sortable(ty, rows, i),
    ensures
        in_order(sort_rows(rows, i, dir, n), i, dir),
        all_sortable(ty, sort_rows(rows, i, dir, n), i),
    decreases n,
{
    if n > 0 {
        lemma_sort_orders(ty, rows, i, dir, (n - 1) as nat);
        let s = sort_rows(rows, i, dir, (n - 1) as nat);
        let row = rows[n - 1];
        let p = sort_place(s, row, i, dir, s.len()) as int;
        let t = s.insert(p, row);
        lemma_place(s, row, i, dir, s.len());
        assert forall|k: int| 0 <= k < t.len() implies sortable(ty, (#[trigger] t[k])[i]) by {
            if k < p {
                assert(t[k] == s[k]);
            } else if k > p {
                assert(t[k] == s[k - 1]);
            }
        }
        assert(in_order(t, i, dir)) by {
            reveal(in_order);
            assert forall|a: int, b: int| 0 <= a < b < t.len() implies row_rank(
                #[trigger] t[b],
                #[trigger] t[a],
                i,
                dir,
            ) != Rank::Less by {
                lemma_place_in_order(ty, s, row, i, dir, a, b);
            }
        }
    } else {
        reveal(in_order);
    }
}

/// ORDER BY puts rows in order, provided that the column holds no value that is not a number.
pub proof fn law_sort_orders_rows(ty: DataType, rows: Seq<RowView>, i: int, dir: OrderDir)
    requires
        all_sortable(ty, rows, i),
    ensures
        in_order(sort_rows(rows, i, dir, rows.len()), i, dir),
{
    lemma_sort_orders(ty, rows, i, dir, rows.len());
}

proof fn lemma_sort_stable(
    ty: DataType,
    rows: Seq<RowView>,
    i: int,
    dir: OrderDir,
    n: nat,
    x: RowView,
)
    requires
        n <= rows.len(),
        all_sortable(ty, rows, i),
        sortable(ty, x[i]),
    ensures
        sort_rows(rows, i, dir, n).filter(like(x, i, dir)) == rows.take(n as int).filter(
            like(x, i, dir),
        ),
    decreases n,
{
    let pred = like(x, i, dir);
    if n == 0 {
        assert(sort_rows(rows, i, dir, 0) =~= rows.take(0));
    } else {
        lemma_sort_stable(ty, rows, i, dir, (n - 1) as nat, x);
        lemma_sort_orders(ty, rows, i, dir, (n - 1) as nat);
        let s = sort_rows(rows, i, dir, (n - 1) as nat);
        let row = rows[n - 1];
        lemma_place_behind(ty, s, row, i, dir, x);
        let now = rows.take(n as int);
        assert(now.drop_last() =~= rows.take(n - 1));
        assert(now.last() == row);
        reveal(Seq::filter);
    }
}

/// ORDER BY leaves rows that compare equal in the order in which they were, provided that the column
/// holds no value that is not a number.
pub proof fn law_sort_is_stable(
    ty: DataType,
    rows: Seq<RowView>,
    i: int,
    dir: OrderDir,
    x: RowView,
)
    requires
        all_sortable(ty, rows, i),
        sortable(ty, x[i]),
    ensures
        sort_rows(rows, i, dir, rows.len()).filter(like(x, i, dir)) == rows.filter(
            like(x, i, dir),
        ),
{
    lemma_sort_stable(ty, rows, i, dir, rows.len(), x);
    assert(rows.take(rows.len() as int) =~= rows);
}

/// LIMIT returns the first rows, at most as many as it says.
pub proof fn law_limited(rows: Seq<RowView>, limit: Option<u64>)
    ensures
        limited(rows, limit).is_prefix_of(rows),
        limit is None ==> limited(rows, limit) == rows,
        limit matches Some(n) ==> limited(rows, limit).len() == (if n < rows.len() {
            n as nat
        } else {
            rows.len()
        }),
{
    assert(rows.take(rows.len() as int) =~= rows);
}

} // verus!
