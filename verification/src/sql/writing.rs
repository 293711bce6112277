//! How statements are written, and that the parser reads them so.
use crate::sql::ast::{
    AssignmentView, ColumnView, DataType, ExprView, Op, OrderDir, SelectView, StatementView,
    ValueView,
};
use crate::sql::lexer::{tokens_from, TokenView};
use crate::sql::parser::{
    assignment, assignments, column, columns, create_statement, delete_statement, expect, expr,
    filter, ident, insert_statement, kind, limit, literal, names, order, select_columns,
    select_statement, separator, statement, tok, update_statement, values,
};
use crate::sql::spelling::{law_spelled_text_is_read, spelled_out};
use vstd::prelude::*;

verus! {

// Writing.

/// The token that a value is written as.
pub open spec fn value_token(v: ValueView) -> TokenView {
    match v {
        ValueView::Int(n) => TokenView::IntLit(n),
        ValueView::Float(bits) => TokenView::FloatLit(bits),
        ValueView::Text(s) => TokenView::TextLit(s),
        ValueView::Null => TokenView::Null,
    }
}

/// `name type` or `name type PRIMARY KEY`
pub open spec fn column_tokens(c: ColumnView) -> Seq<TokenView> {
    seq![
        TokenView::Ident(c.name),
        match c.ty {
            DataType::Int => TokenView::Int,
            DataType::Text => TokenView::Text,
            DataType::Float => TokenView::Float,
        },
    ] + if c.primary_key {
        seq![TokenView::Primary, TokenView::Key]
    } else {
        Seq::empty()
    }
}

/// Columns between commas, and the closing bracket.
pub open spec fn columns_tokens(cs: Seq<ColumnView>) -> Seq<TokenView>
    decreases cs.len(),
{
    if cs.len() <= 1 {
        column_tokens(cs[0]) + seq![TokenView::RParen]
    } else {
        column_tokens(cs[0]) + (seq![TokenView::Comma] + columns_tokens(cs.skip(1)))
    }
}

/// Values between commas, and the closing bracket.
pub open spec fn values_tokens(vs: Seq<ValueView>) -> Seq<TokenView>
    decreases vs.len(),
{
    if vs.len() <= 1 {
        seq![value_token(vs[0]), TokenView::RParen]
    } else {
        seq![value_token(vs[0]), TokenView::Comma] + values_tokens(vs.skip(1))
    }
}

/// Names between commas.
pub open spec fn names_tokens(ns: Seq<Seq<char>>) -> Seq<TokenView>
    decreases ns.len(),
{
    if ns.len() <= 1 {
        seq![TokenView::Ident(ns[0])]
    } else {
        seq![TokenView::Ident(ns[0]), TokenView::Comma] + names_tokens(ns.skip(1))
    }
}

/// `name = value`
pub open spec fn assignment_tokens(a: AssignmentView) -> Seq<TokenView> {
    seq![TokenView::Ident(a.column), TokenView::Eq, value_token(a.value)]
}

/// Assignments between commas.
pub open spec fn assignments_tokens(set: Seq<AssignmentView>) -> Seq<TokenView>
    decreases set.len(),
{
    if set.len() <= 1 {
        assignment_tokens(set[0])
    } else {
        assignment_tokens(set[0]) + (seq![TokenView::Comma] + assignments_tokens(set.skip(1)))
    }
}

/// `name op value`, `name IS NULL` or `name IS NOT NULL`
pub open spec fn expr_tokens(e: ExprView) -> Seq<TokenView> {
    let name = TokenView::Ident(e.left);
    let v = value_token(e.right);
    match e.op {
        Op::Eq => seq![name, TokenView::Eq, v],
        Op::Ne => seq![name, TokenView::Ne, v],
        Op::Lt => seq![name, TokenView::Lt, v],
        Op::Gt => seq![name, TokenView::Gt, v],
        Op::Le => seq![name, TokenView::Le, v],
        Op::Ge => seq![name, TokenView::Ge, v],
        Op::IsNull => seq![name, TokenView::Is, TokenView::Null],
        Op::IsNotNull => seq![name, TokenView::Is, TokenView::Not, TokenView::Null],
    }
}

pub open spec fn filter_tokens(filter: Option<ExprView>) -> Seq<TokenView> {
    match filter {
        Some(e) => seq![TokenView::Where] + expr_tokens(e),
        None => Seq::empty(),
    }
}

/// `ORDER BY name ASC`, `ORDER BY name DESC`, or, `bare`, `ORDER BY name`, which is ascending.
pub open spec fn order_tokens(order_by: Option<(Seq<char>, OrderDir)>, bare: bool) -> Seq<TokenView> {
    match order_by {
        Some((name, dir)) => seq![TokenView::Order, TokenView::By, TokenView::Ident(name)] + (
        if bare {
            Seq::empty()
        } else {
            seq![
                match dir {
                    OrderDir::Asc => TokenView::Asc,
                    OrderDir::Desc => TokenView::Desc,
                },
            ]
        }),
        None => Seq::empty(),
    }
}

pub open spec fn limit_tokens(limit: Option<u64>) -> Seq<TokenView> {
    match limit {
        Some(n) => seq![TokenView::Limit, TokenView::IntLit(n as i64)],
        None => Seq::empty(),
    }
}

pub open spec fn select_tokens(columns: SelectView) -> Seq<TokenView> {
    match columns {
        SelectView::Star => seq![TokenView::Star],
        SelectView::Named(ns) => names_tokens(ns),
    }
}

/// The tokens that a statement is written with; `bare` tells that ASC is left out.
pub open spec fn statement_tokens(stmt: StatementView, bare: bool) -> Seq<TokenView> {
    match stmt {
        StatementView::CreateTable { table, columns } => seq![
            TokenView::Create,
            TokenView::Table,
            TokenView::Ident(table),
            TokenView::LParen,
        ] + columns_tokens(columns),
        StatementView::Insert { table, values } => seq![
            TokenView::Insert,
            TokenView::Into,
            TokenView::Ident(table),
            TokenView::Values,
            TokenView::LParen,
        ] + values_tokens(values),
        StatementView::Select { table, columns, filter, order_by, limit } => seq![
            TokenView::Select,
        ] + (select_tokens(columns) + (seq![TokenView::From, TokenView::Ident(table)] + (
        filter_tokens(filter) + (order_tokens(order_by, bare) + limit_tokens(limit))))),
        StatementView::Delete { table, filter } => seq![
            TokenView::Delete,
            TokenView::From,
            TokenView::Ident(table),
        ] + filter_tokens(filter),
        StatementView::Update { table, assignments, filter } => seq![
            TokenView::Update,
            TokenView::Ident(table),
            TokenView::SetKeyword,
        ] + (assignments_tokens(assignments) + filter_tokens(filter)),
    }
}

/// A WHERE clause that can be written: `IS NULL` compares with nothing.
pub open spec fn expr_writable(e: ExprView) -> bool {
    e.op is IsNull || e.op is IsNotNull ==> e.right is Null
}

pub open spec fn filter_writable(filter: Option<ExprView>) -> bool {
    filter matches Some(e) ==> expr_writable(e)
}

/// A statement that can be written: its lists are not empty, and its limit is an integer. ASC can be
/// left out where the order is ascending.
pub open spec fn writable(stmt: StatementView, bare: bool) -> bool {
    match stmt {
        StatementView::CreateTable { columns, .. } => columns.len() > 0,
        StatementView::Insert { values, .. } => values.len() > 0,
        StatementView::Select { columns, filter, order_by, limit, .. } => {
            &&& columns matches SelectView::Named(ns) ==> ns.len() > 0
            &&& filter_writable(filter)
            &&& bare ==> (order_by matches Some((_, dir)) && dir is Asc)
            &&& limit matches Some(n) ==> n <= i64::MAX
        },
        StatementView::Delete { filter, .. } => filter_writable(filter),
        StatementView::Update { assignments, filter, .. } => assignments.len() > 0
            && filter_writable(filter),
    }
}

/// The tokens `w` stand in `ts` from `p` on.
pub open spec fn stands(ts: Seq<TokenView>, p: int, w: Seq<TokenView>) -> bool {
    &&& 0 <= p
    &&& p + w.len() <= ts.len()
    &&& forall|i: int| 0 <= i < w.len() ==> ts[p + i] == #[trigger] w[i]
}

/// Nothing that could belong to a statement stands at `p`.
pub open spec fn ends_at(ts: Seq<TokenView>, p: int) -> bool {
    p >= ts.len() || ts[p] is Eof || ts[p] is Semicolon
}

proof fn lemma_stands(ts: Seq<TokenView>, p: int, a: Seq<TokenView>, b: Seq<TokenView>)
    ensures
        stands(ts, p, a + b) <==> stands(ts, p, a) && stands(ts, p + a.len(), b),
{
    if stands(ts, p, a + b) {
        assert forall|i: int| 0 <= i < a.len() implies ts[p + i] == #[trigger] a[i] by {
            assert((a + b)[i] == a[i]);
        }
        assert forall|i: int| 0 <= i < b.len() implies ts[p + a.len() + i] == #[trigger] b[i] by {
            assert((a + b)[a.len() + i] == b[i]);
        }
    }
    if stands(ts, p, a) && stands(ts, p + a.len(), b) {
        assert forall|i: int| 0 <= i < (a + b).len() implies ts[p + i] == #[trigger] (a + b)[i] by {
            if i < a.len() {
                assert(a[i] == (a + b)[i]);
            } else {
                let j = i - a.len();
                assert(b[j] == (a + b)[i]);
                assert(ts[p + a.len() + j] == b[j]);
            }
        }
    }
}

// Reading back.

proof fn lemma_expect(ts: Seq<TokenView>, p: int, t: TokenView)
    requires
        0 <= p,
        kind(t) < 35,
    ensures
        expect(ts, p, t).0 is Ok <==> stands(ts, p, seq![t]),
        expect(ts, p, t).0 is Ok ==> expect(ts, p, t).1 == p + 1,
{
    if stands(ts, p, seq![t]) {
        assert(ts[p + 0] == seq![t][0]);
    }
}

proof fn lemma_literal(ts: Seq<TokenView>, p: int, v: ValueView)
    requires
        0 <= p,
    ensures
        literal(ts, p).0 == Ok::<ValueView, Seq<char>>(v) <==> p < ts.len() && ts[p] == value_token(v),
        literal(ts, p).0 is Ok ==> literal(ts, p).1 == p + 1 && p < ts.len(),
{
}

proof fn lemma_column(ts: Seq<TokenView>, p: int, c: ColumnView)
    requires
        0 <= p,
    ensures
        column(ts, p).0 == Ok::<ColumnView, Seq<char>>(c) ==> column(ts, p).1 == p + column_tokens(
            c,
        ).len() && stands(ts, p, column_tokens(c)),
        stands(ts, p, column_tokens(c)) && !(tok(ts, p + column_tokens(c).len()) is Primary)
            ==> column(ts, p) == (Ok::<ColumnView, Seq<char>>(c), p + column_tokens(c).len()),
{
    let w = column_tokens(c);
    if column(ts, p).0 == Ok::<ColumnView, Seq<char>>(c) {
        if c.primary_key {
            lemma_expect(ts, p + 3, TokenView::Key);
            assert(ts[p + 3 + 0] == seq![TokenView::Key][0]);
        }
        assert forall|i: int| 0 <= i < w.len() implies ts[p + i] == #[trigger] w[i] by {}
    }
    if stands(ts, p, w) && !(tok(ts, p + w.len()) is Primary) {
        assert(ts[p + 0] == w[0] && ts[p + 1] == w[1]);
        if c.primary_key {
            assert(ts[p + 2] == w[2] && ts[p + 3] == w[3]);
        }
    }
}

proof fn lemma_columns_read(ts: Seq<TokenView>, p: int, cs: Seq<ColumnView>)
    requires
        cs.len() > 0,
        stands(ts, p, columns_tokens(cs)),
    ensures
        columns(ts, p) == (Ok::<Seq<ColumnView>, Seq<char>>(cs), p + columns_tokens(cs).len()),
    decreases cs.len(),
{
    let w = column_tokens(cs[0]);
    let q = p + w.len();
    lemma_column(ts, p, cs[0]);
    if cs.len() == 1 {
        lemma_stands(ts, p, w, seq![TokenView::RParen]);
        assert(ts[q + 0] == seq![TokenView::RParen][0]);
        assert(cs =~= seq![cs[0]]);
    } else {
        let rest = columns_tokens(cs.skip(1));
        lemma_stands(ts, p, w, seq![TokenView::Comma] + rest);
        lemma_stands(ts, q, seq![TokenView::Comma], rest);
        assert(ts[q + 0] == seq![TokenView::Comma][0]);
        lemma_columns_read(ts, q + 1, cs.skip(1));
        assert(cs =~= seq![cs[0]] + cs.skip(1));
    }
}

proof fn lemma_columns_written(ts: Seq<TokenView>, p: int)
    requires
        0 <= p,
    ensures
        columns(ts, p).0 matches Ok(cs) ==> cs.len() > 0 && columns(ts, p).1 == p + columns_tokens(
            cs,
        ).len() && stands(ts, p, columns_tokens(cs)),
    decreases ts.len() - p,
{
    if let Ok(cs) = columns(ts, p).0 {
        let c = column(ts, p).0->Ok_0;
        let w = column_tokens(c);
        lemma_column(ts, p, c);
        let q = p + w.len();
        if separator(ts, q).0 == Ok::<bool, Seq<char>>(false) {
            assert(cs == seq![c]);
            assert(stands(ts, q, seq![TokenView::RParen]));
            lemma_stands(ts, p, w, seq![TokenView::RParen]);
        } else {
            lemma_columns_written(ts, q + 1);
            let rest = columns(ts, q + 1).0->Ok_0;
            assert(cs == seq![c] + rest);
            assert(cs.skip(1) =~= rest);
            assert(cs[0] == c);
            assert(stands(ts, q, seq![TokenView::Comma]));
            lemma_stands(ts, q, seq![TokenView::Comma], columns_tokens(rest));
            lemma_stands(ts, p, w, seq![TokenView::Comma] + columns_tokens(rest));
        }
    }
}

proof fn lemma_values_read(ts: Seq<TokenView>, p: int, vs: Seq<ValueView>)
    requires
        vs.len() > 0,
        stands(ts, p, values_tokens(vs)),
    ensures
        values(ts, p) == (Ok::<Seq<ValueView>, Seq<char>>(vs), p + values_tokens(vs).len()),
    decreases vs.len(),
{
    let w = values_tokens(vs);
    lemma_literal(ts, p, vs[0]);
    if vs.len() == 1 {
        assert(ts[p + 0] == w[0] && ts[p + 1] == w[1]);
        assert(vs =~= seq![vs[0]]);
    } else {
        let head = seq![value_token(vs[0]), TokenView::Comma];
        lemma_stands(ts, p, head, values_tokens(vs.skip(1)));
        assert(ts[p + 0] == head[0] && ts[p + 1] == head[1]);
        lemma_values_read(ts, p + 2, vs.skip(1));
        assert(vs =~= seq![vs[0]] + vs.skip(1));
    }
}

proof fn lemma_values_written(ts: Seq<TokenView>, p: int)
    requires
        0 <= p,
    ensures
        values(ts, p).0 matches Ok(vs) ==> vs.len() > 0 && values(ts, p).1 == p + values_tokens(
            vs,
        ).len() && stands(ts, p, values_tokens(vs)),
    decreases ts.len() - p,
{
    if let Ok(vs) = values(ts, p).0 {
        let v = literal(ts, p).0->Ok_0;
        lemma_literal(ts, p, v);
        if separator(ts, p + 1).0 == Ok::<bool, Seq<char>>(false) {
            assert(vs == seq![v]);
            assert forall|i: int| 0 <= i < 2 implies ts[p + i] == #[trigger] values_tokens(
                vs,
            )[i] by {}
        } else {
            lemma_values_written(ts, p + 2);
            let rest = values(ts, p + 2).0->Ok_0;
            assert(vs == seq![v] + rest);
            assert(vs.skip(1) =~= rest);
            let head = seq![value_token(v), TokenView::Comma];
            assert(stands(ts, p, head)) by {
                assert forall|i: int| 0 <= i < 2 implies ts[p + i] == #[trigger] head[i] by {}
            }
            lemma_stands(ts, p, head, values_tokens(rest));
        }
    }
}

proof fn lemma_names_read(ts: Seq<TokenView>, p: int, ns: Seq<Seq<char>>)
    requires
        ns.len() > 0,
        stands(ts, p, names_tokens(ns)),
        !(tok(ts, p + names_tokens(ns).len()) is Comma),
    ensures
        names(ts, p) == (Ok::<Seq<Seq<char>>, Seq<char>>(ns), p + names_tokens(ns).len()),
    decreases ns.len(),
{
    let w = names_tokens(ns);
    if ns.len() == 1 {
        assert(ts[p + 0] == w[0]);
        assert(ns =~= seq![ns[0]]);
    } else {
        let head = seq![TokenView::Ident(ns[0]), TokenView::Comma];
        lemma_stands(ts, p, head, names_tokens(ns.skip(1)));
        assert(ts[p + 0] == head[0] && ts[p + 1] == head[1]);
        lemma_names_read(ts, p + 2, ns.skip(1));
        assert(ns =~= seq![ns[0]] + ns.skip(1));
    }
}

proof fn lemma_names_written(ts: Seq<TokenView>, p: int)
    requires
        0 <= p,
    ensures
        names(ts, p).0 matches Ok(ns) ==> ns.len() > 0 && names(ts, p).1 == p + names_tokens(
            ns,
        ).len() && stands(ts, p, names_tokens(ns)),
    decreases ts.len() - p,
{
    if let Ok(ns) = names(ts, p).0 {
        let n = ident(ts, p).0->Ok_0;
        if tok(ts, p + 1) is Comma {
            lemma_names_written(ts, p + 2);
            let rest = names(ts, p + 2).0->Ok_0;
            assert(ns == seq![n] + rest);
            assert(ns.skip(1) =~= rest);
            let head = seq![TokenView::Ident(n), TokenView::Comma];
            assert(stands(ts, p, head)) by {
                assert forall|i: int| 0 <= i < 2 implies ts[p + i] == #[trigger] head[i] by {}
            }
            lemma_stands(ts, p, head, names_tokens(rest));
        } else {
            assert(ns == seq![n]);
        }
    }
}

proof fn lemma_assignment(ts: Seq<TokenView>, p: int, a: AssignmentView)
    requires
        0 <= p,
    ensures
        assignment(ts, p).0 == Ok::<AssignmentView, Seq<char>>(a) <==> stands(
            ts,
            p,
            assignment_tokens(a),
        ),
        assignment(ts, p).0 is Ok ==> assignment(ts, p).1 == p + 3 && p + 3 <= ts.len(),
{
    let w = assignment_tokens(a);
    lemma_expect(ts, p + 1, TokenView::Eq);
    lemma_literal(ts, p + 2, a.value);
    if stands(ts, p, w) {
        assert(ts[p + 0] == w[0] && ts[p + 1] == w[1] && ts[p + 2] == w[2]);
        assert(stands(ts, p + 1, seq![TokenView::Eq]));
    }
    if assignment(ts, p).0 is Ok {
        assert(ts[p + 1 + 0] == seq![TokenView::Eq][0]);
        if assignment(ts, p).0 == Ok::<AssignmentView, Seq<char>>(a) {
            assert forall|i: int| 0 <= i < 3 implies ts[p + i] == #[trigger] w[i] by {}
        }
    }
}

proof fn lemma_assignments_read(ts: Seq<TokenView>, p: int, set: Seq<AssignmentView>)
    requires
        set.len() > 0,
        stands(ts, p, assignments_tokens(set)),
        !(tok(ts, p + assignments_tokens(set).len()) is Comma),
    ensures
        assignments(ts, p) == (
            Ok::<Seq<AssignmentView>, Seq<char>>(set),
            p + assignments_tokens(set).len(),
        ),
    decreases set.len(),
{
    let w = assignment_tokens(set[0]);
    lemma_assignment(ts, p, set[0]);
    if set.len() == 1 {
        assert(set =~= seq![set[0]]);
    } else {
        let rest = assignments_tokens(set.skip(1));
        lemma_stands(ts, p, w, seq![TokenView::Comma] + rest);
        lemma_stands(ts, p + 3, seq![TokenView::Comma], rest);
        assert(ts[p + 3 + 0] == seq![TokenView::Comma][0]);
        lemma_assignments_read(ts, p + 4, set.skip(1));
        assert(set =~= seq![set[0]] + set.skip(1));
    }
}

proof fn lemma_assignments_written(ts: Seq<TokenView>, p: int)
    requires
        0 <= p,
    ensures
        assignments(ts, p).0 matches Ok(set) ==> set.len() > 0 && assignments(ts, p).1 == p
            + assignments_tokens(set).len() && stands(ts, p, assignments_tokens(set)),
    decreases ts.len() - p,
{
    if let Ok(set) = assignments(ts, p).0 {
        let a = assignment(ts, p).0->Ok_0;
        let w = assignment_tokens(a);
        lemma_assignment(ts, p, a);
        if tok(ts, p + 3) is Comma {
            lemma_assignments_written(ts, p + 4);
            let rest = assignments(ts, p + 4).0->Ok_0;
            assert(set == seq![a] + rest);
            assert(set.skip(1) =~= rest);
            assert(stands(ts, p + 3, seq![TokenView::Comma]));
            lemma_stands(ts, p + 3, seq![TokenView::Comma], assignments_tokens(rest));
            lemma_stands(ts, p, w, seq![TokenView::Comma] + assignments_tokens(rest));
        } else {
            assert(set == seq![a]);
        }
    }
}

/// A comparison reads as the operator that is written.
proof fn lemma_expr(ts: Seq<TokenView>, p: int, e: ExprView)
    requires
        0 <= p,
    ensures
        expr(ts, p).0 == Ok::<ExprView, Seq<char>>(e) <==> expr_writable(e) && stands(
            ts,
            p,
            expr_tokens(e),
        ),
        expr(ts, p).0 == Ok::<ExprView, Seq<char>>(e) ==> expr(ts, p).1 == p + expr_tokens(e).len(),
{
    let w = expr_tokens(e);
    lemma_literal(ts, p + 2, e.right);
    lemma_expect(ts, p + 2, TokenView::Null);
    lemma_expect(ts, p + 3, TokenView::Null);
    if stands(ts, p, w) {
        assert(ts[p + 0] == w[0] && ts[p + 1] == w[1] && ts[p + 2] == w[2]);
        if e.op is IsNotNull {
            assert(ts[p + 3] == w[3]);
            assert(stands(ts, p + 3, seq![TokenView::Null]));
        }
        if e.op is IsNull {
            assert(stands(ts, p + 2, seq![TokenView::Null]));
        }
    }
    if expr(ts, p).0 == Ok::<ExprView, Seq<char>>(e) {
        if e.op is IsNotNull {
            assert(ts[p + 3 + 0] == seq![TokenView::Null][0]);
        }
        if e.op is IsNull {
            assert(ts[p + 2 + 0] == seq![TokenView::Null][0]);
        }
        assert forall|i: int| 0 <= i < w.len() implies ts[p + i] == #[trigger] w[i] by {}
    }
}

proof fn lemma_filter_read(ts: Seq<TokenView>, p: int, f: Option<ExprView>)
    requires
        0 <= p,
        filter_writable(f),
        stands(ts, p, filter_tokens(f)),
        f is None ==> !(tok(ts, p) is Where),
    ensures
        filter(ts, p) == (Ok::<Option<ExprView>, Seq<char>>(f), p + filter_tokens(f).len()),
{
    if let Some(e) = f {
        lemma_stands(ts, p, seq![TokenView::Where], expr_tokens(e));
        assert(ts[p + 0] == seq![TokenView::Where][0]);
        lemma_expr(ts, p + 1, e);
    }
}

proof fn lemma_filter_written(ts: Seq<TokenView>, p: int)
    requires
        0 <= p <= ts.len(),
    ensures
        filter(ts, p).0 matches Ok(f) ==> filter_writable(f) && filter(ts, p).1 == p
            + filter_tokens(f).len() && stands(ts, p, filter_tokens(f)) && (f is None ==> !(tok(
            ts,
            p,
        ) is Where)),
{
    if let Ok(f) = filter(ts, p).0 {
        if let Some(e) = f {
            lemma_expr(ts, p + 1, e);
            assert(stands(ts, p, seq![TokenView::Where]));
            lemma_stands(ts, p, seq![TokenView::Where], expr_tokens(e));
        }
    }
}

proof fn lemma_order_read(
    ts: Seq<TokenView>,
    p: int,
    o: Option<(Seq<char>, OrderDir)>,
    bare: bool,
)
    requires
        0 <= p,
        bare ==> (o matches Some((_, dir)) && dir is Asc),
        stands(ts, p, order_tokens(o, bare)),
        o is None ==> !(tok(ts, p) is Order),
        bare ==> !(tok(ts, p + 3) is Asc) && !(tok(ts, p + 3) is Desc),
    ensures
        order(ts, p) == (
            Ok::<Option<(Seq<char>, OrderDir)>, Seq<char>>(o),
            p + order_tokens(o, bare).len(),
        ),
{
    let w = order_tokens(o, bare);
    if o is Some {
        assert(ts[p + 0] == w[0] && ts[p + 1] == w[1] && ts[p + 2] == w[2]);
        if !bare {
            assert(ts[p + 3] == w[3]);
        }
    }
}

proof fn lemma_order_written(ts: Seq<TokenView>, p: int) -> (bare: bool)
    requires
        0 <= p <= ts.len(),
    ensures
        order(ts, p).0 matches Ok(o) ==> order(ts, p).1 == p + order_tokens(o, bare).len()
            && stands(ts, p, order_tokens(o, bare)) && (bare ==> (o matches Some((_, dir))
            && dir is Asc)) && (o is None ==> !(tok(ts, p) is Order)),
{
    lemma_expect(ts, p + 1, TokenView::By);
    if let Ok(o) = order(ts, p).0 {
        if o is Some {
            assert(ts[p + 1 + 0] == seq![TokenView::By][0]);
            let bare = !(tok(ts, p + 3) is Asc) && !(tok(ts, p + 3) is Desc);
            let w = order_tokens(o, bare);
            assert forall|i: int| 0 <= i < w.len() implies ts[p + i] == #[trigger] w[i] by {}
            bare
        } else {
            false
        }
    } else {
        false
    }
}

proof fn lemma_limit_read(ts: Seq<TokenView>, p: int, l: Option<u64>)
    requires
        0 <= p,
        l matches Some(n) ==> n <= i64::MAX,
        stands(ts, p, limit_tokens(l)),
        l is None ==> !(tok(ts, p) is Limit),
    ensures
        limit(ts, p) == (Ok::<Option<u64>, Seq<char>>(l), p + limit_tokens(l).len()),
{
    let w = limit_tokens(l);
    if l is Some {
        assert(ts[p + 0] == w[0] && ts[p + 1] == w[1]);
    }
}

proof fn lemma_limit_written(ts: Seq<TokenView>, p: int)
    requires
        0 <= p <= ts.len(),
    ensures
        limit(ts, p).0 matches Ok(l) ==> (l matches Some(n) ==> n <= i64::MAX) && limit(ts, p).1 == p
            + limit_tokens(l).len() && stands(ts, p, limit_tokens(l)),
{
    if let Ok(l) = limit(ts, p).0 {
        let w = limit_tokens(l);
        if l is Some {
            assert forall|i: int| 0 <= i < w.len() implies ts[p + i] == #[trigger] w[i] by {}
        }
    }
}

proof fn lemma_select_columns_read(ts: Seq<TokenView>, p: int, c: SelectView)
    requires
        0 <= p,
        c matches SelectView::Named(ns) ==> ns.len() > 0,
        stands(ts, p, select_tokens(c)),
        tok(ts, p + select_tokens(c).len()) is From,
    ensures
        select_columns(ts, p) == (Ok::<SelectView, Seq<char>>(c), p + select_tokens(c).len()),
{
    let w = select_tokens(c);
    assert(w.len() > 0);
    assert(ts[p + 0] == w[0]);
    if let SelectView::Named(ns) = c {
        lemma_names_read(ts, p, ns);
    }
}

proof fn lemma_select_columns_written(ts: Seq<TokenView>, p: int)
    requires
        0 <= p,
    ensures
        select_columns(ts, p).0 matches Ok(c) ==> (c matches SelectView::Named(ns) ==> ns.len() > 0)
            && select_columns(ts, p).1 == p + select_tokens(c).len() && stands(
            ts,
            p,
            select_tokens(c),
        ),
{
    lemma_names_written(ts, p);
}

// Statements.

proof fn lemma_create_read(ts: Seq<TokenView>, p: int, table: Seq<char>, cs: Seq<ColumnView>)
    requires
        cs.len() > 0,
        stands(ts, p, statement_tokens(StatementView::CreateTable { table, columns: cs }, false)),
    ensures
        statement(ts, p) == (
            Ok::<StatementView, Seq<char>>(StatementView::CreateTable { table, columns: cs }),
            p + statement_tokens(StatementView::CreateTable { table, columns: cs }, false).len(),
        ),
{
    let head = seq![
        TokenView::Create,
        TokenView::Table,
        TokenView::Ident(table),
        TokenView::LParen,
    ];
    lemma_stands(ts, p, head, columns_tokens(cs));
    assert(ts[p + 0] == head[0] && ts[p + 1] == head[1] && ts[p + 2] == head[2] && ts[p + 3]
        == head[3]);
    lemma_columns_read(ts, p + 4, cs);
}

proof fn lemma_insert_read(ts: Seq<TokenView>, p: int, table: Seq<char>, vs: Seq<ValueView>)
    requires
        vs.len() > 0,
        stands(ts, p, statement_tokens(StatementView::Insert { table, values: vs }, false)),
    ensures
        statement(ts, p) == (
            Ok::<StatementView, Seq<char>>(StatementView::Insert { table, values: vs }),
            p + statement_tokens(StatementView::Insert { table, values: vs }, false).len(),
        ),
{
    let head = seq![
        TokenView::Insert,
        TokenView::Into,
        TokenView::Ident(table),
        TokenView::Values,
        TokenView::LParen,
    ];
    lemma_stands(ts, p, head, values_tokens(vs));
    assert(ts[p + 0] == head[0] && ts[p + 1] == head[1] && ts[p + 2] == head[2] && ts[p + 3]
        == head[3] && ts[p + 4] == head[4]);
    lemma_values_read(ts, p + 5, vs);
}

proof fn lemma_delete_read(ts: Seq<TokenView>, p: int, table: Seq<char>, f: Option<ExprView>)
    requires
        filter_writable(f),
        stands(ts, p, statement_tokens(StatementView::Delete { table, filter: f }, false)),
        ends_at(
            ts,
            p + statement_tokens(StatementView::Delete { table, filter: f }, false).len(),
        ),
    ensures
        statement(ts, p) == (
            Ok::<StatementView, Seq<char>>(StatementView::Delete { table, filter: f }),
            p + statement_tokens(StatementView::Delete { table, filter: f }, false).len(),
        ),
{
    let head = seq![TokenView::Delete, TokenView::From, TokenView::Ident(table)];
    lemma_stands(ts, p, head, filter_tokens(f));
    assert(ts[p + 0] == head[0] && ts[p + 1] == head[1] && ts[p + 2] == head[2]);
    lemma_filter_read(ts, p + 3, f);
}

proof fn lemma_update_read(
    ts: Seq<TokenView>,
    p: int,
    table: Seq<char>,
    set: Seq<AssignmentView>,
    f: Option<ExprView>,
)
    requires
        set.len() > 0,
        filter_writable(f),
        stands(
            ts,
            p,
            statement_tokens(StatementView::Update { table, assignments: set, filter: f }, false),
        ),
        ends_at(
            ts,
            p + statement_tokens(
                StatementView::Update { table, assignments: set, filter: f },
                false,
            ).len(),
        ),
    ensures
        statement(ts, p) == (
            Ok::<StatementView, Seq<char>>(
                StatementView::Update { table, assignments: set, filter: f },
            ),
            p + statement_tokens(
                StatementView::Update { table, assignments: set, filter: f },
                false,
            ).len(),
        ),
{
    let head = seq![TokenView::Update, TokenView::Ident(table), TokenView::SetKeyword];
    let body = assignments_tokens(set);
    lemma_stands(ts, p, head, body + filter_tokens(f));
    assert(ts[p + 0] == head[0] && ts[p + 1] == head[1] && ts[p + 2] == head[2]);
    lemma_stands(ts, p + 3, body, filter_tokens(f));
    let q = p + 3 + body.len();
    assert(!(tok(ts, q) is Comma)) by {
        if let Some(e) = f {
            assert(ts[q + 0] == filter_tokens(f)[0]);
        }
    }
    lemma_assignments_read(ts, p + 3, set);
    lemma_filter_read(ts, q, f);
}

proof fn lemma_select_read(ts: Seq<TokenView>, p: int, stmt: StatementView, bare: bool)
    requires
        stmt is Select,
        writable(stmt, bare),
        stands(ts, p, statement_tokens(stmt, bare)),
        ends_at(ts, p + statement_tokens(stmt, bare).len()),
    ensures
        statement(ts, p) == (
            Ok::<StatementView, Seq<char>>(stmt),
            p + statement_tokens(stmt, bare).len(),
        ),
{
    if let StatementView::Select { table, columns: c, filter: f, order_by: o, limit: l } = stmt {
        let w0 = seq![TokenView::Select];
        let w1 = select_tokens(c);
        let w2 = seq![TokenView::From, TokenView::Ident(table)];
        let w3 = filter_tokens(f);
        let w4 = order_tokens(o, bare);
        let w5 = limit_tokens(l);
        lemma_stands(ts, p, w0, w1 + (w2 + (w3 + (w4 + w5))));
        let p1 = p + 1;
        lemma_stands(ts, p1, w1, w2 + (w3 + (w4 + w5)));
        let p2 = p1 + w1.len();
        lemma_stands(ts, p2, w2, w3 + (w4 + w5));
        let p3 = p2 + 2;
        lemma_stands(ts, p3, w3, w4 + w5);
        let p4 = p3 + w3.len();
        lemma_stands(ts, p4, w4, w5);
        let p5 = p4 + w4.len();
        assert(ts[p + 0] == w0[0]);
        assert(ts[p2 + 0] == w2[0] && ts[p2 + 1] == w2[1]);
        if l is Some {
            assert(ts[p5 + 0] == w5[0]);
        }
        if o is Some {
            assert(ts[p4 + 0] == w4[0]);
        }
        lemma_select_columns_read(ts, p1, c);
        lemma_filter_read(ts, p3, f);
        lemma_order_read(ts, p4, o, bare);
        lemma_limit_read(ts, p5, l);
    }
}

/// Parsing inverts writing: a statement that is written down, with ASC or, where it may, without, is
/// read as that statement, up to its end.
pub proof fn law_written_statement_is_read(
    ts: Seq<TokenView>,
    p: int,
    stmt: StatementView,
    bare: bool,
)
    requires
        writable(stmt, bare),
        stands(ts, p, statement_tokens(stmt, bare)),
        ends_at(ts, p + statement_tokens(stmt, bare).len()),
    ensures
        statement(ts, p) == (
            Ok::<StatementView, Seq<char>>(stmt),
            p + statement_tokens(stmt, bare).len(),
        ),
{
    match stmt {
        StatementView::CreateTable { table, columns } => lemma_create_read(ts, p, table, columns),
        StatementView::Insert { table, values } => lemma_insert_read(ts, p, table, values),
        StatementView::Select { .. } => lemma_select_read(ts, p, stmt, bare),
        StatementView::Delete { table, filter } => lemma_delete_read(ts, p, table, filter),
        StatementView::Update { table, assignments, filter } => lemma_update_read(
            ts,
            p,
            table,
            assignments,
            filter,
        ),
    }
}

proof fn lemma_create_written(ts: Seq<TokenView>, p: int)
    requires
        0 <= p,
    ensures
        create_statement(ts, p).0 matches Ok(stmt) ==> writable(stmt, false) && stands(
            ts,
            p,
            statement_tokens(stmt, false),
        ) && create_statement(ts, p).1 == p + statement_tokens(stmt, false).len(),
{
    if let Ok(stmt) = create_statement(ts, p).0 {
        if let StatementView::CreateTable { table, columns: cs } = stmt {
            let head = seq![
                TokenView::Create,
                TokenView::Table,
                TokenView::Ident(table),
                TokenView::LParen,
            ];
            lemma_expect(ts, p, TokenView::Create);
            lemma_expect(ts, p + 1, TokenView::Table);
            lemma_expect(ts, p + 3, TokenView::LParen);
            assert(ts[p + 0] == seq![TokenView::Create][0]);
            assert(ts[p + 1 + 0] == seq![TokenView::Table][0]);
            assert(ts[p + 3 + 0] == seq![TokenView::LParen][0]);
            assert forall|i: int| 0 <= i < 4 implies ts[p + i] == #[trigger] head[i] by {}
            lemma_columns_written(ts, p + 4);
            lemma_stands(ts, p, head, columns_tokens(cs));
        }
    }
}

proof fn lemma_insert_written(ts: Seq<TokenView>, p: int)
    requires
        0 <= p,
    ensures
        insert_statement(ts, p).0 matches Ok(stmt) ==> writable(stmt, false) && stands(
            ts,
            p,
            statement_tokens(stmt, false),
        ) && insert_statement(ts, p).1 == p + statement_tokens(stmt, false).len(),
{
    if let Ok(stmt) = insert_statement(ts, p).0 {
        if let StatementView::Insert { table, values: vs } = stmt {
            let head = seq![
                TokenView::Insert,
                TokenView::Into,
                TokenView::Ident(table),
                TokenView::Values,
                TokenView::LParen,
            ];
            lemma_expect(ts, p, TokenView::Insert);
            lemma_expect(ts, p + 1, TokenView::Into);
            lemma_expect(ts, p + 3, TokenView::Values);
            lemma_expect(ts, p + 4, TokenView::LParen);
            assert(ts[p + 0] == seq![TokenView::Insert][0]);
            assert(ts[p + 1 + 0] == seq![TokenView::Into][0]);
            assert(ts[p + 3 + 0] == seq![TokenView::Values][0]);
            assert(ts[p + 4 + 0] == seq![TokenView::LParen][0]);
            assert forall|i: int| 0 <= i < 5 implies ts[p + i] == #[trigger] head[i] by {}
            lemma_values_written(ts, p + 5);
            lemma_stands(ts, p, head, values_tokens(vs));
        }
    }
}

proof fn lemma_delete_written(ts: Seq<TokenView>, p: int)
    requires
        0 <= p,
    ensures
        delete_statement(ts, p).0 matches Ok(stmt) ==> writable(stmt, false) && stands(
            ts,
            p,
            statement_tokens(stmt, false),
        ) && delete_statement(ts, p).1 == p + statement_tokens(stmt, false).len(),
{
    if let Ok(stmt) = delete_statement(ts, p).0 {
        if let StatementView::Delete { table, filter: f } = stmt {
            let head = seq![TokenView::Delete, TokenView::From, TokenView::Ident(table)];
            lemma_expect(ts, p, TokenView::Delete);
            lemma_expect(ts, p + 1, TokenView::From);
            assert(ts[p + 0] == seq![TokenView::Delete][0]);
            assert(ts[p + 1 + 0] == seq![TokenView::From][0]);
            assert forall|i: int| 0 <= i < 3 implies ts[p + i] == #[trigger] head[i] by {}
            lemma_filter_written(ts, p + 3);
            lemma_stands(ts, p, head, filter_tokens(f));
        }
    }
}

proof fn lemma_update_written(ts: Seq<TokenView>, p: int)
    requires
        0 <= p,
    ensures
        update_statement(ts, p).0 matches Ok(stmt) ==> writable(stmt, false) && stands(
            ts,
            p,
            statement_tokens(stmt, false),
        ) && update_statement(ts, p).1 == p + statement_tokens(stmt, false).len(),
{
    if let Ok(stmt) = update_statement(ts, p).0 {
        if let StatementView::Update { table, assignments: set, filter: f } = stmt {
            let head = seq![TokenView::Update, TokenView::Ident(table), TokenView::SetKeyword];
            lemma_expect(ts, p, TokenView::Update);
            lemma_expect(ts, p + 2, TokenView::SetKeyword);
            assert(ts[p + 0] == seq![TokenView::Update][0]);
            assert(ts[p + 2 + 0] == seq![TokenView::SetKeyword][0]);
            assert forall|i: int| 0 <= i < 3 implies ts[p + i] == #[trigger] head[i] by {}
            lemma_assignments_written(ts, p + 3);
            let body = assignments_tokens(set);
            let q = p + 3 + body.len();
            lemma_filter_written(ts, q);
            lemma_stands(ts, p + 3, body, filter_tokens(f));
            lemma_stands(ts, p, head, body + filter_tokens(f));
        }
    }
}

proof fn lemma_select_written(ts: Seq<TokenView>, p: int) -> (bare: bool)
    requires
        0 <= p,
    ensures
        select_statement(ts, p).0 matches Ok(stmt) ==> writable(stmt, bare) && stands(
            ts,
            p,
            statement_tokens(stmt, bare),
        ) && select_statement(ts, p).1 == p + statement_tokens(stmt, bare).len(),
{
    lemma_expect(ts, p, TokenView::Select);
    if let Ok(stmt) = select_statement(ts, p).0 {
        if let StatementView::Select { table, columns: c, filter: f, order_by: o, limit: l } = stmt {
            let w0 = seq![TokenView::Select];
            let p1 = p + 1;
            lemma_select_columns_written(ts, p1);
            let w1 = select_tokens(c);
            let p2 = p1 + w1.len();
            let w2 = seq![TokenView::From, TokenView::Ident(table)];
            lemma_expect(ts, p2, TokenView::From);
            assert(ts[p2 + 0] == seq![TokenView::From][0]);
            assert forall|i: int| 0 <= i < 2 implies ts[p2 + i] == #[trigger] w2[i] by {}
            let p3 = p2 + 2;
            lemma_filter_written(ts, p3);
            let w3 = filter_tokens(f);
            let p4 = p3 + w3.len();
            let bare = lemma_order_written(ts, p4);
            let w4 = order_tokens(o, bare);
            let p5 = p4 + w4.len();
            lemma_limit_written(ts, p5);
            let w5 = limit_tokens(l);
            lemma_stands(ts, p4, w4, w5);
            lemma_stands(ts, p3, w3, w4 + w5);
            lemma_stands(ts, p2, w2, w3 + (w4 + w5));
            lemma_stands(ts, p1, w1, w2 + (w3 + (w4 + w5)));
            lemma_stands(ts, p, w0, w1 + (w2 + (w3 + (w4 + w5))));
            bare
        } else {
            false
        }
    } else {
        false
    }
}

/// Whatever the parser reads as a statement is that statement, written down: nothing is added, left
/// out or taken for something else.
pub proof fn law_read_statement_is_written(ts: Seq<TokenView>, p: int) -> (bare: bool)
    requires
        0 <= p,
    ensures
        statement(ts, p).0 matches Ok(stmt) ==> writable(stmt, bare) && stands(
            ts,
            p,
            statement_tokens(stmt, bare),
        ) && statement(ts, p).1 == p + statement_tokens(stmt, bare).len(),
{
    lemma_create_written(ts, p);
    lemma_insert_written(ts, p);
    lemma_delete_written(ts, p);
    lemma_update_written(ts, p);
    let bare = lemma_select_written(ts, p);
    tok(ts, p) is Select && bare
}

/// The same tokens are never written for two statements.
pub proof fn law_statements_are_told_apart(
    a: StatementView,
    b: StatementView,
    bare: bool,
    also_bare: bool,
)
    requires
        writable(a, bare),
        writable(b, also_bare),
        statement_tokens(a, bare) == statement_tokens(b, also_bare),
    ensures
        a == b,
{
    let ts = statement_tokens(a, bare);
    law_written_statement_is_read(ts, 0, a, bare);
    law_written_statement_is_read(ts, 0, b, also_bare);
}

/// From text to statement: where the tokens of a statement are spelled out, with any blanks between
/// them and the keywords in any case, the lexer and the parser read that statement.
pub proof fn law_spelled_statement_is_read(s: Seq<char>, stmt: StatementView, bare: bool)
    requires
        writable(stmt, bare),
        spelled_out(statement_tokens(stmt, bare), s, 0),
    ensures
        tokens_from(s, 0).0 matches Ok(ts) && statement(ts, 0).0 == Ok::<StatementView, Seq<char>>(
            stmt,
        ),
{
    let w = statement_tokens(stmt, bare);
    law_spelled_text_is_read(w, s, 0);
    let ts = w.push(TokenView::Eof);
    assert(stands(ts, 0, w)) by {
        assert forall|i: int| 0 <= i < w.len() implies ts[0 + i] == #[trigger] w[i] by {}
    }
    assert(ts[w.len() as int] is Eof);
    law_written_statement_is_read(ts, 0, stmt, bare);
}

} // verus!
