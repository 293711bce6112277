//! The parser turns tokens into a statement.
use crate::sql::ast::{
    assignments_view, columns_view, filter_view, names_view, order_view, values_view, Assignment,
    AssignmentView, ColumnDef, ColumnView, DataType, Expr, ExprView, Op, OrderDir, SelectColumns,
    SelectView, Statement, StatementView, Value, ValueView,
};
use crate::sql::lexer::{tokens_view, Token, TokenView};
use crate::text::{debug_text, dec, dec_i64, dec_int, dec_u64, join2, join3, join4, text_debug};
use vstd::prelude::*;
use vstd::string::*;

verus! {

// Tokens in messages.

/// A token in messages.
pub open spec fn token_debug(t: TokenView) -> Seq<char> {
    match t {
        TokenView::Create => "Create"@,
        TokenView::Table => "Table"@,
        TokenView::Insert => "Insert"@,
        TokenView::Into => "Into"@,
        TokenView::Values => "Values"@,
        TokenView::Select => "Select"@,
        TokenView::From => "From"@,
        TokenView::Where => "Where"@,
        TokenView::Delete => "Delete"@,
        TokenView::Update => "Update"@,
        TokenView::SetKeyword => "Set"@,
        TokenView::Null => "Null"@,
        TokenView::Order => "Order"@,
        TokenView::By => "By"@,
        TokenView::Asc => "Asc"@,
        TokenView::Desc => "Desc"@,
        TokenView::Limit => "Limit"@,
        TokenView::Is => "Is"@,
        TokenView::Not => "Not"@,
        TokenView::Primary => "Primary"@,
        TokenView::Key => "Key"@,
        TokenView::Int => "Int"@,
        TokenView::Text => "Text"@,
        TokenView::Float => "Float"@,
        TokenView::LParen => "LParen"@,
        TokenView::RParen => "RParen"@,
        TokenView::Comma => "Comma"@,
        TokenView::Semicolon => "Semicolon"@,
        TokenView::Star => "Star"@,
        TokenView::Eq => "Eq"@,
        TokenView::Ne => "Ne"@,
        TokenView::Lt => "Lt"@,
        TokenView::Gt => "Gt"@,
        TokenView::Le => "Le"@,
        TokenView::Ge => "Ge"@,
        TokenView::Eof => "Eof"@,
        TokenView::Ident(s) => "Ident("@ + text_debug(s) + ")"@,
        TokenView::IntLit(n) => "IntLit("@ + dec_int(n as int) + ")"@,
        TokenView::FloatText(s) => "FloatText("@ + text_debug(s) + ")"@,
        TokenView::FloatLit(bits) => "FloatLit(Real { bits: "@ + dec(bits as nat) + " })"@,
        TokenView::TextLit(s) => "TextLit("@ + text_debug(s) + ")"@,
    }
}

fn token_text(t: &Token) -> (s: String)
    ensures
        s@ == token_debug(t@),
{
    match t {
        Token::Create => "Create".to_owned(),
        Token::Table => "Table".to_owned(),
        Token::Insert => "Insert".to_owned(),
        Token::Into => "Into".to_owned(),
        Token::Values => "Values".to_owned(),
        Token::Select => "Select".to_owned(),
        Token::From => "From".to_owned(),
        Token::Where => "Where".to_owned(),
        Token::Delete => "Delete".to_owned(),
        Token::Update => "Update".to_owned(),
        Token::SetKeyword => "Set".to_owned(),
        Token::Null => "Null".to_owned(),
        Token::Order => "Order".to_owned(),
        Token::By => "By".to_owned(),
        Token::Asc => "Asc".to_owned(),
        Token::Desc => "Desc".to_owned(),
        Token::Limit => "Limit".to_owned(),
        Token::Is => "Is".to_owned(),
        Token::Not => "Not".to_owned(),
        Token::Primary => "Primary".to_owned(),
        Token::Key => "Key".to_owned(),
        Token::Int => "Int".to_owned(),
        Token::Text => "Text".to_owned(),
        Token::Float => "Float".to_owned(),
        Token::LParen => "LParen".to_owned(),
        Token::RParen => "RParen".to_owned(),
        Token::Comma => "Comma".to_owned(),
        Token::Semicolon => "Semicolon".to_owned(),
        Token::Star => "Star".to_owned(),
        Token::Eq => "Eq".to_owned(),
        Token::Ne => "Ne".to_owned(),
        Token::Lt => "Lt".to_owned(),
        Token::Gt => "Gt".to_owned(),
        Token::Le => "Le".to_owned(),
        Token::Ge => "Ge".to_owned(),
        Token::Eof => "Eof".to_owned(),
        Token::Ident(s) => {
            let d = debug_text(s.as_str());
            join3("Ident(", d.as_str(), ")")
        },
        Token::IntLit(n) => {
            let d = dec_i64(*n);
            join3("IntLit(", d.as_str(), ")")
        },
        Token::FloatText(s) => {
            let d = debug_text(s.as_str());
            join3("FloatText(", d.as_str(), ")")
        },
        Token::FloatLit(r) => {
            let d = dec_u64(r.bits);
            join3("FloatLit(Real { bits: ", d.as_str(), " })")
        },
        Token::TextLit(s) => {
            let d = debug_text(s.as_str());
            join3("TextLit(", d.as_str(), ")")
        },
    }
}

/// The kind of a token, whatever it carries.
pub open spec fn kind(t: TokenView) -> u8 {
    match t {
        TokenView::Create => 0,
        TokenView::Table => 1,
        TokenView::Insert => 2,
        TokenView::Into => 3,
        TokenView::Values => 4,
        TokenView::Select => 5,
        TokenView::From => 6,
        TokenView::Where => 7,
        TokenView::Delete => 8,
        TokenView::Update => 9,
        TokenView::SetKeyword => 10,
        TokenView::Null => 11,
        TokenView::Order => 12,
        TokenView::By => 13,
        TokenView::Asc => 14,
        TokenView::Desc => 15,
        TokenView::Limit => 16,
        TokenView::Is => 17,
        TokenView::Not => 18,
        TokenView::Primary => 19,
        TokenView::Key => 20,
        TokenView::Int => 21,
        TokenView::Text => 22,
        TokenView::Float => 23,
        TokenView::LParen => 24,
        TokenView::RParen => 25,
        TokenView::Comma => 26,
        TokenView::Semicolon => 27,
        TokenView::Star => 28,
        TokenView::Eq => 29,
        TokenView::Ne => 30,
        TokenView::Lt => 31,
        TokenView::Gt => 32,
        TokenView::Le => 33,
        TokenView::Ge => 34,
        TokenView::Eof => 35,
        TokenView::Ident(_) => 36,
        TokenView::IntLit(_) => 37,
        TokenView::FloatText(_) => 38,
        TokenView::FloatLit(_) => 39,
        TokenView::TextLit(_) => 40,
    }
}

fn kind_of(t: &Token) -> (k: u8)
    ensures
        k == kind(t@),
{
    match t {
        Token::Create => 0,
        Token::Table => 1,
        Token::Insert => 2,
        Token::Into => 3,
        Token::Values => 4,
        Token::Select => 5,
        Token::From => 6,
        Token::Where => 7,
        Token::Delete => 8,
        Token::Update => 9,
        Token::SetKeyword => 10,
        Token::Null => 11,
        Token::Order => 12,
        Token::By => 13,
        Token::Asc => 14,
        Token::Desc => 15,
        Token::Limit => 16,
        Token::Is => 17,
        Token::Not => 18,
        Token::Primary => 19,
        Token::Key => 20,
        Token::Int => 21,
        Token::Text => 22,
        Token::Float => 23,
        Token::LParen => 24,
        Token::RParen => 25,
        Token::Comma => 26,
        Token::Semicolon => 27,
        Token::Star => 28,
        Token::Eq => 29,
        Token::Ne => 30,
        Token::Lt => 31,
        Token::Gt => 32,
        Token::Le => 33,
        Token::Ge => 34,
        Token::Eof => 35,
        Token::Ident(_) => 36,
        Token::IntLit(_) => 37,
        Token::FloatText(_) => 38,
        Token::FloatLit(_) => 39,
        Token::TextLit(_) => 40,
    }
}

// The grammar.

/// What reading a part of a statement gives: the part or a message, and the position after it.
pub type Parsed<T> = (Result<T, Seq<char>>, int);

/// The token at `p`; after the last there is only `Eof`.
pub open spec fn tok(ts: Seq<TokenView>, p: int) -> TokenView {
    if 0 <= p < ts.len() {
        ts[p]
    } else {
        TokenView::Eof
    }
}

/// The position after the token at `p`.
pub open spec fn step(ts: Seq<TokenView>, p: int) -> int {
    if p < ts.len() {
        p + 1
    } else {
        p
    }
}

pub open spec fn expect(ts: Seq<TokenView>, p: int, expected: TokenView) -> Parsed<()> {
    (
        if kind(tok(ts, p)) == kind(expected) {
            Ok(())
        } else {
            Err("expected "@ + token_debug(expected) + ", got "@ + token_debug(tok(ts, p)))
        },
        step(ts, p),
    )
}

pub open spec fn ident(ts: Seq<TokenView>, p: int) -> Parsed<Seq<char>> {
    (
        match tok(ts, p) {
            TokenView::Ident(s) => Ok(s),
            t => Err("expected identifier, got "@ + token_debug(t)),
        },
        step(ts, p),
    )
}

pub open spec fn literal(ts: Seq<TokenView>, p: int) -> Parsed<ValueView> {
    (
        match tok(ts, p) {
            TokenView::IntLit(n) => Ok(ValueView::Int(n)),
            TokenView::FloatLit(bits) => Ok(ValueView::Float(bits)),
            TokenView::TextLit(s) => Ok(ValueView::Text(s)),
            TokenView::Null => Ok(ValueView::Null),
            t => Err("expected value, got "@ + token_debug(t)),
        },
        step(ts, p),
    )
}

/// `col type [PRIMARY KEY]`
pub open spec fn column(ts: Seq<TokenView>, p: int) -> Parsed<ColumnView> {
    match ident(ts, p) {
        (Err(e), q) => (Err(e), q),
        (Ok(name), q) => {
            let ty = match tok(ts, q) {
                TokenView::Int => Ok(DataType::Int),
                TokenView::Text => Ok(DataType::Text),
                TokenView::Float => Ok(DataType::Float),
                t => Err("expected type, got "@ + token_debug(t)),
            };
            let r = step(ts, q);
            match ty {
                Err(e) => (Err(e), r),
                Ok(ty) => if tok(ts, r) is Primary {
                    match expect(ts, step(ts, r), TokenView::Key) {
                        (Err(e), s) => (Err(e), s),
                        (Ok(_), s) => (Ok(ColumnView { name, ty, primary_key: true }), s),
                    }
                } else {
                    (Ok(ColumnView { name, ty, primary_key: false }), r)
                },
            }
        },
    }
}

/// What stands between two items of a list in brackets, or after the last: whether the list goes on.
pub open spec fn separator(ts: Seq<TokenView>, p: int) -> Parsed<bool> {
    match tok(ts, p) {
        TokenView::Comma => (Ok(true), step(ts, p)),
        TokenView::RParen => (Ok(false), step(ts, p)),
        t => (Err("expected ',' or ')', got "@ + token_debug(t)), p),
    }
}

/// Columns up to the closing bracket.
pub open spec fn columns(ts: Seq<TokenView>, p: int) -> Parsed<Seq<ColumnView>>
    decreases ts.len() - p,
{
    match column(ts, p) {
        (Err(e), q) => (Err(e), q),
        (Ok(c), q) => match separator(ts, q) {
            (Err(e), r) => (Err(e), r),
            (Ok(false), r) => (Ok(seq![c]), r),
            (Ok(true), r) => match columns(ts, r) {
                (Err(e), s) => (Err(e), s),
                (Ok(cs), s) => (Ok(seq![c] + cs), s),
            },
        },
    }
}

/// Values up to the closing bracket.
pub open spec fn values(ts: Seq<TokenView>, p: int) -> Parsed<Seq<ValueView>>
    decreases ts.len() - p,
{
    match literal(ts, p) {
        (Err(e), q) => (Err(e), q),
        (Ok(v), q) => match separator(ts, q) {
            (Err(e), r) => (Err(e), r),
            (Ok(false), r) => (Ok(seq![v]), r),
            (Ok(true), r) => match values(ts, r) {
                (Err(e), s) => (Err(e), s),
                (Ok(vs), s) => (Ok(seq![v] + vs), s),
            },
        },
    }
}

/// Column names between commas.
pub open spec fn names(ts: Seq<TokenView>, p: int) -> Parsed<Seq<Seq<char>>>
    decreases ts.len() - p,
{
    match ident(ts, p) {
        (Err(e), q) => (Err(e), q),
        (Ok(n), q) => if tok(ts, q) is Comma {
            match names(ts, step(ts, q)) {
                (Err(e), s) => (Err(e), s),
                (Ok(ns), s) => (Ok(seq![n] + ns), s),
            }
        } else {
            (Ok(seq![n]), q)
        },
    }
}

/// `col = value`
pub open spec fn assignment(ts: Seq<TokenView>, p: int) -> Parsed<AssignmentView> {
    match ident(ts, p) {
        (Err(e), q) => (Err(e), q),
        (Ok(column), q) => match expect(ts, q, TokenView::Eq) {
            (Err(e), r) => (Err(e), r),
            (Ok(_), r) => match literal(ts, r) {
                (Err(e), s) => (Err(e), s),
                (Ok(value), s) => (Ok(AssignmentView { column, value }), s),
            },
        },
    }
}

/// Assignments between commas.
pub open spec fn assignments(ts: Seq<TokenView>, p: int) -> Parsed<Seq<AssignmentView>>
    decreases ts.len() - p,
{
    match assignment(ts, p) {
        (Err(e), q) => (Err(e), q),
        (Ok(a), q) => if tok(ts, q) is Comma {
            match assignments(ts, step(ts, q)) {
                (Err(e), s) => (Err(e), s),
                (Ok(r), s) => (Ok(seq![a] + r), s),
            }
        } else {
            (Ok(seq![a]), q)
        },
    }
}

/// `col op value`, `col IS NULL` or `col IS NOT NULL`
pub open spec fn expr(ts: Seq<TokenView>, p: int) -> Parsed<ExprView> {
    match ident(ts, p) {
        (Err(e), q) => (Err(e), q),
        (Ok(left), q) => if tok(ts, q) is Is {
            let r = step(ts, q);
            if tok(ts, r) is Not {
                match expect(ts, step(ts, r), TokenView::Null) {
                    (Err(e), s) => (Err(e), s),
                    (Ok(_), s) => (
                        Ok(ExprView { left, op: Op::IsNotNull, right: ValueView::Null }),
                        s,
                    ),
                }
            } else {
                match expect(ts, r, TokenView::Null) {
                    (Err(e), s) => (Err(e), s),
                    (Ok(_), s) => (Ok(ExprView { left, op: Op::IsNull, right: ValueView::Null }), s),
                }
            }
        } else {
            let op = match tok(ts, q) {
                TokenView::Eq => Ok(Op::Eq),
                TokenView::Ne => Ok(Op::Ne),
                TokenView::Lt => Ok(Op::Lt),
                TokenView::Gt => Ok(Op::Gt),
                TokenView::Le => Ok(Op::Le),
                TokenView::Ge => Ok(Op::Ge),
                t => Err("expected operator, got "@ + token_debug(t)),
            };
            let r = step(ts, q);
            match op {
                Err(e) => (Err(e), r),
                Ok(op) => match literal(ts, r) {
                    (Err(e), s) => (Err(e), s),
                    (Ok(right), s) => (Ok(ExprView { left, op, right }), s),
                },
            }
        },
    }
}

/// `[WHERE expr]`
pub open spec fn filter(ts: Seq<TokenView>, p: int) -> Parsed<Option<ExprView>> {
    if tok(ts, p) is Where {
        match expr(ts, step(ts, p)) {
            (Err(e), q) => (Err(e), q),
            (Ok(x), q) => (Ok(Some(x)), q),
        }
    } else {
        (Ok(None), p)
    }
}

/// `[ORDER BY col [ASC|DESC]]`
pub open spec fn order(ts: Seq<TokenView>, p: int) -> Parsed<Option<(Seq<char>, OrderDir)>> {
    if tok(ts, p) is Order {
        match expect(ts, step(ts, p), TokenView::By) {
            (Err(e), q) => (Err(e), q),
            (Ok(_), q) => match ident(ts, q) {
                (Err(e), r) => (Err(e), r),
                (Ok(name), r) => match tok(ts, r) {
                    TokenView::Asc => (Ok(Some((name, OrderDir::Asc))), step(ts, r)),
                    TokenView::Desc => (Ok(Some((name, OrderDir::Desc))), step(ts, r)),
                    _ => (Ok(Some((name, OrderDir::Asc))), r),
                },
            },
        }
    } else {
        (Ok(None), p)
    }
}

/// `[LIMIT n]`
pub open spec fn limit(ts: Seq<TokenView>, p: int) -> Parsed<Option<u64>> {
    if tok(ts, p) is Limit {
        let q = step(ts, p);
        let err = Err("expected positive integer after LIMIT, got "@ + token_debug(tok(ts, q)));
        (
            match tok(ts, q) {
                TokenView::IntLit(n) => if n >= 0 {
                    Ok(Some(n as u64))
                } else {
                    err
                },
                _ => err,
            },
            step(ts, q),
        )
    } else {
        (Ok(None), p)
    }
}

/// `*` or column names
pub open spec fn select_columns(ts: Seq<TokenView>, p: int) -> Parsed<SelectView> {
    if tok(ts, p) is Star {
        (Ok(SelectView::Star), step(ts, p))
    } else {
        match names(ts, p) {
            (Err(e), q) => (Err(e), q),
            (Ok(ns), q) => (Ok(SelectView::Named(ns)), q),
        }
    }
}

/// `CREATE TABLE name (col type [PRIMARY KEY], ...)`
pub open spec fn create_statement(ts: Seq<TokenView>, p: int) -> Parsed<StatementView> {
    match expect(ts, p, TokenView::Create) {
        (Err(e), q) => (Err(e), q),
        (Ok(_), q) => match expect(ts, q, TokenView::Table) {
            (Err(e), r) => (Err(e), r),
            (Ok(_), r) => match ident(ts, r) {
                (Err(e), s) => (Err(e), s),
                (Ok(table), s) => match expect(ts, s, TokenView::LParen) {
                    (Err(e), t) => (Err(e), t),
                    (Ok(_), t) => match columns(ts, t) {
                        (Err(e), u) => (Err(e), u),
                        (Ok(columns), u) => (Ok(StatementView::CreateTable { table, columns }), u),
                    },
                },
            },
        },
    }
}

/// `INSERT INTO name VALUES (v1, v2, ...)`
pub open spec fn insert_statement(ts: Seq<TokenView>, p: int) -> Parsed<StatementView> {
    match expect(ts, p, TokenView::Insert) {
        (Err(e), q) => (Err(e), q),
        (Ok(_), q) => match expect(ts, q, TokenView::Into) {
            (Err(e), r) => (Err(e), r),
            (Ok(_), r) => match ident(ts, r) {
                (Err(e), s) => (Err(e), s),
                (Ok(table), s) => match expect(ts, s, TokenView::Values) {
                    (Err(e), t) => (Err(e), t),
                    (Ok(_), t) => match expect(ts, t, TokenView::LParen) {
                        (Err(e), u) => (Err(e), u),
                        (Ok(_), u) => match values(ts, u) {
                            (Err(e), v) => (Err(e), v),
                            (Ok(values), v) => (Ok(StatementView::Insert { table, values }), v),
                        },
                    },
                },
            },
        },
    }
}

/// `SELECT cols FROM name [WHERE expr] [ORDER BY col ASC|DESC] [LIMIT n]`
pub open spec fn select_statement(ts: Seq<TokenView>, p: int) -> Parsed<StatementView> {
    match expect(ts, p, TokenView::Select) {
        (Err(e), q) => (Err(e), q),
        (Ok(_), q) => match select_columns(ts, q) {
            (Err(e), r) => (Err(e), r),
            (Ok(columns), r) => match expect(ts, r, TokenView::From) {
                (Err(e), s) => (Err(e), s),
                (Ok(_), s) => match ident(ts, s) {
                    (Err(e), t) => (Err(e), t),
                    (Ok(table), t) => match filter(ts, t) {
                        (Err(e), u) => (Err(e), u),
                        (Ok(filter), u) => match order(ts, u) {
                            (Err(e), v) => (Err(e), v),
                            (Ok(order_by), v) => match limit(ts, v) {
                                (Err(e), w) => (Err(e), w),
                                (Ok(limit), w) => (
                                    Ok(
                                        StatementView::Select {
                                            table,
                                            columns,
                                            filter,
                                            order_by,
                                            limit,
                                        },
                                    ),
                                    w,
                                ),
                            },
                        },
                    },
                },
            },
        },
    }
}

/// `DELETE FROM name [WHERE expr]`
pub open spec fn delete_statement(ts: Seq<TokenView>, p: int) -> Parsed<StatementView> {
    match expect(ts, p, TokenView::Delete) {
        (Err(e), q) => (Err(e), q),
        (Ok(_), q) => match expect(ts, q, TokenView::From) {
            (Err(e), r) => (Err(e), r),
            (Ok(_), r) => match ident(ts, r) {
                (Err(e), s) => (Err(e), s),
                (Ok(table), s) => match filter(ts, s) {
                    (Err(e), t) => (Err(e), t),
                    (Ok(filter), t) => (Ok(StatementView::Delete { table, filter }), t),
                },
            },
        },
    }
}

/// `UPDATE name SET col = v, ... [WHERE expr]`
pub open spec fn update_statement(ts: Seq<TokenView>, p: int) -> Parsed<StatementView> {
    match expect(ts, p, TokenView::Update) {
        (Err(e), q) => (Err(e), q),
        (Ok(_), q) => match ident(ts, q) {
            (Err(e), r) => (Err(e), r),
            (Ok(table), r) => match expect(ts, r, TokenView::SetKeyword) {
                (Err(e), s) => (Err(e), s),
                (Ok(_), s) => match assignments(ts, s) {
                    (Err(e), t) => (Err(e), t),
                    (Ok(assignments), t) => match filter(ts, t) {
                        (Err(e), u) => (Err(e), u),
                        (Ok(filter), u) => (
                            Ok(StatementView::Update { table, assignments, filter }),
                            u,
                        ),
                    },
                },
            },
        },
    }
}

/// The statement at `p`. What follows it is left alone.
pub open spec fn statement(ts: Seq<TokenView>, p: int) -> Parsed<StatementView> {
    match tok(ts, p) {
        TokenView::Create => create_statement(ts, p),
        TokenView::Insert => insert_statement(ts, p),
        TokenView::Select => select_statement(ts, p),
        TokenView::Delete => delete_statement(ts, p),
        TokenView::Update => update_statement(ts, p),
        t => (Err("unexpected token: "@ + token_debug(t)), p),
    }
}

/// The mathematical counterpart of `Parser`.
#[verifier::ext_equal]
pub struct ParserView {
    pub tokens: Seq<TokenView>,
    pub pos: int,
}

pub struct Parser {
    tokens: Vec<Token>,
    pos: usize,
}

impl View for Parser {
    type V = ParserView;

    closed spec fn view(&self) -> ParserView {
        ParserView { tokens: tokens_view(self.tokens@), pos: self.pos as int }
    }
}

impl Parser {
    pub fn new(tokens: Vec<Token>) -> (p: Self)
        ensures
            p@ == (ParserView { tokens: tokens_view(tokens@), pos: 0 }),
    {
        Self { tokens, pos: 0 }
    }

    fn peek(&self) -> (t: &Token)
        ensures
            t@ == tok(self@.tokens, self@.pos),
    {
        if self.pos < self.tokens.len() {
            &self.tokens[self.pos]
        } else {
            &Token::Eof
        }
    }

    fn advance(&mut self)
        ensures
            final(self)@ == (ParserView {
                tokens: old(self)@.tokens,
                pos: step(old(self)@.tokens, old(self)@.pos),
            }),
    {
        let n: usize = self.tokens.len();
        if self.pos < n {
            self.pos = self.pos + 1;
        }
    }

    fn expect(&mut self, expected: Token) -> (res: Result<(), String>)
        ensures
            final(self)@.tokens == old(self)@.tokens,
            final(self)@.pos == expect(old(self)@.tokens, old(self)@.pos, expected@).1,
            match (res, expect(old(self)@.tokens, old(self)@.pos, expected@).0) {
                (Ok(x), Ok(v)) => true,
                (Err(e), Err(t)) => e@ == t,
                _ => false,
            },
    {
        let ok = kind_of(self.peek()) == kind_of(&expected);
        let got = token_text(self.peek());
        self.advance();
        if ok {
            Ok(())
        } else {
            let want = token_text(&expected);
            Err(join4("expected ", want.as_str(), ", got ", got.as_str()))
        }
    }

    fn expect_ident(&mut self) -> (res: Result<String, String>)
        ensures
            final(self)@.tokens == old(self)@.tokens,
            final(self)@.pos == ident(old(self)@.tokens, old(self)@.pos).1,
            match (res, ident(old(self)@.tokens, old(self)@.pos).0) {
                (Ok(x), Ok(v)) => x@ == v,
                (Err(e), Err(t)) => e@ == t,
                _ => false,
            },
    {
        let res = match self.peek() {
            Token::Ident(s) => Ok(s.clone()),
            t => {
                let got = token_text(t);
                Err(join2("expected identifier, got ", got.as_str()))
            },
        };
        self.advance();
        res
    }

    fn expect_value(&mut self) -> (res: Result<Value, String>)
        ensures
            final(self)@.tokens == old(self)@.tokens,
            final(self)@.pos == literal(old(self)@.tokens, old(self)@.pos).1,
            match (res, literal(old(self)@.tokens, old(self)@.pos).0) {
                (Ok(x), Ok(v)) => x@ == v,
                (Err(e), Err(t)) => e@ == t,
                _ => false,
            },
    {
        let res = match self.peek() {
            Token::IntLit(n) => Ok(Value::Int(*n)),
            Token::FloatLit(r) => Ok(Value::Float(*r)),
            Token::TextLit(s) => Ok(Value::Text(s.clone())),
            Token::Null => Ok(Value::Null),
            t => {
                let got = token_text(t);
                Err(join2("expected value, got ", got.as_str()))
            },
        };
        self.advance();
        res
    }

    fn parse_column(&mut self) -> (res: Result<ColumnDef, String>)
        ensures
            final(self)@.tokens == old(self)@.tokens,
            final(self)@.pos == column(old(self)@.tokens, old(self)@.pos).1,
            match (res, column(old(self)@.tokens, old(self)@.pos).0) {
                (Ok(x), Ok(v)) => x@ == v,
                (Err(e), Err(t)) => e@ == t,
                _ => false,
            },
    {
        let name = match self.expect_ident() {
            Err(e) => {
                return Err(e);
            },
            Ok(x) => x,
        };
        let ty: Result<DataType, String> = match self.peek() {
            Token::Int => Ok(DataType::Int),
            Token::Text => Ok(DataType::Text),
            Token::Float => Ok(DataType::Float),
            t => {
                let got = token_text(t);
                Err(join2("expected type, got ", got.as_str()))
            },
        };
        self.advance();
        let ty: DataType = match ty {
            Err(e) => {
                return Err(e);
            },
            Ok(ty) => ty,
        };
        let primary_key = match self.peek() {
            Token::Primary => true,
            _ => false,
        };
        if primary_key {
            self.advance();
            match self.expect(Token::Key) {
                Err(e) => {
                    return Err(e);
                },
                Ok(_) => {},
            }
        }
        Ok(ColumnDef { name, ty, primary_key })
    }

    fn parse_separator(&mut self) -> (res: Result<bool, String>)
        ensures
            final(self)@.tokens == old(self)@.tokens,
            final(self)@.pos == separator(old(self)@.tokens, old(self)@.pos).1,
            match (res, separator(old(self)@.tokens, old(self)@.pos).0) {
                (Ok(x), Ok(v)) => x == v,
                (Err(e), Err(t)) => e@ == t,
                _ => false,
            },
    {
        let res = match self.peek() {
            Token::Comma => Ok(true),
            Token::RParen => Ok(false),
            t => {
                let got = token_text(t);
                Err(join2("expected ',' or ')', got ", got.as_str()))
            },
        };
        if res.is_ok() {
            self.advance();
        }
        res
    }

    fn parse_columns(&mut self) -> (res: Result<Vec<ColumnDef>, String>)
        ensures
            final(self)@.tokens == old(self)@.tokens,
            final(self)@.pos == columns(old(self)@.tokens, old(self)@.pos).1,
            match (res, columns(old(self)@.tokens, old(self)@.pos).0) {
                (Ok(x), Ok(v)) => columns_view(x@) == v,
                (Err(e), Err(t)) => e@ == t,
                _ => false,
            },
    {
        let ghost ts = self@.tokens;
        let ghost start = self@.pos;
        let mut items: Vec<ColumnDef> = Vec::new();
        proof {
            if let Ok(vs) = columns(ts, start).0 {
                assert(columns_view(items@) + vs =~= vs);
            }
        }
        loop
            invariant
                self@.tokens == ts,
                ts == old(self)@.tokens,
                start == old(self)@.pos,
                0 <= self@.pos,
                columns(ts, start).1 == columns(ts, self@.pos).1,
                columns(ts, start).0 == (match columns(ts, self@.pos).0 {
                    Ok(vs) => Ok(
                        columns_view(items@) + vs,
                    ),
                    Err(e) => Err(e),
                }),
            decreases ts.len() - self@.pos,
        {
            let ghost before = columns_view(items@);
            let ghost at = self@.pos;
            let item = match self.parse_column() {
                Err(e) => {
                    return Err(e);
                },
                Ok(x) => x,
            };
            let ghost v = item@;
            items.push(item);
            assert(columns_view(items@) =~= before.push(v));
            match self.parse_separator() {
                Err(e) => {
                    return Err(e);
                },
                Ok(true) => {},
                Ok(false) => {
                    assert(before + seq![v] =~= before.push(v));
                    return Ok(items);
                },
            }
            proof {
                if let Ok(vs) = columns(ts, self@.pos).0 {
                    assert(before + (seq![v] + vs) =~= before.push(v) + vs);
                }
            }
        }
    }

    fn parse_values(&mut self) -> (res: Result<Vec<Value>, String>)
        ensures
            final(self)@.tokens == old(self)@.tokens,
            final(self)@.pos == values(old(self)@.tokens, old(self)@.pos).1,
            match (res, values(old(self)@.tokens, old(self)@.pos).0) {
                (Ok(x), Ok(v)) => values_view(x@) == v,
                (Err(e), Err(t)) => e@ == t,
                _ => false,
            },
    {
        let ghost ts = self@.tokens;
        let ghost start = self@.pos;
        let mut items: Vec<Value> = Vec::new();
        proof {
            if let Ok(vs) = values(ts, start).0 {
                assert(values_view(items@) + vs =~= vs);
            }
        }
        loop
            invariant
                self@.tokens == ts,
                ts == old(self)@.tokens,
                start == old(self)@.pos,
                0 <= self@.pos,
                values(ts, start).1 == values(ts, self@.pos).1,
                values(ts, start).0 == (match values(ts, self@.pos).0 {
                    Ok(vs) => Ok(
                        values_view(items@) + vs,
                    ),
                    Err(e) => Err(e),
                }),
            decreases ts.len() - self@.pos,
        {
            let ghost before = values_view(items@);
            let ghost at = self@.pos;
            let item = match self.expect_value() {
                Err(e) => {
                    return Err(e);
                },
                Ok(x) => x,
            };
            let ghost v = item@;
            items.push(item);
            assert(values_view(items@) =~= before.push(v));
            match self.parse_separator() {
                Err(e) => {
                    return Err(e);
                },
                Ok(true) => {},
                Ok(false) => {
                    assert(before + seq![v] =~= before.push(v));
                    return Ok(items);
                },
            }
            proof {
                if let Ok(vs) = values(ts, self@.pos).0 {
                    assert(before + (seq![v] + vs) =~= before.push(v) + vs);
                }
            }
        }
    }

    fn parse_names(&mut self) -> (res: Result<Vec<String>, String>)
        ensures
            final(self)@.tokens == old(self)@.tokens,
            final(self)@.pos == names(old(self)@.tokens, old(self)@.pos).1,
            match (res, names(old(self)@.tokens, old(self)@.pos).0) {
                (Ok(x), Ok(v)) => names_view(x@) == v,
                (Err(e), Err(t)) => e@ == t,
                _ => false,
            },
    {
        let ghost ts = self@.tokens;
        let ghost start = self@.pos;
        let mut items: Vec<String> = Vec::new();
        proof {
            if let Ok(vs) = names(ts, start).0 {
                assert(names_view(items@) + vs =~= vs);
            }
        }
        loop
            invariant
                self@.tokens == ts,
                ts == old(self)@.tokens,
                start == old(self)@.pos,
                0 <= self@.pos,
                names(ts, start).1 == names(ts, self@.pos).1,
                names(ts, start).0 == (match names(ts, self@.pos).0 {
                    Ok(vs) => Ok(
                        names_view(items@) + vs,
                    ),
                    Err(e) => Err(e),
                }),
            decreases ts.len() - self@.pos,
        {
            let ghost before = names_view(items@);
            let ghost at = self@.pos;
            let item = match self.expect_ident() {
                Err(e) => {
                    return Err(e);
                },
                Ok(x) => x,
            };
            let ghost v = item@;
            items.push(item);
            assert(names_view(items@) =~= before.push(v));
            let more = match self.peek() {
                Token::Comma => true,
                _ => false,
            };
            if !more {
                assert(before + seq![v] =~= before.push(v));
                return Ok(items);
            }
            self.advance();
            proof {
                if let Ok(vs) = names(ts, self@.pos).0 {
                    assert(before + (seq![v] + vs) =~= before.push(v) + vs);
                }
            }
        }
    }

    fn parse_assignment(&mut self) -> (res: Result<Assignment, String>)
        ensures
            final(self)@.tokens == old(self)@.tokens,
            final(self)@.pos == assignment(old(self)@.tokens, old(self)@.pos).1,
            match (res, assignment(old(self)@.tokens, old(self)@.pos).0) {
                (Ok(x), Ok(v)) => x@ == v,
                (Err(e), Err(t)) => e@ == t,
                _ => false,
            },
    {
        let column = match self.expect_ident() {
            Err(e) => {
                return Err(e);
            },
            Ok(x) => x,
        };
        match self.expect(Token::Eq) {
            Err(e) => {
                return Err(e);
            },
            Ok(_) => {},
        }
        let value = match self.expect_value() {
            Err(e) => {
                return Err(e);
            },
            Ok(x) => x,
        };
        Ok(Assignment { column, value })
    }

    fn parse_assignments(&mut self) -> (res: Result<Vec<Assignment>, String>)
        ensures
            final(self)@.tokens == old(self)@.tokens,
            final(self)@.pos == assignments(old(self)@.tokens, old(self)@.pos).1,
            match (res, assignments(old(self)@.tokens, old(self)@.pos).0) {
                (Ok(x), Ok(v)) => assignments_view(x@) == v,
                (Err(e), Err(t)) => e@ == t,
                _ => false,
            },
    {
        let ghost ts = self@.tokens;
        let ghost start = self@.pos;
        let mut items: Vec<Assignment> = Vec::new();
        proof {
            if let Ok(vs) = assignments(ts, start).0 {
                assert(assignments_view(items@) + vs =~= vs);
            }
        }
        loop
            invariant
                self@.tokens == ts,
                ts == old(self)@.tokens,
                start == old(self)@.pos,
                0 <= self@.pos,
                assignments(ts, start).1 == assignments(ts, self@.pos).1,
                assignments(ts, start).0 == (match assignments(ts, self@.pos).0 {
                    Ok(vs) => Ok(
                        assignments_view(items@) + vs,
                    ),
                    Err(e) => Err(e),
                }),
            decreases ts.len() - self@.pos,
        {
            let ghost before = assignments_view(items@);
            let ghost at = self@.pos;
            let item = match self.parse_assignment() {
                Err(e) => {
                    return Err(e);
                },
                Ok(x) => x,
            };
            let ghost v = item@;
            items.push(item);
            assert(assignments_view(items@) =~= before.push(v));
            let more = match self.peek() {
                Token::Comma => true,
                _ => false,
            };
            if !more {
                assert(before + seq![v] =~= before.push(v));
                return Ok(items);
            }
            self.advance();
            proof {
                if let Ok(vs) = assignments(ts, self@.pos).0 {
                    assert(before + (seq![v] + vs) =~= before.push(v) + vs);
                }
            }
        }
    }

    fn parse_expr(&mut self) -> (res: Result<Expr, String>)
        ensures
            final(self)@.tokens == old(self)@.tokens,
            final(self)@.pos == expr(old(self)@.tokens, old(self)@.pos).1,
            match (res, expr(old(self)@.tokens, old(self)@.pos).0) {
                (Ok(x), Ok(v)) => x@ == v,
                (Err(e), Err(t)) => e@ == t,
                _ => false,
            },
    {
        let left = match self.expect_ident() {
            Err(e) => {
                return Err(e);
            },
            Ok(x) => x,
        };
        let is = match self.peek() {
            Token::Is => true,
            _ => false,
        };
        if is {
            self.advance();
            let not = match self.peek() {
                Token::Not => true,
                _ => false,
            };
            if not {
                self.advance();
            }
            match self.expect(Token::Null) {
                Err(e) => {
                    return Err(e);
                },
                Ok(_) => {},
            }
            let op = if not {
                Op::IsNotNull
            } else {
                Op::IsNull
            };
            return Ok(Expr { left, op, right: Value::Null });
        }
        let op: Result<Op, String> = match self.peek() {
            Token::Eq => Ok(Op::Eq),
            Token::Ne => Ok(Op::Ne),
            Token::Lt => Ok(Op::Lt),
            Token::Gt => Ok(Op::Gt),
            Token::Le => Ok(Op::Le),
            Token::Ge => Ok(Op::Ge),
            t => {
                let got = token_text(t);
                Err(join2("expected operator, got ", got.as_str()))
            },
        };
        self.advance();
        let op: Op = match op {
            Err(e) => {
                return Err(e);
            },
            Ok(op) => op,
        };
        let right = match self.expect_value() {
            Err(e) => {
                return Err(e);
            },
            Ok(x) => x,
        };
        Ok(Expr { left, op, right })
    }

    fn parse_filter(&mut self) -> (res: Result<Option<Expr>, String>)
        ensures
            final(self)@.tokens == old(self)@.tokens,
            final(self)@.pos == filter(old(self)@.tokens, old(self)@.pos).1,
            match (res, filter(old(self)@.tokens, old(self)@.pos).0) {
                (Ok(x), Ok(v)) => filter_view(x) == v,
                (Err(e), Err(t)) => e@ == t,
                _ => false,
            },
    {
        let given = match self.peek() {
            Token::Where => true,
            _ => false,
        };
        if !given {
            return Ok(None);
        }
        self.advance();
        match self.parse_expr() {
            Err(e) => Err(e),
            Ok(x) => Ok(Some(x)),
        }
    }

    fn parse_order(&mut self) -> (res: Result<Option<(String, OrderDir)>, String>)
        ensures
            final(self)@.tokens == old(self)@.tokens,
            final(self)@.pos == order(old(self)@.tokens, old(self)@.pos).1,
            match (res, order(old(self)@.tokens, old(self)@.pos).0) {
                (Ok(x), Ok(v)) => order_view(x) == v,
                (Err(e), Err(t)) => e@ == t,
                _ => false,
            },
    {
        let given = match self.peek() {
            Token::Order => true,
            _ => false,
        };
        if !given {
            return Ok(None);
        }
        self.advance();
        match self.expect(Token::By) {
            Err(e) => {
                return Err(e);
            },
            Ok(_) => {},
        }
        let name = match self.expect_ident() {
            Err(e) => {
                return Err(e);
            },
            Ok(x) => x,
        };
        let dir: Option<OrderDir> = match self.peek() {
            Token::Asc => Some(OrderDir::Asc),
            Token::Desc => Some(OrderDir::Desc),
            _ => None,
        };
        match dir {
            Some(dir) => {
                self.advance();
                Ok(Some((name, dir)))
            },
            None => Ok(Some((name, OrderDir::Asc))),
        }
    }

    fn parse_limit(&mut self) -> (res: Result<Option<u64>, String>)
        ensures
            final(self)@.tokens == old(self)@.tokens,
            final(self)@.pos == limit(old(self)@.tokens, old(self)@.pos).1,
            match (res, limit(old(self)@.tokens, old(self)@.pos).0) {
                (Ok(x), Ok(v)) => x == v,
                (Err(e), Err(t)) => e@ == t,
                _ => false,
            },
    {
        let given = match self.peek() {
            Token::Limit => true,
            _ => false,
        };
        if !given {
            return Ok(None);
        }
        self.advance();
        let n: Option<u64> = match self.peek() {
            Token::IntLit(n) => if *n >= 0 {
                Some(*n as u64)
            } else {
                None
            },
            _ => None,
        };
        let got = token_text(self.peek());
        self.advance();
        match n {
            Some(n) => Ok(Some(n)),
            None => Err(join2("expected positive integer after LIMIT, got ", got.as_str())),
        }
    }

    fn parse_select_columns(&mut self) -> (res: Result<SelectColumns, String>)
        ensures
            final(self)@.tokens == old(self)@.tokens,
            final(self)@.pos == select_columns(old(self)@.tokens, old(self)@.pos).1,
            match (res, select_columns(old(self)@.tokens, old(self)@.pos).0) {
                (Ok(x), Ok(v)) => x@ == v,
                (Err(e), Err(t)) => e@ == t,
                _ => false,
            },
    {
        let star = match self.peek() {
            Token::Star => true,
            _ => false,
        };
        if star {
            self.advance();
            return Ok(SelectColumns::Star);
        }
        match self.parse_names() {
            Err(e) => Err(e),
            Ok(names) => Ok(SelectColumns::Named(names)),
        }
    }

    fn parse_create(&mut self) -> (res: Result<Statement, String>)
        ensures
            final(self)@.tokens == old(self)@.tokens,
            final(self)@.pos == create_statement(old(self)@.tokens, old(self)@.pos).1,
            match (res, create_statement(old(self)@.tokens, old(self)@.pos).0) {
                (Ok(x), Ok(v)) => x@ == v,
                (Err(e), Err(t)) => e@ == t,
                _ => false,
            },
    {
        match self.expect(Token::Create) {
            Err(e) => {
                return Err(e);
            },
            Ok(_) => {},
        }
        match self.expect(Token::Table) {
            Err(e) => {
                return Err(e);
            },
            Ok(_) => {},
        }
        let table = match self.expect_ident() {
            Err(e) => {
                return Err(e);
            },
            Ok(x) => x,
        };
        match self.expect(Token::LParen) {
            Err(e) => {
                return Err(e);
            },
            Ok(_) => {},
        }
        let columns = match self.parse_columns() {
            Err(e) => {
                return Err(e);
            },
            Ok(x) => x,
        };
        Ok(Statement::CreateTable { table, columns })
    }

    fn parse_insert(&mut self) -> (res: Result<Statement, String>)
        ensures
            final(self)@.tokens == old(self)@.tokens,
            final(self)@.pos == insert_statement(old(self)@.tokens, old(self)@.pos).1,
            match (res, insert_statement(old(self)@.tokens, old(self)@.pos).0) {
                (Ok(x), Ok(v)) => x@ == v,
                (Err(e), Err(t)) => e@ == t,
                _ => false,
            },
    {
        match self.expect(Token::Insert) {
            Err(e) => {
                return Err(e);
            },
            Ok(_) => {},
        }
        match self.expect(Token::Into) {
            Err(e) => {
                return Err(e);
            },
            Ok(_) => {},
        }
        let table = match self.expect_ident() {
            Err(e) => {
                return Err(e);
            },
            Ok(x) => x,
        };
        match self.expect(Token::Values) {
            Err(e) => {
                return Err(e);
            },
            Ok(_) => {},
        }
        match self.expect(Token::LParen) {
            Err(e) => {
                return Err(e);
            },
            Ok(_) => {},
        }
        let values = match self.parse_values() {
            Err(e) => {
                return Err(e);
            },
            Ok(x) => x,
        };
        Ok(Statement::Insert { table, values })
    }

    fn parse_select(&mut self) -> (res: Result<Statement, String>)
        ensures
            final(self)@.tokens == old(self)@.tokens,
            final(self)@.pos == select_statement(old(self)@.tokens, old(self)@.pos).1,
            match (res, select_statement(old(self)@.tokens, old(self)@.pos).0) {
                (Ok(x), Ok(v)) => x@ == v,
                (Err(e), Err(t)) => e@ == t,
                _ => false,
            },
    {
        match self.expect(Token::Select) {
            Err(e) => {
                return Err(e);
            },
            Ok(_) => {},
        }
        let columns = match self.parse_select_columns() {
            Err(e) => {
                return Err(e);
            },
            Ok(x) => x,
        };
        match self.expect(Token::From) {
            Err(e) => {
                return Err(e);
            },
            Ok(_) => {},
        }
        let table = match self.expect_ident() {
            Err(e) => {
                return Err(e);
            },
            Ok(x) => x,
        };
        let filter = match self.parse_filter() {
            Err(e) => {
                return Err(e);
            },
            Ok(x) => x,
        };
        let order_by = match self.parse_order() {
            Err(e) => {
                return Err(e);
            },
            Ok(x) => x,
        };
        let limit = match self.parse_limit() {
            Err(e) => {
                return Err(e);
            },
            Ok(x) => x,
        };
        Ok(Statement::Select { table, columns, filter, order_by, limit })
    }

    fn parse_delete(&mut self) -> (res: Result<Statement, String>)
        ensures
            final(self)@.tokens == old(self)@.tokens,
            final(self)@.pos == delete_statement(old(self)@.tokens, old(self)@.pos).1,
            match (res, delete_statement(old(self)@.tokens, old(self)@.pos).0) {
                (Ok(x), Ok(v)) => x@ == v,
                (Err(e), Err(t)) => e@ == t,
                _ => false,
            },
    {
        match self.expect(Token::Delete) {
            Err(e) => {
                return Err(e);
            },
            Ok(_) => {},
        }
        match self.expect(Token::From) {
            Err(e) => {
                return Err(e);
            },
            Ok(_) => {},
        }
        let table = match self.expect_ident() {
            Err(e) => {
                return Err(e);
            },
            Ok(x) => x,
        };
        let filter = match self.parse_filter() {
            Err(e) => {
                return Err(e);
            },
            Ok(x) => x,
        };
        Ok(Statement::Delete { table, filter })
    }

    fn parse_update(&mut self) -> (res: Result<Statement, String>)
        ensures
            final(self)@.tokens == old(self)@.tokens,
            final(self)@.pos == update_statement(old(self)@.tokens, old(self)@.pos).1,
            match (res, update_statement(old(self)@.tokens, old(self)@.pos).0) {
                (Ok(x), Ok(v)) => x@ == v,
                (Err(e), Err(t)) => e@ == t,
                _ => false,
            },
    {
        match self.expect(Token::Update) {
            Err(e) => {
                return Err(e);
            },
            Ok(_) => {},
        }
        let table = match self.expect_ident() {
            Err(e) => {
                return Err(e);
            },
            Ok(x) => x,
        };
        match self.expect(Token::SetKeyword) {
            Err(e) => {
                return Err(e);
            },
            Ok(_) => {},
        }
        let assignments = match self.parse_assignments() {
            Err(e) => {
                return Err(e);
            },
            Ok(x) => x,
        };
        let filter = match self.parse_filter() {
            Err(e) => {
                return Err(e);
            },
            Ok(x) => x,
        };
        Ok(Statement::Update { table, assignments, filter })
    }

    /// Parses one statement; what follows it is left alone.
    pub fn parse(&mut self) -> (res: Result<Statement, String>)
        ensures
            final(self)@.tokens == old(self)@.tokens,
            final(self)@.pos == statement(old(self)@.tokens, old(self)@.pos).1,
            match (res, statement(old(self)@.tokens, old(self)@.pos).0) {
                (Ok(x), Ok(v)) => x@ == v,
                (Err(e), Err(t)) => e@ == t,
                _ => false,
            },
    {
        match self.peek() {
            Token::Create => self.parse_create(),
            Token::Insert => self.parse_insert(),
            Token::Select => self.parse_select(),
            Token::Delete => self.parse_delete(),
            Token::Update => self.parse_update(),
            t => {
                let got = token_text(t);
                Err(join2("unexpected token: ", got.as_str()))
            },
        }
    }
}

} // verus!
