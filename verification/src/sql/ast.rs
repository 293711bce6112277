//! AST node types for the SQL subset the database supports.
//!
//! - `CREATE TABLE name (col type [PRIMARY KEY], ...)`
//! - `INSERT INTO name VALUES (v1, v2, ...)`
//! - `UPDATE name SET col = v, ... [WHERE expr]`
//! - `SELECT col,... FROM name [WHERE expr] [ORDER BY col ASC|DESC] [LIMIT n]`
//! - `DELETE FROM name [WHERE expr]`
use crate::sql::number::{rank_int_real, rank_of, rank_reals, Rank, Real};
use crate::text::{text_before, text_eq, text_lt};
use vstd::prelude::*;

verus! {

#[allow(inconsistent_fields)]
#[derive(Debug, PartialEq)]
pub enum Statement {
    CreateTable { table: String, columns: Vec<ColumnDef> },
    Insert { table: String, values: Vec<Value> },
    Update { table: String, assignments: Vec<Assignment>, filter: Option<Expr> },
    Select {
        table: String,
        columns: SelectColumns,
        filter: Option<Expr>,
        order_by: Option<(String, OrderDir)>,
        limit: Option<u64>,
    },
    Delete { table: String, filter: Option<Expr> },
}

#[derive(Debug, PartialEq)]
pub struct ColumnDef {
    pub name: String,
    pub ty: DataType,
    pub primary_key: bool,
}

#[derive(Debug, Clone, Copy, PartialEq, Eq, Structural)]
pub enum OrderDir {
    Asc,
    Desc,
}

#[derive(Debug, Clone, Copy, PartialEq, Eq, Structural)]
pub enum DataType {
    Int,
    Text,
    Float,
}

#[derive(Debug, PartialEq)]
pub enum SelectColumns {
    /// `SELECT *`
    Star,
    /// `SELECT col1, col2`
    Named(Vec<String>),
}

/// A literal value in SQL.
#[derive(Debug, PartialEq)]
pub enum Value {
    Int(i64),
    Float(Real),
    Text(String),
    Null,
}

/// A WHERE clause: a column compared with a literal.
#[derive(Debug, PartialEq)]
pub struct Expr {
    /// Column name.
    pub left: String,
    pub op: Op,
    /// Literal.
    pub right: Value,
}

#[derive(Debug, PartialEq)]
pub struct Assignment {
    pub column: String,
    pub value: Value,
}

#[derive(Debug, Clone, Copy, PartialEq, Eq, Structural)]
pub enum Op {
    /// `=`
    Eq,
    /// `!=`
    Ne,
    /// `<`
    Lt,
    /// `>`
    Gt,
    /// `<=`
    Le,
    /// `>=`
    Ge,
    /// `IS NULL`
    IsNull,
    /// `IS NOT NULL`
    IsNotNull,
}

/// What a value is: the mathematical counterpart of `Value`.
#[verifier::ext_equal]
pub enum ValueView {
    Int(i64),
    /// The bits of a binary64 number.
    Float(u64),
    Text(Seq<char>),
    Null,
}

impl View for Value {
    type V = ValueView;

    open spec fn view(&self) -> ValueView {
        match *self {
            Value::Int(n) => ValueView::Int(n),
            Value::Float(r) => ValueView::Float(r.bits),
            Value::Text(s) => ValueView::Text(s@),
            Value::Null => ValueView::Null,
        }
    }
}

/// The mathematical counterpart of `ColumnDef`.
#[verifier::ext_equal]
pub struct ColumnView {
    pub name: Seq<char>,
    pub ty: DataType,
    pub primary_key: bool,
}

impl View for ColumnDef {
    type V = ColumnView;

    open spec fn view(&self) -> ColumnView {
        ColumnView { name: self.name@, ty: self.ty, primary_key: self.primary_key }
    }
}

/// The mathematical counterpart of `Expr`.
#[verifier::ext_equal]
pub struct ExprView {
    pub left: Seq<char>,
    pub op: Op,
    pub right: ValueView,
}

impl View for Expr {
    type V = ExprView;

    open spec fn view(&self) -> ExprView {
        ExprView { left: self.left@, op: self.op, right: self.right@ }
    }
}

/// The mathematical counterpart of `Assignment`.
#[verifier::ext_equal]
pub struct AssignmentView {
    pub column: Seq<char>,
    pub value: ValueView,
}

impl View for Assignment {
    type V = AssignmentView;

    open spec fn view(&self) -> AssignmentView {
        AssignmentView { column: self.column@, value: self.value@ }
    }
}

/// The mathematical counterpart of `SelectColumns`.
#[verifier::ext_equal]
pub enum SelectView {
    Star,
    Named(Seq<Seq<char>>),
}

impl View for SelectColumns {
    type V = SelectView;

    open spec fn view(&self) -> SelectView {
        match *self {
            SelectColumns::Star => SelectView::Star,
            SelectColumns::Named(names) => SelectView::Named(names_view(names@)),
        }
    }
}

/// The mathematical counterpart of `Statement`.
#[allow(inconsistent_fields)]
#[verifier::ext_equal]
pub enum StatementView {
    CreateTable { table: Seq<char>, columns: Seq<ColumnView> },
    Insert { table: Seq<char>, values: Seq<ValueView> },
    Update { table: Seq<char>, assignments: Seq<AssignmentView>, filter: Option<ExprView> },
    Select {
        table: Seq<char>,
        columns: SelectView,
        filter: Option<ExprView>,
        order_by: Option<(Seq<char>, OrderDir)>,
        limit: Option<u64>,
    },
    Delete { table: Seq<char>, filter: Option<ExprView> },
}

impl View for Statement {
    type V = StatementView;

    open spec fn view(&self) -> StatementView {
        match *self {
            Statement::CreateTable { table, columns } => StatementView::CreateTable {
                table: table@,
                columns: columns_view(columns@),
            },
            Statement::Insert { table, values } => StatementView::Insert {
                table: table@,
                values: values_view(values@),
            },
            Statement::Update { table, assignments, filter } => StatementView::Update {
                table: table@,
                assignments: assignments_view(assignments@),
                filter: filter_view(filter),
            },
            Statement::Select { table, columns, filter, order_by, limit } => StatementView::Select {
                table: table@,
                columns: columns@,
                filter: filter_view(filter),
                order_by: order_view(order_by),
                limit,
            },
            Statement::Delete { table, filter } => StatementView::Delete {
                table: table@,
                filter: filter_view(filter),
            },
        }
    }
}

pub open spec fn names_view(s: Seq<String>) -> Seq<Seq<char>> {
    Seq::new(s.len(), |i: int| s[i]@)
}

pub open spec fn columns_view(s: Seq<ColumnDef>) -> Seq<ColumnView> {
    Seq::new(s.len(), |i: int| s[i]@)
}

pub open spec fn values_view(s: Seq<Value>) -> Seq<ValueView> {
    Seq::new(s.len(), |i: int| s[i]@)
}

pub open spec fn assignments_view(s: Seq<Assignment>) -> Seq<AssignmentView> {
    Seq::new(s.len(), |i: int| s[i]@)
}

pub open spec fn filter_view(f: Option<Expr>) -> Option<ExprView> {
    match f {
        Some(e) => Some(e@),
        None => None,
    }
}

pub open spec fn order_view(o: Option<(String, OrderDir)>) -> Option<(Seq<char>, OrderDir)> {
    match o {
        Some((name, dir)) => Some((name@, dir)),
        None => None,
    }
}

impl Clone for Value {
    fn clone(&self) -> (v: Self)
        ensures
            v@ == self@,
    {
        match self {
            Value::Int(n) => Value::Int(*n),
            Value::Float(r) => Value::Float(*r),
            Value::Text(s) => Value::Text(s.clone()),
            Value::Null => Value::Null,
        }
    }
}

impl Clone for ColumnDef {
    fn clone(&self) -> (c: Self)
        ensures
            c@ == self@,
    {
        ColumnDef { name: self.name.clone(), ty: self.ty, primary_key: self.primary_key }
    }
}

impl Clone for Expr {
    fn clone(&self) -> (e: Self)
        ensures
            e@ == self@,
    {
        Expr { left: self.left.clone(), op: self.op, right: self.right.clone() }
    }
}

impl Clone for Assignment {
    fn clone(&self) -> (a: Self)
        ensures
            a@ == self@,
    {
        Assignment { column: self.column.clone(), value: self.value.clone() }
    }
}

/// Copies a list of values.
pub fn clone_values(values: &Vec<Value>) -> (copy: Vec<Value>)
    ensures
        values_view(copy@) == values_view(values@),
{
    let mut copy: Vec<Value> = Vec::new();
    let mut i: usize = 0;
    while i < values.len()
        invariant
            i <= values@.len(),
            copy@.len() == i,
            forall|k: int| 0 <= k < i ==> (#[trigger] copy@[k])@ == values@[k]@,
        decreases values@.len() - i,
    {
        copy.push(values[i].clone());
        i = i + 1;
    }
    assert(values_view(copy@) =~= values_view(values@));
    copy
}

/// Copies a list of column definitions.
pub fn clone_columns(columns: &Vec<ColumnDef>) -> (copy: Vec<ColumnDef>)
    ensures
        columns_view(copy@) == columns_view(columns@),
{
    let mut copy: Vec<ColumnDef> = Vec::new();
    let mut i: usize = 0;
    while i < columns.len()
        invariant
            i <= columns@.len(),
            copy@.len() == i,
            forall|k: int| 0 <= k < i ==> (#[trigger] copy@[k])@ == columns@[k]@,
        decreases columns@.len() - i,
    {
        copy.push(columns[i].clone());
        i = i + 1;
    }
    assert(columns_view(copy@) =~= columns_view(columns@));
    copy
}

/// How two values compare: numbers by their exact values, texts by their bytes. Values of other
/// pairs of types, and NULL, do not compare.
pub open spec fn rank_values(a: ValueView, b: ValueView) -> Option<Rank> {
    match (a, b) {
        (ValueView::Int(x), ValueView::Int(y)) => Some(rank_of(x as int, y as int)),
        (ValueView::Float(x), ValueView::Float(y)) => rank_reals(x, y),
        (ValueView::Int(x), ValueView::Float(y)) => rank_int_real(x as int, y),
        (ValueView::Float(x), ValueView::Int(y)) => match rank_int_real(y as int, x) {
            Some(r) => Some(r.flipped()),
            None => None,
        },
        (ValueView::Text(x), ValueView::Text(y)) => Some(
            if x == y {
                Rank::Equal
            } else if text_before(x, y) {
                Rank::Less
            } else {
                Rank::Greater
            },
        ),
        _ => None,
    }
}

impl Value {
    /// Compares two values.
    pub fn rank(&self, other: &Value) -> (r: Option<Rank>)
        ensures
            r == rank_values(self@, other@),
    {
        match (self, other) {
            (Value::Int(x), Value::Int(y)) => Some(
                if *x < *y {
                    Rank::Less
                } else if *x == *y {
                    Rank::Equal
                } else {
                    Rank::Greater
                },
            ),
            (Value::Float(x), Value::Float(y)) => x.rank(y),
            (Value::Int(x), Value::Float(y)) => Real::rank_int(*x, y),
            (Value::Float(x), Value::Int(y)) => match Real::rank_int(*y, x) {
                Some(r) => Some(r.reverse()),
                None => None,
            },
            (Value::Text(x), Value::Text(y)) => Some(
                if text_eq(x.as_str(), y.as_str()) {
                    Rank::Equal
                } else if text_lt(x.as_str(), y.as_str()) {
                    Rank::Less
                } else {
                    Rank::Greater
                },
            ),
            _ => None,
        }
    }

    pub fn is_null(&self) -> (b: bool)
        ensures
            b == (self@ is Null),
    {
        match self {
            Value::Null => true,
            _ => false,
        }
    }
}

} // verus!
