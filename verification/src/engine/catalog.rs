//! Table schemas, and rows as bytes.
use crate::bytes::{
    bits_of, copy_range, get_i64, get_u32, get_u64, holds_at, le32, le64, lemma_signed, lemma_un32,
    lemma_un64, put_bytes, put_i64, put_u32, put_u64, signed_of, un32, un64,
};
use crate::sql::ast::{
    clone_columns, columns_view, values_view, ColumnDef, ColumnView, DataType, Value, ValueView,
};
use crate::sql::number::Real;
use crate::text::{
    debug_text, dec, dec_i64, dec_int, dec_u64, join3, join4, text_debug, text_eq, text_from_utf8,
};
use vstd::prelude::*;
use vstd::string::*;
use vstd::utf8::{
    decode_utf8, decode_utf8_encode_utf8, encode_utf8, encode_utf8_decode_utf8,
    encode_utf8_valid_utf8, valid_utf8,
};

verus! {

/// A table schema: which columns exist and their types.
#[derive(Debug)]
pub struct Schema {
    pub name: String,
    pub columns: Vec<ColumnDef>,
    /// Name of the primary key column, if any.
    pub primary_key: Option<String>,
}

/// The mathematical counterpart of `Schema`.
#[verifier::ext_equal]
pub struct SchemaView {
    pub name: Seq<char>,
    pub columns: Seq<ColumnView>,
    pub primary_key: Option<Seq<char>>,
}

/// The text in an optional string.
pub open spec fn option_text(s: Option<String>) -> Option<Seq<char>> {
    match s {
        Some(t) => Some(t@),
        None => None,
    }
}

impl View for Schema {
    type V = SchemaView;

    open spec fn view(&self) -> SchemaView {
        SchemaView {
            name: self.name@,
            columns: columns_view(self.columns@),
            primary_key: option_text(self.primary_key),
        }
    }
}

/// The name of the first column from position `i` on that is marked as primary key.
pub open spec fn first_key(columns: Seq<ColumnView>, i: int) -> Option<Seq<char>>
    decreases columns.len() - i,
{
    if i < 0 || i >= columns.len() {
        None
    } else if columns[i].primary_key {
        Some(columns[i].name)
    } else {
        first_key(columns, i + 1)
    }
}

/// The schema of a new table.
pub open spec fn new_schema(name: Seq<char>, columns: Seq<ColumnView>) -> SchemaView {
    SchemaView { name, columns, primary_key: first_key(columns, 0) }
}

/// The position of the first `name` among `names` from position `i` on.
pub open spec fn position(names: Seq<Seq<char>>, name: Seq<char>, i: int) -> Option<int>
    decreases names.len() - i,
{
    if i < 0 || i >= names.len() {
        None
    } else if names[i] == name {
        Some(i)
    } else {
        position(names, name, i + 1)
    }
}

/// The names of columns.
pub open spec fn column_names(columns: Seq<ColumnView>) -> Seq<Seq<char>> {
    Seq::new(columns.len(), |i: int| columns[i].name)
}

/// What `position` finds is the first occurrence.
pub proof fn lemma_position(names: Seq<Seq<char>>, name: Seq<char>, i: int)
    requires
        0 <= i,
    ensures
        match position(names, name, i) {
            Some(p) => {
                &&& i <= p < names.len()
                &&& names[p] == name
                &&& forall|k: int| i <= k < p ==> names[k] != name
            },
            None => forall|k: int| i <= k < names.len() ==> names[k] != name,
        },
    decreases names.len() - i,
{
    if i < names.len() && names[i] != name {
        lemma_position(names, name, i + 1);
    }
}

impl SchemaView {
    /// The position of the column with this name.
    pub open spec fn col(self, name: Seq<char>) -> Option<int> {
        position(column_names(self.columns), name, 0)
    }

    /// The position of the primary key column.
    pub open spec fn pk_col(self) -> Option<int> {
        match self.primary_key {
            Some(name) => self.col(name),
            None => None,
        }
    }
}

/// An optional index as an optional mathematical integer.
pub open spec fn option_int(i: Option<usize>) -> Option<int> {
    match i {
        Some(n) => Some(n as int),
        None => None,
    }
}

/// A value can stand in a column of this type.
pub open spec fn fits(ty: DataType, v: ValueView) -> bool {
    match (ty, v) {
        (_, ValueView::Null) => true,
        (DataType::Int, ValueView::Int(_)) => true,
        (DataType::Text, ValueView::Text(_)) => true,
        (DataType::Float, ValueView::Float(_)) => true,
        _ => false,
    }
}

/// The low 32 bits of a length.
pub open spec fn len32(n: nat) -> u32 {
    (n % 0x1_0000_0000) as u32
}

/// The bytes of a value: a type tag and the payload.
pub open spec fn value_bytes(v: ValueView) -> Seq<u8> {
    match v {
        ValueView::Int(n) => seq![0u8] + le64(bits_of(n)),
        ValueView::Text(s) => seq![1u8] + le32(len32(encode_utf8(s).len())) + encode_utf8(s),
        ValueView::Null => seq![2u8],
        ValueView::Float(bits) => seq![3u8] + le64(bits),
    }
}

/// The bytes of a row: its values one after the other.
pub open spec fn row_bytes(row: Seq<ValueView>) -> Seq<u8>
    decreases row.len(),
{
    if row.len() == 0 {
        Seq::empty()
    } else {
        row_bytes(row.drop_last()) + value_bytes(row.last())
    }
}

/// The name of a type in messages.
pub open spec fn debug_type(ty: DataType) -> Seq<char> {
    match ty {
        DataType::Int => "Int"@,
        DataType::Text => "Text"@,
        DataType::Float => "Float"@,
    }
}

/// A value in messages.
pub open spec fn debug_value(v: ValueView) -> Seq<char> {
    match v {
        ValueView::Int(n) => "Int("@ + dec_int(n as int) + ")"@,
        ValueView::Float(bits) => "Float(Real { bits: "@ + dec(bits as nat) + " })"@,
        ValueView::Text(s) => "Text("@ + text_debug(s) + ")"@,
        ValueView::Null => "Null"@,
    }
}

pub open spec fn msg_value_count(expected: nat, got: nat) -> Seq<char> {
    "expected "@ + dec(expected) + " values, got "@ + dec(got)
}

pub open spec fn msg_column_type(col: ColumnView, v: ValueView) -> Seq<char> {
    "type mismatch for column '"@ + col.name + "': expected "@ + debug_type(col.ty) + ", got "@
        + debug_value(v)
}

pub open spec fn msg_type_tag(tag: u8, ty: DataType) -> Seq<char> {
    "type tag "@ + dec(tag as nat) + " doesn't match "@ + debug_type(ty)
}

pub open spec fn msg_table_exists(name: Seq<char>) -> Seq<char> {
    "table '"@ + name + "' already exists"@
}

/// The bytes of the first `n` values of a row, or the message for the first that does not fit its
/// column.
pub open spec fn serialize_upto(
    columns: Seq<ColumnView>,
    row: Seq<ValueView>,
    n: nat,
) -> Result<Seq<u8>, Seq<char>>
    decreases n,
{
    if n == 0 {
        Ok(Seq::empty())
    } else {
        match serialize_upto(columns, row, (n - 1) as nat) {
            Err(e) => Err(e),
            Ok(b) => if fits(columns[n - 1].ty, row[n - 1]) {
                Ok(b + value_bytes(row[n - 1]))
            } else {
                Err(msg_column_type(columns[n - 1], row[n - 1]))
            },
        }
    }
}

/// The bytes of a row of a table, or the message that refuses it.
pub open spec fn serialized(columns: Seq<ColumnView>, row: Seq<ValueView>) -> Result<
    Seq<u8>,
    Seq<char>,
> {
    if row.len() != columns.len() {
        Err(msg_value_count(columns.len(), row.len()))
    } else {
        serialize_upto(columns, row, row.len())
    }
}

/// The value of type `ty` stored at `off`, with the place after it.
pub open spec fn value_at(ty: DataType, buf: Seq<u8>, off: int) -> Result<
    (ValueView, int),
    Seq<char>,
> {
    if off >= buf.len() {
        Err("unexpected end of row data"@)
    } else if buf[off] == 2 {
        Ok((ValueView::Null, off + 1))
    } else if buf[off] == 0 && ty == DataType::Int {
        if off + 9 <= buf.len() {
            Ok((ValueView::Int(signed_of(un64(buf, off + 1))), off + 9))
        } else {
            Err("int read error"@)
        }
    } else if buf[off] == 1 && ty == DataType::Text {
        let n = un32(buf, off + 1);
        if off + 5 > buf.len() || off + 5 + n > buf.len() {
            Err("text len error"@)
        } else if valid_utf8(buf.subrange(off + 5, off + 5 + n)) {
            Ok((ValueView::Text(decode_utf8(buf.subrange(off + 5, off + 5 + n))), off + 5 + n))
        } else {
            Err("utf8 error"@)
        }
    } else if buf[off] == 3 && ty == DataType::Float {
        if off + 9 <= buf.len() {
            Ok((ValueView::Float(un64(buf, off + 1)), off + 9))
        } else {
            Err("float read error"@)
        }
    } else {
        Err(msg_type_tag(buf[off], ty))
    }
}

/// The values of the columns from position `i` on, stored from `off` on.
pub open spec fn row_from(columns: Seq<ColumnView>, i: int, buf: Seq<u8>, off: int) -> Result<
    Seq<ValueView>,
    Seq<char>,
>
    decreases columns.len() - i,
{
    if i < 0 || i >= columns.len() {
        Ok(Seq::empty())
    } else {
        match value_at(columns[i].ty, buf, off) {
            Err(e) => Err(e),
            Ok((v, next)) => match row_from(columns, i + 1, buf, next) {
                Err(e) => Err(e),
                Ok(rest) => Ok(seq![v] + rest),
            },
        }
    }
}

/// The row stored in `buf`, or the message that says why there is none.
pub open spec fn deserialized(columns: Seq<ColumnView>, buf: Seq<u8>) -> Result<
    Seq<ValueView>,
    Seq<char>,
> {
    row_from(columns, 0, buf, 0)
}

/// Writes the name of a type.
pub fn type_text(ty: DataType) -> (s: String)
    ensures
        s@ == debug_type(ty),
{
    match ty {
        DataType::Int => "Int".to_owned(),
        DataType::Text => "Text".to_owned(),
        DataType::Float => "Float".to_owned(),
    }
}

/// Writes a value for a message.
pub fn value_text(v: &Value) -> (s: String)
    ensures
        s@ == debug_value(v@),
{
    match v {
        Value::Int(n) => {
            let d = dec_i64(*n);
            join3("Int(", d.as_str(), ")")
        },
        Value::Float(r) => {
            let d = dec_u64(r.bits);
            join3("Float(Real { bits: ", d.as_str(), " })")
        },
        Value::Text(t) => {
            let d = debug_text(t.as_str());
            join3("Text(", d.as_str(), ")")
        },
        Value::Null => "Null".to_owned(),
    }
}

/// Finds the first `name` among column definitions.
fn find_column(columns: &Vec<ColumnDef>, name: &str) -> (res: Option<usize>)
    ensures
        option_int(res) == position(column_names(columns_view(columns@)), name@, 0),
{
    let ghost names = column_names(columns_view(columns@));
    let mut i: usize = 0;
    while i < columns.len()
        invariant
            i <= columns@.len(),
            names == column_names(columns_view(columns@)),
            position(names, name@, 0) == position(names, name@, i as int),
        decreases columns@.len() - i,
    {
        assert(names[i as int] == columns@[i as int].name@);
        if text_eq(columns[i].name.as_str(), name) {
            return Some(i);
        }
        i = i + 1;
    }
    None
}

impl Schema {
    pub fn new(name: String, columns: Vec<ColumnDef>) -> (schema: Self)
        ensures
            schema@ == new_schema(name@, columns_view(columns@)),
            schema.columns@ == columns@,
    {
        let ghost cols = columns_view(columns@);
        let mut primary_key: Option<String> = None;
        let mut i: usize = 0;
        while i < columns.len() && primary_key.is_none()
            invariant
                i <= columns@.len(),
                cols == columns_view(columns@),
                match primary_key {
                    Some(s) => first_key(cols, 0) == Some(s@),
                    None => first_key(cols, 0) == first_key(cols, i as int),
                },
            decreases columns@.len() - i,
        {
            assert(cols[i as int] == columns@[i as int]@);
            if columns[i].primary_key {
                primary_key = Some(columns[i].name.clone());
            }
            i = i + 1;
        }
        Self { name, columns, primary_key }
    }

    /// Column index by name.
    pub fn col_index(&self, name: &str) -> (res: Option<usize>)
        ensures
            option_int(res) == self@.col(name@),
    {
        find_column(&self.columns, name)
    }

    /// Primary key column index, if any.
    pub fn pk_col_index(&self) -> (res: Option<usize>)
        ensures
            option_int(res) == self@.pk_col(),
    {
        match &self.primary_key {
            Some(name) => self.col_index(name.as_str()),
            None => None,
        }
    }

    /// Serializes a row of values into bytes for storage: each field is prefixed by a one-byte type
    /// tag, a text also by its length.
    pub fn serialize_row(&self, values: &[Value]) -> (res: Result<Vec<u8>, String>)
        ensures
            match (res, serialized(self@.columns, values_view(values@))) {
                (Ok(b), Ok(s)) => b@ == s,
                (Err(e), Err(t)) => e@ == t,
                _ => false,
            },
    {
        let ghost cols = self@.columns;
        let ghost row = values_view(values@);
        if values.len() != self.columns.len() {
            let a = dec_u64(self.columns.len() as u64);
            let b = dec_u64(values.len() as u64);
            return Err(join4("expected ", a.as_str(), " values, got ", b.as_str()));
        }
        let mut buf: Vec<u8> = Vec::new();
        let mut i: usize = 0;
        while i < values.len()
            invariant
                i <= values@.len(),
                values@.len() == self.columns@.len(),
                cols == self@.columns,
                row == values_view(values@),
                serialize_upto(cols, row, i as nat) == Ok::<Seq<u8>, Seq<char>>(buf@),
            decreases values@.len() - i,
        {
            let ty: DataType = self.columns[i].ty;
            assert(cols[i as int] == self.columns@[i as int]@);
            assert(row[i as int] == values@[i as int]@);
            let ghost before = buf@;
            match (&ty, &values[i]) {
                (_, Value::Null) => {
                    buf.push(2);
                },
                (DataType::Int, Value::Int(n)) => {
                    buf.push(0);
                    put_i64(&mut buf, *n);
                },
                (DataType::Text, Value::Text(s)) => {
                    let bytes = s.as_str().as_bytes();
                    buf.push(1);
                    put_u32(&mut buf, (bytes.len() as u64 % 0x1_0000_0000) as u32);
                    put_bytes(&mut buf, bytes);
                },
                (DataType::Float, Value::Float(r)) => {
                    buf.push(3);
                    put_u64(&mut buf, r.bits);
                },
                _ => {
                    let t = type_text(ty);
                    let v = value_text(&values[i]);
                    let head = join4(
                        "type mismatch for column '",
                        self.columns[i].name.as_str(),
                        "': expected ",
                        t.as_str(),
                    );
                    proof {
                        lemma_error_stays(cols, row, (i + 1) as nat, row.len());
                    }
                    return Err(join3(head.as_str(), ", got ", v.as_str()));
                },
            }
            assert(buf@ =~= before + value_bytes(row[i as int]));
            i = i + 1;
        }
        Ok(buf)
    }

    /// Deserializes bytes back into a row of values.
    pub fn deserialize_row(&self, buf: &[u8]) -> (res: Result<Vec<Value>, String>)
        ensures
            match (res, deserialized(self@.columns, buf@)) {
                (Ok(v), Ok(row)) => values_view(v@) == row,
                (Err(e), Err(t)) => e@ == t,
                _ => false,
            },
    {
        let ghost cols = self@.columns;
        let len: usize = buf.len();
        let mut values: Vec<Value> = Vec::new();
        let mut off: usize = 0;
        let mut i: usize = 0;
        assert(values_view(values@) =~= Seq::empty());
        proof {
            match deserialized(cols, buf@) {
                Ok(row) => {
                    assert(Seq::<ValueView>::empty() + row =~= row);
                },
                Err(_) => {},
            }
        }
        while i < self.columns.len()
            invariant
                i <= self.columns@.len(),
                cols == self@.columns,
                len == buf@.len(),
                off <= len,
                match row_from(cols, i as int, buf@, off as int) {
                    Ok(rest) => deserialized(cols, buf@) == Ok::<Seq<ValueView>, Seq<char>>(
                        values_view(values@) + rest,
                    ),
                    Err(e) => deserialized(cols, buf@) == Err::<Seq<ValueView>, Seq<char>>(e),
                },
            decreases self.columns@.len() - i,
        {
            let ty: DataType = self.columns[i].ty;
            assert(cols[i as int] == self.columns@[i as int]@);
            let ghost before = values_view(values@);
            let ghost start = off as int;
            if off >= len {
                return Err("unexpected end of row data".to_owned());
            }
            let tag: u8 = buf[off];
            if tag == 2 {
                off = off + 1;
                values.push(Value::Null);
            } else if tag == 0 && ty == DataType::Int {
                if len - off < 9 {
                    return Err("int read error".to_owned());
                }
                let n: i64 = get_i64(buf, off + 1);
                off = off + 9;
                values.push(Value::Int(n));
            } else if tag == 1 && ty == DataType::Text {
                if len - off < 5 {
                    return Err("text len error".to_owned());
                }
                let n: u32 = get_u32(buf, off + 1);
                if len - off - 5 < n as usize {
                    return Err("text len error".to_owned());
                }
                let bytes = copy_range(buf, off + 5, off + 5 + n as usize);
                match text_from_utf8(bytes) {
                    None => {
                        return Err("utf8 error".to_owned());
                    },
                    Some(s) => {
                        proof {
                            encode_utf8_decode_utf8(s@);
                        }
                        off = off + 5 + n as usize;
                        values.push(Value::Text(s));
                    },
                }
            } else if tag == 3 && ty == DataType::Float {
                if len - off < 9 {
                    return Err("float read error".to_owned());
                }
                let bits: u64 = get_u64(buf, off + 1);
                off = off + 9;
                values.push(Value::Float(Real { bits }));
            } else {
                let d = dec_u64(tag as u64);
                let t = type_text(ty);
                return Err(join4("type tag ", d.as_str(), " doesn't match ", t.as_str()));
            }
            proof {
                let v = values@.last()@;
                assert(value_at(ty, buf@, start) == Ok::<(ValueView, int), Seq<char>>(
                    (v, off as int),
                ));
                assert(values_view(values@) =~= before.push(v));
                match row_from(cols, i + 1, buf@, off as int) {
                    Ok(rest) => {
                        assert(before + (seq![v] + rest) =~= before.push(v) + rest);
                    },
                    Err(_) => {},
                }
            }
            i = i + 1;
        }
        assert(values_view(values@) + Seq::<ValueView>::empty() =~= values_view(values@));
        Ok(values)
    }
}

/// The message for a row's first misfit does not depend on what follows.
proof fn lemma_error_stays(columns: Seq<ColumnView>, row: Seq<ValueView>, n: nat, m: nat)
    requires
        n <= m,
        serialize_upto(columns, row, n) is Err,
    ensures
        serialize_upto(columns, row, m) == serialize_upto(columns, row, n),
    decreases m,
{
    if n < m {
        lemma_error_stays(columns, row, n, (m - 1) as nat);
    }
}

impl Clone for Schema {
    fn clone(&self) -> (s: Self)
        ensures
            s@ == self@,
    {
        let primary_key = match &self.primary_key {
            Some(k) => Some(k.clone()),
            None => None,
        };
        Schema { name: self.name.clone(), columns: clone_columns(&self.columns), primary_key }
    }
}

/// The catalog holds all table schemas and the indexed columns.
#[derive(Debug)]
pub struct Catalog {
    /// The schemas, in the order in which the tables were created.
    pub tables: Vec<Schema>,
    /// Indexed columns, as pairs of table and column name.
    pub index_defs: Vec<(String, String)>,
}

/// The mathematical counterpart of `Catalog`.
#[verifier::ext_equal]
pub struct CatalogView {
    pub tables: Seq<SchemaView>,
    pub index_defs: Seq<(Seq<char>, Seq<char>)>,
}

pub open spec fn schemas_view(s: Seq<Schema>) -> Seq<SchemaView> {
    Seq::new(s.len(), |i: int| s[i]@)
}

pub open spec fn pairs_view(s: Seq<(String, String)>) -> Seq<(Seq<char>, Seq<char>)> {
    Seq::new(s.len(), |i: int| (s[i].0@, s[i].1@))
}

impl View for Catalog {
    type V = CatalogView;

    open spec fn view(&self) -> CatalogView {
        CatalogView {
            tables: schemas_view(self.tables@),
            index_defs: pairs_view(self.index_defs@),
        }
    }
}

/// The names of tables.
pub open spec fn table_names(tables: Seq<SchemaView>) -> Seq<Seq<char>> {
    Seq::new(tables.len(), |i: int| tables[i].name)
}

impl CatalogView {
    /// The schema of the table with this name.
    pub open spec fn get(self, name: Seq<char>) -> Option<SchemaView> {
        match position(table_names(self.tables), name, 0) {
            Some(i) => Some(self.tables[i]),
            None => None,
        }
    }

    /// No two tables have the same name.
    pub open spec fn distinct(self) -> bool {
        forall|i: int, j: int|
            0 <= i < j < self.tables.len() ==> (#[trigger] self.tables[i]).name != (
            #[trigger] self.tables[j]).name
    }
}

impl Catalog {
    pub fn new() -> (c: Self)
        ensures
            c@ == (CatalogView { tables: Seq::empty(), index_defs: Seq::empty() }),
    {
        let c = Self { tables: Vec::new(), index_defs: Vec::new() };
        assert(c@.tables =~= Seq::empty());
        assert(c@.index_defs =~= Seq::empty());
        c
    }

    /// Finds the table with this name.
    pub(crate) fn find(&self, name: &str) -> (res: Option<usize>)
        ensures
            option_int(res) == position(table_names(self@.tables), name@, 0),
    {
        let ghost names = table_names(self@.tables);
        let mut i: usize = 0;
        while i < self.tables.len()
            invariant
                i <= self.tables@.len(),
                names == table_names(self@.tables),
                position(names, name@, 0) == position(names, name@, i as int),
            decreases self.tables@.len() - i,
        {
            assert(names[i as int] == self.tables@[i as int].name@);
            if text_eq(self.tables[i].name.as_str(), name) {
                return Some(i);
            }
            i = i + 1;
        }
        None
    }

    /// Adds a table. Refused if there is one with this name already.
    pub fn create_table(&mut self, schema: Schema) -> (res: Result<(), String>)
        ensures
            match res {
                Ok(_) => {
                    &&& old(self)@.get(schema@.name) is None
                    &&& final(self)@ == (CatalogView {
                        tables: old(self)@.tables.push(schema@),
                        index_defs: old(self)@.index_defs,
                    })
                },
                Err(e) => {
                    &&& old(self)@.get(schema@.name) is Some
                    &&& e@ == msg_table_exists(schema@.name)
                    &&& final(self)@ == old(self)@
                },
            },
            old(self)@.distinct() ==> final(self)@.distinct(),
    {
        proof {
            lemma_position(table_names(self@.tables), schema.name@, 0);
        }
        if self.find(schema.name.as_str()).is_some() {
            return Err(join3("table '", schema.name.as_str(), "' already exists"));
        }
        let ghost before = self@;
        let ghost added = schema@;
        self.tables.push(schema);
        proof {
            assert(self@.tables =~= before.tables.push(added));
            if before.distinct() {
                assert forall|i: int, j: int| 0 <= i < j < self@.tables.len() implies (
                #[trigger] self@.tables[i]).name != (#[trigger] self@.tables[j]).name by {
                    assert(table_names(before.tables)[i] == before.tables[i].name);
                }
            }
        }
        Ok(())
    }

    pub fn get(&self, name: &str) -> (res: Option<&Schema>)
        ensures
            match res {
                Some(s) => self@.get(name@) == Some(s@),
                None => self@.get(name@) is None,
            },
    {
        match self.find(name) {
            Some(i) => {
                proof {
                    lemma_position(table_names(self@.tables), name@, 0);
                }
                Some(&self.tables[i])
            },
            None => None,
        }
    }
}

impl Default for Catalog {
    fn default() -> (c: Self)
        ensures
            c@ == (CatalogView { tables: Seq::empty(), index_defs: Seq::empty() }),
    {
        Catalog::new()
    }
}

/// Copies a list of pairs of names.
pub fn clone_pairs(pairs: &Vec<(String, String)>) -> (copy: Vec<(String, String)>)
    ensures
        pairs_view(copy@) == pairs_view(pairs@),
{
    let mut copy: Vec<(String, String)> = Vec::new();
    let mut i: usize = 0;
    while i < pairs.len()
        invariant
            i <= pairs@.len(),
            copy@.len() == i,
            forall|k: int|
                0 <= k < i ==> (#[trigger] copy@[k]).0@ == pairs@[k].0@ && copy@[k].1@
                    == pairs@[k].1@,
        decreases pairs@.len() - i,
    {
        copy.push((pairs[i].0.clone(), pairs[i].1.clone()));
        i = i + 1;
    }
    assert(pairs_view(copy@) =~= pairs_view(pairs@));
    copy
}

impl Clone for Catalog {
    fn clone(&self) -> (c: Self)
        ensures
            c@ == self@,
    {
        let mut tables: Vec<Schema> = Vec::new();
        let mut i: usize = 0;
        while i < self.tables.len()
            invariant
                i <= self.tables@.len(),
                tables@.len() == i,
                forall|k: int| 0 <= k < i ==> (#[trigger] tables@[k])@ == self.tables@[k]@,
            decreases self.tables@.len() - i,
        {
            tables.push(self.tables[i].clone());
            i = i + 1;
        }
        let c = Catalog { tables, index_defs: clone_pairs(&self.index_defs) };
        assert(c@.tables =~= self@.tables);
        c
    }
}

/// A row that can be read back: each value fits its column and each text has a length that fits
/// its length field.
pub open spec fn storable(columns: Seq<ColumnView>, row: Seq<ValueView>) -> bool {
    &&& row.len() == columns.len()
    &&& forall|i: int|
        0 <= i < row.len() ==> {
            &&& fits(columns[i].ty, #[trigger] row[i])
            &&& (row[i] matches ValueView::Text(s) ==> encode_utf8(s).len() <= u32::MAX)
        }
}

/// A value written at `off` is read back from there.
proof fn lemma_value_back(ty: DataType, v: ValueView, buf: Seq<u8>, off: int)
    requires
        fits(ty, v),
        v matches ValueView::Text(s) ==> encode_utf8(s).len() <= u32::MAX,
        holds_at(buf, off, value_bytes(v)),
    ensures
        value_at(ty, buf, off) == Ok::<(ValueView, int), Seq<char>>(
            (v, off + value_bytes(v).len()),
        ),
{
    let b = value_bytes(v);
    assert(buf[off + 0] == b[0]);
    match v {
        ValueView::Int(n) => {
            let w = le64(bits_of(n));
            assert forall|i: int| 0 <= i < w.len() implies #[trigger] buf[off + 1 + i] == w[i] by {
                assert(buf[off + (1 + i)] == b[1 + i]);
            }
            lemma_un64(buf, off + 1, bits_of(n));
            lemma_signed(n);
        },
        ValueView::Float(bits) => {
            let w = le64(bits);
            assert forall|i: int| 0 <= i < w.len() implies #[trigger] buf[off + 1 + i] == w[i] by {
                assert(buf[off + (1 + i)] == b[1 + i]);
            }
            lemma_un64(buf, off + 1, bits);
        },
        ValueView::Text(s) => {
            let u = encode_utf8(s);
            let n = len32(u.len());
            assert forall|i: int| 0 <= i < 4 implies #[trigger] buf[off + 1 + i] == le32(n)[i] by {
                assert(buf[off + (1 + i)] == b[1 + i]);
            }
            lemma_un32(buf, off + 1, n);
            assert forall|i: int| 0 <= i < u.len() implies #[trigger] buf[off + 5 + i] == u[i] by {
                assert(buf[off + (5 + i)] == b[5 + i]);
            }
            assert(n == u.len());
            let part = buf.subrange(off + 5, off + 5 + n);
            assert forall|i: int| 0 <= i < u.len() implies part[i] == u[i] by {
                assert(part[i] == buf[off + 5 + i]);
            }
            assert(part =~= u);
            encode_utf8_valid_utf8(s);
            encode_utf8_decode_utf8(s);
        },
        ValueView::Null => {},
    }
}

/// The bytes of a row start with those of its first `i` values.
proof fn lemma_row_prefix(row: Seq<ValueView>, i: int)
    requires
        0 <= i < row.len(),
    ensures
        row_bytes(row.take(i + 1)) == row_bytes(row.take(i)) + value_bytes(row[i]),
        row_bytes(row.take(i + 1)).len() <= row_bytes(row).len(),
        forall|k: int|
            0 <= k < row_bytes(row.take(i + 1)).len() ==> #[trigger] row_bytes(row)[k] == row_bytes(
                row.take(i + 1),
            )[k],
    decreases row.len(),
{
    assert(row.take(i + 1).drop_last() =~= row.take(i));
    if i + 1 == row.len() {
        assert(row.take(i + 1) =~= row);
    } else {
        let dl = row.drop_last();
        lemma_row_prefix(dl, i);
        assert(dl.take(i + 1) =~= row.take(i + 1));
    }
}

proof fn lemma_row_back(columns: Seq<ColumnView>, row: Seq<ValueView>, buf: Seq<u8>, i: int)
    requires
        storable(columns, row),
        0 <= i <= row.len(),
        row_bytes(row).len() <= buf.len(),
        forall|k: int| 0 <= k < row_bytes(row).len() ==> #[trigger] buf[k] == row_bytes(row)[k],
    ensures
        row_from(columns, i, buf, row_bytes(row.take(i)).len() as int) == Ok::<
            Seq<ValueView>,
            Seq<char>,
        >(row.skip(i)),
    decreases row.len() - i,
{
    if i < row.len() {
        lemma_row_prefix(row, i);
        let off = row_bytes(row.take(i)).len() as int;
        let b = value_bytes(row[i]);
        assert forall|k: int| 0 <= k < b.len() implies #[trigger] buf[off + k] == b[k] by {
            assert(row_bytes(row)[off + k] == row_bytes(row.take(i + 1))[off + k]);
        }
        assert(fits(columns[i].ty, row[i]));
        lemma_value_back(columns[i].ty, row[i], buf, off);
        lemma_row_back(columns, row, buf, i + 1);
        assert(seq![row[i]] + row.skip(i + 1) =~= row.skip(i));
    } else {
        assert(row.skip(i) =~= Seq::empty());
    }
}

pub proof fn lemma_serialize_ok(columns: Seq<ColumnView>, row: Seq<ValueView>, n: nat)
    requires
        n <= row.len(),
        forall|i: int| 0 <= i < n ==> fits(columns[i].ty, #[trigger] row[i]),
    ensures
        serialize_upto(columns, row, n) == Ok::<Seq<u8>, Seq<char>>(row_bytes(row.take(n as int))),
    decreases n,
{
    if n > 0 {
        lemma_serialize_ok(columns, row, (n - 1) as nat);
        lemma_row_prefix(row, n - 1);
    } else {
        assert(row.take(0) =~= Seq::empty());
    }
}

/// A row that fits its table is written, and reading back what was written gives the row, whatever
/// bytes follow it.
pub proof fn law_row_round_trip(columns: Seq<ColumnView>, row: Seq<ValueView>, tail: Seq<u8>)
    requires
        storable(columns, row),
    ensures
        serialized(columns, row) == Ok::<Seq<u8>, Seq<char>>(row_bytes(row)),
        deserialized(columns, row_bytes(row) + tail) == Ok::<Seq<ValueView>, Seq<char>>(row),
{
    lemma_serialize_ok(columns, row, row.len());
    assert(row.take(row.len() as int) =~= row);
    lemma_row_back(columns, row, row_bytes(row) + tail, 0);
    assert(row.take(0) =~= Seq::empty());
    assert(row.skip(0) =~= row);
}

proof fn lemma_row_len(columns: Seq<ColumnView>, buf: Seq<u8>, i: int, off: int)
    requires
        0 <= i <= columns.len(),
    ensures
        match row_from(columns, i, buf, off) {
            Ok(row) => {
                &&& row.len() == columns.len() - i
                &&& forall|k: int| 0 <= k < row.len() ==> fits(columns[i + k].ty, #[trigger] row[k])
            },
            Err(_) => true,
        },
    decreases columns.len() - i,
{
    if i < columns.len() {
        match value_at(columns[i].ty, buf, off) {
            Ok((v, next)) => {
                lemma_row_len(columns, buf, i + 1, next);
                match row_from(columns, i + 1, buf, next) {
                    Ok(rest) => {
                        let row = seq![v] + rest;
                        assert forall|k: int| 0 <= k < row.len() implies fits(
                            columns[i + k].ty,
                            #[trigger] row[k],
                        ) by {
                            if k > 0 {
                                assert(row[k] == rest[k - 1]);
                            }
                        }
                    },
                    Err(_) => {},
                }
            },
            Err(_) => {},
        }
    }
}

proof fn lemma_row_cons(v: ValueView, rest: Seq<ValueView>)
    ensures
        row_bytes(seq![v] + rest) == value_bytes(v) + row_bytes(rest),
    decreases rest.len(),
{
    let row = seq![v] + rest;
    if rest.len() == 0 {
        assert(row.drop_last() =~= Seq::empty());
        assert(row.last() == v);
        assert(row_bytes(row.drop_last()) =~= Seq::<u8>::empty());
        assert(row_bytes(rest) =~= Seq::<u8>::empty());
        assert(row_bytes(row) =~= value_bytes(v) + row_bytes(rest));
    } else {
        lemma_row_cons(v, rest.drop_last());
        assert(row.drop_last() =~= seq![v] + rest.drop_last());
        assert(row_bytes(row) =~= value_bytes(v) + row_bytes(rest));
    }
}

proof fn lemma_row_size_from(columns: Seq<ColumnView>, buf: Seq<u8>, i: int, off: int)
    requires
        0 <= i <= columns.len(),
        0 <= off <= buf.len(),
    ensures
        row_from(columns, i, buf, off) matches Ok(row) ==> off + row_bytes(row).len() <= buf.len(),
    decreases columns.len() - i,
{
    if i < columns.len() {
        if let Ok((v, next)) = value_at(columns[i].ty, buf, off) {
            if let ValueView::Text(_) = v {
                let n = un32(buf, off + 1);
                decode_utf8_encode_utf8(buf.subrange(off + 5, off + 5 + n));
            }
            assert(next == off + value_bytes(v).len());
            lemma_row_size_from(columns, buf, i + 1, next);
            if let Ok(rest) = row_from(columns, i + 1, buf, next) {
                lemma_row_cons(v, rest);
            }
        }
    }
}

/// A row is stored in at least as many bytes as its values take.
pub proof fn lemma_row_size(columns: Seq<ColumnView>, buf: Seq<u8>)
    ensures
        deserialized(columns, buf) matches Ok(row) ==> row_bytes(row).len() <= buf.len(),
{
    lemma_row_size_from(columns, buf, 0, 0);
}

/// A row that was read has one value per column, each fitting its column.
pub proof fn law_row_fits(columns: Seq<ColumnView>, buf: Seq<u8>)
    ensures
        match deserialized(columns, buf) {
            Ok(row) => {
                &&& row.len() == columns.len()
                &&& forall|k: int| 0 <= k < row.len() ==> fits(columns[k].ty, #[trigger] row[k])
            },
            Err(_) => true,
        },
{
    lemma_row_len(columns, buf, 0, 0);
}

/// Where the primary key of a new table is.
pub proof fn lemma_key_column(name: Seq<char>, columns: Seq<ColumnView>)
    ensures
        ({
            let s = new_schema(name, columns);
            s.primary_key matches Some(key) ==> {
                &&& s.pk_col() is Some
                &&& 0 <= s.pk_col()->0 < columns.len()
                &&& columns[s.pk_col()->0].name == key
            }
        }),
{
    let s = new_schema(name, columns);
    if let Some(key) = s.primary_key {
        lemma_first_key(columns, 0);
        let names = column_names(columns);
        lemma_position(names, key, 0);
        let i = choose|i: int| 0 <= i < columns.len() && columns[i].name == key;
        assert(names[i] == key);
        assert(names[s.pk_col()->0] == columns[s.pk_col()->0].name);
    }
}

proof fn lemma_first_key(columns: Seq<ColumnView>, i: int)
    requires
        0 <= i,
    ensures
        first_key(columns, i) matches Some(key) ==> exists|k: int|
            0 <= k < columns.len() && (#[trigger] columns[k]).name == key,
    decreases columns.len() - i,
{
    if i < columns.len() && !columns[i].primary_key {
        lemma_first_key(columns, i + 1);
    }
}

} // verus!
