//! The catalog as the bytes of `catalog.bin`.
//!
//! Format (binary, little-endian):
//!
//! ```text
//! [u32::MAX][version: u8 = 2]
//! [num_tables: u32]
//! for each table:
//!   [name_len: u32][name_bytes]
//!   [num_cols: u32]
//!   for each column:
//!     [col_name_len: u32][col_name_bytes]
//!     [type_tag: u8]   (0 = INT, 1 = TEXT, 2 = FLOAT)
//!     [primary_key: u8]
//! [num_indexes: u32]
//! for each index:
//!   [table_len: u32][table_bytes][column_len: u32][column_bytes]
//! ```
//!
//! Version 1 has neither the magic number and version byte, nor primary key flags, nor indexes.
use crate::bytes::{copy_range, get_u32, holds_at, le32, lemma_un32, put_bytes, put_u32, un32};
use crate::engine::catalog::{
    lemma_position, len32, new_schema, pairs_view, position, table_names, Catalog, CatalogView,
    Schema, SchemaView,
};
use crate::recovery::log_record::{has_sized, lemma_sized_back, sized, sized_at};
use crate::sql::ast::{columns_view, ColumnDef, ColumnView, DataType};
use crate::text::{dec, dec_u64, join2, join3, text_from_utf8};
use vstd::prelude::*;
use vstd::string::*;
use vstd::utf8::{
    decode_utf8, encode_utf8, encode_utf8_decode_utf8, encode_utf8_valid_utf8, valid_utf8,
};

verus! {

/// A name after its length.
pub open spec fn text_bytes(s: Seq<char>) -> Seq<u8> {
    sized(encode_utf8(s))
}

pub open spec fn type_tag(ty: DataType) -> u8 {
    match ty {
        DataType::Int => 0,
        DataType::Text => 1,
        DataType::Float => 2,
    }
}

pub open spec fn col_bytes(c: ColumnView) -> Seq<u8> {
    text_bytes(c.name) + seq![
        type_tag(c.ty),
        if c.primary_key {
            1u8
        } else {
            0u8
        },
    ]
}

/// The columns from position `i` on.
pub open spec fn cols_bytes(cs: Seq<ColumnView>, i: int) -> Seq<u8>
    decreases cs.len() - i,
{
    if i < 0 || i >= cs.len() {
        Seq::empty()
    } else {
        col_bytes(cs[i]) + cols_bytes(cs, i + 1)
    }
}

pub open spec fn schema_bytes(s: SchemaView) -> Seq<u8> {
    text_bytes(s.name) + (le32(len32(s.columns.len())) + cols_bytes(s.columns, 0))
}

/// The schemas from position `i` on.
pub open spec fn schemas_bytes(ts: Seq<SchemaView>, i: int) -> Seq<u8>
    decreases ts.len() - i,
{
    if i < 0 || i >= ts.len() {
        Seq::empty()
    } else {
        schema_bytes(ts[i]) + schemas_bytes(ts, i + 1)
    }
}

/// The index definitions from position `i` on.
pub open spec fn defs_bytes(ds: Seq<(Seq<char>, Seq<char>)>, i: int) -> Seq<u8>
    decreases ds.len() - i,
{
    if i < 0 || i >= ds.len() {
        Seq::empty()
    } else {
        text_bytes(ds[i].0) + (text_bytes(ds[i].1) + defs_bytes(ds, i + 1))
    }
}

/// The bytes of a catalog.
pub open spec fn catalog_bytes(c: CatalogView) -> Seq<u8> {
    le32(u32::MAX) + (seq![2u8] + (le32(len32(c.tables.len())) + (schemas_bytes(c.tables, 0) + (
    le32(len32(c.index_defs.len())) + defs_bytes(c.index_defs, 0)))))
}

/// The number at `off`, with the place after it.
pub open spec fn num_at(buf: Seq<u8>, off: int) -> Result<(u32, int), Seq<char>> {
    if off + 4 > buf.len() {
        Err("catalog truncated"@)
    } else {
        Ok((un32(buf, off), off + 4))
    }
}

/// The name at `off`, with the place after it.
pub open spec fn text_at(buf: Seq<u8>, off: int) -> Result<(Seq<char>, int), Seq<char>> {
    if off + 4 > buf.len() {
        Err("catalog truncated"@)
    } else if !has_sized(buf, off) {
        Err("catalog string truncated"@)
    } else if !valid_utf8(sized_at(buf, off)) {
        Err("invalid utf8 in catalog"@)
    } else {
        Ok((decode_utf8(sized_at(buf, off)), off + 4 + un32(buf, off)))
    }
}

pub open spec fn msg_unknown_tag(tag: u8) -> Seq<char> {
    "unknown type tag "@ + dec(tag as nat) + " in catalog"@
}

/// The type with this tag.
pub open spec fn type_of_tag(tag: u8) -> Option<DataType> {
    if tag == 0 {
        Some(DataType::Int)
    } else if tag == 1 {
        Some(DataType::Text)
    } else if tag == 2 {
        Some(DataType::Float)
    } else {
        None
    }
}

/// The column at `off`, with the place after it.
pub open spec fn col_at(version: u8, buf: Seq<u8>, off: int) -> Result<
    (ColumnView, int),
    Seq<char>,
> {
    match text_at(buf, off) {
        Err(e) => Err(e),
        Ok((name, o)) => if o >= buf.len() {
            Err("catalog col type missing"@)
        } else {
            match type_of_tag(buf[o]) {
                None => Err(msg_unknown_tag(buf[o])),
                Some(ty) => if version < 2 {
                    Ok((ColumnView { name, ty, primary_key: false }, o + 1))
                } else if o + 1 >= buf.len() {
                    Err("catalog pk flag missing"@)
                } else {
                    Ok((ColumnView { name, ty, primary_key: buf[o + 1] == 1 }, o + 2))
                },
            }
        },
    }
}

/// `n` columns from `off` on, with the place after them.
pub open spec fn cols_at(version: u8, buf: Seq<u8>, off: int, n: nat) -> Result<
    (Seq<ColumnView>, int),
    Seq<char>,
>
    decreases n,
{
    if n == 0 {
        Ok((Seq::empty(), off))
    } else {
        match col_at(version, buf, off) {
            Err(e) => Err(e),
            Ok((c, o)) => match cols_at(version, buf, o, (n - 1) as nat) {
                Err(e) => Err(e),
                Ok((rest, p)) => Ok((seq![c] + rest, p)),
            },
        }
    }
}

/// The schema at `off`, with the place after it.
pub open spec fn schema_at(version: u8, buf: Seq<u8>, off: int) -> Result<
    (SchemaView, int),
    Seq<char>,
> {
    match text_at(buf, off) {
        Err(e) => Err(e),
        Ok((name, o)) => match num_at(buf, o) {
            Err(e) => Err(e),
            Ok((n, p)) => match cols_at(version, buf, p, n as nat) {
                Err(e) => Err(e),
                Ok((cols, q)) => Ok((new_schema(name, cols), q)),
            },
        },
    }
}

/// `n` schemas from `off` on, with the place after them.
pub open spec fn schemas_at(version: u8, buf: Seq<u8>, off: int, n: nat) -> Result<
    (Seq<SchemaView>, int),
    Seq<char>,
>
    decreases n,
{
    if n == 0 {
        Ok((Seq::empty(), off))
    } else {
        match schema_at(version, buf, off) {
            Err(e) => Err(e),
            Ok((s, o)) => match schemas_at(version, buf, o, (n - 1) as nat) {
                Err(e) => Err(e),
                Ok((rest, p)) => Ok((seq![s] + rest, p)),
            },
        }
    }
}

/// `n` index definitions from `off` on.
pub open spec fn defs_at(buf: Seq<u8>, off: int, n: nat) -> Result<
    Seq<(Seq<char>, Seq<char>)>,
    Seq<char>,
>
    decreases n,
{
    if n == 0 {
        Ok(Seq::empty())
    } else {
        match text_at(buf, off) {
            Err(e) => Err(e),
            Ok((t, o)) => match text_at(buf, o) {
                Err(e) => Err(e),
                Ok((c, p)) => match defs_at(buf, p, (n - 1) as nat) {
                    Err(e) => Err(e),
                    Ok(rest) => Ok(seq![(t, c)] + rest),
                },
            },
        }
    }
}

/// The tables after `s` was added; it takes the place of a table with the same name.
pub open spec fn table_put(ts: Seq<SchemaView>, s: SchemaView) -> Seq<SchemaView> {
    match position(table_names(ts), s.name, 0) {
        Some(i) => ts.update(i, s),
        None => ts.push(s),
    }
}

/// The tables after the schemas of `ss` from position `i` on were added.
pub open spec fn table_put_all(ts: Seq<SchemaView>, ss: Seq<SchemaView>, i: int) -> Seq<SchemaView>
    decreases ss.len() - i,
{
    if i < 0 || i >= ss.len() {
        ts
    } else {
        table_put_all(table_put(ts, ss[i]), ss, i + 1)
    }
}

/// Where the table count stands and which version it is, or the message that says why there is
/// none.
pub open spec fn catalog_head(buf: Seq<u8>) -> Result<(u8, u32, int), Seq<char>> {
    match num_at(buf, 0) {
        Err(e) => Err(e),
        Ok((first, _)) => if first != u32::MAX {
            Ok((1, first, 4))
        } else if buf.len() <= 4 {
            Err("catalog version missing"@)
        } else {
            match num_at(buf, 5) {
                Err(e) => Err(e),
                Ok((n, _)) => Ok((buf[4], n, 9)),
            }
        },
    }
}

/// The catalog that `buf` holds, or the message that says why there is none.
#[verifier::opaque]
pub open spec fn catalog_of(buf: Seq<u8>) -> Result<CatalogView, Seq<char>> {
    match catalog_head(buf) {
        Err(e) => Err(e),
        Ok((version, n, off)) => match schemas_at(version, buf, off, n as nat) {
            Err(e) => Err(e),
            Ok((ss, o)) => {
                let tables = table_put_all(Seq::empty(), ss, 0);
                if version < 2 || o >= buf.len() {
                    Ok(CatalogView { tables, index_defs: Seq::empty() })
                } else {
                    match num_at(buf, o) {
                        Err(e) => Err(e),
                        Ok((m, p)) => match defs_at(buf, p, m as nat) {
                            Err(e) => Err(e),
                            Ok(index_defs) => Ok(CatalogView { tables, index_defs }),
                        },
                    }
                }
            },
        },
    }
}

proof fn lemma_schemas_new(version: u8, buf: Seq<u8>, off: int, n: nat)
    ensures
        schemas_at(version, buf, off, n) matches Ok((ss, _)) ==> all_new(ss),
    decreases n,
{
    if n > 0 {
        if let Ok((s, o)) = schema_at(version, buf, off) {
            lemma_schemas_new(version, buf, o, (n - 1) as nat);
            if let Ok((rest, _)) = schemas_at(version, buf, o, (n - 1) as nat) {
                let ss = seq![s] + rest;
                assert forall|i: int| 0 <= i < ss.len() implies (#[trigger] ss[i]) == new_schema(
                    ss[i].name,
                    ss[i].columns,
                ) by {
                    if i > 0 {
                        assert(ss[i] == rest[i - 1]);
                    }
                }
            }
        }
    }
}

proof fn lemma_put_all_new(ts: Seq<SchemaView>, ss: Seq<SchemaView>, i: int)
    requires
        all_new(ts),
        all_new(ss),
    ensures
        all_new(table_put_all(ts, ss, i)),
    decreases ss.len() - i,
{
    if 0 <= i < ss.len() {
        lemma_position(table_names(ts), ss[i].name, 0);
        assert(all_new(table_put(ts, ss[i])));
        lemma_put_all_new(table_put(ts, ss[i]), ss, i + 1);
    }
}

/// Every schema is that of a new table.
pub open spec fn all_new(ss: Seq<SchemaView>) -> bool {
    forall|i: int|
        0 <= i < ss.len() ==> (#[trigger] ss[i]) == new_schema(ss[i].name, ss[i].columns)
}

/// Every schema of a catalog that was read is that of a new table.
pub proof fn lemma_catalog_new(buf: Seq<u8>)
    ensures
        catalog_of(buf) matches Ok(c) ==> all_new(c.tables),
{
    reveal(catalog_of);
    if let Ok((version, n, off)) = catalog_head(buf) {
        lemma_schemas_new(version, buf, off, n as nat);
        if let Ok((ss, _)) = schemas_at(version, buf, off, n as nat) {
            lemma_put_all_new(Seq::empty(), ss, 0);
        }
    }
}

/// Turns the catalog into the bytes of its file and back.
pub struct CatalogStore {
    path: String,
}

fn put_text(buf: &mut Vec<u8>, s: &str)
    ensures
        final(buf)@ == old(buf)@ + text_bytes(s@),
{
    let bytes = s.as_bytes();
    put_u32(buf, (bytes.len() as u64 % 0x1_0000_0000) as u32);
    put_bytes(buf, bytes);
    assert(buf@ =~= old(buf)@ + text_bytes(s@));
}

fn put_schema(buf: &mut Vec<u8>, schema: &Schema)
    ensures
        final(buf)@ == old(buf)@ + schema_bytes(schema@),
{
    let ghost cs = schema@.columns;
    put_text(buf, schema.name.as_str());
    put_u32(buf, (schema.columns.len() as u64 % 0x1_0000_0000) as u32);
    let ghost head = buf@;
    let mut i: usize = 0;
    while i < schema.columns.len()
        invariant
            i <= schema.columns@.len(),
            cs == schema@.columns,
            head + cols_bytes(cs, 0) == buf@ + cols_bytes(cs, i as int),
        decreases schema.columns@.len() - i,
    {
        let ghost before = buf@;
        assert(cs[i as int] == schema.columns@[i as int]@);
        put_text(buf, schema.columns[i].name.as_str());
        buf.push(
            match schema.columns[i].ty {
                DataType::Int => 0,
                DataType::Text => 1,
                DataType::Float => 2,
            },
        );
        buf.push(
            if schema.columns[i].primary_key {
                1
            } else {
                0
            },
        );
        assert(buf@ =~= before + col_bytes(cs[i as int]));
        assert(before + (col_bytes(cs[i as int]) + cols_bytes(cs, i + 1)) =~= buf@ + cols_bytes(
            cs,
            i + 1,
        ));
        i = i + 1;
    }
    assert(buf@ + Seq::<u8>::empty() =~= buf@);
    assert(buf@ =~= old(buf)@ + schema_bytes(schema@));
}

impl CatalogStore {
    pub fn new(data_dir: &str) -> (s: Self)
        ensures
            s.file_path() == data_dir@ + "/catalog.bin"@,
    {
        Self { path: join2(data_dir, "/catalog.bin") }
    }

    /// The path of the catalog file.
    pub closed spec fn file_path(&self) -> Seq<char> {
        self.path@
    }

    /// The path of the catalog file.
    pub fn path(&self) -> (p: &str)
        ensures
            p@ == self.file_path(),
    {
        self.path.as_str()
    }

    /// The bytes to write to the catalog file.
    pub fn save(&self, catalog: &Catalog) -> (buf: Vec<u8>)
        ensures
            buf@ == catalog_bytes(catalog@),
    {
        let ghost ts = catalog@.tables;
        let ghost ds = catalog@.index_defs;
        let mut buf: Vec<u8> = Vec::new();
        put_u32(&mut buf, u32::MAX);
        buf.push(2);
        put_u32(&mut buf, (catalog.tables.len() as u64 % 0x1_0000_0000) as u32);
        let ghost head = buf@;
        assert(head =~= le32(u32::MAX) + seq![2u8] + le32(len32(ts.len())));
        let mut i: usize = 0;
        while i < catalog.tables.len()
            invariant
                i <= catalog.tables@.len(),
                ts == catalog@.tables,
                head + schemas_bytes(ts, 0) == buf@ + schemas_bytes(ts, i as int),
            decreases catalog.tables@.len() - i,
        {
            let ghost before = buf@;
            assert(ts[i as int] == catalog.tables@[i as int]@);
            put_schema(&mut buf, &catalog.tables[i]);
            assert(before + (schema_bytes(ts[i as int]) + schemas_bytes(ts, i + 1)) =~= buf@
                + schemas_bytes(ts, i + 1));
            i = i + 1;
        }
        assert(buf@ + Seq::<u8>::empty() =~= buf@);
        put_u32(&mut buf, (catalog.index_defs.len() as u64 % 0x1_0000_0000) as u32);
        let ghost middle = buf@;
        let mut i: usize = 0;
        while i < catalog.index_defs.len()
            invariant
                i <= catalog.index_defs@.len(),
                ds == catalog@.index_defs,
                middle + defs_bytes(ds, 0) == buf@ + defs_bytes(ds, i as int),
            decreases catalog.index_defs@.len() - i,
        {
            let ghost before = buf@;
            assert(ds[i as int] == (
                catalog.index_defs@[i as int].0@,
                catalog.index_defs@[i as int].1@,
            ));
            put_text(&mut buf, catalog.index_defs[i].0.as_str());
            put_text(&mut buf, catalog.index_defs[i].1.as_str());
            assert(before + (text_bytes(ds[i as int].0) + (text_bytes(ds[i as int].1) + defs_bytes(
                ds,
                i + 1,
            ))) =~= buf@ + defs_bytes(ds, i + 1));
            i = i + 1;
        }
        assert(buf@ + Seq::<u8>::empty() =~= buf@);
        assert(buf@ =~= catalog_bytes(catalog@));
        buf
    }

    /// The catalog in the bytes of the catalog file; an empty one if there is no file yet.
    #[verifier::loop_isolation(false)]
    pub fn load(&self, file: Option<&[u8]>) -> (res: Result<Catalog, String>)
        ensures
            match file {
                None => res is Ok && res->Ok_0@ == (CatalogView {
                    tables: Seq::empty(),
                    index_defs: Seq::empty(),
                }),
                Some(buf) => match (res, catalog_of(buf@)) {
                    (Ok(c), Ok(v)) => c@ == v,
                    (Err(e), Err(t)) => e@ == t,
                    _ => false,
                },
            },
            res is Ok ==> res->Ok_0@.distinct(),
    {
        proof {
            reveal(catalog_of);
        }
        let mut catalog = Catalog::new();
        let buf = match file {
            None => {
                return Ok(catalog);
            },
            Some(b) => b,
        };
        let len: usize = buf.len();
        let first: u32 = match read_num(buf, 0) {
            Err(e) => {
                return Err(e);
            },
            Ok((n, _)) => n,
        };
        let mut version: u8 = 1;
        let mut num_tables: u32 = first;
        let mut off: usize = 4;
        if first == u32::MAX {
            if len <= 4 {
                return Err("catalog version missing".to_owned());
            }
            version = buf[4];
            match read_num(buf, 5) {
                Err(e) => {
                    return Err(e);
                },
                Ok((n, _)) => {
                    num_tables = n;
                },
            }
            off = 9;
        }
        assert(catalog_head(buf@) == Ok::<(u8, u32, int), Seq<char>>(
            (version, num_tables, off as int),
        ));
        let ghost start = off as int;
        let mut i: u32 = 0;
        while i < num_tables
            invariant
                len == buf@.len(),
                off <= len,
                i <= num_tables,
                catalog@.distinct(),
                catalog@.index_defs == Seq::<(Seq<char>, Seq<char>)>::empty(),
                match schemas_at(version, buf@, start, num_tables as nat) {
                    Err(e) => schemas_at(version, buf@, off as int, (num_tables - i) as nat) == Err::<
                        (Seq<SchemaView>, int),
                        Seq<char>,
                    >(e),
                    Ok((ss, o)) => match schemas_at(
                        version,
                        buf@,
                        off as int,
                        (num_tables - i) as nat,
                    ) {
                        Err(_) => false,
                        Ok((rest, p)) => p == o && table_put_all(Seq::empty(), ss, 0)
                            == table_put_all(catalog@.tables, rest, 0),
                    },
                },
            decreases num_tables - i,
        {
            let ghost tables = catalog@.tables;
            let (schema, next) = match read_schema(buf, off, version) {
                Err(e) => {
                    return Err(e);
                },
                Ok(pair) => pair,
            };
            let ghost sv = schema@;
            put_table(&mut catalog, schema);
            proof {
                match schemas_at(version, buf@, next as int, (num_tables - i - 1) as nat) {
                    Ok((rest, p)) => {
                        let list = seq![sv] + rest;
                        lemma_put_all_shift(table_put(tables, sv), list, rest, 1);
                        assert(list[0] == sv);
                    },
                    Err(_) => {},
                }
            }
            off = next;
            i = i + 1;
        }
        if version >= 2 && off < len {
            let (m, next) = match read_num(buf, off) {
                Err(e) => {
                    return Err(e);
                },
                Ok(pair) => pair,
            };
            let mut defs: Vec<(String, String)> = Vec::new();
            let mut pos: usize = next;
            let mut k: u32 = 0;
            assert(pairs_view(defs@) =~= Seq::empty());
            proof {
                match defs_at(buf@, next as int, m as nat) {
                    Ok(all) => {
                        assert(Seq::<(Seq<char>, Seq<char>)>::empty() + all =~= all);
                    },
                    Err(_) => {},
                }
            }
            while k < m
                invariant
                    len == buf@.len(),
                    pos <= len,
                    k <= m,
                    match defs_at(buf@, next as int, m as nat) {
                        Err(e) => defs_at(buf@, pos as int, (m - k) as nat) == Err::<
                            Seq<(Seq<char>, Seq<char>)>,
                            Seq<char>,
                        >(e),
                        Ok(all) => match defs_at(buf@, pos as int, (m - k) as nat) {
                            Err(_) => false,
                            Ok(rest) => all == pairs_view(defs@) + rest,
                        },
                    },
                decreases m - k,
            {
                let ghost before = pairs_view(defs@);
                let (t, o) = match read_text(buf, pos) {
                    Err(e) => {
                        return Err(e);
                    },
                    Ok(pair) => pair,
                };
                let (c, p) = match read_text(buf, o) {
                    Err(e) => {
                        return Err(e);
                    },
                    Ok(pair) => pair,
                };
                let ghost d = (t@, c@);
                defs.push((t, c));
                proof {
                    assert(pairs_view(defs@) =~= before.push(d));
                    match defs_at(buf@, p as int, (m - k - 1) as nat) {
                        Ok(rest) => {
                            assert(before + (seq![d] + rest) =~= before.push(d) + rest);
                        },
                        Err(_) => {},
                    }
                }
                pos = p;
                k = k + 1;
            }
            assert(pairs_view(defs@) + Seq::<(Seq<char>, Seq<char>)>::empty() =~= pairs_view(
                defs@,
            ));
            catalog.index_defs = defs;
        }
        Ok(catalog)
    }
}

proof fn lemma_put_all_shift(
    ts: Seq<SchemaView>,
    list: Seq<SchemaView>,
    rest: Seq<SchemaView>,
    i: int,
)
    requires
        1 <= i <= list.len(),
        list.len() == rest.len() + 1,
        forall|k: int| 0 <= k < rest.len() ==> list[k + 1] == #[trigger] rest[k],
    ensures
        table_put_all(ts, list, i) == table_put_all(ts, rest, i - 1),
    decreases list.len() - i,
{
    if i < list.len() {
        assert(list[(i - 1) + 1] == rest[i - 1]);
        lemma_put_all_shift(table_put(ts, list[i]), list, rest, i + 1);
    }
}

/// Adds a table, in place of one with the same name.
fn put_table(catalog: &mut Catalog, schema: Schema)
    ensures
        final(catalog)@ == (CatalogView {
            tables: table_put(old(catalog)@.tables, schema@),
            index_defs: old(catalog)@.index_defs,
        }),
        old(catalog)@.distinct() ==> final(catalog)@.distinct(),
{
    let ghost before = catalog@;
    let ghost added = schema@;
    proof {
        lemma_position(table_names(before.tables), schema.name@, 0);
    }
    match catalog.find(schema.name.as_str()) {
        Some(i) => {
            catalog.tables.set(i, schema);
            proof {
                assert(catalog@.tables =~= before.tables.update(i as int, added));
                assert(catalog@.index_defs =~= before.index_defs);
                if before.distinct() {
                    assert forall|a: int, b: int| 0 <= a < b < catalog@.tables.len() implies (
                    #[trigger] catalog@.tables[a]).name != (#[trigger] catalog@.tables[b]).name by {
                        assert(table_names(before.tables)[i as int] == before.tables[i as int].name);
                        assert(before.tables[a].name != before.tables[b].name);
                    }
                }
            }
        },
        None => {
            catalog.tables.push(schema);
            proof {
                assert(catalog@.tables =~= before.tables.push(added));
                assert(catalog@.index_defs =~= before.index_defs);
                if before.distinct() {
                    assert forall|a: int, b: int| 0 <= a < b < catalog@.tables.len() implies (
                    #[trigger] catalog@.tables[a]).name != (#[trigger] catalog@.tables[b]).name by {
                        assert(table_names(before.tables)[a] == before.tables[a].name);
                    }
                }
            }
        },
    }
}

fn read_num(buf: &[u8], off: usize) -> (res: Result<(u32, usize), String>)
    ensures
        match (res, num_at(buf@, off as int)) {
            (Ok((n, o)), Ok((m, p))) => n == m && o == p && o <= buf@.len(),
            (Err(e), Err(t)) => e@ == t,
            _ => false,
        },
{
    let len: usize = buf.len();
    if off > len || len - off < 4 {
        return Err("catalog truncated".to_owned());
    }
    Ok((get_u32(buf, off), off + 4))
}

fn read_text(buf: &[u8], off: usize) -> (res: Result<(String, usize), String>)
    ensures
        match (res, text_at(buf@, off as int)) {
            (Ok((s, o)), Ok((t, p))) => s@ == t && o == p && o <= buf@.len(),
            (Err(e), Err(t)) => e@ == t,
            _ => false,
        },
{
    let len: usize = buf.len();
    if off > len || len - off < 4 {
        return Err("catalog truncated".to_owned());
    }
    let n: usize = get_u32(buf, off) as usize;
    if len - off - 4 < n {
        return Err("catalog string truncated".to_owned());
    }
    let bytes = copy_range(buf, off + 4, off + 4 + n);
    match text_from_utf8(bytes) {
        None => Err("invalid utf8 in catalog".to_owned()),
        Some(s) => {
            proof {
                encode_utf8_decode_utf8(s@);
            }
            Ok((s, off + 4 + n))
        },
    }
}

fn read_column(buf: &[u8], off: usize, version: u8) -> (res: Result<(ColumnDef, usize), String>)
    ensures
        match (res, col_at(version, buf@, off as int)) {
            (Ok((c, o)), Ok((v, p))) => c@ == v && o == p && o <= buf@.len(),
            (Err(e), Err(t)) => e@ == t,
            _ => false,
        },
{
    let len: usize = buf.len();
    let (name, o) = match read_text(buf, off) {
        Err(e) => {
            return Err(e);
        },
        Ok(pair) => pair,
    };
    if o >= len {
        return Err("catalog col type missing".to_owned());
    }
    let tag: u8 = buf[o];
    let ty: DataType = if tag == 0 {
        DataType::Int
    } else if tag == 1 {
        DataType::Text
    } else if tag == 2 {
        DataType::Float
    } else {
        let d = dec_u64(tag as u64);
        return Err(join3("unknown type tag ", d.as_str(), " in catalog"));
    };
    if version < 2 {
        return Ok((ColumnDef { name, ty, primary_key: false }, o + 1));
    }
    if o + 1 >= len {
        return Err("catalog pk flag missing".to_owned());
    }
    let primary_key = buf[o + 1] == 1;
    Ok((ColumnDef { name, ty, primary_key }, o + 2))
}

#[verifier::loop_isolation(false)]
fn read_schema(buf: &[u8], off: usize, version: u8) -> (res: Result<(Schema, usize), String>)
    ensures
        match (res, schema_at(version, buf@, off as int)) {
            (Ok((s, o)), Ok((v, p))) => s@ == v && o == p && o <= buf@.len(),
            (Err(e), Err(t)) => e@ == t,
            _ => false,
        },
{
    let len: usize = buf.len();
    let (name, o) = match read_text(buf, off) {
        Err(e) => {
            return Err(e);
        },
        Ok(pair) => pair,
    };
    let (n, start) = match read_num(buf, o) {
        Err(e) => {
            return Err(e);
        },
        Ok(pair) => pair,
    };
    let mut columns: Vec<ColumnDef> = Vec::new();
    let mut pos: usize = start;
    let mut i: u32 = 0;
    assert(columns_view(columns@) =~= Seq::empty());
    proof {
        match cols_at(version, buf@, start as int, n as nat) {
            Ok((all, _)) => {
                assert(Seq::<ColumnView>::empty() + all =~= all);
            },
            Err(_) => {},
        }
    }
    while i < n
        invariant
            len == buf@.len(),
            pos <= len,
            i <= n,
            match cols_at(version, buf@, start as int, n as nat) {
                Err(e) => cols_at(version, buf@, pos as int, (n - i) as nat) == Err::<
                    (Seq<ColumnView>, int),
                    Seq<char>,
                >(e),
                Ok((all, q)) => match cols_at(version, buf@, pos as int, (n - i) as nat) {
                    Err(_) => false,
                    Ok((rest, p)) => p == q && all == columns_view(columns@) + rest,
                },
            },
        decreases n - i,
    {
        let ghost before = columns_view(columns@);
        let (column, next) = match read_column(buf, pos, version) {
            Err(e) => {
                return Err(e);
            },
            Ok(pair) => pair,
        };
        let ghost c = column@;
        columns.push(column);
        proof {
            assert(columns_view(columns@) =~= before.push(c));
            match cols_at(version, buf@, next as int, (n - i - 1) as nat) {
                Ok((rest, _)) => {
                    assert(before + (seq![c] + rest) =~= before.push(c) + rest);
                },
                Err(_) => {},
            }
        }
        pos = next;
        i = i + 1;
    }
    assert(columns_view(columns@) + Seq::<ColumnView>::empty() =~= columns_view(columns@));
    Ok((Schema::new(name, columns), pos))
}

/// A name whose length fits its length field.
pub open spec fn short(s: Seq<char>) -> bool {
    encode_utf8(s).len() <= u32::MAX
}

/// A catalog whose counts and lengths fit their fields, without two tables of the same name, and
/// with each primary key being the first column marked so.
pub open spec fn saveable(c: CatalogView) -> bool {
    &&& c.distinct()
    &&& c.tables.len() <= u32::MAX
    &&& c.index_defs.len() <= u32::MAX
    &&& forall|i: int| 0 <= i < c.tables.len() ==> schema_saveable(#[trigger] c.tables[i])
    &&& forall|i: int|
        0 <= i < c.index_defs.len() ==> short((#[trigger] c.index_defs[i]).0) && short(
            c.index_defs[i].1,
        )
}

pub open spec fn schema_saveable(s: SchemaView) -> bool {
    &&& short(s.name)
    &&& s.columns.len() <= u32::MAX
    &&& s == new_schema(s.name, s.columns)
    &&& forall|i: int| 0 <= i < s.columns.len() ==> short((#[trigger] s.columns[i]).name)
}

/// The bytes of `buf` from `off` on start with `part`, of which `a` is the first part.
proof fn lemma_split(buf: Seq<u8>, off: int, a: Seq<u8>, b: Seq<u8>)
    requires
        holds_at(buf, off, a + b),
    ensures
        holds_at(buf, off, a),
        holds_at(buf, off + a.len(), b),
{
    assert forall|i: int| 0 <= i < a.len() implies #[trigger] buf[off + i] == a[i] by {
        assert((a + b)[i] == a[i]);
    }
    assert forall|i: int| 0 <= i < b.len() implies #[trigger] buf[off + a.len() + i] == b[i] by {
        assert(buf[off + (a.len() + i)] == (a + b)[a.len() + i]);
    }
}

proof fn lemma_text_back(buf: Seq<u8>, off: int, s: Seq<char>)
    requires
        short(s),
        holds_at(buf, off, text_bytes(s)),
    ensures
        text_at(buf, off) == Ok::<(Seq<char>, int), Seq<char>>((s, off + text_bytes(s).len())),
{
    lemma_sized_back(buf, off, encode_utf8(s));
    encode_utf8_valid_utf8(s);
    encode_utf8_decode_utf8(s);
    assert(text_bytes(s).len() == 4 + encode_utf8(s).len());
}

proof fn lemma_num_back(buf: Seq<u8>, off: int, n: u32)
    requires
        holds_at(buf, off, le32(n)),
    ensures
        num_at(buf, off) == Ok::<(u32, int), Seq<char>>((n, off + 4)),
{
    lemma_un32(buf, off, n);
    assert(le32(n).len() == 4);
}

proof fn lemma_col_back(buf: Seq<u8>, off: int, c: ColumnView)
    requires
        short(c.name),
        holds_at(buf, off, col_bytes(c)),
    ensures
        col_at(2, buf, off) == Ok::<(ColumnView, int), Seq<char>>((c, off + col_bytes(c).len())),
{
    let flags = seq![
        type_tag(c.ty),
        if c.primary_key {
            1u8
        } else {
            0u8
        },
    ];
    lemma_split(buf, off, text_bytes(c.name), flags);
    lemma_text_back(buf, off, c.name);
    let o = off + text_bytes(c.name).len();
    assert(buf[o + 0] == flags[0]);
    assert(buf[o + 1] == flags[1]);
}

proof fn lemma_cols_back(buf: Seq<u8>, off: int, cs: Seq<ColumnView>, i: int)
    requires
        0 <= i <= cs.len(),
        forall|k: int| 0 <= k < cs.len() ==> short((#[trigger] cs[k]).name),
        holds_at(buf, off, cols_bytes(cs, i)),
    ensures
        cols_at(2, buf, off, (cs.len() - i) as nat) == Ok::<(Seq<ColumnView>, int), Seq<char>>(
            (cs.skip(i), off + cols_bytes(cs, i).len()),
        ),
    decreases cs.len() - i,
{
    if i < cs.len() {
        lemma_split(buf, off, col_bytes(cs[i]), cols_bytes(cs, i + 1));
        lemma_col_back(buf, off, cs[i]);
        lemma_cols_back(buf, off + col_bytes(cs[i]).len(), cs, i + 1);
        assert(seq![cs[i]] + cs.skip(i + 1) =~= cs.skip(i));
    } else {
        assert(cs.skip(i) =~= Seq::empty());
    }
}

proof fn lemma_schema_back(buf: Seq<u8>, off: int, s: SchemaView)
    requires
        schema_saveable(s),
        holds_at(buf, off, schema_bytes(s)),
    ensures
        schema_at(2, buf, off) == Ok::<(SchemaView, int), Seq<char>>(
            (s, off + schema_bytes(s).len()),
        ),
{
    let n = len32(s.columns.len());
    let rest = le32(n) + cols_bytes(s.columns, 0);
    let o = off + text_bytes(s.name).len();
    assert(holds_at(buf, off, text_bytes(s.name)) && holds_at(buf, o, rest)) by {
        lemma_split(buf, off, text_bytes(s.name), rest);
    }
    assert(text_at(buf, off) == Ok::<(Seq<char>, int), Seq<char>>((s.name, o))) by {
        lemma_text_back(buf, off, s.name);
    }
    lemma_counted_cols(buf, o, s.columns);
    assert(schema_bytes(s).len() == text_bytes(s.name).len() + rest.len());
}

/// The columns of a table after their number.
proof fn lemma_counted_cols(buf: Seq<u8>, o: int, cs: Seq<ColumnView>)
    requires
        cs.len() <= u32::MAX,
        forall|k: int| 0 <= k < cs.len() ==> short((#[trigger] cs[k]).name),
        holds_at(buf, o, le32(len32(cs.len())) + cols_bytes(cs, 0)),
    ensures
        num_at(buf, o) == Ok::<(u32, int), Seq<char>>((cs.len() as u32, o + 4)),
        cols_at(2, buf, o + 4, cs.len()) == Ok::<(Seq<ColumnView>, int), Seq<char>>(
            (cs, o + (le32(len32(cs.len())) + cols_bytes(cs, 0)).len()),
        ),
{
    let n = len32(cs.len());
    assert(n == cs.len());
    assert(le32(n).len() == 4);
    assert(num_at(buf, o) == Ok::<(u32, int), Seq<char>>((n, o + 4))) by {
        lemma_split(buf, o, le32(n), cols_bytes(cs, 0));
        lemma_num_back(buf, o, n);
    }
    assert(cols_at(2, buf, o + 4, cs.len()) == Ok::<(Seq<ColumnView>, int), Seq<char>>(
        (cs, o + 4 + cols_bytes(cs, 0).len()),
    )) by {
        lemma_split(buf, o, le32(n), cols_bytes(cs, 0));
        lemma_cols_back(buf, o + 4, cs, 0);
        assert(cs.skip(0) =~= cs);
    }
}

proof fn lemma_schemas_back(buf: Seq<u8>, off: int, ts: Seq<SchemaView>, i: int)
    requires
        0 <= i <= ts.len(),
        forall|k: int| 0 <= k < ts.len() ==> schema_saveable(#[trigger] ts[k]),
        holds_at(buf, off, schemas_bytes(ts, i)),
    ensures
        schemas_at(2, buf, off, (ts.len() - i) as nat) == Ok::<(Seq<SchemaView>, int), Seq<char>>(
            (ts.skip(i), off + schemas_bytes(ts, i).len()),
        ),
    decreases ts.len() - i,
{
    if i < ts.len() {
        lemma_split(buf, off, schema_bytes(ts[i]), schemas_bytes(ts, i + 1));
        lemma_schema_back(buf, off, ts[i]);
        lemma_schemas_back(buf, off + schema_bytes(ts[i]).len(), ts, i + 1);
        assert(seq![ts[i]] + ts.skip(i + 1) =~= ts.skip(i));
    } else {
        assert(ts.skip(i) =~= Seq::empty());
    }
}

proof fn lemma_defs_back(buf: Seq<u8>, off: int, ds: Seq<(Seq<char>, Seq<char>)>, i: int)
    requires
        0 <= i <= ds.len(),
        forall|k: int| 0 <= k < ds.len() ==> short((#[trigger] ds[k]).0) && short(ds[k].1),
        holds_at(buf, off, defs_bytes(ds, i)),
    ensures
        defs_at(buf, off, (ds.len() - i) as nat) == Ok::<Seq<(Seq<char>, Seq<char>)>, Seq<char>>(
            ds.skip(i),
        ),
    decreases ds.len() - i,
{
    if i < ds.len() {
        let rest = text_bytes(ds[i].1) + defs_bytes(ds, i + 1);
        lemma_split(buf, off, text_bytes(ds[i].0), rest);
        lemma_text_back(buf, off, ds[i].0);
        let o = off + text_bytes(ds[i].0).len();
        lemma_split(buf, o, text_bytes(ds[i].1), defs_bytes(ds, i + 1));
        lemma_text_back(buf, o, ds[i].1);
        lemma_defs_back(buf, o + text_bytes(ds[i].1).len(), ds, i + 1);
        assert(seq![ds[i]] + ds.skip(i + 1) =~= ds.skip(i));
    } else {
        assert(ds.skip(i) =~= Seq::empty());
    }
}

/// Adding tables with distinct names appends them.
proof fn lemma_put_all_distinct(ts: Seq<SchemaView>, i: int)
    requires
        0 <= i <= ts.len(),
        (CatalogView { tables: ts, index_defs: Seq::empty() }).distinct(),
    ensures
        table_put_all(ts.take(i), ts, i) == ts,
    decreases ts.len() - i,
{
    if i < ts.len() {
        let v = CatalogView { tables: ts, index_defs: Seq::empty() };
        let before = ts.take(i);
        lemma_position(table_names(before), ts[i].name, 0);
        assert(position(table_names(before), ts[i].name, 0) is None) by {
            match position(table_names(before), ts[i].name, 0) {
                Some(k) => {
                    assert(table_names(before)[k] == before[k].name);
                    assert(v.tables[k].name != v.tables[i].name);
                },
                None => {},
            }
        }
        assert(before.push(ts[i]) =~= ts.take(i + 1));
        lemma_put_all_distinct(ts, i + 1);
    } else {
        assert(ts.take(i) =~= ts);
    }
}

proof fn lemma_head_back(buf: Seq<u8>, n: u32, d: Seq<u8>)
    requires
        buf == le32(u32::MAX) + (seq![2u8] + (le32(n) + d)),
    ensures
        catalog_head(buf) == Ok::<(u8, u32, int), Seq<char>>((2u8, n, 9int)),
        holds_at(buf, 9, d),
        buf.len() == 9 + d.len(),
{
    assert(le32(u32::MAX).len() == 4 && le32(n).len() == 4);
    let b = le32(n) + d;
    let a = seq![2u8] + b;
    assert(holds_at(buf, 4, a) && num_at(buf, 0) == Ok::<(u32, int), Seq<char>>(
        (u32::MAX, 4int),
    )) by {
        assert(holds_at(buf, 0, le32(u32::MAX) + a));
        lemma_split(buf, 0, le32(u32::MAX), a);
        lemma_num_back(buf, 0, u32::MAX);
    }
    assert(buf[4] == 2 && holds_at(buf, 5, b)) by {
        lemma_split(buf, 4, seq![2u8], b);
        assert(buf[4 + 0int] == seq![2u8][0]);
    }
    assert(num_at(buf, 5) == Ok::<(u32, int), Seq<char>>((n, 9int)) && holds_at(buf, 9, d)) by {
        lemma_split(buf, 5, le32(n), d);
        lemma_num_back(buf, 5, n);
    }
}

proof fn lemma_body_back(buf: Seq<u8>, c: CatalogView)
    requires
        saveable(c),
        holds_at(
            buf,
            9,
            schemas_bytes(c.tables, 0) + (le32(c.index_defs.len() as u32) + defs_bytes(
                c.index_defs,
                0,
            )),
        ),
    ensures
        ({
            let o = 9int + schemas_bytes(c.tables, 0).len();
            &&& schemas_at(2, buf, 9, c.tables.len()) == Ok::<
                (Seq<SchemaView>, int),
                Seq<char>,
            >((c.tables, o))
            &&& num_at(buf, o) == Ok::<(u32, int), Seq<char>>((c.index_defs.len() as u32, o + 4))
            &&& defs_at(buf, o + 4, c.index_defs.len()) == Ok::<
                Seq<(Seq<char>, Seq<char>)>,
                Seq<char>,
            >(c.index_defs)
        }),
{
    let m = c.index_defs.len() as u32;
    let e = le32(m) + defs_bytes(c.index_defs, 0);
    let o = 9int + schemas_bytes(c.tables, 0).len();
    assert(le32(m).len() == 4);
    assert(schemas_at(2, buf, 9, c.tables.len()) == Ok::<(Seq<SchemaView>, int), Seq<char>>(
        (c.tables, o),
    ) && holds_at(buf, o, e)) by {
        lemma_split(buf, 9, schemas_bytes(c.tables, 0), e);
        lemma_schemas_back(buf, 9, c.tables, 0);
        assert(c.tables.skip(0) =~= c.tables);
    }
    assert(num_at(buf, o) == Ok::<(u32, int), Seq<char>>((m, o + 4)) && holds_at(
        buf,
        o + 4,
        defs_bytes(c.index_defs, 0),
    )) by {
        lemma_split(buf, o, le32(m), defs_bytes(c.index_defs, 0));
        lemma_num_back(buf, o, m);
    }
    assert(defs_at(buf, o + 4, c.index_defs.len()) == Ok::<
        Seq<(Seq<char>, Seq<char>)>,
        Seq<char>,
    >(c.index_defs)) by {
        lemma_defs_back(buf, o + 4, c.index_defs, 0);
        assert(c.index_defs.skip(0) =~= c.index_defs);
    }
}

proof fn lemma_parts_back(buf: Seq<u8>, c: CatalogView, o: int)
    requires
        c.tables.len() <= u32::MAX,
        c.index_defs.len() <= u32::MAX,
        catalog_head(buf) == Ok::<(u8, u32, int), Seq<char>>((2u8, c.tables.len() as u32, 9int)),
        schemas_at(2, buf, 9, c.tables.len()) == Ok::<(Seq<SchemaView>, int), Seq<char>>(
            (c.tables, o),
        ),
        o < buf.len(),
        num_at(buf, o) == Ok::<(u32, int), Seq<char>>((c.index_defs.len() as u32, o + 4)),
        defs_at(buf, o + 4, c.index_defs.len()) == Ok::<
            Seq<(Seq<char>, Seq<char>)>,
            Seq<char>,
        >(c.index_defs),
        table_put_all(Seq::empty(), c.tables, 0) == c.tables,
    ensures
        catalog_of(buf) == Ok::<CatalogView, Seq<char>>(c),
{
    reveal(catalog_of);
}

proof fn lemma_put_all_saved(c: CatalogView)
    requires
        c.distinct(),
    ensures
        table_put_all(Seq::empty(), c.tables, 0) == c.tables,
{
    let v = CatalogView { tables: c.tables, index_defs: Seq::empty() };
    assert forall|i: int, j: int| 0 <= i < j < v.tables.len() implies (#[trigger] v.tables[i]).name
        != (#[trigger] v.tables[j]).name by {
        assert(c.tables[i].name != c.tables[j].name);
    }
    lemma_put_all_distinct(c.tables, 0);
    assert(c.tables.take(0) =~= Seq::empty());
}

proof fn lemma_saved_back(buf: Seq<u8>, c: CatalogView, d: Seq<u8>)
    requires
        saveable(c),
        d == schemas_bytes(c.tables, 0) + (le32(c.index_defs.len() as u32) + defs_bytes(
            c.index_defs,
            0,
        )),
        buf == le32(u32::MAX) + (seq![2u8] + (le32(c.tables.len() as u32) + d)),
    ensures
        catalog_of(buf) == Ok::<CatalogView, Seq<char>>(c),
{
    let o = 9int + schemas_bytes(c.tables, 0).len();
    assert(o < buf.len() && catalog_head(buf) == Ok::<(u8, u32, int), Seq<char>>(
        (2u8, c.tables.len() as u32, 9int),
    )) by {
        lemma_head_back(buf, c.tables.len() as u32, d);
        assert(le32(c.index_defs.len() as u32).len() == 4);
    }
    assert(holds_at(buf, 9, d)) by {
        lemma_head_back(buf, c.tables.len() as u32, d);
    }
    lemma_body_back(buf, c);
    lemma_put_all_saved(c);
    lemma_parts_back(buf, c, o);
}

proof fn lemma_len32(n: nat)
    requires
        n <= u32::MAX,
    ensures
        len32(n) == n as u32,
{
}

proof fn lemma_saved_as(buf: Seq<u8>, c: CatalogView, d: Seq<u8>, n: u32, m: u32)
    requires
        saveable(c),
        n == c.tables.len() as u32,
        m == c.index_defs.len() as u32,
        d == schemas_bytes(c.tables, 0) + (le32(m) + defs_bytes(c.index_defs, 0)),
        buf == le32(u32::MAX) + (seq![2u8] + (le32(n) + d)),
    ensures
        catalog_of(buf) == Ok::<CatalogView, Seq<char>>(c),
{
    lemma_saved_back(buf, c, d);
}

/// Loading what was saved gives the catalog that was saved.
pub proof fn law_catalog_round_trip(c: CatalogView)
    requires
        saveable(c),
    ensures
        catalog_of(catalog_bytes(c)) == Ok::<CatalogView, Seq<char>>(c),
{
    let n = len32(c.tables.len());
    let m = len32(c.index_defs.len());
    lemma_len32(c.tables.len());
    lemma_len32(c.index_defs.len());
    let d = schemas_bytes(c.tables, 0) + (le32(m) + defs_bytes(c.index_defs, 0));
    lemma_saved_as(catalog_bytes(c), c, d, n, m);
}

} // verus!
