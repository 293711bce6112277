//! The page lists of the tables, and the files that hold them.
use crate::bytes::{get_u32, le32, put_u32, un32};
use crate::engine::catalog::{lemma_position, len32, option_int, position};
use crate::engine::model::{
    entry_names, file_names, files_put, meta_bytes, meta_in, meta_of, table_pages, tables_put,
    TableView,
};
use crate::index::node::ids_bytes;
use crate::text::text_eq;
use vstd::prelude::*;
use vstd::string::*;

verus! {

/// The pages that belong to a table.
#[derive(Debug)]
pub struct TableMeta {
    pub page_ids: Vec<u32>,
}

impl Default for TableMeta {
    fn default() -> (m: Self)
        ensures
            m.page_ids@ == Seq::<u32>::empty(),
    {
        TableMeta { page_ids: Vec::new() }
    }
}

impl Clone for TableMeta {
    fn clone(&self) -> (m: Self)
        ensures
            m.page_ids@ == self.page_ids@,
    {
        TableMeta { page_ids: clone_ids(&self.page_ids) }
    }
}

/// A copy of a list of page ids.
pub fn clone_ids(ids: &Vec<u32>) -> (copy: Vec<u32>)
    ensures
        copy@ == ids@,
{
    let mut copy: Vec<u32> = Vec::new();
    let mut i: usize = 0;
    while i < ids.len()
        invariant
            i <= ids@.len(),
            copy@ == ids@.take(i as int),
        decreases ids@.len() - i,
    {
        copy.push(ids[i]);
        i = i + 1;
        assert(copy@ =~= ids@.take(i as int));
    }
    assert(copy@ =~= ids@);
    copy
}

pub open spec fn entries_view(s: Seq<(String, TableMeta)>) -> Seq<TableView> {
    Seq::new(s.len(), |i: int| TableView { name: s[i].0@, pages: s[i].1.page_ids@ })
}

pub open spec fn files_view(s: Seq<(String, Vec<u8>)>) -> Seq<(Seq<char>, Seq<u8>)> {
    Seq::new(s.len(), |i: int| (s[i].0@, s[i].1@))
}

/// Finds a table by name.
pub fn find_entry(entries: &Vec<(String, TableMeta)>, name: &str) -> (res: Option<usize>)
    ensures
        option_int(res) == position(entry_names(entries_view(entries@)), name@, 0),
        res is Some ==> res->0 < entries@.len(),
{
    let ghost names = entry_names(entries_view(entries@));
    let mut i: usize = 0;
    while i < entries.len()
        invariant
            i <= entries@.len(),
            names == entry_names(entries_view(entries@)),
            position(names, name@, 0) == position(names, name@, i as int),
        decreases entries@.len() - i,
    {
        assert(names[i as int] == entries@[i as int].0@);
        if text_eq(entries[i].0.as_str(), name) {
            return Some(i);
        }
        i = i + 1;
    }
    None
}

/// Sets the page list of a table.
pub fn put_entry(entries: &mut Vec<(String, TableMeta)>, name: &str, meta: TableMeta)
    ensures
        entries_view(final(entries)@) == tables_put(
            entries_view(old(entries)@),
            name@,
            meta.page_ids@,
        ),
{
    let ghost before = entries_view(entries@);
    let ghost pages = meta.page_ids@;
    match find_entry(entries, name) {
        Some(i) => {
            entries.set(i, (name.to_owned(), meta));
            assert(entries_view(entries@) =~= before.update(
                i as int,
                TableView { name: name@, pages },
            ));
        },
        None => {
            entries.push((name.to_owned(), meta));
            assert(entries_view(entries@) =~= before.push(TableView { name: name@, pages }));
        },
    }
}

/// Finds a file by the name of its table.
fn find_file(files: &Vec<(String, Vec<u8>)>, name: &str) -> (res: Option<usize>)
    ensures
        option_int(res) == position(file_names(files_view(files@)), name@, 0),
        res is Some ==> res->0 < files@.len(),
{
    let ghost names = file_names(files_view(files@));
    let mut i: usize = 0;
    while i < files.len()
        invariant
            i <= files@.len(),
            names == file_names(files_view(files@)),
            position(names, name@, 0) == position(names, name@, i as int),
        decreases files@.len() - i,
    {
        assert(names[i as int] == files@[i as int].0@);
        if text_eq(files[i].0.as_str(), name) {
            return Some(i);
        }
        i = i + 1;
    }
    None
}

/// The bytes of a page list file.
fn encode_meta(ids: &Vec<u32>) -> (buf: Vec<u8>)
    ensures
        buf@ == meta_bytes(ids@),
{
    let mut buf: Vec<u8> = Vec::new();
    let n: usize = ids.len();
    let low: u32 = (n as u64 % 0x1_0000_0000) as u32;
    put_u32(&mut buf, low);
    assert(ids@.take(0) =~= Seq::<u32>::empty());
    assert(buf@ =~= le32(len32(ids@.len())) + ids_bytes(ids@.take(0)));
    let mut i: usize = 0;
    while i < n
        invariant
            i <= n,
            n == ids@.len(),
            buf@ == le32(len32(ids@.len())) + ids_bytes(ids@.take(i as int)),
        decreases n - i,
    {
        let ghost before = buf@;
        put_u32(&mut buf, ids[i]);
        proof {
            let next = ids@.take(i + 1);
            assert(next.drop_last() =~= ids@.take(i as int));
            assert(next.last() == ids@[i as int]);
            assert(buf@ =~= le32(len32(ids@.len())) + ids_bytes(next));
        }
        i = i + 1;
    }
    assert(ids@.take(n as int) =~= ids@);
    buf
}

/// The page list in the bytes of its file.
fn decode_meta(buf: &[u8]) -> (ids: Vec<u32>)
    ensures
        ids@ == meta_of(buf@),
{
    let mut ids: Vec<u32> = Vec::new();
    let len: usize = buf.len();
    if len < 4 {
        assert(ids@ =~= meta_of(buf@));
        return ids;
    }
    let n: u32 = get_u32(buf, 0);
    let whole: usize = (len - 4) / 4;
    let mut i: usize = 0;
    while i < whole && (i as u64) < n as u64
        invariant
            i <= whole,
            i <= n,
            len == buf@.len(),
            4 <= len,
            whole == (len - 4) / 4,
            n == un32(buf@, 0),
            ids@ == Seq::new(i as nat, |k: int| un32(buf@, 4 + 4 * k)),
        decreases whole - i,
    {
        ids.push(get_u32(buf, 4 + 4 * i));
        i = i + 1;
        assert(ids@ =~= Seq::new(i as nat, |k: int| un32(buf@, 4 + 4 * k)));
    }
    assert(ids@ =~= meta_of(buf@));
    ids
}

/// Writes the page list file of a table.
pub fn save_table_meta(files: &mut Vec<(String, Vec<u8>)>, name: &str, ids: &Vec<u32>)
    ensures
        files_view(final(files)@) == files_put(files_view(old(files)@), name@, meta_bytes(ids@)),
{
    let ghost before = files_view(files@);
    let buf = encode_meta(ids);
    match find_file(files, name) {
        Some(i) => {
            files.set(i, (name.to_owned(), buf));
            assert(files_view(files@) =~= before.update(i as int, (name@, meta_bytes(ids@))));
        },
        None => {
            files.push((name.to_owned(), buf));
            assert(files_view(files@) =~= before.push((name@, meta_bytes(ids@))));
        },
    }
}

/// Reads the page list file of a table; an empty list if there is none.
pub fn load_table_meta(files: &Vec<(String, Vec<u8>)>, name: &str) -> (meta: TableMeta)
    ensures
        meta.page_ids@ == meta_in(files_view(files@), name@),
{
    match find_file(files, name) {
        Some(i) => TableMeta { page_ids: decode_meta(files[i].1.as_slice()) },
        None => TableMeta { page_ids: Vec::new() },
    }
}

/// Setting the page list of a table gives it that list, and leaves the others as they were.
pub proof fn lemma_tables_put(
    tables: Seq<TableView>,
    name: Seq<char>,
    pages: Seq<u32>,
    other: Seq<char>,
)
    ensures
        table_pages(tables_put(tables, name, pages), other) == if other == name {
            Some(pages)
        } else {
            table_pages(tables, other)
        },
{
    let names = entry_names(tables);
    let after = tables_put(tables, name, pages);
    lemma_position(names, name, 0);
    lemma_position(names, other, 0);
    match position(names, name, 0) {
        Some(i) => {
            assert(entry_names(after) =~= names);
        },
        None => {
            assert(entry_names(after) =~= names.push(name));
            lemma_position_push(names, name, other, 0);
        },
    }
}

/// Where a name is found after one was added at the end.
pub proof fn lemma_position_push(names: Seq<Seq<char>>, last: Seq<char>, name: Seq<char>, i: int)
    requires
        0 <= i <= names.len(),
    ensures
        position(names.push(last), name, i) == match position(names, name, i) {
            Some(k) => Some(k),
            None => if last == name {
                Some(names.len() as int)
            } else {
                None
            },
        },
    decreases names.len() - i,
{
    if i < names.len() {
        assert(names.push(last)[i] == names[i]);
        if names[i] != name {
            lemma_position_push(names, last, name, i + 1);
        }
    } else {
        assert(names.push(last)[i] == last);
        assert(position(names.push(last), name, i + 1) is None);
    }
}

} // verus!
