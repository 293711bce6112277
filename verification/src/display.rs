//! How rows and trees are shown: plain lines of text.
use crate::sql::ast::{Value, ValueView};
use crate::sql::lexer::chars_of;
use crate::text::{dec, dec_i64, dec_int, dec_u64};
use vstd::prelude::*;
use vstd::string::*;
use vstd::utf8::encode_utf8;

verus! {

/// A character, `n` times.
pub open spec fn repeated(c: char, n: nat) -> Seq<char> {
    Seq::new(n, |i: int| c)
}

/// A text with blanks after it, up to `width` characters.
pub open spec fn padded(s: Seq<char>, width: nat) -> Seq<char> {
    if s.len() < width {
        s + repeated(' ', (width - s.len()) as nat)
    } else {
        s
    }
}

/// The first `n` of `parts` with `sep` between them.
pub open spec fn joined(parts: Seq<Seq<char>>, sep: Seq<char>, n: nat) -> Seq<char>
    decreases n,
{
    if n == 0 {
        Seq::empty()
    } else if n == 1 {
        parts[0]
    } else {
        joined(parts, sep, (n - 1) as nat) + sep + parts[n - 1]
    }
}

/// The texts of strings.
pub open spec fn texts(s: Seq<String>) -> Seq<Seq<char>> {
    Seq::new(s.len(), |i: int| s[i]@)
}

/// The cells of rows.
pub open spec fn cells(rows: Seq<Vec<String>>) -> Seq<Seq<Seq<char>>> {
    Seq::new(rows.len(), |i: int| texts(rows[i]@))
}

/// The width of a column: the largest number of bytes of its name and its cells in the first `n`
/// rows.
pub open spec fn column_width(
    name: Seq<char>,
    rows: Seq<Seq<Seq<char>>>,
    column: int,
    n: nat,
) -> nat
    decreases n,
{
    if n == 0 {
        encode_utf8(name).len()
    } else {
        let before = column_width(name, rows, column, (n - 1) as nat);
        let row = rows[n - 1];
        if column < row.len() && before < encode_utf8(row[column]).len() {
            encode_utf8(row[column]).len()
        } else {
            before
        }
    }
}

/// The widths of the columns of a table.
pub open spec fn column_widths(names: Seq<Seq<char>>, rows: Seq<Seq<Seq<char>>>) -> Seq<nat> {
    Seq::new(names.len(), |i: int| column_width(names[i], rows, i, rows.len()))
}

/// The width of a column; one without a name has none.
pub open spec fn width_at(widths: Seq<nat>, i: int) -> nat {
    if i < widths.len() {
        widths[i]
    } else {
        0
    }
}

/// The line of a row: its cells, each as wide as its column.
pub open spec fn row_line(row: Seq<Seq<char>>, widths: Seq<nat>) -> Seq<char> {
    " "@ + joined(
        Seq::new(row.len(), |i: int| padded(row[i], width_at(widths, i))),
        " │ "@,
        row.len(),
    ) + " \n"@
}

/// The line below the names of the columns.
pub open spec fn rule_line(widths: Seq<nat>) -> Seq<char> {
    "─"@ + joined(
        Seq::new(widths.len(), |i: int| repeated('─', widths[i])),
        "─┼─"@,
        widths.len(),
    ) + "─\n"@
}

/// The lines of the first `n` rows.
pub open spec fn row_lines(rows: Seq<Seq<Seq<char>>>, widths: Seq<nat>, n: nat) -> Seq<char>
    decreases n,
{
    if n == 0 {
        Seq::empty()
    } else {
        row_lines(rows, widths, (n - 1) as nat) + row_line(rows[n - 1], widths)
    }
}

/// The line that tells the number of rows.
pub open spec fn count_line(n: nat) -> Seq<char> {
    "("@ + dec(n) + (if n == 1 {
        " row)\n"@
    } else {
        " rows)\n"@
    })
}

/// What the rows of a result look like, under the names of the columns if they are known.
pub open spec fn results_text(
    rows: Seq<Seq<Seq<char>>>,
    names: Option<Seq<Seq<char>>>,
) -> Seq<char> {
    if rows.len() == 0 {
        "(no rows)\n"@
    } else {
        let top = match names {
            Some(names) => row_line(names, column_widths(names, rows)) + rule_line(
                column_widths(names, rows),
            ),
            None => Seq::empty(),
        };
        let widths = match names {
            Some(names) => column_widths(names, rows),
            None => Seq::empty(),
        };
        top + row_lines(rows, widths, rows.len()) + count_line(rows.len())
    }
}

/// The numbers of a sequence of widths.
pub open spec fn nats(s: Seq<usize>) -> Seq<nat> {
    Seq::new(s.len(), |i: int| s[i] as nat)
}

/// Appends a character, `n` times.
fn push_repeated(s: &mut String, c: char, n: usize)
    ensures
        final(s)@ == old(s)@ + repeated(c, n as nat),
{
    let mut i: usize = 0;
    assert(s@ =~= old(s)@ + repeated(c, 0));
    while i < n
        invariant
            i <= n,
            s@ == old(s)@ + repeated(c, i as nat),
        decreases n - i,
    {
        s.push(c);
        i = i + 1;
        assert(s@ =~= old(s)@ + repeated(c, i as nat));
    }
}

/// Appends a row.
fn push_row(s: &mut String, row: &Vec<String>, widths: &Vec<usize>)
    ensures
        final(s)@ == old(s)@ + row_line(texts(row@), nats(widths@)),
{
    let ghost parts = Seq::new(
        row@.len(),
        |i: int| padded(texts(row@)[i], width_at(nats(widths@), i)),
    );
    s.append(" ");
    let ghost before = s@;
    let mut i: usize = 0;
    assert(s@ =~= before + joined(parts, " │ "@, 0));
    while i < row.len()
        invariant
            i <= row@.len(),
            parts == Seq::new(
                row@.len(),
                |i: int| padded(texts(row@)[i], width_at(nats(widths@), i)),
            ),
            s@ == before + joined(parts, " │ "@, i as nat),
        decreases row@.len() - i,
    {
        if i > 0 {
            s.append(" │ ");
        }
        let len: usize = chars_of(row[i].as_str()).len();
        s.append(row[i].as_str());
        if i < widths.len() && len < widths[i] {
            push_repeated(s, ' ', widths[i] - len);
        }
        i = i + 1;
        assert(s@ =~= before + joined(parts, " │ "@, i as nat));
    }
    s.append(" \n");
    assert(parts =~= Seq::new(
        texts(row@).len(),
        |i: int| padded(texts(row@)[i], width_at(nats(widths@), i)),
    ));
    assert(s@ =~= old(s)@ + row_line(texts(row@), nats(widths@)));
}

/// Appends the line below the names of the columns.
fn push_rule(s: &mut String, widths: &Vec<usize>)
    ensures
        final(s)@ == old(s)@ + rule_line(nats(widths@)),
{
    let ghost parts = Seq::new(widths@.len(), |i: int| repeated('─', nats(widths@)[i]));
    s.append("─");
    let ghost before = s@;
    let mut i: usize = 0;
    assert(s@ =~= before + joined(parts, "─┼─"@, 0));
    while i < widths.len()
        invariant
            i <= widths@.len(),
            parts == Seq::new(widths@.len(), |i: int| repeated('─', nats(widths@)[i])),
            s@ == before + joined(parts, "─┼─"@, i as nat),
        decreases widths@.len() - i,
    {
        if i > 0 {
            s.append("─┼─");
        }
        push_repeated(s, '─', widths[i]);
        i = i + 1;
        assert(s@ =~= before + joined(parts, "─┼─"@, i as nat));
    }
    s.append("─\n");
    assert(parts =~= Seq::new(nats(widths@).len(), |i: int| repeated('─', nats(widths@)[i])));
    assert(s@ =~= old(s)@ + rule_line(nats(widths@)));
}

/// The width of each column.
fn widths_of(names: &Vec<String>, rows: &Vec<Vec<String>>) -> (widths: Vec<usize>)
    ensures
        nats(widths@) == column_widths(texts(names@), cells(rows@)),
{
    let ghost all = cells(rows@);
    let mut widths: Vec<usize> = Vec::new();
    let mut i: usize = 0;
    while i < names.len()
        invariant
            i <= names@.len(),
            all == cells(rows@),
            widths@.len() == i,
            forall|k: int|
                0 <= k < i ==> (#[trigger] widths@[k]) == column_width(
                    names@[k]@,
                    all,
                    k,
                    all.len(),
                ),
        decreases names@.len() - i,
    {
        let mut width: usize = names[i].as_str().as_bytes().len();
        let mut r: usize = 0;
        while r < rows.len()
            invariant
                r <= rows@.len(),
                i < names@.len(),
                all == cells(rows@),
                width == column_width(names@[i as int]@, all, i as int, r as nat),
            decreases rows@.len() - r,
        {
            assert(all[r as int] == texts(rows@[r as int]@));
            if i < rows[r].len() {
                let len: usize = rows[r][i].as_str().as_bytes().len();
                if width < len {
                    width = len;
                }
            }
            r = r + 1;
        }
        widths.push(width);
        i = i + 1;
    }
    assert(nats(widths@) =~= column_widths(texts(names@), all));
    widths
}

/// The lines that show the rows of a result, given the texts of their cells and, if they are known,
/// the names of the columns.
pub fn print_results(rows: &Vec<Vec<String>>, names: Option<&Vec<String>>) -> (text: String)
    ensures
        text@ == results_text(
            cells(rows@),
            match names {
                Some(v) => Some(texts(v@)),
                None => None,
            },
        ),
{
    if rows.len() == 0 {
        return "(no rows)\n".to_owned();
    }
    let mut text = String::new();
    let mut widths: Vec<usize> = Vec::new();
    assert(nats(widths@) =~= Seq::empty());
    assert(text@ =~= Seq::empty());
    if let Some(v) = names {
        widths = widths_of(v, rows);
        push_row(&mut text, v, &widths);
        push_rule(&mut text, &widths);
    }
    let ghost top = text@;
    let ghost w = nats(widths@);
    let ghost all = cells(rows@);
    let mut i: usize = 0;
    assert(text@ =~= top + row_lines(all, w, 0));
    while i < rows.len()
        invariant
            i <= rows@.len(),
            all == cells(rows@),
            w == nats(widths@),
            text@ == top + row_lines(all, w, i as nat),
        decreases rows@.len() - i,
    {
        push_row(&mut text, &rows[i], &widths);
        i = i + 1;
        assert(text@ =~= top + row_lines(all, w, i as nat));
    }
    let n = dec_u64(rows.len() as u64);
    text.append("(");
    text.append(n.as_str());
    if rows.len() == 1 {
        text.append(" row)\n");
    } else {
        text.append(" rows)\n");
    }
    assert(text@ =~= top + row_lines(all, w, all.len()) + count_line(all.len()));
    text
}

/// How a value is shown; a float is not, for its digits are left to the caller.
pub open spec fn value_shown(v: ValueView) -> Option<Seq<char>> {
    match v {
        ValueView::Int(n) => Some(dec_int(n as int)),
        ValueView::Float(_) => None,
        ValueView::Text(s) => Some(s),
        ValueView::Null => Some("NULL"@),
    }
}

/// The text of a value, unless it is a float.
pub fn show_value(value: &Value) -> (text: Option<String>)
    ensures
        match text {
            Some(s) => value_shown(value@) == Some(s@),
            None => value_shown(value@) is None,
        },
{
    match value {
        Value::Int(n) => Some(dec_i64(*n)),
        Value::Float(_) => None,
        Value::Text(s) => Some(s.as_str().to_owned()),
        Value::Null => Some("NULL".to_owned()),
    }
}

/// The first `n` keys, with commas between them.
pub open spec fn keys_text(keys: Seq<i64>, n: nat) -> Seq<char>
    decreases n,
{
    if n == 0 {
        Seq::empty()
    } else {
        keys_text(keys, (n - 1) as nat) + (if n == 1 {
            Seq::empty()
        } else {
            ", "@
        }) + dec_int(keys[n - 1] as int)
    }
}

/// Appends keys in brackets.
pub fn push_keys(s: &mut String, keys: &Vec<i64>)
    ensures
        final(s)@ == old(s)@ + "["@ + keys_text(keys@, keys@.len()) + "]"@,
{
    s.append("[");
    let ghost before = s@;
    let mut i: usize = 0;
    assert(s@ =~= before + keys_text(keys@, 0));
    while i < keys.len()
        invariant
            i <= keys@.len(),
            s@ == before + keys_text(keys@, i as nat),
        decreases keys@.len() - i,
    {
        if i > 0 {
            s.append(", ");
        }
        let k = dec_i64(keys[i]);
        s.append(k.as_str());
        i = i + 1;
        assert(s@ =~= before + keys_text(keys@, i as nat));
    }
    s.append("]");
}

} // verus!
