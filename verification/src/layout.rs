//! Where the cells of a shown table stand: each column in the same place on every line.
use crate::display::{column_width, joined, padded, repeated, row_line, rule_line, width_at};
use vstd::prelude::*;
use vstd::string::*;
use vstd::utf8::encode_utf8;

verus! {

/// A column is as wide as the widest of its name and its cells, counted in bytes.
pub proof fn law_column_is_as_wide_as_needed(
    name: Seq<char>,
    rows: Seq<Seq<Seq<char>>>,
    column: int,
    n: nat,
) -> (widest: int)
    requires
        n <= rows.len(),
        0 <= column,
    ensures
        encode_utf8(name).len() <= column_width(name, rows, column, n),
        forall|r: int|
            0 <= r < n && column < rows[r].len() ==> encode_utf8(#[trigger] rows[r][column]).len()
                <= column_width(name, rows, column, n),
        column_width(name, rows, column, n) == encode_utf8(name).len() || (0 <= widest < n && column
            < rows[widest].len() && column_width(name, rows, column, n) == encode_utf8(
            rows[widest][column],
        ).len()),
    decreases n,
{
    if n == 0 {
        0
    } else {
        let widest = law_column_is_as_wide_as_needed(name, rows, column, (n - 1) as nat);
        let before = column_width(name, rows, column, (n - 1) as nat);
        let row = rows[n - 1];
        assert forall|r: int| 0 <= r < n && column < rows[r].len() implies encode_utf8(
            #[trigger] rows[r][column],
        ).len() <= column_width(name, rows, column, n) by {
            if r < n - 1 {
                assert(encode_utf8(rows[r][column]).len() <= before);
            }
        }
        if column < row.len() && before < encode_utf8(row[column]).len() {
            n - 1
        } else {
            widest
        }
    }
}

/// Where column `j` starts on a line: behind a blank and the columns before it, each followed by a
/// bar with a blank on both sides.
pub open spec fn column_start(widths: Seq<nat>, j: nat) -> int
    decreases j,
{
    if j == 0 {
        1
    } else {
        column_start(widths, (j - 1) as nat) + widths[j - 1] + 3
    }
}

spec fn lengths_fit(parts: Seq<Seq<char>>, widths: Seq<nat>) -> bool {
    parts.len() == widths.len() && forall|i: int|
        0 <= i < parts.len() ==> (#[trigger] parts[i]).len() == widths[i]
}

/// Where the parts of a joined text stand.
proof fn lemma_joined(parts: Seq<Seq<char>>, sep: Seq<char>, widths: Seq<nat>, n: nat)
    requires
        lengths_fit(parts, widths),
        sep.len() == 3,
        n <= parts.len(),
    ensures
        n > 0 ==> joined(parts, sep, n).len() == column_start(widths, n) - 4,
        forall|j: nat, k: int|
            j < n && 0 <= k < widths[j as int] ==> #[trigger] joined(parts, sep, n)[column_start(
                widths,
                j,
            ) - 1 + k] == parts[j as int][k],
        forall|j: nat, k: int|
            j + 1 < n && 0 <= k < 3 ==> #[trigger] joined(parts, sep, n)[column_start(widths, j) - 1
                + widths[j as int] + k] == sep[k],
    decreases n,
{
    if n == 1 {
        assert(parts[0].len() == widths[0]);
        assert(column_start(widths, 1) == column_start(widths, 0) + widths[0] + 3);
    } else if n > 1 {
        let m = (n - 1) as nat;
        lemma_joined(parts, sep, widths, m);
        let r = joined(parts, sep, m);
        let s = joined(parts, sep, n);
        assert(s == r + sep + parts[n - 1]);
        assert(parts[n - 1].len() == widths[n - 1]);
        assert(column_start(widths, n) == column_start(widths, m) + widths[n - 1] + 3);
        assert(r.len() == column_start(widths, m) - 4);
        assert forall|j: nat, k: int| j < n && 0 <= k < widths[j as int] implies #[trigger] s[
            column_start(widths, j) - 1 + k
        ] == parts[j as int][k] by {
            if j < m {
                lemma_starts(widths, j, m);
                assert(r[column_start(widths, j) - 1 + k] == parts[j as int][k]);
            }
        }
        assert forall|j: nat, k: int| j + 1 < n && 0 <= k < 3 implies #[trigger] s[column_start(
            widths,
            j,
        ) - 1 + widths[j as int] + k] == sep[k] by {
            lemma_starts(widths, j, m);
            if j + 1 < m {
                lemma_starts(widths, j + 1, m);
                assert(column_start(widths, j + 1) == column_start(widths, j) + widths[j as int] + 3);
                assert(r[column_start(widths, j) - 1 + widths[j as int] + k] == sep[k]);
            } else {
                assert(column_start(widths, m) == column_start(widths, j) + widths[j as int] + 3);
            }
        }
    }
}

proof fn lemma_starts(widths: Seq<nat>, j: nat, n: nat)
    requires
        j < n,
    ensures
        1 <= column_start(widths, j),
        column_start(widths, j) + widths[j as int] + 3 <= column_start(widths, n),
    decreases n,
{
    if j > 0 {
        lemma_starts(widths, (j - 1) as nat, j);
    }
    if j + 1 < n {
        lemma_starts(widths, j, (n - 1) as nat);
    }
}

/// On the line of a row each cell stands at the start of its column, with blanks behind it up to the
/// width of the column, then a bar between two blanks where another column follows. The line ends
/// behind a blank.
pub proof fn law_cells_stand_in_their_columns(row: Seq<Seq<char>>, widths: Seq<nat>, j: nat)
    requires
        row.len() == widths.len(),
        j < row.len(),
        forall|i: int| 0 <= i < row.len() ==> (#[trigger] row[i]).len() <= widths[i],
    ensures
        ({
            let line = row_line(row, widths);
            let at = column_start(widths, j);
            &&& line.len() == column_start(widths, row.len()) - 1
            &&& line[0] == ' '
            &&& forall|k: int| 0 <= k < row[j as int].len() ==> #[trigger] line[at + k] == row[j as int][k]
            &&& forall|k: int|
                row[j as int].len() <= k < widths[j as int] ==> #[trigger] line[at + k] == ' '
            &&& j + 1 < row.len() ==> line[at + widths[j as int]] == ' ' && line[at + widths[j as int]
                + 1] == '│' && line[at + widths[j as int] + 2] == ' '
            &&& line[line.len() - 2] == ' '
            &&& line[line.len() - 1] == '\n'
        }),
{
    let line = row_line(row, widths);
    let parts = Seq::new(row.len(), |i: int| padded(row[i], width_at(widths, i)));
    reveal_strlit(" ");
    reveal_strlit(" \n");
    reveal_strlit(" │ ");
    let sep = " │ "@;
    assert(sep.len() == 3);
    assert forall|i: int| 0 <= i < parts.len() implies (#[trigger] parts[i]).len() == widths[i] by {
        assert(row[i].len() <= widths[i]);
    }
    lemma_joined(parts, sep, widths, row.len());
    let body = joined(parts, sep, row.len());
    let at = column_start(widths, j);
    lemma_starts(widths, j, row.len());
    assert(line == " "@ + body + " \n"@);
    assert(row[j as int].len() <= widths[j as int]);
    assert forall|k: int| 0 <= k < widths[j as int] implies #[trigger] line[at + k] == parts[j as int][k] by {
        assert(body[column_start(widths, j) - 1 + k] == parts[j as int][k]);
    }
    if j + 1 < row.len() {
        lemma_starts(widths, j + 1, row.len());
        assert(column_start(widths, j + 1) == at + widths[j as int] + 3);
        assert forall|k: int| 0 <= k < 3 implies line[at + widths[j as int] + k] == #[trigger] sep[k] by {
            assert(body[column_start(widths, j) - 1 + widths[j as int] + k] == sep[k]);
        }
        assert(sep[0] == ' ' && sep[1] == '│' && sep[2] == ' ');
    }
}

/// The line below the names is as long as the lines of the rows, and has a crossing where these have
/// a bar and a dash elsewhere.
pub proof fn law_rule_fits_the_columns(widths: Seq<nat>, j: nat)
    requires
        j < widths.len(),
    ensures
        ({
            let line = rule_line(widths);
            let at = column_start(widths, j);
            &&& line.len() == column_start(widths, widths.len()) - 1
            &&& line[0] == '─'
            &&& forall|k: int| 0 <= k < widths[j as int] ==> #[trigger] line[at + k] == '─'
            &&& j + 1 < widths.len() ==> line[at + widths[j as int]] == '─' && line[at
                + widths[j as int] + 1] == '┼' && line[at + widths[j as int] + 2] == '─'
            &&& line[line.len() - 2] == '─'
            &&& line[line.len() - 1] == '\n'
        }),
{
    let line = rule_line(widths);
    let parts = Seq::new(widths.len(), |i: int| repeated('─', widths[i]));
    reveal_strlit("─");
    reveal_strlit("─\n");
    reveal_strlit("─┼─");
    let sep = "─┼─"@;
    assert(sep.len() == 3);
    lemma_joined(parts, sep, widths, widths.len());
    let body = joined(parts, sep, widths.len());
    let at = column_start(widths, j);
    lemma_starts(widths, j, widths.len());
    assert(line == "─"@ + body + "─\n"@);
    assert forall|k: int| 0 <= k < widths[j as int] implies #[trigger] line[at + k] == '─' by {
        assert(body[column_start(widths, j) - 1 + k] == parts[j as int][k]);
    }
    if j + 1 < widths.len() {
        lemma_starts(widths, j + 1, widths.len());
        assert(column_start(widths, j + 1) == at + widths[j as int] + 3);
        assert forall|k: int| 0 <= k < 3 implies line[at + widths[j as int] + k] == #[trigger] sep[k] by {
            assert(body[column_start(widths, j) - 1 + widths[j as int] + k] == sep[k]);
        }
        assert(sep[0] == '─' && sep[1] == '┼' && sep[2] == '─');
    }
}

} // verus!
