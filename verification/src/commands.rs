//! What the lines of the shell do, line by line and from one line to the next.
use crate::concurrency::grants::{law_lock_is_granted, way_is_free};
use crate::concurrency::lock_manager::{law_acquire, law_release, lock_held, locks_ok, LockMode};
use crate::concurrency::transaction::Rid;
use crate::shell::{
    complete, lock_mode, name_after, outcome, shell_line, table_lock, table_named, trim_end_at,
    trimmed, unterminated, word_at, word_pos, ShellView, StepView,
};
use crate::sql::lexer::{
    is_ascii_char, is_space, is_word, lemma_run_end, run_end, upper, upper_char, wide_upper,
};
use crate::sql::spelling::{
    blank, goes_on, lemma_chars, lemma_reads_as, reads_as, same_but_for_case,
};
use vstd::prelude::*;
use vstd::string::*;

verus! {

// Text.

/// A text without the blanks around it: what is left neither starts nor ends with a blank, and only
/// blanks were left out.
pub proof fn law_trimming(s: Seq<char>) -> (from: int)
    ensures
        0 <= from,
        from + trimmed(s).len() <= s.len(),
        trimmed(s) == s.subrange(from, from + trimmed(s).len()),
        forall|i: int| 0 <= i < from ==> blank(#[trigger] s[i]),
        forall|i: int| from + trimmed(s).len() <= i < s.len() ==> blank(#[trigger] s[i]),
        trimmed(s).len() > 0 ==> !blank(trimmed(s)[0]) && !blank(trimmed(s).last()),
{
    let p = |c: char| is_space(c);
    let from = run_end(s, 0, p);
    lemma_run_end(s, 0, p);
    let to = trim_end_at(s, from, s.len() as int);
    lemma_trim_end(s, from, s.len() as int);
    assert forall|i: int| 0 <= i < from implies blank(#[trigger] s[i]) by {
        assert(p(s[i]));
        lemma_chars(s[i]);
    }
    if from < s.len() {
        lemma_chars(s[from]);
    }
    from
}

proof fn lemma_trim_end(s: Seq<char>, from: int, n: int)
    requires
        0 <= from <= n <= s.len(),
    ensures
        from <= trim_end_at(s, from, n) <= n,
        forall|i: int| trim_end_at(s, from, n) <= i < n ==> blank(#[trigger] s[i]),
        trim_end_at(s, from, n) > from ==> !blank(s[trim_end_at(s, from, n) - 1]),
    decreases n - from,
{
    if from < n {
        lemma_chars(s[n - 1]);
        if is_space(s[n - 1]) {
            lemma_trim_end(s, from, n - 1);
        }
    }
}

/// A text without the semicolons at its end, and with all else.
pub proof fn law_no_semicolon_is_left(s: Seq<char>)
    ensures
        unterminated(s).len() <= s.len(),
        unterminated(s) == s.take(unterminated(s).len() as int),
        forall|i: int| unterminated(s).len() <= i < s.len() ==> #[trigger] s[i] == ';',
        unterminated(s).len() > 0 ==> unterminated(s).last() != ';',
    decreases s.len(),
{
    if s.len() > 0 && s.last() == ';' {
        law_no_semicolon_is_left(s.drop_last());
        let u = unterminated(s);
        assert(s.drop_last().take(u.len() as int) =~= s.take(u.len() as int));
        assert forall|i: int| u.len() <= i < s.len() implies #[trigger] s[i] == ';' by {
            if i < s.len() - 1 {
                assert(s.drop_last()[i] == ';');
            }
        }
    } else {
        assert(s.take(s.len() as int) =~= s);
    }
}

/// A text starts as an upper-case word does, in any case. Of a text that is not all ASCII this is up
/// to its upper-case form.
pub open spec fn starts_as(s: Seq<char>, k: Seq<char>) -> bool {
    if forall|i: int| 0 <= i < s.len() ==> 128 > (#[trigger] s[i]) as int {
        k.len() <= s.len() && same_but_for_case(s.take(k.len() as int), k)
    } else {
        k.is_prefix_of(wide_upper(s))
    }
}

proof fn lemma_starts_as(s: Seq<char>, k: Seq<char>)
    requires
        forall|i: int| 0 <= i < k.len() ==> 'A' <= #[trigger] k[i] <= 'Z',
    ensures
        starts_as(s, k) == k.is_prefix_of(upper(s)),
{
    let u = upper(s);
    if forall|i: int| 0 <= i < s.len() ==> 128 > (#[trigger] s[i]) as int {
        assert(crate::sql::lexer::all_ascii(s)) by {
            assert forall|i: int| 0 <= i < s.len() implies is_ascii_char(#[trigger] s[i]) by {}
        }
        if k.len() <= s.len() {
            let n = k.len() as int;
            let t = s.take(n);
            if same_but_for_case(t, k) {
                assert forall|i: int| 0 <= i < n implies u.subrange(0, n)[i] == k[i] by {
                    assert(t[i] == s[i]);
                    assert(t[i] == k[i] || ('A' <= k[i] <= 'Z' && t[i] as int == k[i] as int + 32));
                    assert('A' <= k[i] <= 'Z');
                }
                assert(u.subrange(0, n) =~= k);
            }
            if k.is_prefix_of(u) {
                assert forall|i: int| 0 <= i < t.len() implies (#[trigger] t[i] == k[i] || ('A'
                    <= k[i] <= 'Z' && t[i] as int == k[i] as int + 32)) by {
                    assert(u.subrange(0, n)[i] == k[i]);
                    assert(u[i] == upper_char(s[i]));
                }
            }
        }
    } else {
        let i = choose|i: int| 0 <= i < s.len() && !(128 > (#[trigger] s[i]) as int);
        assert(!is_ascii_char(s[i]));
    }
}

proof fn lemma_words()
    ensures
        forall|i: int| 0 <= i < "SELECT"@.len() ==> 'A' <= #[trigger] "SELECT"@[i] <= 'Z',
        forall|i: int| 0 <= i < "INSERT"@.len() ==> 'A' <= #[trigger] "INSERT"@[i] <= 'Z',
        forall|i: int| 0 <= i < "UPDATE"@.len() ==> 'A' <= #[trigger] "UPDATE"@[i] <= 'Z',
        forall|i: int| 0 <= i < "DELETE"@.len() ==> 'A' <= #[trigger] "DELETE"@[i] <= 'Z',
        forall|i: int| 0 <= i < "CREATE"@.len() ==> 'A' <= #[trigger] "CREATE"@[i] <= 'Z',
        forall|i: int| 0 <= i < "BEGIN"@.len() ==> 'A' <= #[trigger] "BEGIN"@[i] <= 'Z',
        forall|i: int| 0 <= i < "COMMIT"@.len() ==> 'A' <= #[trigger] "COMMIT"@[i] <= 'Z',
        forall|i: int| 0 <= i < "ROLLBACK"@.len() ==> 'A' <= #[trigger] "ROLLBACK"@[i] <= 'Z',
        forall|i: int| 0 <= i < "FROM"@.len() ==> 'A' <= #[trigger] "FROM"@[i] <= 'Z',
        forall|i: int| 0 <= i < "INTO"@.len() ==> 'A' <= #[trigger] "INTO"@[i] <= 'Z',
        forall|i: int| 0 <= i < "TABLE"@.len() ==> 'A' <= #[trigger] "TABLE"@[i] <= 'Z',
{
    reveal_strlit("SELECT");
    reveal_strlit("INSERT");
    reveal_strlit("UPDATE");
    reveal_strlit("DELETE");
    reveal_strlit("CREATE");
    reveal_strlit("BEGIN");
    reveal_strlit("COMMIT");
    reveal_strlit("ROLLBACK");
    reveal_strlit("FROM");
    reveal_strlit("INTO");
    reveal_strlit("TABLE");
}

/// To write takes an exclusive lock, to read a shared one.
pub proof fn law_writers_lock_exclusively(sql: Seq<char>)
    ensures
        lock_mode(sql) == LockMode::Exclusive <==> starts_as(sql, "INSERT"@) || starts_as(
            sql,
            "UPDATE"@,
        ) || starts_as(sql, "DELETE"@),
{
    lemma_words();
    lemma_starts_as(sql, "INSERT"@);
    lemma_starts_as(sql, "UPDATE"@);
    lemma_starts_as(sql, "DELETE"@);
}

/// The lines that need no semicolon are those that start with one of these words.
pub proof fn law_which_lines_are_complete(line: Seq<char>)
    ensures
        complete(line) <==> {
            let t = trimmed(line);
            ||| starts_as(t, "SELECT"@)
            ||| starts_as(t, "INSERT"@)
            ||| starts_as(t, "DELETE"@)
            ||| starts_as(t, "CREATE"@)
            ||| starts_as(t, "BEGIN"@)
            ||| starts_as(t, "COMMIT"@)
            ||| starts_as(t, "ROLLBACK"@)
        },
{
    let t = trimmed(line);
    lemma_words();
    lemma_starts_as(t, "SELECT"@);
    lemma_starts_as(t, "INSERT"@);
    lemma_starts_as(t, "DELETE"@);
    lemma_starts_as(t, "CREATE"@);
    lemma_starts_as(t, "BEGIN"@);
    lemma_starts_as(t, "COMMIT"@);
    lemma_starts_as(t, "ROLLBACK"@);
}

/// The keyword and a blank stand at position `i`, the keyword in any case.
pub open spec fn keyword_at(s: Seq<char>, k: Seq<char>, i: int) -> bool {
    &&& 0 <= i
    &&& i + k.len() < s.len()
    &&& same_but_for_case(s.subrange(i, i + k.len()), k)
    &&& s[i + k.len()] == ' '
}

/// The name at position `i`: all characters of names from there on.
pub open spec fn name_at(s: Seq<char>, i: int, name: Seq<char>) -> bool {
    &&& i + name.len() <= s.len()
    &&& name == s.subrange(i, i + name.len())
    &&& forall|k: int| 0 <= k < name.len() ==> goes_on(#[trigger] name[k])
    &&& i + name.len() < s.len() ==> !goes_on(s[i + name.len()])
}

proof fn lemma_keyword_at(s: Seq<char>, k: Seq<char>, w: Seq<char>, i: int)
    requires
        0 <= i,
        w == k + seq![' '],
        forall|j: int| 0 <= j < k.len() ==> 'A' <= #[trigger] k[j] <= 'Z',
    ensures
        keyword_at(s, k, i) == word_at(s, w, i),
{
    let n = k.len() as int;
    assert(w[n] == ' ');
    if word_at(s, w, i) {
        let t = s.subrange(i, i + n);
        assert(upper_char(s[i + n]) == w[n]);
        assert forall|j: int| 0 <= j < t.len() implies (#[trigger] t[j] == k[j] || ('A' <= k[j]
            <= 'Z' && t[j] as int == k[j] as int + 32)) by {
            assert(w[j] == k[j]);
            assert(upper_char(s[i + j]) == w[j]);
        }
    }
    if keyword_at(s, k, i) {
        let t = s.subrange(i, i + n);
        assert forall|j: int| 0 <= j < w.len() implies upper_char(s[i + j]) == #[trigger] w[j] by {
            if j < n {
                assert(t[j] == s[i + j]);
                assert(t[j] == k[j] || ('A' <= k[j] <= 'Z' && t[j] as int == k[j] as int + 32));
                assert('A' <= k[j] <= 'Z');
                assert(w[j] == k[j]);
            }
        }
    }
}

/// Where a keyword is found: at the first position where it stands.
proof fn lemma_word_pos(s: Seq<char>, w: Seq<char>, i: int)
    requires
        0 <= i,
        w.len() > 0,
    ensures
        match word_pos(s, w, i) {
            Some(p) => i <= p && word_at(s, w, p) && forall|q: int|
                i <= q < p ==> !#[trigger] word_at(s, w, q),
            None => forall|q: int| i <= q ==> !#[trigger] word_at(s, w, q),
        },
    decreases s.len() - i,
{
    if i < s.len() && !word_at(s, w, i) {
        lemma_word_pos(s, w, i + 1);
    }
}

proof fn lemma_name_after(s: Seq<char>, k: Seq<char>, w: Seq<char>)
    requires
        w == k + seq![' '],
        forall|j: int| 0 <= j < k.len() ==> 'A' <= #[trigger] k[j] <= 'Z',
    ensures
        match name_after(s, w) {
            Some(name) => exists|i: int| #[trigger]
                keyword_at(s, k, i) && name_at(s, i + k.len() + 1, name) && forall|q: int|
                0 <= q < i ==> !#[trigger] keyword_at(s, k, q),
            None => forall|q: int| !#[trigger] keyword_at(s, k, q),
        },
{
    lemma_word_pos(s, w, 0);
    assert forall|q: int| 0 <= q implies #[trigger] keyword_at(s, k, q) == word_at(s, w, q) by {
        lemma_keyword_at(s, k, w, q);
    }
    if let Some(i) = word_pos(s, w, 0) {
        let p = |c: char| is_word(c);
        let from = i + w.len();
        lemma_run_end(s, from, p);
        let e = run_end(s, from, p);
        let name = s.subrange(from, e);
        assert forall|j: int| 0 <= j < name.len() implies goes_on(#[trigger] name[j]) by {
            assert(p(s[from + j]));
            lemma_chars(s[from + j]);
        }
        if e < s.len() {
            lemma_chars(s[e]);
        }
        assert(word_at(s, w, i));
        assert(keyword_at(s, k, i));
        assert(name_at(s, i + k.len() + 1, name));
    }
}

/// The table that a statement is taken to be about: the name behind the first FROM, behind the first
/// INTO if there is no FROM, behind the first TABLE if there is neither.
pub proof fn law_which_table_is_named(s: Seq<char>) -> (k: Seq<char>)
    ensures
        k == "FROM"@ || k == "INTO"@ || k == "TABLE"@,
        k != "FROM"@ ==> forall|q: int| !#[trigger] keyword_at(s, "FROM"@, q),
        k != "FROM"@ && k != "INTO"@ ==> forall|q: int| !#[trigger] keyword_at(s, "INTO"@, q),
        match table_named(s) {
            Some(name) => exists|i: int| #[trigger]
                keyword_at(s, k, i) && name_at(s, i + k.len() + 1, name) && forall|q: int|
                0 <= q < i ==> !#[trigger] keyword_at(s, k, q),
            None => forall|q: int| !#[trigger] keyword_at(s, k, q),
        },
{
    lemma_words();
    reveal_strlit("FROM");
    reveal_strlit("INTO");
    reveal_strlit("TABLE");
    reveal_strlit("FROM ");
    reveal_strlit("INTO ");
    reveal_strlit("TABLE ");
    assert("FROM "@ =~= "FROM"@ + seq![' ']);
    assert("INTO "@ =~= "INTO"@ + seq![' ']);
    assert("TABLE "@ =~= "TABLE"@ + seq![' ']);
    lemma_name_after(s, "FROM"@, "FROM "@);
    lemma_name_after(s, "INTO"@, "INTO "@);
    lemma_name_after(s, "TABLE"@, "TABLE "@);
    if name_after(s, "FROM "@) is Some {
        "FROM"@
    } else if name_after(s, "INTO "@) is Some {
        "INTO"@
    } else {
        "TABLE"@
    }
}

// Lines.

/// A line is a command: but for the blanks around it and its case it is this word.
pub open spec fn is_command(line: Seq<char>, k: Seq<char>) -> bool {
    reads_as(trimmed(line), k)
}

proof fn lemma_commands(line: Seq<char>)
    ensures
        is_command(line, "\\QUIT"@) == (upper(trimmed(line)) == "\\QUIT"@),
        is_command(line, "\\Q"@) == (upper(trimmed(line)) == "\\Q"@),
        is_command(line, "EXIT"@) == (upper(trimmed(line)) == "EXIT"@),
        is_command(line, "QUIT"@) == (upper(trimmed(line)) == "QUIT"@),
        is_command(line, "\\HELP"@) == (upper(trimmed(line)) == "\\HELP"@),
        is_command(line, "\\H"@) == (upper(trimmed(line)) == "\\H"@),
        is_command(line, "\\TABLES"@) == (upper(trimmed(line)) == "\\TABLES"@),
        is_command(line, "BEGIN"@) == (upper(trimmed(line)) == "BEGIN"@),
        is_command(line, "BEGIN;"@) == (upper(trimmed(line)) == "BEGIN;"@),
        is_command(line, "COMMIT"@) == (upper(trimmed(line)) == "COMMIT"@),
        is_command(line, "COMMIT;"@) == (upper(trimmed(line)) == "COMMIT;"@),
        is_command(line, "ROLLBACK"@) == (upper(trimmed(line)) == "ROLLBACK"@),
        is_command(line, "ROLLBACK;"@) == (upper(trimmed(line)) == "ROLLBACK;"@),
{
    reveal_strlit("\\QUIT");
    reveal_strlit("\\Q");
    reveal_strlit("EXIT");
    reveal_strlit("QUIT");
    reveal_strlit("\\HELP");
    reveal_strlit("\\H");
    reveal_strlit("\\TABLES");
    reveal_strlit("BEGIN");
    reveal_strlit("BEGIN;");
    reveal_strlit("COMMIT");
    reveal_strlit("COMMIT;");
    reveal_strlit("ROLLBACK");
    reveal_strlit("ROLLBACK;");
    let t = trimmed(line);
    lemma_reads_as(t, "\\QUIT"@);
    lemma_reads_as(t, "\\Q"@);
    lemma_reads_as(t, "EXIT"@);
    lemma_reads_as(t, "QUIT"@);
    lemma_reads_as(t, "\\HELP"@);
    lemma_reads_as(t, "\\H"@);
    lemma_reads_as(t, "\\TABLES"@);
    lemma_reads_as(t, "BEGIN"@);
    lemma_reads_as(t, "BEGIN;"@);
    lemma_reads_as(t, "COMMIT"@);
    lemma_reads_as(t, "COMMIT;"@);
    lemma_reads_as(t, "ROLLBACK"@);
    lemma_reads_as(t, "ROLLBACK;"@);
}

proof fn lemma_commands_differ()
    ensures
        "\\QUIT"@.len() == 5 && "\\QUIT"@[0] == '\\',
        "\\Q"@.len() == 2 && "\\Q"@[1] == 'Q',
        "EXIT"@.len() == 4 && "EXIT"@[0] == 'E',
        "QUIT"@.len() == 4 && "QUIT"@[0] == 'Q',
        "\\HELP"@.len() == 5 && "\\HELP"@[0] == '\\' && "\\HELP"@[1] == 'H' && "\\QUIT"@[1] == 'Q',
        "\\H"@.len() == 2 && "\\H"@[1] == 'H',
        "\\TABLES"@.len() == 7,
        "BEGIN"@.len() == 5 && "BEGIN"@[0] == 'B',
        "BEGIN;"@.len() == 6 && "BEGIN;"@[0] == 'B',
        "COMMIT"@.len() == 6 && "COMMIT"@[0] == 'C',
        "COMMIT;"@.len() == 7 && "COMMIT;"@[0] == 'C' && "\\TABLES"@[0] == '\\',
        "ROLLBACK"@.len() == 8,
        "ROLLBACK;"@.len() == 9,
{
    reveal_strlit("\\QUIT");
    reveal_strlit("\\Q");
    reveal_strlit("EXIT");
    reveal_strlit("QUIT");
    reveal_strlit("\\HELP");
    reveal_strlit("\\H");
    reveal_strlit("\\TABLES");
    reveal_strlit("BEGIN");
    reveal_strlit("BEGIN;");
    reveal_strlit("COMMIT");
    reveal_strlit("COMMIT;");
    reveal_strlit("ROLLBACK");
    reveal_strlit("ROLLBACK;");
}

pub open spec fn asks_to_quit(line: Seq<char>) -> bool {
    is_command(line, "\\QUIT"@) || is_command(line, "\\Q"@) || is_command(line, "EXIT"@)
        || is_command(line, "QUIT"@)
}

pub open spec fn asks_for_help(line: Seq<char>) -> bool {
    is_command(line, "\\HELP"@) || is_command(line, "\\H"@)
}

pub open spec fn asks_for_tables(line: Seq<char>) -> bool {
    is_command(line, "\\TABLES"@)
}

pub open spec fn begins(line: Seq<char>) -> bool {
    is_command(line, "BEGIN"@) || is_command(line, "BEGIN;"@)
}

pub open spec fn commits(line: Seq<char>) -> bool {
    is_command(line, "COMMIT"@) || is_command(line, "COMMIT;"@)
}

pub open spec fn rolls_back(line: Seq<char>) -> bool {
    is_command(line, "ROLLBACK"@) || is_command(line, "ROLLBACK;"@)
}

pub open spec fn is_statement(line: Seq<char>) -> bool {
    !asks_to_quit(line) && !asks_for_help(line) && !asks_for_tables(line) && !begins(line)
        && !commits(line) && !rolls_back(line)
}

/// A line that asks for something changes nothing.
pub proof fn law_questions_change_nothing(v: ShellView, line: Seq<char>)
    ensures
        asks_to_quit(line) ==> shell_line(v, line) == (v, StepView::Quit),
        asks_for_help(line) ==> shell_line(v, line) == (v, StepView::Help),
        asks_for_tables(line) ==> shell_line(v, line) == (v, StepView::Tables),
        shell_line(v, line).1 is Quit ==> asks_to_quit(line),
        shell_line(v, line).1 is Help ==> asks_for_help(line),
        shell_line(v, line).1 is Tables ==> asks_for_tables(line),
{
    lemma_commands(line);
    lemma_commands_differ();
}

/// BEGIN starts a transaction where there is none, with an id that no transaction had, and changes
/// nothing where there is one.
pub proof fn law_begin(v: ShellView, line: Seq<char>)
    requires
        begins(line),
        v.next_txn < u32::MAX,
    ensures
        v.txn is Some ==> shell_line(v, line) == (v, StepView::AlreadyInTxn),
        v.txn is None ==> {
            let (u, step) = shell_line(v, line);
            &&& u.txn == Some(v.next_txn)
            &&& step == StepView::Began(v.next_txn)
            &&& u.next_txn > v.next_txn
            &&& u.buffer == v.buffer
            &&& u.locks == v.locks
        },
{
    lemma_commands(line);
    lemma_commands_differ();
}

/// COMMIT and ROLLBACK end the transaction: it holds no lock any more, and the others keep theirs.
/// Where there is none they change nothing.
pub proof fn law_end_of_transaction(
    v: ShellView,
    line: Seq<char>,
    other: u32,
    rid: Rid,
    mode: LockMode,
)
    requires
        commits(line) || rolls_back(line),
        locks_ok(v.locks),
    ensures
        ({
            let (u, step) = shell_line(v, line);
            match v.txn {
                None => u == v && step is NoTxn,
                Some(id) => {
                    &&& u.txn is None
                    &&& step == if commits(line) {
                        StepView::Committed(id)
                    } else {
                        StepView::RolledBack(id)
                    }
                    &&& u.buffer == v.buffer
                    &&& u.next_txn == v.next_txn
                    &&& locks_ok(u.locks)
                    &&& !lock_held(u.locks, id, rid, mode)
                    &&& other != id && lock_held(v.locks, other, rid, mode) ==> lock_held(
                        u.locks,
                        other,
                        rid,
                        mode,
                    )
                },
            }
        }),
{
    lemma_commands(line);
    lemma_commands_differ();
    if let Some(id) = v.txn {
        law_release(v.locks, id, other, rid, mode);
    }
}

/// A line of a statement ends it if it ends with a semicolon or is complete as it is.
pub open spec fn ends_statement(line: Seq<char>) -> bool {
    let t = trimmed(line);
    (t.len() > 0 && t.last() == ';') || complete(t)
}

/// The lines of a statement so far, with one more.
pub open spec fn gathered(v: ShellView, line: Seq<char>) -> Seq<char> {
    v.buffer + trimmed(line) + seq![' ']
}

/// The statement that lines make up: without blanks around it, and without semicolons at its end.
pub open spec fn statement_of(lines: Seq<char>) -> Seq<char> {
    trimmed(unterminated(trimmed(lines)))
}

/// A line that does not end a statement is kept, and nothing else changes.
pub proof fn law_unfinished_statement_is_kept(v: ShellView, line: Seq<char>)
    requires
        is_statement(line),
        !ends_statement(line),
    ensures
        shell_line(v, line) == (
            (ShellView { buffer: gathered(v, line), ..v }),
            StepView::More,
        ),
{
    lemma_commands(line);
    reveal_strlit(" ");
    assert(" "@ =~= seq![' ']);
}

/// A line that ends a statement has it run, whole, and the next line starts another one. Inside a
/// transaction the statement takes the lock on all rows first: it runs with that lock, or waits, or is
/// refused; outside it takes none. An empty statement is not run and takes no lock.
pub proof fn law_finished_statement_is_run(v: ShellView, line: Seq<char>)
    requires
        is_statement(line),
        ends_statement(line),
        locks_ok(v.locks),
    ensures
        ({
            let (u, step) = shell_line(v, line);
            let sql = statement_of(gathered(v, line));
            let mode = if starts_as(sql, "INSERT"@) || starts_as(sql, "UPDATE"@) || starts_as(
                sql,
                "DELETE"@,
            ) {
                LockMode::Exclusive
            } else {
                LockMode::Shared
            };
            &&& u.buffer.len() == 0
            &&& u.txn == v.txn
            &&& u.next_txn == v.next_txn
            &&& locks_ok(u.locks)
            &&& sql.len() == 0 ==> step is Nothing && u.locks == v.locks
            &&& sql.len() > 0 ==> match v.txn {
                None => u.locks == v.locks && step == (StepView::Run {
                    sql,
                    table: table_named(sql),
                    waiting: false,
                }),
                Some(id) => if way_is_free(v.locks, id, table_lock(), mode) {
                    &&& step == (StepView::Run { sql, table: table_named(sql), waiting: false })
                    &&& lock_held(u.locks, id, table_lock(), mode)
                } else {
                    step is Deadlock || step == (StepView::Run {
                        sql,
                        table: table_named(sql),
                        waiting: true,
                    })
                },
            }
        }),
{
    lemma_commands(line);
    reveal_strlit(" ");
    assert(" "@ =~= seq![' ']);
    let sql = statement_of(gathered(v, line));
    law_writers_lock_exclusively(sql);
    if let Some(id) = v.txn {
        law_acquire(v.locks, id, table_lock(), lock_mode(sql));
        law_lock_is_granted(v.locks, id, table_lock(), lock_mode(sql));
    }
}

/// What is said after a statement goes by the word that it starts with.
pub proof fn law_outcome_goes_by_the_first_word(sql: Seq<char>)
    ensures
        starts_as(sql, "CREATE"@) ==> outcome(sql) == "Table created."@,
        starts_as(sql, "INSERT"@) ==> outcome(sql) == "1 row inserted."@,
        starts_as(sql, "DELETE"@) ==> outcome(sql) == "Rows deleted."@,
        !starts_as(sql, "CREATE"@) && !starts_as(sql, "INSERT"@) && !starts_as(sql, "DELETE"@)
            ==> outcome(sql).len() == 0,
{
    lemma_words();
    lemma_starts_as(sql, "CREATE"@);
    lemma_starts_as(sql, "INSERT"@);
    lemma_starts_as(sql, "DELETE"@);
    reveal_strlit("CREATE");
    reveal_strlit("INSERT");
    reveal_strlit("DELETE");
    reveal_strlit("");
    let u = upper(sql);
    if "INSERT"@.is_prefix_of(u) {
        assert(u.subrange(0, 6)[0] == 'I');
    }
    if "CREATE"@.is_prefix_of(u) {
        assert(u.subrange(0, 6)[0] == 'C');
    }
    if "DELETE"@.is_prefix_of(u) {
        assert(u.subrange(0, 6)[0] == 'D');
    }
}

} // verus!
