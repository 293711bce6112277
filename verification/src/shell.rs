//! The interactive shell: what each line of input means, and which locks it takes.
use crate::concurrency::lock_manager::{
    lock_acquire, lock_release, LockManager, LockMode, LockView,
};
use crate::concurrency::transaction::Rid;
use crate::sql::lexer::{
    chars_of, code, is_space, is_word, run_end, space_char, text_between, upper, upper_char,
    upper_text, word_char,
};
use crate::text::text_eq;
use vstd::prelude::*;
use vstd::string::*;

verus! {

// Text.

/// Where the text before `n` ends when white space at its end is left out, but not before `from`.
pub open spec fn trim_end_at(s: Seq<char>, from: int, n: int) -> int
    decreases n - from,
{
    if from < n && is_space(s[n - 1]) {
        trim_end_at(s, from, n - 1)
    } else {
        n
    }
}

/// A text without white space at its start and its end.
pub open spec fn trimmed(s: Seq<char>) -> Seq<char> {
    let from = run_end(s, 0, |c: char| is_space(c));
    s.subrange(from, trim_end_at(s, from, s.len() as int))
}

/// A text without semicolons at its end.
pub open spec fn unterminated(s: Seq<char>) -> Seq<char>
    decreases s.len(),
{
    if s.len() > 0 && s.last() == ';' {
        unterminated(s.drop_last())
    } else {
        s
    }
}

/// A text without white space around it.
pub fn trim_text(s: &str) -> (t: String)
    ensures
        t@ == trimmed(s@),
{
    let chars = chars_of(s);
    let n: usize = chars.len();
    let mut from: usize = 0;
    while from < n && space_char(chars[from])
        invariant
            from <= n,
            n == chars@.len(),
            run_end(chars@, 0, |c: char| is_space(c)) == run_end(
                chars@,
                from as int,
                |c: char| is_space(c),
            ),
        decreases n - from,
    {
        from = from + 1;
    }
    let mut to: usize = n;
    while to > from && space_char(chars[to - 1])
        invariant
            from <= to <= n,
            n == chars@.len(),
            trim_end_at(chars@, from as int, n as int) == trim_end_at(
                chars@,
                from as int,
                to as int,
            ),
        decreases to - from,
    {
        to = to - 1;
    }
    text_between(&chars, from, to)
}

/// A text without semicolons at its end.
pub fn strip_semicolons(s: &str) -> (t: String)
    ensures
        t@ == unterminated(s@),
{
    let chars = chars_of(s);
    let n: usize = chars.len();
    let mut to: usize = n;
    assert(chars@.take(n as int) =~= chars@);
    while to > 0 && chars[to - 1] == ';'
        invariant
            to <= n,
            n == chars@.len(),
            unterminated(chars@) == unterminated(chars@.take(to as int)),
        decreases to,
    {
        assert(chars@.take(to as int).drop_last() =~= chars@.take(to - 1));
        to = to - 1;
    }
    assert(chars@.take(to as int) =~= chars@.subrange(0, to as int));
    text_between(&chars, 0, to)
}

fn starts_with(s: &str, start: &str) -> (b: bool)
    ensures
        b == start@.is_prefix_of(s@),
{
    let a = chars_of(s);
    let p = chars_of(start);
    if p.len() > a.len() {
        return false;
    }
    let n: usize = p.len();
    let mut i: usize = 0;
    while i < n
        invariant
            i <= n,
            n == p@.len(),
            n <= a@.len(),
            a@ == s@,
            p@ == start@,
            forall|k: int| 0 <= k < i ==> a@[k] == p@[k],
        decreases n - i,
    {
        if a[i] != p[i] {
            assert(!p@.is_prefix_of(a@)) by {
                if p@.is_prefix_of(a@) {
                    assert(a@.subrange(0, n as int)[i as int] == p@[i as int]);
                }
            }
            return false;
        }
        i = i + 1;
    }
    assert(a@.subrange(0, n as int) =~= p@);
    true
}

// What a line means.

/// A line that is executed without a semicolon at its end.
pub open spec fn complete(line: Seq<char>) -> bool {
    let u = upper(trimmed(line));
    ||| "SELECT"@.is_prefix_of(u)
    ||| "INSERT"@.is_prefix_of(u)
    ||| "DELETE"@.is_prefix_of(u)
    ||| "CREATE"@.is_prefix_of(u)
    ||| "BEGIN"@.is_prefix_of(u)
    ||| "COMMIT"@.is_prefix_of(u)
    ||| "ROLLBACK"@.is_prefix_of(u)
}

/// Tells whether a line is executed without a semicolon at its end.
pub fn looks_complete(line: &str) -> (b: bool)
    ensures
        b == complete(line@),
{
    let t = trim_text(line);
    let u = upper_text(t.as_str());
    starts_with(u.as_str(), "SELECT") || starts_with(u.as_str(), "INSERT") || starts_with(
        u.as_str(),
        "DELETE",
    ) || starts_with(u.as_str(), "CREATE") || starts_with(u.as_str(), "BEGIN") || starts_with(
        u.as_str(),
        "COMMIT",
    ) || starts_with(u.as_str(), "ROLLBACK")
}

/// The keyword `word` stands at position `i`, in any case.
pub open spec fn word_at(s: Seq<char>, word: Seq<char>, i: int) -> bool {
    &&& i + word.len() <= s.len()
    &&& forall|k: int| 0 <= k < word.len() ==> upper_char(s[i + k]) == #[trigger] word[k]
}

/// The first position from `i` on at which the keyword stands.
pub open spec fn word_pos(s: Seq<char>, word: Seq<char>, i: int) -> Option<int>
    decreases s.len() - i,
{
    if i < 0 || i >= s.len() {
        None
    } else if word_at(s, word, i) {
        Some(i)
    } else {
        word_pos(s, word, i + 1)
    }
}

/// The name after the first occurrence of a keyword.
pub open spec fn name_after(s: Seq<char>, word: Seq<char>) -> Option<Seq<char>> {
    match word_pos(s, word, 0) {
        Some(i) => {
            let from = i + word.len();
            Some(s.subrange(from, run_end(s, from, |c: char| is_word(c))))
        },
        None => None,
    }
}

/// The table that a statement seems to be about.
pub open spec fn table_named(s: Seq<char>) -> Option<Seq<char>> {
    match name_after(s, "FROM "@) {
        Some(t) => Some(t),
        None => match name_after(s, "INTO "@) {
            Some(t) => Some(t),
            None => name_after(s, "TABLE "@),
        },
    }
}

fn find_name(s: &Vec<char>, word: &str) -> (res: Option<String>)
    requires
        word@.len() > 0,
    ensures
        match (res, name_after(s@, word@)) {
            (Some(t), Some(v)) => t@ == v,
            (None, None) => true,
            _ => false,
        },
{
    let w = chars_of(word);
    let n: usize = s.len();
    let m: usize = w.len();
    let mut i: usize = 0;
    while i < n
        invariant
            i <= n,
            n == s@.len(),
            m == w@.len(),
            m > 0,
            w@ == word@,
            word_pos(s@, w@, 0) == word_pos(s@, w@, i as int),
        decreases n - i,
    {
        let mut k: usize = 0;
        let fits = m <= n - i;
        let mut same = fits;
        while same && k < m
            invariant
                k <= m,
                i < n,
                n == s@.len(),
                m == w@.len(),
                same ==> m <= n - i,
                same ==> forall|j: int| 0 <= j < k ==> upper_char(s@[i + j]) == #[trigger] w@[j],
                !same && fits ==> !word_at(s@, w@, i as int),
                fits == (m <= n - i),
            decreases m - k + if same {
                1int
            } else {
                0
            },
        {
            let c: char = s[i + k];
            let x: u32 = code(c);
            let up: char = if 97 <= x && x <= 122 {
                (x as u8 - 32) as char
            } else {
                c
            };
            assert(up == upper_char(c));
            if up != w[k] {
                assert(upper_char(s@[i + k]) != w@[k as int]);
                same = false;
            } else {
                k = k + 1;
            }
        }
        if same {
            assert(word_at(s@, w@, i as int));
            let from: usize = i + m;
            let mut to: usize = from;
            while to < n && word_char(s[to])
                invariant
                    from <= to <= n,
                    n == s@.len(),
                    run_end(s@, from as int, |c: char| is_word(c)) == run_end(
                        s@,
                        to as int,
                        |c: char| is_word(c),
                    ),
                decreases n - to,
            {
                to = to + 1;
            }
            return Some(text_between(s, from, to));
        }
        i = i + 1;
    }
    None
}

/// The table that a statement seems to be about: the name after FROM, INTO or TABLE.
pub fn extract_table(sql: &str) -> (res: Option<String>)
    ensures
        match (res, table_named(sql@)) {
            (Some(t), Some(v)) => t@ == v,
            (None, None) => true,
            _ => false,
        },
{
    proof {
        reveal_strlit("FROM ");
        reveal_strlit("INTO ");
        reveal_strlit("TABLE ");
    }
    let chars = chars_of(sql);
    if let Some(t) = find_name(&chars, "FROM ") {
        return Some(t);
    }
    if let Some(t) = find_name(&chars, "INTO ") {
        return Some(t);
    }
    find_name(&chars, "TABLE ")
}

/// What is said after a statement that returned no rows.
pub open spec fn outcome(sql: Seq<char>) -> Seq<char> {
    let u = upper(sql);
    if "CREATE"@.is_prefix_of(u) {
        "Table created."@
    } else if "INSERT"@.is_prefix_of(u) {
        "1 row inserted."@
    } else if "DELETE"@.is_prefix_of(u) {
        "Rows deleted."@
    } else {
        ""@
    }
}

/// What is said after a statement that returned no rows; empty if nothing is.
pub fn outcome_text(sql: &str) -> (s: String)
    ensures
        s@ == outcome(sql@),
{
    let u = upper_text(sql);
    if starts_with(u.as_str(), "CREATE") {
        "Table created.".to_owned()
    } else if starts_with(u.as_str(), "INSERT") {
        "1 row inserted.".to_owned()
    } else if starts_with(u.as_str(), "DELETE") {
        "Rows deleted.".to_owned()
    } else {
        "".to_owned()
    }
}

// The shell.

/// What is to be done after a line.
#[derive(Debug, PartialEq)]
pub enum Step {
    Quit,
    Help,
    /// List the tables.
    Tables,
    /// BEGIN inside of a transaction.
    AlreadyInTxn,
    Began(u32),
    Committed(u32),
    RolledBack(u32),
    /// COMMIT or ROLLBACK outside of a transaction.
    NoTxn,
    /// Read another line of the statement.
    More,
    Nothing,
    /// The statement is refused because of its locks.
    Deadlock(String),
    /// Execute a statement; `waiting` tells that it should wait for a lock.
    Run { sql: String, table: Option<String>, waiting: bool },
}

/// The mathematical counterpart of `Step`.
#[verifier::ext_equal]
pub enum StepView {
    Quit,
    Help,
    Tables,
    AlreadyInTxn,
    Began(u32),
    Committed(u32),
    RolledBack(u32),
    NoTxn,
    More,
    Nothing,
    Deadlock(Seq<char>),
    Run { sql: Seq<char>, table: Option<Seq<char>>, waiting: bool },
}

pub open spec fn name_view(s: Option<String>) -> Option<Seq<char>> {
    match s {
        Some(t) => Some(t@),
        None => None,
    }
}

impl View for Step {
    type V = StepView;

    open spec fn view(&self) -> StepView {
        match *self {
            Step::Quit => StepView::Quit,
            Step::Help => StepView::Help,
            Step::Tables => StepView::Tables,
            Step::AlreadyInTxn => StepView::AlreadyInTxn,
            Step::Began(id) => StepView::Began(id),
            Step::Committed(id) => StepView::Committed(id),
            Step::RolledBack(id) => StepView::RolledBack(id),
            Step::NoTxn => StepView::NoTxn,
            Step::More => StepView::More,
            Step::Nothing => StepView::Nothing,
            Step::Deadlock(e) => StepView::Deadlock(e@),
            Step::Run { sql, table, waiting } => StepView::Run {
                sql: sql@,
                table: name_view(table),
                waiting,
            },
        }
    }
}

/// The mathematical counterpart of `Shell`.
#[verifier::ext_equal]
pub struct ShellView {
    /// The lines of the statement so far.
    pub buffer: Seq<char>,
    pub txn: Option<u32>,
    pub next_txn: u32,
    pub locks: LockView,
}

/// The row that stands for all rows in table locks.
pub open spec fn table_lock() -> Rid {
    Rid { page_id: u32::MAX, slot_id: 0 }
}

/// The lock that a statement needs: an exclusive one to insert, update or delete, otherwise a shared
/// one.
pub open spec fn lock_mode(sql: Seq<char>) -> LockMode {
    let u = upper(sql);
    if "INSERT"@.is_prefix_of(u) || "UPDATE"@.is_prefix_of(u) || "DELETE"@.is_prefix_of(u) {
        LockMode::Exclusive
    } else {
        LockMode::Shared
    }
}

/// Tells which lock a statement needs.
pub fn needed_lock(sql: &str) -> (mode: LockMode)
    ensures
        mode == lock_mode(sql@),
{
    let u = upper_text(sql);
    if starts_with(u.as_str(), "INSERT") || starts_with(u.as_str(), "UPDATE") || starts_with(
        u.as_str(),
        "DELETE",
    ) {
        LockMode::Exclusive
    } else {
        LockMode::Shared
    }
}

/// The end of a transaction.
pub open spec fn shell_end(v: ShellView, step: StepView) -> (ShellView, StepView) {
    match v.txn {
        Some(id) => (ShellView { txn: None, locks: lock_release(v.locks, id), ..v }, step),
        None => (v, StepView::NoTxn),
    }
}

/// A line that is (a part of) a statement.
pub open spec fn shell_statement(v: ShellView, text: Seq<char>) -> (ShellView, StepView) {
    let buffer = v.buffer + text + " "@;
    if !(text.len() > 0 && text.last() == ';') && !complete(text) {
        (ShellView { buffer, ..v }, StepView::More)
    } else {
        let sql = trimmed(unterminated(trimmed(buffer)));
        let cleared = ShellView { buffer: Seq::empty(), ..v };
        if sql.len() == 0 {
            (cleared, StepView::Nothing)
        } else {
            let table = table_named(sql);
            match v.txn {
                None => (cleared, StepView::Run { sql, table, waiting: false }),
                Some(id) => {
                    let (locks, res) = lock_acquire(v.locks, id, table_lock(), lock_mode(sql));
                    (
                        ShellView { locks, ..cleared },
                        match res {
                            Ok(granted) => StepView::Run { sql, table, waiting: !granted },
                            Err(e) => StepView::Deadlock(e),
                        },
                    )
                },
            }
        }
    }
}

/// What a line does and what is to be done after it.
pub open spec fn shell_line(v: ShellView, line: Seq<char>) -> (ShellView, StepView) {
    let text = trimmed(line);
    let u = upper(text);
    if u == "\\QUIT"@ || u == "\\Q"@ || u == "EXIT"@ || u == "QUIT"@ {
        (v, StepView::Quit)
    } else if u == "\\HELP"@ || u == "\\H"@ {
        (v, StepView::Help)
    } else if u == "\\TABLES"@ {
        (v, StepView::Tables)
    } else if u == "BEGIN"@ || u == "BEGIN;"@ {
        if v.txn is Some {
            (v, StepView::AlreadyInTxn)
        } else {
            (
                ShellView { txn: Some(v.next_txn), next_txn: (v.next_txn + 1) as u32, ..v },
                StepView::Began(v.next_txn),
            )
        }
    } else if u == "COMMIT"@ || u == "COMMIT;"@ {
        shell_end(v, StepView::Committed(v.txn->0))
    } else if u == "ROLLBACK"@ || u == "ROLLBACK;"@ {
        shell_end(v, StepView::RolledBack(v.txn->0))
    } else {
        shell_statement(v, text)
    }
}

/// Collects the lines of statements, and keeps track of the transaction and its locks.
pub struct Shell {
    buffer: String,
    txn: Option<u32>,
    next_txn: u32,
    locks: LockManager,
}

impl View for Shell {
    type V = ShellView;

    closed spec fn view(&self) -> ShellView {
        ShellView {
            buffer: self.buffer@,
            txn: self.txn,
            next_txn: self.next_txn,
            locks: self.locks@,
        }
    }
}

impl Shell {
    pub fn new() -> (s: Self)
        ensures
            s@ == (ShellView {
                buffer: Seq::empty(),
                txn: None,
                next_txn: 1,
                locks: LockView { table: Seq::empty(), waits_for: Seq::empty() },
            }),
    {
        Shell { buffer: String::new(), txn: None, next_txn: 1, locks: LockManager::new() }
    }

    /// The current transaction.
    pub fn current_txn(&self) -> (id: Option<u32>)
        ensures
            id == self@.txn,
    {
        self.txn
    }

    /// Tells whether a statement has been begun.
    pub fn in_statement(&self) -> (b: bool)
        ensures
            b == (trimmed(self@.buffer).len() > 0),
    {
        let t = trim_text(self.buffer.as_str());
        let empty = text_eq(t.as_str(), "");
        proof {
            reveal_strlit("");
            if t@.len() == 0 {
                assert(t@ =~= ""@);
            }
        }
        !empty
    }

    /// Tells whether there is an id left for another transaction.
    pub fn has_room(&self) -> (b: bool)
        ensures
            b == (self@.next_txn < u32::MAX),
    {
        self.next_txn < u32::MAX
    }

    /// Takes a line of input. Tells what is to be done.
    pub fn take_line(&mut self, line: &str) -> (step: Step)
        requires
            old(self)@.next_txn < u32::MAX,
        ensures
            final(self)@ == shell_line(old(self)@, line@).0,
            step@ == shell_line(old(self)@, line@).1,
    {
        let text = trim_text(line);
        let u = upper_text(text.as_str());
        let w: &str = u.as_str();
        if text_eq(w, "\\QUIT") || text_eq(w, "\\Q") || text_eq(w, "EXIT") || text_eq(w, "QUIT") {
            return Step::Quit;
        }
        if text_eq(w, "\\HELP") || text_eq(w, "\\H") {
            return Step::Help;
        }
        if text_eq(w, "\\TABLES") {
            return Step::Tables;
        }
        if text_eq(w, "BEGIN") || text_eq(w, "BEGIN;") {
            if self.txn.is_some() {
                return Step::AlreadyInTxn;
            }
            let id: u32 = self.next_txn;
            self.txn = Some(id);
            self.next_txn = id + 1;
            return Step::Began(id);
        }
        if text_eq(w, "COMMIT") || text_eq(w, "COMMIT;") {
            return match self.end_txn() {
                Some(id) => Step::Committed(id),
                None => Step::NoTxn,
            };
        }
        if text_eq(w, "ROLLBACK") || text_eq(w, "ROLLBACK;") {
            return match self.end_txn() {
                Some(id) => Step::RolledBack(id),
                None => Step::NoTxn,
            };
        }
        self.take_part(text.as_str())
    }

    /// Ends the current transaction and releases its locks.
    fn end_txn(&mut self) -> (id: Option<u32>)
        ensures
            id == old(self)@.txn,
            final(self)@ == match old(self)@.txn {
                Some(id) => ShellView {
                    txn: None,
                    locks: lock_release(old(self)@.locks, id),
                    ..old(self)@
                },
                None => old(self)@,
            },
    {
        match self.txn {
            Some(id) => {
                self.txn = None;
                self.locks.release_all(id);
                Some(id)
            },
            None => None,
        }
    }

    /// Takes a line that is (a part of) a statement.
    fn take_part(&mut self, text: &str) -> (step: Step)
        ensures
            final(self)@ == shell_statement(old(self)@, text@).0,
            step@ == shell_statement(old(self)@, text@).1,
    {
        let ghost before = self@;
        self.buffer.append(text);
        self.buffer.append(" ");
        let chars = chars_of(text);
        let n: usize = chars.len();
        if !(n > 0 && chars[n - 1] == ';') && !looks_complete(text) {
            return Step::More;
        }
        let whole = trim_text(self.buffer.as_str());
        let bare = strip_semicolons(whole.as_str());
        let sql = trim_text(bare.as_str());
        self.buffer = String::new();
        assert(self@.buffer =~= Seq::empty());
        proof {
            reveal_strlit("");
        }
        if text_eq(sql.as_str(), "") {
            return Step::Nothing;
        }
        assert(sql@.len() > 0) by {
            if sql@.len() == 0 {
                assert(sql@ =~= ""@);
            }
        }
        let table = extract_table(sql.as_str());
        let id: u32 = match self.txn {
            None => {
                return Step::Run { sql, table, waiting: false };
            },
            Some(id) => id,
        };
        let mode = needed_lock(sql.as_str());
        match self.locks.acquire(id, Rid { page_id: u32::MAX, slot_id: 0 }, mode) {
            Ok(granted) => Step::Run { sql, table, waiting: !granted },
            Err(e) => Step::Deadlock(e),
        }
    }
}

} // verus!
