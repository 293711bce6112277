//! The lexer turns the text of a statement into a flat list of tokens: keywords, identifiers,
//! literals and punctuation.
use crate::sql::number::Real;
use crate::text::{join2, join3, text_eq};
use vstd::prelude::*;
use vstd::string::*;

verus! {

#[derive(Debug, PartialEq)]
pub enum Token {
    // Keywords
    Create,
    Table,
    Insert,
    Into,
    Values,
    Select,
    From,
    Where,
    Delete,
    Update,
    SetKeyword,
    Null,
    Order,
    By,
    Asc,
    Desc,
    Limit,
    Is,
    Not,
    Primary,
    Key,
    Int,
    Text,
    Float,
    // Punctuation
    LParen,
    RParen,
    Comma,
    Semicolon,
    Star,
    // Operators
    Eq,
    Ne,
    Lt,
    Gt,
    Le,
    Ge,
    // Literals and identifiers
    Ident(String),
    IntLit(i64),
    /// The text of a number with a decimal point.
    FloatText(String),
    FloatLit(Real),
    TextLit(String),
    Eof,
}

/// The mathematical counterpart of `Token`.
#[verifier::ext_equal]
pub enum TokenView {
    Create,
    Table,
    Insert,
    Into,
    Values,
    Select,
    From,
    Where,
    Delete,
    Update,
    SetKeyword,
    Null,
    Order,
    By,
    Asc,
    Desc,
    Limit,
    Is,
    Not,
    Primary,
    Key,
    Int,
    Text,
    Float,
    LParen,
    RParen,
    Comma,
    Semicolon,
    Star,
    Eq,
    Ne,
    Lt,
    Gt,
    Le,
    Ge,
    Ident(Seq<char>),
    IntLit(i64),
    FloatText(Seq<char>),
    /// A floating-point number by its bits.
    FloatLit(u64),
    TextLit(Seq<char>),
    Eof,
}

impl View for Token {
    type V = TokenView;

    open spec fn view(&self) -> TokenView {
        match *self {
            Token::Create => TokenView::Create,
            Token::Table => TokenView::Table,
            Token::Insert => TokenView::Insert,
            Token::Into => TokenView::Into,
            Token::Values => TokenView::Values,
            Token::Select => TokenView::Select,
            Token::From => TokenView::From,
            Token::Where => TokenView::Where,
            Token::Delete => TokenView::Delete,
            Token::Update => TokenView::Update,
            Token::SetKeyword => TokenView::SetKeyword,
            Token::Null => TokenView::Null,
            Token::Order => TokenView::Order,
            Token::By => TokenView::By,
            Token::Asc => TokenView::Asc,
            Token::Desc => TokenView::Desc,
            Token::Limit => TokenView::Limit,
            Token::Is => TokenView::Is,
            Token::Not => TokenView::Not,
            Token::Primary => TokenView::Primary,
            Token::Key => TokenView::Key,
            Token::Int => TokenView::Int,
            Token::Text => TokenView::Text,
            Token::Float => TokenView::Float,
            Token::LParen => TokenView::LParen,
            Token::RParen => TokenView::RParen,
            Token::Comma => TokenView::Comma,
            Token::Semicolon => TokenView::Semicolon,
            Token::Star => TokenView::Star,
            Token::Eq => TokenView::Eq,
            Token::Ne => TokenView::Ne,
            Token::Lt => TokenView::Lt,
            Token::Gt => TokenView::Gt,
            Token::Le => TokenView::Le,
            Token::Ge => TokenView::Ge,
            Token::Ident(s) => TokenView::Ident(s@),
            Token::IntLit(n) => TokenView::IntLit(n),
            Token::FloatText(s) => TokenView::FloatText(s@),
            Token::FloatLit(r) => TokenView::FloatLit(r.bits),
            Token::TextLit(s) => TokenView::TextLit(s@),
            Token::Eof => TokenView::Eof,
        }
    }
}

pub open spec fn tokens_view(s: Seq<Token>) -> Seq<TokenView> {
    Seq::new(s.len(), |i: int| s[i]@)
}

// Characters.

/// Whether a character outside of ASCII counts as white space.
pub uninterp spec fn wide_space(c: char) -> bool;

/// Whether a character outside of ASCII counts as a letter.
pub uninterp spec fn wide_letter(c: char) -> bool;

/// Whether a character outside of ASCII counts as numeric.
pub uninterp spec fn wide_numeric(c: char) -> bool;

/// The upper-case form of a text that is not all ASCII.
pub uninterp spec fn wide_upper(s: Seq<char>) -> Seq<char>;

/// Calls `char::is_whitespace`. The contract claims only that the result is a function of the
/// character.
#[verifier::external_body]
fn char_space(c: char) -> (b: bool)
    ensures
        b == wide_space(c),
{
    c.is_whitespace()
}

/// Calls `char::is_alphabetic`. The contract claims only that the result is a function of the
/// character.
#[verifier::external_body]
fn char_letter(c: char) -> (b: bool)
    ensures
        b == wide_letter(c),
{
    c.is_alphabetic()
}

/// Calls `char::is_numeric`. The contract claims only that the result is a function of the
/// character.
#[verifier::external_body]
fn char_numeric(c: char) -> (b: bool)
    ensures
        b == wide_numeric(c),
{
    c.is_numeric()
}

/// Calls `str::to_uppercase`. The contract claims only that the result is a function of the text.
#[verifier::external_body]
fn text_upper(s: &str) -> (u: String)
    ensures
        u@ == wide_upper(s@),
{
    s.to_uppercase()
}

pub open spec fn is_ascii_char(c: char) -> bool {
    (c as int) < 128
}

pub open spec fn is_digit(c: char) -> bool {
    48 <= c as int <= 57
}

/// White space: in ASCII the blank and the characters from tab to carriage return.
pub open spec fn is_space(c: char) -> bool {
    if is_ascii_char(c) {
        c as int == 32 || 9 <= c as int <= 13
    } else {
        wide_space(c)
    }
}

pub open spec fn is_letter(c: char) -> bool {
    if is_ascii_char(c) {
        65 <= c as int <= 90 || 97 <= c as int <= 122
    } else {
        wide_letter(c)
    }
}

/// A character that an identifier goes on with.
pub open spec fn is_word(c: char) -> bool {
    if is_ascii_char(c) {
        65 <= c as int <= 90 || 97 <= c as int <= 122 || is_digit(c) || c == '_'
    } else {
        wide_letter(c) || wide_numeric(c)
    }
}

/// The code of a character.
pub fn code(c: char) -> (n: u32)
    ensures
        n == c as int,
{
    c as u32
}

fn digit_char(c: char) -> (b: bool)
    ensures
        b == is_digit(c),
{
    let n: u32 = code(c);
    48 <= n && n <= 57
}

pub fn space_char(c: char) -> (b: bool)
    ensures
        b == is_space(c),
{
    let n: u32 = code(c);
    if n < 128 {
        n == 32 || (9 <= n && n <= 13)
    } else {
        char_space(c)
    }
}

fn letter_char(c: char) -> (b: bool)
    ensures
        b == is_letter(c),
{
    let n: u32 = code(c);
    if n < 128 {
        (65 <= n && n <= 90) || (97 <= n && n <= 122)
    } else {
        char_letter(c)
    }
}

pub fn word_char(c: char) -> (b: bool)
    ensures
        b == is_word(c),
{
    let n: u32 = code(c);
    if n < 128 {
        (65 <= n && n <= 90) || (97 <= n && n <= 122) || (48 <= n && n <= 57) || c == '_'
    } else {
        char_letter(c) || char_numeric(c)
    }
}

/// The upper-case form of an ASCII character.
pub open spec fn upper_char(c: char) -> char {
    if 97 <= c as int <= 122 {
        (c as int - 32) as char
    } else {
        c
    }
}

pub open spec fn all_ascii(s: Seq<char>) -> bool {
    forall|i: int| 0 <= i < s.len() ==> is_ascii_char(#[trigger] s[i])
}

/// The upper-case form of a text.
pub open spec fn upper(s: Seq<char>) -> Seq<char> {
    if all_ascii(s) {
        Seq::new(s.len(), |i: int| upper_char(s[i]))
    } else {
        wide_upper(s)
    }
}

/// The first position from `i` on where the run of characters that satisfy `p` ends.
pub open spec fn run_end(s: Seq<char>, i: int, p: spec_fn(char) -> bool) -> int
    decreases s.len() - i,
{
    if 0 <= i < s.len() && p(s[i]) {
        run_end(s, i + 1, p)
    } else {
        i
    }
}

// Tokens.

/// The keyword, or the identifier, that a word is. Keywords are recognised in any case.
pub open spec fn word_token(s: Seq<char>) -> TokenView {
    let u = upper(s);
    if u == "CREATE"@ {
        TokenView::Create
    } else if u == "TABLE"@ {
        TokenView::Table
    } else if u == "INSERT"@ {
        TokenView::Insert
    } else if u == "INTO"@ {
        TokenView::Into
    } else if u == "VALUES"@ {
        TokenView::Values
    } else if u == "SELECT"@ {
        TokenView::Select
    } else if u == "FROM"@ {
        TokenView::From
    } else if u == "WHERE"@ {
        TokenView::Where
    } else if u == "DELETE"@ {
        TokenView::Delete
    } else if u == "UPDATE"@ {
        TokenView::Update
    } else if u == "SET"@ {
        TokenView::SetKeyword
    } else if u == "NULL"@ {
        TokenView::Null
    } else if u == "ORDER"@ {
        TokenView::Order
    } else if u == "BY"@ {
        TokenView::By
    } else if u == "ASC"@ {
        TokenView::Asc
    } else if u == "DESC"@ {
        TokenView::Desc
    } else if u == "LIMIT"@ {
        TokenView::Limit
    } else if u == "IS"@ {
        TokenView::Is
    } else if u == "NOT"@ {
        TokenView::Not
    } else if u == "PRIMARY"@ {
        TokenView::Primary
    } else if u == "KEY"@ {
        TokenView::Key
    } else if u == "INT"@ {
        TokenView::Int
    } else if u == "TEXT"@ {
        TokenView::Text
    } else if u == "FLOAT"@ {
        TokenView::Float
    } else {
        TokenView::Ident(s)
    }
}

/// The number that decimal digits stand for.
pub open spec fn digits_value(s: Seq<char>) -> nat
    decreases s.len(),
{
    if s.len() == 0 {
        0
    } else {
        10 * digits_value(s.drop_last()) + (s.last() as int - 48) as nat
    }
}

/// The integer in a text made of an optional minus sign and digits; `None` if there is no digit or
/// the number does not fit.
pub open spec fn int_of(s: Seq<char>) -> Option<i64> {
    let negative = s.len() > 0 && s[0] == '-';
    let digits = if negative {
        s.skip(1)
    } else {
        s
    };
    let n = if negative {
        -digits_value(digits)
    } else {
        digits_value(digits) as int
    };
    if digits.len() > 0 && i64::MIN <= n <= i64::MAX {
        Some(n as i64)
    } else {
        None
    }
}

/// The number at `i`, and the position after it: digits with an optional minus sign, and with a
/// fraction if a point and digits follow.
pub open spec fn number_at(s: Seq<char>, i: int) -> (Result<TokenView, Seq<char>>, int) {
    let digits = |c: char| is_digit(c);
    let k = if s[i] == '-' {
        i + 1
    } else {
        i
    };
    let e = run_end(s, k, digits);
    if k < e && e + 1 < s.len() && s[e] == '.' && is_digit(s[e + 1]) {
        let f = run_end(s, e + 1, digits);
        (Ok(TokenView::FloatText(s.subrange(i, f))), f)
    } else {
        let text = s.subrange(i, e);
        (
            match int_of(text) {
                Some(n) => Ok(TokenView::IntLit(n)),
                None => Err("invalid number: "@ + text),
            },
            e,
        )
    }
}

/// The text literal whose opening quote stands at `i`, and the position after it.
pub open spec fn string_at(s: Seq<char>, i: int) -> (Result<TokenView, Seq<char>>, int) {
    let e = run_end(s, i + 1, |c: char| c != '\'');
    if e < s.len() {
        (Ok(TokenView::TextLit(s.subrange(i + 1, e))), e + 1)
    } else {
        (Err("unterminated string literal"@), e)
    }
}

/// The operator that starts at `i` with `<`, `>` or `!`, and the position after it.
pub open spec fn operator_at(s: Seq<char>, i: int) -> (Result<TokenView, Seq<char>>, int) {
    let two = i + 1 < s.len() && s[i + 1] == '=';
    let next = if two {
        i + 2
    } else {
        i + 1
    };
    (
        if s[i] == '<' {
            Ok(
                if two {
                    TokenView::Le
                } else {
                    TokenView::Lt
                },
            )
        } else if s[i] == '>' {
            Ok(
                if two {
                    TokenView::Ge
                } else {
                    TokenView::Gt
                },
            )
        } else if two {
            Ok(TokenView::Ne)
        } else {
            Err("unexpected char '!'"@)
        },
        next,
    )
}

/// The token that starts at `i`, which is not white space, and the position after it.
pub open spec fn token_at(s: Seq<char>, i: int) -> (Result<TokenView, Seq<char>>, int) {
    if i >= s.len() {
        (Ok(TokenView::Eof), i)
    } else {
        let c = s[i];
        if c == '(' {
            (Ok(TokenView::LParen), i + 1)
        } else if c == ')' {
            (Ok(TokenView::RParen), i + 1)
        } else if c == ',' {
            (Ok(TokenView::Comma), i + 1)
        } else if c == ';' {
            (Ok(TokenView::Semicolon), i + 1)
        } else if c == '*' {
            (Ok(TokenView::Star), i + 1)
        } else if c == '=' {
            (Ok(TokenView::Eq), i + 1)
        } else if c == '<' || c == '>' || c == '!' {
            operator_at(s, i)
        } else if c == '\'' {
            string_at(s, i)
        } else if is_digit(c) || c == '-' {
            number_at(s, i)
        } else if is_letter(c) || c == '_' {
            let e = run_end(s, i, |c: char| is_word(c));
            (Ok(word_token(s.subrange(i, e))), e)
        } else {
            (Err("unexpected character: '"@ + seq![c] + "'"@), i)
        }
    }
}

/// The next token from `i` on, after white space, and the position after it.
pub open spec fn next_token(s: Seq<char>, i: int) -> (Result<TokenView, Seq<char>>, int) {
    token_at(s, run_end(s, i, |c: char| is_space(c)))
}

/// A run ends between its start and the end of the text.
pub proof fn lemma_run_end(s: Seq<char>, i: int, p: spec_fn(char) -> bool)
    requires
        0 <= i <= s.len(),
    ensures
        i <= run_end(s, i, p) <= s.len(),
        forall|k: int| i <= k < run_end(s, i, p) ==> p(#[trigger] s[k]),
        run_end(s, i, p) < s.len() ==> !p(s[run_end(s, i, p)]),
    decreases s.len() - i,
{
    if i < s.len() && p(s[i]) {
        lemma_run_end(s, i + 1, p);
    }
}

/// A token takes up at least one character.
pub proof fn lemma_token_moves(s: Seq<char>, i: int)
    requires
        0 <= i <= s.len(),
    ensures
        i <= next_token(s, i).1 <= s.len(),
        next_token(s, i).0 matches Ok(t) ==> (t is Eof <==> next_token(s, i).1 == run_end(
            s,
            i,
            |c: char| is_space(c),
        )),
        next_token(s, i).0 matches Ok(t) ==> t is Eof || i < next_token(s, i).1,
        next_token(s, i).0 matches Ok(t) ==> t is Eof ==> next_token(s, i).1 == s.len(),
{
    let j = run_end(s, i, |c: char| is_space(c));
    lemma_run_end(s, i, |c: char| is_space(c));
    if j < s.len() {
        let c = s[j];
        let digits = |c: char| is_digit(c);
        let k = if c == '-' {
            j + 1
        } else {
            j
        };
        lemma_run_end(s, k, digits);
        let e = run_end(s, k, digits);
        if e + 1 < s.len() {
            lemma_run_end(s, e + 1, digits);
        }
        lemma_run_end(s, j + 1, |c: char| c != '\'');
        let w = |c: char| is_word(c);
        lemma_run_end(s, j, w);
        lemma_run_end(s, j + 1, w);
    }
}

/// The tokens from `i` on, the last of which is `Eof`, and the position after them.
pub open spec fn tokens_from(s: Seq<char>, i: int) -> (Result<Seq<TokenView>, Seq<char>>, int)
    decreases s.len() - i,
    when 0 <= i <= s.len()
{
    let (t, j) = next_token(s, i);
    match t {
        Err(e) => (Err(e), j),
        Ok(TokenView::Eof) => (Ok(seq![TokenView::Eof]), j),
        Ok(v) => {
            proof {
                lemma_token_moves(s, i);
            }
            let (rest, k) = tokens_from(s, j);
            (
                match rest {
                    Ok(vs) => Ok(seq![v] + vs),
                    Err(e) => Err(e),
                },
                k,
            )
        },
    }
}

/// The mathematical counterpart of `Lexer`.
#[verifier::ext_equal]
pub struct LexerView {
    pub input: Seq<char>,
    pub pos: int,
}

pub struct Lexer {
    input: Vec<char>,
    pos: usize,
}

impl View for Lexer {
    type V = LexerView;

    closed spec fn view(&self) -> LexerView {
        LexerView { input: self.input@, pos: self.pos as int }
    }
}

/// The upper-case form of a text.
fn to_upper(s: &str, chars: &Vec<char>, from: usize, to: usize) -> (u: String)
    requires
        from <= to <= chars@.len(),
        s@ == chars@.subrange(from as int, to as int),
    ensures
        u@ == upper(s@),
{
    let ghost text = s@;
    let mut u = String::new();
    let mut i: usize = from;
    assert(u@ =~= Seq::empty());
    while i < to
        invariant
            from <= i <= to <= chars@.len(),
            text == chars@.subrange(from as int, to as int),
            s@ == text,
            u@ == Seq::new((i - from) as nat, |k: int| upper_char(text[k])),
            forall|k: int| 0 <= k < i - from ==> is_ascii_char(#[trigger] text[k]),
        decreases to - i,
    {
        let c: char = chars[i];
        assert(c == text[i - from]);
        let n: u32 = code(c);
        if n >= 128 {
            assert(!is_ascii_char(text[i - from]));
            return text_upper(s);
        }
        let ghost before = u@;
        if 97 <= n && n <= 122 {
            u.push((n as u8 - 32) as char);
        } else {
            u.push(c);
        }
        assert(u@ =~= before.push(upper_char(c)));
        i = i + 1;
        assert(u@ =~= Seq::new((i - from) as nat, |k: int| upper_char(text[k])));
    }
    assert(text.len() == to - from);
    u
}

/// The keyword or identifier that a word is.
fn to_word(s: String, u: &str) -> (t: Token)
    requires
        u@ == upper(s@),
    ensures
        t@ == word_token(s@),
{
    if text_eq(u, "CREATE") {
        Token::Create
    } else if text_eq(u, "TABLE") {
        Token::Table
    } else if text_eq(u, "INSERT") {
        Token::Insert
    } else if text_eq(u, "INTO") {
        Token::Into
    } else if text_eq(u, "VALUES") {
        Token::Values
    } else if text_eq(u, "SELECT") {
        Token::Select
    } else if text_eq(u, "FROM") {
        Token::From
    } else if text_eq(u, "WHERE") {
        Token::Where
    } else if text_eq(u, "DELETE") {
        Token::Delete
    } else if text_eq(u, "UPDATE") {
        Token::Update
    } else if text_eq(u, "SET") {
        Token::SetKeyword
    } else if text_eq(u, "NULL") {
        Token::Null
    } else if text_eq(u, "ORDER") {
        Token::Order
    } else if text_eq(u, "BY") {
        Token::By
    } else if text_eq(u, "ASC") {
        Token::Asc
    } else if text_eq(u, "DESC") {
        Token::Desc
    } else if text_eq(u, "LIMIT") {
        Token::Limit
    } else if text_eq(u, "IS") {
        Token::Is
    } else if text_eq(u, "NOT") {
        Token::Not
    } else if text_eq(u, "PRIMARY") {
        Token::Primary
    } else if text_eq(u, "KEY") {
        Token::Key
    } else if text_eq(u, "INT") {
        Token::Int
    } else if text_eq(u, "TEXT") {
        Token::Text
    } else if text_eq(u, "FLOAT") {
        Token::Float
    } else {
        Token::Ident(s)
    }
}

/// The characters of a text.
pub fn chars_of(s: &str) -> (chars: Vec<char>)
    ensures
        chars@ == s@,
{
    let mut chars: Vec<char> = Vec::new();
    for c in it: s.chars()
        invariant
            it.seq() == s@,
            chars@ == s@.take(it.index()),
    {
        chars.push(c);
        assert(chars@ =~= s@.take(it.index() + 1));
    }
    assert(chars@ =~= s@);
    chars
}

/// The upper-case form of a text.
pub fn upper_text(s: &str) -> (u: String)
    ensures
        u@ == upper(s@),
{
    let chars = chars_of(s);
    assert(chars@.subrange(0, chars@.len() as int) =~= s@);
    to_upper(s, &chars, 0, chars.len())
}

/// The characters from `from` to `to`.
pub fn text_between(chars: &Vec<char>, from: usize, to: usize) -> (s: String)
    requires
        from <= to <= chars@.len(),
    ensures
        s@ == chars@.subrange(from as int, to as int),
{
    let mut s = String::new();
    let mut i: usize = from;
    assert(s@ =~= Seq::empty());
    while i < to
        invariant
            from <= i <= to <= chars@.len(),
            s@ == chars@.subrange(from as int, i as int),
        decreases to - i,
    {
        s.push(chars[i]);
        i = i + 1;
        assert(s@ =~= chars@.subrange(from as int, i as int));
    }
    s
}

/// More digits stand for no smaller number.
proof fn lemma_digits_grow(s: Seq<char>, n: int)
    requires
        0 <= n <= s.len(),
    ensures
        digits_value(s.take(n)) <= digits_value(s),
    decreases s.len() - n,
{
    if n < s.len() {
        lemma_digits_grow(s, n + 1);
        assert(s.take(n + 1).drop_last() =~= s.take(n));
    } else {
        assert(s.take(n) =~= s);
    }
}

/// The integer that the characters from `from` to `to` stand for.
fn to_int(chars: &Vec<char>, from: usize, to: usize) -> (res: Option<i64>)
    requires
        from < to <= chars@.len(),
        chars@[from as int] == '-' || is_digit(chars@[from as int]),
        forall|k: int| from < k < to ==> is_digit(#[trigger] chars@[k]),
    ensures
        res == int_of(chars@.subrange(from as int, to as int)),
{
    let ghost text = chars@.subrange(from as int, to as int);
    let negative = chars[from] == '-';
    let start: usize = if negative {
        from + 1
    } else {
        from
    };
    let ghost digits = chars@.subrange(start as int, to as int);
    proof {
        assert(text[0] == chars@[from as int]);
        if negative {
            assert(text.skip(1) =~= digits);
        } else {
            assert(text =~= digits);
        }
    }
    if start == to {
        return None;
    }
    // The magnitude, as long as it is no larger than that of the smallest number.
    let mut n: u64 = 0;
    let mut i: usize = start;
    assert(digits.take(0) =~= Seq::empty());
    while i < to
        invariant
            start <= i <= to <= chars@.len(),
            from <= start,
            start == from ==> is_digit(chars@[from as int]),
            start < to,
            forall|k: int| from < k < to ==> is_digit(#[trigger] chars@[k]),
            digits == chars@.subrange(start as int, to as int),
            n == digits_value(digits.take(i - start)),
            n <= 0x8000_0000_0000_0000,
            text == chars@.subrange(from as int, to as int),
            negative == (text[0] == '-'),
            digits == if negative {
                text.skip(1)
            } else {
                text
            },
        decreases to - i,
    {
        let d: u64 = (code(chars[i]) - 48) as u64;
        proof {
            let next = digits.take(i - start + 1);
            assert(next.drop_last() =~= digits.take(i - start));
            assert(next.last() == chars@[i as int]);
            lemma_digits_grow(digits, i - start + 1);
        }
        if n > (0x8000_0000_0000_0000 - d) / 10 {
            assert(10 * n + d > 0x8000_0000_0000_0000);
            return None;
        }
        n = 10 * n + d;
        i = i + 1;
    }
    assert(digits.take(to - start) =~= digits);
    if negative {
        if n == 0x8000_0000_0000_0000 {
            Some(i64::MIN)
        } else {
            Some(-(n as i64))
        }
    } else if n < 0x8000_0000_0000_0000 {
        Some(n as i64)
    } else {
        None
    }
}

impl Lexer {
    /// The position is one in the text or at its end.
    pub closed spec fn wf(&self) -> bool {
        self.pos <= self.input@.len()
    }

    pub fn new(input: &str) -> (l: Self)
        ensures
            l.wf(),
            l@ == (LexerView { input: input@, pos: 0 }),
    {
        Self { input: chars_of(input), pos: 0 }
    }

    /// Turns the rest of the text into tokens, the last of which is `Eof`.
    pub fn tokenize(&mut self) -> (res: Result<Vec<Token>, String>)
        requires
            old(self).wf(),
        ensures
            final(self).wf(),
            final(self)@.input == old(self)@.input,
            final(self)@.pos == tokens_from(old(self)@.input, old(self)@.pos).1,
            match (res, tokens_from(old(self)@.input, old(self)@.pos).0) {
                (Ok(ts), Ok(vs)) => tokens_view(ts@) == vs,
                (Err(e), Err(t)) => e@ == t,
                _ => false,
            },
    {
        let ghost s = self@.input;
        let ghost start = self@.pos;
        let mut tokens: Vec<Token> = Vec::new();
        proof {
            if let Ok(vs) = tokens_from(s, start).0 {
                assert(tokens_view(tokens@) + vs =~= vs);
            }
        }
        loop
            invariant
                self.wf(),
                self@.input == s,
                s == old(self)@.input,
                start == old(self)@.pos,
                0 <= start <= s.len(),
                tokens_from(s, start).1 == tokens_from(s, self@.pos).1,
                tokens_from(s, start).0 == (match tokens_from(s, self@.pos).0 {
                    Ok(vs) => Ok::<Seq<TokenView>, Seq<char>>(tokens_view(tokens@) + vs),
                    Err(e) => Err(e),
                }),
            decreases s.len() - self@.pos,
        {
            let ghost at = self@.pos;
            let ghost before = tokens_view(tokens@);
            proof {
                lemma_token_moves(s, at);
            }
            let token = match self.next_token() {
                Err(e) => {
                    return Err(e);
                },
                Ok(t) => t,
            };
            let ghost v = token@;
            let last = match &token {
                Token::Eof => true,
                _ => false,
            };
            tokens.push(token);
            proof {
                assert(tokens_view(tokens@) =~= before.push(v));
                if last {
                    assert(before + seq![TokenView::Eof] =~= before.push(v));
                } else if let Ok(vs) = tokens_from(s, self@.pos).0 {
                    assert(before + (seq![v] + vs) =~= before.push(v) + vs);
                }
            }
            if last {
                return Ok(tokens);
            }
        }
    }

    fn space_end(&self, from: usize) -> (end: usize)
        requires
            from <= self.input@.len(),
        ensures
            end == run_end(self.input@, from as int, |c: char| is_space(c)),
    {
        let mut i: usize = from;
        while i < self.input.len() && space_char(self.input[i])
            invariant
                i <= self.input@.len(),
                run_end(self.input@, from as int, |c: char| is_space(c)) == run_end(
                    self.input@,
                    i as int,
                    |c: char| is_space(c),
                ),
            decreases self.input@.len() - i,
        {
            i = i + 1;
        }
        i
    }

    fn digits_end(&self, from: usize) -> (end: usize)
        requires
            from <= self.input@.len(),
        ensures
            end == run_end(self.input@, from as int, |c: char| is_digit(c)),
    {
        let mut i: usize = from;
        while i < self.input.len() && digit_char(self.input[i])
            invariant
                i <= self.input@.len(),
                run_end(self.input@, from as int, |c: char| is_digit(c)) == run_end(
                    self.input@,
                    i as int,
                    |c: char| is_digit(c),
                ),
            decreases self.input@.len() - i,
        {
            i = i + 1;
        }
        i
    }

    fn word_end(&self, from: usize) -> (end: usize)
        requires
            from <= self.input@.len(),
        ensures
            end == run_end(self.input@, from as int, |c: char| is_word(c)),
    {
        let mut i: usize = from;
        while i < self.input.len() && word_char(self.input[i])
            invariant
                i <= self.input@.len(),
                run_end(self.input@, from as int, |c: char| is_word(c)) == run_end(
                    self.input@,
                    i as int,
                    |c: char| is_word(c),
                ),
            decreases self.input@.len() - i,
        {
            i = i + 1;
        }
        i
    }

    fn quote_end(&self, from: usize) -> (end: usize)
        requires
            from <= self.input@.len(),
        ensures
            end == run_end(self.input@, from as int, |c: char| c != '\''),
    {
        let mut i: usize = from;
        while i < self.input.len() && self.input[i] != '\''
            invariant
                i <= self.input@.len(),
                run_end(self.input@, from as int, |c: char| c != '\'') == run_end(
                    self.input@,
                    i as int,
                    |c: char| c != '\'',
                ),
            decreases self.input@.len() - i,
        {
            i = i + 1;
        }
        i
    }

    /// Reads the next token.
    fn next_token(&mut self) -> (res: Result<Token, String>)
        requires
            old(self).wf(),
        ensures
            final(self).wf(),
            final(self)@.input == old(self)@.input,
            final(self)@.pos == next_token(old(self)@.input, old(self)@.pos).1,
            match (res, next_token(old(self)@.input, old(self)@.pos).0) {
                (Ok(t), Ok(v)) => t@ == v,
                (Err(e), Err(t)) => e@ == t,
                _ => false,
            },
    {
        proof {
            lemma_token_moves(self@.input, self@.pos);
            lemma_run_end(self@.input, self@.pos, |c: char| is_space(c));
        }
        self.pos = self.space_end(self.pos);
        let n: usize = self.input.len();
        let i: usize = self.pos;
        if i >= n {
            return Ok(Token::Eof);
        }
        let c: char = self.input[i];
        if c == '<' || c == '>' || c == '!' {
            return self.read_operator();
        }
        if c == '\'' {
            return self.read_string();
        }
        if digit_char(c) || c == '-' {
            return self.read_number();
        }
        if letter_char(c) || c == '_' {
            return Ok(self.read_ident_or_keyword());
        }
        let token = match c {
            '(' => Token::LParen,
            ')' => Token::RParen,
            ',' => Token::Comma,
            ';' => Token::Semicolon,
            '*' => Token::Star,
            '=' => Token::Eq,
            _ => {
                let mut one = String::new();
                one.push(c);
                assert(one@ =~= seq![c]);
                return Err(join3("unexpected character: '", one.as_str(), "'"));
            },
        };
        self.pos = i + 1;
        Ok(token)
    }

    fn read_operator(&mut self) -> (res: Result<Token, String>)
        requires
            old(self).pos < old(self).input@.len(),
            ({
                let c = old(self).input@[old(self).pos as int];
                c == '<' || c == '>' || c == '!'
            }),
        ensures
            final(self).wf(),
            final(self)@.input == old(self)@.input,
            final(self)@.pos == operator_at(old(self)@.input, old(self)@.pos).1,
            match (res, operator_at(old(self)@.input, old(self)@.pos).0) {
                (Ok(t), Ok(v)) => t@ == v,
                (Err(e), Err(t)) => e@ == t,
                _ => false,
            },
    {
        let i: usize = self.pos;
        let n: usize = self.input.len();
        let two = i + 1 < n && self.input[i + 1] == '=';
        self.pos = if two {
            i + 2
        } else {
            i + 1
        };
        match (self.input[i], two) {
            ('<', true) => Ok(Token::Le),
            ('<', false) => Ok(Token::Lt),
            ('>', true) => Ok(Token::Ge),
            ('>', false) => Ok(Token::Gt),
            (_, true) => Ok(Token::Ne),
            (_, false) => Err("unexpected char '!'".to_owned()),
        }
    }

    fn read_string(&mut self) -> (res: Result<Token, String>)
        requires
            old(self).pos < old(self).input@.len(),
        ensures
            final(self).wf(),
            final(self)@.input == old(self)@.input,
            final(self)@.pos == string_at(old(self)@.input, old(self)@.pos).1,
            match (res, string_at(old(self)@.input, old(self)@.pos).0) {
                (Ok(t), Ok(v)) => t@ == v,
                (Err(e), Err(t)) => e@ == t,
                _ => false,
            },
    {
        let i: usize = self.pos;
        let n: usize = self.input.len();
        proof {
            lemma_run_end(self.input@, i + 1, |c: char| c != '\'');
        }
        let e: usize = self.quote_end(i + 1);
        if e < n {
            self.pos = e + 1;
            Ok(Token::TextLit(text_between(&self.input, i + 1, e)))
        } else {
            self.pos = e;
            Err("unterminated string literal".to_owned())
        }
    }

    fn read_number(&mut self) -> (res: Result<Token, String>)
        requires
            old(self).pos < old(self).input@.len(),
            ({
                let c = old(self).input@[old(self).pos as int];
                is_digit(c) || c == '-'
            }),
        ensures
            final(self).wf(),
            final(self)@.input == old(self)@.input,
            final(self)@.pos == number_at(old(self)@.input, old(self)@.pos).1,
            match (res, number_at(old(self)@.input, old(self)@.pos).0) {
                (Ok(t), Ok(v)) => t@ == v,
                (Err(e), Err(t)) => e@ == t,
                _ => false,
            },
    {
        let i: usize = self.pos;
        let n: usize = self.input.len();
        let k: usize = if self.input[i] == '-' {
            i + 1
        } else {
            i
        };
        proof {
            lemma_run_end(self.input@, k as int, |c: char| is_digit(c));
        }
        let e: usize = self.digits_end(k);
        if k < e && e < n - 1 && self.input[e] == '.' && digit_char(
            self.input[e + 1],
        ) {
            proof {
                lemma_run_end(self.input@, e + 1, |c: char| is_digit(c));
            }
            let f: usize = self.digits_end(e + 1);
            self.pos = f;
            return Ok(Token::FloatText(text_between(&self.input, i, f)));
        }
        self.pos = e;
        match to_int(&self.input, i, e) {
            Some(n) => Ok(Token::IntLit(n)),
            None => {
                let text = text_between(&self.input, i, e);
                Err(join2("invalid number: ", text.as_str()))
            },
        }
    }

    fn read_ident_or_keyword(&mut self) -> (t: Token)
        requires
            old(self).pos < old(self).input@.len(),
        ensures
            final(self).wf(),
            final(self)@.input == old(self)@.input,
            ({
                let s = old(self)@.input;
                let i = old(self)@.pos;
                let e = run_end(s, i, |c: char| is_word(c));
                final(self)@.pos == e && t@ == word_token(s.subrange(i, e))
            }),
    {
        let i: usize = self.pos;
        proof {
            lemma_run_end(self.input@, i as int, |c: char| is_word(c));
        }
        let e: usize = self.word_end(i);
        self.pos = e;
        let s = text_between(&self.input, i, e);
        let u = to_upper(s.as_str(), &self.input, i, e);
        to_word(s, u.as_str())
    }
}

} // verus!
