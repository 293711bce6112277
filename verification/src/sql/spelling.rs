//! How tokens are spelled, and that the lexer reads what is spelled.
use crate::sql::lexer::{
    all_ascii, digits_value, int_of, is_ascii_char, is_digit, is_space, is_word, lemma_run_end,
    lemma_token_moves, next_token, number_at, run_end, token_at, tokens_from, upper, wide_letter,
    wide_numeric, wide_space, wide_upper, word_token, TokenView,
};
use crate::text::{dec, dec_int};
use vstd::arithmetic::power::pow;
use vstd::prelude::*;
use vstd::string::*;

verus! {

// Characters.

pub open spec fn digit(c: char) -> bool {
    '0' <= c <= '9'
}

/// A character that a name may start with.
pub open spec fn opens_name(c: char) -> bool {
    'A' <= c <= 'Z' || 'a' <= c <= 'z' || c == '_' || (c as int >= 128 && wide_letter(c))
}

/// A character that a name may go on with.
pub open spec fn goes_on(c: char) -> bool {
    opens_name(c) || digit(c) || (c as int >= 128 && wide_numeric(c))
}

pub open spec fn blank(c: char) -> bool {
    c == ' ' || '\t' <= c <= '\r' || (c as int >= 128 && wide_space(c))
}

// Words.

/// The text of a keyword, in upper case.
pub open spec fn keyword(t: TokenView) -> Option<Seq<char>> {
    match t {
        TokenView::Create => Some("CREATE"@),
        TokenView::Table => Some("TABLE"@),
        TokenView::Insert => Some("INSERT"@),
        TokenView::Into => Some("INTO"@),
        TokenView::Values => Some("VALUES"@),
        TokenView::Select => Some("SELECT"@),
        TokenView::From => Some("FROM"@),
        TokenView::Where => Some("WHERE"@),
        TokenView::Delete => Some("DELETE"@),
        TokenView::Update => Some("UPDATE"@),
        TokenView::SetKeyword => Some("SET"@),
        TokenView::Null => Some("NULL"@),
        TokenView::Order => Some("ORDER"@),
        TokenView::By => Some("BY"@),
        TokenView::Asc => Some("ASC"@),
        TokenView::Desc => Some("DESC"@),
        TokenView::Limit => Some("LIMIT"@),
        TokenView::Is => Some("IS"@),
        TokenView::Not => Some("NOT"@),
        TokenView::Primary => Some("PRIMARY"@),
        TokenView::Key => Some("KEY"@),
        TokenView::Int => Some("INT"@),
        TokenView::Text => Some("TEXT"@),
        TokenView::Float => Some("FLOAT"@),
        _ => None,
    }
}

/// A word is the same as an upper-case one but for the case of its letters.
pub open spec fn same_but_for_case(w: Seq<char>, k: Seq<char>) -> bool {
    w.len() == k.len() && forall|i: int|
        0 <= i < w.len() ==> (#[trigger] w[i] == k[i] || ('A' <= k[i] <= 'Z' && w[i] as int
            == k[i] as int + 32))
}

/// A word reads as an upper-case one. Of a word that is not all ASCII this is up to its upper-case
/// form.
pub open spec fn reads_as(w: Seq<char>, k: Seq<char>) -> bool {
    if forall|i: int| 0 <= i < w.len() ==> 128 > (#[trigger] w[i]) as int {
        same_but_for_case(w, k)
    } else {
        wide_upper(w) == k
    }
}

pub open spec fn name_shaped(w: Seq<char>) -> bool {
    w.len() > 0 && opens_name(w[0]) && forall|i: int| 0 <= i < w.len() ==> goes_on(#[trigger] w[i])
}

pub open spec fn is_keyword(w: Seq<char>) -> bool {
    exists|t: TokenView| (#[trigger] keyword(t)) matches Some(k) && reads_as(w, k)
}

// Numbers.

pub open spec fn all_digits(w: Seq<char>) -> bool {
    forall|i: int| 0 <= i < w.len() ==> digit(#[trigger] w[i])
}

/// What digits are worth: each its value times ten to the power of the number of digits behind it.
pub open spec fn amount(w: Seq<char>) -> int
    decreases w.len(),
{
    if w.len() == 0 {
        0
    } else {
        (w[0] as int - '0' as int) * pow(10, (w.len() - 1) as nat) + amount(w.skip(1))
    }
}

/// A text without the minus sign that it may start with.
pub open spec fn unsigned(w: Seq<char>) -> Seq<char> {
    if w.len() > 0 && w[0] == '-' {
        w.skip(1)
    } else {
        w
    }
}

/// Digits, a point and digits, behind a minus sign or not.
pub open spec fn fraction_shaped(w: Seq<char>) -> bool {
    let u = unsigned(w);
    exists|p: int|
        0 < p < u.len() - 1 && u[p] == '.' && all_digits(#[trigger] u.take(p)) && all_digits(
            u.skip(p + 1),
        )
}

// Tokens.

/// The text `w` spells the token.
pub open spec fn spelled(t: TokenView, w: Seq<char>) -> bool {
    match t {
        TokenView::LParen => w == seq!['('],
        TokenView::RParen => w == seq![')'],
        TokenView::Comma => w == seq![','],
        TokenView::Semicolon => w == seq![';'],
        TokenView::Star => w == seq!['*'],
        TokenView::Eq => w == seq!['='],
        TokenView::Ne => w == seq!['!', '='],
        TokenView::Lt => w == seq!['<'],
        TokenView::Gt => w == seq!['>'],
        TokenView::Le => w == seq!['<', '='],
        TokenView::Ge => w == seq!['>', '='],
        TokenView::Ident(s) => w == s && name_shaped(w) && !is_keyword(w),
        TokenView::IntLit(n) => {
            let u = unsigned(w);
            u.len() > 0 && all_digits(u) && n == if u.len() < w.len() {
                -amount(u)
            } else {
                amount(u)
            }
        },
        TokenView::FloatText(s) => w == s && fraction_shaped(w),
        TokenView::FloatLit(_) => false,
        TokenView::TextLit(s) => w == seq!['\''] + s + seq!['\''] && !s.contains('\''),
        TokenView::Eof => false,
        _ => name_shaped(w) && reads_as(w, keyword(t)->0),
    }
}

/// A token that ends at `e` ends there: what follows does not belong to it.
pub open spec fn ends(t: TokenView, s: Seq<char>, e: int) -> bool {
    match t {
        TokenView::Lt | TokenView::Gt => !(e < s.len() && s[e] == '='),
        TokenView::IntLit(_) => !(e < s.len() && digit(s[e])) && !(e + 1 < s.len() && s[e] == '.'
            && digit(s[e + 1])),
        TokenView::FloatText(_) => !(e < s.len() && digit(s[e])),
        TokenView::LParen
        | TokenView::RParen
        | TokenView::Comma
        | TokenView::Semicolon
        | TokenView::Star
        | TokenView::Eq
        | TokenView::Ne
        | TokenView::Le
        | TokenView::Ge
        | TokenView::TextLit(_) => true,
        _ => !(e < s.len() && goes_on(s[e])),
    }
}

pub open spec fn blanks(s: Seq<char>, i: int, j: int) -> bool {
    forall|k: int| i <= k < j ==> blank(#[trigger] s[k])
}

/// From `i` on there are blanks up to `j`, then the token up to `e`, where it ends.
pub open spec fn stands_at(t: TokenView, s: Seq<char>, i: int, j: int, e: int) -> bool {
    &&& 0 <= i <= j <= e <= s.len()
    &&& blanks(s, i, j)
    &&& spelled(t, s.subrange(j, e))
    &&& ends(t, s, e)
}

// Where runs end.

proof fn lemma_run_is(s: Seq<char>, i: int, e: int, p: spec_fn(char) -> bool)
    requires
        0 <= i <= e <= s.len(),
        forall|k: int| i <= k < e ==> p(#[trigger] s[k]),
        e < s.len() ==> !p(s[e]),
    ensures
        run_end(s, i, p) == e,
    decreases e - i,
{
    if i < e {
        assert(p(s[i]));
        lemma_run_is(s, i + 1, e, p);
    }
}

pub proof fn lemma_chars(c: char)
    ensures
        is_digit(c) == digit(c),
        is_space(c) == blank(c),
        is_word(c) == goes_on(c),
        (crate::sql::lexer::is_letter(c) || c == '_') == opens_name(c),
{
}

// Words.

/// The keywords are upper-case words.
proof fn lemma_keyword_letters(t: TokenView)
    requires
        keyword(t) is Some,
    ensures
        keyword(t)->0.len() > 0,
        forall|i: int| 0 <= i < keyword(t)->0.len() ==> 'A' <= #[trigger] keyword(t)->0[i] <= 'Z',
{
    reveal_strlit("CREATE");
    reveal_strlit("TABLE");
    reveal_strlit("INSERT");
    reveal_strlit("INTO");
    reveal_strlit("VALUES");
    reveal_strlit("SELECT");
    reveal_strlit("FROM");
    reveal_strlit("WHERE");
    reveal_strlit("DELETE");
    reveal_strlit("UPDATE");
    reveal_strlit("SET");
    reveal_strlit("NULL");
    reveal_strlit("ORDER");
    reveal_strlit("BY");
    reveal_strlit("ASC");
    reveal_strlit("DESC");
    reveal_strlit("LIMIT");
    reveal_strlit("IS");
    reveal_strlit("NOT");
    reveal_strlit("PRIMARY");
    reveal_strlit("KEY");
    reveal_strlit("INT");
    reveal_strlit("TEXT");
    reveal_strlit("FLOAT");
}

/// Reading as an upper-case word is having it as upper-case form.
pub proof fn lemma_reads_as(w: Seq<char>, k: Seq<char>)
    requires
        forall|i: int| 0 <= i < k.len() ==> !('a' <= #[trigger] k[i] <= 'z'),
    ensures
        reads_as(w, k) == (upper(w) == k),
{
    let u = upper(w);
    if all_ascii(w) {
        assert forall|i: int| 0 <= i < w.len() implies 128 > (#[trigger] w[i]) as int by {
            assert(is_ascii_char(w[i]));
        }
        if same_but_for_case(w, k) {
            assert forall|i: int| 0 <= i < w.len() implies #[trigger] u[i] == k[i] by {
                assert(w[i] == k[i] || ('A' <= k[i] <= 'Z' && w[i] as int == k[i] as int + 32));
                assert(!('a' <= k[i] <= 'z'));
            }
            assert(u =~= k);
        }
        if u == k {
            assert forall|i: int| 0 <= i < w.len() implies (#[trigger] w[i] == k[i] || ('A' <= k[i]
                <= 'Z' && w[i] as int == k[i] as int + 32)) by {
                assert(u[i] == k[i]);
            }
        }
    } else {
        let i = choose|i: int| 0 <= i < w.len() && !is_ascii_char(#[trigger] w[i]);
        assert(w[i] as int >= 128);
    }
}

#[verifier::rlimit(40)]
proof fn lemma_word_token(w: Seq<char>, t: TokenView)
    requires
        keyword(t) is Some,
    ensures
        word_token(w) == t <==> upper(w) == keyword(t)->0,
{
    reveal_strlit("CREATE");
    reveal_strlit("TABLE");
    reveal_strlit("INSERT");
    reveal_strlit("INTO");
    reveal_strlit("VALUES");
    reveal_strlit("SELECT");
    reveal_strlit("FROM");
    reveal_strlit("WHERE");
    reveal_strlit("DELETE");
    reveal_strlit("UPDATE");
    reveal_strlit("SET");
    reveal_strlit("NULL");
    reveal_strlit("ORDER");
    reveal_strlit("BY");
    reveal_strlit("ASC");
    reveal_strlit("DESC");
    reveal_strlit("LIMIT");
    reveal_strlit("IS");
    reveal_strlit("NOT");
    reveal_strlit("PRIMARY");
    reveal_strlit("KEY");
    reveal_strlit("INT");
    reveal_strlit("TEXT");
    reveal_strlit("FLOAT");
    assert("CREATE"@.len() == 6 && "CREATE"@[0] == 'C');
    assert("TABLE"@.len() == 5 && "TABLE"@[0] == 'T');
    assert("INSERT"@.len() == 6 && "INSERT"@[0] == 'I');
    assert("INTO"@.len() == 4 && "INTO"@[0] == 'I');
    assert("VALUES"@.len() == 6 && "VALUES"@[0] == 'V');
    assert("SELECT"@.len() == 6 && "SELECT"@[0] == 'S');
    assert("FROM"@.len() == 4 && "FROM"@[0] == 'F');
    assert("WHERE"@.len() == 5 && "WHERE"@[0] == 'W');
    assert("DELETE"@.len() == 6 && "DELETE"@[0] == 'D');
    assert("UPDATE"@.len() == 6 && "UPDATE"@[0] == 'U');
    assert("SET"@.len() == 3 && "SET"@[0] == 'S');
    assert("NULL"@.len() == 4 && "NULL"@[0] == 'N');
    assert("ORDER"@.len() == 5 && "ORDER"@[0] == 'O');
    assert("BY"@.len() == 2 && "BY"@[0] == 'B');
    assert("ASC"@.len() == 3 && "ASC"@[0] == 'A');
    assert("DESC"@.len() == 4 && "DESC"@[0] == 'D');
    assert("LIMIT"@.len() == 5 && "LIMIT"@[0] == 'L');
    assert("IS"@.len() == 2 && "IS"@[0] == 'I');
    assert("NOT"@.len() == 3 && "NOT"@[0] == 'N');
    assert("PRIMARY"@.len() == 7 && "PRIMARY"@[0] == 'P');
    assert("KEY"@.len() == 3 && "KEY"@[0] == 'K');
    assert("INT"@.len() == 3 && "INT"@[0] == 'I');
    assert("TEXT"@.len() == 4 && "TEXT"@[0] == 'T');
    assert("FLOAT"@.len() == 5 && "FLOAT"@[0] == 'F');
}

/// A word that is no keyword is a name.
proof fn lemma_word_is_name(w: Seq<char>)
    ensures
        keyword(word_token(w)) is Some || word_token(w) == TokenView::Ident(w),
{
}

/// What a word is read as.
proof fn lemma_word_spelled(w: Seq<char>)
    requires
        name_shaped(w),
    ensures
        spelled(word_token(w), w),
        forall|t: TokenView| #[trigger]
            spelled(t, w) && (keyword(t) is Some || t is Ident) ==> t == word_token(w),
{
    let t = word_token(w);
    lemma_word_is_name(w);
    if keyword(t) is Some {
        lemma_word_token(w, t);
        lemma_keyword_letters(t);
        lemma_reads_as(w, keyword(t)->0);
    } else {
        assert(!is_keyword(w)) by {
            if is_keyword(w) {
                let k = choose|k: TokenView|
                    (#[trigger] keyword(k)) matches Some(x) && reads_as(w, x);
                lemma_keyword_letters(k);
                lemma_reads_as(w, keyword(k)->0);
                lemma_word_token(w, k);
            }
        }
    }
    assert forall|k: TokenView| #[trigger]
        spelled(k, w) && (keyword(k) is Some || k is Ident) implies k == t by {
        if keyword(k) is Some {
            lemma_keyword_letters(k);
            lemma_reads_as(w, keyword(k)->0);
            lemma_word_token(w, k);
        } else if keyword(t) is Some {
            assert(keyword(t) matches Some(x) && reads_as(w, x));
            assert(is_keyword(w));
        }
    }
}

// Numbers.

proof fn lemma_amount(w: Seq<char>)
    requires
        all_digits(w),
    ensures
        amount(w) == digits_value(w),
    decreases w.len(),
{
    if w.len() > 0 {
        let front = w.drop_last();
        assert forall|i: int| 0 <= i < front.len() implies digit(#[trigger] front[i]) by {
            assert(digit(w[i]));
        }
        lemma_amount(front);
        lemma_amount_last(w);
        assert(digit(w[w.len() - 1]));
    }
}

/// The last digit is worth its value, and the others ten times what they are worth without it.
proof fn lemma_amount_last(w: Seq<char>)
    requires
        w.len() > 0,
    ensures
        amount(w) == 10 * amount(w.drop_last()) + (w.last() as int - '0' as int),
    decreases w.len(),
{
    let rest = w.skip(1);
    let front = w.drop_last();
    if w.len() == 1 {
        assert(rest.len() == 0);
        assert(front.len() == 0);
        assert(pow(10, 0) == 1) by {
            reveal(pow);
        }
        assert(amount(rest) == 0 && amount(front) == 0);
    } else {
        lemma_amount_last(rest);
        assert(front.skip(1) =~= rest.drop_last());
        let d = w[0] as int - '0' as int;
        let a = pow(10, (w.len() - 1) as nat);
        let b = pow(10, (w.len() - 2) as nat);
        assert(a == 10 * b) by {
            reveal(pow);
        }
        assert(d * a == 10 * (d * b)) by (nonlinear_arith)
            requires
                a == 10 * b,
        ;
    }
}

/// Where the integer of a text ends, and what it is.
proof fn lemma_int(w: Seq<char>)
    requires
        unsigned(w).len() > 0,
        all_digits(unsigned(w)),
    ensures
        forall|n: i64| #[trigger] spelled(TokenView::IntLit(n), w) <==> int_of(w) == Some(n),
{
    let u = unsigned(w);
    lemma_amount(u);
}

// One token.

proof fn lemma_part(s: Seq<char>, j: int, e: int)
    requires
        0 <= j <= e <= s.len(),
    ensures
        s.subrange(j, e).len() == e - j,
        forall|k: int| j <= k < e ==> s.subrange(j, e)[k - j] == #[trigger] s[k],
{
}

proof fn lemma_word_read(s: Seq<char>, j: int, e: int, t: TokenView)
    requires
        0 <= j <= e <= s.len(),
        keyword(t) is Some || t is Ident,
        spelled(t, s.subrange(j, e)),
        ends(t, s, e),
    ensures
        token_at(s, j) == (Ok::<TokenView, Seq<char>>(t), e),
        j < e,
{
    let w = s.subrange(j, e);
    let p = |c: char| is_word(c);
    lemma_part(s, j, e);
    assert(name_shaped(w));
    assert(s[j] == w[0]);
    lemma_chars(s[j]);
    assert forall|k: int| j <= k < e implies p(#[trigger] s[k]) by {
        assert(goes_on(w[k - j]));
        lemma_chars(s[k]);
    }
    if e < s.len() {
        lemma_chars(s[e]);
    }
    lemma_run_is(s, j, e, p);
    lemma_word_spelled(w);
}

proof fn lemma_int_read(s: Seq<char>, j: int, e: int, n: i64)
    requires
        0 <= j <= e <= s.len(),
        spelled(TokenView::IntLit(n), s.subrange(j, e)),
        ends(TokenView::IntLit(n), s, e),
    ensures
        token_at(s, j) == (Ok::<TokenView, Seq<char>>(TokenView::IntLit(n)), e),
        j < e,
{
    let w = s.subrange(j, e);
    let u = unsigned(w);
    let p = |c: char| is_digit(c);
    lemma_part(s, j, e);
    assert(s[j] == w[0]);
    let k = if s[j] == '-' {
        j + 1
    } else {
        j
    };
    assert forall|i: int| k <= i < e implies p(#[trigger] s[i]) by {
        assert(u[i - k] == s[i]);
        assert(digit(u[i - k]));
        lemma_chars(s[i]);
    }
    if e < s.len() {
        lemma_chars(s[e]);
        if e + 1 < s.len() {
            lemma_chars(s[e + 1]);
        }
    }
    lemma_run_is(s, k, e, p);
    if k == j {
        assert(digit(u[0]));
        lemma_chars(s[j]);
    }
    lemma_int(w);
    assert(spelled(TokenView::IntLit(n), w));
}

proof fn lemma_float_read(s: Seq<char>, j: int, e: int)
    requires
        0 <= j <= e <= s.len(),
        fraction_shaped(s.subrange(j, e)),
        !(e < s.len() && digit(s[e])),
    ensures
        token_at(s, j) == (
            Ok::<TokenView, Seq<char>>(TokenView::FloatText(s.subrange(j, e))),
            e,
        ),
        j < e,
{
    let w = s.subrange(j, e);
    let u = unsigned(w);
    let p = |c: char| is_digit(c);
    lemma_part(s, j, e);
    let q = choose|q: int|
        0 < q < u.len() - 1 && u[q] == '.' && all_digits(#[trigger] u.take(q)) && all_digits(
            u.skip(q + 1),
        );
    assert(s[j] == w[0]);
    let k = if s[j] == '-' {
        j + 1
    } else {
        j
    };
    assert forall|i: int| k <= i < e implies u[i - k] == #[trigger] s[i] by {}
    assert forall|i: int| k <= i < k + q implies p(#[trigger] s[i]) by {
        assert(u.take(q)[i - k] == s[i]);
        lemma_chars(s[i]);
    }
    assert(s[k + q] == '.');
    assert forall|i: int| k + q + 1 <= i < e implies p(#[trigger] s[i]) by {
        assert(u.skip(q + 1)[i - k - q - 1] == s[i]);
        lemma_chars(s[i]);
    }
    if e < s.len() {
        lemma_chars(s[e]);
    }
    lemma_run_is(s, k, k + q, p);
    lemma_run_is(s, k + q + 1, e, p);
    assert(p(s[k + q + 1]));
    if k == j {
        assert(p(s[j]));
    }
}

proof fn lemma_text_read(s: Seq<char>, j: int, e: int, x: Seq<char>)
    requires
        0 <= j <= e <= s.len(),
        spelled(TokenView::TextLit(x), s.subrange(j, e)),
    ensures
        token_at(s, j) == (Ok::<TokenView, Seq<char>>(TokenView::TextLit(x)), e),
        j < e,
{
    let w = s.subrange(j, e);
    lemma_part(s, j, e);
    let p = |c: char| c != '\'';
    assert(w.len() == x.len() + 2);
    assert(s[j] == w[0]);
    assert forall|i: int| j + 1 <= i < e - 1 implies p(#[trigger] s[i]) by {
        assert(w[i - j] == x[i - j - 1]);
        assert(x.contains(x[i - j - 1]));
    }
    assert(s[e - 1] == w[e - 1 - j]);
    lemma_run_is(s, j + 1, e - 1, p);
    assert(s.subrange(j + 1, e - 1) =~= x) by {
        assert forall|i: int| 0 <= i < x.len() implies s.subrange(j + 1, e - 1)[i] == x[i] by {
            assert(w[i + 1] == x[i]);
        }
    }
}

/// A token that is spelled at a position and ends is read there.
proof fn lemma_token_read(s: Seq<char>, j: int, e: int, t: TokenView)
    requires
        0 <= j <= e <= s.len(),
        spelled(t, s.subrange(j, e)),
        ends(t, s, e),
    ensures
        token_at(s, j) == (Ok::<TokenView, Seq<char>>(t), e),
        j < e,
{
    let w = s.subrange(j, e);
    lemma_part(s, j, e);
    if keyword(t) is Some || t is Ident {
        lemma_word_read(s, j, e, t);
    } else {
        match t {
            TokenView::IntLit(n) => lemma_int_read(s, j, e, n),
            TokenView::FloatText(_) => lemma_float_read(s, j, e),
            TokenView::TextLit(x) => lemma_text_read(s, j, e, x),
            _ => {
                assert(w.len() > 0);
                assert(s[j] == w[0]);
                if w.len() > 1 {
                    assert(s[j + 1] == w[1]);
                }
            },
        }
    }
}

/// What is read at a position is spelled there and ends.
proof fn lemma_token_written(s: Seq<char>, j: int)
    requires
        0 <= j < s.len(),
    ensures
        token_at(s, j).0 matches Ok(t) ==> j < token_at(s, j).1 <= s.len() && spelled(
            t,
            s.subrange(j, token_at(s, j).1),
        ) && ends(t, s, token_at(s, j).1),
{
    let c = s[j];
    let (res, e) = token_at(s, j);
    lemma_chars(c);
    if let Ok(t) = res {
        if c == '\'' {
            let p = |c: char| c != '\'';
            lemma_run_end(s, j + 1, p);
            let x = s.subrange(j + 1, e - 1);
            let w = s.subrange(j, e);
            assert(w =~= seq!['\''] + x + seq!['\'']);
            assert(!x.contains('\'')) by {
                if x.contains('\'') {
                    let i = choose|i: int| 0 <= i < x.len() && x[i] == '\'';
                    assert(p(s[j + 1 + i]));
                }
            }
        } else if digit(c) || c == '-' {
            lemma_number_written(s, j);
        } else if opens_name(c) {
            let p = |c: char| is_word(c);
            lemma_run_end(s, j, p);
            let e = run_end(s, j, p);
            assert(p(s[j]));
            assert(e > j);
            let w = s.subrange(j, e);
            assert forall|i: int| 0 <= i < w.len() implies goes_on(#[trigger] w[i]) by {
                assert(p(s[j + i]));
                lemma_chars(s[j + i]);
            }
            assert(w[0] == s[j]);
            lemma_word_spelled(w);
            lemma_word_is_name(w);
            if e < s.len() {
                lemma_chars(s[e]);
            }
        } else {
            let w = s.subrange(j, e);
            if e == j + 1 {
                assert(w =~= seq![s[j]]);
            } else {
                assert(w =~= seq![s[j], s[j + 1]]);
            }
        }
    }
}

proof fn lemma_number_written(s: Seq<char>, j: int)
    requires
        0 <= j < s.len(),
        digit(s[j]) || s[j] == '-',
    ensures
        number_at(s, j).0 matches Ok(t) ==> j < number_at(s, j).1 <= s.len() && spelled(
            t,
            s.subrange(j, number_at(s, j).1),
        ) && ends(t, s, number_at(s, j).1),
{
    let p = |c: char| is_digit(c);
    let k = if s[j] == '-' {
        j + 1
    } else {
        j
    };
    lemma_run_end(s, k, p);
    let m = run_end(s, k, p);
    lemma_chars(s[j]);
    if k < m && m + 1 < s.len() && s[m] == '.' && is_digit(s[m + 1]) {
        lemma_run_end(s, m + 1, p);
        let e = run_end(s, m + 1, p);
        assert(p(s[m + 1]));
        assert(e > m + 1);
        let w = s.subrange(j, e);
        let u = unsigned(w);
        let q = m - k;
        assert(w[0] == s[j]);
        assert forall|i: int| 0 <= i < u.len() implies #[trigger] u[i] == s[k + i] by {}
        assert(all_digits(u.take(q))) by {
            assert forall|i: int| 0 <= i < q implies digit(#[trigger] u.take(q)[i]) by {
                assert(p(s[k + i]));
                lemma_chars(s[k + i]);
            }
        }
        assert(all_digits(u.skip(q + 1))) by {
            assert forall|i: int| 0 <= i < u.skip(q + 1).len() implies digit(
                #[trigger] u.skip(q + 1)[i],
            ) by {
                assert(p(s[k + q + 1 + i]));
                lemma_chars(s[k + q + 1 + i]);
            }
        }
        assert(u[q] == '.');
        assert(fraction_shaped(w));
        if e < s.len() {
            lemma_chars(s[e]);
        }
    } else {
        let w = s.subrange(j, m);
        if let Some(n) = int_of(w) {
            assert(m > k) by {
                if m == k {
                    if k > j {
                        assert(w[0] == s[j]);
                        assert(w.skip(1).len() == 0);
                    } else {
                        assert(w.len() == 0);
                    }
                }
            }
            let u = unsigned(w);
            assert(w[0] == s[j]);
            assert forall|i: int| 0 <= i < u.len() implies digit(#[trigger] u[i]) by {
                assert(u[i] == s[k + i]);
                assert(p(s[k + i]));
                lemma_chars(s[k + i]);
            }
            lemma_int(w);
            assert(spelled(TokenView::IntLit(n), w));
            if m < s.len() {
                lemma_chars(s[m]);
                if m + 1 < s.len() {
                    lemma_chars(s[m + 1]);
                }
            }
        }
    }
}

proof fn lemma_blanks(s: Seq<char>, i: int, j: int)
    requires
        0 <= i <= j <= s.len(),
        blanks(s, i, j),
        j < s.len() ==> !blank(s[j]),
    ensures
        run_end(s, i, |c: char| is_space(c)) == j,
{
    let p = |c: char| is_space(c);
    assert forall|k: int| i <= k < j implies p(#[trigger] s[k]) by {
        lemma_chars(s[k]);
    }
    if j < s.len() {
        lemma_chars(s[j]);
    }
    lemma_run_is(s, i, j, p);
}

/// A token does not start with a blank.
proof fn lemma_no_blank(t: TokenView, w: Seq<char>)
    requires
        spelled(t, w),
    ensures
        w.len() > 0,
        w[0] as int >= 128 || !blank(w[0]),
{
    match t {
        TokenView::IntLit(_) => {
            let u = unsigned(w);
            assert(digit(u[0]));
        },
        TokenView::FloatText(_) => {
            let u = unsigned(w);
            let q = choose|q: int|
                0 < q < u.len() - 1 && u[q] == '.' && all_digits(#[trigger] u.take(q)) && all_digits(
                    u.skip(q + 1),
                );
            assert(u.take(q)[0] == u[0]);
        },
        _ => {},
    }
}

/// Blanks, then a token that ends where it ends: the lexer reads the token, up to its end. A name that
/// starts outside of ASCII is meant only where it does not start with a blank.
pub proof fn law_spelled_token_is_read(t: TokenView, s: Seq<char>, i: int, j: int, e: int)
    requires
        stands_at(t, s, i, j, e),
        j < s.len() && s[j] as int >= 128 ==> !wide_space(s[j]),
    ensures
        next_token(s, i) == (Ok::<TokenView, Seq<char>>(t), e),
        i < e,
{
    lemma_token_read(s, j, e, t);
    lemma_no_blank(t, s.subrange(j, e));
    lemma_part(s, j, e);
    assert(s.subrange(j, e)[0] == s[j]);
    lemma_blanks(s, i, j);
}

/// Where nothing but blanks is left, the lexer reads the end.
pub proof fn law_end_is_read(s: Seq<char>, i: int)
    requires
        0 <= i <= s.len(),
        blanks(s, i, s.len() as int),
    ensures
        next_token(s, i) == (Ok::<TokenView, Seq<char>>(TokenView::Eof), s.len() as int),
{
    lemma_blanks(s, i, s.len() as int);
}

/// Whatever the lexer reads as a token is that token, spelled behind blanks, and nothing that follows
/// belongs to it. It reads the end only where nothing but blanks is left.
pub proof fn law_read_token_is_spelled(s: Seq<char>, i: int) -> (j: int)
    requires
        0 <= i <= s.len(),
    ensures
        i <= j <= s.len(),
        blanks(s, i, j),
        j < s.len() ==> !blank(s[j]),
        next_token(s, i).0 matches Ok(t) ==> if t is Eof {
            j == s.len() && next_token(s, i).1 == s.len()
        } else {
            stands_at(t, s, i, j, next_token(s, i).1)
        },
{
    let p = |c: char| is_space(c);
    lemma_run_end(s, i, p);
    let j = run_end(s, i, p);
    assert forall|k: int| i <= k < j implies blank(#[trigger] s[k]) by {
        assert(p(s[k]));
        lemma_chars(s[k]);
    }
    if j < s.len() {
        lemma_chars(s[j]);
        lemma_token_written(s, j);
    }
    j
}

// All tokens.

/// The tokens are spelled one after the other, with blanks between them, from `i` to the end.
pub open spec fn spelled_out(ts: Seq<TokenView>, s: Seq<char>, i: int) -> bool
    decreases ts.len(),
{
    if ts.len() == 0 {
        0 <= i <= s.len() && blanks(s, i, s.len() as int)
    } else {
        exists|j: int, e: int| #[trigger]
            stands_at(ts[0], s, i, j, e) && (j < s.len() ==> !blank(s[j])) && spelled_out(
                ts.skip(1),
                s,
                e,
            )
    }
}

/// Tokens that are spelled out are read, in their order, and the end behind them.
pub proof fn law_spelled_text_is_read(ts: Seq<TokenView>, s: Seq<char>, i: int)
    requires
        spelled_out(ts, s, i),
    ensures
        0 <= i <= s.len(),
        tokens_from(s, i).0 == Ok::<Seq<TokenView>, Seq<char>>(ts.push(TokenView::Eof)),
    decreases ts.len(),
{
    if ts.len() == 0 {
        law_end_is_read(s, i);
        assert(ts.push(TokenView::Eof) =~= seq![TokenView::Eof]);
    } else {
        let (j, e) = choose|j: int, e: int| #[trigger]
            stands_at(ts[0], s, i, j, e) && (j < s.len() ==> !blank(s[j])) && spelled_out(
                ts.skip(1),
                s,
                e,
            );
        law_spelled_token_is_read(ts[0], s, i, j, e);
        law_spelled_text_is_read(ts.skip(1), s, e);
        assert(!(ts[0] is Eof));
        assert(ts.push(TokenView::Eof) =~= seq![ts[0]] + ts.skip(1).push(TokenView::Eof));
    }
}

/// Whatever tokens the lexer reads are spelled out, and behind them is the end.
pub proof fn law_read_text_is_spelled(s: Seq<char>, i: int)
    requires
        0 <= i <= s.len(),
    ensures
        tokens_from(s, i).0 matches Ok(ts) ==> ts.len() > 0 && ts.last() is Eof && spelled_out(
            ts.drop_last(),
            s,
            i,
        ),
    decreases s.len() - i,
{
    let j = law_read_token_is_spelled(s, i);
    lemma_token_moves(s, i);
    let (t, e) = next_token(s, i);
    if let Ok(ts) = tokens_from(s, i).0 {
        match t {
            Ok(TokenView::Eof) => {
                assert(ts == seq![TokenView::Eof]);
                assert(ts.drop_last().len() == 0);
            },
            Ok(v) => {
                law_read_text_is_spelled(s, e);
                let rest = tokens_from(s, e).0->Ok_0;
                assert(ts == seq![v] + rest);
                let front = ts.drop_last();
                assert(front[0] == v);
                assert(front.skip(1) =~= rest.drop_last());
                assert(stands_at(front[0], s, i, j, e));
            },
            Err(_) => {},
        }
    }
}

// Written numbers.

proof fn lemma_dec(n: nat)
    ensures
        dec(n).len() > 0,
        all_digits(dec(n)),
        digits_value(dec(n)) == n,
        n > 0 ==> dec(n)[0] != '0',
    decreases n,
{
    let s = dec(n);
    let last = (48 + n % 10) as char;
    if n < 10 {
        assert(s == seq![last]);
        assert(s.drop_last().len() == 0);
        assert(digits_value(s.drop_last()) == 0);
        assert(s.last() == last);
    } else {
        let r = dec(n / 10);
        lemma_dec(n / 10);
        assert(s == r.push(last));
        assert(s.drop_last() =~= r);
        assert forall|i: int| 0 <= i < s.len() implies digit(#[trigger] s[i]) by {
            if i < r.len() {
                assert(digit(r[i]));
            }
        }
        assert(s[0] == r[0]);
    }
}

/// An integer as it is written in decimal spells that integer, without a zero in front of other
/// digits: what is shown can be read back.
pub proof fn law_written_number_is_read(n: i64)
    ensures
        spelled(TokenView::IntLit(n), dec_int(n as int)),
        n != 0 ==> unsigned(dec_int(n as int))[0] != '0',
        n >= 0 <==> dec_int(n as int)[0] != '-',
{
    let m = if n < 0 {
        -n
    } else {
        n as int
    };
    let d = dec(m as nat);
    lemma_dec(m as nat);
    lemma_amount(d);
    assert(digit(d[0]));
    let w = dec_int(n as int);
    if n < 0 {
        assert(w.skip(1) =~= d);
    }
}

} // verus!
