use venom_db::sql::lexer::{Lexer, Token};
use venom_db::sql::parser::Parser;
use venom_db::text::{dec_i64, dec_u64};

fn tokens(sql: &str) -> Vec<Token> {
    Lexer::new(sql).tokenize().unwrap()
}

fn lex_error(sql: &str) -> String {
    Lexer::new(sql).tokenize().unwrap_err()
}

fn parse_error(sql: &str) -> String {
    Parser::new(tokens(sql)).parse().unwrap_err()
}

#[test]
fn keywords_are_read_in_any_case() {
    assert_eq!(tokens("sElEcT nUlL"), [Token::Select, Token::Null, Token::Eof]);
    assert_eq!(
        tokens("update Set float PRIMARY key"),
        [
            Token::Update,
            Token::SetKeyword,
            Token::Float,
            Token::Primary,
            Token::Key,
            Token::Eof,
        ]
    );
}

#[test]
fn letters_beyond_ascii_make_names() {
    assert_eq!(tokens("größe"), [Token::Ident("größe".into()), Token::Eof]);
    assert_eq!(tokens("名前_1"), [Token::Ident("名前_1".into()), Token::Eof]);
    // An Arabic digit goes on with a name but starts none.
    assert_eq!(tokens("a٣"), [Token::Ident("a٣".into()), Token::Eof]);
    assert_eq!(lex_error("٣"), "unexpected character: '٣'");
    // The long s has S as its capital.
    assert_eq!(tokens("ſelect"), [Token::Select, Token::Eof]);
}

#[test]
fn white_space_beyond_ascii_separates() {
    assert_eq!(
        tokens("a\u{3000}b\u{a0}c"),
        [
            Token::Ident("a".into()),
            Token::Ident("b".into()),
            Token::Ident("c".into()),
            Token::Eof,
        ]
    );
    assert_eq!(tokens(" \t\r\n"), [Token::Eof]);
}

#[test]
fn numbers_are_integers_or_have_a_fraction() {
    assert_eq!(tokens("-12"), [Token::IntLit(-12), Token::Eof]);
    assert_eq!(tokens("9223372036854775807"), [Token::IntLit(i64::MAX), Token::Eof]);
    assert_eq!(tokens("-9223372036854775808"), [Token::IntLit(i64::MIN), Token::Eof]);
    assert_eq!(tokens("-1.50"), [Token::FloatText("-1.50".into()), Token::Eof]);
    assert_eq!(lex_error("9223372036854775808"), "invalid number: 9223372036854775808");
    assert_eq!(lex_error("-"), "invalid number: -");
    assert_eq!(lex_error("1.x"), "unexpected character: '.'");
}

#[test]
fn what_is_no_token_is_reported() {
    assert_eq!(lex_error("'abc"), "unterminated string literal");
    assert_eq!(lex_error("a ! b"), "unexpected char '!'");
    assert_eq!(lex_error("a # b"), "unexpected character: '#'");
    assert_eq!(tokens("''"), [Token::TextLit("".into()), Token::Eof]);
}

#[test]
fn what_is_no_statement_is_reported() {
    assert_eq!(parse_error(""), "unexpected token: Eof");
    assert_eq!(parse_error("foo"), "unexpected token: Ident(\"foo\")");
    assert_eq!(parse_error("CREATE t"), "expected Table, got Ident(\"t\")");
    assert_eq!(parse_error("CREATE TABLE 1"), "expected identifier, got IntLit(1)");
    assert_eq!(parse_error("CREATE TABLE t (a b)"), "expected type, got Ident(\"b\")");
    assert_eq!(parse_error("CREATE TABLE t (a INT b"), "expected ',' or ')', got Ident(\"b\")");
    assert_eq!(parse_error("INSERT INTO t VALUES (a)"), "expected value, got Ident(\"a\")");
    assert_eq!(parse_error("SELECT * FROM t WHERE a 'x\"y'"), "expected operator, got TextLit(\"x\\\"y\")");
    assert_eq!(
        parse_error("SELECT * FROM t LIMIT -1"),
        "expected positive integer after LIMIT, got IntLit(-1)"
    );
    assert_eq!(parse_error("SELECT * FROM t LIMIT x"), "expected positive integer after LIMIT, got Ident(\"x\")");
    assert_eq!(parse_error("UPDATE t a = 1"), "expected Set, got Ident(\"a\")");
}

#[test]
fn numbers_are_written_in_decimal() {
    assert_eq!(dec_u64(0), "0");
    assert_eq!(dec_u64(u64::MAX), "18446744073709551615");
    assert_eq!(dec_i64(i64::MIN), "-9223372036854775808");
    assert_eq!(dec_i64(-7), "-7");
    assert_eq!(dec_i64(70), "70");
}
