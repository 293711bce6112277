use venom_db::sql::lexer::{Lexer, Token};

#[test]
fn test_tokenize_select() {
    let mut l = Lexer::new("SELECT * FROM users WHERE id = 1");
    let tokens = l.tokenize().unwrap();
    assert!(matches!(tokens[0], Token::Select));
    assert!(matches!(tokens[1], Token::Star));
    assert!(matches!(tokens[2], Token::From));
    assert!(matches!(tokens[3], Token::Ident(_)));
    assert!(matches!(tokens[4], Token::Where));
    assert!(matches!(tokens[6], Token::Eq));
    assert!(matches!(tokens[7], Token::IntLit(1)));
}

#[test]
fn test_tokenize_string_literal() {
    let mut l = Lexer::new("INSERT INTO t VALUES (1, 'hello')");
    let tokens = l.tokenize().unwrap();
    assert!(tokens.contains(&Token::TextLit("hello".into())));
}

#[test]
fn test_operators() {
    let mut l = Lexer::new("a != b <= c >= d");
    let tokens = l.tokenize().unwrap();
    assert!(tokens.contains(&Token::Ne));
    assert!(tokens.contains(&Token::Le));
    assert!(tokens.contains(&Token::Ge));
}
