use calc_lexer::{Lexer, Token};

#[test]
fn test_digit() {
    let mut lexer = Lexer::new("1");
    let tokens = lexer.tokenize().unwrap();
    assert_eq!(tokens, vec![Token::Num(1)]);
}

#[test]
fn test_numbers() {
    let mut lexer = Lexer::new("123");
    let tokens = lexer.tokenize().unwrap();
    assert_eq!(tokens, vec![Token::Num(123)]);
}

#[test]
fn ignore_spaces() {
    let mut lexer = Lexer::new("2 57 120 1");
    let tokens = lexer.tokenize().unwrap();
    assert_eq!(
        tokens,
        vec![
            Token::Num(2),
            Token::Num(57),
            Token::Num(120),
            Token::Num(1)
        ]
    );
}

#[test]
fn numbers_and_operators() {
    let mut lexer = Lexer::new("2+13");
    let tokens = lexer.tokenize().unwrap();
    assert_eq!(tokens, vec![Token::Num(2), Token::Plus, Token::Num(13)]);
}

#[test]
fn error() {
    let mut lexer = Lexer::new("2invalid");
    let tokens = lexer.tokenize();
    assert!(tokens.is_err());
}
