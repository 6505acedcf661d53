use calc_lexer::{LexError, LexErrorKind, Lexer, Token};

fn scan(line: &str) -> Result<Vec<Token>, LexError> {
    Lexer::new(line).tokenize()
}

#[test]
fn invalid_char_is_named() {
    assert_eq!(
        scan("2invalid"),
        Err(LexError { kind: LexErrorKind::InvalidToken('i') })
    );
}

#[test]
fn empty_line_has_no_tokens() {
    assert_eq!(scan(""), Ok(vec![]));
}

#[test]
fn spaces_only_have_no_tokens() {
    assert_eq!(scan("     "), Ok(vec![]));
}

#[test]
fn single_digit_run_is_one_number() {
    assert_eq!(scan("9081726"), Ok(vec![Token::Num(9081726)]));
    assert_eq!(scan("10"), Ok(vec![Token::Num(10)]));
}

#[test]
fn largest_number_fits() {
    assert_eq!(scan("2147483647"), Ok(vec![Token::Num(2147483647)]));
}

#[test]
fn number_above_i32_is_too_large() {
    assert_eq!(
        scan("2147483648"),
        Err(LexError { kind: LexErrorKind::NumberTooLarge })
    );
    assert_eq!(
        scan("1 99999999999999999999 x"),
        Err(LexError { kind: LexErrorKind::NumberTooLarge })
    );
}

#[test]
fn leading_zero_is_rejected() {
    assert_eq!(
        scan("0"),
        Err(LexError { kind: LexErrorKind::InvalidToken('0') })
    );
    assert_eq!(
        scan("1 + 05"),
        Err(LexError { kind: LexErrorKind::InvalidToken('0') })
    );
}

#[test]
fn inner_zeros_are_digits() {
    assert_eq!(scan("100+20"), Ok(vec![Token::Num(100), Token::Plus, Token::Num(20)]));
}

#[test]
fn pushed_back_char_is_scanned() {
    assert_eq!(scan("12+"), Ok(vec![Token::Num(12), Token::Plus]));
    assert_eq!(scan("12 +"), Ok(vec![Token::Num(12), Token::Plus]));
    assert_eq!(scan("12x"), Err(LexError { kind: LexErrorKind::InvalidToken('x') }));
}

#[test]
fn plus_signs_alone() {
    assert_eq!(scan(" ++ "), Ok(vec![Token::Plus, Token::Plus]));
}

#[test]
fn first_error_wins() {
    assert_eq!(
        scan("1 a b"),
        Err(LexError { kind: LexErrorKind::InvalidToken('a') })
    );
    assert_eq!(
        scan("  -3"),
        Err(LexError { kind: LexErrorKind::InvalidToken('-') })
    );
}

#[test]
fn non_ascii_char_is_rejected() {
    assert_eq!(
        scan("4\u{e9}"),
        Err(LexError { kind: LexErrorKind::InvalidToken('\u{e9}') })
    );
}

#[test]
fn fresh_lexers_agree() {
    let line = "3 + 41+ 5";
    let first = scan(line);
    let second = scan(line);
    assert_eq!(first, second);
    assert_eq!(
        first,
        Ok(vec![Token::Num(3), Token::Plus, Token::Num(41), Token::Plus, Token::Num(5)])
    );
}
