use cc1::token::{Expected, LexError, Mismatch, Token, TokenKind};

fn shape(tokens: &[Token]) -> Vec<(TokenKind, i64, String)> {
    tokens.iter().map(|t| (t.kind, t.val, t.text.clone())).collect()
}

#[test]
fn new_is_end_token() {
    let t = Token::new();
    assert_eq!(t.kind, TokenKind::Eof);
    assert_eq!(t.val, 0);
    assert_eq!(t.text, "");
    assert!(t.at_eof());
}

#[test]
fn append_keeps_order_and_text() {
    let mut v: Vec<Token> = Vec::new();
    Token::append(&mut v, TokenKind::Num, 7, Some("7"));
    Token::append(&mut v, TokenKind::Reserved, 0, Some("-"));
    Token::append(&mut v, TokenKind::Eof, 0, None);
    assert_eq!(
        shape(&v),
        vec![
            (TokenKind::Num, 7, "7".to_string()),
            (TokenKind::Reserved, 0, "-".to_string()),
            (TokenKind::Eof, 0, String::new()),
        ]
    );
}

#[test]
fn consume_matches_operator() {
    let mut v: Vec<Token> = Vec::new();
    Token::append(&mut v, TokenKind::Reserved, 0, Some("+"));
    assert_eq!(v[0].consume('+'), Ok(()));
    assert_eq!(
        v[0].consume('-'),
        Err(Mismatch { expected: Expected::Punct('-'), found: TokenKind::Reserved })
    );
}

#[test]
fn consume_refuses_number_and_end() {
    let mut v: Vec<Token> = Vec::new();
    Token::append(&mut v, TokenKind::Num, 4, Some("4"));
    assert_eq!(
        v[0].consume('+'),
        Err(Mismatch { expected: Expected::Punct('+'), found: TokenKind::Num })
    );
    assert_eq!(
        Token::new().consume('+'),
        Err(Mismatch { expected: Expected::Punct('+'), found: TokenKind::Eof })
    );
}

#[test]
fn expect_number_gives_value() {
    let mut v: Vec<Token> = Vec::new();
    Token::append(&mut v, TokenKind::Num, 5, Some("5"));
    Token::append(&mut v, TokenKind::Reserved, 0, Some("+"));
    assert_eq!(v[0].expect_number(), Ok(5));
    assert_eq!(
        v[1].expect_number(),
        Err(Mismatch { expected: Expected::Number, found: TokenKind::Reserved })
    );
    assert!(!v[0].at_eof());
}

#[test]
fn tokenize_single_digit() {
    let v = Token::tokenize("3").unwrap();
    assert_eq!(
        shape(&v),
        vec![(TokenKind::Num, 3, "3".to_string()), (TokenKind::Eof, 0, String::new())]
    );
}

#[test]
fn tokenize_operators() {
    let v = Token::tokenize("3+2-1").unwrap();
    assert_eq!(
        shape(&v),
        vec![
            (TokenKind::Num, 3, "3".to_string()),
            (TokenKind::Reserved, 0, "+".to_string()),
            (TokenKind::Num, 2, "2".to_string()),
            (TokenKind::Reserved, 0, "-".to_string()),
            (TokenKind::Num, 1, "1".to_string()),
            (TokenKind::Eof, 0, String::new()),
        ]
    );
}

#[test]
fn tokenize_one_token_per_non_space_character() {
    let input = " 1 + 2  -3 +  ";
    let v = Token::tokenize(input).unwrap();
    let non_space = input.chars().filter(|c| *c != ' ').count();
    assert_eq!(v.len(), non_space + 1);
    let texts: Vec<String> = v.iter().map(|t| t.text.clone()).collect();
    assert_eq!(texts, vec!["1", "+", "2", "-", "3", "+", ""]);
    assert_eq!(v.last().unwrap().kind, TokenKind::Eof);
}

// This grammar variant scans one digit per number: "12" is two numbers.
#[test]
fn tokenize_digits_are_single_numbers() {
    let v = Token::tokenize("12").unwrap();
    assert_eq!(
        shape(&v),
        vec![
            (TokenKind::Num, 1, "1".to_string()),
            (TokenKind::Num, 2, "2".to_string()),
            (TokenKind::Eof, 0, String::new()),
        ]
    );
}

#[test]
fn tokenize_empty_and_blank() {
    assert_eq!(shape(&Token::tokenize("").unwrap()), vec![(TokenKind::Eof, 0, String::new())]);
    assert_eq!(shape(&Token::tokenize("   ").unwrap()), vec![(TokenKind::Eof, 0, String::new())]);
}

#[test]
fn tokenize_twice_is_identical() {
    let a = Token::tokenize("9 - 0+ 4").unwrap();
    let b = Token::tokenize("9 - 0+ 4").unwrap();
    assert_eq!(shape(&a), shape(&b));
    assert_eq!(Token::tokenize("1 * 2").err(), Token::tokenize("1 * 2").err());
}

#[test]
fn tokenize_refuses_bad_character() {
    assert_eq!(Token::tokenize("1 + a").err(), Some(LexError { pos: 4, ch: 'a' }));
}

#[test]
fn tokenize_reports_first_bad_character() {
    assert_eq!(Token::tokenize("x*").err(), Some(LexError { pos: 0, ch: 'x' }));
    assert_eq!(Token::tokenize("1\t2").err(), Some(LexError { pos: 1, ch: '\t' }));
    assert_eq!(Token::tokenize("2+é").err(), Some(LexError { pos: 2, ch: 'é' }));
}
