use lispen::lexer::{LexError, LexErrorKind, Lexer};
use lispen::token::{Token, TokenKind};

fn scan(src: &str) -> Result<Vec<Token>, Vec<LexError>> {
    Lexer::new(src).lex()
}

fn kinds(ts: &[Token]) -> Vec<TokenKind> {
    ts.iter().map(|t| t.kind).collect()
}

#[test]
fn integer_literal_is_one_number_token() {
    let ts = scan("123").unwrap();
    assert_eq!(ts.len(), 1);
    assert_eq!(ts[0].kind, TokenKind::Number);
    assert_eq!(ts[0].lexeme, "123");
    assert_eq!(ts[0].lexeme.parse::<f64>().unwrap(), 123.0);
}

#[test]
fn decimal_literal_is_one_number_token() {
    let ts = scan("3.14").unwrap();
    assert_eq!(ts.len(), 1);
    assert_eq!(ts[0].kind, TokenKind::Number);
    assert_eq!(ts[0].lexeme, "3.14");
    assert_eq!(ts[0].lexeme.parse::<f64>().unwrap(), 3.14);
}

#[test]
fn trailing_dot_is_not_part_of_the_number() {
    let ts = scan("1.").unwrap();
    assert_eq!(kinds(&ts), vec![TokenKind::Number, TokenKind::Identifier]);
    assert_eq!(ts[0].lexeme, "1");
    assert_eq!(ts[1].lexeme, ".");
}

#[test]
fn unterminated_string_at_end_of_input() {
    let es = scan("\"abc").unwrap_err();
    assert_eq!(es.len(), 1);
    assert_eq!(es[0].kind, LexErrorKind::UnterminatedString);
    assert_eq!(es[0].lexeme, "abc");
    assert_eq!((es[0].pos.line, es[0].pos.col), (0, 4));
}

#[test]
fn unterminated_string_before_newline() {
    let es = scan("\"abc\n(x)").unwrap_err();
    assert_eq!(es.len(), 1);
    assert_eq!(es[0].kind, LexErrorKind::UnterminatedString);
}

#[test]
fn every_malformed_literal_is_reported() {
    let es = scan("\"a\n\"b").unwrap_err();
    assert_eq!(es.len(), 2);
    assert_eq!(es[1].pos.line, 1);
}

#[test]
fn string_literal_keeps_inner_text() {
    let ts = scan("\"hi there\"").unwrap();
    assert_eq!(ts.len(), 1);
    assert_eq!(ts[0].kind, TokenKind::String);
    assert_eq!(ts[0].lexeme, "hi there");
}

#[test]
fn keywords_operators_and_identifiers_are_classified() {
    let ts = scan("(set x (+ 1 2))").unwrap();
    assert_eq!(
        kinds(&ts),
        vec![
            TokenKind::LParen,
            TokenKind::Keyword,
            TokenKind::Identifier,
            TokenKind::LParen,
            TokenKind::Operator,
            TokenKind::Number,
            TokenKind::Number,
            TokenKind::RParen,
            TokenKind::RParen,
        ]
    );
    let ts = scan(">= != setx").unwrap();
    assert_eq!(kinds(&ts), vec![TokenKind::Operator, TokenKind::Operator, TokenKind::Identifier]);
}

#[test]
fn positions_track_lines_and_columns() {
    let ts = scan("a\n  bc d").unwrap();
    assert_eq!((ts[0].pos.line, ts[0].pos.col), (0, 0));
    assert_eq!((ts[1].pos.line, ts[1].pos.col), (1, 2));
    assert_eq!((ts[2].pos.line, ts[2].pos.col), (1, 5));
}

#[test]
fn non_ascii_digit_is_an_invalid_number_literal() {
    let es = scan("1\u{0663}").unwrap_err();
    assert_eq!(es.len(), 1);
    assert_eq!(es[0].kind, LexErrorKind::InvalidNumberLiteral);
    assert_eq!(es[0].lexeme, "1\u{0663}");
}

#[test]
fn tab_separates_tokens() {
    let ts = scan("a\tb").unwrap();
    assert_eq!(ts.len(), 2);
    assert_eq!(ts[1].lexeme, "b");
    assert_eq!(ts[1].pos.col, 2);
}

#[test]
fn empty_input_has_no_tokens() {
    assert_eq!(scan("").unwrap().len(), 0);
    assert_eq!(scan("  \n ").unwrap().len(), 0);
}

#[test]
fn digits_may_continue_an_identifier() {
    let ts = scan("x1 a2b 3c").unwrap();
    assert_eq!(kinds(&ts), vec![TokenKind::Identifier, TokenKind::Identifier, TokenKind::Number, TokenKind::Identifier]);
    assert_eq!(ts[0].lexeme, "x1");
    assert_eq!(ts[1].lexeme, "a2b");
    assert_eq!(ts[2].lexeme, "3");
    assert_eq!(ts[3].lexeme, "c");
}
