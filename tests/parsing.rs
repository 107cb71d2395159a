use lispen::expr::{Expr, ExprData};
use lispen::lexer::Lexer;
use lispen::parser::{ParseError, ParseErrorKind, Parser};

fn parse(src: &str) -> Result<Vec<Expr>, Vec<ParseError>> {
    let ts = Lexer::new(src).lex().unwrap();
    Parser::new(ts).parse()
}

#[test]
fn quoted_list_is_marked_quoted() {
    let es = parse("'(1 2 3)").unwrap();
    assert_eq!(es.len(), 1);
    match &es[0].data {
        ExprData::List(items, quoted) => {
            assert!(*quoted);
            assert_eq!(items.len(), 3);
        }
        _ => panic!("expected a list"),
    }
}

#[test]
fn operator_inside_list_body_is_rejected() {
    let es = parse("(1 + 2)").unwrap_err();
    assert_eq!(es[0].kind, ParseErrorKind::OperatorAsValue);
    assert_eq!(es[0].lexeme, "+");
    // parsing resumes after the operator: `2` parses, the `)` does not
    assert_eq!(es.len(), 2);
    assert_eq!(es[1].kind, ParseErrorKind::InvalidExpression);
}

#[test]
fn keyword_inside_list_body_is_rejected() {
    let es = parse("(1 while)").unwrap_err();
    assert_eq!(es[0].kind, ParseErrorKind::KeywordAsValue);
}

#[test]
fn bare_operator_is_rejected() {
    let es = parse("+").unwrap_err();
    assert_eq!(es[0].kind, ParseErrorKind::OperatorAsValue);
}

#[test]
fn missing_close_paren_is_reported_at_the_open() {
    let es = parse("1 (+ 1 2").unwrap_err();
    assert_eq!(es.len(), 1);
    assert_eq!(es[0].kind, ParseErrorKind::ExpectedCloseParen);
    assert_eq!(es[0].pos.col, 2);
}

#[test]
fn quote_must_be_followed_by_a_list() {
    let es = parse("' x").unwrap_err();
    assert_eq!(es[0].kind, ParseErrorKind::ExpectedOpenParen);
    assert_eq!(es[0].lexeme, "x");
}

#[test]
fn empty_list_parses() {
    let es = parse("()").unwrap();
    match &es[0].data {
        ExprData::List(items, quoted) => {
            assert!(items.is_empty());
            assert!(!*quoted);
        }
        _ => panic!("expected a list"),
    }
}

#[test]
fn stray_close_paren_is_an_error_and_parsing_goes_on() {
    let es = parse(") (1 +)").unwrap_err();
    assert_eq!(es.len(), 3);
    assert_eq!(es[0].kind, ParseErrorKind::InvalidExpression);
    assert_eq!(es[1].kind, ParseErrorKind::OperatorAsValue);
    assert_eq!(es[2].kind, ParseErrorKind::InvalidExpression);
}

#[test]
fn literals_become_leaves() {
    let es = parse("true false nil \"s\" x 2.5").unwrap();
    assert!(matches!(es[0].data, ExprData::Bool(true)));
    assert!(matches!(es[1].data, ExprData::Bool(false)));
    assert!(matches!(es[2].data, ExprData::Nil));
    assert!(matches!(&es[3].data, ExprData::String(s) if s == "s"));
    assert!(matches!(&es[4].data, ExprData::Identifier(s) if s == "x"));
    assert!(matches!(&es[5].data, ExprData::Number(n) if n.units == 2_500_000));
}

#[test]
fn number_literal_out_of_range_is_rejected() {
    let es = parse("99999999999999999999").unwrap_err();
    assert_eq!(es[0].kind, ParseErrorKind::InvalidNumber);
}

#[test]
fn number_literal_with_more_than_six_places_is_rejected() {
    let es = parse("0.0000001").unwrap_err();
    assert_eq!(es[0].kind, ParseErrorKind::InvalidNumber);
    let es = parse("0.000001").unwrap();
    assert!(matches!(&es[0].data, ExprData::Number(n) if n.units == 1));
}
