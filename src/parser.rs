use vstd::prelude::*;
use crate::expr::{expr_models, Expr, ExprData, ExprModel, Node};
use crate::number::{literal_places, literal_shape, literal_units, Number, in_range};
use crate::position::Position;
use crate::text::same_text;
use crate::token::{token_models, Token, TokenKind, TokenModel};

verus! {

/// What is wrong with the structure of the token stream.
#[derive(Clone, Copy, Debug, PartialEq, Eq, Structural)]
pub enum ParseErrorKind {
    /// A quote not followed by `(`; the lexeme is the token found instead.
    ExpectedOpenParen,
    /// A list still open at the end of the input.
    ExpectedCloseParen,
    /// A token that cannot start an expression.
    InvalidExpression,
    /// An operator anywhere but at the head of a list.
    OperatorAsValue,
    /// A keyword anywhere but at the head of a list.
    KeywordAsValue,
    /// A number token that does not read as a number in range, or has more
    /// than six places after the point.
    InvalidNumber,
}

#[derive(Clone, Debug)]
pub struct ParseError {
    pub kind: ParseErrorKind,
    pub lexeme: String,
    pub pos: Position,
}

pub struct ParseErrorModel {
    pub kind: ParseErrorKind,
    pub lexeme: Seq<char>,
    pub pos: Position,
}

impl View for ParseError {
    type V = ParseErrorModel;

    open spec fn view(&self) -> ParseErrorModel {
        ParseErrorModel { kind: self.kind, lexeme: self.lexeme@, pos: self.pos }
    }
}

pub open spec fn parse_error_models(es: Seq<ParseError>) -> Seq<ParseErrorModel> {
    es.map_values(|e: ParseError| e@)
}

// ----- the grammar -----

/// The outcome of parsing from one token on, and the token after it.
pub struct Step<A> {
    pub result: Result<A, ParseErrorModel>,
    pub next: int,
}

pub open spec fn perr(kind: ParseErrorKind, lexeme: Seq<char>, pos: Position) -> ParseErrorModel {
    ParseErrorModel { kind, lexeme, pos }
}

/// An operator or keyword, which may stand only at the head of a list.
pub open spec fn head_only(e: ExprModel) -> bool {
    e.node is Operator || e.node is Keyword
}

pub open spec fn as_value_error(e: ExprModel) -> ParseErrorModel {
    match e.node {
        Node::Operator(o) => perr(ParseErrorKind::OperatorAsValue, o, e.pos),
        Node::Keyword(k) => perr(ParseErrorKind::KeywordAsValue, k, e.pos),
        _ => perr(ParseErrorKind::InvalidExpression, Seq::empty(), e.pos),
    }
}

pub open spec fn list_step(st: Step<Seq<ExprModel>>, pos: Position, quoted: bool) -> Step<ExprModel> {
    Step {
        result: match st.result {
            Ok(xs) => Ok(ExprModel { pos, node: Node::List(xs, quoted) }),
            Err(e) => Err(e),
        },
        next: st.next,
    }
}

pub open spec fn leaf(node: Node, t: TokenModel, next: int) -> Step<ExprModel> {
    Step { result: Ok(ExprModel { pos: t.pos, node }), next }
}

/// The expression that starts at token `i`:
/// `expr := NUMBER | STRING | IDENTIFIER | KEYWORD | OPERATOR | "'" list | list`.
pub open spec fn parse_expr(ts: Seq<TokenModel>, i: int) -> Step<ExprModel>
    decreases ts.len() - i, 0nat,
{
    if i < 0 || i >= ts.len() {
        Step { result: Err(perr(ParseErrorKind::InvalidExpression, Seq::empty(), Position { line: 0, col: 0 })), next: i }
    } else {
        let t = ts[i];
        match t.kind {
            TokenKind::LParen => list_step(parse_items(ts, i + 1, true, t.pos), t.pos, false),
            TokenKind::Identifier => {
                if t.lexeme == "'"@ {
                    if i + 1 < ts.len() && ts[i + 1].kind == TokenKind::LParen {
                        list_step(parse_items(ts, i + 2, true, t.pos), t.pos, true)
                    } else if i + 1 < ts.len() {
                        Step { result: Err(perr(ParseErrorKind::ExpectedOpenParen, ts[i + 1].lexeme, t.pos)), next: i + 2 }
                    } else {
                        Step { result: Err(perr(ParseErrorKind::ExpectedOpenParen, Seq::empty(), t.pos)), next: i + 1 }
                    }
                } else {
                    leaf(Node::Identifier(t.lexeme), t, i + 1)
                }
            },
            TokenKind::String => leaf(Node::Text(t.lexeme), t, i + 1),
            TokenKind::Number => {
                if literal_shape(t.lexeme) && literal_places(t.lexeme) <= 6 && in_range(literal_units(t.lexeme) as int) {
                    leaf(Node::Number(Number { units: literal_units(t.lexeme) as i64 }), t, i + 1)
                } else {
                    Step { result: Err(perr(ParseErrorKind::InvalidNumber, t.lexeme, t.pos)), next: i + 1 }
                }
            },
            TokenKind::Operator => leaf(Node::Operator(t.lexeme), t, i + 1),
            TokenKind::Keyword => {
                if t.lexeme == "true"@ {
                    leaf(Node::Bool(true), t, i + 1)
                } else if t.lexeme == "false"@ {
                    leaf(Node::Bool(false), t, i + 1)
                } else if t.lexeme == "nil"@ {
                    leaf(Node::Nil, t, i + 1)
                } else {
                    leaf(Node::Keyword(t.lexeme), t, i + 1)
                }
            },
            TokenKind::RParen => Step { result: Err(perr(ParseErrorKind::InvalidExpression, t.lexeme, t.pos)), next: i + 1 },
        }
    }
}

/// The elements of a list from token `j` through its closing `)`; `first`
/// tells whether the element at `j` would be the list's head, and `open` is
/// where the list began.
pub open spec fn parse_items(ts: Seq<TokenModel>, j: int, first: bool, open: Position) -> Step<Seq<ExprModel>>
    decreases ts.len() - j, 1nat,
{
    if j < 0 || j >= ts.len() {
        Step { result: Err(perr(ParseErrorKind::ExpectedCloseParen, Seq::empty(), open)), next: j }
    } else if ts[j].kind == TokenKind::RParen {
        Step { result: Ok(Seq::empty()), next: j + 1 }
    } else {
        let e = parse_expr(ts, j);
        match e.result {
            Err(x) => Step { result: Err(x), next: e.next },
            Ok(x) => {
                if !first && head_only(x) {
                    Step { result: Err(as_value_error(x)), next: e.next }
                } else if j < e.next <= ts.len() {
                    let rest = parse_items(ts, e.next, false, open);
                    Step {
                        result: match rest.result {
                            Ok(xs) => Ok(seq![x] + xs),
                            Err(er) => Err(er),
                        },
                        next: rest.next,
                    }
                } else {
                    Step { result: Err(perr(ParseErrorKind::ExpectedCloseParen, Seq::empty(), open)), next: e.next }
                }
            },
        }
    }
}

/// Expressions and errors of a whole parse.
pub struct ParseModel {
    pub exprs: Seq<ExprModel>,
    pub errors: Seq<ParseErrorModel>,
}

/// Parsing top-level expressions from token `i` on. After an error, parsing
/// goes on where the failed expression stopped.
pub open spec fn parse_from(ts: Seq<TokenModel>, i: int) -> ParseModel
    decreases ts.len() - i,
{
    if i < 0 || i >= ts.len() {
        ParseModel { exprs: Seq::empty(), errors: Seq::empty() }
    } else {
        let e = parse_expr(ts, i);
        if i < e.next <= ts.len() {
            let rest = parse_from(ts, e.next);
            match e.result {
                Ok(x) => if head_only(x) {
                    ParseModel { exprs: rest.exprs, errors: seq![as_value_error(x)] + rest.errors }
                } else {
                    ParseModel { exprs: seq![x] + rest.exprs, errors: rest.errors }
                },
                Err(er) => ParseModel { exprs: rest.exprs, errors: seq![er] + rest.errors },
            }
        } else {
            ParseModel { exprs: Seq::empty(), errors: Seq::empty() }
        }
    }
}

pub open spec fn parse_tokens(ts: Seq<TokenModel>) -> ParseModel {
    parse_from(ts, 0)
}

/// An exec result that agrees with a result of the grammar.
pub open spec fn agrees(r: Result<Expr, ParseError>, m: Result<ExprModel, ParseErrorModel>) -> bool {
    match (r, m) {
        (Ok(e), Ok(x)) => e.model() == x,
        (Err(e), Err(x)) => e@ == x,
        _ => false,
    }
}

// ----- the parser -----

/// Builds expression trees from tokens, collecting every independent
/// syntax error rather than stopping at the first.
pub struct Parser {
    input: Vec<Token>,
    current: usize,
}

impl Parser {
    /// The tokens being parsed.
    pub closed spec fn tokens(&self) -> Seq<TokenModel> {
        token_models(self.input@)
    }

    /// Nothing has been parsed yet.
    pub closed spec fn at_start(&self) -> bool {
        self.current == 0
    }

    pub fn new(input: Vec<Token>) -> (r: Parser)
        ensures
            r.tokens() == token_models(input@),
            r.at_start(),
    {
        Parser { input, current: 0 }
    }

    /// Parses every top-level expression. Succeeds with the expressions of
    /// `parse_tokens` exactly when it finds no error; otherwise fails with
    /// all of them.
    pub fn parse(&mut self) -> (r: Result<Vec<Expr>, Vec<ParseError>>)
        requires
            old(self).at_start(),
        ensures
            match r {
                Ok(es) => parse_tokens(old(self).tokens()).errors.len() == 0 && expr_models(es@)
                    == parse_tokens(old(self).tokens()).exprs,
                Err(es) => parse_tokens(old(self).tokens()).errors.len() > 0 && parse_error_models(
                    es@,
                ) == parse_tokens(old(self).tokens()).errors,
            },
    {
        let ghost ts = token_models(self.input@);
        let mut exprs: Vec<Expr> = Vec::new();
        let mut errors: Vec<ParseError> = Vec::new();
        while !self.is_at_end()
            invariant
                token_models(self.input@) == ts,
                self.current <= ts.len(),
                expr_models(exprs@) + parse_from(ts, self.current as int).exprs == parse_tokens(ts).exprs,
                parse_error_models(errors@) + parse_from(ts, self.current as int).errors == parse_tokens(ts).errors,
            decreases ts.len() - self.current,
        {
            let ghost i = self.current as int;
            let ghost st = parse_expr(ts, i);
            let ghost rest = parse_from(ts, st.next);
            let ghost em = expr_models(exprs@);
            let ghost erm = parse_error_models(errors@);
            match self.expr() {
                Ok(e) => {
                    if is_head_only(&e) {
                        let ghost m = e.model();
                        errors.push(value_error(e));
                        assert(parse_error_models(errors@) =~= erm.push(as_value_error(m)));
                        assert(erm + (seq![as_value_error(m)] + rest.errors) =~= erm.push(as_value_error(m)) + rest.errors);
                    } else {
                        let ghost m = e.model();
                        exprs.push(e);
                        assert(expr_models(exprs@) =~= em.push(m));
                        assert(em + (seq![m] + rest.exprs) =~= em.push(m) + rest.exprs);
                    }
                },
                Err(er) => {
                    errors.push(er);
                    assert(parse_error_models(errors@) =~= erm.push(er@));
                    assert(erm + (seq![er@] + rest.errors) =~= erm.push(er@) + rest.errors);
                },
            }
        }
        assert(expr_models(exprs@) + Seq::empty() =~= expr_models(exprs@));
        assert(parse_error_models(errors@) + Seq::empty() =~= parse_error_models(errors@));
        if errors.len() > 0 {
            Err(errors)
        } else {
            Ok(exprs)
        }
    }

    fn is_at_end(&self) -> (r: bool)
        ensures
            r == (self.current >= self.input@.len()),
    {
        self.current >= self.input.len()
    }

    /// Parses the expression that starts at the current token.
    fn expr(&mut self) -> (r: Result<Expr, ParseError>)
        requires
            old(self).current < old(self).input@.len(),
        ensures
            final(self).input == old(self).input,
            old(self).current < final(self).current <= final(self).input@.len(),
            final(self).current == parse_expr(token_models(old(self).input@), old(self).current as int).next,
            agrees(r, parse_expr(token_models(old(self).input@), old(self).current as int).result),
        decreases old(self).input@.len() - old(self).current, 0nat,
    {
        let ghost ts = token_models(self.input@);
        let ghost i = self.current as int;
        assert(ts[i] == self.input@[i]@);
        let t = self.advance();
        match t.kind {
            TokenKind::LParen => self.list(t.pos, false),
            TokenKind::Identifier => {
                if same_text(t.lexeme.as_str(), "'") {
                    if self.is_at_end() {
                        return Err(ParseError { kind: ParseErrorKind::ExpectedOpenParen, lexeme: String::new(), pos: t.pos });
                    }
                    assert(ts[i + 1] == self.input@[i + 1]@);
                    let n = self.advance();
                    if n.kind != TokenKind::LParen {
                        return Err(ParseError { kind: ParseErrorKind::ExpectedOpenParen, lexeme: n.lexeme, pos: t.pos });
                    }
                    self.list(t.pos, true)
                } else {
                    Ok(Expr::new(t.pos, ExprData::Identifier(t.lexeme)))
                }
            },
            TokenKind::String => Ok(Expr::new(t.pos, ExprData::String(t.lexeme))),
            TokenKind::Number => {
                if !has_literal_shape(t.lexeme.as_str()) {
                    return Err(ParseError { kind: ParseErrorKind::InvalidNumber, lexeme: t.lexeme, pos: t.pos });
                }
                match Number::from_literal(t.lexeme.as_str()) {
                    Some(n) => Ok(Expr::new(t.pos, ExprData::Number(n))),
                    None => Err(ParseError { kind: ParseErrorKind::InvalidNumber, lexeme: t.lexeme, pos: t.pos }),
                }
            },
            TokenKind::Operator => Ok(Expr::new(t.pos, ExprData::Operator(t.lexeme))),
            TokenKind::Keyword => {
                if same_text(t.lexeme.as_str(), "true") {
                    Ok(Expr::new(t.pos, ExprData::Bool(true)))
                } else if same_text(t.lexeme.as_str(), "false") {
                    Ok(Expr::new(t.pos, ExprData::Bool(false)))
                } else if same_text(t.lexeme.as_str(), "nil") {
                    Ok(Expr::new(t.pos, ExprData::Nil))
                } else {
                    Ok(Expr::new(t.pos, ExprData::Keyword(t.lexeme)))
                }
            },
            TokenKind::RParen => Err(ParseError { kind: ParseErrorKind::InvalidExpression, lexeme: t.lexeme, pos: t.pos }),
        }
    }

    /// Parses the elements of a list, whose `(` (or quote) at `open` has
    /// been consumed, through its closing `)`.
    fn list(&mut self, open: Position, quoted: bool) -> (r: Result<Expr, ParseError>)
        requires
            old(self).current <= old(self).input@.len(),
        ensures
            final(self).input == old(self).input,
            old(self).current <= final(self).current <= final(self).input@.len(),
            final(self).current == list_step(
                parse_items(token_models(old(self).input@), old(self).current as int, true, open),
                open,
                quoted,
            ).next,
            agrees(
                r,
                list_step(
                    parse_items(token_models(old(self).input@), old(self).current as int, true, open),
                    open,
                    quoted,
                ).result,
            ),
        decreases old(self).input@.len() - old(self).current, 1nat,
    {
        let ghost ts = token_models(self.input@);
        let ghost j0 = self.current as int;
        let mut args: Vec<Expr> = Vec::new();
        loop
            invariant
                self.input == old(self).input,
                ts == token_models(self.input@),
                j0 == old(self).current,
                j0 <= self.current <= ts.len(),
                ({
                    let whole = parse_items(ts, j0, true, open);
                    let rest = parse_items(ts, self.current as int, args@.len() == 0, open);
                    &&& whole.next == rest.next
                    &&& match (whole.result, rest.result) {
                        (Ok(a), Ok(b)) => a == expr_models(args@) + b,
                        (Err(a), Err(b)) => a == b,
                        _ => false,
                    }
                }),
            decreases ts.len() - self.current,
        {
            let ghost j = self.current as int;
            if self.is_at_end() {
                return Err(ParseError { kind: ParseErrorKind::ExpectedCloseParen, lexeme: String::new(), pos: open });
            }
            assert(ts[j] == self.input@[j]@);
            if self.peek().kind == TokenKind::RParen {
                self.advance();
                let ghost am = expr_models(args@);
                assert(am + Seq::empty() =~= am);
                let r = Expr::new(open, ExprData::List(args, quoted));
                assert(r.model().node->List_0 =~= am);
                return Ok(r);
            }
            let e = self.expr();
            match e {
                Err(x) => {
                    return Err(x);
                },
                Ok(x) => {
                    if args.len() > 0 && is_head_only(&x) {
                        return Err(value_error(x));
                    }
                    let ghost m = x.model();
                    let ghost am = expr_models(args@);
                    args.push(x);
                    assert(expr_models(args@) =~= am.push(m));
                    assert(forall|b: Seq<ExprModel>| am + (seq![m] + b) =~= am.push(m) + b);
                },
            }
        }
    }

    /// The current token.
    fn peek(&self) -> (r: &Token)
        requires
            self.current < self.input@.len(),
        ensures
            *r == self.input@[self.current as int],
    {
        &self.input[self.current]
    }

    /// Consumes the current token and hands out a copy of it.
    fn advance(&mut self) -> (r: Token)
        requires
            old(self).current < old(self).input.len(),
        ensures
            final(self).input == old(self).input,
            final(self).current == old(self).current + 1,
            r@ == old(self).input@[old(self).current as int]@,
    {
        let t = self.input[self.current].duplicate();
        self.current = self.current + 1;
        t
    }
}

/// Whether an expression is an operator or a keyword.
fn is_head_only(e: &Expr) -> (r: bool)
    ensures
        r == head_only(e.model()),
{
    match &e.data {
        ExprData::Operator(_) => true,
        ExprData::Keyword(_) => true,
        _ => false,
    }
}

/// The error for an operator or keyword used as a value.
fn value_error(e: Expr) -> (r: ParseError)
    ensures
        r@ == as_value_error(e.model()),
{
    match e.data {
        ExprData::Operator(o) => ParseError { kind: ParseErrorKind::OperatorAsValue, lexeme: o, pos: e.pos },
        ExprData::Keyword(k) => ParseError { kind: ParseErrorKind::KeywordAsValue, lexeme: k, pos: e.pos },
        _ => ParseError { kind: ParseErrorKind::InvalidExpression, lexeme: String::new(), pos: e.pos },
    }
}

/// Whether a lexeme is ASCII digits with at most one `.`.
fn has_literal_shape(t: &str) -> (r: bool)
    ensures
        r == literal_shape(t@),
{
    let n = t.unicode_len();
    let mut seen_dot = false;
    let mut dot_at: usize = 0;
    let mut k: usize = 0;
    while k < n
        invariant
            n == t@.len(),
            k <= n,
            forall|m: int| 0 <= m < k ==> (t@[m] == '.' || ('0' <= #[trigger] t@[m] && t@[m] <= '9')),
            forall|a: int, b: int| #![trigger t@[a], t@[b]] 0 <= a < b < k && t@[a] == '.' ==> t@[b] != '.',
            seen_dot ==> dot_at < k && t@[dot_at as int] == '.',
            !seen_dot ==> forall|m: int| 0 <= m < k ==> #[trigger] t@[m] != '.',
        decreases n - k,
    {
        let c = t.get_char(k);
        if c == '.' {
            if seen_dot {
                assert(t@[dot_at as int] == '.' && t@[k as int] == '.');
                return false;
            }
            seen_dot = true;
            dot_at = k;
        } else if !('0' <= c && c <= '9') {
            assert(t@[k as int] == c);
            return false;
        }
        k = k + 1;
    }
    true
}

} // verus!
