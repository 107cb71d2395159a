use vstd::prelude::*;
use crate::position::Position;
use crate::text::{
    chars_of, is_numeric, is_whitespace, numeric_char, same_text, string_from_range,
    whitespace_char,
};
use crate::token::{token_models, Token, TokenKind, TokenModel};

verus! {

/// What went wrong in a malformed literal.
#[derive(Clone, Copy, Debug, PartialEq, Eq, Structural)]
pub enum LexErrorKind {
    /// A digit run that does not read as a number.
    InvalidNumberLiteral,
    /// A string literal cut off by a newline or by the end of the input.
    UnterminatedString,
}

/// A malformed literal: its text (for a string, what followed the opening
/// quote) and where the problem was found.
#[derive(Clone, Debug)]
pub struct LexError {
    pub kind: LexErrorKind,
    pub lexeme: String,
    pub pos: Position,
}

pub struct LexErrorModel {
    pub kind: LexErrorKind,
    pub lexeme: Seq<char>,
    pub pos: Position,
}

impl View for LexError {
    type V = LexErrorModel;

    open spec fn view(&self) -> LexErrorModel {
        LexErrorModel { kind: self.kind, lexeme: self.lexeme@, pos: self.pos }
    }
}

pub open spec fn lex_error_models(es: Seq<LexError>) -> Seq<LexErrorModel> {
    es.map_values(|e: LexError| e@)
}

// ----- the lexical rules -----

/// The fixed set of keywords; `set` is the binding form.
pub open spec fn keyword_text(s: Seq<char>) -> bool {
    s == "set"@ || s == "fn"@ || s == "defn"@ || s == "if"@ || s == "while"@ || s == "true"@
        || s == "false"@ || s == "nil"@
}

/// The fixed set of operators.
pub open spec fn operator_text(s: Seq<char>) -> bool {
    s == "+"@ || s == "-"@ || s == "*"@ || s == "/"@ || s == ">"@ || s == ">="@ || s == "<"@
        || s == "<="@ || s == "="@ || s == "!="@
}

/// The class of an identifier-shaped lexeme.
pub open spec fn classify(s: Seq<char>) -> TokenKind {
    if keyword_text(s) {
        TokenKind::Keyword
    } else if operator_text(s) {
        TokenKind::Operator
    } else {
        TokenKind::Identifier
    }
}

/// A character that may continue an identifier-shaped lexeme: anything but
/// whitespace, quotes and parentheses. (Only its first character may not be
/// numeric: a lexeme that starts with a digit is a number.)
pub open spec fn ident_char(c: char) -> bool {
    c != '"' && c != '(' && c != ')' && c != '\n' && !whitespace_char(c)
}

/// The end of the run of numeric characters that starts at `j`.
pub open spec fn digits_end(s: Seq<char>, j: int) -> int
    decreases s.len() - j,
{
    if 0 <= j < s.len() && numeric_char(s[j]) {
        digits_end(s, j + 1)
    } else {
        j
    }
}

/// The end of the run of identifier characters that starts at `j`.
pub open spec fn ident_end(s: Seq<char>, j: int) -> int
    decreases s.len() - j,
{
    if 0 <= j < s.len() && ident_char(s[j]) {
        ident_end(s, j + 1)
    } else {
        j
    }
}

/// The first closing quote or newline at or after `j`, or the end of input.
pub open spec fn string_end(s: Seq<char>, j: int) -> int
    decreases s.len() - j,
{
    if 0 <= j < s.len() && s[j] != '"' && s[j] != '\n' {
        string_end(s, j + 1)
    } else {
        j
    }
}

/// The end of a numeric literal whose first digit is at `i`: a digit run,
/// then a `.` and a second digit run only where a digit follows the `.`.
pub open spec fn number_end(s: Seq<char>, i: int) -> int {
    let a = digits_end(s, i + 1);
    if a + 1 < s.len() && s[a] == '.' && numeric_char(s[a + 1]) {
        digits_end(s, a + 2)
    } else {
        a
    }
}

/// A numeric lexeme that reads as a number: ASCII digits and dots only.
pub open spec fn valid_number(t: Seq<char>) -> bool {
    forall|k: int| 0 <= k < t.len() ==> (t[k] == '.' || ('0' <= #[trigger] t[k] && t[k] <= '9'))
}

pub open spec fn advanced(p: Position, n: int) -> Position {
    Position { line: p.line, col: (p.col + n) as usize }
}

/// What one lexeme starting at `i` contributes, and where scanning goes on.
pub struct Lexeme {
    pub token: Option<TokenModel>,
    pub error: Option<LexErrorModel>,
    pub next: int,
    pub next_pos: Position,
}

pub open spec fn emit(t: TokenModel, next: int, next_pos: Position) -> Lexeme {
    Lexeme { token: Some(t), error: None, next, next_pos }
}

pub open spec fn skip(next: int, next_pos: Position) -> Lexeme {
    Lexeme { token: None, error: None, next, next_pos }
}

pub open spec fn fail(e: LexErrorModel, next: int, next_pos: Position) -> Lexeme {
    Lexeme { token: None, error: Some(e), next, next_pos }
}

/// The lexeme that starts at `i`, read at position `p`.
pub open spec fn lexeme_at(s: Seq<char>, i: int, p: Position) -> Lexeme {
    let c = s[i];
    if numeric_char(c) {
        let e = number_end(s, i);
        let t = s.subrange(i, e);
        if valid_number(t) {
            emit(TokenModel { kind: TokenKind::Number, lexeme: t, pos: p }, e, advanced(p, e - i))
        } else {
            fail(
                LexErrorModel { kind: LexErrorKind::InvalidNumberLiteral, lexeme: t, pos: p },
                e,
                advanced(p, e - i),
            )
        }
    } else if c == '"' {
        let k = string_end(s, i + 1);
        if k < s.len() && s[k] == '"' {
            emit(
                TokenModel { kind: TokenKind::String, lexeme: s.subrange(i + 1, k), pos: p },
                k + 1,
                advanced(p, k + 1 - i),
            )
        } else {
            fail(
                LexErrorModel {
                    kind: LexErrorKind::UnterminatedString,
                    lexeme: s.subrange(i + 1, k),
                    pos: advanced(p, k - i),
                },
                k,
                advanced(p, k - i),
            )
        }
    } else if c == '(' {
        emit(TokenModel { kind: TokenKind::LParen, lexeme: seq![c], pos: p }, i + 1, advanced(p, 1))
    } else if c == ')' {
        emit(TokenModel { kind: TokenKind::RParen, lexeme: seq![c], pos: p }, i + 1, advanced(p, 1))
    } else if c == '\n' {
        skip(i + 1, Position { line: (p.line + 1) as usize, col: 0 })
    } else if whitespace_char(c) {
        skip(i + 1, advanced(p, 1))
    } else {
        let e = ident_end(s, i + 1);
        let t = s.subrange(i, e);
        emit(TokenModel { kind: classify(t), lexeme: t, pos: p }, e, advanced(p, e - i))
    }
}

/// Tokens and errors of a whole scan.
pub struct ScanModel {
    pub tokens: Seq<TokenModel>,
    pub errors: Seq<LexErrorModel>,
}

pub open spec fn opt_seq<A>(o: Option<A>) -> Seq<A> {
    match o {
        Some(x) => seq![x],
        None => Seq::empty(),
    }
}

/// Scanning from index `i` at position `p` to the end of the input.
/// (Every lexeme moves forward and stays within the input, see
/// `lemma_lexeme_progress`, so the guard below always holds.)
pub open spec fn scan_from(s: Seq<char>, i: int, p: Position) -> ScanModel
    decreases s.len() - i,
{
    if i < 0 || i >= s.len() {
        ScanModel { tokens: Seq::empty(), errors: Seq::empty() }
    } else {
        let l = lexeme_at(s, i, p);
        if i < l.next <= s.len() {
            let rest = scan_from(s, l.next, l.next_pos);
            ScanModel {
                tokens: opt_seq(l.token) + rest.tokens,
                errors: opt_seq(l.error) + rest.errors,
            }
        } else {
            ScanModel { tokens: Seq::empty(), errors: Seq::empty() }
        }
    }
}

/// Scanning a whole source text.
pub open spec fn scan(s: Seq<char>) -> ScanModel {
    scan_from(s, 0, Position { line: 0, col: 0 })
}

pub proof fn lemma_digits_end(s: Seq<char>, j: int)
    requires
        0 <= j <= s.len(),
    ensures
        j <= digits_end(s, j) <= s.len(),
        forall|k: int| j <= k < digits_end(s, j) ==> numeric_char(#[trigger] s[k]),
    decreases s.len() - j,
{
    if j < s.len() && numeric_char(s[j]) {
        lemma_digits_end(s, j + 1);
    }
}

pub proof fn lemma_ident_end(s: Seq<char>, j: int)
    requires
        0 <= j <= s.len(),
    ensures
        j <= ident_end(s, j) <= s.len(),
    decreases s.len() - j,
{
    if j < s.len() && ident_char(s[j]) {
        lemma_ident_end(s, j + 1);
    }
}

pub proof fn lemma_string_end(s: Seq<char>, j: int)
    requires
        0 <= j <= s.len(),
    ensures
        j <= string_end(s, j) <= s.len(),
    decreases s.len() - j,
{
    if j < s.len() && s[j] != '"' && s[j] != '\n' {
        lemma_string_end(s, j + 1);
    }
}

/// Every lexeme consumes at least one character and stays within the input.
pub proof fn lemma_lexeme_progress(s: Seq<char>, i: int, p: Position)
    requires
        0 <= i < s.len(),
    ensures
        i < lexeme_at(s, i, p).next <= s.len(),
{
    lemma_digits_end(s, i + 1);
    let a = digits_end(s, i + 1);
    if a + 1 < s.len() {
        lemma_digits_end(s, a + 2);
    }
    lemma_string_end(s, i + 1);
    lemma_ident_end(s, i + 1);
}

// ----- the scanner -----

/// Turns source text into tokens, collecting every malformed literal on the
/// way rather than stopping at the first.
pub struct Lexer {
    input: Vec<char>,
    tokens: Vec<Token>,
    errors: Vec<LexError>,
    start: usize,
    current: usize,
    start_pos: Position,
    current_pos: Position,
}

impl Lexer {
    /// The text being scanned.
    pub closed spec fn source(&self) -> Seq<char> {
        self.input@
    }

    spec fn bounded(&self) -> bool {
        &&& self.start <= self.current <= self.input@.len()
        &&& self.input@.len() == self.input.len()
        &&& self.current_pos.col <= self.current
        &&& self.current_pos.line <= self.current
        &&& self.start_pos.col <= self.start
        &&& self.start_pos.line <= self.start
    }

    /// The scanner's state agrees with a scan of its whole input: what was
    /// found so far, followed by a scan of the rest, is the scan of all.
    pub closed spec fn wf(&self) -> bool {
        &&& self.bounded()
        &&& token_models(self.tokens@) + scan_from(self.input@, self.current as int, self.current_pos).tokens
            == scan(self.input@).tokens
        &&& lex_error_models(self.errors@) + scan_from(self.input@, self.current as int, self.current_pos).errors
            == scan(self.input@).errors
    }

    pub fn new(input: &str) -> (r: Lexer)
        ensures
            r.wf(),
            r.source() == input@,
    {
        let r = Lexer {
            input: chars_of(input),
            tokens: Vec::new(),
            errors: Vec::new(),
            start: 0,
            current: 0,
            start_pos: Position::start(),
            current_pos: Position::start(),
        };
        assert(token_models(r.tokens@) =~= Seq::<TokenModel>::empty());
        assert(lex_error_models(r.errors@) =~= Seq::<LexErrorModel>::empty());
        assert(Seq::<TokenModel>::empty() + scan(r.input@).tokens =~= scan(r.input@).tokens);
        assert(Seq::<LexErrorModel>::empty() + scan(r.input@).errors =~= scan(r.input@).errors);
        r
    }

    /// Scans the whole input. Succeeds with the tokens of `scan` exactly when
    /// the scan finds no malformed literal; otherwise fails with all of them.
    pub fn lex(&mut self) -> (r: Result<Vec<Token>, Vec<LexError>>)
        requires
            old(self).wf(),
        ensures
            final(self).wf(),
            final(self).source() == old(self).source(),
            match r {
                Ok(ts) => scan(old(self).source()).errors.len() == 0 && token_models(ts@) == scan(
                    old(self).source(),
                ).tokens,
                Err(es) => scan(old(self).source()).errors.len() > 0 && lex_error_models(es@)
                    == scan(old(self).source()).errors,
            },
    {
        while !self.is_at_end()
            invariant
                self.wf(),
                self.input@ == old(self).input@,
            decreases self.input@.len() - self.current,
        {
            self.start = self.current;
            self.start_pos = self.current_pos;
            self.token();
        }
        let ghost s = self.input@;
        assert(scan_from(s, self.current as int, self.current_pos).tokens =~= Seq::<TokenModel>::empty());
        assert(token_models(self.tokens@) =~= scan(s).tokens);
        assert(lex_error_models(self.errors@) =~= scan(s).errors);
        if self.errors.len() > 0 {
            let mut es: Vec<LexError> = Vec::new();
            let mut i: usize = 0;
            while i < self.errors.len()
                invariant
                    i <= self.errors@.len(),
                    lex_error_models(es@) == lex_error_models(self.errors@.subrange(0, i as int)),
                decreases self.errors@.len() - i,
            {
                let e = &self.errors[i];
                es.push(LexError { kind: e.kind, lexeme: e.lexeme.clone(), pos: e.pos });
                assert(lex_error_models(self.errors@.subrange(0, i + 1)) =~= lex_error_models(
                    self.errors@.subrange(0, i as int),
                ).push(self.errors@[i as int]@));
                assert(lex_error_models(es@) =~= lex_error_models(
                    self.errors@.subrange(0, i as int),
                ).push(self.errors@[i as int]@));
                i = i + 1;
            }
            assert(self.errors@.subrange(0, self.errors@.len() as int) =~= self.errors@);
            Err(es)
        } else {
            Ok(crate::token::duplicate_tokens(&self.tokens))
        }
    }

    /// Scans the lexeme that starts at the current character.
    fn token(&mut self)
        requires
            old(self).bounded(),
            old(self).start == old(self).current,
            old(self).start_pos == old(self).current_pos,
            old(self).current < old(self).input@.len(),
            old(self).wf(),
        ensures
            final(self).wf(),
            final(self).input@ == old(self).input@,
            final(self).current > old(self).current,
    {
        let ghost s = self.input@;
        let ghost i = self.current as int;
        let ghost p = self.current_pos;
        let ghost old_tokens = self.tokens@;
        let ghost old_errors = self.errors@;
        proof {
            lemma_lexeme_progress(s, i, p);
        }
        let c = self.advance();
        if is_numeric(c) {
            self.number();
        } else if c == '"' {
            self.string();
        } else if c == '(' {
            self.add_token(TokenKind::LParen);
            assert(s.subrange(i, i + 1) =~= seq![c]);
        } else if c == ')' {
            self.add_token(TokenKind::RParen);
            assert(s.subrange(i, i + 1) =~= seq![c]);
        } else if c == '\n' {
            self.current_pos.line = self.current_pos.line + 1;
            self.current_pos.col = 0;
        } else if is_whitespace(c) {
        } else {
            self.identifier();
        }
        let ghost l = lexeme_at(s, i, p);
        assert(self.current == l.next);
        assert(self.current_pos == l.next_pos);
        assert(token_models(self.tokens@) =~= token_models(old_tokens) + opt_seq(l.token));
        assert(lex_error_models(self.errors@) =~= lex_error_models(old_errors) + opt_seq(l.error));
        let ghost rest = scan_from(s, l.next, l.next_pos);
        assert(scan_from(s, i, p).tokens == opt_seq(l.token) + rest.tokens);
        assert(token_models(old_tokens) + (opt_seq(l.token) + rest.tokens) =~= (token_models(
            old_tokens,
        ) + opt_seq(l.token)) + rest.tokens);
        assert(lex_error_models(old_errors) + (opt_seq(l.error) + rest.errors) =~= (
        lex_error_models(old_errors) + opt_seq(l.error)) + rest.errors);
    }

    /// The rest of an identifier-shaped lexeme, classified by the keyword
    /// and operator sets.
    fn identifier(&mut self)
        requires
            old(self).bounded(),
            old(self).current == old(self).start + 1,
            old(self).current_pos == advanced(old(self).start_pos, 1),
        ensures
            final(self).bounded(),
            final(self).input == old(self).input,
            final(self).start == old(self).start,
            final(self).start_pos == old(self).start_pos,
            final(self).current == ident_end(old(self).input@, old(self).current as int),
            final(self).current_pos == advanced(
                old(self).start_pos,
                final(self).current - final(self).start,
            ),
            final(self).errors == old(self).errors,
            token_models(final(self).tokens@) == token_models(old(self).tokens@).push(
                TokenModel {
                    kind: classify(old(self).input@.subrange(old(self).start as int, final(self).current as int)),
                    lexeme: old(self).input@.subrange(old(self).start as int, final(self).current as int),
                    pos: old(self).start_pos,
                },
            ),
    {
        let ghost s = self.input@;
        let ghost j = self.current as int;
        while !self.is_at_end() && is_identifier(self.peek())
            invariant
                self.bounded(),
                self.input@ == s,
                self.input == old(self).input,
                self.start == old(self).start,
                self.start_pos == old(self).start_pos,
                self.start < self.current,
                self.current_pos == advanced(self.start_pos, self.current - self.start),
                ident_end(s, self.current as int) == ident_end(s, j),
                self.errors == old(self).errors,
                self.tokens == old(self).tokens,
            decreases s.len() - self.current,
        {
            self.advance();
        }
        let lexeme = self.slice_input();
        let kind = if is_keyword(lexeme.as_str()) {
            TokenKind::Keyword
        } else if is_operator(lexeme.as_str()) {
            TokenKind::Operator
        } else {
            TokenKind::Identifier
        };
        self.add_token_literal(kind, lexeme, self.start_pos);
    }

    /// The rest of a numeric literal; one that does not read as a number is
    /// recorded as an error and scanning goes on after it.
    fn number(&mut self)
        requires
            old(self).bounded(),
            old(self).current == old(self).start + 1,
            old(self).current_pos == advanced(old(self).start_pos, 1),
            numeric_char(old(self).input@[old(self).start as int]),
        ensures
            final(self).bounded(),
            final(self).input == old(self).input,
            final(self).start == old(self).start,
            final(self).start_pos == old(self).start_pos,
            ({
                let s = old(self).input@;
                let l = lexeme_at(s, old(self).start as int, old(self).start_pos);
                &&& final(self).current == l.next
                &&& final(self).current_pos == l.next_pos
                &&& token_models(final(self).tokens@) == token_models(old(self).tokens@) + opt_seq(l.token)
                &&& lex_error_models(final(self).errors@) == lex_error_models(old(self).errors@) + opt_seq(l.error)
            }),
    {
        let ghost s = self.input@;
        let ghost i = self.start as int;
        self.digits();
        let ghost a = self.current as int;
        assert(a == digits_end(s, i + 1));
        if !self.is_at_end() && self.peek() == '.' && self.input.len() - self.current > 1 && is_numeric(
            self.peek_next(),
        ) {
            self.advance();
            self.digits();
        }
        assert(self.current == number_end(s, i));
        let valid = self.valid_number_text();
        let lexeme = self.slice_input();
        if valid {
            self.add_token_literal(TokenKind::Number, lexeme, self.start_pos);
        } else {
            self.errors.push(
                LexError { kind: LexErrorKind::InvalidNumberLiteral, lexeme, pos: self.start_pos },
            );
            assert(lex_error_models(self.errors@) =~= lex_error_models(old(self).errors@).push(
                self.errors@.last()@,
            ));
        }
    }

    /// Consumes a run of numeric characters.
    fn digits(&mut self)
        requires
            old(self).bounded(),
            old(self).start < old(self).current,
            old(self).current_pos == advanced(old(self).start_pos, old(self).current - old(self).start),
        ensures
            final(self).bounded(),
            final(self).input == old(self).input,
            final(self).start == old(self).start,
            final(self).start_pos == old(self).start_pos,
            final(self).current == digits_end(old(self).input@, old(self).current as int),
            final(self).current_pos == advanced(final(self).start_pos, final(self).current - final(self).start),
            final(self).tokens == old(self).tokens,
            final(self).errors == old(self).errors,
    {
        let ghost s = self.input@;
        let ghost j = self.current as int;
        while !self.is_at_end() && is_numeric(self.peek())
            invariant
                self.bounded(),
                self.input@ == s,
                self.input == old(self).input,
                self.start == old(self).start,
                self.start_pos == old(self).start_pos,
                self.start < self.current,
                self.current_pos == advanced(self.start_pos, self.current - self.start),
                digits_end(s, self.current as int) == digits_end(s, j),
                self.errors == old(self).errors,
                self.tokens == old(self).tokens,
            decreases s.len() - self.current,
        {
            self.advance();
        }
    }

    /// Whether the current lexeme holds only ASCII digits and dots.
    fn valid_number_text(&self) -> (r: bool)
        requires
            self.bounded(),
        ensures
            r == valid_number(self.input@.subrange(self.start as int, self.current as int)),
    {
        let ghost t = self.input@.subrange(self.start as int, self.current as int);
        let mut k: usize = self.start;
        while k < self.current
            invariant
                self.bounded(),
                self.start <= k <= self.current,
                t == self.input@.subrange(self.start as int, self.current as int),
                forall|m: int| 0 <= m < k - self.start ==> (t[m] == '.' || ('0' <= #[trigger] t[m] && t[m] <= '9')),
            decreases self.current - k,
        {
            let c = self.input[k];
            if !(c == '.' || ('0' <= c && c <= '9')) {
                assert(t[k - self.start] == c);
                return false;
            }
            k = k + 1;
        }
        true
    }

    /// The rest of a string literal, up to its closing quote; a newline or
    /// the end of the input first is an error.
    fn string(&mut self)
        requires
            old(self).bounded(),
            old(self).current == old(self).start + 1,
            old(self).current_pos == advanced(old(self).start_pos, 1),
            old(self).input@[old(self).start as int] == '"',
            !numeric_char(old(self).input@[old(self).start as int]),
        ensures
            final(self).bounded(),
            final(self).input == old(self).input,
            final(self).start == old(self).start,
            final(self).start_pos == old(self).start_pos,
            ({
                let s = old(self).input@;
                let l = lexeme_at(s, old(self).start as int, old(self).start_pos);
                &&& final(self).current == l.next
                &&& final(self).current_pos == l.next_pos
                &&& token_models(final(self).tokens@) == token_models(old(self).tokens@) + opt_seq(l.token)
                &&& lex_error_models(final(self).errors@) == lex_error_models(old(self).errors@) + opt_seq(l.error)
            }),
    {
        let ghost s = self.input@;
        let ghost j = self.current as int;
        while !self.is_at_end() && self.peek() != '"' && self.peek() != '\n'
            invariant
                self.bounded(),
                self.input@ == s,
                self.input == old(self).input,
                self.start == old(self).start,
                self.start_pos == old(self).start_pos,
                self.start < self.current,
                self.current_pos == advanced(self.start_pos, self.current - self.start),
                string_end(s, self.current as int) == string_end(s, j),
                self.errors == old(self).errors,
                self.tokens == old(self).tokens,
            decreases s.len() - self.current,
        {
            self.advance();
        }
        if !self.is_at_end() && self.peek() == '"' {
            let lexeme = self.slice_range(self.start + 1, self.current);
            self.advance();
            self.add_token_literal(TokenKind::String, lexeme, self.start_pos);
        } else {
            let lexeme = self.slice_range(self.start + 1, self.current);
            self.errors.push(
                LexError { kind: LexErrorKind::UnterminatedString, lexeme, pos: self.current_pos },
            );
            assert(lex_error_models(self.errors@) =~= lex_error_models(old(self).errors@).push(
                self.errors@.last()@,
            ));
        }
    }

    // ----- reading the input -----

    fn is_at_end(&self) -> (r: bool)
        ensures
            r == (self.current >= self.input@.len()),
    {
        self.current >= self.input.len()
    }

    fn peek(&self) -> (r: char)
        requires
            self.current < self.input@.len(),
        ensures
            r == self.input@[self.current as int],
    {
        self.input[self.current]
    }

    fn peek_next(&self) -> (r: char)
        requires
            self.bounded(),
            self.current < self.input@.len(),
            self.input@.len() - self.current > 1,
        ensures
            r == self.input@[self.current + 1],
    {
        self.input[self.current + 1]
    }

    /// Consumes one character on the current line.
    fn advance(&mut self) -> (r: char)
        requires
            old(self).bounded(),
            old(self).current < old(self).input@.len(),
        ensures
            final(self).bounded(),
            r == old(self).input@[old(self).current as int],
            final(self).current == old(self).current + 1,
            final(self).current_pos == advanced(old(self).current_pos, 1),
            final(self).input == old(self).input,
            final(self).start == old(self).start,
            final(self).start_pos == old(self).start_pos,
            final(self).tokens == old(self).tokens,
            final(self).errors == old(self).errors,
    {
        let c = self.input[self.current];
        self.current = self.current + 1;
        self.current_pos.col = self.current_pos.col + 1;
        c
    }

    /// The text of the current lexeme.
    fn slice_input(&self) -> (r: String)
        requires
            self.bounded(),
        ensures
            r@ == self.input@.subrange(self.start as int, self.current as int),
    {
        string_from_range(&self.input, self.start, self.current)
    }

    fn slice_range(&self, start: usize, end: usize) -> (r: String)
        requires
            start <= end <= self.input@.len(),
        ensures
            r@ == self.input@.subrange(start as int, end as int),
    {
        string_from_range(&self.input, start, end)
    }

    // ----- recording tokens -----

    /// Records the current lexeme as a token of the given kind.
    fn add_token(&mut self, kind: TokenKind)
        requires
            old(self).bounded(),
        ensures
            final(self).bounded(),
            final(self).input == old(self).input,
            final(self).start == old(self).start,
            final(self).current == old(self).current,
            final(self).start_pos == old(self).start_pos,
            final(self).current_pos == old(self).current_pos,
            final(self).errors == old(self).errors,
            token_models(final(self).tokens@) == token_models(old(self).tokens@).push(
                TokenModel {
                    kind,
                    lexeme: old(self).input@.subrange(old(self).start as int, old(self).current as int),
                    pos: old(self).start_pos,
                },
            ),
    {
        let lexeme = self.slice_input();
        self.add_token_literal(kind, lexeme, self.start_pos);
    }

    fn add_token_literal(&mut self, kind: TokenKind, lexeme: String, pos: Position)
        ensures
            final(self).input == old(self).input,
            final(self).start == old(self).start,
            final(self).current == old(self).current,
            final(self).start_pos == old(self).start_pos,
            final(self).current_pos == old(self).current_pos,
            final(self).errors == old(self).errors,
            token_models(final(self).tokens@) == token_models(old(self).tokens@).push(
                TokenModel { kind, lexeme: lexeme@, pos },
            ),
    {
        self.tokens.push(Token { kind, lexeme, pos });
        assert(token_models(self.tokens@) =~= token_models(old(self).tokens@).push(
            TokenModel { kind, lexeme: lexeme@, pos },
        ));
    }
}

/// Whether a character may continue an identifier-shaped lexeme.
fn is_identifier(c: char) -> (r: bool)
    ensures
        r == ident_char(c),
{
    c != '"' && c != '(' && c != ')' && c != '\n' && !is_whitespace(c)
}

/// Whether a lexeme is one of the keywords.
fn is_keyword(s: &str) -> (r: bool)
    ensures
        r == keyword_text(s@),
{
    same_text(s, "set") || same_text(s, "fn") || same_text(s, "defn") || same_text(s, "if")
        || same_text(s, "while") || same_text(s, "true") || same_text(s, "false") || same_text(
        s,
        "nil",
    )
}

/// Whether a lexeme is one of the operators.
fn is_operator(s: &str) -> (r: bool)
    ensures
        r == operator_text(s@),
{
    same_text(s, "+") || same_text(s, "-") || same_text(s, "*") || same_text(s, "/") || same_text(
        s,
        ">",
    ) || same_text(s, ">=") || same_text(s, "<") || same_text(s, "<=") || same_text(s, "=")
        || same_text(s, "!=")
}

} // verus!

verus! {

/// A nonempty run of ASCII digits.
pub open spec fn ascii_digits(t: Seq<char>) -> bool {
    t.len() > 0 && forall|k: int| 0 <= k < t.len() ==> '0' <= #[trigger] t[k] && t[k] <= '9'
}

/// A well-formed numeric literal: digits, optionally followed by a `.` and
/// more digits.
pub open spec fn numeric_literal(n: Seq<char>) -> bool {
    ascii_digits(n) || exists|d: int|
        0 < d < n.len() && n[d] == '.' && ascii_digits(#[trigger] n.subrange(0, d)) && ascii_digits(
            n.subrange(d + 1, n.len() as int),
        )
}

proof fn lemma_digit_run(s: Seq<char>, j: int, e: int)
    requires
        0 <= j <= e <= s.len(),
        forall|k: int| j <= k < e ==> '0' <= #[trigger] s[k] && s[k] <= '9',
        e == s.len() || s[e] == '.',
    ensures
        digits_end(s, j) == e,
    decreases e - j,
{
    if j < e {
        lemma_digit_run(s, j + 1, e);
    }
}

/// Scanning a well-formed numeric literal alone gives exactly one `Number`
/// token, whose lexeme is the whole literal, and no error.
pub proof fn lemma_scan_numeric_literal(n: Seq<char>)
    requires
        numeric_literal(n),
    ensures
        scan(n).tokens == seq![
            TokenModel { kind: TokenKind::Number, lexeme: n, pos: Position { line: 0, col: 0 } },
        ],
        scan(n).errors.len() == 0,
{
    let p = Position { line: 0, col: 0 };
    if ascii_digits(n) {
        lemma_digit_run(n, 1, n.len() as int);
    } else {
        let d = choose|d: int|
            0 < d < n.len() && n[d] == '.' && ascii_digits(#[trigger] n.subrange(0, d)) && ascii_digits(
                n.subrange(d + 1, n.len() as int),
            );
        assert forall|k: int| 1 <= k < d implies '0' <= #[trigger] n[k] && n[k] <= '9' by {
            assert(n[k] == n.subrange(0, d)[k]);
        }
        lemma_digit_run(n, 1, d);
        assert(n[d + 1] == n.subrange(d + 1, n.len() as int)[0]);
        assert forall|k: int| d + 2 <= k < n.len() implies '0' <= #[trigger] n[k] && n[k] <= '9' by {
            assert(n[k] == n.subrange(d + 1, n.len() as int)[k - d - 1]);
        }
        lemma_digit_run(n, d + 2, n.len() as int);
        assert(n[0] == n.subrange(0, d)[0]);
    }
    assert(n.subrange(0, n.len() as int) =~= n);
    let l = lexeme_at(n, 0, p);
    assert(l.next == n.len());
    assert(scan_from(n, n.len() as int, l.next_pos).tokens.len() == 0);
    assert(scan(n).tokens =~= seq![
        TokenModel { kind: TokenKind::Number, lexeme: n, pos: p },
    ]);
    assert(scan(n).errors =~= Seq::<LexErrorModel>::empty());
}

} // verus!

verus! {

proof fn lemma_string_run(s: Seq<char>, j: int, e: int)
    requires
        0 <= j <= e <= s.len(),
        forall|k: int| j <= k < e ==> #[trigger] s[k] != '"' && s[k] != '\n',
        e == s.len() || s[e] == '\n',
    ensures
        string_end(s, j) == e,
    decreases e - j,
{
    if j < e {
        lemma_string_run(s, j + 1, e);
    }
}

/// A string literal with no closing quote before the end of the input or a
/// newline is reported as unterminated, and gives no `String` token: the
/// scan of `"` + `body` + `rest` starts with that error, and its tokens are
/// those of `rest` alone.
pub proof fn lemma_scan_unterminated_string(body: Seq<char>, rest: Seq<char>)
    requires
        forall|k: int| 0 <= k < body.len() ==> #[trigger] body[k] != '"' && body[k] != '\n',
        rest.len() == 0 || rest[0] == '\n',
    ensures
        ({
            let s = seq!['"'] + body + rest;
            let here = Position { line: 0, col: (body.len() + 1) as usize };
            &&& scan(s).errors.len() > 0
            &&& scan(s).errors[0] == LexErrorModel {
                kind: LexErrorKind::UnterminatedString,
                lexeme: body,
                pos: here,
            }
            &&& scan(s).tokens == scan_from(s, body.len() + 1 as int, here).tokens
        }),
{
    let s = seq!['"'] + body + rest;
    let e = body.len() + 1 as int;
    assert forall|k: int| 1 <= k < e implies #[trigger] s[k] != '"' && s[k] != '\n' by {
        assert(s[k] == body[k - 1]);
    }
    lemma_string_run(s, 1, e);
    assert(s.subrange(1, e) =~= body);
    lemma_lexeme_progress(s, 0, Position { line: 0, col: 0 });
}

} // verus!

verus! {

/// Scanning from `j` at position `p` reaches index `i` at position `q`,
/// lexeme by lexeme.
pub open spec fn passes(s: Seq<char>, j: int, p: Position, i: int, q: Position) -> bool
    decreases s.len() - j,
{
    if j == i {
        p == q
    } else if 0 <= j < i && j < s.len() {
        let l = lexeme_at(s, j, p);
        j < l.next <= s.len() && passes(s, l.next, l.next_pos, i, q)
    } else {
        false
    }
}

/// The tokens and errors that scanning from `j` finds before index `i`.
pub open spec fn scan_between(s: Seq<char>, j: int, p: Position, i: int) -> ScanModel
    decreases s.len() - j,
{
    if j < 0 || j >= i || j >= s.len() {
        ScanModel { tokens: Seq::empty(), errors: Seq::empty() }
    } else {
        let l = lexeme_at(s, j, p);
        if j < l.next <= s.len() {
            let r = scan_between(s, l.next, l.next_pos, i);
            ScanModel { tokens: opt_seq(l.token) + r.tokens, errors: opt_seq(l.error) + r.errors }
        } else {
            ScanModel { tokens: Seq::empty(), errors: Seq::empty() }
        }
    }
}

/// A scan that reaches `i` finds what it finds before `i`, then what a scan
/// from `i` finds.
pub proof fn lemma_scan_through(s: Seq<char>, j: int, p: Position, i: int, q: Position)
    requires
        passes(s, j, p, i, q),
    ensures
        scan_from(s, j, p).tokens == scan_between(s, j, p, i).tokens + scan_from(s, i, q).tokens,
        scan_from(s, j, p).errors == scan_between(s, j, p, i).errors + scan_from(s, i, q).errors,
    decreases s.len() - j,
{
    if j == i {
        assert(scan_between(s, j, p, i).tokens =~= Seq::<TokenModel>::empty());
        assert(scan_between(s, j, p, i).tokens + scan_from(s, i, q).tokens =~= scan_from(s, i, q).tokens);
        assert(scan_between(s, j, p, i).errors + scan_from(s, i, q).errors =~= scan_from(s, i, q).errors);
    } else {
        let l = lexeme_at(s, j, p);
        lemma_scan_through(s, l.next, l.next_pos, i, q);
        let r = scan_between(s, l.next, l.next_pos, i);
        let rest = scan_from(s, i, q);
        assert(opt_seq(l.token) + (r.tokens + rest.tokens) =~= (opt_seq(l.token) + r.tokens) + rest.tokens);
        assert(opt_seq(l.error) + (r.errors + rest.errors) =~= (opt_seq(l.error) + r.errors) + rest.errors);
    }
}

/// A string literal that the scan opens at index `i`, with no closing quote
/// before the next newline or the end of the input, is reported as
/// unterminated, the whole scan fails, and the literal gives no token: the
/// tokens are those found before it and those found after it.
pub proof fn lemma_scan_unterminated_string_anywhere(s: Seq<char>, i: int, q: Position)
    requires
        passes(s, 0, Position { line: 0, col: 0 }, i, q),
        0 <= i < s.len(),
        s[i] == '"',
        string_end(s, i + 1) == s.len() || s[string_end(s, i + 1)] == '\n',
    ensures
        ({
            let k = string_end(s, i + 1);
            let e = LexErrorModel {
                kind: LexErrorKind::UnterminatedString,
                lexeme: s.subrange(i + 1, k),
                pos: advanced(q, k - i),
            };
            let before = scan_between(s, 0, Position { line: 0, col: 0 }, i);
            &&& scan(s).errors.len() > 0
            &&& scan(s).errors.contains(e)
            &&& scan(s).tokens == before.tokens + scan_from(s, k, advanced(q, k - i)).tokens
        }),
{
    let origin = Position { line: 0, col: 0 };
    lemma_scan_through(s, 0, origin, i, q);
    lemma_lexeme_progress(s, i, q);
    lemma_string_end(s, i + 1);
    let k = string_end(s, i + 1);
    let e = LexErrorModel { kind: LexErrorKind::UnterminatedString, lexeme: s.subrange(i + 1, k), pos: advanced(q, k - i) };
    let before = scan_between(s, 0, origin, i);
    let here = scan_from(s, i, q);
    assert(here.errors[0] == e);
    assert(scan(s).errors[before.errors.len() as int] == e);
    assert(opt_seq(lexeme_at(s, i, q).token) =~= Seq::<TokenModel>::empty());
    assert(here.tokens =~= scan_from(s, k, advanced(q, k - i)).tokens);
}

} // verus!
