use vstd::prelude::*;
use crate::position::Position;

verus! {

/// The class of a token.
#[derive(Clone, Copy, Debug, PartialEq, Eq, Structural)]
pub enum TokenKind {
    Identifier,
    Number,
    String,
    Keyword,
    Operator,
    LParen,
    RParen,
}

/// A classified piece of source text. For a string literal the lexeme is
/// the text between the quotes.
#[derive(Clone, Debug)]
pub struct Token {
    pub kind: TokenKind,
    pub lexeme: String,
    pub pos: Position,
}

/// A token as the contracts see it.
pub struct TokenModel {
    pub kind: TokenKind,
    pub lexeme: Seq<char>,
    pub pos: Position,
}

impl View for Token {
    type V = TokenModel;

    open spec fn view(&self) -> TokenModel {
        TokenModel { kind: self.kind, lexeme: self.lexeme@, pos: self.pos }
    }
}

pub open spec fn token_models(ts: Seq<Token>) -> Seq<TokenModel> {
    ts.map_values(|t: Token| t@)
}

} // verus!

verus! {

impl Token {
    /// A copy of the token.
    pub fn duplicate(&self) -> (r: Token)
        ensures
            r@ == self@,
    {
        Token { kind: self.kind, lexeme: self.lexeme.clone(), pos: self.pos }
    }
}

/// A copy of a sequence of tokens.
pub fn duplicate_tokens(ts: &Vec<Token>) -> (r: Vec<Token>)
    ensures
        token_models(r@) == token_models(ts@),
{
    let mut r: Vec<Token> = Vec::new();
    let mut i: usize = 0;
    while i < ts.len()
        invariant
            i <= ts@.len(),
            token_models(r@) == token_models(ts@.subrange(0, i as int)),
        decreases ts@.len() - i,
    {
        r.push(ts[i].duplicate());
        assert(token_models(ts@.subrange(0, i + 1)) =~= token_models(ts@.subrange(0, i as int)).push(ts@[i as int]@));
        assert(token_models(r@) =~= token_models(ts@.subrange(0, i as int)).push(ts@[i as int]@));
        i = i + 1;
    }
    assert(ts@.subrange(0, ts@.len() as int) =~= ts@);
    r
}

} // verus!
