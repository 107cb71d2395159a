use vstd::prelude::*;
use crate::number::Number;
use crate::position::Position;

verus! {

/// A node of the expression tree, with where it starts in the source.
#[derive(Debug)]
pub struct Expr {
    pub pos: Position,
    pub data: ExprData,
}

/// The kinds of expression. `Operator` and `Keyword` stand only at the head
/// of a list; the parser rejects them anywhere else.
#[derive(Debug)]
pub enum ExprData {
    Number(Number),
    String(String),
    Identifier(String),
    Bool(bool),
    /// The elements, and whether the list was quoted.
    List(Vec<Expr>, bool),
    Nil,
    Operator(String),
    Keyword(String),
}

/// An expression as the contracts see it.
pub struct ExprModel {
    pub pos: Position,
    pub node: Node,
}

pub enum Node {
    Number(Number),
    Text(Seq<char>),
    Identifier(Seq<char>),
    Bool(bool),
    List(Seq<ExprModel>, bool),
    Nil,
    Operator(Seq<char>),
    Keyword(Seq<char>),
}

pub open spec fn nil_model() -> ExprModel {
    ExprModel { pos: Position { line: 0, col: 0 }, node: Node::Nil }
}

impl Expr {
    pub open spec fn model(&self) -> ExprModel
        decreases self,
    {
        ExprModel {
            pos: self.pos,
            node: match &self.data {
                ExprData::Number(n) => Node::Number(*n),
                ExprData::String(s) => Node::Text(s@),
                ExprData::Identifier(s) => Node::Identifier(s@),
                ExprData::Bool(b) => Node::Bool(*b),
                ExprData::List(v, q) => Node::List(
                    Seq::new(
                        v.len() as nat,
                        |i: int|
                            if 0 <= i < v.len() {
                                v[i].model()
                            } else {
                                nil_model()
                            },
                    ),
                    *q,
                ),
                ExprData::Nil => Node::Nil,
                ExprData::Operator(s) => Node::Operator(s@),
                ExprData::Keyword(s) => Node::Keyword(s@),
            },
        }
    }

    pub fn new(pos: Position, data: ExprData) -> (r: Expr)
        ensures
            r.pos == pos,
            r.data == data,
    {
        Expr { pos, data }
    }

    /// A deep copy of the expression.
    pub fn duplicate(&self) -> (r: Expr)
        ensures
            r.model() == self.model(),
        decreases self,
    {
        let data = match &self.data {
            ExprData::Number(n) => ExprData::Number(*n),
            ExprData::String(s) => ExprData::String(s.clone()),
            ExprData::Identifier(s) => ExprData::Identifier(s.clone()),
            ExprData::Bool(b) => ExprData::Bool(*b),
            ExprData::List(v, q) => ExprData::List(duplicate_all(v), *q),
            ExprData::Nil => ExprData::Nil,
            ExprData::Operator(s) => ExprData::Operator(s.clone()),
            ExprData::Keyword(s) => ExprData::Keyword(s.clone()),
        };
        let r = Expr { pos: self.pos, data };
        proof {
            if let ExprData::List(v, q) = &self.data {
                if let ExprData::List(w, _) = &r.data {
                    assert(r.model().node->List_0 =~= self.model().node->List_0);
                }
            }
        }
        r
    }
}

/// The models of a sequence of expressions.
pub open spec fn expr_models(v: Seq<Expr>) -> Seq<ExprModel> {
    Seq::new(v.len(), |i: int| v[i].model())
}

/// A deep copy of each expression, in order.
pub fn duplicate_all(v: &Vec<Expr>) -> (r: Vec<Expr>)
    ensures
        expr_models(r@) == expr_models(v@),
        r@.len() == v@.len(),
        forall|k: int| 0 <= k < v@.len() ==> (#[trigger] r@[k]).model() == v@[k].model(),
    decreases v,
{
    let mut r: Vec<Expr> = Vec::new();
    let mut i: usize = 0;
    while i < v.len()
        invariant
            i <= v@.len(),
            r@.len() == i,
            forall|k: int| 0 <= k < i ==> (#[trigger] r@[k]).model() == v@[k].model(),
        decreases v@.len() - i,
    {
        proof {
            assert(decreases_to!(v => v@[i as int]));
        }
        r.push(v[i].duplicate());
        i = i + 1;
    }
    assert(expr_models(r@) =~= expr_models(v@));
    r
}

} // verus!
