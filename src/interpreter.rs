use vstd::prelude::*;
use crate::env::{
    define, lemma_lookup_define, lemma_lookup_push, lookup, string_models, val_models,
    Environment, Frame, Scopes, Val, Value,
};
use crate::expr::{Expr, ExprData, ExprModel, Node};
use crate::number::{
    difference_units, in_range, number_text, product_units, quotient_units, sum_units, Number,
};
use crate::position::Position;
use crate::text::{chars_of, same_text, string_from_range};

verus! {

/// Why an evaluation failed.
#[derive(Clone, Copy, Debug, PartialEq, Eq, Structural)]
pub enum EvalErrorKind {
    /// A name bound in no enclosing scope; the detail is the name.
    UnboundVariable,
    /// A call through a name bound to something other than a function.
    NotAFunction,
    /// An operator applied to operands of the wrong types; the detail is
    /// the operator.
    TypeError,
    /// A wrong number of arguments to a function, operator or special form.
    ArityError,
    /// Division by zero.
    DivisionByZero,
    /// A number result that does not fit.
    NumberOutOfRange,
    /// An operator or keyword evaluated as a value.
    NotAValue,
    /// A special form whose parts have the wrong shape; the detail is the
    /// keyword.
    InvalidForm,
    /// A keyword that starts no special form.
    NotAnInstruction,
    /// An operator outside the fixed set.
    UnknownOperator,
    /// The evaluation ran out of steps.
    StepLimit,
    /// A native function failed; the detail is the host's message.
    NativeFailed,
}

#[derive(Clone, Debug)]
pub struct EvalError {
    pub kind: EvalErrorKind,
    pub detail: String,
    pub pos: Position,
}

pub struct EvalErrorModel {
    pub kind: EvalErrorKind,
    pub detail: Seq<char>,
    pub pos: Position,
}

impl View for EvalError {
    type V = EvalErrorModel;

    open spec fn view(&self) -> EvalErrorModel {
        EvalErrorModel { kind: self.kind, detail: self.detail@, pos: self.pos }
    }
}

pub type Outcome = Result<Val, EvalErrorModel>;

/// One call of a native function, as the host saw it: the function's
/// name, the arguments it was handed, and what it answered (a value, or a
/// failure with a message).
pub struct NativeCall {
    pub name: Seq<char>,
    pub args: Seq<Val>,
    pub answer: Result<Val, Seq<char>>,
}

/// The outcome of evaluating an expression, the scopes it leaves, and the
/// native calls still to come after it.
pub struct Eval {
    pub result: Outcome,
    pub env: Scopes,
    pub calls: Seq<NativeCall>,
}

/// The outcome of evaluating a run of expressions in order.
pub struct EvalMany {
    pub result: Result<Seq<Val>, EvalErrorModel>,
    pub env: Scopes,
    pub calls: Seq<NativeCall>,
}

pub open spec fn fault(kind: EvalErrorKind, detail: Seq<char>, pos: Position) -> EvalErrorModel {
    EvalErrorModel { kind, detail, pos }
}

pub open spec fn done(v: Val, env: Scopes, calls: Seq<NativeCall>) -> Eval {
    Eval { result: Ok(v), env, calls }
}

pub open spec fn failed(e: EvalErrorModel, env: Scopes, calls: Seq<NativeCall>) -> Eval {
    Eval { result: Err(e), env, calls }
}

// ----- truthiness and operators -----

/// Zero, the empty string, `false`, the empty list and `nil` are false;
/// everything else is true.
pub open spec fn truthy(v: Val) -> bool {
    match v {
        Val::Number(n) => n.units != 0,
        Val::Text(s) => s.len() > 0,
        Val::Bool(b) => b,
        Val::List(l) => l.len() > 0,
        Val::Function { .. } => true,
        Val::Native { .. } => true,
        Val::Nil => false,
    }
}

pub open spec fn number_result(u: int, pos: Position) -> Outcome {
    if in_range(u) {
        Ok(Val::Number(Number { units: u as i64 }))
    } else {
        Err(fault(EvalErrorKind::NumberOutOfRange, Seq::empty(), pos))
    }
}

/// What a binary operator gives on two evaluated operands.
pub open spec fn apply_operator(op: Seq<char>, a: Val, b: Val, pos: Position) -> Outcome {
    let type_error = Err(fault(EvalErrorKind::TypeError, op, pos));
    if op == "+"@ {
        match (a, b) {
            (Val::Number(x), Val::Number(y)) => number_result(sum_units(x.units as int, y.units as int), pos),
            (Val::Text(x), Val::Text(y)) => Ok(Val::Text(x + y)),
            _ => type_error,
        }
    } else if op == "-"@ || op == "*"@ || op == "/"@ {
        match (a, b) {
            (Val::Number(x), Val::Number(y)) => {
                if op == "-"@ {
                    number_result(difference_units(x.units as int, y.units as int), pos)
                } else if op == "*"@ {
                    number_result(product_units(x.units as int, y.units as int), pos)
                } else if y.units == 0 {
                    Err(fault(EvalErrorKind::DivisionByZero, Seq::empty(), pos))
                } else {
                    number_result(quotient_units(x.units as int, y.units as int), pos)
                }
            },
            _ => type_error,
        }
    } else if op == ">"@ || op == ">="@ || op == "<"@ || op == "<="@ {
        match (a, b) {
            (Val::Number(x), Val::Number(y)) => Ok(
                Val::Bool(
                    if op == ">"@ {
                        x.units > y.units
                    } else if op == ">="@ {
                        x.units >= y.units
                    } else if op == "<"@ {
                        x.units < y.units
                    } else {
                        x.units <= y.units
                    },
                ),
            ),
            _ => type_error,
        }
    } else if op == "="@ || op == "!="@ {
        let same = match (a, b) {
            (Val::Number(x), Val::Number(y)) => Some(x.units == y.units),
            (Val::Text(x), Val::Text(y)) => Some(x == y),
            _ => None,
        };
        match same {
            Some(s) => Ok(Val::Bool(if op == "="@ { s } else { !s })),
            None => type_error,
        }
    } else {
        Err(fault(EvalErrorKind::UnknownOperator, op, pos))
    }
}

// ----- the evaluation rules -----

/// The names of a parameter list: a list of identifiers only.
pub open spec fn param_names(p: ExprModel) -> Option<Seq<Seq<char>>> {
    match p.node {
        Node::List(xs, _) => if forall|i: int| 0 <= i < xs.len() ==> (#[trigger] xs[i]).node is Identifier {
            Some(xs.map_values(|x: ExprModel| x.node->Identifier_0))
        } else {
            None
        },
        _ => None,
    }
}

/// The first `k` parameters bound to their arguments over `base`, in order.
pub open spec fn bind_params(base: Frame, params: Seq<Seq<char>>, args: Seq<Val>, k: int) -> Frame
    decreases k,
{
    if k <= 0 {
        base
    } else {
        bind_params(base, params, args, k - 1).insert(params[k - 1], args[k - 1])
    }
}

/// The frame of a call: the function's own name (for one made by `defn`),
/// then its parameters.
pub open spec fn call_frame(f: Val, args: Seq<Val>) -> Frame {
    let base = match f->Function_name {
        Some(n) => Map::empty().insert(n, f),
        None => Map::empty(),
    };
    bind_params(base, f->Function_params, args, f->Function_params.len() as int)
}

pub open spec fn as_list(r: EvalMany) -> Eval {
    Eval {
        result: match r.result {
            Ok(vs) => Ok(Val::List(vs)),
            Err(e) => Err(e),
        },
        env: r.env,
        calls: r.calls,
    }
}

/// Evaluates an expression in a chain of scopes, with at most `fuel` nested
/// steps; `calls` are the native calls the host will answer, in order.
pub open spec fn eval(e: ExprModel, env: Scopes, fuel: nat, calls: Seq<NativeCall>) -> Eval
    decreases fuel, 0nat, 0int,
{
    if fuel == 0 {
        failed(fault(EvalErrorKind::StepLimit, Seq::empty(), e.pos), env, calls)
    } else {
        let f = (fuel - 1) as nat;
        match e.node {
            Node::Number(n) => done(Val::Number(n), env, calls),
            Node::Text(s) => done(Val::Text(s), env, calls),
            Node::Bool(b) => done(Val::Bool(b), env, calls),
            Node::Nil => done(Val::Nil, env, calls),
            Node::Identifier(x) => match lookup(env, x) {
                Some(v) => done(v, env, calls),
                None => failed(fault(EvalErrorKind::UnboundVariable, x, e.pos), env, calls),
            },
            Node::Operator(o) => failed(fault(EvalErrorKind::NotAValue, o, e.pos), env, calls),
            Node::Keyword(k) => failed(fault(EvalErrorKind::NotAValue, k, e.pos), env, calls),
            Node::List(items, quoted) => {
                if items.len() == 0 {
                    done(Val::List(Seq::empty()), env, calls)
                } else if quoted {
                    as_list(eval_each(items, 0, env, f, calls))
                } else {
                    match items[0].node {
                        Node::Operator(o) => eval_operator(o, items, e.pos, env, f, calls),
                        Node::Keyword(k) => eval_form(k, items, e.pos, env, f, calls),
                        Node::Identifier(name) => eval_call(name, items, e.pos, env, f, calls),
                        _ => as_list(eval_each(items, 0, env, f, calls)),
                    }
                }
            },
        }
    }
}

/// Evaluates `items[k..]` left to right, each in the scopes the previous
/// one left; stops at the first failure.
pub open spec fn eval_each(items: Seq<ExprModel>, k: int, env: Scopes, fuel: nat, calls: Seq<NativeCall>) -> EvalMany
    decreases fuel, 1nat, items.len() - k,
{
    if k < 0 || k >= items.len() {
        EvalMany { result: Ok(Seq::empty()), env, calls }
    } else {
        let a = eval(items[k], env, fuel, calls);
        match a.result {
            Err(e) => EvalMany { result: Err(e), env: a.env, calls: a.calls },
            Ok(v) => {
                let rest = eval_each(items, k + 1, a.env, fuel, a.calls);
                EvalMany {
                    result: match rest.result {
                        Ok(vs) => Ok(seq![v] + vs),
                        Err(e) => Err(e),
                    },
                    env: rest.env,
                    calls: rest.calls,
                }
            },
        }
    }
}

/// `(op a b)`: both operands evaluated, left then right.
pub open spec fn eval_operator(op: Seq<char>, items: Seq<ExprModel>, pos: Position, env: Scopes, fuel: nat, calls: Seq<NativeCall>) -> Eval
    decreases fuel, 1nat, 0int,
{
    if items.len() != 3 {
        failed(fault(EvalErrorKind::ArityError, op, pos), env, calls)
    } else {
        let a = eval(items[1], env, fuel, calls);
        match a.result {
            Err(e) => failed(e, a.env, a.calls),
            Ok(x) => {
                let b = eval(items[2], a.env, fuel, a.calls);
                match b.result {
                    Err(e) => failed(e, b.env, b.calls),
                    Ok(y) => Eval { result: apply_operator(op, x, y, pos), env: b.env, calls: b.calls },
                }
            },
        }
    }
}

/// `(while c b)`: evaluates `b` while `c` is true, then gives `nil`.
pub open spec fn eval_while(c: ExprModel, b: ExprModel, env: Scopes, fuel: nat, calls: Seq<NativeCall>) -> Eval
    decreases fuel, 1nat, 0int,
{
    let cv = eval(c, env, fuel, calls);
    match cv.result {
        Err(e) => failed(e, cv.env, cv.calls),
        Ok(v) => if !truthy(v) {
            done(Val::Nil, cv.env, cv.calls)
        } else {
            let bv = eval(b, cv.env, fuel, cv.calls);
            match bv.result {
                Err(e) => failed(e, bv.env, bv.calls),
                Ok(_) => if fuel == 0 {
                    failed(fault(EvalErrorKind::StepLimit, Seq::empty(), c.pos), bv.env, bv.calls)
                } else {
                    eval_while(c, b, bv.env, (fuel - 1) as nat, bv.calls)
                },
            }
        },
    }
}

/// A list headed by a keyword: `set`, `fn`, `defn`, `if` or `while`.
pub open spec fn eval_form(k: Seq<char>, items: Seq<ExprModel>, pos: Position, env: Scopes, fuel: nat, calls: Seq<NativeCall>) -> Eval
    decreases fuel, 2nat, 0int,
{
    let arity = failed(fault(EvalErrorKind::ArityError, k, pos), env, calls);
    let invalid = failed(fault(EvalErrorKind::InvalidForm, k, pos), env, calls);
    if k == "set"@ {
        if items.len() != 3 {
            arity
        } else {
            match items[1].node {
                Node::Identifier(n) => {
                    let a = eval(items[2], env, fuel, calls);
                    match a.result {
                        Ok(v) => done(v, define(a.env, n, v), a.calls),
                        Err(e) => failed(e, a.env, a.calls),
                    }
                },
                _ => invalid,
            }
        }
    } else if k == "fn"@ {
        if items.len() != 3 {
            arity
        } else {
            match param_names(items[1]) {
                Some(ps) => done(Val::Function { params: ps, body: items[2], env, name: None }, env, calls),
                None => invalid,
            }
        }
    } else if k == "defn"@ {
        if items.len() != 4 {
            arity
        } else {
            match (items[1].node, param_names(items[2])) {
                (Node::Identifier(n), Some(ps)) => {
                    let f = Val::Function { params: ps, body: items[3], env, name: Some(n) };
                    done(f, define(env, n, f), calls)
                },
                _ => invalid,
            }
        }
    } else if k == "if"@ {
        if items.len() != 3 && items.len() != 4 {
            arity
        } else {
            let c = eval(items[1], env, fuel, calls);
            match c.result {
                Err(e) => failed(e, c.env, c.calls),
                Ok(v) => if truthy(v) {
                    eval(items[2], c.env, fuel, c.calls)
                } else if items.len() == 4 {
                    eval(items[3], c.env, fuel, c.calls)
                } else {
                    done(Val::Nil, c.env, c.calls)
                },
            }
        }
    } else if k == "while"@ {
        if items.len() != 3 {
            arity
        } else {
            eval_while(items[1], items[2], env, fuel, calls)
        }
    } else {
        failed(fault(EvalErrorKind::NotAnInstruction, k, pos), env, calls)
    }
}

/// The answer to a call of the native function `name` on `args`: the next
/// native call the host answers, which is that call.
pub open spec fn native_answer(name: Seq<char>, args: Seq<Val>, pos: Position, env: Scopes, calls: Seq<NativeCall>) -> Eval {
    if calls.len() > 0 && calls[0].name == name && calls[0].args == args {
        match calls[0].answer {
            Ok(v) => done(v, env, calls.drop_first()),
            Err(m) => failed(fault(EvalErrorKind::NativeFailed, m, pos), env, calls.drop_first()),
        }
    } else {
        failed(fault(EvalErrorKind::NativeFailed, Seq::empty(), pos), env, calls)
    }
}

/// A list headed by a name: a call of the function bound to it. The
/// arguments are evaluated in the caller's scopes. A function's body runs
/// in a new frame inside the scopes the function captured; a native one is
/// handed to the host. Either way the caller's scopes are left as the
/// arguments left them.
pub open spec fn eval_call(name: Seq<char>, items: Seq<ExprModel>, pos: Position, env: Scopes, fuel: nat, calls: Seq<NativeCall>) -> Eval
    decreases fuel, 2nat, 0int,
{
    match lookup(env, name) {
        None => failed(fault(EvalErrorKind::UnboundVariable, name, pos), env, calls),
        Some(f) => match f {
            Val::Function { params, body, env: captured, name: _ } => {
                if items.len() - 1 != params.len() {
                    failed(fault(EvalErrorKind::ArityError, name, pos), env, calls)
                } else {
                    let args = eval_each(items, 1, env, fuel, calls);
                    match args.result {
                        Err(e) => failed(e, args.env, args.calls),
                        Ok(vs) => {
                            let r = eval(body, captured.push(call_frame(f, vs)), fuel, args.calls);
                            Eval { result: r.result, env: args.env, calls: r.calls }
                        },
                    }
                }
            },
            Val::Native { name: native, arity } => {
                if items.len() - 1 != arity {
                    failed(fault(EvalErrorKind::ArityError, name, pos), env, calls)
                } else {
                    let args = eval_each(items, 1, env, fuel, calls);
                    match args.result {
                        Err(e) => failed(e, args.env, args.calls),
                        Ok(vs) => native_answer(native, vs, pos, args.env, args.calls),
                    }
                }
            },
            _ => failed(fault(EvalErrorKind::NotAFunction, name, pos), env, calls),
        },
    }
}

// ----- agreement of exec results with the rules -----

pub open spec fn agrees(r: Result<Value, EvalError>, m: Outcome) -> bool {
    match (r, m) {
        (Ok(v), Ok(x)) => v.model() == x,
        (Err(e), Err(x)) => e@ == x,
        _ => false,
    }
}

pub open spec fn agrees_many(r: Result<Vec<Value>, EvalError>, m: Result<Seq<Val>, EvalErrorModel>) -> bool {
    match (r, m) {
        (Ok(v), Ok(x)) => val_models(v@) == x,
        (Err(e), Err(x)) => e@ == x,
        _ => false,
    }
}

} // verus!

verus! {

impl Value {
    /// Whether the value counts as true in `if` and `while`.
    pub fn is_truthy(&self) -> (r: bool)
        ensures
            r == truthy(self.model()),
    {
        match self {
            Value::Number(n) => !n.is_zero(),
            Value::String(s) => s.as_str().unicode_len() > 0,
            Value::Bool(b) => *b,
            Value::List(l) => l.len() > 0,
            Value::Function { .. } => true,
            Value::Native { .. } => true,
            Value::Nil => false,
        }
    }
}

fn fail_with(kind: EvalErrorKind, detail: String, pos: Position) -> (r: Result<Value, EvalError>)
    ensures
        agrees(r, Err(fault(kind, detail@, pos))),
{
    Err(EvalError { kind, detail, pos })
}

/// The concatenation of two strings.
fn concat(a: &String, b: &String) -> (r: String)
    ensures
        r@ == a@ + b@,
{
    let mut cs = chars_of(a.as_str());
    let ds = chars_of(b.as_str());
    let mut i: usize = 0;
    while i < ds.len()
        invariant
            i <= ds@.len(),
            ds@ == b@,
            cs@ == a@ + b@.subrange(0, i as int),
        decreases ds@.len() - i,
    {
        cs.push(ds[i]);
        assert(b@.subrange(0, i + 1) =~= b@.subrange(0, i as int).push(b@[i as int]));
        i = i + 1;
    }
    assert(b@.subrange(0, b@.len() as int) =~= b@);
    string_from_range(&cs, 0, cs.len())
}

fn number_value(r: Option<Number>, pos: Position) -> (v: Result<Value, EvalError>)
    ensures
        forall|u: int|
            (match r {
                Some(x) => x.units == u,
                None => !in_range(u),
            }) ==> agrees(v, number_result(u, pos)),
{
    match r {
        Some(x) => Ok(Value::Number(x)),
        None => fail_with(EvalErrorKind::NumberOutOfRange, String::new(), pos),
    }
}

/// Applies a binary operator to two evaluated operands.
pub fn apply(op: &String, a: Value, b: Value, pos: Position) -> (r: Result<Value, EvalError>)
    ensures
        agrees(r, apply_operator(op@, a.model(), b.model(), pos)),
{
    let o = op.as_str();
    if same_text(o, "+") {
        match (&a, &b) {
            (Value::Number(x), Value::Number(y)) => number_value(x.plus(y), pos),
            (Value::String(x), Value::String(y)) => Ok(Value::String(concat(x, y))),
            _ => fail_with(EvalErrorKind::TypeError, op.clone(), pos),
        }
    } else if same_text(o, "-") || same_text(o, "*") || same_text(o, "/") {
        match (&a, &b) {
            (Value::Number(x), Value::Number(y)) => {
                if same_text(o, "-") {
                    number_value(x.minus(y), pos)
                } else if same_text(o, "*") {
                    number_value(x.times(y), pos)
                } else if y.is_zero() {
                    fail_with(EvalErrorKind::DivisionByZero, String::new(), pos)
                } else {
                    number_value(x.divided_by(y), pos)
                }
            },
            _ => fail_with(EvalErrorKind::TypeError, op.clone(), pos),
        }
    } else if same_text(o, ">") || same_text(o, ">=") || same_text(o, "<") || same_text(o, "<=") {
        match (&a, &b) {
            (Value::Number(x), Value::Number(y)) => {
                let r = if same_text(o, ">") {
                    y.less_than(x)
                } else if same_text(o, ">=") {
                    !x.less_than(y)
                } else if same_text(o, "<") {
                    x.less_than(y)
                } else {
                    !y.less_than(x)
                };
                Ok(Value::Bool(r))
            },
            _ => fail_with(EvalErrorKind::TypeError, op.clone(), pos),
        }
    } else if same_text(o, "=") || same_text(o, "!=") {
        let same = match (&a, &b) {
            (Value::Number(x), Value::Number(y)) => Some(x.units == y.units),
            (Value::String(x), Value::String(y)) => Some(same_text(x.as_str(), y.as_str())),
            _ => None,
        };
        match same {
            Some(s) => Ok(Value::Bool(if same_text(o, "=") { s } else { !s })),
            None => fail_with(EvalErrorKind::TypeError, op.clone(), pos),
        }
    } else {
        fail_with(EvalErrorKind::UnknownOperator, op.clone(), pos)
    }
}

fn list_of(r: Result<Vec<Value>, EvalError>) -> (v: Result<Value, EvalError>)
    ensures
        forall|m: Result<Seq<Val>, EvalErrorModel>|
            agrees_many(r, m) ==> agrees(v, as_list(EvalMany { result: m, env: Seq::empty(), calls: Seq::empty() }).result),
{
    match r {
        Ok(vs) => {
            let v = Value::List(vs);
            assert(v.model()->List_0 =~= val_models(vs@));
            Ok(v)
        },
        Err(e) => Err(e),
    }
}

/// The names of a parameter list, where it is a list of identifiers.
fn params_of(p: &Expr) -> (r: Option<Vec<String>>)
    ensures
        match r {
            Some(ps) => param_names(p.model()) == Some(string_models(ps@)),
            None => param_names(p.model()) is None,
        },
{
    match &p.data {
        ExprData::List(xs, _) => {
            let ghost ms = p.model().node->List_0;
            assert(ms.len() == xs@.len());
            let mut ps: Vec<String> = Vec::new();
            let mut i: usize = 0;
            while i < xs.len()
                invariant
                    i <= xs@.len(),
                    ms == p.model().node->List_0,
                    ms.len() == xs@.len(),
                    p.data == ExprData::List(*xs, p.data->List_1),
                    ps@.len() == i,
                    forall|k: int| 0 <= k < i ==> (#[trigger] ms[k]).node is Identifier && ps@[k]@
                        == ms[k].node->Identifier_0,
                decreases xs@.len() - i,
            {
                assert(ms[i as int] == xs@[i as int].model());
                match &xs[i].data {
                    ExprData::Identifier(n) => {
                        ps.push(n.clone());
                    },
                    _ => {
                        return None;
                    },
                }
                i = i + 1;
            }
            assert(string_models(ps@) =~= ms.map_values(|x: ExprModel| x.node->Identifier_0));
            Some(ps)
        },
        _ => None,
    }
}

} // verus!

verus! {

/// Runs the native functions bound in the root scope (printing, reading,
/// clocks, processes): the part of evaluation that belongs to the
/// surrounding program.
pub trait Host {
    /// Runs the native function `name` on arguments that were evaluated and
    /// checked against its arity; a failure carries a message.
    fn call_native(&mut self, name: &String, args: &Vec<Value>) -> Result<Value, String>;
}

/// An exec evaluation agrees with the rules `m`: the same outcome, the same
/// scopes left behind, and the native calls after it still to come.
pub open spec fn ran_as(r: Result<Value, EvalError>, env: Scopes, m: Eval, rest: Seq<NativeCall>) -> bool {
    agrees(r, m.result) && env == m.env && m.calls == rest
}

pub open spec fn ran_many_as(r: Result<Vec<Value>, EvalError>, env: Scopes, m: EvalMany, rest: Seq<NativeCall>) -> bool {
    agrees_many(r, m.result) && env == m.env && m.calls == rest
}

/// Evaluates an expression in `env`, with at most `fuel` nested steps,
/// running native functions through `host`. Also gives the native calls it
/// made, in order: whatever calls come after, the rules `eval` give this
/// outcome and these scopes on the calls made.
pub fn execute<H: Host>(expr: &Expr, env: &mut Environment, fuel: u64, host: &mut H) -> (r: (
    Result<Value, EvalError>,
    Ghost<Seq<NativeCall>>,
))
    ensures
        forall|rest: Seq<NativeCall>|
            ran_as(
                r.0,
                final(env).model(),
                #[trigger] eval(expr.model(), old(env).model(), fuel as nat, r.1@ + rest),
                rest,
            ),
    decreases fuel, 0nat, 0int,
{
    let none: Ghost<Seq<NativeCall>> = Ghost(Seq::empty());
    assert(forall|rest: Seq<NativeCall>| #[trigger] (none@ + rest) == rest) by {
        assert forall|rest: Seq<NativeCall>| #[trigger] (none@ + rest) == rest by {
            assert(none@ + rest =~= rest);
        }
    }
    if fuel == 0 {
        return (fail_with(EvalErrorKind::StepLimit, String::new(), expr.pos), none);
    }
    let f = fuel - 1;
    match &expr.data {
        ExprData::Number(n) => (Ok(Value::Number(*n)), none),
        ExprData::String(s) => (Ok(Value::String(s.clone())), none),
        ExprData::Bool(b) => (Ok(Value::Bool(*b)), none),
        ExprData::Nil => (Ok(Value::Nil), none),
        ExprData::Identifier(x) => match env.get_variable(x.as_str()) {
            Some(v) => (Ok(v), none),
            None => (fail_with(EvalErrorKind::UnboundVariable, x.clone(), expr.pos), none),
        },
        ExprData::Operator(o) => (fail_with(EvalErrorKind::NotAValue, o.clone(), expr.pos), none),
        ExprData::Keyword(k) => (fail_with(EvalErrorKind::NotAValue, k.clone(), expr.pos), none),
        ExprData::List(items, quoted) => {
            let ghost ms = expr.model().node->List_0;
            let ghost env0 = env.model();
            assert(ms =~= crate::expr::expr_models(items@));
            if items.len() == 0 {
                let v = Value::List(Vec::new());
                assert(v.model()->List_0 =~= Seq::<Val>::empty());
                return (Ok(v), none);
            }
            assert(ms[0] == items@[0].model());
            let (r, used) = if *quoted {
                let (r, used) = execute_each(items, 0, env, f, host);
                (list_of(r), used)
            } else {
                match &items[0].data {
                    ExprData::Operator(o) => execute_operator(o, items, expr.pos, env, f, host),
                    ExprData::Keyword(k) => execute_form(k, items, expr.pos, env, f, host),
                    ExprData::Identifier(name) => execute_call(name, items, expr.pos, env, f, host),
                    _ => {
                        let (r, used) = execute_each(items, 0, env, f, host);
                        (list_of(r), used)
                    },
                }
            };
            assert forall|rest: Seq<NativeCall>|
                ran_as(r, env.model(), #[trigger] eval(expr.model(), env0, fuel as nat, used@ + rest), rest) by {
                let each = eval_each(ms, 0, env0, f as nat, used@ + rest);
                match ms[0].node {
                    Node::Operator(o) => {
                        let m = eval_operator(o, ms, expr.pos, env0, f as nat, used@ + rest);
                    },
                    Node::Keyword(k) => {
                        let m = eval_form(k, ms, expr.pos, env0, f as nat, used@ + rest);
                    },
                    Node::Identifier(name) => {
                        let m = eval_call(name, ms, expr.pos, env0, f as nat, used@ + rest);
                    },
                    _ => {},
                }
            }
            (r, used)
        },
    }
}

/// Evaluates `items[k..]` in order, stopping at the first failure.
fn execute_each<H: Host>(items: &Vec<Expr>, k: usize, env: &mut Environment, fuel: u64, host: &mut H) -> (r: (
    Result<Vec<Value>, EvalError>,
    Ghost<Seq<NativeCall>>,
))
    requires
        k <= items@.len(),
    ensures
        forall|rest: Seq<NativeCall>|
            ran_many_as(
                r.0,
                final(env).model(),
                #[trigger] eval_each(crate::expr::expr_models(items@), k as int, old(env).model(), fuel as nat, r.1@ + rest),
                rest,
            ),
    decreases fuel, 1nat, items@.len() - k,
{
    let ghost ms = crate::expr::expr_models(items@);
    let ghost env0 = env.model();
    let mut used: Ghost<Seq<NativeCall>> = Ghost(Seq::empty());
    let mut vals: Vec<Value> = Vec::new();
    let mut i: usize = k;
    assert forall|rest: Seq<NativeCall>| #[trigger] (used@ + rest) == rest by {
        assert(used@ + rest =~= rest);
    }
    while i < items.len()
        invariant
            k <= i <= items@.len(),
            ms == crate::expr::expr_models(items@),
            env0 == old(env).model(),
            forall|rest: Seq<NativeCall>| {
                let whole = eval_each(ms, k as int, env0, fuel as nat, used@ + rest);
                let now = #[trigger] eval_each(ms, i as int, env.model(), fuel as nat, rest);
                &&& whole.env == now.env
                &&& whole.calls == now.calls
                &&& match (whole.result, now.result) {
                    (Ok(a), Ok(b)) => a == val_models(vals@) + b,
                    (Err(a), Err(b)) => a == b,
                    _ => false,
                }
            },
        decreases items@.len() - i,
    {
        let ghost before = env.model();
        let ghost vm = val_models(vals@);
        let ghost used0 = used@;
        let (a, u) = execute(&items[i], env, fuel, host);
        assert(ms[i as int] == items@[i as int].model());
        match a {
            Ok(v) => {
                let ghost m = v.model();
                vals.push(v);
                assert(val_models(vals@) =~= vm.push(m));
                used = Ghost(used0 + u@);
                assert forall|rest: Seq<NativeCall>| {
                    let whole = eval_each(ms, k as int, env0, fuel as nat, used@ + rest);
                    let now = #[trigger] eval_each(ms, i + 1, env.model(), fuel as nat, rest);
                    &&& whole.env == now.env
                    &&& whole.calls == now.calls
                    &&& match (whole.result, now.result) {
                        (Ok(a), Ok(b)) => a == val_models(vals@) + b,
                        (Err(a), Err(b)) => a == b,
                        _ => false,
                    }
                } by {
                    assert(used@ + rest =~= used0 + (u@ + rest));
                    let prev = eval_each(ms, i as int, before, fuel as nat, u@ + rest);
                    let step = eval(ms[i as int], before, fuel as nat, u@ + rest);
                    assert(step.result == Ok::<Val, EvalErrorModel>(m));
                    assert(forall|b: Seq<Val>| vm + (seq![m] + b) =~= vm.push(m) + b);
                }
            },
            Err(e) => {
                let ghost ee = e@;
                let r = Err(e);
                let out = Ghost(used0 + u@);
                assert forall|rest: Seq<NativeCall>|
                    ran_many_as(
                        r,
                        env.model(),
                        #[trigger] eval_each(ms, k as int, env0, fuel as nat, out@ + rest),
                        rest,
                    ) by {
                    assert(out@ + rest =~= used0 + (u@ + rest));
                    let prev = eval_each(ms, i as int, before, fuel as nat, u@ + rest);
                    let step = eval(ms[i as int], before, fuel as nat, u@ + rest);
                }
                return (r, out);
            },
        }
        i = i + 1;
    }
    assert(val_models(vals@) + Seq::<Val>::empty() =~= val_models(vals@));
    let r = Ok(vals);
    assert forall|rest: Seq<NativeCall>|
        ran_many_as(r, env.model(), #[trigger] eval_each(ms, k as int, env0, fuel as nat, used@ + rest), rest) by {
        let now = eval_each(ms, i as int, env.model(), fuel as nat, rest);
    }
    (r, used)
}

} // verus!

verus! {

/// `(op a b)`.
fn execute_operator<H: Host>(op: &String, items: &Vec<Expr>, pos: Position, env: &mut Environment, fuel: u64, host: &mut H) -> (r: (
    Result<Value, EvalError>,
    Ghost<Seq<NativeCall>>,
))
    ensures
        forall|rest: Seq<NativeCall>|
            ran_as(
                r.0,
                final(env).model(),
                #[trigger] eval_operator(op@, crate::expr::expr_models(items@), pos, old(env).model(), fuel as nat, r.1@ + rest),
                rest,
            ),
    decreases fuel, 1nat, 0int,
{
    let ghost ms = crate::expr::expr_models(items@);
    let none: Ghost<Seq<NativeCall>> = Ghost(Seq::empty());
    assert forall|rest: Seq<NativeCall>| #[trigger] (none@ + rest) == rest by {
        assert(none@ + rest =~= rest);
    }
    if items.len() != 3 {
        return (fail_with(EvalErrorKind::ArityError, op.clone(), pos), none);
    }
    assert(ms[1] == items@[1].model());
    assert(ms[2] == items@[2].model());
    let ghost env0 = env.model();
    let (a, u1) = execute(&items[1], env, fuel, host);
    let x = match a {
        Ok(x) => x,
        Err(e) => {
            assert forall|rest: Seq<NativeCall>|
                ran_as(Err(e), env.model(), #[trigger] eval_operator(op@, ms, pos, env0, fuel as nat, u1@ + rest), rest) by {
                let step = eval(ms[1], env0, fuel as nat, u1@ + rest);
            }
            return (Err(e), u1);
        },
    };
    let ghost env1 = env.model();
    let (b, u2) = execute(&items[2], env, fuel, host);
    let out = Ghost(u1@ + u2@);
    let r = match b {
        Ok(y) => apply(op, x, y, pos),
        Err(e) => Err(e),
    };
    assert forall|rest: Seq<NativeCall>|
        ran_as(r, env.model(), #[trigger] eval_operator(op@, ms, pos, env0, fuel as nat, out@ + rest), rest) by {
        assert(out@ + rest =~= u1@ + (u2@ + rest));
        let s1 = eval(ms[1], env0, fuel as nat, u1@ + (u2@ + rest));
        let s2 = eval(ms[2], env1, fuel as nat, u2@ + rest);
    }
    (r, out)
}

/// `(while c b)`.
fn execute_while<H: Host>(c: &Expr, b: &Expr, env: &mut Environment, fuel: u64, host: &mut H) -> (r: (
    Result<Value, EvalError>,
    Ghost<Seq<NativeCall>>,
))
    ensures
        forall|rest: Seq<NativeCall>|
            ran_as(r.0, final(env).model(), #[trigger] eval_while(c.model(), b.model(), old(env).model(), fuel as nat, r.1@ + rest), rest),
    decreases fuel, 1nat, 0int,
{
    let ghost env0 = env.model();
    let mut used: Ghost<Seq<NativeCall>> = Ghost(Seq::empty());
    assert forall|rest: Seq<NativeCall>| #[trigger] (used@ + rest) == rest by {
        assert(used@ + rest =~= rest);
    }
    let mut budget: u64 = fuel;
    loop
        invariant
            budget <= fuel,
            env0 == old(env).model(),
            forall|rest: Seq<NativeCall>|
                eval_while(c.model(), b.model(), env0, fuel as nat, used@ + rest) == #[trigger] eval_while(
                    c.model(),
                    b.model(),
                    env.model(),
                    budget as nat,
                    rest,
                ),
        decreases budget,
    {
        let ghost before = env.model();
        let ghost used0 = used@;
        let (cv, u1) = execute(c, env, budget, host);
        let cv = match cv {
            Ok(v) => v,
            Err(e) => {
                let out = Ghost(used0 + u1@);
                assert forall|rest: Seq<NativeCall>|
                    ran_as(Err(e), env.model(), #[trigger] eval_while(c.model(), b.model(), env0, fuel as nat, out@ + rest), rest) by {
                    assert(out@ + rest =~= used0 + (u1@ + rest));
                    let w = eval_while(c.model(), b.model(), before, budget as nat, u1@ + rest);
                    let x = eval(c.model(), before, budget as nat, u1@ + rest);
                }
                return (Err(e), out);
            },
        };
        if !cv.is_truthy() {
            let out = Ghost(used0 + u1@);
            assert forall|rest: Seq<NativeCall>|
                ran_as(Ok(Value::Nil), env.model(), #[trigger] eval_while(c.model(), b.model(), env0, fuel as nat, out@ + rest), rest) by {
                assert(out@ + rest =~= used0 + (u1@ + rest));
                let w = eval_while(c.model(), b.model(), before, budget as nat, u1@ + rest);
                let x = eval(c.model(), before, budget as nat, u1@ + rest);
            }
            return (Ok(Value::Nil), out);
        }
        let ghost mid = env.model();
        let (bv, u2) = execute(b, env, budget, host);
        let out = Ghost(used0 + u1@ + u2@);
        match bv {
            Ok(_) => {},
            Err(e) => {
                assert forall|rest: Seq<NativeCall>|
                    ran_as(Err(e), env.model(), #[trigger] eval_while(c.model(), b.model(), env0, fuel as nat, out@ + rest), rest) by {
                    assert(out@ + rest =~= used0 + (u1@ + (u2@ + rest)));
                    let w = eval_while(c.model(), b.model(), before, budget as nat, u1@ + (u2@ + rest));
                    let x = eval(c.model(), before, budget as nat, u1@ + (u2@ + rest));
                    let y = eval(b.model(), mid, budget as nat, u2@ + rest);
                }
                return (Err(e), out);
            },
        }
        if budget == 0 {
            let r = fail_with(EvalErrorKind::StepLimit, String::new(), c.pos);
            assert forall|rest: Seq<NativeCall>|
                ran_as(r, env.model(), #[trigger] eval_while(c.model(), b.model(), env0, fuel as nat, out@ + rest), rest) by {
                assert(out@ + rest =~= used0 + (u1@ + (u2@ + rest)));
                let w = eval_while(c.model(), b.model(), before, budget as nat, u1@ + (u2@ + rest));
                let x = eval(c.model(), before, budget as nat, u1@ + (u2@ + rest));
                let y = eval(b.model(), mid, budget as nat, u2@ + rest);
            }
            return (r, out);
        }
        assert forall|rest: Seq<NativeCall>|
            eval_while(c.model(), b.model(), env0, fuel as nat, out@ + rest) == #[trigger] eval_while(
                c.model(),
                b.model(),
                env.model(),
                (budget - 1) as nat,
                rest,
            ) by {
            assert(out@ + rest =~= used0 + (u1@ + (u2@ + rest)));
            let w = eval_while(c.model(), b.model(), before, budget as nat, u1@ + (u2@ + rest));
            let x = eval(c.model(), before, budget as nat, u1@ + (u2@ + rest));
            let y = eval(b.model(), mid, budget as nat, u2@ + rest);
        }
        used = out;
        budget = budget - 1;
    }
}

} // verus!

verus! {

/// A list headed by a keyword.
fn execute_form<H: Host>(k: &String, items: &Vec<Expr>, pos: Position, env: &mut Environment, fuel: u64, host: &mut H) -> (r: (
    Result<Value, EvalError>,
    Ghost<Seq<NativeCall>>,
))
    ensures
        forall|rest: Seq<NativeCall>|
            ran_as(
                r.0,
                final(env).model(),
                #[trigger] eval_form(k@, crate::expr::expr_models(items@), pos, old(env).model(), fuel as nat, r.1@ + rest),
                rest,
            ),
    decreases fuel, 2nat, 0int,
{
    let ghost ms = crate::expr::expr_models(items@);
    let ghost env0 = env.model();
    let none: Ghost<Seq<NativeCall>> = Ghost(Seq::empty());
    assert forall|rest: Seq<NativeCall>| #[trigger] (none@ + rest) == rest by {
        assert(none@ + rest =~= rest);
    }
    let kw = k.as_str();
    if same_text(kw, "set") {
        if items.len() != 3 {
            return (fail_with(EvalErrorKind::ArityError, k.clone(), pos), none);
        }
        assert(ms[1] == items@[1].model());
        assert(ms[2] == items@[2].model());
        match &items[1].data {
            ExprData::Identifier(n) => {
                let (a, u) = execute(&items[2], env, fuel, host);
                let r = match a {
                    Ok(v) => {
                        env.define_variable(n.clone(), v.duplicate());
                        Ok(v)
                    },
                    Err(e) => Err(e),
                };
                assert forall|rest: Seq<NativeCall>|
                    ran_as(r, env.model(), #[trigger] eval_form(k@, ms, pos, env0, fuel as nat, u@ + rest), rest) by {
                    let a = eval(ms[2], env0, fuel as nat, u@ + rest);
                }
                (r, u)
            },
            _ => (fail_with(EvalErrorKind::InvalidForm, k.clone(), pos), none),
        }
    } else if same_text(kw, "fn") {
        if items.len() != 3 {
            return (fail_with(EvalErrorKind::ArityError, k.clone(), pos), none);
        }
        match params_of(&items[1]) {
            Some(ps) => (
                Ok(Value::Function { params: ps, body: items[2].duplicate(), env: env.duplicate(), name: None }),
                none,
            ),
            None => (fail_with(EvalErrorKind::InvalidForm, k.clone(), pos), none),
        }
    } else if same_text(kw, "defn") {
        if items.len() != 4 {
            return (fail_with(EvalErrorKind::ArityError, k.clone(), pos), none);
        }
        assert(ms[1] == items@[1].model());
        let ps = params_of(&items[2]);
        match (&items[1].data, ps) {
            (ExprData::Identifier(n), Some(ps)) => {
                let f = Value::Function {
                    params: ps,
                    body: items[3].duplicate(),
                    env: env.duplicate(),
                    name: Some(n.clone()),
                };
                env.define_variable(n.clone(), f.duplicate());
                (Ok(f), none)
            },
            _ => (fail_with(EvalErrorKind::InvalidForm, k.clone(), pos), none),
        }
    } else if same_text(kw, "if") {
        if items.len() != 3 && items.len() != 4 {
            return (fail_with(EvalErrorKind::ArityError, k.clone(), pos), none);
        }
        assert(ms[1] == items@[1].model());
        assert(ms[2] == items@[2].model());
        let (c, u1) = execute(&items[1], env, fuel, host);
        let ghost env1 = env.model();
        let c = match c {
            Ok(c) => c,
            Err(e) => {
                assert forall|rest: Seq<NativeCall>|
                    ran_as(Err(e), env.model(), #[trigger] eval_form(k@, ms, pos, env0, fuel as nat, u1@ + rest), rest) by {
                    let s1 = eval(ms[1], env0, fuel as nat, u1@ + rest);
                }
                return (Err(e), u1);
            },
        };
        if c.is_truthy() || items.len() == 4 {
            let j: usize = if c.is_truthy() { 2 } else { 3 };
            assert(ms[j as int] == items@[j as int].model());
            let (r, u2) = execute(&items[j], env, fuel, host);
            let out = Ghost(u1@ + u2@);
            assert forall|rest: Seq<NativeCall>|
                ran_as(r, env.model(), #[trigger] eval_form(k@, ms, pos, env0, fuel as nat, out@ + rest), rest) by {
                assert(out@ + rest =~= u1@ + (u2@ + rest));
                let s1 = eval(ms[1], env0, fuel as nat, u1@ + (u2@ + rest));
                let s2 = eval(ms[j as int], env1, fuel as nat, u2@ + rest);
            }
            (r, out)
        } else {
            assert forall|rest: Seq<NativeCall>|
                ran_as(Ok(Value::Nil), env.model(), #[trigger] eval_form(k@, ms, pos, env0, fuel as nat, u1@ + rest), rest) by {
                let s1 = eval(ms[1], env0, fuel as nat, u1@ + rest);
            }
            (Ok(Value::Nil), u1)
        }
    } else if same_text(kw, "while") {
        if items.len() != 3 {
            return (fail_with(EvalErrorKind::ArityError, k.clone(), pos), none);
        }
        assert(ms[1] == items@[1].model());
        assert(ms[2] == items@[2].model());
        let (r, u) = execute_while(&items[1], &items[2], env, fuel, host);
        assert forall|rest: Seq<NativeCall>|
            ran_as(r, env.model(), #[trigger] eval_form(k@, ms, pos, env0, fuel as nat, u@ + rest), rest) by {
            let w = eval_while(ms[1], ms[2], env0, fuel as nat, u@ + rest);
        }
        (r, u)
    } else {
        (fail_with(EvalErrorKind::NotAnInstruction, k.clone(), pos), none)
    }
}

/// A list headed by a name: a call of the function bound to it.
fn execute_call<H: Host>(name: &String, items: &Vec<Expr>, pos: Position, env: &mut Environment, fuel: u64, host: &mut H) -> (r: (
    Result<Value, EvalError>,
    Ghost<Seq<NativeCall>>,
))
    requires
        items@.len() >= 1,
    ensures
        forall|rest: Seq<NativeCall>|
            ran_as(
                r.0,
                final(env).model(),
                #[trigger] eval_call(name@, crate::expr::expr_models(items@), pos, old(env).model(), fuel as nat, r.1@ + rest),
                rest,
            ),
    decreases fuel, 2nat, 0int,
{
    let ghost ms = crate::expr::expr_models(items@);
    let ghost env0 = env.model();
    let none: Ghost<Seq<NativeCall>> = Ghost(Seq::empty());
    assert forall|rest: Seq<NativeCall>| #[trigger] (none@ + rest) == rest by {
        assert(none@ + rest =~= rest);
    }
    let f = match env.get_variable(name.as_str()) {
        Some(f) => f,
        None => {
            return (fail_with(EvalErrorKind::UnboundVariable, name.clone(), pos), none);
        },
    };
    let ghost fm = f.model();
    let itself = f.duplicate();
    match f {
        Value::Function { params, body, env: captured, name: own_name } => {
            if items.len() - 1 != params.len() {
                return (fail_with(EvalErrorKind::ArityError, name.clone(), pos), none);
            }
            let (args, u1) = execute_each(items, 1, env, fuel, host);
            let args = match args {
                Ok(args) => args,
                Err(e) => {
                    assert forall|rest: Seq<NativeCall>|
                        ran_as(Err(e), env.model(), #[trigger] eval_call(name@, ms, pos, env0, fuel as nat, u1@ + rest), rest) by {
                        let a = eval_each(ms, 1, env0, fuel as nat, u1@ + rest);
                    }
                    return (Err(e), u1);
                },
            };
            let ghost vs = val_models(args@);
            proof {
                lemma_eval_each_len(ms, 1, env0, fuel as nat, u1@ + Seq::<NativeCall>::empty());
            }
            let ghost cm = captured.model();
            let mut call_env = Environment::from_enclosing(captured);
            match own_name {
                Some(n) => {
                    call_env.define_variable(n, itself);
                    assert(call_env.model() =~= cm.push(Map::empty().insert(fm->Function_name->Some_0, fm)));
                },
                None => {},
            }
            let ghost base = call_env.model().last();
            let mut i: usize = 0;
            while i < params.len()
                invariant
                    i <= params@.len(),
                    params@.len() == args@.len(),
                    vs == val_models(args@),
                    fm->Function_params == string_models(params@),
                    call_env.model() == cm.push(bind_params(base, fm->Function_params, vs, i as int)),
                decreases params@.len() - i,
            {
                call_env.define_variable(params[i].clone(), args[i].duplicate());
                assert(call_env.model() =~= cm.push(bind_params(base, fm->Function_params, vs, i + 1)));
                i = i + 1;
            }
            assert(base == match fm->Function_name {
                Some(n) => Map::empty().insert(n, fm),
                None => Map::<Seq<char>, Val>::empty(),
            });
            let ghost frame_env = call_env.model();
            let (r, u2) = execute(&body, &mut call_env, fuel, host);
            let out = Ghost(u1@ + u2@);
            assert forall|rest: Seq<NativeCall>|
                ran_as(r, env.model(), #[trigger] eval_call(name@, ms, pos, env0, fuel as nat, out@ + rest), rest) by {
                assert(out@ + rest =~= u1@ + (u2@ + rest));
                let a = eval_each(ms, 1, env0, fuel as nat, u1@ + (u2@ + rest));
                let b = eval(fm->Function_body, frame_env, fuel as nat, u2@ + rest);
            }
            (r, out)
        },
        Value::Native { name: native, arity } => {
            if items.len() - 1 != arity {
                return (fail_with(EvalErrorKind::ArityError, name.clone(), pos), none);
            }
            let (args, u1) = execute_each(items, 1, env, fuel, host);
            let args = match args {
                Ok(args) => args,
                Err(e) => {
                    assert forall|rest: Seq<NativeCall>|
                        ran_as(Err(e), env.model(), #[trigger] eval_call(name@, ms, pos, env0, fuel as nat, u1@ + rest), rest) by {
                        let a = eval_each(ms, 1, env0, fuel as nat, u1@ + rest);
                    }
                    return (Err(e), u1);
                },
            };
            let answer = host.call_native(&native, &args);
            let ghost call = NativeCall {
                name: native@,
                args: val_models(args@),
                answer: match &answer {
                    Ok(v) => Ok(v.model()),
                    Err(m) => Err(m@),
                },
            };
            let out = Ghost(u1@ + seq![call]);
            assert forall|rest: Seq<NativeCall>| #[trigger] (out@ + rest) == u1@ + (seq![call] + rest) by {
                assert(out@ + rest =~= u1@ + (seq![call] + rest));
            }
            assert forall|rest: Seq<NativeCall>| (#[trigger] (seq![call] + rest)).drop_first() == rest by {
                assert((seq![call] + rest).drop_first() =~= rest);
            }
            let r = match answer {
                Ok(v) => Ok(v),
                Err(m) => Err(EvalError { kind: EvalErrorKind::NativeFailed, detail: m, pos }),
            };
            assert forall|rest: Seq<NativeCall>|
                ran_as(r, env.model(), #[trigger] eval_call(name@, ms, pos, env0, fuel as nat, out@ + rest), rest) by {
                let a = eval_each(ms, 1, env0, fuel as nat, u1@ + (seq![call] + rest));
            }
            (r, out)
        },
        _ => (fail_with(EvalErrorKind::NotAFunction, name.clone(), pos), none),
    }
}

} // verus!

verus! {

/// Evaluating `items[k..]` successfully gives one value per expression.
pub proof fn lemma_eval_each_len(items: Seq<ExprModel>, k: int, env: Scopes, fuel: nat, calls: Seq<NativeCall>)
    requires
        0 <= k <= items.len(),
    ensures
        eval_each(items, k, env, fuel, calls).result is Ok ==> eval_each(items, k, env, fuel, calls).result->Ok_0.len()
            == items.len() - k,
    decreases items.len() - k,
{
    if k < items.len() {
        let a = eval(items[k], env, fuel, calls);
        if a.result is Ok {
            lemma_eval_each_len(items, k + 1, a.env, fuel, a.calls);
        }
    }
}

} // verus!

verus! {

// ----- printing -----

/// How a value is printed: numbers in decimal, strings raw, `true` /
/// `false`, `nil`, lists in parentheses with their elements separated by
/// spaces, and any function as `<fn>`.
pub open spec fn value_text(v: Val) -> Seq<char>
    decreases v,
{
    match v {
        Val::Number(n) => number_text(n.units as int),
        Val::Text(s) => s,
        Val::Bool(b) => if b {
            "true"@
        } else {
            "false"@
        },
        Val::Nil => "nil"@,
        Val::Function { .. } => "<fn>"@,
        Val::Native { .. } => "<fn>"@,
        Val::List(vs) => seq!['('] + items_text(vs) + seq![')'],
    }
}

/// The elements of a list, printed and separated by single spaces.
pub open spec fn items_text(vs: Seq<Val>) -> Seq<char>
    decreases vs,
{
    if vs.len() == 0 {
        Seq::empty()
    } else if vs.len() == 1 {
        value_text(vs[0])
    } else {
        items_text(vs.subrange(0, vs.len() - 1)) + seq![' '] + value_text(vs[vs.len() - 1])
    }
}

fn push_str(out: &mut Vec<char>, s: &str)
    ensures
        final(out)@ == old(out)@ + s@,
{
    let cs = chars_of(s);
    let mut i: usize = 0;
    while i < cs.len()
        invariant
            i <= cs@.len(),
            cs@ == s@,
            out@ == old(out)@ + s@.subrange(0, i as int),
        decreases cs@.len() - i,
    {
        out.push(cs[i]);
        assert(s@.subrange(0, i + 1) =~= s@.subrange(0, i as int).push(s@[i as int]));
        i = i + 1;
    }
    assert(s@.subrange(0, s@.len() as int) =~= s@);
}

impl Value {
    fn push_text(&self, out: &mut Vec<char>)
        ensures
            final(out)@ == old(out)@ + value_text(self.model()),
        decreases self,
    {
        match self {
            Value::Number(n) => {
                let t = n.to_text();
                push_str(out, t.as_str());
            },
            Value::String(s) => push_str(out, s.as_str()),
            Value::Bool(b) => {
                if *b {
                    push_str(out, "true");
                } else {
                    push_str(out, "false");
                }
            },
            Value::Nil => push_str(out, "nil"),
            Value::Function { .. } => push_str(out, "<fn>"),
            Value::Native { .. } => push_str(out, "<fn>"),
            Value::List(vs) => {
                let ghost ms = self.model()->List_0;
                assert(ms =~= val_models(vs@));
                let ghost start = out@;
                out.push('(');
                let mut i: usize = 0;
                while i < vs.len()
                    invariant
                        i <= vs@.len(),
                        *self == Value::List(*vs),
                        ms == val_models(vs@),
                        out@ == start + seq!['('] + items_text(ms.subrange(0, i as int)),
                    decreases vs@.len() - i,
                {
                    proof {
                        assert(decreases_to!(*self => self->List_0));
                        assert(self->List_0 == *vs);
                        assert(decreases_to!(*vs => vs@[i as int]));
                    }
                    let ghost prev = out@;
                    if i > 0 {
                        out.push(' ');
                    }
                    vs[i].push_text(out);
                    assert(ms.subrange(0, i + 1).subrange(0, i as int) =~= ms.subrange(0, i as int));
                    assert(ms[i as int] == vs@[i as int].model());
                    if i == 0 {
                        assert(ms.subrange(0, 0) =~= Seq::<Val>::empty());
                        assert(out@ =~= start + seq!['('] + items_text(ms.subrange(0, i + 1)));
                    } else {
                        assert(out@ =~= start + seq!['('] + items_text(ms.subrange(0, i + 1)));
                    }
                    i = i + 1;
                }
                out.push(')');
                assert(ms.subrange(0, vs@.len() as int) =~= ms);
                assert(out@ =~= start + value_text(self.model()));
            },
        }
    }

    /// The value as it is printed.
    pub fn to_text(&self) -> (r: String)
        ensures
            r@ == value_text(self.model()),
    {
        let mut out: Vec<char> = Vec::new();
        self.push_text(&mut out);
        assert(Seq::<char>::empty() + value_text(self.model()) =~= value_text(self.model()));
        string_from_range(&out, 0, out.len())
    }
}

// ----- running a batch -----

/// Evaluates a batch of top-level expressions in order in one environment,
/// each with at most `fuel` nested steps, running native functions through
/// `host`, and stops at the first failure, which is returned. A batch of
/// exactly one expression gives its value; a longer (or empty) batch gives
/// none. Also gives the native calls made, in order; whatever calls come
/// after them, the rules give this outcome on the calls made.
pub fn interpret<H: Host>(exprs: &Vec<Expr>, env: &mut Environment, fuel: u64, host: &mut H) -> (r: (
    Result<Option<Value>, EvalError>,
    Ghost<Seq<NativeCall>>,
))
    ensures
        forall|rest: Seq<NativeCall>| {
            let m = #[trigger] eval_each(crate::expr::expr_models(exprs@), 0, old(env).model(), fuel as nat, r.1@ + rest);
            &&& final(env).model() == m.env
            &&& m.calls == rest
            &&& match r.0 {
                Ok(Some(v)) => exprs@.len() == 1 && m.result == Ok::<Seq<Val>, EvalErrorModel>(seq![v.model()]),
                Ok(None) => exprs@.len() != 1 && m.result is Ok,
                Err(e) => m.result == Err::<Seq<Val>, EvalErrorModel>(e@),
            }
        },
{
    let ghost env0 = env.model();
    let (r, used) = execute_each(exprs, 0, env, fuel, host);
    proof {
        let m = eval_each(crate::expr::expr_models(exprs@), 0, env0, fuel as nat, used@ + Seq::<NativeCall>::empty());
        lemma_eval_each_len(crate::expr::expr_models(exprs@), 0, env0, fuel as nat, used@ + Seq::<NativeCall>::empty());
    }
    match r {
        Ok(mut vs) => {
            if exprs.len() == 1 {
                let ghost before = val_models(vs@);
                assert forall|rest: Seq<NativeCall>| #[trigger] eval_each(crate::expr::expr_models(exprs@), 0, env0, fuel as nat, used@ + rest).result == Ok::<Seq<Val>, EvalErrorModel>(before) by {
                    lemma_eval_each_len(crate::expr::expr_models(exprs@), 0, env0, fuel as nat, used@ + rest);
                }
                let v = vs.pop().unwrap();
                assert(before =~= seq![v.model()]);
                (Ok(Some(v)), used)
            } else {
                (Ok(None), used)
            }
        },
        Err(e) => (Err(e), used),
    }
}

} // verus!

verus! {

/// The keywords of the special forms, and the division operator, are
/// distinct words.
proof fn lemma_words_distinct()
    ensures
        "defn"@ != "set"@,
        "defn"@ != "fn"@,
        "if"@ != "set"@,
        "if"@ != "fn"@,
        "if"@ != "defn"@,
        "/"@ != "+"@,
        "/"@ != "-"@,
        "/"@ != "*"@,
{
    reveal_strlit("set");
    reveal_strlit("fn");
    reveal_strlit("defn");
    reveal_strlit("if");
    reveal_strlit("/");
    reveal_strlit("+");
    reveal_strlit("-");
    reveal_strlit("*");
    assert("set"@.len() == 3);
    assert("fn"@.len() == 2);
    assert("defn"@.len() == 4);
    assert("if"@.len() == 2);
    assert("if"@[0] != "fn"@[0]);
    assert("/"@[0] != "+"@[0]);
    assert("/"@[0] != "-"@[0]);
    assert("/"@[0] != "*"@[0]);
}

pub open spec fn keyword_at(pos: Position, k: Seq<char>) -> ExprModel {
    ExprModel { pos, node: Node::Keyword(k) }
}

pub open spec fn name_at(pos: Position, n: Seq<char>) -> ExprModel {
    ExprModel { pos, node: Node::Identifier(n) }
}

pub open spec fn list_at(pos: Position, items: Seq<ExprModel>) -> ExprModel {
    ExprModel { pos, node: Node::List(items, false) }
}

/// `(set n <number>)` binds `n` in the current scope, and evaluating `n`
/// afterwards in the same scopes gives that number.
pub proof fn lemma_set_then_lookup(
    env: Scopes,
    p: Position,
    n: Seq<char>,
    num: Number,
    fuel: nat,
    fuel2: nat,
    calls: Seq<NativeCall>,
    calls2: Seq<NativeCall>,
)
    requires
        env.len() >= 1,
        fuel >= 2,
        fuel2 >= 1,
    ensures
        ({
            let set_form = list_at(p, seq![keyword_at(p, "set"@), name_at(p, n), ExprModel { pos: p, node: Node::Number(num) }]);
            let s = eval(set_form, env, fuel, calls);
            &&& s == done(Val::Number(num), define(env, n, Val::Number(num)), calls)
            &&& eval(name_at(p, n), s.env, fuel2, calls2) == done(Val::Number(num), s.env, calls2)
        }),
{
    lemma_words_distinct();
    let items = seq![keyword_at(p, "set"@), name_at(p, n), ExprModel { pos: p, node: Node::Number(num) }];
    assert(items[0] == keyword_at(p, "set"@));
    assert(items[1] == name_at(p, n));
    assert(items[2] == ExprModel { pos: p, node: Node::Number(num) });
    let v = Val::Number(num);
    let f1 = (fuel - 1) as nat;
    assert(eval(items[2], env, f1, calls) == done(v, env, calls));
    assert(eval_form("set"@, items, p, env, f1, calls) == done(v, define(env, n, v), calls));
    assert(eval(list_at(p, items), env, fuel, calls) == done(v, define(env, n, v), calls));
    lemma_lookup_define(env, n, v, n);
}

/// A call leaves the caller's scopes exactly as evaluating its arguments
/// left them: bindings made in the call's own frame, including ones that
/// shadow an outer name, do not reach the caller.
pub proof fn lemma_call_keeps_caller_scopes(
    name: Seq<char>,
    items: Seq<ExprModel>,
    p: Position,
    env: Scopes,
    fuel: nat,
    calls: Seq<NativeCall>,
)
    requires
        lookup(env, name) matches Some(Val::Function { params, .. }) && items.len() - 1 == params.len(),
    ensures
        eval_call(name, items, p, env, fuel, calls).env == eval_each(items, 1, env, fuel, calls).env,
{
}

/// A closure sees the scopes it was defined in: `(defn f () x)` defined
/// where `x` is `v` gives a function whose captured scopes are those scopes;
/// binding `x` to another value afterwards does not change what calling `f`
/// gives, which is still `v`.
pub proof fn lemma_closure_captures_definition_scope(
    env: Scopes,
    p: Position,
    f: Seq<char>,
    x: Seq<char>,
    v: Val,
    w: Val,
    fuel: nat,
    fuel2: nat,
    calls: Seq<NativeCall>,
)
    requires
        env.len() >= 1,
        lookup(env, x) == Some(v),
        f != x,
        fuel >= 1,
        fuel2 >= 1,
    ensures
        ({
            let defn = seq![keyword_at(p, "defn"@), name_at(p, f), list_at(p, Seq::empty()), name_at(p, x)];
            let fv = Val::Function { params: Seq::empty(), body: name_at(p, x), env, name: Some(f) };
            let later = define(define(env, f, fv), x, w);
            &&& eval_form("defn"@, defn, p, env, fuel, calls) == done(fv, define(env, f, fv), calls)
            &&& eval_call(f, seq![name_at(p, f)], p, later, fuel2, calls).result == Ok::<Val, EvalErrorModel>(v)
        }),
{
    lemma_words_distinct();
    let fv = Val::Function { params: Seq::empty(), body: name_at(p, x), env, name: Some(f) };
    let e1 = define(env, f, fv);
    let later = define(e1, x, w);
    assert(Seq::<ExprModel>::empty().map_values(|x: ExprModel| x.node->Identifier_0) =~= Seq::<Seq<char>>::empty());
    lemma_lookup_define(env, f, fv, f);
    assert(e1.len() >= 1);
    lemma_lookup_define(e1, x, w, f);
    let fr = call_frame(fv, Seq::empty());
    assert(fr == Map::<Seq<char>, Val>::empty().insert(f, fv));
    lemma_lookup_push(env, fr, x);
}

/// Dividing by zero fails with a division error rather than giving a value.
pub proof fn lemma_division_by_zero(a: Number, b: Number, p: Position)
    requires
        b.units == 0,
    ensures
        apply_operator("/"@, Val::Number(a), Val::Number(b), p) == Err::<Val, EvalErrorModel>(
            fault(EvalErrorKind::DivisionByZero, Seq::empty(), p),
        ),
{
    lemma_words_distinct();
}

/// A batch stops at its first failure: when the expression at `k` fails,
/// the batch from `k` fails with the same error, and no later expression
/// is evaluated.
pub proof fn lemma_batch_stops_at_failure(items: Seq<ExprModel>, k: int, env: Scopes, fuel: nat, calls: Seq<NativeCall>)
    requires
        0 <= k < items.len(),
        eval(items[k], env, fuel, calls).result is Err,
    ensures
        eval_each(items, k, env, fuel, calls) == (EvalMany {
            result: Err(eval(items[k], env, fuel, calls).result->Err_0),
            env: eval(items[k], env, fuel, calls).env,
            calls: eval(items[k], env, fuel, calls).calls,
        }),
{
}

/// `+` adds two numbers (where the sum is in range), concatenates two
/// strings, and is a type error on a number and a string.
pub proof fn lemma_plus(x: Number, y: Number, s: Seq<char>, t: Seq<char>, p: Position)
    ensures
        in_range(x.units + y.units) ==> apply_operator("+"@, Val::Number(x), Val::Number(y), p) == Ok::<Val, EvalErrorModel>(
            Val::Number(Number { units: (x.units + y.units) as i64 }),
        ),
        apply_operator("+"@, Val::Text(s), Val::Text(t), p) == Ok::<Val, EvalErrorModel>(Val::Text(s + t)),
        apply_operator("+"@, Val::Number(x), Val::Text(t), p) == Err::<Val, EvalErrorModel>(
            fault(EvalErrorKind::TypeError, "+"@, p),
        ),
{
}

/// Zero, the empty string, the empty list, `false` and `nil` are false, so
/// `(if c a b)` with such a `c` gives `b`.
pub proof fn lemma_if_falsy(items: Seq<ExprModel>, p: Position, env: Scopes, fuel: nat, calls: Seq<NativeCall>)
    requires
        items.len() == 4,
        eval(items[1], env, fuel, calls).result is Ok,
        !truthy(eval(items[1], env, fuel, calls).result->Ok_0),
    ensures
        eval_form("if"@, items, p, env, fuel, calls) == eval(
            items[3],
            eval(items[1], env, fuel, calls).env,
            fuel,
            eval(items[1], env, fuel, calls).calls,
        ),
        !truthy(Val::Number(Number { units: 0 })),
        !truthy(Val::Text(Seq::empty())),
        !truthy(Val::List(Seq::empty())),
        !truthy(Val::Bool(false)),
        !truthy(Val::Nil),
{
    lemma_words_distinct();
}

/// A quoted list is never dispatched as a call: whatever its head, every
/// element is evaluated in order and the values are collected into a list.
/// (With no steps left, every evaluation stops with the step limit.)
pub proof fn lemma_quoted_list(items: Seq<ExprModel>, p: Position, env: Scopes, fuel: nat, calls: Seq<NativeCall>)
    ensures
        eval(ExprModel { pos: p, node: Node::List(items, true) }, env, fuel, calls) == if fuel == 0 {
            failed(fault(EvalErrorKind::StepLimit, Seq::empty(), p), env, calls)
        } else if items.len() == 0 {
            done(Val::List(Seq::empty()), env, calls)
        } else {
            as_list(eval_each(items, 0, env, (fuel - 1) as nat, calls))
        },
{
}

} // verus!

verus! {

/// `(while true nil)` never fails at run time: it goes round until the
/// steps run out, whatever the scopes, and leaves them as they were.
pub proof fn lemma_endless_while(c: ExprModel, b: ExprModel, env: Scopes, fuel: nat, calls: Seq<NativeCall>)
    requires
        c.node == Node::Bool(true),
        b.node == Node::Nil,
    ensures
        eval_while(c, b, env, fuel, calls) == failed(fault(EvalErrorKind::StepLimit, Seq::empty(), c.pos), env, calls),
    decreases fuel,
{
    if fuel > 0 {
        assert(eval(c, env, fuel, calls) == done(Val::Bool(true), env, calls));
        assert(eval(b, env, fuel, calls) == done(Val::Nil, env, calls));
        lemma_endless_while(c, b, env, (fuel - 1) as nat, calls);
    } else {
        assert(eval(c, env, fuel, calls) == failed(fault(EvalErrorKind::StepLimit, Seq::empty(), c.pos), env, calls));
    }
}

} // verus!
