use vstd::prelude::*;
use crate::expr::{Expr, ExprModel};
use crate::number::Number;

verus! {

/// A runtime value. A function holds its parameters, its body, a snapshot
/// of the scope it was defined in, and, for one made by `defn`, the name it
/// can call itself by. A native function is run by the host under its name.
#[derive(Debug)]
pub enum Value {
    Number(Number),
    String(String),
    Bool(bool),
    List(Vec<Value>),
    Function { params: Vec<String>, body: Expr, env: Environment, name: Option<String> },
    Native { name: String, arity: usize },
    Nil,
}

/// One name bound in a scope.
#[derive(Debug)]
pub struct Binding {
    pub name: String,
    pub value: Value,
}

/// A scope: its own bindings and the scope that encloses it.
#[derive(Debug)]
pub struct Environment {
    values: Vec<Binding>,
    enclosing: Option<Box<Environment>>,
}

/// A value as the contracts see it.
pub enum Val {
    Number(Number),
    Text(Seq<char>),
    Bool(bool),
    List(Seq<Val>),
    Function { params: Seq<Seq<char>>, body: ExprModel, env: Scopes, name: Option<Seq<char>> },
    Native { name: Seq<char>, arity: nat },
    Nil,
}

/// A chain of scopes as the contracts see it, outermost first.
pub type Frame = Map<Seq<char>, Val>;

pub type Scopes = Seq<Frame>;

pub open spec fn string_models(v: Seq<String>) -> Seq<Seq<char>> {
    v.map_values(|s: String| s@)
}

pub open spec fn opt_model(o: Option<String>) -> Option<Seq<char>> {
    match o {
        Some(s) => Some(s@),
        None => None,
    }
}

impl Value {
    pub open spec fn model(&self) -> Val
        decreases self,
    {
        match self {
            Value::Number(n) => Val::Number(*n),
            Value::String(s) => Val::Text(s@),
            Value::Bool(b) => Val::Bool(*b),
            Value::List(v) => Val::List(
                Seq::new(
                    v.len() as nat,
                    |i: int|
                        if 0 <= i < v.len() {
                            v[i].model()
                        } else {
                            Val::Nil
                        },
                ),
            ),
            Value::Function { params, body, env, name } => Val::Function {
                params: string_models(params@),
                body: body.model(),
                env: env.model(),
                name: opt_model(*name),
            },
            Value::Native { name, arity } => Val::Native { name: name@, arity: *arity as nat },
            Value::Nil => Val::Nil,
        }
    }
}

/// The bindings of one scope as a map; a later binding of a name hides an
/// earlier one.
pub open spec fn frame_map(bs: Seq<Binding>) -> Frame
    decreases bs,
{
    if bs.len() == 0 {
        Map::empty()
    } else {
        let last = bs[bs.len() - 1];
        frame_map(bs.subrange(0, bs.len() - 1)).insert(last.name@, last.value.model())
    }
}

impl Environment {
    pub closed spec fn model(&self) -> Scopes
        decreases self,
    {
        let f = frame_map(self.values@);
        match &self.enclosing {
            None => seq![f],
            Some(e) => e.model().push(f),
        }
    }
}

/// The models of a sequence of values.
pub open spec fn val_models(v: Seq<Value>) -> Seq<Val> {
    Seq::new(v.len(), |i: int| v[i].model())
}

} // verus!

verus! {

pub open spec fn native(name: Seq<char>, arity: nat) -> Val {
    Val::Native { name, arity }
}

/// The root frame of native functions: each name bound to the native
/// function of that name, with its arity.
pub open spec fn native_frame() -> Frame {
    Map::empty().insert("println"@, native("println"@, 1)).insert("print"@, native("print"@, 1)).insert(
        "println_blank"@,
        native("println_blank"@, 0),
    ).insert("time_ms"@, native("time_ms"@, 0)).insert("time_sec"@, native("time_sec"@, 0)).insert(
        "execute"@,
        native("execute"@, 1),
    ).insert("execute_exit_code"@, native("execute_exit_code"@, 1)).insert("input"@, native("input"@, 1))
}

/// The innermost binding of `name` in a chain of scopes.
pub open spec fn lookup(scopes: Scopes, name: Seq<char>) -> Option<Val>
    decreases scopes.len(),
{
    if scopes.len() == 0 {
        None
    } else if scopes.last().contains_key(name) {
        Some(scopes.last()[name])
    } else {
        lookup(scopes.drop_last(), name)
    }
}

/// Binds `name` in the innermost scope, replacing a binding it had there.
pub open spec fn define(scopes: Scopes, name: Seq<char>, v: Val) -> Scopes {
    scopes.update(scopes.len() - 1, scopes.last().insert(name, v))
}

proof fn lemma_frame_update(bs: Seq<Binding>, k: int, b: Binding)
    requires
        0 <= k < bs.len(),
        bs[k].name@ == b.name@,
        forall|j: int| k < j < bs.len() ==> (#[trigger] bs[j]).name@ != b.name@,
    ensures
        frame_map(bs.update(k, b)) == frame_map(bs).insert(b.name@, b.value.model()),
    decreases bs.len(),
{
    let n = bs.len() - 1;
    let u = bs.update(k, b);
    assert(u.subrange(0, n) =~= if k == n {
        bs.subrange(0, n)
    } else {
        bs.subrange(0, n).update(k, b)
    });
    if k < n {
        lemma_frame_update(bs.subrange(0, n), k, b);
        assert(bs[n].name@ != b.name@);
    }
    assert(frame_map(u) =~= frame_map(bs).insert(b.name@, b.value.model()));
}

proof fn lemma_frame_find(bs: Seq<Binding>, k: int, name: Seq<char>)
    requires
        0 <= k < bs.len(),
        bs[k].name@ == name,
        forall|j: int| k < j < bs.len() ==> (#[trigger] bs[j]).name@ != name,
    ensures
        frame_map(bs).contains_key(name),
        frame_map(bs)[name] == bs[k].value.model(),
    decreases bs.len(),
{
    let n = bs.len() - 1;
    if k < n {
        assert(bs[n].name@ != name);
        lemma_frame_find(bs.subrange(0, n), k, name);
        assert(bs.subrange(0, n)[k] == bs[k]);
    }
}

proof fn lemma_frame_missing(bs: Seq<Binding>, name: Seq<char>)
    requires
        forall|j: int| 0 <= j < bs.len() ==> (#[trigger] bs[j]).name@ != name,
    ensures
        !frame_map(bs).contains_key(name),
    decreases bs.len(),
{
    if bs.len() > 0 {
        let n = bs.len() - 1;
        assert forall|j: int| 0 <= j < n implies (#[trigger] bs.subrange(0, n)[j]).name@ != name by {
            assert(bs.subrange(0, n)[j] == bs[j]);
        }
        lemma_frame_missing(bs.subrange(0, n), name);
    }
}

impl Environment {
    /// A root scope holding the native functions, each bound to its own
    /// name: `println`, `print` and `input` (one argument), `println_blank`,
    /// `time_ms` and `time_sec` (none), `execute` and `execute_exit_code`
    /// (one). A host runs them.
    pub fn new() -> (r: Environment)
        ensures
            r.model() == seq![native_frame()],
    {
        let mut r = Environment::empty();
        r.bind_native("println", 1);
        r.bind_native("print", 1);
        r.bind_native("println_blank", 0);
        r.bind_native("time_ms", 0);
        r.bind_native("time_sec", 0);
        r.bind_native("execute", 1);
        r.bind_native("execute_exit_code", 1);
        r.bind_native("input", 1);
        r
    }

    /// A root scope with no bindings.
    pub fn empty() -> (r: Environment)
        ensures
            r.model() == seq![Map::<Seq<char>, Val>::empty()],
    {
        let r = Environment { values: Vec::new(), enclosing: None };
        assert(frame_map(r.values@) == Map::<Seq<char>, Val>::empty());
        r
    }

    fn bind_native(&mut self, name: &str, arity: usize)
        requires
            old(self).model().len() == 1,
        ensures
            final(self).model() == seq![old(self).model()[0].insert(name@, native(name@, arity as nat))],
    {
        self.define_variable(crate::text::owned_text(name), Value::Native { name: crate::text::owned_text(name), arity });
        assert(final(self).model() =~= seq![old(self).model()[0].insert(name@, native(name@, arity as nat))]);
    }

    /// A new, empty scope inside `enclosing`.
    pub fn from_enclosing(enclosing: Environment) -> (r: Environment)
        ensures
            r.model() == enclosing.model().push(Map::empty()),
    {
        let r = Environment { values: Vec::new(), enclosing: Some(Box::new(enclosing)) };
        assert(frame_map(r.values@) == Map::<Seq<char>, Val>::empty());
        r
    }

    /// There is always an innermost scope.
    pub proof fn lemma_nonempty(&self)
        ensures
            self.model().len() >= 1,
    {
        match &self.enclosing {
            None => {},
            Some(e) => {},
        }
    }

    /// Binds `name` to `value` in this scope (not an enclosing one),
    /// replacing a binding of `name` that this scope had.
    pub fn define_variable(&mut self, name: String, value: Value)
        ensures
            final(self).model() == define(old(self).model(), name@, value.model()),
    {
        proof {
            self.lemma_nonempty();
        }
        let ghost bs = self.values@;
        let ghost nm = name@;
        let ghost vm = value.model();
        let mut k: usize = self.values.len();
        while k > 0
            invariant
                k <= self.values@.len(),
                self.values@ == bs,
                nm == name@,
                self.enclosing == old(self).enclosing,
                old(self).values@ == bs,
                forall|j: int| k <= j < bs.len() ==> (#[trigger] bs[j]).name@ != nm,
            decreases k,
        {
            if self.values[k - 1].name == name {
                let b = Binding { name, value };
                proof {
                    lemma_frame_update(bs, k - 1, b);
                }
                self.values.set(k - 1, b);
                proof {
                    self.lemma_model_frame(old(self), bs.update(k - 1, b));
                }
                return;
            }
            k = k - 1;
        }
        let b = Binding { name, value };
        self.values.push(b);
        proof {
            assert(self.values@.subrange(0, bs.len() as int) =~= bs);
            self.lemma_model_frame(old(self), self.values@);
        }
    }

    /// How the model changes when only this scope's bindings change.
    proof fn lemma_model_frame(&self, before: &Environment, bs: Seq<Binding>)
        requires
            self.enclosing == before.enclosing,
            self.values@ == bs,
        ensures
            before.model().len() >= 1,
            self.model() == before.model().update(before.model().len() - 1, frame_map(bs)),
    {
        before.lemma_nonempty();
        match &self.enclosing {
            None => {
                assert(self.model() =~= before.model().update(before.model().len() - 1, frame_map(bs)));
            },
            Some(e) => {
                assert(self.model() =~= before.model().update(before.model().len() - 1, frame_map(bs)));
            },
        }
    }

    /// The value bound to `name` in the innermost scope that binds it.
    pub fn get_variable(&self, name: &str) -> (r: Option<Value>)
        ensures
            match r {
                Some(v) => lookup(self.model(), name@) == Some(v.model()),
                None => lookup(self.model(), name@) is None,
            },
        decreases self,
    {
        proof {
            self.lemma_nonempty();
        }
        let ghost bs = self.values@;
        let ghost f = frame_map(bs);
        assert(self.model().last() == f) by {
            match &self.enclosing {
                None => {},
                Some(e) => {},
            }
        }
        let mut k: usize = self.values.len();
        while k > 0
            invariant
                k <= bs.len(),
                self.values@ == bs,
                f == frame_map(bs),
                self.model().len() >= 1,
                self.model().last() == f,
                forall|j: int| k <= j < bs.len() ==> (#[trigger] bs[j]).name@ != name@,
            decreases k,
        {
            if same_str(&self.values[k - 1].name, name) {
                proof {
                    lemma_frame_find(bs, k - 1, name@);
                }
                return Some(self.values[k - 1].value.duplicate());
            }
            k = k - 1;
        }
        proof {
            lemma_frame_missing(bs, name@);
        }
        match &self.enclosing {
            None => {
                assert(self.model() == seq![f]);
                assert(self.model().drop_last().len() == 0);
                assert(lookup(self.model().drop_last(), name@) is None);
                None
            },
            Some(e) => {
                assert(self.model() == e.model().push(f));
                assert(self.model().drop_last() =~= e.model());
                assert(!self.model().last().contains_key(name@));
                assert(lookup(self.model(), name@) == lookup(e.model(), name@));
                e.get_variable(name)
            },
        }
    }

    /// A deep copy: an independent snapshot of this chain of scopes.
    pub fn duplicate(&self) -> (r: Environment)
        ensures
            r.model() == self.model(),
        decreases self,
    {
        let mut values: Vec<Binding> = Vec::new();
        let mut i: usize = 0;
        while i < self.values.len()
            invariant
                i <= self.values@.len(),
                values@.len() == i,
                forall|k: int| 0 <= k < i ==> (#[trigger] values@[k]).name@ == self.values@[k].name@
                    && values@[k].value.model() == self.values@[k].value.model(),
            decreases self.values@.len() - i,
        {
            proof {
                assert(decreases_to!(self => self.values));
                assert(decreases_to!(self.values => self.values@[i as int]));
            }
            let b = &self.values[i];
            values.push(Binding { name: b.name.clone(), value: b.value.duplicate() });
            i = i + 1;
        }
        proof {
            lemma_frame_same(values@, self.values@);
        }
        let enclosing = match &self.enclosing {
            None => None,
            Some(e) => Some(Box::new(e.duplicate())),
        };
        Environment { values, enclosing }
    }
}

proof fn lemma_frame_same(a: Seq<Binding>, b: Seq<Binding>)
    requires
        a.len() == b.len(),
        forall|k: int| 0 <= k < a.len() ==> (#[trigger] a[k]).name@ == b[k].name@ && a[k].value.model()
            == b[k].value.model(),
    ensures
        frame_map(a) == frame_map(b),
    decreases a.len(),
{
    if a.len() > 0 {
        let n = a.len() - 1;
        assert forall|k: int| 0 <= k < n implies (#[trigger] a.subrange(0, n)[k]).name@ == b.subrange(0, n)[k].name@
            && a.subrange(0, n)[k].value.model() == b.subrange(0, n)[k].value.model() by {
            assert(a.subrange(0, n)[k] == a[k]);
            assert(b.subrange(0, n)[k] == b[k]);
        }
        lemma_frame_same(a.subrange(0, n), b.subrange(0, n));
        assert(a[n].name@ == b[n].name@);
    }
}

/// Whether a name is the given text.
fn same_str(a: &String, b: &str) -> (r: bool)
    ensures
        r == (a@ == b@),
{
    crate::text::same_text(a.as_str(), b)
}

impl Value {
    /// A deep copy of the value.
    pub fn duplicate(&self) -> (r: Value)
        ensures
            r.model() == self.model(),
        decreases self,
    {
        match self {
            Value::Number(n) => Value::Number(*n),
            Value::String(s) => Value::String(s.clone()),
            Value::Bool(b) => Value::Bool(*b),
            Value::List(v) => {
                let w = duplicate_values(v);
                let r = Value::List(w);
                assert(r.model()->List_0 =~= self.model()->List_0);
                r
            },
            Value::Function { params, body, env, name } => {
                let ps = duplicate_strings(params);
                let n = match name {
                    Some(s) => Some(s.clone()),
                    None => None,
                };
                Value::Function { params: ps, body: body.duplicate(), env: env.duplicate(), name: n }
            },
            Value::Native { name, arity } => Value::Native { name: name.clone(), arity: *arity },
            Value::Nil => Value::Nil,
        }
    }
}

/// A deep copy of each value, in order.
pub fn duplicate_values(v: &Vec<Value>) -> (r: Vec<Value>)
    ensures
        r@.len() == v@.len(),
        forall|k: int| 0 <= k < v@.len() ==> (#[trigger] r@[k]).model() == v@[k].model(),
    decreases v,
{
    let mut r: Vec<Value> = Vec::new();
    let mut i: usize = 0;
    while i < v.len()
        invariant
            i <= v@.len(),
            r@.len() == i,
            forall|k: int| 0 <= k < i ==> (#[trigger] r@[k]).model() == v@[k].model(),
        decreases v@.len() - i,
    {
        proof {
            assert(decreases_to!(v => v@[i as int]));
        }
        r.push(v[i].duplicate());
        i = i + 1;
    }
    r
}

/// A copy of each string, in order.
pub fn duplicate_strings(v: &Vec<String>) -> (r: Vec<String>)
    ensures
        string_models(r@) == string_models(v@),
{
    let mut r: Vec<String> = Vec::new();
    let mut i: usize = 0;
    while i < v.len()
        invariant
            i <= v@.len(),
            r@.len() == i,
            forall|k: int| 0 <= k < i ==> (#[trigger] r@[k])@ == v@[k]@,
        decreases v@.len() - i,
    {
        r.push(v[i].clone());
        i = i + 1;
    }
    assert(string_models(r@) =~= string_models(v@));
    r
}

} // verus!

verus! {

/// After binding `n` to `v`, looking up `n` finds `v`, and every other
/// name finds what it found before.
pub proof fn lemma_lookup_define(s: Scopes, n: Seq<char>, v: Val, m: Seq<char>)
    requires
        s.len() >= 1,
    ensures
        lookup(define(s, n, v), m) == if m == n {
            Some(v)
        } else {
            lookup(s, m)
        },
{
    let d = define(s, n, v);
    assert(d.drop_last() =~= s.drop_last());
}

/// A lookup through an inner frame finds that frame's binding, or else what
/// the enclosing scopes bind.
pub proof fn lemma_lookup_push(s: Scopes, fr: Frame, m: Seq<char>)
    ensures
        lookup(s.push(fr), m) == if fr.contains_key(m) {
            Some(fr[m])
        } else {
            lookup(s, m)
        },
{
    assert(s.push(fr).drop_last() =~= s);
}

/// A binding made in an inner frame changes that frame only: the enclosing
/// scopes, and what they bind, stay as they were.
pub proof fn lemma_define_in_inner_frame(s: Scopes, fr: Frame, n: Seq<char>, v: Val)
    ensures
        define(s.push(fr), n, v) == s.push(fr.insert(n, v)),
        define(s.push(fr), n, v).drop_last() == s,
{
    assert(define(s.push(fr), n, v) =~= s.push(fr.insert(n, v)));
    assert(s.push(fr.insert(n, v)).drop_last() =~= s);
}

} // verus!
