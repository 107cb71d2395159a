use lispen::env::{Environment, Value};
use lispen::interpreter::{interpret, EvalError, EvalErrorKind, Host};
use lispen::lexer::Lexer;
use lispen::parser::Parser;

const FUEL: u64 = 10_000;

/// A host whose natives record what they print, answer a fixed clock, and
/// fail on request.
struct Recorder {
    printed: Vec<String>,
}

impl Host for Recorder {
    fn call_native(&mut self, name: &String, args: &Vec<Value>) -> Result<Value, String> {
        match name.as_str() {
            "println" => {
                self.printed.push(args[0].to_text());
                Ok(Value::Nil)
            }
            "clock" => Ok(Value::Number(lispen::number::Number { units: 42 * lispen::number::SCALE })),
            _ => Err(format!("no native '{}'", name)),
        }
    }
}

fn with_natives() -> Environment {
    let mut env = Environment::new();
    env.define_variable("println".to_string(), Value::Native { name: "println".to_string(), arity: 1 });
    env.define_variable("clock".to_string(), Value::Native { name: "clock".to_string(), arity: 0 });
    env.define_variable("broken".to_string(), Value::Native { name: "broken".to_string(), arity: 0 });
    env
}

fn run_with(src: &str, env: &mut Environment, fuel: u64) -> Result<Option<Value>, EvalError> {
    let ts = Lexer::new(src).lex().unwrap();
    let es = Parser::new(ts).parse().unwrap();
    let mut host = Recorder { printed: Vec::new() };
    interpret(&es, env, fuel, &mut host).0
}

fn run(src: &str, env: &mut Environment) -> Result<Option<Value>, EvalError> {
    run_with(src, env, FUEL)
}

fn value(src: &str, env: &mut Environment) -> Value {
    run(src, env).unwrap().unwrap()
}

fn text(src: &str) -> String {
    let mut env = Environment::new();
    value(src, &mut env).to_text()
}

fn error(src: &str) -> EvalErrorKind {
    let mut env = Environment::new();
    run(src, &mut env).unwrap_err().kind
}

fn units(v: &Value) -> i64 {
    match v {
        Value::Number(n) => n.units,
        _ => panic!("expected a number"),
    }
}

#[test]
fn set_then_lookup_gives_the_value() {
    let mut env = Environment::new();
    assert_eq!(units(&value("(set x 5)", &mut env)), 5_000_000);
    assert_eq!(units(&value("x", &mut env)), 5_000_000);
}

#[test]
fn shadowing_in_a_call_frame_leaves_the_outer_binding() {
    let mut env = Environment::new();
    run("(set x 1)", &mut env).unwrap();
    run("(defn f (x) (set x 99))", &mut env).unwrap();
    assert_eq!(units(&value("(f 5)", &mut env)), 99_000_000);
    assert_eq!(units(&value("x", &mut env)), 1_000_000);
    run("(defn g () (set y 3))", &mut env).unwrap();
    run("(g)", &mut env).unwrap();
    assert_eq!(run("y", &mut env).unwrap_err().kind, EvalErrorKind::UnboundVariable);
}

#[test]
fn closure_sees_its_definition_scope() {
    let mut env = Environment::new();
    run("(set x 1)", &mut env).unwrap();
    run("(defn f () x)", &mut env).unwrap();
    run("(set x 2)", &mut env).unwrap();
    assert_eq!(units(&value("(f)", &mut env)), 1_000_000);
}

#[test]
fn division_by_zero_is_an_error_and_stops_the_batch() {
    assert_eq!(error("(/ 4 0)"), EvalErrorKind::DivisionByZero);
    let mut env = Environment::new();
    let e = run("(set a 1) (/ 4 0) (set a 2)", &mut env).unwrap_err();
    assert_eq!(e.kind, EvalErrorKind::DivisionByZero);
    assert_eq!(units(&value("a", &mut env)), 1_000_000);
}

#[test]
fn plus_on_strings_numbers_and_mixed() {
    assert_eq!(text("(+ \"a\" \"b\")"), "ab");
    let mut env = Environment::new();
    assert!(matches!(value("(+ \"a\" \"b\")", &mut env), Value::String(s) if s == "ab"));
    assert_eq!(units(&value("(+ 1 2)", &mut env)), 3_000_000);
    assert_eq!(error("(+ 1 \"a\")"), EvalErrorKind::TypeError);
}

#[test]
fn falsy_conditions_take_the_else_branch() {
    assert_eq!(text("(if 0 1 2)"), "2");
    assert_eq!(text("(if \"\" 1 2)"), "2");
    assert_eq!(text("(if () 1 2)"), "2");
    assert_eq!(text("(if false 1 2)"), "2");
    assert_eq!(text("(if nil 1 2)"), "2");
    assert_eq!(text("(if 0 1)"), "nil");
    assert_eq!(text("(if \"x\" 1 2)"), "1");
    assert_eq!(text("(if '(0) 1 2)"), "1");
}

#[test]
fn quoted_list_is_never_a_call() {
    assert_eq!(text("'(1 2 3)"), "(1 2 3)");
    let mut env = Environment::new();
    match value("'(1 2 3)", &mut env) {
        Value::List(vs) => {
            assert_eq!(vs.len(), 3);
            assert_eq!(units(&vs[0]), 1_000_000);
            assert_eq!(units(&vs[2]), 3_000_000);
        }
        _ => panic!("expected a list"),
    }
    assert_eq!(error("'(+ 1 2)"), EvalErrorKind::NotAValue);
}

#[test]
fn recursive_factorial() {
    let mut env = Environment::new();
    run("(defn fact (n) (if (<= n 1) 1 (* n (fact (- n 1)))))", &mut env).unwrap();
    assert_eq!(value("(fact 5)", &mut env).to_text(), "120");
    assert_eq!(value("(fact 10)", &mut env).to_text(), "3628800");
    assert_eq!(value("(fact 0)", &mut env).to_text(), "1");
}

#[test]
fn endless_loop_runs_out_of_steps() {
    let mut env = Environment::new();
    let e = run_with("(while true 1)", &mut env, 50).unwrap_err();
    assert_eq!(e.kind, EvalErrorKind::StepLimit);
}

#[test]
fn while_loop_counts() {
    let mut env = Environment::new();
    assert!(run("(set i 0) (while (< i 5) (set i (+ i 1)))", &mut env).unwrap().is_none());
    assert_eq!(value("i", &mut env).to_text(), "5");
    assert_eq!(text("(while false 1)"), "nil");
}

#[test]
fn number_text_and_arithmetic() {
    assert_eq!(text("(/ 1 4)"), "0.25");
    assert_eq!(text("(- 0 1.5)"), "-1.5");
    assert_eq!(text("(/ 1 3)"), "0.333333");
    assert_eq!(text("(* 2.5 4)"), "10");
    assert_eq!(text("(- 3 10)"), "-7");
    assert_eq!(text("2.000"), "2");
    assert_eq!(error("(* 9999999999 9999999999)"), EvalErrorKind::NumberOutOfRange);
}

#[test]
fn comparisons_and_equality() {
    assert_eq!(text("(> 2 1)"), "true");
    assert_eq!(text("(>= 1 1)"), "true");
    assert_eq!(text("(< 2 1)"), "false");
    assert_eq!(text("(<= 2 1)"), "false");
    assert_eq!(text("(= \"a\" \"a\")"), "true");
    assert_eq!(text("(!= 1 2)"), "true");
    assert_eq!(text("(= 1 1.0)"), "true");
    assert_eq!(error("(= 1 \"a\")"), EvalErrorKind::TypeError);
    assert_eq!(error("(< \"a\" \"b\")"), EvalErrorKind::TypeError);
    assert_eq!(error("(- \"a\" \"b\")"), EvalErrorKind::TypeError);
}

#[test]
fn printing_of_values() {
    assert_eq!(text("'(1 \"a\" (2 3) true nil)"), "(1 a (2 3) true nil)");
    assert_eq!(text("()"), "()");
    assert_eq!(text("(fn (x) x)"), "<fn>");
    assert_eq!(text("\"raw text\""), "raw text");
}

#[test]
fn anonymous_function_as_head_is_a_plain_list() {
    assert_eq!(text("((fn (x) x) 4)"), "(<fn> 4)");
    let mut env = Environment::new();
    run("(set double (fn (x) (* x 2)))", &mut env).unwrap();
    assert_eq!(value("(double 4)", &mut env).to_text(), "8");
}

#[test]
fn name_and_arity_errors() {
    assert_eq!(error("y"), EvalErrorKind::UnboundVariable);
    assert_eq!(error("(g 1)"), EvalErrorKind::UnboundVariable);
    assert_eq!(error("(+ 1)"), EvalErrorKind::ArityError);
    assert_eq!(error("(set x)"), EvalErrorKind::ArityError);
    assert_eq!(error("(if 1)"), EvalErrorKind::ArityError);
    assert_eq!(error("(set 1 2)"), EvalErrorKind::InvalidForm);
    assert_eq!(error("(fn (1) 2)"), EvalErrorKind::InvalidForm);
    let mut env = Environment::new();
    run("(set v 3)", &mut env).unwrap();
    assert_eq!(run("(v)", &mut env).unwrap_err().kind, EvalErrorKind::NotAFunction);
    run("(defn two (a b) a)", &mut env).unwrap();
    assert_eq!(run("(two 1)", &mut env).unwrap_err().kind, EvalErrorKind::ArityError);
}

#[test]
fn batch_of_several_gives_no_value() {
    let mut env = Environment::new();
    assert!(run("(set a 1) (set b 2)", &mut env).unwrap().is_none());
    assert_eq!(value("(+ a b)", &mut env).to_text(), "3");
}

#[test]
fn environment_scopes() {
    let mut outer = Environment::new();
    outer.define_variable("x".to_string(), Value::Bool(true));
    let mut inner = Environment::from_enclosing(outer);
    assert!(matches!(inner.get_variable("x"), Some(Value::Bool(true))));
    inner.define_variable("x".to_string(), Value::Nil);
    assert!(matches!(inner.get_variable("x"), Some(Value::Nil)));
    assert!(inner.get_variable("z").is_none());
}

#[test]
fn natives_run_through_the_host() {
    let mut env = with_natives();
    let ts = Lexer::new("(println (+ 1 2)) (println \"hi\") (set t (clock))").lex().unwrap();
    let es = Parser::new(ts).parse().unwrap();
    let mut host = Recorder { printed: Vec::new() };
    assert!(interpret(&es, &mut env, FUEL, &mut host).0.unwrap().is_none());
    assert_eq!(host.printed, vec!["3".to_string(), "hi".to_string()]);
    assert_eq!(value("t", &mut env).to_text(), "42");
    assert_eq!(value("println", &mut env).to_text(), "<fn>");
}

#[test]
fn native_arity_and_failure() {
    let mut env = with_natives();
    assert_eq!(run("(println)", &mut env).unwrap_err().kind, EvalErrorKind::ArityError);
    let e = run("(broken)", &mut env).unwrap_err();
    assert_eq!(e.kind, EvalErrorKind::NativeFailed);
    assert_eq!(e.detail, "no native 'broken'");
}

#[test]
fn root_scope_binds_the_natives() {
    let env = Environment::new();
    for (name, arity) in [
        ("println", 1),
        ("print", 1),
        ("println_blank", 0),
        ("time_ms", 0),
        ("time_sec", 0),
        ("execute", 1),
        ("execute_exit_code", 1),
        ("input", 1),
    ] {
        match env.get_variable(name) {
            Some(Value::Native { name: n, arity: a }) => {
                assert_eq!(n, name);
                assert_eq!(a, arity);
            }
            _ => panic!("native {} is not bound", name),
        }
    }
    assert!(env.get_variable("clock").is_none());
    assert!(Environment::empty().get_variable("println").is_none());
}

#[test]
fn identifiers_with_digits_bind_and_call() {
    let mut env = Environment::new();
    run("(set x1 4) (defn f2 (a1) (* a1 x1))", &mut env).unwrap();
    assert_eq!(value("(f2 2)", &mut env).to_text(), "8");
}
