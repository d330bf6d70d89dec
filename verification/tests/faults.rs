use gardswag::chan::{Log, ThreadStart};
use gardswag::interp::{run, Progress};
use gardswag::names::NameMap;
use gardswag::semantics::Fault;
use gardswag::stack::VarStack;
use gardswag::syntax::{Block, Case, Expr, ExprKind, Offsetted, Pattern};
use gardswag::value::{Builtin, Value};

struct TestThread;

impl ThreadStart for TestThread {}

fn log<'a>() -> Log<'a> {
    Log::new(TestThread)
}

fn e(inner: ExprKind) -> Expr {
    Offsetted { offset: 0, inner }
}

fn number(i: i32) -> Expr {
    e(ExprKind::Integer(i))
}

fn unit() -> Expr {
    e(ExprKind::Unit)
}

fn f() -> Expr {
    e(ExprKind::Identifier("f".to_string()))
}

fn call(prim: Expr, arg: Expr) -> Expr {
    e(ExprKind::Call { prim: Box::new(prim), arg: Box::new(arg) })
}

fn record(key: &str, v: Expr) -> Expr {
    let mut m = NameMap::new();
    m.insert(key.to_string(), v);
    e(ExprKind::Record(m))
}

fn fault_with<'a>(program: &'a Expr, value: Value<'a>) -> Option<Fault> {
    let mut stack = VarStack::new();
    stack.push("f", value);
    match run(program, stack, 10_000, &mut log()) {
        Progress::Fault(f) => Some(f),
        _ => None,
    }
}

fn fault(program: Expr) -> Option<Fault> {
    fault_with(&program, Value::Unit)
}

fn builtin1(b: Builtin, arg: Expr) -> Option<Fault> {
    fault_with(&call(f(), arg), Value::from(b))
}

fn builtin2(b: Builtin, x: Expr, y: Expr) -> Option<Fault> {
    fault_with(&call(call(f(), x), y), Value::from(b))
}

#[test]
fn an_unbound_variable() {
    assert_eq!(fault(e(ExprKind::Identifier("g".to_string()))), Some(Fault::Unbound));
}

#[test]
fn a_condition_that_is_no_boolean() {
    let blk = || Block { stmts: vec![], term: None };
    let program = e(ExprKind::If { cond: Box::new(number(1)), then_blk: blk(), or_else: blk() });
    assert_eq!(fault(program), Some(Fault::ConditionNotBoolean));
}

#[test]
fn a_call_of_no_function() {
    assert_eq!(fault(call(number(1), number(2))), Some(Fault::NotCallable));
}

#[test]
fn a_builtin_with_too_many_arguments() {
    let args = vec![Value::Boolean(true)];
    assert_eq!(
        fault_with(&call(f(), unit()), Value::Builtin { f: Builtin::Not, args }),
        Some(Fault::TooManyArguments)
    );
}

#[test]
fn builtins_with_wrong_arguments() {
    for b in [Builtin::Plus, Builtin::Minus, Builtin::Mult, Builtin::Leq] {
        assert_eq!(builtin2(b, number(1), unit()), Some(Fault::WrongArgument(b)));
        assert_eq!(builtin2(b, unit(), number(1)), Some(Fault::WrongArgument(b)));
    }
    assert_eq!(builtin2(Builtin::ChanSend, number(1), unit()), Some(Fault::WrongArgument(Builtin::ChanSend)));
    for b in [Builtin::Not, Builtin::SpawnThread, Builtin::MakeChan, Builtin::ChanRecv, Builtin::StdioWrite] {
        assert_eq!(builtin1(b, number(1)), Some(Fault::WrongArgument(b)));
    }
    assert_eq!(builtin2(Builtin::Eq, number(1), unit()), None);
}

#[test]
fn numbers_that_do_not_fit() {
    assert_eq!(builtin2(Builtin::Plus, number(i32::MAX), number(1)), Some(Fault::Overflow(Builtin::Plus)));
    assert_eq!(builtin2(Builtin::Plus, number(i32::MAX), number(0)), None);
    assert_eq!(builtin2(Builtin::Minus, number(i32::MIN), number(1)), Some(Fault::Overflow(Builtin::Minus)));
    assert_eq!(builtin2(Builtin::Mult, number(i32::MIN), number(-1)), Some(Fault::Overflow(Builtin::Mult)));
    assert_eq!(builtin2(Builtin::Mult, number(46341), number(46341)), Some(Fault::Overflow(Builtin::Mult)));
    assert_eq!(builtin2(Builtin::Mult, number(46340), number(46340)), None);
}

#[test]
fn fields_that_are_not_there() {
    let dot = |v: Expr| {
        e(ExprKind::Dot { prim: Box::new(v), key: Offsetted { offset: 0, inner: "k".to_string() } })
    };
    assert_eq!(fault(dot(number(1))), Some(Fault::NotARecord));
    assert_eq!(fault(dot(record("j", number(1)))), Some(Fault::MissingKey));
    assert_eq!(fault(dot(record("k", number(1)))), None);
}

#[test]
fn parts_that_cannot_be_written() {
    assert_eq!(fault(e(ExprKind::FormatString(vec![record("k", number(1))]))), Some(Fault::NotText));
}

#[test]
fn updates_of_other_things() {
    let update = |a: Expr, b: Expr| e(ExprKind::Update { orig: Box::new(a), ovrd: Box::new(b) });
    assert_eq!(fault(update(number(0), record("k", number(1)))), Some(Fault::UpdateOfNonRecord));
    assert_eq!(fault(update(record("k", number(1)), number(0))), Some(Fault::UpdateByNonRecord));
    assert_eq!(fault(update(number(0), number(0))), Some(Fault::UpdateByNonRecord));
}

#[test]
fn matches_without_a_fitting_alternative() {
    let matching = |v: Expr, pat: Pattern| {
        e(ExprKind::Match { inp: Box::new(v), cases: vec![Case { pat, body: number(1) }] })
    };
    let tagged = || Pattern::Tagged {
        key: Offsetted { offset: 0, inner: "A".to_string() },
        value: Box::new(Pattern::Unit),
    };
    assert_eq!(fault(matching(number(1), tagged())), Some(Fault::NoCaseFits));
    assert_eq!(fault(matching(number(1), Pattern::Unit)), Some(Fault::UnitPattern));
    let tag = |v: Expr| call(e(ExprKind::Tagger { key: "A".to_string() }), v);
    assert_eq!(fault(matching(tag(number(1)), tagged())), Some(Fault::UnitPattern));
    assert_eq!(fault(matching(tag(unit()), tagged())), None);
}
