use gardswag::chan::{Log, ThreadStart};
use gardswag::interp::{resume, run, run_block, run_stacksave, Progress};
use gardswag::machine::{Machine, Reply, Request};
use gardswag::names::NameMap;
use gardswag::stack::VarStack;
use gardswag::syntax::{Block, Case, Expr, ExprKind, Identifier, Offsetted, Pattern};
use gardswag::value::{Builtin, Value};

struct TestThread;

impl ThreadStart for TestThread {}

fn log<'a>() -> Log<'a> {
    Log::new(TestThread)
}

fn e(inner: ExprKind) -> Expr {
    Offsetted { offset: 0, inner }
}

fn name(s: &str) -> Identifier {
    Offsetted { offset: 0, inner: s.to_string() }
}

fn number(i: i32) -> Expr {
    e(ExprKind::Integer(i))
}

fn text(s: &str) -> Expr {
    e(ExprKind::PureString(s.to_string()))
}

fn var(s: &str) -> Expr {
    e(ExprKind::Identifier(s.to_string()))
}

fn dot(prim: Expr, key: &str) -> Expr {
    e(ExprKind::Dot { prim: Box::new(prim), key: name(key) })
}

fn builtin(key: &str) -> Expr {
    dot(var("std"), key)
}

fn call(prim: Expr, arg: Expr) -> Expr {
    e(ExprKind::Call { prim: Box::new(prim), arg: Box::new(arg) })
}

fn call2(prim: Expr, a: Expr, b: Expr) -> Expr {
    call(call(prim, a), b)
}

fn lambda(arg: &str, body: Expr) -> Expr {
    e(ExprKind::Lambda { arg: arg.to_string(), body: Box::new(body) })
}

fn fix(arg: &str, body: Expr) -> Expr {
    e(ExprKind::Fix { arg: arg.to_string(), body: Box::new(body) })
}

fn term(t: Expr) -> Block {
    Block { stmts: vec![], term: Some(Box::new(t)) }
}

fn block(b: Block) -> Expr {
    e(ExprKind::Block(b))
}

fn bind(lhs: &str, rhs: Expr, rest: Expr) -> Expr {
    e(ExprKind::Let { lhs: name(lhs), rhs: Box::new(rhs), rest: term(rest) })
}

fn bind_rec(lhs: &str, rhs: Expr, rest: Expr) -> Expr {
    bind(lhs, fix(lhs, rhs), rest)
}

fn cond(c: Expr, yes: Expr, no: Expr) -> Expr {
    e(ExprKind::If { cond: Box::new(c), then_blk: term(yes), or_else: term(no) })
}

fn record(fields: Vec<(&str, Expr)>) -> Expr {
    let mut m = NameMap::new();
    for (k, v) in fields {
        m.insert(k.to_string(), v);
    }
    e(ExprKind::Record(m))
}

fn update(orig: Expr, ovrd: Expr) -> Expr {
    e(ExprKind::Update { orig: Box::new(orig), ovrd: Box::new(ovrd) })
}

fn tagger(key: &str) -> Expr {
    e(ExprKind::Tagger { key: key.to_string() })
}

fn pat_var(s: &str) -> Pattern {
    Pattern::Identifier(name(s))
}

fn pat_tag(key: &str, value: Pattern) -> Pattern {
    Pattern::Tagged { key: name(key), value: Box::new(value) }
}

fn pat_record(fields: Vec<(&str, Pattern)>) -> Pattern {
    let mut m = NameMap::new();
    for (k, v) in fields {
        m.insert(k.to_string(), v);
    }
    Pattern::Record(Offsetted { offset: 0, inner: m })
}

fn case(pat: Pattern, body: Expr) -> Case {
    Case { pat, body }
}

fn matching(inp: Expr, cases: Vec<Case>) -> Expr {
    e(ExprKind::Match { inp: Box::new(inp), cases })
}

fn format_string(parts: Vec<Expr>) -> Expr {
    e(ExprKind::FormatString(parts))
}

fn fields<'a>(entries: Vec<(&'a str, Value<'a>)>) -> NameMap<&'a str, Value<'a>> {
    let mut m = NameMap::new();
    for (k, v) in entries {
        m.insert(k, v);
    }
    m
}

fn base<'a>() -> VarStack<'a> {
    let mut lib = NameMap::new();
    lib.insert("plus", Value::from(Builtin::Plus));
    lib.insert("minus", Value::from(Builtin::Minus));
    lib.insert("mult", Value::from(Builtin::Mult));
    lib.insert("eq", Value::from(Builtin::Eq));
    lib.insert("leq", Value::from(Builtin::Leq));
    lib.insert("not", Value::from(Builtin::Not));
    lib.insert("spawn_thread", Value::from(Builtin::SpawnThread));
    lib.insert("make_chan", Value::from(Builtin::MakeChan));
    lib.insert("chan_send", Value::from(Builtin::ChanSend));
    lib.insert("chan_recv", Value::from(Builtin::ChanRecv));
    let mut stdio = NameMap::new();
    stdio.insert("write", Value::from(Builtin::StdioWrite));
    lib.insert("stdio", Value::Record(stdio));
    let mut stack = VarStack::new();
    stack.push("std", Value::Record(lib));
    stack
}

fn result<'a>(program: &'a Expr) -> Value<'a> {
    match run(program, base(), 1_000_000, &mut log()) {
        Progress::Done(v) => v,
        x => panic!("no result: {:?}", x),
    }
}

fn fibo(n: i32) -> Expr {
    bind_rec(
        "fib",
        lambda(
            "x",
            lambda(
                "y",
                lambda(
                    "n",
                    block(term(bind(
                        "z",
                        call2(builtin("plus"), var("x"), var("y")),
                        cond(
                            call2(builtin("leq"), var("n"), number(0)),
                            var("z"),
                            call(
                                call2(var("fib"), var("y"), var("z")),
                                call2(builtin("minus"), var("n"), number(1)),
                            ),
                        ),
                    ))),
                ),
            ),
        ),
        call(call2(var("fib"), number(1), number(1)), number(n)),
    )
}

#[test]
fn run_fibo0() {
    assert_eq!(result(&fibo(0)), Value::Integer(2));
}

#[test]
fn run_fibo1() {
    assert_eq!(result(&fibo(1)), Value::Integer(3));
}

#[test]
fn run_fibo() {
    assert_eq!(result(&fibo(5)), Value::Integer(21));
}

#[test]
fn run_id() {
    let program = bind("id", lambda("x", var("x")), call(var("id"), number(1)));
    assert_eq!(result(&program), Value::Integer(1));
}

#[test]
fn run_call_blti() {
    let program = call2(builtin("plus"), number(1), number(1));
    assert_eq!(result(&program), Value::Integer(2));
}

#[test]
fn run_fix() {
    let program = bind_rec(
        "f",
        lambda("a", cond(call2(builtin("eq"), var("a"), number(0)), number(0), call(var("f"), number(0)))),
        call(var("f"), number(1)),
    );
    assert_eq!(result(&program), Value::Integer(0));
}

#[test]
fn run_update() {
    let program = update(
        record(vec![("a", text("what")), ("b", number(1)), ("c", record(vec![]))]),
        record(vec![("b", text("no")), ("c", number(50))]),
    );
    let expected = Value::Record(fields(vec![
        ("a", Value::PureString("what".to_string())),
        ("b", Value::PureString("no".to_string())),
        ("c", Value::Integer(50)),
    ]));
    assert_eq!(result(&program), expected);
}

#[test]
fn run_ctrl_match() {
    let program = matching(
        call(tagger("this_is_a_variant"), number(1)),
        vec![case(
            pat_tag("this_is_a_variant", pat_var("x")),
            call2(builtin("plus"), var("x"), number(1)),
        )],
    );
    assert_eq!(result(&program), Value::Integer(2));
}

fn tree_sum(n: i32) -> Expr {
    let generate = lambda(
        "n",
        block(term(cond(
            call2(builtin("eq"), number(0), var("n")),
            call(tagger("Leaf"), number(1)),
            bind(
                "nm1",
                call2(builtin("minus"), var("n"), number(1)),
                bind(
                    "nm1g",
                    call(var("gen"), var("nm1")),
                    call(tagger("Node"), record(vec![("lhs", var("nm1g")), ("rhs", var("nm1g"))])),
                ),
            ),
        ))),
    );
    let sum = lambda(
        "x",
        matching(
            var("x"),
            vec![
                case(pat_tag("Leaf", pat_var("y")), var("y")),
                case(
                    pat_tag("Node", pat_record(vec![("lhs", pat_var("lhs")), ("rhs", pat_var("rhs"))])),
                    call2(builtin("plus"), call(var("sum"), var("lhs")), call(var("sum"), var("rhs"))),
                ),
            ],
        ),
    );
    bind_rec(
        "gen",
        generate,
        bind_rec(
            "sum",
            sum,
            bind(
                "main",
                lambda("n", call(var("sum"), call(var("gen"), var("n")))),
                call(var("main"), number(n)),
            ),
        ),
    )
}

#[test]
fn sum_of_a_full_tree_of_leaves() {
    assert_eq!(result(&tree_sum(0)), Value::Integer(1));
    assert_eq!(result(&tree_sum(10)), Value::Integer(1024));
}

#[test]
fn statements_of_a_block_are_run_and_dropped() {
    let blk = Block { stmts: vec![number(1), text("two")], term: Some(Box::new(number(3))) };
    assert!(matches!(run_block(&blk, base(), 100, &mut log()), Progress::Done(Value::Integer(3))));
    let no_term = Block { stmts: vec![number(1)], term: None };
    assert!(matches!(run_block(&no_term, base(), 100, &mut log()), Progress::Done(Value::Unit)));
}

#[test]
fn saved_variables_lie_over_the_stack() {
    let program = call2(builtin("minus"), var("a"), var("b"));
    let mut stack = base();
    stack.push("a", Value::Integer(1));
    stack.push("b", Value::Integer(2));
    let saved = vec![("a", Value::Integer(50))];
    assert!(matches!(run_stacksave(&program, stack, saved, 100, &mut log()), Progress::Done(Value::Integer(48))));
}

#[test]
fn arithmetic() {
    assert_eq!(result(&call2(builtin("minus"), number(3), number(5))), Value::Integer(-2));
    assert_eq!(result(&call2(builtin("mult"), number(-3), number(5))), Value::Integer(-15));
    assert_eq!(result(&call2(builtin("leq"), number(5), number(5))), Value::Boolean(true));
    assert_eq!(result(&call2(builtin("leq"), number(6), number(5))), Value::Boolean(false));
    assert_eq!(result(&call(builtin("not"), call2(builtin("leq"), number(6), number(5)))), Value::Boolean(true));
}

#[test]
fn format_strings() {
    let program = format_string(vec![
        text("a="),
        number(-2147483648),
        text(" "),
        e(ExprKind::Boolean(true)),
        e(ExprKind::Boolean(false)),
        e(ExprKind::Unit),
        number(0),
        number(1907),
    ]);
    assert_eq!(result(&program), Value::PureString("a=-2147483648 _1_001907".to_string()));
    assert_eq!(result(&format_string(vec![])), Value::PureString(String::new()));
}

#[test]
fn builtins_take_their_arguments_one_by_one() {
    let program = bind("inc", call(builtin("plus"), number(1)), call(var("inc"), call(var("inc"), number(5))));
    assert_eq!(result(&program), Value::Integer(7));
    let half = call(builtin("plus"), number(1));
    assert_eq!(result(&half), Value::Builtin { f: Builtin::Plus, args: vec![Value::Integer(1)] });
}

#[test]
fn the_argument_is_evaluated_before_the_function() {
    let program = call(dot(number(1), "x"), var("nowhere"));
    assert!(matches!(
        run(&program, base(), 100, &mut log()),
        Progress::Fault(gardswag::semantics::Fault::Unbound)
    ));
}

#[test]
fn functions_take_along_what_they_read() {
    let program = bind(
        "k",
        number(1),
        bind("f", lambda("x", call2(builtin("plus"), var("x"), var("k"))), bind("k", number(100), call(var("f"), number(5)))),
    );
    assert_eq!(result(&program), Value::Integer(6));
    let inner = bind("k", number(1), bind("unused", number(2), lambda("x", call(var("k"), var("x")))));
    match result(&inner) {
        Value::Lambda { argname, stacksave, .. } => {
            assert_eq!(argname, "x");
            assert_eq!(stacksave, fields(vec![("k", Value::Integer(1))]));
        }
        x => panic!("{:?}", x),
    };
}

#[test]
fn captured_variables_hide_the_argument_of_the_same_name_never() {
    let program = bind("x", number(1), call(lambda("x", var("x")), number(2)));
    assert_eq!(result(&program), Value::Integer(2));
}

#[test]
fn a_recursive_reference_sees_the_scope_of_its_use() {
    let program = bind(
        "k",
        number(1),
        bind_rec(
            "f",
            lambda(
                "n",
                cond(
                    call2(builtin("leq"), var("n"), number(0)),
                    var("k"),
                    bind("k", number(2), call(var("f"), number(0))),
                ),
            ),
            call(var("f"), number(1)),
        ),
    );
    assert_eq!(result(&program), Value::Integer(2));
}

#[test]
fn the_first_alternative_that_fits_is_taken() {
    let pick = |v: Expr| {
        matching(
            v,
            vec![
                case(pat_tag("A", pat_tag("B", pat_var("x"))), call2(builtin("plus"), var("x"), number(10))),
                case(pat_tag("A", pat_var("x")), var("x")),
                case(pat_record(vec![("p", pat_var("x")), ("q", pat_var("y"))]), call2(builtin("minus"), var("x"), var("y"))),
                case(pat_var("other"), var("other")),
            ],
        )
    };
    assert_eq!(result(&pick(call(tagger("A"), call(tagger("B"), number(1))))), Value::Integer(11));
    assert_eq!(result(&pick(call(tagger("A"), number(1)))), Value::Integer(1));
    let rec = record(vec![("o", number(0)), ("p", number(7)), ("q", number(3))]);
    assert_eq!(result(&pick(rec)), Value::Integer(4));
    assert_eq!(
        result(&pick(record(vec![("p", number(7))]))),
        Value::Record(fields(vec![("p", Value::Integer(7))]))
    );
    assert_eq!(result(&pick(text("x"))), Value::PureString("x".to_string()));
    let unit = matching(e(ExprKind::Unit), vec![case(Pattern::Unit, number(9))]);
    assert_eq!(result(&unit), Value::Integer(9));
}

#[test]
fn of_two_variables_with_one_name_the_later_field_counts() {
    let program = matching(
        record(vec![("a", number(1)), ("b", number(2))]),
        vec![case(pat_record(vec![("b", pat_var("x")), ("a", pat_var("x"))]), var("x"))],
    );
    assert_eq!(result(&program), Value::Integer(2));
}

#[test]
fn updates_join() {
    let a = || record(vec![("x", number(1)), ("y", number(1)), ("z", number(1))]);
    let b = || record(vec![("y", number(2)), ("z", number(2))]);
    let c = || record(vec![("z", number(3)), ("w", number(3))]);
    let one = update(update(a(), b()), c());
    let other = update(a(), update(b(), c()));
    assert_eq!(result(&one), result(&other));
    assert_eq!(
        result(&one),
        Value::Record(fields(vec![
            ("w", Value::Integer(3)),
            ("x", Value::Integer(1)),
            ("y", Value::Integer(2)),
            ("z", Value::Integer(3)),
        ]))
    );
    let plain = a();
    let same_again = update(a(), a());
    assert_eq!(result(&same_again), result(&plain));
}

#[test]
fn equality_of_values() {
    let eq = |a: Expr, b: Expr| call2(builtin("eq"), a, b);
    assert_eq!(result(&eq(text("a"), text("a"))), Value::Boolean(true));
    assert_eq!(result(&eq(text("a"), number(1))), Value::Boolean(false));
    let rec = || record(vec![("a", number(1)), ("b", text("x"))]);
    assert_eq!(result(&eq(rec(), rec())), Value::Boolean(true));
    assert_eq!(result(&eq(rec(), record(vec![("a", number(1))]))), Value::Boolean(false));
    assert_eq!(result(&eq(call(tagger("A"), number(1)), call(tagger("A"), number(1)))), Value::Boolean(true));
    assert_eq!(result(&eq(call(tagger("A"), number(1)), call(tagger("B"), number(1)))), Value::Boolean(false));
    assert_eq!(result(&eq(tagger("A"), tagger("A"))), Value::Boolean(true));
    assert_eq!(result(&eq(lambda("x", var("x")), lambda("x", var("x")))), Value::Boolean(true));
    assert_eq!(result(&eq(lambda("x", var("x")), lambda("y", var("y")))), Value::Boolean(false));
    assert_eq!(
        result(&eq(call(builtin("plus"), number(1)), call(builtin("plus"), number(1)))),
        Value::Boolean(true)
    );
    let offset = Offsetted { offset: 4, inner: ExprKind::Unit };
    assert_eq!(result(&eq(lambda("x", offset), lambda("x", e(ExprKind::Unit)))), Value::Boolean(false));
}

#[test]
fn ends_of_channels_are_equal_to_nothing() {
    let program = bind(
        "c",
        call(builtin("make_chan"), e(ExprKind::Unit)),
        call2(builtin("eq"), dot(var("c"), "send"), dot(var("c"), "send")),
    );
    assert_eq!(result(&program), Value::Boolean(false));
}

#[test]
fn steps_in_two_portions_are_steps_in_one() {
    let program = fibo(5);
    let mut progress = run(&program, base(), 3, &mut log());
    let mut portions = 1;
    let value = loop {
        match progress {
            Progress::Running(m) => {
                progress = m.carry_on(7, &mut log());
                portions += 1;
            }
            Progress::Done(v) => break v,
            x => panic!("{:?}", x),
        }
    };
    assert_eq!(value, Value::Integer(21));
    assert!(portions > 10);
}

#[test]
fn nothing_is_done_in_no_steps() {
    let program = number(1);
    assert!(matches!(run(&program, base(), 0, &mut log()), Progress::Running(_)));
    assert!(matches!(run(&program, base(), 1, &mut log()), Progress::Running(_)));
    assert!(matches!(run(&program, base(), 2, &mut log()), Progress::Done(Value::Integer(1))));
}

#[test]
fn a_program_writes_through_its_host() {
    let write = |s: &str| call(dot(builtin("stdio"), "write"), text(s));
    let program = block(Block { stmts: vec![write("Hello "), write("world!\n")], term: Some(Box::new(number(7))) });
    let mut written = String::new();
    let mut progress = run(&program, base(), 1000, &mut log());
    let value = loop {
        match progress {
            Progress::Waiting(Request::StdioWrite { text }, s) => {
                written.push_str(&text);
                progress = resume(s, Reply::Done, 1000, &mut log());
            }
            Progress::Done(v) => break v,
            x => panic!("{:?}", x),
        }
    };
    assert_eq!(written, "Hello world!\n");
    assert_eq!(value, Value::Integer(7));
}

#[test]
fn a_machine_can_be_made_to_stop_at_every_request() {
    let program = call(builtin("make_chan"), e(ExprKind::Unit));
    let machine = Machine::new(&program, base());
    match machine.go_on(100) {
        Progress::Waiting(Request::MakeChan, s) => {
            assert!(matches!(
                s.accept(Reply::Sent(true)),
                Err(gardswag::semantics::Fault::UnexpectedReply)
            ));
        }
        x => panic!("{:?}", x),
    }
    let blk = Block { stmts: vec![], term: None };
    assert!(matches!(Machine::of_block(&blk, base()).go_on(100), Progress::Done(Value::Unit)));
}

#[test]
fn a_greater_limit_changes_nothing() {
    let program = fibo(5);
    for limit in [1_000, 10_000, 1_000_000, u64::MAX] {
        match run(&program, base(), limit, &mut log()) {
            Progress::Done(v) => assert_eq!(v, Value::Integer(21)),
            x => panic!("{:?}", x),
        }
    }
}

#[test]
fn a_field_of_an_updated_record() {
    let updated = || update(record(vec![("a", number(1)), ("b", number(2))]), record(vec![("b", number(3))]));
    assert_eq!(result(&dot(updated(), "a")), Value::Integer(1));
    assert_eq!(result(&dot(updated(), "b")), Value::Integer(3));
}

#[test]
fn equality_is_symmetric_and_transitive() {
    let values = [
        Value::Unit,
        Value::Boolean(true),
        Value::Integer(1),
        Value::PureString("1".to_string()),
        Value::Tagger { key: "A" },
        Value::Tagged { key: "A", value: Box::new(Value::Unit) },
        Value::from(Builtin::Plus),
        Value::Record(fields(vec![("a", Value::Integer(1))])),
    ];
    for (i, a) in values.iter().enumerate() {
        for (j, b) in values.iter().enumerate() {
            assert_eq!(a == b, i == j);
            assert_eq!(a == b, b == a);
        }
    }
}

#[test]
fn of_two_saved_variables_with_one_name_the_later_counts() {
    let program = var("x");
    let mut stack = VarStack::new();
    stack.push("x", Value::Integer(0));
    let saved = vec![("x", Value::Integer(1)), ("x", Value::Integer(2))];
    assert!(matches!(run_stacksave(&program, stack, saved, 100, &mut log()), Progress::Done(Value::Integer(2))));
}
