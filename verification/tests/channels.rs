use gardswag::chan::{Log, ThreadStart};
use gardswag::interp::{perform, resume, run, run_worker, worker_end, Progress};
use gardswag::machine::{Machine, Reply, Request};
use gardswag::names::NameMap;
use gardswag::semantics::Fault;
use gardswag::stack::VarStack;
use gardswag::syntax::{Case, Expr, ExprKind, Offsetted, Pattern};
use gardswag::value::{Builtin, Value};

struct TestThread;

impl ThreadStart for TestThread {}

fn log<'a>() -> Log<'a> {
    Log::new(TestThread)
}

fn e(inner: ExprKind) -> Expr {
    Offsetted { offset: 0, inner }
}

fn var(s: &str) -> Expr {
    e(ExprKind::Identifier(s.to_string()))
}

fn call(prim: Expr, arg: Expr) -> Expr {
    e(ExprKind::Call { prim: Box::new(prim), arg: Box::new(arg) })
}

fn dot(prim: Expr, key: &str) -> Expr {
    e(ExprKind::Dot { prim: Box::new(prim), key: Offsetted { offset: 0, inner: key.to_string() } })
}

fn stack<'a>() -> VarStack<'a> {
    let mut stack = VarStack::new();
    stack.push("make_chan", Value::from(Builtin::MakeChan));
    stack.push("chan_send", Value::from(Builtin::ChanSend));
    stack.push("chan_recv", Value::from(Builtin::ChanRecv));
    stack.push("spawn_thread", Value::from(Builtin::SpawnThread));
    stack
}

#[test]
fn what_was_sent_is_received_in_order() {
    let mut log = log();
    let (tx, rx) = match perform(Request::MakeChan, &mut log) {
        Ok(Reply::Channel { send, recv }) => (Value::ChanSend(send), Value::ChanRecv(recv)),
        x => panic!("{:?}", x),
    };
    let end = |v: &Value<'static>| match v.clone() {
        Value::ChanSend(tx) => tx,
        x => panic!("{:?}", x),
    };
    let other = |v: &Value<'static>| match v.clone() {
        Value::ChanRecv(rx) => rx,
        x => panic!("{:?}", x),
    };
    for i in 0..3 {
        let sent = perform(Request::ChanSend { chan: end(&tx), value: Value::Integer(i) }, &mut log);
        assert!(matches!(sent, Ok(Reply::Sent(true))));
    }
    for i in 0..3 {
        match perform(Request::ChanRecv { chan: other(&rx) }, &mut log) {
            Ok(Reply::Received(Some(v))) => assert_eq!(v, Value::Integer(i)),
            x => panic!("{:?}", x),
        }
    }
    let last = other(&rx);
    drop(tx);
    assert!(matches!(perform(Request::ChanRecv { chan: last }, &mut log), Ok(Reply::Received(None))));
}

#[test]
fn nothing_is_accepted_where_nobody_can_receive() {
    let tx = match perform(Request::MakeChan, &mut log()) {
        Ok(Reply::Channel { send, .. }) => send,
        x => panic!("{:?}", x),
    };
    let sent = perform(Request::ChanSend { chan: tx, value: Value::Unit }, &mut log());
    assert!(matches!(sent, Ok(Reply::Sent(false))));
}

#[test]
fn other_requests_are_given_back() {
    match perform(Request::StdioWrite { text: "x".to_string() }, &mut log()) {
        Err(Request::StdioWrite { text }) => assert_eq!(text, "x"),
        x => panic!("{:?}", x),
    };
}

#[test]
fn a_program_sends_and_receives() {
    let send = call(call(var("chan_send"), e(ExprKind::Integer(5))), dot(var("c"), "send"));
    let recv = call(var("chan_recv"), dot(var("c"), "recv"));
    let program = e(ExprKind::Let {
        lhs: Offsetted { offset: 0, inner: "c".to_string() },
        rhs: Box::new(call(var("make_chan"), e(ExprKind::Unit))),
        rest: gardswag::syntax::Block { stmts: vec![send], term: Some(Box::new(recv)) },
    });
    match run(&program, stack(), 1000, &mut log()) {
        Progress::Done(Value::Tagged { key, value }) => {
            assert_eq!(key, "Some");
            assert_eq!(*value, Value::Integer(5));
        }
        x => panic!("{:?}", x),
    };
}

#[test]
fn a_program_learns_that_nothing_will_come() {
    let program = call(var("chan_recv"), dot(call(var("make_chan"), e(ExprKind::Unit)), "recv"));
    match run(&program, stack(), 1000, &mut log()) {
        Progress::Done(Value::Tagged { key, value }) => {
            assert_eq!(key, "None");
            assert_eq!(*value, Value::Unit);
        }
        x => panic!("{:?}", x),
    };
}

#[test]
fn a_program_learns_whether_its_value_was_accepted() {
    let program = call(
        call(var("chan_send"), e(ExprKind::Unit)),
        dot(call(var("make_chan"), e(ExprKind::Unit)), "send"),
    );
    assert!(matches!(run(&program, stack(), 1000, &mut log()), Progress::Done(Value::Boolean(false))));
}

#[test]
fn replies_that_were_waited_for_count_as_if_they_had_been_there() {
    let program = call(var("chan_recv"), dot(call(var("make_chan"), e(ExprKind::Unit)), "recv"));
    let (q, s) = match Machine::new(&program, stack()).go_on(1000) {
        Progress::Waiting(q, s) => (q, s),
        x => panic!("{:?}", x),
    };
    let reply = perform(q, &mut log()).unwrap();
    match s.accept(reply).unwrap().go_on(1000) {
        Progress::Waiting(Request::ChanRecv { .. }, s) => {
            match s.accept(Reply::Received(Some(Value::Integer(3)))).unwrap().go_on(1000) {
                Progress::Done(Value::Tagged { key, value }) => {
                    assert_eq!(key, "Some");
                    assert_eq!(*value, Value::Integer(3));
                }
                x => panic!("{:?}", x),
            }
        }
        x => panic!("{:?}", x),
    };
}

#[test]
fn a_worker_sees_what_it_took_along() {
    let body = call(call(var("chan_send"), var("k")), var("tx"));
    let lambda = e(ExprKind::Lambda { arg: "_u".to_string(), body: Box::new(body) });
    let program = call(var("spawn_thread"), lambda);
    let (tx, rx) = match perform(Request::MakeChan, &mut log()) {
        Ok(Reply::Channel { send, recv }) => (send, recv),
        x => panic!("{:?}", x),
    };
    let mut vars = stack();
    vars.push("k", Value::Integer(8));
    vars.push("tx", Value::ChanSend(tx));
    match run(&program, vars, 1000, &mut log()) {
        Progress::Waiting(Request::SpawnThread { argname, f, stacksave }, s) => {
            assert_eq!(argname, "_u");
            match run_worker(argname, f, stacksave, 1000, &mut log()) {
                Progress::Done(v) => {
                    assert_eq!(v, Value::Boolean(true));
                    assert_eq!(worker_end(&v), Err(Fault::WorkerResult));
                }
                x => panic!("{:?}", x),
            }
            assert!(matches!(resume(s, Reply::Done, 1000, &mut log()), Progress::Done(Value::Unit)));
        }
        x => panic!("{:?}", x),
    }
    match perform(Request::ChanRecv { chan: rx }, &mut log()) {
        Ok(Reply::Received(Some(v))) => assert_eq!(v, Value::Integer(8)),
        x => panic!("{:?}", x),
    };
}

#[test]
fn a_worker_is_called_with_unit() {
    let body = var("u");
    match run_worker("u", &body, NameMap::new(), 1000, &mut log()) {
        Progress::Done(v) => {
            assert_eq!(v, Value::Unit);
            assert_eq!(worker_end(&v), Ok(()));
        }
        x => panic!("{:?}", x),
    }
    let mut saved = NameMap::new();
    saved.insert("u", Value::Integer(1));
    assert!(matches!(run_worker("u", &body, saved, 1000, &mut log()), Progress::Done(Value::Integer(1))));
}

#[test]
fn a_reply_of_another_kind_is_refused() {
    let program = call(var("spawn_thread"), e(ExprKind::Lambda { arg: "u".to_string(), body: Box::new(var("u")) }));
    for reply in [Reply::Sent(true), Reply::Received(None)] {
        match run(&program, stack(), 1000, &mut log()) {
            Progress::Waiting(_, s) => {
                assert!(matches!(resume(s, reply, 1000, &mut log()), Progress::Fault(Fault::UnexpectedReply)));
            }
            x => panic!("{:?}", x),
        }
    };
}

#[test]
fn a_worker_does_what_a_call_with_unit_would_do() {
    let body = call(call(var("pair"), var("k")), var("u"));
    let lambda = e(ExprKind::Lambda { arg: "u".to_string(), body: Box::new(body) });
    let program = call(var("f"), e(ExprKind::Unit));
    let mut vars = VarStack::new();
    vars.push("pair", Value::from(Builtin::Eq));
    vars.push("k", Value::Unit);
    let f = match run(&lambda, vars, 1000, &mut log()) {
        Progress::Done(f) => f,
        x => panic!("{:?}", x),
    };
    let mut elsewhere = VarStack::new();
    elsewhere.push("k", Value::Integer(1));
    elsewhere.push("f", f.clone());
    let called = match run(&program, elsewhere, 1000, &mut log()) {
        Progress::Done(v) => v,
        x => panic!("{:?}", x),
    };
    assert_eq!(called, Value::Boolean(true));
    match f {
        Value::Lambda { argname, f, stacksave } => match run_worker(argname, f, stacksave, 1000, &mut log()) {
            Progress::Done(v) => assert_eq!(v, called),
            x => panic!("{:?}", x),
        },
        x => panic!("{:?}", x),
    };
}

#[test]
fn a_program_receives_in_order_each_value_once() {
    let bind = |name: &str, rhs: Expr, rest: Expr| {
        e(ExprKind::Let {
            lhs: Offsetted { offset: 0, inner: name.to_string() },
            rhs: Box::new(rhs),
            rest: gardswag::syntax::Block { stmts: vec![], term: Some(Box::new(rest)) },
        })
    };
    let send = |i: i32| call(call(var("chan_send"), e(ExprKind::Integer(i))), dot(var("c"), "send"));
    let recv = || call(var("chan_recv"), dot(var("c"), "recv"));
    let results = || {
        let mut m = NameMap::new();
        for k in ["s", "t", "x", "y"] {
            m.insert(k.to_string(), var(k));
        }
        e(ExprKind::Record(m))
    };
    let program = bind(
        "c",
        call(var("make_chan"), e(ExprKind::Unit)),
        bind("s", send(5), bind("t", send(6), bind("x", recv(), bind("y", recv(), results())))),
    );
    let some = |i: i32| Value::Tagged { key: "Some", value: Box::new(Value::Integer(i)) };
    match run(&program, stack(), 1000, &mut log()) {
        Progress::Done(Value::Record(m)) => {
            assert_eq!(m.get("s"), Some(&Value::Boolean(true)));
            assert_eq!(m.get("t"), Some(&Value::Boolean(true)));
            assert_eq!(m.get("x"), Some(&some(5)));
            assert_eq!(m.get("y"), Some(&some(6)));
        }
        x => panic!("{:?}", x),
    };
}

#[test]
fn a_matched_value_is_kept_until_the_alternative_is_done() {
    let name = |s: &str| Offsetted { offset: 0, inner: s.to_string() };
    let mut m = NameMap::new();
    m.insert("send".to_string(), Pattern::Identifier(name("s")));
    let pat = Pattern::Record(Offsetted { offset: 0, inner: m });
    let body = call(call(var("chan_send"), e(ExprKind::Integer(1))), var("s"));
    let program = e(ExprKind::Match {
        inp: Box::new(call(var("make_chan"), e(ExprKind::Unit))),
        cases: vec![Case { pat, body }],
    });
    assert!(matches!(run(&program, stack(), 1000, &mut log()), Progress::Done(Value::Boolean(true))));
}
