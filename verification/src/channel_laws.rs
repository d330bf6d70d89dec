//! What programs get from channels: runs that make a channel, send through it and receive from it.
use crate::adequacy::{law_steps_compute_meaning, same_end, start};
use crate::chan::{held, joined, kept_open, unshared, ChanCall, ChanRx, ChanTx};
use crate::exchange::{asked_by, comes_to, performed, replies_of, requests_of};
use crate::meaning::law_deeper_means_the_same;
use crate::semantics::{answer, ask, call, eval, eval_call, field, kind_of, Answer, Called, Io, Req, Scope};
use crate::small_step::{advance, Status};
use crate::syntax::{Expr, ExprKind};
use crate::value::{arity, Builtin, Val};
use vstd::prelude::*;

verus! {

/// What a literal, a variable, or a field of a field of a variable is.
pub open spec fn simple<'a>(e: Expr, scope: Scope<'a>) -> Option<Val<'a>>
    decreases e,
{
    match e.inner {
        ExprKind::Unit => Some(Val::Unit),
        ExprKind::Boolean(b) => Some(Val::Boolean(b)),
        ExprKind::Integer(i) => Some(Val::Integer(i)),
        ExprKind::PureString(s) => Some(Val::Text(s@)),
        ExprKind::Identifier(id) => if scope.contains_key(id@) && !(scope[id@] is FixLambda) {
            Some(scope[id@])
        } else {
            None
        },
        ExprKind::Dot { prim, key } => match simple(*prim, scope) {
            Some(v) => match field(v, key.inner@) {
                Ok(x) => Some(x),
                Err(_) => None,
            },
            None => None,
        },
        _ => None,
    }
}

/// How deep such an expression is.
spec fn depth_of(e: Expr) -> nat
    decreases e,
{
    match e.inner {
        ExprKind::Dot { prim, key } => depth_of(*prim) + 1,
        _ => 1,
    }
}

proof fn lemma_simple<'a>(d: nat, e: Expr, scope: Scope<'a>, io: Io<'a>)
    requires
        simple(e, scope) is Some,
        depth_of(e) <= d,
    ensures
        eval(d, e, scope, io) == (Answer::Value(simple(e, scope)->Some_0), io),
    decreases e,
{
    match e.inner {
        ExprKind::Dot { prim, key } => {
            lemma_simple((d - 1) as nat, *prim, scope, io);
        },
        _ => {},
    }
}

/// `std.make_chan ()`: a call of the builtin function with unit, wherever the function is found.
pub open spec fn makes_channel<'a>(e: Expr, scope: Scope<'a>) -> bool {
    e.inner matches ExprKind::Call { prim, arg } && simple(*prim, scope) == Some(
        Val::<'a>::Builtin(Builtin::MakeChan, Seq::empty()),
    ) && simple(*arg, scope) == Some(Val::<'a>::Unit)
}

/// `std.chan_send v c.send`: a call of the builtin function with a value and then a sending end.
pub open spec fn sends<'a>(e: Expr, scope: Scope<'a>, v: Val<'a>, tx: ChanTx<'a>) -> bool {
    e.inner matches ExprKind::Call { prim, arg } && simple(*arg, scope) == Some(Val::ChanSend(tx)) && (
    prim.inner matches ExprKind::Call { prim: f, arg: x } && simple(*f, scope) == Some(
        Val::<'a>::Builtin(Builtin::ChanSend, Seq::empty()),
    ) && simple(*x, scope) == Some(v))
}

/// `std.chan_recv c.recv`: a call of the builtin function with a receiving end.
pub open spec fn receives<'a>(e: Expr, scope: Scope<'a>, rx: ChanRx<'a>) -> bool {
    e.inner matches ExprKind::Call { prim, arg } && simple(*prim, scope) == Some(
        Val::<'a>::Builtin(Builtin::ChanRecv, Seq::empty()),
    ) && simple(*arg, scope) == Some(Val::ChanRecv(rx))
}

/// The meaning of the expression is the request.
spec fn asks<'a>(d: nat, e: Expr, scope: Scope<'a>, q: Req<'a>) -> bool {
    forall|io: Io<'a>| #[trigger] eval(d, e, scope, io) == ask(q, io)
}

proof fn lemma_call_of_simple<'a>(e: Expr, scope: Scope<'a>, q: Req<'a>) -> (d: nat)
    requires
        e.inner is Call,
        simple(*e.inner->Call_prim, scope) is Some,
        simple(*e.inner->Call_arg, scope) is Some,
        call(simple(*e.inner->Call_prim, scope)->Some_0, simple(*e.inner->Call_arg, scope)->Some_0) == Called::Ask(q),
    ensures
        asks(d, e, scope, q),
{
    let prim = *e.inner->Call_prim;
    let arg = *e.inner->Call_arg;
    let c = depth_of(prim) + depth_of(arg) + 1;
    assert forall|io: Io<'a>| #[trigger] eval(c + 1, e, scope, io) == ask(q, io) by {
        lemma_simple(c, arg, scope, io);
        lemma_simple(c, prim, scope, io);
        let (f, x) = (simple(prim, scope)->Some_0, simple(arg, scope)->Some_0);
        assert(eval_call(c, f, x, scope, io) == ask(q, io));
    }
    c + 1
}

proof fn lemma_make_asks<'a>(e: Expr, scope: Scope<'a>) -> (d: nat)
    requires
        makes_channel(e, scope),
    ensures
        asks(d, e, scope, Req::MakeChan),
{
    let none = Seq::<Val<'a>>::empty();
    assert(none.push(Val::Unit).len() == arity(Builtin::MakeChan));
    lemma_call_of_simple(e, scope, Req::MakeChan)
}

proof fn lemma_receive_asks<'a>(e: Expr, scope: Scope<'a>, rx: ChanRx<'a>) -> (d: nat)
    requires
        receives(e, scope, rx),
    ensures
        asks(d, e, scope, Req::ChanRecv(rx)),
{
    let none = Seq::<Val<'a>>::empty();
    assert(none.push(Val::ChanRecv(rx)).len() == arity(Builtin::ChanRecv));
    lemma_call_of_simple(e, scope, Req::ChanRecv(rx))
}

proof fn lemma_send_asks<'a>(e: Expr, scope: Scope<'a>, v: Val<'a>, tx: ChanTx<'a>) -> (d: nat)
    requires
        sends(e, scope, v, tx),
    ensures
        asks(d, e, scope, Req::ChanSend(tx, v)),
{
    let half = *e.inner->Call_prim;
    let end = *e.inner->Call_arg;
    let f = *half.inner->Call_prim;
    let x = *half.inner->Call_arg;
    let c = depth_of(f) + depth_of(x) + depth_of(end) + 1;
    let q = Req::ChanSend(tx, v);
    let none = Seq::<Val<'a>>::empty();
    let one = none.push(v);
    let waiting = Val::Builtin(Builtin::ChanSend, one);
    assert(call(Val::Builtin(Builtin::ChanSend, none), v) == Called::Value(waiting));
    assert(one.push(Val::ChanSend(tx)).len() == arity(Builtin::ChanSend));
    assert(call(waiting, Val::ChanSend(tx)) == Called::Ask(q));
    assert forall|io: Io<'a>| #[trigger] eval(c + 2, e, scope, io) == ask(q, io) by {
        lemma_simple(c + 1, end, scope, io);
        lemma_simple(c, x, scope, io);
        lemma_simple(c, f, scope, io);
        assert(eval_call(c, Val::Builtin(Builtin::ChanSend, none), v, scope, io) == (Answer::Value(waiting), io));
        assert(eval(c + 1, half, scope, io) == (Answer::Value(waiting), io));
        assert(eval_call(c + 1, waiting, Val::ChanSend(tx), scope, io) == ask(q, io));
    }
    c + 2
}

/// A run of such a program makes one call, and its value is the answer.
proof fn lemma_one_call<'a>(
    d: nat,
    n: nat,
    e: Expr,
    scope: Scope<'a>,
    before: Seq<ChanCall<'a>>,
    calls: Seq<ChanCall<'a>>,
    value: Val<'a>,
    q: Req<'a>,
)
    requires
        asks(d, e, scope, q),
        comes_to(n, start(e, scope), before, calls, Status::Done(value)),
    ensures
        calls.len() == 1,
        calls[0].0 == q,
        answer(kind_of(q), calls[0].1) == Some(value),
        performed(before, q, calls[0].1),
{
    let io = Io { replies: replies_of(calls), asked: Seq::empty() };
    let m = if d < n {
        n
    } else {
        d
    };
    law_steps_compute_meaning(n, e, scope, io);
    assert(same_end(advance(n, start(e, scope), io), eval(n, e, scope, io)));
    law_deeper_means_the_same(n, m, e, scope, io);
    assert(eval(d, e, scope, io) == ask(q, io));
    law_deeper_means_the_same(d, m, e, scope, io);
    assert(ask(q, io) == (
        Answer::Value(value),
        Io { replies: Seq::empty(), asked: asked_by(calls, Status::Done(value)) },
    ));
    assert(io.replies.len() > 0);
    assert(io.replies.drop_first().len() == 0);
    assert(requests_of(calls) == io.asked.push(q));
    assert(requests_of(calls)[0] == calls[0].0);
    assert(before + calls.take(0) =~= before);
    assert(performed(before + calls.take(0), calls[0].0, calls[0].1));
}

/// A run of a program that came to its end.
pub struct Ran<'a> {
    pub steps: nat,
    pub expr: Expr,
    pub scope: Scope<'a>,
    pub calls: Seq<ChanCall<'a>>,
    pub value: Val<'a>,
}

/// The run went so, after the calls before it.
#[verifier::opaque]
pub open spec fn went<'a>(before: Seq<ChanCall<'a>>, r: Ran<'a>) -> bool {
    comes_to(r.steps, start(r.expr, r.scope), before, r.calls, Status::Done(r.value))
}

/// What the log says after some runs.
pub open spec fn log_after<'a>(before: Seq<ChanCall<'a>>, runs: Seq<Ran<'a>>) -> Seq<ChanCall<'a>>
    decreases runs.len(),
{
    if runs.len() == 0 {
        before
    } else {
        log_after(before, runs.drop_last()) + runs.last().calls
    }
}

/// The runs went so, one after the other.
pub open spec fn all_went<'a>(before: Seq<ChanCall<'a>>, runs: Seq<Ran<'a>>) -> bool {
    forall|i: int| 0 <= i < runs.len() ==> went(log_after(before, runs.take(i)), #[trigger] runs[i])
}

/// A run of `std.make_chan ()` gives a record of exactly the two ends of a new channel, which holds
/// nothing.
pub proof fn law_a_run_makes_a_channel<'a>(before: Seq<ChanCall<'a>>, made: Ran<'a>)
    requires
        makes_channel(made.expr, made.scope),
        went(before, made),
    ensures
        exists|tx: ChanTx<'a>, rx: ChanRx<'a>| #[trigger]
            joined(tx, rx) && held(before + made.calls, rx).len() == 0 && made.value == Val::Record(
                Map::empty().insert("send"@, Val::ChanSend(tx)).insert("recv"@, Val::ChanRecv(rx)),
            ),
{
    reveal(went);
    let d = lemma_make_asks(made.expr, made.scope);
    lemma_one_call(d, made.steps, made.expr, made.scope, before, made.calls, made.value, Req::MakeChan);
    let (tx, rx) = (made.calls[0].1->Channel_0, made.calls[0].1->Channel_1);
    assert((before + made.calls).drop_last() =~= before);
    assert((before + made.calls).last() == made.calls[0]);
    assert(joined(tx, rx));
}

/// What a run that sends does.
proof fn lemma_send_run<'a>(log: Seq<ChanCall<'a>>, r: Ran<'a>, v: Val<'a>, tx: ChanTx<'a>, rx: ChanRx<'a>)
    requires
        went(log, r),
        sends(r.expr, r.scope, v, tx),
        joined(tx, rx),
        kept_open(rx),
    ensures
        r.value == Val::<'a>::Boolean(true),
        held(log + r.calls, rx) == held(log, rx).push(v),
{
    reveal(went);
    let d = lemma_send_asks(r.expr, r.scope, v, tx);
    lemma_one_call(d, r.steps, r.expr, r.scope, log, r.calls, r.value, Req::ChanSend(tx, v));
    assert((log + r.calls).drop_last() =~= log);
    assert((log + r.calls).last() == r.calls[0]);
}

/// What a run that receives does.
proof fn lemma_receive_run<'a>(log: Seq<ChanCall<'a>>, r: Ran<'a>, rx: ChanRx<'a>)
    requires
        went(log, r),
        receives(r.expr, r.scope, rx),
        unshared(rx),
        held(log, rx).len() > 0,
    ensures
        r.value == Val::Tagged("Some"@, Box::new(held(log, rx)[0])),
        held(log + r.calls, rx) == held(log, rx).drop_first(),
{
    reveal(went);
    let d = lemma_receive_asks(r.expr, r.scope, rx);
    lemma_one_call(d, r.steps, r.expr, r.scope, log, r.calls, r.value, Req::ChanRecv(rx));
    assert((log + r.calls).drop_last() =~= log);
    assert((log + r.calls).last() == r.calls[0]);
}

/// What the channel holds after some of the sends.
#[verifier::spinoff_prover]
#[verifier::rlimit(60)]
proof fn lemma_sends<'a>(
    before: Seq<ChanCall<'a>>,
    runs: Seq<Ran<'a>>,
    values: Seq<Val<'a>>,
    tx: ChanTx<'a>,
    rx: ChanRx<'a>,
    m: int,
)
    requires
        0 <= m <= values.len() <= runs.len(),
        joined(tx, rx),
        kept_open(rx),
        held(before, rx).len() == 0,
        all_went(before, runs),
        forall|i: int| 0 <= i < values.len() ==> sends((#[trigger] runs[i]).expr, runs[i].scope, values[i], tx),
    ensures
        held(log_after(before, runs.take(m)), rx) == values.take(m),
        forall|i: int| 0 <= i < m ==> (#[trigger] runs[i]).value == Val::<'a>::Boolean(true),
    decreases m,
{
    if m == 0 {
        assert(held(before, rx) =~= values.take(0));
    } else {
        let k = m - 1;
        lemma_sends(before, runs, values, tx, rx, k);
        let log = log_after(before, runs.take(k));
        let r = runs[k];
        assert(went(log, r));
        lemma_send_run(log, r, values[k], tx, rx);
        assert(runs.take(m).drop_last() =~= runs.take(k));
        assert(values.take(m) =~= values.take(k).push(values[k]));
    }
}

/// What the channel holds after some of the receives.
#[verifier::spinoff_prover]
#[verifier::rlimit(60)]
proof fn lemma_receives<'a>(
    before: Seq<ChanCall<'a>>,
    runs: Seq<Ran<'a>>,
    values: Seq<Val<'a>>,
    tx: ChanTx<'a>,
    rx: ChanRx<'a>,
    m: int,
)
    requires
        0 <= m <= values.len(),
        runs.len() == 2 * values.len(),
        joined(tx, rx),
        unshared(rx),
        kept_open(rx),
        held(before, rx).len() == 0,
        all_went(before, runs),
        forall|i: int| 0 <= i < values.len() ==> sends((#[trigger] runs[i]).expr, runs[i].scope, values[i], tx),
        forall|i: int| values.len() <= i < runs.len() ==> receives((#[trigger] runs[i]).expr, runs[i].scope, rx),
    ensures
        held(log_after(before, runs.take(values.len() + m)), rx) == values.skip(m),
        forall|i: int|
            0 <= i < m ==> runs[values.len() + i].value == Val::Tagged("Some"@, Box::new(#[trigger] values[i])),
    decreases m,
{
    let n = values.len() as int;
    if m == 0 {
        lemma_sends(before, runs, values, tx, rx, n);
        assert(values.take(n) =~= values.skip(0));
    } else {
        let k = m - 1;
        lemma_receives(before, runs, values, tx, rx, k);
        let log = log_after(before, runs.take(n + k));
        let r = runs[n + k];
        assert(went(log, r));
        assert(values.skip(k)[0] == values[k]);
        lemma_receive_run(log, r, rx);
        assert(runs.take(n + m).drop_last() =~= runs.take(n + k));
        assert(values.skip(m) =~= values.skip(k).drop_first());
        assert forall|i: int| 0 <= i < m implies runs[n + i].value == Val::Tagged(
            "Some"@,
            Box::new(#[trigger] values[i]),
        ) by {
            if i == k {
                assert(r.value == Val::Tagged("Some"@, Box::new(values[k])));
            }
        }
    }
}

/// Runs that send values through a channel which holds nothing, is kept open, and is used by nobody
/// else are each told that the value was accepted; as many runs that then receive from it get the
/// values in the order in which they were sent, each once.
pub proof fn law_runs_receive_what_runs_sent<'a>(
    before: Seq<ChanCall<'a>>,
    runs: Seq<Ran<'a>>,
    values: Seq<Val<'a>>,
    tx: ChanTx<'a>,
    rx: ChanRx<'a>,
)
    requires
        runs.len() == 2 * values.len(),
        joined(tx, rx),
        unshared(rx),
        kept_open(rx),
        held(before, rx).len() == 0,
        all_went(before, runs),
        forall|i: int| 0 <= i < values.len() ==> sends((#[trigger] runs[i]).expr, runs[i].scope, values[i], tx),
        forall|i: int| values.len() <= i < runs.len() ==> receives((#[trigger] runs[i]).expr, runs[i].scope, rx),
    ensures
        forall|i: int|
            0 <= i < values.len() ==> runs[i].value == Val::<'a>::Boolean(true) && runs[values.len() + i].value
                == Val::Tagged("Some"@, Box::new(#[trigger] values[i])),
{
    let n = values.len() as int;
    lemma_sends(before, runs, values, tx, rx, n);
    lemma_receives(before, runs, values, tx, rx, n);
}

/// A run makes a channel, one sends a value through its sending end, and one receives from its
/// receiving end: where nobody else uses the channel and it is kept open, the second is told that the
/// value was accepted, and the third gets it.
pub proof fn law_make_send_receive<'a>(
    before: Seq<ChanCall<'a>>,
    made: Ran<'a>,
    sent: Ran<'a>,
    received: Ran<'a>,
    tx: ChanTx<'a>,
    rx: ChanRx<'a>,
    v: Val<'a>,
)
    requires
        makes_channel(made.expr, made.scope),
        went(before, made),
        field(made.value, "send"@) == Ok::<Val<'a>, crate::semantics::Fault>(Val::ChanSend(tx)),
        field(made.value, "recv"@) == Ok::<Val<'a>, crate::semantics::Fault>(Val::ChanRecv(rx)),
        unshared(rx),
        kept_open(rx),
        sends(sent.expr, sent.scope, v, tx),
        went(before + made.calls, sent),
        receives(received.expr, received.scope, rx),
        went(before + made.calls + sent.calls, received),
    ensures
        made.value == Val::Record(
            Map::empty().insert("send"@, Val::ChanSend(tx)).insert("recv"@, Val::ChanRecv(rx)),
        ),
        sent.value == Val::<'a>::Boolean(true),
        received.value == Val::Tagged("Some"@, Box::new(v)),
{
    law_a_run_makes_a_channel(before, made);
    reveal_strlit("send");
    reveal_strlit("recv");
    assert("send"@[0] != "recv"@[0]);
    let (t, r) = choose|t: ChanTx<'a>, r: ChanRx<'a>| #[trigger]
        joined(t, r) && held(before + made.calls, r).len() == 0 && made.value == Val::Record(
            Map::empty().insert("send"@, Val::ChanSend(t)).insert("recv"@, Val::ChanRecv(r)),
        );
    assert(field(made.value, "send"@) == Ok::<Val<'a>, crate::semantics::Fault>(Val::ChanSend(t)));
    assert(field(made.value, "recv"@) == Ok::<Val<'a>, crate::semantics::Fault>(Val::ChanRecv(r)));
    assert(t == tx && r == rx);
    let runs = seq![sent, received];
    let log = before + made.calls;
    assert(runs.take(0) =~= Seq::empty());
    assert(runs.take(1).drop_last() =~= Seq::empty());
    assert(runs.take(1).last() == sent);
    assert(log_after(log, runs.take(1).drop_last()) == log);
    assert(log_after(log, runs.take(1)) == log + sent.calls);
    assert forall|i: int| 0 <= i < runs.len() implies went(log_after(log, runs.take(i)), #[trigger] runs[i]) by {
        if i == 1 {
            assert(runs[i] == received);
        } else {
            assert(runs[i] == sent);
        }
    }
    law_runs_receive_what_runs_sent(log, runs, seq![v], tx, rx);
    assert(seq![v][0] == v);
    assert(runs[0] == sent && runs[1] == received);
}

} // verus!
