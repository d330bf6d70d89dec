//! Evaluation in single steps computes what programs mean.
use crate::names::NameMap;
use crate::semantics::{
    ask, call, captured, eval, eval_block, eval_call, eval_fields, eval_parts, field, select, settled, shown, updated,
    Answer, Called, Choice, Fault, Io, Scope,
};
use crate::small_step::{advance, step, Control, Frame, Next, State, Status};
use crate::syntax::{Block, Expr, ExprKind};
use crate::value::Val;
use vstd::prelude::*;

verus! {

/// Steps that are taken in two portions lead where they lead in one.
pub proof fn law_steps_add<'a>(m: nat, n: nat, s: State<'a>, io: Io<'a>)
    ensures
        advance(m + n, s, io) == (match advance(m, s, io) {
            (Status::Running(t), io1) => advance(n, t, io1),
            r => r,
        }),
    decreases m,
{
    if m > 0 {
        match step(s) {
            Next::Go(t) => {
                law_steps_add((m - 1) as nat, n, t, io);
            },
            Next::Ask(q, frames, scope) => {
                match ask(q, io) {
                    (Answer::Value(v), io1) => {
                        law_steps_add((m - 1) as nat, n, State { control: Control::Return(v), frames, scope }, io1);
                    },
                    _ => {},
                }
            },
            _ => {},
        }
    }
}

/// The steps from a state lead to an answer; a value comes back to the given frames and scope, and
/// where the answer lies deeper, at least `depth` steps are taken without an end.
pub open spec fn leads_to<'a>(
    depth: nat,
    s: State<'a>,
    io: Io<'a>,
    r: (Answer<'a>, Io<'a>),
    frames: Seq<Frame<'a>>,
    scope: Scope<'a>,
) -> bool {
    match r.0 {
        Answer::Value(v) => exists|n: nat|
            #[trigger] advance(n, s, io) == (
                Status::Running(State { control: Control::Return(v), frames, scope }),
                r.1,
            ),
        Answer::Fault(f) => exists|n: nat| #[trigger] advance(n, s, io) == (Status::<'a>::Fault(f), r.1),
        Answer::Waiting(q) => exists|n: nat|
            (#[trigger] advance(n, s, io)).0 matches Status::Waiting(p, _, _) && p == q && advance(n, s, io).1 == r.1,
        Answer::Deep => advance(depth, s, io).0 is Running,
    }
}

/// What the steps lead to after some steps, they lead to from the start.
proof fn lemma_after<'a>(
    n: nat,
    d: nat,
    s: State<'a>,
    io: Io<'a>,
    t: State<'a>,
    io1: Io<'a>,
    r: (Answer<'a>, Io<'a>),
    frames: Seq<Frame<'a>>,
    scope: Scope<'a>,
)
    requires
        advance(n, s, io) == (Status::Running(t), io1),
        leads_to(d, t, io1, r, frames, scope),
    ensures
        leads_to(n + d, s, io, r, frames, scope),
{
    match r.0 {
        Answer::Value(v) => {
            let k = choose|k: nat|
                #[trigger] advance(k, t, io1) == (
                    Status::Running(State { control: Control::Return(v), frames, scope }),
                    r.1,
                );
            law_steps_add(n, k, s, io);
            assert(advance(n + k, s, io) == (
                Status::Running(State { control: Control::Return(v), frames, scope }),
                r.1,
            ));
        },
        Answer::Fault(f) => {
            let k = choose|k: nat| #[trigger] advance(k, t, io1) == (Status::<'a>::Fault(f), r.1);
            law_steps_add(n, k, s, io);
            assert(advance(n + k, s, io) == (Status::<'a>::Fault(f), r.1));
        },
        Answer::Waiting(q) => {
            let k = choose|k: nat|
                (#[trigger] advance(k, t, io1)).0 matches Status::Waiting(p, _, _) && p == q && advance(k, t, io1).1
                    == r.1;
            law_steps_add(n, k, s, io);
            assert(advance(n + k, s, io) == advance(k, t, io1));
        },
        Answer::Deep => {
            law_steps_add(n, d, s, io);
        },
    }
}

/// An evaluation that takes more steps without an end takes fewer without one.
proof fn lemma_shallower<'a>(
    d: nat,
    e: nat,
    s: State<'a>,
    io: Io<'a>,
    r: (Answer<'a>, Io<'a>),
    frames: Seq<Frame<'a>>,
    scope: Scope<'a>,
)
    requires
        leads_to(d, s, io, r, frames, scope),
        e <= d,
    ensures
        leads_to(e, s, io, r, frames, scope),
{
    if r.0 is Deep {
        law_steps_add(e, (d - e) as nat, s, io);
    }
}

/// One step, then the rest.
proof fn lemma_step<'a>(
    d: nat,
    s: State<'a>,
    io: Io<'a>,
    t: State<'a>,
    r: (Answer<'a>, Io<'a>),
    frames: Seq<Frame<'a>>,
    scope: Scope<'a>,
)
    requires
        step(s) == Next::Go(t),
        leads_to(d, t, io, r, frames, scope),
    ensures
        leads_to(d + 1, s, io, r, frames, scope),
{
    assert(advance(0, t, io) == (Status::Running(t), io));
    assert(advance(1, s, io) == (Status::Running(t), io));
    lemma_after(1, d, s, io, t, io, r, frames, scope);
}

/// One step to a value.
proof fn lemma_value<'a>(s: State<'a>, io: Io<'a>, v: Val<'a>, depth: nat)
    requires
        step(s) == Next::Go(State { control: Control::Return(v), frames: s.frames, scope: s.scope }),
    ensures
        leads_to(depth, s, io, (Answer::Value(v), io), s.frames, s.scope),
{
    let t = State { control: Control::Return(v), frames: s.frames, scope: s.scope };
    assert(advance(0, t, io) == (Status::Running(t), io));
    assert(advance(1, s, io) == (Status::Running(t), io));
}

/// One step to a fault.
proof fn lemma_fault<'a>(
    s: State<'a>,
    io: Io<'a>,
    f: Fault,
    depth: nat,
    frames: Seq<Frame<'a>>,
    scope: Scope<'a>,
)
    requires
        step(s) == Next::<'a>::Fault(f),
    ensures
        leads_to(depth, s, io, (Answer::Fault(f), io), frames, scope),
{
    assert(advance(1, s, io) == (Status::<'a>::Fault(f), io));
}

/// A value comes back to a frame; one step later the rest follows.
proof fn lemma_return<'a>(
    d: nat,
    s: State<'a>,
    io: Io<'a>,
    v: Val<'a>,
    io1: Io<'a>,
    inner: Seq<Frame<'a>>,
    scope: Scope<'a>,
    t: State<'a>,
    r: (Answer<'a>, Io<'a>),
    frames: Seq<Frame<'a>>,
    outer: Scope<'a>,
)
    requires
        leads_to(d, s, io, (Answer::Value(v), io1), inner, scope),
        step(State { control: Control::Return(v), frames: inner, scope }) == Next::Go(t),
        leads_to(d, t, io1, r, frames, outer),
    ensures
        leads_to(d, s, io, r, frames, outer),
{
    let u = State { control: Control::Return(v), frames: inner, scope };
    lemma_step(d, u, io1, t, r, frames, outer);
    let n = choose|n: nat| #[trigger] advance(n, s, io) == (Status::Running(u), io1);
    lemma_after(n, d + 1, s, io, u, io1, r, frames, outer);
    lemma_shallower(n + d + 1, d, s, io, r, frames, outer);
}

/// A value comes back to a frame that cannot take it.
proof fn lemma_return_fault<'a>(
    d: nat,
    s: State<'a>,
    io: Io<'a>,
    v: Val<'a>,
    io1: Io<'a>,
    inner: Seq<Frame<'a>>,
    scope: Scope<'a>,
    f: Fault,
    frames: Seq<Frame<'a>>,
    outer: Scope<'a>,
)
    requires
        leads_to(d, s, io, (Answer::Value(v), io1), inner, scope),
        step(State { control: Control::Return(v), frames: inner, scope }) == Next::<'a>::Fault(f),
    ensures
        leads_to(d, s, io, (Answer::Fault(f), io1), frames, outer),
{
    let u = State { control: Control::Return(v), frames: inner, scope };
    lemma_fault(u, io1, f, 0, frames, outer);
    let n = choose|n: nat| #[trigger] advance(n, s, io) == (Status::Running(u), io1);
    lemma_after(n, 0, s, io, u, io1, (Answer::Fault(f), io1), frames, outer);
}

/// What is evaluated in an inner scope comes back to the outer one.
proof fn lemma_leave<'a>(
    d: nat,
    s: State<'a>,
    io: Io<'a>,
    r: (Answer<'a>, Io<'a>),
    frames: Seq<Frame<'a>>,
    scope: Scope<'a>,
    inner: Scope<'a>,
    kept: Option<Val<'a>>,
)
    requires
        leads_to(d, s, io, r, frames.push(Frame::Leave { scope, kept }), inner),
    ensures
        leads_to(d, s, io, r, frames, scope),
{
    match r.0 {
        Answer::Value(v) => {
            let pushed = frames.push(Frame::Leave { scope, kept });
            assert(pushed.drop_last() =~= frames);
            let t = State { control: Control::Return(v), frames, scope };
            assert(advance(0, t, r.1) == (Status::Running(t), r.1));
            lemma_return(d, s, io, v, r.1, pushed, inner, t, r, frames, scope);
        },
        _ => {},
    }
}

/// The steps into an expression lead to what it means; a value comes back to the frames and the scope
/// that were there before.
pub proof fn law_evaluation_comes_back<'a>(depth: nat, e: Expr, scope: Scope<'a>, io: Io<'a>, frames: Seq<Frame<'a>>)
    ensures
        leads_to(
            depth,
            State { control: Control::Eval(e), frames, scope },
            io,
            eval(depth, e, scope, io),
            frames,
            scope,
        ),
    decreases depth,
{
    let s = State { control: Control::Eval(e), frames, scope };
    if depth > 0 {
        let d = (depth - 1) as nat;
        let r = eval(depth, e, scope, io);
        match e.inner {
            ExprKind::Let { lhs, rhs, rest } => {
                let inner = frames.push(Frame::Bind { name: lhs.inner@, rest });
                assert(inner.drop_last() =~= frames);
                law_evaluation_comes_back(d, *rhs, scope, io, inner);
                let t = State { control: Control::Eval(*rhs), frames: inner, scope };
                match eval(d, *rhs, scope, io) {
                    (Answer::Value(v), io1) => {
                        let bound = scope.insert(lhs.inner@, v);
                        let leave = frames.push(Frame::Leave { scope, kept: None });
                        law_block_comes_back(d, rest, 0, bound, io1, leave);
                        let u = State { control: Control::Block(rest, 0), frames: leave, scope: bound };
                        lemma_leave(d, u, io1, r, frames, scope, bound, None);
                        lemma_return(d, t, io, v, io1, inner, scope, u, r, frames, scope);
                    },
                    _ => {},
                }
                lemma_step(d, s, io, t, r, frames, scope);
            },
            ExprKind::Block(blk) => {
                law_block_comes_back(d, blk, 0, scope, io, frames);
                lemma_step(d, s, io, State { control: Control::Block(blk, 0), frames, scope }, r, frames, scope);
            },
            ExprKind::If { cond, then_blk, or_else } => {
                let inner = frames.push(Frame::Branch { then_blk, or_else });
                assert(inner.drop_last() =~= frames);
                law_evaluation_comes_back(d, *cond, scope, io, inner);
                let t = State { control: Control::Eval(*cond), frames: inner, scope };
                match eval(d, *cond, scope, io) {
                    (Answer::Value(Val::Boolean(b)), io1) => {
                        let blk = if b {
                            then_blk
                        } else {
                            or_else
                        };
                        law_block_comes_back(d, blk, 0, scope, io1, frames);
                        let u = State { control: Control::Block(blk, 0), frames, scope };
                        lemma_return(d, t, io, Val::Boolean(b), io1, inner, scope, u, r, frames, scope);
                    },
                    (Answer::Value(v), io1) => {
                        lemma_return_fault(
                            d,
                            t,
                            io,
                            v,
                            io1,
                            inner,
                            scope,
                            Fault::ConditionNotBoolean,
                            frames,
                            scope,
                        );
                    },
                    _ => {},
                }
                lemma_step(d, s, io, t, r, frames, scope);
            },
            ExprKind::Lambda { arg, body } => {
                lemma_value(
                    s,
                    io,
                    Val::Lambda { arg: arg@, body: *body, saved: captured(scope, arg@, *body) },
                    depth,
                );
            },
            ExprKind::Call { prim, arg } => {
                let inner = frames.push(Frame::Argument { prim: *prim });
                assert(inner.drop_last() =~= frames);
                law_evaluation_comes_back(d, *arg, scope, io, inner);
                let t = State { control: Control::Eval(*arg), frames: inner, scope };
                match eval(d, *arg, scope, io) {
                    (Answer::Value(v_arg), io1) => {
                        let second = frames.push(Frame::Callee { arg: v_arg });
                        assert(second.drop_last() =~= frames);
                        law_evaluation_comes_back(d, *prim, scope, io1, second);
                        let u = State { control: Control::Eval(*prim), frames: second, scope };
                        match eval(d, *prim, scope, io1) {
                            (Answer::Value(v_prim), io2) => {
                                lemma_call(d, v_prim, v_arg, scope, io2, frames);
                                let w = State { control: Control::Call(v_prim, v_arg), frames, scope };
                                lemma_return(d, u, io1, v_prim, io2, second, scope, w, r, frames, scope);
                            },
                            _ => {},
                        }
                        lemma_return(d, t, io, v_arg, io1, inner, scope, u, r, frames, scope);
                    },
                    _ => {},
                }
                lemma_step(d, s, io, t, r, frames, scope);
            },
            ExprKind::Dot { prim, key } => {
                let inner = frames.push(Frame::Dot { key: key.inner@ });
                assert(inner.drop_last() =~= frames);
                law_evaluation_comes_back(d, *prim, scope, io, inner);
                let t = State { control: Control::Eval(*prim), frames: inner, scope };
                match eval(d, *prim, scope, io) {
                    (Answer::Value(v), io1) => {
                        lemma_settle(d, t, io, v, io1, inner, frames, scope, field(v, key.inner@));
                    },
                    _ => {},
                }
                lemma_step(d, s, io, t, r, frames, scope);
            },
            ExprKind::Fix { arg, body } => {
                let bound = scope.insert(arg@, Val::FixLambda { arg: arg@, body: *body });
                let leave = frames.push(Frame::Leave { scope, kept: None });
                law_evaluation_comes_back(d, *body, bound, io, leave);
                let t = State { control: Control::Eval(*body), frames: leave, scope: bound };
                lemma_leave(d, t, io, r, frames, scope, bound, None);
                lemma_step(d, s, io, t, r, frames, scope);
            },
            ExprKind::FormatString(parts) => {
                lemma_parts(d, parts@, 0, Seq::empty(), scope, io, frames);
                let t = State { control: Control::Parts(parts@, 0, Seq::empty()), frames, scope };
                lemma_step(d, s, io, t, r, frames, scope);
            },
            ExprKind::Record(fields) => {
                lemma_record(d, fields, 0, Map::empty(), scope, io, frames);
                let t = State { control: Control::Fields(fields, 0, Map::empty()), frames, scope };
                lemma_step(d, s, io, t, r, frames, scope);
            },
            ExprKind::Update { orig, ovrd } => {
                let inner = frames.push(Frame::Original { ovrd: *ovrd });
                assert(inner.drop_last() =~= frames);
                law_evaluation_comes_back(d, *orig, scope, io, inner);
                let t = State { control: Control::Eval(*orig), frames: inner, scope };
                match eval(d, *orig, scope, io) {
                    (Answer::Value(v_orig), io1) => {
                        let second = frames.push(Frame::Override { orig: v_orig });
                        assert(second.drop_last() =~= frames);
                        law_evaluation_comes_back(d, *ovrd, scope, io1, second);
                        let u = State { control: Control::Eval(*ovrd), frames: second, scope };
                        match eval(d, *ovrd, scope, io1) {
                            (Answer::Value(v_ovrd), io2) => {
                                lemma_settle(d, u, io1, v_ovrd, io2, second, frames, scope, updated(v_orig, v_ovrd));
                            },
                            _ => {},
                        }
                        lemma_return(d, t, io, v_orig, io1, inner, scope, u, r, frames, scope);
                    },
                    _ => {},
                }
                lemma_step(d, s, io, t, r, frames, scope);
            },
            ExprKind::Tagger { key } => {
                lemma_value(s, io, Val::Tagger(key@), depth);
            },
            ExprKind::Match { inp, cases } => {
                let inner = frames.push(Frame::Cases { cases: cases@ });
                assert(inner.drop_last() =~= frames);
                law_evaluation_comes_back(d, *inp, scope, io, inner);
                let t = State { control: Control::Eval(*inp), frames: inner, scope };
                match eval(d, *inp, scope, io) {
                    (Answer::Value(v), io1) => match select(cases@, 0, v) {
                        Choice::Taken(i, found) => {
                            let bound = scope.union_prefer_right(found);
                            let leave = frames.push(Frame::Leave { scope, kept: Some(v) });
                            law_evaluation_comes_back(d, cases@[i].body, bound, io1, leave);
                            let u = State { control: Control::Eval(cases@[i].body), frames: leave, scope: bound };
                            lemma_leave(d, u, io1, r, frames, scope, bound, Some(v));
                            lemma_return(d, t, io, v, io1, inner, scope, u, r, frames, scope);
                        },
                        Choice::Stuck(f) => {
                            lemma_return_fault(d, t, io, v, io1, inner, scope, f, frames, scope);
                        },
                    },
                    _ => {},
                }
                lemma_step(d, s, io, t, r, frames, scope);
            },
            ExprKind::Identifier(id) => {
                if scope.contains_key(id@) {
                    match scope[id@] {
                        Val::FixLambda { arg, body } => {
                            let bound = scope.insert(arg, Val::FixLambda { arg, body });
                            let leave = frames.push(Frame::Leave { scope, kept: None });
                            law_evaluation_comes_back(d, body, bound, io, leave);
                            let t = State { control: Control::Eval(body), frames: leave, scope: bound };
                            lemma_leave(d, t, io, r, frames, scope, bound, None);
                            lemma_step(d, s, io, t, r, frames, scope);
                        },
                        v => {
                            lemma_value(s, io, v, depth);
                        },
                    }
                } else {
                    lemma_fault(s, io, Fault::Unbound, depth, frames, scope);
                }
            },
            ExprKind::Unit => {
                lemma_value(s, io, Val::Unit, depth);
            },
            ExprKind::Boolean(b) => {
                lemma_value(s, io, Val::Boolean(b), depth);
            },
            ExprKind::Integer(i) => {
                lemma_value(s, io, Val::Integer(i), depth);
            },
            ExprKind::PureString(x) => {
                lemma_value(s, io, Val::Text(x@), depth);
            },
        }
    }
}

/// A value comes back to a frame that settles what becomes of it.
proof fn lemma_settle<'a>(
    d: nat,
    s: State<'a>,
    io: Io<'a>,
    v: Val<'a>,
    io1: Io<'a>,
    inner: Seq<Frame<'a>>,
    frames: Seq<Frame<'a>>,
    scope: Scope<'a>,
    x: Result<Val<'a>, Fault>,
)
    requires
        leads_to(d, s, io, (Answer::Value(v), io1), inner, scope),
        step(State { control: Control::Return(v), frames: inner, scope }) == (match x {
            Ok(w) => Next::Go(State { control: Control::Return(w), frames, scope }),
            Err(f) => Next::<'a>::Fault(f),
        }),
    ensures
        leads_to(d, s, io, (settled(x), io1), frames, scope),
{
    match x {
        Ok(w) => {
            let t = State { control: Control::Return(w), frames, scope };
            assert(advance(0, t, io1) == (Status::Running(t), io1));
            lemma_return(d, s, io, v, io1, inner, scope, t, (Answer::Value(w), io1), frames, scope);
        },
        Err(f) => {
            lemma_return_fault(d, s, io, v, io1, inner, scope, f, frames, scope);
        },
    }
}

/// The steps into a block lead to what it means.
pub proof fn law_block_comes_back<'a>(
    depth: nat,
    blk: Block,
    i: int,
    scope: Scope<'a>,
    io: Io<'a>,
    frames: Seq<Frame<'a>>,
)
    ensures
        leads_to(
            depth,
            State { control: Control::Block(blk, i), frames, scope },
            io,
            eval_block(depth, blk, i, scope, io),
            frames,
            scope,
        ),
    decreases depth,
{
    let s = State { control: Control::Block(blk, i), frames, scope };
    if depth > 0 {
        let d = (depth - 1) as nat;
        let r = eval_block(depth, blk, i, scope, io);
        if 0 <= i < blk.stmts@.len() {
            let inner = frames.push(Frame::Stmt { blk, next: i + 1 });
            assert(inner.drop_last() =~= frames);
            law_evaluation_comes_back(d, blk.stmts@[i], scope, io, inner);
            let t = State { control: Control::Eval(blk.stmts@[i]), frames: inner, scope };
            match eval(d, blk.stmts@[i], scope, io) {
                (Answer::Value(v), io1) => {
                    law_block_comes_back(d, blk, i + 1, scope, io1, frames);
                    let u = State { control: Control::Block(blk, i + 1), frames, scope };
                    lemma_return(d, t, io, v, io1, inner, scope, u, r, frames, scope);
                },
                _ => {},
            }
            lemma_step(d, s, io, t, r, frames, scope);
        } else {
            match blk.term {
                Some(e) => {
                    law_evaluation_comes_back(d, *e, scope, io, frames);
                    lemma_step(d, s, io, State { control: Control::Eval(*e), frames, scope }, r, frames, scope);
                },
                None => {
                    lemma_value(s, io, Val::Unit, depth);
                },
            }
        }
    }
}

/// The steps into the parts of a format string lead to what they mean.
proof fn lemma_parts<'a>(
    depth: nat,
    parts: Seq<Expr>,
    i: int,
    text: Seq<char>,
    scope: Scope<'a>,
    io: Io<'a>,
    frames: Seq<Frame<'a>>,
)
    ensures
        leads_to(
            depth,
            State { control: Control::Parts(parts, i, text), frames, scope },
            io,
            eval_parts(depth, parts, i, text, scope, io),
            frames,
            scope,
        ),
    decreases depth,
{
    let s = State { control: Control::Parts(parts, i, text), frames, scope };
    if depth > 0 {
        let d = (depth - 1) as nat;
        let r = eval_parts(depth, parts, i, text, scope, io);
        if 0 <= i < parts.len() {
            let inner = frames.push(Frame::Part { parts, next: i + 1, text });
            assert(inner.drop_last() =~= frames);
            law_evaluation_comes_back(d, parts[i], scope, io, inner);
            let t = State { control: Control::Eval(parts[i]), frames: inner, scope };
            match eval(d, parts[i], scope, io) {
                (Answer::Value(v), io1) => match shown(v) {
                    Some(x) => {
                        lemma_parts(d, parts, i + 1, text + x, scope, io1, frames);
                        let u = State { control: Control::Parts(parts, i + 1, text + x), frames, scope };
                        lemma_return(d, t, io, v, io1, inner, scope, u, r, frames, scope);
                    },
                    None => {
                        lemma_return_fault(d, t, io, v, io1, inner, scope, Fault::NotText, frames, scope);
                    },
                },
                _ => {},
            }
            lemma_step(d, s, io, t, r, frames, scope);
        } else {
            lemma_value(s, io, Val::Text(text), depth);
        }
    }
}

/// The steps into the fields of a record lead to what they mean.
proof fn lemma_record<'a>(
    depth: nat,
    fields: NameMap<String, Expr>,
    i: int,
    done: Map<Seq<char>, Val<'a>>,
    scope: Scope<'a>,
    io: Io<'a>,
    frames: Seq<Frame<'a>>,
)
    ensures
        leads_to(
            depth,
            State { control: Control::Fields(fields, i, done), frames, scope },
            io,
            eval_fields(depth, fields, i, done, scope, io),
            frames,
            scope,
        ),
    decreases depth,
{
    let s = State { control: Control::Fields(fields, i, done), frames, scope };
    if depth > 0 {
        let d = (depth - 1) as nat;
        let r = eval_fields(depth, fields, i, done, scope, io);
        if 0 <= i < fields.spine().len() {
            let (key, e) = fields.spine()[i];
            let inner = frames.push(Frame::Field { fields, next: i + 1, done });
            assert(inner.drop_last() =~= frames);
            law_evaluation_comes_back(d, e, scope, io, inner);
            let t = State { control: Control::Eval(e), frames: inner, scope };
            match eval(d, e, scope, io) {
                (Answer::Value(v), io1) => {
                    let more = done.insert(key@, v);
                    lemma_record(d, fields, i + 1, more, scope, io1, frames);
                    let u = State { control: Control::Fields(fields, i + 1, more), frames, scope };
                    lemma_return(d, t, io, v, io1, inner, scope, u, r, frames, scope);
                },
                _ => {},
            }
            lemma_step(d, s, io, t, r, frames, scope);
        } else {
            lemma_value(s, io, Val::Record(done), depth);
        }
    }
}

/// The steps into a call lead to what it means.
proof fn lemma_call<'a>(
    depth: nat,
    prim: Val<'a>,
    arg: Val<'a>,
    scope: Scope<'a>,
    io: Io<'a>,
    frames: Seq<Frame<'a>>,
)
    ensures
        leads_to(
            depth,
            State { control: Control::Call(prim, arg), frames, scope },
            io,
            eval_call(depth, prim, arg, scope, io),
            frames,
            scope,
        ),
    decreases depth,
{
    let s = State { control: Control::Call(prim, arg), frames, scope };
    if depth > 0 {
        let d = (depth - 1) as nat;
        let r = eval_call(depth, prim, arg, scope, io);
        match call(prim, arg) {
            Called::Value(v) => {
                lemma_value(s, io, v, depth);
            },
            Called::Ask(q) => {
                match ask(q, io) {
                    (Answer::Value(v), io1) => {
                        let t = State { control: Control::Return(v), frames, scope };
                        assert(advance(0, t, io1) == (Status::Running(t), io1));
                        assert(advance(1, s, io) == (Status::Running(t), io1));
                    },
                    (Answer::Fault(f), io1) => {
                        assert(advance(1, s, io) == (Status::<'a>::Fault(f), io1));
                    },
                    (_, io1) => {
                        assert(advance(1, s, io) == (Status::Waiting(q, frames, scope), io1));
                    },
                }
            },
            Called::Enter { name, arg, saved, body } => {
                let bound = scope.insert(name, arg).union_prefer_right(saved);
                let leave = frames.push(Frame::Leave { scope, kept: None });
                law_evaluation_comes_back(d, body, bound, io, leave);
                let t = State { control: Control::Eval(body), frames: leave, scope: bound };
                lemma_leave(d, t, io, r, frames, scope, bound, None);
                lemma_step(d, s, io, t, r, frames, scope);
            },
            Called::Stuck(f) => {
                lemma_fault(s, io, f, depth, frames, scope);
            },
        }
    }
}

/// The state in which the evaluation of an expression starts.
pub open spec fn start<'a>(e: Expr, scope: Scope<'a>) -> State<'a> {
    State { control: Control::Eval(e), frames: Seq::empty(), scope }
}

/// The state in which the run of a block starts.
pub open spec fn start_block<'a>(blk: Block, scope: Scope<'a>) -> State<'a> {
    State { control: Control::Block(blk, 0), frames: Seq::empty(), scope }
}

/// The variables in sight where the work of a new thread starts.
pub open spec fn worker_scope<'a>(arg: Seq<char>, saved: Scope<'a>) -> Scope<'a> {
    Map::empty().insert(arg, Val::Unit).union_prefer_right(saved)
}

/// An exchange in which nothing has been asked and no reply will come.
pub open spec fn silence<'a>() -> Io<'a> {
    Io { replies: Seq::empty(), asked: Seq::empty() }
}

/// What a status says about an answer: both have come to the same end, or the same request.
pub open spec fn same_end<'a>(s: (Status<'a>, Io<'a>), r: (Answer<'a>, Io<'a>)) -> bool {
    &&& s.1 == r.1
    &&& match s.0 {
        Status::Running(t) => false,
        Status::Waiting(q, frames, scope) => r.0 == Answer::Waiting(q),
        Status::Done(v) => r.0 == Answer::Value(v),
        Status::Fault(f) => r.0 == Answer::<'a>::Fault(f),
    }
}

/// The steps have come to the end within `n`, and stay there.
pub open spec fn ends_within<'a>(n: nat, s: State<'a>, io: Io<'a>, r: (Answer<'a>, Io<'a>)) -> bool {
    forall|m: nat| n <= m ==> same_end(#[trigger] advance(m, s, io), r)
}

/// What a state without frames leads to, in some number of steps and in every greater one.
proof fn lemma_ends<'a>(depth: nat, s: State<'a>, io: Io<'a>, r: (Answer<'a>, Io<'a>)) -> (n: nat)
    requires
        leads_to(depth, s, io, r, Seq::empty(), s.scope),
        !(r.0 is Deep),
    ensures
        ends_within(n, s, io, r),
{
    let n = match r.0 {
        Answer::Value(v) => {
            let t = State { control: Control::Return(v), frames: Seq::empty(), scope: s.scope };
            let k = choose|k: nat| #[trigger] advance(k, s, io) == (Status::Running(t), r.1);
            law_steps_add(k, 1, s, io);
            assert(advance(1, t, r.1) == (Status::Done(v), r.1));
            k + 1
        },
        Answer::Fault(f) => choose|k: nat| #[trigger] advance(k, s, io) == (Status::<'a>::Fault(f), r.1),
        Answer::Waiting(q) => choose|k: nat|
            (#[trigger] advance(k, s, io)).0 matches Status::Waiting(p, _, _) && p == q && advance(k, s, io).1 == r.1,
        Answer::Deep => 0,
    };
    assert(same_end(advance(n, s, io), r));
    assert forall|m: nat| n <= m implies same_end(#[trigger] advance(m, s, io), r) by {
        law_steps_add(n, (m - n) as nat, s, io);
    }
    n
}

/// Where the steps have come to an end, the meaning of the expression has come to the same end,
/// within as great a depth.
pub proof fn law_steps_compute_meaning<'a>(n: nat, e: Expr, scope: Scope<'a>, io: Io<'a>)
    ensures
        !(advance(n, start(e, scope), io).0 is Running) ==> same_end(
            advance(n, start(e, scope), io),
            eval(n, e, scope, io),
        ),
{
    let s = start(e, scope);
    law_evaluation_comes_back(n, e, scope, io, Seq::empty());
    if !(advance(n, s, io).0 is Running) {
        let r = eval(n, e, scope, io);
        let k = lemma_ends(n, s, io, r);
        law_steps_add(n, k, s, io);
        assert(same_end(advance(n + k, s, io), r));
    }
}

/// Where the meaning of an expression has an end, the steps come to the same end, and stay there.
pub proof fn law_meaning_is_computed<'a>(depth: nat, e: Expr, scope: Scope<'a>, io: Io<'a>)
    requires
        !(eval(depth, e, scope, io).0 is Deep),
    ensures
        exists|n: nat| ends_within(n, start(e, scope), io, eval(depth, e, scope, io)),
{
    law_evaluation_comes_back(depth, e, scope, io, Seq::empty());
    let n = lemma_ends(depth, start(e, scope), io, eval(depth, e, scope, io));
    assert(ends_within(n, start(e, scope), io, eval(depth, e, scope, io)));
}

/// Where the steps through a block have come to an end, the meaning of the block has come to the same
/// end, within as great a depth.
pub proof fn law_steps_compute_meaning_of_block<'a>(n: nat, blk: Block, scope: Scope<'a>, io: Io<'a>)
    ensures
        !(advance(n, start_block(blk, scope), io).0 is Running) ==> same_end(
            advance(n, start_block(blk, scope), io),
            eval_block(n, blk, 0, scope, io),
        ),
{
    let s = start_block(blk, scope);
    law_block_comes_back(n, blk, 0, scope, io, Seq::empty());
    if !(advance(n, s, io).0 is Running) {
        let r = eval_block(n, blk, 0, scope, io);
        let k = lemma_ends(n, s, io, r);
        law_steps_add(n, k, s, io);
        assert(same_end(advance(n + k, s, io), r));
    }
}

/// Where the meaning of a block has an end, the steps come to the same end, and stay there.
pub proof fn law_meaning_of_block_is_computed<'a>(depth: nat, blk: Block, scope: Scope<'a>, io: Io<'a>)
    requires
        !(eval_block(depth, blk, 0, scope, io).0 is Deep),
    ensures
        exists|n: nat| ends_within(n, start_block(blk, scope), io, eval_block(depth, blk, 0, scope, io)),
{
    law_block_comes_back(depth, blk, 0, scope, io, Seq::empty());
    let n = lemma_ends(depth, start_block(blk, scope), io, eval_block(depth, blk, 0, scope, io));
    assert(ends_within(n, start_block(blk, scope), io, eval_block(depth, blk, 0, scope, io)));
}

/// The value, the fault or the open request with which the steps end is the one that the expression
/// means, with the same requests made and the same replies left.
pub proof fn law_steps_end_as_the_expression_means<'a>(n: nat, e: Expr, scope: Scope<'a>, io: Io<'a>)
    ensures
        match advance(n, start(e, scope), io) {
            (Status::Running(t), io1) => true,
            (Status::Done(v), io1) => eval(n, e, scope, io) == (Answer::Value(v), io1),
            (Status::Fault(f), io1) => eval(n, e, scope, io) == (Answer::<'a>::Fault(f), io1),
            (Status::Waiting(q, frames, kept), io1) => eval(n, e, scope, io) == (Answer::Waiting(q), io1),
        },
{
    law_steps_compute_meaning(n, e, scope, io);
}

/// So are those with which the steps through a block end, and the block is the expression that it is.
pub proof fn law_steps_end_as_the_block_means<'a>(n: nat, blk: Block, e: Expr, scope: Scope<'a>, io: Io<'a>)
    requires
        e.inner == ExprKind::Block(blk),
    ensures
        match advance(n, start_block(blk, scope), io) {
            (Status::Running(t), io1) => true,
            (Status::Done(v), io1) => eval(n + 1, e, scope, io) == (Answer::Value(v), io1),
            (Status::Fault(f), io1) => eval(n + 1, e, scope, io) == (Answer::<'a>::Fault(f), io1),
            (Status::Waiting(q, frames, kept), io1) => eval(n + 1, e, scope, io) == (Answer::Waiting(q), io1),
        },
{
    law_steps_compute_meaning_of_block(n, blk, scope, io);
}

/// What an expression means, enough steps come to.
pub proof fn law_enough_steps_end<'a>(depth: nat, e: Expr, scope: Scope<'a>, io: Io<'a>) -> (n: nat)
    requires
        !(eval(depth, e, scope, io).0 is Deep),
    ensures
        forall|m: nat|
            n <= m ==> match eval(depth, e, scope, io) {
                (Answer::Value(v), io1) => #[trigger] advance(m, start(e, scope), io) == (Status::Done(v), io1),
                (Answer::Fault(f), io1) => advance(m, start(e, scope), io) == (Status::<'a>::Fault(f), io1),
                (Answer::Waiting(q), io1) => advance(m, start(e, scope), io).0 is Waiting && advance(
                    m,
                    start(e, scope),
                    io,
                ).0->Waiting_0 == q && advance(m, start(e, scope), io).1 == io1,
                (Answer::Deep, io1) => false,
            },
{
    law_evaluation_comes_back(depth, e, scope, io, Seq::empty());
    let n = lemma_ends(depth, start(e, scope), io, eval(depth, e, scope, io));
    assert forall|m: nat| n <= m implies match eval(depth, e, scope, io) {
        (Answer::Value(v), io1) => #[trigger] advance(m, start(e, scope), io) == (Status::Done(v), io1),
        (Answer::Fault(f), io1) => advance(m, start(e, scope), io) == (Status::<'a>::Fault(f), io1),
        (Answer::Waiting(q), io1) => advance(m, start(e, scope), io).0 is Waiting && advance(
            m,
            start(e, scope),
            io,
        ).0->Waiting_0 == q && advance(m, start(e, scope), io).1 == io1,
        (Answer::Deep, io1) => false,
    } by {
        assert(same_end(advance(m, start(e, scope), io), eval(depth, e, scope, io)));
    }
    n
}

} // verus!
