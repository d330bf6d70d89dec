//! Evaluation in single steps: the states of an evaluation, and how one leads to the next.
use crate::names::NameMap;
use crate::semantics::{
    ask, call, captured, field, select, shown, updated, Answer, Called, Choice, Fault, Io, Req, Scope,
};
use crate::syntax::{Block, Case, Expr, ExprKind};
use crate::value::Val;
use vstd::prelude::*;

verus! {

/// What is left to do with a value that is being evaluated.
pub enum Frame<'a> {
    /// bind it and run the block
    Bind { name: Seq<char>, rest: Block },
    /// go back to the scope, and let go of what was kept until then
    Leave { scope: Scope<'a>, kept: Option<Val<'a>> },
    /// drop it and go on with the block
    Stmt { blk: Block, next: int },
    /// run one of the blocks
    Branch { then_blk: Block, or_else: Block },
    /// keep it as the argument and evaluate the function
    Argument { prim: Expr },
    /// call it with the argument
    Callee { arg: Val<'a> },
    /// take a field of it
    Dot { key: Seq<char> },
    /// write it behind the text and go on with the format string
    Part { parts: Seq<Expr>, next: int, text: Seq<char> },
    /// put it among the fields and go on with the record
    Field { fields: NameMap<String, Expr>, next: int, done: Map<Seq<char>, Val<'a>> },
    /// keep it as the original and evaluate what goes over it
    Original { ovrd: Expr },
    /// put it over the original
    Override { orig: Val<'a> },
    /// pick an alternative
    Cases { cases: Seq<Case> },
}

/// What is being done.
pub enum Control<'a> {
    Eval(Expr),
    Block(Block, int),
    Parts(Seq<Expr>, int, Seq<char>),
    Fields(NameMap<String, Expr>, int, Map<Seq<char>, Val<'a>>),
    Call(Val<'a>, Val<'a>),
    Return(Val<'a>),
}

/// A state of an evaluation.
pub struct State<'a> {
    pub control: Control<'a>,
    pub frames: Seq<Frame<'a>>,
    pub scope: Scope<'a>,
}

/// What a state leads to.
pub enum Next<'a> {
    /// another state
    Go(State<'a>),
    /// a request; its value is then what the frames go on with
    Ask(Req<'a>, Seq<Frame<'a>>, Scope<'a>),
    /// the end, with a value
    Done(Val<'a>),
    /// the end, without one
    Fault(Fault),
}

/// The state with another control.
pub open spec fn go<'a>(control: Control<'a>, frames: Seq<Frame<'a>>, scope: Scope<'a>) -> Next<'a> {
    Next::Go(State { control, frames, scope })
}

/// One step.
pub open spec fn step<'a>(s: State<'a>) -> Next<'a> {
    match s.control {
        Control::Eval(e) => step_eval(e, s.frames, s.scope),
        Control::Block(blk, i) => if 0 <= i < blk.stmts@.len() {
            go(Control::Eval(blk.stmts@[i]), s.frames.push(Frame::Stmt { blk, next: i + 1 }), s.scope)
        } else {
            match blk.term {
                Some(t) => go(Control::Eval(*t), s.frames, s.scope),
                None => go(Control::Return(Val::Unit), s.frames, s.scope),
            }
        },
        Control::Parts(parts, i, text) => if 0 <= i < parts.len() {
            go(Control::Eval(parts[i]), s.frames.push(Frame::Part { parts, next: i + 1, text }), s.scope)
        } else {
            go(Control::Return(Val::Text(text)), s.frames, s.scope)
        },
        Control::Fields(fields, i, done) => if 0 <= i < fields.spine().len() {
            go(
                Control::Eval(fields.spine()[i].1),
                s.frames.push(Frame::Field { fields, next: i + 1, done }),
                s.scope,
            )
        } else {
            go(Control::Return(Val::Record(done)), s.frames, s.scope)
        },
        Control::Call(prim, arg) => match call(prim, arg) {
            Called::Value(v) => go(Control::Return(v), s.frames, s.scope),
            Called::Ask(q) => Next::Ask(q, s.frames, s.scope),
            Called::Enter { name, arg, saved, body } => go(
                Control::Eval(body),
                s.frames.push(Frame::Leave { scope: s.scope, kept: None }),
                s.scope.insert(name, arg).union_prefer_right(saved),
            ),
            Called::Stuck(f) => Next::Fault(f),
        },
        Control::Return(v) => if s.frames.len() == 0 {
            Next::Done(v)
        } else {
            step_return(v, s.frames.last(), s.frames.drop_last(), s.scope)
        },
    }
}

/// One step into an expression.
pub open spec fn step_eval<'a>(e: Expr, frames: Seq<Frame<'a>>, scope: Scope<'a>) -> Next<'a> {
    match e.inner {
        ExprKind::Let { lhs, rhs, rest } => go(
            Control::Eval(*rhs),
            frames.push(Frame::Bind { name: lhs.inner@, rest }),
            scope,
        ),
        ExprKind::Block(blk) => go(Control::Block(blk, 0), frames, scope),
        ExprKind::If { cond, then_blk, or_else } => go(
            Control::Eval(*cond),
            frames.push(Frame::Branch { then_blk, or_else }),
            scope,
        ),
        ExprKind::Lambda { arg, body } => go(
            Control::Return(Val::Lambda { arg: arg@, body: *body, saved: captured(scope, arg@, *body) }),
            frames,
            scope,
        ),
        ExprKind::Call { prim, arg } => go(Control::Eval(*arg), frames.push(Frame::Argument { prim: *prim }), scope),
        ExprKind::Dot { prim, key } => go(Control::Eval(*prim), frames.push(Frame::Dot { key: key.inner@ }), scope),
        ExprKind::Fix { arg, body } => go(
            Control::Eval(*body),
            frames.push(Frame::Leave { scope, kept: None }),
            scope.insert(arg@, Val::FixLambda { arg: arg@, body: *body }),
        ),
        ExprKind::FormatString(parts) => go(Control::Parts(parts@, 0, Seq::empty()), frames, scope),
        ExprKind::Record(fields) => go(Control::Fields(fields, 0, Map::empty()), frames, scope),
        ExprKind::Update { orig, ovrd } => go(
            Control::Eval(*orig),
            frames.push(Frame::Original { ovrd: *ovrd }),
            scope,
        ),
        ExprKind::Tagger { key } => go(Control::Return(Val::Tagger(key@)), frames, scope),
        ExprKind::Match { inp, cases } => go(
            Control::Eval(*inp),
            frames.push(Frame::Cases { cases: cases@ }),
            scope,
        ),
        ExprKind::Identifier(id) => if scope.contains_key(id@) {
            match scope[id@] {
                Val::FixLambda { arg, body } => go(
                    Control::Eval(body),
                    frames.push(Frame::Leave { scope, kept: None }),
                    scope.insert(arg, Val::FixLambda { arg, body }),
                ),
                v => go(Control::Return(v), frames, scope),
            }
        } else {
            Next::Fault(Fault::Unbound)
        },
        ExprKind::Unit => go(Control::Return(Val::Unit), frames, scope),
        ExprKind::Boolean(b) => go(Control::Return(Val::Boolean(b)), frames, scope),
        ExprKind::Integer(i) => go(Control::Return(Val::Integer(i)), frames, scope),
        ExprKind::PureString(s) => go(Control::Return(Val::Text(s@)), frames, scope),
    }
}

/// One step out, with a value, to the innermost frame.
pub open spec fn step_return<'a>(v: Val<'a>, top: Frame<'a>, frames: Seq<Frame<'a>>, scope: Scope<'a>) -> Next<'a> {
    match top {
        Frame::Bind { name, rest } => go(
            Control::Block(rest, 0),
            frames.push(Frame::Leave { scope, kept: None }),
            scope.insert(name, v),
        ),
        Frame::Leave { scope: outer, kept } => go(Control::Return(v), frames, outer),
        Frame::Stmt { blk, next } => go(Control::Block(blk, next), frames, scope),
        Frame::Branch { then_blk, or_else } => match v {
            Val::Boolean(b) => go(
                Control::Block(
                    if b {
                        then_blk
                    } else {
                        or_else
                    },
                    0,
                ),
                frames,
                scope,
            ),
            _ => Next::Fault(Fault::ConditionNotBoolean),
        },
        Frame::Argument { prim } => go(Control::Eval(prim), frames.push(Frame::Callee { arg: v }), scope),
        Frame::Callee { arg } => go(Control::Call(v, arg), frames, scope),
        Frame::Dot { key } => match field(v, key) {
            Ok(x) => go(Control::Return(x), frames, scope),
            Err(f) => Next::Fault(f),
        },
        Frame::Part { parts, next, text } => match shown(v) {
            Some(t) => go(Control::Parts(parts, next, text + t), frames, scope),
            None => Next::Fault(Fault::NotText),
        },
        Frame::Field { fields, next, done } => go(
            Control::Fields(fields, next, done.insert(fields.spine()[next - 1].0@, v)),
            frames,
            scope,
        ),
        Frame::Original { ovrd } => go(Control::Eval(ovrd), frames.push(Frame::Override { orig: v }), scope),
        Frame::Override { orig } => match updated(orig, v) {
            Ok(x) => go(Control::Return(x), frames, scope),
            Err(f) => Next::Fault(f),
        },
        Frame::Cases { cases } => match select(cases, 0, v) {
            Choice::Taken(i, found) => go(
                Control::Eval(cases[i].body),
                frames.push(Frame::Leave { scope, kept: Some(v) }),
                scope.union_prefer_right(found),
            ),
            Choice::Stuck(f) => Next::Fault(f),
        },
    }
}

/// Where an evaluation stands.
pub enum Status<'a> {
    /// at a state from which it goes on
    Running(State<'a>),
    /// at a request to which no reply has come
    Waiting(Req<'a>, Seq<Frame<'a>>, Scope<'a>),
    /// at the end, with a value
    Done(Val<'a>),
    /// at the end, without one
    Fault(Fault),
}

/// Takes `n` steps, or fewer where the evaluation stops before.
pub open spec fn advance<'a>(n: nat, s: State<'a>, io: Io<'a>) -> (Status<'a>, Io<'a>)
    decreases n,
{
    if n == 0 {
        (Status::Running(s), io)
    } else {
        match step(s) {
            Next::Go(t) => advance((n - 1) as nat, t, io),
            Next::Ask(q, frames, scope) => match ask(q, io) {
                (Answer::Value(v), io1) => advance(
                    (n - 1) as nat,
                    State { control: Control::Return(v), frames, scope },
                    io1,
                ),
                (Answer::Fault(f), io1) => (Status::Fault(f), io1),
                (_, io1) => (Status::Waiting(q, frames, scope), io1),
            },
            Next::Done(v) => (Status::Done(v), io),
            Next::Fault(f) => (Status::Fault(f), io),
        }
    }
}

} // verus!
