//! What programs mean: the value that an expression has in a scope, and what evaluating it asks of
//! the host on the way.
use crate::chan::{ChanRx, ChanTx};
use crate::names::NameMap;
use crate::syntax::{accesses, Block, Case, Expr, ExprKind, Pattern};
use crate::text::decimal;
use crate::value::{arity, same, Builtin, Val};
use vstd::prelude::*;

verus! {

/// The variables in sight, with their values.
pub type Scope<'a> = Map<Seq<char>, Val<'a>>;

/// Why a program cannot go on.
#[derive(Clone, Copy, Debug, PartialEq, Eq, Structural)]
pub enum Fault {
    /// a variable that is not in sight
    Unbound,
    /// a condition that is not a boolean
    ConditionNotBoolean,
    /// a call of something that is no function
    NotCallable,
    /// a builtin function that holds more arguments than it takes
    TooManyArguments,
    /// a builtin function with arguments that it does not take
    WrongArgument(Builtin),
    /// a sum, difference or product that does not fit
    Overflow(Builtin),
    /// a field of something that is no record
    NotARecord,
    /// a field that the record does not have
    MissingKey,
    /// a part of a format string that cannot be written as text
    NotText,
    /// a record update of something that is no record
    UpdateOfNonRecord,
    /// a record update by something that is no record
    UpdateByNonRecord,
    /// the unit pattern met something else
    UnitPattern,
    /// no alternative of a match fits
    NoCaseFits,
    /// the host answered with a reply that does not belong to the request
    UnexpectedReply,
    /// a worker thread ended with something else than unit
    WorkerResult,
}

/// What a program asks of its host.
pub enum Req<'a> {
    /// start a thread that calls the function with unit
    SpawnThread { arg: Seq<char>, body: Expr, saved: Scope<'a> },
    /// make a channel
    MakeChan,
    /// send a value
    ChanSend(ChanTx<'a>, Val<'a>),
    /// receive a value
    ChanRecv(ChanRx<'a>),
    /// write a text to the standard output
    StdioWrite(Seq<char>),
}

/// What a host replies.
pub enum Rep<'a> {
    /// it is done
    Done,
    /// the two ends of the new channel
    Channel(ChanTx<'a>, ChanRx<'a>),
    /// whether the value was accepted
    Sent(bool),
    /// the value that came, or none where none will
    Received(Option<Val<'a>>),
}

/// The kinds of requests.
#[derive(Clone, Copy, Debug, PartialEq, Eq, Structural)]
pub enum ReqKind {
    SpawnThread,
    MakeChan,
    ChanSend,
    ChanRecv,
    StdioWrite,
}

/// The kind of a request.
pub open spec fn kind_of<'a>(q: Req<'a>) -> ReqKind {
    match q {
        Req::SpawnThread { arg, body, saved } => ReqKind::SpawnThread,
        Req::MakeChan => ReqKind::MakeChan,
        Req::ChanSend(tx, v) => ReqKind::ChanSend,
        Req::ChanRecv(rx) => ReqKind::ChanRecv,
        Req::StdioWrite(text) => ReqKind::StdioWrite,
    }
}

/// The value that a request has, given the reply; `None` where the reply does not belong to it.
pub open spec fn answer<'a>(kind: ReqKind, r: Rep<'a>) -> Option<Val<'a>> {
    match (kind, r) {
        (ReqKind::SpawnThread, Rep::Done) => Some(Val::Unit),
        (ReqKind::StdioWrite, Rep::Done) => Some(Val::Unit),
        (ReqKind::MakeChan, Rep::Channel(tx, rx)) => Some(
            Val::Record(Map::empty().insert("send"@, Val::ChanSend(tx)).insert("recv"@, Val::ChanRecv(rx))),
        ),
        (ReqKind::ChanSend, Rep::Sent(accepted)) => Some(Val::Boolean(accepted)),
        (ReqKind::ChanRecv, Rep::Received(Some(v))) => Some(Val::Tagged("Some"@, Box::new(v))),
        (ReqKind::ChanRecv, Rep::Received(None)) => Some(Val::Tagged("None"@, Box::new(Val::Unit))),
        _ => None,
    }
}

/// Whether a value fits a pattern, with the variables that were found.
pub enum Fit<'a> {
    /// it does
    Fits(Scope<'a>),
    /// it does not; these were found before that showed
    Differs(Scope<'a>),
    /// the unit pattern met something else than unit; these were found before
    Faulty(Scope<'a>),
}

/// The value has another tag than the pattern, too few fields for it, or is of another kind.
pub open spec fn mismatched<'a>(pat: Pattern, v: Val<'a>) -> bool {
    match pat {
        Pattern::Identifier(_) => false,
        Pattern::Tagged { key, value } => !(v matches Val::Tagged(k, _) && k == key.inner@),
        Pattern::Record(rec) => !(v matches Val::Record(m) && rec.inner.spine().len() <= m.len()),
        Pattern::Unit => !(v is Unit),
    }
}

/// Fits a value to a pattern; the variables of the pattern join those found before, and of two with
/// one name the later counts.
pub open spec fn fit<'a>(pat: Pattern, v: Val<'a>, found: Scope<'a>) -> Fit<'a>
    decreases pat, 0nat,
{
    match pat {
        Pattern::Identifier(id) => Fit::Fits(found.insert(id.inner@, v)),
        Pattern::Tagged { key, value } => match v {
            Val::Tagged(k, inner) => if k == key.inner@ {
                fit(*value, *inner, found)
            } else {
                Fit::Differs(found)
            },
            _ => Fit::Differs(found),
        },
        Pattern::Record(rec) => match v {
            Val::Record(m) => if rec.inner.spine().len() <= m.len() {
                fit_fields(rec.inner, 0, m, found)
            } else {
                Fit::Differs(found)
            },
            _ => Fit::Differs(found),
        },
        Pattern::Unit => match v {
            Val::Unit => Fit::Fits(found),
            _ => Fit::Faulty(found),
        },
    }
}

/// Fits the fields of a record to those of a record pattern, from the `i`-th on.
pub open spec fn fit_fields<'a>(
    pats: NameMap<String, Pattern>,
    i: int,
    m: Map<Seq<char>, Val<'a>>,
    found: Scope<'a>,
) -> Fit<'a>
    decreases pats, (pats.spine().len() - i) as nat,
{
    if 0 <= i < pats.spine().len() {
        proof {
            pats.lemma_values_smaller();
        }
        let key = pats.spine()[i].0@;
        if m.contains_key(key) {
            match fit(pats.spine()[i].1, m[key], found) {
                Fit::Fits(more) => fit_fields(pats, i + 1, m, more),
                r => r,
            }
        } else {
            Fit::Differs(found)
        }
    } else {
        Fit::Fits(found)
    }
}

/// Which alternative of a match is taken.
pub enum Choice<'a> {
    /// the one at this place, with these variables
    Taken(int, Scope<'a>),
    /// none can be taken
    Stuck(Fault),
}

/// Picks the first alternative, from the `i`-th on, whose pattern fits the value.
pub open spec fn select<'a>(cases: Seq<Case>, i: int, v: Val<'a>) -> Choice<'a>
    decreases cases.len() - i,
{
    if 0 <= i < cases.len() {
        match fit(cases[i].pat, v, Map::empty()) {
            Fit::Fits(found) => Choice::Taken(i, found),
            Fit::Differs(_) => select(cases, i + 1, v),
            Fit::Faulty(_) => Choice::Stuck(Fault::UnitPattern),
        }
    } else {
        Choice::Stuck(Fault::NoCaseFits)
    }
}

/// How a value is written in a format string, if it can be.
pub open spec fn shown<'a>(v: Val<'a>) -> Option<Seq<char>> {
    match v {
        Val::Text(s) => Some(s),
        Val::Integer(i) => Some(decimal(i as int)),
        Val::Boolean(b) => Some(
            if b {
                "_1"@
            } else {
                "_0"@
            },
        ),
        Val::Unit => Some(Seq::empty()),
        _ => None,
    }
}

/// The variables in sight that a function takes along: those that its body reads, save its argument.
pub open spec fn captured<'a>(scope: Scope<'a>, arg: Seq<char>, body: Expr) -> Scope<'a> {
    Map::new(
        |k: Seq<char>| scope.contains_key(k) && k != arg && accesses(body.inner, k),
        |k: Seq<char>| scope[k],
    )
}

/// What a call leads to.
pub enum Called<'a> {
    /// this value
    Value(Val<'a>),
    /// the value of this request
    Ask(Req<'a>),
    /// the value of the body, where the argument and then the captured variables are in sight
    Enter { name: Seq<char>, arg: Val<'a>, saved: Scope<'a>, body: Expr },
    /// no value
    Stuck(Fault),
}

/// An integer, if it fits.
pub open spec fn integer<'a>(f: Builtin, i: int) -> Called<'a> {
    if i32::MIN <= i <= i32::MAX {
        Called::Value(Val::Integer(i as i32))
    } else {
        Called::Stuck(Fault::Overflow(f))
    }
}

/// What a builtin function does with all its arguments.
pub open spec fn builtin<'a>(f: Builtin, args: Seq<Val<'a>>) -> Called<'a>
    recommends
        args.len() == arity(f),
{
    match f {
        Builtin::Plus => match (args[0], args[1]) {
            (Val::Integer(a), Val::Integer(b)) => integer(f, a + b),
            _ => Called::Stuck(Fault::WrongArgument(f)),
        },
        Builtin::Minus => match (args[0], args[1]) {
            (Val::Integer(a), Val::Integer(b)) => integer(f, a - b),
            _ => Called::Stuck(Fault::WrongArgument(f)),
        },
        Builtin::Mult => match (args[0], args[1]) {
            (Val::Integer(a), Val::Integer(b)) => integer(f, a * b),
            _ => Called::Stuck(Fault::WrongArgument(f)),
        },
        Builtin::Leq => match (args[0], args[1]) {
            (Val::Integer(a), Val::Integer(b)) => Called::Value(Val::Boolean(a <= b)),
            _ => Called::Stuck(Fault::WrongArgument(f)),
        },
        Builtin::Eq => Called::Value(Val::Boolean(same(args[0], args[1]))),
        Builtin::Not => match args[0] {
            Val::Boolean(b) => Called::Value(Val::Boolean(!b)),
            _ => Called::Stuck(Fault::WrongArgument(f)),
        },
        Builtin::SpawnThread => match args[0] {
            Val::Lambda { arg, body, saved } => Called::Ask(Req::SpawnThread { arg, body, saved }),
            _ => Called::Stuck(Fault::WrongArgument(f)),
        },
        Builtin::MakeChan => match args[0] {
            Val::Unit => Called::Ask(Req::MakeChan),
            _ => Called::Stuck(Fault::WrongArgument(f)),
        },
        Builtin::ChanSend => match args[1] {
            Val::ChanSend(tx) => Called::Ask(Req::ChanSend(tx, args[0])),
            _ => Called::Stuck(Fault::WrongArgument(f)),
        },
        Builtin::ChanRecv => match args[0] {
            Val::ChanRecv(rx) => Called::Ask(Req::ChanRecv(rx)),
            _ => Called::Stuck(Fault::WrongArgument(f)),
        },
        Builtin::StdioWrite => match args[0] {
            Val::Text(s) => Called::Ask(Req::StdioWrite(s)),
            _ => Called::Stuck(Fault::WrongArgument(f)),
        },
    }
}

/// What a call of a value with an argument leads to.
pub open spec fn call<'a>(prim: Val<'a>, arg: Val<'a>) -> Called<'a> {
    match prim {
        Val::Builtin(f, args) => {
            let all = args.push(arg);
            if all.len() < arity(f) {
                Called::Value(Val::Builtin(f, all))
            } else if all.len() == arity(f) {
                builtin(f, all)
            } else {
                Called::Stuck(Fault::TooManyArguments)
            }
        },
        Val::Lambda { arg: name, body, saved } => Called::Enter { name, arg, saved, body },
        Val::Tagger(key) => Called::Value(Val::Tagged(key, Box::new(arg))),
        _ => Called::Stuck(Fault::NotCallable),
    }
}

/// A field of a value.
pub open spec fn field<'a>(v: Val<'a>, key: Seq<char>) -> Result<Val<'a>, Fault> {
    match v {
        Val::Record(m) => if m.contains_key(key) {
            Ok(m[key])
        } else {
            Err(Fault::MissingKey)
        },
        _ => Err(Fault::NotARecord),
    }
}

/// A record with the fields of another put over its own.
pub open spec fn updated<'a>(orig: Val<'a>, ovrd: Val<'a>) -> Result<Val<'a>, Fault> {
    match ovrd {
        Val::Record(over) => match orig {
            Val::Record(under) => Ok(Val::Record(under.union_prefer_right(over))),
            _ => Err(Fault::UpdateOfNonRecord),
        },
        _ => Err(Fault::UpdateByNonRecord),
    }
}

/// The exchange with the host: the replies still to come, and the requests made.
pub struct Io<'a> {
    pub replies: Seq<Rep<'a>>,
    pub asked: Seq<Req<'a>>,
}

/// Where an evaluation ends.
pub enum Answer<'a> {
    /// with a value
    Value(Val<'a>),
    /// where the program cannot go on
    Fault(Fault),
    /// at a request to which no reply has come
    Waiting(Req<'a>),
    /// not within the given depth
    Deep,
}

/// Makes a request and takes the next reply.
pub open spec fn ask<'a>(q: Req<'a>, io: Io<'a>) -> (Answer<'a>, Io<'a>) {
    if io.replies.len() == 0 {
        (Answer::Waiting(q), Io { replies: io.replies, asked: io.asked.push(q) })
    } else {
        let rest = Io { replies: io.replies.drop_first(), asked: io.asked.push(q) };
        match answer(kind_of(q), io.replies[0]) {
            Some(v) => (Answer::Value(v), rest),
            None => (Answer::Fault(Fault::UnexpectedReply), rest),
        }
    }
}

/// Evaluates an expression, to a depth of at most `depth`.
pub open spec fn eval<'a>(depth: nat, e: Expr, scope: Scope<'a>, io: Io<'a>) -> (Answer<'a>, Io<'a>)
    decreases depth,
{
    if depth == 0 {
        (Answer::Deep, io)
    } else {
        let d = (depth - 1) as nat;
        match e.inner {
            ExprKind::Let { lhs, rhs, rest } => match eval(d, *rhs, scope, io) {
                (Answer::Value(v), io1) => eval_block(d, rest, 0, scope.insert(lhs.inner@, v), io1),
                r => r,
            },
            ExprKind::Block(blk) => eval_block(d, blk, 0, scope, io),
            ExprKind::If { cond, then_blk, or_else } => match eval(d, *cond, scope, io) {
                (Answer::Value(Val::Boolean(b)), io1) => eval_block(
                    d,
                    if b {
                        then_blk
                    } else {
                        or_else
                    },
                    0,
                    scope,
                    io1,
                ),
                (Answer::Value(_), io1) => (Answer::Fault(Fault::ConditionNotBoolean), io1),
                r => r,
            },
            ExprKind::Lambda { arg, body } => (
                Answer::Value(Val::Lambda { arg: arg@, body: *body, saved: captured(scope, arg@, *body) }),
                io,
            ),
            ExprKind::Call { prim, arg } => match eval(d, *arg, scope, io) {
                (Answer::Value(v_arg), io1) => match eval(d, *prim, scope, io1) {
                    (Answer::Value(v_prim), io2) => eval_call(d, v_prim, v_arg, scope, io2),
                    r => r,
                },
                r => r,
            },
            ExprKind::Dot { prim, key } => match eval(d, *prim, scope, io) {
                (Answer::Value(v), io1) => (settled(field(v, key.inner@)), io1),
                r => r,
            },
            ExprKind::Fix { arg, body } => eval(
                d,
                *body,
                scope.insert(arg@, Val::FixLambda { arg: arg@, body: *body }),
                io,
            ),
            ExprKind::FormatString(parts) => eval_parts(d, parts@, 0, Seq::empty(), scope, io),
            ExprKind::Record(fields) => eval_fields(d, fields, 0, Map::empty(), scope, io),
            ExprKind::Update { orig, ovrd } => match eval(d, *orig, scope, io) {
                (Answer::Value(v_orig), io1) => match eval(d, *ovrd, scope, io1) {
                    (Answer::Value(v_ovrd), io2) => (settled(updated(v_orig, v_ovrd)), io2),
                    r => r,
                },
                r => r,
            },
            ExprKind::Tagger { key } => (Answer::Value(Val::Tagger(key@)), io),
            ExprKind::Match { inp, cases } => match eval(d, *inp, scope, io) {
                (Answer::Value(v), io1) => match select(cases@, 0, v) {
                    Choice::Taken(i, found) => eval(d, cases@[i].body, scope.union_prefer_right(found), io1),
                    Choice::Stuck(f) => (Answer::Fault(f), io1),
                },
                r => r,
            },
            ExprKind::Identifier(id) => if scope.contains_key(id@) {
                match scope[id@] {
                    Val::FixLambda { arg, body } => eval(
                        d,
                        body,
                        scope.insert(arg, Val::FixLambda { arg, body }),
                        io,
                    ),
                    v => (Answer::Value(v), io),
                }
            } else {
                (Answer::Fault(Fault::Unbound), io)
            },
            ExprKind::Unit => (Answer::Value(Val::Unit), io),
            ExprKind::Boolean(b) => (Answer::Value(Val::Boolean(b)), io),
            ExprKind::Integer(i) => (Answer::Value(Val::Integer(i)), io),
            ExprKind::PureString(s) => (Answer::Value(Val::Text(s@)), io),
        }
    }
}

/// The answer of what needs no further evaluation.
pub open spec fn settled<'a>(r: Result<Val<'a>, Fault>) -> Answer<'a> {
    match r {
        Ok(v) => Answer::Value(v),
        Err(f) => Answer::Fault(f),
    }
}

/// Runs the statements of a block, from the `i`-th on, then its term.
pub open spec fn eval_block<'a>(depth: nat, blk: Block, i: int, scope: Scope<'a>, io: Io<'a>) -> (Answer<'a>, Io<'a>)
    decreases depth,
{
    if depth == 0 {
        (Answer::Deep, io)
    } else {
        let d = (depth - 1) as nat;
        if 0 <= i < blk.stmts@.len() {
            match eval(d, blk.stmts@[i], scope, io) {
                (Answer::Value(_), io1) => eval_block(d, blk, i + 1, scope, io1),
                r => r,
            }
        } else {
            match blk.term {
                Some(t) => eval(d, *t, scope, io),
                None => (Answer::Value(Val::Unit), io),
            }
        }
    }
}

/// Writes the parts of a format string, from the `i`-th on, behind a text.
pub open spec fn eval_parts<'a>(
    depth: nat,
    parts: Seq<Expr>,
    i: int,
    text: Seq<char>,
    scope: Scope<'a>,
    io: Io<'a>,
) -> (Answer<'a>, Io<'a>)
    decreases depth,
{
    if depth == 0 {
        (Answer::Deep, io)
    } else {
        let d = (depth - 1) as nat;
        if 0 <= i < parts.len() {
            match eval(d, parts[i], scope, io) {
                (Answer::Value(v), io1) => match shown(v) {
                    Some(t) => eval_parts(d, parts, i + 1, text + t, scope, io1),
                    None => (Answer::Fault(Fault::NotText), io1),
                },
                r => r,
            }
        } else {
            (Answer::Value(Val::Text(text)), io)
        }
    }
}

/// Evaluates the fields of a record, from the `i`-th on, into those done.
pub open spec fn eval_fields<'a>(
    depth: nat,
    fields: NameMap<String, Expr>,
    i: int,
    done: Map<Seq<char>, Val<'a>>,
    scope: Scope<'a>,
    io: Io<'a>,
) -> (Answer<'a>, Io<'a>)
    decreases depth,
{
    if depth == 0 {
        (Answer::Deep, io)
    } else {
        let d = (depth - 1) as nat;
        if 0 <= i < fields.spine().len() {
            match eval(d, fields.spine()[i].1, scope, io) {
                (Answer::Value(v), io1) => eval_fields(
                    d,
                    fields,
                    i + 1,
                    done.insert(fields.spine()[i].0@, v),
                    scope,
                    io1,
                ),
                r => r,
            }
        } else {
            (Answer::Value(Val::Record(done)), io)
        }
    }
}

/// Calls a value with an argument.
pub open spec fn eval_call<'a>(depth: nat, prim: Val<'a>, arg: Val<'a>, scope: Scope<'a>, io: Io<'a>) -> (
    Answer<'a>,
    Io<'a>,
)
    decreases depth,
{
    if depth == 0 {
        (Answer::Deep, io)
    } else {
        match call(prim, arg) {
            Called::Value(v) => (Answer::Value(v), io),
            Called::Ask(q) => ask(q, io),
            Called::Enter { name, arg, saved, body } => eval(
                (depth - 1) as nat,
                body,
                scope.insert(name, arg).union_prefer_right(saved),
                io,
            ),
            Called::Stuck(f) => (Answer::Fault(f), io),
        }
    }
}

} // verus!
