//! The interpreter: a machine that evaluates an expression step by step and stops where it needs its
//! host.
use crate::adequacy::{start, start_block};
use crate::chan::{ChanRx, ChanTx};
use crate::names::{names_of, Name, NameMap};
use crate::semantics::{
    answer, builtin, call, field, fit, fit_fields, kind_of, mismatched, select, shown, updated, Called, Choice, Fault,
    Fit, Rep, Req, ReqKind, Scope,
};
use crate::small_step::{go, step, step_eval, step_return, Control, Frame, Next, State};
use crate::stack::{insert_field, referred, visible, Binding, VarStack};
use crate::syntax::{binds, Block, Case, Expr, ExprKind, Pattern};
use crate::text::{push_decimal, same_text};
use crate::value::{arity, fields, lemma_fields, val, vals, Builtin, Val, Value};
use vstd::prelude::*;
use vstd::string::*;

verus! {

/// What a program asks of its host.
#[derive(Debug)]
#[allow(inconsistent_fields)]
pub enum Request<'a> {
    /// start a thread that calls the function with unit
    SpawnThread { argname: &'a str, f: &'a Expr, stacksave: NameMap<&'a str, Value<'a>> },
    /// make a channel
    MakeChan,
    /// send a value
    ChanSend { chan: ChanTx<'a>, value: Value<'a> },
    /// receive a value
    ChanRecv { chan: ChanRx<'a> },
    /// write a text to the standard output
    StdioWrite { text: String },
}

impl<'a> View for Request<'a> {
    type V = Req<'a>;

    open spec fn view(&self) -> Req<'a> {
        match *self {
            Request::SpawnThread { argname, f, stacksave } => Req::SpawnThread {
                arg: argname@,
                body: *f,
                saved: fields(stacksave),
            },
            Request::MakeChan => Req::MakeChan,
            Request::ChanSend { chan, value } => Req::ChanSend(chan, value@),
            Request::ChanRecv { chan } => Req::ChanRecv(chan),
            Request::StdioWrite { text } => Req::StdioWrite(text@),
        }
    }
}

/// What a host replies.
#[derive(Debug)]
pub enum Reply<'a> {
    /// it is done
    Done,
    /// the two ends of the new channel
    Channel { send: ChanTx<'a>, recv: ChanRx<'a> },
    /// whether the value was accepted
    Sent(bool),
    /// the value that came, or none where none will
    Received(Option<Value<'a>>),
}

impl<'a> View for Reply<'a> {
    type V = Rep<'a>;

    open spec fn view(&self) -> Rep<'a> {
        match *self {
            Reply::Done => Rep::Done,
            Reply::Channel { send, recv } => Rep::Channel(send, recv),
            Reply::Sent(accepted) => Rep::Sent(accepted),
            Reply::Received(Some(v)) => Rep::Received(Some(v@)),
            Reply::Received(None) => Rep::Received(None),
        }
    }
}

/// What a call leads to.
enum Callee<'a> {
    Value(Value<'a>),
    Ask(Request<'a>),
    Enter { name: &'a str, arg: Value<'a>, saved: NameMap<&'a str, Value<'a>>, body: &'a Expr },
    Stuck(Fault),
}

/// What a call leads to, as said of values.
spec fn called<'a>(c: Callee<'a>) -> Called<'a> {
    match c {
        Callee::Value(v) => Called::Value(v@),
        Callee::Ask(q) => Called::Ask(q@),
        Callee::Enter { name, arg, saved, body } => Called::Enter {
            name: name@,
            arg: arg@,
            saved: fields(saved),
            body: *body,
        },
        Callee::Stuck(f) => Called::Stuck(f),
    }
}

/// Calls a builtin function with all its arguments.
fn call_builtin<'a>(f: Builtin, mut args: Vec<Value<'a>>) -> (r: Callee<'a>)
    requires
        args@.len() == arity(f),
    ensures
        called(r) == builtin(f, vals(args@)),
{
    let ghost all = vals(args@);
    assert(all.len() == args@.len());
    match f {
        Builtin::Plus => match (&args[0], &args[1]) {
            (Value::Integer(a), Value::Integer(b)) => match a.checked_add(*b) {
                Some(c) => Callee::Value(Value::Integer(c)),
                None => Callee::Stuck(Fault::Overflow(f)),
            },
            _ => Callee::Stuck(Fault::WrongArgument(f)),
        },
        Builtin::Minus => match (&args[0], &args[1]) {
            (Value::Integer(a), Value::Integer(b)) => match a.checked_sub(*b) {
                Some(c) => Callee::Value(Value::Integer(c)),
                None => Callee::Stuck(Fault::Overflow(f)),
            },
            _ => Callee::Stuck(Fault::WrongArgument(f)),
        },
        Builtin::Mult => match (&args[0], &args[1]) {
            (Value::Integer(a), Value::Integer(b)) => match a.checked_mul(*b) {
                Some(c) => Callee::Value(Value::Integer(c)),
                None => Callee::Stuck(Fault::Overflow(f)),
            },
            _ => Callee::Stuck(Fault::WrongArgument(f)),
        },
        Builtin::Leq => match (&args[0], &args[1]) {
            (Value::Integer(a), Value::Integer(b)) => Callee::Value(Value::Boolean(*a <= *b)),
            _ => Callee::Stuck(Fault::WrongArgument(f)),
        },
        Builtin::Eq => Callee::Value(Value::Boolean(args[0] == args[1])),
        Builtin::Not => match &args[0] {
            Value::Boolean(b) => Callee::Value(Value::Boolean(!*b)),
            _ => Callee::Stuck(Fault::WrongArgument(f)),
        },
        Builtin::SpawnThread => {
            let arg = args.swap_remove(0);
            match arg {
                Value::Lambda { argname, f, stacksave } => Callee::Ask(Request::SpawnThread { argname, f, stacksave }),
                _ => Callee::Stuck(Fault::WrongArgument(f)),
            }
        },
        Builtin::MakeChan => match &args[0] {
            Value::Unit => Callee::Ask(Request::MakeChan),
            _ => Callee::Stuck(Fault::WrongArgument(f)),
        },
        Builtin::ChanSend => {
            let chan = args.swap_remove(1);
            let value = args.swap_remove(0);
            match chan {
                Value::ChanSend(chan) => Callee::Ask(Request::ChanSend { chan, value }),
                _ => Callee::Stuck(Fault::WrongArgument(f)),
            }
        },
        Builtin::ChanRecv => {
            let chan = args.swap_remove(0);
            match chan {
                Value::ChanRecv(chan) => Callee::Ask(Request::ChanRecv { chan }),
                _ => Callee::Stuck(Fault::WrongArgument(f)),
            }
        },
        Builtin::StdioWrite => {
            let text = args.swap_remove(0);
            match text {
                Value::PureString(text) => Callee::Ask(Request::StdioWrite { text }),
                _ => Callee::Stuck(Fault::WrongArgument(f)),
            }
        },
    }
}

/// Calls a value with an argument.
fn call_value<'a>(prim: Value<'a>, arg: Value<'a>) -> (r: Callee<'a>)
    ensures
        called(r) == call(prim@, arg@),
{
    match prim {
        Value::Builtin { f, args } => {
            let mut all = args;
            all.push(arg);
            assert(vals(all@) =~= vals(args@).push(arg@));
            if all.len() < f.argc() {
                Callee::Value(Value::Builtin { f, args: all })
            } else if all.len() == f.argc() {
                call_builtin(f, all)
            } else {
                Callee::Stuck(Fault::TooManyArguments)
            }
        },
        Value::Lambda { argname, f, stacksave } => Callee::Enter { name: argname, arg, saved: stacksave, body: f },
        Value::Tagger { key } => Callee::Value(Value::Tagged { key, value: Box::new(arg) }),
        _ => Callee::Stuck(Fault::NotCallable),
    }
}

/// Writes a value at the end of a text, if it can be written.
fn push_shown<'a>(out: &mut String, v: &Value<'a>) -> (r: bool)
    ensures
        r == (shown(v@) is Some),
        r ==> final(out)@ == old(out)@ + shown(v@)->0,
        !r ==> final(out)@ == old(out)@,
{
    match v {
        Value::PureString(s) => {
            out.append(s.as_str());
            true
        },
        Value::Integer(i) => {
            push_decimal(out, *i);
            true
        },
        Value::Boolean(b) => {
            out.append(
                if *b {
                    "_1"
                } else {
                    "_0"
                },
            );
            true
        },
        Value::Unit => {
            assert(out@ =~= old(out)@ + Seq::<char>::empty());
            true
        },
        _ => false,
    }
}

/// Takes a field of a value.
fn take_field<'a>(v: Value<'a>, key: &str) -> (r: Result<Value<'a>, Fault>)
    ensures
        (match r { Ok(x) => Ok::<Val<'a>, Fault>(x@), Err(f) => Err(f) }) == field(v@, key@),
{
    match v {
        Value::Record(m) => {
            proof {
                use_type_invariant(&m);
                lemma_fields(m);
            }
            match m.take(key) {
                Some(x) => Ok(x),
                None => Err(Fault::MissingKey),
            }
        },
        _ => Err(Fault::NotARecord),
    }
}

/// Puts the fields of one record over those of another.
fn update<'a>(orig: Value<'a>, ovrd: Value<'a>) -> (r: Result<Value<'a>, Fault>)
    ensures
        (match r { Ok(x) => Ok::<Val<'a>, Fault>(x@), Err(f) => Err(f) }) == updated(orig@, ovrd@),
{
    match ovrd {
        Value::Record(over) => match orig {
            Value::Record(under) => {
                let mut under = under;
                let ghost below = fields(under);
                let ghost spine = over.spine();
                let ghost above = fields(over);
                proof {
                    use_type_invariant(&over);
                    lemma_fields(over);
                }
                let mut rest: Vec<Binding<'a>> = over.into_entries();
                assert(rest@ =~= spine.take(spine.len() as int));
                while rest.len() > 0
                    invariant
                        rest@.len() <= spine.len(),
                        rest@ == spine.take(rest@.len() as int),
                        forall|i: int|
                            0 <= i < spine.len() ==> above.contains_key((#[trigger] spine[i]).0@)
                                && above[spine[i].0@] == val(spine[i].1),
                        forall|k: Seq<char>|
                            #[trigger] fields(under).contains_key(k) == (below.contains_key(k) || exists|i: int|
                                rest@.len() <= i < spine.len() && (#[trigger] spine[i]).0@ == k),
                        forall|k: Seq<char>|
                            #[trigger] fields(under).contains_key(k) ==> fields(under)[k] == (if exists|i: int|
                                rest@.len() <= i < spine.len() && (#[trigger] spine[i]).0@ == k {
                                above[k]
                            } else {
                                below[k]
                            }),
                    decreases rest@.len(),
                {
                    let ghost len = rest@.len() as int;
                    let ghost before = fields(under);
                    match rest.pop() {
                        Some((name, value)) => {
                            assert(spine[len - 1] == (name, value));
                            assert(rest@ =~= spine.take(rest@.len() as int));
                            insert_field(&mut under, name, value);
                            assert forall|k: Seq<char>| #[trigger] fields(under).contains_key(k) == (below.contains_key(
                                k,
                            ) || exists|i: int| rest@.len() <= i < spine.len() && (#[trigger] spine[i]).0@ == k) by {
                                if k == name@ {
                                    assert(spine[len - 1].0@ == k);
                                } else {
                                    assert(fields(under).contains_key(k) == before.contains_key(k));
                                }
                            }
                            assert forall|k: Seq<char>| #[trigger] fields(under).contains_key(k) implies fields(
                                under,
                            )[k] == (if exists|i: int| rest@.len() <= i < spine.len() && (#[trigger] spine[i]).0@ == k {
                                above[k]
                            } else {
                                below[k]
                            }) by {
                                if k == name@ {
                                    assert(spine[len - 1].0@ == k);
                                } else {
                                    assert(before.contains_key(k));
                                }
                            }
                        },
                        None => {},
                    }
                }
                proof {
                    let names = names_of(spine);
                    assert forall|k: Seq<char>| above.contains_key(k) implies exists|i: int|
                        0 <= i < spine.len() && (#[trigger] spine[i]).0@ == k by {
                        let i = names.index_of(k);
                        assert(names[i] == k);
                        assert(spine[i].0@ == k);
                    }
                    assert(fields(under) =~= below.union_prefer_right(above));
                }
                Ok(Value::Record(under))
            },
            _ => Err(Fault::UpdateOfNonRecord),
        },
        _ => Err(Fault::UpdateByNonRecord),
    }
}

/// Whether a value fits a pattern.
enum Fitting {
    Fits,
    Differs,
    Faulty,
}

/// A reference put into a map is what its name refers to.
proof fn lemma_referred_insert<'a, 'b>(
    before: NameMap<&'a str, &'b Value<'a>>,
    after: NameMap<&'a str, &'b Value<'a>>,
    name: Seq<char>,
    v: &'b Value<'a>,
)
    requires
        after@ == before@.insert(name, v),
    ensures
        referred(after) == referred(before).insert(name, v@),
{
    assert(referred(after) =~= referred(before).insert(name, v@));
}

/// No name has left the map, and those that a pattern does not bind have what they had.
spec fn kept<'a, 'b>(
    before: Map<Seq<char>, &'b Value<'a>>,
    after: Map<Seq<char>, &'b Value<'a>>,
    bound: spec_fn(Seq<char>) -> bool,
) -> bool {
    &&& forall|k: Seq<char>| before.contains_key(k) ==> #[trigger] after.contains_key(k)
    &&& forall|k: Seq<char>| !bound(k) ==> (#[trigger] after.contains_key(k)) == before.contains_key(k)
    &&& forall|k: Seq<char>| !bound(k) && #[trigger] before.contains_key(k) ==> after[k] == before[k]
}

/// One of the field patterns binds the name.
spec fn binds_field(pats: NameMap<String, Pattern>, k: Seq<char>) -> bool {
    exists|j: int| 0 <= j < pats.spine().len() && binds((#[trigger] pats.spine()[j]).1, k)
}

/// Fits a value to a pattern, and collects the variables of the pattern.
fn run_pat<'a, 'b>(
    coll: &mut NameMap<&'a str, &'b Value<'a>>,
    pat: &'a Pattern,
    inp: &'b Value<'a>,
) -> (r: Fitting)
    ensures
        match fit(*pat, inp@, referred(*old(coll))) {
            Fit::Fits(found) => r is Fits && found == referred(*final(coll)),
            Fit::Differs(found) => r is Differs && found == referred(*final(coll)),
            Fit::Faulty(found) => r is Faulty && found == referred(*final(coll)),
        },
        kept(old(coll)@, final(coll)@, |k: Seq<char>| binds(*pat, k)),
        mismatched(*pat, inp@) ==> final(coll)@ == old(coll)@,
    decreases pat,
{
    match pat {
        Pattern::Identifier(id) => {
            let ghost before = *coll;
            coll.insert(id.inner.as_str(), inp);
            proof {
                lemma_referred_insert(before, *coll, id.inner@, inp);
            }
            Fitting::Fits
        },
        Pattern::Tagged { key, value } => match inp {
            Value::Tagged { key: got_key, value: got_value } => if same_text(key.inner.as_str(), got_key) {
                assert forall|k: Seq<char>| binds(**value, k) == #[trigger] binds(*pat, k) by {}
                run_pat(coll, value, got_value)
            } else {
                Fitting::Differs
            },
            _ => Fitting::Differs,
        },
        Pattern::Record(rec) => match inp {
            Value::Record(m) => {
                let n: usize = rec.inner.len();
                let len: usize = m.len();
                proof {
                    lemma_fields(*m);
                }
                if n <= len {
                    assert forall|k: Seq<char>| #[trigger] binds(*pat, k) == binds_field(rec.inner, k) by {}
                    run_pat_fields(coll, &rec.inner, m)
                } else {
                    Fitting::Differs
                }
            },
            _ => Fitting::Differs,
        },
        Pattern::Unit => match inp {
            Value::Unit => Fitting::Fits,
            _ => Fitting::Faulty,
        },
    }
}

/// Fits the fields of a record to those of a record pattern, in order.
fn run_pat_fields<'a, 'b>(
    coll: &mut NameMap<&'a str, &'b Value<'a>>,
    pats: &'a NameMap<String, Pattern>,
    m: &'b NameMap<&'a str, Value<'a>>,
) -> (r: Fitting)
    ensures
        match fit_fields(*pats, 0, fields(*m), referred(*old(coll))) {
            Fit::Fits(found) => r is Fits && found == referred(*final(coll)),
            Fit::Differs(found) => r is Differs && found == referred(*final(coll)),
            Fit::Faulty(found) => r is Faulty && found == referred(*final(coll)),
        },
        kept(old(coll)@, final(coll)@, |k: Seq<char>| binds_field(*pats, k)),
    decreases pats,
{
    let n: usize = pats.len();
    proof {
        use_type_invariant(&m);
        pats.lemma_values_smaller();
        lemma_fields(*m);
    }
    let ghost whole = fit_fields(*pats, 0, fields(*m), referred(*coll));
    let mut i: usize = 0;
    while i < n
        invariant
            n == pats.spine().len(),
            i <= n,
            forall|j: int| 0 <= j < n ==> decreases_to!(pats => (#[trigger] pats.spine()[j]).1),
            fields(*m).dom() == m@.dom(),
            forall|k: Seq<char>| #[trigger] m@.contains_key(k) ==> fields(*m)[k] == val(m@[k]),
            whole == fit_fields(*pats, 0, fields(*m), referred(*old(coll))),
            whole == fit_fields(*pats, i as int, fields(*m), referred(*coll)),
            kept(old(coll)@, coll@, |k: Seq<char>| binds_field(*pats, k)),
        decreases n - i,
    {
        match m.get(pats.name_at(i).as_str()) {
            Some(got_value) => {
                match run_pat(coll, pats.value_at(i), got_value) {
                    Fitting::Fits => {},
                    Fitting::Differs => {
                        return Fitting::Differs;
                    },
                    Fitting::Faulty => {
                        return Fitting::Faulty;
                    },
                }
            },
            None => {
                return Fitting::Differs;
            },
        }
        i += 1;
    }
    Fitting::Fits
}

/// What is left to do with a value that is being evaluated.
#[derive(Debug)]
enum Pending<'a> {
    Bind { name: &'a str, rest: &'a Block },
    Leave { depth: usize, kept: Option<Value<'a>> },
    Stmt { blk: &'a Block, next: usize },
    Branch { then_blk: &'a Block, or_else: &'a Block },
    Argument { prim: &'a Expr },
    Callee { arg: Value<'a> },
    Dot { key: &'a str },
    Part { parts: &'a Vec<Expr>, next: usize, text: String },
    Field { fields: &'a NameMap<String, Expr>, next: usize, done: NameMap<&'a str, Value<'a>> },
    Original { ovrd: &'a Expr },
    Override { orig: Value<'a> },
    Cases { cases: &'a Vec<Case> },
}

/// What is being done.
#[derive(Debug)]
enum Doing<'a> {
    Eval(&'a Expr),
    Block(&'a Block, usize),
    Parts(&'a Vec<Expr>, usize, String),
    Fields(&'a NameMap<String, Expr>, usize, NameMap<&'a str, Value<'a>>),
    Call(Value<'a>, Value<'a>),
    Return(Value<'a>),
}

/// What a frame means on a stack.
spec fn frame_of<'a>(p: Pending<'a>, s: Seq<Binding<'a>>) -> Frame<'a> {
    match p {
        Pending::Bind { name, rest } => Frame::Bind { name: name@, rest: *rest },
        Pending::Leave { depth, kept } => Frame::Leave {
            scope: visible(s.take(depth as int)),
            kept: match kept {
                Some(v) => Some(v@),
                None => None,
            },
        },
        Pending::Stmt { blk, next } => Frame::Stmt { blk: *blk, next: next as int },
        Pending::Branch { then_blk, or_else } => Frame::Branch { then_blk: *then_blk, or_else: *or_else },
        Pending::Argument { prim } => Frame::Argument { prim: *prim },
        Pending::Callee { arg } => Frame::Callee { arg: arg@ },
        Pending::Dot { key } => Frame::Dot { key: key@ },
        Pending::Part { parts, next, text } => Frame::Part { parts: parts@, next: next as int, text: text@ },
        Pending::Field { fields: fs, next, done } => Frame::Field {
            fields: *fs,
            next: next as int,
            done: fields(done),
        },
        Pending::Original { ovrd } => Frame::Original { ovrd: *ovrd },
        Pending::Override { orig } => Frame::Override { orig: orig@ },
        Pending::Cases { cases } => Frame::Cases { cases: cases@ },
    }
}

/// What frames mean on a stack.
spec fn frames_of<'a>(ps: Seq<Pending<'a>>, s: Seq<Binding<'a>>) -> Seq<Frame<'a>> {
    ps.map_values(|p: Pending<'a>| frame_of(p, s))
}

/// What is being done, as a control.
spec fn control_of<'a>(c: Doing<'a>) -> Control<'a> {
    match c {
        Doing::Eval(e) => Control::Eval(*e),
        Doing::Block(blk, i) => Control::Block(*blk, i as int),
        Doing::Parts(parts, i, text) => Control::Parts(parts@, i as int, text@),
        Doing::Fields(fs, i, done) => Control::Fields(*fs, i as int, fields(done)),
        Doing::Call(prim, arg) => Control::Call(prim@, arg@),
        Doing::Return(v) => Control::Return(v@),
    }
}

/// A place inside a block, a format string or a record.
spec fn placed<'a>(p: Pending<'a>) -> bool {
    match p {
        Pending::Stmt { blk, next } => next <= blk.stmts@.len(),
        Pending::Part { parts, next, text } => next <= parts@.len(),
        Pending::Field { fields: fs, next, done } => 0 < next <= fs.spine().len(),
        _ => true,
    }
}

/// The scopes to go back to lie within the stack, the inner ones within the outer ones.
spec fn nested<'a>(ps: Seq<Pending<'a>>, n: nat) -> bool {
    &&& forall|i: int| 0 <= i < ps.len() ==> placed(#[trigger] ps[i])
    &&& forall|i: int| 0 <= i < ps.len() && (#[trigger] ps[i]) is Leave ==> ps[i]->depth <= n
    &&& forall|i: int, j: int|
        0 <= i < j < ps.len() && (#[trigger] ps[i]) is Leave && (#[trigger] ps[j]) is Leave ==> ps[i]->depth
            <= ps[j]->depth
}

/// Frames mean the same on a stack that has grown.
proof fn lemma_frames_grow<'a>(ps: Seq<Pending<'a>>, s: Seq<Binding<'a>>, t: Seq<Binding<'a>>)
    requires
        nested(ps, s.len()),
        s.len() <= t.len(),
        t.take(s.len() as int) == s,
    ensures
        frames_of(ps, t) == frames_of(ps, s),
        nested(ps, t.len()),
{
    assert forall|i: int| 0 <= i < ps.len() implies frame_of(#[trigger] ps[i], t) == frame_of(ps[i], s) by {
        if ps[i] is Leave {
            let d = ps[i]->depth as int;
            assert(t.take(d) =~= s.take(d)) by {
                assert forall|j: int| 0 <= j < d implies t[j] == s[j] by {
                    assert(t.take(s.len() as int)[j] == s[j]);
                }
            }
        }
    }
    assert(frames_of(ps, t) =~= frames_of(ps, s));
}

/// A frame put on others.
proof fn lemma_frames_push<'a>(ps: Seq<Pending<'a>>, p: Pending<'a>, s: Seq<Binding<'a>>)
    ensures
        frames_of(ps.push(p), s) == frames_of(ps, s).push(frame_of(p, s)),
{
    assert(frames_of(ps.push(p), s) =~= frames_of(ps, s).push(frame_of(p, s)));
}

/// Frames without the innermost one.
proof fn lemma_nested_pop<'a>(ps: Seq<Pending<'a>>, top: Pending<'a>, n: nat)
    requires
        nested(ps.push(top), n),
    ensures
        nested(ps, n),
        placed(top),
{
    let all = ps.push(top);
    assert(all[ps.len() as int] == top);
    assert forall|i: int| 0 <= i < ps.len() implies placed(#[trigger] ps[i]) && (ps[i] is Leave ==> ps[i]->depth
        <= n) by {
        assert(all[i] == ps[i]);
    }
    assert forall|i: int, j: int|
        0 <= i < j < ps.len() && (#[trigger] ps[i]) is Leave && (#[trigger] ps[j]) is Leave implies ps[i]->depth
        <= ps[j]->depth by {
        assert(all[i] == ps[i] && all[j] == ps[j]);
    }
}

/// A frame to go back to the scope, put on before the stack grows.
proof fn lemma_enter<'a>(
    ps: Seq<Pending<'a>>,
    s: Seq<Binding<'a>>,
    t: Seq<Binding<'a>>,
    depth: usize,
    kept: Option<Value<'a>>,
)
    requires
        nested(ps, s.len()),
        depth == s.len(),
        s.len() <= t.len(),
        t.take(s.len() as int) == s,
    ensures
        frames_of(ps.push(Pending::Leave { depth, kept }), t) == frames_of(ps, s).push(
            Frame::Leave {
                scope: visible(s),
                kept: match kept {
                    Some(v) => Some(v@),
                    None => None,
                },
            },
        ),
        nested(ps.push(Pending::Leave { depth, kept }), t.len()),
{
    lemma_frames_grow(ps, s, t);
    lemma_frames_push(ps, Pending::Leave { depth, kept }, t);
    let all = ps.push(Pending::Leave { depth, kept });
    assert forall|i: int| 0 <= i < ps.len() && (#[trigger] ps[i]) is Leave implies ps[i]->depth <= depth by {}
}

/// The stack at the end of a scope, without what the scope had put on it.
proof fn lemma_frames_shrink<'a>(
    ps: Seq<Pending<'a>>,
    depth: usize,
    kept: Option<Value<'a>>,
    s: Seq<Binding<'a>>,
)
    requires
        nested(ps.push(Pending::Leave { depth, kept }), s.len()),
    ensures
        depth <= s.len(),
        frames_of(ps, s.take(depth as int)) == frames_of(ps, s),
        nested(ps, s.take(depth as int).len()),
{
    let all = ps.push(Pending::Leave { depth, kept });
    assert(all[ps.len() as int] is Leave);
    assert forall|i: int| 0 <= i < ps.len() && (#[trigger] ps[i]) is Leave implies ps[i]->depth <= depth by {
        assert(all[i] == ps[i]);
        assert(all[ps.len() as int]->depth == depth);
    }
    assert forall|i: int| 0 <= i < ps.len() implies placed(#[trigger] ps[i]) by {
        assert(all[i] == ps[i]);
    }
    assert forall|i: int, j: int|
        0 <= i < j < ps.len() && (#[trigger] ps[i]) is Leave && (#[trigger] ps[j]) is Leave implies ps[i]->depth
        <= ps[j]->depth by {
        assert(all[i] == ps[i] && all[j] == ps[j]);
    }
    assert forall|i: int| 0 <= i < ps.len() implies frame_of(#[trigger] ps[i], s.take(depth as int)) == frame_of(
        ps[i],
        s,
    ) by {
        if ps[i] is Leave {
            let d = ps[i]->depth as int;
            assert(s.take(depth as int).take(d) =~= s.take(d));
        }
    }
    assert(frames_of(ps, s.take(depth as int)) =~= frames_of(ps, s));
}

/// A part of a stack is also part of what has grown out of it.
proof fn lemma_take_through<'a>(s: Seq<Binding<'a>>, t: Seq<Binding<'a>>, u: Seq<Binding<'a>>)
    requires
        s.len() <= t.len() <= u.len(),
        t.take(s.len() as int) == s,
        u.take(t.len() as int) == t,
    ensures
        u.take(s.len() as int) == s,
{
    assert forall|j: int| 0 <= j < s.len() implies u[j] == s[j] by {
        assert(u.take(t.len() as int)[j] == t[j]);
        assert(t.take(s.len() as int)[j] == s[j]);
    }
    assert(u.take(s.len() as int) =~= s);
}

/// A machine between two steps.
#[derive(Debug)]
pub struct Machine<'a> {
    control: Doing<'a>,
    frames: Vec<Pending<'a>>,
    stack: VarStack<'a>,
}

impl<'a> View for Machine<'a> {
    type V = State<'a>;

    closed spec fn view(&self) -> State<'a> {
        State {
            control: control_of(self.control),
            frames: frames_of(self.frames@, self.stack.bindings()),
            scope: self.stack@,
        }
    }
}

/// A machine that waits for a reply.
#[derive(Debug)]
pub struct Suspended<'a> {
    kind: ReqKind,
    frames: Vec<Pending<'a>>,
    stack: VarStack<'a>,
}

impl<'a> Suspended<'a> {
    #[verifier::type_invariant]
    spec fn well_formed(&self) -> bool {
        nested(self.frames@, self.stack.bindings().len())
    }

    /// The kind of the request.
    pub closed spec fn kind(&self) -> ReqKind {
        self.kind
    }

    /// What goes on with the value of the request.
    pub closed spec fn frames(&self) -> Seq<Frame<'a>> {
        frames_of(self.frames@, self.stack.bindings())
    }

    /// The variables in sight.
    pub closed spec fn scope(&self) -> Scope<'a> {
        self.stack@
    }
}

/// What a step leads to.
#[derive(Debug)]
pub enum Turn<'a> {
    Go(Machine<'a>),
    Ask(Request<'a>, Suspended<'a>),
    Done(Value<'a>),
    Fault(Fault),
}

impl<'a> View for Turn<'a> {
    type V = Next<'a>;

    open spec fn view(&self) -> Next<'a> {
        match *self {
            Turn::Go(m) => Next::Go(m@),
            Turn::Ask(q, s) => Next::Ask(q@, s.frames(), s.scope()),
            Turn::Done(v) => Next::Done(v@),
            Turn::Fault(f) => Next::Fault(f),
        }
    }
}

impl<'a> Turn<'a> {
    /// A suspended machine waits for a reply to the request that it comes with.
    pub open spec fn matched(&self) -> bool {
        *self matches Turn::Ask(q, s) ==> s.kind() == kind_of(q@)
    }
}

fn request_kind<'a>(q: &Request<'a>) -> (r: ReqKind)
    ensures
        r == kind_of(q@),
{
    match q {
        Request::SpawnThread { argname, f, stacksave } => ReqKind::SpawnThread,
        Request::MakeChan => ReqKind::MakeChan,
        Request::ChanSend { chan, value } => ReqKind::ChanSend,
        Request::ChanRecv { chan } => ReqKind::ChanRecv,
        Request::StdioWrite { text } => ReqKind::StdioWrite,
    }
}

/// Puts a frame on and goes on with an expression.
fn descend<'a>(
    e: &'a Expr,
    p: Pending<'a>,
    mut frames: Vec<Pending<'a>>,
    stack: VarStack<'a>,
) -> (r: Turn<'a>)
    requires
        nested(frames@, stack.bindings().len()),
        placed(p),
        !(p is Leave),
    ensures
        r@ == go(
            Control::Eval(*e),
            frames_of(frames@, stack.bindings()).push(frame_of(p, stack.bindings())),
            stack@,
        ),
        r.matched(),
{
    proof {
        lemma_frames_push(frames@, p, stack.bindings());
    }
    frames.push(p);
    Turn::Go(Machine { control: Doing::Eval(e), frames, stack })
}

/// Binds a name and goes on with an expression, in a scope of its own.
fn bind_and_descend<'a>(
    e: &'a Expr,
    name: &'a str,
    value: Value<'a>,
    mut frames: Vec<Pending<'a>>,
    mut stack: VarStack<'a>,
) -> (r: Turn<'a>)
    requires
        nested(frames@, stack.bindings().len()),
    ensures
        r@ == go(
            Control::Eval(*e),
            frames_of(frames@, stack.bindings()).push(Frame::Leave { scope: stack@, kept: None }),
            stack@.insert(name@, value@),
        ),
        r.matched(),
{
    let ghost outer = stack.bindings();
    let depth: usize = stack.depth();
    stack.push(name, value);
    proof {
        assert(stack.bindings().take(outer.len() as int) =~= outer);
        lemma_enter(frames@, outer, stack.bindings(), depth, None);
    }
    frames.push(Pending::Leave { depth, kept: None });
    Turn::Go(Machine { control: Doing::Eval(e), frames, stack })
}

/// One step into an expression.
fn do_eval<'a>(e: &'a Expr, frames: Vec<Pending<'a>>, stack: VarStack<'a>) -> (r: Turn<'a>)
    requires
        nested(frames@, stack.bindings().len()),
    ensures
        r@ == step_eval(*e, frames_of(frames@, stack.bindings()), stack@),
        r.matched(),
{
    match &e.inner {
        ExprKind::Let { lhs, rhs, rest } => descend(
            rhs,
            Pending::Bind { name: lhs.inner.as_str(), rest },
            frames,
            stack,
        ),
        ExprKind::Block(blk) => Turn::Go(Machine { control: Doing::Block(blk, 0), frames, stack }),
        ExprKind::If { cond, then_blk, or_else } => descend(
            cond,
            Pending::Branch { then_blk, or_else },
            frames,
            stack,
        ),
        ExprKind::Lambda { arg, body } => {
            let stacksave = stack.capture(arg.as_str(), body);
            let v = Value::Lambda { argname: arg.as_str(), f: body, stacksave };
            Turn::Go(Machine { control: Doing::Return(v), frames, stack })
        },
        ExprKind::Call { prim, arg } => descend(arg, Pending::Argument { prim }, frames, stack),
        ExprKind::Dot { prim, key } => descend(prim, Pending::Dot { key: key.inner.as_str() }, frames, stack),
        ExprKind::Fix { arg, body } => bind_and_descend(
            body,
            arg.as_str(),
            Value::FixLambda { argname: arg.as_str(), f: body },
            frames,
            stack,
        ),
        ExprKind::FormatString(parts) => Turn::Go(
            Machine { control: Doing::Parts(parts, 0, String::new()), frames, stack },
        ),
        ExprKind::Record(fs) => {
            let done: NameMap<&'a str, Value<'a>> = NameMap::new();
            assert(fields(done) =~= Map::<Seq<char>, Val<'a>>::empty());
            Turn::Go(Machine { control: Doing::Fields(fs, 0, done), frames, stack })
        },
        ExprKind::Update { orig, ovrd } => descend(orig, Pending::Original { ovrd }, frames, stack),
        ExprKind::Tagger { key } => Turn::Go(
            Machine { control: Doing::Return(Value::Tagger { key: key.as_str() }), frames, stack },
        ),
        ExprKind::Match { inp, cases } => descend(inp, Pending::Cases { cases }, frames, stack),
        ExprKind::Identifier(id) => {
            let found = match stack.find(id.as_str()) {
                Some(v) => Some(v.clone()),
                None => None,
            };
            match found {
                Some(Value::FixLambda { argname, f }) => bind_and_descend(
                    f,
                    argname,
                    Value::FixLambda { argname, f },
                    frames,
                    stack,
                ),
                Some(v) => Turn::Go(Machine { control: Doing::Return(v), frames, stack }),
                None => Turn::Fault(Fault::Unbound),
            }
        },
        ExprKind::Unit => Turn::Go(Machine { control: Doing::Return(Value::Unit), frames, stack }),
        ExprKind::Boolean(b) => Turn::Go(Machine { control: Doing::Return(Value::Boolean(*b)), frames, stack }),
        ExprKind::Integer(i) => Turn::Go(Machine { control: Doing::Return(Value::Integer(*i)), frames, stack }),
        ExprKind::PureString(s) => Turn::Go(
            Machine { control: Doing::Return(Value::PureString(s.clone())), frames, stack },
        ),
    }
}

/// Picks the alternative of a match.
fn pick_case<'a, 'b>(cases: &'a Vec<Case>, v: &'b Value<'a>) -> (r: Result<
    (usize, NameMap<&'a str, &'b Value<'a>>),
    Fault,
>)
    ensures
        match select(cases@, 0, v@) {
            Choice::Taken(i, found) => r matches Ok((at, coll)) && at == i && at < cases@.len() && found == referred(
                coll,
            ),
            Choice::Stuck(f) => r matches Err(g) && f == g,
        },
{
    let mut i: usize = 0;
    while i < cases.len()
        invariant
            i <= cases@.len(),
            select(cases@, 0, v@) == select(cases@, i as int, v@),
        decreases cases@.len() - i,
    {
        let mut coll: NameMap<&'a str, &'b Value<'a>> = NameMap::new();
        assert(referred(coll) =~= Map::<Seq<char>, Val<'a>>::empty());
        match run_pat(&mut coll, &cases[i].pat, v) {
            Fitting::Fits => {
                return Ok((i, coll));
            },
            Fitting::Differs => {},
            Fitting::Faulty => {
                return Err(Fault::UnitPattern);
            },
        }
        i += 1;
    }
    Err(Fault::NoCaseFits)
}

/// One step out, with a value, to the innermost frame.
fn do_return<'a>(
    v: Value<'a>,
    top: Pending<'a>,
    mut frames: Vec<Pending<'a>>,
    mut stack: VarStack<'a>,
) -> (r: Turn<'a>)
    requires
        nested(frames@.push(top), stack.bindings().len()),
    ensures
        r@ == step_return(
            v@,
            frame_of(top, stack.bindings()),
            frames_of(frames@, stack.bindings()),
            stack@,
        ),
        r.matched(),
{
    proof {
        lemma_nested_pop(frames@, top, stack.bindings().len());
    }
    match top {
        Pending::Bind { name, rest } => {
            let ghost outer = stack.bindings();
            let depth: usize = stack.depth();
            stack.push(name, v);
            proof {
                assert(stack.bindings().take(outer.len() as int) =~= outer);
                lemma_enter(frames@, outer, stack.bindings(), depth, None);
            }
            frames.push(Pending::Leave { depth, kept: None });
            Turn::Go(Machine { control: Doing::Block(rest, 0), frames, stack })
        },
        Pending::Leave { depth, kept } => {
            proof {
                lemma_frames_shrink(frames@, depth, kept, stack.bindings());
            }
            stack.truncate(depth);
            Turn::Go(Machine { control: Doing::Return(v), frames, stack })
        },
        Pending::Stmt { blk, next } => Turn::Go(Machine { control: Doing::Block(blk, next), frames, stack }),
        Pending::Branch { then_blk, or_else } => match v {
            Value::Boolean(b) => Turn::Go(
                Machine {
                    control: Doing::Block(
                        if b {
                            then_blk
                        } else {
                            or_else
                        },
                        0,
                    ),
                    frames,
                    stack,
                },
            ),
            _ => Turn::Fault(Fault::ConditionNotBoolean),
        },
        Pending::Argument { prim } => descend(prim, Pending::Callee { arg: v }, frames, stack),
        Pending::Callee { arg } => Turn::Go(Machine { control: Doing::Call(v, arg), frames, stack }),
        Pending::Dot { key } => match take_field(v, key) {
            Ok(x) => Turn::Go(Machine { control: Doing::Return(x), frames, stack }),
            Err(f) => Turn::Fault(f),
        },
        Pending::Part { parts, next, text } => {
            let mut text = text;
            if push_shown(&mut text, &v) {
                Turn::Go(Machine { control: Doing::Parts(parts, next, text), frames, stack })
            } else {
                Turn::Fault(Fault::NotText)
            }
        },
        Pending::Field { fields: fs, next, done } => {
            let mut done = done;
            insert_field(&mut done, fs.name_at(next - 1).as_str(), v);
            Turn::Go(Machine { control: Doing::Fields(fs, next, done), frames, stack })
        },
        Pending::Original { ovrd } => descend(ovrd, Pending::Override { orig: v }, frames, stack),
        Pending::Override { orig } => match update(orig, v) {
            Ok(x) => Turn::Go(Machine { control: Doing::Return(x), frames, stack }),
            Err(f) => Turn::Fault(f),
        },
        Pending::Cases { cases } => match pick_case(cases, &v) {
            Ok((i, coll)) => {
                let ghost outer = stack.bindings();
                let depth: usize = stack.depth();
                stack.push_copies(&coll);
                proof {
                    lemma_enter(frames@, outer, stack.bindings(), depth, Some(v));
                }
                frames.push(Pending::Leave { depth, kept: Some(v) });
                Turn::Go(Machine { control: Doing::Eval(&cases[i].body), frames, stack })
            },
            Err(f) => Turn::Fault(f),
        },
    }
}

impl<'a> Machine<'a> {
    #[verifier::type_invariant]
    spec fn well_formed(&self) -> bool {
        &&& nested(self.frames@, self.stack.bindings().len())
        &&& match self.control {
            Doing::Block(blk, i) => i <= blk.stmts@.len(),
            Doing::Parts(parts, i, text) => i <= parts@.len(),
            Doing::Fields(fs, i, done) => i <= fs.spine().len(),
            _ => true,
        }
    }

    /// One step.
    pub fn step(self) -> (r: Turn<'a>)
        ensures
            r@ == step(self@),
            r.matched(),
    {
        proof {
            use_type_invariant(&self);
        }
        let ghost all = self.frames@;
        let ghost shape = frames_of(self.frames@, self.stack.bindings());
        let Machine { control, mut frames, mut stack } = self;
        match control {
            Doing::Eval(e) => do_eval(e, frames, stack),
            Doing::Block(blk, i) => if i < blk.stmts.len() {
                proof {
                    lemma_frames_push(frames@, Pending::Stmt { blk, next: (i + 1) as usize }, stack.bindings());
                }
                frames.push(Pending::Stmt { blk, next: i + 1 });
                Turn::Go(Machine { control: Doing::Eval(&blk.stmts[i]), frames, stack })
            } else {
                match &blk.term {
                    Some(t) => Turn::Go(Machine { control: Doing::Eval(t), frames, stack }),
                    None => Turn::Go(Machine { control: Doing::Return(Value::Unit), frames, stack }),
                }
            },
            Doing::Parts(parts, i, text) => if i < parts.len() {
                proof {
                    lemma_frames_push(
                        frames@,
                        Pending::Part { parts, next: (i + 1) as usize, text },
                        stack.bindings(),
                    );
                }
                frames.push(Pending::Part { parts, next: i + 1, text });
                Turn::Go(Machine { control: Doing::Eval(&parts[i]), frames, stack })
            } else {
                Turn::Go(Machine { control: Doing::Return(Value::PureString(text)), frames, stack })
            },
            Doing::Fields(fs, i, done) => if i < fs.len() {
                proof {
                    lemma_frames_push(
                        frames@,
                        Pending::Field { fields: fs, next: (i + 1) as usize, done },
                        stack.bindings(),
                    );
                }
                frames.push(Pending::Field { fields: fs, next: i + 1, done });
                Turn::Go(Machine { control: Doing::Eval(fs.value_at(i)), frames, stack })
            } else {
                Turn::Go(Machine { control: Doing::Return(Value::Record(done)), frames, stack })
            },
            Doing::Call(prim, arg) => match call_value(prim, arg) {
                Callee::Value(v) => Turn::Go(Machine { control: Doing::Return(v), frames, stack }),
                Callee::Ask(q) => {
                    let kind = request_kind(&q);
                    Turn::Ask(q, Suspended { kind, frames, stack })
                },
                Callee::Enter { name, arg, saved, body } => {
                    let ghost outer = stack.bindings();
                    let depth: usize = stack.depth();
                    stack.push(name, arg);
                    let ghost middle = stack.bindings();
                    stack.push_all(saved);
                    proof {
                        assert(middle.take(outer.len() as int) =~= outer);
                        lemma_take_through(outer, middle, stack.bindings());
                        lemma_enter(frames@, outer, stack.bindings(), depth, None);
                    }
                    frames.push(Pending::Leave { depth, kept: None });
                    Turn::Go(Machine { control: Doing::Eval(body), frames, stack })
                },
                Callee::Stuck(f) => Turn::Fault(f),
            },
            Doing::Return(v) => match frames.pop() {
                None => Turn::Done(v),
                Some(top) => {
                    assert(frames@.push(top) =~= all);
                    proof {
                        lemma_frames_push(frames@, top, stack.bindings());
                        assert(shape.drop_last() =~= frames_of(frames@, stack.bindings()));
                    }
                    do_return(v, top, frames, stack)
                },
            },
        }
    }
}

impl<'a> Machine<'a> {
    /// A machine that is about to evaluate an expression in the scope of a stack.
    pub fn new(expr: &'a Expr, stack: VarStack<'a>) -> (r: Self)
        ensures
            r@ == start(*expr, stack@),
    {
        let frames: Vec<Pending<'a>> = Vec::new();
        assert(frames_of(frames@, stack.bindings()) =~= Seq::<Frame<'a>>::empty());
        Machine { control: Doing::Eval(expr), frames, stack }
    }

    /// A machine that is about to run a block in the scope of a stack.
    pub fn of_block(blk: &'a Block, stack: VarStack<'a>) -> (r: Self)
        ensures
            r@ == start_block(*blk, stack@),
    {
        let frames: Vec<Pending<'a>> = Vec::new();
        assert(frames_of(frames@, stack.bindings()) =~= Seq::<Frame<'a>>::empty());
        Machine { control: Doing::Block(blk, 0), frames, stack }
    }
}

impl<'a> Suspended<'a> {
    /// Takes the reply to the request.
    pub fn accept(self, reply: Reply<'a>) -> (r: Result<Machine<'a>, Fault>)
        ensures
            match answer(self.kind(), reply@) {
                Some(v) => r matches Ok(m) && m@ == (State {
                    control: Control::Return(v),
                    frames: self.frames(),
                    scope: self.scope(),
                }),
                None => r == Err::<Machine<'a>, Fault>(Fault::UnexpectedReply),
            },
    {
        proof {
            use_type_invariant(&self);
        }
        let Suspended { kind, frames, stack } = self;
        let v = match (kind, reply) {
            (ReqKind::SpawnThread, Reply::Done) => Value::Unit,
            (ReqKind::StdioWrite, Reply::Done) => Value::Unit,
            (ReqKind::MakeChan, Reply::Channel { send, recv }) => {
                let mut ends: NameMap<&'a str, Value<'a>> = NameMap::new();
                assert(fields(ends) =~= Map::<Seq<char>, Val<'a>>::empty());
                insert_field(&mut ends, "send", Value::ChanSend(send));
                insert_field(&mut ends, "recv", Value::ChanRecv(recv));
                Value::Record(ends)
            },
            (ReqKind::ChanSend, Reply::Sent(accepted)) => Value::Boolean(accepted),
            (ReqKind::ChanRecv, Reply::Received(Some(v))) => Value::Tagged { key: "Some", value: Box::new(v) },
            (ReqKind::ChanRecv, Reply::Received(None)) => Value::Tagged { key: "None", value: Box::new(Value::Unit) },
            _ => {
                return Err(Fault::UnexpectedReply);
            },
        };
        Ok(Machine { control: Doing::Return(v), frames, stack })
    }
}

} // verus!
