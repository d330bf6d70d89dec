//! Laws of the builtin functions: arithmetic, comparison, equality, and what programs ask of their host.
use crate::equality::{law_equality_is_reflexive_without_channels, law_equality_is_symmetric};
use crate::semantics::{ask, eval_call, Answer, Fault, Io, Rep, Req, Scope};
use crate::value::{arity, same, Builtin, Val};
use vstd::prelude::*;

verus! {

/// A builtin function of two arguments, called with one and then with the other, gives the value.
pub open spec fn gives<'a>(f: Builtin, x: Val<'a>, y: Val<'a>, r: Val<'a>) -> bool {
    forall|d: nat, scope: Scope<'a>, io: Io<'a>|
        d > 0 ==> #[trigger] eval_call(d, Val::Builtin(f, seq![x]), y, scope, io) == (Answer::Value(r), io)
}

/// So called, it is a fault.
pub open spec fn fails<'a>(f: Builtin, x: Val<'a>, y: Val<'a>, fault: Fault) -> bool {
    forall|d: nat, scope: Scope<'a>, io: Io<'a>|
        d > 0 ==> #[trigger] eval_call(d, Val::Builtin(f, seq![x]), y, scope, io) == (Answer::<'a>::Fault(fault), io)
}

/// A builtin function of one argument, called with it, gives the value.
pub open spec fn gives_one<'a>(f: Builtin, x: Val<'a>, r: Val<'a>) -> bool {
    forall|d: nat, scope: Scope<'a>, io: Io<'a>|
        d > 0 ==> #[trigger] eval_call(d, Val::Builtin(f, Seq::empty()), x, scope, io) == (Answer::Value(r), io)
}

/// So called, it is a fault.
pub open spec fn fails_one<'a>(f: Builtin, x: Val<'a>, fault: Fault) -> bool {
    forall|d: nat, scope: Scope<'a>, io: Io<'a>|
        d > 0 ==> #[trigger] eval_call(d, Val::Builtin(f, Seq::empty()), x, scope, io) == (
            Answer::<'a>::Fault(fault),
            io,
        )
}

/// So called, it makes the request.
pub open spec fn requests_one<'a>(f: Builtin, x: Val<'a>, q: Req<'a>) -> bool {
    forall|d: nat, scope: Scope<'a>, io: Io<'a>|
        d > 0 ==> #[trigger] eval_call(d, Val::Builtin(f, Seq::empty()), x, scope, io) == ask(q, io)
}

/// The two arguments of a call, in order.
proof fn lemma_pair<'a>(f: Builtin, x: Val<'a>, y: Val<'a>)
    ensures
        seq![x].push(y).len() == 2,
        seq![x].push(y)[0] == x,
        seq![x].push(y)[1] == y,
{
}

/// A builtin function of two arguments waits for the second: the call with the first gives a function,
/// asks nothing, and that function called with the second sees both.
pub proof fn law_the_first_argument_is_kept<'a>(f: Builtin, x: Val<'a>)
    ensures
        arity(f) == 2 ==> gives_one(f, x, Val::Builtin(f, seq![x])),
        arity(f) == 2 <==> f is Plus || f is Minus || f is Mult || f is Eq || f is Leq || f is ChanSend,
        arity(f) == 1 <==> f is Not || f is SpawnThread || f is MakeChan || f is ChanRecv || f is StdioWrite,
{
    assert(Seq::<Val<'a>>::empty().push(x) =~= seq![x]);
}

/// A builtin function that holds its arguments already takes no more.
pub proof fn law_no_argument_too_many<'a>(
    d: nat,
    f: Builtin,
    args: Seq<Val<'a>>,
    x: Val<'a>,
    scope: Scope<'a>,
    io: Io<'a>,
)
    requires
        d > 0,
        args.len() >= arity(f),
    ensures
        eval_call(d, Val::Builtin(f, args), x, scope, io) == (Answer::<'a>::Fault(Fault::TooManyArguments), io),
{
}

/// A sum is the one number that is as far from the one summand as the other is from zero; it is a fault
/// exactly where that does not fit.
pub proof fn law_plus<'a>(a: i32, b: i32, c: i32)
    ensures
        c - a == b - 0 ==> gives(Builtin::Plus, Val::<'a>::Integer(a), Val::Integer(b), Val::Integer(c)),
        !(i32::MIN <= a + b <= i32::MAX) ==> fails(
            Builtin::Plus,
            Val::<'a>::Integer(a),
            Val::Integer(b),
            Fault::Overflow(Builtin::Plus),
        ),
{
    lemma_pair(Builtin::Plus, Val::<'a>::Integer(a), Val::Integer(b));
}

/// Sums do not rest on the order of the summands, zero changes nothing, and a summand greater by one
/// makes the sum greater by one.
pub proof fn law_plus_counts_on<'a>(a: i32, b: i32, c: i32)
    ensures
        gives(Builtin::Plus, Val::<'a>::Integer(a), Val::Integer(0), Val::Integer(a)),
        gives(Builtin::Plus, Val::<'a>::Integer(a), Val::Integer(b), Val::Integer(c)) <==> gives(
            Builtin::Plus,
            Val::<'a>::Integer(b),
            Val::Integer(a),
            Val::Integer(c),
        ),
        b < i32::MAX && c < i32::MAX ==> (gives(
            Builtin::Plus,
            Val::<'a>::Integer(a),
            Val::Integer(b),
            Val::Integer(c),
        ) <==> gives(
            Builtin::Plus,
            Val::<'a>::Integer(a),
            Val::Integer((b + 1) as i32),
            Val::Integer((c + 1) as i32),
        )),
{
    law_gives_one_sum(a, b, c);
    law_gives_one_sum(b, a, c);
    law_plus(a, 0, a);
    if b < i32::MAX && c < i32::MAX {
        law_gives_one_sum(a, (b + 1) as i32, (c + 1) as i32);
    }
}

/// Only the sum is given.
pub proof fn law_gives_one_sum<'a>(a: i32, b: i32, c: i32)
    ensures
        gives(Builtin::Plus, Val::<'a>::Integer(a), Val::Integer(b), Val::Integer(c)) <==> c - a == b,
{
    lemma_pair(Builtin::Plus, Val::<'a>::Integer(a), Val::Integer(b));
    let scope = Map::<Seq<char>, Val<'a>>::empty();
    let io = Io { replies: Seq::<Rep<'a>>::empty(), asked: Seq::<Req<'a>>::empty() };
    let r = eval_call(1, Val::Builtin(Builtin::Plus, seq![Val::Integer(a)]), Val::Integer(b), scope, io);
    if gives(Builtin::Plus, Val::<'a>::Integer(a), Val::Integer(b), Val::Integer(c)) {
        assert(r == (Answer::<'a>::Value(Val::Integer(c)), io));
    }
    if c - a == b {
        law_plus(a, b, c);
    }
}

/// A difference undoes a sum: `c - b` is `a` exactly where `a + b` is `c`; it is a fault exactly where
/// that does not fit.
pub proof fn law_minus_undoes_plus<'a>(a: i32, b: i32, c: i32)
    ensures
        gives(Builtin::Minus, Val::<'a>::Integer(c), Val::Integer(b), Val::Integer(a)) <==> gives(
            Builtin::Plus,
            Val::<'a>::Integer(a),
            Val::Integer(b),
            Val::Integer(c),
        ),
        !(i32::MIN <= c - b <= i32::MAX) ==> fails(
            Builtin::Minus,
            Val::<'a>::Integer(c),
            Val::Integer(b),
            Fault::Overflow(Builtin::Minus),
        ),
{
    law_gives_one_sum(a, b, c);
    lemma_pair(Builtin::Minus, Val::<'a>::Integer(c), Val::Integer(b));
    let scope = Map::<Seq<char>, Val<'a>>::empty();
    let io = Io { replies: Seq::<Rep<'a>>::empty(), asked: Seq::<Req<'a>>::empty() };
    let r = eval_call(1, Val::Builtin(Builtin::Minus, seq![Val::Integer(c)]), Val::Integer(b), scope, io);
    if gives(Builtin::Minus, Val::<'a>::Integer(c), Val::Integer(b), Val::Integer(a)) {
        assert(r == (Answer::<'a>::Value(Val::Integer(a)), io));
    }
}

/// A product is the first factor, as often as the second says; it is a fault exactly where that does
/// not fit.
pub proof fn law_mult<'a>(a: i32, b: i32, c: i32)
    ensures
        gives(Builtin::Mult, Val::<'a>::Integer(a), Val::Integer(b), Val::Integer(c)) <==> a * b == c,
        !(i32::MIN <= a * b <= i32::MAX) ==> fails(
            Builtin::Mult,
            Val::<'a>::Integer(a),
            Val::Integer(b),
            Fault::Overflow(Builtin::Mult),
        ),
{
    lemma_pair(Builtin::Mult, Val::<'a>::Integer(a), Val::Integer(b));
    let scope = Map::<Seq<char>, Val<'a>>::empty();
    let io = Io { replies: Seq::<Rep<'a>>::empty(), asked: Seq::<Req<'a>>::empty() };
    let r = eval_call(1, Val::Builtin(Builtin::Mult, seq![Val::Integer(a)]), Val::Integer(b), scope, io);
    if gives(Builtin::Mult, Val::<'a>::Integer(a), Val::Integer(b), Val::Integer(c)) {
        assert(r == (Answer::<'a>::Value(Val::Integer(c)), io));
    }
}

/// Products do not rest on the order of the factors, none of a number is zero and one of it is the
/// number; one time more is one number more, as addition has it.
pub proof fn law_mult_repeats_plus<'a>(a: i32, b: i32, c: i32, e: i32)
    ensures
        gives(Builtin::Mult, Val::<'a>::Integer(a), Val::Integer(0), Val::Integer(0)),
        gives(Builtin::Mult, Val::<'a>::Integer(a), Val::Integer(1), Val::Integer(a)),
        gives(Builtin::Mult, Val::<'a>::Integer(a), Val::Integer(b), Val::Integer(c)) <==> gives(
            Builtin::Mult,
            Val::<'a>::Integer(b),
            Val::Integer(a),
            Val::Integer(c),
        ),
        b < i32::MAX && gives(Builtin::Mult, Val::<'a>::Integer(a), Val::Integer(b), Val::Integer(c)) ==> (gives(
            Builtin::Mult,
            Val::<'a>::Integer(a),
            Val::Integer((b + 1) as i32),
            Val::Integer(e),
        ) <==> gives(Builtin::Plus, Val::<'a>::Integer(c), Val::Integer(a), Val::Integer(e))),
{
    law_mult(a, 0, 0);
    law_mult(a, 1, a);
    law_mult(a, b, c);
    law_mult(b, a, c);
    assert(a * b == b * a) by (nonlinear_arith);
    assert(a * 0 == 0 && a * 1 == a);
    if b < i32::MAX {
        law_mult(a, (b + 1) as i32, e);
        law_gives_one_sum(c, a, e);
        assert(a * (b + 1) == a * b + a) by (nonlinear_arith);
    }
}

/// `std.leq` says of the two numbers that the first is at most the second.
pub open spec fn at_most(a: i32, b: i32) -> bool {
    gives(Builtin::Leq, Val::Integer(a), Val::Integer(b), Val::Boolean(true))
}

/// The comparison always has a boolean value.
proof fn lemma_leq<'a>(a: i32, b: i32)
    ensures
        at_most(a, b) <==> a <= b,
        !at_most(a, b) ==> gives(Builtin::Leq, Val::<'a>::Integer(a), Val::Integer(b), Val::Boolean(false)),
{
    lemma_pair(Builtin::Leq, Val::<'a>::Integer(a), Val::Integer(b));
    let scope = Map::<Seq<char>, Val<'a>>::empty();
    let io = Io { replies: Seq::<Rep<'a>>::empty(), asked: Seq::<Req<'a>>::empty() };
    let r = eval_call(1, Val::Builtin(Builtin::Leq, seq![Val::Integer(a)]), Val::Integer(b), scope, io);
    if at_most(a, b) {
        assert(r == (Answer::<'a>::Value(Val::Boolean(true)), io));
    }
}

/// The comparison is a total order of the numbers: of any two, the first is at most the second or the
/// second at most the first, both only where they are one number; what is at most something that is at
/// most a third is at most the third. It always says true or false.
pub proof fn law_leq_is_a_total_order<'a>(a: i32, b: i32, c: i32)
    ensures
        at_most(a, b) || at_most(b, a),
        at_most(a, b) && at_most(b, a) ==> a == b,
        at_most(a, a),
        at_most(a, b) && at_most(b, c) ==> at_most(a, c),
        at_most(a, b) != gives(Builtin::Leq, Val::<'a>::Integer(a), Val::Integer(b), Val::Boolean(false)),
{
    lemma_leq(a, b);
    lemma_leq(b, a);
    lemma_leq(a, a);
    lemma_leq(b, c);
    lemma_leq(a, c);
    let scope = Map::<Seq<char>, Val<'a>>::empty();
    let io = Io { replies: Seq::<Rep<'a>>::empty(), asked: Seq::<Req<'a>>::empty() };
    let r = eval_call(1, Val::Builtin(Builtin::Leq, seq![Val::Integer(a)]), Val::Integer(b), scope, io);
    if at_most(a, b) {
        assert(r == (Answer::<'a>::Value(Val::Boolean(true)), io));
        if gives(Builtin::Leq, Val::<'a>::Integer(a), Val::Integer(b), Val::Boolean(false)) {
            assert(r == (Answer::<'a>::Value(Val::Boolean(false)), io));
        }
    }
}

/// The order fits addition: a number is at most its sum with another exactly where zero is at most that
/// other, and numbers that are followed by others stay below them.
pub proof fn law_leq_fits_addition<'a>(a: i32, n: i32, c: i32)
    requires
        gives(Builtin::Plus, Val::<'a>::Integer(a), Val::Integer(n), Val::Integer(c)),
    ensures
        at_most(a, c) <==> at_most(0, n),
        n >= 0 ==> at_most(a, c),
        n < 0 ==> !at_most(a, c),
{
    law_gives_one_sum(a, n, c);
    lemma_leq(a, c);
    lemma_leq(0, n);
}

/// Two numbers are equal exactly where each is at most the other.
pub proof fn law_eq_fits_leq<'a>(a: i32, b: i32)
    ensures
        gives(
            Builtin::Eq,
            Val::<'a>::Integer(a),
            Val::Integer(b),
            Val::Boolean(at_most(a, b) && at_most(b, a)),
        ),
{
    lemma_pair(Builtin::Eq, Val::<'a>::Integer(a), Val::Integer(b));
    lemma_leq(a, b);
    lemma_leq(b, a);
}

/// Equality takes all values and never faults; it does not rest on the order of the two, and a value
/// without channels is equal to itself.
pub proof fn law_eq_compares_all_values<'a>(x: Val<'a>, y: Val<'a>)
    ensures
        gives(Builtin::Eq, x, y, Val::Boolean(same(x, y))),
        gives(Builtin::Eq, y, x, Val::Boolean(same(x, y))),
        gives(Builtin::Eq, x, x, Val::Boolean(crate::equality::channel_free(x))),
{
    lemma_pair(Builtin::Eq, x, y);
    lemma_pair(Builtin::Eq, y, x);
    lemma_pair(Builtin::Eq, x, x);
    law_equality_is_symmetric(x, y);
    law_equality_is_reflexive_without_channels(x);
}

/// A negation gives the other boolean, and two of them the first again.
pub proof fn law_not_gives_the_other<'a>(b: bool, c: bool)
    ensures
        b != c <==> gives_one(Builtin::Not, Val::<'a>::Boolean(b), Val::Boolean(c)),
{
    let one = Seq::<Val<'a>>::empty().push(Val::Boolean(b));
    assert(one.len() == 1 && one[0] == Val::<'a>::Boolean(b));
    let scope = Map::<Seq<char>, Val<'a>>::empty();
    let io = Io { replies: Seq::<Rep<'a>>::empty(), asked: Seq::<Req<'a>>::empty() };
    let r = eval_call(1, Val::Builtin(Builtin::Not, Seq::empty()), Val::Boolean(b), scope, io);
    if gives_one(Builtin::Not, Val::<'a>::Boolean(b), Val::Boolean(c)) {
        assert(r == (Answer::<'a>::Value(Val::Boolean(c)), io));
    }
}

/// Arithmetic and comparison take integers and nothing else.
pub proof fn law_arithmetic_takes_integers<'a>(f: Builtin, x: Val<'a>, y: Val<'a>)
    requires
        f is Plus || f is Minus || f is Mult || f is Leq,
        !(x is Integer) || !(y is Integer),
    ensures
        fails(f, x, y, Fault::WrongArgument(f)),
{
    lemma_pair(f, x, y);
}

/// The functions of one argument take what they are for: a boolean to negate, a function to start as a
/// thread, unit to make a channel, a receiving end, or a text to write. All else is a fault, and what
/// they ask for is about just what they were given.
pub proof fn law_functions_of_one_argument<'a>(x: Val<'a>)
    ensures
        !(x is Boolean) ==> fails_one(Builtin::Not, x, Fault::WrongArgument(Builtin::Not)),
        x matches Val::Lambda { arg, body, saved } ==> requests_one(
            Builtin::SpawnThread,
            x,
            Req::SpawnThread { arg, body, saved },
        ),
        !(x is Lambda) ==> fails_one(Builtin::SpawnThread, x, Fault::WrongArgument(Builtin::SpawnThread)),
        x is Unit ==> requests_one(Builtin::MakeChan, x, Req::MakeChan),
        !(x is Unit) ==> fails_one(Builtin::MakeChan, x, Fault::WrongArgument(Builtin::MakeChan)),
        x matches Val::ChanRecv(rx) ==> requests_one(Builtin::ChanRecv, x, Req::ChanRecv(rx)),
        !(x is ChanRecv) ==> fails_one(Builtin::ChanRecv, x, Fault::WrongArgument(Builtin::ChanRecv)),
        x matches Val::Text(s) ==> requests_one(Builtin::StdioWrite, x, Req::StdioWrite(s)),
        !(x is Text) ==> fails_one(Builtin::StdioWrite, x, Fault::WrongArgument(Builtin::StdioWrite)),
{
    let one = Seq::<Val<'a>>::empty().push(x);
    assert(one.len() == 1 && one[0] == x);
}

/// To send takes the value first and then the sending end; the value can be any.
pub proof fn law_sending_takes_the_value_first<'a>(
    d: nat,
    v: Val<'a>,
    end: Val<'a>,
    scope: Scope<'a>,
    io: Io<'a>,
)
    requires
        d > 0,
    ensures
        end matches Val::ChanSend(tx) ==> eval_call(d, Val::Builtin(Builtin::ChanSend, seq![v]), end, scope, io)
            == ask(Req::ChanSend(tx, v), io),
        !(end is ChanSend) ==> fails(Builtin::ChanSend, v, end, Fault::WrongArgument(Builtin::ChanSend)),
{
    lemma_pair(Builtin::ChanSend, v, end);
}

/// The value that a request has is what the reply to it says; a reply to something else is a fault.
pub open spec fn replied<'a>(q: Req<'a>, r: Rep<'a>, v: Val<'a>) -> bool {
    match (q, r) {
        (Req::SpawnThread { arg, body, saved }, Rep::Done) => v is Unit,
        (Req::StdioWrite(text), Rep::Done) => v is Unit,
        (Req::MakeChan, Rep::Channel(tx, rx)) => v matches Val::Record(m) && m.contains_key("send"@) && m["send"@]
            == Val::ChanSend(tx) && m.contains_key("recv"@) && m["recv"@] == Val::ChanRecv(rx) && forall|k: Seq<char>|
         #[trigger]
            m.contains_key(k) ==> k == "send"@ || k == "recv"@,
        (Req::ChanSend(tx, x), Rep::Sent(accepted)) => v == Val::<'a>::Boolean(accepted),
        (Req::ChanRecv(rx), Rep::Received(Some(x))) => v matches Val::Tagged(key, inner) && key == "Some"@ && *inner
            == x,
        (Req::ChanRecv(rx), Rep::Received(None)) => v matches Val::Tagged(key, inner) && key == "None"@
            && *inner is Unit,
        _ => false,
    }
}

/// A request is noted behind those before it. Where no reply is to come, the program waits; otherwise
/// it takes the first reply, leaves the others, and goes on with the value that the reply says.
pub proof fn law_a_request_takes_one_reply<'a>(q: Req<'a>, io: Io<'a>)
    ensures
        ask(q, io).1.asked == io.asked.push(q),
        io.replies.len() == 0 ==> ask(q, io).0 == Answer::Waiting(q) && ask(q, io).1.replies == io.replies,
        io.replies.len() > 0 ==> ask(q, io).1.replies == io.replies.skip(1),
        io.replies.len() > 0 ==> (ask(q, io).0 matches Answer::Value(v) && replied(q, io.replies[0], v)) || (ask(q, io).0
            == Answer::<'a>::Fault(Fault::UnexpectedReply) && forall|v: Val<'a>| !replied(q, io.replies[0], v)),
{
    reveal_strlit("send");
    reveal_strlit("recv");
    assert("send"@[0] != "recv"@[0]);
    if io.replies.len() > 0 {
        assert(io.replies.drop_first() =~= io.replies.skip(1));
    }
}

} // verus!
