//! The interpreter: runs programs, exchanges values through channels for them, and stops where they
//! need their host.
use crate::adequacy::{
    law_steps_compute_meaning, law_steps_compute_meaning_of_block, same_end, silence, start, start_block,
    worker_scope,
};
use crate::chan::{recv, send, unbounded, ChanCall, Log};
use crate::exchange::{
    all_performed, asked_by, comes_to, law_channels_do_not_matter, on_channel, performed, replies_of, requests_of,
};
use crate::machine::{Machine, Reply, Request, Suspended, Turn};
use crate::names::NameMap;
use crate::semantics::{answer, eval, eval_block, kind_of, Answer, Fault, Io, Rep, Req};
use crate::small_step::{advance, Control, State, Status};
use crate::stack::{law_later_bindings_hide_earlier_ones, lemma_visible_fields, visible, Binding, VarStack};
use crate::syntax::{Block, Expr};
use crate::value::{fields, Value};
use vstd::prelude::*;

verus! {

/// Where an evaluation stands.
#[derive(Debug)]
pub enum Progress<'a> {
    /// the steps are used up, and it goes on
    Running(Machine<'a>),
    /// it waits for the reply to a request
    Waiting(Request<'a>, Suspended<'a>),
    /// it is at its end, with a value
    Done(Value<'a>),
    /// it is at its end, without one
    Fault(Fault),
}

impl<'a> View for Progress<'a> {
    type V = Status<'a>;

    open spec fn view(&self) -> Status<'a> {
        match *self {
            Progress::Running(m) => Status::Running(m@),
            Progress::Waiting(q, s) => Status::Waiting(q@, s.frames(), s.scope()),
            Progress::Done(v) => Status::Done(v@),
            Progress::Fault(f) => Status::Fault(f),
        }
    }
}

impl<'a> Progress<'a> {
    /// A suspended machine waits for a reply to the request that it comes with.
    pub open spec fn matched(&self) -> bool {
        *self matches Progress::Waiting(q, s) ==> s.kind() == kind_of(q@)
    }

    /// Where a machine that has channels comes to from a state, within `n` steps, and what the log says
    /// before and after: the log has grown by exactly the calls that the program asked for, and the
    /// end is where the state comes to with the replies of these calls; it is never a request about a
    /// channel. Where the first request of the program is not about a channel, or it makes none, no
    /// call is made, and the end is where the state comes to by itself.
    pub open spec fn reached(&self, n: nat, s: State<'a>, before: Seq<ChanCall<'a>>, after: Seq<ChanCall<'a>>) -> bool {
        &&& self.matched()
        &&& *self matches Progress::Waiting(q, _) ==> !on_channel(q@)
        &&& before.is_prefix_of(after)
        &&& comes_to(n, s, before, new_calls(before, after), self@)
        &&& (advance(n, s, silence()).0 matches Status::Waiting(q, _, _) ==> !on_channel(q)) ==> after == before
            && self@ == advance(n, s, silence()).0
    }

    /// What the evaluation of a program comes to within `n` steps from its first state: if it comes to
    /// an end, or to a request, then to the one that the program means, given the same replies.
    pub open spec fn evaluates(
        &self,
        n: nat,
        s: State<'a>,
        before: Seq<ChanCall<'a>>,
        after: Seq<ChanCall<'a>>,
        meaning: spec_fn(Io<'a>) -> (Answer<'a>, Io<'a>),
    ) -> bool {
        &&& self.reached(n, s, before, after)
        &&& meant(
            self@,
            asked_by(new_calls(before, after), self@),
            meaning(Io { replies: replies_of(new_calls(before, after)), asked: Seq::empty() }),
        )
    }
}

/// What has come to a log.
pub open spec fn new_calls<'a>(before: Seq<ChanCall<'a>>, after: Seq<ChanCall<'a>>) -> Seq<ChanCall<'a>> {
    after.skip(before.len() as int)
}

/// An end that the steps have come to, if they have, is the one that the program means.
pub open spec fn meant<'a>(end: Status<'a>, asked: Seq<Req<'a>>, meaning: (Answer<'a>, Io<'a>)) -> bool {
    end is Running || same_end((end, Io { replies: Seq::empty(), asked }), meaning)
}

/// Does what a request asks for, with one call, where it is about a channel; gives the others back.
pub fn perform<'a>(request: Request<'a>, log: &mut Log<'a>) -> (r: Result<Reply<'a>, Request<'a>>)
    ensures
        if on_channel(request@) {
            r matches Ok(reply) && performed(old(log)@, request@, reply@) && final(log)@ == old(log)@.push(
                (request@, reply@),
            )
        } else {
            r == Err::<Reply<'a>, Request<'a>>(request) && final(log)@ == old(log)@
        },
{
    match request {
        Request::MakeChan => {
            let (send, recv) = unbounded(log);
            Ok(Reply::Channel { send, recv })
        },
        Request::ChanSend { chan, value } => Ok(Reply::Sent(send(&chan, value, log))),
        Request::ChanRecv { chan } => Ok(Reply::Received(recv(&chan, log))),
        _ => Err(request),
    }
}

impl<'a> Machine<'a> {
    /// Takes at most `limit` steps, and stops at every request.
    pub fn go_on(self, limit: u64) -> (r: Progress<'a>)
        ensures
            r@ == advance(limit as nat, self@, silence()).0,
            r.matched(),
    {
        let mut left: u64 = limit;
        let mut machine = self;
        let ghost whole = advance(limit as nat, self@, silence());
        while left > 0
            invariant
                whole == advance(limit as nat, self@, silence()),
                whole == advance(left as nat, machine@, silence()),
            decreases left,
        {
            match machine.step() {
                Turn::Go(next) => {
                    machine = next;
                },
                Turn::Ask(q, s) => {
                    return Progress::Waiting(q, s);
                },
                Turn::Done(v) => {
                    return Progress::Done(v);
                },
                Turn::Fault(f) => {
                    return Progress::Fault(f);
                },
            }
            left -= 1;
        }
        Progress::Running(machine)
    }

    /// Takes at most `limit` steps, and does on the way what the program asks of channels.
    pub fn carry_on(self, limit: u64, log: &mut Log<'a>) -> (r: Progress<'a>)
        ensures
            r.reached(limit as nat, self@, old(log)@, final(log)@),
    {
        let r = self.work(limit, log);
        proof {
            let calls = new_calls(old(log)@, log@);
            if advance(limit as nat, self@, silence()).0 matches Status::Waiting(q, _, _) ==> !on_channel(q) {
                law_channels_do_not_matter(limit as nat, self@, old(log)@, calls, r@);
                assert(log@ =~= old(log)@);
            }
        }
        r
    }

    fn work(self, limit: u64, log: &mut Log<'a>) -> (r: Progress<'a>)
        ensures
            r.matched(),
            r matches Progress::Waiting(q, _) ==> !on_channel(q@),
            old(log)@.is_prefix_of(final(log)@),
            comes_to(limit as nat, self@, old(log)@, new_calls(old(log)@, final(log)@), r@),
    {
        let mut left: u64 = limit;
        let mut machine = self;
        let ghost none = Seq::<Rep<'a>>::empty();
        let ghost mut calls: Seq<ChanCall<'a>> = Seq::empty();
        proof {
            assert(log@ =~= old(log)@ + calls);
            assert(requests_of(calls) =~= Seq::empty());
            assert forall|more: Seq<Rep<'a>>|
                advance(limit as nat, self@, Io { replies: replies_of(calls) + more, asked: Seq::empty() })
                    == #[trigger] advance(limit as nat, self@, Io { replies: more, asked: requests_of(calls) }) by {
                assert(replies_of(calls) + more =~= more);
            }
        }
        while left > 0
            invariant
                none.len() == 0,
                log@ == old(log)@ + calls,
                all_performed(old(log)@, calls),
                forall|more: Seq<Rep<'a>>|
                    advance(limit as nat, self@, Io { replies: replies_of(calls) + more, asked: Seq::empty() })
                        == #[trigger] advance(left as nat, machine@, Io { replies: more, asked: requests_of(calls) }),
            decreases left,
        {
            let ghost before = machine@;
            proof {
                assert(new_calls(old(log)@, log@) =~= calls);
                assert(old(log)@.is_prefix_of(log@));
                assert(replies_of(calls) + none =~= replies_of(calls));
                assert(none =~= Seq::empty());
                assert(advance(limit as nat, self@, Io { replies: replies_of(calls) + none, asked: Seq::empty() })
                    == advance(left as nat, before, Io { replies: none, asked: requests_of(calls) }));
            }
            left -= 1;
            match machine.step() {
                Turn::Go(next) => {
                    machine = next;
                    assert forall|more: Seq<Rep<'a>>|
                        advance(limit as nat, self@, Io { replies: replies_of(calls) + more, asked: Seq::empty() })
                            == #[trigger] advance(
                            left as nat,
                            machine@,
                            Io { replies: more, asked: requests_of(calls) },
                        ) by {
                        assert(advance((left + 1) as nat, before, Io { replies: more, asked: requests_of(calls) })
                            == advance(left as nat, machine@, Io { replies: more, asked: requests_of(calls) }));
                    }
                },
                Turn::Ask(q, s) => {
                    let ghost asks = q@;
                    match perform(q, log) {
                        Ok(reply) => {
                            let ghost rep = reply@;
                            let ghost more_calls = calls.push((asks, rep));
                            match s.accept(reply) {
                                Ok(next) => {
                                    machine = next;
                                },
                                Err(f) => {
                                    return Progress::Fault(f);
                                },
                            }
                            proof {
                                lemma_one_more_call(old(log)@, calls, (asks, rep));
                                assert forall|more: Seq<Rep<'a>>|
                                    advance(
                                        limit as nat,
                                        self@,
                                        Io { replies: replies_of(more_calls) + more, asked: Seq::empty() },
                                    ) == #[trigger] advance(
                                        left as nat,
                                        machine@,
                                        Io { replies: more, asked: requests_of(more_calls) },
                                    ) by {
                                    let first = seq![rep] + more;
                                    assert(replies_of(more_calls) + more =~= replies_of(calls) + first);
                                    assert(requests_of(more_calls) =~= requests_of(calls).push(asks));
                                    assert(first.drop_first() =~= more);
                                    assert(advance(
                                        (left + 1) as nat,
                                        before,
                                        Io { replies: first, asked: requests_of(calls) },
                                    ) == advance(
                                        left as nat,
                                        machine@,
                                        Io { replies: more, asked: requests_of(more_calls) },
                                    ));
                                }
                                calls = more_calls;
                                assert(log@ =~= old(log)@ + calls);
                            }
                        },
                        Err(q) => {
                            return Progress::Waiting(q, s);
                        },
                    }
                },
                Turn::Done(v) => {
                    return Progress::Done(v);
                },
                Turn::Fault(f) => {
                    return Progress::Fault(f);
                },
            }
        }
        proof {
            assert(new_calls(old(log)@, log@) =~= calls);
            assert(replies_of(calls) + none =~= replies_of(calls));
            assert(none =~= Seq::empty());
            assert(advance(limit as nat, self@, Io { replies: replies_of(calls) + none, asked: Seq::empty() })
                == advance(0, machine@, Io { replies: none, asked: requests_of(calls) }));
        }
        Progress::Running(machine)
    }
}

/// One more call after others.
proof fn lemma_one_more_call<'a>(before: Seq<ChanCall<'a>>, calls: Seq<ChanCall<'a>>, call: ChanCall<'a>)
    requires
        all_performed(before, calls),
        performed(before + calls, call.0, call.1),
    ensures
        all_performed(before, calls.push(call)),
{
    let all = calls.push(call);
    assert forall|i: int| 0 <= i < all.len() implies performed(before + all.take(i), (#[trigger] all[i]).0, all[i].1) by {
        if i < calls.len() {
            assert(all.take(i) =~= calls.take(i));
            assert(performed(before + calls.take(i), calls[i].0, calls[i].1));
        } else {
            assert(all.take(i) =~= calls);
        }
    }
}

/// Evaluates an expression in the scope of a stack, with at most `limit` steps before it comes to an
/// end or needs its host.
pub fn run<'a>(expr: &'a Expr, stack: VarStack<'a>, limit: u64, log: &mut Log<'a>) -> (r: Progress<'a>)
    ensures
        r.evaluates(
            limit as nat,
            start(*expr, stack@),
            old(log)@,
            final(log)@,
            |io: Io<'a>| eval(limit as nat, *expr, stack@, io),
        ),
{
    let r = Machine::new(expr, stack).carry_on(limit, log);
    proof {
        let replies = replies_of(new_calls(old(log)@, log@));
        law_steps_compute_meaning(limit as nat, *expr, stack@, Io { replies, asked: Seq::empty() });
    }
    r
}

/// Runs a block in the scope of a stack, with at most `limit` steps before it comes to an end or
/// needs its host.
pub fn run_block<'a>(blk: &'a Block, stack: VarStack<'a>, limit: u64, log: &mut Log<'a>) -> (r: Progress<'a>)
    ensures
        r.evaluates(
            limit as nat,
            start_block(*blk, stack@),
            old(log)@,
            final(log)@,
            |io: Io<'a>| eval_block(limit as nat, *blk, 0, stack@, io),
        ),
{
    let r = Machine::of_block(blk, stack).carry_on(limit, log);
    proof {
        let replies = replies_of(new_calls(old(log)@, log@));
        law_steps_compute_meaning_of_block(limit as nat, *blk, stack@, Io { replies, asked: Seq::empty() });
    }
    r
}

/// Evaluates an expression where saved variables are bound on top of a stack, one after the other: of
/// two with one name the later counts.
pub fn run_stacksave<'a>(
    expr: &'a Expr,
    stack: VarStack<'a>,
    stacksave: Vec<Binding<'a>>,
    limit: u64,
    log: &mut Log<'a>,
) -> (r: Progress<'a>)
    ensures
        r.evaluates(
            limit as nat,
            start(*expr, visible(stack.bindings() + stacksave@)),
            old(log)@,
            final(log)@,
            |io: Io<'a>| eval(limit as nat, *expr, visible(stack.bindings() + stacksave@), io),
        ),
{
    let mut stack = stack;
    stack.push_list(stacksave);
    run(expr, stack, limit, log)
}

/// Starts the work of a new thread: a call of the function with unit, where nothing but what it has
/// captured is in sight.
pub fn run_worker<'a>(
    argname: &'a str,
    f: &'a Expr,
    stacksave: NameMap<&'a str, Value<'a>>,
    limit: u64,
    log: &mut Log<'a>,
) -> (r: Progress<'a>)
    ensures
        r.evaluates(
            limit as nat,
            start(*f, worker_scope(argname@, fields(stacksave))),
            old(log)@,
            final(log)@,
            |io: Io<'a>| eval(limit as nat, *f, worker_scope(argname@, fields(stacksave)), io),
        ),
{
    let mut stack = VarStack::new();
    stack.push(argname, Value::Unit);
    proof {
        use_type_invariant(&stacksave);
        lemma_visible_fields(stacksave);
        law_later_bindings_hide_earlier_ones(stack.bindings(), stacksave.spine());
    }
    run_stacksave(f, stack, stacksave.into_entries(), limit, log)
}

/// Checks the value with which a thread ends: only unit will do.
pub fn worker_end<'a>(v: &Value<'a>) -> (r: Result<(), Fault>)
    ensures
        r == (if v@ is Unit {
            Ok::<(), Fault>(())
        } else {
            Err(Fault::WorkerResult)
        }),
{
    match v {
        Value::Unit => Ok(()),
        _ => Err(Fault::WorkerResult),
    }
}

/// Goes on with the reply to a request, with at most `limit` steps before the evaluation comes to an
/// end or needs its host again.
pub fn resume<'a>(
    waiting: Suspended<'a>,
    reply: Reply<'a>,
    limit: u64,
    log: &mut Log<'a>,
) -> (r: Progress<'a>)
    ensures
        match answer(waiting.kind(), reply@) {
            Some(v) => r.reached(
                limit as nat,
                State { control: Control::Return(v), frames: waiting.frames(), scope: waiting.scope() },
                old(log)@,
                final(log)@,
            ),
            None => r == Progress::<'a>::Fault(Fault::UnexpectedReply) && final(log)@ == old(log)@,
        },
{
    match waiting.accept(reply) {
        Ok(machine) => machine.carry_on(limit, log),
        Err(f) => Progress::Fault(f),
    }
}

/// What a program asks of a channel is done for it; its host hears of new threads and of texts to write,
/// and of nothing else.
pub proof fn law_the_host_starts_threads_and_writes<'a>(
    r: Progress<'a>,
    n: nat,
    s: State<'a>,
    before: Seq<ChanCall<'a>>,
    after: Seq<ChanCall<'a>>,
)
    requires
        r.reached(n, s, before, after),
    ensures
        r matches Progress::Waiting(q, _) ==> q@ is SpawnThread || q@ is StdioWrite,
        forall|i: int|
            before.len() <= i < after.len() ==> (#[trigger] after[i]).0 is MakeChan || after[i].0 is ChanSend
                || after[i].0 is ChanRecv,
        forall|i: int| 0 <= i < before.len() ==> after[i] == #[trigger] before[i],
{
    let calls = new_calls(before, after);
    assert forall|i: int| before.len() <= i < after.len() implies (#[trigger] after[i]).0 is MakeChan
        || after[i].0 is ChanSend || after[i].0 is ChanRecv by {
        let j = i - before.len();
        assert(calls[j] == after[i]);
        assert(performed(before + calls.take(j), calls[j].0, calls[j].1));
    }
}

/// A run that has come to an end has come to what its program means, given the replies that its calls
/// on channels got, and made exactly the requests that the program makes.
pub proof fn law_runs_end_as_programs_mean<'a>(
    r: Progress<'a>,
    n: nat,
    s: State<'a>,
    before: Seq<ChanCall<'a>>,
    after: Seq<ChanCall<'a>>,
    meaning: spec_fn(Io<'a>) -> (Answer<'a>, Io<'a>),
    io: Io<'a>,
)
    requires
        r.evaluates(n, s, before, after, meaning),
        io.asked.len() == 0,
        io.replies.len() == after.len() - before.len(),
        forall|i: int| 0 <= i < io.replies.len() ==> #[trigger] io.replies[i] == after[before.len() + i].1,
    ensures
        r matches Progress::Done(v) ==> meaning(io).0 == Answer::Value(v@),
        r matches Progress::Fault(f) ==> meaning(io).0 == Answer::<'a>::Fault(f),
        r matches Progress::Waiting(q, _) ==> meaning(io).0 == Answer::Waiting(q@),
        !(r is Running) ==> meaning(io).1.replies.len() == 0,
        r is Done || r is Fault ==> meaning(io).1.asked.len() == io.replies.len(),
        r is Waiting ==> meaning(io).1.asked.len() == io.replies.len() + 1,
        !(r is Running) ==> forall|i: int|
            0 <= i < io.replies.len() ==> #[trigger] meaning(io).1.asked[i] == after[before.len() + i].0,
{
    let calls = new_calls(before, after);
    assert(io.replies =~= replies_of(calls));
    assert(io.asked =~= Seq::empty());
    if !(r is Running) {
        assert forall|i: int| 0 <= i < io.replies.len() implies #[trigger] meaning(io).1.asked[i]
            == after[before.len() + i].0 by {
            assert(requests_of(calls)[i] == calls[i].0);
            assert(calls[i] == after[before.len() + i]);
        }
    }
}

} // verus!
