//! The exchange of a program with its host: what is asked, what is replied, and what comes of it.
use crate::adequacy::{law_steps_add, silence};
use crate::chan::{came, held, joined, kept_open, oldest, sent, unshared, ChanCall, ChanRx, ChanTx};
use crate::semantics::{answer, ask, kind_of, Answer, Fault, Io, Rep, Req, ReqKind};
use crate::small_step::{advance, step, Control, Next, State, Status};
use crate::value::Val;
use vstd::prelude::*;

verus! {

/// The request is about a channel.
pub open spec fn on_channel<'a>(q: Req<'a>) -> bool {
    q is MakeChan || q is ChanSend || q is ChanRecv
}

/// The reply is what a channel gave for the request, where the calls before it are the given ones.
pub open spec fn performed<'a>(before: Seq<ChanCall<'a>>, q: Req<'a>, r: Rep<'a>) -> bool {
    match (q, r) {
        (Req::MakeChan, Rep::Channel(tx, rx)) => joined(tx, rx) && held(before, rx).len() == 0,
        (Req::ChanSend(tx, v), Rep::Sent(accepted)) => {
            &&& sent(tx, v, accepted)
            &&& forall|rx: ChanRx<'a>| #[trigger] joined(tx, rx) && kept_open(rx) ==> accepted
        },
        (Req::ChanRecv(rx), Rep::Received(v)) => {
            &&& came(rx, v)
            &&& unshared(rx) ==> v == oldest(held(before, rx))
        },
        _ => false,
    }
}

/// So are the replies of some calls, made one after the other.
pub open spec fn all_performed<'a>(before: Seq<ChanCall<'a>>, calls: Seq<ChanCall<'a>>) -> bool {
    forall|i: int|
        0 <= i < calls.len() ==> performed(before + calls.take(i), (#[trigger] calls[i]).0, calls[i].1)
}

/// The replies of some calls.
pub open spec fn replies_of<'a>(calls: Seq<ChanCall<'a>>) -> Seq<Rep<'a>> {
    Seq::new(calls.len(), |i: int| calls[i].1)
}

/// The requests of some calls.
pub open spec fn requests_of<'a>(calls: Seq<ChanCall<'a>>) -> Seq<Req<'a>> {
    Seq::new(calls.len(), |i: int| calls[i].0)
}

/// All that was asked: the requests of the calls, and the one that is waited for.
pub open spec fn asked_by<'a>(calls: Seq<ChanCall<'a>>, end: Status<'a>) -> Seq<Req<'a>> {
    match end {
        Status::Waiting(q, _, _) => requests_of(calls).push(q),
        _ => requests_of(calls),
    }
}

/// Within `n` steps the state comes to the given end, where exactly the given calls are made on
/// channels, one for each request about a channel, in the order of the requests.
pub open spec fn comes_to<'a>(
    n: nat,
    s: State<'a>,
    before: Seq<ChanCall<'a>>,
    calls: Seq<ChanCall<'a>>,
    end: Status<'a>,
) -> bool {
    &&& advance(n, s, Io { replies: replies_of(calls), asked: Seq::empty() }) == (
        end,
        Io { replies: Seq::empty(), asked: asked_by(calls, end) },
    )
    &&& all_performed(before, calls)
}

/// What has been asked stays asked, in order, and the replies are taken from the front: one for each
/// request, save the one that is waited for.
pub proof fn law_exchange<'a>(n: nat, s: State<'a>, io: Io<'a>)
    ensures
        io.asked.is_prefix_of(advance(n, s, io).1.asked),
        advance(n, s, io).1.replies.is_suffix_of(io.replies),
        advance(n, s, io).1.asked.len() - io.asked.len() == io.replies.len() - advance(n, s, io).1.replies.len() + (
        if advance(n, s, io).0 is Waiting {
            1int
        } else {
            0
        }),
    decreases n,
{
    if n > 0 {
        match step(s) {
            Next::Go(t) => {
                law_exchange((n - 1) as nat, t, io);
            },
            Next::Ask(q, frames, scope) => {
                let io1 = ask(q, io).1;
                assert(io.asked.is_prefix_of(io1.asked));
                assert(io1.replies.is_suffix_of(io.replies));
                match ask(q, io) {
                    (Answer::Value(v), io1) => {
                        let t = State { control: Control::Return(v), frames, scope };
                        law_exchange((n - 1) as nat, t, io1);
                        let end = advance((n - 1) as nat, t, io1).1;
                        assert(io.asked.is_prefix_of(end.asked)) by {
                            assert(end.asked.take(io1.asked.len() as int).take(io.asked.len() as int)
                                =~= end.asked.take(io.asked.len() as int));
                        }
                        assert(end.replies.is_suffix_of(io.replies)) by {
                            assert(io.replies.skip(io.replies.len() - end.replies.len())
                                =~= io.replies.drop_first().skip(io1.replies.len() - end.replies.len()));
                        }
                    },
                    _ => {},
                }
            },
            _ => {},
        }
    }
}

/// Replies that are not needed change nothing: an evaluation that does not wait for one takes the
/// same steps when more are to come.
pub proof fn law_spare_replies<'a>(n: nat, s: State<'a>, io: Io<'a>, more: Seq<Rep<'a>>)
    requires
        !(advance(n, s, io).0 is Waiting),
    ensures
        advance(n, s, Io { replies: io.replies + more, asked: io.asked }) == (
            advance(n, s, io).0,
            Io { replies: advance(n, s, io).1.replies + more, asked: advance(n, s, io).1.asked },
        ),
    decreases n,
{
    if n > 0 {
        match step(s) {
            Next::Go(t) => {
                law_spare_replies((n - 1) as nat, t, io, more);
            },
            Next::Ask(q, frames, scope) => {
                assert((io.replies + more).drop_first() =~= io.replies.drop_first() + more);
                match ask(q, io) {
                    (Answer::Value(v), io1) => {
                        law_spare_replies(
                            (n - 1) as nat,
                            State { control: Control::Return(v), frames, scope },
                            io1,
                            more,
                        );
                    },
                    _ => {},
                }
            },
            _ => {},
        }
    }
}

/// To wait for a reply and to go on with it later is the same as to have had it from the start: an
/// evaluation that waits after at most `n` steps had taken `k` steps up to its request, and where the
/// reply is there from the start, `m` steps more lead where `m` steps from the suspended state lead.
pub proof fn law_reply_goes_on<'a>(n: nat, m: nat, s: State<'a>, io: Io<'a>, reply: Rep<'a>) -> (k: nat)
    requires
        advance(n, s, io).0 is Waiting,
    ensures
        k <= n,
        advance(n, s, io).1.replies.len() == 0,
        ({
            let (status, end) = advance(n, s, io);
            let frames = status->Waiting_1;
            let scope = status->Waiting_2;
            advance(k + m, s, Io { replies: io.replies.push(reply), asked: io.asked }) == (match answer(
                kind_of(status->Waiting_0),
                reply,
            ) {
                Some(v) => advance(m, State { control: Control::Return(v), frames, scope }, end),
                None => (Status::Fault(Fault::UnexpectedReply), end),
            })
        }),
    decreases n,
{
    let io2 = Io { replies: io.replies.push(reply), asked: io.asked };
    match step(s) {
        Next::Go(t) => {
            let k = law_reply_goes_on((n - 1) as nat, m, t, io, reply);
            assert(advance(k + 1 + m, s, io2) == advance(k + m, t, io2));
            k + 1
        },
        Next::Ask(q, frames, scope) => {
            if io.replies.len() == 0 {
                assert(io2.replies.drop_first() =~= Seq::empty());
                assert(io.replies =~= Seq::empty());
                1
            } else {
                assert(io2.replies.drop_first() =~= io.replies.drop_first().push(reply));
                assert(io2.replies[0] == io.replies[0]);
                let (a, io1) = ask(q, io);
                let t = State { control: Control::Return(a->Value_0), frames, scope };
                let k = law_reply_goes_on((n - 1) as nat, m, t, io1, reply);
                let io3 = Io { replies: io1.replies.push(reply), asked: io1.asked };
                assert(ask(q, io2) == (a, io3));
                assert(advance(k + 1 + m, s, io2) == advance(k + m, t, io3));
                k + 1
            }
        },
        _ => 0,
    }
}

/// What was asked before changes nothing, and stays in front of what is asked.
pub proof fn law_earlier_requests_do_not_matter<'a>(n: nat, s: State<'a>, io: Io<'a>, earlier: Seq<Req<'a>>)
    ensures
        advance(n, s, Io { replies: io.replies, asked: earlier + io.asked }) == (
            advance(n, s, io).0,
            Io { replies: advance(n, s, io).1.replies, asked: earlier + advance(n, s, io).1.asked },
        ),
    decreases n,
{
    if n > 0 {
        match step(s) {
            Next::Go(t) => {
                law_earlier_requests_do_not_matter((n - 1) as nat, t, io, earlier);
            },
            Next::Ask(q, frames, scope) => {
                assert((earlier + io.asked).push(q) =~= earlier + io.asked.push(q));
                match ask(q, io) {
                    (Answer::Value(v), io1) => {
                        let t = State { control: Control::Return(v), frames, scope };
                        law_earlier_requests_do_not_matter((n - 1) as nat, t, io1, earlier);
                    },
                    _ => {},
                }
            },
            _ => {},
        }
    }
}

/// An evaluation in two portions, each with its own exchange, is one evaluation with the two exchanges
/// one after the other.
pub proof fn law_portions_join<'a>(
    m: nat,
    n: nat,
    s: State<'a>,
    t: State<'a>,
    end: Status<'a>,
    first: (Seq<Rep<'a>>, Seq<Req<'a>>),
    second: (Seq<Rep<'a>>, Seq<Req<'a>>),
)
    requires
        advance(m, s, Io { replies: first.0, asked: Seq::empty() }) == (
            Status::Running(t),
            Io { replies: Seq::empty(), asked: first.1 },
        ),
        advance(n, t, Io { replies: second.0, asked: Seq::empty() }) == (
            end,
            Io { replies: Seq::empty(), asked: second.1 },
        ),
    ensures
        advance(m + n, s, Io { replies: first.0 + second.0, asked: Seq::empty() }) == (
            end,
            Io { replies: Seq::empty(), asked: first.1 + second.1 },
        ),
{
    law_spare_replies(m, s, Io { replies: first.0, asked: Seq::empty() }, second.0);
    law_steps_add(m, n, s, Io { replies: first.0 + second.0, asked: Seq::empty() });
    law_earlier_requests_do_not_matter(n, t, Io { replies: second.0, asked: Seq::empty() }, first.1);
    assert(Seq::<Rep<'a>>::empty() + second.0 =~= second.0);
    assert(first.1 + Seq::<Req<'a>>::empty() =~= first.1);
}

/// An evaluation that waits, gets its reply and goes on is one evaluation that had the reply: with the
/// replies of before, that one, and those of after, it comes to the same end and has asked the same.
pub proof fn law_waiting_joins<'a>(
    n: nat,
    m: nat,
    s: State<'a>,
    waiting: Status<'a>,
    reply: Rep<'a>,
    end: Status<'a>,
    first: (Seq<Rep<'a>>, Seq<Req<'a>>),
    second: (Seq<Rep<'a>>, Seq<Req<'a>>),
) -> (k: nat)
    requires
        waiting is Waiting,
        advance(n, s, Io { replies: first.0, asked: Seq::empty() }) == (
            waiting,
            Io { replies: Seq::empty(), asked: first.1 },
        ),
        answer(kind_of(waiting->Waiting_0), reply) is Some,
        advance(
            m,
            State {
                control: Control::Return(answer(kind_of(waiting->Waiting_0), reply)->Some_0),
                frames: waiting->Waiting_1,
                scope: waiting->Waiting_2,
            },
            Io { replies: second.0, asked: Seq::empty() },
        ) == (end, Io { replies: Seq::empty(), asked: second.1 }),
    ensures
        k <= n,
        advance(k + m, s, Io { replies: first.0.push(reply) + second.0, asked: Seq::empty() }) == (
            end,
            Io { replies: Seq::empty(), asked: first.1 + second.1 },
        ),
{
    let k = law_reply_goes_on(n, 0, s, Io { replies: first.0, asked: Seq::empty() }, reply);
    let t = State {
        control: Control::Return(answer(kind_of(waiting->Waiting_0), reply)->Some_0),
        frames: waiting->Waiting_1,
        scope: waiting->Waiting_2,
    };
    assert(advance(k + 0, s, Io { replies: first.0.push(reply), asked: Seq::empty() }) == (
        Status::Running(t),
        Io { replies: Seq::<Rep<'a>>::empty(), asked: first.1 },
    ));
    law_portions_join(k, m, s, t, end, (first.0.push(reply), first.1), second);
    k
}

/// A program whose first request, if it makes one, is not about a channel does the same whatever the
/// channels do: it stops at that request.
pub proof fn law_channels_do_not_matter<'a>(
    n: nat,
    s: State<'a>,
    before: Seq<ChanCall<'a>>,
    calls: Seq<ChanCall<'a>>,
    end: Status<'a>,
)
    requires
        comes_to(n, s, before, calls, end),
        advance(n, s, silence()).0 matches Status::Waiting(q, frames, scope) ==> !on_channel(q),
    ensures
        calls.len() == 0,
        end == advance(n, s, silence()).0,
{
    let replies = replies_of(calls);
    let io = Io { replies, asked: Seq::empty() };
    if advance(n, s, silence()).0 is Waiting {
        if calls.len() > 0 {
            lemma_first_request(n, s, io);
            assert(asked_by(calls, end)[0] == calls[0].0);
            assert(performed(before + calls.take(0), calls[0].0, calls[0].1));
        }
        assert(replies =~= Seq::empty());
    } else {
        law_spare_replies(n, s, silence(), replies);
        lemma_quiet(n, s);
        assert(silence::<'a>().replies + replies =~= replies);
        assert(replies =~= Seq::empty());
    }
}

/// Calls that were made one after the other, and calls that were made after those, are all calls that
/// were made one after the other.
pub proof fn law_calls_join<'a>(before: Seq<ChanCall<'a>>, first: Seq<ChanCall<'a>>, second: Seq<ChanCall<'a>>)
    requires
        all_performed(before, first),
        all_performed(before + first, second),
    ensures
        all_performed(before, first + second),
{
    let all = first + second;
    assert forall|i: int| 0 <= i < all.len() implies performed(before + all.take(i), (#[trigger] all[i]).0, all[i].1) by {
        if i < first.len() {
            assert(all.take(i) =~= first.take(i));
            assert(performed(before + first.take(i), first[i].0, first[i].1));
        } else {
            let j = i - first.len();
            assert(before + all.take(i) =~= before + first + second.take(j));
            assert(performed(before + first + second.take(j), second[j].0, second[j].1));
        }
    }
}

/// What a machine comes to in two portions, with the log of the first going on in the second, it comes
/// to in one.
pub proof fn law_logs_join<'a>(
    m: nat,
    n: nat,
    s: State<'a>,
    t: State<'a>,
    end: Status<'a>,
    before: Seq<ChanCall<'a>>,
    first: Seq<ChanCall<'a>>,
    second: Seq<ChanCall<'a>>,
)
    requires
        comes_to(m, s, before, first, Status::Running(t)),
        comes_to(n, t, before + first, second, end),
    ensures
        comes_to(m + n, s, before, first + second, end),
{
    law_calls_join(before, first, second);
    law_portions_join(
        m,
        n,
        s,
        t,
        end,
        (replies_of(first), requests_of(first)),
        (replies_of(second), asked_by(second, end)),
    );
    assert(replies_of(first + second) =~= replies_of(first) + replies_of(second));
    assert(asked_by(first + second, end) =~= requests_of(first) + asked_by(second, end));
}

/// The values that were put into a channel, in order.
pub open spec fn put_in<'a>(calls: Seq<ChanCall<'a>>, rx: ChanRx<'a>) -> Seq<Val<'a>>
    decreases calls.len(),
{
    if calls.len() == 0 {
        Seq::empty()
    } else {
        match calls.last() {
            (Req::ChanSend(tx, v), Rep::Sent(accepted)) => if accepted && joined(tx, rx) {
                put_in(calls.drop_last(), rx).push(v)
            } else {
                put_in(calls.drop_last(), rx)
            },
            _ => put_in(calls.drop_last(), rx),
        }
    }
}

/// The values that were taken out of a channel, in order.
pub open spec fn taken_out<'a>(calls: Seq<ChanCall<'a>>, rx: ChanRx<'a>) -> Seq<Val<'a>>
    decreases calls.len(),
{
    if calls.len() == 0 {
        Seq::empty()
    } else {
        match calls.last() {
            (Req::ChanRecv(from), Rep::Received(Some(v))) => if from == rx {
                taken_out(calls.drop_last(), rx).push(v)
            } else {
                taken_out(calls.drop_last(), rx)
            },
            _ => taken_out(calls.drop_last(), rx),
        }
    }
}

/// A channel that only one log tells of gives back what was put into it: what some calls take out of it
/// is what it held before them and then what they put in, in that order, each value once; what has not
/// come yet is still held.
pub proof fn law_channels_give_back_in_order<'a>(
    before: Seq<ChanCall<'a>>,
    calls: Seq<ChanCall<'a>>,
    rx: ChanRx<'a>,
)
    requires
        all_performed(before, calls),
        unshared(rx),
    ensures
        taken_out(calls, rx) + held(before + calls, rx) == held(before, rx) + put_in(calls, rx),
    decreases calls.len(),
{
    if calls.len() == 0 {
        assert(before + calls =~= before);
        assert(taken_out(calls, rx) + held(before, rx) =~= held(before, rx) + put_in(calls, rx));
    } else {
        let less = calls.drop_last();
        let at = calls.len() - 1;
        assert forall|i: int| 0 <= i < less.len() implies performed(
            before + less.take(i),
            (#[trigger] less[i]).0,
            less[i].1,
        ) by {
            assert(less.take(i) =~= calls.take(i));
            assert(performed(before + calls.take(i), calls[i].0, calls[i].1));
        }
        law_channels_give_back_in_order(before, less, rx);
        assert(calls.take(at) =~= less);
        assert(performed(before + less, calls[at].0, calls[at].1));
        assert((before + calls).drop_last() =~= before + less);
        assert((before + calls).last() == calls.last());
        let taken = taken_out(less, rx);
        let inside = held(before + less, rx);
        match calls.last() {
            (Req::ChanSend(tx, v), Rep::Sent(accepted)) => {
                assert(taken + inside.push(v) =~= (taken + inside).push(v));
                assert(held(before, rx) + put_in(less, rx).push(v) =~= (held(before, rx) + put_in(less, rx)).push(v));
            },
            (Req::ChanRecv(from), Rep::Received(Some(v))) => {
                if from == rx {
                    assert(taken.push(v) + inside.drop_first() =~= taken + inside);
                }
            },
            _ => {},
        }
    }
}

/// What a program gets from a channel that is kept open and that only one log tells of: its send is
/// accepted, and a receive after it gives the oldest value that is held then, as a tagged value; that
/// is the value just sent where the channel held nothing, as it does when it is new.
pub proof fn law_what_is_sent_is_received<'a>(
    calls: Seq<ChanCall<'a>>,
    tx: ChanTx<'a>,
    rx: ChanRx<'a>,
    v: Val<'a>,
    sending: Rep<'a>,
    receiving: Rep<'a>,
)
    requires
        joined(tx, rx),
        unshared(rx),
        kept_open(rx),
        performed(calls, Req::ChanSend(tx, v), sending),
        performed(calls.push((Req::ChanSend(tx, v), sending)), Req::ChanRecv(rx), receiving),
    ensures
        answer(ReqKind::ChanSend, sending) == Some(Val::<'a>::Boolean(true)),
        answer(ReqKind::ChanRecv, receiving) == Some(
            Val::Tagged("Some"@, Box::new(held(calls, rx).push(v)[0])),
        ),
        held(calls, rx).len() == 0 ==> answer(ReqKind::ChanRecv, receiving) == Some(
            Val::Tagged("Some"@, Box::new(v)),
        ),
{
    let after = calls.push((Req::ChanSend(tx, v), sending));
    assert(after.drop_last() =~= calls);
    assert(held(after, rx) == held(calls, rx).push(v));
}

/// A new channel comes as a record of its two ends, holds nothing, and nothing but the call that made
/// it has to be known of it.
pub proof fn law_a_new_channel_holds_nothing<'a>(calls: Seq<ChanCall<'a>>, reply: Rep<'a>)
    requires
        performed(calls, Req::MakeChan, reply),
    ensures
        reply matches Rep::Channel(tx, rx) && joined(tx, rx) && held(calls.push((Req::MakeChan, reply)), rx).len()
            == 0 && answer(ReqKind::MakeChan, reply) == Some(
            Val::Record(Map::empty().insert("send"@, Val::ChanSend(tx)).insert("recv"@, Val::ChanRecv(rx))),
        ),
{
    assert(calls.push((Req::MakeChan, reply)).drop_last() =~= calls);
}

/// Without a request nothing is asked.
proof fn lemma_quiet<'a>(n: nat, s: State<'a>)
    requires
        !(advance(n, s, silence()).0 is Waiting),
    ensures
        advance(n, s, silence()).1 == silence::<'a>(),
    decreases n,
{
    if n > 0 {
        match step(s) {
            Next::Go(t) => {
                lemma_quiet((n - 1) as nat, t);
            },
            _ => {},
        }
    }
}

/// The request at which a program stops without replies is the first that it makes.
proof fn lemma_first_request<'a>(n: nat, s: State<'a>, io: Io<'a>)
    requires
        advance(n, s, silence()).0 is Waiting,
        io.asked.len() == 0,
    ensures
        advance(n, s, io).1.asked.len() > 0,
        advance(n, s, io).1.asked[0] == advance(n, s, silence()).0->Waiting_0,
    decreases n,
{
    match step(s) {
        Next::Go(t) => {
            lemma_first_request((n - 1) as nat, t, io);
        },
        Next::Ask(q, frames, scope) => {
            match ask(q, io) {
                (Answer::Value(v), io1) => {
                    let t = State { control: Control::Return(v), frames, scope };
                    law_exchange((n - 1) as nat, t, io1);
                    let end = advance((n - 1) as nat, t, io1).1;
                    assert(io1.asked[0] == q);
                    assert(end.asked[0] == end.asked.take(io1.asked.len() as int)[0]);
                },
                _ => {},
            }
        },
        _ => {},
    }
}

} // verus!
