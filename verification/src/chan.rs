//! The two ends of the channels through which threads of a program exchange values, and the log of the
//! calls that are made on them.
use crate::semantics::{Rep, Req};
use crate::value::{Val, Value};
use vstd::prelude::*;

verus! {

/// The sending end of a channel.
#[verifier::external_body]
#[derive(Debug)]
pub struct ChanTx<'a> {
    inner: crossbeam_channel::Sender<Value<'a>>,
}

/// The receiving end of a channel.
#[verifier::external_body]
#[derive(Debug)]
pub struct ChanRx<'a> {
    inner: crossbeam_channel::Receiver<Value<'a>>,
}

/// A call that was made on a channel, with what came back.
pub type ChanCall<'a> = (Req<'a>, Rep<'a>);

/// What a host marks the start of a thread with: the log of the thread begins with it. Types of the host
/// have it; none has it here, so a function that was handed a log makes its calls with that one.
pub trait ThreadStart {

}

/// The calls on channels that a thread has made, in order. Each call needs the log of the thread that
/// makes it, and writes itself into it.
pub struct Log<'a> {
    calls: Ghost<Seq<ChanCall<'a>>>,
}

impl<'a> View for Log<'a> {
    type V = Seq<ChanCall<'a>>;

    closed spec fn view(&self) -> Seq<ChanCall<'a>> {
        self.calls@
    }
}

impl<'a> Log<'a> {
    /// The log of a thread that has made no call.
    pub fn new<S: ThreadStart>(start: S) -> (r: Self)
        ensures
            r@ == Seq::<ChanCall<'a>>::empty(),
    {
        Log { calls: Ghost(Seq::empty()) }
    }
}

/// The two are ends of one channel.
pub uninterp spec fn joined(tx: ChanTx<'_>, rx: ChanRx<'_>) -> bool;

/// The value was handed to the sending end, and `accepted` is what came back.
pub uninterp spec fn sent(tx: ChanTx<'_>, value: Val<'_>, accepted: bool) -> bool;

/// All the calls that are ever made on the channel are written into one and the same log.
pub uninterp spec fn unshared(rx: ChanRx<'_>) -> bool;

/// Some receiving end of the channel is there for as long as values are sent.
pub uninterp spec fn kept_open(rx: ChanRx<'_>) -> bool;

/// The values that were put into a channel and not yet taken out of it, as a log tells, the oldest
/// first.
pub open spec fn held<'a>(calls: Seq<ChanCall<'a>>, rx: ChanRx<'a>) -> Seq<Val<'a>>
    decreases calls.len(),
{
    if calls.len() == 0 {
        Seq::empty()
    } else {
        let before = held(calls.drop_last(), rx);
        match calls.last() {
            (Req::ChanSend(tx, v), Rep::Sent(accepted)) => if accepted && joined(tx, rx) {
                before.push(v)
            } else {
                before
            },
            (Req::ChanRecv(from), Rep::Received(Some(v))) => if from == rx && before.len() > 0 {
                before.drop_first()
            } else {
                before
            },
            _ => before,
        }
    }
}

/// The oldest of some values.
pub open spec fn oldest<'a>(values: Seq<Val<'a>>) -> Option<Val<'a>> {
    if values.len() == 0 {
        None
    } else {
        Some(values[0])
    }
}

/// A received value is one that a send put into the same channel.
pub open spec fn came<'a>(rx: ChanRx<'a>, reply: Option<Val<'a>>) -> bool {
    reply matches Some(v) ==> exists|tx: ChanTx<'a>| joined(tx, rx) && #[trigger] sent(tx, v, true)
}

/// What a received value is, if one was received.
pub open spec fn seen<'a>(v: Option<Value<'a>>) -> Option<Val<'a>> {
    match v {
        Some(x) => Some(x@),
        None => None,
    }
}

/// `crossbeam_channel::unbounded`: makes a new channel, in which there is nothing, and returns its two
/// ends.
#[verifier::external_body]
#[allow(unused_variables)]
pub(crate) fn unbounded<'a>(log: &mut Log<'a>) -> (r: (ChanTx<'a>, ChanRx<'a>))
    ensures
        joined(r.0, r.1),
        held(old(log)@, r.1).len() == 0,
        final(log)@ == old(log)@.push((Req::MakeChan, Rep::Channel(r.0, r.1))),
{
    let (s, r) = crossbeam_channel::unbounded();
    (ChanTx { inner: s }, ChanRx { inner: r })
}

/// `crossbeam_channel::Sender::clone`: another handle on the same end of the same channel, which
/// nothing tells from the first.
#[verifier::external_body]
pub(crate) fn clone_tx<'a>(tx: &ChanTx<'a>) -> (r: ChanTx<'a>)
    ensures
        r == *tx,
{
    ChanTx { inner: tx.inner.clone() }
}

/// `crossbeam_channel::Receiver::clone`: another handle on the same end of the same channel, which
/// nothing tells from the first.
#[verifier::external_body]
pub(crate) fn clone_rx<'a>(rx: &ChanRx<'a>) -> (r: ChanRx<'a>)
    ensures
        r == *rx,
{
    ChanRx { inner: rx.inner.clone() }
}

/// `crossbeam_channel::Sender::send`: puts the value into the channel, or drops it and returns
/// `false` where no receiving end is left. Whether one is left rests on the other threads; where one
/// is there for as long as values are sent, the value is accepted. For the rest the contract records
/// what was handed over and what came back.
#[verifier::external_body]
#[allow(unused_variables)]
pub(crate) fn send<'a>(tx: &ChanTx<'a>, value: Value<'a>, log: &mut Log<'a>) -> (r: bool)
    ensures
        sent(*tx, value@, r),
        forall|rx: ChanRx<'a>| #[trigger] joined(*tx, rx) && kept_open(rx) ==> r,
        final(log)@ == old(log)@.push((Req::ChanSend(*tx, value@), Rep::Sent(r))),
{
    tx.inner.send(value).is_ok()
}

/// `crossbeam_channel::Receiver::recv`: waits for a value, or returns `None` where the channel is
/// empty and no sending end is left. Which value comes, and when, rests on the other threads; one
/// that comes was put into the same channel by a send that succeeded. Where all calls on the channel
/// stand in one log, no other thread has a say: values come in the order in which they were put in,
/// each once, and none comes only where there is none. How values are shared out between threads that
/// receive from one channel is left unsaid.
#[verifier::external_body]
#[allow(unused_variables)]
pub(crate) fn recv<'a>(rx: &ChanRx<'a>, log: &mut Log<'a>) -> (r: Option<Value<'a>>)
    ensures
        r matches Some(v) ==> exists|tx: ChanTx<'a>| joined(tx, *rx) && #[trigger] sent(tx, v@, true),
        unshared(*rx) ==> seen(r) == oldest(held(old(log)@, *rx)),
        final(log)@ == old(log)@.push((Req::ChanRecv(*rx), Rep::Received(seen(r)))),
{
    rx.inner.recv().ok()
}

} // verus!
