//! The channels on which the loader gets its messages.
//!
//! What a channel delivers depends on what other threads have sent by then. The one exception is
//! the queue of invalidated assets, both ends of which stay with the loader.

use vstd::prelude::*;
use crossbeam_channel::{unbounded, Receiver, Sender};
use crate::messages::HandleOp;

verus! {

/// Declares `crossbeam_channel::Sender`, the sending end of a channel.
#[verifier::external_type_specification]
#[verifier::external_body]
#[verifier::reject_recursive_types(T)]
pub struct ExSender<T>(crossbeam_channel::Sender<T>);

/// Declares `crossbeam_channel::Receiver`, the receiving end of a channel.
#[verifier::external_type_specification]
#[verifier::external_body]
#[verifier::reject_recursive_types(T)]
pub struct ExReceiver<T>(crossbeam_channel::Receiver<T>);

/// `crossbeam_channel::unbounded` makes a channel. Nothing is claimed of its ends.
pub assume_specification<T>[ crossbeam_channel::unbounded::<T> ]() -> (r: (Sender<T>, Receiver<T>));

/// `Sender::clone` makes another sending end of the same channel. Nothing is claimed of it: what
/// comes through it depends on who gets it.
pub assume_specification<T>[ <Sender<T> as Clone>::clone ](sender: &Sender<T>) -> (r: Sender<T>);

/// Calls `Receiver::try_recv`, which takes the oldest message out of a channel, if there is one.
/// What that is depends on what other threads have sent by then, so nothing is claimed of the
/// result.
#[verifier::external_body]
fn try_receive<T>(receiver: &Receiver<T>) -> Option<T> {
    receiver.try_recv().ok()
}

/// Two ends were made together, as the ends of one channel.
pub closed spec fn joined<T>(ends: (Sender<T>, Receiver<T>)) -> bool {
    call_ensures(crossbeam_channel::unbounded::<T>, (), ends)
}

/// What is sent through `tx` comes out of a channel: `tx` is a clone of its sending end.
pub closed spec fn hears<T>(ends: (Sender<T>, Receiver<T>), tx: Sender<T>) -> bool {
    joined(ends) && call_ensures(<Sender<T> as Clone>::clone, (&ends.0,), tx)
}

/// A message, or none, is what the receiving end of a channel may deliver.
pub closed spec fn may_deliver<T>(ends: (Sender<T>, Receiver<T>), message: Option<T>) -> bool {
    call_ensures(try_receive::<T>, (&ends.1,), message)
}

/// A sending end belongs to a channel that never blocks it.
pub open spec fn unbounded_sender<T>(tx: Sender<T>) -> bool {
    exists|ends: (Sender<T>, Receiver<T>)| #[trigger] hears(ends, tx)
}

/// A channel on which others send to the loader, with a record of what was taken out of it.
#[verifier::reject_recursive_types(T)]
pub(crate) struct Channel<T> {
    tx: Sender<T>,
    rx: Receiver<T>,
    taken: Ghost<Seq<T>>,
}

impl<T> Channel<T> {
    /// The two ends of the channel.
    pub(crate) closed spec fn ends(&self) -> (Sender<T>, Receiver<T>) {
        (self.tx, self.rx)
    }

    /// The messages taken out so far, in their order.
    pub(crate) closed spec fn taken(&self) -> Seq<T> {
        self.taken@
    }

    /// A channel of its own.
    pub(crate) fn new() -> (r: Self)
        ensures
            joined(r.ends()),
            r.taken() == Seq::<T>::empty(),
    {
        let (tx, rx) = unbounded();
        Channel { tx, rx, taken: Ghost(Seq::empty()) }
    }

    /// Returns a sending end of the channel.
    pub(crate) fn sender(&self) -> (r: Sender<T>)
        requires
            joined(self.ends()),
        ensures
            hears(self.ends(), r),
    {
        self.tx.clone()
    }

    /// Takes the oldest message out, if there is one.
    pub(crate) fn receive(&mut self) -> (r: Option<T>)
        ensures
            may_deliver(old(self).ends(), r),
            final(self).ends() == old(self).ends(),
            final(self).taken() == (match r {
                Some(message) => old(self).taken().push(message),
                None => old(self).taken(),
            }),
    {
        let r = try_receive(&self.rx);
        proof {
            if r is Some {
                self.taken@ = self.taken@.push(r->0);
            }
        }
        r
    }
}

/// Calls `Sender::send`, which puts a message into the channel, or hands it back if the receiving
/// end is gone; such a message is dropped. It never blocks, as the channel is unbounded, and it
/// does not panic. When the message is received depends on the receiver, so nothing else is
/// claimed.
#[verifier::external_body]
pub(crate) fn send_op(sender: &Sender<HandleOp>, op: HandleOp)
    requires
        unbounded_sender(*sender),
    opens_invariants none
    no_unwind
{
    let _ = sender.send(op);
}

/// A queue: an unbounded channel of `crossbeam_channel`, both ends of which stay here. It cannot be
/// cloned, so the channel has no other ends.
#[verifier::external_body]
pub struct Queue {
    tx: Sender<u128>,
    rx: Receiver<u128>,
}

/// The messages in a queue, oldest first.
pub uninterp spec fn queued(queue: Queue) -> Seq<u128>;

/// Calls `crossbeam_channel::unbounded`, which makes a channel without messages and returns its
/// only two ends.
#[verifier::external_body]
pub(crate) fn new_queue() -> (r: Queue)
    ensures
        queued(r).len() == 0,
{
    let (tx, rx) = crossbeam_channel::unbounded();
    Queue { tx, rx }
}

/// Calls `Sender::send`, which appends a message. It cannot fail: the receiving end exists.
#[verifier::external_body]
pub(crate) fn push_queue(queue: &mut Queue, message: u128)
    ensures
        queued(*final(queue)) == queued(*old(queue)).push(message),
{
    let _ = queue.tx.send(message);
}

/// Calls `Receiver::try_recv`, which takes the oldest message out, if there is one.
#[verifier::external_body]
pub(crate) fn pop_queue(queue: &mut Queue) -> (r: Option<u128>)
    ensures
        r is Some <==> queued(*old(queue)).len() > 0,
        r matches Some(message) ==> message == queued(*old(queue))[0] && queued(*final(queue))
            == queued(*old(queue)).drop_first(),
        r is None ==> queued(*final(queue)) == queued(*old(queue)),
{
    queue.rx.try_recv().ok()
}

} // verus!
