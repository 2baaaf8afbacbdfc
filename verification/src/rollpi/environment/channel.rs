//! The channels over which participants and the history exchange messages.
//! Nothing is known of what another thread has sent, so nothing is promised
//! of what a receive returns.

use crossbeam::channel::{Receiver, Sender};
use vstd::prelude::*;

verus! {

/// The sending half of a channel of the crate `crossbeam`.
#[verifier::external_type_specification]
#[verifier::external_body]
#[verifier::reject_recursive_types(T)]
pub struct ExSender<T>(Sender<T>);

/// The receiving half of a channel of the crate `crossbeam`.
#[verifier::external_type_specification]
#[verifier::external_body]
#[verifier::reject_recursive_types(T)]
pub struct ExReceiver<T>(Receiver<T>);

/// `crossbeam::channel::unbounded`: a new channel that holds any number of
/// messages.
#[verifier::external_body]
pub(crate) fn open_channel<T>() -> (r: (Sender<T>, Receiver<T>)) {
    crossbeam::channel::unbounded()
}

/// `Sender::clone`: one more sending half of the same channel.
#[verifier::external_body]
pub(crate) fn share_sender<T>(s: &Sender<T>) -> (r: Sender<T>) {
    s.clone()
}

/// `Sender::send`: puts `msg` on the channel; the result says whether the
/// channel was still connected.
#[verifier::external_body]
pub(crate) fn send<T>(s: &Sender<T>, msg: T) -> (sent: bool) {
    s.send(msg).is_ok()
}

/// `Receiver::try_recv`: the next message, if one is there now.
#[verifier::external_body]
pub(crate) fn try_recv<T>(r: &Receiver<T>) -> (msg: Option<T>) {
    r.try_recv().ok()
}

/// `Receiver::try_iter`: the messages that are there now, in the order in
/// which they came.
#[verifier::external_body]
pub(crate) fn drain<T>(r: &Receiver<T>) -> (msgs: Vec<T>) {
    r.try_iter().collect()
}

/// `Receiver::recv`: the next message, waiting for it as long as the channel
/// is connected; nothing where it is not.
#[verifier::external_body]
pub(crate) fn recv<T>(r: &Receiver<T>) -> (msg: Option<T>) {
    r.recv().ok()
}

/// `Receiver::clone`: one more receiving half of the same channel.
#[verifier::external_body]
pub(crate) fn share_receiver<T>(r: &Receiver<T>) -> (c: Receiver<T>) {
    r.clone()
}

} // verus!
