use tokio::sync::mpsc::{UnboundedReceiver, UnboundedSender};
use vstd::prelude::*;

verus! {

/// The receipt of one handing-over to a channel: the sending half the item
/// was handed to, and the item. Only `post` makes one, so holding one shows
/// that the hand-over was made.
#[verifier::reject_recursive_types(T)]
pub struct Handed<T> {
    handed: Ghost<(UnboundedSender<T>, T)>,
}

impl<T> Handed<T> {
    /// The sending half the item was handed to, and the item.
    pub closed spec fn handed(&self) -> (UnboundedSender<T>, T) {
        self.handed@
    }
}

/// The receipt of one channel's making: its two halves. Only
/// `unbounded_channel` makes one, so holding one shows that the two halves
/// belong to one channel.
#[verifier::reject_recursive_types(T)]
pub struct Halves<T> {
    halves: Ghost<(UnboundedSender<T>, UnboundedReceiver<T>)>,
}

impl<T> Halves<T> {
    /// The sending and the receiving half of the channel.
    pub closed spec fn halves(&self) -> (UnboundedSender<T>, UnboundedReceiver<T>) {
        self.halves@
    }
}

/// Calls `tokio::sync::mpsc::unbounded_channel`, which makes a new channel
/// and returns its sending and its receiving half, with the receipt that
/// names both as the halves of that one channel.
#[verifier::external_body]
pub(crate) fn unbounded_channel<T>() -> (r: (UnboundedSender<T>, UnboundedReceiver<T>, Halves<T>))
    ensures
        r.2.halves() == (r.0, r.1),
{
    let (tx, rx) = tokio::sync::mpsc::unbounded_channel();
    let halves = Ghost((tx, rx));
    (tx, rx, Halves { halves })
}

/// Calls `tokio::sync::mpsc::UnboundedSender::send` on `tx` with `item`,
/// which queues `item` for the receiving half unless that half has been
/// dropped, and returns the receipt naming `tx` and `item`. Whether the
/// item was queued is not reported, as the network ignores it.
#[verifier::external_body]
pub(crate) fn post<T>(tx: &UnboundedSender<T>, item: T) -> (r: Handed<T>)
    ensures
        r.handed() == (*tx, item),
{
    let handed = Ghost((*tx, item));
    let _ = tx.send(item);
    Handed { handed }
}

} // verus!
