use vstd::prelude::*;

use tokio::sync::mpsc::Sender;

use crate::message::Message;
use crate::text::{decimal, push_decimal};

verus! {

/// Unique identifier for a subscription within a session.
#[derive(Debug, Clone, Copy, PartialEq, Eq, Structural, Hash)]
pub struct SubscriptionId(pub u64);

impl SubscriptionId {
    /// The display form `sub:<id>`.
    pub fn to_string(&self) -> (s: String)
        ensures
            s@ == "sub:"@ + decimal(self.0 as nat),
    {
        let mut s = String::from_str("sub:");
        push_decimal(&mut s, self.0);
        s
    }
}

/// A tagged message destined for a specific subscription.
///
/// When multiple subscriptions share a session channel, this tag
/// lets the session map messages back to the correct subscription id.
pub type TaggedMessage = (SubscriptionId, Message);

/// `tokio::sync::mpsc::Sender`, the sending half of a bounded channel.
#[verifier::external_type_specification]
#[verifier::external_body]
#[verifier::reject_recursive_types(T)]
pub struct ExMpscSender<T>(Sender<T>);

/// Calls `Sender::try_send`: queues `item` when the channel has room and is
/// open. Whether it did depends on the receiver's progress, so nothing is
/// claimed of the result.
#[verifier::external_body]
fn channel_try_send(tx: &Sender<TaggedMessage>, item: TaggedMessage) -> (ok: bool) {
    tx.try_send(item).is_ok()
}

/// Calls `Sender::is_closed`: whether the receiving half is gone. That depends
/// on the other side, so nothing is claimed of the result.
#[verifier::external_body]
fn channel_is_closed(tx: &Sender<TaggedMessage>) -> (closed: bool) {
    tx.is_closed()
}

/// Calls `<Sender as Clone>::clone`: another handle to the same channel.
#[verifier::external_body]
fn channel_clone(tx: &Sender<TaggedMessage>) -> (c: Sender<TaggedMessage>) {
    tx.clone()
}

/// Sender half that tags messages with a subscription id before sending.
#[derive(Debug)]
pub struct SubscriptionSender {
    sid: SubscriptionId,
    tx: Sender<TaggedMessage>,
}

impl SubscriptionSender {
    /// The subscription id this sender tags messages with.
    pub closed spec fn id(&self) -> SubscriptionId {
        self.sid
    }

    /// The channel this sender hands its tagged messages to.
    pub closed spec fn sending_channel(&self) -> Sender<TaggedMessage> {
        self.tx
    }

    pub fn new(sid: SubscriptionId, tx: Sender<TaggedMessage>) -> (s: SubscriptionSender)
        ensures
            s.id() == sid,
            s.sending_channel() == tx,
    {
        SubscriptionSender { sid, tx }
    }

    pub fn sid(&self) -> (r: SubscriptionId)
        ensures
            r == self.id(),
    {
        self.sid
    }

    /// `msg` tagged with this sender's subscription id, as it goes on the
    /// channel.
    pub fn tagged(&self, msg: Message) -> (t: TaggedMessage)
        ensures
            t.0 == self.id(),
            t.1 == msg,
    {
        (self.sid, msg)
    }

    /// Try to send a message, tagged with this sender's id (as `tagged`
    /// gives it), without blocking. Returns false if the channel is full or
    /// closed; which of the two happens is the channel's to decide.
    pub fn try_send(&self, msg: Message) -> bool {
        channel_try_send(&self.tx, self.tagged(msg))
    }

    /// Check if the receiving end has been dropped.
    pub fn is_closed(&self) -> bool {
        channel_is_closed(&self.tx)
    }

    /// The underlying channel, for callers that wait for room to send.
    pub fn channel(&self) -> (r: &Sender<TaggedMessage>)
        ensures
            *r == self.sending_channel(),
    {
        &self.tx
    }
}

impl Clone for SubscriptionSender {
    fn clone(&self) -> (c: Self)
        ensures
            c.id() == self.id(),
    {
        SubscriptionSender { sid: self.sid, tx: channel_clone(&self.tx) }
    }
}

} // verus!
