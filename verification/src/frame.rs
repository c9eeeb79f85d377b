use vstd::prelude::*;

verus! {

/// Current wire protocol version.
pub const PROTOCOL_VERSION: u8 = 1;

/// A frame on the wire. This is the unit of communication between client and broker.
#[derive(Debug, Clone, PartialEq, Eq)]
pub enum Frame {
    /// Client -> Broker: publish a message to a topic.
    Publish { topic: String, payload: Vec<u8>, reply_to: Option<String> },
    /// Client -> Broker: subscribe to a subject pattern.
    Subscribe { sid: u64, subject: String, queue_group: Option<String> },
    /// Client -> Broker: unsubscribe from a subscription.
    Unsubscribe { sid: u64 },
    /// Broker -> Client: deliver a message to a subscriber.
    Message { topic: String, sid: u64, payload: Vec<u8>, reply_to: Option<String> },
    /// Bidirectional: keepalive ping.
    Ping,
    /// Bidirectional: keepalive pong.
    Pong,
    /// Broker -> Client: operation succeeded.
    OkReply,
    /// Broker -> Client: operation failed.
    ErrReply { message: String },
}

} // verus!
