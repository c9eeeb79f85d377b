//! A publish/subscribe message broker core: subject validation, topic
//! matching, subscription bookkeeping, routing, session and client
//! decisions, and wire framing.

pub mod client;
pub mod codec;
pub mod error;
pub mod frame;
pub mod listener;
pub mod message;
pub mod queue_group;
pub mod registry;
pub mod router;
pub mod seqs;
pub mod session;
pub mod subscription;
pub mod text;
pub mod topic;
pub mod trie;

pub use codec::TopiqCodec;
pub use error::PubSubError;
pub use frame::{Frame, PROTOCOL_VERSION};
pub use message::Message;
pub use queue_group::QueueGroupSelector;
pub use registry::SubscriptionRegistry;
pub use router::{Router, RoutingResult};
pub use session::{SessionConfig, SessionState};
pub use subscription::{SubscriptionId, SubscriptionSender, TaggedMessage};
pub use topic::Subject;
pub use trie::TopicTrie;
