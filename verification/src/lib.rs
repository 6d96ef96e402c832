//! A decentralized, gossip-based key/value store. Each node binds a
//! datagram endpoint, keeps a partial view of peers behind a liveness
//! handshake, scores every peer's trustworthiness from direct and
//! second-hand opinion, and replicates versioned key/value entries from
//! the peers it trusts.

mod assoc;
mod codec;
mod data;
mod id;
mod identification;
mod message;
mod network;
mod node;
mod sequence_num;

pub use data::Data;
pub use id::Id;
pub use identification::Identification;
pub use message::{Entry, EntryV, Message, MessageType, MessageTypeV, MessageV};
pub use network::{Datagram, Network};
pub use node::Node;
pub use sequence_num::SequenceNumber;
