//! Session/topic hub of a multi-transport chat bus: the envelope codec,
//! topics with sequenced broadcast, the topic and session registries, and the
//! per-connection session state machine.
//!
//! The registries keep their entries in `dashmap` maps and the topics fan out
//! through `tokio` broadcast channels. Every mutation goes through `&mut self`,
//! so that the contracts can say how each call changes the registries; a
//! server shares them behind a lock.
pub mod client_message;
pub mod codec;
pub mod hub;
pub mod outside;
pub mod session;
pub mod topic;
pub mod wire;

pub use client_message::Message;
pub use codec::{decode_client, decode_server, encode_client, encode_server, DecodeError};
pub use hub::{SessionStore, TopicStore};
pub use outside::convert_err;
pub use session::{Session, Step};
pub use topic::{HubError, Topic};
pub use wire::{ClientMessage, ServerMessage};
