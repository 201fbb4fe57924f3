//! Peer-to-peer sync: invite codes, the handshake, encrypted frames, sync
//! messages, the journal of recent patches, and what each side answers.

pub mod handshake;
pub mod invite;
pub mod journal;
pub mod protocol;
pub mod sync;
