//! What passes between the thread that talks to peers and the one that holds
//! the vault.
//!
//! The first asks, the second answers; the vault is never touched by two
//! threads.

use vstd::prelude::*;

use crate::engine::identity::{self, PeerId};
use crate::net::protocol::{MessageModel, SyncMessage};
use crate::net::sync;

verus! {

pub const STATE_MISSING: &'static str = "peer did not send ChainState first";

/// The answer to a peer.
pub enum SyncResponse {
    NotGranted,
    Message(SyncMessage),
}

/// What happened to a connection.
pub enum BridgeEvent {
    Synced(PeerId),
    Failed(String),
}

/// The answer to a peer, as a mathematical value.
pub enum ResponseModel {
    NotGranted,
    Message(MessageModel),
}

impl View for SyncResponse {
    type V = ResponseModel;

    open spec fn view(&self) -> ResponseModel {
        match self {
            SyncResponse::NotGranted => ResponseModel::NotGranted,
            SyncResponse::Message(m) => ResponseModel::Message(m@),
        }
    }
}

/// The sequence number from which a peer asks to be brought up to date, or why
/// its request cannot be answered.
pub open spec fn asked_for(request: Seq<u8>) -> core::result::Result<u64, Seq<char>> {
    match MessageModel::decoded(request) {
        Err(f) => Err(f.message()),
        Ok(MessageModel::ChainState { next_seq, .. }) => Ok(next_seq),
        Ok(_) => Err(STATE_MISSING@),
    }
}

/// Reads a peer's first message.
pub fn requested_seq(request: &[u8]) -> (r: core::result::Result<u64, String>)
    ensures
        match r {
            Ok(n) => asked_for(request@) == Ok::<u64, Seq<char>>(n),
            Err(m) => asked_for(request@) == Err::<u64, Seq<char>>(m@),
        },
{
    match SyncMessage::decode(request) {
        Err(e) => Err(e.message()),
        Ok(SyncMessage::ChainState { next_seq, .. }) => Ok(next_seq),
        Ok(_) => Err(STATE_MISSING.to_owned()),
    }
}

/// The message that carries the answer, and what the connection comes to once
/// it is sent: the peer that was served, or what is reported.
pub open spec fn concluded(response: ResponseModel, peer: Seq<u8>) -> (
    MessageModel,
    core::result::Result<Seq<u8>, Seq<char>>,
) {
    match response {
        ResponseModel::NotGranted => (
            MessageModel::Error { message: sync::NOT_GRANTED@ },
            Err(identity::fingerprint_of(peer) + " is not granted access"@),
        ),
        ResponseModel::Message(m) => (m, Ok(peer)),
    }
}

/// The value of what a connection comes to.
pub open spec fn served_or(r: core::result::Result<PeerId, String>) -> core::result::Result<
    Seq<u8>,
    Seq<char>,
> {
    match r {
        Ok(p) => Ok(p@),
        Err(m) => Err(m@),
    }
}

/// Decides what is sent for an answer, and what the connection comes to.
pub fn conclude(response: SyncResponse, peer: PeerId) -> (r: (
    SyncMessage,
    core::result::Result<PeerId, String>,
))
    ensures
        (r.0@, served_or(r.1)) == concluded(response@, peer@),
{
    match response {
        SyncResponse::NotGranted => {
            let mut why = peer.fingerprint();
            why.append(" is not granted access");
            (SyncMessage::Error { message: sync::NOT_GRANTED.to_owned() }, Err(why))
        },
        SyncResponse::Message(m) => (m, Ok(peer)),
    }
}

/// A peer's request is read as it was sent, and an answer is passed on as it is.
pub proof fn law_bridge_passes_on(next_seq: u64, last_hash: Seq<u8>, m: MessageModel, peer: Seq<u8>)
    requires
        last_hash.len() == 32,
    ensures
        asked_for((MessageModel::ChainState { next_seq, last_hash }).encoded()) == Ok::<
            u64,
            Seq<char>,
        >(next_seq),
        concluded(ResponseModel::Message(m), peer) == (m, Ok::<Seq<u8>, Seq<char>>(peer)),
        concluded(ResponseModel::NotGranted, peer).1 is Err,
        concluded(ResponseModel::NotGranted, peer).0 is Error,
{
    crate::net::protocol::law_message_round_trip(
        MessageModel::ChainState { next_seq, last_hash },
    );
}

} // verus!
