//! What each side of a sync says and does, given what it received. Connecting,
//! reading and writing frames is left to the caller.

use vstd::prelude::*;

use crate::engine::bytes;
use crate::engine::error::{self, Fault, Result, VaultError};
use crate::engine::identity::PeerId;
use crate::engine::model::VaultModel;
use crate::engine::records::SlotModel;
use crate::engine::replay;
use crate::engine::rotation;
use crate::engine::sharing;
use crate::engine::vault::{self, Vault};

use super::journal::{self, PatchJournal};
use super::protocol::{MessageModel, SyncMessage};

verus! {

pub const NOT_GRANTED: &'static str = "not granted access to this vault";

pub const STATE_EXPECTED: &'static str = "expected a ChainState message";

/// Whether one of these slots is granted to the peer.
pub open spec fn among(slots: Seq<SlotModel>, peer: Seq<u8>) -> bool {
    exists|k: int|
        0 <= k < slots.len() && (#[trigger] slots[k]).signing_pubkey + slots[k].encryption_pubkey
            == peer
}

/// Whether the peer is a recipient of the vault; a vault whose keyring cannot
/// be read gives the fault.
pub open spec fn granted_to_peer(v: VaultModel, peer: Seq<u8>) -> core::result::Result<
    bool,
    Fault,
> {
    match v.granted(v.header.max_recipients as int) {
        Err(f) => Err(f),
        Ok(slots) => Ok(among(slots, peer)),
    }
}

/// Whether the peer is a recipient of the vault.
pub fn is_granted(vault: &Vault, peer: &PeerId) -> (r: Result<bool>)
    requires
        vault.wf(),
    ensures
        match r {
            Ok(b) => granted_to_peer(vault@, peer@) == Ok::<bool, Fault>(b),
            Err(e) => granted_to_peer(vault@, peer@) == Err::<bool, Fault>(e@),
        },
{
    let peers = match vault.list_recipients() {
        Ok(peers) => peers,
        Err(e) => {
            return Err(e);
        },
    };
    let ghost slots = vault@.granted(vault@.header.max_recipients as int)->Ok_0;
    let mut i: usize = 0;
    while i < peers.len()
        invariant
            i <= peers@.len(),
            vault::peers_match(peers@, slots),
            vault@.granted(vault@.header.max_recipients as int) == Ok::<Seq<SlotModel>, Fault>(
                slots,
            ),
            forall|k: int|
                0 <= k < i ==> (#[trigger] slots[k]).signing_pubkey + slots[k].encryption_pubkey
                    != peer@,
        decreases peers@.len() - i,
    {
        assert(peers@[i as int].peer_id@ == slots[i as int].signing_pubkey
            + slots[i as int].encryption_pubkey);
        if peers[i].peer_id.same(peer) {
            return Ok(true);
        }
        i = i + 1;
    }
    Ok(false)
}

/// What an optional journal holds.
pub open spec fn journal_of(j: Option<&PatchJournal>) -> Seq<journal::Recorded> {
    match j {
        Some(j) => j@,
        None => Seq::empty(),
    }
}

/// What brings a peer up to date whose next sequence number is `next_seq`: the
/// patches it missed if the journal reaches back far enough, and else the whole
/// container.
pub open spec fn catch_up(
    v: VaultModel,
    entries: Seq<journal::Recorded>,
    next_seq: u64,
) -> MessageModel {
    match journal::since(entries, next_seq) {
        Some(ranges) => MessageModel::Patch { seq: next_seq, ranges },
        None => MessageModel::FullSync { bytes: v.image },
    }
}

/// The message that brings a peer up to date.
pub fn catch_up_message(vault: &Vault, journal: Option<&PatchJournal>, next_seq: u64) -> (r: Result<
    SyncMessage,
>)
    requires
        vault.wf(),
    ensures
        r is Ok,
        r->Ok_0@ == catch_up(vault@, journal_of(journal), next_seq),
{
    let missed = match journal {
        Some(j) => j.ranges_since(next_seq),
        None => None,
    };
    match missed {
        Some(ranges) => Ok(SyncMessage::Patch { seq: next_seq, ranges }),
        None => match vault.export_full() {
            Ok(bytes) => Ok(SyncMessage::FullSync { bytes }),
            Err(e) => Err(e),
        },
    }
}

/// What the serving side does with a peer that finished the handshake.
pub enum Admission {
    /// The peer may ask.
    Granted,
    /// The peer is told why not, and the connection ends.
    Refused(SyncMessage),
}

/// Decides whether a peer may ask. One that may not is told so, and serving it
/// fails.
pub fn receive_peer(vault: &Vault, peer: &PeerId) -> (r: Result<Admission>)
    requires
        vault.wf(),
    ensures
        match (r, granted_to_peer(vault@, peer@)) {
            (Ok(Admission::Granted), Ok(granted)) => granted,
            (Ok(Admission::Refused(m)), Ok(granted)) => !granted && m@ == (MessageModel::Error {
                message: NOT_GRANTED@,
            }),
            (Err(e), Err(f)) => e@ == f,
            _ => false,
        },
{
    match is_granted(vault, peer) {
        Err(e) => Err(e),
        Ok(true) => Ok(Admission::Granted),
        Ok(false) => Ok(
            Admission::Refused(SyncMessage::Error { message: NOT_GRANTED.to_owned() }),
        ),
    }
}

/// What serving a peer that may not ask comes to.
pub fn refused() -> (r: VaultError)
    ensures
        r@ == Fault::NotAuthorized,
{
    VaultError::NotAuthorized
}

/// An answer to send, if there is one, and what serving the peer comes to.
pub struct Served {
    pub reply: Option<SyncMessage>,
    pub outcome: Result<()>,
}

/// The value of an optional message.
pub open spec fn message_of(m: Option<SyncMessage>) -> Option<MessageModel> {
    match m {
        Some(m) => Some(m@),
        None => None,
    }
}

/// What serving comes to, given the request of a peer that may ask.
pub open spec fn serving(
    v: VaultModel,
    entries: Seq<journal::Recorded>,
    request: Seq<u8>,
) -> (Option<MessageModel>, core::result::Result<(), Fault>) {
    match MessageModel::decoded(request) {
        Err(f) => (None, Err(f)),
        Ok(MessageModel::ChainState { next_seq, .. }) => (
            Some(catch_up(v, entries, next_seq)),
            Ok(()),
        ),
        Ok(_) => (
            Some(MessageModel::Error { message: STATE_EXPECTED@ }),
            Err(Fault::CorruptContainer("peer did not send ChainState first")),
        ),
    }
}

/// Answers the request of a peer that may ask.
pub fn serve(vault: &Vault, journal: Option<&PatchJournal>, request: &[u8]) -> (r: Served)
    requires
        vault.wf(),
    ensures
        (message_of(r.reply), error::outcome(r.outcome)) == serving(
            vault@,
            journal_of(journal),
            request@,
        ),
{
    match SyncMessage::decode(request) {
        Err(e) => Served { reply: None, outcome: Err(e) },
        Ok(SyncMessage::ChainState { next_seq, .. }) => match catch_up_message(
            vault,
            journal,
            next_seq,
        ) {
            Ok(m) => Served { reply: Some(m), outcome: Ok(()) },
            Err(e) => {
                assert(false);
                Served { reply: None, outcome: Err(e) }
            },
        },
        Ok(_) => Served {
            reply: Some(SyncMessage::Error { message: STATE_EXPECTED.to_owned() }),
            outcome: Err(VaultError::CorruptContainer("peer did not send ChainState first")),
        },
    }
}

/// The request of a peer that has no replica yet.
pub fn join_request() -> (r: SyncMessage)
    ensures
        r@ == (MessageModel::ChainState { next_seq: 0, last_hash: bytes::zeros(32) }),
{
    let last_hash = [0u8; 32];
    assert(last_hash@ =~= bytes::zeros(32));
    SyncMessage::ChainState { next_seq: 0, last_hash }
}

/// What a joining peer makes of the answer: the container to store.
pub open spec fn joining(response: Seq<u8>) -> core::result::Result<Seq<u8>, Fault> {
    match MessageModel::decoded(response) {
        Err(f) => Err(f),
        Ok(MessageModel::FullSync { bytes }) => Ok(bytes),
        Ok(MessageModel::Error { message }) => Err(Fault::Remote(message)),
        Ok(_) => Err(Fault::CorruptContainer("unexpected response while joining")),
    }
}

/// The container that a joining peer is to store.
pub fn join_response(response: &[u8]) -> (r: Result<Vec<u8>>)
    ensures
        error::outcome(r) == joining(response@),
{
    match SyncMessage::decode(response) {
        Err(e) => Err(e),
        Ok(SyncMessage::FullSync { bytes }) => Ok(bytes),
        Ok(SyncMessage::Error { message }) => Err(VaultError::Remote(message)),
        Ok(_) => Err(VaultError::CorruptContainer("unexpected response while joining")),
    }
}

/// The message that hands a change on to a connected peer.
pub fn push_patch(seq: u64, ranges: Vec<(u64, Vec<u8>)>) -> (r: SyncMessage)
    ensures
        r@ == (MessageModel::Patch { seq, ranges: vault::ranges_of(ranges@) }),
{
    SyncMessage::Patch { seq, ranges }
}

/// What an incoming message does to a replica.
pub open spec fn incoming(v: VaultModel, message: Seq<u8>) -> (
    VaultModel,
    core::result::Result<(), Fault>,
) {
    match MessageModel::decoded(message) {
        Err(f) => (v, Err(f)),
        Ok(MessageModel::Patch { ranges, .. }) => v.applying(ranges),
        Ok(MessageModel::UpToDate) => (v, Ok(())),
        Ok(MessageModel::Error { message }) => (v, Err(Fault::Remote(message))),
        Ok(_) => (
            v,
            Err(Fault::CorruptContainer("unexpected message while applying incoming sync")),
        ),
    }
}

/// Applies an incoming message to a replica.
pub fn apply_incoming(vault: &mut Vault, message: &[u8]) -> (r: Result<()>)
    requires
        old(vault).wf(),
    ensures
        final(vault).wf(),
        (final(vault)@, error::outcome(r)) == incoming(old(vault)@, message@),
{
    match SyncMessage::decode(message) {
        Err(e) => Err(e),
        Ok(SyncMessage::Patch { ranges, .. }) => vault.apply_remote_patch(ranges.as_slice()),
        Ok(SyncMessage::UpToDate) => Ok(()),
        Ok(SyncMessage::Error { message }) => Err(VaultError::Remote(message)),
        Ok(_) => Err(
            VaultError::CorruptContainer("unexpected message while applying incoming sync"),
        ),
    }
}

// ---------------------------------------------------------------------
// What syncing promises
// ---------------------------------------------------------------------

/// A peer that joins gets the container that the serving side holds, byte for
/// byte, whatever the journal holds.
pub proof fn law_joining_copies_the_container(
    v: VaultModel,
    entries: Seq<journal::Recorded>,
    request: Seq<u8>,
    response: Seq<u8>,
)
    requires
        v.image.len() < 0x1_0000_0000_0000_0000,
        request == (MessageModel::ChainState {
            next_seq: 0,
            last_hash: bytes::zeros(32),
        }).encoded(),
        serving(v, entries, request).0 matches Some(m) && response == m.encoded(),
    ensures
        joining(response) == Ok::<Seq<u8>, Fault>(v.image),
{
    super::protocol::law_message_round_trip(
        MessageModel::ChainState { next_seq: 0, last_hash: bytes::zeros(32) },
    );
    super::protocol::law_message_round_trip(MessageModel::FullSync { bytes: v.image });
}

/// Catching up reproduces the vault: a replica of the vault as it was before the
/// change with the number it asks for becomes, byte for byte, the vault's
/// container. Whoever gets the whole container gets it as it is. `at(s)` is the
/// vault before the change with number `s`.
pub proof fn law_catching_up_reproduces(
    v: VaultModel,
    entries: Seq<journal::Recorded>,
    at: spec_fn(int) -> VaultModel,
    replica: VaultModel,
    message: Seq<u8>,
)
    requires
        catch_up(v, entries, replica.header.chain_next_seq).fits(),
        message == catch_up(v, entries, replica.header.chain_next_seq).encoded(),
        catch_up(v, entries, replica.header.chain_next_seq) is Patch ==> {
            &&& v.stored()
            &&& v.chain_ok()
            &&& journal::faithful(entries, at)
            &&& entries.last().0 + 1 == v.header.chain_next_seq
            &&& replay::same_container(at(v.header.chain_next_seq as int), v)
            &&& replay::same_container(replica, at(replica.header.chain_next_seq as int))
            &&& replica.header.chain_next_seq <= v.header.chain_next_seq
        },
    ensures
        match catch_up(v, entries, replica.header.chain_next_seq) {
            MessageModel::Patch { .. } => incoming(replica, message) == (
                VaultModel { image: v.image, header: v.header, bitmap: v.bitmap, ..replica },
                Ok::<(), Fault>(()),
            ),
            _ => joining(message) == Ok::<Seq<u8>, Fault>(v.image),
        },
{
    let from = replica.header.chain_next_seq;
    super::protocol::law_message_round_trip(catch_up(v, entries, from));
    if let MessageModel::Patch { ranges, .. } = catch_up(v, entries, from) {
        journal::law_catch_up(entries, at, from);
        assert(replay::leads(at(from as int), ranges, at(v.header.chain_next_seq as int)));
        assert(replay::leads(replica, ranges, v));
        replay::law_verified_patch_is_applied(ranges, v, replica);
    }
}

/// A live push reproduces the change: a replica that the vault's log leads to the
/// vault becomes, byte for byte, the vault's container.
pub proof fn law_push_reproduces(
    v: VaultModel,
    replica: VaultModel,
    seq: u64,
    message: Seq<u8>,
)
    requires
        v.stored(),
        v.chain_ok(),
        replay::leads(replica, v.log, v),
        (MessageModel::Patch { seq, ranges: v.log }).fits(),
        message == (MessageModel::Patch { seq, ranges: v.log }).encoded(),
    ensures
        incoming(replica, message) == (
            VaultModel { image: v.image, header: v.header, bitmap: v.bitmap, ..replica },
            Ok::<(), Fault>(()),
        ),
{
    super::protocol::law_message_round_trip(MessageModel::Patch { seq, ranges: v.log });
    replay::law_patch_reproduces(v, replica);
}

/// Whoever asks is brought up to date: whatever sequence number a peer's replica
/// has come to, taking in the answer, as a patch or as the whole container, leaves
/// the peer with the vault's container, byte for byte. `at(s)` is the vault before
/// the change with number `s`, and `ranges` is what the journal has for the peer.
pub proof fn law_serving_brings_up_to_date(
    v: VaultModel,
    entries: Seq<journal::Recorded>,
    at: spec_fn(int) -> VaultModel,
    replica: VaultModel,
    request: Seq<u8>,
    last_hash: Seq<u8>,
)
    requires
        MessageModel::decoded(request) == Ok::<MessageModel, Fault>(
            MessageModel::ChainState { next_seq: replica.header.chain_next_seq, last_hash },
        ),
        replica.header.chain_next_seq <= v.header.chain_next_seq,
        v.stored(),
        v.chain_ok(),
        journal::faithful(entries, at),
        entries.len() > 0 ==> entries.last().0 + 1 == v.header.chain_next_seq,
        replay::same_container(at(v.header.chain_next_seq as int), v),
        replay::same_container(replica, at(replica.header.chain_next_seq as int)),
        journal::since(entries, replica.header.chain_next_seq) matches Some(ranges) ==> (
        MessageModel::Patch { seq: replica.header.chain_next_seq, ranges }).fits(),
    ensures
        serving(v, entries, request).1 is Ok,
        serving(v, entries, request).0 is Some,
        ({
            let response = serving(v, entries, request).0->Some_0.encoded();
            ||| joining(response) == Ok::<Seq<u8>, Fault>(v.image)
            ||| incoming(replica, response) == (
                VaultModel { image: v.image, header: v.header, bitmap: v.bitmap, ..replica },
                Ok::<(), Fault>(()),
            )
        }),
        0 < replica.header.chain_next_seq && entries.len() > 0 && entries[0].0
            <= replica.header.chain_next_seq ==> serving(v, entries, request).0->Some_0 is Patch,
        replica.header.chain_next_seq == 0 ==> serving(v, entries, request).0->Some_0 is FullSync,
{
    let from = replica.header.chain_next_seq;
    let reply = serving(v, entries, request).0->Some_0;
    law_catching_up_reproduces(v, entries, at, replica, reply.encoded());
}

// ---------------------------------------------------------------------
// Who is served
// ---------------------------------------------------------------------

/// Slot `i` is granted to the peer with these keys.
pub open spec fn holds_slot(v: VaultModel, i: int, peer: Seq<u8>) -> bool {
    v.grants(i) && v.recipient(i)->Ok_0.signing_pubkey + v.recipient(i)->Ok_0.encryption_pubkey
        == peer
}

/// One of the first `n` slots is granted and holds `s`.
pub open spec fn has_slot(v: VaultModel, n: int, s: SlotModel) -> bool {
    exists|i: int| 0 <= i < n && #[trigger] v.grants(i) && v.recipient(i)->Ok_0 == s
}

pub(crate) proof fn lemma_granted(v: VaultModel, n: int)
    requires
        v.recipients_ok(),
        0 <= n <= v.header.max_recipients,
    ensures
        v.granted(n) is Ok,
        forall|k: int|
            0 <= k < v.granted(n)->Ok_0.len() ==> has_slot(v, n, #[trigger] v.granted(n)->Ok_0[k]),
        forall|i: int|
            0 <= i < n && #[trigger] v.grants(i) ==> v.granted(n)->Ok_0.contains(
                v.recipient(i)->Ok_0,
            ),
    decreases n,
{
    if n > 0 {
        lemma_granted(v, n - 1);
        assert(v.recipient(n - 1) is Ok);
        let before = v.granted(n - 1)->Ok_0;
        let now = v.granted(n)->Ok_0;
        assert forall|k: int| 0 <= k < now.len() implies has_slot(v, n, #[trigger] now[k]) by {
            if k < before.len() {
                assert(now[k] == before[k]);
                assert(has_slot(v, n - 1, before[k]));
                let i = choose|i: int|
                    0 <= i < n - 1 && #[trigger] v.grants(i) && v.recipient(i)->Ok_0 == before[k];
                assert(v.grants(i));
            } else {
                assert(v.grants(n - 1));
            }
        }
        assert forall|i: int| 0 <= i < n && #[trigger] v.grants(i) implies now.contains(
            v.recipient(i)->Ok_0,
        ) by {
            if i < n - 1 {
                let k = choose|k: int| 0 <= k < before.len() && before[k] == v.recipient(i)->Ok_0;
                assert(now[k] == before[k]);
            } else {
                assert(now.last() == v.recipient(i)->Ok_0);
            }
        }
    }
}

/// Exactly the granted peers are let in: a peer may ask if and only if some slot of
/// the keyring is granted to its keys, whichever slot that is.
pub proof fn law_granted_peers_are_let_in(v: VaultModel, peer: Seq<u8>)
    requires
        v.recipients_ok(),
    ensures
        granted_to_peer(v, peer) is Ok,
        granted_to_peer(v, peer)->Ok_0 <==> exists|i: int| #[trigger] holds_slot(v, i, peer),
{
    let n = v.header.max_recipients as int;
    lemma_granted(v, n);
    let slots = v.granted(n)->Ok_0;
    if among(slots, peer) {
        let k = choose|k: int|
            0 <= k < slots.len() && (#[trigger] slots[k]).signing_pubkey
                + slots[k].encryption_pubkey == peer;
        assert(has_slot(v, n, slots[k]));
        let i = choose|i: int|
            0 <= i < n && #[trigger] v.grants(i) && v.recipient(i)->Ok_0 == slots[k];
        assert(holds_slot(v, i, peer));
    }
    if exists|i: int| #[trigger] holds_slot(v, i, peer) {
        let i = choose|i: int| #[trigger] holds_slot(v, i, peer);
        let s = v.recipient(i)->Ok_0;
        let k = choose|k: int| 0 <= k < slots.len() && slots[k] == s;
        assert(slots[k].signing_pubkey + slots[k].encryption_pubkey == peer);
    }
}

/// Granting lets the peer in, and nobody out: the new peer may ask, and whoever
/// could ask before still can.
pub proof fn law_granting_lets_in(
    v: VaultModel,
    w: VaultModel,
    signing: Seq<u8>,
    encryption: Seq<u8>,
    other: Seq<u8>,
)
    requires
        v.recipients_ok(),
        sharing::granted_to(v, w, signing, encryption),
    ensures
        granted_to_peer(w, signing + encryption) == Ok::<bool, Fault>(true),
        other != signing + encryption ==> granted_to_peer(w, other) == granted_to_peer(v, other),
{
    let peer = signing + encryption;
    law_granted_peers_are_let_in(w, peer);
    law_granted_peers_are_let_in(w, other);
    law_granted_peers_are_let_in(v, other);
    let i = choose|i: int| #[trigger]
        w.grants(i) && !v.grants(i) && w.recipient(i)->Ok_0.signing_pubkey == signing
            && w.recipient(i)->Ok_0.encryption_pubkey == encryption && forall|j: int|
            0 <= j < v.header.max_recipients && j != i ==> #[trigger] w.recipient(j)
                == v.recipient(j);
    assert(holds_slot(w, i, peer));
    if exists|j: int| #[trigger] holds_slot(v, j, other) {
        let j = choose|j: int| #[trigger] holds_slot(v, j, other);
        assert(w.recipient(j) == v.recipient(j));
        assert(holds_slot(w, j, other));
    }
    if other != peer && exists|j: int| #[trigger] holds_slot(w, j, other) {
        let j = choose|j: int| #[trigger] holds_slot(w, j, other);
        assert(w.recipient(j) == v.recipient(j));
        assert(holds_slot(v, j, other));
    }
}

/// Revoking shuts out every holder of the revoked signing key, and nobody else.
pub proof fn law_revoking_shuts_out(
    v: VaultModel,
    w: VaultModel,
    signing: Seq<u8>,
    password: Seq<u8>,
    peer: Seq<u8>,
)
    requires
        v.recipients_ok(),
        rotation::revoked(v, w, signing, password),
        signing.len() == 32,
        peer.len() == 64,
    ensures
        granted_to_peer(w, peer) == (if peer.take(32) == signing {
            Ok::<bool, Fault>(false)
        } else {
            granted_to_peer(v, peer)
        }),
{
    law_granted_peers_are_let_in(v, peer);
    law_granted_peers_are_let_in(w, peer);
    assert forall|i: int| #[trigger] holds_slot(w, i, peer) implies holds_slot(v, i, peer)
        && peer.take(32) != signing by {
        assert(w.grants(i));
        assert(rotation::still_granted(v, w, i));
        assert(v.grants(i));
        assert(peer.take(32) =~= v.recipient(i)->Ok_0.signing_pubkey);
    }
    assert forall|i: int| #[trigger] holds_slot(v, i, peer) && peer.take(32) != signing implies
        holds_slot(w, i, peer) by {
        assert(v.grants(i));
        assert(peer.take(32) =~= v.recipient(i)->Ok_0.signing_pubkey);
        assert(w.grants(i));
        assert(rotation::still_granted(v, w, i));
    }
}

/// What is not a request for changes is answered with an error and changes nothing,
/// and what does not decode is not answered.
pub proof fn law_only_requests_are_served(
    v: VaultModel,
    entries: Seq<journal::Recorded>,
    request: Seq<u8>,
)
    ensures
        serving(v, entries, request).1 is Ok <==> MessageModel::decoded(request) matches Ok(
            MessageModel::ChainState { .. },
        ),
        serving(v, entries, request).0 is None <==> MessageModel::decoded(request) is Err,
        MessageModel::decoded(request) is Ok && serving(v, entries, request).1 is Err ==> serving(
            v,
            entries,
            request,
        ).0->Some_0 is Error,
{
}

/// Only a patch changes a replica, and only the whole container can be joined by. An
/// error that the other side sends is reported in its own words, and nothing is
/// changed on that account.
pub proof fn law_other_messages_change_nothing(v: VaultModel, b: Seq<u8>, m: MessageModel)
    requires
        MessageModel::decoded(b) == Ok::<MessageModel, Fault>(m),
    ensures
        !(m is Patch) ==> incoming(v, b).0 == v,
        !(m is Patch) ==> (incoming(v, b).1 is Ok <==> m is UpToDate),
        joining(b) is Ok <==> m is FullSync,
        m matches MessageModel::FullSync { bytes } ==> joining(b) == Ok::<Seq<u8>, Fault>(
            bytes,
        ),
        m matches MessageModel::Error { message } ==> incoming(v, b).1 == Err::<
            (),
            Fault,
        >(Fault::Remote(message)) && joining(b) == Err::<Seq<u8>, Fault>(
            Fault::Remote(message),
        ),
{
}

} // verus!
