//! What the Network tab does to the unlocked vault and for its peers.

use vstd::prelude::*;

use crate::engine::bytes;
use crate::engine::crypto;
use crate::engine::error::{self, Fault};
use crate::engine::health;
use crate::engine::identity::{self, PeerId};
use crate::engine::model::{self, VaultModel};
use crate::engine::readings;
use crate::engine::records::ChainOp;
use crate::engine::replay;
use crate::engine::rotation;
use crate::engine::sharing;
use crate::engine::text;
use crate::engine::vault;
use crate::net::invite::{InviteCode, InviteModel};
use crate::net::journal::{self, PatchJournal};
use crate::net::sync;
use crate::tui::network_bridge::{self, BridgeEvent, ResponseModel, SyncResponse};

use super::network_tab;
use super::vaults::unlocked::{self, BookModel, Effects, ScreenModel, Serving, UnlockedState};

verus! {

pub const NO_ADDRESS: &'static str = "This invite code has no address to connect to.";

pub const REPLICA_EXISTS: &'static str =
    "A replica from this peer already exists in your vaults directory.";

/// How many patches a served vault keeps.
pub const JOURNAL_LIMIT: usize = 64;

// ---------------------------------------------------------------------
// Invite codes
// ---------------------------------------------------------------------

/// What a typed invite code says, given whether its address can be parsed; or
/// what the user is told.
pub open spec fn invited(input: Seq<char>, address_parses: bool) -> core::result::Result<
    InviteModel,
    Seq<char>,
> {
    match InviteModel::decoded(text::trimmed(input)) {
        Err(f) => Err(f.message()),
        Ok(invite) => if invite.address is Some && !address_parses {
            Err(Fault::CorruptContainer("invite code has an invalid address").message())
        } else {
            Ok(invite)
        },
    }
}

/// Reads a typed invite code.
pub fn read_invite(input: &str, address_parses: bool) -> (r: core::result::Result<
    InviteCode,
    String,
>)
    ensures
        match r {
            Ok(i) => invited(input@, address_parses) == Ok::<InviteModel, Seq<char>>(i@),
            Err(m) => invited(input@, address_parses) == Err::<InviteModel, Seq<char>>(m@),
        },
{
    match InviteCode::decode(text::trim(input)) {
        Err(e) => Err(e.message()),
        Ok(invite) => match invite.check_address(address_parses) {
            Err(e) => Err(e.message()),
            Ok(()) => Ok(invite),
        },
    }
}

/// Whom to join, where, and the name of the file for the replica.
pub struct JoinPlan {
    pub peer: PeerId,
    pub address: String,
    pub file_name: String,
}

/// The name of the file for the replica of a peer's vault.
pub open spec fn replica_name(peer: Seq<u8>) -> Seq<char> {
    "joined-"@ + identity::fingerprint_of(peer) + ".rvlt"@
}

/// What joining needs, out of a typed invite code.
pub fn plan_join(input: &str, address_parses: bool) -> (r: core::result::Result<JoinPlan, String>)
    ensures
        match (r, invited(input@, address_parses)) {
            (Ok(plan), Ok(invite)) => plan.peer@ == invite.peer && invite.address == Some(
                plan.address@,
            ) && plan.file_name@ == replica_name(invite.peer),
            (Err(m), Ok(invite)) => invite.address is None && m@ == NO_ADDRESS@,
            (Err(m), Err(why)) => m@ == why,
            (Ok(_), Err(_)) => false,
        },
{
    match read_invite(input, address_parses) {
        Err(m) => Err(m),
        Ok(invite) => match invite.address {
            None => Err(NO_ADDRESS.to_owned()),
            Some(address) => {
                let mut file_name = "joined-".to_owned();
                file_name.append(invite.peer_id.fingerprint().as_str());
                file_name.append(".rvlt");
                Ok(JoinPlan { peer: invite.peer_id, address, file_name })
            },
        },
    }
}

/// The line that is logged after joining.
pub fn joined_line(vault_name: &str, address: &str) -> (r: String)
    ensures
        r@ == "joined vault \""@ + vault_name@ + "\" as a peer via "@ + address@,
{
    let mut out = "joined vault \"".to_owned();
    out.append(vault_name);
    out.append("\" as a peer via ");
    out.append(address);
    out
}

/// A line that says something of a peer and a vault.
pub open spec fn peer_line(
    what: Seq<char>,
    peer: Seq<u8>,
    between: Seq<char>,
    vault: Seq<char>,
    end: Seq<char>,
) -> Seq<char> {
    what + identity::fingerprint_of(peer) + between + vault + end
}

fn say_of_peer(what: &str, peer: &PeerId, between: &str, vault: &str, end: &str) -> (r: String)
    ensures
        r@ == peer_line(what@, peer@, between@, vault@, end@),
{
    let mut out = what.to_owned();
    out.append(peer.fingerprint().as_str());
    out.append(between);
    out.append(vault);
    out.append(end);
    out
}

// ---------------------------------------------------------------------
// Granting and revoking
// ---------------------------------------------------------------------

/// What the user is told of an outcome.
pub open spec fn told(r: core::result::Result<(), Fault>) -> core::result::Result<(), Seq<char>> {
    match r {
        Ok(u) => Ok(u),
        Err(f) => Err(f.message()),
    }
}

/// What an operation left to do, and what the user is told of it.
pub struct Done {
    pub effects: Effects,
    pub result: core::result::Result<(), String>,
}

impl Done {
    /// Nothing was done, for this reason.
    fn nothing(why: String) -> (r: Self)
        ensures
            r.is_nothing(why@),
    {
        let effects = Effects { writes: Vec::new(), log: None };
        assert(vault::ranges_of(effects.writes@) =~= Seq::empty());
        Done { effects, result: Err(why) }
    }

    /// Nothing was done, for this reason.
    pub open spec fn is_nothing(self, why: Seq<char>) -> bool {
        &&& vault::ranges_of(self.effects.writes@) == Seq::<(u64, Seq<u8>)>::empty()
        &&& self.effects.log is None
        &&& network_tab::result_of(self.result) == Err::<(), Seq<char>>(why)
    }

    /// An operation made the vault `w`, left the state `after` with this book,
    /// and had this outcome; `line` is logged if it succeeded.
    pub open spec fn follows(
        self,
        after: UnlockedState,
        book: BookModel,
        w: VaultModel,
        outcome: core::result::Result<(), Fault>,
        line: Seq<char>,
    ) -> bool {
        &&& after.book() == book
        &&& vault::ranges_of(self.effects.writes@) == w.log
        &&& network_tab::result_of(self.result) == told(outcome)
        &&& text::opt_text(self.effects.log) == (if outcome is Ok {
            Some(line)
        } else {
            None
        })
    }

    /// Granting `peer` access, with this wrapped key and at these times, had
    /// this result.
    pub open spec fn is_grant(
        self,
        before: UnlockedState,
        after: UnlockedState,
        peer: Seq<u8>,
        wrapped: Seq<u8>,
        at: i64,
        chained_at: i64,
    ) -> bool {
        let v = before.vault@;
        let (w, outcome) = v.granting(
            peer.subrange(0, 32),
            peer.subrange(32, 64),
            wrapped,
            at,
            chained_at,
        );
        &&& wrapped.len() == 92
        &&& crypto::unwraps_for(wrapped, peer.subrange(32, 64), v.key)
        &&& self.follows(
            after,
            before.book().settled(w),
            w,
            outcome,
            peer_line(
                "granted access to "@,
                peer,
                " on vault \""@,
                before.name@,
                "\""@,
            ),
        )
    }

    /// Revoking the access of `peer`, with this new content key, wrapped this
    /// way, had this result.
    pub open spec fn is_revocation(
        self,
        before: UnlockedState,
        after: UnlockedState,
        peer: Seq<u8>,
        password: Seq<char>,
        new_key: Seq<u8>,
        wraps: Seq<Seq<u8>>,
        nonce: Seq<u8>,
        chained_at: i64,
    ) -> bool {
        let v = before.vault@;
        let signing = peer.subrange(0, 32);
        let (w, outcome) = v.revoking(
            signing,
            bytes::text(password),
            new_key,
            wraps,
            nonce,
            chained_at,
        );
        &&& v.revocation_opens(signing, bytes::text(password), new_key, wraps, nonce, chained_at)
        &&& self.follows(
            after,
            before.book().rotated(w),
            w,
            outcome,
            peer_line(
                "revoked access from "@,
                peer,
                " on vault \""@,
                before.name@,
                "\" (key rotated)"@,
            ),
        )
    }
}

/// A change was taken in: it is to be written to the file, and the book is in step
/// with the vault if it was before.
pub open spec fn keeps_step(before: UnlockedState, after: UnlockedState) -> bool {
    let seq = before.vault@.header.chain_next_seq;
    &&& after.vault@.log.len() == 0
    &&& after.book().limit == before.book().limit
    &&& forall|at: spec_fn(int) -> VaultModel, first: int|
        before.book().in_step(at, first) && replay::same_container(at(seq + 1), after.vault@)
            ==> #[trigger] after.book().in_step(at, first)
}

/// The content was sealed under another key: it is to be written to the file, no
/// patch is left for peers, and the book is in step with the vault from there on if
/// it was before.
pub open spec fn starts_afresh(before: UnlockedState, after: UnlockedState) -> bool {
    let seq = before.vault@.header.chain_next_seq;
    &&& after.vault@.log.len() == 0
    &&& after.book().limit == before.book().limit
    &&& forall|at: spec_fn(int) -> VaultModel, first: int|
        #![trigger before.book().in_step(at, first)]
        before.book().in_step(at, first) && replay::same_container(at(seq + 1), after.vault@)
            ==> after.book().in_step(at, seq + 1) && (after.book().journal matches Some(entries)
            ==> entries.len() == 0)
}

proof fn lemma_keeps_step(before: UnlockedState, after: UnlockedState, w: VaultModel)
    requires
        replay::keeps_lead(before.vault@, w),
        health::advances(before.vault@, w),
        after.book() == before.book().settled(w),
    ensures
        keeps_step(before, after),
{
    let seq = before.vault@.header.chain_next_seq;
    assert forall|at: spec_fn(int) -> VaultModel, first: int|
        before.book().in_step(at, first) && replay::same_container(
            at(seq + 1),
            after.vault@,
        ) implies #[trigger] after.book().in_step(at, first) by {
        unlocked::law_settling_keeps_step(before.book(), w, at, first);
    }
}

proof fn lemma_starts_afresh(before: UnlockedState, after: UnlockedState, w: VaultModel)
    requires
        before.vault@.stored(),
        w.stored(),
        replay::keeps_lead(before.vault@, w),
        health::advances(before.vault@, w),
        after.book() == before.book().rotated(w),
    ensures
        starts_afresh(before, after),
{
    let seq = before.vault@.header.chain_next_seq;
    assert forall|at: spec_fn(int) -> VaultModel, first: int|
        #![trigger before.book().in_step(at, first)]
        before.book().in_step(at, first) && replay::same_container(
            at(seq + 1),
            after.vault@,
        ) implies after.book().in_step(at, seq + 1) && (after.book().journal matches Some(entries)
        ==> entries.len() == 0) by {
        unlocked::law_rotation_starts_afresh(before.book(), w, at, first);
    }
}

/// Grants access to the peer of a typed invite code.
pub fn submit_grant(state: &mut UnlockedState, input: &str, address_parses: bool) -> (r: Done)
    requires
        old(state).changeable(),
    ensures
        final(state).wf(),
        final(state).same_place(old(state)),
        final(state).screen() == old(state).screen(),
        match invited(input@, address_parses) {
            Err(m) => *final(state) == *old(state) && r.is_nothing(m),
            Ok(invite) => exists|wrapped: Seq<u8>, at: i64, chained_at: i64| #[trigger]
                r.is_grant(*old(state), *final(state), invite.peer, wrapped, at, chained_at)
                    && readings::clock_showed(at) && readings::clock_showed(chained_at) && (old(
                    state,
                ).vault@.healthy() && r.result is Ok ==> vault::granted_when(
                    old(state).vault@,
                    final(state).changed(r.effects),
                    invite.peer.subrange(0, 32),
                    invite.peer.subrange(32, 64),
                    at,
                    chained_at,
                )),
        },
        invited(input@, address_parses) matches Ok(invite) ==> old(state).vault@.healthy() ==> {
            let signing = invite.peer.subrange(0, 32);
            if sharing::grantable(old(state).vault@, signing) {
                &&& r.result is Ok
                &&& sharing::granted_to(
                    old(state).vault@,
                    final(state).changed(r.effects),
                    signing,
                    invite.peer.subrange(32, 64),
                )
                &&& sync::granted_to_peer(final(state).changed(r.effects), invite.peer) == Ok::<
                    bool,
                    Fault,
                >(true)
                &&& keeps_step(*old(state), *final(state))
            } else {
                r.result is Err && final(state).vault@.image == old(state).vault@.image
            }
        },
{
    let invite = match read_invite(input, address_parses) {
        Ok(invite) => invite,
        Err(m) => {
            return Done::nothing(m);
        },
    };
    let peer = invite.peer_id;
    assert(peer@.subrange(0, 32) =~= peer.signing_public@);
    assert(peer@.subrange(32, 64) =~= peer.encryption_public@);
    let ghost v = state.vault@;
    let result = state.vault.grant_access(&peer);
    let ghost w = state.vault@;
    let ghost outcome = error::outcome(result);
    let ghost (wrapped, at, chained_at) = choose|wrapped: Seq<u8>, at: i64, chained_at: i64|
        wrapped.len() == 92 && crypto::unwraps_for(wrapped, peer.encryption_public@, v.key)
            && #[trigger] v.granting(
            peer.signing_public@,
            peer.encryption_public@,
            wrapped,
            at,
            chained_at,
        ) == (w, outcome) && readings::clock_showed(at) && readings::clock_showed(chained_at) && (
        v.healthy() && result is Ok ==> vault::granted_when(
            v,
            w,
            peer.signing_public@,
            peer.encryption_public@,
            at,
            chained_at,
        ));
    let writes = state.settle();
    let done = match result {
        Ok(()) => {
            let line = say_of_peer(
                "granted access to ",
                &peer,
                " on vault \"",
                state.name.as_str(),
                "\"",
            );
            Done { effects: Effects { writes, log: Some(line) }, result: Ok(()) }
        },
        Err(e) => Done { effects: Effects { writes, log: None }, result: Err(e.message()) },
    };
    proof {
        assert(peer@ =~= peer.signing_public@ + peer.encryption_public@);
        if v.healthy() && result is Ok {
            sync::law_granting_lets_in(
                v,
                w,
                peer.signing_public@,
                peer.encryption_public@,
                peer@,
            );
            lemma_keeps_step(*old(state), *state, w);
        }
    }
    assert(done.is_grant(
        *old(state),
        *state,
        invited(input@, address_parses)->Ok_0.peer,
        wrapped,
        at,
        chained_at,
    ));
    done
}

/// Revokes a peer's access and rotates the vault's key. Peers that are behind
/// then need the whole container.
pub fn submit_revoke(state: &mut UnlockedState, target: &PeerId, password: &str) -> (r: Done)
    requires
        old(state).changeable(),
    ensures
        final(state).wf(),
        final(state).same_place(old(state)),
        final(state).screen() == old(state).screen(),
        exists|new_key: Seq<u8>, wraps: Seq<Seq<u8>>, nonce: Seq<u8>, chained_at: i64| #[trigger]
            r.is_revocation(
                *old(state),
                *final(state),
                target@,
                password@,
                new_key,
                wraps,
                nonce,
                chained_at,
            ) && new_key != old(state).vault@.key && readings::drawn(new_key) && readings::drawn(nonce)
                && readings::clock_showed(chained_at) && (old(state).vault@.healthy()
                && r.result is Ok ==> final(state).vault@.key == new_key && health::tells(
                old(state).vault@,
                final(state).changed(r.effects),
                ChainOp::KeyRotated,
                model::peer_target(target@.subrange(0, 32)),
                crypto::sha256_of(target@.subrange(0, 32))@,
                chained_at,
            )),
        old(state).vault@.healthy() ==> {
            let signing = target@.subrange(0, 32);
            let pw = bytes::text(password@);
            if rotation::revocable(old(state).vault@, signing, pw) {
                &&& r.result is Ok
                &&& rotation::revoked(
                    old(state).vault@,
                    final(state).changed(r.effects),
                    signing,
                    pw,
                )
                &&& final(state).vault@.key != old(state).vault@.key
                &&& sync::granted_to_peer(final(state).changed(r.effects), target@) == Ok::<
                    bool,
                    Fault,
                >(false)
                &&& starts_afresh(*old(state), *final(state))
            } else {
                r.result is Err
            }
        },
{
    assert(target@.subrange(0, 32) =~= target.signing_public@);
    let ghost v = state.vault@;
    let result = state.vault.revoke_access(&target.signing_public, password);
    let ghost w = state.vault@;
    let ghost outcome = error::outcome(result);
    let ghost (new_key, wraps, nonce, chained_at) = choose|
        new_key: Seq<u8>,
        wraps: Seq<Seq<u8>>,
        nonce: Seq<u8>,
        chained_at: i64,
    |
        #[trigger] v.revoking(
            target.signing_public@,
            bytes::text(password@),
            new_key,
            wraps,
            nonce,
            chained_at,
        ) == (w, outcome) && v.revocation_opens(
            target.signing_public@,
            bytes::text(password@),
            new_key,
            wraps,
            nonce,
            chained_at,
        ) && new_key != v.key && readings::drawn(new_key) && readings::drawn(nonce)
            && readings::clock_showed(chained_at) && (v.healthy() && result is Ok ==> w.key
            == new_key && health::tells(
            v,
            w,
            ChainOp::KeyRotated,
            model::peer_target(target.signing_public@),
            crypto::sha256_of(target.signing_public@)@,
            chained_at,
        ));
    let writes = state.settle_rotation();
    let done = match result {
        Ok(()) => {
            let line = say_of_peer(
                "revoked access from ",
                target,
                " on vault \"",
                state.name.as_str(),
                "\" (key rotated)",
            );
            Done { effects: Effects { writes, log: Some(line) }, result: Ok(()) }
        },
        Err(e) => Done { effects: Effects { writes, log: None }, result: Err(e.message()) },
    };
    proof {
        if v.healthy() && result is Ok {
            assert(target@.take(32) =~= target.signing_public@);
            sync::law_revoking_shuts_out(
                v,
                w,
                target.signing_public@,
                bytes::text(password@),
                target@,
            );
            lemma_starts_afresh(*old(state), *state, w);
        }
    }
    assert(done.is_revocation(
        *old(state),
        *state,
        target@,
        password@,
        new_key,
        wraps,
        nonce,
        chained_at,
    ));
    done
}

// ---------------------------------------------------------------------
// Serving
// ---------------------------------------------------------------------

/// Starts to record patches for peers that connect to `port`. Returns the line
/// to log.
pub fn start_serving(state: &mut UnlockedState, port: u16) -> (r: String)
    requires
        old(state).wf(),
    ensures
        final(state).wf(),
        *final(state) == (UnlockedState { serving: final(state).serving, ..*old(state) }),
        final(state).serving matches Some(s) && s.port == port,
        final(state).book().journal == Some(Seq::<journal::Recorded>::empty()),
        final(state).book().limit == JOURNAL_LIMIT,
        r@ == "started serving vault \""@ + old(state).name@ + "\" on port "@ + text::decimal_of(
            port as nat,
        ),
{
    state.serving = Some(Serving { port, journal: PatchJournal::new(JOURNAL_LIMIT) });
    let mut out = "started serving vault \"".to_owned();
    out.append(state.name.as_str());
    out.append("\" on port ");
    out.append(text::decimal(port as u64).as_str());
    out
}

/// Stops serving. Returns the line to log, if the vault was served.
pub fn stop_serving(state: &mut UnlockedState) -> (r: Option<String>)
    requires
        old(state).wf(),
    ensures
        final(state).wf(),
        *final(state) == (UnlockedState { serving: None, ..*old(state) }),
        text::opt_text(r) == (if old(state).serving is Some {
            Some("stopped serving vault \""@ + old(state).name@ + "\""@)
        } else {
            None
        }),
{
    if state.serving.is_none() {
        return None;
    }
    state.serving = None;
    let mut out = "stopped serving vault \"".to_owned();
    out.append(state.name.as_str());
    out.append("\"");
    Some(out)
}

/// What a peer is answered that asks from `next_seq` on.
pub open spec fn answer_of(
    v: VaultModel,
    entries: Seq<journal::Recorded>,
    peer: Seq<u8>,
    next_seq: u64,
) -> ResponseModel {
    if sync::granted_to_peer(v, peer) == Ok::<bool, Fault>(true) {
        ResponseModel::Message(sync::catch_up(v, entries, next_seq))
    } else {
        ResponseModel::NotGranted
    }
}

/// The patches recorded for the peers of a vault that may be served.
pub open spec fn recorded_of(s: Option<Serving>) -> Seq<journal::Recorded> {
    match s {
        Some(s) => s.journal@,
        None => Seq::empty(),
    }
}

/// Answers a peer.
pub fn answer(state: &UnlockedState, peer: &PeerId, next_seq: u64) -> (r: SyncResponse)
    requires
        state.wf(),
    ensures
        r@ == answer_of(state.vault@, recorded_of(state.serving), peer@, next_seq),
{
    match sync::is_granted(&state.vault, peer) {
        Ok(true) => {},
        _ => {
            return SyncResponse::NotGranted;
        },
    }
    let journal = match &state.serving {
        Some(s) => Some(&s.journal),
        None => None,
    };
    match sync::catch_up_message(&state.vault, journal, next_seq) {
        Ok(m) => SyncResponse::Message(m),
        Err(_) => {
            assert(false);
            SyncResponse::NotGranted
        },
    }
}

/// Shows what happened to a connection. Returns the line to log.
pub fn note_event(state: &mut UnlockedState, event: BridgeEvent) -> (r: Option<String>)
    ensures
        final(state).same_vault(old(state)),
        final(state).session == old(state).session,
        match event {
            BridgeEvent::Synced(peer) => final(state).screen() == (ScreenModel {
                message: Some("Synced "@ + identity::fingerprint_of(peer@)),
                ..old(state).screen()
            }) && text::opt_text(r) == Some(
                peer_line("peer synced: "@, peer@, " on vault \""@, old(state).name@, "\""@),
            ),
            BridgeEvent::Failed(why) => final(state).screen() == (ScreenModel {
                message: Some("Sync failed: "@ + why@),
                ..old(state).screen()
            }) && r is None,
        },
{
    match event {
        BridgeEvent::Synced(peer) => {
            state.message = Some(text::concat("Synced ", peer.fingerprint().as_str()));
            Some(
                say_of_peer("peer synced: ", &peer, " on vault \"", state.name.as_str(), "\""),
            )
        },
        BridgeEvent::Failed(why) => {
            state.message = Some(text::concat("Sync failed: ", why.as_str()));
            None
        },
    }
}

/// A peer that is not granted is sent a refusal, and the same one whatever the
/// vault and its journal hold.
pub proof fn law_stranger_learns_nothing(
    v: VaultModel,
    entries: Seq<journal::Recorded>,
    peer: Seq<u8>,
    next_seq: u64,
)
    requires
        sync::granted_to_peer(v, peer) != Ok::<bool, Fault>(true),
    ensures
        network_bridge::concluded(answer_of(v, entries, peer, next_seq), peer) == (
            crate::net::protocol::MessageModel::Error { message: sync::NOT_GRANTED@ },
            Err::<Seq<u8>, Seq<char>>(
                identity::fingerprint_of(peer) + " is not granted access"@,
            ),
        ),
{
}

// ---------------------------------------------------------------------
// What peers are promised
// ---------------------------------------------------------------------

/// A granted peer is brought up to date: whatever number its replica has come to,
/// taking in the answer leaves the peer with the vault's container, byte for byte. A
/// peer whose missed changes are all recorded is sent no more than those. `at(s)` is
/// the vault before the change with number `s`.
pub proof fn law_granted_peer_is_brought_up_to_date(
    v: VaultModel,
    entries: Seq<journal::Recorded>,
    at: spec_fn(int) -> VaultModel,
    replica: VaultModel,
    peer: Seq<u8>,
    i: int,
)
    requires
        v.recipients_ok(),
        sync::holds_slot(v, i, peer),
        replica.header.chain_next_seq <= v.header.chain_next_seq,
        v.stored(),
        v.chain_ok(),
        journal::faithful(entries, at),
        entries.len() > 0 ==> entries.last().0 + 1 == v.header.chain_next_seq,
        replay::same_container(at(v.header.chain_next_seq as int), v),
        replay::same_container(replica, at(replica.header.chain_next_seq as int)),
        journal::since(entries, replica.header.chain_next_seq) matches Some(ranges) ==> (
        crate::net::protocol::MessageModel::Patch {
            seq: replica.header.chain_next_seq,
            ranges,
        }).fits(),
    ensures
        answer_of(v, entries, peer, replica.header.chain_next_seq) matches ResponseModel::Message(m)
            && ({
            ||| sync::joining(m.encoded()) == Ok::<Seq<u8>, Fault>(v.image)
            ||| sync::incoming(replica, m.encoded()) == (
                VaultModel { image: v.image, header: v.header, bitmap: v.bitmap, ..replica },
                Ok::<(), Fault>(()),
            )
        }),
        0 < replica.header.chain_next_seq && entries.len() > 0 && entries[0].0
            <= replica.header.chain_next_seq ==> (answer_of(
            v,
            entries,
            peer,
            replica.header.chain_next_seq,
        ) matches ResponseModel::Message(m) && m is Patch),
{
    sync::law_granted_peers_are_let_in(v, peer);
    let m = sync::catch_up(v, entries, replica.header.chain_next_seq);
    sync::law_catching_up_reproduces(v, entries, at, replica, m.encoded());
}

/// A typed invite code says what the invite that it was made of says, with white
/// space around it or without; an address that cannot be dialled is refused.
pub proof fn law_invite_is_read_as_made(
    m: InviteModel,
    before: Seq<char>,
    after: Seq<char>,
    address_parses: bool,
)
    requires
        m.peer.len() == 64,
        text::all_space(before),
        text::all_space(after),
    ensures
        m.address is None || address_parses ==> invited(
            before + m.encoded() + after,
            address_parses,
        ) == Ok::<InviteModel, Seq<char>>(m),
        m.address is Some && !address_parses ==> invited(
            before + m.encoded() + after,
            address_parses,
        ) is Err,
{
    let e = m.encoded();
    crate::net::invite::law_invite_is_lower_hex(m);
    text::law_hex_round_trip(m.packed());
    assert('0' <= e[0] <= '9' || 'a' <= e[0] <= 'f');
    assert('0' <= e.last() <= '9' || 'a' <= e.last() <= 'f');
    text::law_trimming_takes_the_margins(before, e, after);
    crate::net::invite::law_invite_round_trip(m);
}

/// A replica is kept under the name of a vault's file, so that it is listed with the
/// vaults, and under the fingerprint of the peer that it came from.
pub proof fn law_replica_is_a_vault_file(peer: Seq<u8>, other: Seq<u8>)
    ensures
        super::vaults::naming::names_vault(replica_name(peer)),
        identity::fingerprint_of(peer) != identity::fingerprint_of(other) ==> replica_name(peer)
            != replica_name(other),
{
    reveal_strlit("joined-");
    reveal_strlit(".rvlt");
    let front = "joined-"@ + identity::fingerprint_of(peer);
    super::vaults::naming::law_vault_files_are_recognised(front);
    let a = replica_name(peer);
    let b = replica_name(other);
    assert(a.subrange(7, a.len() - 5) =~= identity::fingerprint_of(peer));
    assert(b.subrange(7, b.len() - 5) =~= identity::fingerprint_of(other));
}

/// A vault that begins to be served begins without patches, and stays in step: what
/// was written before goes along with the first change. An unlocked vault that
/// nothing was done to is in step with itself.
pub proof fn law_serving_starts_in_step(
    b: BookModel,
    at: spec_fn(int) -> VaultModel,
    first: int,
    limit: nat,
)
    ensures
        b.in_step(at, first) ==> (BookModel {
            journal: Some(Seq::empty()),
            limit,
            ..b
        }).in_step(at, first),
        b.in_step(at, first) ==> (BookModel { journal: None, limit: 0, ..b }).in_step(at, first),
        b.vault.log.len() == 0 && b.journal is None && b.unrecorded.len() == 0
            && replay::same_container(at(b.vault.header.chain_next_seq as int), b.vault)
            ==> b.in_step(at, b.vault.header.chain_next_seq as int),
{
    let seq = b.vault.header.chain_next_seq as int;
    if b.vault.log.len() == 0 && b.unrecorded.len() == 0 && replay::same_container(
        at(seq),
        b.vault,
    ) {
        assert forall|t: int| seq <= t <= seq implies replay::leads(
            #[trigger] at(t),
            b.unrecorded,
            b.vault,
        ) by {
            replay::law_replica_starts_lead(b.vault, at(t));
            assert(b.unrecorded =~= b.vault.log);
        }
    }
}

} // verus!
