use ruvault::engine::error::VaultError;
use ruvault::engine::format::{Header, HEADER_SIZE};
use ruvault::engine::identity::Identity;
use ruvault::engine::image::Image;
use ruvault::engine::records::{ChainOp, ChainRecord};
use ruvault::engine::vault::Vault;
use ruvault::net::journal::PatchJournal;
use ruvault::net::protocol::SyncMessage;
use ruvault::net::sync::{
    apply_incoming, is_granted, join_request, join_response, push_patch, receive_peer, refused,
    serve, Admission, NOT_GRANTED,
};

fn replica_of(bytes: &[u8], peer: &Identity) -> Vault {
    Vault::open_as_recipient(Image::from_bytes(bytes), peer).unwrap()
}

#[test]
fn peer_can_join_and_read_granted_content() {
    let mut vault = Vault::create("V", "d", 256 * 1024, "pw", Identity::generate()).unwrap();
    vault.add_file("hello.txt", b"shared over the wire").unwrap();

    let peer_identity = Identity::generate();
    vault.grant_access(&peer_identity.peer_id()).unwrap();

    assert!(matches!(receive_peer(&vault, &peer_identity.peer_id()), Ok(Admission::Granted)));
    let served = serve(&vault, None, &join_request().encode());
    assert!(served.outcome.is_ok());
    let bytes = join_response(&served.reply.unwrap().encode()).unwrap();

    let joined_vault = replica_of(&bytes, &peer_identity);
    assert_eq!(joined_vault.read_file("hello.txt").unwrap(), b"shared over the wire");
}

#[test]
fn ungranted_peer_is_rejected() {
    let mut vault = Vault::create("V", "d", 256 * 1024, "pw", Identity::generate()).unwrap();
    vault.add_file("hello.txt", b"secret").unwrap();

    let stranger = Identity::generate();
    assert!(!is_granted(&vault, &stranger.peer_id()).unwrap());
    let reply = match receive_peer(&vault, &stranger.peer_id()).unwrap() {
        Admission::Refused(m) => m,
        Admission::Granted => panic!("a stranger was let in"),
    };
    assert_eq!(reply, SyncMessage::Error { message: NOT_GRANTED.to_string() });
    let result = join_response(&reply.encode());
    assert!(result.is_err());
    assert_eq!(
        result.err().unwrap().message(),
        "remote peer reported an error: not granted access to this vault"
    );

    let server_result: Result<(), VaultError> = Err(refused());
    assert!(matches!(server_result, Err(VaultError::NotAuthorized)));
}

#[test]
fn a_request_that_is_no_chain_state_is_refused() {
    let vault = Vault::create("V", "d", 256 * 1024, "pw", Identity::generate()).unwrap();
    let served = serve(&vault, None, &SyncMessage::UpToDate.encode());
    assert_eq!(
        served.reply,
        Some(SyncMessage::Error { message: "expected a ChainState message".to_string() })
    );
    assert!(matches!(
        served.outcome,
        Err(VaultError::CorruptContainer("peer did not send ChainState first"))
    ));
    let served = serve(&vault, None, &[]);
    assert_eq!(served.reply, None);
    assert!(served.outcome.is_err());
}

#[test]
fn a_pushed_patch_reproduces_the_change() {
    let mut vault = Vault::create("V", "d", 256 * 1024, "pw", Identity::generate()).unwrap();
    vault.add_file("a.txt", b"alpha").unwrap();
    let peer = Identity::generate();
    vault.grant_access(&peer.peer_id()).unwrap();
    vault.take_change_log();
    let mut replica = replica_of(&vault.export_full().unwrap(), &peer);

    let (seq, _) = vault.chain_state();
    vault.update_file("a.txt", b"alpha, revised").unwrap();
    vault.add_file("b.txt", &vec![3u8; 9000]).unwrap();
    let message = push_patch(seq, vault.take_change_log());
    apply_incoming(&mut replica, &message.encode()).unwrap();

    assert_eq!(replica.export_full().unwrap(), vault.export_full().unwrap());
    assert_eq!(replica.read_file("a.txt").unwrap(), b"alpha, revised");
    assert_eq!(replica.read_file("b.txt").unwrap(), vec![3u8; 9000]);
    assert_eq!(replica.chain_state(), vault.chain_state());
}

#[test]
fn a_reconnecting_peer_gets_only_what_it_missed() {
    let mut vault = Vault::create("V", "d", 256 * 1024, "pw", Identity::generate()).unwrap();
    let peer = Identity::generate();
    vault.grant_access(&peer.peer_id()).unwrap();
    vault.take_change_log();
    let mut replica = replica_of(&vault.export_full().unwrap(), &peer);

    let mut journal = PatchJournal::new(4);
    let (seq, _) = vault.chain_state();
    vault.add_file("a.txt", b"alpha").unwrap();
    journal.record(seq, vault.take_change_log());
    let (seq, _) = vault.chain_state();
    vault.add_file("b.txt", b"beta").unwrap();
    journal.record(seq, vault.take_change_log());

    let (next_seq, last_hash) = replica.chain_state();
    let request = SyncMessage::ChainState { next_seq, last_hash };
    let served = serve(&vault, Some(&journal), &request.encode());
    let reply = served.reply.unwrap();
    assert!(matches!(reply, SyncMessage::Patch { .. }));
    apply_incoming(&mut replica, &reply.encode()).unwrap();
    assert_eq!(replica.export_full().unwrap(), vault.export_full().unwrap());

    let served = serve(&vault, Some(&journal), &join_request().encode());
    assert!(matches!(served.reply, Some(SyncMessage::FullSync { .. })));
}

#[test]
fn other_messages_leave_a_replica_alone() {
    let mut vault = Vault::create("V", "d", 256 * 1024, "pw", Identity::generate()).unwrap();
    let before = vault.export_full().unwrap();
    apply_incoming(&mut vault, &SyncMessage::UpToDate.encode()).unwrap();
    let error = SyncMessage::Error { message: "no".to_string() };
    assert!(matches!(apply_incoming(&mut vault, &error.encode()), Err(VaultError::Remote(_))));
    let full = SyncMessage::FullSync { bytes: vec![1] };
    assert!(matches!(
        apply_incoming(&mut vault, &full.encode()),
        Err(VaultError::CorruptContainer("unexpected message while applying incoming sync"))
    ));
    assert!(matches!(
        join_response(&SyncMessage::UpToDate.encode()),
        Err(VaultError::CorruptContainer("unexpected response while joining"))
    ));
    assert_eq!(vault.export_full().unwrap(), before);
}

/// A vault with one granted peer, and the peer's replica.
fn shared() -> (Vault, Vault) {
    let mut vault = Vault::create("V", "d", 256 * 1024, "pw", Identity::generate()).unwrap();
    let peer = Identity::generate();
    vault.grant_access(&peer.peer_id()).unwrap();
    vault.take_change_log();
    let replica = replica_of(&vault.export_full().unwrap(), &peer);
    (vault, replica)
}

/// A patch that appends one record, signed by `signer` and linking to `prev_hash`.
fn forged(replica: &Vault, signer: &Identity, prev_hash: [u8; 32]) -> Vec<(u64, Vec<u8>)> {
    let bytes = replica.export_full().unwrap();
    let mut h = Header::decode(&bytes[..HEADER_SIZE as usize]).unwrap();
    let seq = h.chain_next_seq;
    let op = ChainOp::FileAdded;
    let rec = ChainRecord::new_signed(seq, prev_hash, op, 1, [2; 32], 3, signer);
    let at = h.chain_offset + seq % h.max_chain_records as u64 * h.chain_record_size as u64;
    h.chain_next_seq = seq + 1;
    h.chain_last_hash = rec.record_hash;
    vec![(at, rec.encode()), (0, h.encode())]
}

#[test]
fn a_patch_that_does_not_verify_is_refused_as_a_whole() {
    let admin = Identity::from_bytes(&[9; 64]);
    let mut vault =
        Vault::create("V", "d", 256 * 1024, "pw", Identity::from_bytes(&[9; 64])).unwrap();
    vault.add_file("a.txt", b"alpha").unwrap();
    let peer = Identity::generate();
    vault.grant_access(&peer.peer_id()).unwrap();
    vault.take_change_log();
    let mut replica = replica_of(&vault.export_full().unwrap(), &peer);
    let before = replica.export_full().unwrap();
    let state = replica.chain_state();
    let tip = state.1;

    let impostor = Identity::generate();
    let unsigned = forged(&replica, &impostor, tip);
    let unlinked = forged(&replica, &admin, [1; 32]);
    let mut without_record = forged(&replica, &admin, tip);
    without_record.remove(0);
    let mut other_anchor = forged(&replica, &admin, tip);
    let mut h = Header::decode(&other_anchor[1].1).unwrap();
    h.chain_last_hash = [4; 32];
    other_anchor[1].1 = h.encode();
    let mut other_admin = forged(&replica, &impostor, tip);
    let mut h = Header::decode(&other_admin[1].1).unwrap();
    h.admin_signing_pubkey = impostor.peer_id().signing_public;
    other_admin[1].1 = h.encode();
    let mut back = Header::decode(&before[..HEADER_SIZE as usize]).unwrap();
    back.chain_next_seq -= 1;
    let anchor_only = vec![(
        Header::decode(&before[..HEADER_SIZE as usize]).unwrap().chain_offset
            + (state.0 - 1) * 224,
        vec![0u8; 224],
    )];
    for patch in [
        unsigned,
        unlinked,
        without_record,
        other_anchor,
        other_admin,
        vec![(0, back.encode())],
        anchor_only,
    ] {
        let r = replica.apply_remote_patch(&patch);
        assert!(matches!(r, Err(VaultError::IntegrityViolation(_))));
        assert_eq!(replica.export_full().unwrap(), before);
        assert_eq!(replica.chain_state(), state);
        assert_eq!(replica.read_file("a.txt").unwrap(), b"alpha");
    }
    for patch in [vec![(0, vec![0; 1024])], vec![(50, vec![1]), (u64::MAX, vec![1])]] {
        assert!(replica.apply_remote_patch(&patch).is_err());
        assert_eq!(replica.export_full().unwrap(), before);
    }

    let honest = forged(&replica, &admin, tip);
    replica.apply_remote_patch(&honest).unwrap();
    assert_eq!(replica.chain_state().0, state.0 + 1);
}

#[test]
fn a_patch_applied_twice_changes_nothing_more() {
    let (mut vault, mut replica) = shared();
    vault.add_file("a.txt", b"alpha").unwrap();
    let patch = vault.take_change_log();
    replica.apply_remote_patch(&patch).unwrap();
    replica.apply_remote_patch(&patch).unwrap();
    assert_eq!(replica.export_full().unwrap(), vault.export_full().unwrap());
}

#[test]
fn a_patch_longer_than_the_chains_ring_is_applied() {
    let mut vault = Vault::create("V", "d", 64 * 1024, "pw", Identity::generate()).unwrap();
    vault.add_file("f", b"0").unwrap();
    let peer = Identity::generate();
    vault.grant_access(&peer.peer_id()).unwrap();
    vault.take_change_log();
    let mut replica = replica_of(&vault.export_full().unwrap(), &peer);

    // The ring holds sixteen records; the patch brings seventeen.
    for i in 0..17u8 {
        vault.update_file("f", &[i]).unwrap();
    }
    let patch = vault.take_change_log();
    assert!(vault.take_change_log().is_empty());
    replica.apply_remote_patch(&patch).unwrap();
    assert_eq!(replica.export_full().unwrap(), vault.export_full().unwrap());
    assert_eq!(replica.chain_state(), vault.chain_state());
    assert_eq!(replica.read_file("f").unwrap(), [16]);
    replica.verify_integrity().unwrap();
}

#[test]
fn a_long_patch_is_checked_at_every_step() {
    let mut vault = Vault::create("V", "d", 64 * 1024, "pw", Identity::generate()).unwrap();
    vault.add_file("f", b"0").unwrap();
    let peer = Identity::generate();
    vault.grant_access(&peer.peer_id()).unwrap();
    vault.take_change_log();
    let mut replica = replica_of(&vault.export_full().unwrap(), &peer);
    let before = replica.export_full().unwrap();
    let h = Header::decode(&before[..HEADER_SIZE as usize]).unwrap();
    let ring = h.chain_offset..h.chain_offset + h.chain_len;

    for i in 0..20u8 {
        vault.update_file("f", &[i]).unwrap();
    }
    let patch = vault.take_change_log();
    let records: Vec<usize> = (0..patch.len()).filter(|k| ring.contains(&patch[*k].0)).collect();
    let headers: Vec<usize> = (0..patch.len()).filter(|k| patch[*k].0 == 0).collect();
    assert_eq!((records.len(), headers.len()), (20, 20));

    // Records that the ring has no room for any more at the end count too.
    for k in [records[0], records[1], records[3], records[19]] {
        let mut broken = patch.clone();
        broken[k].1[180] ^= 1;
        assert!(replica.apply_remote_patch(&broken).is_err());
        let mut missing = patch.clone();
        missing.remove(k);
        assert!(replica.apply_remote_patch(&missing).is_err());
        assert_eq!(replica.export_full().unwrap(), before);
    }
    // A header under another admin key is refused, even if the last one is right.
    let mut stranger = patch.clone();
    let mut h = Header::decode(&stranger[headers[2]].1).unwrap();
    h.admin_signing_pubkey = Identity::generate().peer_id().signing_public;
    stranger[headers[2]].1 = h.encode();
    assert!(replica.apply_remote_patch(&stranger).is_err());
    assert_eq!(replica.export_full().unwrap(), before);

    replica.apply_remote_patch(&patch).unwrap();
    assert_eq!(replica.export_full().unwrap(), vault.export_full().unwrap());
}

#[test]
fn a_peer_far_behind_catches_up_by_a_patch() {
    let mut vault = Vault::create("V", "d", 16 * 4096, "pw", Identity::generate()).unwrap();
    let peer = Identity::generate();
    vault.grant_access(&peer.peer_id()).unwrap();
    vault.take_change_log();
    let bytes = vault.export_full().unwrap();
    let mut journal = PatchJournal::new(64);
    let mut short = PatchJournal::new(4);
    for i in 0..21u8 {
        let (seq, _) = vault.chain_state();
        if i == 0 {
            vault.add_file("f", b"0").unwrap();
        } else {
            vault.update_file("f", &[i]).unwrap();
        }
        let ranges = vault.take_change_log();
        short.record(seq, ranges.clone());
        journal.record(seq, ranges);
    }
    let mut replica = replica_of(&bytes, &peer);
    let (next_seq, last_hash) = replica.chain_state();
    assert_eq!((next_seq, vault.chain_state().0), (2, 23));
    let request = SyncMessage::ChainState { next_seq, last_hash }.encode();
    let reply = serve(&vault, Some(&journal), &request).reply.unwrap();
    assert!(matches!(reply, SyncMessage::Patch { .. }));
    apply_incoming(&mut replica, &reply.encode()).unwrap();
    assert_eq!(replica.export_full().unwrap(), vault.export_full().unwrap());
    assert_eq!(replica.chain_state(), vault.chain_state());

    // What the journal has dropped can only come with the whole container.
    let reply = serve(&vault, Some(&short), &request).reply.unwrap();
    assert!(matches!(reply, SyncMessage::FullSync { .. }));
}
