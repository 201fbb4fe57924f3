use ruvault::engine::identity::{verify_signature, Identity, PeerId};

#[test]
fn generate_produces_usable_keys() {
    let identity = Identity::generate();
    let peer_id = identity.peer_id();
    let msg = b"hello, peer";
    let sig = identity.sign(msg);
    assert!(verify_signature(&peer_id.signing_public, msg, &sig).is_ok());
}

#[test]
fn verify_rejects_tampered_message() {
    let identity = Identity::generate();
    let peer_id = identity.peer_id();
    let sig = identity.sign(b"original message");
    assert!(verify_signature(&peer_id.signing_public, b"different message", &sig).is_err());
}

#[test]
fn verify_rejects_wrong_signer() {
    let a = Identity::generate();
    let b = Identity::generate();
    let sig = a.sign(b"hello");
    assert!(verify_signature(&b.peer_id().signing_public, b"hello", &sig).is_err());
}

#[test]
fn identity_bytes_roundtrip_preserves_peer_id() {
    let identity = Identity::generate();
    let peer_id_before = identity.peer_id();
    let bytes = identity.to_bytes();
    let restored = Identity::from_bytes(&bytes);
    assert_eq!(restored.peer_id(), peer_id_before);
}

#[test]
fn peer_id_bytes_roundtrip() {
    let identity = Identity::generate();
    let peer_id = identity.peer_id();
    let bytes = peer_id.to_bytes();
    let restored = PeerId::from_bytes(&bytes).unwrap();
    assert_eq!(restored, peer_id);
}

#[test]
fn fingerprint_is_stable_and_differs_between_identities() {
    let a = Identity::generate();
    let b = Identity::generate();
    assert_eq!(a.peer_id().fingerprint(), a.peer_id().fingerprint());
    assert_ne!(a.peer_id().fingerprint(), b.peer_id().fingerprint());
}
