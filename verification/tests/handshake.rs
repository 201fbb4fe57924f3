use ruvault::engine::error::VaultError;
use ruvault::engine::identity::{Identity, PeerId};
use ruvault::net::handshake::{derive_session_key, ephemeral, Hello, SecureChannel, HELLO_LEN};

/// Both sides of a handshake, with the bytes handed over in memory.
fn connect(
    client: &Identity,
    server: &Identity,
    expected: &PeerId,
) -> Result<((SecureChannel, PeerId), (SecureChannel, PeerId)), VaultError> {
    let (client_secret, client_public) = ephemeral();
    let (server_secret, server_public) = ephemeral();
    let client_hello = Hello::receive(&Hello::build(client, client_public).encode())?;
    let server_hello = Hello::build(server, server_public).encode();
    let dialled = SecureChannel::initiator(&client_secret, &server_hello, expected)?;
    Ok((dialled, SecureChannel::responder(&server_secret, &client_hello)))
}

#[test]
fn handshake_and_encrypted_roundtrip() {
    let server_identity = Identity::generate();
    let client_identity = Identity::generate();
    let client_expected_server = server_identity.peer_id();
    let ((mut client_channel, server_peer_id), (mut channel, client_peer_id)) =
        connect(&client_identity, &server_identity, &client_expected_server).unwrap();

    let sealed = client_channel.send(b"hello from client").unwrap();
    let msg = channel.recv(&sealed).unwrap();
    assert_eq!(msg, b"hello from client");
    let sealed = channel.send(b"hello from server").unwrap();
    let reply = client_channel.recv(&sealed).unwrap();
    assert_eq!(reply, b"hello from server");

    assert_eq!(client_peer_id, client_identity.peer_id());
    assert_eq!(server_peer_id, client_expected_server);
}

#[test]
fn initiator_rejects_unexpected_peer_identity() {
    let server_identity = Identity::generate();
    let client_identity = Identity::generate();
    let wrong_expected_peer = Identity::generate().peer_id(); // not the server's real identity
    let result = connect(&client_identity, &server_identity, &wrong_expected_peer);
    assert!(matches!(result, Err(VaultError::AccessNotGranted)));
}

#[test]
fn a_frame_is_hidden_and_opens_once() {
    let (a, b) = (Identity::generate(), Identity::generate());
    let ((mut left, _), (mut right, _)) = connect(&a, &b, &b.peer_id()).unwrap();
    let sealed = left.send(b"the same words").unwrap();
    assert_eq!(sealed.len(), 14 + 16);
    assert_ne!(&sealed[..14], b"the same words");
    assert_eq!(right.recv(&sealed).unwrap(), b"the same words");
    assert!(right.recv(&sealed).is_err());
}

#[test]
fn equal_messages_are_sealed_differently() {
    let (a, b) = (Identity::generate(), Identity::generate());
    let ((mut left, _), (mut right, _)) = connect(&a, &b, &b.peer_id()).unwrap();
    let first = left.send(b"again").unwrap();
    let second = left.send(b"again").unwrap();
    let back = right.send(b"again").unwrap();
    assert_ne!(first, second);
    assert_ne!(first, back);
}

#[test]
fn a_changed_frame_is_refused() {
    let (a, b) = (Identity::generate(), Identity::generate());
    let ((mut left, _), (mut right, _)) = connect(&a, &b, &b.peer_id()).unwrap();
    let mut sealed = left.send(b"untouched").unwrap();
    sealed[3] ^= 1;
    assert!(right.recv(&sealed).is_err());
}

#[test]
fn a_hello_is_read_back_and_checked() {
    let id = Identity::generate();
    let (_, public) = ephemeral();
    let hello = Hello::build(&id, public);
    let bytes = hello.encode();
    assert_eq!(bytes.len(), HELLO_LEN);
    let read = Hello::decode(&bytes).unwrap();
    assert_eq!(read.peer_id, id.peer_id());
    assert_eq!(read.ephemeral_pub, public);
    assert!(read.verify().is_ok());

    let mut forged = bytes.clone();
    forged[70] ^= 1;
    assert!(Hello::decode(&forged).unwrap().verify().is_err());
    assert!(Hello::receive(&forged).is_err());
    assert!(Hello::decode(&bytes[1..]).is_err());
}

#[test]
fn both_sides_derive_the_same_key() {
    let (s1, p1) = ephemeral();
    let (s2, p2) = ephemeral();
    assert_eq!(derive_session_key(&s1, &p2), derive_session_key(&s2, &p1));
    assert_ne!(derive_session_key(&s1, &p2), derive_session_key(&s1, &p1));
}

#[test]
fn the_ends_count_through_disjoint_nonces() {
    let (a, b) = (Identity::generate(), Identity::generate());
    let ((mut left, _), (mut right, _)) = connect(&a, &b, &b.peer_id()).unwrap();
    for k in 0..3u64 {
        let mut even = [0u8; 12];
        even[..8].copy_from_slice(&(2 * k).to_le_bytes());
        let mut odd = [0u8; 12];
        odd[..8].copy_from_slice(&(2 * k + 1).to_le_bytes());
        assert_eq!((left.send_nonce(), right.recv_nonce()), (even, even));
        assert_eq!((right.send_nonce(), left.recv_nonce()), (odd, odd));
    }
}
