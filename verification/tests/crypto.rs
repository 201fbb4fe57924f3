use rand_core::OsRng;
use x25519_dalek::{PublicKey, StaticSecret};

use ruvault::engine::crypto::{
    random_salt, unwrap_dek_for_recipient, wrap_dek_for_recipient, Argon2Params, MasterKey, KEY_LEN,
    SALT_LEN,
};

fn fast_params() -> Argon2Params {
    // Tiny params purely so unit tests don't take forever; production
    // code paths use Argon2Params::default().
    Argon2Params {
        m_cost_kib: 8,
        t_cost: 1,
        p_cost: 1,
    }
}

#[test]
fn derive_is_deterministic_for_same_salt() {
    let salt = [7u8; SALT_LEN];
    let k1 = MasterKey::derive(b"hunter2", &salt, fast_params()).unwrap();
    let k2 = MasterKey::derive(b"hunter2", &salt, fast_params()).unwrap();
    assert_eq!(k1.0, k2.0);
}

#[test]
fn derive_differs_for_different_passwords() {
    let salt = [7u8; SALT_LEN];
    let k1 = MasterKey::derive(b"hunter2", &salt, fast_params()).unwrap();
    let k2 = MasterKey::derive(b"hunter3", &salt, fast_params()).unwrap();
    assert_ne!(k1.0, k2.0);
}

#[test]
fn random_nonce_roundtrip() {
    let key = MasterKey::derive(b"pw", &[1u8; SALT_LEN], fast_params()).unwrap();
    let blob = key.encrypt_random_nonce(b"hello world", b"aad").unwrap();
    let out = key.decrypt_random_nonce(&blob, b"aad").unwrap();
    assert_eq!(out, b"hello world");
}

#[test]
fn random_nonce_rejects_tampering() {
    let key = MasterKey::derive(b"pw", &[1u8; SALT_LEN], fast_params()).unwrap();
    let mut blob = key.encrypt_random_nonce(b"hello world", b"aad").unwrap();
    let last = blob.len() - 1;
    blob[last] ^= 0xFF;
    assert!(key.decrypt_random_nonce(&blob, b"aad").is_err());
}

#[test]
fn wrong_password_fails_verifier() {
    let salt = random_salt();
    let key_a = MasterKey::derive(b"correct-password", &salt, fast_params()).unwrap();
    let blob = key_a.encrypt_random_nonce(b"verifier", b"revault-verifier").unwrap();

    let key_b = MasterKey::derive(b"wrong-password", &salt, fast_params()).unwrap();
    assert!(key_b.decrypt_random_nonce(&blob, b"revault-verifier").is_err());
}

#[test]
fn block_roundtrip_and_distinct_nonces() {
    let key = MasterKey::derive(b"pw", &[2u8; SALT_LEN], fast_params()).unwrap();
    let ct1 = key.encrypt_block(42, 0, b"block zero contents").unwrap();
    let ct2 = key.encrypt_block(42, 1, b"block one contents!").unwrap();
    assert_ne!(ct1, ct2);

    let pt1 = key.decrypt_block(42, 0, &ct1).unwrap();
    assert_eq!(pt1, b"block zero contents");

    // Ciphertext for block 0 must not decrypt as block 1 (nonce mismatch
    // -> AEAD auth failure).
    assert!(key.decrypt_block(42, 1, &ct1).is_err());
}

#[test]
fn block_ciphertext_authenticates_against_tampering() {
    let key = MasterKey::derive(b"pw", &[3u8; SALT_LEN], fast_params()).unwrap();
    let mut ct = key.encrypt_block(1, 0, b"secret payload bytes").unwrap();
    let last = ct.len() - 1;
    ct[last] ^= 0x01;
    assert!(key.decrypt_block(1, 0, &ct).is_err());
}

#[test]
fn wrap_and_unwrap_dek_roundtrip() {
    let recipient_secret = StaticSecret::random_from_rng(OsRng);
    let recipient_public = *PublicKey::from(&recipient_secret).as_bytes();
    let dek = [42u8; KEY_LEN];

    let wrapped = wrap_dek_for_recipient(&recipient_public, &dek).unwrap();
    let unwrapped = unwrap_dek_for_recipient(&recipient_secret.to_bytes(), &wrapped).unwrap();
    assert_eq!(unwrapped, dek);
}

#[test]
fn unwrap_fails_for_wrong_recipient() {
    let real_recipient = StaticSecret::random_from_rng(OsRng);
    let real_public = *PublicKey::from(&real_recipient).as_bytes();
    let dek = [7u8; KEY_LEN];
    let wrapped = wrap_dek_for_recipient(&real_public, &dek).unwrap();

    let attacker_secret = StaticSecret::random_from_rng(OsRng);
    assert!(unwrap_dek_for_recipient(&attacker_secret.to_bytes(), &wrapped).is_err());
}

#[test]
fn wrap_produces_different_ciphertext_each_time() {
    let recipient_secret = StaticSecret::random_from_rng(OsRng);
    let recipient_public = *PublicKey::from(&recipient_secret).as_bytes();
    let dek = [9u8; KEY_LEN];
    let a = wrap_dek_for_recipient(&recipient_public, &dek).unwrap();
    let b = wrap_dek_for_recipient(&recipient_public, &dek).unwrap();
    assert_ne!(a, b, "fresh ephemeral key + nonce should differ each call");
}

#[test]
fn block_encryption_handles_empty_plaintext() {
    // Empty files exist (0 bytes of content); block encryption must
    // not choke on a zero-length payload.
    let key = MasterKey::derive(b"pw", &[5u8; SALT_LEN], fast_params()).unwrap();
    let ct = key.encrypt_block(1, 0, b"").unwrap();
    let pt = key.decrypt_block(1, 0, &ct).unwrap();
    assert!(pt.is_empty());
}

#[test]
fn different_block_indices_are_not_interchangeable_ciphertext() {
    let key = MasterKey::derive(b"pw", &[6u8; SALT_LEN], fast_params()).unwrap();
    let ct_a = key.encrypt_block(1, 5, b"same file, block five").unwrap();
    let ct_b = key.encrypt_block(1, 6, b"same file, block five").unwrap();
    assert_ne!(ct_a, ct_b, "same file + same plaintext but different block index must differ");
}
