//! Cryptographic primitives of the `.rvlt` format.
//!
//! * Key derivation: Argon2id turns the password and a per-vault salt into a
//!   256-bit key.
//! * Confidentiality: AES-256-GCM protects the wrapped content key and every
//!   data block.
//! * Integrity: SHA-256 links the chain and fingerprints file contents.
//! * Sharing: X25519 wraps the content key for a peer.
//!
//! No cryptographic algorithm is implemented here. The functions marked
//! `external_body` call the crates that do; what they are taken to return is
//! stated in their contracts.

use aes_gcm::aead::{Aead, KeyInit, Payload};
use aes_gcm::Aes256Gcm;
use argon2::{Algorithm, Argon2, Params, Version};
use rand::RngCore;
use rand_core::OsRng;
use sha2::{Digest, Sha256};
use vstd::prelude::*;
use x25519_dalek::{PublicKey, StaticSecret};
use zeroize::Zeroize;

use super::bytes;
use super::error::{self, Fault, Result, VaultError};
use super::readings;

verus! {

pub const SALT_LEN: usize = 16;

pub const KEY_LEN: usize = 32;

pub const NONCE_LEN: usize = 12;

pub const TAG_LEN: usize = 16;

/// Ephemeral public key (32), nonce, sealed key and tag.
pub const WRAPPED_DEK_LEN: usize = 92;

/// The longest message that AES-256-GCM seals under one nonce here.
pub const SEAL_MAX: u64 = 0xF_FFFF_FFE0;

/// The longest associated data that AES-256-GCM takes.
pub const AAD_MAX: u64 = 0x10_0000_0000;

/// The longest password that Argon2 takes.
pub const PASSWORD_MAX: u64 = 0xFFFF_FFFF;

pub const BLOCK_NONCE_TAG: &'static str = "revault-block-nonce-v1";

pub const WRAP_TAG: &'static str = "revault-dek-wrap-v1";

// ---------------------------------------------------------------------
// What the outside crates compute
// ---------------------------------------------------------------------

/// The SHA-256 digest of `data`.
pub uninterp spec fn sha256_of(data: Seq<u8>) -> [u8; 32];

/// The 32-byte Argon2id (version 0x13) hash.
pub uninterp spec fn argon2id_of(
    password: Seq<u8>,
    salt: Seq<u8>,
    m_cost_kib: u32,
    t_cost: u32,
    p_cost: u32,
) -> [u8; 32];

/// AES-256-GCM encryption: ciphertext followed by the tag.
pub uninterp spec fn gcm_sealed(
    key: Seq<u8>,
    nonce: Seq<u8>,
    aad: Seq<u8>,
    msg: Seq<u8>,
) -> Seq<u8>;

/// AES-256-GCM decryption: the message, if the tag authenticates it.
pub uninterp spec fn gcm_opened(
    key: Seq<u8>,
    nonce: Seq<u8>,
    aad: Seq<u8>,
    sealed: Seq<u8>,
) -> Option<Seq<u8>>;

/// The X25519 public key of `secret`.
pub uninterp spec fn x25519_public_of(secret: Seq<u8>) -> [u8; 32];

/// The X25519 shared secret of `secret` and a peer's public key.
pub uninterp spec fn x25519_shared_of(secret: Seq<u8>, their_public: Seq<u8>) -> [u8; 32];

/// `sha2::Sha256` over one input: its result is named by [`sha256_of`].
#[verifier::external_body]
pub fn sha256(data: &[u8]) -> (r: [u8; 32])
    ensures
        r@ == sha256_of(data@)@,
{
    let mut hasher = Sha256::new();
    hasher.update(data);
    hasher.finalize().into()
}

/// Whether `argon2::Params::new` accepts the costs.
pub open spec fn argon2_costs_ok(m_cost_kib: u32, t_cost: u32, p_cost: u32) -> bool {
    m_cost_kib >= 8 && m_cost_kib >= 8 * p_cost && t_cost >= 1 && 1 <= p_cost <= 0xFF_FFFF
}

/// `argon2::Argon2::hash_password_into` with Argon2id, version 0x13 and a
/// 32-byte output. It succeeds for exactly the costs that
/// [`argon2_costs_ok`] accepts; the hash is named by [`argon2id_of`]. Lane
/// counts whose eightfold does not fit 32 bits are left out.
#[verifier::external_body]
fn argon2id(password: &[u8], salt: &[u8; 16], m_cost_kib: u32, t_cost: u32, p_cost: u32) -> (r:
    Option<[u8; 32]>)
    requires
        password@.len() <= PASSWORD_MAX,
        8 * p_cost <= u32::MAX,
    ensures
        r is Some <==> argon2_costs_ok(m_cost_kib, t_cost, p_cost),
        r is Some ==> r->Some_0@ == argon2id_of(password@, salt@, m_cost_kib, t_cost, p_cost)@,
{
    let params = Params::new(m_cost_kib, t_cost, p_cost, Some(32)).ok()?;
    let mut out = [0u8; 32];
    Argon2::new(Algorithm::Argon2id, Version::V0x13, params)
        .hash_password_into(password, salt, &mut out)
        .ok()?;
    Some(out)
}

/// `aes_gcm::Aes256Gcm` encryption of `msg` with associated data. Within the
/// length limits it succeeds; the result is named by [`gcm_sealed`], is 16
/// bytes longer than the message, and decrypts to the message.
#[verifier::external_body]
pub(crate) fn gcm_seal(key: &[u8; 32], nonce: &[u8; 12], aad: &[u8], msg: &[u8]) -> (r: Option<Vec<u8>>)
    requires
        msg@.len() <= SEAL_MAX,
        aad@.len() <= AAD_MAX,
    ensures
        r is Some,
        r->Some_0@ == gcm_sealed(key@, nonce@, aad@, msg@),
        r->Some_0@.len() == msg@.len() + 16,
        gcm_opened(key@, nonce@, aad@, r->Some_0@) == Some(msg@),
{
    Aes256Gcm::new(key.into()).encrypt(nonce.into(), Payload { msg, aad }).ok()
}

/// `aes_gcm::Aes256Gcm` decryption of `sealed` with associated data. The
/// result is named by [`gcm_opened`]; a message is 16 bytes shorter than
/// what was opened.
#[verifier::external_body]
pub(crate) fn gcm_open(key: &[u8; 32], nonce: &[u8; 12], aad: &[u8], sealed: &[u8]) -> (r: Option<Vec<u8>>)
    requires
        sealed@.len() <= SEAL_MAX + 16,
        aad@.len() <= AAD_MAX,
    ensures
        match r {
            Some(m) => gcm_opened(key@, nonce@, aad@, sealed@) == Some(m@) && m@.len() + 16
                == sealed@.len(),
            None => gcm_opened(key@, nonce@, aad@, sealed@) is None,
        },
{
    Aes256Gcm::new(key.into()).decrypt(nonce.into(), Payload { msg: sealed, aad }).ok()
}

/// `x25519_dalek::PublicKey::from(&StaticSecret)`, named by
/// [`x25519_public_of`].
#[verifier::external_body]
pub(crate) fn x25519_public(secret: &[u8; 32]) -> (r: [u8; 32])
    ensures
        r@ == x25519_public_of(secret@)@,
{
    PublicKey::from(&StaticSecret::from(*secret)).to_bytes()
}

/// `x25519_dalek::StaticSecret::diffie_hellman`, named by
/// [`x25519_shared_of`]. Whoever holds the secret of `their_public` computes
/// the same value from this side's public key.
#[verifier::external_body]
pub(crate) fn x25519_shared(secret: &[u8; 32], their_public: &[u8; 32]) -> (r: [u8; 32])
    ensures
        r@ == x25519_shared_of(secret@, their_public@)@,
        forall|theirs: Seq<u8>| #[trigger]
            x25519_public_of(theirs)@ == their_public@ && theirs.len() == 32 ==> x25519_shared_of(
                theirs,
                x25519_public_of(secret@)@,
            )@ == r@,
{
    StaticSecret::from(*secret).diffie_hellman(&PublicKey::from(*their_public)).to_bytes()
}

/// `x25519_dalek::StaticSecret::random_from_rng` over the operating system's
/// generator: 32 unpredictable bytes.
#[verifier::external_body]
pub(crate) fn x25519_fresh_secret() -> (r: [u8; 32]) {
    StaticSecret::random_from_rng(OsRng).to_bytes()
}

/// `rand::rng().fill_bytes`: `n` unpredictable bytes.
#[verifier::external_body]
pub(crate) fn random_bytes(n: usize) -> (r: Vec<u8>)
    ensures
        r@.len() == n,
{
    let mut out = vec![0u8; n];
    rand::rng().fill_bytes(&mut out);
    out
}

/// `zeroize::Zeroize::zeroize` on a key: every byte becomes zero.
#[verifier::external_body]
fn wipe_key(key: &mut [u8; 32])
    ensures
        final(key)@ == bytes::zeros(32),
    opens_invariants none
    no_unwind
{
    key.zeroize();
}

/// `zeroize::Zeroize::zeroize` on a byte vector: it ends up empty.
#[verifier::external_body]
fn wipe_vec(v: &mut Vec<u8>)
    ensures
        final(v)@ == Seq::<u8>::empty(),
    opens_invariants none
    no_unwind
{
    v.zeroize();
}

// ---------------------------------------------------------------------
// Fixed-size arrays
// ---------------------------------------------------------------------

/// The 12 bytes of `s` as an array.
pub fn array12(s: &[u8]) -> (r: [u8; 12])
    requires
        s@.len() == 12,
    ensures
        r@ == s@,
{
    let mut out = [0u8; 12];
    let mut i: usize = 0;
    while i < 12
        invariant
            i <= 12,
            s@.len() == 12,
            forall|j: int| 0 <= j < i ==> out@[j] == s@[j],
        decreases 12 - i,
    {
        out[i] = s[i];
        i = i + 1;
    }
    assert(out@ =~= s@);
    out
}

/// The 16 bytes of `s` as an array.
pub fn array16(s: &[u8]) -> (r: [u8; 16])
    requires
        s@.len() == 16,
    ensures
        r@ == s@,
{
    let mut out = [0u8; 16];
    let mut i: usize = 0;
    while i < 16
        invariant
            i <= 16,
            s@.len() == 16,
            forall|j: int| 0 <= j < i ==> out@[j] == s@[j],
        decreases 16 - i,
    {
        out[i] = s[i];
        i = i + 1;
    }
    assert(out@ =~= s@);
    out
}

/// The 32 bytes of `s` as an array.
pub fn array32(s: &[u8]) -> (r: [u8; 32])
    requires
        s@.len() == 32,
    ensures
        r@ == s@,
{
    let mut out = [0u8; 32];
    let mut i: usize = 0;
    while i < 32
        invariant
            i <= 32,
            s@.len() == 32,
            forall|j: int| 0 <= j < i ==> out@[j] == s@[j],
        decreases 32 - i,
    {
        out[i] = s[i];
        i = i + 1;
    }
    assert(out@ =~= s@);
    out
}

/// The 64 bytes of `s` as an array.
pub fn array64(s: &[u8]) -> (r: [u8; 64])
    requires
        s@.len() == 64,
    ensures
        r@ == s@,
{
    let mut out = [0u8; 64];
    let mut i: usize = 0;
    while i < 64
        invariant
            i <= 64,
            s@.len() == 64,
            forall|j: int| 0 <= j < i ==> out@[j] == s@[j],
        decreases 64 - i,
    {
        out[i] = s[i];
        i = i + 1;
    }
    assert(out@ =~= s@);
    out
}

/// The 92 bytes of `s` as an array.
pub fn array92(s: &[u8]) -> (r: [u8; 92])
    requires
        s@.len() == 92,
    ensures
        r@ == s@,
{
    let mut out = [0u8; 92];
    let mut i: usize = 0;
    while i < 92
        invariant
            i <= 92,
            s@.len() == 92,
            forall|j: int| 0 <= j < i ==> out@[j] == s@[j],
        decreases 92 - i,
    {
        out[i] = s[i];
        i = i + 1;
    }
    assert(out@ =~= s@);
    out
}

// ---------------------------------------------------------------------
// Hashing
// ---------------------------------------------------------------------

/// The parts one after another.
pub open spec fn joined(parts: Seq<&[u8]>) -> Seq<u8>
    decreases parts.len(),
{
    if parts.len() == 0 {
        Seq::empty()
    } else {
        joined(parts.drop_last()) + parts.last()@
    }
}

/// SHA-256 over the parts one after another.
pub fn sha256_concat(parts: &[&[u8]]) -> (r: [u8; 32])
    ensures
        r@ == sha256_of(joined(parts@))@,
{
    let mut all: Vec<u8> = Vec::new();
    let mut i: usize = 0;
    while i < parts.len()
        invariant
            i <= parts@.len(),
            all@ == joined(parts@.take(i as int)),
        decreases parts@.len() - i,
    {
        assert(parts@.take(i + 1).drop_last() =~= parts@.take(i as int));
        bytes::append(&mut all, parts[i]);
        i = i + 1;
    }
    assert(parts@.take(i as int) =~= parts@);
    sha256(&all)
}

// ---------------------------------------------------------------------
// Keys
// ---------------------------------------------------------------------

/// Argon2id cost parameters, stored in the header so that a vault still opens
/// after the defaults have changed.
#[derive(Debug, Clone, Copy, PartialEq, Eq, Structural)]
pub struct Argon2Params {
    pub m_cost_kib: u32,
    pub t_cost: u32,
    pub p_cost: u32,
}

impl Default for Argon2Params {
    /// About 19 MiB, two passes, a single lane.
    fn default() -> (r: Self)
        ensures
            r == (Argon2Params { m_cost_kib: 19456, t_cost: 2, p_cost: 1 }),
    {
        Argon2Params { m_cost_kib: 19456, t_cost: 2, p_cost: 1 }
    }
}

/// A 256-bit symmetric key. It is wiped when it is dropped, so that it does not
/// linger in memory.
pub struct MasterKey(pub [u8; 32]);

impl Drop for MasterKey {
    /// Overwrites the key with zero bytes.
    fn drop(&mut self)
        opens_invariants none
        no_unwind
    {
        wipe_key(&mut self.0);
    }
}

impl View for MasterKey {
    type V = Seq<u8>;

    open spec fn view(&self) -> Seq<u8> {
        self.0@
    }
}

/// The key that a password gives.
pub open spec fn derived_key(
    password: Seq<u8>,
    salt: Seq<u8>,
    params: Argon2Params,
) -> core::result::Result<Seq<u8>, Fault> {
    if password.len() <= PASSWORD_MAX && argon2_costs_ok(
        params.m_cost_kib,
        params.t_cost,
        params.p_cost,
    ) {
        Ok(argon2id_of(password, salt, params.m_cost_kib, params.t_cost, params.p_cost)@)
    } else {
        Err(Fault::CryptoFailure)
    }
}

/// The nonce under which a file's block is sealed.
pub open spec fn block_nonce_of(file_id: u128, block_index: u64) -> Seq<u8> {
    sha256_of(
        bytes::text(BLOCK_NONCE_TAG@) + bytes::le(file_id as nat, 16) + bytes::le(
            block_index as nat,
            8,
        ),
    )@.subrange(0, 12)
}

/// A sealed block.
pub open spec fn sealed_block(
    key: Seq<u8>,
    file_id: u128,
    block_index: u64,
    plaintext: Seq<u8>,
) -> Seq<u8> {
    gcm_sealed(key, block_nonce_of(file_id, block_index), Seq::empty(), plaintext)
}

/// What opening a sealed block gives.
pub open spec fn opened_block(
    key: Seq<u8>,
    file_id: u128,
    block_index: u64,
    ciphertext: Seq<u8>,
) -> core::result::Result<Seq<u8>, Fault> {
    if ciphertext.len() > SEAL_MAX + 16 {
        Err(Fault::CorruptContainer("block failed authentication (tampered or wrong key)"))
    } else {
        match gcm_opened(key, block_nonce_of(file_id, block_index), Seq::empty(), ciphertext) {
            Some(m) => Ok(m),
            None => Err(
                Fault::CorruptContainer("block failed authentication (tampered or wrong key)"),
            ),
        }
    }
}

/// What opening a blob that starts with its own nonce gives.
pub open spec fn opened_blob(key: Seq<u8>, blob: Seq<u8>, aad: Seq<u8>) -> core::result::Result<
    Seq<u8>,
    Fault,
> {
    if blob.len() < 28 {
        Err(Fault::CorruptContainer("ciphertext blob too short"))
    } else if blob.len() - 12 > SEAL_MAX + 16 || aad.len() > AAD_MAX {
        Err(Fault::IncorrectPassword)
    } else {
        match gcm_opened(key, blob.subrange(0, 12), aad, blob.subrange(12, blob.len() as int)) {
            Some(m) => Ok(m),
            None => Err(Fault::IncorrectPassword),
        }
    }
}

impl MasterKey {
    /// Derives the key-encryption key of a password.
    pub fn derive(password: &[u8], salt: &[u8; 16], params: Argon2Params) -> (r: Result<Self>)
        ensures
            error::outcome(r) == derived_key(password@, salt@, params),
    {
        if password.len() as u64 > PASSWORD_MAX || params.p_cost > 0xFF_FFFF {
            return Err(VaultError::CryptoFailure);
        }
        match argon2id(password, salt, params.m_cost_kib, params.t_cost, params.p_cost) {
            Some(key) => Ok(MasterKey(key)),
            None => Err(VaultError::CryptoFailure),
        }
    }

    /// Takes over an existing key.
    pub fn from_bytes(key: [u8; 32]) -> (r: Self)
        ensures
            r@ == key@,
    {
        MasterKey(key)
    }

    /// The raw key, for wrapping it for a peer.
    pub fn expose_bytes(&self) -> (r: &[u8; 32])
        ensures
            r@ == self@,
    {
        &self.0
    }

    /// Overwrites the key with zero bytes.
    pub fn wipe(&mut self)
        ensures
            final(self)@ == bytes::zeros(32),
    {
        wipe_key(&mut self.0);
    }

    /// Seals `plaintext` under a random nonce: the nonce, then the ciphertext.
    pub fn encrypt_random_nonce(&self, plaintext: &[u8], aad: &[u8]) -> (r: Result<Vec<u8>>)
        ensures
            r is Ok <==> plaintext@.len() <= SEAL_MAX && aad@.len() <= AAD_MAX,
            r matches Ok(blob) ==> {
                &&& blob@.len() == plaintext@.len() + 28
                &&& blob@ == blob@.subrange(0, 12) + gcm_sealed(
                    self@,
                    blob@.subrange(0, 12),
                    aad@,
                    plaintext@,
                )
                &&& opened_blob(self@, blob@, aad@) == Ok::<Seq<u8>, Fault>(plaintext@)
                &&& readings::drawn(blob@.subrange(0, 12))
            },
            r matches Err(e) ==> e@ == Fault::CryptoFailure,
    {
        let nonce = readings::random(NONCE_LEN);
        self.encrypt_with_nonce(&array12(&nonce), plaintext, aad)
    }

    /// Seals `plaintext` under the given nonce: the nonce, then the ciphertext.
    pub fn encrypt_with_nonce(&self, nonce: &[u8; 12], plaintext: &[u8], aad: &[u8]) -> (r: Result<
        Vec<u8>,
    >)
        ensures
            error::outcome(r) == (if plaintext@.len() <= SEAL_MAX && aad@.len() <= AAD_MAX {
                Ok(nonce@ + gcm_sealed(self@, nonce@, aad@, plaintext@))
            } else {
                Err(Fault::CryptoFailure)
            }),
            r matches Ok(blob) ==> {
                &&& blob@.len() == plaintext@.len() + 28
                &&& blob@.subrange(0, 12) == nonce@
                &&& opened_blob(self@, blob@, aad@) == Ok::<Seq<u8>, Fault>(plaintext@)
            },
    {
        if plaintext.len() as u64 > SEAL_MAX || aad.len() as u64 > AAD_MAX {
            return Err(VaultError::CryptoFailure);
        }
        match gcm_seal(&self.0, nonce, aad, plaintext) {
            Some(ciphertext) => {
                let mut out = bytes::to_vec(nonce);
                bytes::append(&mut out, &ciphertext);
                assert(out@.subrange(0, 12) =~= nonce@);
                assert(out@.subrange(12, out@.len() as int) =~= ciphertext@);
                Ok(out)
            },
            None => Err(VaultError::CryptoFailure),
        }
    }

    /// Opens what [`MasterKey::encrypt_random_nonce`] sealed.
    pub fn decrypt_random_nonce(&self, blob: &[u8], aad: &[u8]) -> (r: Result<Vec<u8>>)
        ensures
            error::outcome(r) == opened_blob(self@, blob@, aad@),
            r matches Ok(m) ==> m@.len() + 28 == blob@.len(),
    {
        if blob.len() < NONCE_LEN + TAG_LEN {
            return Err(VaultError::CorruptContainer("ciphertext blob too short"));
        }
        if (blob.len() - NONCE_LEN) as u64 > SEAL_MAX + 16 || aad.len() as u64 > AAD_MAX {
            return Err(VaultError::IncorrectPassword);
        }
        let (nonce, ciphertext) = blob.split_at(NONCE_LEN);
        match gcm_open(&self.0, &array12(nonce), aad, ciphertext) {
            Some(m) => Ok(m),
            None => Err(VaultError::IncorrectPassword),
        }
    }

    /// Seals one block. The nonce is fixed by the file's identifier and the block
    /// index. The pair is used once for the lifetime of a key: every file, and
    /// every new content of a file, gets an identifier of its own.
    pub fn encrypt_block(&self, file_id: u128, block_index: u64, plaintext: &[u8]) -> (r: Result<
        Vec<u8>,
    >)
        ensures
            error::outcome(r) == (if plaintext@.len() <= SEAL_MAX {
                Ok(sealed_block(self@, file_id, block_index, plaintext@))
            } else {
                Err(Fault::CryptoFailure)
            }),
            r matches Ok(ct) ==> {
                &&& ct@.len() == plaintext@.len() + 16
                &&& opened_block(self@, file_id, block_index, ct@) == Ok::<Seq<u8>, Fault>(
                    plaintext@,
                )
            },
    {
        if plaintext.len() as u64 > SEAL_MAX {
            return Err(VaultError::CryptoFailure);
        }
        let nonce = Self::block_nonce(file_id, block_index);
        let none: [u8; 0] = [];
        assert(none@ =~= Seq::<u8>::empty());
        match gcm_seal(&self.0, &nonce, &none, plaintext) {
            Some(ct) => Ok(ct),
            None => Err(VaultError::CryptoFailure),
        }
    }

    /// Opens what [`MasterKey::encrypt_block`] sealed.
    pub fn decrypt_block(&self, file_id: u128, block_index: u64, ciphertext: &[u8]) -> (r: Result<
        Vec<u8>,
    >)
        ensures
            error::outcome(r) == opened_block(self@, file_id, block_index, ciphertext@),
            r matches Ok(m) ==> m@.len() + 16 == ciphertext@.len(),
    {
        if ciphertext.len() as u64 > SEAL_MAX + 16 {
            return Err(
                VaultError::CorruptContainer("block failed authentication (tampered or wrong key)"),
            );
        }
        let nonce = Self::block_nonce(file_id, block_index);
        let none: [u8; 0] = [];
        assert(none@ =~= Seq::<u8>::empty());
        match gcm_open(&self.0, &nonce, &none, ciphertext) {
            Some(m) => Ok(m),
            None => Err(
                VaultError::CorruptContainer("block failed authentication (tampered or wrong key)"),
            ),
        }
    }

    fn block_nonce(file_id: u128, block_index: u64) -> (r: [u8; 12])
        ensures
            r@ == block_nonce_of(file_id, block_index),
    {
        let mut all = bytes::to_vec(BLOCK_NONCE_TAG.as_bytes());
        bytes::push_le(&mut all, file_id, 16);
        bytes::push_le(&mut all, block_index as u128, 8);
        let digest = sha256(&all);
        let (head, _) = digest.as_slice().split_at(NONCE_LEN);
        array12(head)
    }
}

// ---------------------------------------------------------------------
// Wrapping the content key for a peer
// ---------------------------------------------------------------------

/// The symmetric wrapping key of a shared secret.
pub open spec fn wrap_key_of(shared: Seq<u8>) -> Seq<u8> {
    sha256_of(shared + bytes::text(WRAP_TAG@))@
}

/// What unwrapping gives the holder of `secret`.
pub open spec fn unwrapped_dek(secret: Seq<u8>, wrapped: Seq<u8>) -> core::result::Result<
    Seq<u8>,
    Fault,
> {
    let key = wrap_key_of(x25519_shared_of(secret, wrapped.subrange(0, 32))@);
    match gcm_opened(key, wrapped.subrange(32, 44), Seq::empty(), wrapped.subrange(44, 92)) {
        Some(dek) => Ok(dek),
        None => Err(Fault::AccessNotGranted),
    }
}

/// The content key wrapped for a peer, for given ephemeral secret and nonce.
pub open spec fn wrapped_dek(
    ephemeral: Seq<u8>,
    nonce: Seq<u8>,
    recipient_public: Seq<u8>,
    dek: Seq<u8>,
) -> Seq<u8> {
    x25519_public_of(ephemeral)@ + nonce + gcm_sealed(
        wrap_key_of(x25519_shared_of(ephemeral, recipient_public)@),
        nonce,
        Seq::empty(),
        dek,
    )
}

/// `wrapped` gives `dek` to every holder of the secret of `recipient_public`.
pub open spec fn unwraps_for(wrapped: Seq<u8>, recipient_public: Seq<u8>, dek: Seq<u8>) -> bool {
    forall|secret: Seq<u8>| #[trigger]
        x25519_public_of(secret)@ == recipient_public && secret.len() == 32 ==> unwrapped_dek(
            secret,
            wrapped,
        ) == Ok::<Seq<u8>, Fault>(dek)
}

/// `wrapped` was made with an ephemeral secret and a nonce that were drawn for it.
pub open spec fn freshly_wrapped(
    wrapped: Seq<u8>,
    recipient_public: Seq<u8>,
    dek: Seq<u8>,
) -> bool {
    exists|ephemeral: Seq<u8>, nonce: Seq<u8>|
        readings::drawn(ephemeral) && readings::drawn(nonce) && wrapped == #[trigger] wrapped_dek(
            ephemeral,
            nonce,
            recipient_public,
            dek,
        )
}

fn derive_wrap_key(shared_secret: &[u8; 32]) -> (r: [u8; 32])
    ensures
        r@ == wrap_key_of(shared_secret@),
{
    let mut all = bytes::to_vec(shared_secret);
    bytes::append(&mut all, WRAP_TAG.as_bytes());
    sha256(&all)
}

/// Wraps a vault's content key for a peer's X25519 public key, under a fresh
/// ephemeral key pair. Only the peer's secret recovers it.
pub fn wrap_dek_for_recipient(recipient_encryption_pub: &[u8; 32], dek: &[u8; 32]) -> (r: Result<
    [u8; 92],
>)
    ensures
        r is Ok,
        unwraps_for(r->Ok_0@, recipient_encryption_pub@, dek@),
        freshly_wrapped(r->Ok_0@, recipient_encryption_pub@, dek@),
{
    let ephemeral = readings::secret();
    let nonce = readings::random(NONCE_LEN);
    wrap_dek_with(&ephemeral, &array12(&nonce), recipient_encryption_pub, dek)
}

/// Wraps a vault's content key for a peer's X25519 public key, under the
/// given ephemeral secret and nonce.
pub fn wrap_dek_with(
    ephemeral: &[u8; 32],
    nonce: &[u8; 12],
    recipient_encryption_pub: &[u8; 32],
    dek: &[u8; 32],
) -> (r: Result<[u8; 92]>)
    ensures
        r is Ok,
        r->Ok_0@ == wrapped_dek(ephemeral@, nonce@, recipient_encryption_pub@, dek@),
        unwraps_for(r->Ok_0@, recipient_encryption_pub@, dek@),
{
    let ephemeral_public = x25519_public(ephemeral);
    let shared = x25519_shared(ephemeral, recipient_encryption_pub);
    let wrap_key = derive_wrap_key(&shared);
    let none: [u8; 0] = [];
    assert(none@ =~= Seq::<u8>::empty());
    match gcm_seal(&wrap_key, nonce, &none, dek) {
        Some(ciphertext) => {
            let mut out = bytes::to_vec(&ephemeral_public);
            bytes::append(&mut out, nonce);
            bytes::append(&mut out, &ciphertext);
            assert(out@.subrange(0, 32) =~= ephemeral_public@);
            assert(out@.subrange(32, 44) =~= nonce@);
            assert(out@.subrange(44, 92) =~= ciphertext@);
            Ok(array92(&out))
        },
        None => Err(VaultError::CryptoFailure),
    }
}

/// Recovers a content key that was wrapped for the public key of
/// `recipient_secret`.
pub fn unwrap_dek_for_recipient(recipient_secret: &[u8; 32], wrapped: &[u8; 92]) -> (r: Result<
    [u8; 32],
>)
    ensures
        error::outcome(r) == unwrapped_dek(recipient_secret@, wrapped@),
{
    let (ephemeral_public, rest) = wrapped.as_slice().split_at(32);
    let (nonce, ciphertext) = rest.split_at(NONCE_LEN);
    proof {
        assert(nonce@ =~= wrapped@.subrange(32, 44));
        assert(ciphertext@ =~= wrapped@.subrange(44, 92));
    }
    let shared = x25519_shared(recipient_secret, &array32(ephemeral_public));
    let wrap_key = derive_wrap_key(&shared);
    let none: [u8; 0] = [];
    assert(none@ =~= Seq::<u8>::empty());
    match gcm_open(&wrap_key, &array12(nonce), &none, ciphertext) {
        Some(plaintext) => {
            if plaintext.len() != KEY_LEN {
                return Err(VaultError::CorruptContainer("unwrapped DEK has the wrong length"));
            }
            Ok(array32(&plaintext))
        },
        None => Err(VaultError::AccessNotGranted),
    }
}

/// A random salt.
pub fn random_salt() -> (r: [u8; 16])
    ensures
        readings::drawn(r@),
{
    let salt = readings::random(SALT_LEN);
    array16(&salt)
}

/// A random 256-bit key.
pub fn random_key() -> (r: [u8; 32])
    ensures
        readings::drawn(r@),
{
    let key = readings::random(KEY_LEN);
    array32(&key)
}

/// A random nonce.
pub fn random_nonce() -> (r: [u8; 12])
    ensures
        readings::drawn(r@),
{
    let nonce = readings::random(NONCE_LEN);
    array12(&nonce)
}

/// A secret byte buffer, such as a copy of a password. It is wiped when it is
/// dropped.
pub struct SecretBytes(pub Vec<u8>);

impl Drop for SecretBytes {
    /// Overwrites the bytes.
    fn drop(&mut self)
        opens_invariants none
        no_unwind
    {
        wipe_vec(&mut self.0);
    }
}

impl vstd::std_specs::convert::FromSpecImpl<&str> for SecretBytes {
    open spec fn obeys_from_spec() -> bool {
        false
    }

    open spec fn from_spec(s: &str) -> Self {
        arbitrary()
    }
}

impl From<&str> for SecretBytes {
    /// The UTF-8 bytes of `s`.
    fn from(s: &str) -> (r: Self)
        ensures
            r.0@ == bytes::text(s@),
    {
        SecretBytes(bytes::to_vec(s.as_bytes()))
    }
}

impl SecretBytes {
    /// Overwrites the bytes and drops them.
    pub fn wipe(&mut self)
        ensures
            final(self).0@ == Seq::<u8>::empty(),
    {
        wipe_vec(&mut self.0);
    }
}

} // verus!
