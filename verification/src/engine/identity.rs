//! Participant identities.
//!
//! An [`Identity`] is created once per device and kept outside any vault. It
//! holds two key pairs: an Ed25519 pair that proves authorship, and an X25519
//! pair for which a vault's content key can be wrapped. A [`PeerId`] is the
//! shareable half.

use ed25519_dalek::{Signature, Signer, SigningKey, Verifier, VerifyingKey};
use rand_core::OsRng;
use vstd::prelude::*;

use super::bytes;
use super::crypto;
use super::error::{self, Fault, Result, VaultError};
use super::readings;
use super::text;

verus! {

pub const SIGNING_PUBLIC_LEN: usize = 32;

pub const ENCRYPTION_PUBLIC_LEN: usize = 32;

pub const SIGNATURE_LEN: usize = 64;

/// The Ed25519 public key of `seed`.
pub uninterp spec fn ed25519_public_of(seed: Seq<u8>) -> [u8; 32];

/// The Ed25519 signature of `message` under `seed`.
pub uninterp spec fn ed25519_signature_of(seed: Seq<u8>, message: Seq<u8>) -> [u8; 64];

/// Whether a signature is accepted; `None` if `public` is no key at all.
pub uninterp spec fn ed25519_verdict(
    public: Seq<u8>,
    message: Seq<u8>,
    signature: Seq<u8>,
) -> Option<bool>;

/// `ed25519_dalek::SigningKey::generate` over the operating system's
/// generator: the unpredictable 32-byte seed of a new key.
#[verifier::external_body]
pub(crate) fn ed25519_fresh_seed() -> (r: [u8; 32]) {
    SigningKey::generate(&mut OsRng).to_bytes()
}

/// `ed25519_dalek::SigningKey::verifying_key`, named by
/// [`ed25519_public_of`].
#[verifier::external_body]
fn ed25519_public(seed: &[u8; 32]) -> (r: [u8; 32])
    ensures
        r@ == ed25519_public_of(seed@)@,
{
    SigningKey::from_bytes(seed).verifying_key().to_bytes()
}

/// `ed25519_dalek::SigningKey::sign`, named by [`ed25519_signature_of`]. The
/// signature is accepted under the public key of the same seed.
#[verifier::external_body]
fn ed25519_sign(seed: &[u8; 32], message: &[u8]) -> (r: [u8; 64])
    ensures
        r@ == ed25519_signature_of(seed@, message@)@,
        ed25519_verdict(ed25519_public_of(seed@)@, message@, r@) == Some(true),
{
    SigningKey::from_bytes(seed).sign(message).to_bytes()
}

/// `ed25519_dalek::VerifyingKey::from_bytes`, then `verify`; named by
/// [`ed25519_verdict`].
#[verifier::external_body]
fn ed25519_verify(public: &[u8; 32], message: &[u8], signature: &[u8; 64]) -> (r: Option<bool>)
    ensures
        r == ed25519_verdict(public@, message@, signature@),
{
    match VerifyingKey::from_bytes(public) {
        Ok(key) => Some(key.verify(message, &Signature::from_bytes(signature)).is_ok()),
        Err(_) => None,
    }
}

/// A shareable, non-secret identifier for a participant.
#[derive(Debug, Clone, Copy, PartialEq, Eq)]
pub struct PeerId {
    pub signing_public: [u8; 32],
    pub encryption_public: [u8; 32],
}

impl View for PeerId {
    type V = Seq<u8>;

    /// Both public keys, the signing key first.
    open spec fn view(&self) -> Seq<u8> {
        self.signing_public@ + self.encryption_public@
    }
}

/// The short form of an identity that two people can compare aloud: the first
/// eight bytes of its SHA-256 digest, in hexadecimal.
pub open spec fn fingerprint_of(peer: Seq<u8>) -> Seq<char> {
    text::hex_of(crypto::sha256_of(peer)@.subrange(0, 8))
}

/// The identifier that 64 bytes spell.
pub open spec fn peer_of_bytes(data: Seq<u8>) -> core::result::Result<Seq<u8>, Fault> {
    if data.len() == 64 {
        Ok(data)
    } else {
        Err(Fault::CorruptContainer("malformed PeerId bytes"))
    }
}

impl PeerId {
    /// The short form of this identity.
    pub fn fingerprint(&self) -> (r: String)
        ensures
            r@ == fingerprint_of(self@),
    {
        let all = self.to_bytes();
        let digest = crypto::sha256(&all);
        let (head, _) = digest.as_slice().split_at(8);
        text::hex_encode(head)
    }

    /// The signing key, then the encryption key.
    pub fn to_bytes(self) -> (r: [u8; 64])
        ensures
            r@ == self@,
    {
        let mut all = bytes::to_vec(&self.signing_public);
        bytes::append(&mut all, &self.encryption_public);
        crypto::array64(&all)
    }

    /// Reads what [`PeerId::to_bytes`] gives.
    pub fn from_bytes(data: &[u8]) -> (r: Result<Self>)
        ensures
            error::outcome(r) == peer_of_bytes(data@),
            r matches Ok(p) ==> p.signing_public@ == data@.subrange(0, 32) && p.encryption_public@
                == data@.subrange(32, 64),
    {
        if data.len() != 64 {
            return Err(VaultError::CorruptContainer("malformed PeerId bytes"));
        }
        let (signing, encryption) = data.split_at(32);
        let peer = PeerId {
            signing_public: crypto::array32(signing),
            encryption_public: crypto::array32(encryption),
        };
        assert(peer@ =~= data@);
        Ok(peer)
    }

    /// Whether both are the same participant.
    pub fn same(&self, other: &PeerId) -> (r: bool)
        ensures
            r == (self@ == other@),
    {
        let a = bytes::same_bytes(&self.signing_public, &other.signing_public);
        let b = bytes::same_bytes(&self.encryption_public, &other.encryption_public);
        proof {
            if self@ == other@ {
                assert(self@.subrange(0, 32) =~= self.signing_public@);
                assert(other@.subrange(0, 32) =~= other.signing_public@);
                assert(self@.subrange(32, 64) =~= self.encryption_public@);
                assert(other@.subrange(32, 64) =~= other.encryption_public@);
            }
        }
        a && b
    }
}

/// The secret keys of an identity.
pub struct Keys {
    pub signing: Seq<u8>,
    pub encryption: Seq<u8>,
}

impl Keys {
    /// The public signing key.
    pub open spec fn signing_public(self) -> Seq<u8> {
        ed25519_public_of(self.signing)@
    }

    /// The public encryption key.
    pub open spec fn encryption_public(self) -> Seq<u8> {
        crypto::x25519_public_of(self.encryption)@
    }

    /// The shareable half.
    pub open spec fn peer(self) -> Seq<u8> {
        self.signing_public() + self.encryption_public()
    }

    /// Both keys have 32 bytes.
    pub open spec fn wf(self) -> bool {
        self.signing.len() == 32 && self.encryption.len() == 32
    }
}

/// A participant's full identity, secret keys included.
pub struct Identity {
    signing: [u8; 32],
    encryption: [u8; 32],
}

impl View for Identity {
    type V = Keys;

    closed spec fn view(&self) -> Keys {
        Keys { signing: self.signing@, encryption: self.encryption@ }
    }
}

impl Identity {
    /// A new identity with unpredictable keys.
    pub fn generate() -> (r: Self)
        ensures
            r@.wf(),
            readings::drawn(r@.signing),
            readings::drawn(r@.encryption),
    {
        Identity { signing: readings::seed(), encryption: readings::secret() }
    }

    /// The shareable half.
    pub fn peer_id(&self) -> (r: PeerId)
        ensures
            r@ == self@.peer(),
            r.signing_public@ == self@.signing_public(),
            r.encryption_public@ == self@.encryption_public(),
    {
        PeerId {
            signing_public: ed25519_public(&self.signing),
            encryption_public: crypto::x25519_public(&self.encryption),
        }
    }

    /// Signs `message`. The signature verifies under this identity's public
    /// signing key.
    pub fn sign(&self, message: &[u8]) -> (r: [u8; 64])
        ensures
            r@ == ed25519_signature_of(self@.signing, message@)@,
            signature_check(self@.signing_public(), message@, r@) is Ok,
    {
        ed25519_sign(&self.signing, message)
    }

    /// The secret encryption key.
    pub fn encryption_secret(&self) -> (r: &[u8; 32])
        ensures
            r@ == self@.encryption,
    {
        &self.encryption
    }

    /// The signing seed, then the encryption secret.
    pub fn to_bytes(&self) -> (r: [u8; 64])
        ensures
            r@ == self@.signing + self@.encryption,
    {
        let mut all = bytes::to_vec(&self.signing);
        bytes::append(&mut all, &self.encryption);
        crypto::array64(&all)
    }

    /// Reads what [`Identity::to_bytes`] gives.
    pub fn from_bytes(data: &[u8; 64]) -> (r: Self)
        ensures
            r@ == (Keys {
                signing: data@.subrange(0, 32),
                encryption: data@.subrange(32, 64),
            }),
            r@.wf(),
    {
        let (signing, encryption) = data.as_slice().split_at(32);
        Identity { signing: crypto::array32(signing), encryption: crypto::array32(encryption) }
    }

    /// The identity that a stored identity file holds: exactly 64 bytes.
    pub fn from_stored(data: &[u8]) -> (r: Option<Self>)
        ensures
            r is Some <==> data@.len() == 64,
            r matches Some(id) ==> id@ == (Keys {
                signing: data@.subrange(0, 32),
                encryption: data@.subrange(32, 64),
            }) && id@.wf(),
    {
        if data.len() == 64 {
            Some(Identity::from_bytes(&crypto::array64(data)))
        } else {
            None
        }
    }

    /// A copy of this identity.
    pub fn duplicate(&self) -> (r: Self)
        ensures
            r@ == self@,
    {
        Identity { signing: self.signing, encryption: self.encryption }
    }

    /// Every identity's keys have 32 bytes.
    pub proof fn lemma_wf(&self)
        ensures
            self@.wf(),
    {
    }
}

/// What checking a signature gives.
pub open spec fn signature_check(
    public: Seq<u8>,
    message: Seq<u8>,
    signature: Seq<u8>,
) -> core::result::Result<(), Fault> {
    match ed25519_verdict(public, message, signature) {
        None => Err(Fault::CryptoFailure),
        Some(true) => Ok(()),
        Some(false) => Err(
            Fault::IntegrityViolation("signature does not match the claimed identity"),
        ),
    }
}

/// Checks a signature made by [`Identity::sign`] against a peer's public
/// signing key.
pub fn verify_signature(
    signing_public: &[u8; 32],
    message: &[u8],
    signature: &[u8; 64],
) -> (r: Result<()>)
    ensures
        error::outcome(r) == signature_check(signing_public@, message@, signature@),
{
    match ed25519_verify(signing_public, message, signature) {
        None => Err(VaultError::CryptoFailure),
        Some(true) => Ok(()),
        Some(false) => Err(
            VaultError::IntegrityViolation("signature does not match the claimed identity"),
        ),
    }
}

/// Storing an identity and reading it back keeps both keys, and so the
/// shareable half.
pub proof fn law_identity_round_trip(keys: Keys)
    requires
        keys.wf(),
    ensures
        ({
            let stored = keys.signing + keys.encryption;
            (Keys { signing: stored.subrange(0, 32), encryption: stored.subrange(32, 64) })
        }) == keys,
{
    assert((keys.signing + keys.encryption).subrange(0, 32) =~= keys.signing);
    assert((keys.signing + keys.encryption).subrange(32, 64) =~= keys.encryption);
}

/// A shareable identity survives the trip through its bytes.
pub proof fn law_peer_round_trip(peer: PeerId)
    ensures
        peer_of_bytes(peer@) == Ok::<Seq<u8>, Fault>(peer@),
{
}

/// A fingerprint has sixteen hexadecimal digits, and tells two peers apart exactly if
/// the first eight bytes of the digests of their keys do.
pub proof fn law_fingerprint_tells_apart(a: Seq<u8>, b: Seq<u8>)
    ensures
        fingerprint_of(a).len() == 16,
        fingerprint_of(a) == fingerprint_of(b) <==> crypto::sha256_of(a)@.subrange(0, 8)
            == crypto::sha256_of(b)@.subrange(0, 8),
{
    text::law_hex_round_trip(crypto::sha256_of(a)@.subrange(0, 8));
    text::law_hex_round_trip(crypto::sha256_of(b)@.subrange(0, 8));
}

} // verus!
