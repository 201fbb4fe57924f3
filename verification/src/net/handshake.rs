//! The authenticated key exchange and the encrypted frames behind it.
//!
//! Each side sends a hello: its public keys, an ephemeral X25519 key, and a
//! signature over the ephemeral key. The hello proves possession of the signing
//! key; that it is the right peer's, the initiator checks against the invite
//! code. Both sides then derive the same session key.

use vstd::prelude::*;

use crate::engine::bytes;
use crate::engine::crypto;
use crate::engine::error::{self, Fault, Result, VaultError};
use crate::engine::identity::{self, Identity, Keys, PeerId};
use crate::engine::readings;

verus! {

/// The length of a hello: public keys, ephemeral key, signature.
pub const HELLO_LEN: usize = 160;

pub const SESSION_LABEL: &'static str = "revault-session-v1";

/// What a side says of itself when the connection is made.
#[derive(Debug, Clone, Copy)]
pub struct Hello {
    pub peer_id: PeerId,
    pub ephemeral_pub: [u8; 32],
    pub signature: [u8; 64],
}

/// A hello as a mathematical value.
#[verifier::ext_equal]
pub struct HelloModel {
    pub signing: Seq<u8>,
    pub encryption: Seq<u8>,
    pub ephemeral: Seq<u8>,
    pub signature: Seq<u8>,
}

impl View for Hello {
    type V = HelloModel;

    open spec fn view(&self) -> HelloModel {
        HelloModel {
            signing: self.peer_id.signing_public@,
            encryption: self.peer_id.encryption_public@,
            ephemeral: self.ephemeral_pub@,
            signature: self.signature@,
        }
    }
}

impl HelloModel {
    /// All parts have their lengths.
    pub open spec fn fits(self) -> bool {
        &&& self.signing.len() == 32
        &&& self.encryption.len() == 32
        &&& self.ephemeral.len() == 32
        &&& self.signature.len() == 64
    }

    /// The sender's public keys.
    pub open spec fn peer(self) -> Seq<u8> {
        self.signing + self.encryption
    }

    /// The hello on the wire.
    pub open spec fn encoded(self) -> Seq<u8> {
        self.signing + self.encryption + self.ephemeral + self.signature
    }

    /// What bytes from the wire say.
    pub open spec fn decoded(b: Seq<u8>) -> core::result::Result<HelloModel, Fault> {
        if b.len() != HELLO_LEN {
            Err(Fault::CorruptContainer("malformed handshake hello"))
        } else {
            Ok(
                HelloModel {
                    signing: b.subrange(0, 32),
                    encryption: b.subrange(32, 64),
                    ephemeral: b.subrange(64, 96),
                    signature: b.subrange(96, 160),
                },
            )
        }
    }

    /// What checking the signature gives.
    pub open spec fn check(self) -> core::result::Result<(), Fault> {
        identity::signature_check(self.signing, self.ephemeral, self.signature)
    }

    /// The hello that these bytes carry, if its signature is right.
    pub open spec fn received(b: Seq<u8>) -> core::result::Result<HelloModel, Fault> {
        match HelloModel::decoded(b) {
            Err(f) => Err(f),
            Ok(h) => match h.check() {
                Err(f) => Err(f),
                Ok(_) => Ok(h),
            },
        }
    }

    /// The hello of these keys with this ephemeral key.
    pub open spec fn of(keys: Keys, ephemeral: Seq<u8>) -> HelloModel {
        HelloModel {
            signing: keys.signing_public(),
            encryption: keys.encryption_public(),
            ephemeral,
            signature: identity::ed25519_signature_of(keys.signing, ephemeral)@,
        }
    }
}

impl Hello {
    /// The hello of this identity with this ephemeral key. Its signature
    /// verifies.
    pub fn build(local_identity: &Identity, ephemeral_pub: [u8; 32]) -> (r: Self)
        ensures
            r@ == HelloModel::of(local_identity@, ephemeral_pub@),
            r@.check() is Ok,
    {
        let signature = local_identity.sign(ephemeral_pub.as_slice());
        Hello { peer_id: local_identity.peer_id(), ephemeral_pub, signature }
    }

    /// The hello on the wire.
    pub fn encode(&self) -> (r: Vec<u8>)
        ensures
            r@ == self@.encoded(),
            r@.len() == HELLO_LEN,
    {
        let mut buf = bytes::to_vec(self.peer_id.to_bytes().as_slice());
        bytes::append(&mut buf, self.ephemeral_pub.as_slice());
        bytes::append(&mut buf, self.signature.as_slice());
        buf
    }

    /// What bytes from the wire say.
    pub fn decode(buf: &[u8]) -> (r: Result<Self>)
        ensures
            error::outcome(r) == HelloModel::decoded(buf@),
    {
        if buf.len() != HELLO_LEN {
            return Err(VaultError::CorruptContainer("malformed handshake hello"));
        }
        let signing_public = crypto::array32(vstd::slice::slice_subrange(buf, 0, 32));
        let encryption_public = crypto::array32(vstd::slice::slice_subrange(buf, 32, 64));
        let ephemeral_pub = crypto::array32(vstd::slice::slice_subrange(buf, 64, 96));
        let signature = crypto::array64(vstd::slice::slice_subrange(buf, 96, 160));
        Ok(
            Hello {
                peer_id: PeerId { signing_public, encryption_public },
                ephemeral_pub,
                signature,
            },
        )
    }

    /// Checks that the sender holds the signing key it claims.
    pub fn verify(&self) -> (r: Result<()>)
        ensures
            error::outcome(r) == self@.check(),
    {
        identity::verify_signature(
            &self.peer_id.signing_public,
            self.ephemeral_pub.as_slice(),
            &self.signature,
        )
    }

    /// Reads and checks the other side's hello.
    pub fn receive(buf: &[u8]) -> (r: Result<Self>)
        ensures
            error::outcome(r) == HelloModel::received(buf@),
    {
        match Hello::decode(buf) {
            Err(e) => Err(e),
            Ok(hello) => match hello.verify() {
                Err(e) => Err(e),
                Ok(()) => Ok(hello),
            },
        }
    }
}

/// A hello is read back as it was sent.
pub proof fn law_hello_round_trip(h: HelloModel)
    requires
        h.fits(),
    ensures
        HelloModel::decoded(h.encoded()) == Ok::<HelloModel, Fault>(h),
{
    let b = h.encoded();
    assert(b.subrange(0, 32) =~= h.signing);
    assert(b.subrange(32, 64) =~= h.encryption);
    assert(b.subrange(64, 96) =~= h.ephemeral);
    assert(b.subrange(96, 160) =~= h.signature);
}

// ---------------------------------------------------------------------
// The channel
// ---------------------------------------------------------------------

/// One end of an encrypted channel: the session key, how many frames were sent
/// and received, and which half of the nonces this end sends with.
pub struct SecureChannel {
    key: [u8; 32],
    send_counter: u64,
    recv_counter: u64,
    send_parity: u8,
}

/// One end of a channel as a mathematical value.
#[verifier::ext_equal]
pub struct ChannelModel {
    pub key: Seq<u8>,
    pub sent: nat,
    pub received: nat,
    /// 0 for the side that dialled, 1 for the other.
    pub parity: nat,
}

/// The key that both sides derive from their shared secret.
pub open spec fn session_key_of(shared: Seq<u8>) -> Seq<u8> {
    crypto::sha256_of(shared + bytes::text(SESSION_LABEL@))@
}

/// The nonce with this number.
pub open spec fn nonce_of(n: nat) -> Seq<u8> {
    bytes::le(n, 8) + bytes::zeros(4)
}

impl ChannelModel {
    /// The number of the nonce that the next frame is sent with.
    pub open spec fn send_number(self) -> nat {
        self.sent * 2 + self.parity
    }

    /// The number of the nonce that the next frame is received with.
    pub open spec fn recv_number(self) -> nat {
        (self.received * 2 + (1 - self.parity)) as nat
    }

    /// Sending: the ciphertext that goes into the frame.
    pub open spec fn sending(self, plaintext: Seq<u8>) -> (
        ChannelModel,
        core::result::Result<Seq<u8>, Fault>,
    ) {
        (
            ChannelModel { sent: self.sent + 1, ..self },
            if plaintext.len() <= crypto::SEAL_MAX {
                Ok(
                    crypto::gcm_sealed(
                        self.key,
                        nonce_of(self.send_number()),
                        Seq::empty(),
                        plaintext,
                    ),
                )
            } else {
                Err(Fault::CryptoFailure)
            },
        )
    }

    /// Receiving: the plaintext of a frame's ciphertext.
    pub open spec fn receiving(self, ciphertext: Seq<u8>) -> (
        ChannelModel,
        core::result::Result<Seq<u8>, Fault>,
    ) {
        (
            ChannelModel { received: self.received + 1, ..self },
            if ciphertext.len() > crypto::SEAL_MAX + 16 {
                Err(Fault::CryptoFailure)
            } else {
                match crypto::gcm_opened(
                    self.key,
                    nonce_of(self.recv_number()),
                    Seq::empty(),
                    ciphertext,
                ) {
                    Some(p) => Ok(p),
                    None => Err(Fault::CryptoFailure),
                }
            },
        )
    }
}

impl View for SecureChannel {
    type V = ChannelModel;

    closed spec fn view(&self) -> ChannelModel {
        ChannelModel {
            key: self.key@,
            sent: self.send_counter as nat,
            received: self.recv_counter as nat,
            parity: self.send_parity as nat,
        }
    }
}

/// The number of frames in each direction that the nonces last for.
pub const MAX_FRAMES: u64 = 0x7FFF_FFFF_FFFF_FFFF;

/// An ephemeral secret for one handshake, and its public key.
pub fn ephemeral() -> (r: ([u8; 32], [u8; 32]))
    ensures
        r.1@ == crypto::x25519_public_of(r.0@)@,
        readings::drawn(r.0@),
{
    let secret = readings::secret();
    let public = crypto::x25519_public(&secret);
    (secret, public)
}

/// The session key of this ephemeral secret and the other side's ephemeral
/// key. Whoever holds the secret of that key derives the same.
pub fn derive_session_key(secret: &[u8; 32], their_ephemeral: &[u8; 32]) -> (r: [u8; 32])
    ensures
        r@ == session_key_of(crypto::x25519_shared_of(secret@, their_ephemeral@)@),
        forall|theirs: Seq<u8>| #[trigger]
            crypto::x25519_public_of(theirs)@ == their_ephemeral@ && theirs.len() == 32 ==> r@
                == session_key_of(
                crypto::x25519_shared_of(theirs, crypto::x25519_public_of(secret@)@)@,
            ),
{
    let shared = crypto::x25519_shared(secret, their_ephemeral);
    let mut all = bytes::to_vec(shared.as_slice());
    bytes::append(&mut all, SESSION_LABEL.as_bytes());
    crypto::sha256(all.as_slice())
}

/// The channel that a side with this parity has after the handshake.
pub open spec fn opened_channel(secret: Seq<u8>, hello: HelloModel, parity: nat) -> ChannelModel {
    ChannelModel {
        key: session_key_of(crypto::x25519_shared_of(secret, hello.ephemeral)@),
        sent: 0,
        received: 0,
        parity,
    }
}

/// Whoever sent `hello` derives, from its own secret and this side's ephemeral
/// key, the key of `c`.
pub open spec fn agreed(secret: Seq<u8>, hello: HelloModel, c: ChannelModel) -> bool {
    forall|theirs: Seq<u8>| #[trigger]
        crypto::x25519_public_of(theirs)@ == hello.ephemeral && theirs.len() == 32 ==> c.key
            == session_key_of(
            crypto::x25519_shared_of(theirs, crypto::x25519_public_of(secret)@)@,
        )
}

impl SecureChannel {
    /// Finishes the handshake on the side that dialled: the other side must
    /// be the expected peer.
    pub fn initiator(
        secret: &[u8; 32],
        their_hello: &[u8],
        expected_peer: &PeerId,
    ) -> (r: Result<(SecureChannel, PeerId)>)
        ensures
            match (r, HelloModel::received(their_hello@)) {
                (Ok((c, peer)), Ok(h)) => {
                    &&& h.peer() == expected_peer@
                    &&& peer@ == h.peer()
                    &&& c@ == opened_channel(secret@, h, 0)
                    &&& agreed(secret@, h, c@)
                },
                (Err(e), Ok(h)) => h.peer() != expected_peer@ && e@ == Fault::AccessNotGranted,
                (Err(e), Err(f)) => e@ == f,
                (Ok(_), Err(_)) => false,
            },
    {
        let hello = match Hello::receive(their_hello) {
            Ok(h) => h,
            Err(e) => {
                return Err(e);
            },
        };
        assert(hello@.peer() == hello.peer_id@);
        if !hello.peer_id.same(expected_peer) {
            return Err(VaultError::AccessNotGranted);
        }
        let key = derive_session_key(secret, &hello.ephemeral_pub);
        Ok(
            (
                SecureChannel { key, send_counter: 0, recv_counter: 0, send_parity: 0 },
                hello.peer_id,
            ),
        )
    }

    /// Finishes the handshake on the side that was dialled. Who the other
    /// side is, is returned; whether it may have anything is for the caller
    /// to decide.
    pub fn responder(secret: &[u8; 32], their_hello: &Hello) -> (r: (SecureChannel, PeerId))
        ensures
            r.0@ == opened_channel(secret@, their_hello@, 1),
            r.1 == their_hello.peer_id,
            agreed(secret@, their_hello@, r.0@),
    {
        let key = derive_session_key(secret, &their_hello.ephemeral_pub);
        (
            SecureChannel { key, send_counter: 0, recv_counter: 0, send_parity: 1 },
            their_hello.peer_id,
        )
    }

    /// This end sends with one half of the nonces.
    pub open spec fn wf(&self) -> bool {
        self@.parity <= 1
    }

    /// Whether the nonces last for one more frame in each direction.
    pub fn has_frames_left(&self) -> (r: bool)
        ensures
            r == (self@.sent < MAX_FRAMES && self@.received < MAX_FRAMES),
    {
        self.send_counter < MAX_FRAMES && self.recv_counter < MAX_FRAMES
    }

    /// The nonce for the next frame to send.
    pub fn send_nonce(&mut self) -> (r: [u8; 12])
        requires
            old(self).wf(),
            old(self)@.sent < MAX_FRAMES,
        ensures
            final(self).wf(),
            final(self)@ == (ChannelModel { sent: old(self)@.sent + 1, ..old(self)@ }),
            r@ == nonce_of(old(self)@.send_number()),
    {
        let n: u64 = self.send_counter * 2 + self.send_parity as u64;
        self.send_counter = self.send_counter + 1;
        nonce(n)
    }

    /// The nonce for the next frame to receive.
    pub fn recv_nonce(&mut self) -> (r: [u8; 12])
        requires
            old(self).wf(),
            old(self)@.received < MAX_FRAMES,
        ensures
            final(self).wf(),
            final(self)@ == (ChannelModel { received: old(self)@.received + 1, ..old(self)@ }),
            r@ == nonce_of(old(self)@.recv_number()),
    {
        let recv_parity: u8 = 1 - self.send_parity;
        let n: u64 = self.recv_counter * 2 + recv_parity as u64;
        self.recv_counter = self.recv_counter + 1;
        nonce(n)
    }

    /// Encrypts a message for the next frame. What goes into the frame
    /// decrypts to the message again.
    pub fn send(&mut self, plaintext: &[u8]) -> (r: Result<Vec<u8>>)
        requires
            old(self).wf(),
            old(self)@.sent < MAX_FRAMES,
        ensures
            final(self).wf(),
            (final(self)@, error::outcome(r)) == old(self)@.sending(plaintext@),
            r matches Ok(c) ==> c@.len() == plaintext@.len() + 16 && crypto::gcm_opened(
                old(self)@.key,
                nonce_of(old(self)@.send_number()),
                Seq::empty(),
                c@,
            ) == Some(plaintext@),
    {
        let nonce = self.send_nonce();
        if plaintext.len() as u64 > crypto::SEAL_MAX {
            return Err(VaultError::CryptoFailure);
        }
        let none: [u8; 0] = [];
        assert(none@ =~= Seq::<u8>::empty());
        match crypto::gcm_seal(&self.key, &nonce, none.as_slice(), plaintext) {
            Some(c) => Ok(c),
            None => Err(VaultError::CryptoFailure),
        }
    }

    /// Decrypts the message of the next frame.
    pub fn recv(&mut self, ciphertext: &[u8]) -> (r: Result<Vec<u8>>)
        requires
            old(self).wf(),
            old(self)@.received < MAX_FRAMES,
        ensures
            final(self).wf(),
            (final(self)@, error::outcome(r)) == old(self)@.receiving(ciphertext@),
    {
        let nonce = self.recv_nonce();
        if ciphertext.len() as u64 > crypto::SEAL_MAX + 16 {
            return Err(VaultError::CryptoFailure);
        }
        let none: [u8; 0] = [];
        assert(none@ =~= Seq::<u8>::empty());
        match crypto::gcm_open(&self.key, &nonce, none.as_slice(), ciphertext) {
            Some(p) => Ok(p),
            None => Err(VaultError::CryptoFailure),
        }
    }
}

/// The nonce with this number.
fn nonce(n: u64) -> (r: [u8; 12])
    ensures
        r@ == nonce_of(n as nat),
{
    broadcast use bytes::lemma_le_length;

    let mut out = bytes::le_bytes(n as u128, 8);
    bytes::push_zeros(&mut out, 4);
    crypto::array12(out.as_slice())
}

// ---------------------------------------------------------------------
// What the channel promises
// ---------------------------------------------------------------------

/// Frame number `k` of either direction is received with the nonce that it was
/// sent with: the number `2 * k` plus the sender's parity in eight bytes, and four
/// zero bytes.
pub proof fn law_nonces_match(a: ChannelModel, b: ChannelModel, k: nat)
    requires
        a.parity + b.parity == 1,
        a.sent == k,
        b.received == k,
    ensures
        nonce_of(a.send_number()) == bytes::le(2 * k + a.parity, 8) + bytes::zeros(4),
        nonce_of(b.recv_number()) == nonce_of(a.send_number()),
{
}

/// The two ends of a connection never send with the same nonce, and neither
/// end sends with the same nonce twice.
pub proof fn law_nonces_never_repeat(a: ChannelModel, b: ChannelModel)
    requires
        a.parity <= 1,
        b.parity <= 1,
        a.sent < MAX_FRAMES,
        b.sent < MAX_FRAMES,
        a.parity != b.parity || a.sent != b.sent,
    ensures
        nonce_of(a.send_number()) != nonce_of(b.send_number()),
{
    broadcast use bytes::lemma_le_length;

    let m = a.send_number();
    let n = b.send_number();
    bytes::lemma_pow256_values();
    if nonce_of(m) == nonce_of(n) {
        assert(nonce_of(m).subrange(0, 8) =~= bytes::le(m, 8));
        assert(nonce_of(n).subrange(0, 8) =~= bytes::le(n, 8));
        bytes::lemma_le_round_trip(m, 8);
        bytes::lemma_le_round_trip(n, 8);
    }
}

/// Both ends of a handshake derive the same key and send with different
/// halves of the nonces. `agreed` is what finishing the handshake ensures.
pub proof fn law_ends_agree(
    secret: Seq<u8>,
    theirs: Seq<u8>,
    mine: HelloModel,
    hello: HelloModel,
    initiator: ChannelModel,
)
    requires
        secret.len() == 32,
        theirs.len() == 32,
        mine.ephemeral == crypto::x25519_public_of(secret)@,
        hello.ephemeral == crypto::x25519_public_of(theirs)@,
        initiator == opened_channel(secret, hello, 0),
        agreed(secret, hello, initiator),
    ensures
        opened_channel(theirs, mine, 1).key == initiator.key,
        opened_channel(theirs, mine, 1).parity != initiator.parity,
{
}

/// What one end sends is what the other end receives, as long as frames arrive
/// in order. That the ciphertext opens is what sending ensures.
pub proof fn law_received_as_sent(
    a: ChannelModel,
    b: ChannelModel,
    plaintext: Seq<u8>,
    ciphertext: Seq<u8>,
)
    requires
        a.key == b.key,
        a.parity + b.parity == 1,
        a.sent == b.received,
        ciphertext.len() == plaintext.len() + 16,
        plaintext.len() <= crypto::SEAL_MAX,
        crypto::gcm_opened(a.key, nonce_of(a.send_number()), Seq::empty(), ciphertext) == Some(
            plaintext,
        ),
    ensures
        b.receiving(ciphertext).1 == Ok::<Seq<u8>, Fault>(plaintext),
        a.sending(plaintext).0.sent == b.receiving(ciphertext).0.received,
{
}

/// Nobody is taken for somebody else: a hello is received exactly if it has its
/// length and the claimed signing key accepts its signature of the ephemeral key.
/// What is received is what was sent.
pub proof fn law_hello_is_checked(b: Seq<u8>, h: HelloModel)
    ensures
        HelloModel::received(b) matches Ok(g) ==> g.encoded() == b && b.len() == 160
            && identity::ed25519_verdict(g.signing, g.ephemeral, g.signature) == Some(true),
        h.fits() && identity::ed25519_verdict(h.signing, h.ephemeral, h.signature) == Some(true)
            ==> HelloModel::received(h.encoded()) == Ok::<HelloModel, Fault>(h),
        h.fits() && identity::ed25519_verdict(h.signing, h.ephemeral, h.signature) != Some(true)
            ==> HelloModel::received(h.encoded()) is Err,
{
    if let Ok(g) = HelloModel::received(b) {
        assert(g.encoded() =~= b);
    }
    if h.fits() {
        law_hello_round_trip(h);
    }
}

} // verus!
