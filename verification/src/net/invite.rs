//! Invite codes: a peer's public keys and, where there is one, the address to
//! dial, as hexadecimal text that can be pasted into a prompt or a message.

use vstd::prelude::*;

use crate::engine::bytes;
use crate::engine::error::{self, Fault, Result, VaultError};
use crate::engine::identity::PeerId;
use crate::engine::text;

verus! {

/// What an invite code says.
#[derive(Debug, Clone, PartialEq, Eq)]
pub struct InviteCode {
    pub peer_id: PeerId,
    /// The address to dial, as text.
    pub address: Option<String>,
}

/// An invite code as a mathematical value.
#[verifier::ext_equal]
pub struct InviteModel {
    pub peer: Seq<u8>,
    pub address: Option<Seq<char>>,
}

impl View for InviteCode {
    type V = InviteModel;

    open spec fn view(&self) -> InviteModel {
        InviteModel { peer: self.peer_id@, address: text::opt_text(self.address) }
    }
}

impl InviteModel {
    /// The bytes behind the hexadecimal text: the keys, a marker, and the
    /// address if there is one.
    pub open spec fn packed(self) -> Seq<u8> {
        match self.address {
            Some(a) => self.peer + seq![1u8] + bytes::text(a),
            None => self.peer + seq![0u8],
        }
    }

    /// The invite code.
    pub open spec fn encoded(self) -> Seq<char> {
        text::hex_of(self.packed())
    }

    /// What these bytes say.
    pub open spec fn unpacked(d: Seq<u8>) -> core::result::Result<InviteModel, Fault> {
        if d.len() < 65 {
            Err(Fault::CorruptContainer("invite code is too short"))
        } else if d[64] == 0 {
            Ok(InviteModel { peer: d.subrange(0, 64), address: None })
        } else if d[64] == 1 {
            let rest = d.subrange(65, d.len() as int);
            if vstd::utf8::valid_utf8(rest) {
                Ok(
                    InviteModel {
                        peer: d.subrange(0, 64),
                        address: Some(vstd::utf8::decode_utf8(rest)),
                    },
                )
            } else {
                Err(Fault::CorruptContainer("invite code address is not valid UTF-8"))
            }
        } else {
            Err(Fault::CorruptContainer("invite code has an invalid address marker"))
        }
    }

    /// What a text says that is meant to be an invite code. White space around
    /// it is ignored.
    pub open spec fn decoded(s: Seq<char>) -> core::result::Result<InviteModel, Fault> {
        let b = bytes::text(text::trimmed(s));
        if b.len() % 2 != 0 {
            Err(Fault::CorruptContainer("invite code has odd length"))
        } else if !text::all_hex(b) {
            Err(Fault::CorruptContainer("invite code contains a non-hex character"))
        } else {
            InviteModel::unpacked(text::unhexed(b))
        }
    }
}

impl InviteCode {
    /// The invite code as text.
    pub fn encode(&self) -> (r: String)
        ensures
            r@ == self@.encoded(),
    {
        let mut packed = bytes::to_vec(self.peer_id.to_bytes().as_slice());
        match &self.address {
            Some(a) => {
                packed.push(1u8);
                bytes::append(&mut packed, a.as_str().as_bytes());
            },
            None => {
                packed.push(0u8);
            },
        }
        assert(packed@ =~= self@.packed());
        text::hex_encode(packed.as_slice())
    }

    /// Reads an invite code. The address is taken as it stands; whether it can
    /// be dialled is for [`InviteCode::check_address`] to say.
    pub fn decode(s: &str) -> (r: Result<Self>)
        ensures
            error::outcome(r) == InviteModel::decoded(s@),
    {
        let data = match hex_decode(text::trim(s)) {
            Ok(data) => data,
            Err(e) => {
                return Err(e);
            },
        };
        if data.len() < 65 {
            return Err(VaultError::CorruptContainer("invite code is too short"));
        }
        let (head, _) = data.as_slice().split_at(64);
        let peer_id = match PeerId::from_bytes(head) {
            Ok(p) => p,
            Err(e) => {
                assert(false);
                return Err(e);
            },
        };
        let marker: u8 = data[64];
        if marker == 0 {
            Ok(InviteCode { peer_id, address: None })
        } else if marker == 1 {
            let (_, rest) = data.as_slice().split_at(65);
            match text::from_utf8(bytes::to_vec(rest)) {
                Some(a) => Ok(InviteCode { peer_id, address: Some(a) }),
                None => Err(
                    VaultError::CorruptContainer("invite code address is not valid UTF-8"),
                ),
            }
        } else {
            Err(VaultError::CorruptContainer("invite code has an invalid address marker"))
        }
    }

    /// Refuses an invite code whose address is there but cannot be parsed.
    pub fn check_address(&self, parses: bool) -> (r: Result<()>)
        ensures
            r is Ok <==> self@.address is None || parses,
            r matches Err(e) ==> e@ == Fault::CorruptContainer(
                "invite code has an invalid address",
            ),
    {
        if self.address.is_some() && !parses {
            Err(VaultError::CorruptContainer("invite code has an invalid address"))
        } else {
            Ok(())
        }
    }
}

/// The bytes that hexadecimal text of either case spells.
pub fn hex_decode(s: &str) -> (r: Result<Vec<u8>>)
    ensures
        error::outcome(r) == ({
            let b = bytes::text(s@);
            if b.len() % 2 != 0 {
                Err(Fault::CorruptContainer("invite code has odd length"))
            } else if !text::all_hex(b) {
                Err(Fault::CorruptContainer("invite code contains a non-hex character"))
            } else {
                Ok(text::unhexed(b))
            }
        }),
{
    let b = s.as_bytes();
    if b.len() % 2 != 0 {
        return Err(VaultError::CorruptContainer("invite code has odd length"));
    }
    let mut out: Vec<u8> = Vec::new();
    let mut i: usize = 0;
    while i < b.len()
        invariant
            i <= b.len(),
            i % 2 == 0,
            b.len() % 2 == 0,
            b@ == bytes::text(s@),
            out@.len() == i / 2,
            forall|j: int| 0 <= j < i ==> text::is_hex_digit(#[trigger] b@[j]),
            forall|j: int| 0 <= j < out@.len() ==> #[trigger] out@[j] == text::unhexed(b@)[j],
        decreases b.len() - i,
    {
        let hi: u8 = match text::hex_value(b[i]) {
            Some(v) => v,
            None => {
                assert(!text::is_hex_digit(b@[i as int]));
                return Err(
                    VaultError::CorruptContainer("invite code contains a non-hex character"),
                );
            },
        };
        let lo: u8 = match text::hex_value(b[i + 1]) {
            Some(v) => v,
            None => {
                assert(!text::is_hex_digit(b@[i + 1]));
                return Err(
                    VaultError::CorruptContainer("invite code contains a non-hex character"),
                );
            },
        };
        assert(2 * (i as int / 2) == i);
        out.push(hi * 16 + lo);
        i = i + 2;
    }
    assert(out@ =~= text::unhexed(b@));
    Ok(out)
}

/// An invite code is read back as it was made, also with white space around
/// it.
pub proof fn law_invite_round_trip(m: InviteModel)
    requires
        m.peer.len() == 64,
    ensures
        InviteModel::decoded(m.encoded()) == Ok::<InviteModel, Fault>(m),
        forall|s: Seq<char>| #[trigger]
            text::trimmed(s) == m.encoded() ==> InviteModel::decoded(s) == Ok::<
                InviteModel,
                Fault,
            >(m),
{
    let d = m.packed();
    let chars = m.encoded();
    text::law_hex_round_trip(d);
    assert(!text::is_space(chars[0]) && !text::is_space(chars.last()));
    text::lemma_trimmed(chars);
    let b = bytes::text(chars);
    assert(b.len() % 2 == 0);
    assert(text::unhexed(b) == d);
    assert(d.subrange(0, 64) =~= m.peer);
    if let Some(a) = m.address {
        assert(d.subrange(65, d.len() as int) =~= bytes::text(a));
        text::lemma_text_round_trip(a);
    }
    assert(InviteModel::unpacked(d) == Ok::<InviteModel, Fault>(m));
}

/// A text with its hexadecimal digits in upper case.
pub open spec fn in_upper_case(s: Seq<char>) -> Seq<char> {
    s.map_values(
        |c: char|
            if 'a' <= c <= 'f' {
                (c as int - 32) as char
            } else {
                c
            },
    )
}

/// Case does not matter: an invite code in upper case, or in mixed case, says the
/// same, also with white space around it.
pub proof fn law_invite_case_does_not_matter(m: InviteModel, s: Seq<char>)
    requires
        m.peer.len() == 64,
        in_upper_case(text::trimmed(s)) == in_upper_case(m.encoded()),
    ensures
        InviteModel::decoded(s) == Ok::<InviteModel, Fault>(m),
        InviteModel::decoded(in_upper_case(m.encoded())) == Ok::<InviteModel, Fault>(m),
{
    let e = m.encoded();
    let up = in_upper_case(e);
    lemma_same_but_case(m, text::trimmed(s));
    lemma_same_but_case(m, e);
    assert(in_upper_case(up) =~= up) by {
        assert forall|i: int| 0 <= i < up.len() implies in_upper_case(up)[i] == up[i] by {
            assert('0' <= e[i] <= '9' || 'a' <= e[i] <= 'f');
        }
    }
    assert(!text::is_space(up[0]) && !text::is_space(up.last())) by {
        assert('0' <= e[0] <= '9' || 'a' <= e[0] <= 'f');
        let last = e.len() - 1;
        assert('0' <= e[last] <= '9' || 'a' <= e[last] <= 'f');
    }
    text::lemma_trimmed(up);
    lemma_same_but_case(m, up);
    law_invite_round_trip(m);
}

/// Digits that differ from those of an invite code in case only spell the same.
proof fn lemma_same_but_case(m: InviteModel, t: Seq<char>)
    requires
        m.peer.len() == 64,
        in_upper_case(t) == in_upper_case(m.encoded()),
    ensures
        bytes::text(t).len() == 2 * m.packed().len(),
        text::all_hex(bytes::text(t)),
        text::unhexed(bytes::text(t)) == m.packed(),
        InviteModel::unpacked(m.packed()) == Ok::<InviteModel, Fault>(m),
{
    let e = m.encoded();
    let b = bytes::text(t);
    let c = bytes::text(e);
    let d = m.packed();
    assert(in_upper_case(t).len() == t.len() && in_upper_case(e).len() == e.len());
    assert forall|i: int| 0 <= i < t.len() implies t[i] == e[i] || (t[i] as int == e[i] as int - 32
        && 'a' <= e[i] <= 'f') by {
        assert(in_upper_case(t)[i] == in_upper_case(e)[i]);
        assert('0' <= e[i] <= '9' || 'a' <= e[i] <= 'f');
    }
    assert(vstd::utf8::is_ascii_chars(e));
    assert(vstd::utf8::is_ascii_chars(t));
    vstd::utf8::is_ascii_chars_encode_utf8(e);
    vstd::utf8::is_ascii_chars_encode_utf8(t);
    text::law_hex_round_trip(d);
    assert forall|i: int| 0 <= i < b.len() implies text::is_hex_digit(#[trigger] b[i])
        && text::hex_digit_value(b[i]) == text::hex_digit_value(c[i]) by {
        assert(t[i] as u8 == b[i]);
        assert(e[i] as u8 == c[i]);
    }
    assert(text::unhexed(b) =~= text::unhexed(c));
    assert(d.subrange(0, 64) =~= m.peer);
    if let Some(a) = m.address {
        assert(d.subrange(65, d.len() as int) =~= bytes::text(a));
        text::lemma_text_round_trip(a);
    }
}

/// Text of odd length, text with anything but hexadecimal digits in it, and text
/// that is too short for a peer and a marker is no invite code.
pub proof fn law_malformed_invite_is_refused(s: Seq<char>)
    requires
        ({
            let b = bytes::text(text::trimmed(s));
            b.len() % 2 != 0 || !text::all_hex(b) || b.len() < 130
        }),
    ensures
        InviteModel::decoded(s) matches Err(Fault::CorruptContainer(_)),
{
}

/// An invite code consists of lower-case hexadecimal digits only.
pub proof fn law_invite_is_lower_hex(m: InviteModel)
    ensures
        forall|i: int|
            0 <= i < m.encoded().len() ==> '0' <= #[trigger] m.encoded()[i] <= '9' || 'a'
                <= m.encoded()[i] <= 'f',
{
}

} // verus!
