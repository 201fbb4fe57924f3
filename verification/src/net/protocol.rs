//! Frames and the sync messages that peers exchange after the handshake.

use vstd::prelude::*;

use crate::engine::bytes;
use crate::engine::codec;
use crate::engine::crypto;
use crate::engine::error::{self, Fault, Result, VaultError};
use crate::engine::text;
use crate::engine::vault;

verus! {

/// The longest frame that is read or written.
pub const MAX_FRAME_LEN: u32 = 67_108_864;

pub const FRAME_TOO_LONG: &'static str = "frame exceeds maximum size";

pub const TRUNCATED: &'static str = "truncated sync message";

/// What peers say to each other once the channel is up.
#[derive(Debug, Clone, PartialEq, Eq)]
pub enum SyncMessage {
    /// Where the sender's chain stands. `next_seq` 0 means that there is no
    /// local replica at all.
    ChainState { next_seq: u64, last_hash: [u8; 32] },
    /// Ranges to write over the receiver's replica, in this order.
    Patch { seq: u64, ranges: Vec<(u64, Vec<u8>)> },
    /// The admin's whole container.
    FullSync { bytes: Vec<u8> },
    /// Nothing more to send.
    UpToDate,
    Error { message: String },
}

/// A sync message as a mathematical value.
pub enum MessageModel {
    ChainState { next_seq: u64, last_hash: Seq<u8> },
    Patch { seq: u64, ranges: Seq<(u64, Seq<u8>)> },
    FullSync { bytes: Seq<u8> },
    UpToDate,
    Error { message: Seq<char> },
}

impl View for SyncMessage {
    type V = MessageModel;

    open spec fn view(&self) -> MessageModel {
        match self {
            SyncMessage::ChainState { next_seq, last_hash } => MessageModel::ChainState {
                next_seq: *next_seq,
                last_hash: last_hash@,
            },
            SyncMessage::Patch { seq, ranges } => MessageModel::Patch {
                seq: *seq,
                ranges: vault::ranges_of(ranges@),
            },
            SyncMessage::FullSync { bytes } => MessageModel::FullSync { bytes: bytes@ },
            SyncMessage::UpToDate => MessageModel::UpToDate,
            SyncMessage::Error { message } => MessageModel::Error { message: message@ },
        }
    }
}

/// One range of a patch: offset, length and data.
pub open spec fn range_encoded(range: (u64, Seq<u8>)) -> Seq<u8> {
    bytes::le(range.0 as nat, 8) + bytes::le(range.1.len(), 4) + range.1
}

/// Ranges one after another.
pub open spec fn ranges_encoded(ranges: Seq<(u64, Seq<u8>)>) -> Seq<u8>
    decreases ranges.len(),
{
    if ranges.len() == 0 {
        Seq::empty()
    } else {
        range_encoded(ranges[0]) + ranges_encoded(ranges.drop_first())
    }
}

/// The next `count` ranges in `b` from `pos` on.
pub open spec fn ranges_at(b: Seq<u8>, pos: int, count: nat) -> core::result::Result<
    Seq<(u64, Seq<u8>)>,
    Fault,
>
    decreases count,
{
    if count == 0 {
        Ok(Seq::empty())
    } else if pos + 12 > b.len() || pos + 12 + codec::num(b, pos + 8, 4) > b.len() {
        Err(Fault::CorruptContainer(TRUNCATED))
    } else {
        let n = codec::num(b, pos + 8, 4);
        match ranges_at(b, pos + 12 + n, (count - 1) as nat) {
            Err(f) => Err(f),
            Ok(rest) => Ok(
                seq![(codec::num(b, pos, 8) as u64, codec::sized(b, pos + 12, n))] + rest,
            ),
        }
    }
}

impl MessageModel {
    /// All counts and lengths fit their places on the wire.
    pub open spec fn fits(self) -> bool {
        match self {
            MessageModel::ChainState { last_hash, .. } => last_hash.len() == 32,
            MessageModel::Patch { ranges, .. } => {
                &&& ranges.len() < 0x1_0000_0000
                &&& forall|i: int|
                    0 <= i < ranges.len() ==> (#[trigger] ranges[i]).1.len() < 0x1_0000_0000
            },
            MessageModel::FullSync { bytes } => bytes.len() < 0x1_0000_0000_0000_0000,
            MessageModel::UpToDate => true,
            MessageModel::Error { message } => bytes::text(message).len() < 0x1_0000_0000,
        }
    }

    /// The message on the wire.
    pub open spec fn encoded(self) -> Seq<u8> {
        match self {
            MessageModel::ChainState { next_seq, last_hash } => seq![1u8] + bytes::le(
                next_seq as nat,
                8,
            ) + last_hash,
            MessageModel::Patch { seq, ranges } => seq![2u8] + bytes::le(seq as nat, 8) + bytes::le(
                ranges.len(),
                4,
            ) + ranges_encoded(ranges),
            MessageModel::FullSync { bytes } => seq![3u8] + bytes::le(bytes.len(), 8) + bytes,
            MessageModel::UpToDate => seq![4u8],
            MessageModel::Error { message } => seq![5u8] + bytes::le(bytes::text(message).len(), 4)
                + bytes::text(message),
        }
    }

    /// What bytes from the wire say. Bytes behind the message are ignored.
    pub open spec fn decoded(b: Seq<u8>) -> core::result::Result<MessageModel, Fault> {
        if b.len() == 0 {
            Err(Fault::CorruptContainer("empty sync message"))
        } else if b[0] == 1 {
            if b.len() < 41 {
                Err(Fault::CorruptContainer(TRUNCATED))
            } else {
                Ok(
                    MessageModel::ChainState {
                        next_seq: codec::num(b, 1, 8) as u64,
                        last_hash: b.subrange(9, 41),
                    },
                )
            }
        } else if b[0] == 2 {
            if b.len() < 13 {
                Err(Fault::CorruptContainer(TRUNCATED))
            } else {
                match ranges_at(b, 13, codec::num(b, 9, 4)) {
                    Err(f) => Err(f),
                    Ok(ranges) => Ok(
                        MessageModel::Patch { seq: codec::num(b, 1, 8) as u64, ranges },
                    ),
                }
            }
        } else if b[0] == 3 {
            if b.len() < 9 || 9 + codec::num(b, 1, 8) > b.len() {
                Err(Fault::CorruptContainer(TRUNCATED))
            } else {
                Ok(MessageModel::FullSync { bytes: codec::sized(b, 9, codec::num(b, 1, 8)) })
            }
        } else if b[0] == 4 {
            Ok(MessageModel::UpToDate)
        } else if b[0] == 5 {
            if b.len() < 5 || 5 + codec::num(b, 1, 4) > b.len() {
                Err(Fault::CorruptContainer(TRUNCATED))
            } else {
                Ok(
                    MessageModel::Error {
                        message: text::lossy_text(codec::sized(b, 5, codec::num(b, 1, 4))),
                    },
                )
            }
        } else {
            Err(Fault::CorruptContainer("unknown sync message tag"))
        }
    }
}

// ---------------------------------------------------------------------
// Frames
// ---------------------------------------------------------------------

/// A frame: the length of the data in four bytes, then the data.
pub open spec fn framed(data: Seq<u8>) -> Seq<u8> {
    bytes::le(data.len(), 4) + data
}

/// The frame that carries `data`, unless it is too long for one.
pub fn frame(data: &[u8]) -> (r: Result<Vec<u8>>)
    ensures
        error::outcome(r) == (if data@.len() <= MAX_FRAME_LEN {
            Ok(framed(data@))
        } else {
            Err(Fault::Io(FRAME_TOO_LONG))
        }),
{
    if data.len() as u64 > MAX_FRAME_LEN as u64 {
        return Err(VaultError::Io(FRAME_TOO_LONG));
    }
    let mut out = bytes::le_bytes(data.len() as u128, 4);
    bytes::append(&mut out, data);
    Ok(out)
}

/// The length of the data that follows these first four bytes of a frame. A
/// frame that claims to be too long is refused before anything is allocated
/// for it.
pub fn frame_len(head: &[u8; 4]) -> (r: Result<u32>)
    ensures
        r matches Ok(n) ==> n == bytes::le_value(head@) && n <= MAX_FRAME_LEN,
        r matches Err(e) ==> bytes::le_value(head@) > MAX_FRAME_LEN && e@ == Fault::Io(
            FRAME_TOO_LONG,
        ),
{
    assert(head@.subrange(0, 4) =~= head@);
    proof {
        bytes::lemma_pow256_values();
    }
    let n: u32 = bytes::read_le(head, 0, 4) as u32;
    if n > MAX_FRAME_LEN {
        return Err(VaultError::Io(FRAME_TOO_LONG));
    }
    Ok(n)
}

/// The head of a frame tells the length of what it carries.
pub proof fn law_frame_round_trip(data: Seq<u8>)
    requires
        data.len() <= MAX_FRAME_LEN,
    ensures
        framed(data).len() == 4 + data.len(),
        bytes::le_value(framed(data).subrange(0, 4)) == data.len(),
        framed(data).subrange(4, framed(data).len() as int) == data,
{
    broadcast use bytes::lemma_le_length;

    bytes::lemma_pow256_values();
    bytes::lemma_le_round_trip(data.len(), 4);
    assert(framed(data).subrange(0, 4) =~= bytes::le(data.len(), 4));
    assert(framed(data).subrange(4, framed(data).len() as int) =~= data);
}

// ---------------------------------------------------------------------
// Messages
// ---------------------------------------------------------------------

impl SyncMessage {
    /// The message on the wire.
    pub fn encode(&self) -> (r: Vec<u8>)
        ensures
            r@ == self@.encoded(),
    {
        let mut buf: Vec<u8> = Vec::new();
        match self {
            SyncMessage::ChainState { next_seq, last_hash } => {
                buf.push(1u8);
                bytes::push_le(&mut buf, *next_seq as u128, 8);
                bytes::append(&mut buf, last_hash.as_slice());
                assert(buf@ =~= self@.encoded());
            },
            SyncMessage::Patch { seq, ranges } => {
                buf.push(2u8);
                bytes::push_le(&mut buf, *seq as u128, 8);
                bytes::push_le(&mut buf, ranges.len() as u128, 4);
                let ghost head = buf@;
                let ghost all = vault::ranges_of(ranges@);
                assert(head =~= seq![2u8] + bytes::le(*seq as nat, 8) + bytes::le(all.len(), 4));
                let mut i: usize = 0;
                assert(all.skip(0) =~= all);
                while i < ranges.len()
                    invariant
                        i <= ranges@.len(),
                        all == vault::ranges_of(ranges@),
                        buf@ + ranges_encoded(all.skip(i as int)) == head + ranges_encoded(all),
                    decreases ranges@.len() - i,
                {
                    let ghost before = buf@;
                    let ghost rest = all.skip(i as int);
                    bytes::push_le(&mut buf, ranges[i].0 as u128, 8);
                    bytes::push_le(&mut buf, ranges[i].1.len() as u128, 4);
                    bytes::append(&mut buf, ranges[i].1.as_slice());
                    proof {
                        assert(rest[0] == (ranges@[i as int].0, ranges@[i as int].1@));
                        assert(rest.drop_first() =~= all.skip(i + 1));
                        assert(buf@ =~= before + range_encoded(rest[0]));
                        assert(before + (range_encoded(rest[0]) + ranges_encoded(all.skip(i + 1)))
                            =~= buf@ + ranges_encoded(all.skip(i + 1)));
                    }
                    i = i + 1;
                }
                assert(all.skip(i as int).len() == 0);
                assert(buf@ + ranges_encoded(all.skip(i as int)) =~= buf@);
            },
            SyncMessage::FullSync { bytes: data } => {
                buf.push(3u8);
                bytes::push_le(&mut buf, data.len() as u128, 8);
                bytes::append(&mut buf, data.as_slice());
                assert(buf@ =~= self@.encoded());
            },
            SyncMessage::UpToDate => {
                buf.push(4u8);
                assert(buf@ =~= self@.encoded());
            },
            SyncMessage::Error { message } => {
                let data = message.as_str().as_bytes();
                buf.push(5u8);
                bytes::push_le(&mut buf, data.len() as u128, 4);
                bytes::append(&mut buf, data);
                assert(buf@ =~= self@.encoded());
            },
        }
        buf
    }

    /// What bytes from the wire say. A message that was encoded is read back,
    /// also if more bytes follow it.
    pub fn decode(buf: &[u8]) -> (r: Result<Self>)
        ensures
            error::outcome(r) == MessageModel::decoded(buf@),
            forall|m: MessageModel| #[trigger]
                m.encoded() == buf@ && m.fits() ==> error::outcome(r) == Ok::<MessageModel, Fault>(
                    m,
                ),
    {
        let r = Self::parse(buf);
        proof {
            assert forall|m: MessageModel| #[trigger] m.encoded() == buf@ && m.fits() implies
                error::outcome(r) == Ok::<MessageModel, Fault>(m) by {
                law_message_round_trip(m);
                if let MessageModel::Error { message } = m {
                    lemma_error_wire(message);
                    text::lemma_text_round_trip(message);
                }
            }
        }
        r
    }

    fn parse(buf: &[u8]) -> (r: Result<Self>)
        ensures
            error::outcome(r) == MessageModel::decoded(buf@),
            buf@.len() >= 5 && buf@[0] == 5 && 5 + codec::num(buf@, 1, 4) <= buf@.len()
                && vstd::utf8::valid_utf8(codec::sized(buf@, 5, codec::num(buf@, 1, 4)))
                ==> text::lossy_text(codec::sized(buf@, 5, codec::num(buf@, 1, 4)))
                == vstd::utf8::decode_utf8(codec::sized(buf@, 5, codec::num(buf@, 1, 4))),
    {
        if buf.len() == 0 {
            return Err(VaultError::CorruptContainer("empty sync message"));
        }
        proof {
            bytes::lemma_pow256_values();
        }
        let tag: u8 = buf[0];
        if tag == 1 {
            if buf.len() < 41 {
                return Err(VaultError::CorruptContainer(TRUNCATED));
            }
            let next_seq: u64 = bytes::read_le(buf, 1, 8) as u64;
            let last_hash = crypto::array32(vstd::slice::slice_subrange(buf, 9, 41));
            Ok(SyncMessage::ChainState { next_seq, last_hash })
        } else if tag == 2 {
            if buf.len() < 13 {
                return Err(VaultError::CorruptContainer(TRUNCATED));
            }
            let seq: u64 = bytes::read_le(buf, 1, 8) as u64;
            let count: u32 = bytes::read_le(buf, 9, 4) as u32;
            match parse_ranges(buf, count) {
                Err(e) => Err(e),
                Ok(ranges) => Ok(SyncMessage::Patch { seq, ranges }),
            }
        } else if tag == 3 {
            if buf.len() < 9 {
                return Err(VaultError::CorruptContainer(TRUNCATED));
            }
            let n: u64 = bytes::read_le(buf, 1, 8) as u64;
            if n > (buf.len() - 9) as u64 {
                return Err(VaultError::CorruptContainer(TRUNCATED));
            }
            let data = bytes::to_vec(
                vstd::slice::slice_subrange(buf, 9, 9 + n as usize),
            );
            Ok(SyncMessage::FullSync { bytes: data })
        } else if tag == 4 {
            Ok(SyncMessage::UpToDate)
        } else if tag == 5 {
            if buf.len() < 5 {
                return Err(VaultError::CorruptContainer(TRUNCATED));
            }
            let n: u32 = bytes::read_le(buf, 1, 4) as u32;
            if n as u64 > (buf.len() - 5) as u64 {
                return Err(VaultError::CorruptContainer(TRUNCATED));
            }
            let message = text::from_utf8_lossy(
                vstd::slice::slice_subrange(buf, 5, 5 + n as usize),
            );
            Ok(SyncMessage::Error { message })
        } else {
            Err(VaultError::CorruptContainer("unknown sync message tag"))
        }
    }
}

/// Reads `count` ranges behind the head of a patch.
fn parse_ranges(buf: &[u8], count: u32) -> (r: Result<Vec<(u64, Vec<u8>)>>)
    requires
        buf@.len() >= 13,
    ensures
        match r {
            Ok(ranges) => ranges_at(buf@, 13, count as nat) == Ok::<Seq<(u64, Seq<u8>)>, Fault>(
                vault::ranges_of(ranges@),
            ),
            Err(e) => ranges_at(buf@, 13, count as nat) == Err::<Seq<(u64, Seq<u8>)>, Fault>(e@),
        },
{
    let mut ranges: Vec<(u64, Vec<u8>)> = Vec::new();
    let mut pos: usize = 13;
    let mut left: u32 = count;
    let ghost whole = ranges_at(buf@, 13, count as nat);
    proof {
        let rest = ranges_at(buf@, 13, count as nat);
        if rest is Ok {
            assert(vault::ranges_of(ranges@) + rest->Ok_0 =~= rest->Ok_0);
        }
    }
    while left > 0
        invariant
            13 <= pos <= buf.len(),
            whole == match ranges_at(buf@, pos as int, left as nat) {
                Ok(rest) => Ok(vault::ranges_of(ranges@) + rest),
                Err(f) => Err(f),
            },
            whole == ranges_at(buf@, 13, count as nat),
        decreases left,
    {
        if buf.len() - pos < 12 {
            return Err(VaultError::CorruptContainer(TRUNCATED));
        }
        proof {
            bytes::lemma_pow256_values();
        }
        let offset: u64 = bytes::read_le(buf, pos, 8) as u64;
        let n: u32 = bytes::read_le(buf, pos + 8, 4) as u32;
        if n as u64 > (buf.len() - pos - 12) as u64 {
            return Err(VaultError::CorruptContainer(TRUNCATED));
        }
        let data = bytes::to_vec(
            vstd::slice::slice_subrange(buf, pos + 12, pos + 12 + n as usize),
        );
        let ghost before = ranges@;
        let ghost item = (offset, data@);
        ranges.push((offset, data));
        proof {
            assert(vault::ranges_of(ranges@) =~= vault::ranges_of(before).push(item));
            let rest = ranges_at(buf@, pos + 12 + n, (left - 1) as nat);
            if rest is Ok {
                assert(vault::ranges_of(before) + (seq![item] + rest->Ok_0) =~= vault::ranges_of(
                    ranges@,
                ) + rest->Ok_0);
            }
        }
        pos = pos + 12 + n as usize;
        left = left - 1;
    }
    assert(vault::ranges_of(ranges@) + Seq::empty() =~= vault::ranges_of(ranges@));
    Ok(ranges)
}

/// Ranges that were encoded are read back from wherever they stand.
proof fn lemma_ranges_round_trip(b: Seq<u8>, pos: int, ranges: Seq<(u64, Seq<u8>)>)
    requires
        0 <= pos,
        pos + ranges_encoded(ranges).len() <= b.len(),
        b.subrange(pos, pos + ranges_encoded(ranges).len()) == ranges_encoded(ranges),
        forall|i: int|
            0 <= i < ranges.len() ==> (#[trigger] ranges[i]).1.len() < 0x1_0000_0000,
    ensures
        ranges_at(b, pos, ranges.len()) == Ok::<Seq<(u64, Seq<u8>)>, Fault>(ranges),
    decreases ranges.len(),
{
    broadcast use bytes::lemma_le_length;

    if ranges.len() > 0 {
        let all = ranges_encoded(ranges);
        let first = range_encoded(ranges[0]);
        let rest = ranges.drop_first();
        let n = ranges[0].1.len();
        let here = b.subrange(pos, pos + all.len());
        assert(all == first + ranges_encoded(rest));
        bytes::lemma_pow256_values();
        assert(b.subrange(pos, pos + 8) =~= bytes::le(ranges[0].0 as nat, 8)) by {
            assert forall|i: int| 0 <= i < 8 implies b[pos + i] == bytes::le(
                ranges[0].0 as nat,
                8,
            )[i] by {
                assert(here[i] == all[i]);
            }
        }
        assert(b.subrange(pos + 8, pos + 12) =~= bytes::le(n, 4)) by {
            assert forall|i: int| 0 <= i < 4 implies b[pos + 8 + i] == bytes::le(n, 4)[i] by {
                assert(here[8 + i] == all[8 + i]);
            }
        }
        assert(b.subrange(pos + 12, pos + 12 + n) =~= ranges[0].1) by {
            assert forall|i: int| 0 <= i < n implies b[pos + 12 + i] == ranges[0].1[i] by {
                assert(here[12 + i] == all[12 + i]);
            }
        }
        assert(b.subrange(pos + 12 + n, pos + 12 + n + ranges_encoded(rest).len())
            =~= ranges_encoded(rest)) by {
            assert forall|i: int| 0 <= i < ranges_encoded(rest).len() implies b[pos + 12 + n + i]
                == ranges_encoded(rest)[i] by {
                assert(here[12 + n + i] == all[12 + n + i]);
            }
        }
        codec::lemma_num(b, pos, 8, ranges[0].0 as nat);
        codec::lemma_num(b, pos + 8, 4, n);
        assert forall|i: int| 0 <= i < rest.len() implies (#[trigger] rest[i]).1.len()
            < 0x1_0000_0000 by {
            assert(rest[i] == ranges[i + 1]);
        }
        lemma_ranges_round_trip(b, pos + 12 + n, rest);
        assert(seq![ranges[0]] + rest =~= ranges);
    } else {
        assert(ranges =~= Seq::empty());
    }
}

/// The wire form of an error message.
proof fn lemma_error_wire(message: Seq<char>)
    requires
        bytes::text(message).len() < 0x1_0000_0000,
    ensures
        ({
            let b = (MessageModel::Error { message }).encoded();
            &&& b.len() == 5 + bytes::text(message).len()
            &&& b[0] == 5
            &&& codec::num(b, 1, 4) == bytes::text(message).len()
            &&& codec::sized(b, 5, codec::num(b, 1, 4)) == bytes::text(message)
        }),
{
    broadcast use bytes::lemma_le_length;

    let data = bytes::text(message);
    let b = (MessageModel::Error { message }).encoded();
    bytes::lemma_pow256_values();
    assert(b.subrange(1, 5) =~= bytes::le(data.len(), 4));
    codec::lemma_num(b, 1, 4, data.len());
    assert(codec::sized(b, 5, data.len()) =~= data);
}

/// Every message but an error message, whose text comes from decoding bytes
/// leniently, is read back from its wire form.
pub proof fn law_message_round_trip(m: MessageModel)
    requires
        m.fits(),
    ensures
        !(m is Error) ==> MessageModel::decoded(m.encoded()) == Ok::<MessageModel, Fault>(m),
{
    broadcast use bytes::lemma_le_length;

    let b = m.encoded();
    bytes::lemma_pow256_values();
    match m {
        MessageModel::ChainState { next_seq, last_hash } => {
            assert(b.subrange(1, 9) =~= bytes::le(next_seq as nat, 8));
            codec::lemma_num(b, 1, 8, next_seq as nat);
            assert(b.subrange(9, 41) =~= last_hash);
        },
        MessageModel::Patch { seq, ranges } => {
            assert(b.subrange(1, 9) =~= bytes::le(seq as nat, 8));
            codec::lemma_num(b, 1, 8, seq as nat);
            assert(b.subrange(9, 13) =~= bytes::le(ranges.len(), 4));
            codec::lemma_num(b, 9, 4, ranges.len());
            assert(codec::sized(b, 13, ranges_encoded(ranges).len()) =~= ranges_encoded(ranges));
            lemma_ranges_round_trip(b, 13, ranges);
        },
        MessageModel::FullSync { bytes: data } => {
            assert(b.subrange(1, 9) =~= bytes::le(data.len(), 8));
            codec::lemma_num(b, 1, 8, data.len());
            assert(codec::sized(b, 9, data.len()) =~= data);
        },
        MessageModel::UpToDate => {},
        MessageModel::Error { message } => {},
    }
}

/// A number at the front reads the same whatever follows.
proof fn lemma_num_extended(b: Seq<u8>, x: Seq<u8>, offset: int, width: int)
    requires
        0 <= offset,
        0 <= width,
        offset + width <= b.len(),
    ensures
        codec::num(b + x, offset, width) == codec::num(b, offset, width),
{
    assert((b + x).subrange(offset, offset + width) =~= b.subrange(offset, offset + width));
}

proof fn lemma_ranges_extended(b: Seq<u8>, x: Seq<u8>, pos: int, count: nat)
    requires
        0 <= pos,
        ranges_at(b, pos, count) is Ok,
    ensures
        ranges_at(b + x, pos, count) == ranges_at(b, pos, count),
    decreases count,
{
    if count > 0 {
        let n = codec::num(b, pos + 8, 4);
        lemma_num_extended(b, x, pos, 8);
        lemma_num_extended(b, x, pos + 8, 4);
        assert(codec::sized(b + x, pos + 12, n) =~= codec::sized(b, pos + 12, n));
        lemma_ranges_extended(b, x, pos + 12 + n, (count - 1) as nat);
    }
}

/// Bytes behind a message are ignored: whatever decodes at all decodes to the
/// same with more bytes behind it.
pub proof fn law_trailing_bytes_are_ignored(b: Seq<u8>, x: Seq<u8>)
    requires
        MessageModel::decoded(b) is Ok,
    ensures
        MessageModel::decoded(b + x) == MessageModel::decoded(b),
{
    assert((b + x)[0] == b[0]);
    if b[0] == 1 {
        lemma_num_extended(b, x, 1, 8);
        assert((b + x).subrange(9, 41) =~= b.subrange(9, 41));
    } else if b[0] == 2 {
        lemma_num_extended(b, x, 1, 8);
        lemma_num_extended(b, x, 9, 4);
        lemma_ranges_extended(b, x, 13, codec::num(b, 9, 4));
    } else if b[0] == 3 {
        lemma_num_extended(b, x, 1, 8);
        let n = codec::num(b, 1, 8);
        assert(codec::sized(b + x, 9, n) =~= codec::sized(b, 9, n));
    } else if b[0] == 5 {
        lemma_num_extended(b, x, 1, 4);
        let n = codec::num(b, 1, 4);
        assert(codec::sized(b + x, 5, n) =~= codec::sized(b, 5, n));
    }
}

/// Ranges that are cut short are noticed.
proof fn lemma_ranges_cut(b: Seq<u8>, pos: int, ranges: Seq<(u64, Seq<u8>)>, k: int)
    requires
        0 <= pos <= k < pos + ranges_encoded(ranges).len(),
        pos + ranges_encoded(ranges).len() <= b.len(),
        b.subrange(pos, pos + ranges_encoded(ranges).len()) == ranges_encoded(ranges),
        forall|i: int|
            0 <= i < ranges.len() ==> (#[trigger] ranges[i]).1.len() < 0x1_0000_0000,
    ensures
        ranges_at(b.take(k), pos, ranges.len()) == Err::<Seq<(u64, Seq<u8>)>, Fault>(
            Fault::CorruptContainer(TRUNCATED),
        ),
    decreases ranges.len(),
{
    broadcast use bytes::lemma_le_length;

    let c = b.take(k);
    let all = ranges_encoded(ranges);
    let rest = ranges.drop_first();
    let n = ranges[0].1.len();
    let here = b.subrange(pos, pos + all.len());
    assert(all == range_encoded(ranges[0]) + ranges_encoded(rest));
    bytes::lemma_pow256_values();
    if pos + 12 <= k {
        assert(c.subrange(pos + 8, pos + 12) =~= bytes::le(n, 4)) by {
            assert forall|i: int| 0 <= i < 4 implies c[pos + 8 + i] == bytes::le(n, 4)[i] by {
                assert(here[8 + i] == all[8 + i]);
            }
        }
        codec::lemma_num(c, pos + 8, 4, n);
        if pos + 12 + n <= k {
            assert(b.subrange(pos + 12 + n, pos + 12 + n + ranges_encoded(rest).len())
                =~= ranges_encoded(rest)) by {
                assert forall|i: int| 0 <= i < ranges_encoded(rest).len() implies b[pos + 12 + n
                    + i] == ranges_encoded(rest)[i] by {
                    assert(here[12 + n + i] == all[12 + n + i]);
                }
            }
            assert forall|i: int| 0 <= i < rest.len() implies (#[trigger] rest[i]).1.len()
                < 0x1_0000_0000 by {
                assert(rest[i] == ranges[i + 1]);
            }
            lemma_ranges_cut(b, pos + 12 + n, rest, k);
        }
    }
}

/// A message that is cut short anywhere is refused, so no message starts with
/// another one.
pub proof fn law_cut_message_is_refused(m: MessageModel, k: int)
    requires
        m.fits(),
        0 <= k < m.encoded().len(),
    ensures
        MessageModel::decoded(m.encoded().take(k)) matches Err(Fault::CorruptContainer(_)),
{
    broadcast use bytes::lemma_le_length;

    let b = m.encoded();
    let c = b.take(k);
    bytes::lemma_pow256_values();
    if k > 0 {
        assert(c[0] == b[0]);
        match m {
            MessageModel::ChainState { .. } => {},
            MessageModel::Patch { seq, ranges } => {
                if k >= 13 {
                    assert(c.subrange(9, 13) =~= bytes::le(ranges.len(), 4));
                    codec::lemma_num(c, 9, 4, ranges.len());
                    assert(codec::sized(b, 13, ranges_encoded(ranges).len()) =~= ranges_encoded(
                        ranges,
                    ));
                    lemma_ranges_cut(b, 13, ranges, k);
                }
            },
            MessageModel::FullSync { bytes: data } => {
                if k >= 9 {
                    assert(c.subrange(1, 9) =~= bytes::le(data.len(), 8));
                    codec::lemma_num(c, 1, 8, data.len());
                }
            },
            MessageModel::UpToDate => {},
            MessageModel::Error { message } => {
                let data = bytes::text(message);
                if k >= 5 {
                    assert(c.subrange(1, 5) =~= bytes::le(data.len(), 4));
                    codec::lemma_num(c, 1, 4, data.len());
                }
            },
        }
    }
}

} // verus!
