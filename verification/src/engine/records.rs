//! The fixed-size records of a container: file entries, recipient slots and
//! chain records.

use vstd::prelude::*;

use super::bytes;
use super::codec::{self, Reader, Writer};
use super::crypto;
use super::error::{self, Fault, Result, VaultError};
use super::format::{
    DIRECT_BLOCKS, ENTRY_FLAG_DELETED, ENTRY_FLAG_OCCUPIED, MAX_FILENAME_LEN,
    RECIPIENT_FLAG_OCCUPIED,
};
use super::identity::{self, Identity};
use super::text;

verus! {

// ---------------------------------------------------------------------
// Lists of 64-bit numbers
// ---------------------------------------------------------------------

/// The numbers one after another, eight bytes each.
pub open spec fn le_list(s: Seq<u64>) -> Seq<u8>
    decreases s.len(),
{
    if s.len() == 0 {
        Seq::empty()
    } else {
        le_list(s.drop_last()) + bytes::le(s.last() as nat, 8)
    }
}

/// The number at position `i` stands in the eight bytes from `8 * i`.
pub proof fn lemma_le_list(s: Seq<u64>)
    ensures
        le_list(s).len() == 8 * s.len(),
        forall|i: int|
            #![trigger s[i]]
            0 <= i < s.len() ==> le_list(s).subrange(8 * i, 8 * i + 8) == bytes::le(
                s[i] as nat,
                8,
            ),
    decreases s.len(),
{
    broadcast use bytes::lemma_le_length;

    if s.len() > 0 {
        let front = s.drop_last();
        lemma_le_list(front);
        assert forall|i: int| #![trigger s[i]] 0 <= i < s.len() implies le_list(s).subrange(
            8 * i,
            8 * i + 8,
        ) == bytes::le(s[i] as nat, 8) by {
            if i < front.len() {
                assert(front[i] == s[i]);
                assert(le_list(s).subrange(8 * i, 8 * i + 8) =~= le_list(front).subrange(
                    8 * i,
                    8 * i + 8,
                ));
            } else {
                assert(le_list(s).subrange(8 * i, 8 * i + 8) =~= bytes::le(s[i] as nat, 8));
            }
        }
    }
}

// ---------------------------------------------------------------------
// File entries
// ---------------------------------------------------------------------

pub const ENTRY_SIZE: u32 = 320;

/// One slot of the file table.
#[derive(Debug, Clone)]
pub struct FileEntry {
    pub id: u128,
    pub name: String,
    pub size: u64,
    pub blocks_used: u32,
    pub direct_blocks: [u64; 8],
    /// The block that holds the first overflow index, or 0 for none.
    pub overflow_block: u64,
    pub file_hash: [u8; 32],
    pub created_at: i64,
    pub modified_at: i64,
    pub flags: u32,
}

/// The mathematical value of a [`FileEntry`].
#[verifier::ext_equal]
pub struct EntryModel {
    pub id: u128,
    pub name: Seq<char>,
    pub size: u64,
    pub blocks_used: u32,
    pub direct_blocks: Seq<u64>,
    pub overflow_block: u64,
    pub file_hash: Seq<u8>,
    pub created_at: i64,
    pub modified_at: i64,
    pub flags: u32,
}

impl View for FileEntry {
    type V = EntryModel;

    open spec fn view(&self) -> EntryModel {
        EntryModel {
            id: self.id,
            name: self.name@,
            size: self.size,
            blocks_used: self.blocks_used,
            direct_blocks: self.direct_blocks@,
            overflow_block: self.overflow_block,
            file_hash: self.file_hash@,
            created_at: self.created_at,
            modified_at: self.modified_at,
            flags: self.flags,
        }
    }
}

/// Whether flags mark a live file: occupied, and not deleted.
pub open spec fn live_flags(flags: u32) -> bool {
    flags & 1 != 0 && flags & 2 == 0
}

/// The flags that are in use.
pub proof fn lemma_live_flags()
    ensures
        live_flags(ENTRY_FLAG_OCCUPIED),
        !live_flags(ENTRY_FLAG_DELETED),
        !live_flags(0),
        granted_flags(RECIPIENT_FLAG_OCCUPIED),
        !granted_flags(0),
{
    assert(1u32 & 1 != 0 && 1u32 & 2 == 0) by (bit_vector);
    assert(2u32 & 1 == 0) by (bit_vector);
    assert(0u32 & 1 == 0) by (bit_vector);
}

impl EntryModel {
    /// The fields fit their places.
    pub open spec fn fits(self) -> bool {
        &&& bytes::text(self.name).len() <= MAX_FILENAME_LEN
        &&& self.direct_blocks.len() == DIRECT_BLOCKS
        &&& self.file_hash.len() == 32
    }

    /// Whether the slot holds a live file.
    pub open spec fn occupied(self) -> bool {
        live_flags(self.flags)
    }

    /// The stored bytes that the checksum covers.
    pub open spec fn body(self) -> Seq<u8> {
        Seq::<u8>::empty() + bytes::le(self.id as nat, 16) + bytes::le(
            bytes::text(self.name).len(),
            2,
        ) + bytes::padded(bytes::text(self.name), 128) + bytes::le(self.size as nat, 8)
            + bytes::le(self.blocks_used as nat, 4) + le_list(self.direct_blocks) + bytes::le(
            self.overflow_block as nat,
            8,
        ) + self.file_hash + bytes::le(bytes::signed_bits(self.created_at), 8) + bytes::le(
            bytes::signed_bits(self.modified_at),
            8,
        ) + bytes::le(self.flags as nat, 4)
    }

    /// The stored slot: the body, four bytes of its SHA-256 digest, and zero
    /// bytes up to the slot's size.
    pub open spec fn encoded(self) -> Seq<u8> {
        bytes::padded(self.body() + crypto::sha256_of(self.body())@.subrange(0, 4), 320)
    }

    /// The fields that stand in the stored bytes `b`.
    pub open spec fn stored(b: Seq<u8>) -> EntryModel {
        EntryModel {
            id: codec::num(b, 0, 16) as u128,
            name: vstd::utf8::decode_utf8(codec::sized(b, 18, codec::num(b, 16, 2))),
            size: codec::num(b, 146, 8) as u64,
            blocks_used: codec::num(b, 154, 4) as u32,
            direct_blocks: Seq::new(8, |i: int| codec::num(b, 158 + 8 * i, 8) as u64),
            overflow_block: codec::num(b, 222, 8) as u64,
            file_hash: b.subrange(230, 262),
            created_at: bytes::signed_of(codec::num(b, 262, 8)) as i64,
            modified_at: bytes::signed_of(codec::num(b, 270, 8)) as i64,
            flags: codec::num(b, 278, 4) as u32,
        }
    }

    /// What decoding a stored slot gives. Only the first 320 bytes count; the
    /// checks are made in this order.
    pub open spec fn decoded(b: Seq<u8>) -> core::result::Result<EntryModel, Fault> {
        if b.len() < ENTRY_SIZE {
            Err(Fault::CorruptContainer("file entry slot too short"))
        } else if codec::num(b, 16, 2) > MAX_FILENAME_LEN {
            Err(Fault::CorruptContainer("file name_len exceeds field width"))
        } else if !vstd::utf8::valid_utf8(codec::sized(b, 18, codec::num(b, 16, 2))) {
            Err(Fault::CorruptContainer("file name is not valid UTF-8"))
        } else if b.subrange(282, 286) != crypto::sha256_of(b.subrange(0, 282))@.subrange(0, 4) {
            Err(Fault::ChecksumMismatch("file entry"))
        } else {
            Ok(EntryModel::stored(b))
        }
    }

    /// The slot that was never used.
    pub open spec fn empty() -> EntryModel {
        EntryModel {
            id: 0,
            name: Seq::empty(),
            size: 0,
            blocks_used: 0,
            direct_blocks: Seq::new(8, |i: int| 0u64),
            overflow_block: 0,
            file_hash: bytes::zeros(32),
            created_at: 0,
            modified_at: 0,
            flags: 0,
        }
    }
}

pub proof fn lemma_entry_len(e: EntryModel)
    requires
        e.fits(),
    ensures
        e.body().len() == 282,
        e.encoded().len() == 320,
{
    broadcast use bytes::lemma_le_length;

    lemma_le_list(e.direct_blocks);
}

impl FileEntry {
    /// Whether the slot holds a live file.
    pub fn is_occupied(&self) -> (r: bool)
        ensures
            r == self@.occupied(),
    {
        self.flags & ENTRY_FLAG_OCCUPIED != 0 && self.flags & ENTRY_FLAG_DELETED == 0
    }

    /// The stored form of this slot.
    pub fn encode(&self) -> (r: Vec<u8>)
        requires
            self@.fits(),
        ensures
            r@ == self@.encoded(),
            r@.len() == ENTRY_SIZE,
    {
        proof {
            lemma_entry_len(self@);
            codec::lemma_padded_full(self.file_hash@);
        }
        let name = self.name.as_str().as_bytes();
        let mut w = Writer::new();
        w.put_u128(self.id);
        w.put_u16(name.len() as u16);
        w.put_fixed(name, MAX_FILENAME_LEN as u64);
        w.put_u64(self.size);
        w.put_u32(self.blocks_used);
        let ghost start = w@;
        let mut i: usize = 0;
        assert(start + le_list(self.direct_blocks@.take(0)) =~= start);
        while i < DIRECT_BLOCKS
            invariant
                i <= DIRECT_BLOCKS,
                w@ == start + le_list(self.direct_blocks@.take(i as int)),
            decreases DIRECT_BLOCKS - i,
        {
            proof {
                let d = self.direct_blocks@;
                assert(d.take(i + 1).drop_last() =~= d.take(i as int));
                assert(start + (le_list(d.take(i as int)) + bytes::le(d[i as int] as nat, 8)) =~= (
                start + le_list(d.take(i as int))) + bytes::le(d[i as int] as nat, 8));
            }
            w.put_u64(self.direct_blocks[i]);
            i = i + 1;
        }
        assert(self.direct_blocks@.take(8) =~= self.direct_blocks@);
        w.put_u64(self.overflow_block);
        w.put_fixed(self.file_hash.as_slice(), 32);
        w.put_i64(self.created_at);
        w.put_i64(self.modified_at);
        w.put_u32(self.flags);
        assert(w@ == self@.body());

        let digest = crypto::sha256(w.buf.as_slice());
        w.put_bytes(vstd::slice::slice_subrange(digest.as_slice(), 0, 4));
        w.fill(ENTRY_SIZE as u64)
    }

    /// Reads a stored slot. Only the first 320 bytes count.
    pub fn decode(buf: &[u8]) -> (r: Result<Self>)
        ensures
            error::outcome(r) == EntryModel::decoded(buf@),
            r matches Ok(e) ==> e@.fits(),
    {
        if buf.len() < ENTRY_SIZE as usize {
            return Err(VaultError::CorruptContainer("file entry slot too short"));
        }
        let mut r = Reader::new(buf);
        let id: u128 = r.take_u128();
        let name_len: usize = r.take_u16() as usize;
        let name_raw = r.take_bytes(MAX_FILENAME_LEN);
        if name_len > MAX_FILENAME_LEN {
            return Err(VaultError::CorruptContainer("file name_len exceeds field width"));
        }
        let name_bytes = bytes::to_vec(vstd::slice::slice_subrange(name_raw, 0, name_len));
        assert(name_bytes@ =~= codec::sized(buf@, 18, codec::num(buf@, 16, 2)));
        let name = match text::from_utf8(name_bytes) {
            Some(name) => name,
            None => {
                return Err(VaultError::CorruptContainer("file name is not valid UTF-8"));
            },
        };
        let size: u64 = r.take_u64();
        let blocks_used: u32 = r.take_u32();
        let mut direct_blocks = [0u64; 8];
        let mut i: usize = 0;
        while i < DIRECT_BLOCKS
            invariant
                i <= DIRECT_BLOCKS,
                r.buf@ == buf@,
                r.pos == 158 + 8 * i,
                buf@.len() >= ENTRY_SIZE,
                forall|j: int|
                    0 <= j < i ==> direct_blocks@[j] == codec::num(buf@, 158 + 8 * j, 8) as u64,
            decreases DIRECT_BLOCKS - i,
        {
            direct_blocks[i] = r.take_u64();
            i = i + 1;
        }
        let overflow_block: u64 = r.take_u64();
        let file_hash = r.take_array32();
        let created_at: i64 = r.take_i64();
        let modified_at: i64 = r.take_i64();
        let flags: u32 = r.take_u32();

        let stored_crc = r.take_bytes(4);
        let computed = crypto::sha256(vstd::slice::slice_subrange(buf, 0, 282));
        if !bytes::same_bytes(
            stored_crc,
            vstd::slice::slice_subrange(computed.as_slice(), 0, 4),
        ) {
            return Err(VaultError::ChecksumMismatch("file entry"));
        }
        let entry = FileEntry {
            id,
            name,
            size,
            blocks_used,
            direct_blocks,
            overflow_block,
            file_hash,
            created_at,
            modified_at,
            flags,
        };
        proof {
            vstd::utf8::decode_utf8_encode_utf8(codec::sized(buf@, 18, codec::num(buf@, 16, 2)));
            assert(entry@ =~= EntryModel::stored(buf@));
        }
        Ok(entry)
    }

    /// The stored form of a slot that was never used.
    pub fn empty_slot() -> (r: Vec<u8>)
        ensures
            r@ == EntryModel::empty().encoded(),
            r@.len() == ENTRY_SIZE,
    {
        let entry = FileEntry {
            id: 0,
            name: String::new(),
            size: 0,
            blocks_used: 0,
            direct_blocks: [0u64; 8],
            overflow_block: 0,
            file_hash: [0u8; 32],
            created_at: 0,
            modified_at: 0,
            flags: 0,
        };
        assert(entry@ =~= EntryModel::empty());
        entry.encode()
    }
}

/// A file entry whose fields fit is read back as it was stored.
pub proof fn law_entry_round_trip(e: EntryModel)
    requires
        e.fits(),
    ensures
        EntryModel::decoded(e.encoded()) == Ok::<EntryModel, Fault>(e),
{
    broadcast use bytes::lemma_le_length;

    let b = e.encoded();
    lemma_entry_len(e);
    lemma_le_list(e.direct_blocks);
    let nm = bytes::text(e.name);
    let p0 = Seq::<u8>::empty();
    let p1 = p0 + bytes::le(e.id as nat, 16);
    let p2 = p1 + bytes::le(nm.len(), 2);
    let p3 = p2 + bytes::padded(nm, 128);
    let p4 = p3 + bytes::le(e.size as nat, 8);
    let p5 = p4 + bytes::le(e.blocks_used as nat, 4);
    let p6 = p5 + le_list(e.direct_blocks);
    let p7 = p6 + bytes::le(e.overflow_block as nat, 8);
    let p8 = p7 + e.file_hash;
    let p9 = p8 + bytes::le(bytes::signed_bits(e.created_at), 8);
    let p10 = p9 + bytes::le(bytes::signed_bits(e.modified_at), 8);
    let p11 = p10 + bytes::le(e.flags as nat, 4);
    assert(p11 == e.body());
    let sum = crypto::sha256_of(p11)@.subrange(0, 4);
    assert(b.subrange(0, 286) =~= p11 + sum);
    bytes::lemma_field(p11, sum, b);
    bytes::lemma_field(p10, bytes::le(e.flags as nat, 4), b);
    bytes::lemma_field(p9, bytes::le(bytes::signed_bits(e.modified_at), 8), b);
    bytes::lemma_field(p8, bytes::le(bytes::signed_bits(e.created_at), 8), b);
    bytes::lemma_field(p7, e.file_hash, b);
    bytes::lemma_field(p6, bytes::le(e.overflow_block as nat, 8), b);
    bytes::lemma_field(p5, le_list(e.direct_blocks), b);
    bytes::lemma_field(p4, bytes::le(e.blocks_used as nat, 4), b);
    bytes::lemma_field(p3, bytes::le(e.size as nat, 8), b);
    bytes::lemma_field(p2, bytes::padded(nm, 128), b);
    bytes::lemma_field(p1, bytes::le(nm.len(), 2), b);
    bytes::lemma_field(p0, bytes::le(e.id as nat, 16), b);
    bytes::lemma_pow256_values();
    codec::lemma_num(b, 0, 16, e.id as nat);
    codec::lemma_num(b, 16, 2, nm.len());
    codec::lemma_num(b, 146, 8, e.size as nat);
    codec::lemma_num(b, 154, 4, e.blocks_used as nat);
    codec::lemma_num(b, 222, 8, e.overflow_block as nat);
    bytes::lemma_signed_round_trip(e.created_at);
    bytes::lemma_signed_round_trip(e.modified_at);
    codec::lemma_num(b, 262, 8, bytes::signed_bits(e.created_at));
    codec::lemma_num(b, 270, 8, bytes::signed_bits(e.modified_at));
    codec::lemma_num(b, 278, 4, e.flags as nat);
    codec::lemma_padded(b, 18, nm, 128);
    text::lemma_text_round_trip(e.name);
    let list = le_list(e.direct_blocks);
    assert forall|i: int| 0 <= i < 8 implies codec::num(b, 158 + 8 * i, 8)
        == #[trigger] e.direct_blocks[i] by {
        assert(list.subrange(8 * i, 8 * i + 8) == bytes::le(e.direct_blocks[i] as nat, 8));
        assert(b.subrange(158, 222) == list);
        assert(b.subrange(158 + 8 * i, 158 + 8 * i + 8) =~= list.subrange(8 * i, 8 * i + 8));
        codec::lemma_num(b, 158 + 8 * i, 8, e.direct_blocks[i] as nat);
    }
    assert(EntryModel::stored(b) =~= e);
}

/// The slot that was never used holds no file.
pub proof fn law_empty_entry()
    ensures
        EntryModel::decoded(EntryModel::empty().encoded()) == Ok::<EntryModel, Fault>(
            EntryModel::empty(),
        ),
        !EntryModel::empty().occupied(),
{
    lemma_empty_text();
    law_entry_round_trip(EntryModel::empty());
    lemma_live_flags();
}

proof fn lemma_empty_text()
    ensures
        bytes::text(Seq::<char>::empty()).len() == 0,
{
    assert(vstd::utf8::encode_utf8(Seq::<char>::empty()).len() == 0);
}

// ---------------------------------------------------------------------
// Recipient slots
// ---------------------------------------------------------------------

pub const RECIPIENT_SLOT_SIZE: u32 = 192;

/// One slot of the recipient keyring.
#[derive(Debug, Clone)]
pub struct RecipientSlot {
    pub signing_pubkey: [u8; 32],
    pub encryption_pubkey: [u8; 32],
    /// The content key, wrapped for `encryption_pubkey`.
    pub wrapped_dek: Vec<u8>,
    pub granted_at: i64,
    pub flags: u32,
}

/// The mathematical value of a [`RecipientSlot`].
#[verifier::ext_equal]
pub struct SlotModel {
    pub signing_pubkey: Seq<u8>,
    pub encryption_pubkey: Seq<u8>,
    pub wrapped_dek: Seq<u8>,
    pub granted_at: i64,
    pub flags: u32,
}

impl View for RecipientSlot {
    type V = SlotModel;

    open spec fn view(&self) -> SlotModel {
        SlotModel {
            signing_pubkey: self.signing_pubkey@,
            encryption_pubkey: self.encryption_pubkey@,
            wrapped_dek: self.wrapped_dek@,
            granted_at: self.granted_at,
            flags: self.flags,
        }
    }
}

/// Whether flags mark a granted recipient.
pub open spec fn granted_flags(flags: u32) -> bool {
    flags & 1 != 0
}

impl SlotModel {
    /// The fields fit their places.
    pub open spec fn fits(self) -> bool {
        &&& self.signing_pubkey.len() == 32
        &&& self.encryption_pubkey.len() == 32
        &&& self.wrapped_dek.len() <= 92
    }

    /// Whether the slot is granted.
    pub open spec fn occupied(self) -> bool {
        granted_flags(self.flags)
    }

    /// The stored bytes that the checksum covers.
    pub open spec fn body(self) -> Seq<u8> {
        Seq::<u8>::empty() + self.signing_pubkey + self.encryption_pubkey + bytes::le(
            self.wrapped_dek.len(),
            2,
        ) + bytes::padded(self.wrapped_dek, 92) + bytes::le(
            bytes::signed_bits(self.granted_at),
            8,
        ) + bytes::le(self.flags as nat, 4)
    }

    /// The stored slot: the body, four bytes of its SHA-256 digest, and zero
    /// bytes up to the slot's size.
    pub open spec fn encoded(self) -> Seq<u8> {
        bytes::padded(self.body() + crypto::sha256_of(self.body())@.subrange(0, 4), 192)
    }

    /// The fields that stand in the stored bytes `b`.
    pub open spec fn stored(b: Seq<u8>) -> SlotModel {
        SlotModel {
            signing_pubkey: b.subrange(0, 32),
            encryption_pubkey: b.subrange(32, 64),
            wrapped_dek: codec::sized(b, 66, codec::num(b, 64, 2)),
            granted_at: bytes::signed_of(codec::num(b, 158, 8)) as i64,
            flags: codec::num(b, 166, 4) as u32,
        }
    }

    /// What decoding a stored slot gives. Only the first 192 bytes count; the
    /// checks are made in this order.
    pub open spec fn decoded(b: Seq<u8>) -> core::result::Result<SlotModel, Fault> {
        if b.len() < RECIPIENT_SLOT_SIZE {
            Err(Fault::CorruptContainer("recipient slot too short"))
        } else if codec::num(b, 64, 2) > 92 {
            Err(Fault::CorruptContainer("recipient wrapped_dek_len exceeds field width"))
        } else if b.subrange(170, 174) != crypto::sha256_of(b.subrange(0, 170))@.subrange(0, 4) {
            Err(Fault::ChecksumMismatch("recipient slot"))
        } else {
            Ok(SlotModel::stored(b))
        }
    }

    /// The slot that is not granted to anyone.
    pub open spec fn empty() -> SlotModel {
        SlotModel {
            signing_pubkey: bytes::zeros(32),
            encryption_pubkey: bytes::zeros(32),
            wrapped_dek: Seq::empty(),
            granted_at: 0,
            flags: 0,
        }
    }
}

pub proof fn lemma_slot_len(s: SlotModel)
    requires
        s.fits(),
    ensures
        s.body().len() == 170,
        s.encoded().len() == 192,
{
    broadcast use bytes::lemma_le_length;

}

impl RecipientSlot {
    /// Whether the slot is granted.
    pub fn is_occupied(&self) -> (r: bool)
        ensures
            r == self@.occupied(),
    {
        self.flags & RECIPIENT_FLAG_OCCUPIED != 0
    }

    /// The stored form of this slot.
    pub fn encode(&self) -> (r: Vec<u8>)
        requires
            self@.fits(),
        ensures
            r@ == self@.encoded(),
            r@.len() == RECIPIENT_SLOT_SIZE,
    {
        proof {
            lemma_slot_len(self@);
            codec::lemma_padded_full(self.signing_pubkey@);
            codec::lemma_padded_full(self.encryption_pubkey@);
        }
        let mut w = Writer::new();
        w.put_fixed(self.signing_pubkey.as_slice(), 32);
        w.put_fixed(self.encryption_pubkey.as_slice(), 32);
        w.put_u16(self.wrapped_dek.len() as u16);
        w.put_fixed(self.wrapped_dek.as_slice(), 92);
        w.put_i64(self.granted_at);
        w.put_u32(self.flags);
        assert(w@ == self@.body());

        let digest = crypto::sha256(w.buf.as_slice());
        w.put_bytes(vstd::slice::slice_subrange(digest.as_slice(), 0, 4));
        w.fill(RECIPIENT_SLOT_SIZE as u64)
    }

    /// Reads a stored slot. Only the first 192 bytes count.
    pub fn decode(buf: &[u8]) -> (r: Result<Self>)
        ensures
            error::outcome(r) == SlotModel::decoded(buf@),
            r matches Ok(s) ==> s@.fits(),
    {
        if buf.len() < RECIPIENT_SLOT_SIZE as usize {
            return Err(VaultError::CorruptContainer("recipient slot too short"));
        }
        let mut r = Reader::new(buf);
        let signing_pubkey = r.take_array32();
        let encryption_pubkey = r.take_array32();
        let wrapped_len: usize = r.take_u16() as usize;
        let wrapped_raw = r.take_bytes(92);
        if wrapped_len > 92 {
            return Err(
                VaultError::CorruptContainer("recipient wrapped_dek_len exceeds field width"),
            );
        }
        let wrapped_dek = bytes::to_vec(vstd::slice::slice_subrange(wrapped_raw, 0, wrapped_len));
        assert(wrapped_dek@ =~= codec::sized(buf@, 66, codec::num(buf@, 64, 2)));
        let granted_at: i64 = r.take_i64();
        let flags: u32 = r.take_u32();

        let stored_crc = r.take_bytes(4);
        let computed = crypto::sha256(vstd::slice::slice_subrange(buf, 0, 170));
        if !bytes::same_bytes(
            stored_crc,
            vstd::slice::slice_subrange(computed.as_slice(), 0, 4),
        ) {
            return Err(VaultError::ChecksumMismatch("recipient slot"));
        }
        let slot = RecipientSlot {
            signing_pubkey,
            encryption_pubkey,
            wrapped_dek,
            granted_at,
            flags,
        };
        assert(slot@ =~= SlotModel::stored(buf@));
        Ok(slot)
    }

    /// A slot that is not granted to anyone.
    pub fn empty() -> (r: Self)
        ensures
            r@ == SlotModel::empty(),
            r@.fits(),
    {
        let slot = RecipientSlot {
            signing_pubkey: [0u8; 32],
            encryption_pubkey: [0u8; 32],
            wrapped_dek: Vec::new(),
            granted_at: 0,
            flags: 0,
        };
        assert(slot@ =~= SlotModel::empty());
        slot
    }

    /// The stored form of a slot that is not granted to anyone.
    pub fn empty_slot() -> (r: Vec<u8>)
        ensures
            r@ == SlotModel::empty().encoded(),
            r@.len() == RECIPIENT_SLOT_SIZE,
    {
        RecipientSlot::empty().encode()
    }
}

/// A recipient slot whose fields fit is read back as it was stored.
pub proof fn law_slot_round_trip(s: SlotModel)
    requires
        s.fits(),
    ensures
        SlotModel::decoded(s.encoded()) == Ok::<SlotModel, Fault>(s),
{
    broadcast use bytes::lemma_le_length;

    let b = s.encoded();
    lemma_slot_len(s);
    let p0 = Seq::<u8>::empty();
    let p1 = p0 + s.signing_pubkey;
    let p2 = p1 + s.encryption_pubkey;
    let p3 = p2 + bytes::le(s.wrapped_dek.len(), 2);
    let p4 = p3 + bytes::padded(s.wrapped_dek, 92);
    let p5 = p4 + bytes::le(bytes::signed_bits(s.granted_at), 8);
    let p6 = p5 + bytes::le(s.flags as nat, 4);
    assert(p6 == s.body());
    let sum = crypto::sha256_of(p6)@.subrange(0, 4);
    assert(b.subrange(0, 174) =~= p6 + sum);
    bytes::lemma_field(p6, sum, b);
    bytes::lemma_field(p5, bytes::le(s.flags as nat, 4), b);
    bytes::lemma_field(p4, bytes::le(bytes::signed_bits(s.granted_at), 8), b);
    bytes::lemma_field(p3, bytes::padded(s.wrapped_dek, 92), b);
    bytes::lemma_field(p2, bytes::le(s.wrapped_dek.len(), 2), b);
    bytes::lemma_field(p1, s.encryption_pubkey, b);
    bytes::lemma_field(p0, s.signing_pubkey, b);
    bytes::lemma_pow256_values();
    codec::lemma_num(b, 64, 2, s.wrapped_dek.len());
    bytes::lemma_signed_round_trip(s.granted_at);
    codec::lemma_num(b, 158, 8, bytes::signed_bits(s.granted_at));
    codec::lemma_num(b, 166, 4, s.flags as nat);
    codec::lemma_padded(b, 66, s.wrapped_dek, 92);
    assert(SlotModel::stored(b) =~= s);
}

/// The slot that is not granted to anyone reads as such.
pub proof fn law_empty_slot()
    ensures
        SlotModel::decoded(SlotModel::empty().encoded()) == Ok::<SlotModel, Fault>(
            SlotModel::empty(),
        ),
        !SlotModel::empty().occupied(),
{
    law_slot_round_trip(SlotModel::empty());
    lemma_live_flags();
}

// ---------------------------------------------------------------------
// Chain records
// ---------------------------------------------------------------------

pub const CHAIN_RECORD_SIZE: u32 = 224;

/// What a chain record tells.
#[derive(Debug, Clone, Copy, PartialEq, Eq, Structural)]
pub enum ChainOp {
    VaultCreated,
    FileAdded,
    FileUpdated,
    FileDeleted,
    /// A peer was granted access.
    AccessGranted,
    /// A peer was revoked, and the content key replaced.
    KeyRotated,
}

impl ChainOp {
    /// The stored number of an operation.
    pub open spec fn number(self) -> u8 {
        match self {
            ChainOp::VaultCreated => 1,
            ChainOp::FileAdded => 2,
            ChainOp::FileUpdated => 3,
            ChainOp::FileDeleted => 4,
            ChainOp::AccessGranted => 5,
            ChainOp::KeyRotated => 6,
        }
    }

    /// The stored number of this operation.
    pub fn code(self) -> (r: u8)
        ensures
            r == self.number(),
    {
        match self {
            ChainOp::VaultCreated => 1,
            ChainOp::FileAdded => 2,
            ChainOp::FileUpdated => 3,
            ChainOp::FileDeleted => 4,
            ChainOp::AccessGranted => 5,
            ChainOp::KeyRotated => 6,
        }
    }

    /// The operation with the stored number `v`.
    pub fn from_u8(v: u8) -> (r: Result<Self>)
        ensures
            match r {
                Ok(op) => op.number() == v,
                Err(e) => (v < 1 || v > 6) && e@ == Fault::CorruptContainer(
                    "unknown chain op code",
                ),
            },
    {
        match v {
            1 => Ok(ChainOp::VaultCreated),
            2 => Ok(ChainOp::FileAdded),
            3 => Ok(ChainOp::FileUpdated),
            4 => Ok(ChainOp::FileDeleted),
            5 => Ok(ChainOp::AccessGranted),
            6 => Ok(ChainOp::KeyRotated),
            _ => Err(VaultError::CorruptContainer("unknown chain op code")),
        }
    }
}

/// One record of the admin-signed integrity chain.
#[derive(Debug, Clone)]
pub struct ChainRecord {
    pub seq: u64,
    pub prev_hash: [u8; 32],
    pub op: ChainOp,
    pub target_id: u128,
    pub data_hash: [u8; 32],
    pub timestamp: i64,
    pub record_hash: [u8; 32],
    /// The admin's signature over `record_hash`.
    pub signature: [u8; 64],
}

/// The mathematical value of a [`ChainRecord`].
#[verifier::ext_equal]
pub struct RecordModel {
    pub seq: u64,
    pub prev_hash: Seq<u8>,
    pub op: ChainOp,
    pub target_id: u128,
    pub data_hash: Seq<u8>,
    pub timestamp: i64,
    pub record_hash: Seq<u8>,
    pub signature: Seq<u8>,
}

impl View for ChainRecord {
    type V = RecordModel;

    open spec fn view(&self) -> RecordModel {
        RecordModel {
            seq: self.seq,
            prev_hash: self.prev_hash@,
            op: self.op,
            target_id: self.target_id,
            data_hash: self.data_hash@,
            timestamp: self.timestamp,
            record_hash: self.record_hash@,
            signature: self.signature@,
        }
    }
}

/// The hash that a record of these contents carries.
pub open spec fn record_hash_of(
    seq: u64,
    prev_hash: Seq<u8>,
    op: ChainOp,
    target_id: u128,
    data_hash: Seq<u8>,
    timestamp: i64,
) -> Seq<u8> {
    crypto::sha256_of(
        bytes::le(seq as nat, 8) + prev_hash + seq![op.number()] + bytes::le(target_id as nat, 16)
            + data_hash + bytes::le(bytes::signed_bits(timestamp), 8),
    )@
}

impl RecordModel {
    /// The fields fit their places.
    pub open spec fn fits(self) -> bool {
        &&& self.prev_hash.len() == 32
        &&& self.data_hash.len() == 32
        &&& self.record_hash.len() == 32
        &&& self.signature.len() == 64
    }

    /// The record's hash is that of its contents.
    pub open spec fn self_consistent(self) -> bool {
        self.record_hash == record_hash_of(
            self.seq,
            self.prev_hash,
            self.op,
            self.target_id,
            self.data_hash,
            self.timestamp,
        )
    }

    /// The record with these contents, hashed and signed.
    pub open spec fn signed(
        seq: u64,
        prev_hash: Seq<u8>,
        op: ChainOp,
        target_id: u128,
        data_hash: Seq<u8>,
        timestamp: i64,
        signer: identity::Keys,
    ) -> RecordModel {
        let record_hash = record_hash_of(seq, prev_hash, op, target_id, data_hash, timestamp);
        RecordModel {
            seq,
            prev_hash,
            op,
            target_id,
            data_hash,
            timestamp,
            record_hash,
            signature: identity::ed25519_signature_of(signer.signing, record_hash)@,
        }
    }

    /// The stored fields and the marker that tells a record from a free slot.
    pub open spec fn body(self) -> Seq<u8> {
        Seq::<u8>::empty() + bytes::le(self.seq as nat, 8) + self.prev_hash + seq![
            self.op.number(),
        ] + bytes::le(self.target_id as nat, 16) + self.data_hash + bytes::le(
            bytes::signed_bits(self.timestamp),
            8,
        ) + self.record_hash + self.signature + seq![1u8]
    }

    /// The stored record.
    pub open spec fn encoded(self) -> Seq<u8> {
        bytes::padded(self.body(), 224)
    }

    /// The operation with the stored number `v`.
    pub open spec fn op_of(v: u8) -> ChainOp {
        match v {
            1 => ChainOp::VaultCreated,
            2 => ChainOp::FileAdded,
            3 => ChainOp::FileUpdated,
            4 => ChainOp::FileDeleted,
            5 => ChainOp::AccessGranted,
            _ => ChainOp::KeyRotated,
        }
    }

    /// The fields that stand in the stored bytes `b`.
    pub open spec fn stored(b: Seq<u8>) -> RecordModel {
        RecordModel {
            seq: codec::num(b, 0, 8) as u64,
            prev_hash: b.subrange(8, 40),
            op: RecordModel::op_of(b[40]),
            target_id: codec::num(b, 41, 16) as u128,
            data_hash: b.subrange(57, 89),
            timestamp: bytes::signed_of(codec::num(b, 89, 8)) as i64,
            record_hash: b.subrange(97, 129),
            signature: b.subrange(129, 193),
        }
    }

    /// What decoding a stored slot gives: nothing for a free slot.
    pub open spec fn decoded(b: Seq<u8>) -> core::result::Result<Option<RecordModel>, Fault> {
        if b.len() < CHAIN_RECORD_SIZE {
            Err(Fault::CorruptContainer("chain record slot too short"))
        } else if b[193] == 0 {
            Ok(None)
        } else if b[40] < 1 || b[40] > 6 {
            Err(Fault::CorruptContainer("unknown chain op code"))
        } else {
            Ok(Some(RecordModel::stored(b)))
        }
    }
}

pub proof fn lemma_record_len(c: RecordModel)
    requires
        c.fits(),
    ensures
        c.body().len() == 194,
        c.encoded().len() == 224,
{
    broadcast use bytes::lemma_le_length;

}

impl ChainRecord {
    /// The hash that a record of these contents carries.
    pub fn compute_hash(
        seq: u64,
        prev_hash: &[u8; 32],
        op: ChainOp,
        target_id: u128,
        data_hash: &[u8; 32],
        timestamp: i64,
    ) -> (r: [u8; 32])
        ensures
            r@ == record_hash_of(seq, prev_hash@, op, target_id, data_hash@, timestamp),
    {
        let mut w = Writer::new();
        w.put_u64(seq);
        w.put_bytes(prev_hash.as_slice());
        w.put_u8(op.code());
        w.put_u128(target_id);
        w.put_bytes(data_hash.as_slice());
        w.put_i64(timestamp);
        assert(Seq::<u8>::empty() + bytes::le(seq as nat, 8) =~= bytes::le(seq as nat, 8));
        crypto::sha256(w.buf.as_slice())
    }

    /// A new record, hashed and signed by `signer`.
    pub fn new_signed(
        seq: u64,
        prev_hash: [u8; 32],
        op: ChainOp,
        target_id: u128,
        data_hash: [u8; 32],
        timestamp: i64,
        signer: &Identity,
    ) -> (r: Self)
        ensures
            r@ == RecordModel::signed(
                seq,
                prev_hash@,
                op,
                target_id,
                data_hash@,
                timestamp,
                signer@,
            ),
            r@.fits(),
            r@.self_consistent(),
            identity::signature_check(
                signer@.signing_public(),
                r@.record_hash,
                r@.signature,
            ) is Ok,
    {
        let record_hash = Self::compute_hash(
            seq,
            &prev_hash,
            op,
            target_id,
            &data_hash,
            timestamp,
        );
        let signature = signer.sign(record_hash.as_slice());
        ChainRecord {
            seq,
            prev_hash,
            op,
            target_id,
            data_hash,
            timestamp,
            record_hash,
            signature,
        }
    }

    /// Whether the record's hash is that of its contents.
    pub fn verify_self(&self) -> (r: bool)
        ensures
            r == self@.self_consistent(),
    {
        let expected = Self::compute_hash(
            self.seq,
            &self.prev_hash,
            self.op,
            self.target_id,
            &self.data_hash,
            self.timestamp,
        );
        bytes::same_bytes(self.record_hash.as_slice(), expected.as_slice())
    }

    /// Checks the admin's signature over this record's hash.
    pub fn verify_signature(&self, admin_signing_pubkey: &[u8; 32]) -> (r: Result<()>)
        ensures
            error::outcome(r) == identity::signature_check(
                admin_signing_pubkey@,
                self@.record_hash,
                self@.signature,
            ),
    {
        identity::verify_signature(
            admin_signing_pubkey,
            self.record_hash.as_slice(),
            &self.signature,
        )
    }

    /// The stored form of this record.
    pub fn encode(&self) -> (r: Vec<u8>)
        ensures
            r@ == self@.encoded(),
            r@.len() == CHAIN_RECORD_SIZE,
    {
        proof {
            lemma_record_len(self@);
            codec::lemma_padded_full(self.prev_hash@);
            codec::lemma_padded_full(self.data_hash@);
            codec::lemma_padded_full(self.record_hash@);
            codec::lemma_padded_full(self.signature@);
        }
        let mut w = Writer::new();
        w.put_u64(self.seq);
        w.put_fixed(self.prev_hash.as_slice(), 32);
        w.put_u8(self.op.code());
        w.put_u128(self.target_id);
        w.put_fixed(self.data_hash.as_slice(), 32);
        w.put_i64(self.timestamp);
        w.put_fixed(self.record_hash.as_slice(), 32);
        w.put_fixed(self.signature.as_slice(), 64);
        w.put_u8(1);
        assert(w@ == self@.body());
        w.fill(CHAIN_RECORD_SIZE as u64)
    }

    /// Reads a stored slot: nothing for a free slot.
    pub fn decode(buf: &[u8]) -> (r: Result<Option<Self>>)
        ensures
            match r {
                Ok(Some(c)) => RecordModel::decoded(buf@) == Ok::<Option<RecordModel>, Fault>(
                    Some(c@),
                ) && c@.fits(),
                Ok(None) => RecordModel::decoded(buf@) == Ok::<Option<RecordModel>, Fault>(None),
                Err(e) => RecordModel::decoded(buf@) == Err::<Option<RecordModel>, Fault>(e@),
            },
    {
        if buf.len() < CHAIN_RECORD_SIZE as usize {
            return Err(VaultError::CorruptContainer("chain record slot too short"));
        }
        let mut r = Reader::new(buf);
        let seq: u64 = r.take_u64();
        let prev_hash = r.take_array32();
        let op_byte: u8 = r.take_u8();
        let target_id: u128 = r.take_u128();
        let data_hash = r.take_array32();
        let timestamp: i64 = r.take_i64();
        let record_hash = r.take_array32();
        let signature = r.take_array64();
        let occupied: u8 = r.take_u8();
        if occupied == 0 {
            return Ok(None);
        }
        let op = match ChainOp::from_u8(op_byte) {
            Ok(op) => op,
            Err(e) => {
                return Err(e);
            },
        };
        let rec = ChainRecord {
            seq,
            prev_hash,
            op,
            target_id,
            data_hash,
            timestamp,
            record_hash,
            signature,
        };
        assert(rec@ =~= RecordModel::stored(buf@));
        Ok(Some(rec))
    }
}

/// A chain record is read back as it was stored.
pub proof fn law_record_round_trip(c: RecordModel)
    requires
        c.fits(),
    ensures
        RecordModel::decoded(c.encoded()) == Ok::<Option<RecordModel>, Fault>(Some(c)),
{
    broadcast use bytes::lemma_le_length;

    let b = c.encoded();
    lemma_record_len(c);
    let p0 = Seq::<u8>::empty();
    let p1 = p0 + bytes::le(c.seq as nat, 8);
    let p2 = p1 + c.prev_hash;
    let p3 = p2 + seq![c.op.number()];
    let p4 = p3 + bytes::le(c.target_id as nat, 16);
    let p5 = p4 + c.data_hash;
    let p6 = p5 + bytes::le(bytes::signed_bits(c.timestamp), 8);
    let p7 = p6 + c.record_hash;
    let p8 = p7 + c.signature;
    let p9 = p8 + seq![1u8];
    assert(p9 == c.body());
    assert(b.subrange(0, 194) =~= p9);
    bytes::lemma_field(p8, seq![1u8], b);
    bytes::lemma_field(p7, c.signature, b);
    bytes::lemma_field(p6, c.record_hash, b);
    bytes::lemma_field(p5, bytes::le(bytes::signed_bits(c.timestamp), 8), b);
    bytes::lemma_field(p4, c.data_hash, b);
    bytes::lemma_field(p3, bytes::le(c.target_id as nat, 16), b);
    bytes::lemma_field(p2, seq![c.op.number()], b);
    bytes::lemma_field(p1, c.prev_hash, b);
    bytes::lemma_field(p0, bytes::le(c.seq as nat, 8), b);
    assert(b[193] == b.subrange(193, 194)[0]);
    assert(b[40] == b.subrange(40, 41)[0]);
    bytes::lemma_pow256_values();
    codec::lemma_num(b, 0, 8, c.seq as nat);
    codec::lemma_num(b, 41, 16, c.target_id as nat);
    bytes::lemma_signed_round_trip(c.timestamp);
    codec::lemma_num(b, 89, 8, bytes::signed_bits(c.timestamp));
    assert(RecordModel::stored(b) =~= c);
}

/// A slot of zero bytes holds no record.
pub proof fn law_empty_record()
    ensures
        RecordModel::decoded(bytes::zeros(224)) == Ok::<Option<RecordModel>, Fault>(None),
{
}

} // verus!
