//! The `.rvlt` container header.
//!
//! All multi-byte integers are little-endian. A container is laid out as
//!
//! ```text
//! [0, HEADER_SIZE)                        header
//! [bitmap_offset, +bitmap_len)            block allocation bitmap
//! [file_table_offset, +file_table_len)    fixed array of file entries
//! [recipient_offset, +recipient_len)      fixed array of recipient slots
//! [chain_offset, +chain_len)              fixed array of chain records
//! [data_offset, +block_count*block_size)  data blocks
//! ```
//!
//! Everything a vault needs to reopen and operate is inside this single file.

use vstd::prelude::*;

use super::allocator::{self, BlockAllocator};
use super::bytes;
use super::codec::{self, Reader, Writer};
use super::crypto;
use super::error::{self, Fault, Result, VaultError};
use super::text;

verus! {

/// "RVLT0001".
pub const MAGIC: [u8; 8] = [82, 86, 76, 84, 48, 48, 48, 49];

pub const FORMAT_VERSION: u32 = 2;

pub const MIN_SUPPORTED_VERSION: u32 = 2;

pub const MAX_SUPPORTED_VERSION: u32 = 2;

pub const HEADER_SIZE: u64 = 1024;

pub const DEFAULT_BLOCK_SIZE: u32 = 4096;

pub const MAX_NAME_LEN: usize = 128;

pub const MAX_DESC_LEN: usize = 256;

pub const MAX_FILENAME_LEN: usize = 128;

pub const DIRECT_BLOCKS: usize = 8;

/// Room for the admin's wrapped content key: nonce, key and tag, padded.
pub const ADMIN_KEY_SLOT_LEN: usize = 64;

/// The fixed size of the recipient keyring.
pub const MAX_RECIPIENTS: u32 = 16;

pub const ENTRY_FLAG_OCCUPIED: u32 = 1;

pub const ENTRY_FLAG_DELETED: u32 = 2;

pub const RECIPIENT_FLAG_OCCUPIED: u32 = 1;

/// A vault's header.
#[derive(Debug, Clone)]
pub struct Header {
    pub version: u32,
    pub flags: u32,
    pub block_size: u32,
    pub block_count: u64,
    pub capacity_bytes: u64,
    pub name: String,
    pub description: String,
    pub created_at: i64,
    pub salt: [u8; 16],
    pub argon2_m_cost_kib: u32,
    pub argon2_t_cost: u32,
    pub argon2_p_cost: u32,
    /// The content key, sealed under the key that the password gives.
    pub admin_key_slot: Vec<u8>,
    /// The admin's public signing key; every chain record is signed by it.
    pub admin_signing_pubkey: [u8; 32],
    pub admin_encryption_pubkey: [u8; 32],
    pub bitmap_offset: u64,
    pub bitmap_len: u64,
    pub file_table_offset: u64,
    pub file_table_len: u64,
    pub max_files: u32,
    pub entry_size: u32,
    pub recipient_offset: u64,
    pub recipient_len: u64,
    pub max_recipients: u32,
    pub recipient_slot_size: u32,
    pub chain_offset: u64,
    pub chain_len: u64,
    pub max_chain_records: u32,
    pub chain_record_size: u32,
    pub chain_next_seq: u64,
    pub chain_last_hash: [u8; 32],
    pub data_offset: u64,
}

/// The mathematical value of a [`Header`].
#[verifier::ext_equal]
pub struct HeaderModel {
    pub version: u32,
    pub flags: u32,
    pub block_size: u32,
    pub block_count: u64,
    pub capacity_bytes: u64,
    pub name: Seq<char>,
    pub description: Seq<char>,
    pub created_at: i64,
    pub salt: Seq<u8>,
    pub argon2_m_cost_kib: u32,
    pub argon2_t_cost: u32,
    pub argon2_p_cost: u32,
    pub admin_key_slot: Seq<u8>,
    pub admin_signing_pubkey: Seq<u8>,
    pub admin_encryption_pubkey: Seq<u8>,
    pub bitmap_offset: u64,
    pub bitmap_len: u64,
    pub file_table_offset: u64,
    pub file_table_len: u64,
    pub max_files: u32,
    pub entry_size: u32,
    pub recipient_offset: u64,
    pub recipient_len: u64,
    pub max_recipients: u32,
    pub recipient_slot_size: u32,
    pub chain_offset: u64,
    pub chain_len: u64,
    pub max_chain_records: u32,
    pub chain_record_size: u32,
    pub chain_next_seq: u64,
    pub chain_last_hash: Seq<u8>,
    pub data_offset: u64,
}

impl View for Header {
    type V = HeaderModel;

    open spec fn view(&self) -> HeaderModel {
        HeaderModel {
            version: self.version,
            flags: self.flags,
            block_size: self.block_size,
            block_count: self.block_count,
            capacity_bytes: self.capacity_bytes,
            name: self.name@,
            description: self.description@,
            created_at: self.created_at,
            salt: self.salt@,
            argon2_m_cost_kib: self.argon2_m_cost_kib,
            argon2_t_cost: self.argon2_t_cost,
            argon2_p_cost: self.argon2_p_cost,
            admin_key_slot: self.admin_key_slot@,
            admin_signing_pubkey: self.admin_signing_pubkey@,
            admin_encryption_pubkey: self.admin_encryption_pubkey@,
            bitmap_offset: self.bitmap_offset,
            bitmap_len: self.bitmap_len,
            file_table_offset: self.file_table_offset,
            file_table_len: self.file_table_len,
            max_files: self.max_files,
            entry_size: self.entry_size,
            recipient_offset: self.recipient_offset,
            recipient_len: self.recipient_len,
            max_recipients: self.max_recipients,
            recipient_slot_size: self.recipient_slot_size,
            chain_offset: self.chain_offset,
            chain_len: self.chain_len,
            max_chain_records: self.max_chain_records,
            chain_record_size: self.chain_record_size,
            chain_next_seq: self.chain_next_seq,
            chain_last_hash: self.chain_last_hash@,
            data_offset: self.data_offset,
        }
    }
}

impl HeaderModel {
    /// The variable-length fields fit their places.
    pub open spec fn fits(self) -> bool {
        &&& bytes::text(self.name).len() <= MAX_NAME_LEN
        &&& bytes::text(self.description).len() <= MAX_DESC_LEN
        &&& self.admin_key_slot.len() <= ADMIN_KEY_SLOT_LEN
        &&& self.salt.len() == 16
        &&& self.admin_signing_pubkey.len() == 32
        &&& self.admin_encryption_pubkey.len() == 32
        &&& self.chain_last_hash.len() == 32
    }

    /// The stored bytes that the checksum covers.
    pub open spec fn body(self) -> Seq<u8> {
        Seq::<u8>::empty() + MAGIC@ + bytes::le(self.version as nat, 4) + bytes::le(
            self.flags as nat,
            4,
        ) + bytes::le(self.block_size as nat, 4) + bytes::le(self.block_count as nat, 8)
            + bytes::le(self.capacity_bytes as nat, 8) + bytes::le(
            bytes::text(self.name).len(),
            2,
        ) + bytes::padded(bytes::text(self.name), 128) + bytes::le(
            bytes::text(self.description).len(),
            2,
        ) + bytes::padded(bytes::text(self.description), 256) + bytes::le(
            bytes::signed_bits(self.created_at),
            8,
        ) + self.salt + bytes::le(self.argon2_m_cost_kib as nat, 4) + bytes::le(
            self.argon2_t_cost as nat,
            4,
        ) + bytes::le(self.argon2_p_cost as nat, 4) + bytes::le(self.admin_key_slot.len(), 2)
            + bytes::padded(self.admin_key_slot, 64) + self.admin_signing_pubkey
            + self.admin_encryption_pubkey + bytes::le(self.bitmap_offset as nat, 8) + bytes::le(
            self.bitmap_len as nat,
            8,
        ) + bytes::le(self.file_table_offset as nat, 8) + bytes::le(self.file_table_len as nat, 8)
            + bytes::le(self.max_files as nat, 4) + bytes::le(self.entry_size as nat, 4)
            + bytes::le(self.recipient_offset as nat, 8) + bytes::le(self.recipient_len as nat, 8)
            + bytes::le(self.max_recipients as nat, 4) + bytes::le(
            self.recipient_slot_size as nat,
            4,
        ) + bytes::le(self.chain_offset as nat, 8) + bytes::le(self.chain_len as nat, 8)
            + bytes::le(self.max_chain_records as nat, 4) + bytes::le(
            self.chain_record_size as nat,
            4,
        ) + bytes::le(self.chain_next_seq as nat, 8) + self.chain_last_hash + bytes::le(
            self.data_offset as nat,
            8,
        )
    }

    /// The stored header: the body, its SHA-256 digest, and zero bytes up to
    /// the header's size.
    #[verifier::opaque]
    pub open spec fn encoded(self) -> Seq<u8> {
        bytes::padded(self.body() + crypto::sha256_of(self.body())@, 1024)
    }

    /// The fields that stand in the stored bytes `b`.
    pub open spec fn stored(b: Seq<u8>) -> HeaderModel {
        HeaderModel {
            version: codec::num(b, 8, 4) as u32,
            flags: codec::num(b, 12, 4) as u32,
            block_size: codec::num(b, 16, 4) as u32,
            block_count: codec::num(b, 20, 8) as u64,
            capacity_bytes: codec::num(b, 28, 8) as u64,
            name: vstd::utf8::decode_utf8(codec::sized(b, 38, codec::num(b, 36, 2))),
            description: vstd::utf8::decode_utf8(codec::sized(b, 168, codec::num(b, 166, 2))),
            created_at: bytes::signed_of(codec::num(b, 424, 8)) as i64,
            salt: b.subrange(432, 448),
            argon2_m_cost_kib: codec::num(b, 448, 4) as u32,
            argon2_t_cost: codec::num(b, 452, 4) as u32,
            argon2_p_cost: codec::num(b, 456, 4) as u32,
            admin_key_slot: codec::sized(b, 462, codec::num(b, 460, 2)),
            admin_signing_pubkey: b.subrange(526, 558),
            admin_encryption_pubkey: b.subrange(558, 590),
            bitmap_offset: codec::num(b, 590, 8) as u64,
            bitmap_len: codec::num(b, 598, 8) as u64,
            file_table_offset: codec::num(b, 606, 8) as u64,
            file_table_len: codec::num(b, 614, 8) as u64,
            max_files: codec::num(b, 622, 4) as u32,
            entry_size: codec::num(b, 626, 4) as u32,
            recipient_offset: codec::num(b, 630, 8) as u64,
            recipient_len: codec::num(b, 638, 8) as u64,
            max_recipients: codec::num(b, 646, 4) as u32,
            recipient_slot_size: codec::num(b, 650, 4) as u32,
            chain_offset: codec::num(b, 654, 8) as u64,
            chain_len: codec::num(b, 662, 8) as u64,
            max_chain_records: codec::num(b, 670, 4) as u32,
            chain_record_size: codec::num(b, 674, 4) as u32,
            chain_next_seq: codec::num(b, 678, 8) as u64,
            chain_last_hash: b.subrange(686, 718),
            data_offset: codec::num(b, 718, 8) as u64,
        }
    }

    /// There are as many blocks as fit into the capacity.
    #[verifier::opaque]
    pub open spec fn fills_capacity(self) -> bool {
        self.capacity_bytes as int / self.block_size as int == self.block_count
    }

    /// Why the regions that the header describes cannot be right, if they
    /// cannot: blocks of no size, blocks that do not make up the capacity, or
    /// regions out of order.
    pub open spec fn layout_fault(self) -> Option<Fault> {
        if self.block_size == 0 || self.block_count == 0 {
            Some(Fault::CorruptContainer("block_size/block_count is zero"))
        } else if self.block_count * self.block_size > u64::MAX {
            Some(Fault::CorruptContainer("block_count * block_size overflows u64"))
        } else if !self.fills_capacity() {
            Some(
                Fault::CorruptContainer(
                    "block_size/block_count does not agree with capacity_bytes",
                ),
            )
        } else if self.bitmap_offset < HEADER_SIZE {
            Some(Fault::CorruptContainer("bitmap_offset overlaps header"))
        } else if self.file_table_offset < self.bitmap_offset + self.bitmap_len {
            Some(Fault::CorruptContainer("file_table_offset overlaps bitmap"))
        } else if self.recipient_offset < self.file_table_offset + self.file_table_len {
            Some(Fault::CorruptContainer("recipient_offset overlaps file table"))
        } else if self.chain_offset < self.recipient_offset + self.recipient_len {
            Some(Fault::CorruptContainer("chain_offset overlaps recipient keyring"))
        } else if self.data_offset < self.chain_offset + self.chain_len {
            Some(Fault::CorruptContainer("data_offset overlaps chain region"))
        } else {
            None
        }
    }

    /// Why the regions cannot hold what the header counts in them, if they
    /// cannot: a region that is shorter than its records together.
    pub open spec fn counts_fault(self) -> Option<Fault> {
        if allocator::bitmap_bytes(self.block_count as nat) > self.bitmap_len {
            Some(Fault::CorruptContainer("bitmap is too short for block_count"))
        } else if self.max_files * self.entry_size > self.file_table_len {
            Some(Fault::CorruptContainer("file table is too short for max_files"))
        } else if self.max_recipients * self.recipient_slot_size > self.recipient_len {
            Some(Fault::CorruptContainer("recipient keyring is too short for max_recipients"))
        } else if self.max_chain_records * self.chain_record_size > self.chain_len {
            Some(Fault::CorruptContainer("chain region is too short for max_chain_records"))
        } else {
            None
        }
    }

    /// The length of the whole container.
    pub open spec fn total_size(self) -> int {
        self.data_offset + self.block_count * self.block_size
    }

    /// What decoding stored bytes gives. Only the first 1024 bytes count; the
    /// checks are made in this order.
    #[verifier::opaque]
    pub open spec fn decoded(b: Seq<u8>) -> core::result::Result<HeaderModel, Fault> {
        if b.len() < HEADER_SIZE {
            Err(Fault::CorruptContainer("file too short to contain a header"))
        } else if b.subrange(0, 8) != MAGIC@ {
            Err(Fault::NotARvltFile)
        } else if codec::num(b, 8, 4) < MIN_SUPPORTED_VERSION || codec::num(b, 8, 4)
            > MAX_SUPPORTED_VERSION {
            Err(
                Fault::UnsupportedVersion {
                    found: codec::num(b, 8, 4) as u32,
                    min: MIN_SUPPORTED_VERSION,
                    max: MAX_SUPPORTED_VERSION,
                },
            )
        } else if codec::num(b, 36, 2) > MAX_NAME_LEN {
            Err(Fault::CorruptContainer("name_len exceeds field width"))
        } else if !vstd::utf8::valid_utf8(codec::sized(b, 38, codec::num(b, 36, 2))) {
            Err(Fault::CorruptContainer("vault name is not valid UTF-8"))
        } else if codec::num(b, 166, 2) > MAX_DESC_LEN {
            Err(Fault::CorruptContainer("desc_len exceeds field width"))
        } else if !vstd::utf8::valid_utf8(codec::sized(b, 168, codec::num(b, 166, 2))) {
            Err(Fault::CorruptContainer("vault description is not valid UTF-8"))
        } else if codec::num(b, 460, 2) > ADMIN_KEY_SLOT_LEN {
            Err(Fault::CorruptContainer("admin_key_slot_len exceeds field width"))
        } else if b.subrange(726, 758) != crypto::sha256_of(b.subrange(0, 726))@ {
            Err(Fault::ChecksumMismatch("header"))
        } else {
            match HeaderModel::stored(b).layout_fault() {
                Some(f) => Err(f),
                None => Ok(HeaderModel::stored(b)),
            }
        }
    }
}

impl Header {
    /// The stored form of this header.
    pub fn encode(&self) -> (r: Vec<u8>)
        requires
            self@.fits(),
        ensures
            r@ == self@.encoded(),
            r@.len() == HEADER_SIZE,
    {
        proof {
            reveal(HeaderModel::encoded);
            lemma_body_len(self@);
            codec::lemma_padded_full(self.salt@);
            codec::lemma_padded_full(self.admin_signing_pubkey@);
            codec::lemma_padded_full(self.admin_encryption_pubkey@);
            codec::lemma_padded_full(self.chain_last_hash@);
        }
        let name = self.name.as_str().as_bytes();
        let description = self.description.as_str().as_bytes();
        let mut w = Writer::new();
        w.put_bytes(MAGIC.as_slice());
        w.put_u32(self.version);
        w.put_u32(self.flags);
        w.put_u32(self.block_size);
        w.put_u64(self.block_count);
        w.put_u64(self.capacity_bytes);

        w.put_u16(name.len() as u16);
        w.put_fixed(name, MAX_NAME_LEN as u64);
        w.put_u16(description.len() as u16);
        w.put_fixed(description, MAX_DESC_LEN as u64);
        w.put_i64(self.created_at);

        w.put_fixed(self.salt.as_slice(), 16);
        w.put_u32(self.argon2_m_cost_kib);
        w.put_u32(self.argon2_t_cost);
        w.put_u32(self.argon2_p_cost);
        w.put_u16(self.admin_key_slot.len() as u16);
        w.put_fixed(self.admin_key_slot.as_slice(), ADMIN_KEY_SLOT_LEN as u64);

        w.put_fixed(self.admin_signing_pubkey.as_slice(), 32);
        w.put_fixed(self.admin_encryption_pubkey.as_slice(), 32);

        w.put_u64(self.bitmap_offset);
        w.put_u64(self.bitmap_len);

        w.put_u64(self.file_table_offset);
        w.put_u64(self.file_table_len);
        w.put_u32(self.max_files);
        w.put_u32(self.entry_size);

        w.put_u64(self.recipient_offset);
        w.put_u64(self.recipient_len);
        w.put_u32(self.max_recipients);
        w.put_u32(self.recipient_slot_size);

        w.put_u64(self.chain_offset);
        w.put_u64(self.chain_len);
        w.put_u32(self.max_chain_records);
        w.put_u32(self.chain_record_size);
        w.put_u64(self.chain_next_seq);
        w.put_fixed(self.chain_last_hash.as_slice(), 32);

        w.put_u64(self.data_offset);
        assert(w@ == self@.body());

        let checksum = crypto::sha256(w.buf.as_slice());
        w.put_bytes(checksum.as_slice());
        w.fill(HEADER_SIZE)
    }

    /// Reads a stored header. Only the first 1024 bytes count.
    pub fn decode(buf: &[u8]) -> (r: Result<Self>)
        ensures
            error::outcome(r) == HeaderModel::decoded(buf@),
            r matches Ok(h) ==> h@.fits() && h@.layout_fault() is None,
    {
        proof {
            reveal(HeaderModel::decoded);
        }
        if (buf.len() as u64) < HEADER_SIZE {
            return Err(VaultError::CorruptContainer("file too short to contain a header"));
        }
        let mut r = Reader::new(buf);

        let magic = r.take_bytes(8);
        if !bytes::same_bytes(magic, MAGIC.as_slice()) {
            return Err(VaultError::NotARvltFile);
        }
        let version: u32 = r.take_u32();
        if version < MIN_SUPPORTED_VERSION || version > MAX_SUPPORTED_VERSION {
            return Err(
                VaultError::UnsupportedVersion {
                    found: version,
                    min: MIN_SUPPORTED_VERSION,
                    max: MAX_SUPPORTED_VERSION,
                },
            );
        }
        let flags: u32 = r.take_u32();
        let block_size: u32 = r.take_u32();
        let block_count: u64 = r.take_u64();
        let capacity_bytes: u64 = r.take_u64();

        let name_len: usize = r.take_u16() as usize;
        let name_raw = r.take_bytes(MAX_NAME_LEN);
        if name_len > MAX_NAME_LEN {
            return Err(VaultError::CorruptContainer("name_len exceeds field width"));
        }
        let name_bytes = bytes::to_vec(vstd::slice::slice_subrange(name_raw, 0, name_len));
        assert(name_bytes@ =~= codec::sized(buf@, 38, codec::num(buf@, 36, 2)));
        let name = match text::from_utf8(name_bytes) {
            Some(name) => name,
            None => {
                return Err(VaultError::CorruptContainer("vault name is not valid UTF-8"));
            },
        };

        let desc_len: usize = r.take_u16() as usize;
        let desc_raw = r.take_bytes(MAX_DESC_LEN);
        if desc_len > MAX_DESC_LEN {
            return Err(VaultError::CorruptContainer("desc_len exceeds field width"));
        }
        let desc_bytes = bytes::to_vec(vstd::slice::slice_subrange(desc_raw, 0, desc_len));
        assert(desc_bytes@ =~= codec::sized(buf@, 168, codec::num(buf@, 166, 2)));
        let description = match text::from_utf8(desc_bytes) {
            Some(description) => description,
            None => {
                return Err(VaultError::CorruptContainer("vault description is not valid UTF-8"));
            },
        };

        let created_at: i64 = r.take_i64();
        let salt = crypto::array16(r.take_bytes(16));
        let argon2_m_cost_kib: u32 = r.take_u32();
        let argon2_t_cost: u32 = r.take_u32();
        let argon2_p_cost: u32 = r.take_u32();

        let slot_len: usize = r.take_u16() as usize;
        let slot_raw = r.take_bytes(ADMIN_KEY_SLOT_LEN);
        if slot_len > ADMIN_KEY_SLOT_LEN {
            return Err(VaultError::CorruptContainer("admin_key_slot_len exceeds field width"));
        }
        let admin_key_slot = bytes::to_vec(vstd::slice::slice_subrange(slot_raw, 0, slot_len));
        assert(admin_key_slot@ =~= codec::sized(buf@, 462, codec::num(buf@, 460, 2)));

        let admin_signing_pubkey = r.take_array32();
        let admin_encryption_pubkey = r.take_array32();
        let bitmap_offset: u64 = r.take_u64();
        let bitmap_len: u64 = r.take_u64();
        let file_table_offset: u64 = r.take_u64();
        let file_table_len: u64 = r.take_u64();
        let max_files: u32 = r.take_u32();
        let entry_size: u32 = r.take_u32();
        let recipient_offset: u64 = r.take_u64();
        let recipient_len: u64 = r.take_u64();
        let max_recipients: u32 = r.take_u32();
        let recipient_slot_size: u32 = r.take_u32();
        let chain_offset: u64 = r.take_u64();
        let chain_len: u64 = r.take_u64();
        let max_chain_records: u32 = r.take_u32();
        let chain_record_size: u32 = r.take_u32();
        let chain_next_seq: u64 = r.take_u64();
        let chain_last_hash = r.take_array32();
        let data_offset: u64 = r.take_u64();

        let stored_checksum = r.take_array32();
        let computed = crypto::sha256(vstd::slice::slice_subrange(buf, 0, 726));
        if !bytes::same_bytes(stored_checksum.as_slice(), computed.as_slice()) {
            return Err(VaultError::ChecksumMismatch("header"));
        }
        let header = Header {
            version,
            flags,
            block_size,
            block_count,
            capacity_bytes,
            name,
            description,
            created_at,
            salt,
            argon2_m_cost_kib,
            argon2_t_cost,
            argon2_p_cost,
            admin_key_slot,
            admin_signing_pubkey,
            admin_encryption_pubkey,
            bitmap_offset,
            bitmap_len,
            file_table_offset,
            file_table_len,
            max_files,
            entry_size,
            recipient_offset,
            recipient_len,
            max_recipients,
            recipient_slot_size,
            chain_offset,
            chain_len,
            max_chain_records,
            chain_record_size,
            chain_next_seq,
            chain_last_hash,
            data_offset,
        };
        assert(header@ =~= HeaderModel::stored(buf@));
        proof {
            vstd::utf8::decode_utf8_encode_utf8(codec::sized(buf@, 38, codec::num(buf@, 36, 2)));
            vstd::utf8::decode_utf8_encode_utf8(codec::sized(buf@, 168, codec::num(buf@, 166, 2)));
        }
        match header.check_layout() {
            Ok(()) => Ok(header),
            Err(e) => Err(e),
        }
    }

    /// Regions must be in order and must not overlap, the data region's length
    /// must be a 64-bit number, and the blocks must make up the capacity.
    fn check_layout(&self) -> (r: Result<()>)
        ensures
            match r {
                Ok(_) => self@.layout_fault() is None,
                Err(e) => self@.layout_fault() == Some(e@),
            },
    {
        if self.block_size == 0 || self.block_count == 0 {
            return Err(VaultError::CorruptContainer("block_size/block_count is zero"));
        }
        proof {
            let c = self.block_count as int;
            let s = self.block_size as int;
            assert(0 <= c * s <= 0xffff_ffff_ffff_ffff * 0xffff_ffff) by (nonlinear_arith)
                requires
                    0 <= c <= 0xffff_ffff_ffff_ffff,
                    0 <= s <= 0xffff_ffff,
            ;
        }
        if self.block_count as u128 * self.block_size as u128 > u64::MAX as u128 {
            return Err(VaultError::CorruptContainer("block_count * block_size overflows u64"));
        }
        proof {
            reveal(HeaderModel::fills_capacity);
        }
        if self.capacity_bytes / self.block_size as u64 != self.block_count {
            return Err(
                VaultError::CorruptContainer(
                    "block_size/block_count does not agree with capacity_bytes",
                ),
            );
        }
        if self.bitmap_offset < HEADER_SIZE {
            return Err(VaultError::CorruptContainer("bitmap_offset overlaps header"));
        }
        if (self.file_table_offset as u128) < self.bitmap_offset as u128
            + self.bitmap_len as u128 {
            return Err(VaultError::CorruptContainer("file_table_offset overlaps bitmap"));
        }
        if (self.recipient_offset as u128) < self.file_table_offset as u128
            + self.file_table_len as u128 {
            return Err(VaultError::CorruptContainer("recipient_offset overlaps file table"));
        }
        if (self.chain_offset as u128) < self.recipient_offset as u128
            + self.recipient_len as u128 {
            return Err(VaultError::CorruptContainer("chain_offset overlaps recipient keyring"));
        }
        if (self.data_offset as u128) < self.chain_offset as u128 + self.chain_len as u128 {
            return Err(VaultError::CorruptContainer("data_offset overlaps chain region"));
        }
        Ok(())
    }

    /// Every region must be long enough for the records that are counted in it.
    pub fn check_counts(&self) -> (r: Result<()>)
        ensures
            match r {
                Ok(_) => self@.counts_fault() is None,
                Err(e) => self@.counts_fault() == Some(e@),
            },
    {
        proof {
            lemma_product(self.max_files, self.entry_size);
            lemma_product(self.max_recipients, self.recipient_slot_size);
            lemma_product(self.max_chain_records, self.chain_record_size);
        }
        if BlockAllocator::bitmap_len_bytes(self.block_count) > self.bitmap_len {
            return Err(VaultError::CorruptContainer("bitmap is too short for block_count"));
        }
        if self.max_files as u64 * self.entry_size as u64 > self.file_table_len {
            return Err(VaultError::CorruptContainer("file table is too short for max_files"));
        }
        if self.max_recipients as u64 * self.recipient_slot_size as u64 > self.recipient_len {
            return Err(
                VaultError::CorruptContainer("recipient keyring is too short for max_recipients"),
            );
        }
        if self.max_chain_records as u64 * self.chain_record_size as u64 > self.chain_len {
            return Err(
                VaultError::CorruptContainer("chain region is too short for max_chain_records"),
            );
        }
        Ok(())
    }

    /// The length of the whole container.
    pub fn total_container_size(&self) -> (r: u64)
        requires
            self@.total_size() <= u64::MAX,
        ensures
            r == self@.total_size(),
    {
        proof {
            let c = self.block_count as int;
            let s = self.block_size as int;
            assert(0 <= c * s) by (nonlinear_arith)
                requires
                    0 <= c,
                    0 <= s,
            ;
        }
        self.data_offset + self.block_count * self.block_size as u64
    }
}

/// The product of two 32-bit numbers is a 64-bit number.
proof fn lemma_product(a: u32, b: u32)
    ensures
        0 <= a * b <= 0xffff_fffe_0000_0001,
{
    assert(0 <= a * b <= 0xffff_ffff * 0xffff_ffff) by (nonlinear_arith)
        requires
            0 <= a <= 0xffff_ffff,
            0 <= b <= 0xffff_ffff,
    ;
}

/// The checksum of every header stands at the same place.
pub proof fn lemma_body_len(h: HeaderModel)
    requires
        h.fits(),
    ensures
        h.body().len() == 726,
        h.encoded().len() == 1024,
{
    broadcast use bytes::lemma_le_length;

    reveal(HeaderModel::encoded);
}

/// A header whose fields fit is read back as it was stored, if the regions that
/// it describes can be right, and is refused for what is wrong with them if not.
#[verifier::rlimit(60)]
pub proof fn law_header_round_trip(h: HeaderModel)
    requires
        h.fits(),
        MIN_SUPPORTED_VERSION <= h.version <= MAX_SUPPORTED_VERSION,
    ensures
        HeaderModel::decoded(h.encoded()) == match h.layout_fault() {
            Some(f) => Err::<HeaderModel, Fault>(f),
            None => Ok(h),
        },
{
    broadcast use bytes::lemma_le_length;

    reveal(HeaderModel::encoded);
    reveal(HeaderModel::decoded);

    let b = h.encoded();
    lemma_body_len(h);
    let nm = bytes::text(h.name);
    let ds = bytes::text(h.description);
    let p0 = Seq::<u8>::empty();
    let p1 = p0 + MAGIC@;
    let p2 = p1 + bytes::le(h.version as nat, 4);
    let p3 = p2 + bytes::le(h.flags as nat, 4);
    let p4 = p3 + bytes::le(h.block_size as nat, 4);
    let p5 = p4 + bytes::le(h.block_count as nat, 8);
    let p6 = p5 + bytes::le(h.capacity_bytes as nat, 8);
    let p7 = p6 + bytes::le(nm.len(), 2);
    let p8 = p7 + bytes::padded(nm, 128);
    let p9 = p8 + bytes::le(ds.len(), 2);
    let p10 = p9 + bytes::padded(ds, 256);
    let p11 = p10 + bytes::le(bytes::signed_bits(h.created_at), 8);
    let p12 = p11 + h.salt;
    let p13 = p12 + bytes::le(h.argon2_m_cost_kib as nat, 4);
    let p14 = p13 + bytes::le(h.argon2_t_cost as nat, 4);
    let p15 = p14 + bytes::le(h.argon2_p_cost as nat, 4);
    let p16 = p15 + bytes::le(h.admin_key_slot.len(), 2);
    let p17 = p16 + bytes::padded(h.admin_key_slot, 64);
    let p18 = p17 + h.admin_signing_pubkey;
    let p19 = p18 + h.admin_encryption_pubkey;
    let p20 = p19 + bytes::le(h.bitmap_offset as nat, 8);
    let p21 = p20 + bytes::le(h.bitmap_len as nat, 8);
    let p22 = p21 + bytes::le(h.file_table_offset as nat, 8);
    let p23 = p22 + bytes::le(h.file_table_len as nat, 8);
    let p24 = p23 + bytes::le(h.max_files as nat, 4);
    let p25 = p24 + bytes::le(h.entry_size as nat, 4);
    let p26 = p25 + bytes::le(h.recipient_offset as nat, 8);
    let p27 = p26 + bytes::le(h.recipient_len as nat, 8);
    let p28 = p27 + bytes::le(h.max_recipients as nat, 4);
    let p29 = p28 + bytes::le(h.recipient_slot_size as nat, 4);
    let p30 = p29 + bytes::le(h.chain_offset as nat, 8);
    let p31 = p30 + bytes::le(h.chain_len as nat, 8);
    let p32 = p31 + bytes::le(h.max_chain_records as nat, 4);
    let p33 = p32 + bytes::le(h.chain_record_size as nat, 4);
    let p34 = p33 + bytes::le(h.chain_next_seq as nat, 8);
    let p35 = p34 + h.chain_last_hash;
    let p36 = p35 + bytes::le(h.data_offset as nat, 8);
    assert(p36 == h.body());
    let sum = crypto::sha256_of(p36)@;
    let p37 = p36 + sum;
    assert(b.subrange(0, 758) =~= p37);
    bytes::lemma_field(p36, sum, b);
    bytes::lemma_field(p35, bytes::le(h.data_offset as nat, 8), b);
    bytes::lemma_field(p34, h.chain_last_hash, b);
    bytes::lemma_field(p33, bytes::le(h.chain_next_seq as nat, 8), b);
    bytes::lemma_field(p32, bytes::le(h.chain_record_size as nat, 4), b);
    bytes::lemma_field(p31, bytes::le(h.max_chain_records as nat, 4), b);
    bytes::lemma_field(p30, bytes::le(h.chain_len as nat, 8), b);
    bytes::lemma_field(p29, bytes::le(h.chain_offset as nat, 8), b);
    bytes::lemma_field(p28, bytes::le(h.recipient_slot_size as nat, 4), b);
    bytes::lemma_field(p27, bytes::le(h.max_recipients as nat, 4), b);
    bytes::lemma_field(p26, bytes::le(h.recipient_len as nat, 8), b);
    bytes::lemma_field(p25, bytes::le(h.recipient_offset as nat, 8), b);
    bytes::lemma_field(p24, bytes::le(h.entry_size as nat, 4), b);
    bytes::lemma_field(p23, bytes::le(h.max_files as nat, 4), b);
    bytes::lemma_field(p22, bytes::le(h.file_table_len as nat, 8), b);
    bytes::lemma_field(p21, bytes::le(h.file_table_offset as nat, 8), b);
    bytes::lemma_field(p20, bytes::le(h.bitmap_len as nat, 8), b);
    bytes::lemma_field(p19, bytes::le(h.bitmap_offset as nat, 8), b);
    bytes::lemma_field(p18, h.admin_encryption_pubkey, b);
    bytes::lemma_field(p17, h.admin_signing_pubkey, b);
    bytes::lemma_field(p16, bytes::padded(h.admin_key_slot, 64), b);
    bytes::lemma_field(p15, bytes::le(h.admin_key_slot.len(), 2), b);
    bytes::lemma_field(p14, bytes::le(h.argon2_p_cost as nat, 4), b);
    bytes::lemma_field(p13, bytes::le(h.argon2_t_cost as nat, 4), b);
    bytes::lemma_field(p12, bytes::le(h.argon2_m_cost_kib as nat, 4), b);
    bytes::lemma_field(p11, h.salt, b);
    bytes::lemma_field(p10, bytes::le(bytes::signed_bits(h.created_at), 8), b);
    bytes::lemma_field(p9, bytes::padded(ds, 256), b);
    bytes::lemma_field(p8, bytes::le(ds.len(), 2), b);
    bytes::lemma_field(p7, bytes::padded(nm, 128), b);
    bytes::lemma_field(p6, bytes::le(nm.len(), 2), b);
    bytes::lemma_field(p5, bytes::le(h.capacity_bytes as nat, 8), b);
    bytes::lemma_field(p4, bytes::le(h.block_count as nat, 8), b);
    bytes::lemma_field(p3, bytes::le(h.block_size as nat, 4), b);
    bytes::lemma_field(p2, bytes::le(h.flags as nat, 4), b);
    bytes::lemma_field(p1, bytes::le(h.version as nat, 4), b);
    bytes::lemma_field(p0, MAGIC@, b);
    bytes::lemma_pow256_values();
    codec::lemma_num(b, 8, 4, h.version as nat);
    codec::lemma_num(b, 12, 4, h.flags as nat);
    codec::lemma_num(b, 16, 4, h.block_size as nat);
    codec::lemma_num(b, 20, 8, h.block_count as nat);
    codec::lemma_num(b, 28, 8, h.capacity_bytes as nat);
    codec::lemma_num(b, 36, 2, nm.len());
    codec::lemma_num(b, 166, 2, ds.len());
    bytes::lemma_signed_round_trip(h.created_at);
    codec::lemma_num(b, 424, 8, bytes::signed_bits(h.created_at));
    codec::lemma_num(b, 448, 4, h.argon2_m_cost_kib as nat);
    codec::lemma_num(b, 452, 4, h.argon2_t_cost as nat);
    codec::lemma_num(b, 456, 4, h.argon2_p_cost as nat);
    codec::lemma_num(b, 460, 2, h.admin_key_slot.len());
    codec::lemma_num(b, 590, 8, h.bitmap_offset as nat);
    codec::lemma_num(b, 598, 8, h.bitmap_len as nat);
    codec::lemma_num(b, 606, 8, h.file_table_offset as nat);
    codec::lemma_num(b, 614, 8, h.file_table_len as nat);
    codec::lemma_num(b, 622, 4, h.max_files as nat);
    codec::lemma_num(b, 626, 4, h.entry_size as nat);
    codec::lemma_num(b, 630, 8, h.recipient_offset as nat);
    codec::lemma_num(b, 638, 8, h.recipient_len as nat);
    codec::lemma_num(b, 646, 4, h.max_recipients as nat);
    codec::lemma_num(b, 650, 4, h.recipient_slot_size as nat);
    codec::lemma_num(b, 654, 8, h.chain_offset as nat);
    codec::lemma_num(b, 662, 8, h.chain_len as nat);
    codec::lemma_num(b, 670, 4, h.max_chain_records as nat);
    codec::lemma_num(b, 674, 4, h.chain_record_size as nat);
    codec::lemma_num(b, 678, 8, h.chain_next_seq as nat);
    codec::lemma_num(b, 718, 8, h.data_offset as nat);
    codec::lemma_padded(b, 38, nm, 128);
    codec::lemma_padded(b, 168, ds, 256);
    codec::lemma_padded(b, 462, h.admin_key_slot, 64);
    text::lemma_text_round_trip(h.name);
    text::lemma_text_round_trip(h.description);
    assert(HeaderModel::stored(b) =~= h);
}

/// A header that is read at all is of a supported version, matches its checksum,
/// describes regions that follow each other without overlapping, and has as many
/// blocks as make up its capacity.
pub proof fn law_header_is_checked(b: Seq<u8>, h: HeaderModel)
    requires
        HeaderModel::decoded(b) == Ok::<HeaderModel, Fault>(h),
    ensures
        MIN_SUPPORTED_VERSION <= h.version <= MAX_SUPPORTED_VERSION,
        b.subrange(726, 758) == crypto::sha256_of(b.subrange(0, 726))@,
        0 < h.block_size && 0 < h.block_count && h.block_count * h.block_size <= u64::MAX,
        h.block_count * h.block_size <= h.capacity_bytes < (h.block_count + 1) * h.block_size,
        HEADER_SIZE <= h.bitmap_offset,
        h.bitmap_offset + h.bitmap_len <= h.file_table_offset,
        h.file_table_offset + h.file_table_len <= h.recipient_offset,
        h.recipient_offset + h.recipient_len <= h.chain_offset,
        h.chain_offset + h.chain_len <= h.data_offset <= h.total_size(),
{
    reveal(HeaderModel::decoded);
    reveal(HeaderModel::fills_capacity);
    assert(h.block_count * h.block_size >= 0) by (nonlinear_arith);
    let c = h.capacity_bytes as int;
    let z = h.block_size as int;
    let n = h.block_count as int;
    assert(n * z <= c < (n + 1) * z) by (nonlinear_arith)
        requires
            0 < z,
            n == c / z,
    ;
}

} // verus!
