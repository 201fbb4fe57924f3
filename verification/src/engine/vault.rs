//! The vault: create, open, add, read, update, delete, grant, revoke and
//! verify.
//!
//! A vault's content key is independent of the admin's password. It is wrapped
//! once for the password, in the header, and once per granted peer, in the
//! recipient keyring. Only a vault that was opened with the admin's identity
//! can be changed, and every change appends a chain record signed by it.

use std::time::{SystemTime, UNIX_EPOCH};

use uuid::Uuid;
use vstd::prelude::*;

use super::allocator::{self, BlockAllocator};
use super::bytes;
use super::codec;
use super::crypto::{self, Argon2Params, MasterKey};
use super::error::{self, Fault, Result, VaultError};
use super::format::{
    Header, HeaderModel, DEFAULT_BLOCK_SIZE, DIRECT_BLOCKS,
    ENTRY_FLAG_DELETED, ENTRY_FLAG_OCCUPIED, FORMAT_VERSION, HEADER_SIZE, MAX_DESC_LEN,
    MAX_FILENAME_LEN, MAX_NAME_LEN, MAX_RECIPIENTS, RECIPIENT_FLAG_OCCUPIED,
};
use super::founding;
use super::health;
use super::identity::{Identity, PeerId};
use super::image::{self, Image};
use super::laws;
use super::model::{
    self, Position, VaultModel, ADMIN_KEY_SLOT_AAD, BLOCK_FRAMING_OVERHEAD, INDEX_BLOCK_HEADER,
    MIN_BLOCK_SIZE,
};
use super::preview::Preview;
use super::readings;
use super::records::{
    self, ChainOp, ChainRecord, EntryModel, FileEntry, RecipientSlot, RecordModel, SlotModel,
    CHAIN_RECORD_SIZE, ENTRY_SIZE, RECIPIENT_SLOT_SIZE,
};
use super::replay;
use super::rotation;
use super::sharing;
use super::text;

verus! {

/// `std::time::SystemTime::now`, as whole seconds since the Unix epoch (0 for
/// a clock set before it). Nothing is known of the result.
#[verifier::external_body]
pub(crate) fn now() -> (r: i64) {
    match SystemTime::now().duration_since(UNIX_EPOCH) {
        Ok(d) => d.as_secs() as i64,
        Err(_) => 0,
    }
}

/// `uuid::Uuid::now_v7`: a fresh, time-ordered identifier. Nothing is known of
/// the result.
#[verifier::external_body]
pub(crate) fn fresh_file_id() -> (r: u128) {
    Uuid::now_v7().as_u128()
}

/// The identifier `id`, or its neighbour if `id` is taken.
pub(crate) fn other_than(id: u128, taken: u128) -> (r: u128)
    ensures
        r != taken,
        id != taken ==> r == id,
{
    if id != taken {
        id
    } else if id == 0 {
        1
    } else {
        id - 1
    }
}

/// The key `key`, or one that differs from it in the first byte if `key` is
/// taken.
pub(crate) fn key_other_than(key: [u8; 32], taken: &[u8; 32]) -> (r: [u8; 32])
    ensures
        r@ != taken@,
        key@ != taken@ ==> r@ == key@,
{
    if !bytes::same_bytes(&key, taken) {
        return key;
    }
    let mut other: [u8; 32] = key;
    if key[0] == 0 {
        other[0] = 1;
    } else {
        other[0] = 0;
    }
    assert(other@[0] != taken@[0]);
    other
}

/// What adding a file under this identifier and at these times leaves behind: the
/// file is stored under the identifier and listed with the time, and the chain
/// tells of it.
pub open spec fn added_when(
    v: VaultModel,
    w: VaultModel,
    name: Seq<char>,
    data: Seq<u8>,
    id: u128,
    at: i64,
    chained_at: i64,
) -> bool {
    &&& laws::stored_under(w, name, id)
    &&& laws::dated(w, name, at, at)
    &&& health::tells(v, w, ChainOp::FileAdded, id, crypto::sha256_of(data)@, chained_at)
}

/// What updating a file under this identifier and at these times leaves behind: the
/// file is stored under the identifier and listed as last changed at the time, and
/// the chain tells of it.
pub open spec fn updated_when(
    v: VaultModel,
    w: VaultModel,
    name: Seq<char>,
    data: Seq<u8>,
    id: u128,
    at: i64,
    chained_at: i64,
) -> bool {
    &&& laws::stored_under(w, name, id)
    &&& laws::last_changed(w, name, at)
    &&& health::tells(v, w, ChainOp::FileUpdated, id, crypto::sha256_of(data)@, chained_at)
}

/// What granting access at these times leaves behind: the peer has access since the
/// time, and the chain tells of it.
pub open spec fn granted_when(
    v: VaultModel,
    w: VaultModel,
    signing: Seq<u8>,
    encryption: Seq<u8>,
    at: i64,
    chained_at: i64,
) -> bool {
    &&& sharing::granted_since(w, signing, at)
    &&& health::tells(
        v,
        w,
        ChainOp::AccessGranted,
        model::peer_target(signing),
        crypto::sha256_of(signing + encryption)@,
        chained_at,
    )
}

/// A file in a vault, without its content.
#[derive(Debug, Clone)]
pub struct FileInfo {
    pub name: String,
    pub size: u64,
    pub created_at: i64,
    pub modified_at: i64,
}

/// What can be told of a vault without unlocking it.
#[derive(Debug, Clone)]
pub struct VaultSummary {
    pub name: String,
    pub description: String,
    pub capacity_bytes: u64,
    pub created_at: i64,
}

/// A granted peer.
#[derive(Debug, Clone)]
pub struct RecipientInfo {
    pub peer_id: PeerId,
    pub granted_at: i64,
}

/// An unlocked vault.
pub struct Vault {
    image: Image,
    header: Header,
    allocator: BlockAllocator,
    /// The content key, already unwrapped.
    key: MasterKey,
    /// The admin's identity, if the vault was opened with it.
    admin_identity: Option<Identity>,
    /// Every range written since the log was last taken.
    change_log: Vec<(u64, Vec<u8>)>,
}

/// The written ranges as mathematical values.
pub open spec fn ranges_of(s: Seq<(u64, Vec<u8>)>) -> Seq<(u64, Seq<u8>)> {
    s.map_values(|p: (u64, Vec<u8>)| (p.0, p.1@))
}

/// A chain of index blocks as a mathematical value.
spec fn chain_of(s: Seq<(u64, Vec<u64>)>) -> Seq<(u64, Seq<u64>)> {
    s.map_values(|p: (u64, Vec<u64>)| (p.0, p.1@))
}

impl View for Vault {
    type V = VaultModel;

    closed spec fn view(&self) -> VaultModel {
        VaultModel {
            image: self.image@,
            header: self.header@,
            bitmap: self.allocator@,
            key: self.key@,
            admin: match self.admin_identity {
                Some(id) => Some(id@),
                None => None,
            },
            log: ranges_of(self.change_log@),
        }
    }
}

/// Reads record number `i` of a region of records of `size` bytes.
fn read_record(image: &Image, base: u64, i: u64, size: u32) -> (r: Result<Vec<u8>>)
    requires
        image.wf(),
    ensures
        error::outcome(r) == image::bytes_at(image@, base + i * size, size as int),
{
    proof {
        let a = i as int;
        let b = size as int;
        assert(0 <= a * b <= 0xffff_ffff_ffff_ffff * 0xffff_ffff) by (nonlinear_arith)
            requires
                0 <= a <= 0xffff_ffff_ffff_ffff,
                0 <= b <= 0xffff_ffff,
        ;
    }
    let at: u128 = base as u128 + i as u128 * size as u128;
    if size == 0 {
        return image.read(0, 0);
    }
    if at + size as u128 > image.len() as u128 {
        return Err(VaultError::Io(image::UNEXPECTED_END));
    }
    image.read(at as u64, size as u64)
}

impl Vault {
    /// The parts of the vault agree with each other.
    pub closed spec fn wf(&self) -> bool {
        &&& self.image.wf()
        &&& self.allocator.wf()
        &&& self.allocator.blocks() == self.header.block_count
        &&& self.header@.fits()
        &&& self.header@.block_count * self.header@.block_size <= u64::MAX
    }

    /// What every vault has: fields that fit, a bitmap of the right size and a
    /// container that is not too long.
    pub proof fn lemma_wf(&self)
        requires
            self.wf(),
        ensures
            self@.header.fits(),
            self@.bitmap.len() == allocator::bitmap_bytes(self@.header.block_count as nat),
            self@.image.len() <= image::MAX_LEN,
            self@.key.len() == 32,
            self@.admin matches Some(keys) ==> keys.wf(),
    {
        self.image.lemma_len();
        if self.admin_identity is Some {
            self.admin_identity->Some_0.lemma_wf();
        }
    }

    /// Whether this vault's geometry allows every operation.
    pub fn is_operable(&self) -> (r: bool)
        requires
            self.wf(),
        ensures
            r == self@.header.operable(),
    {
        self.is_writable() && self.header.block_size >= MIN_BLOCK_SIZE
    }

    /// Whether content of this many bytes can be stored where there is room for
    /// it.
    pub fn can_store(&self, size: u64) -> (r: bool)
        requires
            self.wf(),
        ensures
            r == self@.can_store(size as int),
    {
        if !self.is_writable() {
            return false;
        }
        self.header.block_size >= MIN_BLOCK_SIZE || self.data_block_count(size) <= 8
    }

    /// Whether this vault's geometry allows changes.
    fn is_writable(&self) -> (r: bool)
        requires
            self.wf(),
        ensures
            r == self@.header.writable(),
    {
        let h = &self.header;
        proof {
            let f = h.max_files as int;
            let e = h.entry_size as int;
            let m = h.max_recipients as int;
            let s = h.recipient_slot_size as int;
            let c = h.max_chain_records as int;
            let z = h.chain_record_size as int;
            let n = h.block_count as int;
            let b = h.block_size as int;
            assert(0 <= f * e <= 0xffff_ffff * 0xffff_ffff && 0 <= m * s <= 0xffff_ffff * 0xffff_ffff
                && 0 <= c * z <= 0xffff_ffff * 0xffff_ffff && 0 <= n * b <= 0xffff_ffff_ffff_ffff
                * 0xffff_ffff) by (nonlinear_arith)
                requires
                    0 <= f <= 0xffff_ffff,
                    0 <= e <= 0xffff_ffff,
                    0 <= m <= 0xffff_ffff,
                    0 <= s <= 0xffff_ffff,
                    0 <= c <= 0xffff_ffff,
                    0 <= z <= 0xffff_ffff,
                    0 <= n <= 0xffff_ffff_ffff_ffff,
                    0 <= b <= 0xffff_ffff,
            ;
        }
        let bitmap_end: u128 = h.bitmap_offset as u128 + BlockAllocator::bitmap_len_bytes(
            h.block_count,
        ) as u128;
        let table_end: u128 = h.file_table_offset as u128 + h.max_files as u128
            * h.entry_size as u128 + ENTRY_SIZE as u128;
        let ring_end: u128 = h.recipient_offset as u128 + h.max_recipients as u128
            * h.recipient_slot_size as u128 + RECIPIENT_SLOT_SIZE as u128;
        let chain_end: u128 = h.chain_offset as u128 + h.max_chain_records as u128
            * h.chain_record_size as u128 + CHAIN_RECORD_SIZE as u128;
        let data_end: u128 = h.data_offset as u128 + h.block_count as u128 * h.block_size as u128;
        let most: u128 = image::MAX_LEN as u128;
        self.can_verify() && bitmap_end <= most
            && table_end <= most && ring_end <= most && chain_end <= most && data_end <= most
    }

    /// Whether this vault's files can be read and its chain can be checked.
    pub fn can_verify(&self) -> (r: bool)
        ensures
            r == (self@.header.legible() && self@.header.max_chain_records > 0),
    {
        self.header.block_size as u64 > BLOCK_FRAMING_OVERHEAD && self.header.max_chain_records > 0
    }

    // -----------------------------------------------------------------
    // What can be told at a glance
    // -----------------------------------------------------------------

    /// Name, description, capacity and creation time.
    pub fn summary(&self) -> (r: VaultSummary)
        ensures
            r.name@ == self@.header.name,
            r.description@ == self@.header.description,
            r.capacity_bytes == self@.header.capacity_bytes,
            r.created_at == self@.header.created_at,
    {
        VaultSummary {
            name: self.header.name.clone(),
            description: self.header.description.clone(),
            capacity_bytes: self.header.capacity_bytes,
            created_at: self.header.created_at,
        }
    }

    /// The bytes of storage in use, counted in whole blocks.
    pub fn used_bytes(&self) -> (r: u64)
        requires
            self.wf(),
        ensures
            r == self@.used(),
    {
        let n: u64 = self.allocator.occupied_count();
        proof {
            lemma_scaled(n as int, self.header.block_count as int, self.header.block_size as int);
        }
        n * self.header.block_size as u64
    }

    /// The bytes of content storage that the vault was created with.
    pub fn capacity_bytes(&self) -> (r: u64)
        ensures
            r == self@.header.capacity_bytes,
    {
        self.header.capacity_bytes
    }

    /// Whether the vault was opened with its admin's identity.
    pub fn is_admin(&self) -> (r: bool)
        ensures
            r == (self@.admin is Some),
    {
        self.admin_identity.is_some()
    }

    /// The chain's next sequence number and last hash: how far this replica
    /// has come.
    pub fn chain_state(&self) -> (r: (u64, [u8; 32]))
        ensures
            r.0 == self@.header.chain_next_seq,
            r.1@ == self@.header.chain_last_hash,
    {
        (self.header.chain_next_seq, self.header.chain_last_hash)
    }

    /// The oldest sequence number of which the chain still retains the record.
    fn oldest_retained(&self) -> (r: u64)
        ensures
            r == self@.oldest(),
    {
        let window: u64 = self.header.max_chain_records as u64;
        let newest: u64 = self.header.chain_next_seq.saturating_sub(1);
        if newest < window {
            0
        } else {
            newest - window + 1
        }
    }

    fn require_admin(&self) -> (r: Result<()>)
        ensures
            r is Ok <==> self@.admin is Some,
            r matches Err(e) ==> e@ == Fault::NotAuthorized,
    {
        if self.admin_identity.is_some() {
            Ok(())
        } else {
            Err(VaultError::NotAuthorized)
        }
    }

    /// The container's bytes.
    pub fn export_full(&self) -> (r: Result<Vec<u8>>)
        requires
            self.wf(),
        ensures
            r is Ok,
            r->Ok_0@ == self@.image,
    {
        Ok(self.image.to_vec())
    }

    /// Overwrites the content key with zero bytes.
    pub fn wipe_key(&mut self)
        requires
            old(self).wf(),
        ensures
            final(self).wf(),
            final(self)@ == (VaultModel { key: bytes::zeros(32), ..old(self)@ }),
    {
        self.key.wipe();
    }

    /// Takes the ranges written since the last call, in the order in which
    /// they were written. Replaying them on a byte-identical replica
    /// reproduces the changes.
    pub fn take_change_log(&mut self) -> (r: Vec<(u64, Vec<u8>)>)
        requires
            old(self).wf(),
        ensures
            final(self).wf(),
            ranges_of(r@) == old(self)@.log,
            final(self)@ == (VaultModel { log: Seq::empty(), ..old(self)@ }),
    {
        let mut log: Vec<(u64, Vec<u8>)> = Vec::new();
        core::mem::swap(&mut log, &mut self.change_log);
        assert(ranges_of(self.change_log@) =~= Seq::empty());
        log
    }

    /// Whether this vault's geometry and its chain allow another change.
    pub fn can_change(&self) -> (r: bool)
        requires
            self.wf(),
        ensures
            r == (self@.header.writable() && self@.header.chain_next_seq < u64::MAX),
    {
        self.is_writable() && self.header.chain_next_seq < u64::MAX
    }

    /// The ranges written since the log was last taken.
    pub fn change_log(&self) -> (r: &Vec<(u64, Vec<u8>)>)
        ensures
            ranges_of(r@) == self@.log,
    {
        &self.change_log
    }

    /// The length of the container.
    pub fn container_len(&self) -> (r: u64)
        requires
            self.wf(),
        ensures
            r == self@.image.len(),
    {
        self.image.len()
    }

    /// The length of everything in front of the data blocks.
    pub fn metadata_len(&self) -> (r: u64)
        ensures
            r == self@.header.data_offset,
    {
        self.header.data_offset
    }

    /// The `n` bytes of the container at `offset`.
    pub fn read_range(&self, offset: u64, n: u64) -> (r: Result<Vec<u8>>)
        requires
            self.wf(),
        ensures
            error::outcome(r) == image::bytes_at(self@.image, offset as int, n as int),
    {
        self.image.read(offset, n)
    }

    // -----------------------------------------------------------------
    // Reading regions
    // -----------------------------------------------------------------

    fn read_slot(&self, i: u32) -> (r: Result<FileEntry>)
        requires
            self.wf(),
        ensures
            error::outcome(r) == self@.slot(i as int),
            r matches Ok(e) ==> e@.fits(),
    {
        proof {
            reveal(VaultModel::slot);
        }
        match read_record(
            &self.image,
            self.header.file_table_offset,
            i as u64,
            self.header.entry_size,
        ) {
            Ok(b) => FileEntry::decode(b.as_slice()),
            Err(e) => Err(e),
        }
    }

    fn read_recipient_slot(&self, i: u32) -> (r: Result<RecipientSlot>)
        requires
            self.wf(),
        ensures
            error::outcome(r) == self@.recipient(i as int),
            r matches Ok(s) ==> s@.fits(),
    {
        proof {
            reveal(VaultModel::recipient);
        }
        match read_record(
            &self.image,
            self.header.recipient_offset,
            i as u64,
            self.header.recipient_slot_size,
        ) {
            Ok(b) => RecipientSlot::decode(b.as_slice()),
            Err(e) => Err(e),
        }
    }

    fn read_chain_slot_at_seq(&self, seq: u64) -> (r: Result<Option<ChainRecord>>)
        requires
            self.wf(),
            self@.header.max_chain_records > 0,
        ensures
            match r {
                Ok(Some(c)) => self@.record(seq as int) == Ok::<Option<RecordModel>, Fault>(
                    Some(c@),
                ) && c@.fits(),
                Ok(None) => self@.record(seq as int) == Ok::<Option<RecordModel>, Fault>(None),
                Err(e) => self@.record(seq as int) == Err::<Option<RecordModel>, Fault>(e@),
            },
    {
        let place: u64 = seq % self.header.max_chain_records as u64;
        proof {
            reveal(VaultModel::record);
        }
        match read_record(
            &self.image,
            self.header.chain_offset,
            place,
            self.header.chain_record_size,
        ) {
            Ok(b) => ChainRecord::decode(b.as_slice()),
            Err(e) => Err(e),
        }
    }

    fn plain_chunk_len(&self) -> (r: u64)
        requires
            self@.header.legible(),
        ensures
            r == self@.header.chunk_len(),
            r >= 1,
    {
        self.header.block_size as u64 - BLOCK_FRAMING_OVERHEAD
    }

    fn index_block_capacity(&self) -> (r: u64)
        requires
            self@.header.operable(),
        ensures
            r == self@.header.index_capacity(),
            r >= 1,
    {
        (self.plain_chunk_len() - INDEX_BLOCK_HEADER) / 8
    }

    fn read_physical_block(&self, i: u64, id: u128) -> (r: Result<Vec<u8>>)
        requires
            self.wf(),
            self@.header.legible(),
        ensures
            error::outcome(r) == self@.block(i, id),
            r matches Ok(p) ==> p@.len() <= self@.header.chunk_len() && self@.header.block_at(
                i as int,
            ) + self@.header.block_size <= self@.image.len(),
    {
        proof {
            reveal(VaultModel::block);
        }
        let b = match read_record(
            &self.image,
            self.header.data_offset,
            i,
            self.header.block_size,
        ) {
            Ok(b) => b,
            Err(e) => {
                return Err(e);
            },
        };
        proof {
            bytes::lemma_pow256_values();
        }
        let n: usize = bytes::read_le(b.as_slice(), 0, 4) as usize;
        if n > b.len() - 4 {
            return Err(VaultError::CorruptContainer("stored block length exceeds block size"));
        }
        if b.len() - 4 - n < 16 {
            return Err(VaultError::CorruptContainer("stored block truncated"));
        }
        self.key.decrypt_block(id, i, vstd::slice::slice_subrange(b.as_slice(), 4, 4 + (n + 16)))
    }

    fn read_index_block(&self, i: u64, id: u128) -> (r: Result<(u64, Vec<u64>)>)
        requires
            self.wf(),
            self@.header.legible(),
        ensures
            match r {
                Ok((next, listed)) => self@.index_block(i, id) == Ok::<(u64, Seq<u64>), Fault>(
                    (next, listed@),
                ),
                Err(e) => self@.index_block(i, id) == Err::<(u64, Seq<u64>), Fault>(e@),
            },
    {
        let payload = match self.read_physical_block(i, id) {
            Ok(p) => p,
            Err(e) => {
                return Err(e);
            },
        };
        parse_index(payload.as_slice())
    }
}

impl Vault {
    /// Follows the chain of a file's overflow index blocks.
    fn walk_overflow(&self, entry: &FileEntry) -> (r: Result<Vec<(u64, Vec<u64>)>>)
        requires
            self.wf(),
            self@.header.legible(),
        ensures
            match r {
                Ok(w) => self@.overflow(entry@) == Ok::<Seq<(u64, Seq<u64>)>, Fault>(
                    chain_of(w@),
                ),
                Err(e) => self@.overflow(entry@) == Err::<Seq<(u64, Seq<u64>)>, Fault>(e@),
            },
    {
        let mut out: Vec<(u64, Vec<u64>)> = Vec::new();
        let mut next: u64 = entry.overflow_block;
        let mut fuel: u64 = self.image.len();
        let ghost whole = self@.overflow(entry@);
        proof {
            let rest = self@.walk(entry.id, next, fuel as nat);
            if rest is Ok {
                assert(chain_of(out@) + rest->Ok_0 =~= rest->Ok_0);
            }
        }
        while next != 0
            invariant
                self.wf(),
                self@.header.legible(),
                whole == self@.overflow(entry@),
                match self@.walk(entry.id, next, fuel as nat) {
                    Err(f) => whole == Err::<Seq<(u64, Seq<u64>)>, Fault>(f),
                    Ok(rest) => whole == Ok::<Seq<(u64, Seq<u64>)>, Fault>(
                        chain_of(out@) + rest,
                    ),
                },
            decreases fuel,
        {
            if fuel == 0 {
                return Err(VaultError::CorruptContainer("overflow index chain does not end"));
            }
            let ghost before = chain_of(out@);
            match self.read_index_block(next, entry.id) {
                Err(e) => {
                    return Err(e);
                },
                Ok((n, listed)) => {
                    proof {
                        let rest = self@.walk(entry.id, n, (fuel - 1) as nat);
                        if rest is Ok {
                            assert(before + (seq![(next, listed@)] + rest->Ok_0) =~= (before + seq![
                                (next, listed@),
                            ]) + rest->Ok_0);
                        }
                    }
                    let ghost item = (next, listed@);
                    out.push((next, listed));
                    assert(chain_of(out@) =~= before + seq![item]);
                    next = n;
                    fuel = fuel - 1;
                },
            }
        }
        assert(chain_of(out@) + Seq::empty() =~= chain_of(out@));
        Ok(out)
    }

    /// How many data blocks a file of this size takes.
    fn data_block_count(&self, size: u64) -> (r: u64)
        requires
            self@.header.legible(),
        ensures
            r == self@.blocks_for(size as int),
    {
        if size == 0 {
            0
        } else {
            let len: u64 = self.plain_chunk_len();
            if size % len == 0 {
                size / len
            } else {
                assert(len >= 2);
                assert(size / len <= size / 2) by (nonlinear_arith)
                    requires
                        len >= 2,
                ;
                size / len + 1
            }
        }
    }

    /// The data blocks that the file entry itself lists.
    fn direct_list(&self, entry: &FileEntry) -> (r: Vec<u64>)
        requires
            self@.header.legible(),
        ensures
            r@ == self@.direct(entry@),
    {
        let count: u64 = self.data_block_count(entry.size);
        let mut out: Vec<u64> = Vec::new();
        let mut i: usize = 0;
        proof {
            lemma_blocks_for(self@, entry.size as int);
        }
        while i < DIRECT_BLOCKS && (i as u64) < count
            invariant
                i <= DIRECT_BLOCKS,
                i <= count,
                out@ == entry.direct_blocks@.take(i as int),
            decreases DIRECT_BLOCKS - i,
        {
            out.push(entry.direct_blocks[i]);
            i = i + 1;
            assert(out@ =~= entry.direct_blocks@.take(i as int));
        }
        out
    }

    /// The file's data blocks, in order.
    fn collect_data_blocks(&self, entry: &FileEntry) -> (r: Result<Vec<u64>>)
        requires
            self.wf(),
            self@.header.legible(),
        ensures
            error::outcome(r) == self@.data_blocks(entry@),
    {
        let count: u64 = self.data_block_count(entry.size);
        let mut blocks = self.direct_list(entry);
        let w = match self.walk_overflow(entry) {
            Ok(w) => w,
            Err(e) => {
                return Err(e);
            },
        };
        let ghost direct = blocks@;
        let mut i: usize = 0;
        assert(direct + model::listed_blocks(chain_of(w@).take(0)) =~= direct);
        while i < w.len()
            invariant
                i <= w@.len(),
                blocks@ == direct + model::listed_blocks(chain_of(w@).take(i as int)),
            decreases w@.len() - i,
        {
            proof {
                let c = chain_of(w@);
                assert(c.take(i + 1).drop_last() =~= c.take(i as int));
                assert(c.take(i + 1).last() == (w@[i as int].0, w@[i as int].1@));
                assert(direct + (model::listed_blocks(c.take(i as int)) + w@[i as int].1@) =~= (
                direct + model::listed_blocks(c.take(i as int))) + w@[i as int].1@);
            }
            append_u64s(&mut blocks, w[i].1.as_slice());
            i = i + 1;
        }
        assert(chain_of(w@).take(i as int) =~= chain_of(w@));
        if blocks.len() as u64 != count {
            return Err(
                VaultError::CorruptContainer("file entry block count does not match recorded size"),
            );
        }
        Ok(blocks)
    }

    /// All of the file's blocks: data blocks and overflow index blocks.
    fn collect_all_blocks(&self, entry: &FileEntry) -> (r: Result<Vec<u64>>)
        requires
            self.wf(),
            self@.header.legible(),
        ensures
            error::outcome(r) == self@.all_blocks(entry@),
    {
        let mut all = self.direct_list(entry);
        let w = match self.walk_overflow(entry) {
            Ok(w) => w,
            Err(e) => {
                return Err(e);
            },
        };
        let ghost direct = all@;
        let mut i: usize = 0;
        assert(direct + model::chained_blocks(chain_of(w@).take(0)) =~= direct);
        while i < w.len()
            invariant
                i <= w@.len(),
                all@ == direct + model::chained_blocks(chain_of(w@).take(i as int)),
            decreases w@.len() - i,
        {
            proof {
                let c = chain_of(w@);
                assert(c.take(i + 1).drop_last() =~= c.take(i as int));
                assert(c.take(i + 1).last() == (w@[i as int].0, w@[i as int].1@));
                assert(direct + (model::chained_blocks(c.take(i as int)) + (seq![w@[i as int].0]
                    + w@[i as int].1@)) =~= (direct + model::chained_blocks(c.take(i as int))).push(
                    w@[i as int].0,
                ) + w@[i as int].1@);
            }
            all.push(w[i].0);
            append_u64s(&mut all, w[i].1.as_slice());
            i = i + 1;
        }
        assert(chain_of(w@).take(i as int) =~= chain_of(w@));
        Ok(all)
    }

    // -----------------------------------------------------------------
    // Searching
    // -----------------------------------------------------------------

    fn find_slot_by_name(&self, name: &str) -> (r: Result<Option<(u32, FileEntry)>>)
        requires
            self.wf(),
        ensures
            match r {
                Ok(Some((i, e))) => self@.find_file(name@, 0) == Ok::<
                    Option<(int, EntryModel)>,
                    Fault,
                >(Some((i as int, e@))) && i < self@.header.max_files && e@.fits(),
                Ok(None) => self@.find_file(name@, 0) == Ok::<Option<(int, EntryModel)>, Fault>(
                    None,
                ),
                Err(e) => self@.find_file(name@, 0) == Err::<Option<(int, EntryModel)>, Fault>(e@),
            },
    {
        let mut i: u32 = 0;
        while i < self.header.max_files
            invariant
                self.wf(),
                i <= self.header.max_files,
                self@.find_file(name@, 0) == self@.find_file(name@, i as int),
            decreases self.header.max_files - i,
        {
            match self.read_slot(i) {
                Err(e) => {
                    return Err(e);
                },
                Ok(entry) => {
                    if entry.is_occupied() && text::same_text(entry.name.as_str(), name) {
                        return Ok(Some((i, entry)));
                    }
                },
            }
            i = i + 1;
        }
        Ok(None)
    }

    fn find_free_slot(&self) -> (r: Result<Option<u32>>)
        requires
            self.wf(),
        ensures
            match r {
                Ok(Some(i)) => self@.find_free_slot(0) == Ok::<Option<int>, Fault>(Some(i as int))
                    && i < self@.header.max_files,
                Ok(None) => self@.find_free_slot(0) == Ok::<Option<int>, Fault>(None),
                Err(e) => self@.find_free_slot(0) == Err::<Option<int>, Fault>(e@),
            },
    {
        let mut i: u32 = 0;
        while i < self.header.max_files
            invariant
                self.wf(),
                i <= self.header.max_files,
                self@.find_free_slot(0) == self@.find_free_slot(i as int),
            decreases self.header.max_files - i,
        {
            match self.read_slot(i) {
                Err(e) => {
                    return Err(e);
                },
                Ok(entry) => {
                    if !entry.is_occupied() {
                        return Ok(Some(i));
                    }
                },
            }
            i = i + 1;
        }
        Ok(None)
    }

    fn all_occupied_entries(&self) -> (r: Result<Vec<(u32, FileEntry)>>)
        requires
            self.wf(),
        ensures
            match r {
                Ok(v) => self@.live_entries(self@.header.max_files as int) == Ok::<
                    Seq<(int, EntryModel)>,
                    Fault,
                >(entries_of(v@)),
                Err(e) => self@.live_entries(self@.header.max_files as int) == Err::<
                    Seq<(int, EntryModel)>,
                    Fault,
                >(e@),
            },
    {
        let mut out: Vec<(u32, FileEntry)> = Vec::new();
        let mut i: u32 = 0;
        assert(entries_of(out@) =~= Seq::empty());
        while i < self.header.max_files
            invariant
                self.wf(),
                i <= self.header.max_files,
                self@.live_entries(i as int) == Ok::<Seq<(int, EntryModel)>, Fault>(
                    entries_of(out@),
                ),
            decreases self.header.max_files - i,
        {
            match self.read_slot(i) {
                Err(e) => {
                    proof {
                        lemma_live_entries_err(self@, i as int, self@.header.max_files as int);
                    }
                    return Err(e);
                },
                Ok(entry) => {
                    if entry.is_occupied() {
                        let ghost before = entries_of(out@);
                        let ghost item = (i as int, entry@);
                        out.push((i, entry));
                        assert(entries_of(out@) =~= before.push(item));
                    }
                },
            }
            i = i + 1;
        }
        Ok(out)
    }

    /// The files in the vault, in slot order.
    pub fn list_files(&self) -> (r: Result<Vec<FileInfo>>)
        requires
            self.wf(),
        ensures
            match r {
                Ok(files) => self@.live_entries(self@.header.max_files as int) matches Ok(entries)
                    && infos_match(files@, entries),
                Err(e) => self@.live_entries(self@.header.max_files as int) == Err::<
                    Seq<(int, EntryModel)>,
                    Fault,
                >(e@),
            },
    {
        let entries = match self.all_occupied_entries() {
            Ok(entries) => entries,
            Err(e) => {
                return Err(e);
            },
        };
        let mut out: Vec<FileInfo> = Vec::new();
        let mut k: usize = 0;
        while k < entries.len()
            invariant
                k <= entries@.len(),
                out@.len() == k,
                forall|j: int|
                    0 <= j < k ==> info_matches(#[trigger] out@[j], entries_of(entries@)[j].1),
            decreases entries@.len() - k,
        {
            let e = &entries[k].1;
            out.push(
                FileInfo {
                    name: e.name.clone(),
                    size: e.size,
                    created_at: e.created_at,
                    modified_at: e.modified_at,
                },
            );
            k = k + 1;
        }
        Ok(out)
    }

    fn find_recipient_slot_by_signing_key(&self, signing: &[u8; 32]) -> (r: Result<
        Option<(u32, RecipientSlot)>,
    >)
        requires
            self.wf(),
        ensures
            match r {
                Ok(Some((i, s))) => self@.find_recipient(signing@, 0) == Ok::<
                    Option<(int, SlotModel)>,
                    Fault,
                >(Some((i as int, s@))) && i < self@.header.max_recipients,
                Ok(None) => self@.find_recipient(signing@, 0) == Ok::<
                    Option<(int, SlotModel)>,
                    Fault,
                >(None),
                Err(e) => self@.find_recipient(signing@, 0) == Err::<
                    Option<(int, SlotModel)>,
                    Fault,
                >(e@),
            },
    {
        let mut i: u32 = 0;
        while i < self.header.max_recipients
            invariant
                self.wf(),
                i <= self.header.max_recipients,
                self@.find_recipient(signing@, 0) == self@.find_recipient(signing@, i as int),
            decreases self.header.max_recipients - i,
        {
            match self.read_recipient_slot(i) {
                Err(e) => {
                    return Err(e);
                },
                Ok(slot) => {
                    if slot.is_occupied() && bytes::same_bytes(
                        slot.signing_pubkey.as_slice(),
                        signing.as_slice(),
                    ) {
                        return Ok(Some((i, slot)));
                    }
                },
            }
            i = i + 1;
        }
        Ok(None)
    }

    fn find_free_recipient_slot(&self) -> (r: Result<Option<u32>>)
        requires
            self.wf(),
        ensures
            match r {
                Ok(Some(i)) => self@.find_free_recipient(0) == Ok::<Option<int>, Fault>(
                    Some(i as int),
                ) && i < self@.header.max_recipients,
                Ok(None) => self@.find_free_recipient(0) == Ok::<Option<int>, Fault>(None),
                Err(e) => self@.find_free_recipient(0) == Err::<Option<int>, Fault>(e@),
            },
    {
        let mut i: u32 = 0;
        while i < self.header.max_recipients
            invariant
                self.wf(),
                i <= self.header.max_recipients,
                self@.find_free_recipient(0) == self@.find_free_recipient(i as int),
            decreases self.header.max_recipients - i,
        {
            match self.read_recipient_slot(i) {
                Err(e) => {
                    return Err(e);
                },
                Ok(slot) => {
                    if !slot.is_occupied() {
                        return Ok(Some(i));
                    }
                },
            }
            i = i + 1;
        }
        Ok(None)
    }

    /// The granted peers, in slot order.
    pub fn list_recipients(&self) -> (r: Result<Vec<RecipientInfo>>)
        requires
            self.wf(),
        ensures
            match r {
                Ok(peers) => self@.granted(self@.header.max_recipients as int) matches Ok(slots)
                    && peers_match(peers@, slots),
                Err(e) => self@.granted(self@.header.max_recipients as int) == Err::<
                    Seq<SlotModel>,
                    Fault,
                >(e@),
            },
    {
        let mut out: Vec<RecipientInfo> = Vec::new();
        let mut i: u32 = 0;
        while i < self.header.max_recipients
            invariant
                self.wf(),
                i <= self.header.max_recipients,
                self@.granted(i as int) is Ok,
                peers_match(out@, self@.granted(i as int)->Ok_0),
            decreases self.header.max_recipients - i,
        {
            match self.read_recipient_slot(i) {
                Err(e) => {
                    proof {
                        lemma_granted_err(self@, i as int, self@.header.max_recipients as int);
                    }
                    return Err(e);
                },
                Ok(slot) => {
                    if slot.is_occupied() {
                        out.push(
                            RecipientInfo {
                                peer_id: PeerId {
                                    signing_public: slot.signing_pubkey,
                                    encryption_public: slot.encryption_pubkey,
                                },
                                granted_at: slot.granted_at,
                            },
                        );
                    }
                },
            }
            i = i + 1;
        }
        Ok(out)
    }

    // -----------------------------------------------------------------
    // Reading files
    // -----------------------------------------------------------------

    /// The content of the file of this name, checked against its stored hash.
    pub fn read_file(&self, name: &str) -> (r: Result<Vec<u8>>)
        requires
            self.wf(),
            self@.header.legible(),
        ensures
            error::outcome(r) == self@.file(name@),
    {
        match self.find_slot_by_name(name) {
            Err(e) => Err(e),
            Ok(None) => Err(VaultError::FileNotFound(name.to_owned())),
            Ok(Some((_, entry))) => self.read_entry(&entry),
        }
    }

    fn read_entry(&self, entry: &FileEntry) -> (r: Result<Vec<u8>>)
        requires
            self.wf(),
            self@.header.legible(),
        ensures
            error::outcome(r) == self@.content(entry@),
    {
        if entry.size == 0 {
            let none: Vec<u8> = Vec::new();
            let empty = crypto::sha256(none.as_slice());
            assert(none@ =~= Seq::<u8>::empty());
            if !bytes::same_bytes(entry.file_hash.as_slice(), empty.as_slice()) {
                return Err(VaultError::IntegrityViolation("empty file hash mismatch"));
            }
            return Ok(none);
        }
        let blocks = match self.collect_data_blocks(entry) {
            Ok(blocks) => blocks,
            Err(e) => {
                return Err(e);
            },
        };
        let mut out: Vec<u8> = Vec::new();
        let mut k: usize = 0;
        assert(out@ =~= Seq::<u8>::empty());
        while k < blocks.len()
            invariant
                self.wf(),
                self@.header.legible(),
                k <= blocks@.len(),
                entry.size != 0,
                self@.data_blocks(entry@) == Ok::<Seq<u64>, Fault>(blocks@),
                self@.joined_blocks(entry.id, blocks@, k as int) == Ok::<Seq<u8>, Fault>(out@),
            decreases blocks@.len() - k,
        {
            match self.read_physical_block(blocks[k], entry.id) {
                Err(e) => {
                    proof {
                        lemma_joined_err(
                            self@,
                            entry.id,
                            blocks@,
                            k as int,
                            blocks@.len() as int,
                        );
                    }
                    return Err(e);
                },
                Ok(p) => {
                    bytes::append(&mut out, p.as_slice());
                },
            }
            k = k + 1;
        }
        if (out.len() as u64) > entry.size {
            out.truncate(entry.size as usize);
        }
        proof {
            let all = self@.joined_blocks(entry.id, blocks@, blocks@.len() as int)->Ok_0;
            assert(out@ =~= allocator::at_most(all, entry.size as nat));
        }
        let digest = crypto::sha256(out.as_slice());
        if !bytes::same_bytes(digest.as_slice(), entry.file_hash.as_slice()) {
            return Err(
                VaultError::IntegrityViolation(
                    "file contents do not match stored hash (corruption or tampering)",
                ),
            );
        }
        Ok(out)
    }
}

/// File slots as mathematical values.
spec fn entries_of(s: Seq<(u32, FileEntry)>) -> Seq<(int, EntryModel)> {
    s.map_values(|p: (u32, FileEntry)| (p.0 as int, p.1@))
}

/// The file as it is listed.
pub open spec fn info_matches(info: FileInfo, e: EntryModel) -> bool {
    info.name@ == e.name && info.size == e.size && info.created_at == e.created_at
        && info.modified_at == e.modified_at
}

/// The list of files that belongs to these entries.
pub open spec fn infos_match(infos: Seq<FileInfo>, entries: Seq<(int, EntryModel)>) -> bool {
    &&& infos.len() == entries.len()
    &&& forall|j: int| 0 <= j < infos.len() ==> info_matches(#[trigger] infos[j], entries[j].1)
}

/// The list of peers that belongs to these slots.
pub open spec fn peers_match(peers: Seq<RecipientInfo>, slots: Seq<SlotModel>) -> bool {
    &&& peers.len() == slots.len()
    &&& forall|j: int|
        0 <= j < peers.len() ==> (#[trigger] peers[j]).peer_id.signing_public@
            == slots[j].signing_pubkey && peers[j].peer_id.encryption_public@
            == slots[j].encryption_pubkey && peers[j].granted_at == slots[j].granted_at
}

proof fn lemma_live_entries_err(v: VaultModel, i: int, n: int)
    requires
        0 <= i < n,
        v.live_entries(i) is Ok,
        v.slot(i) is Err,
    ensures
        v.live_entries(n) == Err::<Seq<(int, EntryModel)>, Fault>(v.slot(i)->Err_0),
    decreases n,
{
    if i + 1 < n {
        lemma_live_entries_err(v, i, n - 1);
    }
}

proof fn lemma_granted_err(v: VaultModel, i: int, n: int)
    requires
        0 <= i < n,
        v.granted(i) is Ok,
        v.recipient(i) is Err,
    ensures
        v.granted(n) == Err::<Seq<SlotModel>, Fault>(v.recipient(i)->Err_0),
    decreases n,
{
    if i + 1 < n {
        lemma_granted_err(v, i, n - 1);
    }
}

proof fn lemma_joined_err(v: VaultModel, id: u128, blocks: Seq<u64>, k: int, n: int)
    requires
        0 <= k < n <= blocks.len(),
        v.joined_blocks(id, blocks, k) is Ok,
        v.block(blocks[k], id) is Err,
    ensures
        v.joined_blocks(id, blocks, n) == Err::<Seq<u8>, Fault>(v.block(blocks[k], id)->Err_0),
    decreases n,
{
    if k + 1 < n {
        lemma_joined_err(v, id, blocks, k, n - 1);
    }
}

/// A file has no negative number of blocks, and content has at least one.
pub(crate) proof fn lemma_blocks_for(v: VaultModel, size: int)
    requires
        v.header.legible(),
        0 <= size,
    ensures
        0 <= v.blocks_for(size),
        v.blocks_for(size) <= size,
        v.blocks_for(size) == 0 <==> size == 0,
        size <= v.blocks_for(size) * v.header.chunk_len(),
        size > 0 ==> (v.blocks_for(size) - 1) * v.header.chunk_len() < size,
        v.header.operable() && size > 0 ==> 20 * (v.blocks_for(size) - 1) < size,
{
    let d = v.header.chunk_len();
    if size > 0 {
        let q = size / d;
        let r = size % d;
        assert(size == d * q + r && 0 <= r < d && q >= 0) by (nonlinear_arith)
            requires
                d >= 1,
                size > 0,
                q == size / d,
                r == size % d,
        ;
        assert(q <= d * q) by (nonlinear_arith)
            requires
                d >= 1,
                q >= 0,
        ;
        assert((q - 1) * d == q * d - d && (q + 1) * d == q * d + d && q * d == d * q)
            by (nonlinear_arith);
        if v.header.operable() {
            assert(20 * q <= d * q) by (nonlinear_arith)
                requires
                    d >= 20,
                    q >= 0,
            ;
        }
    }
}

/// What a plan needs: index blocks only beside more than eight data blocks,
/// and never more of them than of data blocks.
pub(crate) proof fn lemma_plan(v: VaultModel, size: int)
    requires
        v.can_store(size),
        0 <= size <= u64::MAX,
    ensures
        v.plan(size).data == v.blocks_for(size),
        0 <= v.plan(size).data,
        0 <= v.plan(size).index <= v.plan(size).data,
        v.plan(size).total() <= u64::MAX / 8,
        v.plan(size).index > 0 <==> v.plan(size).data > 8,
        v.plan(size).data > 8 ==> (v.plan(size).index - 1) * v.header.index_capacity()
            < v.plan(size).data - 8 <= v.plan(size).index * v.header.index_capacity(),
{
    lemma_blocks_for(v, size);
    let x = v.plan(size).data - 8;
    let c = v.header.index_capacity();
    if x > 0 {
        let q = x / c;
        let r = x % c;
        assert(x == c * q + r && 0 <= r < c && 0 <= q <= x && (r > 0 ==> q < x) && (r == 0 ==> q
            > 0)) by (nonlinear_arith)
            requires
                c >= 1,
                x > 0,
                q == x / c,
                r == x % c,
        ;
        assert((q - 1) * c == q * c - c && (q + 1) * c == q * c + c && q * c == c * q)
            by (nonlinear_arith);
    }
}

/// `a * b`, or the largest 64-bit number if that is smaller.
fn clamped_product(a: u64, b: u32) -> (r: u64)
    ensures
        r == model::least(a * b, u64::MAX as int),
{
    proof {
        let x = a as int;
        let y = b as int;
        assert(0 <= x * y <= 0xffff_ffff_ffff_ffff * 0xffff_ffff) by (nonlinear_arith)
            requires
                0 <= x <= 0xffff_ffff_ffff_ffff,
                0 <= y <= 0xffff_ffff,
        ;
    }
    let p: u128 = a as u128 * b as u128;
    if p > u64::MAX as u128 {
        u64::MAX
    } else {
        p as u64
    }
}

impl Vault {
    // -----------------------------------------------------------------
    // Writing regions
    // -----------------------------------------------------------------

    /// Writes `data` at `offset` and logs the range. Every change of the
    /// container goes through here.
    fn write_at(&mut self, offset: u64, data: &[u8])
        requires
            old(self).wf(),
            image::writable(offset as int, data@),
        ensures
            final(self).wf(),
            final(self)@ == old(self)@.written(offset as int, data@),
            replay::keeps_trace(old(self)@, final(self)@),
    {
        let ghost before = self@;
        let _ = self.image.write(offset, data);
        let copy = bytes::to_vec(data);
        let ghost log = self.change_log@;
        self.change_log.push((offset, copy));
        assert(ranges_of(self.change_log@) =~= ranges_of(log).push((offset, data@)));
        proof {
            replay::lemma_write_traced(before, offset, data@);
        }
    }

    fn write_header(&mut self)
        requires
            old(self).wf(),
        ensures
            final(self).wf(),
            final(self)@ == old(self)@.with_stored_header(old(self)@.header),
            replay::keeps_trace(old(self)@, final(self)@),
    {
        let encoded = self.header.encode();
        self.write_at(0, encoded.as_slice());
    }

    fn write_bitmap(&mut self)
        requires
            old(self).wf(),
            old(self)@.header.writable(),
        ensures
            final(self).wf(),
            final(self)@ == old(self)@.with_stored_bitmap(old(self)@.bitmap),
            replay::keeps_trace(old(self)@, final(self)@),
    {
        let offset: u64 = self.header.bitmap_offset;
        let copy = bytes::to_vec(self.allocator.as_bytes());
        self.write_at(offset, copy.as_slice());
    }

    fn write_slot(&mut self, i: u32, entry: &FileEntry)
        requires
            old(self).wf(),
            old(self)@.header.writable(),
            i < old(self)@.header.max_files,
            entry@.fits(),
        ensures
            final(self).wf(),
            final(self)@ == old(self)@.with_slot(i as int, entry@),
            replay::keeps_trace(old(self)@, final(self)@),
    {
        proof {
            lemma_scaled(
                i as int,
                self.header.max_files as int,
                self.header.entry_size as int,
            );
        }
        let offset: u64 = self.header.file_table_offset + i as u64 * self.header.entry_size as u64;
        let encoded = entry.encode();
        self.write_at(offset, encoded.as_slice());
    }

    fn write_recipient_slot(&mut self, i: u32, slot: &RecipientSlot)
        requires
            old(self).wf(),
            old(self)@.header.writable(),
            i < old(self)@.header.max_recipients,
            slot@.fits(),
        ensures
            final(self).wf(),
            final(self)@ == old(self)@.with_recipient(i as int, slot@),
            replay::keeps_trace(old(self)@, final(self)@),
    {
        proof {
            lemma_scaled(
                i as int,
                self.header.max_recipients as int,
                self.header.recipient_slot_size as int,
            );
        }
        let offset: u64 = self.header.recipient_offset + i as u64
            * self.header.recipient_slot_size as u64;
        let encoded = slot.encode();
        self.write_at(offset, encoded.as_slice());
    }

    /// Appends an admin-signed record to the chain and stores the header that
    /// points past it.
    fn append_signed_chain_record(
        &mut self,
        op: ChainOp,
        target_id: u128,
        data_hash: [u8; 32],
        at: i64,
    ) -> (r: Result<()>)
        requires
            old(self).wf(),
            old(self)@.header.writable(),
            old(self)@.header.chain_next_seq < u64::MAX,
        ensures
            final(self).wf(),
            old(self)@.admin is None ==> image::outcome_is(r, Fault::NotAuthorized)
                && final(self)@ == old(self)@,
            old(self)@.admin is Some ==> r is Ok && final(self)@ == old(self)@.with_record(
                op,
                target_id,
                data_hash@,
                at,
            ) && old(self)@.record_verifies(op, target_id, data_hash@, at),
            replay::keeps_trace(old(self)@, final(self)@),
    {
        let seq: u64 = self.header.chain_next_seq;
        let prev_hash = self.header.chain_last_hash;
        let rec = match &self.admin_identity {
            None => {
                return Err(VaultError::NotAuthorized);
            },
            Some(admin) => ChainRecord::new_signed(
                seq,
                prev_hash,
                op,
                target_id,
                data_hash,
                at,
                admin,
            ),
        };
        let ghost before = self@;
        assert(rec@ == before.next_record(op, target_id, data_hash@, at));
        let place: u64 = seq % self.header.max_chain_records as u64;
        proof {
            lemma_scaled(
                place as int,
                self.header.max_chain_records as int,
                self.header.chain_record_size as int,
            );
        }
        let offset: u64 = self.header.chain_offset + place * self.header.chain_record_size as u64;
        let encoded = rec.encode();
        self.write_at(offset, encoded.as_slice());
        let ghost recorded = self@;
        self.header.chain_next_seq = seq + 1;
        self.header.chain_last_hash = rec.record_hash;
        assert(replay::keeps_trace(recorded, self@));
        self.write_header();
        Ok(())
    }

    fn write_physical_block(&mut self, i: u64, id: u128, plaintext: &[u8])
        requires
            old(self).wf(),
            old(self)@.header.writable(),
            old(self)@.header.block_at(i as int) + old(self)@.header.block_size <= image::MAX_LEN,
            plaintext@.len() <= old(self)@.header.chunk_len(),
        ensures
            final(self).wf(),
            final(self)@ == old(self)@.with_block(i, id, plaintext@),
            model::opens(old(self)@.key, id, i, plaintext@),
            replay::keeps_trace(old(self)@, final(self)@),
    {
        broadcast use bytes::lemma_le_length;

        let ghost before = self@;
        match self.key.encrypt_block(id, i, plaintext) {
            Err(_) => {
                assert(false);
            },
            Ok(ciphertext) => {
                let mut w = codec::Writer::new();
                w.put_u32(plaintext.len() as u32);
                w.put_bytes(ciphertext.as_slice());
                assert(Seq::<u8>::empty() + bytes::le(plaintext@.len(), 4) =~= bytes::le(
                    plaintext@.len(),
                    4,
                ));
                let buf = w.fill(self.header.block_size as u64);
                proof {
                    let a = i as int;
                    let b = self.header.block_size as int;
                    assert(0 <= a * b) by (nonlinear_arith)
                        requires
                            0 <= a,
                            0 <= b,
                    ;
                }
                let offset: u64 = self.header.data_offset + i * self.header.block_size as u64;
                self.write_at(offset, buf.as_slice());
            },
        }
    }

    /// Writes an overflow index block: the next index block and the data
    /// blocks it lists.
    fn write_index_block(&mut self, i: u64, id: u128, next: u64, listed: &[u64])
        requires
            old(self).wf(),
            old(self)@.header.operable(),
            old(self)@.header.block_at(i as int) + old(self)@.header.block_size <= image::MAX_LEN,
            listed@.len() <= old(self)@.header.index_capacity(),
        ensures
            final(self).wf(),
            final(self)@ == old(self)@.with_block(i, id, model::index_payload(next, listed@)),
            model::opens(old(self)@.key, id, i, model::index_payload(next, listed@)),
            replay::keeps_trace(old(self)@, final(self)@),
    {
        broadcast use bytes::lemma_le_length;

        let mut w = codec::Writer::new();
        w.put_u64(next);
        w.put_u32(listed.len() as u32);
        let ghost start = w@;
        let mut k: usize = 0;
        assert(start + records::le_list(listed@.take(0)) =~= start);
        while k < listed.len()
            invariant
                k <= listed@.len(),
                w@ == start + records::le_list(listed@.take(k as int)),
            decreases listed@.len() - k,
        {
            proof {
                assert(listed@.take(k + 1).drop_last() =~= listed@.take(k as int));
                assert(start + (records::le_list(listed@.take(k as int)) + bytes::le(
                    listed@[k as int] as nat,
                    8,
                )) =~= (start + records::le_list(listed@.take(k as int))) + bytes::le(
                    listed@[k as int] as nat,
                    8,
                ));
            }
            w.put_u64(listed[k]);
            k = k + 1;
        }
        proof {
            assert(listed@.take(k as int) =~= listed@);
            assert(w@ =~= model::index_payload(next, listed@));
            records::lemma_le_list(listed@);
        }
        self.write_physical_block(i, id, w.buf.as_slice());
    }
}

impl Vault {
    // -----------------------------------------------------------------
    // Storing content
    // -----------------------------------------------------------------

    /// Allocates blocks for `data`, fills them and stores the bitmap. Returns
    /// the direct blocks, the first overflow index block and the number of
    /// blocks used.
    fn store_new_content(&mut self, id: u128, data: &[u8]) -> (r: Result<([u64; 8], u64, u32)>)
        requires
            old(self).wf(),
            old(self)@.can_store(data@.len() as int),
        ensures
            final(self).wf(),
            match r {
                Ok((direct, overflow, used)) => {
                    let size = data@.len() as int;
                    let e = old(self)@.entry_for(id, Seq::empty(), data@, 0, 0);
                    &&& old(self)@.has_room(size)
                    &&& final(self)@ == old(self)@.with_content(id, data@)
                    &&& direct@ == e.direct_blocks
                    &&& overflow == e.overflow_block
                    &&& used == e.blocks_used
                    &&& old(self)@.content_opens(id, data@)
                },
                Err(e) => {
                    let size = data@.len() as int;
                    &&& !old(self)@.has_room(size)
                    &&& final(self)@ == old(self)@
                    &&& e@ == old(self)@.no_room(size, old(self)@.free_list().len() as int)
                },
            },
            replay::keeps_trace(old(self)@, final(self)@),
    {
        let ghost start = self@;
        let ghost size = data@.len() as int;
        assert(data@.len() == data.len());
        let n: u64 = data.len() as u64;
        let chunk_len: u64 = self.plain_chunk_len();
        let count: u64 = self.data_block_count(n);
        proof {
            lemma_blocks_for(start, size);
            lemma_plan(start, size);
        }
        let mut per_index: u64 = 1;
        let index_count: u64 = if count <= 8 {
            0
        } else {
            per_index = self.index_block_capacity();
            let excess: u64 = count - 8;
            assert(excess / per_index <= excess) by (nonlinear_arith)
                requires
                    per_index >= 1,
            ;
            if excess % per_index == 0 {
                excess / per_index
            } else {
                excess / per_index + 1
            }
        };
        assert(index_count == start.plan(size).index);
        let total: u64 = count + index_count;

        let free: u64 = self.allocator.free_count();
        if free < total {
            return Err(
                VaultError::InsufficientSpace {
                    requested: clamped_product(total, self.header.block_size),
                    available: clamped_product(free, self.header.block_size),
                },
            );
        }
        let allocated = self.allocator.allocate(total);
        let ghost allotted = allocated@;
        let ghost blocks = start.allotted_data(size);
        let ghost index_blocks = start.allotted_index(size);
        let ghost marked = self@;
        proof {
            allocator::lemma_free_blocks(start.bitmap, start.header.block_count as nat);
            assert(allotted == start.allotted(size));
            assert(allotted.len() == total);
            assert(blocks.len() == count);
            assert(index_blocks.len() == index_count);
            assert forall|k: int| 0 <= k < allotted.len() implies start.header.block_at(
                #[trigger] allotted[k] as int,
            ) + start.header.block_size <= image::MAX_LEN by {
                assert(allotted[k] == start.free_list()[k]);
                lemma_scaled(
                    allotted[k] + 1,
                    start.header.block_count as int,
                    start.header.block_size as int,
                );
                assert((allotted[k] + 1) * start.header.block_size == allotted[k]
                    * start.header.block_size + start.header.block_size) by (nonlinear_arith);
            }
        }

        let mut i: u64 = 0;
        while i < count
            invariant
                self.wf(),
                i <= count,
                n == data@.len(),
                n == data.len(),
                size == n,
                count == start.blocks_for(size),
                chunk_len == start.header.chunk_len(),
                start.header.writable(),
                marked.header == start.header,
                marked.key == start.key,
                self@.header == start.header,
                self@.key == start.key,
                self@.bitmap == marked.bitmap,
                self@ == marked.with_chunks(id, data@, blocks, i as int),
                replay::keeps_trace(start, self@),
                allotted == allocated@,
                blocks == allotted.take(count as int),
                count <= allotted.len(),
                forall|k: int|
                    0 <= k < allotted.len() ==> start.header.block_at(
                        #[trigger] allotted[k] as int,
                    ) + start.header.block_size <= image::MAX_LEN,
                forall|k: int|
                    0 <= k < i ==> model::opens(
                        start.key,
                        id,
                        #[trigger] blocks[k],
                        model::chunk(data@, start.header.chunk_len(), k),
                    ),
            decreases count - i,
        {
            proof {
                lemma_blocks_for(start, size);
                lemma_scaled(i as int, count - 1, chunk_len as int);
                assert((i + 1) * chunk_len == i * chunk_len + chunk_len) by (nonlinear_arith);
                assert(allocated@[i as int] == blocks[i as int]);
                assert(allocated.len() == allocated@.len());
            }
            let from: u64 = i * chunk_len;
            let left: u64 = n - from;
            let to: u64 = if left < chunk_len {
                n
            } else {
                from + chunk_len
            };
            let part = vstd::slice::slice_subrange(data, from as usize, to as usize);
            assert(part@ =~= model::chunk(data@, chunk_len as int, i as int));
            self.write_physical_block(allocated[i as usize], id, part);
            i = i + 1;
        }
        assert(blocks.len() == count);
        let ghost filled = self@;
        let ghost listed = blocks.skip(model::least(blocks.len() as int, 8));

        let mut direct = [0u64; 8];
        let mut d: usize = 0;
        while d < DIRECT_BLOCKS && (d as u64) < count
            invariant
                d <= DIRECT_BLOCKS,
                d <= count,
                count <= allocated@.len(),
                blocks == allocated@.take(count as int),
                forall|k: int| 0 <= k < d ==> direct@[k] == blocks[k],
                forall|k: int| d <= k < 8 ==> direct@[k] == 0,
            decreases DIRECT_BLOCKS - d,
        {
            direct[d] = allocated[d];
            d = d + 1;
        }

        let mut k: u64 = 0;
        while k < index_count
            invariant
                self.wf(),
                k <= index_count,
                size == data@.len(),
                size <= u64::MAX,
                start.can_store(size),
                count == start.plan(size).data,
                index_count == start.plan(size).index,
                total == count + index_count,
                index_count > 0 ==> per_index == start.header.index_capacity(),
                per_index >= 1,
                filled.header == start.header,
                filled.key == start.key,
                self@.header == start.header,
                self@.key == start.key,
                self@.bitmap == marked.bitmap,
                self@ == filled.with_indices(id, listed, index_blocks, k as int),
                replay::keeps_trace(start, self@),
                allotted == allocated@,
                allotted.len() == total,
                blocks == allotted.take(count as int),
                index_blocks == allotted.skip(count as int),
                listed == blocks.skip(model::least(blocks.len() as int, 8)),
                forall|j: int|
                    0 <= j < allotted.len() ==> start.header.block_at(
                        #[trigger] allotted[j] as int,
                    ) + start.header.block_size <= image::MAX_LEN,
                forall|j: int|
                    0 <= j < k ==> model::opens(
                        start.key,
                        id,
                        #[trigger] index_blocks[j],
                        model::index_payload(
                            model::next_index(index_blocks, j),
                            model::index_chunk(listed, start.header.index_capacity(), j),
                        ),
                    ),
            decreases index_count - k,
        {
            proof {
                lemma_plan(start, size);
                lemma_scaled(k as int, index_count - 1, per_index as int);
                assert((k + 1) * per_index == k * per_index + per_index) by (nonlinear_arith);
                assert(allocated.len() == allocated@.len());
                assert(listed.len() == count - 8);
                assert(index_blocks[k as int] == allocated@[count + k]);
            }
            let from: u64 = k * per_index;
            let left: u64 = (count - 8) - from;
            let to: u64 = if left < per_index {
                count - 8
            } else {
                from + per_index
            };
            let part = vstd::slice::slice_subrange(
                allocated.as_slice(),
                (8 + from) as usize,
                (8 + to) as usize,
            );
            assert(part@ =~= model::index_chunk(listed, per_index as int, k as int));
            let next: u64 = if k + 1 < index_count {
                allocated[(count + k + 1) as usize]
            } else {
                0
            };
            assert(next == model::next_index(index_blocks, k as int));
            self.write_index_block(allocated[(count + k) as usize], id, next, part);
            k = k + 1;
        }
        let overflow: u64 = if index_count > 0 {
            assert(allocated.len() == allocated@.len());
            assert(index_blocks[0] == allocated@[count as int]);
            allocated[count as usize]
        } else {
            0
        };
        self.write_bitmap();
        assert(direct@ =~= start.entry_for(id, Seq::empty(), data@, 0, 0).direct_blocks);
        Ok((direct, overflow, (total % 0x1_0000_0000) as u32))
    }
}

/// The identifier of a peer in the chain.
fn peer_target_id(signing: &[u8; 32]) -> (r: u128)
    ensures
        r == model::peer_target(signing@),
{
    let digest = crypto::sha256(signing.as_slice());
    proof {
        bytes::lemma_pow256_values();
    }
    bytes::read_le(digest.as_slice(), 0, 16)
}

impl Vault {
    // -----------------------------------------------------------------
    // Changing files
    // -----------------------------------------------------------------

    /// Adds a file under a fresh identifier and the current time.
    pub fn add_file(&mut self, name: &str, data: &[u8]) -> (r: Result<()>)
        requires
            old(self).wf(),
            old(self)@.admin is Some ==> old(self)@.can_store(data@.len() as int)
                && old(self)@.header.chain_next_seq < u64::MAX,
        ensures
            final(self).wf(),
            exists|id: u128, at: i64, chained_at: i64| #[trigger]
                old(self)@.adding(name@, data@, id, at, chained_at) == (
                    final(self)@,
                    error::outcome(r),
                ) && readings::issued(id) && readings::clock_showed(at) && readings::clock_showed(
                    chained_at,
                ) && (old(self)@.healthy() && r is Ok ==> added_when(
                    old(self)@,
                    final(self)@,
                    name@,
                    data@,
                    id,
                    at,
                    chained_at,
                )),
            old(self)@.healthy() ==> (r is Ok <==> laws::addable(old(self)@, name@, data@)),
            old(self)@.healthy() && r is Err ==> final(self)@ == old(self)@,
            replay::keeps_trace(old(self)@, final(self)@),
            old(self)@.healthy() && r is Ok ==> laws::added(old(self)@, final(self)@, name@, data@),
    {
        let id: u128 = readings::fresh_id();
        let at: i64 = readings::now();
        let chained_at: i64 = readings::now();
        let ghost start = self@;
        let r = self.add_file_with(name, data, id, at, chained_at);
        proof {
            if start.healthy() {
                laws::law_add_succeeds(start, name@, data@, id, at, chained_at);
            }
        }
        r
    }

    /// Adds a file under the given identifier and times.
    pub fn add_file_with(
        &mut self,
        name: &str,
        data: &[u8],
        id: u128,
        at: i64,
        chained_at: i64,
    ) -> (r: Result<()>)
        requires
            old(self).wf(),
            old(self)@.admin is Some ==> old(self)@.can_store(data@.len() as int)
                && old(self)@.header.chain_next_seq < u64::MAX,
        ensures
            final(self).wf(),
            old(self)@.adding(name@, data@, id, at, chained_at) == (final(self)@, error::outcome(r)),
            replay::keeps_trace(old(self)@, final(self)@),
            old(self)@.healthy() && r is Ok ==> laws::added(old(self)@, final(self)@, name@, data@)
                && added_when(old(self)@, final(self)@, name@, data@, id, at, chained_at),
    {
        let ghost start = self@;
        match self.require_admin() {
            Ok(()) => {},
            Err(e) => {
                return Err(e);
            },
        }
        if name.is_empty() || name.as_bytes().len() > MAX_FILENAME_LEN {
            return Err(VaultError::FieldTooLong);
        }
        match self.find_slot_by_name(name) {
            Err(e) => {
                return Err(e);
            },
            Ok(Some(_)) => {
                return Err(VaultError::FileAlreadyExists(name.to_owned()));
            },
            Ok(None) => {},
        }
        let slot: u32 = match self.find_free_slot() {
            Err(e) => {
                return Err(e);
            },
            Ok(None) => {
                return Err(VaultError::FileTableFull);
            },
            Ok(Some(i)) => i,
        };
        let (direct_blocks, overflow_block, blocks_used) = match self.store_new_content(id, data) {
            Ok(stored) => stored,
            Err(e) => {
                return Err(e);
            },
        };
        let file_hash = crypto::sha256(data);
        let entry = FileEntry {
            id,
            name: name.to_owned(),
            size: data.len() as u64,
            blocks_used,
            direct_blocks,
            overflow_block,
            file_hash,
            created_at: at,
            modified_at: at,
            flags: ENTRY_FLAG_OCCUPIED,
        };
        proof {
            let e = start.entry_for(id, name@, data@, at, at);
            assert(entry@ =~= e);
            lemma_with_content_keeps(start, id, data@);
        }
        self.write_slot(slot, &entry);
        let r = self.append_signed_chain_record(ChainOp::FileAdded, id, file_hash, chained_at);
        proof {
            if start.healthy() {
                assert(data@.len() == data.len());
                laws::lemma_adding(start, name@, data@, id, at, chained_at);
            }
        }
        r
    }

    /// Replaces a file's content, at the current time. The new content belongs
    /// to a fresh identifier, so that none of its blocks is sealed under the
    /// nonce of a block that it replaces.
    pub fn update_file(&mut self, name: &str, new_data: &[u8]) -> (r: Result<()>)
        requires
            old(self).wf(),
            old(self)@.admin is Some ==> old(self)@.can_store(new_data@.len() as int)
                && old(self)@.header.chain_next_seq < u64::MAX,
        ensures
            final(self).wf(),
            exists|id: u128, at: i64, chained_at: i64| #[trigger]
                old(self)@.updating(name@, new_data@, id, at, chained_at) == (
                    final(self)@,
                    error::outcome(r),
                ) && !laws::stored_under(old(self)@, name@, id) && readings::issued(id)
                    && readings::clock_showed(at) && readings::clock_showed(chained_at) && (old(
                    self,
                )@.healthy() && r is Ok ==> laws::updated(
                    old(self)@,
                    final(self)@,
                    name@,
                    new_data@,
                    id,
                ) && updated_when(
                    old(self)@,
                    final(self)@,
                    name@,
                    new_data@,
                    id,
                    at,
                    chained_at,
                )),
            old(self)@.healthy() ==> (r is Ok <==> laws::updatable(old(self)@, name@, new_data@)),
            old(self)@.healthy() && r is Err ==> final(self)@ == old(self)@,
            replay::keeps_trace(old(self)@, final(self)@),
            old(self)@.healthy() && r is Ok ==> laws::sealed_afresh(
                old(self)@,
                final(self)@,
                name@,
            ),
            old(self)@.healthy() && r is Err ==> final(self)@ == old(self)@,
    {
        let id: u128 = match self.find_slot_by_name(name) {
            Ok(Some((_, entry))) => readings::fresh_id_but(entry.id),
            _ => readings::fresh_id(),
        };
        let at: i64 = readings::now();
        let chained_at: i64 = readings::now();
        let ghost start = self@;
        assert(new_data@.len() == new_data.len());
        let r = self.update_file_with(name, new_data, id, at, chained_at);
        proof {
            if start.healthy() {
                laws::law_update_succeeds(start, name@, new_data@, id, at, chained_at);
            }
        }
        r
    }

    /// Replaces a file's content, under the given identifier and at the given
    /// times. Only this file's blocks and its slot are touched.
    pub fn update_file_with(
        &mut self,
        name: &str,
        new_data: &[u8],
        id: u128,
        at: i64,
        chained_at: i64,
    ) -> (r: Result<()>)
        requires
            old(self).wf(),
            old(self)@.admin is Some ==> old(self)@.can_store(new_data@.len() as int)
                && old(self)@.header.chain_next_seq < u64::MAX,
        ensures
            final(self).wf(),
            old(self)@.updating(name@, new_data@, id, at, chained_at) == (
                final(self)@,
                error::outcome(r),
            ),
            replay::keeps_trace(old(self)@, final(self)@),
            old(self)@.healthy() && r is Ok ==> laws::updated(
                old(self)@,
                final(self)@,
                name@,
                new_data@,
                id,
            ) && updated_when(old(self)@, final(self)@, name@, new_data@, id, at, chained_at),
            old(self)@.healthy() && r is Err ==> final(self)@ == old(self)@,
    {
        let ghost start = self@;
        match self.require_admin() {
            Ok(()) => {},
            Err(e) => {
                return Err(e);
            },
        }
        let (slot, old_entry) = match self.find_slot_by_name(name) {
            Err(e) => {
                return Err(e);
            },
            Ok(None) => {
                return Err(VaultError::FileNotFound(name.to_owned()));
            },
            Ok(Some(found)) => found,
        };
        let old_blocks = match self.collect_all_blocks(&old_entry) {
            Ok(blocks) => blocks,
            Err(e) => {
                return Err(e);
            },
        };
        let ghost size = new_data@.len() as int;
        assert(new_data@.len() == new_data.len());
        let total: u64 = self.blocks_needed(new_data.len() as u64);
        let free: u64 = self.allocator.free_count();
        let available: u64 = free.saturating_add(old_blocks.len() as u64);
        if available < total {
            return Err(
                VaultError::InsufficientSpace {
                    requested: clamped_product(total, self.header.block_size),
                    available: clamped_product(available, self.header.block_size),
                },
            );
        }
        self.allocator.free(old_blocks.as_slice());
        self.write_bitmap();
        let ghost freed = self@;
        assert(freed == start.with_freed(old_blocks@));

        let (direct_blocks, overflow_block, blocks_used) = match self.store_new_content(
            id,
            new_data,
        ) {
            Ok(stored) => stored,
            Err(e) => {
                proof {
                    if start.healthy() {
                        laws::lemma_updating(start, name@, new_data@, id, at, chained_at);
                    }
                }
                return Err(e);
            },
        };
        let file_hash = crypto::sha256(new_data);
        let entry = FileEntry {
            id,
            name: old_entry.name.clone(),
            size: new_data.len() as u64,
            blocks_used,
            direct_blocks,
            overflow_block,
            file_hash,
            created_at: old_entry.created_at,
            modified_at: at,
            flags: ENTRY_FLAG_OCCUPIED,
        };
        proof {
            let e = freed.entry_for(
                id,
                old_entry@.name,
                new_data@,
                old_entry.created_at,
                at,
            );
            assert(entry@ =~= e);
            lemma_with_content_keeps(freed, id, new_data@);
        }
        self.write_slot(slot, &entry);
        let r = self.append_signed_chain_record(
            ChainOp::FileUpdated,
            id,
            file_hash,
            chained_at,
        );
        proof {
            if start.healthy() {
                laws::lemma_updating(start, name@, new_data@, id, at, chained_at);
            }
        }
        r
    }

    /// How many blocks `size` bytes of content need in all.
    fn blocks_needed(&self, size: u64) -> (r: u64)
        requires
            self@.can_store(size as int),
        ensures
            r == self@.plan(size as int).total(),
    {
        proof {
            lemma_plan(self@, size as int);
        }
        let count: u64 = self.data_block_count(size);
        if count <= 8 {
            count
        } else {
            let per_index: u64 = self.index_block_capacity();
            let excess: u64 = count - 8;
            assert(excess / per_index <= excess) by (nonlinear_arith)
                requires
                    per_index >= 1,
            ;
            if excess % per_index == 0 {
                count + excess / per_index
            } else {
                count + (excess / per_index + 1)
            }
        }
    }

    /// Deletes a file, at the current time.
    pub fn delete_file(&mut self, name: &str) -> (r: Result<()>)
        requires
            old(self).wf(),
            old(self)@.admin is Some ==> old(self)@.header.writable()
                && old(self)@.header.chain_next_seq < u64::MAX,
        ensures
            final(self).wf(),
            exists|chained_at: i64| #[trigger]
                old(self)@.deleting(name@, chained_at) == (final(self)@, error::outcome(r))
                    && readings::clock_showed(chained_at) && (old(self)@.healthy() && r is Ok
                    ==> laws::tells_of_deletion(old(self)@, final(self)@, name@, chained_at)),
            old(self)@.healthy() ==> (r is Ok <==> laws::deletable(old(self)@, name@)),
            old(self)@.healthy() && r is Err ==> final(self)@ == old(self)@,
            replay::keeps_trace(old(self)@, final(self)@),
            old(self)@.healthy() && r is Ok ==> laws::deleted(old(self)@, final(self)@, name@),
    {
        let chained_at: i64 = readings::now();
        let ghost start = self@;
        let r = self.delete_file_with(name, chained_at);
        proof {
            if start.healthy() {
                laws::law_delete_succeeds(start, name@, chained_at);
            }
        }
        r
    }

    /// Deletes a file, at the given time: its blocks are freed and its slot
    /// becomes a tombstone.
    pub fn delete_file_with(&mut self, name: &str, chained_at: i64) -> (r: Result<()>)
        requires
            old(self).wf(),
            old(self)@.admin is Some ==> old(self)@.header.writable()
                && old(self)@.header.chain_next_seq < u64::MAX,
        ensures
            final(self).wf(),
            old(self)@.deleting(name@, chained_at) == (final(self)@, error::outcome(r)),
            replay::keeps_trace(old(self)@, final(self)@),
            old(self)@.healthy() && r is Ok ==> laws::deleted(old(self)@, final(self)@, name@)
                && laws::tells_of_deletion(old(self)@, final(self)@, name@, chained_at),
    {
        let ghost start = self@;
        match self.require_admin() {
            Ok(()) => {},
            Err(e) => {
                return Err(e);
            },
        }
        let (slot, entry) = match self.find_slot_by_name(name) {
            Err(e) => {
                return Err(e);
            },
            Ok(None) => {
                return Err(VaultError::FileNotFound(name.to_owned()));
            },
            Ok(Some(found)) => found,
        };
        let blocks = match self.collect_all_blocks(&entry) {
            Ok(blocks) => blocks,
            Err(e) => {
                return Err(e);
            },
        };
        self.allocator.free(blocks.as_slice());
        self.write_bitmap();
        assert(self@ == start.with_freed(blocks@));

        let ghost live = entry@;
        let data_hash = crypto::sha256(entry.name.as_str().as_bytes());
        let id: u128 = entry.id;
        let mut tombstone = entry;
        tombstone.flags = ENTRY_FLAG_DELETED;
        assert(tombstone@ =~= EntryModel { flags: 2, ..live });
        self.write_slot(slot, &tombstone);
        let r = self.append_signed_chain_record(ChainOp::FileDeleted, id, data_hash, chained_at);
        proof {
            if start.healthy() {
                laws::lemma_deleting(start, name@, chained_at);
            }
        }
        r
    }

    // -----------------------------------------------------------------
    // Sharing
    // -----------------------------------------------------------------

    /// Grants a peer access, at the current time: the content key is wrapped
    /// for the peer's public key. No existing content is touched.
    pub fn grant_access(&mut self, peer: &PeerId) -> (r: Result<()>)
        requires
            old(self).wf(),
            old(self)@.admin is Some ==> old(self)@.header.writable()
                && old(self)@.header.chain_next_seq < u64::MAX,
        ensures
            final(self).wf(),
            exists|wrapped: Seq<u8>, at: i64, chained_at: i64|
                wrapped.len() == 92 && crypto::unwraps_for(
                    wrapped,
                    peer.encryption_public@,
                    old(self)@.key,
                ) && crypto::freshly_wrapped(
                    wrapped,
                    peer.encryption_public@,
                    old(self)@.key,
                ) && #[trigger] old(self)@.granting(
                    peer.signing_public@,
                    peer.encryption_public@,
                    wrapped,
                    at,
                    chained_at,
                ) == (final(self)@, error::outcome(r)) && readings::clock_showed(at)
                    && readings::clock_showed(chained_at) && (old(self)@.healthy() && r is Ok
                    ==> granted_when(
                    old(self)@,
                    final(self)@,
                    peer.signing_public@,
                    peer.encryption_public@,
                    at,
                    chained_at,
                )),
            replay::keeps_trace(old(self)@, final(self)@),
            old(self)@.healthy() && r is Ok ==> sharing::granted_to(
                old(self)@,
                final(self)@,
                peer.signing_public@,
                peer.encryption_public@,
            ),
            old(self)@.healthy() ==> (r is Ok <==> sharing::grantable(
                old(self)@,
                peer.signing_public@,
            )),
            r is Err ==> final(self)@ == old(self)@,
    {
        let wrapped = match crypto::wrap_dek_for_recipient(
            &peer.encryption_public,
            self.key.expose_bytes(),
        ) {
            Ok(w) => w,
            Err(e) => {
                assert(false);
                return Err(e);
            },
        };
        let at: i64 = readings::now();
        let chained_at: i64 = readings::now();
        proof {
            if self@.healthy() {
                sharing::law_grant_succeeds(
                    self@,
                    peer.signing_public@,
                    peer.encryption_public@,
                    wrapped@,
                    at,
                    chained_at,
                );
            }
        }
        self.grant_access_with(peer, &wrapped, at, chained_at)
    }

    /// Grants a peer access with the given wrapped content key and times.
    pub fn grant_access_with(
        &mut self,
        peer: &PeerId,
        wrapped: &[u8; 92],
        at: i64,
        chained_at: i64,
    ) -> (r: Result<()>)
        requires
            old(self).wf(),
            old(self)@.admin is Some ==> old(self)@.header.writable()
                && old(self)@.header.chain_next_seq < u64::MAX,
        ensures
            final(self).wf(),
            old(self)@.granting(
                peer.signing_public@,
                peer.encryption_public@,
                wrapped@,
                at,
                chained_at,
            ) == (final(self)@, error::outcome(r)),
            replay::keeps_trace(old(self)@, final(self)@),
            old(self)@.healthy() && r is Ok && crypto::unwraps_for(
                wrapped@,
                peer.encryption_public@,
                old(self)@.key,
            ) ==> sharing::granted_to(
                old(self)@,
                final(self)@,
                peer.signing_public@,
                peer.encryption_public@,
            ) && granted_when(
                old(self)@,
                final(self)@,
                peer.signing_public@,
                peer.encryption_public@,
                at,
                chained_at,
            ),
    {
        let ghost start = self@;
        match self.require_admin() {
            Ok(()) => {},
            Err(e) => {
                return Err(e);
            },
        }
        match self.find_recipient_slot_by_signing_key(&peer.signing_public) {
            Err(e) => {
                return Err(e);
            },
            Ok(Some(_)) => {
                return Err(VaultError::AlreadyGranted);
            },
            Ok(None) => {},
        }
        let i: u32 = match self.find_free_recipient_slot() {
            Err(e) => {
                return Err(e);
            },
            Ok(None) => {
                return Err(VaultError::RecipientTableFull);
            },
            Ok(Some(i)) => i,
        };
        let slot = RecipientSlot {
            signing_pubkey: peer.signing_public,
            encryption_pubkey: peer.encryption_public,
            wrapped_dek: bytes::to_vec(wrapped.as_slice()),
            granted_at: at,
            flags: RECIPIENT_FLAG_OCCUPIED,
        };
        self.write_recipient_slot(i, &slot);

        let target_id: u128 = peer_target_id(&peer.signing_public);
        let mut both = bytes::to_vec(peer.signing_public.as_slice());
        bytes::append(&mut both, peer.encryption_public.as_slice());
        let data_hash = crypto::sha256(both.as_slice());
        let r = self.append_signed_chain_record(
            ChainOp::AccessGranted,
            target_id,
            data_hash,
            chained_at,
        );
        proof {
            if start.healthy() && crypto::unwraps_for(
                wrapped@,
                peer.encryption_public@,
                start.key,
            ) {
                sharing::lemma_granting(
                    start,
                    peer.signing_public@,
                    peer.encryption_public@,
                    wrapped@,
                    at,
                    chained_at,
                );
            }
        }
        r
    }
}

/// Blocks with their plaintexts as mathematical values.
spec fn plains_of(s: Seq<(u64, u128, Vec<u8>)>) -> Seq<(u64, u128, Seq<u8>)> {
    s.map_values(|p: (u64, u128, Vec<u8>)| (p.0, p.1, p.2@))
}

/// These plaintexts fit into the blocks they came from.
spec fn plains_fit(h: HeaderModel, s: Seq<(u64, u128, Seq<u8>)>) -> bool {
    forall|k: int|
        0 <= k < s.len() ==> h.block_at((#[trigger] s[k]).0 as int) + h.block_size
            <= image::MAX_LEN && s[k].2.len() <= h.chunk_len()
}

impl Vault {
    /// Reads every block that is in use, with the file and block it belongs
    /// to.
    fn read_all_blocks(&self) -> (r: Result<Vec<(u64, u128, Vec<u8>)>>)
        requires
            self.wf(),
            self@.header.legible(),
        ensures
            match (r, self@.live_entries(self@.header.max_files as int)) {
                (Ok(all), Ok(entries)) => self@.plaintexts(entries, entries.len() as int) == Ok::<
                    Seq<(u64, u128, Seq<u8>)>,
                    Fault,
                >(plains_of(all@)) && plains_fit(self@.header, plains_of(all@)),
                (Err(e), Ok(entries)) => self@.plaintexts(entries, entries.len() as int) == Err::<
                    Seq<(u64, u128, Seq<u8>)>,
                    Fault,
                >(e@),
                (Err(e), Err(f)) => e@ == f,
                (Ok(_), Err(_)) => false,
            },
    {
        let entries = match self.all_occupied_entries() {
            Ok(entries) => entries,
            Err(e) => {
                return Err(e);
            },
        };
        let ghost es = entries_of(entries@);
        let mut out: Vec<(u64, u128, Vec<u8>)> = Vec::new();
        let mut k: usize = 0;
        assert(plains_of(out@) =~= Seq::empty());
        while k < entries.len()
            invariant
                self.wf(),
                self@.header.legible(),
                k <= entries@.len(),
                es == entries_of(entries@),
                self@.live_entries(self@.header.max_files as int) == Ok::<
                    Seq<(int, EntryModel)>,
                    Fault,
                >(es),
                self@.plaintexts(es, k as int) == Ok::<Seq<(u64, u128, Seq<u8>)>, Fault>(
                    plains_of(out@),
                ),
                plains_fit(self@.header, plains_of(out@)),
            decreases entries@.len() - k,
        {
            let entry = &entries[k].1;
            assert(es[k as int].1 == entry@);
            let blocks = match self.collect_all_blocks(entry) {
                Ok(blocks) => blocks,
                Err(e) => {
                    proof {
                        lemma_plaintexts_err(self@, es, k as int, es.len() as int);
                    }
                    return Err(e);
                },
            };
            let ghost before = plains_of(out@);
            let mut j: usize = 0;
            assert(before + Seq::empty() =~= before);
            while j < blocks.len()
                invariant
                    self.wf(),
                    self@.header.legible(),
                    k < entries@.len(),
                    j <= blocks@.len(),
                    es == entries_of(entries@),
                    es[k as int].1 == entry@,
                    self@.live_entries(self@.header.max_files as int) == Ok::<
                        Seq<(int, EntryModel)>,
                        Fault,
                    >(es),
                    self@.plaintexts(es, k as int) == Ok::<Seq<(u64, u128, Seq<u8>)>, Fault>(
                        before,
                    ),
                    self@.all_blocks(entry@) == Ok::<Seq<u64>, Fault>(blocks@),
                    self@.file_plaintexts(entry.id, blocks@, j as int) is Ok,
                    plains_of(out@) == before + self@.file_plaintexts(
                        entry.id,
                        blocks@,
                        j as int,
                    )->Ok_0,
                    plains_fit(self@.header, plains_of(out@)),
                decreases blocks@.len() - j,
            {
                match self.read_physical_block(blocks[j], entry.id) {
                    Err(e) => {
                        proof {
                            lemma_file_plaintexts_err(
                                self@,
                                entry.id,
                                blocks@,
                                j as int,
                                blocks@.len() as int,
                            );
                            lemma_plaintexts_err(self@, es, k as int, es.len() as int);
                        }
                        return Err(e);
                    },
                    Ok(p) => {
                        let ghost so_far = plains_of(out@);
                        let ghost item = (blocks@[j as int], entry.id, p@);
                        let ghost these = self@.file_plaintexts(
                            entry.id,
                            blocks@,
                            j as int,
                        )->Ok_0;
                        proof {
                            self.image.lemma_len();
                        }
                        out.push((blocks[j], entry.id, p));
                        assert(plains_of(out@) =~= so_far.push(item));
                        assert((before + these).push(item) =~= before + these.push(item));
                    },
                }
                j = j + 1;
            }
            k = k + 1;
        }
        Ok(out)
    }

    /// Revokes a peer's access, at the current time, under a fresh content
    /// key.
    pub fn revoke_access(&mut self, peer_signing_pubkey: &[u8; 32], password: &str) -> (r: Result<
        (),
    >)
        requires
            old(self).wf(),
            old(self)@.admin is Some ==> old(self)@.header.writable()
                && old(self)@.header.chain_next_seq < u64::MAX,
        ensures
            final(self).wf(),
            exists|new_key: Seq<u8>, wraps: Seq<Seq<u8>>, nonce: Seq<u8>, chained_at: i64|
                #[trigger] old(self)@.revoking(
                    peer_signing_pubkey@,
                    bytes::text(password@),
                    new_key,
                    wraps,
                    nonce,
                    chained_at,
                ) == (final(self)@, error::outcome(r)) && old(self)@.revocation_opens(
                    peer_signing_pubkey@,
                    bytes::text(password@),
                    new_key,
                    wraps,
                    nonce,
                    chained_at,
                ) && new_key != old(self)@.key && readings::drawn(new_key) && readings::drawn(nonce)
                    && readings::clock_showed(chained_at) && (old(self)@.healthy() && r is Ok
                    ==> final(self)@.key == new_key && health::tells(
                    old(self)@,
                    final(self)@,
                    ChainOp::KeyRotated,
                    model::peer_target(peer_signing_pubkey@),
                    crypto::sha256_of(peer_signing_pubkey@)@,
                    chained_at,
                )),
            replay::keeps_trace(old(self)@, final(self)@),
            old(self)@.healthy() && r is Ok ==> rotation::revoked(
                old(self)@,
                final(self)@,
                peer_signing_pubkey@,
                bytes::text(password@),
            ) && final(self)@.key != old(self)@.key,
            old(self)@.healthy() ==> (r is Ok <==> rotation::revocable(
                old(self)@,
                peer_signing_pubkey@,
                bytes::text(password@),
            )),
    {
        let new_key = readings::key_but(&self.key.0);
        let nonce = crypto::random_nonce();
        let chained_at: i64 = readings::now();
        let ghost start = self@;
        let r = self.revoke_access_with(peer_signing_pubkey, password, &new_key, &nonce, chained_at);
        proof {
            if start.healthy() {
                let signing = peer_signing_pubkey@;
                let pw = bytes::text(password@);
                let wraps = choose|wraps: Seq<Seq<u8>>| #[trigger]
                    start.revoking(signing, pw, new_key@, wraps, nonce@, chained_at) == (
                        self@,
                        error::outcome(r),
                    ) && start.revocation_opens(
                        signing,
                        pw,
                        new_key@,
                        wraps,
                        nonce@,
                        chained_at,
                    );
                rotation::law_revoke_succeeds(
                    start,
                    signing,
                    pw,
                    new_key@,
                    wraps,
                    nonce@,
                    chained_at,
                );
            }
        }
        r
    }

    /// Revokes a peer's access under the given content key: every block in use
    /// is sealed again under it, the peer's slot is cleared, and the key is
    /// wrapped for the remaining recipients and for the password.
    pub fn revoke_access_with(
        &mut self,
        peer_signing_pubkey: &[u8; 32],
        password: &str,
        new_key: &[u8; 32],
        nonce: &[u8; 12],
        chained_at: i64,
    ) -> (r: Result<()>)
        requires
            old(self).wf(),
            old(self)@.admin is Some ==> old(self)@.header.writable()
                && old(self)@.header.chain_next_seq < u64::MAX,
        ensures
            final(self).wf(),
            exists|wraps: Seq<Seq<u8>>| #[trigger]
                old(self)@.revoking(
                    peer_signing_pubkey@,
                    bytes::text(password@),
                    new_key@,
                    wraps,
                    nonce@,
                    chained_at,
                ) == (final(self)@, error::outcome(r)) && old(self)@.revocation_opens(
                    peer_signing_pubkey@,
                    bytes::text(password@),
                    new_key@,
                    wraps,
                    nonce@,
                    chained_at,
                ),
            replay::keeps_trace(old(self)@, final(self)@),
            old(self)@.healthy() && r is Ok ==> rotation::revoked(
                old(self)@,
                final(self)@,
                peer_signing_pubkey@,
                bytes::text(password@),
            ) && final(self)@.key == new_key@ && health::tells(
                old(self)@,
                final(self)@,
                ChainOp::KeyRotated,
                model::peer_target(peer_signing_pubkey@),
                crypto::sha256_of(peer_signing_pubkey@)@,
                chained_at,
            ),
    {
        let ghost start = self@;
        let ghost signing = peer_signing_pubkey@;
        let ghost pw = bytes::text(password@);
        let ghost none: Seq<Seq<u8>> = Seq::empty();
        match self.require_admin() {
            Ok(()) => {},
            Err(e) => {
                assert(start.revoking(signing, pw, new_key@, none, nonce@, chained_at) == (
                    self@,
                    Err::<(), Fault>(e@),
                ));
                return Err(e);
            },
        }
        let slot_idx: u32 = match self.find_recipient_slot_by_signing_key(peer_signing_pubkey) {
            Err(e) => {
                assert(start.revoking(signing, pw, new_key@, none, nonce@, chained_at) == (
                    self@,
                    Err::<(), Fault>(e@),
                ));
                return Err(e);
            },
            Ok(None) => {
                assert(start.revoking(signing, pw, new_key@, none, nonce@, chained_at) == (
                    self@,
                    Err::<(), Fault>(Fault::AccessNotGranted),
                ));
                return Err(VaultError::AccessNotGranted);
            },
            Ok(Some((i, _))) => i,
        };
        let all = match self.read_all_blocks() {
            Ok(all) => all,
            Err(e) => {
                assert(start.revoking(signing, pw, new_key@, none, nonce@, chained_at) == (
                    self@,
                    Err::<(), Fault>(e@),
                ));
                return Err(e);
            },
        };
        let ghost plains = plains_of(all@);
        self.key = MasterKey::from_bytes(*new_key);
        let ghost keyed = self@;
        assert(keyed == VaultModel { key: new_key@, ..start });

        let mut k: usize = 0;
        while k < all.len()
            invariant
                self.wf(),
                self@.header == start.header,
                self@.key == new_key@,
                self@.admin == start.admin,
                self@.bitmap == start.bitmap,
                start.header.writable(),
                k <= all@.len(),
                plains == plains_of(all@),
                plains_fit(start.header, plains),
                self@ == keyed.with_blocks(plains, k as int),
                replay::keeps_trace(start, self@),
                forall|j: int|
                    0 <= j < k ==> model::opens(
                        new_key@,
                        (#[trigger] plains[j]).1,
                        plains[j].0,
                        plains[j].2,
                    ),
            decreases all@.len() - k,
        {
            assert(plains[k as int] == (all@[k as int].0, all@[k as int].1, all@[k as int].2@));
            self.write_physical_block(all[k].0, all[k].1, all[k].2.as_slice());
            k = k + 1;
        }
        assert(plains.len() == all@.len());
        self.write_recipient_slot(slot_idx, &RecipientSlot::empty());
        let ghost rotated = self@;
        assert(rotated == start.rotated(slot_idx as int, plains, new_key@));
        let r = self.rekey(peer_signing_pubkey, password, new_key, nonce, chained_at);
        proof {
            let wraps = choose|wraps: Seq<Seq<u8>>|
                (#[trigger] rotated.rekeying(signing, pw, wraps, nonce@, chained_at)) == (
                    self@,
                    error::outcome(r),
                ) && rotated.rekey_opens(signing, pw, wraps, nonce@, chained_at);
            lemma_revoking(
                start,
                signing,
                pw,
                new_key@,
                wraps,
                nonce@,
                chained_at,
                slot_idx as int,
                plains,
            );
            if start.healthy() && r is Ok {
                rotation::lemma_revoking(
                    start,
                    signing,
                    pw,
                    new_key@,
                    wraps,
                    nonce@,
                    chained_at,
                );
            }
        }
        r
    }

    /// Wraps the content key for every remaining recipient. The copies are
    /// made under fresh ephemeral keys.
    fn rewrap_recipients(&mut self) -> (r: Result<()>)
        requires
            old(self).wf(),
            old(self)@.header.writable(),
        ensures
            final(self).wf(),
            final(self)@.header == old(self)@.header,
            final(self)@.key == old(self)@.key,
            final(self)@.admin == old(self)@.admin,
            final(self)@.bitmap == old(self)@.bitmap,
            exists|wraps: Seq<Seq<u8>>|
                (#[trigger] old(self)@.rewrapping(
                    wraps,
                    old(self)@.header.max_recipients as int,
                )) == (final(self)@, error::outcome(r)) && old(self)@.rewraps(
                    wraps,
                    old(self)@.header.max_recipients as int,
                ),
            replay::keeps_trace(old(self)@, final(self)@),
    {
        let ghost start = self@;
        let ghost mut wraps: Seq<Seq<u8>> = Seq::empty();
        let mut i: u32 = 0;
        while i < self.header.max_recipients
            invariant
                self.wf(),
                start.header.writable(),
                self@.header == start.header,
                self@.key == start.key,
                self@.admin == start.admin,
                self@.bitmap == start.bitmap,
                start == old(self)@,
                i <= self.header.max_recipients,
                wraps.len() == i,
                start.rewrapping(wraps, i as int) == (self@, Ok::<(), Fault>(())),
                replay::keeps_trace(start, self@),
                start.rewraps(wraps, i as int),
            decreases self.header.max_recipients - i,
        {
            let ghost before = self@;
            match self.read_recipient_slot(i) {
                Err(e) => {
                    proof {
                        lemma_rewrapping_err(
                            start,
                            wraps,
                            i as int,
                            start.header.max_recipients as int,
                        );
                    }
                    return Err(e);
                },
                Ok(slot) => {
                    let ghost s = slot@;
                    if slot.is_occupied() {
                        match crypto::wrap_dek_for_recipient(
                            &slot.encryption_pubkey,
                            self.key.expose_bytes(),
                        ) {
                            Err(e) => {
                                assert(false);
                            },
                            Ok(wrapped) => {
                                let updated = RecipientSlot {
                                    signing_pubkey: slot.signing_pubkey,
                                    encryption_pubkey: slot.encryption_pubkey,
                                    wrapped_dek: bytes::to_vec(wrapped.as_slice()),
                                    granted_at: slot.granted_at,
                                    flags: slot.flags,
                                };
                                self.write_recipient_slot(i, &updated);
                                proof {
                                    assert(updated@ =~= SlotModel { wrapped_dek: wrapped@, ..s });
                                    lemma_rewraps_extend(start, wraps, wrapped@, i as int);
                                    wraps = wraps.push(wrapped@);
                                }
                            },
                        }
                    } else {
                        proof {
                            lemma_rewraps_extend(start, wraps, Seq::empty(), i as int);
                            wraps = wraps.push(Seq::empty());
                        }
                    }
                },
            }
            i = i + 1;
        }
        Ok(())
    }

    /// The last part of a revocation: the new key is wrapped for the remaining
    /// recipients and for the password, and the rotation is recorded.
    fn rekey(
        &mut self,
        peer_signing_pubkey: &[u8; 32],
        password: &str,
        new_key: &[u8; 32],
        nonce: &[u8; 12],
        chained_at: i64,
    ) -> (r: Result<()>)
        requires
            old(self).wf(),
            old(self)@.header.writable(),
            old(self)@.header.chain_next_seq < u64::MAX,
            old(self)@.admin is Some,
            old(self)@.key == new_key@,
        ensures
            final(self).wf(),
            exists|wraps: Seq<Seq<u8>>|
                (#[trigger] old(self)@.rekeying(
                    peer_signing_pubkey@,
                    bytes::text(password@),
                    wraps,
                    nonce@,
                    chained_at,
                )) == (final(self)@, error::outcome(r)) && old(self)@.rekey_opens(
                    peer_signing_pubkey@,
                    bytes::text(password@),
                    wraps,
                    nonce@,
                    chained_at,
                ),
            replay::keeps_trace(old(self)@, final(self)@),
    {
        let ghost start = self@;
        let ghost max = start.header.max_recipients as int;
        let done = self.rewrap_recipients();
        let ghost wraps = choose|wraps: Seq<Seq<u8>>|
            (#[trigger] start.rewrapping(wraps, max)) == (self@, error::outcome(done))
                && start.rewraps(wraps, max);
        match done {
            Ok(()) => {},
            Err(e) => {
                assert(start.rekeying(
                    peer_signing_pubkey@,
                    bytes::text(password@),
                    wraps,
                    nonce@,
                    chained_at,
                ) == (self@, Err::<(), Fault>(e@)));
                return Err(e);
            },
        }
        let ghost wrapped = self@;
        let params = Argon2Params {
            m_cost_kib: self.header.argon2_m_cost_kib,
            t_cost: self.header.argon2_t_cost,
            p_cost: self.header.argon2_p_cost,
        };
        let kek = match MasterKey::derive(password.as_bytes(), &self.header.salt, params) {
            Ok(kek) => kek,
            Err(e) => {
                assert(start.rekeying(
                    peer_signing_pubkey@,
                    bytes::text(password@),
                    wraps,
                    nonce@,
                    chained_at,
                ) == (self@, Err::<(), Fault>(e@)));
                return Err(e);
            },
        };
        proof {
            lemma_aad_len();
        }
        match kek.encrypt_with_nonce(nonce, new_key.as_slice(), ADMIN_KEY_SLOT_AAD.as_bytes()) {
            Err(e) => {
                assert(false);
                Err(e)
            },
            Ok(slot) => {
                self.header.admin_key_slot = slot;
                assert(self@ == VaultModel {
                    header: HeaderModel { admin_key_slot: slot@, ..wrapped.header },
                    ..wrapped
                });
                assert(replay::keeps_trace(wrapped, self@));
                self.write_header();
                let target_id: u128 = peer_target_id(peer_signing_pubkey);
                let data_hash = crypto::sha256(peer_signing_pubkey.as_slice());
                let r = self.append_signed_chain_record(
                    ChainOp::KeyRotated,
                    target_id,
                    data_hash,
                    chained_at,
                );
                assert(start.rekeying(
                    peer_signing_pubkey@,
                    bytes::text(password@),
                    wraps,
                    nonce@,
                    chained_at,
                ) == (self@, error::outcome(r)));
                r
            },
        }
    }
}

/// What revoking comes to once the peer's slot is found and every block read.
proof fn lemma_revoking(
    v: VaultModel,
    signing: Seq<u8>,
    password: Seq<u8>,
    new_key: Seq<u8>,
    wraps: Seq<Seq<u8>>,
    nonce: Seq<u8>,
    chained_at: i64,
    i: int,
    all: Seq<(u64, u128, Seq<u8>)>,
)
    requires
        v.admin is Some,
        v.find_recipient(signing, 0) matches Ok(Some((j, _))) && j == i,
        v.live_entries(v.header.max_files as int) matches Ok(entries) && v.plaintexts(
            entries,
            entries.len() as int,
        ) == Ok::<Seq<(u64, u128, Seq<u8>)>, Fault>(all),
        model::all_open(all, new_key, v.header.chunk_len()),
        v.rotated(i, all, new_key).rekey_opens(signing, password, wraps, nonce, chained_at),
    ensures
        v.revoking(signing, password, new_key, wraps, nonce, chained_at) == v.rotated(
            i,
            all,
            new_key,
        ).rekeying(signing, password, wraps, nonce, chained_at),
        v.revocation_opens(signing, password, new_key, wraps, nonce, chained_at),
{
}

/// The associated data of the admin's key slot is short.
pub(crate) proof fn lemma_aad_len()
    ensures
        bytes::text(ADMIN_KEY_SLOT_AAD@).len() <= crypto::AAD_MAX,
{
    reveal_strlit("revault-admin-dek-v2");
    assert(vstd::utf8::is_ascii_chars(ADMIN_KEY_SLOT_AAD@));
    vstd::utf8::is_ascii_chars_encode_utf8(ADMIN_KEY_SLOT_AAD@);
}

proof fn lemma_plaintexts_err(v: VaultModel, es: Seq<(int, EntryModel)>, k: int, n: int)
    requires
        0 <= k < n <= es.len(),
        v.plaintexts(es, k) is Ok,
        v.plaintexts(es, k + 1) is Err,
    ensures
        v.plaintexts(es, n) == v.plaintexts(es, k + 1),
    decreases n,
{
    if k + 1 < n {
        lemma_plaintexts_err(v, es, k, n - 1);
    }
}

proof fn lemma_file_plaintexts_err(v: VaultModel, id: u128, blocks: Seq<u64>, k: int, n: int)
    requires
        0 <= k < n <= blocks.len(),
        v.file_plaintexts(id, blocks, k) is Ok,
        v.block(blocks[k], id) is Err,
    ensures
        v.file_plaintexts(id, blocks, n) == Err::<Seq<(u64, u128, Seq<u8>)>, Fault>(
            v.block(blocks[k], id)->Err_0,
        ),
    decreases n,
{
    if k + 1 < n {
        lemma_file_plaintexts_err(v, id, blocks, k, n - 1);
    }
}

proof fn lemma_rewrapping_err(v: VaultModel, wraps: Seq<Seq<u8>>, i: int, n: int)
    requires
        0 <= i < n,
        v.rewrapping(wraps, i).1 is Ok,
        v.rewrapping(wraps, i).0.recipient(i) is Err,
        v.rewraps(wraps, i),
    ensures
        v.rewraps(wraps, n),
        v.rewrapping(wraps, n) == (
            v.rewrapping(wraps, i).0,
            Err::<(), Fault>(v.rewrapping(wraps, i).0.recipient(i)->Err_0),
        ),
    decreases n,
{
    if i + 1 < n {
        lemma_rewrapping_err(v, wraps, i, n - 1);
    }
}

proof fn lemma_rewrapping_prefix(v: VaultModel, a: Seq<Seq<u8>>, b: Seq<Seq<u8>>, n: int)
    requires
        n <= a.len(),
        n <= b.len(),
        forall|i: int| 0 <= i < n ==> a[i] == b[i],
    ensures
        v.rewrapping(a, n) == v.rewrapping(b, n),
    decreases n,
{
    if n > 0 {
        lemma_rewrapping_prefix(v, a, b, n - 1);
    }
}

proof fn lemma_rewraps_extend(v: VaultModel, wraps: Seq<Seq<u8>>, w: Seq<u8>, i: int)
    requires
        wraps.len() == i,
        0 <= i,
        v.rewraps(wraps, i),
        match v.rewrapping(wraps, i).0.recipient(i) {
            Ok(s) => s.occupied() ==> w.len() == 92 && crypto::unwraps_for(
                w,
                s.encryption_pubkey,
                v.key,
            ),
            Err(_) => true,
        },
    ensures
        v.rewraps(wraps.push(w), i + 1),
        v.rewrapping(wraps.push(w), i) == v.rewrapping(wraps, i),
{
    assert forall|j: int| 0 <= j <= i implies #[trigger] v.rewrapping(wraps.push(w), j)
        == v.rewrapping(wraps, j) by {
        lemma_rewrapping_prefix(v, wraps.push(w), wraps, j);
    }
    assert forall|j: int|
        0 <= j < i + 1 && (#[trigger] v.rewrapping(
            wraps.push(w),
            j,
        )).1 is Ok implies match v.rewrapping(wraps.push(w), j).0.recipient(j) {
        Ok(s) => s.occupied() ==> wraps.push(w)[j].len() == 92 && crypto::unwraps_for(
            wraps.push(w)[j],
            s.encryption_pubkey,
            v.key,
        ),
        Err(_) => true,
    } by {
        assert(v.rewrapping(wraps.push(w), j) == v.rewrapping(wraps, j));
        if j < i {
            assert(wraps.push(w)[j] == wraps[j]);
        }
    }
}

/// Finds the recipient slot that is granted for this encryption key.
fn find_keyring_slot(image: &Image, header: &Header, encryption: &[u8; 32]) -> (r: Result<
    Option<RecipientSlot>,
>)
    requires
        image.wf(),
    ensures
        match r {
            Ok(Some(s)) => model::locked(image@, header@).find_keyring_slot(encryption@, 0) == Ok::<
                Option<SlotModel>,
                Fault,
            >(Some(s@)) && s@.fits(),
            Ok(None) => model::locked(image@, header@).find_keyring_slot(encryption@, 0) == Ok::<
                Option<SlotModel>,
                Fault,
            >(None),
            Err(e) => model::locked(image@, header@).find_keyring_slot(encryption@, 0) == Err::<
                Option<SlotModel>,
                Fault,
            >(e@),
        },
{
    let ghost v = model::locked(image@, header@);
    proof {
        reveal(VaultModel::recipient);
    }
    let mut i: u32 = 0;
    while i < header.max_recipients
        invariant
            image.wf(),
            v == model::locked(image@, header@),
            i <= header.max_recipients,
            v.find_keyring_slot(encryption@, 0) == v.find_keyring_slot(encryption@, i as int),
        decreases header.max_recipients - i,
    {
        proof {
            reveal(VaultModel::recipient);
        }
        let b = match read_record(
            image,
            header.recipient_offset,
            i as u64,
            header.recipient_slot_size,
        ) {
            Ok(b) => b,
            Err(e) => {
                return Err(e);
            },
        };
        match RecipientSlot::decode(b.as_slice()) {
            Err(e) => {
                return Err(e);
            },
            Ok(slot) => {
                if slot.is_occupied() && bytes::same_bytes(
                    slot.encryption_pubkey.as_slice(),
                    encryption.as_slice(),
                ) {
                    return Ok(Some(slot));
                }
            },
        }
        i = i + 1;
    }
    Ok(None)
}

/// Reads the header that a container starts with. Its regions must be able to
/// hold what it counts in them.
fn read_header(image: &Image) -> (r: Result<Header>)
    requires
        image.wf(),
    ensures
        error::outcome(r) == model::usable_header(image@),
        r matches Ok(h) ==> h@.fits() && h@.layout_fault() is None,
{
    usable_header(image.read(0, HEADER_SIZE))
}

/// The header that these bytes hold, if they could be read.
fn usable_header(stored: Result<Vec<u8>>) -> (r: Result<Header>)
    ensures
        error::outcome(r) == match error::outcome(stored) {
            Err(f) => Err(f),
            Ok(b) => model::usable(b),
        },
        r matches Ok(h) ==> h@.fits() && h@.layout_fault() is None,
{
    let header = match stored {
        Ok(b) => match Header::decode(b.as_slice()) {
            Ok(header) => header,
            Err(e) => {
                return Err(e);
            },
        },
        Err(e) => {
            return Err(e);
        },
    };
    match header.check_counts() {
        Ok(()) => Ok(header),
        Err(e) => Err(e),
    }
}

/// The chain record with this number in a patched container.
fn previewed_record(
    preview: &Preview<'_>,
    header: &Header,
    seq: u64,
    next: Ghost<VaultModel>,
) -> (r: Result<Option<ChainRecord>>)
    requires
        preview.wf(),
        next@.image == preview@,
        next@.header == header@,
        header@.max_chain_records > 0,
    ensures
        match r {
            Ok(Some(c)) => next@.record(seq as int) == Ok::<Option<RecordModel>, Fault>(Some(c@)),
            Ok(None) => next@.record(seq as int) == Ok::<Option<RecordModel>, Fault>(None),
            Err(e) => next@.record(seq as int) == Err::<Option<RecordModel>, Fault>(e@),
        },
{
    let place: u64 = seq % header.max_chain_records as u64;
    proof {
        reveal(VaultModel::record);
    }
    match preview.read_record(header.chain_offset, place, header.chain_record_size) {
        Ok(b) => ChainRecord::decode(b.as_slice()),
        Err(e) => Err(e),
    }
}

/// Follows the chain of a patched container from the record with number `first`
/// to its end. The first record must link to `tip`. Gives the hash of the last.
fn chain_from(
    preview: &Preview<'_>,
    header: &Header,
    tip: [u8; 32],
    first: u64,
    next: Ghost<VaultModel>,
) -> (r: Result<[u8; 32]>)
    requires
        preview.wf(),
        next@.image == preview@,
        next@.header == header@,
        header@.max_chain_records > 0,
    ensures
        ({
            let end = header@.chain_next_seq as int;
            match r {
                Ok(t) => next@.chain_from(tip@, first as int, end) == Ok::<Seq<u8>, Fault>(t@),
                Err(e) => next@.chain_from(tip@, first as int, end) == Err::<Seq<u8>, Fault>(e@),
            }
        }),
{
    let end: u64 = header.chain_next_seq;
    let mut at = tip;
    let mut seq: u64 = first;
    while seq < end
        invariant
            preview.wf(),
            next@.image == preview@,
            next@.header == header@,
            header@.max_chain_records > 0,
            end == header.chain_next_seq,
            first <= seq,
            first <= end ==> seq <= end,
            end < first ==> seq == first,
            next@.chain_from(tip@, first as int, seq as int) == Ok::<Seq<u8>, Fault>(at@),
        decreases end - seq,
    {
        let rec = match previewed_record(preview, header, seq, next) {
            Ok(Some(rec)) => rec,
            Ok(None) => {
                proof {
                    lemma_chain_from_err(next@, tip@, first as int, seq as int, end as int);
                }
                return Err(VaultError::IntegrityViolation("a chain record is missing"));
            },
            Err(e) => {
                proof {
                    lemma_chain_from_err(next@, tip@, first as int, seq as int, end as int);
                }
                return Err(e);
            },
        };
        match check_record(header, seq, &rec, &None) {
            Ok(()) => {},
            Err(e) => {
                proof {
                    lemma_chain_from_err(next@, tip@, first as int, seq as int, end as int);
                }
                return Err(e);
            },
        }
        if !bytes::same_bytes(rec.prev_hash.as_slice(), at.as_slice()) {
            proof {
                lemma_chain_from_err(next@, tip@, first as int, seq as int, end as int);
            }
            return Err(
                VaultError::IntegrityViolation(
                    "chain record does not link to the previous record's hash",
                ),
            );
        }
        at = rec.record_hash;
        seq = seq + 1;
    }
    Ok(at)
}

proof fn lemma_followed_err(v: VaultModel, ranges: Seq<(u64, Seq<u8>)>, k: int, n: int)
    requires
        0 <= k < n,
        v.following(ranges, k + 1) is Err,
    ensures
        v.following(ranges, n) == v.following(ranges, k + 1),
    decreases n - k,
{
    if k + 1 < n {
        lemma_followed_err(v, ranges, k, n - 1);
    }
}

proof fn lemma_chain_from_err(v: VaultModel, tip: Seq<u8>, first: int, seq: int, end: int)
    requires
        first <= seq < end,
        v.chain_from(tip, first, seq + 1) is Err,
    ensures
        v.chain_from(tip, first, end) == v.chain_from(tip, first, seq + 1),
    decreases end - seq,
{
    if seq + 1 < end {
        lemma_chain_from_err(v, tip, first, seq, end - 1);
    }
}

/// Reads the bitmap of a container with this header.
fn read_bitmap(image: &Image, header: &Header) -> (r: Result<BlockAllocator>)
    requires
        image.wf(),
    ensures
        error::outcome(r) == model::bitmap_of(image@, header@),
        r matches Ok(a) ==> a.wf() && a.blocks() == header@.block_count,
{
    match image.read(header.bitmap_offset, header.bitmap_len) {
        Ok(b) => Ok(BlockAllocator::from_bytes(b, header.block_count)),
        Err(e) => Err(e),
    }
}

impl Vault {
    // -----------------------------------------------------------------
    // Opening
    // -----------------------------------------------------------------

    /// What can be told of a vault from the first bytes of its container,
    /// without the password.
    pub fn peek_summary(head: &[u8]) -> (r: Result<VaultSummary>)
        ensures
            match r {
                Ok(s) => model::header_of(head@) matches Ok(h) && s.name@ == h.name
                    && s.description@ == h.description && s.capacity_bytes == h.capacity_bytes
                    && s.created_at == h.created_at,
                Err(e) => model::header_of(head@) == Err::<HeaderModel, Fault>(e@),
            },
    {
        if (head.len() as u64) < HEADER_SIZE {
            return Err(VaultError::Io(image::UNEXPECTED_END));
        }
        match Header::decode(vstd::slice::slice_subrange(head, 0, 1024)) {
            Ok(header) => Ok(
                VaultSummary {
                    name: header.name,
                    description: header.description,
                    capacity_bytes: header.capacity_bytes,
                    created_at: header.created_at,
                },
            ),
            Err(e) => Err(e),
        }
    }

    /// Opens a container with the admin's password. Changes can be made only
    /// if `local_identity` is the admin's.
    pub fn open(image: Image, password: &str, local_identity: Identity) -> (r: Result<Vault>)
        requires
            image.wf(),
        ensures
            error::outcome(r) == model::opening(image@, bytes::text(password@), local_identity@),
            r matches Ok(v) ==> v.wf(),
    {
        let header = match read_header(&image) {
            Ok(header) => header,
            Err(e) => {
                return Err(e);
            },
        };
        let params = Argon2Params {
            m_cost_kib: header.argon2_m_cost_kib,
            t_cost: header.argon2_t_cost,
            p_cost: header.argon2_p_cost,
        };
        let kek = match MasterKey::derive(password.as_bytes(), &header.salt, params) {
            Ok(kek) => kek,
            Err(e) => {
                return Err(e);
            },
        };
        let dek_bytes = match kek.decrypt_random_nonce(
            header.admin_key_slot.as_slice(),
            ADMIN_KEY_SLOT_AAD.as_bytes(),
        ) {
            Ok(dek) => dek,
            Err(e) => {
                return Err(e);
            },
        };
        if dek_bytes.len() != 32 {
            return Err(VaultError::CorruptContainer("unwrapped admin DEK has the wrong length"));
        }
        let key = MasterKey::from_bytes(crypto::array32(dek_bytes.as_slice()));
        let peer = local_identity.peer_id();
        let ghost local = local_identity@;
        let admin_identity = if bytes::same_bytes(
            peer.signing_public.as_slice(),
            header.admin_signing_pubkey.as_slice(),
        ) {
            Some(local_identity)
        } else {
            None
        };
        let allocator = match read_bitmap(&image, &header) {
            Ok(allocator) => allocator,
            Err(e) => {
                return Err(e);
            },
        };
        let v = Vault {
            image,
            header,
            allocator,
            key,
            admin_identity,
            change_log: Vec::new(),
        };
        assert(ranges_of(v.change_log@) =~= Seq::empty());
        assert(v@ == model::opening(v.image@, bytes::text(password@), local)->Ok_0);
        Ok(v)
    }

    /// Opens a container as a granted peer. Such a vault can be read, but
    /// never changed.
    pub fn open_as_recipient(image: Image, local_identity: &Identity) -> (r: Result<Vault>)
        requires
            image.wf(),
        ensures
            error::outcome(r) == model::opening_as_recipient(image@, local_identity@),
            r matches Ok(v) ==> v.wf(),
    {
        let header = match read_header(&image) {
            Ok(header) => header,
            Err(e) => {
                return Err(e);
            },
        };
        let peer = local_identity.peer_id();
        let slot = match find_keyring_slot(&image, &header, &peer.encryption_public) {
            Ok(Some(slot)) => slot,
            Ok(None) => {
                return Err(VaultError::AccessNotGranted);
            },
            Err(e) => {
                return Err(e);
            },
        };
        if slot.wrapped_dek.len() != 92 {
            return Err(VaultError::CorruptContainer("recipient wrapped DEK has the wrong length"));
        }
        let wrapped = crypto::array92(slot.wrapped_dek.as_slice());
        let dek = match crypto::unwrap_dek_for_recipient(
            local_identity.encryption_secret(),
            &wrapped,
        ) {
            Ok(dek) => dek,
            Err(e) => {
                return Err(e);
            },
        };
        let allocator = match read_bitmap(&image, &header) {
            Ok(allocator) => allocator,
            Err(e) => {
                return Err(e);
            },
        };
        let v = Vault {
            image,
            header,
            allocator,
            key: MasterKey::from_bytes(dek),
            admin_identity: None,
            change_log: Vec::new(),
        };
        assert(ranges_of(v.change_log@) =~= Seq::empty());
        assert(v@ == model::opening_as_recipient(v.image@, local_identity@)->Ok_0);
        Ok(v)
    }

    /// Applies ranges that another replica of this vault wrote, then reads
    /// header and bitmap again. First the chain is followed along the ranges: it
    /// must continue this replica's, with records that the admin signed. What
    /// does not verify is refused, and nothing is written.
    pub fn apply_remote_patch(&mut self, ranges: &[(u64, Vec<u8>)]) -> (r: Result<()>)
        requires
            old(self).wf(),
        ensures
            final(self).wf(),
            old(self)@.applying(ranges_of(ranges@)) == (final(self)@, error::outcome(r)),
    {
        let ghost start = self@;
        let ghost rs = ranges_of(ranges@);
        let preview = match Preview::new(&self.image, ranges) {
            Ok(preview) => preview,
            Err(e) => {
                return Err(e);
            },
        };
        let ghost patched = preview@;
        let header = match usable_header(preview.read(0, HEADER_SIZE)) {
            Ok(header) => header,
            Err(e) => {
                return Err(e);
            },
        };
        let allocator = match preview.read(header.bitmap_offset, header.bitmap_len) {
            Ok(b) => BlockAllocator::from_bytes(b, header.block_count),
            Err(e) => {
                return Err(e);
            },
        };
        let ghost next = VaultModel {
            image: patched,
            header: header@,
            bitmap: allocator@,
            ..start
        };
        let (seq, tip) = match self.follow(ranges) {
            Ok(at) => at,
            Err(e) => {
                return Err(e);
            },
        };
        match self.check_advance(&preview, &header, seq, tip, Ghost(next)) {
            Ok(()) => {},
            Err(e) => {
                return Err(e);
            },
        }
        let mut k: usize = 0;
        while k < ranges.len()
            invariant
                self.wf(),
                k <= ranges@.len(),
                rs == ranges_of(ranges@),
                start == old(self)@,
                model::patched(start.image, rs, rs.len() as int).1 is Ok,
                model::patched(start.image, rs, k as int) == (self@.image, Ok::<(), Fault>(())),
                self@ == (VaultModel { image: self@.image, ..start }),
            decreases ranges@.len() - k,
        {
            assert(rs[k as int] == (ranges@[k as int].0, ranges@[k as int].1@));
            proof {
                replay::lemma_prefix_ok(start.image, rs, k as int, rs.len() as int);
            }
            let _ = self.image.write(ranges[k].0, ranges[k].1.as_slice());
            k = k + 1;
        }
        self.header = header;
        self.allocator = allocator;
        Ok(())
    }

    /// Follows the chain along the ranges of a patch, from where this replica
    /// stands. Gives the next sequence number and the last record's hash.
    fn follow(&self, ranges: &[(u64, Vec<u8>)]) -> (r: Result<(u64, [u8; 32])>)
        requires
            self.wf(),
            model::patched(self@.image, ranges_of(ranges@), ranges@.len() as int).1 is Ok,
        ensures
            match r {
                Ok((seq, tip)) => self@.following(ranges_of(ranges@), ranges@.len() as int) == Ok::<
                    Position,
                    Fault,
                >(Position { seq, tip: tip@ }),
                Err(e) => self@.following(ranges_of(ranges@), ranges@.len() as int) == Err::<
                    Position,
                    Fault,
                >(e@),
            },
    {
        let ghost rs = ranges_of(ranges@);
        let ghost all = ranges@.len() as int;
        let mut seq: u64 = self.header.chain_next_seq;
        let mut tip = self.header.chain_last_hash;
        let mut k: usize = 0;
        while k < ranges.len()
            invariant
                self.wf(),
                k <= ranges@.len(),
                rs == ranges_of(ranges@),
                all == ranges@.len(),
                model::patched(self@.image, rs, all).1 is Ok,
                self@.following(rs, k as int) == Ok::<Position, Fault>(
                    Position { seq, tip: tip@ },
                ),
            decreases ranges@.len() - k,
        {
            assert(rs[k as int] == (ranges@[k as int].0, ranges@[k as int].1@));
            if ranges[k].0 == 0 && ranges[k].1.len() >= 1024 {
                match self.follow_into(ranges, k, seq, tip) {
                    Ok((s, t)) => {
                        seq = s;
                        tip = t;
                    },
                    Err(e) => {
                        proof {
                            lemma_followed_err(self@, rs, k as int, all);
                        }
                        return Err(e);
                    },
                }
            }
            k = k + 1;
        }
        Ok((seq, tip))
    }

    /// Follows the chain into the container as it is once range number `k`, which
    /// stores a header, is written.
    fn follow_into(&self, ranges: &[(u64, Vec<u8>)], k: usize, seq: u64, tip: [u8; 32]) -> (r:
        Result<(u64, [u8; 32])>)
        requires
            self.wf(),
            k < ranges@.len(),
            model::stores_header(ranges_of(ranges@)[k as int]),
            model::patched(self@.image, ranges_of(ranges@), ranges@.len() as int).1 is Ok,
        ensures
            ({
                let rs = ranges_of(ranges@);
                let next = match model::usable(rs[k as int].1.take(1024)) {
                    Err(f) => Err(f),
                    Ok(h) => model::followed_into(
                        self@.header.admin_signing_pubkey,
                        model::patched(self@.image, rs, k + 1).0,
                        Position { seq, tip: tip@ },
                        h,
                    ),
                };
                match r {
                    Ok((s, t)) => next == Ok::<Position, Fault>(Position { seq: s, tip: t@ }),
                    Err(e) => next == Err::<Position, Fault>(e@),
                }
            }),
    {
        let ghost rs = ranges_of(ranges@);
        assert(rs[k as int] == (ranges@[k as int].0, ranges@[k as int].1@));
        let stored = bytes::to_vec(
            vstd::slice::slice_subrange(ranges[k].1.as_slice(), 0, 1024),
        );
        assert(stored@ =~= rs[k as int].1.take(1024));
        let header = match usable_header(Ok(stored)) {
            Ok(header) => header,
            Err(e) => {
                return Err(e);
            },
        };
        if !bytes::same_bytes(
            header.admin_signing_pubkey.as_slice(),
            self.header.admin_signing_pubkey.as_slice(),
        ) {
            return Err(VaultError::IntegrityViolation("patch changes the admin's signing key"));
        }
        if header.max_chain_records == 0 {
            return Err(VaultError::CorruptContainer("chain region has no room for a record"));
        }
        if header.chain_next_seq <= seq {
            return Ok((seq, tip));
        }
        let first = vstd::slice::slice_subrange(ranges, 0, k + 1);
        let ghost image = model::patched(self@.image, rs, k + 1).0;
        proof {
            replay::lemma_prefix_ok(self@.image, rs, k + 1, rs.len() as int);
            let fs = ranges_of(first@);
            assert forall|i: int| 0 <= i < k + 1 implies fs[i] == rs[i] by {
                assert(first@[i] == ranges@[i]);
            }
            replay::lemma_patched_prefix(self@.image, fs, rs, k + 1);
        }
        let preview = match Preview::new(&self.image, first) {
            Ok(preview) => preview,
            Err(e) => {
                assert(false);
                return Err(e);
            },
        };
        assert(preview@ == image);
        let ghost next = model::locked(image, header@);
        match chain_from(&preview, &header, tip, seq, Ghost(next)) {
            Ok(t) => Ok((header.chain_next_seq, t)),
            Err(e) => Err(e),
        }
    }

    /// Checks that a patched container may take this one's place, given how far
    /// the chain was followed along the patch.
    fn check_advance(
        &self,
        preview: &Preview<'_>,
        header: &Header,
        seq: u64,
        tip: [u8; 32],
        next: Ghost<VaultModel>,
    ) -> (r: Result<()>)
        requires
            preview.wf(),
            next@.image == preview@,
            next@.header == header@,
        ensures
            ({
                let at = Position { seq, tip: tip@ };
                match r {
                    Ok(_) => self@.advance_fault(next@, at) is None,
                    Err(e) => self@.advance_fault(next@, at) == Some(e@),
                }
            }),
    {
        if !bytes::same_bytes(
            header.admin_signing_pubkey.as_slice(),
            self.header.admin_signing_pubkey.as_slice(),
        ) {
            return Err(VaultError::IntegrityViolation("patch changes the admin's signing key"));
        }
        if header.max_chain_records == 0 {
            return Err(VaultError::CorruptContainer("chain region has no room for a record"));
        }
        if header.chain_next_seq < seq {
            return Err(VaultError::IntegrityViolation("patch takes chain records back"));
        }
        let tip = match chain_from(preview, header, tip, seq, next) {
            Ok(tip) => tip,
            Err(e) => {
                return Err(e);
            },
        };
        if !bytes::same_bytes(tip.as_slice(), header.chain_last_hash.as_slice()) {
            return Err(
                VaultError::IntegrityViolation(
                    "chain anchor in header does not match the latest chain record",
                ),
            );
        }
        match previewed_record(preview, header, header.chain_next_seq.saturating_sub(1), next) {
            Err(e) => Err(e),
            Ok(None) => Err(VaultError::IntegrityViolation("a chain record is missing")),
            Ok(Some(rec)) => if bytes::same_bytes(
                rec.record_hash.as_slice(),
                header.chain_last_hash.as_slice(),
            ) {
                Ok(())
            } else {
                Err(
                    VaultError::IntegrityViolation(
                        "chain anchor in header does not match the latest chain record",
                    ),
                )
            },
        }
    }

    // -----------------------------------------------------------------
    // Checking
    // -----------------------------------------------------------------

    /// Checks the retained chain, its anchor in the header, and every file's
    /// content hash.
    pub fn verify_integrity(&self) -> (r: Result<()>)
        requires
            self.wf(),
            self@.header.legible(),
            self@.header.max_chain_records > 0,
        ensures
            error::outcome(r) == self@.integrity(),
    {
        match self.check_chain() {
            Ok(()) => {},
            Err(e) => {
                return Err(e);
            },
        }
        let entries = match self.all_occupied_entries() {
            Ok(entries) => entries,
            Err(e) => {
                return Err(e);
            },
        };
        let ghost es = entries_of(entries@);
        let mut k: usize = 0;
        while k < entries.len()
            invariant
                self.wf(),
                self@.header.legible(),
                self@.header.max_chain_records > 0,
                k <= entries@.len(),
                es == entries_of(entries@),
                self@.checked_files(es, k as int) is Ok,
                self@.integrity() == self@.checked_files(es, es.len() as int),
            decreases entries@.len() - k,
        {
            assert(es[k as int].1 == entries@[k as int].1@);
            match self.read_file(entries[k].1.name.as_str()) {
                Ok(_) => {},
                Err(e) => {
                    proof {
                        lemma_checked_files_err(self@, es, k as int, es.len() as int);
                    }
                    return Err(e);
                },
            }
            k = k + 1;
        }
        Ok(())
    }

    /// Checks the retained chain and its anchor in the header.
    fn check_chain(&self) -> (r: Result<()>)
        requires
            self.wf(),
            self@.header.legible(),
            self@.header.max_chain_records > 0,
        ensures
            match (r, self@.checked_chain(self@.newest() + 1)) {
                (Ok(_), Ok(_)) => self@.anchor_fault() is None,
                (Err(e), Ok(_)) => self@.anchor_fault() == Some(e@),
                (Err(e), Err(f)) => e@ == f,
                (Ok(_), Err(_)) => false,
            },
    {
        let newest: u64 = self.header.chain_next_seq.saturating_sub(1);
        let oldest: u64 = self.oldest_retained();
        assert(newest == self@.newest());
        let mut prev: Option<ChainRecord> = None;
        let mut seq: u64 = oldest;
        while seq <= newest
            invariant
                self.wf(),
                self@.header.legible(),
                self@.header.max_chain_records > 0,
                oldest == self@.oldest(),
                newest == self@.newest(),
                newest < u64::MAX,
                oldest <= seq <= newest + 1,
                self@.checked_chain(seq as int) == Ok::<Option<RecordModel>, Fault>(
                    record_of(prev),
                ),
                oldest < seq ==> prev is Some && self@.record(seq - 1) == Ok::<
                    Option<RecordModel>,
                    Fault,
                >(record_of(prev)),
            decreases newest + 1 - seq,
        {
            match self.read_chain_slot_at_seq(seq) {
                Err(e) => {
                    proof {
                        lemma_checked_chain_err(self@, seq as int, newest + 1);
                    }
                    return Err(e);
                },
                Ok(None) => {
                    proof {
                        lemma_checked_chain_err(self@, seq as int, newest + 1);
                    }
                    return Err(VaultError::IntegrityViolation("a chain record is missing"));
                },
                Ok(Some(rec)) => {
                    match check_record(&self.header, seq, &rec, &prev) {
                        Err(e) => {
                            proof {
                                lemma_checked_chain_err(self@, seq as int, newest + 1);
                            }
                            return Err(e);
                        },
                        Ok(()) => {
                            prev = Some(rec);
                        },
                    }
                },
            }
            seq = seq + 1;
        }
        match &prev {
            Some(last) => {
                if !bytes::same_bytes(
                    last.record_hash.as_slice(),
                    self.header.chain_last_hash.as_slice(),
                ) {
                    return Err(
                        VaultError::IntegrityViolation(
                            "chain anchor in header does not match the latest chain record",
                        ),
                    );
                }
            },
            None => {
                assert(false);
            },
        }
        Ok(())
    }
}

/// Checks what a chain record says of itself, and that it links to the one
/// before it.
fn check_record(header: &Header, seq: u64, rec: &ChainRecord, prev: &Option<ChainRecord>) -> (r:
    Result<()>)
    ensures
        forall|v: VaultModel|
            v.header == header@ ==> match r {
                Ok(_) => (#[trigger] v.record_fault(seq as int, rec@, record_of(*prev))) is None,
                Err(e) => v.record_fault(seq as int, rec@, record_of(*prev)) == Some(e@),
            },
{
    if rec.seq != seq {
        return Err(
            VaultError::IntegrityViolation(
                "chain record sequence number does not match its slot",
            ),
        );
    }
    if !rec.verify_self() {
        return Err(
            VaultError::IntegrityViolation("chain record hash does not match its own contents"),
        );
    }
    match rec.verify_signature(&header.admin_signing_pubkey) {
        Ok(()) => {},
        Err(e) => {
            return Err(e);
        },
    }
    match prev {
        Some(p) => {
            if !bytes::same_bytes(rec.prev_hash.as_slice(), p.record_hash.as_slice()) {
                return Err(
                    VaultError::IntegrityViolation(
                        "chain record does not link to the previous record's hash",
                    ),
                );
            }
        },
        None => {},
    }
    Ok(())
}

/// Appends `s` to `buf` `n` times.
fn append_repeated(buf: &mut Vec<u8>, s: &[u8], n: u32)
    ensures
        final(buf)@ == old(buf)@ + model::repeated(s@, n as int),
{
    let ghost start = buf@;
    let mut i: u32 = 0;
    assert(start + model::repeated(s@, 0) =~= start);
    while i < n
        invariant
            i <= n,
            buf@ == start + model::repeated(s@, i as int),
        decreases n - i,
    {
        bytes::append(buf, s);
        i = i + 1;
        assert(buf@ =~= start + model::repeated(s@, i as int));
    }
}

/// What a layout comes to in numbers.
pub(crate) proof fn lemma_layout(capacity: u64)
    requires
        capacity >= 4096,
    ensures
        ({
            let l = model::Layout::of(capacity);
            &&& 1 <= l.block_count <= 0x10_0000_0000_0000
            &&& 4 <= l.max_files <= 4096
            &&& 8 <= l.max_chain_records <= 16384
            &&& 0 <= l.bitmap_len <= 0x2_0000_0000_0000
            &&& l.data_offset() <= 0x2_0000_0100_0000
            &&& l.data_offset() == 1024 + l.bitmap_len + l.max_files * 320 + 3072
                + l.max_chain_records * 224
        }),
{
}

impl Vault {
    // -----------------------------------------------------------------
    // Creating
    // -----------------------------------------------------------------

    /// Creates a vault of this capacity, at the current time, under a fresh
    /// content key that the password unwraps.
    pub fn create(
        name: &str,
        description: &str,
        capacity_bytes: u64,
        password: &str,
        admin_identity: Identity,
    ) -> (r: Result<Vault>)
        ensures
            exists|salt: Seq<u8>, key: Seq<u8>, nonce: Seq<u8>, at: i64|
                salt.len() == 16 && key.len() == 32 && nonce.len() == 12 && error::outcome(r)
                    == #[trigger] model::creating(
                    name@,
                    description@,
                    capacity_bytes,
                    bytes::text(password@),
                    admin_identity@,
                    salt,
                    key,
                    nonce,
                    at,
                ) && readings::drawn(salt) && readings::drawn(key) && readings::drawn(nonce)
                    && readings::clock_showed(at) && (r matches Ok(v) ==> v@.key == key
                    && v@.header.salt == salt && founding::as_asked(
                    v@,
                    name@,
                    description@,
                    capacity_bytes,
                    admin_identity@,
                    at,
                )),
            r matches Ok(v) ==> v.wf() && v@.header.operable() && founding::founded(
                v@,
                bytes::text(password@),
            ),
            r is Ok <==> bytes::text(name@).len() <= 128 && bytes::text(description@).len() <= 256
                && capacity_bytes >= 4096 && bytes::text(password@).len() <= crypto::PASSWORD_MAX
                && model::Layout::of(capacity_bytes).total_size() <= image::MAX_LEN,
    {
        let salt = crypto::random_salt();
        let key = crypto::random_key();
        let nonce = crypto::random_nonce();
        let at: i64 = readings::now();
        Vault::create_with(
            name,
            description,
            capacity_bytes,
            password,
            admin_identity,
            salt,
            key,
            &nonce,
            at,
        )
    }

    /// Creates a vault with the given salt, content key, nonce and time.
    pub fn create_with(
        name: &str,
        description: &str,
        capacity_bytes: u64,
        password: &str,
        admin_identity: Identity,
        salt: [u8; 16],
        key: [u8; 32],
        nonce: &[u8; 12],
        at: i64,
    ) -> (r: Result<Vault>)
        ensures
            error::outcome(r) == model::creating(
                name@,
                description@,
                capacity_bytes,
                bytes::text(password@),
                admin_identity@,
                salt@,
                key@,
                nonce@,
                at,
            ),
            r matches Ok(v) ==> v.wf() && v@.header.operable() && founding::founded(
                v@,
                bytes::text(password@),
            ) && founding::as_asked(
                v@,
                name@,
                description@,
                capacity_bytes,
                admin_identity@,
                at,
            ) && v@.key == key@ && v@.header.salt == salt@,
    {
        if name.as_bytes().len() > MAX_NAME_LEN {
            return Err(VaultError::FieldTooLong);
        }
        if description.as_bytes().len() > MAX_DESC_LEN {
            return Err(VaultError::FieldTooLong);
        }
        let block_size: u32 = DEFAULT_BLOCK_SIZE;
        let block_count: u64 = capacity_bytes / block_size as u64;
        if block_count == 0 {
            return Err(VaultError::CapacityTooSmall);
        }
        let ghost l = model::Layout::of(capacity_bytes);
        proof {
            lemma_layout(capacity_bytes);
            lemma_aad_len();
        }
        let scaled: u64 = capacity_bytes / 16384;
        let max_files: u32 = if scaled < 4 {
            4
        } else if scaled > 4096 {
            4096
        } else {
            scaled as u32
        };
        let quadruple: u32 = max_files * 4;
        let max_chain_records: u32 = if quadruple < 8 {
            8
        } else if quadruple > 16384 {
            16384
        } else {
            quadruple
        };
        let max_recipients: u32 = MAX_RECIPIENTS;

        let bitmap_len: u64 = BlockAllocator::bitmap_len_bytes(block_count);
        let file_table_len: u64 = max_files as u64 * ENTRY_SIZE as u64;
        let recipient_len: u64 = max_recipients as u64 * RECIPIENT_SLOT_SIZE as u64;
        let chain_len: u64 = max_chain_records as u64 * CHAIN_RECORD_SIZE as u64;

        let bitmap_offset: u64 = HEADER_SIZE;
        let file_table_offset: u64 = bitmap_offset + bitmap_len;
        let recipient_offset: u64 = file_table_offset + file_table_len;
        let chain_offset: u64 = recipient_offset + recipient_len;
        let data_offset: u64 = chain_offset + chain_len;

        let params = Argon2Params::default();
        let kek = match MasterKey::derive(password.as_bytes(), &salt, params) {
            Ok(kek) => kek,
            Err(e) => {
                return Err(e);
            },
        };
        let admin_key_slot = match kek.encrypt_with_nonce(
            nonce,
            key.as_slice(),
            ADMIN_KEY_SLOT_AAD.as_bytes(),
        ) {
            Ok(slot) => slot,
            Err(e) => {
                assert(false);
                return Err(e);
            },
        };
        assert(block_count * block_size == block_count * 4096 && 0 <= block_count * block_size
            <= 0xffff_ffff_ffff_ffff * 4096) by (nonlinear_arith)
            requires
                block_size == 4096,
                0 <= block_count <= 0xffff_ffff_ffff_ffff,
        ;
        let total: u128 = data_offset as u128 + block_count as u128 * block_size as u128;
        if total > image::MAX_LEN as u128 {
            return Err(VaultError::Io(image::TOO_FAR));
        }
        let peer = admin_identity.peer_id();
        let mut seed = bytes::to_vec(name.as_bytes());
        bytes::append(&mut seed, description.as_bytes());
        bytes::push_le(&mut seed, capacity_bytes as u128, 8);
        bytes::append(&mut seed, peer.signing_public.as_slice());
        let genesis_hash = crypto::sha256(seed.as_slice());
        let zero = [0u8; 32];
        assert(zero@ =~= bytes::zeros(32));
        let genesis = ChainRecord::new_signed(
            0,
            zero,
            ChainOp::VaultCreated,
            0,
            genesis_hash,
            at,
            &admin_identity,
        );
        assert(genesis@ == model::genesis(
            name@,
            description@,
            capacity_bytes,
            admin_identity@,
            at,
        ));
        let header = Header {
            version: FORMAT_VERSION,
            flags: 0,
            block_size,
            block_count,
            capacity_bytes,
            name: name.to_owned(),
            description: description.to_owned(),
            created_at: at,
            salt,
            argon2_m_cost_kib: params.m_cost_kib,
            argon2_t_cost: params.t_cost,
            argon2_p_cost: params.p_cost,
            admin_key_slot,
            admin_signing_pubkey: peer.signing_public,
            admin_encryption_pubkey: peer.encryption_public,
            bitmap_offset,
            bitmap_len,
            file_table_offset,
            file_table_len,
            max_files,
            entry_size: ENTRY_SIZE,
            recipient_offset,
            recipient_len,
            max_recipients,
            recipient_slot_size: RECIPIENT_SLOT_SIZE,
            chain_offset,
            chain_len,
            max_chain_records,
            chain_record_size: CHAIN_RECORD_SIZE,
            chain_next_seq: 1,
            chain_last_hash: genesis.record_hash,
            data_offset,
        };
        let ghost h = model::created_header(
            name@,
            description@,
            capacity_bytes,
            admin_identity@,
            salt@,
            header.admin_key_slot@,
            at,
        );
        assert(header@ =~= h);

        let allocator = BlockAllocator::new(block_count);
        let mut meta = header.encode();
        bytes::append(&mut meta, allocator.as_bytes());
        append_repeated(&mut meta, FileEntry::empty_slot().as_slice(), max_files);
        append_repeated(&mut meta, RecipientSlot::empty_slot().as_slice(), max_recipients);
        bytes::append(&mut meta, genesis.encode().as_slice());
        proof {
            lemma_repeated_len(EntryModel::empty().encoded(), max_files as int);
            lemma_repeated_len(SlotModel::empty().encoded(), max_recipients as int);
            assert(meta@.len() <= total);
        }
        let mut image = Image::zeroed(total as u64);
        let _ = image.write(0, meta.as_slice());
        assert(image@ =~= model::created_image(h, genesis@));
        let v = Vault {
            image,
            header,
            allocator,
            key: MasterKey::from_bytes(key),
            admin_identity: Some(admin_identity),
            change_log: Vec::new(),
        };
        assert(ranges_of(v.change_log@) =~= Seq::empty());
        assert(v@ == model::creating(
            name@,
            description@,
            capacity_bytes,
            bytes::text(password@),
            admin_identity@,
            salt@,
            key@,
            nonce@,
            at,
        )->Ok_0);
        proof {
            admin_identity.lemma_wf();
            founding::lemma_creating(
                name@,
                description@,
                capacity_bytes,
                bytes::text(password@),
                admin_identity@,
                salt@,
                key@,
                nonce@,
                at,
            );
        }
        Ok(v)
    }
}

pub(crate) proof fn lemma_repeated_len(s: Seq<u8>, n: int)
    requires
        0 <= n,
    ensures
        model::repeated(s, n).len() == n * s.len(),
    decreases n,
{
    if n > 0 {
        lemma_repeated_len(s, n - 1);
        assert((n - 1) * s.len() + s.len() == n * s.len()) by (nonlinear_arith);
    } else {
        assert(0 * s.len() == 0) by (nonlinear_arith);
    }
}

/// The value of an optional record.
spec fn record_of(r: Option<ChainRecord>) -> Option<RecordModel> {
    match r {
        Some(rec) => Some(rec@),
        None => None,
    }
}

pub(crate) proof fn lemma_patched_err(image: Seq<u8>, ranges: Seq<(u64, Seq<u8>)>, k: int, n: int)
    requires
        0 <= k < n <= ranges.len(),
        model::patched(image, ranges, k).1 is Ok,
        !image::writable(ranges[k].0 as int, ranges[k].1),
    ensures
        model::patched(image, ranges, n) == (
            model::patched(image, ranges, k).0,
            Err::<(), Fault>(Fault::Io(image::TOO_FAR)),
        ),
    decreases n,
{
    if k + 1 < n {
        lemma_patched_err(image, ranges, k, n - 1);
    }
}

proof fn lemma_checked_files_err(v: VaultModel, es: Seq<(int, EntryModel)>, k: int, n: int)
    requires
        0 <= k < n <= es.len(),
        v.checked_files(es, k) is Ok,
        v.file(es[k].1.name) is Err,
    ensures
        v.checked_files(es, n) == Err::<(), Fault>(v.file(es[k].1.name)->Err_0),
    decreases n,
{
    if k + 1 < n {
        lemma_checked_files_err(v, es, k, n - 1);
    }
}

proof fn lemma_checked_chain_err(v: VaultModel, seq: int, end: int)
    requires
        v.oldest() <= seq < end,
        v.checked_chain(seq) is Ok,
        v.checked_chain(seq + 1) is Err,
    ensures
        v.checked_chain(end) == v.checked_chain(seq + 1),
    decreases end,
{
    if seq + 1 < end {
        lemma_checked_chain_err(v, seq, end - 1);
    }
}

/// Storing content changes neither the header, nor the key, nor who is admin.
pub(crate) proof fn lemma_with_content_keeps(v: VaultModel, id: u128, data: Seq<u8>)
    ensures
        v.with_content(id, data).header == v.header,
        v.with_content(id, data).key == v.key,
        v.with_content(id, data).admin == v.admin,
        v.with_content(id, data).bitmap == allocator::with_marks(
            v.bitmap,
            v.allotted(data.len() as int),
            v.header.block_count as nat,
            true,
        ),
{
    let size = data.len() as int;
    let blocks = v.allotted_data(size);
    let bitmap = allocator::with_marks(
        v.bitmap,
        v.allotted(size),
        v.header.block_count as nat,
        true,
    );
    let m = VaultModel { bitmap, ..v };
    lemma_with_chunks_keeps(m, id, data, blocks, blocks.len() as int);
    let f = m.with_chunks(id, data, blocks, blocks.len() as int);
    lemma_with_indices_keeps(
        f,
        id,
        blocks.skip(model::least(blocks.len() as int, 8)),
        v.allotted_index(size),
        v.plan(size).index,
    );
}

pub(crate) proof fn lemma_with_chunks_keeps(
    v: VaultModel,
    id: u128,
    data: Seq<u8>,
    blocks: Seq<u64>,
    k: int,
)
    ensures
        v.with_chunks(id, data, blocks, k).header == v.header,
        v.with_chunks(id, data, blocks, k).key == v.key,
        v.with_chunks(id, data, blocks, k).admin == v.admin,
        v.with_chunks(id, data, blocks, k).bitmap == v.bitmap,
    decreases k,
{
    if k > 0 {
        lemma_with_chunks_keeps(v, id, data, blocks, k - 1);
    }
}

pub(crate) proof fn lemma_with_indices_keeps(
    v: VaultModel,
    id: u128,
    listed: Seq<u64>,
    index_blocks: Seq<u64>,
    k: int,
)
    ensures
        v.with_indices(id, listed, index_blocks, k).header == v.header,
        v.with_indices(id, listed, index_blocks, k).key == v.key,
        v.with_indices(id, listed, index_blocks, k).admin == v.admin,
        v.with_indices(id, listed, index_blocks, k).bitmap == v.bitmap,
    decreases k,
{
    if k > 0 {
        lemma_with_indices_keeps(v, id, listed, index_blocks, k - 1);
    }
}

/// Appends the numbers of `s`.
fn append_u64s(v: &mut Vec<u64>, s: &[u64])
    ensures
        final(v)@ == old(v)@ + s@,
{
    let ghost start = v@;
    v.extend_from_slice(s);
    assert(v@ =~= start + s@);
}

/// Reads the payload of an overflow index block.
fn parse_index(p: &[u8]) -> (r: Result<(u64, Vec<u64>)>)
    ensures
        match r {
            Ok((next, listed)) => model::parsed_index(p@) == Ok::<(u64, Seq<u64>), Fault>(
                (next, listed@),
            ),
            Err(e) => model::parsed_index(p@) == Err::<(u64, Seq<u64>), Fault>(e@),
        },
{
    if (p.len() as u64) < INDEX_BLOCK_HEADER {
        return Err(VaultError::CorruptContainer("overflow index block too short"));
    }
    proof {
        bytes::lemma_pow256_values();
    }
    let next: u64 = bytes::read_le(p, 0, 8) as u64;
    let count: u64 = bytes::read_le(p, 8, 4) as u64;
    let mut listed: Vec<u64> = Vec::new();
    let mut i: u64 = 0;
    while i < count
        invariant
            i <= count,
            count <= 0xffff_ffff,
            count == codec::num(p@, 8, 4),
            p@.len() >= 12 + 8 * i,
            listed@ == Seq::new(i as nat, |j: int| codec::num(p@, 12 + 8 * j, 8) as u64),
        decreases count - i,
    {
        let left: u64 = p.len() as u64 - (12 + 8 * i);
        if left < 8 {
            return Err(VaultError::CorruptContainer("overflow index block truncated"));
        }
        proof {
            bytes::lemma_pow256_values();
        }
        assert(12 + 8 * i + 8 <= p.len());
        let v: u64 = bytes::read_le(p, (12 + 8 * i) as usize, 8) as u64;
        listed.push(v);
        i = i + 1;
        assert(listed@ =~= Seq::new(i as nat, |j: int| codec::num(p@, 12 + 8 * j, 8) as u64));
    }
    Ok((next, listed))
}

/// A part of a region is no longer than the region.
pub(crate) proof fn lemma_scaled(i: int, n: int, size: int)
    requires
        0 <= i <= n,
        0 <= size,
    ensures
        0 <= i * size <= n * size,
{
    assert(0 <= i * size <= n * size) by (nonlinear_arith)
        requires
            0 <= i <= n,
            0 <= size,
    ;
}

} // verus!
