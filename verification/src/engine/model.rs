//! What a vault is, mathematically: its container bytes, its header, its
//! bitmap and its content key, and what each operation makes of them.

use vstd::prelude::*;

use super::allocator;
use super::bytes;
use super::codec;
use super::crypto::{self, Argon2Params};
use super::error::Fault;
use super::format::HeaderModel;
use super::identity::{self, Keys};
use super::image;
use super::records::{self, ChainOp, EntryModel, RecordModel, SlotModel};

verus! {

/// Bytes of a block that hold no content: the length of the plaintext and the
/// authentication tag.
pub const BLOCK_FRAMING_OVERHEAD: u64 = 20;

/// Bytes at the front of an overflow index block: the next block and the count.
pub const INDEX_BLOCK_HEADER: u64 = 12;

/// The smallest block that has room for one overflow index entry.
pub const MIN_BLOCK_SIZE: u32 = 40;

pub const ADMIN_KEY_SLOT_AAD: &'static str = "revault-admin-dek-v2";

/// A vault.
pub struct VaultModel {
    /// The container's bytes.
    pub image: Seq<u8>,
    pub header: HeaderModel,
    /// The allocation bitmap.
    pub bitmap: Seq<u8>,
    /// The content key.
    pub key: Seq<u8>,
    /// The admin's keys, if the vault was opened by its admin.
    pub admin: Option<Keys>,
    /// Every range written since the log was last taken.
    pub log: Seq<(u64, Seq<u8>)>,
}

// ---------------------------------------------------------------------
// Geometry
// ---------------------------------------------------------------------

impl HeaderModel {
    /// The bytes of content that a block holds.
    pub open spec fn chunk_len(self) -> int {
        self.block_size - BLOCK_FRAMING_OVERHEAD
    }

    /// The entries that an overflow index block holds.
    pub open spec fn index_capacity(self) -> int {
        (self.chunk_len() - INDEX_BLOCK_HEADER) / 8
    }

    /// The place of a file slot.
    pub open spec fn slot_at(self, i: int) -> int {
        self.file_table_offset + i * self.entry_size
    }

    /// The place of a recipient slot.
    pub open spec fn recipient_at(self, i: int) -> int {
        self.recipient_offset + i * self.recipient_slot_size
    }

    /// The place of the chain record with sequence number `seq`: the chain
    /// region is a ring.
    pub open spec fn record_at(self, seq: int) -> int {
        self.chain_offset + (seq % (self.max_chain_records as int)) * self.chain_record_size
    }

    /// The place of a data block.
    pub open spec fn block_at(self, i: int) -> int {
        self.data_offset + i * self.block_size
    }

    /// Blocks have room for content.
    pub open spec fn legible(self) -> bool {
        self.block_size > BLOCK_FRAMING_OVERHEAD
    }

    /// Blocks have room for content, the chain has room for a record, and every
    /// region lies within what a container can hold.
    pub open spec fn writable(self) -> bool {
        &&& self.legible()
        &&& self.max_chain_records > 0
        &&& self.bitmap_offset + allocator::bitmap_bytes(self.block_count as nat) <= image::MAX_LEN
        &&& self.slot_at(self.max_files as int) + records::ENTRY_SIZE <= image::MAX_LEN
        &&& self.recipient_at(self.max_recipients as int) + records::RECIPIENT_SLOT_SIZE
            <= image::MAX_LEN
        &&& self.chain_offset + self.max_chain_records * self.chain_record_size
            + records::CHAIN_RECORD_SIZE <= image::MAX_LEN
        &&& self.total_size() <= image::MAX_LEN
    }

    /// Content of any length can be stored: blocks have room for index entries
    /// as well.
    pub open spec fn operable(self) -> bool {
        &&& self.writable()
        &&& self.block_size >= MIN_BLOCK_SIZE
    }

    /// The Argon2 costs that the header records.
    pub open spec fn argon2_params(self) -> Argon2Params {
        Argon2Params {
            m_cost_kib: self.argon2_m_cost_kib,
            t_cost: self.argon2_t_cost,
            p_cost: self.argon2_p_cost,
        }
    }
}

/// `n` divided by `d`, rounded up.
pub open spec fn ceil_div(n: int, d: int) -> int {
    if n % d == 0 {
        n / d
    } else {
        n / d + 1
    }
}

/// The smaller of two numbers.
pub open spec fn least(a: int, b: int) -> int {
    if a <= b {
        a
    } else {
        b
    }
}

// ---------------------------------------------------------------------
// Reading
// ---------------------------------------------------------------------

impl VaultModel {
    /// What stands in file slot `i`.
    #[verifier::opaque]
    pub open spec fn slot(self, i: int) -> core::result::Result<EntryModel, Fault> {
        match image::bytes_at(self.image, self.header.slot_at(i), self.header.entry_size as int) {
            Ok(b) => EntryModel::decoded(b),
            Err(f) => Err(f),
        }
    }

    /// What stands in recipient slot `i`.
    #[verifier::opaque]
    pub open spec fn recipient(self, i: int) -> core::result::Result<SlotModel, Fault> {
        match image::bytes_at(
            self.image,
            self.header.recipient_at(i),
            self.header.recipient_slot_size as int,
        ) {
            Ok(b) => SlotModel::decoded(b),
            Err(f) => Err(f),
        }
    }

    /// What stands in the chain slot of `seq`.
    #[verifier::opaque]
    pub open spec fn record(self, seq: int) -> core::result::Result<Option<RecordModel>, Fault> {
        match image::bytes_at(
            self.image,
            self.header.record_at(seq),
            self.header.chain_record_size as int,
        ) {
            Ok(b) => RecordModel::decoded(b),
            Err(f) => Err(f),
        }
    }

    /// The first file slot from `from` on that holds a live file of this name.
    /// A slot on the way that cannot be read ends the search.
    pub open spec fn find_file(self, name: Seq<char>, from: int) -> core::result::Result<
        Option<(int, EntryModel)>,
        Fault,
    >
        decreases self.header.max_files - from,
    {
        if from >= self.header.max_files {
            Ok(None)
        } else {
            match self.slot(from) {
                Err(f) => Err(f),
                Ok(e) => if e.occupied() && e.name == name {
                    Ok(Some((from, e)))
                } else {
                    self.find_file(name, from + 1)
                },
            }
        }
    }

    /// The first file slot from `from` on that holds no live file.
    pub open spec fn find_free_slot(self, from: int) -> core::result::Result<Option<int>, Fault>
        decreases self.header.max_files - from,
    {
        if from >= self.header.max_files {
            Ok(None)
        } else {
            match self.slot(from) {
                Err(f) => Err(f),
                Ok(e) => if !e.occupied() {
                    Ok(Some(from))
                } else {
                    self.find_free_slot(from + 1)
                },
            }
        }
    }

    /// The live files in the first `n` slots, in slot order.
    pub open spec fn live_entries(self, n: int) -> core::result::Result<
        Seq<(int, EntryModel)>,
        Fault,
    >
        decreases n,
    {
        if n <= 0 {
            Ok(Seq::empty())
        } else {
            match self.live_entries(n - 1) {
                Err(f) => Err(f),
                Ok(before) => match self.slot(n - 1) {
                    Err(f) => Err(f),
                    Ok(e) => if e.occupied() {
                        Ok(before.push((n - 1, e)))
                    } else {
                        Ok(before)
                    },
                },
            }
        }
    }

    /// The first recipient slot from `from` on that is granted to the holder
    /// of this signing key.
    pub open spec fn find_recipient(self, signing: Seq<u8>, from: int) -> core::result::Result<
        Option<(int, SlotModel)>,
        Fault,
    >
        decreases self.header.max_recipients - from,
    {
        if from >= self.header.max_recipients {
            Ok(None)
        } else {
            match self.recipient(from) {
                Err(f) => Err(f),
                Ok(s) => if s.occupied() && s.signing_pubkey == signing {
                    Ok(Some((from, s)))
                } else {
                    self.find_recipient(signing, from + 1)
                },
            }
        }
    }

    /// The first recipient slot from `from` on that is granted for this
    /// encryption key.
    pub open spec fn find_keyring_slot(
        self,
        encryption: Seq<u8>,
        from: int,
    ) -> core::result::Result<Option<SlotModel>, Fault>
        decreases self.header.max_recipients - from,
    {
        if from >= self.header.max_recipients {
            Ok(None)
        } else {
            match self.recipient(from) {
                Err(f) => Err(f),
                Ok(s) => if s.occupied() && s.encryption_pubkey == encryption {
                    Ok(Some(s))
                } else {
                    self.find_keyring_slot(encryption, from + 1)
                },
            }
        }
    }

    /// The first recipient slot from `from` on that is not granted.
    pub open spec fn find_free_recipient(self, from: int) -> core::result::Result<
        Option<int>,
        Fault,
    >
        decreases self.header.max_recipients - from,
    {
        if from >= self.header.max_recipients {
            Ok(None)
        } else {
            match self.recipient(from) {
                Err(f) => Err(f),
                Ok(s) => if !s.occupied() {
                    Ok(Some(from))
                } else {
                    self.find_free_recipient(from + 1)
                },
            }
        }
    }

    /// The granted slots among the first `n`, in slot order.
    pub open spec fn granted(self, n: int) -> core::result::Result<Seq<SlotModel>, Fault>
        decreases n,
    {
        if n <= 0 {
            Ok(Seq::empty())
        } else {
            match self.granted(n - 1) {
                Err(f) => Err(f),
                Ok(before) => match self.recipient(n - 1) {
                    Err(f) => Err(f),
                    Ok(s) => if s.occupied() {
                        Ok(before.push(s))
                    } else {
                        Ok(before)
                    },
                },
            }
        }
    }

    /// The plaintext of block `i` of the file `id`.
    #[verifier::opaque]
    pub open spec fn block(self, i: u64, id: u128) -> core::result::Result<Seq<u8>, Fault> {
        match image::bytes_at(
            self.image,
            self.header.block_at(i as int),
            self.header.block_size as int,
        ) {
            Err(f) => Err(f),
            Ok(b) => unframed(self.key, b, id, i),
        }
    }

    /// What overflow index block `i` of the file `id` holds: the next index
    /// block (0 for none) and the data blocks it lists.
    pub open spec fn index_block(self, i: u64, id: u128) -> core::result::Result<
        (u64, Seq<u64>),
        Fault,
    > {
        match self.block(i, id) {
            Err(f) => Err(f),
            Ok(p) => parsed_index(p),
        }
    }

    /// The chain of overflow index blocks that starts at `next`, each with the
    /// data blocks it lists. More than `fuel` blocks are not followed.
    pub open spec fn walk(self, id: u128, next: u64, fuel: nat) -> core::result::Result<
        Seq<(u64, Seq<u64>)>,
        Fault,
    >
        decreases fuel,
    {
        if next == 0 {
            Ok(Seq::empty())
        } else if fuel == 0 {
            Err(Fault::CorruptContainer("overflow index chain does not end"))
        } else {
            match self.index_block(next, id) {
                Err(f) => Err(f),
                Ok((n, listed)) => match self.walk(id, n, (fuel - 1) as nat) {
                    Err(f) => Err(f),
                    Ok(rest) => Ok(seq![(next, listed)] + rest),
                },
            }
        }
    }

    /// The whole chain of a file's overflow index blocks. A chain of more
    /// blocks than the container has bytes runs in a circle.
    pub open spec fn overflow(self, e: EntryModel) -> core::result::Result<
        Seq<(u64, Seq<u64>)>,
        Fault,
    > {
        self.walk(e.id, e.overflow_block, self.image.len())
    }

    /// How many data blocks a file of this size takes.
    pub open spec fn blocks_for(self, size: int) -> int {
        if size == 0 {
            0
        } else {
            ceil_div(size, self.header.chunk_len())
        }
    }

    /// The data blocks that the file entry itself lists.
    pub open spec fn direct(self, e: EntryModel) -> Seq<u64> {
        e.direct_blocks.take(least(self.blocks_for(e.size as int), 8))
    }

    /// A file's data blocks, in order.
    pub open spec fn data_blocks(self, e: EntryModel) -> core::result::Result<Seq<u64>, Fault> {
        match self.overflow(e) {
            Err(f) => Err(f),
            Ok(w) => if (self.direct(e) + listed_blocks(w)).len() != self.blocks_for(
                e.size as int,
            ) {
                Err(
                    Fault::CorruptContainer("file entry block count does not match recorded size"),
                )
            } else {
                Ok(self.direct(e) + listed_blocks(w))
            },
        }
    }

    /// All of a file's blocks: data blocks and overflow index blocks.
    pub open spec fn all_blocks(self, e: EntryModel) -> core::result::Result<Seq<u64>, Fault> {
        match self.overflow(e) {
            Err(f) => Err(f),
            Ok(w) => Ok(self.direct(e) + chained_blocks(w)),
        }
    }

    /// The plaintexts of the first `n` of these blocks, one after another.
    pub open spec fn joined_blocks(self, id: u128, blocks: Seq<u64>, n: int) -> core::result::Result<
        Seq<u8>,
        Fault,
    >
        decreases n,
    {
        if n <= 0 {
            Ok(Seq::empty())
        } else {
            match self.joined_blocks(id, blocks, n - 1) {
                Err(f) => Err(f),
                Ok(before) => match self.block(blocks[n - 1], id) {
                    Err(f) => Err(f),
                    Ok(p) => Ok(before + p),
                },
            }
        }
    }

    /// The content of the file that `e` describes, checked against its hash.
    pub open spec fn content(self, e: EntryModel) -> core::result::Result<Seq<u8>, Fault> {
        if e.size == 0 {
            if e.file_hash != crypto::sha256_of(Seq::empty())@ {
                Err(Fault::IntegrityViolation("empty file hash mismatch"))
            } else {
                Ok(Seq::empty())
            }
        } else {
            match self.data_blocks(e) {
                Err(f) => Err(f),
                Ok(blocks) => match self.joined_blocks(e.id, blocks, blocks.len() as int) {
                    Err(f) => Err(f),
                    Ok(all) => {
                        let data = allocator::at_most(all, e.size as nat);
                        if crypto::sha256_of(data)@ != e.file_hash {
                            Err(
                                Fault::IntegrityViolation(
                                    "file contents do not match stored hash (corruption or tampering)",
                                ),
                            )
                        } else {
                            Ok(data)
                        }
                    },
                },
            }
        }
    }

    /// The content of the file of this name.
    pub open spec fn file(self, name: Seq<char>) -> core::result::Result<Seq<u8>, Fault> {
        match self.find_file(name, 0) {
            Err(f) => Err(f),
            Ok(None) => Err(Fault::FileNotFound(name)),
            Ok(Some((_, e))) => self.content(e),
        }
    }

    /// The bytes of storage in use.
    pub open spec fn used(self) -> int {
        (self.header.block_count - self.free_list().len()) * self.header.block_size
    }

    /// The free blocks, ascending.
    pub open spec fn free_list(self) -> Seq<u64> {
        allocator::free_blocks(self.bitmap, self.header.block_count as nat)
    }
}

/// A block's plaintext with its length in front and the tag behind, filled up
/// to the block size.
pub open spec fn framed(
    key: Seq<u8>,
    block_size: nat,
    plaintext: Seq<u8>,
    id: u128,
    i: u64,
) -> Seq<u8> {
    bytes::padded(
        bytes::le(plaintext.len(), 4) + crypto::sealed_block(key, id, i, plaintext),
        block_size,
    )
}

/// The plaintext of a stored block.
pub open spec fn unframed(key: Seq<u8>, b: Seq<u8>, id: u128, i: u64) -> core::result::Result<
    Seq<u8>,
    Fault,
> {
    let n = codec::num(b, 0, 4);
    if 4 + n > b.len() {
        Err(Fault::CorruptContainer("stored block length exceeds block size"))
    } else if 4 + n + 16 > b.len() {
        Err(Fault::CorruptContainer("stored block truncated"))
    } else {
        crypto::opened_block(key, id, i, codec::sized(b, 4, n + 16))
    }
}

/// The payload of an overflow index block.
pub open spec fn index_payload(next: u64, listed: Seq<u64>) -> Seq<u8> {
    bytes::le(next as nat, 8) + bytes::le(listed.len(), 4) + records::le_list(listed)
}

/// What the payload of an overflow index block says.
pub open spec fn parsed_index(p: Seq<u8>) -> core::result::Result<(u64, Seq<u64>), Fault> {
    if p.len() < INDEX_BLOCK_HEADER {
        Err(Fault::CorruptContainer("overflow index block too short"))
    } else if INDEX_BLOCK_HEADER + 8 * codec::num(p, 8, 4) > p.len() {
        Err(Fault::CorruptContainer("overflow index block truncated"))
    } else {
        Ok(
            (
                codec::num(p, 0, 8) as u64,
                Seq::new(codec::num(p, 8, 4), |i: int| codec::num(p, 12 + 8 * i, 8) as u64),
            ),
        )
    }
}

/// The data blocks that a chain of index blocks lists.
pub open spec fn listed_blocks(w: Seq<(u64, Seq<u64>)>) -> Seq<u64>
    decreases w.len(),
{
    if w.len() == 0 {
        Seq::empty()
    } else {
        listed_blocks(w.drop_last()) + w.last().1
    }
}

/// The index blocks of a chain, each followed by the data blocks it lists.
pub open spec fn chained_blocks(w: Seq<(u64, Seq<u64>)>) -> Seq<u64>
    decreases w.len(),
{
    if w.len() == 0 {
        Seq::empty()
    } else {
        chained_blocks(w.drop_last()) + (seq![w.last().0] + w.last().1)
    }
}

// ---------------------------------------------------------------------
// Writing
// ---------------------------------------------------------------------

impl VaultModel {
    /// The vault after writing `data` at `offset`; the range is logged.
    pub open spec fn written(self, offset: int, data: Seq<u8>) -> VaultModel {
        VaultModel {
            image: image::overlaid(self.image, offset, data),
            log: self.log.push((offset as u64, data)),
            ..self
        }
    }

    /// The vault after storing its header.
    pub open spec fn with_stored_header(self, header: HeaderModel) -> VaultModel {
        VaultModel { header, ..self }.written(0, header.encoded())
    }

    /// The vault after replacing its bitmap and storing it.
    pub open spec fn with_stored_bitmap(self, bitmap: Seq<u8>) -> VaultModel {
        VaultModel { bitmap, ..self }.written(self.header.bitmap_offset as int, bitmap)
    }

    /// The vault after storing a file slot.
    pub open spec fn with_slot(self, i: int, e: EntryModel) -> VaultModel {
        self.written(self.header.slot_at(i), e.encoded())
    }

    /// The vault after storing a recipient slot.
    pub open spec fn with_recipient(self, i: int, s: SlotModel) -> VaultModel {
        self.written(self.header.recipient_at(i), s.encoded())
    }

    /// The vault after storing block `i` of the file `id`.
    pub open spec fn with_block(self, i: u64, id: u128, plaintext: Seq<u8>) -> VaultModel {
        self.written(
            self.header.block_at(i as int),
            framed(self.key, self.header.block_size as nat, plaintext, id, i),
        )
    }

    /// The record that the next operation appends to the chain.
    pub open spec fn next_record(
        self,
        op: ChainOp,
        target: u128,
        data_hash: Seq<u8>,
        at: i64,
    ) -> RecordModel {
        RecordModel::signed(
            self.header.chain_next_seq,
            self.header.chain_last_hash,
            op,
            target,
            data_hash,
            at,
            self.admin->Some_0,
        )
    }

    /// That record verifies under the admin's public key.
    pub open spec fn record_verifies(
        self,
        op: ChainOp,
        target: u128,
        data_hash: Seq<u8>,
        at: i64,
    ) -> bool {
        let rec = self.next_record(op, target, data_hash, at);
        identity::signature_check(
            self.admin->Some_0.signing_public(),
            rec.record_hash,
            rec.signature,
        ) is Ok
    }

    /// The vault after appending a signed record to the chain and storing the
    /// header that points past it.
    pub open spec fn with_record(
        self,
        op: ChainOp,
        target: u128,
        data_hash: Seq<u8>,
        at: i64,
    ) -> VaultModel {
        let rec = self.next_record(op, target, data_hash, at);
        self.written(
            self.header.record_at(self.header.chain_next_seq as int),
            rec.encoded(),
        ).with_stored_header(
            HeaderModel {
                chain_next_seq: (self.header.chain_next_seq + 1) as u64,
                chain_last_hash: rec.record_hash,
                ..self.header
            },
        )
    }
}

// ---------------------------------------------------------------------
// Storing content
// ---------------------------------------------------------------------

/// Block `i` of the file `id`, sealed with this plaintext, opens to it again.
pub open spec fn opens(key: Seq<u8>, id: u128, i: u64, plaintext: Seq<u8>) -> bool {
    &&& crypto::sealed_block(key, id, i, plaintext).len() == plaintext.len() + 16
    &&& crypto::opened_block(key, id, i, crypto::sealed_block(key, id, i, plaintext)) == Ok::<
        Seq<u8>,
        Fault,
    >(plaintext)
}

/// The part of `data` that block number `k` holds.
pub open spec fn chunk(data: Seq<u8>, len: int, k: int) -> Seq<u8> {
    data.subrange(k * len, least((k + 1) * len, data.len() as int))
}

/// The part of `listed` that index block number `k` holds.
pub open spec fn index_chunk(listed: Seq<u64>, capacity: int, k: int) -> Seq<u64> {
    listed.subrange(k * capacity, least((k + 1) * capacity, listed.len() as int))
}

/// The block that index block number `k` points to.
pub open spec fn next_index(index_blocks: Seq<u64>, k: int) -> u64 {
    if k + 1 < index_blocks.len() {
        index_blocks[k + 1]
    } else {
        0
    }
}

/// The blocks that content of `size` bytes will be stored in.
pub struct Plan {
    /// How many data blocks are needed.
    pub data: int,
    /// How many overflow index blocks are needed.
    pub index: int,
}

impl Plan {
    /// How many blocks are needed in all.
    pub open spec fn total(self) -> int {
        self.data + self.index
    }
}

impl VaultModel {
    /// What storing `size` bytes needs.
    pub open spec fn plan(self, size: int) -> Plan {
        let data = self.blocks_for(size);
        Plan {
            data,
            index: if data <= 8 {
                0
            } else {
                ceil_div(data - 8, self.header.index_capacity())
            },
        }
    }

    /// The blocks that will be allocated for content of `size` bytes.
    pub open spec fn allotted(self, size: int) -> Seq<u64> {
        allocator::at_most(self.free_list(), self.plan(size).total() as nat)
    }

    /// Of those, the data blocks.
    pub open spec fn allotted_data(self, size: int) -> Seq<u64> {
        self.allotted(size).take(self.plan(size).data)
    }

    /// Of those, the index blocks.
    pub open spec fn allotted_index(self, size: int) -> Seq<u64> {
        self.allotted(size).skip(self.plan(size).data)
    }

    /// The vault after storing the first `k` chunks of `data`.
    pub open spec fn with_chunks(self, id: u128, data: Seq<u8>, blocks: Seq<u64>, k: int) -> VaultModel
        decreases k,
    {
        if k <= 0 {
            self
        } else {
            self.with_chunks(id, data, blocks, k - 1).with_block(
                blocks[k - 1],
                id,
                chunk(data, self.header.chunk_len(), k - 1),
            )
        }
    }

    /// The vault after storing the first `k` overflow index blocks.
    pub open spec fn with_indices(
        self,
        id: u128,
        listed: Seq<u64>,
        index_blocks: Seq<u64>,
        k: int,
    ) -> VaultModel
        decreases k,
    {
        if k <= 0 {
            self
        } else {
            self.with_indices(id, listed, index_blocks, k - 1).with_block(
                index_blocks[k - 1],
                id,
                index_payload(
                    next_index(index_blocks, k - 1),
                    index_chunk(listed, self.header.index_capacity(), k - 1),
                ),
            )
        }
    }

    /// The vault after allocating blocks for `data`, filling them and storing
    /// the bitmap.
    pub open spec fn with_content(self, id: u128, data: Seq<u8>) -> VaultModel {
        let size = data.len() as int;
        let blocks = self.allotted_data(size);
        let bitmap = allocator::with_marks(
            self.bitmap,
            self.allotted(size),
            self.header.block_count as nat,
            true,
        );
        VaultModel { bitmap, ..self }.with_chunks(id, data, blocks, blocks.len() as int).with_indices(
            id,
            blocks.skip(least(blocks.len() as int, 8)),
            self.allotted_index(size),
            self.plan(size).index,
        ).with_stored_bitmap(bitmap)
    }

    /// Every block that storing `data` seals opens again.
    pub open spec fn content_opens(self, id: u128, data: Seq<u8>) -> bool {
        let size = data.len() as int;
        let blocks = self.allotted_data(size);
        let listed = blocks.skip(least(blocks.len() as int, 8));
        &&& forall|k: int|
            0 <= k < blocks.len() ==> opens(
                self.key,
                id,
                #[trigger] blocks[k],
                chunk(data, self.header.chunk_len(), k),
            )
        &&& forall|k: int|
            0 <= k < self.plan(size).index ==> opens(
                self.key,
                id,
                #[trigger] self.allotted_index(size)[k],
                index_payload(
                    next_index(self.allotted_index(size), k),
                    index_chunk(listed, self.header.index_capacity(), k),
                ),
            )
    }

    /// Content of `size` bytes can be stored where there is room for it: it needs
    /// no index blocks, or blocks have room for index entries.
    pub open spec fn can_store(self, size: int) -> bool {
        &&& self.header.writable()
        &&& self.header.block_size >= MIN_BLOCK_SIZE || self.blocks_for(size) <= 8
    }

    /// Whether `size` bytes fit into the free blocks.
    pub open spec fn has_room(self, size: int) -> bool {
        self.plan(size).total() <= self.free_list().len()
    }

    /// The fault of content that does not fit, given what is available.
    pub open spec fn no_room(self, size: int, available: int) -> Fault {
        Fault::InsufficientSpace {
            requested: least(self.plan(size).total() * self.header.block_size, u64::MAX as int),
            available: least(available * self.header.block_size, u64::MAX as int),
        }
    }

    /// The entry for content stored by [`VaultModel::with_content`].
    pub open spec fn entry_for(
        self,
        id: u128,
        name: Seq<char>,
        data: Seq<u8>,
        created_at: i64,
        modified_at: i64,
    ) -> EntryModel {
        let size = data.len() as int;
        let blocks = self.allotted_data(size);
        EntryModel {
            id,
            name,
            size: size as u64,
            blocks_used: (self.plan(size).total() % 0x1_0000_0000) as u32,
            direct_blocks: Seq::new(
                8,
                |i: int|
                    if i < blocks.len() {
                        blocks[i]
                    } else {
                        0u64
                    },
            ),
            overflow_block: if self.plan(size).index > 0 {
                self.allotted_index(size)[0]
            } else {
                0
            },
            file_hash: crypto::sha256_of(data)@,
            created_at,
            modified_at,
            flags: 1,
        }
    }
}

// ---------------------------------------------------------------------
// Operations
// ---------------------------------------------------------------------

/// An operation's effect on the vault, and what it returns.
pub type Effect = (VaultModel, core::result::Result<(), Fault>);

impl VaultModel {
    /// Adding a file: what is refused, and what a success changes. `id` is the
    /// new file's identifier; `at` and `chained_at` are the times recorded in
    /// the file entry and in the chain.
    pub open spec fn adding(
        self,
        name: Seq<char>,
        data: Seq<u8>,
        id: u128,
        at: i64,
        chained_at: i64,
    ) -> Effect {
        if self.admin is None {
            (self, Err(Fault::NotAuthorized))
        } else if name.len() == 0 || bytes::text(name).len() > 128 {
            (self, Err(Fault::FieldTooLong))
        } else {
            match self.find_file(name, 0) {
                Err(f) => (self, Err(f)),
                Ok(Some(_)) => (self, Err(Fault::FileAlreadyExists(name))),
                Ok(None) => match self.find_free_slot(0) {
                    Err(f) => (self, Err(f)),
                    Ok(None) => (self, Err(Fault::FileTableFull)),
                    Ok(Some(i)) => if !self.has_room(data.len() as int) {
                        (
                            self,
                            Err(
                                self.no_room(
                                    data.len() as int,
                                    self.free_list().len() as int,
                                ),
                            ),
                        )
                    } else {
                        (
                            self.with_content(id, data).with_slot(
                                i,
                                self.entry_for(id, name, data, at, at),
                            ).with_record(
                                ChainOp::FileAdded,
                                id,
                                crypto::sha256_of(data)@,
                                chained_at,
                            ),
                            Ok(()),
                        )
                    },
                },
            }
        }
    }

    /// The vault after freeing these blocks and storing the bitmap.
    pub open spec fn with_freed(self, blocks: Seq<u64>) -> VaultModel {
        self.with_stored_bitmap(
            allocator::with_marks(self.bitmap, blocks, self.header.block_count as nat, false),
        )
    }

    /// Replacing a file's content. The file keeps its name and its creation time;
    /// `id` becomes its identifier, so that no block of the new content is sealed
    /// under the nonce of a block of the old.
    pub open spec fn updating(
        self,
        name: Seq<char>,
        data: Seq<u8>,
        id: u128,
        at: i64,
        chained_at: i64,
    ) -> Effect {
        if self.admin is None {
            (self, Err(Fault::NotAuthorized))
        } else {
            match self.find_file(name, 0) {
                Err(f) => (self, Err(f)),
                Ok(None) => (self, Err(Fault::FileNotFound(name))),
                Ok(Some((i, e))) => match self.all_blocks(e) {
                    Err(f) => (self, Err(f)),
                    Ok(old_blocks) => {
                        let size = data.len() as int;
                        let available = self.free_list().len() + old_blocks.len();
                        let freed = self.with_freed(old_blocks);
                        if available < self.plan(size).total() {
                            (self, Err(self.no_room(size, available as int)))
                        } else if !freed.has_room(size) {
                            (freed, Err(freed.no_room(size, freed.free_list().len() as int)))
                        } else {
                            (
                                freed.with_content(id, data).with_slot(
                                    i,
                                    freed.entry_for(id, e.name, data, e.created_at, at),
                                ).with_record(
                                    ChainOp::FileUpdated,
                                    id,
                                    crypto::sha256_of(data)@,
                                    chained_at,
                                ),
                                Ok(()),
                            )
                        }
                    },
                },
            }
        }
    }

    /// Deleting a file: its blocks are freed, its slot becomes a tombstone.
    pub open spec fn deleting(self, name: Seq<char>, chained_at: i64) -> Effect {
        if self.admin is None {
            (self, Err(Fault::NotAuthorized))
        } else {
            match self.find_file(name, 0) {
                Err(f) => (self, Err(f)),
                Ok(None) => (self, Err(Fault::FileNotFound(name))),
                Ok(Some((i, e))) => match self.all_blocks(e) {
                    Err(f) => (self, Err(f)),
                    Ok(blocks) => (
                        self.with_freed(blocks).with_slot(
                            i,
                            EntryModel { flags: 2, ..e },
                        ).with_record(
                            ChainOp::FileDeleted,
                            e.id,
                            crypto::sha256_of(bytes::text(e.name))@,
                            chained_at,
                        ),
                        Ok(()),
                    ),
                },
            }
        }
    }

    /// Granting a peer access: `wrapped` is the content key wrapped for the
    /// peer.
    pub open spec fn granting(
        self,
        signing: Seq<u8>,
        encryption: Seq<u8>,
        wrapped: Seq<u8>,
        at: i64,
        chained_at: i64,
    ) -> Effect {
        if self.admin is None {
            (self, Err(Fault::NotAuthorized))
        } else {
            match self.find_recipient(signing, 0) {
                Err(f) => (self, Err(f)),
                Ok(Some(_)) => (self, Err(Fault::AlreadyGranted)),
                Ok(None) => match self.find_free_recipient(0) {
                    Err(f) => (self, Err(f)),
                    Ok(None) => (self, Err(Fault::RecipientTableFull)),
                    Ok(Some(i)) => (
                        self.with_recipient(
                            i,
                            SlotModel {
                                signing_pubkey: signing,
                                encryption_pubkey: encryption,
                                wrapped_dek: wrapped,
                                granted_at: at,
                                flags: 1,
                            },
                        ).with_record(
                            ChainOp::AccessGranted,
                            peer_target(signing),
                            crypto::sha256_of(signing + encryption)@,
                            chained_at,
                        ),
                        Ok(()),
                    ),
                },
            }
        }
    }

    /// The plaintexts of all blocks of the first `n` of these files, with the
    /// file and block they belong to.
    pub open spec fn plaintexts(self, entries: Seq<(int, EntryModel)>, n: int) -> core::result::Result<
        Seq<(u64, u128, Seq<u8>)>,
        Fault,
    >
        decreases n,
    {
        if n <= 0 {
            Ok(Seq::empty())
        } else {
            match self.plaintexts(entries, n - 1) {
                Err(f) => Err(f),
                Ok(before) => match self.all_blocks(entries[n - 1].1) {
                    Err(f) => Err(f),
                    Ok(blocks) => match self.file_plaintexts(
                        entries[n - 1].1.id,
                        blocks,
                        blocks.len() as int,
                    ) {
                        Err(f) => Err(f),
                        Ok(these) => Ok(before + these),
                    },
                },
            }
        }
    }

    /// The plaintexts of the first `n` of these blocks of one file.
    pub open spec fn file_plaintexts(self, id: u128, blocks: Seq<u64>, n: int) -> core::result::Result<
        Seq<(u64, u128, Seq<u8>)>,
        Fault,
    >
        decreases n,
    {
        if n <= 0 {
            Ok(Seq::empty())
        } else {
            match self.file_plaintexts(id, blocks, n - 1) {
                Err(f) => Err(f),
                Ok(before) => match self.block(blocks[n - 1], id) {
                    Err(f) => Err(f),
                    Ok(p) => Ok(before.push((blocks[n - 1], id, p))),
                },
            }
        }
    }

    /// The vault after storing the first `n` of these blocks again.
    pub open spec fn with_blocks(self, all: Seq<(u64, u128, Seq<u8>)>, n: int) -> VaultModel
        decreases n,
    {
        if n <= 0 {
            self
        } else {
            self.with_blocks(all, n - 1).with_block(all[n - 1].0, all[n - 1].1, all[n - 1].2)
        }
    }

    /// Storing the newly wrapped content key in every granted slot below `n`:
    /// `wraps` holds what is stored in each.
    pub open spec fn rewrapping(self, wraps: Seq<Seq<u8>>, n: int) -> Effect
        decreases n,
    {
        if n <= 0 {
            (self, Ok(()))
        } else {
            let (v, r) = self.rewrapping(wraps, n - 1);
            match r {
                Err(f) => (v, Err(f)),
                Ok(_) => match v.recipient(n - 1) {
                    Err(f) => (v, Err(f)),
                    Ok(s) => if s.occupied() {
                        (
                            v.with_recipient(
                                n - 1,
                                SlotModel { wrapped_dek: wraps[n - 1], ..s },
                            ),
                            Ok(()),
                        )
                    } else {
                        (v, Ok(()))
                    },
                },
            }
        }
    }

    /// What is stored in each granted slot unwraps to the content key for the
    /// peer that the slot belongs to.
    pub open spec fn rewraps(self, wraps: Seq<Seq<u8>>, n: int) -> bool {
        forall|i: int|
            0 <= i < n && (#[trigger] self.rewrapping(wraps, i)).1 is Ok
                ==> match self.rewrapping(wraps, i).0.recipient(i) {
                Ok(s) => s.occupied() ==> wraps[i].len() == 92 && crypto::unwraps_for(
                    wraps[i],
                    s.encryption_pubkey,
                    self.key,
                ),
                Err(_) => true,
            }
    }

    /// Revoking a peer: every block is sealed again under the new key, the
    /// peer's slot is cleared, and the new key is wrapped for the remaining
    /// recipients and for the password.
    pub open spec fn revoking(
        self,
        signing: Seq<u8>,
        password: Seq<u8>,
        new_key: Seq<u8>,
        wraps: Seq<Seq<u8>>,
        nonce: Seq<u8>,
        chained_at: i64,
    ) -> Effect {
        if self.admin is None {
            (self, Err(Fault::NotAuthorized))
        } else {
            match self.find_recipient(signing, 0) {
                Err(f) => (self, Err(f)),
                Ok(None) => (self, Err(Fault::AccessNotGranted)),
                Ok(Some((i, _))) => match self.live_entries(self.header.max_files as int) {
                    Err(f) => (self, Err(f)),
                    Ok(entries) => match self.plaintexts(entries, entries.len() as int) {
                        Err(f) => (self, Err(f)),
                        Ok(all) => self.rotated(i, all, new_key).rekeying(
                            signing,
                            password,
                            wraps,
                            nonce,
                            chained_at,
                        ),
                    },
                },
            }
        }
    }

    /// Whatever revoking seals and wraps under the new key opens again: every
    /// block, every remaining recipient's copy of the key, and the admin's.
    /// What it signs verifies.
    pub open spec fn revocation_opens(
        self,
        signing: Seq<u8>,
        password: Seq<u8>,
        new_key: Seq<u8>,
        wraps: Seq<Seq<u8>>,
        nonce: Seq<u8>,
        chained_at: i64,
    ) -> bool {
        self.admin is None || match self.find_recipient(signing, 0) {
            Ok(Some((i, _))) => match self.live_entries(self.header.max_files as int) {
                Ok(entries) => match self.plaintexts(entries, entries.len() as int) {
                    Ok(all) => all_open(all, new_key, self.header.chunk_len()) && self.rotated(
                        i,
                        all,
                        new_key,
                    ).rekey_opens(signing, password, wraps, nonce, chained_at),
                    Err(_) => true,
                },
                Err(_) => true,
            },
            _ => true,
        }
    }

    /// The copies of the content key that rewrapping stores unwrap to it, and
    /// so does the admin's copy under the password; the record of the rotation
    /// verifies.
    pub open spec fn rekey_opens(
        self,
        signing: Seq<u8>,
        password: Seq<u8>,
        wraps: Seq<Seq<u8>>,
        nonce: Seq<u8>,
        chained_at: i64,
    ) -> bool {
        &&& self.rewraps(wraps, self.header.max_recipients as int)
        &&& self.rewrapping(wraps, self.header.max_recipients as int).1 is Ok
            ==> match crypto::derived_key(
            password,
            self.header.salt,
            self.header.argon2_params(),
        ) {
            Ok(kek) => {
                let slot = nonce + crypto::gcm_sealed(
                    kek,
                    nonce,
                    bytes::text(ADMIN_KEY_SLOT_AAD@),
                    self.key,
                );
                let v = self.rewrapping(wraps, self.header.max_recipients as int).0;
                slot.len() == 60 && crypto::opened_blob(
                    kek,
                    slot,
                    bytes::text(ADMIN_KEY_SLOT_AAD@),
                ) == Ok::<Seq<u8>, Fault>(self.key) && v.with_stored_header(
                    HeaderModel { admin_key_slot: slot, ..v.header },
                ).record_verifies(
                    ChainOp::KeyRotated,
                    peer_target(signing),
                    crypto::sha256_of(signing)@,
                    chained_at,
                )
            },
            Err(_) => true,
        }
    }

    /// The vault under the new key: these blocks sealed again, slot `i`
    /// cleared.
    pub open spec fn rotated(
        self,
        i: int,
        all: Seq<(u64, u128, Seq<u8>)>,
        new_key: Seq<u8>,
    ) -> VaultModel {
        VaultModel { key: new_key, ..self }.with_blocks(all, all.len() as int).with_recipient(
            i,
            SlotModel::empty(),
        )
    }

    /// The last part of revoking: wrapping the key for the remaining
    /// recipients and for the password, and recording the rotation.
    pub open spec fn rekeying(
        self,
        signing: Seq<u8>,
        password: Seq<u8>,
        wraps: Seq<Seq<u8>>,
        nonce: Seq<u8>,
        chained_at: i64,
    ) -> Effect {
        let (v, r) = self.rewrapping(wraps, self.header.max_recipients as int);
        match r {
            Err(f) => (v, Err(f)),
            Ok(_) => match crypto::derived_key(
                password,
                v.header.salt,
                v.header.argon2_params(),
            ) {
                Err(f) => (v, Err(f)),
                Ok(kek) => (
                    v.with_stored_header(
                        HeaderModel {
                            admin_key_slot: nonce + crypto::gcm_sealed(
                                kek,
                                nonce,
                                bytes::text(ADMIN_KEY_SLOT_AAD@),
                                v.key,
                            ),
                            ..v.header
                        },
                    ).with_record(
                        ChainOp::KeyRotated,
                        peer_target(signing),
                        crypto::sha256_of(signing)@,
                        chained_at,
                    ),
                    Ok(()),
                ),
            },
        }
    }
}

/// Every one of these plaintexts fits into a block and, sealed under `key`,
/// opens again.
pub open spec fn all_open(all: Seq<(u64, u128, Seq<u8>)>, key: Seq<u8>, chunk_len: int) -> bool {
    forall|k: int|
        0 <= k < all.len() ==> (#[trigger] all[k]).2.len() <= chunk_len && opens(
            key,
            all[k].1,
            all[k].0,
            all[k].2,
        )
}

/// The identifier of a peer in the chain.
pub open spec fn peer_target(signing: Seq<u8>) -> u128 {
    codec::num(crypto::sha256_of(signing)@, 0, 16) as u128
}

// ---------------------------------------------------------------------
// Checking
// ---------------------------------------------------------------------

impl VaultModel {
    /// The newest sequence number in the chain.
    pub open spec fn newest(self) -> int {
        if self.header.chain_next_seq == 0 {
            0
        } else {
            self.header.chain_next_seq - 1
        }
    }

    /// The oldest sequence number that the ring still holds.
    pub open spec fn oldest(self) -> int {
        if self.newest() < self.header.max_chain_records {
            0
        } else {
            self.newest() - (self.header.max_chain_records - 1)
        }
    }

    /// What is wrong with the record found for `seq` after `prev`, if
    /// anything is.
    pub open spec fn record_fault(
        self,
        seq: int,
        rec: RecordModel,
        prev: Option<RecordModel>,
    ) -> Option<Fault> {
        if rec.seq != seq {
            Some(
                Fault::IntegrityViolation("chain record sequence number does not match its slot"),
            )
        } else if !rec.self_consistent() {
            Some(Fault::IntegrityViolation("chain record hash does not match its own contents"))
        } else {
            match identity::signature_check(
                self.header.admin_signing_pubkey,
                rec.record_hash,
                rec.signature,
            ) {
                Err(f) => Some(f),
                Ok(_) => if prev is Some && rec.prev_hash != prev->Some_0.record_hash {
                    Some(
                        Fault::IntegrityViolation(
                            "chain record does not link to the previous record's hash",
                        ),
                    )
                } else {
                    None
                },
            }
        }
    }

    /// Checks the records from the oldest up to, but not including, `end`:
    /// each must be there, must be right and must link to the one before it.
    /// Gives the last one.
    pub open spec fn checked_chain(self, end: int) -> core::result::Result<
        Option<RecordModel>,
        Fault,
    >
        decreases end - self.oldest(),
    {
        if end <= self.oldest() {
            Ok(None)
        } else {
            match self.checked_chain(end - 1) {
                Err(f) => Err(f),
                Ok(prev) => match self.record(end - 1) {
                    Err(f) => Err(f),
                    Ok(None) => Err(Fault::IntegrityViolation("a chain record is missing")),
                    Ok(Some(rec)) => match self.record_fault(end - 1, rec, prev) {
                        Some(f) => Err(f),
                        None => Ok(Some(rec)),
                    },
                },
            }
        }
    }

    /// Reads the first `n` of these files by name.
    pub open spec fn checked_files(self, entries: Seq<(int, EntryModel)>, n: int) -> core::result::Result<
        (),
        Fault,
    >
        decreases n,
    {
        if n <= 0 {
            Ok(())
        } else {
            match self.checked_files(entries, n - 1) {
                Err(f) => Err(f),
                Ok(_) => match self.file(entries[n - 1].1.name) {
                    Err(f) => Err(f),
                    Ok(_) => Ok(()),
                },
            }
        }
    }

    /// What is wrong with the end of the chain, if anything is: the latest
    /// record must be there, with the hash that the header is anchored to.
    pub open spec fn anchor_fault(self) -> Option<Fault> {
        match self.record(self.newest()) {
            Err(f) => Some(f),
            Ok(None) => Some(Fault::IntegrityViolation("a chain record is missing")),
            Ok(Some(rec)) => if rec.record_hash != self.header.chain_last_hash {
                Some(
                    Fault::IntegrityViolation(
                        "chain anchor in header does not match the latest chain record",
                    ),
                )
            } else {
                None
            },
        }
    }

    /// Checks the retained chain, its anchor in the header, and every file.
    pub open spec fn integrity(self) -> core::result::Result<(), Fault> {
        match self.checked_chain(self.newest() + 1) {
            Err(f) => Err(f),
            Ok(_) => match self.anchor_fault() {
                Some(f) => Err(f),
                None => match self.live_entries(self.header.max_files as int) {
                    Err(f) => Err(f),
                    Ok(entries) => self.checked_files(entries, entries.len() as int),
                },
            },
        }
    }
}

// ---------------------------------------------------------------------
// Creating and opening
// ---------------------------------------------------------------------

/// `s` repeated `n` times.
pub open spec fn repeated(s: Seq<u8>, n: int) -> Seq<u8>
    decreases n,
{
    if n <= 0 {
        Seq::empty()
    } else {
        repeated(s, n - 1) + s
    }
}

/// `n`, kept between `lo` and `hi`.
pub open spec fn clamped(n: int, lo: int, hi: int) -> int {
    if n < lo {
        lo
    } else if n > hi {
        hi
    } else {
        n
    }
}

/// The layout of a new vault: the file table grows with the capacity, within
/// bounds, and the chain ring with the file table.
pub struct Layout {
    pub block_count: int,
    pub max_files: int,
    pub max_chain_records: int,
    pub bitmap_len: int,
    pub file_table_len: int,
    pub recipient_len: int,
    pub chain_len: int,
}

impl Layout {
    /// The layout for this capacity.
    pub open spec fn of(capacity: u64) -> Layout {
        let block_count = capacity as int / 4096;
        let max_files = clamped(capacity as int / 16384, 4, 4096);
        let max_chain_records = clamped(max_files * 4, 8, 16384);
        Layout {
            block_count,
            max_files,
            max_chain_records,
            bitmap_len: allocator::bitmap_bytes(block_count as nat) as int,
            file_table_len: max_files * 320,
            recipient_len: 3072,
            chain_len: max_chain_records * 224,
        }
    }

    pub open spec fn file_table_offset(self) -> int {
        1024 + self.bitmap_len
    }

    pub open spec fn recipient_offset(self) -> int {
        self.file_table_offset() + self.file_table_len
    }

    pub open spec fn chain_offset(self) -> int {
        self.recipient_offset() + self.recipient_len
    }

    pub open spec fn data_offset(self) -> int {
        self.chain_offset() + self.chain_len
    }

    pub open spec fn total_size(self) -> int {
        self.data_offset() + self.block_count * 4096
    }
}

/// The first record of a vault's chain.
pub open spec fn genesis(
    name: Seq<char>,
    description: Seq<char>,
    capacity: u64,
    admin: Keys,
    at: i64,
) -> RecordModel {
    RecordModel::signed(
        0,
        bytes::zeros(32),
        ChainOp::VaultCreated,
        0,
        crypto::sha256_of(
            bytes::text(name) + bytes::text(description) + bytes::le(capacity as nat, 8)
                + admin.signing_public(),
        )@,
        at,
        admin,
    )
}

/// The header of a new vault.
pub open spec fn created_header(
    name: Seq<char>,
    description: Seq<char>,
    capacity: u64,
    admin: Keys,
    salt: Seq<u8>,
    admin_key_slot: Seq<u8>,
    at: i64,
) -> HeaderModel {
    let l = Layout::of(capacity);
    HeaderModel {
        version: 2,
        flags: 0,
        block_size: 4096,
        block_count: l.block_count as u64,
        capacity_bytes: capacity,
        name,
        description,
        created_at: at,
        salt,
        argon2_m_cost_kib: 19456,
        argon2_t_cost: 2,
        argon2_p_cost: 1,
        admin_key_slot,
        admin_signing_pubkey: admin.signing_public(),
        admin_encryption_pubkey: admin.encryption_public(),
        bitmap_offset: 1024,
        bitmap_len: l.bitmap_len as u64,
        file_table_offset: l.file_table_offset() as u64,
        file_table_len: l.file_table_len as u64,
        max_files: l.max_files as u32,
        entry_size: 320,
        recipient_offset: l.recipient_offset() as u64,
        recipient_len: l.recipient_len as u64,
        max_recipients: 16,
        recipient_slot_size: 192,
        chain_offset: l.chain_offset() as u64,
        chain_len: l.chain_len as u64,
        max_chain_records: l.max_chain_records as u32,
        chain_record_size: 224,
        chain_next_seq: 1,
        chain_last_hash: genesis(name, description, capacity, admin, at).record_hash,
        data_offset: l.data_offset() as u64,
    }
}

/// The container of a new vault: header, zero bitmap, empty slots, the first
/// chain record, and zero bytes for the rest.
pub open spec fn created_image(h: HeaderModel, first: RecordModel) -> Seq<u8> {
    bytes::padded(
        h.encoded() + bytes::zeros(h.bitmap_len as nat) + repeated(
            EntryModel::empty().encoded(),
            h.max_files as int,
        ) + repeated(SlotModel::empty().encoded(), h.max_recipients as int) + first.encoded(),
        h.total_size() as nat,
    )
}

/// The costs that new vaults are created with.
pub open spec fn default_params() -> Argon2Params {
    Argon2Params { m_cost_kib: 19456, t_cost: 2, p_cost: 1 }
}

/// A new vault, for the given salt, content key, nonce and creation time.
pub open spec fn creating(
    name: Seq<char>,
    description: Seq<char>,
    capacity: u64,
    password: Seq<u8>,
    admin: Keys,
    salt: Seq<u8>,
    key: Seq<u8>,
    nonce: Seq<u8>,
    at: i64,
) -> core::result::Result<VaultModel, Fault> {
    if bytes::text(name).len() > 128 || bytes::text(description).len() > 256 {
        Err(Fault::FieldTooLong)
    } else if capacity < 4096 {
        Err(Fault::CapacityTooSmall)
    } else {
        match crypto::derived_key(password, salt, default_params()) {
            Err(f) => Err(f),
            Ok(kek) => if Layout::of(capacity).total_size() > image::MAX_LEN {
                Err(Fault::Io(image::TOO_FAR))
            } else {
                let slot = nonce + crypto::gcm_sealed(
                    kek,
                    nonce,
                    bytes::text(ADMIN_KEY_SLOT_AAD@),
                    key,
                );
                let h = created_header(name, description, capacity, admin, salt, slot, at);
                Ok(
                    VaultModel {
                        image: created_image(
                            h,
                            genesis(name, description, capacity, admin, at),
                        ),
                        header: h,
                        bitmap: bytes::zeros(h.bitmap_len as nat),
                        key,
                        admin: Some(admin),
                        log: Seq::empty(),
                    },
                )
            },
        }
    }
}

/// The header that a container starts with.
pub open spec fn header_of(image: Seq<u8>) -> core::result::Result<HeaderModel, Fault> {
    match image::bytes_at(image, 0, 1024) {
        Err(f) => Err(f),
        Ok(b) => HeaderModel::decoded(b),
    }
}

/// The header that a container starts with, if its regions can hold what it
/// counts in them.
pub open spec fn usable_header(image: Seq<u8>) -> core::result::Result<HeaderModel, Fault> {
    match image::bytes_at(image, 0, 1024) {
        Err(f) => Err(f),
        Ok(b) => usable(b),
    }
}

/// The header that these bytes hold, if its regions can hold what it counts in
/// them.
pub open spec fn usable(b: Seq<u8>) -> core::result::Result<HeaderModel, Fault> {
    match HeaderModel::decoded(b) {
        Err(f) => Err(f),
        Ok(h) => match h.counts_fault() {
            Some(f) => Err(f),
            None => Ok(h),
        },
    }
}

/// The bitmap that a container with this header holds.
pub open spec fn bitmap_of(image: Seq<u8>, h: HeaderModel) -> core::result::Result<
    Seq<u8>,
    Fault,
> {
    match image::bytes_at(image, h.bitmap_offset as int, h.bitmap_len as int) {
        Err(f) => Err(f),
        Ok(b) => Ok(allocator::resized(b, allocator::bitmap_bytes(h.block_count as nat))),
    }
}

/// The content key that the password unwraps.
pub open spec fn admin_key(h: HeaderModel, password: Seq<u8>) -> core::result::Result<
    Seq<u8>,
    Fault,
> {
    match crypto::derived_key(password, h.salt, h.argon2_params()) {
        Err(f) => Err(f),
        Ok(kek) => match crypto::opened_blob(
            kek,
            h.admin_key_slot,
            bytes::text(ADMIN_KEY_SLOT_AAD@),
        ) {
            Err(f) => Err(f),
            Ok(key) => if key.len() != 32 {
                Err(Fault::CorruptContainer("unwrapped admin DEK has the wrong length"))
            } else {
                Ok(key)
            },
        },
    }
}

/// Opening a container with the admin's password. Changes can be made only if
/// the local identity is the admin's.
pub open spec fn opening(image: Seq<u8>, password: Seq<u8>, local: Keys) -> core::result::Result<
    VaultModel,
    Fault,
> {
    match usable_header(image) {
        Err(f) => Err(f),
        Ok(header) => match admin_key(header, password) {
            Err(f) => Err(f),
            Ok(key) => match bitmap_of(image, header) {
                Err(f) => Err(f),
                Ok(bitmap) => Ok(
                    VaultModel {
                        image,
                        header,
                        bitmap,
                        key,
                        admin: if local.signing_public() == header.admin_signing_pubkey {
                            Some(local)
                        } else {
                            None
                        },
                        log: Seq::empty(),
                    },
                ),
            },
        },
    }
}

/// A container of which no key is known.
pub open spec fn locked(image: Seq<u8>, header: HeaderModel) -> VaultModel {
    VaultModel {
        image,
        header,
        bitmap: Seq::empty(),
        key: Seq::empty(),
        admin: None,
        log: Seq::empty(),
    }
}

/// The content key that a granted peer unwraps.
pub open spec fn peer_key(image: Seq<u8>, h: HeaderModel, peer: Keys) -> core::result::Result<
    Seq<u8>,
    Fault,
> {
    match locked(image, h).find_keyring_slot(peer.encryption_public(), 0) {
        Err(f) => Err(f),
        Ok(None) => Err(Fault::AccessNotGranted),
        Ok(Some(s)) => if s.wrapped_dek.len() != 92 {
            Err(Fault::CorruptContainer("recipient wrapped DEK has the wrong length"))
        } else {
            crypto::unwrapped_dek(peer.encryption, s.wrapped_dek)
        },
    }
}

/// Opening a container as a granted peer. Such a vault can be read, but never
/// changed.
pub open spec fn opening_as_recipient(image: Seq<u8>, peer: Keys) -> core::result::Result<
    VaultModel,
    Fault,
> {
    match usable_header(image) {
        Err(f) => Err(f),
        Ok(header) => match peer_key(image, header, peer) {
            Err(f) => Err(f),
            Ok(key) => match bitmap_of(image, header) {
                Err(f) => Err(f),
                Ok(bitmap) => Ok(
                    VaultModel { image, header, bitmap, key, admin: None, log: Seq::empty() },
                ),
            },
        },
    }
}

/// The container after laying the first `n` ranges over it, in order; a range
/// that cannot be written ends it.
pub open spec fn patched(image: Seq<u8>, ranges: Seq<(u64, Seq<u8>)>, n: int) -> (
    Seq<u8>,
    core::result::Result<(), Fault>,
)
    decreases n,
{
    if n <= 0 {
        (image, Ok(()))
    } else {
        let (before, r) = patched(image, ranges, n - 1);
        match r {
            Err(f) => (before, Err(f)),
            Ok(_) => if image::writable(ranges[n - 1].0 as int, ranges[n - 1].1) {
                (image::overlaid(before, ranges[n - 1].0 as int, ranges[n - 1].1), Ok(()))
            } else {
                (before, Err(Fault::Io(image::TOO_FAR)))
            },
        }
    }
}

/// How far a chain was followed: the next sequence number, and the hash of the
/// record before it.
#[verifier::ext_equal]
pub struct Position {
    pub seq: u64,
    pub tip: Seq<u8>,
}

/// The range stores a whole header.
pub open spec fn stores_header(range: (u64, Seq<u8>)) -> bool {
    range.0 == 0 && range.1.len() >= 1024
}

/// Follows the chain into a container under the header `h`, if that goes beyond
/// `at`: every record from there on must be in the container, signed with the key
/// `admin` and linked to the one before it. A header that goes no further is one
/// of a change that is known already.
pub open spec fn followed_into(
    admin: Seq<u8>,
    image: Seq<u8>,
    at: Position,
    h: HeaderModel,
) -> core::result::Result<Position, Fault> {
    if h.admin_signing_pubkey != admin {
        Err(Fault::IntegrityViolation("patch changes the admin's signing key"))
    } else if h.max_chain_records == 0 {
        Err(Fault::CorruptContainer("chain region has no room for a record"))
    } else if h.chain_next_seq <= at.seq {
        Ok(at)
    } else {
        match locked(image, h).chain_from(at.tip, at.seq as int, h.chain_next_seq as int) {
            Err(f) => Err(f),
            Ok(tip) => Ok(Position { seq: h.chain_next_seq, tip }),
        }
    }
}

/// Follows the chain from `at` along the first `n` ranges of a patch: wherever a
/// header is stored, the container as it is by then must hold the records up to
/// that header.
pub open spec fn followed(
    admin: Seq<u8>,
    image: Seq<u8>,
    at: Position,
    ranges: Seq<(u64, Seq<u8>)>,
    n: int,
) -> core::result::Result<Position, Fault>
    decreases n,
{
    if n <= 0 {
        Ok(at)
    } else {
        match followed(admin, image, at, ranges, n - 1) {
            Err(f) => Err(f),
            Ok(before) => if !stores_header(ranges[n - 1]) {
                Ok(before)
            } else {
                match usable(ranges[n - 1].1.take(1024)) {
                    Err(f) => Err(f),
                    Ok(h) => followed_into(admin, patched(image, ranges, n).0, before, h),
                }
            },
        }
    }
}

impl VaultModel {
    /// Follows the chain from the record with number `first` up to, but not
    /// including, `end`: each must be there, must be right, and must link to
    /// the one before it, the first one to `tip`. Gives the hash of the last.
    pub open spec fn chain_from(self, tip: Seq<u8>, first: int, end: int) -> core::result::Result<
        Seq<u8>,
        Fault,
    >
        decreases end - first,
    {
        if end <= first {
            Ok(tip)
        } else {
            match self.chain_from(tip, first, end - 1) {
                Err(f) => Err(f),
                Ok(before) => match self.record(end - 1) {
                    Err(f) => Err(f),
                    Ok(None) => Err(Fault::IntegrityViolation("a chain record is missing")),
                    Ok(Some(rec)) => match self.record_fault(end - 1, rec, None) {
                        Some(f) => Err(f),
                        None => if rec.prev_hash != before {
                            Err(
                                Fault::IntegrityViolation(
                                    "chain record does not link to the previous record's hash",
                                ),
                            )
                        } else {
                            Ok(rec.record_hash)
                        },
                    },
                },
            }
        }
    }

    /// Why `next` cannot take the place of a replica whose chain was followed up
    /// to `at`, if it cannot: it must have the same admin, and its chain must
    /// continue from there with records that the admin signed, up to the one
    /// that its header is anchored to.
    pub open spec fn advance_fault(self, next: VaultModel, at: Position) -> Option<Fault> {
        if next.header.admin_signing_pubkey != self.header.admin_signing_pubkey {
            Some(Fault::IntegrityViolation("patch changes the admin's signing key"))
        } else if next.header.max_chain_records == 0 {
            Some(Fault::CorruptContainer("chain region has no room for a record"))
        } else if next.header.chain_next_seq < at.seq {
            Some(Fault::IntegrityViolation("patch takes chain records back"))
        } else {
            match next.chain_from(at.tip, at.seq as int, next.header.chain_next_seq as int) {
                Err(f) => Some(f),
                Ok(tip) => if tip != next.header.chain_last_hash {
                    Some(
                        Fault::IntegrityViolation(
                            "chain anchor in header does not match the latest chain record",
                        ),
                    )
                } else {
                    next.anchor_fault()
                },
            }
        }
    }

    /// How far the chain has come.
    pub open spec fn position(self) -> Position {
        Position { seq: self.header.chain_next_seq, tip: self.header.chain_last_hash }
    }

    /// Follows the chain along the first `n` ranges of a patch.
    pub open spec fn following(self, ranges: Seq<(u64, Seq<u8>)>, n: int) -> core::result::Result<
        Position,
        Fault,
    > {
        followed(self.header.admin_signing_pubkey, self.image, self.position(), ranges, n)
    }

    /// Applying another replica's written ranges: the chain is followed along
    /// them, the container is patched, and header and bitmap are read from it
    /// again. What does not verify is refused as a whole.
    pub open spec fn applying(self, ranges: Seq<(u64, Seq<u8>)>) -> Effect {
        let (image, r) = patched(self.image, ranges, ranges.len() as int);
        match r {
            Err(f) => (self, Err(f)),
            Ok(_) => match usable_header(image) {
                Err(f) => (self, Err(f)),
                Ok(header) => match bitmap_of(image, header) {
                    Err(f) => (self, Err(f)),
                    Ok(bitmap) => match self.following(ranges, ranges.len() as int) {
                        Err(f) => (self, Err(f)),
                        Ok(at) => {
                            let next = VaultModel { image, header, bitmap, ..self };
                            match self.advance_fault(next, at) {
                                Some(f) => (self, Err(f)),
                                None => (next, Ok(())),
                            }
                        },
                    },
                },
            },
        }
    }
}

} // verus!
