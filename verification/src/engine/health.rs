//! What holds of a vault that only this library has written: its regions are
//! in order, its stored header and bitmap are those in memory, every file can
//! be read and shares no block with another, every granted peer can unwrap the
//! content key, and the chain verifies.

use vstd::prelude::*;

use super::allocator;
use super::bytes;
use super::codec;
use super::crypto;
use super::error::Fault;
use super::format::HeaderModel;
use super::identity;
use super::image;
use super::model::{self, VaultModel};
use super::records::{self, ChainOp, EntryModel, RecordModel, SlotModel};
use super::vault;

verus! {

// ---------------------------------------------------------------------
// The invariant
// ---------------------------------------------------------------------

impl HeaderModel {
    /// Regions are in order, each is large enough for what it holds, and records
    /// have the sizes of this format version.
    pub open spec fn in_order(self) -> bool {
        &&& self.fits()
        &&& self.version == 2
        &&& self.layout_fault() is None
        &&& self.operable()
        &&& allocator::bitmap_bytes(self.block_count as nat) <= self.bitmap_len
        &&& self.entry_size == 320
        &&& self.max_files * self.entry_size <= self.file_table_len
        &&& self.recipient_slot_size == 192
        &&& self.max_recipients * self.recipient_slot_size <= self.recipient_len
        &&& self.chain_record_size == 224
        &&& self.max_chain_records * self.chain_record_size <= self.chain_len
    }

    /// Both headers describe the same regions.
    pub open spec fn same_regions(self, other: HeaderModel) -> bool {
        other == HeaderModel {
            chain_next_seq: other.chain_next_seq,
            chain_last_hash: other.chain_last_hash,
            admin_key_slot: other.admin_key_slot,
            ..self
        }
    }
}

impl VaultModel {
    /// The container holds every region, and bitmap and key have their sizes.
    pub open spec fn shaped(self) -> bool {
        &&& self.header.in_order()
        &&& self.header.total_size() <= self.image.len() <= image::MAX_LEN
        &&& self.bitmap.len() == allocator::bitmap_bytes(self.header.block_count as nat)
        &&& self.key.len() == 32
    }

    /// The stored header and bitmap are those in memory.
    pub open spec fn stored(self) -> bool {
        &&& self.shaped()
        &&& self.image.subrange(0, 1024) == self.header.encoded()
        &&& self.image.subrange(
            self.header.bitmap_offset as int,
            self.header.bitmap_offset + self.bitmap.len(),
        ) == self.bitmap
    }

    /// What stands in file slot `i`, which can be read.
    pub open spec fn entry(self, i: int) -> EntryModel {
        self.slot(i)->Ok_0
    }

    /// Slot `i` holds a live file.
    pub open spec fn live(self, i: int) -> bool {
        0 <= i < self.header.max_files && self.entry(i).occupied()
    }

    /// The blocks of the file that `e` describes.
    pub open spec fn held(self, e: EntryModel) -> Seq<u64> {
        self.all_blocks(e)->Ok_0
    }

    /// These are distinct blocks of the vault, all marked as occupied.
    pub open spec fn owns(self, blocks: Seq<u64>) -> bool {
        &&& blocks.no_duplicates()
        &&& forall|k: int|
            0 <= k < blocks.len() ==> (#[trigger] blocks[k] as int) < self.header.block_count
                && allocator::marked(self.bitmap, blocks[k] as nat)
    }

    /// Each of these blocks of the file `id` can be read.
    pub open spec fn readable(self, id: u128, blocks: Seq<u64>) -> bool {
        forall|k: int| 0 <= k < blocks.len() ==> self.block(#[trigger] blocks[k], id) is Ok
    }

    /// The file that `e` describes has a name, can be read and has the recorded
    /// size, its blocks are its own, and it holds no more of them than its size
    /// takes.
    pub open spec fn sound(self, e: EntryModel) -> bool {
        &&& e.fits()
        &&& 0 < e.name.len()
        &&& self.all_blocks(e) is Ok
        &&& self.owns(self.held(e))
        &&& self.held(e).len() == self.plan(e.size as int).total()
        &&& self.readable(e.id, self.held(e))
        &&& self.content(e) is Ok
        &&& self.content(e)->Ok_0.len() == e.size
    }

    /// Every slot can be read, every live file is sound, and no two live files
    /// share a name or a block.
    pub open spec fn files_ok(self) -> bool {
        &&& forall|i: int| 0 <= i < self.header.max_files ==> (#[trigger] self.slot(i)) is Ok
        &&& forall|i: int| #[trigger] self.live(i) ==> self.sound(self.entry(i))
        &&& forall|i: int, j: int|
            #![trigger self.live(i), self.live(j)]
            self.live(i) && self.live(j) && i != j ==> self.entry(i).name != self.entry(j).name
                && disjoint(self.held(self.entry(i)), self.held(self.entry(j)))
    }

    /// Recipient slot `i` is granted.
    pub open spec fn grants(self, i: int) -> bool {
        0 <= i < self.header.max_recipients && self.recipient(i)->Ok_0.occupied()
    }

    /// Every recipient slot can be read, every granted one unwraps to the
    /// content key for its peer, and no signing key is granted twice.
    pub open spec fn recipients_ok(self) -> bool {
        &&& forall|i: int|
            0 <= i < self.header.max_recipients ==> (#[trigger] self.recipient(i)) is Ok
        &&& forall|i: int| #[trigger]
            self.grants(i) ==> self.recipient(i)->Ok_0.fits()
                && self.recipient(i)->Ok_0.wrapped_dek.len() == 92 && crypto::unwraps_for(
                self.recipient(i)->Ok_0.wrapped_dek,
                self.recipient(i)->Ok_0.encryption_pubkey,
                self.key,
            )
        &&& forall|i: int, j: int|
            #![trigger self.grants(i), self.grants(j)]
            self.grants(i) && self.grants(j) && i != j ==> self.recipient(i)->Ok_0.signing_pubkey
                != self.recipient(j)->Ok_0.signing_pubkey
    }

    /// The record found for `seq`.
    pub open spec fn found(self, seq: int) -> RecordModel {
        self.record(seq)->Ok_0->Some_0
    }

    /// The record for `seq` is there, says so, and verifies.
    pub open spec fn record_ok(self, seq: int) -> bool {
        &&& self.record(seq) is Ok
        &&& self.record(seq)->Ok_0 is Some
        &&& self.found(seq).seq == seq
        &&& self.found(seq).self_consistent()
        &&& identity::signature_check(
            self.header.admin_signing_pubkey,
            self.found(seq).record_hash,
            self.found(seq).signature,
        ) is Ok
    }

    /// The record for `seq` links to the one before it.
    pub open spec fn links(self, seq: int) -> bool {
        self.found(seq).prev_hash == self.found(seq - 1).record_hash
    }

    /// Every retained record verifies and links to the one before it, and the
    /// header holds the hash of the last.
    pub open spec fn chain_ok(self) -> bool {
        &&& self.header.chain_next_seq >= 1
        &&& forall|seq: int|
            self.oldest() <= seq <= self.newest() ==> #[trigger] self.record_ok(seq)
        &&& forall|seq: int|
            self.oldest() < seq <= self.newest() ==> #[trigger] self.links(seq)
        &&& self.found(self.newest()).record_hash == self.header.chain_last_hash
    }

    /// Whoever can change the vault holds the key that its chain is checked
    /// against.
    pub open spec fn admin_ok(self) -> bool {
        self.admin matches Some(keys) ==> keys.wf() && keys.signing_public()
            == self.header.admin_signing_pubkey
    }

    /// Everything that holds of a vault that only this library has written.
    pub open spec fn healthy(self) -> bool {
        &&& self.stored()
        &&& self.files_ok()
        &&& self.recipients_ok()
        &&& self.chain_ok()
        &&& self.admin_ok()
    }
}

/// The chain of `w` continues that of `v`: under the same admin key, every
/// record that both retain is the same, and the first new one links to the last
/// of `v`.
pub open spec fn grows(v: VaultModel, w: VaultModel) -> bool {
    let n = v.header.chain_next_seq;
    &&& w.header.admin_signing_pubkey == v.header.admin_signing_pubkey
    &&& w.header.max_chain_records == v.header.max_chain_records
    &&& n <= w.header.chain_next_seq
    &&& n == w.header.chain_next_seq ==> w.header.chain_last_hash == v.header.chain_last_hash
    &&& n < w.header.chain_next_seq && w.oldest() <= n ==> w.found(n as int).prev_hash
        == v.header.chain_last_hash
    &&& forall|s: int| 0 <= s < n && w.oldest() <= s ==> #[trigger] w.record(s) == v.record(s)
}

/// The chain of `w` is that of `v` and one record more.
pub open spec fn advances(v: VaultModel, w: VaultModel) -> bool {
    &&& grows(v, w)
    &&& w.header.chain_next_seq == v.header.chain_next_seq + 1
}

/// The chain of `w` tells of the change that made it out of `v`: the record with the
/// next number of `v` says what was done, to what, with which data and when.
pub open spec fn tells(
    v: VaultModel,
    w: VaultModel,
    op: ChainOp,
    target: u128,
    data_hash: Seq<u8>,
    at: i64,
) -> bool {
    let rec = w.found(v.header.chain_next_seq as int);
    &&& w.record(v.header.chain_next_seq as int) matches Ok(Some(_))
    &&& rec.seq == v.header.chain_next_seq
    &&& rec.op == op
    &&& rec.target_id == target
    &&& rec.data_hash == data_hash
    &&& rec.timestamp == at
}

/// The two lists share no block.
pub open spec fn disjoint(a: Seq<u64>, b: Seq<u64>) -> bool {
    forall|i: int, j: int| 0 <= i < a.len() && 0 <= j < b.len() ==> #[trigger] a[i] != #[trigger] b[j]
}

// ---------------------------------------------------------------------
// Where things stand
// ---------------------------------------------------------------------

/// The places of the regions' records.
pub(crate) proof fn lemma_places(h: HeaderModel)
    requires
        h.in_order(),
    ensures
        1024 <= h.bitmap_offset,
        h.bitmap_offset + allocator::bitmap_bytes(h.block_count as nat) <= h.file_table_offset,
        forall|i: int|
            0 <= i < h.max_files ==> h.file_table_offset <= #[trigger] h.slot_at(i) && h.slot_at(i)
                + h.entry_size <= h.recipient_offset,
        forall|i: int|
            0 <= i < h.max_recipients ==> h.recipient_offset <= #[trigger] h.recipient_at(i)
                && h.recipient_at(i) + h.recipient_slot_size <= h.chain_offset,
        forall|s: int|
            0 <= s ==> h.chain_offset <= #[trigger] h.record_at(s) && h.record_at(s)
                + h.chain_record_size <= h.data_offset,
        forall|b: int|
            0 <= b < h.block_count ==> h.data_offset <= #[trigger] h.block_at(b) && h.block_at(b)
                + h.block_size <= h.total_size(),
{
    let es = h.entry_size as int;
    let rs = h.recipient_slot_size as int;
    let cs = h.chain_record_size as int;
    let bs = h.block_size as int;
    assert forall|i: int| 0 <= i < h.max_files implies h.file_table_offset <= #[trigger] h.slot_at(
        i,
    ) && h.slot_at(i) + h.entry_size <= h.recipient_offset by {
        lemma_place(i, h.max_files as int, es);
    }
    assert forall|i: int| 0 <= i < h.max_recipients implies h.recipient_offset
        <= #[trigger] h.recipient_at(i) && h.recipient_at(i) + h.recipient_slot_size
        <= h.chain_offset by {
        lemma_place(i, h.max_recipients as int, rs);
    }
    assert forall|s: int| 0 <= s implies h.chain_offset <= #[trigger] h.record_at(s)
        && h.record_at(s) + h.chain_record_size <= h.data_offset by {
        let k = s % (h.max_chain_records as int);
        assert(0 <= k < h.max_chain_records);
        lemma_place(k, h.max_chain_records as int, cs);
    }
    assert forall|b: int| 0 <= b < h.block_count implies h.data_offset <= #[trigger] h.block_at(b)
        && h.block_at(b) + h.block_size <= h.total_size() by {
        lemma_place(b, h.block_count as int, bs);
    }
}

/// Record `i` of `n` lies within the region.
pub(crate) proof fn lemma_place(i: int, n: int, size: int)
    requires
        0 <= i < n,
        0 <= size,
    ensures
        0 <= i * size,
        i * size + size <= n * size,
{
    assert(0 <= i * size && i * size + size <= n * size) by (nonlinear_arith)
        requires
            0 <= i < n,
            0 <= size,
    ;
}

/// Different records do not overlap.
pub(crate) proof fn lemma_apart(i: int, j: int, size: int)
    requires
        i != j,
        0 <= size,
    ensures
        i * size + size <= j * size || j * size + size <= i * size,
{
    if i < j {
        assert(i * size + size <= j * size) by (nonlinear_arith)
            requires
                i < j,
                0 <= size,
        ;
    } else {
        assert(j * size + size <= i * size) by (nonlinear_arith)
            requires
                j < i,
                0 <= size,
        ;
    }
}

/// The range read as before.
pub(crate) open spec fn apart(at: int, n: int, offset: int, len: int) -> bool {
    at + n <= offset || offset + len <= at
}

/// A write inside the container leaves alone whatever it does not touch.
pub(crate) proof fn lemma_written(v: VaultModel, offset: int, data: Seq<u8>)
    requires
        v.shaped(),
        0 <= offset,
        offset + data.len() <= v.image.len(),
    ensures
        ({
            let w = v.written(offset, data);
            let h = v.header;
            &&& w.image.len() == v.image.len()
            &&& w.image.subrange(offset, offset + data.len()) == data
            &&& (1024 <= offset ==> w.image.subrange(0, 1024) == v.image.subrange(0, 1024))
            &&& (apart(h.bitmap_offset as int, v.bitmap.len() as int, offset, data.len() as int)
                ==> w.image.subrange(h.bitmap_offset as int, h.bitmap_offset + v.bitmap.len())
                == v.image.subrange(h.bitmap_offset as int, h.bitmap_offset + v.bitmap.len()))
            &&& forall|i: int|
                0 <= i < h.max_files && apart(
                    h.slot_at(i),
                    h.entry_size as int,
                    offset,
                    data.len() as int,
                ) ==> #[trigger] w.slot(i) == v.slot(i)
            &&& forall|i: int|
                0 <= i < h.max_recipients && apart(
                    h.recipient_at(i),
                    h.recipient_slot_size as int,
                    offset,
                    data.len() as int,
                ) ==> #[trigger] w.recipient(i) == v.recipient(i)
            &&& forall|s: int|
                0 <= s && apart(
                    h.record_at(s),
                    h.chain_record_size as int,
                    offset,
                    data.len() as int,
                ) ==> #[trigger] w.record(s) == v.record(s)
            &&& forall|b: u64, id: u128|
                b < h.block_count && apart(
                    h.block_at(b as int),
                    h.block_size as int,
                    offset,
                    data.len() as int,
                ) ==> #[trigger] w.block(b, id) == v.block(b, id)
        }),
{
    reveal(VaultModel::slot);
    reveal(VaultModel::recipient);
    reveal(VaultModel::record);
    reveal(VaultModel::block);
    let w = v.written(offset, data);
    let h = v.header;
    lemma_places(h);
    image::lemma_overlaid_there(v.image, offset, data);
    lemma_total(h);
    if 1024 <= offset {
        image::lemma_overlaid_elsewhere(v.image, offset, data, 0, 1024);
    }
    if apart(h.bitmap_offset as int, v.bitmap.len() as int, offset, data.len() as int) {
        image::lemma_overlaid_elsewhere(
            v.image,
            offset,
            data,
            h.bitmap_offset as int,
            v.bitmap.len() as int,
        );
    }
    assert forall|i: int|
        0 <= i < h.max_files && apart(
            h.slot_at(i),
            h.entry_size as int,
            offset,
            data.len() as int,
        ) implies #[trigger] w.slot(i) == v.slot(i) by {
        image::lemma_overlaid_elsewhere(
            v.image,
            offset,
            data,
            h.slot_at(i),
            h.entry_size as int,
        );
    }
    assert forall|i: int|
        0 <= i < h.max_recipients && apart(
            h.recipient_at(i),
            h.recipient_slot_size as int,
            offset,
            data.len() as int,
        ) implies #[trigger] w.recipient(i) == v.recipient(i) by {
        image::lemma_overlaid_elsewhere(
            v.image,
            offset,
            data,
            h.recipient_at(i),
            h.recipient_slot_size as int,
        );
    }
    assert forall|s: int|
        0 <= s && apart(
            h.record_at(s),
            h.chain_record_size as int,
            offset,
            data.len() as int,
        ) implies #[trigger] w.record(s) == v.record(s) by {
        image::lemma_overlaid_elsewhere(
            v.image,
            offset,
            data,
            h.record_at(s),
            h.chain_record_size as int,
        );
    }
    assert forall|b: u64, id: u128|
        b < h.block_count && apart(
            h.block_at(b as int),
            h.block_size as int,
            offset,
            data.len() as int,
        ) implies #[trigger] w.block(b, id) == v.block(b, id) by {
        image::lemma_overlaid_elsewhere(
            v.image,
            offset,
            data,
            h.block_at(b as int),
            h.block_size as int,
        );
    }
}

/// The data region lies behind all others.
pub(crate) proof fn lemma_total(h: HeaderModel)
    requires
        h.in_order(),
    ensures
        h.data_offset <= h.total_size(),
        1024 <= h.data_offset,
        h.bitmap_offset + allocator::bitmap_bytes(h.block_count as nat) <= h.total_size(),
{
    lemma_place(0, h.block_count as int, h.block_size as int);
    assert(h.max_files * h.entry_size >= 0 && h.max_recipients * h.recipient_slot_size >= 0
        && h.max_chain_records * h.chain_record_size >= 0) by (nonlinear_arith);
}

// ---------------------------------------------------------------------
// What each kind of write leaves alone
// ---------------------------------------------------------------------

/// Same regions, same key, same length: places mean the same in both.
pub open spec fn alike(v: VaultModel, w: VaultModel) -> bool {
    &&& v.header.same_regions(w.header)
    &&& w.key == v.key
    &&& w.image.len() == v.image.len()
}

/// All file slots read alike.
pub open spec fn same_slots(v: VaultModel, w: VaultModel) -> bool {
    forall|i: int| 0 <= i < v.header.max_files ==> #[trigger] w.slot(i) == v.slot(i)
}

/// All recipient slots read alike.
pub open spec fn same_recipients(v: VaultModel, w: VaultModel) -> bool {
    forall|i: int| 0 <= i < v.header.max_recipients ==> #[trigger] w.recipient(i) == v.recipient(i)
}

/// All chain slots read alike.
pub open spec fn same_records(v: VaultModel, w: VaultModel) -> bool {
    forall|s: int| 0 <= s ==> #[trigger] w.record(s) == v.record(s)
}

/// All blocks except those of `but` read alike.
pub open spec fn same_blocks_but(v: VaultModel, w: VaultModel, but: Seq<u64>) -> bool {
    forall|b: u64, id: u128|
        b < v.header.block_count && !but.contains(b) ==> #[trigger] w.block(b, id) == v.block(b, id)
}

/// A framed block unframes to its plaintext.
pub(crate) proof fn lemma_framed(key: Seq<u8>, block_size: nat, p: Seq<u8>, id: u128, i: u64)
    requires
        model::opens(key, id, i, p),
        p.len() + 20 <= block_size,
        p.len() < 0x1_0000_0000,
    ensures
        model::framed(key, block_size, p, id, i).len() == block_size,
        model::unframed(key, model::framed(key, block_size, p, id, i), id, i) == Ok::<
            Seq<u8>,
            Fault,
        >(p),
{
    broadcast use bytes::lemma_le_length;

    let b = model::framed(key, block_size, p, id, i);
    let ct = crypto::sealed_block(key, id, i, p);
    assert(b.subrange(0, 4) =~= bytes::le(p.len(), 4));
    bytes::lemma_pow256_values();
    codec::lemma_num(b, 0, 4, p.len());
    assert(codec::sized(b, 4, p.len() + 16) =~= ct);
}

/// Writing a block leaves everything alone but that block.
pub(crate) proof fn lemma_block_write(v: VaultModel, b: u64, id: u128, p: Seq<u8>)
    requires
        v.shaped(),
        b < v.header.block_count,
        p.len() <= v.header.chunk_len(),
        model::opens(v.key, id, b, p),
    ensures
        ({
            let w = v.with_block(b, id, p);
            &&& w.shaped()
            &&& v.stored() ==> w.stored()
            &&& alike(v, w)
            &&& w.header == v.header
            &&& same_slots(v, w)
            &&& same_recipients(v, w)
            &&& same_records(v, w)
            &&& same_blocks_but(v, w, seq![b])
            &&& w.block(b, id) == Ok::<Seq<u8>, Fault>(p)
            &&& w.image.subrange(0, 1024) == v.image.subrange(0, 1024)
            &&& w.image.subrange(
                v.header.bitmap_offset as int,
                v.header.bitmap_offset + v.bitmap.len(),
            ) == v.image.subrange(
                v.header.bitmap_offset as int,
                v.header.bitmap_offset + v.bitmap.len(),
            )
        }),
{
    reveal(VaultModel::block);
    let h = v.header;
    let data = model::framed(v.key, h.block_size as nat, p, id, b);
    lemma_framed(v.key, h.block_size as nat, p, id, b);
    lemma_places(h);
    lemma_total(h);
    lemma_written(v, h.block_at(b as int), data);
    let w = v.with_block(b, id, p);
    assert forall|c: u64, id2: u128|
        c < h.block_count && !seq![b].contains(c) implies #[trigger] w.block(c, id2) == v.block(
        c,
        id2,
    ) by {
        assert(seq![b][0] == b);
        lemma_apart(c as int, b as int, h.block_size as int);
    }
}

/// Writing a file slot leaves everything alone but that slot.
pub(crate) proof fn lemma_slot_write(v: VaultModel, i: int, e: EntryModel)
    requires
        v.shaped(),
        0 <= i < v.header.max_files,
        e.fits(),
    ensures
        ({
            let w = v.with_slot(i, e);
            &&& v.stored() ==> w.stored()
            &&& alike(v, w)
            &&& w.header == v.header
            &&& w.slot(i) == Ok::<EntryModel, Fault>(e)
            &&& forall|j: int|
                0 <= j < v.header.max_files && j != i ==> #[trigger] w.slot(j) == v.slot(j)
            &&& same_recipients(v, w)
            &&& same_records(v, w)
            &&& same_blocks_but(v, w, Seq::empty())
        }),
{
    reveal(VaultModel::slot);
    let h = v.header;
    records::lemma_entry_len(e);
    records::law_entry_round_trip(e);
    lemma_places(h);
    lemma_total(h);
    lemma_written(v, h.slot_at(i), e.encoded());
    let w = v.with_slot(i, e);
    assert forall|j: int| 0 <= j < h.max_files && j != i implies #[trigger] w.slot(j) == v.slot(
        j,
    ) by {
        lemma_apart(i, j, h.entry_size as int);
    }
}

/// Writing a recipient slot leaves everything alone but that slot.
pub(crate) proof fn lemma_recipient_write(v: VaultModel, i: int, s: SlotModel)
    requires
        v.shaped(),
        0 <= i < v.header.max_recipients,
        s.fits(),
    ensures
        ({
            let w = v.with_recipient(i, s);
            &&& v.stored() ==> w.stored()
            &&& w.shaped()
            &&& alike(v, w)
            &&& w.header == v.header
            &&& same_slots(v, w)
            &&& w.recipient(i) == Ok::<SlotModel, Fault>(s)
            &&& forall|j: int|
                0 <= j < v.header.max_recipients && j != i ==> #[trigger] w.recipient(j)
                    == v.recipient(j)
            &&& same_records(v, w)
            &&& same_blocks_but(v, w, Seq::empty())
        }),
{
    reveal(VaultModel::recipient);
    let h = v.header;
    records::lemma_slot_len(s);
    records::law_slot_round_trip(s);
    lemma_places(h);
    lemma_total(h);
    lemma_written(v, h.recipient_at(i), s.encoded());
    let w = v.with_recipient(i, s);
    assert forall|j: int| 0 <= j < h.max_recipients && j != i implies #[trigger] w.recipient(j)
        == v.recipient(j) by {
        lemma_apart(i, j, h.recipient_slot_size as int);
    }
}

/// Storing the bitmap leaves everything else alone.
pub(crate) proof fn lemma_bitmap_write(v: VaultModel, bitmap: Seq<u8>)
    requires
        v.shaped(),
        v.image.subrange(0, 1024) == v.header.encoded(),
        bitmap.len() == v.bitmap.len(),
    ensures
        ({
            let w = v.with_stored_bitmap(bitmap);
            &&& w.stored()
            &&& alike(v, w)
            &&& w.header == v.header
            &&& w.bitmap == bitmap
            &&& same_slots(v, w)
            &&& same_recipients(v, w)
            &&& same_records(v, w)
            &&& same_blocks_but(v, w, Seq::empty())
        }),
{
    reveal(VaultModel::slot);
    reveal(VaultModel::recipient);
    reveal(VaultModel::record);
    reveal(VaultModel::block);
    let h = v.header;
    let m = VaultModel { bitmap, ..v };
    lemma_places(h);
    lemma_total(h);
    lemma_written(m, h.bitmap_offset as int, bitmap);
    let w = v.with_stored_bitmap(bitmap);
    assert(w == m.written(h.bitmap_offset as int, bitmap));
    assert forall|i: int| 0 <= i < h.max_files implies #[trigger] w.slot(i) == v.slot(i) by {
        assert(m.slot(i) == v.slot(i));
    }
    assert forall|i: int| 0 <= i < h.max_recipients implies #[trigger] w.recipient(i)
        == v.recipient(i) by {
        assert(m.recipient(i) == v.recipient(i));
    }
    assert forall|s: int| 0 <= s implies #[trigger] w.record(s) == v.record(s) by {
        assert(m.record(s) == v.record(s));
    }
    assert forall|b: u64, id: u128| b < h.block_count implies #[trigger] w.block(b, id) == v.block(
        b,
        id,
    ) by {
        assert(m.block(b, id) == v.block(b, id));
    }
}

/// Storing a header of the same regions leaves everything else alone.
pub(crate) proof fn lemma_header_write(v: VaultModel, h: HeaderModel)
    requires
        v.stored(),
        v.header.same_regions(h),
        h.fits(),
    ensures
        ({
            let w = v.with_stored_header(h);
            &&& w.stored()
            &&& alike(v, w)
            &&& w.header == h
            &&& same_slots(v, w)
            &&& same_recipients(v, w)
            &&& same_records(v, w)
            &&& same_blocks_but(v, w, Seq::empty())
        }),
{
    reveal(VaultModel::slot);
    reveal(VaultModel::recipient);
    reveal(VaultModel::record);
    reveal(VaultModel::block);
    let m = VaultModel { header: h, ..v };
    reveal(HeaderModel::fills_capacity);
    assert(h.in_order());
    assert(h.total_size() == v.header.total_size());
    lemma_places(h);
    lemma_total(h);
    super::format::lemma_body_len(h);
    lemma_written(m, 0, h.encoded());
    let w = v.with_stored_header(h);
    assert(w == m.written(0, h.encoded()));
    assert forall|i: int| 0 <= i < h.max_files implies #[trigger] w.slot(i) == v.slot(i) by {
        assert(m.slot(i) == v.slot(i));
    }
    assert forall|i: int| 0 <= i < h.max_recipients implies #[trigger] w.recipient(i)
        == v.recipient(i) by {
        assert(m.recipient(i) == v.recipient(i));
    }
    assert forall|s: int| 0 <= s implies #[trigger] w.record(s) == v.record(s) by {
        assert(m.record(s) == v.record(s));
    }
    assert forall|b: u64, id: u128| b < h.block_count implies #[trigger] w.block(b, id) == v.block(
        b,
        id,
    ) by {
        assert(m.block(b, id) == v.block(b, id));
    }
}

// ---------------------------------------------------------------------
// The chain
// ---------------------------------------------------------------------

/// Sequence numbers less than one round apart have different places.
pub(crate) proof fn lemma_ring(s: int, n: int, m: int)
    requires
        0 <= s < n,
        n - s < m,
    ensures
        s % m != n % m,
{
    if s % m == n % m {
        let q = n / m - s / m;
        assert(n == m * (n / m) + n % m && s == m * (s / m) + s % m) by (nonlinear_arith)
            requires
                m > 0,
        ;
        assert(m * q == m * (n / m) - m * (s / m)) by (nonlinear_arith)
            requires
                q == n / m - s / m,
        ;
        assert(false) by (nonlinear_arith)
            requires
                m > 0,
                0 < m * q < m,
        ;
    }
}

/// Writing a chain record leaves everything alone but its place in the ring.
pub(crate) proof fn lemma_record_write(v: VaultModel, n: int, rec: RecordModel)
    requires
        v.stored(),
        0 <= n,
        rec.fits(),
    ensures
        ({
            let w = v.written(v.header.record_at(n), rec.encoded());
            &&& w.stored()
            &&& alike(v, w)
            &&& same_slots(v, w)
            &&& same_recipients(v, w)
            &&& same_blocks_but(v, w, Seq::empty())
            &&& w.record(n) == Ok::<Option<RecordModel>, Fault>(Some(rec))
            &&& forall|s: int|
                0 <= s < n && n - s < v.header.max_chain_records ==> #[trigger] w.record(s)
                    == v.record(s)
        }),
{
    reveal(VaultModel::record);
    let h = v.header;
    let m = h.max_chain_records as int;
    records::lemma_record_len(rec);
    records::law_record_round_trip(rec);
    lemma_places(h);
    lemma_total(h);
    lemma_written(v, h.record_at(n), rec.encoded());
    let w = v.written(h.record_at(n), rec.encoded());
    assert forall|s: int| 0 <= s < n && n - s < m implies #[trigger] w.record(s) == v.record(s) by {
        lemma_ring(s, n, m);
        lemma_apart(s % m, n % m, h.chain_record_size as int);
    }
}

/// A chain that is extended by one fitting record is in order.
pub(crate) proof fn lemma_chain_extended(v: VaultModel, w: VaultModel, rec: RecordModel)
    requires
        v.chain_ok(),
        v.header.max_chain_records > 0,
        w.header.max_chain_records == v.header.max_chain_records,
        w.header.admin_signing_pubkey == v.header.admin_signing_pubkey,
        w.header.chain_next_seq == v.header.chain_next_seq + 1,
        w.header.chain_last_hash == rec.record_hash,
        w.record(v.header.chain_next_seq as int) == Ok::<Option<RecordModel>, Fault>(Some(rec)),
        rec.seq == v.header.chain_next_seq,
        rec.prev_hash == v.header.chain_last_hash,
        rec.self_consistent(),
        identity::signature_check(
            v.header.admin_signing_pubkey,
            rec.record_hash,
            rec.signature,
        ) is Ok,
        forall|s: int|
            0 <= s < v.header.chain_next_seq && v.header.chain_next_seq - s
                < v.header.max_chain_records ==> #[trigger] w.record(s) == v.record(s),
    ensures
        w.chain_ok(),
{
    let n = v.header.chain_next_seq as int;
    let m = v.header.max_chain_records as int;
    assert forall|s: int| w.oldest() <= s <= w.newest() implies #[trigger] w.record_ok(s) by {
        if s < n {
            assert(w.record(s) == v.record(s));
            assert(v.record_ok(s));
        }
    }
    assert forall|s: int| w.oldest() < s <= w.newest() implies #[trigger] w.links(s) by {
        assert(w.record(s - 1) == v.record(s - 1));
        if s < n {
            assert(w.record(s) == v.record(s));
            assert(v.links(s));
        } else {
            assert(v.newest() == s - 1);
        }
    }
}

/// What continues a chain also continues one with the same records.
pub(crate) proof fn lemma_advances_from(v: VaultModel, x: VaultModel, w: VaultModel)
    requires
        advances(x, w),
        same_records(v, x),
        x.header.chain_next_seq == v.header.chain_next_seq,
        x.header.chain_last_hash == v.header.chain_last_hash,
        x.header.max_chain_records == v.header.max_chain_records,
        x.header.admin_signing_pubkey == v.header.admin_signing_pubkey,
    ensures
        advances(v, w),
{
    assert forall|s: int|
        0 <= s < v.header.chain_next_seq && w.oldest() <= s implies #[trigger] w.record(s)
        == v.record(s) by {
        assert(w.record(s) == x.record(s));
        assert(x.record(s) == v.record(s));
    }
}

/// Appending a record keeps the chain in order and leaves everything else
/// alone.
pub(crate) proof fn lemma_record_append(v: VaultModel, op: ChainOp, target: u128, data_hash: Seq<u8>, at: i64)
    requires
        v.stored(),
        v.chain_ok(),
        v.admin_ok(),
        v.admin is Some,
        v.header.chain_next_seq < u64::MAX,
        data_hash.len() == 32,
        v.record_verifies(op, target, data_hash, at),
    ensures
        ({
            let w = v.with_record(op, target, data_hash, at);
            &&& w.stored()
            &&& alike(v, w)
            &&& w.chain_ok()
            &&& w.admin_ok()
            &&& w.bitmap == v.bitmap
            &&& w.admin == v.admin
            &&& w.header.admin_key_slot == v.header.admin_key_slot
            &&& advances(v, w)
            &&& tells(v, w, op, target, data_hash, at)
            &&& same_slots(v, w)
            &&& same_recipients(v, w)
            &&& same_blocks_but(v, w, Seq::empty())
        }),
{
    let h = v.header;
    let n = h.chain_next_seq as int;
    let rec = v.next_record(op, target, data_hash, at);
    lemma_record_write(v, n, rec);
    let a = v.written(h.record_at(n), rec.encoded());
    let h2 = HeaderModel {
        chain_next_seq: (n + 1) as u64,
        chain_last_hash: rec.record_hash,
        ..h
    };
    lemma_header_write(a, h2);
    let w = v.with_record(op, target, data_hash, at);
    assert(w == a.with_stored_header(h2));
    assert forall|s: int|
        0 <= s < n && n - s < h.max_chain_records implies #[trigger] w.record(s) == v.record(s) by {
        assert(a.record(s) == v.record(s));
    }
    assert(w.record(n) == a.record(n));
    lemma_chain_extended(v, w, rec);
    assert(same_slots(v, w)) by {
        assert forall|i: int| 0 <= i < h.max_files implies #[trigger] w.slot(i) == v.slot(i) by {
            assert(a.slot(i) == v.slot(i));
        }
    }
    assert(same_recipients(v, w)) by {
        assert forall|i: int| 0 <= i < h.max_recipients implies #[trigger] w.recipient(i)
            == v.recipient(i) by {
            assert(a.recipient(i) == v.recipient(i));
        }
    }
    assert(same_blocks_but(v, w, Seq::empty())) by {
        assert forall|b: u64, id: u128|
            b < h.block_count && !Seq::<u64>::empty().contains(b) implies #[trigger] w.block(b, id)
            == v.block(b, id) by {
            assert(a.block(b, id) == v.block(b, id));
        }
    }
}

// ---------------------------------------------------------------------
// Files that are left alone
// ---------------------------------------------------------------------

/// A chain's blocks hold its index blocks and all that they list.
pub(crate) proof fn lemma_chained(w: Seq<(u64, Seq<u64>)>)
    ensures
        forall|k: int| 0 <= k < w.len() ==> model::chained_blocks(w).contains((#[trigger] w[k]).0),
        forall|b: u64| #[trigger]
            model::listed_blocks(w).contains(b) ==> model::chained_blocks(w).contains(b),
    decreases w.len(),
{
    if w.len() > 0 {
        let front = w.drop_last();
        lemma_chained(front);
        let all = model::chained_blocks(w);
        let before = model::chained_blocks(front);
        let tail = seq![w.last().0] + w.last().1;
        assert(all == before + tail);
        assert forall|k: int| 0 <= k < w.len() implies all.contains((#[trigger] w[k]).0) by {
            if k < front.len() {
                assert(front[k] == w[k]);
                lemma_concat_contains(before, tail, w[k].0);
            } else {
                assert(tail[0] == w[k].0);
                lemma_concat_contains(before, tail, w[k].0);
            }
        }
        assert forall|b: u64| #[trigger] model::listed_blocks(w).contains(b) implies all.contains(
            b,
        ) by {
            let listed = model::listed_blocks(front);
            let j = choose|j: int|
                0 <= j < (listed + w.last().1).len() && (listed + w.last().1)[j] == b;
            if j < listed.len() {
                assert(listed[j] == b);
                assert(listed.contains(b));
            } else {
                assert(tail[1 + (j - listed.len())] == b);
                assert(tail.contains(b));
            }
            lemma_concat_contains(before, tail, b);
        }
    }
}

pub(crate) proof fn lemma_concat_contains(a: Seq<u64>, b: Seq<u64>, x: u64)
    ensures
        (a + b).contains(x) <==> a.contains(x) || b.contains(x),
{
    if a.contains(x) {
        let k = choose|k: int| 0 <= k < a.len() && a[k] == x;
        assert((a + b)[k] == x);
    }
    if b.contains(x) {
        let k = choose|k: int| 0 <= k < b.len() && b[k] == x;
        assert((a + b)[a.len() + k] == x);
    }
    if (a + b).contains(x) {
        let k = choose|k: int| 0 <= k < (a + b).len() && (a + b)[k] == x;
        if k < a.len() {
            assert(a[k] == x);
        } else {
            assert(b[k - a.len()] == x);
        }
    }
}

/// A chain whose index blocks read alike is the same chain.
pub(crate) proof fn lemma_walk_alike(v: VaultModel, w: VaultModel, id: u128, next: u64, fuel: nat)
    requires
        v.walk(id, next, fuel) is Ok,
        forall|k: int|
            0 <= k < v.walk(id, next, fuel)->Ok_0.len() ==> w.block(
                (#[trigger] v.walk(id, next, fuel)->Ok_0[k]).0,
                id,
            ) == v.block(v.walk(id, next, fuel)->Ok_0[k].0, id),
    ensures
        w.walk(id, next, fuel) == v.walk(id, next, fuel),
    decreases fuel,
{
    if next != 0 && fuel > 0 {
        let all = v.walk(id, next, fuel)->Ok_0;
        let (n, listed) = v.index_block(next, id)->Ok_0;
        let rest = v.walk(id, n, (fuel - 1) as nat)->Ok_0;
        assert(all == seq![(next, listed)] + rest);
        assert(all[0].0 == next);
        assert(w.block(next, id) == v.block(next, id));
        assert forall|k: int| 0 <= k < rest.len() implies w.block((#[trigger] rest[k]).0, id)
            == v.block(rest[k].0, id) by {
            assert(all[k + 1] == rest[k]);
        }
        lemma_walk_alike(v, w, id, n, (fuel - 1) as nat);
    }
}

/// Blocks that read alike join alike.
pub(crate) proof fn lemma_joined_alike(v: VaultModel, w: VaultModel, id: u128, blocks: Seq<u64>, n: int)
    requires
        n <= blocks.len(),
        forall|k: int|
            0 <= k < n ==> w.block(#[trigger] blocks[k], id) == v.block(blocks[k], id),
    ensures
        w.joined_blocks(id, blocks, n) == v.joined_blocks(id, blocks, n),
    decreases n,
{
    if n > 0 {
        lemma_joined_alike(v, w, id, blocks, n - 1);
        assert(w.block(blocks[n - 1], id) == v.block(blocks[n - 1], id));
    }
}

/// A file whose blocks read alike has the same blocks and the same content.
pub(crate) proof fn lemma_file_alike(v: VaultModel, w: VaultModel, e: EntryModel)
    requires
        v.header.same_regions(w.header),
        w.image.len() == v.image.len(),
        v.all_blocks(e) is Ok,
        forall|k: int|
            0 <= k < v.held(e).len() ==> w.block(#[trigger] v.held(e)[k], e.id) == v.block(
                v.held(e)[k],
                e.id,
            ),
    ensures
        w.all_blocks(e) == v.all_blocks(e),
        w.data_blocks(e) == v.data_blocks(e),
        w.content(e) == v.content(e),
{
    let chain = v.overflow(e)->Ok_0;
    let held = v.held(e);
    let direct = v.direct(e);
    lemma_chained(chain);
    assert(held == direct + model::chained_blocks(chain));
    assert forall|b: u64| held.contains(b) implies #[trigger] w.block(b, e.id) == v.block(
        b,
        e.id,
    ) by {
        let k = choose|k: int| 0 <= k < held.len() && held[k] == b;
        assert(w.block(held[k], e.id) == v.block(held[k], e.id));
    }
    assert forall|k: int| 0 <= k < chain.len() implies w.block((#[trigger] chain[k]).0, e.id)
        == v.block(chain[k].0, e.id) by {
        lemma_concat_contains(direct, model::chained_blocks(chain), chain[k].0);
    }
    lemma_walk_alike(v, w, e.id, e.overflow_block, v.image.len());
    assert(w.direct(e) == v.direct(e));
    if v.data_blocks(e) is Ok {
        let blocks = v.data_blocks(e)->Ok_0;
        assert forall|k: int| 0 <= k < blocks.len() implies w.block(#[trigger] blocks[k], e.id)
            == v.block(blocks[k], e.id) by {
            assert(blocks.contains(blocks[k]));
            lemma_concat_contains(direct, model::listed_blocks(chain), blocks[k]);
            lemma_concat_contains(direct, model::chained_blocks(chain), blocks[k]);
        }
        lemma_joined_alike(v, w, e.id, blocks, blocks.len() as int);
    }
}

// ---------------------------------------------------------------------
// Storing content
// ---------------------------------------------------------------------

/// These are plaintexts for different blocks of the vault, and each opens
/// again.
pub open spec fn storable(v: VaultModel, all: Seq<(u64, u128, Seq<u8>)>) -> bool {
    &&& forall|j: int|
        0 <= j < all.len() ==> (#[trigger] all[j]).0 < v.header.block_count && all[j].2.len()
            <= v.header.chunk_len() && model::opens(v.key, all[j].1, all[j].0, all[j].2)
    &&& forall|i: int, j: int|
        0 <= i < j < all.len() ==> (#[trigger] all[i]).0 != (#[trigger] all[j]).0
}

/// `b` is none of the first `n` blocks.
pub open spec fn not_among(b: u64, all: Seq<(u64, u128, Seq<u8>)>, n: int) -> bool {
    forall|j: int| 0 <= j < n ==> (#[trigger] all[j]).0 != b
}

/// What storing several blocks changes: those blocks.
pub open spec fn only_blocks(
    v: VaultModel,
    w: VaultModel,
    all: Seq<(u64, u128, Seq<u8>)>,
    n: int,
) -> bool {
    &&& w.shaped()
    &&& alike(v, w)
    &&& w.header == v.header
    &&& w.bitmap == v.bitmap
    &&& w.admin == v.admin
    &&& w.image.subrange(0, 1024) == v.image.subrange(0, 1024)
    &&& w.image.subrange(
        v.header.bitmap_offset as int,
        v.header.bitmap_offset + v.bitmap.len(),
    ) == v.image.subrange(v.header.bitmap_offset as int, v.header.bitmap_offset + v.bitmap.len())
    &&& same_slots(v, w)
    &&& same_recipients(v, w)
    &&& same_records(v, w)
    &&& forall|b: u64, id: u128|
        b < v.header.block_count && not_among(b, all, n) ==> #[trigger] w.block(b, id) == v.block(
            b,
            id,
        )
    &&& forall|j: int|
        0 <= j < n ==> w.block((#[trigger] all[j]).0, all[j].1) == Ok::<Seq<u8>, Fault>(all[j].2)
}

/// Storing several blocks changes those blocks and nothing else.
pub(crate) proof fn lemma_blocks_write(v: VaultModel, all: Seq<(u64, u128, Seq<u8>)>, n: int)
    requires
        v.shaped(),
        storable(v, all),
        0 <= n <= all.len(),
    ensures
        only_blocks(v, v.with_blocks(all, n), all, n),
    decreases n,
{
    if n > 0 {
        lemma_blocks_write(v, all, n - 1);
        let u = v.with_blocks(all, n - 1);
        let (b, id, p) = all[n - 1];
        lemma_block_write(u, b, id, p);
        let w = v.with_blocks(all, n);
        assert(w == u.with_block(b, id, p));
        assert forall|c: u64, id2: u128|
            c < v.header.block_count && not_among(c, all, n) implies #[trigger] w.block(c, id2)
            == v.block(c, id2) by {
            assert(all[n - 1].0 != c);
            assert(!seq![b].contains(c));
            assert(not_among(c, all, n - 1));
            assert(u.block(c, id2) == v.block(c, id2));
        }
        assert forall|j: int| 0 <= j < n implies w.block((#[trigger] all[j]).0, all[j].1) == Ok::<
            Seq<u8>,
            Fault,
        >(all[j].2) by {
            if j < n - 1 {
                assert(all[j].0 != all[n - 1].0);
                assert(!seq![b].contains(all[j].0));
                assert(u.block(all[j].0, all[j].1) == Ok::<Seq<u8>, Fault>(all[j].2));
            }
        }
        assert forall|i: int| 0 <= i < v.header.max_files implies #[trigger] w.slot(i) == v.slot(
            i,
        ) by {
            assert(u.slot(i) == v.slot(i));
        }
        assert forall|i: int| 0 <= i < v.header.max_recipients implies #[trigger] w.recipient(i)
            == v.recipient(i) by {
            assert(u.recipient(i) == v.recipient(i));
        }
        assert forall|s: int| 0 <= s implies #[trigger] w.record(s) == v.record(s) by {
            assert(u.record(s) == v.record(s));
        }
    }
}

/// The blocks that will be allocated: distinct free blocks, ascending, the
/// data blocks first.
pub(crate) proof fn lemma_allotted(v: VaultModel, size: int)
    requires
        v.shaped(),
        0 <= size <= u64::MAX,
        v.has_room(size),
    ensures
        v.allotted(size).len() == v.plan(size).total(),
        v.allotted_data(size).len() == v.plan(size).data,
        v.allotted_index(size).len() == v.plan(size).index,
        v.allotted(size) == v.allotted_data(size) + v.allotted_index(size),
        forall|k: int|
            0 <= k < v.allotted(size).len() ==> (#[trigger] v.allotted(size)[k] as int)
                < v.header.block_count && !allocator::marked(v.bitmap, v.allotted(size)[k] as nat),
        forall|i: int, j: int|
            0 <= i < j < v.allotted(size).len() ==> v.allotted(size)[i] < v.allotted(size)[j],
        v.allotted(size).no_duplicates(),
        v.plan(size).total() <= v.header.block_count,
{
    vault::lemma_plan(v, size);
    allocator::lemma_free_blocks(v.bitmap, v.header.block_count as nat);
    let all = v.allotted(size);
    assert(all =~= v.free_list().take(v.plan(size).total()));
    assert(all =~= v.allotted_data(size) + v.allotted_index(size));
}

/// The data blocks with the parts of the content that they get.
pub open spec fn chunk_writes(v: VaultModel, id: u128, data: Seq<u8>) -> Seq<(u64, u128, Seq<u8>)> {
    let blocks = v.allotted_data(data.len() as int);
    Seq::new(
        blocks.len(),
        |j: int| (blocks[j], id, model::chunk(data, v.header.chunk_len(), j)),
    )
}

/// The index blocks with their payloads.
pub open spec fn index_writes(v: VaultModel, id: u128, data: Seq<u8>) -> Seq<(u64, u128, Seq<u8>)> {
    let size = data.len() as int;
    let blocks = v.allotted_data(size);
    let listed = blocks.skip(model::least(blocks.len() as int, 8));
    let index = v.allotted_index(size);
    Seq::new(
        index.len(),
        |j: int|
            (
                index[j],
                id,
                model::index_payload(
                    model::next_index(index, j),
                    model::index_chunk(listed, v.header.index_capacity(), j),
                ),
            ),
    )
}

pub(crate) proof fn lemma_chunks_as_blocks(v: VaultModel, m: VaultModel, id: u128, data: Seq<u8>, k: int)
    requires
        m.header == v.header,
        0 <= k <= v.allotted_data(data.len() as int).len(),
    ensures
        m.with_chunks(id, data, v.allotted_data(data.len() as int), k) == m.with_blocks(
            chunk_writes(v, id, data),
            k,
        ),
    decreases k,
{
    if k > 0 {
        lemma_chunks_as_blocks(v, m, id, data, k - 1);
    }
}

pub(crate) proof fn lemma_indices_as_blocks(v: VaultModel, m: VaultModel, id: u128, data: Seq<u8>, k: int)
    requires
        m.header == v.header,
        0 <= k <= v.allotted_index(data.len() as int).len(),
    ensures
        ({
            let blocks = v.allotted_data(data.len() as int);
            m.with_indices(
                id,
                blocks.skip(model::least(blocks.len() as int, 8)),
                v.allotted_index(data.len() as int),
                k,
            ) == m.with_blocks(index_writes(v, id, data), k)
        }),
    decreases k,
{
    if k > 0 {
        lemma_indices_as_blocks(v, m, id, data, k - 1);
    }
}

/// The length of a part of the content.
pub(crate) proof fn lemma_chunk_len(v: VaultModel, data: Seq<u8>, k: int)
    requires
        v.header.operable(),
        0 <= k < v.blocks_for(data.len() as int),
    ensures
        0 <= k * v.header.chunk_len() < data.len(),
        model::chunk(data, v.header.chunk_len(), k).len() <= v.header.chunk_len(),
        (k + 1) * v.header.chunk_len() == k * v.header.chunk_len() + v.header.chunk_len(),
        k + 1 < v.blocks_for(data.len() as int) ==> (k + 1) * v.header.chunk_len() < data.len(),
        k + 1 == v.blocks_for(data.len() as int) ==> data.len() <= (k + 1) * v.header.chunk_len(),
{
    let c = v.header.chunk_len();
    let n = v.blocks_for(data.len() as int);
    vault::lemma_blocks_for(v, data.len() as int);
    assert((k + 1) * c == k * c + c) by (nonlinear_arith);
    assert(k * c <= (n - 1) * c && 0 <= k * c) by (nonlinear_arith)
        requires
            0 <= k <= n - 1,
            c >= 0,
    ;
    if k + 1 < n {
        assert((k + 1) * c <= (n - 1) * c) by (nonlinear_arith)
            requires
                k + 1 <= n - 1,
                c >= 0,
        ;
    }
}

/// The length of a part of the list of overflow blocks.
pub(crate) proof fn lemma_index_len(v: VaultModel, size: int, k: int)
    requires
        v.header.operable(),
        0 <= size <= u64::MAX,
        0 <= k < v.plan(size).index,
    ensures
        ({
            let n = v.plan(size).data - 8;
            let c = v.header.index_capacity();
            &&& 0 <= k * c < n
            &&& (k + 1) * c == k * c + c
            &&& k + 1 < v.plan(size).index ==> (k + 1) * c < n
            &&& k + 1 == v.plan(size).index ==> n <= (k + 1) * c
            &&& 1 <= c
            &&& 12 + 8 * c <= v.header.chunk_len()
        }),
{
    vault::lemma_plan(v, size);
    let c = v.header.index_capacity();
    let i = v.plan(size).index;
    assert((k + 1) * c == k * c + c) by (nonlinear_arith);
    assert(k * c <= (i - 1) * c && 0 <= k * c) by (nonlinear_arith)
        requires
            0 <= k <= i - 1,
            c >= 0,
    ;
    if k + 1 < i {
        assert((k + 1) * c <= (i - 1) * c) by (nonlinear_arith)
            requires
                k + 1 <= i - 1,
                c >= 0,
        ;
    }
}

/// Both lists of blocks can be stored.
pub(crate) proof fn lemma_content_storable(v: VaultModel, id: u128, data: Seq<u8>)
    requires
        v.shaped(),
        data.len() <= u64::MAX,
        v.has_room(data.len() as int),
        v.content_opens(id, data),
    ensures
        storable(v, chunk_writes(v, id, data)),
        storable(v, index_writes(v, id, data)),
{
    broadcast use bytes::lemma_le_length;

    let size = data.len() as int;
    lemma_allotted(v, size);
    let all = v.allotted(size);
    let blocks = v.allotted_data(size);
    let index = v.allotted_index(size);
    let listed = blocks.skip(model::least(blocks.len() as int, 8));
    let cw = chunk_writes(v, id, data);
    let iw = index_writes(v, id, data);
    assert forall|j: int| 0 <= j < cw.len() implies (#[trigger] cw[j]).0 < v.header.block_count
        && cw[j].2.len() <= v.header.chunk_len() && model::opens(
        v.key,
        cw[j].1,
        cw[j].0,
        cw[j].2,
    ) by {
        assert(all[j] == blocks[j]);
        lemma_chunk_len(v, data, j);
    }
    assert forall|i: int, j: int| 0 <= i < j < cw.len() implies (#[trigger] cw[i]).0 != (
    #[trigger] cw[j]).0 by {
        assert(all[i] == blocks[i] && all[j] == blocks[j]);
    }
    assert forall|j: int| 0 <= j < iw.len() implies (#[trigger] iw[j]).0 < v.header.block_count
        && iw[j].2.len() <= v.header.chunk_len() && model::opens(
        v.key,
        iw[j].1,
        iw[j].0,
        iw[j].2,
    ) by {
        assert(all[blocks.len() + j] == index[j]);
        vault::lemma_plan(v, size);
        lemma_index_len(v, size, j);
        records::lemma_le_list(model::index_chunk(listed, v.header.index_capacity(), j));
    }
    assert forall|i: int, j: int| 0 <= i < j < iw.len() implies (#[trigger] iw[i]).0 != (
    #[trigger] iw[j]).0 by {
        assert(all[blocks.len() + i] == index[i] && all[blocks.len() + j] == index[j]);
    }
}

/// What storing content changes: the allotted blocks and the bitmap.
pub(crate) proof fn lemma_content_write(v: VaultModel, id: u128, data: Seq<u8>)
    requires
        v.stored(),
        data.len() <= u64::MAX,
        v.has_room(data.len() as int),
        v.content_opens(id, data),
    ensures
        ({
            let w = v.with_content(id, data);
            let size = data.len() as int;
            let cw = chunk_writes(v, id, data);
            let iw = index_writes(v, id, data);
            &&& w.stored()
            &&& alike(v, w)
            &&& w.header == v.header
            &&& w.admin == v.admin
            &&& w.bitmap == allocator::with_marks(
                v.bitmap,
                v.allotted(size),
                v.header.block_count as nat,
                true,
            )
            &&& same_slots(v, w)
            &&& same_recipients(v, w)
            &&& same_records(v, w)
            &&& same_blocks_but(v, w, v.allotted(size))
            &&& forall|j: int|
                0 <= j < cw.len() ==> w.block((#[trigger] cw[j]).0, id) == Ok::<Seq<u8>, Fault>(
                    cw[j].2,
                )
            &&& forall|j: int|
                0 <= j < iw.len() ==> w.block((#[trigger] iw[j]).0, id) == Ok::<Seq<u8>, Fault>(
                    iw[j].2,
                )
        }),
{
    reveal(VaultModel::slot);
    reveal(VaultModel::recipient);
    reveal(VaultModel::record);
    reveal(VaultModel::block);
    let size = data.len() as int;
    let h = v.header;
    let bitmap = allocator::with_marks(v.bitmap, v.allotted(size), h.block_count as nat, true);
    lemma_allotted(v, size);
    lemma_content_storable(v, id, data);
    lemma_marks_len(v.bitmap, v.allotted(size), h.block_count as nat, true);
    let all = v.allotted(size);
    let blocks = v.allotted_data(size);
    let index = v.allotted_index(size);
    let cw = chunk_writes(v, id, data);
    let iw = index_writes(v, id, data);
    let m = VaultModel { bitmap, ..v };
    lemma_chunks_as_blocks(v, m, id, data, blocks.len() as int);
    lemma_blocks_write(m, cw, cw.len() as int);
    let f = m.with_blocks(cw, cw.len() as int);
    lemma_indices_as_blocks(v, f, id, data, index.len() as int);
    lemma_blocks_write(f, iw, iw.len() as int);
    let g = f.with_blocks(iw, iw.len() as int);
    lemma_bitmap_write(g, bitmap);
    let w = v.with_content(id, data);
    assert(w == g.with_stored_bitmap(bitmap));
    assert forall|i: int| 0 <= i < h.max_files implies #[trigger] w.slot(i) == v.slot(i) by {
        assert(g.slot(i) == f.slot(i));
        assert(f.slot(i) == m.slot(i));
        assert(m.slot(i) == v.slot(i));
    }
    assert forall|i: int| 0 <= i < h.max_recipients implies #[trigger] w.recipient(i)
        == v.recipient(i) by {
        assert(g.recipient(i) == f.recipient(i));
        assert(f.recipient(i) == m.recipient(i));
        assert(m.recipient(i) == v.recipient(i));
    }
    assert forall|s: int| 0 <= s implies #[trigger] w.record(s) == v.record(s) by {
        assert(g.record(s) == f.record(s));
        assert(f.record(s) == m.record(s));
        assert(m.record(s) == v.record(s));
    }
    assert forall|b: u64, id2: u128|
        b < h.block_count && !all.contains(b) implies #[trigger] w.block(b, id2) == v.block(
        b,
        id2,
    ) by {
        assert(not_among(b, cw, cw.len() as int)) by {
            assert forall|j: int| 0 <= j < cw.len() implies (#[trigger] cw[j]).0 != b by {
                assert(all[j] == blocks[j]);
            }
        }
        assert(not_among(b, iw, iw.len() as int)) by {
            assert forall|j: int| 0 <= j < iw.len() implies (#[trigger] iw[j]).0 != b by {
                assert(all[blocks.len() + j] == index[j]);
            }
        }
        assert(g.block(b, id2) == f.block(b, id2));
        assert(f.block(b, id2) == m.block(b, id2));
        assert(m.block(b, id2) == v.block(b, id2));
    }
    assert forall|j: int| 0 <= j < cw.len() implies w.block((#[trigger] cw[j]).0, id) == Ok::<
        Seq<u8>,
        Fault,
    >(cw[j].2) by {
        let b = cw[j].0;
        assert(all[j] == blocks[j]);
        assert(not_among(b, iw, iw.len() as int)) by {
            assert forall|k: int| 0 <= k < iw.len() implies (#[trigger] iw[k]).0 != b by {
                assert(all[blocks.len() + k] == index[k]);
            }
        }
        assert(f.block(b, id) == Ok::<Seq<u8>, Fault>(cw[j].2));
        assert(g.block(b, id) == f.block(b, id));
    }
    assert forall|j: int| 0 <= j < iw.len() implies w.block((#[trigger] iw[j]).0, id) == Ok::<
        Seq<u8>,
        Fault,
    >(iw[j].2) by {
        assert(all[blocks.len() + j] == index[j]);
        assert(g.block(iw[j].0, id) == Ok::<Seq<u8>, Fault>(iw[j].2));
    }
}

pub(crate) proof fn lemma_marks_len(bits: Seq<u8>, blocks: Seq<u64>, count: nat, occupied: bool)
    requires
        bits.len() == allocator::bitmap_bytes(count),
    ensures
        allocator::with_marks(bits, blocks, count, occupied).len() == bits.len(),
    decreases blocks.len(),
{
    if blocks.len() > 0 {
        lemma_marks_len(bits, blocks.drop_last(), count, occupied);
    }
}

} // verus!
