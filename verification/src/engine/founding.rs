//! What a newly created vault promises: it is healthy, empty, shared with
//! nobody, and its password unlocks it.

use vstd::prelude::*;

use super::allocator;
use super::bytes;
use super::error::Fault;
use super::format::HeaderModel;
use super::health;
use super::identity::{self, Keys};
use super::image;
use super::laws;
use super::model::{self, VaultModel};
use super::records::{self, EntryModel, RecordModel, SlotModel};
use super::vault;

verus! {

/// What creating a vault promises.
pub open spec fn founded(v: VaultModel, password: Seq<u8>) -> bool {
    &&& v.healthy()
    &&& forall|n: Seq<char>| #[trigger]
        v.file(n) == Err::<Seq<u8>, Fault>(Fault::FileNotFound(n))
    &&& forall|i: int| !#[trigger] v.grants(i)
    &&& v.used() == 0
    &&& model::admin_key(v.header, password) == Ok::<Seq<u8>, Fault>(v.key)
}

/// The vault is what was asked for: it has this name, this description and as much
/// room as whole blocks fit into this capacity, it belongs to this admin, and its
/// chain starts by telling of its creation.
pub open spec fn as_asked(
    v: VaultModel,
    name: Seq<char>,
    description: Seq<char>,
    capacity: u64,
    admin: Keys,
    at: i64,
) -> bool {
    &&& v.header.name == name
    &&& v.header.description == description
    &&& v.header.capacity_bytes == capacity
    &&& v.header.created_at == at
    &&& v.header.admin_signing_pubkey == admin.signing_public()
    &&& v.header.admin_encryption_pubkey == admin.encryption_public()
    &&& v.admin == Some(admin)
    &&& v.header.block_size == 4096
    &&& v.free_list().len() * 4096 <= capacity < (v.free_list().len() + 1) * 4096
    &&& 4 <= v.header.max_files <= 4096
    &&& 4 < v.header.max_files ==> v.header.max_files * 16384 <= capacity
    &&& v.header.max_files < 4096 ==> capacity < (v.header.max_files + 1) * 16384
    &&& v.header.max_chain_records == 4 * v.header.max_files
    &&& v.header.max_recipients == 16
    &&& v.header.chain_next_seq == 1
    &&& v.record(0) matches Ok(Some(rec)) && rec.op is VaultCreated && rec.timestamp == at
    &&& v.log.len() == 0
}

/// Copy `i` of `n` stands at `i` times its length.
proof fn lemma_repeated_at(s: Seq<u8>, n: int, i: int)
    requires
        0 <= i < n,
    ensures
        model::repeated(s, n).len() == n * s.len(),
        0 <= i * s.len(),
        i * s.len() + s.len() <= n * s.len(),
        model::repeated(s, n).subrange(i * s.len(), i * s.len() + s.len()) == s,
    decreases n,
{
    vault::lemma_repeated_len(s, n);
    vault::lemma_repeated_len(s, n - 1);
    health::lemma_place(i, n, s.len() as int);
    let all = model::repeated(s, n);
    let before = model::repeated(s, n - 1);
    assert((n - 1) * s.len() + s.len() == n * s.len()) by (nonlinear_arith);
    if i < n - 1 {
        lemma_repeated_at(s, n - 1, i);
        assert(all.subrange(i * s.len(), i * s.len() + s.len()) =~= before.subrange(
            i * s.len(),
            i * s.len() + s.len(),
        ));
    } else {
        assert(all.subrange(i * s.len(), i * s.len() + s.len()) =~= s);
    }
}

/// Nothing is marked in a bitmap of zero bytes.
proof fn lemma_unmarked(n: nat, i: nat)
    requires
        i < 8 * n,
    ensures
        !allocator::marked(bytes::zeros(n), i),
{
    let k = (i % 8) as u64;
    assert(bytes::zeros(n)[(i / 8) as int] == 0);
    assert(0u8 & (0x80u8 >> k) == 0) by (bit_vector);
}

/// All blocks are free in a bitmap of zero bytes.
proof fn lemma_all_free(n: nat, blocks: nat)
    requires
        blocks <= 8 * n,
    ensures
        allocator::free_blocks(bytes::zeros(n), blocks).len() == blocks,
    decreases blocks,
{
    if blocks > 0 {
        lemma_all_free(n, (blocks - 1) as nat);
        lemma_unmarked(n, (blocks - 1) as nat);
    }
}

/// The regions of a new vault are in order.
proof fn lemma_created_header(h: HeaderModel, capacity: u64)
    requires
        capacity >= 4096,
        model::Layout::of(capacity).total_size() <= image::MAX_LEN,
        exists|
            name: Seq<char>,
            description: Seq<char>,
            admin: Keys,
            salt: Seq<u8>,
            slot: Seq<u8>,
            at: i64,
        | h == #[trigger] model::created_header(name, description, capacity, admin, salt, slot, at),
        h.fits(),
    ensures
        h.in_order(),
        h.bitmap_offset == 1024,
        h.file_table_offset == 1024 + h.bitmap_len,
        h.recipient_offset == h.file_table_offset + h.max_files * 320,
        h.chain_offset == h.recipient_offset + 16 * 192,
        h.max_recipients == 16,
        h.max_chain_records >= 8,
        h.data_offset == h.chain_offset + h.max_chain_records * 224,
        h.bitmap_len == allocator::bitmap_bytes(h.block_count as nat),
        h.total_size() == model::Layout::of(capacity).total_size(),
        h.chain_next_seq == 1,
{
    reveal(HeaderModel::fills_capacity);
    vault::lemma_layout(capacity);
}

/// Where everything stands in the container of a new vault.
proof fn lemma_created_image(h: HeaderModel, first: RecordModel)
    requires
        h.in_order(),
        first.fits(),
        h.bitmap_offset == 1024,
        h.file_table_offset == 1024 + h.bitmap_len,
        h.recipient_offset == h.file_table_offset + h.max_files * 320,
        h.chain_offset == h.recipient_offset + 16 * 192,
        h.max_recipients == 16,
        h.data_offset == h.chain_offset + h.max_chain_records * 224,
        h.max_chain_records >= 1,
    ensures
        ({
            let image = model::created_image(h, first);
            let e = EntryModel::empty().encoded();
            let s = SlotModel::empty().encoded();
            &&& image.len() == h.total_size()
            &&& image.subrange(0, 1024) == h.encoded()
            &&& image.subrange(1024, 1024 + h.bitmap_len) == bytes::zeros(h.bitmap_len as nat)
            &&& forall|i: int|
                0 <= i < h.max_files ==> image.subrange(
                    #[trigger] h.slot_at(i),
                    h.slot_at(i) + 320,
                ) == e
            &&& forall|i: int|
                0 <= i < 16 ==> image.subrange(
                    #[trigger] h.recipient_at(i),
                    h.recipient_at(i) + 192,
                ) == s
            &&& image.subrange(h.chain_offset as int, h.chain_offset + 224) == first.encoded()
        }),
{
    let image = model::created_image(h, first);
    let e = EntryModel::empty().encoded();
    let s = SlotModel::empty().encoded();
    let a = h.encoded();
    let b = bytes::zeros(h.bitmap_len as nat);
    let c = model::repeated(e, h.max_files as int);
    let d = model::repeated(s, 16);
    let f = first.encoded();
    super::format::lemma_body_len(h);
    lemma_empty_lens();
    vault::lemma_repeated_len(e, h.max_files as int);
    vault::lemma_repeated_len(s, 16);
    records::lemma_record_len(first);
    health::lemma_total(h);
    health::lemma_places(h);
    health::lemma_place(0, h.max_chain_records as int, 224);
    let meta = a + b + c + d + f;
    assert(image == bytes::padded(meta, h.total_size() as nat));
    assert(meta.len() == h.chain_offset + 224);
    assert(image.subrange(0, 1024) =~= a);
    assert(image.subrange(1024, 1024 + h.bitmap_len) =~= b);
    assert forall|i: int| 0 <= i < h.max_files implies image.subrange(
        #[trigger] h.slot_at(i),
        h.slot_at(i) + 320,
    ) == e by {
        lemma_repeated_at(e, h.max_files as int, i);
        assert(image.subrange(h.slot_at(i), h.slot_at(i) + 320) =~= c.subrange(
            i * 320,
            i * 320 + 320,
        ));
    }
    assert forall|i: int| 0 <= i < 16 implies image.subrange(
        #[trigger] h.recipient_at(i),
        h.recipient_at(i) + 192,
    ) == s by {
        lemma_repeated_at(s, 16, i);
        assert(image.subrange(h.recipient_at(i), h.recipient_at(i) + 192) =~= d.subrange(
            i * 192,
            i * 192 + 192,
        ));
    }
    assert(image.subrange(h.chain_offset as int, h.chain_offset + 224) =~= f);
}

proof fn lemma_empty_lens()
    ensures
        EntryModel::empty().encoded().len() == 320,
        SlotModel::empty().encoded().len() == 192,
{
    records::law_empty_entry();
    assert(EntryModel::empty().fits()) by {
        assert(vstd::utf8::encode_utf8(Seq::<char>::empty()).len() == 0);
    }
    records::lemma_entry_len(EntryModel::empty());
    records::lemma_slot_len(SlotModel::empty());
}

/// Creating a vault keeps its promises, given that what was sealed opens and
/// what was signed verifies.
pub(crate) proof fn lemma_creating(
    name: Seq<char>,
    description: Seq<char>,
    capacity: u64,
    password: Seq<u8>,
    admin: Keys,
    salt: Seq<u8>,
    key: Seq<u8>,
    nonce: Seq<u8>,
    at: i64,
)
    requires
        admin.wf(),
        salt.len() == 16,
        key.len() == 32,
        model::creating(
            name,
            description,
            capacity,
            password,
            admin,
            salt,
            key,
            nonce,
            at,
        ) is Ok,
        ({
            let v = model::creating(
                name,
                description,
                capacity,
                password,
                admin,
                salt,
                key,
                nonce,
                at,
            )->Ok_0;
            let first = model::genesis(name, description, capacity, admin, at);
            &&& v.header.fits()
            &&& model::admin_key(v.header, password) == Ok::<Seq<u8>, Fault>(key)
            &&& first.fits()
            &&& first.self_consistent()
            &&& identity::signature_check(
                admin.signing_public(),
                first.record_hash,
                first.signature,
            ) is Ok
        }),
    ensures
        founded(
            model::creating(
                name,
                description,
                capacity,
                password,
                admin,
                salt,
                key,
                nonce,
                at,
            )->Ok_0,
            password,
        ),
        as_asked(
            model::creating(
                name,
                description,
                capacity,
                password,
                admin,
                salt,
                key,
                nonce,
                at,
            )->Ok_0,
            name,
            description,
            capacity,
            admin,
            at,
        ),
{
    let v = model::creating(
        name,
        description,
        capacity,
        password,
        admin,
        salt,
        key,
        nonce,
        at,
    )->Ok_0;
    let h = v.header;
    let first = model::genesis(name, description, capacity, admin, at);
    assert(h == model::created_header(
        name,
        description,
        capacity,
        admin,
        salt,
        h.admin_key_slot,
        at,
    ));
    lemma_created_header(h, capacity);
    lemma_created_image(h, first);
    lemma_founded_reads(v, first);
    lemma_founded(v, first, password);
    lemma_all_free(h.bitmap_len as nat, h.block_count as nat);
    assert(v.free_list().len() == h.block_count);
    lemma_room(h.block_count as int, h.max_files as int, capacity);
    assert(v.record(0) == Ok::<Option<RecordModel>, Fault>(Some(first)));
    assert(first.op is VaultCreated && first.timestamp == at);
    assert(as_asked(v, name, description, capacity, admin, at));
}

/// How many blocks and file slots a capacity makes.
proof fn lemma_room(blocks: int, files: int, capacity: u64)
    requires
        capacity >= 4096,
        blocks == model::Layout::of(capacity).block_count,
        files == model::Layout::of(capacity).max_files,
    ensures
        blocks * 4096 <= capacity < (blocks + 1) * 4096,
        4 <= files <= 4096,
        4 < files ==> files * 16384 <= capacity,
        files < 4096 ==> capacity < (files + 1) * 16384,
        model::Layout::of(capacity).max_chain_records == 4 * files,
{
    let c = capacity as int;
    assert((c / 4096) * 4096 <= c < (c / 4096 + 1) * 4096) by (nonlinear_arith);
    assert((c / 16384) * 16384 <= c < (c / 16384 + 1) * 16384) by (nonlinear_arith);
}

/// What stands in the slots of a new vault.
proof fn lemma_founded_reads(v: VaultModel, first: RecordModel)
    requires
        v.header.in_order(),
        v.header.max_recipients == 16,
        v.image.len() == v.header.total_size(),
        forall|i: int|
            0 <= i < v.header.max_files ==> v.image.subrange(
                #[trigger] v.header.slot_at(i),
                v.header.slot_at(i) + 320,
            ) == EntryModel::empty().encoded(),
        forall|i: int|
            0 <= i < 16 ==> v.image.subrange(
                #[trigger] v.header.recipient_at(i),
                v.header.recipient_at(i) + 192,
            ) == SlotModel::empty().encoded(),
        v.image.subrange(v.header.chain_offset as int, v.header.chain_offset + 224)
            == first.encoded(),
        first.fits(),
    ensures
        forall|i: int|
            0 <= i < v.header.max_files ==> #[trigger] v.slot(i) == Ok::<EntryModel, Fault>(
                EntryModel::empty(),
            ),
        forall|i: int|
            0 <= i < 16 ==> #[trigger] v.recipient(i) == Ok::<SlotModel, Fault>(SlotModel::empty()),
        v.record(0) == Ok::<Option<RecordModel>, Fault>(Some(first)),
{
    let h = v.header;
    health::lemma_places(h);
    health::lemma_total(h);
    assert forall|i: int| 0 <= i < h.max_files implies #[trigger] v.slot(i) == Ok::<
        EntryModel,
        Fault,
    >(EntryModel::empty()) by {
        reveal(VaultModel::slot);
        records::law_empty_entry();
        assert(h.slot_at(i) + 320 <= v.image.len());
    }
    assert forall|i: int| 0 <= i < 16 implies #[trigger] v.recipient(i) == Ok::<SlotModel, Fault>(
        SlotModel::empty(),
    ) by {
        reveal(VaultModel::recipient);
        records::law_empty_slot();
        assert(h.recipient_at(i) + 192 <= v.image.len());
    }
    assert(v.record(0) == Ok::<Option<RecordModel>, Fault>(Some(first))) by {
        reveal(VaultModel::record);
        records::law_record_round_trip(first);
        assert(h.record_at(0) == h.chain_offset);
        assert(h.record_at(0) + 224 <= v.image.len());
    }
}

/// A vault that reads like a new one is as a new one should be.
#[verifier::rlimit(60)]
#[verifier::spinoff_prover]
proof fn lemma_founded(v: VaultModel, first: RecordModel, password: Seq<u8>)
    requires
        v.header.in_order(),
        v.header.bitmap_offset == 1024,
        v.header.max_recipients == 16,
        v.header.chain_next_seq == 1,
        v.header.bitmap_len == allocator::bitmap_bytes(v.header.block_count as nat),
        v.image.len() == v.header.total_size(),
        v.image.subrange(0, 1024) == v.header.encoded(),
        v.bitmap == bytes::zeros(v.header.bitmap_len as nat),
        v.image.subrange(1024, 1024 + v.header.bitmap_len) == v.bitmap,
        forall|i: int|
            0 <= i < v.header.max_files ==> #[trigger] v.slot(i) == Ok::<EntryModel, Fault>(
                EntryModel::empty(),
            ),
        forall|i: int|
            0 <= i < 16 ==> #[trigger] v.recipient(i) == Ok::<SlotModel, Fault>(SlotModel::empty()),
        v.record(0) == Ok::<Option<RecordModel>, Fault>(Some(first)),
        first.self_consistent(),
        first.seq == 0,
        first.record_hash == v.header.chain_last_hash,
        identity::signature_check(
            v.header.admin_signing_pubkey,
            first.record_hash,
            first.signature,
        ) is Ok,
        v.admin_ok(),
        v.key.len() == 32,
        model::admin_key(v.header, password) == Ok::<Seq<u8>, Fault>(v.key),
    ensures
        founded(v, password),
{
    let h = v.header;
    records::law_empty_entry();
    records::law_empty_slot();
    assert(v.record_ok(0));
    assert(v.chain_ok());
    assert forall|i: int| !#[trigger] v.live(i) by {
        if 0 <= i < h.max_files {
            assert(v.slot(i) == Ok::<EntryModel, Fault>(EntryModel::empty()));
        }
    }
    assert forall|i: int| !#[trigger] v.grants(i) by {
        if 0 <= i < 16 {
            assert(v.recipient(i) == Ok::<SlotModel, Fault>(SlotModel::empty()));
        }
    }
    assert(v.files_ok());
    assert(v.recipients_ok());
    assert forall|n: Seq<char>| #[trigger] v.file(n) == Err::<Seq<u8>, Fault>(
        Fault::FileNotFound(n),
    ) by {
        laws::lemma_find_file(v, n, 0);
    }
    lemma_all_free(h.bitmap_len as nat, h.block_count as nat);
    let f = v.free_list().len() as int;
    assert((h.block_count - f) * h.block_size == 0) by (nonlinear_arith)
        requires
            h.block_count == f,
    ;
}

} // verus!
