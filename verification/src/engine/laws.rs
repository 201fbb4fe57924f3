//! What the operations of a vault promise together: what was written is read
//! back, what was not touched stays as it was, and a healthy vault stays
//! healthy.

use vstd::prelude::*;

use super::allocator;
use super::bytes;
use super::crypto;
use super::error::Fault;
use super::health;
use super::locality::{self, Reach};
use super::model::{self, VaultModel};
use super::readback;
use super::records::{self, ChainOp, EntryModel};
use super::replay;
use super::sharing;
use super::vault;

verus! {

// ---------------------------------------------------------------------
// What is promised
// ---------------------------------------------------------------------

/// Every file but the one of this name reads as before.
pub open spec fn others_kept(v: VaultModel, w: VaultModel, name: Seq<char>) -> bool {
    forall|n: Seq<char>| n != name ==> #[trigger] w.file(n) == v.file(n)
}

/// Every file but the one of this name is listed as before, in the same slot.
pub open spec fn others_listed(v: VaultModel, w: VaultModel, name: Seq<char>) -> bool {
    forall|n: Seq<char>| n != name ==> #[trigger] w.find_file(n, 0) == v.find_file(n, 0)
}

/// The vault lists no file of this name.
pub open spec fn unlisted(v: VaultModel, name: Seq<char>) -> bool {
    v.find_file(name, 0) == Ok::<Option<(int, EntryModel)>, Fault>(None)
}

/// The vault lists a file of this name and size, that was not modified since it
/// was created.
pub open spec fn newly_listed(v: VaultModel, name: Seq<char>, size: nat) -> bool {
    v.find_file(name, 0) matches Ok(Some((_, e))) && e.size == size && e.modified_at
        == e.created_at
}

/// The file of this name is listed with these times of creation and of the last
/// change.
pub open spec fn dated(v: VaultModel, name: Seq<char>, created_at: i64, modified_at: i64) -> bool {
    v.find_file(name, 0) matches Ok(Some((_, e))) && e.created_at == created_at && e.modified_at
        == modified_at
}

/// The file of this name was last changed at this time.
pub open spec fn last_changed(v: VaultModel, name: Seq<char>, at: i64) -> bool {
    v.find_file(name, 0) matches Ok(Some((_, e))) && e.modified_at == at
}

/// The file of this name is listed in the same slot with the same time of
/// creation, and with this size.
pub open spec fn relisted(v: VaultModel, w: VaultModel, name: Seq<char>, size: nat) -> bool {
    match (v.find_file(name, 0), w.find_file(name, 0)) {
        (Ok(Some((i, old))), Ok(Some((j, e)))) => {
            &&& j == i
            &&& e.created_at == old.created_at
            &&& e.size == size
        },
        _ => false,
    }
}

/// Every file reads as before.
pub open spec fn files_kept(v: VaultModel, w: VaultModel) -> bool {
    forall|n: Seq<char>| #[trigger] w.file(n) == v.file(n)
}

/// Whoever could open the vault still can: the content key and its wrapped
/// copies are the same.
pub open spec fn access_kept(v: VaultModel, w: VaultModel) -> bool {
    &&& w.key == v.key
    &&& v.header.same_regions(w.header)
    &&& w.header.admin_key_slot == v.header.admin_key_slot
    &&& w.admin == v.admin
    &&& health::same_recipients(v, w)
}

/// The number of blocks that the file of this name holds.
pub open spec fn blocks_of(v: VaultModel, name: Seq<char>) -> int {
    match v.find_file(name, 0) {
        Ok(Some((_, e))) => v.held(e).len() as int,
        _ => 0,
    }
}

/// What adding a file promises of a healthy vault.
pub open spec fn added(v: VaultModel, w: VaultModel, name: Seq<char>, data: Seq<u8>) -> bool {
    &&& w.healthy()
    &&& w.file(name) == Ok::<Seq<u8>, Fault>(data)
    &&& others_kept(v, w, name)
    &&& unlisted(v, name)
    &&& newly_listed(w, name, data.len())
    &&& others_listed(v, w, name)
    &&& access_kept(v, w)
    &&& blocks_of(w, name) == v.plan(data.len() as int).total()
    &&& w.used() == v.used() + blocks_of(w, name) * v.header.block_size
    &&& locality::local(v, w, name)
    &&& health::advances(v, w)
    &&& replay::keeps_lead(v, w)
}

/// The file of this name is stored under the identifier `id`.
pub open spec fn stored_under(v: VaultModel, name: Seq<char>, id: u128) -> bool {
    v.find_file(name, 0) matches Ok(Some((_, e))) && e.id == id
}

/// The pairs of file identifier and block under which the content of the file
/// of this name is sealed.
pub open spec fn sealed_under(v: VaultModel, name: Seq<char>) -> Seq<(u128, u64)> {
    match v.find_file(name, 0) {
        Ok(Some((_, e))) => Seq::new(v.held(e).len(), |k: int| (e.id, v.held(e)[k])),
        _ => Seq::empty(),
    }
}

/// No pair under which the content of the file of this name is sealed in `v` is
/// one under which its content is sealed in `w`.
pub open spec fn sealed_afresh(v: VaultModel, w: VaultModel, name: Seq<char>) -> bool {
    forall|j: int, k: int|
        0 <= j < sealed_under(v, name).len() && 0 <= k < sealed_under(w, name).len() ==> (
        #[trigger] sealed_under(v, name)[j]) != (#[trigger] sealed_under(w, name)[k])
}

/// What updating a file promises of a healthy vault: its new content belongs to
/// the identifier `id`.
pub open spec fn updated(
    v: VaultModel,
    w: VaultModel,
    name: Seq<char>,
    data: Seq<u8>,
    id: u128,
) -> bool {
    &&& w.healthy()
    &&& w.file(name) == Ok::<Seq<u8>, Fault>(data)
    &&& stored_under(w, name, id)
    &&& others_kept(v, w, name)
    &&& relisted(v, w, name, data.len())
    &&& others_listed(v, w, name)
    &&& access_kept(v, w)
    &&& blocks_of(w, name) == v.plan(data.len() as int).total()
    &&& w.used() == v.used() + (blocks_of(w, name) - blocks_of(v, name)) * v.header.block_size
    &&& locality::local(v, w, name)
    &&& health::advances(v, w)
    &&& replay::keeps_lead(v, w)
}

/// The chain tells of the deletion of the file of this name.
pub open spec fn tells_of_deletion(
    v: VaultModel,
    w: VaultModel,
    name: Seq<char>,
    at: i64,
) -> bool {
    v.find_file(name, 0) matches Ok(Some((_, e))) && health::tells(
        v,
        w,
        ChainOp::FileDeleted,
        e.id,
        crypto::sha256_of(bytes::text(name))@,
        at,
    )
}

/// What deleting a file promises of a healthy vault.
pub open spec fn deleted(v: VaultModel, w: VaultModel, name: Seq<char>) -> bool {
    &&& w.healthy()
    &&& w.file(name) == Err::<Seq<u8>, Fault>(Fault::FileNotFound(name))
    &&& others_kept(v, w, name)
    &&& unlisted(w, name)
    &&& others_listed(v, w, name)
    &&& access_kept(v, w)
    &&& w.used() == v.used() - blocks_of(v, name) * v.header.block_size
    &&& locality::local(v, w, name)
    &&& health::advances(v, w)
    &&& replay::keeps_lead(v, w)
}

// ---------------------------------------------------------------------
// Finding files
// ---------------------------------------------------------------------

/// What a search finds in a vault whose slots can all be read.
pub(crate) proof fn lemma_find_file(v: VaultModel, name: Seq<char>, from: int)
    requires
        v.files_ok(),
        0 <= from,
    ensures
        v.find_file(name, from) is Ok,
        match v.find_file(name, from)->Ok_0 {
            Some((j, e)) => from <= j && v.live(j) && e == v.entry(j) && e.name == name,
            None => forall|j: int| from <= j && #[trigger] v.live(j) ==> v.entry(j).name != name,
        },
    decreases v.header.max_files - from,
{
    if from < v.header.max_files {
        assert(v.slot(from) is Ok);
        lemma_find_file(v, name, from + 1);
        if v.find_file(name, from)->Ok_0 is None {
            assert forall|j: int| from <= j && #[trigger] v.live(j) implies v.entry(j).name
                != name by {
                if j == from {
                    assert(v.entry(from) == v.slot(from)->Ok_0);
                }
            }
        } else if v.entry(from).occupied() && v.entry(from).name == name {
            assert(v.live(from));
        }
    }
}

/// A live file is found under its name.
pub(crate) proof fn lemma_finds(v: VaultModel, i: int)
    requires
        v.files_ok(),
        v.live(i),
    ensures
        v.find_file(v.entry(i).name, 0) == Ok::<Option<(int, EntryModel)>, Fault>(
            Some((i, v.entry(i))),
        ),
{
    lemma_find_file(v, v.entry(i).name, 0);
    let found = v.find_file(v.entry(i).name, 0)->Ok_0;
    match found {
        Some((j, e)) => {
            assert(v.live(j));
            if j != i {
                assert(v.entry(i).name != v.entry(j).name);
            }
        },
        None => {},
    }
}

/// A search for a free slot finds one that holds no live file.
pub(crate) proof fn lemma_find_free(v: VaultModel, from: int)
    requires
        v.files_ok(),
        0 <= from,
    ensures
        v.find_free_slot(from) is Ok,
        match v.find_free_slot(from)->Ok_0 {
            Some(j) => from <= j < v.header.max_files && !v.live(j),
            None => forall|j: int| from <= j < v.header.max_files ==> #[trigger] v.live(j),
        },
    decreases v.header.max_files - from,
{
    if from < v.header.max_files {
        assert(v.slot(from) is Ok);
        lemma_find_free(v, from + 1);
    }
}

// ---------------------------------------------------------------------
// Changing one slot
// ---------------------------------------------------------------------

/// Only slot `i` and blocks of `but` differ, and no other live file holds one
/// of those.
pub open spec fn only_slot(v: VaultModel, w: VaultModel, i: int, but: Seq<u64>) -> bool {
    &&& health::alike(v, w)
    &&& 0 <= i < v.header.max_files
    &&& w.slot(i) is Ok
    &&& forall|j: int| 0 <= j < v.header.max_files && j != i ==> #[trigger] w.slot(j) == v.slot(j)
    &&& health::same_blocks_but(v, w, but)
    &&& forall|j: int| #[trigger]
        v.live(j) && j != i ==> health::disjoint(v.held(v.entry(j)), but) && w.owns(
            v.held(v.entry(j)),
        )
}

/// Other live files are untouched.
pub(crate) proof fn lemma_other_file(v: VaultModel, w: VaultModel, i: int, but: Seq<u64>, j: int)
    requires
        v.files_ok(),
        only_slot(v, w, i, but),
        v.live(j),
        j != i,
    ensures
        w.live(j),
        w.entry(j) == v.entry(j),
        w.all_blocks(v.entry(j)) == v.all_blocks(v.entry(j)),
        w.content(v.entry(j)) == v.content(v.entry(j)),
        w.sound(w.entry(j)),
{
    let e = v.entry(j);
    assert(v.sound(e));
    assert(w.slot(j) == v.slot(j));
    assert forall|k: int| 0 <= k < v.held(e).len() implies w.block(#[trigger] v.held(e)[k], e.id)
        == v.block(v.held(e)[k], e.id) by {
        let b = v.held(e)[k];
        if but.contains(b) {
            let l = choose|l: int| 0 <= l < but.len() && but[l] == b;
            assert(v.held(e)[k] != but[l]);
        }
    }
    health::lemma_file_alike(v, w, e);
    assert forall|k: int| 0 <= k < v.held(e).len() implies w.block(
        #[trigger] v.held(e)[k],
        e.id,
    ) is Ok by {
        assert(v.block(v.held(e)[k], e.id) is Ok);
    }
}

/// The files are in order again if the changed slot is free or holds a sound
/// file that shares neither name nor block with another.
pub(crate) proof fn lemma_files_rebuilt(v: VaultModel, w: VaultModel, i: int, but: Seq<u64>)
    requires
        v.files_ok(),
        only_slot(v, w, i, but),
        w.entry(i).occupied() ==> w.sound(w.entry(i)),
        w.entry(i).occupied() ==> forall|j: int| #[trigger]
            v.live(j) && j != i ==> v.entry(j).name != w.entry(i).name && health::disjoint(
                v.held(v.entry(j)),
                w.held(w.entry(i)),
            ),
    ensures
        w.files_ok(),
        forall|n: Seq<char>|
            (w.live(i) ==> n != w.entry(i).name) && (v.live(i) ==> n != v.entry(i).name)
                ==> #[trigger] w.file(n) == v.file(n),
        forall|n: Seq<char>|
            (w.live(i) ==> n != w.entry(i).name) && (v.live(i) ==> n != v.entry(i).name)
                ==> #[trigger] w.find_file(n, 0) == v.find_file(n, 0),
{
    assert forall|j: int| 0 <= j < w.header.max_files implies (#[trigger] w.slot(j)) is Ok by {
        if j != i {
            assert(w.slot(j) == v.slot(j));
        }
    }
    assert forall|j: int| #[trigger] w.live(j) implies w.sound(w.entry(j)) by {
        if j != i {
            assert(w.slot(j) == v.slot(j));
            assert(v.live(j));
            lemma_other_file(v, w, i, but, j);
        }
    }
    assert forall|j: int, k: int|
        #![trigger w.live(j), w.live(k)]
        w.live(j) && w.live(k) && j != k implies w.entry(j).name != w.entry(k).name
        && health::disjoint(w.held(w.entry(j)), w.held(w.entry(k))) by {
        if j != i {
            assert(w.slot(j) == v.slot(j));
            assert(v.live(j));
            lemma_other_file(v, w, i, but, j);
        }
        if k != i {
            assert(w.slot(k) == v.slot(k));
            assert(v.live(k));
            lemma_other_file(v, w, i, but, k);
        }
        if j == i {
            let a = v.held(v.entry(k));
            let b = w.held(w.entry(i));
            assert(health::disjoint(a, b));
            assert(health::disjoint(b, a));
        }
    }
    assert(w.files_ok());
    assert forall|n: Seq<char>|
        (w.live(i) ==> n != w.entry(i).name) && (v.live(i) ==> n != v.entry(i).name) implies
        #[trigger] w.file(n) == v.file(n) by {
        lemma_other_name(v, w, i, but, n);
    }
    assert forall|n: Seq<char>|
        (w.live(i) ==> n != w.entry(i).name) && (v.live(i) ==> n != v.entry(i).name) implies
        #[trigger] w.find_file(n, 0) == v.find_file(n, 0) by {
        lemma_other_name(v, w, i, but, n);
    }
}

/// Other names are found where they were, with the same content.
proof fn lemma_other_name(v: VaultModel, w: VaultModel, i: int, but: Seq<u64>, n: Seq<char>)
    requires
        v.files_ok(),
        w.files_ok(),
        only_slot(v, w, i, but),
        w.live(i) ==> n != w.entry(i).name,
        v.live(i) ==> n != v.entry(i).name,
    ensures
        w.file(n) == v.file(n),
        w.find_file(n, 0) == v.find_file(n, 0),
{
    lemma_find_file(v, n, 0);
    lemma_find_file(w, n, 0);
    match v.find_file(n, 0)->Ok_0 {
        Some((j, e)) => {
            assert(j != i);
            lemma_other_file(v, w, i, but, j);
            lemma_finds(w, j);
        },
        None => {
            match w.find_file(n, 0)->Ok_0 {
                Some((j, e)) => {
                    assert(j != i);
                    assert(w.slot(j) == v.slot(j));
                    assert(v.live(j));
                },
                None => {},
            }
        },
    }
}

// ---------------------------------------------------------------------
// Bookkeeping
// ---------------------------------------------------------------------

/// Lists that hold the same blocks equally often.
pub(crate) proof fn lemma_same_members(a: Seq<u64>, b: Seq<u64>)
    requires
        a.to_multiset() == b.to_multiset(),
        b.no_duplicates(),
    ensures
        a.no_duplicates(),
        a.len() == b.len(),
        forall|x: u64| #[trigger] a.contains(x) <==> b.contains(x),
{
    broadcast use vstd::seq_lib::group_to_multiset_ensures;

    b.lemma_multiset_has_no_duplicates();
    a.lemma_multiset_has_no_duplicates_conv();
    assert(a.len() == a.to_multiset().len());
    assert(b.len() == b.to_multiset().len());
    assert forall|x: u64| #[trigger] a.contains(x) <==> b.contains(x) by {
        assert(a.contains(x) <==> a.to_multiset().count(x) > 0);
        assert(b.contains(x) <==> b.to_multiset().count(x) > 0);
    }
}

/// A chain that reads alike under a header with the same chain fields is in
/// order.
pub(crate) proof fn lemma_chain_same(v: VaultModel, w: VaultModel)
    requires
        v.chain_ok(),
        w.header.chain_next_seq == v.header.chain_next_seq,
        w.header.chain_last_hash == v.header.chain_last_hash,
        w.header.max_chain_records == v.header.max_chain_records,
        w.header.admin_signing_pubkey == v.header.admin_signing_pubkey,
        health::same_records(v, w),
    ensures
        w.chain_ok(),
{
    assert forall|s: int| w.oldest() <= s <= w.newest() implies #[trigger] w.record_ok(s) by {
        assert(w.record(s) == v.record(s));
        assert(v.record_ok(s));
    }
    assert forall|s: int| w.oldest() < s <= w.newest() implies #[trigger] w.links(s) by {
        assert(w.record(s) == v.record(s));
        assert(w.record(s - 1) == v.record(s - 1));
        assert(v.links(s));
    }
    assert(w.record(w.newest()) == v.record(v.newest()));
}

/// Recipients that read alike under the same key are in order.
pub(crate) proof fn lemma_recipients_same(v: VaultModel, w: VaultModel)
    requires
        v.recipients_ok(),
        v.header.same_regions(w.header),
        w.key == v.key,
        health::same_recipients(v, w),
    ensures
        w.recipients_ok(),
{
    assert forall|i: int| 0 <= i < w.header.max_recipients implies (#[trigger] w.recipient(
        i,
    )) is Ok by {
        assert(w.recipient(i) == v.recipient(i));
    }
    assert forall|i: int| #[trigger] w.grants(i) implies w.recipient(i)->Ok_0.fits()
        && w.recipient(i)->Ok_0.wrapped_dek.len() == 92 && crypto::unwraps_for(
        w.recipient(i)->Ok_0.wrapped_dek,
        w.recipient(i)->Ok_0.encryption_pubkey,
        w.key,
    ) by {
        assert(w.recipient(i) == v.recipient(i));
        assert(v.grants(i));
    }
    assert forall|i: int, j: int|
        #![trigger w.grants(i), w.grants(j)]
        w.grants(i) && w.grants(j) && i != j implies w.recipient(i)->Ok_0.signing_pubkey
        != w.recipient(j)->Ok_0.signing_pubkey by {
        assert(w.recipient(i) == v.recipient(i));
        assert(w.recipient(j) == v.recipient(j));
        assert(v.grants(i) && v.grants(j));
    }
}

/// Blocks that are owned stay owned when other blocks are marked or freed.
pub(crate) proof fn lemma_owns_kept(
    v: VaultModel,
    w: VaultModel,
    blocks: Seq<u64>,
    changed: Seq<u64>,
    occupied: bool,
)
    requires
        v.owns(blocks),
        v.bitmap.len() == allocator::bitmap_bytes(v.header.block_count as nat),
        w.header.block_count == v.header.block_count,
        w.bitmap == allocator::with_marks(
            v.bitmap,
            changed,
            v.header.block_count as nat,
            occupied,
        ),
        occupied || health::disjoint(blocks, changed),
    ensures
        w.owns(blocks),
{
    assert forall|k: int| 0 <= k < blocks.len() implies (#[trigger] blocks[k] as int)
        < w.header.block_count && allocator::marked(w.bitmap, blocks[k] as nat) by {
        let b = blocks[k];
        allocator::lemma_with_marks(
            v.bitmap,
            changed,
            v.header.block_count as nat,
            occupied,
            b as nat,
        );
        if !occupied && changed.contains(b) {
            let l = choose|l: int| 0 <= l < changed.len() && changed[l] == b;
            assert(blocks[k] != changed[l]);
        }
    }
}

/// The storage in use after marking or freeing distinct blocks.
pub(crate) proof fn lemma_used(v: VaultModel, w: VaultModel, changed: Seq<u64>, occupied: bool)
    requires
        v.bitmap.len() == allocator::bitmap_bytes(v.header.block_count as nat),
        v.header.same_regions(w.header),
        w.bitmap == allocator::with_marks(
            v.bitmap,
            changed,
            v.header.block_count as nat,
            occupied,
        ),
        changed.no_duplicates(),
        forall|k: int|
            0 <= k < changed.len() ==> (#[trigger] changed[k] as int) < v.header.block_count
                && allocator::marked(v.bitmap, changed[k] as nat) != occupied,
    ensures
        w.used() == v.used() + (if occupied {
            changed.len() as int
        } else {
            -(changed.len() as int)
        }) * v.header.block_size,
        w.free_list().len() == v.free_list().len() + (if occupied {
            -(changed.len() as int)
        } else {
            changed.len() as int
        }),
{
    allocator::lemma_free_count(v.bitmap, changed, v.header.block_count as nat, occupied);
    let n = v.header.block_count as int;
    let f = v.free_list().len() as int;
    let c = changed.len() as int;
    let b = v.header.block_size as int;
    assert((n - (f - c)) * b == (n - f) * b + c * b && (n - (f + c)) * b == (n - f) * b + (-c) * b)
        by (nonlinear_arith);
}

// ---------------------------------------------------------------------
// Adding a file
// ---------------------------------------------------------------------

/// A file that reads back right after its content was stored still does after
/// writes that touch no block.
pub(crate) proof fn lemma_file_stored(
    v: VaultModel,
    w1: VaultModel,
    y: VaultModel,
    all: Seq<u64>,
    data: Seq<u8>,
    e: EntryModel,
)
    requires
        e.fits(),
        0 < e.name.len(),
        e.size == data.len(),
        v.bitmap.len() == allocator::bitmap_bytes(v.header.block_count as nat),
        all.no_duplicates(),
        all.len() == y.plan(e.size as int).total(),
        forall|k: int| 0 <= k < all.len() ==> (#[trigger] all[k] as int) < v.header.block_count,
        w1.header.block_count == v.header.block_count,
        w1.bitmap == allocator::with_marks(v.bitmap, all, v.header.block_count as nat, true),
        w1.all_blocks(e) is Ok,
        w1.held(e).to_multiset() == all.to_multiset(),
        w1.content(e) == Ok::<Seq<u8>, Fault>(data),
        w1.readable(e.id, all),
        health::alike(w1, y),
        y.bitmap == w1.bitmap,
        health::same_blocks_but(w1, y, Seq::empty()),
    ensures
        y.sound(e),
        y.content(e) == Ok::<Seq<u8>, Fault>(data),
        y.held(e).len() == all.len(),
        forall|b: u64| #[trigger] y.held(e).contains(b) <==> all.contains(b),
{
    let held = w1.held(e);
    lemma_same_members(held, all);
    assert forall|k: int| 0 <= k < held.len() implies (#[trigger] held[k] as int)
        < v.header.block_count && allocator::marked(y.bitmap, held[k] as nat) && y.block(
        held[k],
        e.id,
    ) == w1.block(held[k], e.id) && w1.block(held[k], e.id) is Ok by {
        let b = held[k];
        assert(held.contains(b));
        let l = choose|l: int| 0 <= l < all.len() && all[l] == b;
        assert((all[l] as int) < v.header.block_count);
        assert(w1.block(all[l], e.id) is Ok);
        allocator::lemma_with_marks(v.bitmap, all, v.header.block_count as nat, true, b as nat);
        assert(!Seq::<u64>::empty().contains(b));
    }
    health::lemma_file_alike(w1, y, e);
}

/// What holds between a vault and the same vault with content stored under an
/// entry in slot `i` and a record appended.
pub open spec fn landed(
    v: VaultModel,
    y: VaultModel,
    i: int,
    data: Seq<u8>,
    e: EntryModel,
) -> bool {
    let all = v.allotted(data.len() as int);
    &&& y.stored()
    &&& y.chain_ok()
    &&& health::advances(v, y)
    &&& y.admin_ok()
    &&& health::alike(v, y)
    &&& y.admin == v.admin
    &&& y.header.admin_key_slot == v.header.admin_key_slot
    &&& y.bitmap == allocator::with_marks(v.bitmap, all, v.header.block_count as nat, true)
    &&& y.slot(i) == Ok::<EntryModel, Fault>(e)
    &&& forall|j: int| 0 <= j < v.header.max_files && j != i ==> #[trigger] y.slot(j) == v.slot(j)
    &&& health::same_blocks_but(v, y, all)
    &&& health::same_recipients(v, y)
    &&& y.sound(e)
    &&& y.content(e) == Ok::<Seq<u8>, Fault>(data)
    &&& y.held(e).len() == all.len()
    &&& forall|b: u64| #[trigger] y.held(e).contains(b) <==> all.contains(b)
}

/// Storing content, its entry and a record lands.
pub(crate) proof fn lemma_landed(
    v: VaultModel,
    i: int,
    id: u128,
    data: Seq<u8>,
    e: EntryModel,
    op: ChainOp,
    hash: Seq<u8>,
    chained_at: i64,
)
    requires
        readback::fits_entry(v, id, data, e),
        e.fits(),
        0 < e.name.len(),
        v.chain_ok(),
        v.admin_ok(),
        v.admin is Some,
        v.header.chain_next_seq < u64::MAX,
        0 <= i < v.header.max_files,
        hash.len() == 32,
        v.with_content(id, data).with_slot(i, e).record_verifies(op, id, hash, chained_at),
    ensures
        landed(
            v,
            v.with_content(id, data).with_slot(i, e).with_record(op, id, hash, chained_at),
            i,
            data,
            e,
        ),
        health::tells(
            v,
            v.with_content(id, data).with_slot(i, e).with_record(op, id, hash, chained_at),
            op,
            id,
            hash,
            chained_at,
        ),
{
    let size = data.len() as int;
    let all = v.allotted(size);
    let w1 = v.with_content(id, data);
    let x = w1.with_slot(i, e);
    let y = x.with_record(op, id, hash, chained_at);
    health::lemma_content_write(v, id, data);
    readback::lemma_content_reads_back(v, id, data, e);
    health::lemma_allotted(v, size);
    assert forall|k: int| 0 <= k < all.len() implies w1.block(#[trigger] all[k], id) is Ok by {
        let blocks = v.allotted_data(size);
        if k < blocks.len() {
            let cw = health::chunk_writes(v, id, data);
            assert(cw[k].0 == all[k]);
        } else {
            let iw = health::index_writes(v, id, data);
            assert(iw[k - blocks.len()].0 == all[k]);
        }
    }
    lemma_landed_from(v, w1, x, i, id, data, e, op, hash, chained_at);
}

/// The same, from what is known of the vault with the content stored.
pub(crate) proof fn lemma_landed_from(
    v: VaultModel,
    w1: VaultModel,
    x: VaultModel,
    i: int,
    id: u128,
    data: Seq<u8>,
    e: EntryModel,
    op: ChainOp,
    hash: Seq<u8>,
    chained_at: i64,
)
    requires
        v.stored(),
        v.chain_ok(),
        v.admin_ok(),
        v.admin is Some,
        v.header.chain_next_seq < u64::MAX,
        0 <= i < v.header.max_files,
        hash.len() == 32,
        e.fits(),
        0 < e.name.len(),
        e.size == data.len(),
        w1.stored(),
        health::alike(v, w1),
        w1.header == v.header,
        w1.admin == v.admin,
        w1.bitmap == allocator::with_marks(
            v.bitmap,
            v.allotted(data.len() as int),
            v.header.block_count as nat,
            true,
        ),
        health::same_slots(v, w1),
        health::same_recipients(v, w1),
        health::same_records(v, w1),
        health::same_blocks_but(v, w1, v.allotted(data.len() as int)),
        w1.all_blocks(e) is Ok,
        w1.held(e).to_multiset() == v.allotted(data.len() as int).to_multiset(),
        w1.content(e) == Ok::<Seq<u8>, Fault>(data),
        w1.readable(e.id, v.allotted(data.len() as int)),
        v.allotted(data.len() as int).no_duplicates(),
        v.allotted(data.len() as int).len() == v.plan(data.len() as int).total(),
        forall|k: int|
            0 <= k < v.allotted(data.len() as int).len() ==> (#[trigger] v.allotted(
                data.len() as int,
            )[k] as int) < v.header.block_count,
        x == w1.with_slot(i, e),
        x.record_verifies(op, id, hash, chained_at),
    ensures
        landed(v, x.with_record(op, id, hash, chained_at), i, data, e),
        health::tells(
            v,
            x.with_record(op, id, hash, chained_at),
            op,
            id,
            hash,
            chained_at,
        ),
{
    let all = v.allotted(data.len() as int);
    let y = x.with_record(op, id, hash, chained_at);
    health::lemma_slot_write(w1, i, e);
    assert(health::same_records(v, x)) by {
        assert forall|s: int| 0 <= s implies #[trigger] x.record(s) == v.record(s) by {
            assert(x.record(s) == w1.record(s));
            assert(w1.record(s) == v.record(s));
        }
    }
    lemma_chain_same(v, x);
    health::lemma_record_append(x, op, id, hash, chained_at);
    health::lemma_advances_from(v, x, y);
    assert(y.slot(i) == x.slot(i));
    assert forall|j: int| 0 <= j < v.header.max_files && j != i implies #[trigger] y.slot(j)
        == v.slot(j) by {
        assert(y.slot(j) == x.slot(j));
        assert(x.slot(j) == w1.slot(j));
        assert(w1.slot(j) == v.slot(j));
    }
    assert forall|b: u64, id2: u128| b < v.header.block_count implies #[trigger] y.block(b, id2)
        == w1.block(b, id2) by {
        assert(!Seq::<u64>::empty().contains(b));
        assert(y.block(b, id2) == x.block(b, id2));
        assert(x.block(b, id2) == w1.block(b, id2));
    }
    assert(health::same_blocks_but(v, y, all)) by {
        assert forall|b: u64, id2: u128|
            b < v.header.block_count && !all.contains(b) implies #[trigger] y.block(b, id2)
            == v.block(b, id2) by {
            assert(y.block(b, id2) == w1.block(b, id2));
            assert(w1.block(b, id2) == v.block(b, id2));
        }
    }
    assert(health::same_recipients(v, y)) by {
        assert forall|j: int| 0 <= j < v.header.max_recipients implies #[trigger] y.recipient(j)
            == v.recipient(j) by {
            assert(y.recipient(j) == x.recipient(j));
            assert(x.recipient(j) == w1.recipient(j));
            assert(w1.recipient(j) == v.recipient(j));
        }
    }
    assert(y.plan(e.size as int) == v.plan(data.len() as int));
    lemma_file_stored(v, w1, y, all, data, e);
}

/// Adding a file to a healthy vault keeps its promises.
pub(crate) proof fn lemma_adding(
    v: VaultModel,
    name: Seq<char>,
    data: Seq<u8>,
    id: u128,
    at: i64,
    chained_at: i64,
)
    requires
        v.healthy(),
        data.len() <= u64::MAX,
        v.header.chain_next_seq < u64::MAX,
        v.adding(name, data, id, at, chained_at).1 is Ok,
        v.content_opens(id, data),
        v.with_content(id, data).with_slot(
            v.find_free_slot(0)->Ok_0->Some_0,
            v.entry_for(id, name, data, at, at),
        ).record_verifies(ChainOp::FileAdded, id, crypto::sha256_of(data)@, chained_at),
        replay::keeps_trace(v, v.adding(name, data, id, at, chained_at).0),
    ensures
        added(v, v.adding(name, data, id, at, chained_at).0, name, data),
        stored_under(v.adding(name, data, id, at, chained_at).0, name, id),
        dated(v.adding(name, data, id, at, chained_at).0, name, at, at),
        health::tells(
            v,
            v.adding(name, data, id, at, chained_at).0,
            ChainOp::FileAdded,
            id,
            crypto::sha256_of(data)@,
            chained_at,
        ),
{
    let i = v.find_free_slot(0)->Ok_0->Some_0;
    let e = v.entry_for(id, name, data, at, at);
    let hash = crypto::sha256_of(data)@;
    lemma_find_free(v, 0);
    assert(readback::fits_entry(v, id, data, e));
    lemma_landed(v, i, id, data, e, ChainOp::FileAdded, hash, chained_at);
    records::lemma_live_flags();
    lemma_find_file(v, name, 0);
    health::lemma_allotted(v, data.len() as int);
    let y = v.adding(name, data, id, at, chained_at).0;
    lemma_landing_is_local(v, v, y, i, id, data, e, ChainOp::FileAdded, hash, chained_at);
    replay::lemma_keeps_lead(v, y);
    lemma_added_from(v, y, i, data, e);
    assert(y.live(i));
    lemma_finds(y, i);
}

/// Storing content, its entry and a record reaches no further than the file.
proof fn lemma_landing_is_local(
    v: VaultModel,
    f: VaultModel,
    y: VaultModel,
    i: int,
    id: u128,
    data: Seq<u8>,
    e: EntryModel,
    op: ChainOp,
    hash: Seq<u8>,
    chained_at: i64,
)
    requires
        f.stored(),
        f.header == v.header,
        f.admin_ok(),
        f.admin is Some,
        f == v || locality::prepared(
            v,
            f,
            Reach { slot: Some(i), peer: None, blocks: y.held(e) },
        ),
        v.header.chain_next_seq < u64::MAX,
        0 <= i < v.header.max_files,
        hash.len() == 32,
        e.fits(),
        data.len() <= u64::MAX,
        f.has_room(data.len() as int),
        f.content_opens(id, data),
        y == f.with_content(id, data).with_slot(i, e).with_record(op, id, hash, chained_at),
        landed(f, y, i, data, e),
    ensures
        locality::confined(v, y, Reach { slot: Some(i), peer: None, blocks: y.held(e) }),
        replay::concluded(v, y),
{
    let reach = Reach { slot: Some(i), peer: None, blocks: y.held(e) };
    if f == v {
        assert(v.log.take(v.log.len() as int) =~= v.log);
    }
    let w1 = f.with_content(id, data);
    let x = w1.with_slot(i, e);
    health::lemma_content_write(f, id, data);
    locality::lemma_content(v, f, reach, id, data);
    health::lemma_slot_write(w1, i, e);
    locality::lemma_slot(v, w1, reach, i, e);
    locality::lemma_record(v, x, reach, op, id, hash, chained_at);
}

/// Content that landed in a slot without a live file was added.
pub(crate) proof fn lemma_added_from(v: VaultModel, y: VaultModel, i: int, data: Seq<u8>, e: EntryModel)
    requires
        v.healthy(),
        landed(v, y, i, data, e),
        0 <= i < v.header.max_files,
        !v.live(i),
        e.occupied(),
        e.size == data.len(),
        e.modified_at == e.created_at,
        forall|j: int| #[trigger] v.live(j) ==> v.entry(j).name != e.name,
        v.allotted(data.len() as int).no_duplicates(),
        v.allotted(data.len() as int).len() == v.plan(data.len() as int).total(),
        forall|k: int|
            0 <= k < v.allotted(data.len() as int).len() ==> (#[trigger] v.allotted(
                data.len() as int,
            )[k] as int) < v.header.block_count && !allocator::marked(
                v.bitmap,
                v.allotted(data.len() as int)[k] as nat,
            ),
        locality::confined(v, y, Reach { slot: Some(i), peer: None, blocks: y.held(e) }),
        replay::keeps_lead(v, y),
    ensures
        added(v, y, e.name, data),
{
    let all = v.allotted(data.len() as int);
    assert(y.entry(i) == e);
    assert forall|j: int| #[trigger] v.live(j) && j != i implies health::disjoint(
        v.held(v.entry(j)),
        all,
    ) && y.owns(v.held(v.entry(j))) && health::disjoint(
        v.held(v.entry(j)),
        y.held(e),
    ) by {
        let blocks = v.held(v.entry(j));
        assert(v.sound(v.entry(j)));
        lemma_marked_apart(v, blocks, all);
        lemma_owns_kept(v, y, blocks, all, true);
        lemma_members_apart(blocks, all, y.held(e));
    }
    assert(only_slot(v, y, i, all));
    lemma_files_rebuilt(v, y, i, all);
    assert(y.live(i));
    lemma_finds(y, i);
    lemma_find_file(v, e.name, 0);
    lemma_recipients_same(v, y);
    lemma_used(v, y, all, true);
}

/// Marked blocks and unmarked blocks are different.
pub(crate) proof fn lemma_marked_apart(v: VaultModel, blocks: Seq<u64>, free: Seq<u64>)
    requires
        v.owns(blocks),
        forall|k: int|
            0 <= k < free.len() ==> !allocator::marked(v.bitmap, #[trigger] free[k] as nat),
    ensures
        health::disjoint(blocks, free),
{
    assert forall|a: int, b: int| 0 <= a < blocks.len() && 0 <= b < free.len() implies
        #[trigger] blocks[a] != #[trigger] free[b] by {
        assert(allocator::marked(v.bitmap, blocks[a] as nat));
    }
}

/// Whatever is apart from a list is apart from every list of the same members.
pub(crate) proof fn lemma_members_apart(blocks: Seq<u64>, a: Seq<u64>, b: Seq<u64>)
    requires
        health::disjoint(blocks, a),
        forall|x: u64| #[trigger] b.contains(x) ==> a.contains(x),
    ensures
        health::disjoint(blocks, b),
{
    assert forall|i: int, j: int| 0 <= i < blocks.len() && 0 <= j < b.len() implies
        #[trigger] blocks[i] != #[trigger] b[j] by {
        assert(b.contains(b[j]));
        let l = choose|l: int| 0 <= l < a.len() && a[l] == b[j];
        assert(blocks[i] != a[l]);
    }
}

// ---------------------------------------------------------------------
// Updating a file
// ---------------------------------------------------------------------

/// Freeing a file's blocks touches nothing but the bitmap.
pub(crate) proof fn lemma_freed(v: VaultModel, blocks: Seq<u64>)
    requires
        v.stored(),
        v.chain_ok(),
        v.admin_ok(),
        v.owns(blocks),
    ensures
        ({
            let f = v.with_freed(blocks);
            &&& f.stored()
            &&& f.chain_ok()
            &&& f.admin_ok()
            &&& health::alike(v, f)
            &&& f.header == v.header
            &&& f.admin == v.admin
            &&& f.bitmap == allocator::with_marks(
                v.bitmap,
                blocks,
                v.header.block_count as nat,
                false,
            )
            &&& health::same_slots(v, f)
            &&& health::same_recipients(v, f)
            &&& health::same_records(v, f)
            &&& health::same_blocks_but(v, f, Seq::empty())
            &&& f.free_list().len() == v.free_list().len() + blocks.len()
            &&& f.used() == v.used() - blocks.len() * v.header.block_size
        }),
{
    let f = v.with_freed(blocks);
    let bitmap = allocator::with_marks(v.bitmap, blocks, v.header.block_count as nat, false);
    health::lemma_marks_len(v.bitmap, blocks, v.header.block_count as nat, false);
    health::lemma_bitmap_write(v, bitmap);
    lemma_chain_same(v, f);
    lemma_used(v, f, blocks, false);
    assert((-(blocks.len() as int)) * v.header.block_size == -(blocks.len() * v.header.block_size))
        by (nonlinear_arith);
}

/// Content that landed in the slot of a live file, whose blocks were freed
/// before, replaced that file.
pub(crate) proof fn lemma_updated_from(
    v: VaultModel,
    f: VaultModel,
    y: VaultModel,
    i: int,
    data: Seq<u8>,
    e: EntryModel,
)
    requires
        v.healthy(),
        v.live(i),
        f == v.with_freed(v.held(v.entry(i))),
        landed(f, y, i, data, e),
        e.occupied(),
        e.name == v.entry(i).name,
        e.size == data.len(),
        e.created_at == v.entry(i).created_at,
        f.allotted(data.len() as int).no_duplicates(),
        f.allotted(data.len() as int).len() == f.plan(data.len() as int).total(),
        forall|k: int|
            0 <= k < f.allotted(data.len() as int).len() ==> (#[trigger] f.allotted(
                data.len() as int,
            )[k] as int) < v.header.block_count && !allocator::marked(
                f.bitmap,
                f.allotted(data.len() as int)[k] as nat,
            ),
        locality::confined(v, y, Reach { slot: Some(i), peer: None, blocks: y.held(e) }),
        replay::keeps_lead(v, y),
    ensures
        updated(v, y, e.name, data, e.id),
{
    let old = v.held(v.entry(i));
    let all = f.allotted(data.len() as int);
    assert(v.sound(v.entry(i)));
    lemma_freed(v, old);
    health::lemma_advances_from(v, f, y);
    assert(y.entry(i) == e);
    assert(health::alike(v, y));
    assert forall|j: int| 0 <= j < v.header.max_files && j != i implies #[trigger] y.slot(j)
        == v.slot(j) by {
        assert(y.slot(j) == f.slot(j));
        assert(f.slot(j) == v.slot(j));
    }
    assert(health::same_blocks_but(v, y, all)) by {
        assert forall|b: u64, id: u128|
            b < v.header.block_count && !all.contains(b) implies #[trigger] y.block(b, id)
            == v.block(b, id) by {
            assert(!Seq::<u64>::empty().contains(b));
            assert(y.block(b, id) == f.block(b, id));
            assert(f.block(b, id) == v.block(b, id));
        }
    }
    assert(health::same_recipients(v, y)) by {
        assert forall|j: int| 0 <= j < v.header.max_recipients implies #[trigger] y.recipient(j)
            == v.recipient(j) by {
            assert(y.recipient(j) == f.recipient(j));
            assert(f.recipient(j) == v.recipient(j));
        }
    }
    assert forall|j: int| #[trigger] v.live(j) && j != i implies health::disjoint(
        v.held(v.entry(j)),
        all,
    ) && y.owns(v.held(v.entry(j))) && v.entry(j).name != e.name && health::disjoint(
        v.held(v.entry(j)),
        y.held(e),
    ) by {
        let blocks = v.held(v.entry(j));
        assert(v.sound(v.entry(j)));
        assert(health::disjoint(blocks, old));
        lemma_owns_kept(v, f, blocks, old, false);
        lemma_marked_apart(f, blocks, all);
        lemma_owns_kept(f, y, blocks, all, true);
        lemma_members_apart(blocks, all, y.held(e));
    }
    assert(only_slot(v, y, i, all));
    lemma_files_rebuilt(v, y, i, all);
    assert(y.live(i));
    lemma_finds(v, i);
    lemma_finds(y, i);
    lemma_recipients_same(v, y);
    lemma_used(f, y, all, true);
    let b = v.header.block_size as int;
    let n = all.len() as int;
    let o = old.len() as int;
    assert((n - o) * b == n * b - o * b) by (nonlinear_arith);
}

/// Updating a file of a healthy vault keeps its promises, or changes nothing.
pub(crate) proof fn lemma_updating(
    v: VaultModel,
    name: Seq<char>,
    data: Seq<u8>,
    id: u128,
    at: i64,
    chained_at: i64,
)
    requires
        v.healthy(),
        data.len() <= u64::MAX,
        v.header.chain_next_seq < u64::MAX,
        v.updating(name, data, id, at, chained_at).1 is Ok ==> {
            let (i, e) = v.find_file(name, 0)->Ok_0->Some_0;
            let f = v.with_freed(v.held(e));
            &&& f.content_opens(id, data)
            &&& f.with_content(id, data).with_slot(
                i,
                f.entry_for(id, e.name, data, e.created_at, at),
            ).record_verifies(ChainOp::FileUpdated, id, crypto::sha256_of(data)@, chained_at)
        },
        v.updating(name, data, id, at, chained_at).1 is Ok ==> replay::keeps_trace(
            v,
            v.updating(name, data, id, at, chained_at).0,
        ),
    ensures
        v.updating(name, data, id, at, chained_at).1 is Ok ==> updated(
            v,
            v.updating(name, data, id, at, chained_at).0,
            name,
            data,
            id,
        ) && last_changed(v.updating(name, data, id, at, chained_at).0, name, at) && health::tells(
            v,
            v.updating(name, data, id, at, chained_at).0,
            ChainOp::FileUpdated,
            id,
            crypto::sha256_of(data)@,
            chained_at,
        ),
        v.updating(name, data, id, at, chained_at).1 is Err ==> v.updating(
            name,
            data,
            id,
            at,
            chained_at,
        ).0 == v,
{
    lemma_find_file(v, name, 0);
    if v.admin is Some && v.find_file(name, 0)->Ok_0 is Some {
        let (i, old) = v.find_file(name, 0)->Ok_0->Some_0;
        let size = data.len() as int;
        assert(v.sound(v.entry(i)));
        let f = v.with_freed(v.held(old));
        lemma_freed(v, v.held(old));
        assert(f.plan(size) == v.plan(size));
        if v.updating(name, data, id, at, chained_at).1 is Ok {
            let e = f.entry_for(id, old.name, data, old.created_at, at);
            let hash = crypto::sha256_of(data)@;
            assert(readback::fits_entry(f, id, data, e));
            lemma_landed(f, i, id, data, e, ChainOp::FileUpdated, hash, chained_at);
            records::lemma_live_flags();
            health::lemma_allotted(f, size);
            let y = v.updating(name, data, id, at, chained_at).0;
            let reach = Reach { slot: Some(i), peer: None, blocks: y.held(e) };
            locality::lemma_freeing(v, reach, v.held(old));
            let op = ChainOp::FileUpdated;
            lemma_landing_is_local(v, f, y, i, id, data, e, op, hash, chained_at);
            health::lemma_advances_from(v, f, y);
            replay::lemma_keeps_lead(v, y);
            lemma_updated_from(v, f, y, i, data, e);
            assert(y.live(i));
            lemma_finds(y, i);
        }
    }
}

// ---------------------------------------------------------------------
// Deleting a file
// ---------------------------------------------------------------------

/// Deleting a file of a healthy vault keeps its promises.
pub(crate) proof fn lemma_deleting(v: VaultModel, name: Seq<char>, chained_at: i64)
    requires
        v.healthy(),
        v.header.chain_next_seq < u64::MAX,
        v.deleting(name, chained_at).1 is Ok,
        ({
            let (i, e) = v.find_file(name, 0)->Ok_0->Some_0;
            v.with_freed(v.held(e)).with_slot(i, EntryModel { flags: 2, ..e }).record_verifies(
                ChainOp::FileDeleted,
                e.id,
                crypto::sha256_of(bytes::text(e.name))@,
                chained_at,
            )
        }),
        replay::keeps_trace(v, v.deleting(name, chained_at).0),
    ensures
        deleted(v, v.deleting(name, chained_at).0, name),
        tells_of_deletion(v, v.deleting(name, chained_at).0, name, chained_at),
{
    lemma_find_file(v, name, 0);
    let (i, e) = v.find_file(name, 0)->Ok_0->Some_0;
    let old = v.held(e);
    let stone = EntryModel { flags: 2, ..e };
    let hash = crypto::sha256_of(bytes::text(e.name))@;
    assert(v.sound(v.entry(i)));
    lemma_freed(v, old);
    let f = v.with_freed(old);
    let x = f.with_slot(i, stone);
    let y = v.deleting(name, chained_at).0;
    assert(y == x.with_record(ChainOp::FileDeleted, e.id, hash, chained_at));
    health::lemma_slot_write(f, i, stone);
    assert(health::same_records(v, x)) by {
        assert forall|s: int| 0 <= s implies #[trigger] x.record(s) == v.record(s) by {
            assert(x.record(s) == f.record(s));
            assert(f.record(s) == v.record(s));
        }
    }
    lemma_chain_same(v, x);
    health::lemma_record_append(x, ChainOp::FileDeleted, e.id, hash, chained_at);
    health::lemma_advances_from(v, x, y);
    let reach = Reach { slot: Some(i), peer: None, blocks: Seq::empty() };
    locality::lemma_freeing(v, reach, old);
    locality::lemma_slot(v, f, reach, i, stone);
    locality::lemma_record(v, x, reach, ChainOp::FileDeleted, e.id, hash, chained_at);
    replay::lemma_keeps_lead(v, y);
    lemma_deleted_from(v, f, x, y, i, stone);
}

/// A file whose blocks were freed and whose slot became a tombstone is gone.
pub(crate) proof fn lemma_deleted_from(
    v: VaultModel,
    f: VaultModel,
    x: VaultModel,
    y: VaultModel,
    i: int,
    stone: EntryModel,
)
    requires
        v.healthy(),
        v.live(i),
        stone.flags == 2,
        f.bitmap == allocator::with_marks(
            v.bitmap,
            v.held(v.entry(i)),
            v.header.block_count as nat,
            false,
        ),
        health::alike(v, f),
        health::same_slots(v, f),
        health::same_recipients(v, f),
        health::same_blocks_but(v, f, Seq::empty()),
        health::alike(f, x),
        x.slot(i) == Ok::<EntryModel, Fault>(stone),
        forall|j: int|
            0 <= j < v.header.max_files && j != i ==> #[trigger] x.slot(j) == f.slot(j),
        health::same_recipients(f, x),
        health::same_blocks_but(f, x, Seq::empty()),
        health::alike(x, y),
        health::same_slots(x, y),
        health::same_recipients(x, y),
        health::same_blocks_but(x, y, Seq::empty()),
        y.bitmap == f.bitmap,
        y.admin == v.admin,
        y.header.admin_key_slot == v.header.admin_key_slot,
        y.stored(),
        y.chain_ok(),
        y.admin_ok(),
        health::advances(v, y),
        locality::confined(v, y, Reach { slot: Some(i), peer: None, blocks: Seq::empty() }),
        replay::keeps_lead(v, y),
    ensures
        deleted(v, y, v.entry(i).name),
{
    let old = v.held(v.entry(i));
    let none = Seq::<u64>::empty();
    records::lemma_live_flags();
    assert(v.sound(v.entry(i)));
    assert(y.slot(i) == x.slot(i));
    assert forall|j: int| 0 <= j < v.header.max_files && j != i implies #[trigger] y.slot(j)
        == v.slot(j) by {
        assert(y.slot(j) == x.slot(j));
        assert(x.slot(j) == f.slot(j));
        assert(f.slot(j) == v.slot(j));
    }
    assert(health::same_blocks_but(v, y, none)) by {
        assert forall|b: u64, id: u128|
            b < v.header.block_count && !none.contains(b) implies #[trigger] y.block(b, id)
            == v.block(b, id) by {
            assert(y.block(b, id) == x.block(b, id));
            assert(x.block(b, id) == f.block(b, id));
            assert(f.block(b, id) == v.block(b, id));
        }
    }
    assert(health::same_recipients(v, y)) by {
        assert forall|j: int| 0 <= j < v.header.max_recipients implies #[trigger] y.recipient(j)
            == v.recipient(j) by {
            assert(y.recipient(j) == x.recipient(j));
            assert(x.recipient(j) == f.recipient(j));
            assert(f.recipient(j) == v.recipient(j));
        }
    }
    assert forall|j: int| #[trigger] v.live(j) && j != i implies health::disjoint(
        v.held(v.entry(j)),
        none,
    ) && y.owns(v.held(v.entry(j))) by {
        let blocks = v.held(v.entry(j));
        assert(v.sound(v.entry(j)));
        assert(health::disjoint(blocks, old));
        lemma_owns_kept(v, y, blocks, old, false);
    }
    assert(only_slot(v, y, i, none));
    lemma_files_rebuilt(v, y, i, none);
    assert(!y.live(i));
    let name = v.entry(i).name;
    lemma_finds(v, i);
    lemma_find_file(y, name, 0);
    match y.find_file(name, 0)->Ok_0 {
        Some((j, e2)) => {
            assert(y.live(j) && j != i);
            assert(y.slot(j) == v.slot(j));
            assert(v.live(j));
            assert(v.entry(i).name != v.entry(j).name);
        },
        None => {},
    }
    lemma_recipients_same(v, y);
    lemma_used(v, y, old, false);
    assert((-(old.len() as int)) * v.header.block_size == -(old.len() * v.header.block_size))
        by (nonlinear_arith);
}

// ---------------------------------------------------------------------
// Several operations together
// ---------------------------------------------------------------------

/// Adding a file and deleting it again gives all its storage back, and the chain
/// tells of both.
pub proof fn law_delete_returns_storage(
    v: VaultModel,
    w: VaultModel,
    x: VaultModel,
    name: Seq<char>,
    data: Seq<u8>,
)
    requires
        added(v, w, name, data),
        deleted(w, x, name),
    ensures
        x.used() == v.used(),
        x.header.chain_next_seq == v.header.chain_next_seq + 2,
        files_kept(v, x),
{
    assert forall|n: Seq<char>| #[trigger] x.file(n) == v.file(n) by {
        assert(n != name ==> w.file(n) == v.file(n));
    }
}

/// Adding a file and deleting it again leaves the list of files as it was.
pub proof fn law_delete_restores_listing(
    v: VaultModel,
    w: VaultModel,
    x: VaultModel,
    name: Seq<char>,
    data: Seq<u8>,
)
    requires
        v.healthy(),
        added(v, w, name, data),
        deleted(w, x, name),
    ensures
        x.header.max_files == v.header.max_files,
        x.live_entries(v.header.max_files as int) == v.live_entries(v.header.max_files as int),
{
    assert forall|n: Seq<char>| #[trigger] x.find_file(n, 0) == v.find_file(n, 0) by {
        assert(n != name ==> w.find_file(n, 0) == v.find_file(n, 0));
    }
    lemma_same_listing(v, x, v.header.max_files as int);
}

/// Vaults that find the same files list the same files.
proof fn lemma_same_listing(v: VaultModel, w: VaultModel, n: int)
    requires
        v.files_ok(),
        w.files_ok(),
        w.header.max_files == v.header.max_files,
        forall|name: Seq<char>| #[trigger] w.find_file(name, 0) == v.find_file(name, 0),
        n <= v.header.max_files,
    ensures
        w.live_entries(n) == v.live_entries(n),
    decreases n,
{
    if n > 0 {
        lemma_same_listing(v, w, n - 1);
        let i = n - 1;
        assert(v.slot(i) is Ok && w.slot(i) is Ok);
        if v.live(i) {
            lemma_finds(v, i);
            assert(w.find_file(v.entry(i).name, 0) == v.find_file(v.entry(i).name, 0));
            lemma_find_file(w, v.entry(i).name, 0);
        }
        if w.live(i) {
            lemma_finds(w, i);
            assert(w.find_file(w.entry(i).name, 0) == v.find_file(w.entry(i).name, 0));
            lemma_find_file(v, w.entry(i).name, 0);
        }
    }
}

/// The name of a deleted file can be used again, for content of any length that
/// fits into what was free before and what the file held.
pub proof fn law_deleted_name_is_free(
    v: VaultModel,
    w: VaultModel,
    name: Seq<char>,
    data: Seq<u8>,
    id: u128,
    at: i64,
    chained_at: i64,
)
    requires
        v.healthy(),
        v.admin is Some,
        v.file(name) is Ok,
        deleted(v, w, name),
        v.plan(data.len() as int).total() <= v.free_list().len() + blocks_of(v, name),
    ensures
        w.adding(name, data, id, at, chained_at).1 is Ok,
{
    lemma_find_file(v, name, 0);
    let (i, e) = v.find_file(name, 0)->Ok_0->Some_0;
    assert(v.live(i) && v.sound(v.entry(i)));
    if w.live(i) {
        let other = w.entry(i).name;
        lemma_finds(w, i);
        assert(other != name);
        assert(w.find_file(other, 0) == v.find_file(other, 0));
        lemma_find_file(v, other, 0);
    }
    let n = v.header.block_count as int;
    let a = v.free_list().len() as int;
    let b = w.free_list().len() as int;
    let c = blocks_of(v, name);
    let z = v.header.block_size as int;
    assert(b == a + c) by (nonlinear_arith)
        requires
            (n - b) * z == (n - a) * z - c * z,
            z > 0,
    ;
    assert(w.plan(data.len() as int) == v.plan(data.len() as int));
    law_add_succeeds(w, name, data, id, at, chained_at);
}

/// Replacing a file's content by content of the same length takes no storage.
pub proof fn law_same_size_update_takes_no_storage(
    v: VaultModel,
    w: VaultModel,
    name: Seq<char>,
    data: Seq<u8>,
    id: u128,
)
    requires
        v.healthy(),
        v.file(name) is Ok,
        v.file(name)->Ok_0.len() == data.len(),
        updated(v, w, name, data, id),
    ensures
        w.used() == v.used(),
{
    lemma_find_file(v, name, 0);
    let (i, e) = v.find_file(name, 0)->Ok_0->Some_0;
    assert(v.sound(v.entry(i)));
    let b = v.header.block_size as int;
    let d = blocks_of(w, name) - blocks_of(v, name);
    assert(d * b == 0) by (nonlinear_arith)
        requires
            d == 0,
    ;
}

/// A vault that was not opened by its admin refuses every change and stays as
/// it is.
pub proof fn law_only_the_admin_changes(
    v: VaultModel,
    name: Seq<char>,
    data: Seq<u8>,
    id: u128,
    at: i64,
    chained_at: i64,
    signing: Seq<u8>,
    encryption: Seq<u8>,
    wrapped: Seq<u8>,
    password: Seq<u8>,
    new_key: Seq<u8>,
    wraps: Seq<Seq<u8>>,
    nonce: Seq<u8>,
)
    requires
        v.admin is None,
    ensures
        v.adding(name, data, id, at, chained_at) == (v, Err::<(), Fault>(Fault::NotAuthorized)),
        v.updating(name, data, id, at, chained_at) == (v, Err::<(), Fault>(Fault::NotAuthorized)),
        v.deleting(name, chained_at) == (v, Err::<(), Fault>(Fault::NotAuthorized)),
        v.granting(signing, encryption, wrapped, at, chained_at) == (
            v,
            Err::<(), Fault>(Fault::NotAuthorized),
        ),
        v.revoking(signing, password, new_key, wraps, nonce, chained_at) == (
            v,
            Err::<(), Fault>(Fault::NotAuthorized),
        ),
{
}

/// A change to a healthy vault that is refused changes nothing.
pub proof fn law_refused_changes_nothing(
    v: VaultModel,
    name: Seq<char>,
    data: Seq<u8>,
    id: u128,
    at: i64,
    chained_at: i64,
    signing: Seq<u8>,
    encryption: Seq<u8>,
    wrapped: Seq<u8>,
)
    requires
        v.healthy(),
        data.len() <= u64::MAX,
        v.header.chain_next_seq < u64::MAX,
    ensures
        v.adding(name, data, id, at, chained_at).1 is Err ==> v.adding(
            name,
            data,
            id,
            at,
            chained_at,
        ).0 == v,
        v.updating(name, data, id, at, chained_at).1 is Err ==> v.updating(
            name,
            data,
            id,
            at,
            chained_at,
        ).0 == v,
        v.deleting(name, chained_at).1 is Err ==> v.deleting(name, chained_at).0 == v,
        v.granting(signing, encryption, wrapped, at, chained_at).1 is Err ==> v.granting(
            signing,
            encryption,
            wrapped,
            at,
            chained_at,
        ).0 == v,
{
    if v.updating(name, data, id, at, chained_at).1 is Err {
        lemma_updating(v, name, data, id, at, chained_at);
    }
}

/// Content under one identifier is never sealed under a pair of identifier and
/// block that content under another identifier is sealed under, and no content is
/// sealed twice under the same pair. So an update under a fresh identifier uses
/// none of the pairs of the content that it replaces.
pub proof fn law_pairs_are_not_reused(
    v: VaultModel,
    name: Seq<char>,
    w: VaultModel,
    other: Seq<char>,
    id: u128,
    new_id: u128,
)
    requires
        v.healthy(),
        w.healthy(),
        stored_under(v, name, id),
        stored_under(w, other, new_id),
        id != new_id,
    ensures
        forall|j: int, k: int|
            0 <= j < sealed_under(v, name).len() && 0 <= k < sealed_under(w, other).len() ==> (
            #[trigger] sealed_under(v, name)[j]) != (#[trigger] sealed_under(w, other)[k]),
        sealed_under(v, name).no_duplicates(),
        sealed_under(w, other).no_duplicates(),
{
    lemma_sealed_once(v, name);
    lemma_sealed_once(w, other);
}

proof fn lemma_sealed_once(v: VaultModel, name: Seq<char>)
    requires
        v.healthy(),
    ensures
        sealed_under(v, name).no_duplicates(),
{
    lemma_find_file(v, name, 0);
    if v.find_file(name, 0)->Ok_0 is Some {
        let (i, e) = v.find_file(name, 0)->Ok_0->Some_0;
        assert(v.live(i));
        assert(v.sound(v.entry(i)));
        let held = v.held(e);
        let pairs = sealed_under(v, name);
        assert forall|j: int, k: int|
            0 <= j < pairs.len() && 0 <= k < pairs.len() && j != k implies pairs[j] != pairs[k] by {
            assert(held[j] != held[k]);
        }
    }
}

/// An update of the file of this name to this content can be made: the vault was
/// opened by its admin, has such a file, and has room enough without the file's
/// present content.
pub open spec fn updatable(v: VaultModel, name: Seq<char>, data: Seq<u8>) -> bool {
    &&& v.admin is Some
    &&& v.file(name) is Ok
    &&& v.plan(data.len() as int).total() <= v.free_list().len() + blocks_of(v, name)
}

/// A file of this name and content can be added: the vault was opened by its
/// admin, the name fits and is not taken, and there is a free slot and room
/// enough.
pub open spec fn addable(v: VaultModel, name: Seq<char>, data: Seq<u8>) -> bool {
    &&& v.admin is Some
    &&& 0 < name.len() && bytes::text(name).len() <= 128
    &&& v.file(name) == Err::<Seq<u8>, Fault>(Fault::FileNotFound(name))
    &&& exists|i: int| 0 <= i < v.header.max_files && !(#[trigger] v.live(i))
    &&& v.plan(data.len() as int).total() <= v.free_list().len()
}

/// The file of this name can be deleted: the vault was opened by its admin and has
/// such a file.
pub open spec fn deletable(v: VaultModel, name: Seq<char>) -> bool {
    v.admin is Some && v.file(name) is Ok
}

/// On a healthy vault, an update is refused exactly if the vault was not opened
/// by its admin, holds no file of this name, or has too little room even without
/// the file's present content.
pub proof fn law_update_succeeds(
    v: VaultModel,
    name: Seq<char>,
    data: Seq<u8>,
    id: u128,
    at: i64,
    chained_at: i64,
)
    requires
        v.healthy(),
        data.len() <= u64::MAX,
    ensures
        v.updating(name, data, id, at, chained_at).1 is Ok <==> v.admin is Some && v.file(name) is Ok
            && v.plan(data.len() as int).total() <= v.free_list().len() + blocks_of(v, name),
{
    lemma_find_file(v, name, 0);
    if v.find_file(name, 0)->Ok_0 is Some {
        let (i, old) = v.find_file(name, 0)->Ok_0->Some_0;
        assert(v.sound(v.entry(i)));
        lemma_freed(v, v.held(old));
        let f = v.with_freed(v.held(old));
        assert(f.plan(data.len() as int) == v.plan(data.len() as int));
    }
}

/// On a healthy vault, an addition is refused exactly if the vault was not
/// opened by its admin, the name does not fit or is taken, every slot is taken,
/// or there is too little room.
pub proof fn law_add_succeeds(
    v: VaultModel,
    name: Seq<char>,
    data: Seq<u8>,
    id: u128,
    at: i64,
    chained_at: i64,
)
    requires
        v.healthy(),
    ensures
        v.adding(name, data, id, at, chained_at).1 is Ok <==> {
            &&& v.admin is Some
            &&& 0 < name.len() && bytes::text(name).len() <= 128
            &&& v.file(name) == Err::<Seq<u8>, Fault>(Fault::FileNotFound(name))
            &&& exists|i: int| 0 <= i < v.header.max_files && !(#[trigger] v.live(i))
            &&& v.plan(data.len() as int).total() <= v.free_list().len()
        },
{
    lemma_find_file(v, name, 0);
    lemma_find_free(v, 0);
    if v.find_file(name, 0)->Ok_0 is Some {
        let (i, _) = v.find_file(name, 0)->Ok_0->Some_0;
        assert(v.sound(v.entry(i)));
    }
}

/// On a healthy vault, a deletion is refused exactly if the vault was not opened
/// by its admin or holds no file of this name.
pub proof fn law_delete_succeeds(v: VaultModel, name: Seq<char>, chained_at: i64)
    requires
        v.healthy(),
    ensures
        v.deleting(name, chained_at).1 is Ok <==> v.admin is Some && v.file(name) is Ok,
{
    lemma_find_file(v, name, 0);
    if v.find_file(name, 0)->Ok_0 is Some {
        let (i, _) = v.find_file(name, 0)->Ok_0->Some_0;
        assert(v.sound(v.entry(i)));
    }
}

// ---------------------------------------------------------------------
// The list of files
// ---------------------------------------------------------------------

/// One of these entries has this name, and this is it.
pub open spec fn lists(entries: Seq<(int, EntryModel)>, name: Seq<char>, k: int) -> bool {
    0 <= k < entries.len() && entries[k].1.name == name
}

/// The list of files tells the truth: every listed file can be read and is as long
/// as listed, every file that can be read is listed, and no name is listed twice.
pub proof fn law_listing_is_true(v: VaultModel, name: Seq<char>)
    requires
        v.healthy(),
    ensures
        v.live_entries(v.header.max_files as int) is Ok,
        ({
            let entries = v.live_entries(v.header.max_files as int)->Ok_0;
            &&& v.file(name) is Ok <==> exists|k: int| #[trigger] lists(entries, name, k)
            &&& forall|k: int| #[trigger]
                lists(entries, name, k) ==> v.find_file(name, 0) == Ok::<
                    Option<(int, EntryModel)>,
                    Fault,
                >(Some(entries[k])) && v.file(name)->Ok_0.len() == entries[k].1.size
            &&& forall|k: int, l: int|
                #![trigger lists(entries, name, k), lists(entries, name, l)]
                lists(entries, name, k) && lists(entries, name, l) ==> k == l
        }),
{
    let n = v.header.max_files as int;
    sharing::lemma_live_list(v, n);
    let entries = v.live_entries(n)->Ok_0;
    lemma_find_file(v, name, 0);
    assert forall|k: int| #[trigger] lists(entries, name, k) implies v.find_file(name, 0) == Ok::<
        Option<(int, EntryModel)>,
        Fault,
    >(Some(entries[k])) && v.file(name)->Ok_0.len() == entries[k].1.size && v.file(
        name,
    ) is Ok by {
        let i = entries[k].0;
        assert(v.live(i) && entries[k].1 == v.entry(i));
        assert(v.sound(v.entry(i)));
        lemma_finds(v, i);
    }
    assert forall|k: int, l: int|
        #![trigger lists(entries, name, k), lists(entries, name, l)]
        lists(entries, name, k) && lists(entries, name, l) implies k == l by {
        assert(entries[k].0 == entries[l].0);
        if k < l {
            assert(entries[k].0 < entries[l].0);
        }
        if l < k {
            assert(entries[l].0 < entries[k].0);
        }
    }
    if v.file(name) is Ok {
        let (i, e) = v.find_file(name, 0)->Ok_0->Some_0;
        assert(v.live(i));
        let k = choose|k: int| 0 <= k < entries.len() && #[trigger] entries[k] == (i, v.entry(i));
        assert(lists(entries, name, k));
    }
}

/// An update shows in the list of files: the file is listed once, as long as its new
/// content, as last changed when the update was made, and as created when it was
/// before.
pub proof fn law_update_shows(
    v: VaultModel,
    w: VaultModel,
    name: Seq<char>,
    data: Seq<u8>,
    id: u128,
    at: i64,
    chained_at: i64,
    k: int,
    l: int,
)
    requires
        v.healthy(),
        updated(v, w, name, data, id),
        vault::updated_when(v, w, name, data, id, at, chained_at),
        lists(v.live_entries(v.header.max_files as int)->Ok_0, name, k),
    ensures
        ({
            let before = v.live_entries(v.header.max_files as int)->Ok_0;
            let after = w.live_entries(w.header.max_files as int)->Ok_0;
            &&& exists|m: int| #[trigger] lists(after, name, m)
            &&& lists(after, name, l) ==> {
                &&& after[l].1.modified_at == at
                &&& after[l].1.created_at == before[k].1.created_at
                &&& after[l].1.size == data.len()
                &&& after[l].0 == before[k].0
            }
        }),
{
    law_listing_is_true(v, name);
    law_listing_is_true(w, name);
}

/// An added file shows in the list of files: it is listed once, as long as its
/// content, as created and last changed when it was added.
pub proof fn law_addition_shows(
    v: VaultModel,
    w: VaultModel,
    name: Seq<char>,
    data: Seq<u8>,
    id: u128,
    at: i64,
    chained_at: i64,
    l: int,
)
    requires
        v.healthy(),
        added(v, w, name, data),
        vault::added_when(v, w, name, data, id, at, chained_at),
    ensures
        ({
            let after = w.live_entries(w.header.max_files as int)->Ok_0;
            &&& exists|m: int| #[trigger] lists(after, name, m)
            &&& lists(after, name, l) ==> {
                &&& after[l].1.created_at == at
                &&& after[l].1.modified_at == at
                &&& after[l].1.size == data.len()
            }
        }),
{
    law_listing_is_true(w, name);
}

/// Content takes as many blocks as it needs and no more: the last data block holds
/// some of it, and so does the last index block of what eight blocks in the entry
/// itself cannot hold.
pub proof fn law_no_more_blocks_than_needed(v: VaultModel, size: int)
    requires
        v.header.block_size >= model::MIN_BLOCK_SIZE,
        0 <= size,
    ensures
        ({
            let chunk = v.header.chunk_len();
            let p = v.plan(size);
            &&& size == 0 <==> p.total() == 0
            &&& size > 0 ==> (p.data - 1) * chunk < size <= p.data * chunk
            &&& p.data <= 8 <==> p.index == 0
            &&& p.data > 8 ==> (p.index - 1) * v.header.index_capacity() < p.data - 8 <= p.index
                * v.header.index_capacity()
        }),
{
    let chunk = v.header.chunk_len();
    let p = v.plan(size);
    if size > 0 {
        lemma_rounded_up(size, chunk);
    }
    if p.data > 8 {
        lemma_rounded_up(p.data - 8, v.header.index_capacity());
    }
}

proof fn lemma_rounded_up(n: int, d: int)
    requires
        0 < n,
        0 < d,
    ensures
        0 < model::ceil_div(n, d),
        (model::ceil_div(n, d) - 1) * d < n <= model::ceil_div(n, d) * d,
{
    let q = n / d;
    let r = n % d;
    assert(n == q * d + r && 0 <= r < d) by (nonlinear_arith)
        requires
            0 < d,
            q == n / d,
            r == n % d,
    ;
    assert((q - 1) * d == q * d - d && (q + 1) * d == q * d + d) by (nonlinear_arith);
    assert(q >= 0 && (r == 0 ==> q > 0)) by (nonlinear_arith)
        requires
            0 < d,
            0 < n,
            n == q * d + r,
            0 <= r < d,
    ;
}

} // verus!
