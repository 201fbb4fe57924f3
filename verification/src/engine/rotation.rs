//! What revoking a peer promises: every file stays readable, under a key that
//! the password and every remaining recipient can still unwrap, and that the
//! revoked peer was never given.

use vstd::prelude::*;

use super::bytes;
use super::crypto;
use super::error::Fault;
use super::format::HeaderModel;
use super::health;
use super::identity::Keys;
use super::image;
use super::laws;
use super::model::{self, VaultModel};
use super::records::{self, ChainOp, EntryModel, SlotModel};
use super::replay;
use super::sharing;
use super::vault;

verus! {

/// Recipient slot `i` is granted in `w` as it was in `v`, except for the copy
/// of the content key.
pub open spec fn still_granted(v: VaultModel, w: VaultModel, i: int) -> bool {
    w.recipient(i) is Ok && w.recipient(i)->Ok_0 == SlotModel {
        wrapped_dek: w.recipient(i)->Ok_0.wrapped_dek,
        ..v.recipient(i)->Ok_0
    }
}

/// Block `b` of the file `id` is stored as what sealing `p` under the vault's
/// content key gives.
pub open spec fn sealed_as(v: VaultModel, b: u64, id: u128, p: Seq<u8>) -> bool {
    v.image.subrange(
        v.header.block_at(b as int),
        v.header.block_at(b as int) + v.header.block_size,
    ) == model::framed(v.key, v.header.block_size as nat, p, id, b)
}

/// Every block of every file is sealed under the vault's present content key.
pub open spec fn all_sealed(v: VaultModel) -> bool {
    forall|i: int, k: int|
        #![trigger v.live(i), v.held(v.entry(i))[k]]
        v.live(i) && 0 <= k < v.held(v.entry(i)).len() ==> sealed_as(
            v,
            v.held(v.entry(i))[k],
            v.entry(i).id,
            v.block(v.held(v.entry(i))[k], v.entry(i).id)->Ok_0,
        )
}

/// What revoking a peer promises of a healthy vault.
pub open spec fn revoked(
    v: VaultModel,
    w: VaultModel,
    signing: Seq<u8>,
    password: Seq<u8>,
) -> bool {
    &&& w.healthy()
    &&& health::advances(v, w)
    &&& replay::keeps_lead(v, w)
    &&& laws::files_kept(v, w)
    &&& health::same_slots(v, w)
    &&& all_sealed(w)
    &&& w.bitmap == v.bitmap
    &&& w.admin == v.admin
    &&& v.header.same_regions(w.header)
    &&& model::admin_key(w.header, password) == Ok::<Seq<u8>, Fault>(w.key)
    &&& forall|i: int| #[trigger]
        w.grants(i) <==> v.grants(i) && v.recipient(i)->Ok_0.signing_pubkey != signing
    &&& forall|i: int| #[trigger] w.grants(i) ==> still_granted(v, w, i)
}

/// The access of the peer with this signing key can be revoked: the vault was opened
/// by its admin, the peer has access, and a key can be derived from the password.
pub open spec fn revocable(v: VaultModel, signing: Seq<u8>, password: Seq<u8>) -> bool {
    &&& v.admin is Some
    &&& exists|i: int| #[trigger] v.grants(i) && v.recipient(i)->Ok_0.signing_pubkey == signing
    &&& crypto::derived_key(password, v.header.salt, v.header.argon2_params()) is Ok
}

// ---------------------------------------------------------------------
// The blocks in use
// ---------------------------------------------------------------------

/// The plaintexts of one file's blocks.
proof fn lemma_file_plaintexts(v: VaultModel, id: u128, blocks: Seq<u64>, n: int)
    requires
        0 <= n <= blocks.len(),
        v.readable(id, blocks),
    ensures
        v.file_plaintexts(id, blocks, n) is Ok,
        v.file_plaintexts(id, blocks, n)->Ok_0.len() == n,
        forall|k: int|
            0 <= k < n ==> (#[trigger] v.file_plaintexts(id, blocks, n)->Ok_0[k]) == (
                blocks[k],
                id,
                v.block(blocks[k], id)->Ok_0,
            ),
    decreases n,
{
    if n > 0 {
        lemma_file_plaintexts(v, id, blocks, n - 1);
        assert(v.block(blocks[n - 1], id) is Ok);
    }
}

/// `item` is block number `k` of the file in slot `i`, with its plaintext.
pub open spec fn is_block(v: VaultModel, item: (u64, u128, Seq<u8>), i: int, k: int) -> bool {
    &&& v.live(i)
    &&& 0 <= k < v.held(v.entry(i)).len()
    &&& item.0 == v.held(v.entry(i))[k]
    &&& item.1 == v.entry(i).id
    &&& v.block(item.0, item.1) == Ok::<Seq<u8>, Fault>(item.2)
}

/// `item` is a block of one of the first `n` of these files.
pub open spec fn listed(
    v: VaultModel,
    entries: Seq<(int, EntryModel)>,
    n: int,
    item: (u64, u128, Seq<u8>),
) -> bool {
    exists|m: int, k: int| 0 <= m < n && #[trigger] is_block(v, item, entries[m].0, k)
}

/// Block number `k` of the file in slot `i` is among `all`.
pub open spec fn covered(v: VaultModel, all: Seq<(u64, u128, Seq<u8>)>, i: int, k: int) -> bool {
    exists|j: int| 0 <= j < all.len() && is_block(v, #[trigger] all[j], i, k)
}

/// A block belongs to one slot only.
proof fn lemma_one_owner(
    v: VaultModel,
    a: (u64, u128, Seq<u8>),
    i: int,
    k: int,
    b: (u64, u128, Seq<u8>),
    j: int,
    l: int,
)
    requires
        v.files_ok(),
        is_block(v, a, i, k),
        is_block(v, b, j, l),
        i != j || k != l,
    ensures
        a.0 != b.0,
{
    assert(v.live(i) && v.live(j));
    assert(v.sound(v.entry(i)));
    if i != j {
        assert(health::disjoint(v.held(v.entry(i)), v.held(v.entry(j))));
    }
}

/// The plaintexts of all files: each is a block in use, no block comes twice,
/// and no block in use is missing.
pub open spec fn complete(
    v: VaultModel,
    entries: Seq<(int, EntryModel)>,
    n: int,
    all: Seq<(u64, u128, Seq<u8>)>,
) -> bool {
    &&& forall|j: int| 0 <= j < all.len() ==> listed(v, entries, n, #[trigger] all[j])
    &&& forall|i: int, j: int|
        0 <= i < j < all.len() ==> (#[trigger] all[i]).0 != (#[trigger] all[j]).0
    &&& forall|m: int, k: int|
        0 <= m < n && 0 <= k < v.held(v.entry(entries[m].0)).len() ==> #[trigger] covered(
            v,
            all,
            entries[m].0,
            k,
        )
}

/// Exactly the live slots, each with its entry, in ascending order.
pub open spec fn lists_live(v: VaultModel, entries: Seq<(int, EntryModel)>) -> bool {
    &&& forall|k: int|
        0 <= k < entries.len() ==> v.live((#[trigger] entries[k]).0) && entries[k].1 == v.entry(
            entries[k].0,
        )
    &&& forall|k: int, l: int|
        0 <= k < l < entries.len() ==> (#[trigger] entries[k]).0 < (#[trigger] entries[l]).0
}

proof fn lemma_plaintexts(v: VaultModel, entries: Seq<(int, EntryModel)>, n: int)
    requires
        v.files_ok(),
        lists_live(v, entries),
        0 <= n <= entries.len(),
    ensures
        v.plaintexts(entries, n) is Ok,
        complete(v, entries, n, v.plaintexts(entries, n)->Ok_0),
    decreases n,
{
    if n > 0 {
        lemma_plaintexts(v, entries, n - 1);
        let before = v.plaintexts(entries, n - 1)->Ok_0;
        let (slot, e) = entries[n - 1];
        assert(v.live(entries[n - 1].0));
        assert(v.sound(v.entry(slot)));
        let blocks = v.held(e);
        lemma_file_plaintexts(v, e.id, blocks, blocks.len() as int);
        let these = v.file_plaintexts(e.id, blocks, blocks.len() as int)->Ok_0;
        let all = v.plaintexts(entries, n)->Ok_0;
        assert(all == before + these);
        assert forall|k: int| 0 <= k < these.len() implies is_block(
            v,
            #[trigger] these[k],
            slot,
            k,
        ) by {
            assert(v.block(blocks[k], e.id) is Ok);
        }
        lemma_complete_step(v, entries, n, before, these);
    }
}

/// One more file.
proof fn lemma_complete_step(
    v: VaultModel,
    entries: Seq<(int, EntryModel)>,
    n: int,
    before: Seq<(u64, u128, Seq<u8>)>,
    these: Seq<(u64, u128, Seq<u8>)>,
)
    requires
        v.files_ok(),
        lists_live(v, entries),
        0 < n <= entries.len(),
        complete(v, entries, n - 1, before),
        these.len() == v.held(v.entry(entries[n - 1].0)).len(),
        forall|k: int|
            0 <= k < these.len() ==> is_block(v, #[trigger] these[k], entries[n - 1].0, k),
    ensures
        complete(v, entries, n, before + these),
{
    let all = before + these;
    let slot = entries[n - 1].0;
    assert forall|j: int| 0 <= j < all.len() implies listed(v, entries, n, #[trigger] all[j]) by {
        if j < before.len() {
            assert(all[j] == before[j]);
            let (m, k) = choose|m: int, k: int|
                0 <= m < n - 1 && #[trigger] is_block(v, before[j], entries[m].0, k);
            assert(is_block(v, all[j], entries[m].0, k));
        } else {
            assert(all[j] == these[j - before.len()]);
            assert(is_block(v, all[j], entries[n - 1].0, j - before.len()));
        }
    }
    assert forall|i: int, j: int| 0 <= i < j < all.len() implies (#[trigger] all[i]).0 != (
    #[trigger] all[j]).0 by {
        if j < before.len() {
            assert(all[i] == before[i] && all[j] == before[j]);
        } else {
            let l = j - before.len();
            assert(all[j] == these[l]);
            if i < before.len() {
                assert(all[i] == before[i]);
                let (m, k) = choose|m: int, k: int|
                    0 <= m < n - 1 && #[trigger] is_block(v, before[i], entries[m].0, k);
                assert(entries[m].0 < entries[n - 1].0);
                lemma_one_owner(v, all[i], entries[m].0, k, all[j], slot, l);
            } else {
                assert(all[i] == these[i - before.len()]);
                lemma_one_owner(v, all[i], slot, i - before.len(), all[j], slot, l);
            }
        }
    }
    assert forall|m: int, k: int|
        0 <= m < n && 0 <= k < v.held(v.entry(entries[m].0)).len() implies #[trigger] covered(
        v,
        all,
        entries[m].0,
        k,
    ) by {
        if m < n - 1 {
            assert(covered(v, before, entries[m].0, k));
            let j = choose|j: int|
                0 <= j < before.len() && is_block(v, #[trigger] before[j], entries[m].0, k);
            assert(all[j] == before[j]);
        } else {
            assert(all[before.len() + k] == these[k]);
        }
    }
}

// ---------------------------------------------------------------------
// Under the new key
// ---------------------------------------------------------------------

/// The vault after sealing every block in use again: the same slots, every
/// file's blocks read as before, and each is sealed under the new key.
pub open spec fn resealed(v: VaultModel, w: VaultModel) -> bool {
    &&& w.stored()
    &&& w.header == v.header
    &&& w.bitmap == v.bitmap
    &&& w.admin == v.admin
    &&& w.image.len() == v.image.len()
    &&& health::same_slots(v, w)
    &&& health::same_recipients(v, w)
    &&& health::same_records(v, w)
    &&& forall|i: int, k: int|
        #![trigger v.live(i), v.held(v.entry(i))[k]]
        v.live(i) && 0 <= k < v.held(v.entry(i)).len() ==> w.block(
            v.held(v.entry(i))[k],
            v.entry(i).id,
        ) == v.block(v.held(v.entry(i))[k], v.entry(i).id)
    &&& forall|i: int, k: int|
        #![trigger v.live(i), v.held(v.entry(i))[k]]
        v.live(i) && 0 <= k < v.held(v.entry(i)).len() ==> sealed_as(
            w,
            v.held(v.entry(i))[k],
            v.entry(i).id,
            v.block(v.held(v.entry(i))[k], v.entry(i).id)->Ok_0,
        )
}

/// Only the blocks depend on the key.
proof fn lemma_other_key(v: VaultModel, new_key: Seq<u8>)
    requires
        v.stored(),
        new_key.len() == 32,
    ensures
        ({
            let m = VaultModel { key: new_key, ..v };
            &&& m.stored()
            &&& health::same_slots(v, m)
            &&& health::same_recipients(v, m)
            &&& health::same_records(v, m)
        }),
{
    reveal(VaultModel::slot);
    reveal(VaultModel::recipient);
    reveal(VaultModel::record);
}

/// Sealing all plaintexts again under the new key.
proof fn lemma_resealed(
    v: VaultModel,
    entries: Seq<(int, EntryModel)>,
    all: Seq<(u64, u128, Seq<u8>)>,
    new_key: Seq<u8>,
)
    requires
        v.stored(),
        v.files_ok(),
        new_key.len() == 32,
        lists_live(v, entries),
        forall|i: int| #[trigger]
            v.live(i) ==> exists|m: int|
                0 <= m < entries.len() && #[trigger] entries[m] == (i, v.entry(i)),
        complete(v, entries, entries.len() as int, all),
        model::all_open(all, new_key, v.header.chunk_len()),
    ensures
        resealed(v, VaultModel { key: new_key, ..v }.with_blocks(all, all.len() as int)),
{
    let m = VaultModel { key: new_key, ..v };
    let n = all.len() as int;
    let w = m.with_blocks(all, n);
    lemma_other_key(v, new_key);
    assert forall|j: int| 0 <= j < all.len() implies (#[trigger] all[j]).0 < m.header.block_count
        && all[j].2.len() <= m.header.chunk_len() && model::opens(
        m.key,
        all[j].1,
        all[j].0,
        all[j].2,
    ) by {
        assert(listed(v, entries, entries.len() as int, all[j]));
        let (i, k) = choose|i: int, k: int|
            0 <= i < entries.len() && #[trigger] is_block(v, all[j], entries[i].0, k);
        assert(v.sound(v.entry(entries[i].0)));
    }
    assert(health::storable(m, all));
    health::lemma_blocks_write(m, all, n);
    lemma_sealed_blocks(m, all, n);
    assert forall|i: int| 0 <= i < v.header.max_files implies #[trigger] w.slot(i) == v.slot(i) by {
        assert(w.slot(i) == m.slot(i));
        assert(m.slot(i) == v.slot(i));
    }
    assert forall|i: int| 0 <= i < v.header.max_recipients implies #[trigger] w.recipient(i)
        == v.recipient(i) by {
        assert(w.recipient(i) == m.recipient(i));
        assert(m.recipient(i) == v.recipient(i));
    }
    assert forall|s: int| 0 <= s implies #[trigger] w.record(s) == v.record(s) by {
        assert(w.record(s) == m.record(s));
        assert(m.record(s) == v.record(s));
    }
    assert forall|i: int, k: int|
        #![trigger v.live(i), v.held(v.entry(i))[k]]
        v.live(i) && 0 <= k < v.held(v.entry(i)).len() implies w.block(
        v.held(v.entry(i))[k],
        v.entry(i).id,
    ) == v.block(v.held(v.entry(i))[k], v.entry(i).id) by {
        let p = choose|p: int|
            0 <= p < entries.len() && #[trigger] entries[p] == (i, v.entry(i));
        assert(covered(v, all, entries[p].0, k));
        let j = choose|j: int| 0 <= j < all.len() && is_block(v, #[trigger] all[j], i, k);
        assert(w.block(all[j].0, all[j].1) == Ok::<Seq<u8>, Fault>(all[j].2));
    }
    assert forall|i: int, k: int|
        #![trigger v.live(i), v.held(v.entry(i))[k]]
        v.live(i) && 0 <= k < v.held(v.entry(i)).len() implies sealed_as(
        w,
        v.held(v.entry(i))[k],
        v.entry(i).id,
        v.block(v.held(v.entry(i))[k], v.entry(i).id)->Ok_0,
    ) by {
        let p = choose|p: int|
            0 <= p < entries.len() && #[trigger] entries[p] == (i, v.entry(i));
        assert(covered(v, all, entries[p].0, k));
        let j = choose|j: int| 0 <= j < all.len() && is_block(v, #[trigger] all[j], i, k);
        assert(sealed_as(w, all[j].0, all[j].1, all[j].2));
    }
}

// ---------------------------------------------------------------------
// Wrapping the new key
// ---------------------------------------------------------------------

/// The vault with the key wrapped again in every granted slot below `n`.
pub open spec fn rewrapped(v: VaultModel, w: VaultModel, wraps: Seq<Seq<u8>>, n: int) -> bool {
    &&& w.stored()
    &&& w.header == v.header
    &&& w.bitmap == v.bitmap
    &&& w.admin == v.admin
    &&& health::alike(v, w)
    &&& health::same_slots(v, w)
    &&& health::same_records(v, w)
    &&& health::same_blocks_but(v, w, Seq::empty())
    &&& forall|i: int|
        0 <= i < v.header.max_recipients ==> #[trigger] w.recipient(i) == (if i < n && v.grants(
            i,
        ) {
            Ok(SlotModel { wrapped_dek: wraps[i], ..v.recipient(i)->Ok_0 })
        } else {
            v.recipient(i)
        })
}

proof fn lemma_rewrapping(v: VaultModel, wraps: Seq<Seq<u8>>, n: int)
    requires
        v.stored(),
        0 <= n <= v.header.max_recipients,
        forall|i: int|
            0 <= i < v.header.max_recipients ==> (#[trigger] v.recipient(i)) is Ok,
        forall|i: int| #[trigger] v.grants(i) ==> v.recipient(i)->Ok_0.fits(),
        v.rewraps(wraps, v.header.max_recipients as int),
    ensures
        v.rewrapping(wraps, n).1 is Ok,
        rewrapped(v, v.rewrapping(wraps, n).0, wraps, n),
        forall|i: int| #[trigger]
            v.grants(i) && i < n ==> wraps[i].len() == 92 && crypto::unwraps_for(
                wraps[i],
                v.recipient(i)->Ok_0.encryption_pubkey,
                v.key,
            ),
    decreases n,
{
    if n > 0 {
        lemma_rewrapping(v, wraps, n - 1);
        let u = v.rewrapping(wraps, n - 1).0;
        let w = v.rewrapping(wraps, n).0;
        let i = n - 1;
        assert(u.recipient(i) == v.recipient(i));
        assert(v.recipient(i) is Ok);
        if v.grants(i) {
            assert(v.rewrapping(wraps, i).0.recipient(i) == v.recipient(i));
            assert(wraps[i].len() == 92);
            let s = SlotModel { wrapped_dek: wraps[i], ..v.recipient(i)->Ok_0 };
            health::lemma_recipient_write(u, i, s);
            assert(w == u.with_recipient(i, s));
            lemma_rewrapped_step(v, u, w, wraps, n, s);
        } else {
            assert(w == u);
        }
    }
}

/// One more slot.
proof fn lemma_rewrapped_step(
    v: VaultModel,
    u: VaultModel,
    w: VaultModel,
    wraps: Seq<Seq<u8>>,
    n: int,
    s: SlotModel,
)
    requires
        0 < n <= v.header.max_recipients,
        rewrapped(v, u, wraps, n - 1),
        v.grants(n - 1),
        s == (SlotModel { wrapped_dek: wraps[n - 1], ..v.recipient(n - 1)->Ok_0 }),
        w == u.with_recipient(n - 1, s),
        w.stored(),
        health::alike(u, w),
        health::same_slots(u, w),
        w.recipient(n - 1) == Ok::<SlotModel, Fault>(s),
        forall|j: int|
            0 <= j < u.header.max_recipients && j != n - 1 ==> #[trigger] w.recipient(j)
                == u.recipient(j),
        health::same_records(u, w),
        health::same_blocks_but(u, w, Seq::empty()),
    ensures
        rewrapped(v, w, wraps, n),
{
    assert forall|i: int| 0 <= i < v.header.max_files implies #[trigger] w.slot(i) == v.slot(i) by {
        assert(w.slot(i) == u.slot(i));
        assert(u.slot(i) == v.slot(i));
    }
    assert forall|t: int| 0 <= t implies #[trigger] w.record(t) == v.record(t) by {
        assert(w.record(t) == u.record(t));
        assert(u.record(t) == v.record(t));
    }
    assert forall|b: u64, id: u128|
        b < v.header.block_count && !Seq::<u64>::empty().contains(b) implies #[trigger] w.block(
        b,
        id,
    ) == v.block(b, id) by {
        assert(w.block(b, id) == u.block(b, id));
        assert(u.block(b, id) == v.block(b, id));
    }
    assert forall|i: int| 0 <= i < v.header.max_recipients implies #[trigger] w.recipient(i) == (
    if i < n && v.grants(i) {
        Ok(SlotModel { wrapped_dek: wraps[i], ..v.recipient(i)->Ok_0 })
    } else {
        v.recipient(i)
    }) by {
        assert(u.recipient(i) == (if i < n - 1 && v.grants(i) {
            Ok(SlotModel { wrapped_dek: wraps[i], ..v.recipient(i)->Ok_0 })
        } else {
            v.recipient(i)
        }));
        if i != n - 1 {
            assert(w.recipient(i) == u.recipient(i));
        }
    }
}

// ---------------------------------------------------------------------
// Revoking
// ---------------------------------------------------------------------

/// The recipients after clearing slot `i` and wrapping the key again for all
/// others.
proof fn lemma_remaining(
    v: VaultModel,
    x: VaultModel,
    w: VaultModel,
    wraps: Seq<Seq<u8>>,
    i: int,
    signing: Seq<u8>,
)
    requires
        v.recipients_ok(),
        v.grants(i),
        v.recipient(i)->Ok_0.signing_pubkey == signing,
        x.header.max_recipients == v.header.max_recipients,
        w.header.max_recipients == v.header.max_recipients,
        x.recipient(i) == Ok::<SlotModel, Fault>(SlotModel::empty()),
        forall|j: int|
            0 <= j < v.header.max_recipients && j != i ==> #[trigger] x.recipient(j)
                == v.recipient(j),
        forall|j: int|
            0 <= j < v.header.max_recipients ==> #[trigger] w.recipient(j) == (if x.grants(j) {
                Ok(SlotModel { wrapped_dek: wraps[j], ..x.recipient(j)->Ok_0 })
            } else {
                x.recipient(j)
            }),
        forall|j: int| #[trigger]
            x.grants(j) ==> wraps[j].len() == 92 && crypto::unwraps_for(
                wraps[j],
                x.recipient(j)->Ok_0.encryption_pubkey,
                w.key,
            ),
    ensures
        w.recipients_ok(),
        forall|j: int| #[trigger]
            w.grants(j) <==> v.grants(j) && v.recipient(j)->Ok_0.signing_pubkey != signing,
        forall|j: int| #[trigger] w.grants(j) ==> still_granted(v, w, j),
{
    records::law_empty_slot();
    assert(!x.grants(i));
    assert forall|j: int| #[trigger] w.grants(j) implies v.grants(j) && j != i && x.grants(j)
        && w.recipient(j) == Ok::<SlotModel, Fault>(
        SlotModel { wrapped_dek: wraps[j], ..v.recipient(j)->Ok_0 },
    ) by {
        assert(w.recipient(j) == (if x.grants(j) {
            Ok(SlotModel { wrapped_dek: wraps[j], ..x.recipient(j)->Ok_0 })
        } else {
            x.recipient(j)
        }));
        if j != i {
            assert(x.recipient(j) == v.recipient(j));
        }
    }
    assert forall|j: int| 0 <= j < w.header.max_recipients implies (#[trigger] w.recipient(
        j,
    )) is Ok by {
        if j != i {
            assert(x.recipient(j) == v.recipient(j));
            assert(v.recipient(j) is Ok);
        }
    }
    assert forall|j: int| #[trigger] w.grants(j) <==> v.grants(j) && v.recipient(
        j,
    )->Ok_0.signing_pubkey != signing by {
        if w.grants(j) {
            assert(v.grants(j) && v.grants(i));
        }
        if v.grants(j) && v.recipient(j)->Ok_0.signing_pubkey != signing {
            assert(x.recipient(j) == v.recipient(j));
            assert(x.grants(j));
            assert(w.recipient(j) == Ok::<SlotModel, Fault>(
                SlotModel { wrapped_dek: wraps[j], ..x.recipient(j)->Ok_0 },
            ));
        }
    }
    assert forall|j: int| #[trigger] w.grants(j) implies w.recipient(j)->Ok_0.fits()
        && w.recipient(j)->Ok_0.wrapped_dek.len() == 92 && crypto::unwraps_for(
        w.recipient(j)->Ok_0.wrapped_dek,
        w.recipient(j)->Ok_0.encryption_pubkey,
        w.key,
    ) by {
        assert(v.grants(j) && x.grants(j));
        assert(x.recipient(j) == v.recipient(j));
    }
    assert forall|j: int, k: int|
        #![trigger w.grants(j), w.grants(k)]
        w.grants(j) && w.grants(k) && j != k implies w.recipient(j)->Ok_0.signing_pubkey
        != w.recipient(k)->Ok_0.signing_pubkey by {
        assert(v.grants(j) && v.grants(k));
    }
}

/// The files after sealing every block again and then writing nothing more to
/// slots and blocks.
proof fn lemma_rotated_files(
    v: VaultModel,
    r: VaultModel,
    x: VaultModel,
    y: VaultModel,
    z: VaultModel,
    t: VaultModel,
)
    requires
        v.files_ok(),
        resealed(v, r),
        health::alike(r, x),
        health::same_slots(r, x),
        health::same_blocks_but(r, x, Seq::empty()),
        health::alike(x, y),
        health::same_slots(x, y),
        health::same_blocks_but(x, y, Seq::empty()),
        health::alike(y, z),
        health::same_slots(y, z),
        health::same_blocks_but(y, z, Seq::empty()),
        health::alike(z, t),
        health::same_slots(z, t),
        health::same_blocks_but(z, t, Seq::empty()),
        t.bitmap == v.bitmap,
    ensures
        t.files_ok(),
        laws::files_kept(v, t),
        health::same_slots(v, t),
        forall|i: int| #[trigger] t.live(i) ==> v.live(i) && t.held(t.entry(i)) == v.held(v.entry(i)),
        forall|i: int, k: int|
            #![trigger v.live(i), v.held(v.entry(i))[k]]
            v.live(i) && 0 <= k < v.held(v.entry(i)).len() ==> t.block(
                v.held(v.entry(i))[k],
                v.entry(i).id,
            ) == v.block(v.held(v.entry(i))[k], v.entry(i).id),
{
    assert forall|i: int| 0 <= i < v.header.max_files implies #[trigger] t.slot(i) == v.slot(i) by {
        assert(t.slot(i) == z.slot(i));
        assert(z.slot(i) == y.slot(i));
        assert(y.slot(i) == x.slot(i));
        assert(x.slot(i) == r.slot(i));
        assert(r.slot(i) == v.slot(i));
    }
    assert forall|i: int, k: int|
        #![trigger v.live(i), v.held(v.entry(i))[k]]
        v.live(i) && 0 <= k < v.held(v.entry(i)).len() implies t.block(
        v.held(v.entry(i))[k],
        v.entry(i).id,
    ) == v.block(v.held(v.entry(i))[k], v.entry(i).id) by {
        assert(v.sound(v.entry(i)));
        let b = v.held(v.entry(i))[k];
        let id = v.entry(i).id;
        assert(!Seq::<u64>::empty().contains(b));
        assert(t.block(b, id) == z.block(b, id));
        assert(z.block(b, id) == y.block(b, id));
        assert(y.block(b, id) == x.block(b, id));
        assert(x.block(b, id) == r.block(b, id));
        assert(r.block(b, id) == v.block(b, id));
    }
    sharing::lemma_files_same(v, t);
    assert forall|i: int| #[trigger] t.live(i) implies v.live(i) && t.held(t.entry(i)) == v.held(
        v.entry(i),
    ) by {
        assert(v.live(i));
        assert(t.slot(i) == v.slot(i));
        assert(v.sound(v.entry(i)));
        health::lemma_file_alike(v, t, v.entry(i));
    }
}

/// With one slot cleared, every other recipient can be given the new key.
proof fn lemma_rekeyable(
    v: VaultModel,
    r: VaultModel,
    x: VaultModel,
    wraps: Seq<Seq<u8>>,
    i: int,
)
    requires
        v.healthy(),
        v.grants(i),
        resealed(v, r),
        x == r.with_recipient(i, SlotModel::empty()),
        x.rewraps(wraps, v.header.max_recipients as int),
    ensures
        x.stored(),
        health::alike(r, x),
        health::same_slots(r, x),
        health::same_records(r, x),
        health::same_blocks_but(r, x, Seq::empty()),
        x.recipient(i) == Ok::<SlotModel, Fault>(SlotModel::empty()),
        forall|j: int|
            0 <= j < v.header.max_recipients && j != i ==> #[trigger] x.recipient(j)
                == v.recipient(j),
        x.rewrapping(wraps, v.header.max_recipients as int).1 is Ok,
        rewrapped(
            x,
            x.rewrapping(wraps, v.header.max_recipients as int).0,
            wraps,
            v.header.max_recipients as int,
        ),
        same_data(x, x.rewrapping(wraps, v.header.max_recipients as int).0),
        forall|j: int| #[trigger]
            x.grants(j) ==> wraps[j].len() == 92 && crypto::unwraps_for(
                wraps[j],
                x.recipient(j)->Ok_0.encryption_pubkey,
                x.key,
            ),
{
    let n = v.header.max_recipients as int;
    health::lemma_recipient_write(r, i, SlotModel::empty());
    records::law_empty_slot();
    assert forall|j: int| 0 <= j < n && j != i implies #[trigger] x.recipient(j) == v.recipient(
        j,
    ) by {
        assert(x.recipient(j) == r.recipient(j));
        assert(r.recipient(j) == v.recipient(j));
    }
    assert forall|j: int| 0 <= j < n implies (#[trigger] x.recipient(j)) is Ok by {
        if j != i {
            assert(x.recipient(j) == v.recipient(j));
            assert(v.recipient(j) is Ok);
        }
    }
    assert forall|j: int| #[trigger] x.grants(j) implies x.recipient(j)->Ok_0.fits() by {
        if j != i {
            assert(x.recipient(j) == v.recipient(j));
            assert(v.grants(j));
        }
    }
    lemma_rewrapping(x, wraps, n);
    lemma_rewrapping_in_front(x, wraps, n);
}

/// What is stored in the blocks is the same.
pub open spec fn same_data(v: VaultModel, w: VaultModel) -> bool {
    forall|b: u64|
        b < v.header.block_count ==> #[trigger] stored_block(w, b) == stored_block(v, b)
}

/// What is stored in block `b`.
pub open spec fn stored_block(v: VaultModel, b: u64) -> Seq<u8> {
    v.image.subrange(
        v.header.block_at(b as int),
        v.header.block_at(b as int) + v.header.block_size,
    )
}

/// A write in front of the blocks leaves them alone.
proof fn lemma_in_front(v: VaultModel, offset: int, data: Seq<u8>)
    requires
        v.shaped(),
        0 <= offset,
        offset + data.len() <= v.header.data_offset,
    ensures
        same_data(v, v.written(offset, data)),
{
    let w = v.written(offset, data);
    health::lemma_places(v.header);
    assert forall|b: u64| b < v.header.block_count implies #[trigger] stored_block(w, b)
        == stored_block(v, b) by {
        let at = v.header.block_at(b as int);
        assert(v.header.data_offset <= at);
        image::lemma_overlaid_elsewhere(v.image, offset, data, at, v.header.block_size as int);
    }
}

/// Wrapping the key again leaves the blocks alone.
proof fn lemma_rewrapping_in_front(v: VaultModel, wraps: Seq<Seq<u8>>, n: int)
    requires
        v.stored(),
        0 <= n <= v.header.max_recipients,
        forall|i: int|
            0 <= i < v.header.max_recipients ==> (#[trigger] v.recipient(i)) is Ok,
        forall|i: int| #[trigger] v.grants(i) ==> v.recipient(i)->Ok_0.fits(),
        v.rewraps(wraps, v.header.max_recipients as int),
    ensures
        same_data(v, v.rewrapping(wraps, n).0),
    decreases n,
{
    if n > 0 {
        lemma_rewrapping_in_front(v, wraps, n - 1);
        lemma_rewrapping(v, wraps, n - 1);
        lemma_rewrapping(v, wraps, n);
        let u = v.rewrapping(wraps, n - 1).0;
        let w = v.rewrapping(wraps, n).0;
        assert(u.recipient(n - 1) == v.recipient(n - 1));
        if v.grants(n - 1) {
            let s = SlotModel { wrapped_dek: wraps[n - 1], ..v.recipient(n - 1)->Ok_0 };
            assert(w == u.with_recipient(n - 1, s));
            lemma_slot_in_front(u, n - 1, s);
            assert forall|b: u64| b < v.header.block_count implies #[trigger] stored_block(w, b)
                == stored_block(v, b) by {
                assert(stored_block(w, b) == stored_block(u, b));
                assert(stored_block(u, b) == stored_block(v, b));
            }
        }
    }
}

proof fn lemma_slot_in_front(v: VaultModel, i: int, s: SlotModel)
    requires
        v.shaped(),
        0 <= i < v.header.max_recipients,
        s.fits(),
    ensures
        same_data(v, v.with_recipient(i, s)),
{
    let h = v.header;
    records::lemma_slot_len(s);
    health::lemma_places(h);
    assert(h.recipient_offset <= h.recipient_at(i));
    assert(h.max_chain_records * h.chain_record_size >= 0) by (nonlinear_arith);
    lemma_in_front(v, h.recipient_at(i), s.encoded());
}

/// Appending a record leaves the blocks alone.
proof fn lemma_record_in_front(
    v: VaultModel,
    op: ChainOp,
    target: u128,
    hash: Seq<u8>,
    at: i64,
)
    requires
        v.stored(),
        v.admin_ok(),
        v.admin is Some,
        hash.len() == 32,
        v.header.chain_next_seq < u64::MAX,
    ensures
        same_data(v, v.with_record(op, target, hash, at)),
{
    let h = v.header;
    let n = h.chain_next_seq as int;
    let rec = v.next_record(op, target, hash, at);
    health::lemma_places(h);
    health::lemma_total(h);
    records::lemma_record_len(rec);
    assert(h.chain_offset <= h.record_at(n));
    lemma_in_front(v, h.record_at(n), rec.encoded());
    health::lemma_record_write(v, n, rec);
    let a = v.written(h.record_at(n), rec.encoded());
    let h2 = HeaderModel { chain_next_seq: (n + 1) as u64, chain_last_hash: rec.record_hash, ..h };
    lemma_header_in_front(a, h2);
    let w = v.with_record(op, target, hash, at);
    assert forall|b: u64| b < h.block_count implies #[trigger] stored_block(w, b) == stored_block(
        v,
        b,
    ) by {
        assert(stored_block(w, b) == stored_block(a, b));
        assert(stored_block(a, b) == stored_block(v, b));
    }
}

proof fn lemma_header_in_front(v: VaultModel, h: HeaderModel)
    requires
        v.stored(),
        v.header.same_regions(h),
        h.fits(),
    ensures
        same_data(v, v.with_stored_header(h)),
{
    let m = VaultModel { header: h, ..v };
    let w = v.with_stored_header(h);
    reveal(HeaderModel::fills_capacity);
    assert(h.in_order());
    super::format::lemma_body_len(h);
    health::lemma_total(h);
    lemma_in_front(m, 0, h.encoded());
    assert(w == m.written(0, h.encoded()));
    assert forall|b: u64| b < v.header.block_count implies #[trigger] stored_block(w, b)
        == stored_block(v, b) by {
        assert(stored_block(w, b) == stored_block(m, b));
    }
}

/// Sealed blocks are stored as they were sealed.
proof fn lemma_sealed_blocks(m: VaultModel, all: Seq<(u64, u128, Seq<u8>)>, n: int)
    requires
        m.shaped(),
        health::storable(m, all),
        0 <= n <= all.len(),
    ensures
        forall|j: int|
            0 <= j < n ==> sealed_as(
                m.with_blocks(all, n),
                (#[trigger] all[j]).0,
                all[j].1,
                all[j].2,
            ),
    decreases n,
{
    if n > 0 {
        lemma_sealed_blocks(m, all, n - 1);
        health::lemma_blocks_write(m, all, n - 1);
        let h = m.header;
        let u = m.with_blocks(all, n - 1);
        let w = m.with_blocks(all, n);
        let (b, id, p) = all[n - 1];
        let data = model::framed(u.key, h.block_size as nat, p, id, b);
        assert(all[n - 1].0 < h.block_count);
        health::lemma_framed(u.key, h.block_size as nat, p, id, b);
        health::lemma_places(h);
        assert(h.data_offset <= h.block_at(b as int));
        image::lemma_overlaid_there(u.image, h.block_at(b as int), data);
        assert forall|j: int| 0 <= j < n implies sealed_as(
            w,
            (#[trigger] all[j]).0,
            all[j].1,
            all[j].2,
        ) by {
            if j < n - 1 {
                let c = all[j].0;
                assert(c != b);
                assert(h.data_offset <= h.block_at(c as int));
                health::lemma_apart(c as int, b as int, h.block_size as int);
                image::lemma_overlaid_elsewhere(
                    u.image,
                    h.block_at(b as int),
                    data,
                    h.block_at(c as int),
                    h.block_size as int,
                );
                assert(sealed_as(u, c, all[j].1, all[j].2));
            }
        }
    }
}

/// Sealing blocks again stores no header.
proof fn lemma_calm_blocks(v: VaultModel, m: VaultModel, all: Seq<(u64, u128, Seq<u8>)>, n: int)
    requires
        m.header.in_order(),
        replay::calm(v, m),
        0 <= n <= all.len(),
        forall|j: int| 0 <= j < all.len() ==> (#[trigger] all[j]).0 < m.header.block_count,
    ensures
        replay::calm(v, m.with_blocks(all, n)),
        m.with_blocks(all, n).header == m.header,
        m.with_blocks(all, n).key == m.key,
    decreases n,
{
    if n > 0 {
        lemma_calm_blocks(v, m, all, n - 1);
        let u = m.with_blocks(all, n - 1);
        let (b, id, p) = all[n - 1];
        health::lemma_places(m.header);
        health::lemma_total(m.header);
        assert(all[n - 1].0 < m.header.block_count);
        assert(m.header.data_offset <= m.header.block_at(b as int));
        replay::lemma_calm_write(
            v,
            u,
            m.header.block_at(b as int),
            model::framed(u.key, m.header.block_size as nat, p, id, b),
        );
    }
}

/// Nor does wrapping the key again.
proof fn lemma_calm_rewrapping(v: VaultModel, x: VaultModel, wraps: Seq<Seq<u8>>, n: int)
    requires
        x.header.in_order(),
        replay::calm(v, x),
        0 <= n <= x.header.max_recipients,
    ensures
        replay::calm(v, x.rewrapping(wraps, n).0),
        x.rewrapping(wraps, n).0.header == x.header,
    decreases n,
{
    if n > 0 {
        lemma_calm_rewrapping(v, x, wraps, n - 1);
        let u = x.rewrapping(wraps, n - 1).0;
        lemma_calm_recipient(v, u, n - 1, SlotModel {
            wrapped_dek: wraps[n - 1],
            ..u.recipient(n - 1)->Ok_0
        });
    }
}

proof fn lemma_calm_recipient(v: VaultModel, x: VaultModel, i: int, s: SlotModel)
    requires
        x.header.in_order(),
        replay::calm(v, x),
        0 <= i < x.header.max_recipients,
    ensures
        replay::calm(v, x.with_recipient(i, s)),
{
    health::lemma_places(x.header);
    health::lemma_total(x.header);
    assert(x.header.recipient_offset <= x.header.recipient_at(i));
    assert(x.header.max_files * x.header.entry_size >= 0) by (nonlinear_arith);
    replay::lemma_calm_write(v, x, x.header.recipient_at(i), s.encoded());
}

/// Whatever is written after the blocks were sealed again leaves them alone.
proof fn lemma_still_sealed(
    v: VaultModel,
    r: VaultModel,
    x: VaultModel,
    y: VaultModel,
    z: VaultModel,
    t: VaultModel,
    i: int,
)
    requires
        v.files_ok(),
        resealed(v, r),
        0 <= i < v.header.max_recipients,
        x == r.with_recipient(i, SlotModel::empty()),
        x.header == r.header,
        same_data(x, y),
        y.header == x.header,
        same_data(y, z),
        y.header.same_regions(z.header),
        same_data(z, t),
        z.header.same_regions(t.header),
        t.key == r.key,
        health::same_slots(v, t),
        forall|j: int| #[trigger] t.live(j) ==> v.live(j) && t.held(t.entry(j)) == v.held(v.entry(j)),
        forall|j: int, k: int|
            #![trigger v.live(j), v.held(v.entry(j))[k]]
            v.live(j) && 0 <= k < v.held(v.entry(j)).len() ==> t.block(
                v.held(v.entry(j))[k],
                v.entry(j).id,
            ) == v.block(v.held(v.entry(j))[k], v.entry(j).id),
    ensures
        all_sealed(t),
{
    records::law_empty_slot();
    lemma_slot_in_front(r, i, SlotModel::empty());
    assert forall|j: int, k: int|
        #![trigger t.live(j), t.held(t.entry(j))[k]]
        t.live(j) && 0 <= k < t.held(t.entry(j)).len() implies sealed_as(
        t,
        t.held(t.entry(j))[k],
        t.entry(j).id,
        t.block(t.held(t.entry(j))[k], t.entry(j).id)->Ok_0,
    ) by {
        assert(t.slot(j) == v.slot(j));
        let b = v.held(v.entry(j))[k];
        assert(v.live(j) && v.sound(v.entry(j)));
        assert((b as int) < v.header.block_count);
        assert(stored_block(t, b) == stored_block(z, b));
        assert(stored_block(z, b) == stored_block(y, b));
        assert(stored_block(y, b) == stored_block(x, b));
        assert(stored_block(x, b) == stored_block(r, b));
    }
}

/// Wrapping the key again, for recipients and password, and recording it.
proof fn lemma_rekeyed(
    v: VaultModel,
    r: VaultModel,
    x: VaultModel,
    signing: Seq<u8>,
    password: Seq<u8>,
    wraps: Seq<Seq<u8>>,
    nonce: Seq<u8>,
    chained_at: i64,
    i: int,
)
    requires
        v.healthy(),
        v.admin is Some,
        v.header.chain_next_seq < u64::MAX,
        v.grants(i),
        v.recipient(i)->Ok_0.signing_pubkey == signing,
        resealed(v, r),
        x == r.with_recipient(i, SlotModel::empty()),
        x.rekeying(signing, password, wraps, nonce, chained_at).1 is Ok,
        x.rekey_opens(signing, password, wraps, nonce, chained_at),
        replay::calm(v, x),
        replay::keeps_trace(v, x.rekeying(signing, password, wraps, nonce, chained_at).0),
    ensures
        revoked(v, x.rekeying(signing, password, wraps, nonce, chained_at).0, signing, password),
        x.rekeying(signing, password, wraps, nonce, chained_at).0.key == x.key,
        health::tells(
            v,
            x.rekeying(signing, password, wraps, nonce, chained_at).0,
            ChainOp::KeyRotated,
            model::peer_target(signing),
            crypto::sha256_of(signing)@,
            chained_at,
        ),
{
    let n = v.header.max_recipients as int;
    let target = model::peer_target(signing);
    let hash = crypto::sha256_of(signing)@;
    lemma_rekeyable(v, r, x, wraps, i);
    let y = x.rewrapping(wraps, n).0;
    let kek = crypto::derived_key(password, y.header.salt, y.header.argon2_params())->Ok_0;
    let slot = nonce + crypto::gcm_sealed(
        kek,
        nonce,
        bytes::text(model::ADMIN_KEY_SLOT_AAD@),
        y.key,
    );
    let h = HeaderModel { admin_key_slot: slot, ..y.header };
    let z = y.with_stored_header(h);
    health::lemma_header_write(y, h);
    let t = x.rekeying(signing, password, wraps, nonce, chained_at).0;
    assert(t == z.with_record(ChainOp::KeyRotated, target, hash, chained_at));
    assert(health::same_records(v, z)) by {
        assert forall|s: int| 0 <= s implies #[trigger] z.record(s) == v.record(s) by {
            assert(z.record(s) == y.record(s));
            assert(y.record(s) == x.record(s));
            assert(x.record(s) == r.record(s));
            assert(r.record(s) == v.record(s));
        }
    }
    laws::lemma_chain_same(v, z);
    health::lemma_record_append(z, ChainOp::KeyRotated, target, hash, chained_at);
    health::lemma_advances_from(v, z, t);
    lemma_calm_rewrapping(v, x, wraps, n);
    replay::lemma_calm_header(v, y, h);
    replay::lemma_concluded(v, z, ChainOp::KeyRotated, target, hash, chained_at);
    replay::lemma_keeps_lead(v, t);
    lemma_rotated_files(v, r, x, y, z, t);
    lemma_header_in_front(y, h);
    lemma_record_in_front(z, ChainOp::KeyRotated, target, hash, chained_at);
    lemma_still_sealed(v, r, x, y, z, t, i);
    assert forall|j: int| 0 <= j < n implies #[trigger] t.recipient(j) == (if x.grants(j) {
        Ok(SlotModel { wrapped_dek: wraps[j], ..x.recipient(j)->Ok_0 })
    } else {
        x.recipient(j)
    }) by {
        assert(t.recipient(j) == z.recipient(j));
        assert(z.recipient(j) == y.recipient(j));
    }
    assert(t.key == x.key);
    lemma_remaining(v, x, t, wraps, i, signing);
    assert(model::admin_key(t.header, password) == Ok::<Seq<u8>, Fault>(t.key));
}

/// Revoking a peer of a healthy vault keeps its promises.
pub(crate) proof fn lemma_revoking(
    v: VaultModel,
    signing: Seq<u8>,
    password: Seq<u8>,
    new_key: Seq<u8>,
    wraps: Seq<Seq<u8>>,
    nonce: Seq<u8>,
    chained_at: i64,
)
    requires
        v.healthy(),
        v.header.chain_next_seq < u64::MAX,
        new_key.len() == 32,
        v.revoking(signing, password, new_key, wraps, nonce, chained_at).1 is Ok,
        v.revocation_opens(signing, password, new_key, wraps, nonce, chained_at),
        replay::keeps_trace(
            v,
            v.revoking(signing, password, new_key, wraps, nonce, chained_at).0,
        ),
    ensures
        revoked(
            v,
            v.revoking(signing, password, new_key, wraps, nonce, chained_at).0,
            signing,
            password,
        ),
        v.revoking(signing, password, new_key, wraps, nonce, chained_at).0.key == new_key,
        health::tells(
            v,
            v.revoking(signing, password, new_key, wraps, nonce, chained_at).0,
            ChainOp::KeyRotated,
            model::peer_target(signing),
            crypto::sha256_of(signing)@,
            chained_at,
        ),
{
    sharing::lemma_find_recipient(v, signing, 0);
    let (i, s) = v.find_recipient(signing, 0)->Ok_0->Some_0;
    let max = v.header.max_files as int;
    sharing::lemma_live_list(v, max);
    let entries = v.live_entries(max)->Ok_0;
    lemma_plaintexts(v, entries, entries.len() as int);
    let all = v.plaintexts(entries, entries.len() as int)->Ok_0;
    lemma_resealed(v, entries, all, new_key);
    let m = VaultModel { key: new_key, ..v };
    let r = m.with_blocks(all, all.len() as int);
    let x = v.rotated(i, all, new_key);
    assert(x == r.with_recipient(i, SlotModel::empty()));
    assert forall|j: int| 0 <= j < all.len() implies (#[trigger] all[j]).0
        < m.header.block_count by {
        assert(listed(v, entries, entries.len() as int, all[j]));
        let (p, k) = choose|p: int, k: int|
            0 <= p < entries.len() && #[trigger] is_block(v, all[j], entries[p].0, k);
        assert(v.sound(v.entry(entries[p].0)));
    }
    assert(m.log.take(v.log.len() as int) =~= v.log);
    lemma_calm_blocks(v, m, all, all.len() as int);
    lemma_calm_recipient(v, r, i, SlotModel::empty());
    lemma_rekeyed(v, r, x, signing, password, wraps, nonce, chained_at, i);
}

/// Revoking a peer of a healthy vault is refused exactly if the vault was not
/// opened by its admin, the peer has no access, or no key can be derived with
/// the vault's parameters.
pub proof fn law_revoke_succeeds(
    v: VaultModel,
    signing: Seq<u8>,
    password: Seq<u8>,
    new_key: Seq<u8>,
    wraps: Seq<Seq<u8>>,
    nonce: Seq<u8>,
    chained_at: i64,
)
    requires
        v.healthy(),
        new_key.len() == 32,
        v.revocation_opens(signing, password, new_key, wraps, nonce, chained_at),
    ensures
        v.revoking(signing, password, new_key, wraps, nonce, chained_at).1 is Ok <==> {
            &&& v.admin is Some
            &&& exists|i: int| #[trigger]
                v.grants(i) && v.recipient(i)->Ok_0.signing_pubkey == signing
            &&& crypto::derived_key(password, v.header.salt, v.header.argon2_params()) is Ok
        },
{
    sharing::lemma_find_recipient(v, signing, 0);
    if v.admin is Some && v.find_recipient(signing, 0)->Ok_0 is Some {
        let (i, s) = v.find_recipient(signing, 0)->Ok_0->Some_0;
        let max = v.header.max_files as int;
        sharing::lemma_live_list(v, max);
        let entries = v.live_entries(max)->Ok_0;
        lemma_plaintexts(v, entries, entries.len() as int);
        let all = v.plaintexts(entries, entries.len() as int)->Ok_0;
        lemma_resealed(v, entries, all, new_key);
        let r = VaultModel { key: new_key, ..v }.with_blocks(all, all.len() as int);
        let x = v.rotated(i, all, new_key);
        assert(x == r.with_recipient(i, SlotModel::empty()));
        lemma_rekeyable(v, r, x, wraps, i);
        assert(v.grants(i) && v.recipient(i)->Ok_0.signing_pubkey == signing);
    }
}

/// After a peer was revoked, that peer cannot open the vault any more, unless
/// its encryption key is also granted under another signing key.
pub proof fn law_revoked_peer_is_refused(
    v: VaultModel,
    w: VaultModel,
    signing: Seq<u8>,
    password: Seq<u8>,
    peer: Keys,
)
    requires
        v.recipients_ok(),
        revoked(v, w, signing, password),
        forall|i: int| #[trigger]
            v.grants(i) && v.recipient(i)->Ok_0.encryption_pubkey == peer.encryption_public()
                ==> v.recipient(i)->Ok_0.signing_pubkey == signing,
    ensures
        model::opening_as_recipient(w.image, peer) == Err::<VaultModel, Fault>(
            Fault::AccessNotGranted,
        ),
{
    assert forall|i: int| #[trigger] w.grants(i) implies w.recipient(i)->Ok_0.encryption_pubkey
        != peer.encryption_public() by {
        assert(still_granted(v, w, i));
        assert(v.grants(i));
    }
    sharing::law_stranger_is_refused(w, peer);
}

/// After a peer was revoked, every other granted peer still opens the vault,
/// and every file reads as before.
pub proof fn law_remaining_peer_opens(
    v: VaultModel,
    w: VaultModel,
    signing: Seq<u8>,
    password: Seq<u8>,
    peer: Keys,
    i: int,
)
    requires
        v.recipients_ok(),
        revoked(v, w, signing, password),
        peer.wf(),
        v.grants(i),
        v.recipient(i)->Ok_0.encryption_pubkey == peer.encryption_public(),
        v.recipient(i)->Ok_0.signing_pubkey != signing,
    ensures
        model::opening_as_recipient(w.image, peer) is Ok,
        laws::files_kept(v, model::opening_as_recipient(w.image, peer)->Ok_0),
{
    assert(w.grants(i));
    assert(still_granted(v, w, i));
    sharing::law_granted_peer_opens(w, peer);
    sharing::law_reopened_is_healthy(w, None);
}

/// Granting a peer access and revoking it again leaves the other recipients and
/// the files as they were; only the content key is another one.
pub proof fn law_revoke_undoes_grant(
    v: VaultModel,
    w: VaultModel,
    x: VaultModel,
    signing: Seq<u8>,
    encryption: Seq<u8>,
    password: Seq<u8>,
)
    requires
        v.healthy(),
        sharing::granted_to(v, w, signing, encryption),
        revoked(w, x, signing, password),
    ensures
        forall|j: int| #[trigger] x.grants(j) <==> v.grants(j),
        forall|j: int| #[trigger] x.grants(j) ==> still_granted(v, x, j),
        laws::files_kept(v, x),
        health::same_slots(v, x),
        x.bitmap == v.bitmap,
        x.header.chain_next_seq == v.header.chain_next_seq + 2,
{
    let i = choose|i: int| #[trigger]
        w.grants(i) && !v.grants(i) && w.recipient(i)->Ok_0.signing_pubkey == signing
            && forall|j: int|
            0 <= j < v.header.max_recipients && j != i ==> #[trigger] w.recipient(j)
                == v.recipient(j);
    assert forall|j: int| #[trigger] x.grants(j) <==> v.grants(j) by {
        if v.grants(j) {
            assert(w.recipient(j) == v.recipient(j));
            assert(w.grants(j) && w.grants(i));
        }
        if x.grants(j) {
            assert(w.grants(j));
            assert(w.recipient(j) == v.recipient(j));
        }
    }
    assert forall|j: int| #[trigger] x.grants(j) implies still_granted(v, x, j) by {
        assert(w.grants(j) && v.grants(j));
        assert(w.recipient(j) == v.recipient(j));
        assert(still_granted(w, x, j));
    }
    assert forall|n: Seq<char>| #[trigger] x.file(n) == v.file(n) by {
        assert(w.file(n) == v.file(n));
    }
    assert forall|j: int| 0 <= j < v.header.max_files implies #[trigger] x.slot(j) == v.slot(j) by {
        assert(w.slot(j) == v.slot(j));
    }
}

} // verus!
