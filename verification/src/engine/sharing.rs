//! What sharing promises: who can open a vault, what granting and revoking
//! change, and that a healthy vault passes its own check.

use vstd::prelude::*;

use super::allocator;
use super::bytes;
use super::crypto;
use super::error::Fault;
use super::format::HeaderModel;
use super::health;
use super::identity::Keys;
use super::image;
use super::laws;
use super::locality::{self, Reach};
use super::model::{self, VaultModel};
use super::records::{self, ChainOp, EntryModel, RecordModel, SlotModel};
use super::replay;

verus! {

// ---------------------------------------------------------------------
// Opening
// ---------------------------------------------------------------------

/// The stored header and bitmap of a healthy vault read as those in memory.
pub(crate) proof fn lemma_reloads(v: VaultModel)
    requires
        v.stored(),
    ensures
        model::usable_header(v.image) == Ok::<HeaderModel, Fault>(v.header),
        model::bitmap_of(v.image, v.header) == Ok::<Seq<u8>, Fault>(v.bitmap),
{
    let h = v.header;
    health::lemma_places(h);
    health::lemma_total(h);
    super::format::law_header_round_trip(h);
    let off = h.bitmap_offset as int;
    let n = h.bitmap_len as int;
    assert(off + n <= v.image.len()) by {
        assert(h.max_files * h.entry_size >= 0 && h.max_recipients * h.recipient_slot_size >= 0
            && h.max_chain_records * h.chain_record_size >= 0) by (nonlinear_arith);
    }
    let stored = v.image.subrange(off, off + v.bitmap.len());
    let read = v.image.subrange(off, off + n);
    assert(allocator::resized(read, v.bitmap.len()) =~= v.bitmap) by {
        assert forall|i: int| 0 <= i < v.bitmap.len() implies read[i] == v.bitmap[i] by {
            assert(stored[i] == v.bitmap[i]);
        }
    }
}

/// A healthy vault opens with the password that unwraps its content key, and
/// is then the same vault: same header, bitmap, key and bytes. It can be
/// changed exactly if the local identity is its admin's.
pub proof fn law_admin_reopens(v: VaultModel, password: Seq<u8>, local: Keys)
    requires
        v.stored(),
        model::admin_key(v.header, password) == Ok::<Seq<u8>, Fault>(v.key),
    ensures
        model::opening(v.image, password, local) == Ok::<VaultModel, Fault>(
            VaultModel {
                admin: if local.signing_public() == v.header.admin_signing_pubkey {
                    Some(local)
                } else {
                    None
                },
                log: Seq::empty(),
                ..v
            },
        ),
{
    lemma_reloads(v);
}

/// What the search of the keyring finds.
proof fn lemma_keyring(v: VaultModel, encryption: Seq<u8>, from: int)
    requires
        v.recipients_ok(),
        0 <= from,
    ensures
        ({
            let r = model::locked(v.image, v.header).find_keyring_slot(encryption, from);
            &&& r is Ok
            &&& match r->Ok_0 {
                Some(s) => exists|i: int| #[trigger]
                    v.grants(i) && s == v.recipient(i)->Ok_0 && s.encryption_pubkey == encryption,
                None => forall|i: int|
                    from <= i && #[trigger] v.grants(i)
                        ==> v.recipient(i)->Ok_0.encryption_pubkey != encryption,
            }
        }),
    decreases v.header.max_recipients - from,
{
    reveal(VaultModel::recipient);
    let l = model::locked(v.image, v.header);
    if from < v.header.max_recipients {
        assert(v.recipient(from) is Ok);
        assert(l.recipient(from) == v.recipient(from));
        lemma_keyring(v, encryption, from + 1);
        let s = v.recipient(from)->Ok_0;
        if s.occupied() && s.encryption_pubkey == encryption {
            assert(v.grants(from));
        } else {
            if l.find_keyring_slot(encryption, from)->Ok_0 is None {
                assert forall|i: int| from <= i && #[trigger] v.grants(i) implies v.recipient(
                    i,
                )->Ok_0.encryption_pubkey != encryption by {
                    if i == from {
                        assert(v.recipient(i)->Ok_0 == s);
                    }
                }
            }
        }
    }
}

/// A peer whose encryption key is granted opens a healthy vault without the
/// password, and sees the same header, bitmap, key and bytes, but can change
/// nothing.
pub proof fn law_granted_peer_opens(v: VaultModel, peer: Keys)
    requires
        v.healthy(),
        peer.wf(),
        exists|i: int| #[trigger]
            v.grants(i) && v.recipient(i)->Ok_0.encryption_pubkey == peer.encryption_public(),
    ensures
        model::opening_as_recipient(v.image, peer) == Ok::<VaultModel, Fault>(
            VaultModel { admin: None, log: Seq::empty(), ..v },
        ),
{
    lemma_reloads(v);
    lemma_keyring(v, peer.encryption_public(), 0);
    let r = model::locked(v.image, v.header).find_keyring_slot(peer.encryption_public(), 0);
    let i0 = choose|i: int| #[trigger]
        v.grants(i) && v.recipient(i)->Ok_0.encryption_pubkey == peer.encryption_public();
    assert(v.grants(i0));
    let s = r->Ok_0->Some_0;
    let i = choose|i: int| #[trigger]
        v.grants(i) && s == v.recipient(i)->Ok_0 && s.encryption_pubkey
            == peer.encryption_public();
    assert(v.grants(i));
    assert(crypto::unwraps_for(s.wrapped_dek, s.encryption_pubkey, v.key));
    assert(crypto::x25519_public_of(peer.encryption)@ == s.encryption_pubkey);
}

/// A peer whose encryption key is not granted cannot open a healthy vault.
pub proof fn law_stranger_is_refused(v: VaultModel, peer: Keys)
    requires
        v.healthy(),
        forall|i: int| #[trigger]
            v.grants(i) ==> v.recipient(i)->Ok_0.encryption_pubkey != peer.encryption_public(),
    ensures
        model::opening_as_recipient(v.image, peer) == Err::<VaultModel, Fault>(
            Fault::AccessNotGranted,
        ),
{
    lemma_reloads(v);
    lemma_keyring(v, peer.encryption_public(), 0);
}

/// A vault opened under another name for its admin, with an empty log, is as
/// healthy as before.
pub proof fn law_reopened_is_healthy(v: VaultModel, admin: Option<Keys>)
    requires
        v.healthy(),
        admin matches Some(keys) ==> keys.wf() && keys.signing_public()
            == v.header.admin_signing_pubkey,
    ensures
        ({
            let w = VaultModel { admin, log: Seq::empty(), ..v };
            w.healthy() && laws::files_kept(v, w)
        }),
{
    reveal(VaultModel::slot);
    reveal(VaultModel::recipient);
    reveal(VaultModel::record);
    reveal(VaultModel::block);
    let w = VaultModel { admin, log: Seq::empty(), ..v };
    assert forall|i: int| #[trigger] w.slot(i) == v.slot(i) by {}
    assert forall|i: int| #[trigger] w.recipient(i) == v.recipient(i) by {}
    assert forall|s: int| #[trigger] w.record(s) == v.record(s) by {}
    assert forall|b: u64, id: u128| #[trigger] w.block(b, id) == v.block(b, id) by {}
    lemma_files_same(v, w);
    laws::lemma_recipients_same(v, w);
    laws::lemma_chain_same(v, w);
}

/// Whoever has the password opens a healthy vault and reads every file as it is.
/// Only the admin's identity makes changes possible.
pub proof fn law_password_opens(v: VaultModel, password: Seq<u8>, local: Keys)
    requires
        v.healthy(),
        local.wf(),
        model::admin_key(v.header, password) == Ok::<Seq<u8>, Fault>(v.key),
    ensures
        model::opening(v.image, password, local) is Ok,
        ({
            let o = model::opening(v.image, password, local)->Ok_0;
            &&& o.healthy()
            &&& laws::files_kept(v, o)
            &&& o.admin is Some <==> local.signing_public() == v.header.admin_signing_pubkey
        }),
{
    law_admin_reopens(v, password, local);
    let o = model::opening(v.image, password, local)->Ok_0;
    law_reopened_is_healthy(v, o.admin);
}

/// A password is incorrect exactly if the key that is derived from it does not
/// open the admin's copy of the content key. Nothing else of the container is
/// then looked at.
pub proof fn law_incorrect_password_is_refused(
    v: VaultModel,
    password: Seq<u8>,
    other: Seq<u8>,
    local: Keys,
)
    requires
        v.stored(),
        model::admin_key(v.header, password) == Ok::<Seq<u8>, Fault>(v.key),
        other.len() <= crypto::PASSWORD_MAX,
    ensures
        ({
            let h = v.header;
            let kek = crypto::derived_key(other, h.salt, h.argon2_params())->Ok_0;
            let slot = h.admin_key_slot;
            model::opening(v.image, other, local) == Err::<VaultModel, Fault>(
                Fault::IncorrectPassword,
            ) <==> crypto::gcm_opened(
                kek,
                slot.subrange(0, 12),
                bytes::text(model::ADMIN_KEY_SLOT_AAD@),
                slot.subrange(12, slot.len() as int),
            ) is None
        }),
{
    lemma_reloads(v);
}

// ---------------------------------------------------------------------
// Files that read alike
// ---------------------------------------------------------------------

/// If all slots and all blocks of live files read alike and the bitmap is the
/// same, the files are the same.
pub(crate) proof fn lemma_files_same(v: VaultModel, w: VaultModel)
    requires
        v.files_ok(),
        v.header.same_regions(w.header),
        w.image.len() == v.image.len(),
        w.bitmap == v.bitmap,
        health::same_slots(v, w),
        forall|i: int, k: int|
            #![trigger v.live(i), v.held(v.entry(i))[k]]
            v.live(i) && 0 <= k < v.held(v.entry(i)).len() ==> w.block(
                v.held(v.entry(i))[k],
                v.entry(i).id,
            ) == v.block(v.held(v.entry(i))[k], v.entry(i).id),
    ensures
        w.files_ok(),
        laws::files_kept(v, w),
        forall|i: int| #[trigger] w.live(i) <==> v.live(i),
{
    assert forall|i: int| #[trigger] w.live(i) <==> v.live(i) by {
        if 0 <= i < v.header.max_files {
            assert(w.slot(i) == v.slot(i));
        }
    }
    assert forall|i: int| 0 <= i < w.header.max_files implies (#[trigger] w.slot(i)) is Ok by {
        assert(w.slot(i) == v.slot(i));
    }
    assert forall|i: int| #[trigger] v.live(i) implies w.entry(i) == v.entry(i) && w.all_blocks(
        v.entry(i),
    ) == v.all_blocks(v.entry(i)) && w.content(v.entry(i)) == v.content(v.entry(i)) && w.sound(
        w.entry(i),
    ) by {
        assert(w.slot(i) == v.slot(i));
        let e = v.entry(i);
        assert(v.sound(e));
        assert forall|k: int| 0 <= k < v.held(e).len() implies w.block(
            #[trigger] v.held(e)[k],
            e.id,
        ) == v.block(v.held(e)[k], e.id) && v.block(v.held(e)[k], e.id) is Ok by {
            assert(v.live(i));
        }
        health::lemma_file_alike(v, w, e);
    }
    assert forall|i: int| #[trigger] w.live(i) implies w.sound(w.entry(i)) by {
        assert(v.live(i));
    }
    assert forall|i: int, j: int|
        #![trigger w.live(i), w.live(j)]
        w.live(i) && w.live(j) && i != j implies w.entry(i).name != w.entry(j).name
        && health::disjoint(w.held(w.entry(i)), w.held(w.entry(j))) by {
        assert(v.live(i) && v.live(j));
    }
    assert forall|n: Seq<char>| #[trigger] w.file(n) == v.file(n) by {
        laws::lemma_find_file(v, n, 0);
        laws::lemma_find_file(w, n, 0);
        match v.find_file(n, 0)->Ok_0 {
            Some((j, e)) => {
                assert(v.live(j));
                assert(w.live(j));
                laws::lemma_finds(w, j);
            },
            None => {
                match w.find_file(n, 0)->Ok_0 {
                    Some((j, e)) => {
                        assert(v.live(j));
                    },
                    None => {},
                }
            },
        }
    }
}

// ---------------------------------------------------------------------
// Granting
// ---------------------------------------------------------------------

/// What granting access promises of a healthy vault: the peer's slot is there,
/// every other slot and every file is as before, and nothing is written but that
/// slot, the header and one chain record.
pub open spec fn granted_to(
    v: VaultModel,
    w: VaultModel,
    signing: Seq<u8>,
    encryption: Seq<u8>,
) -> bool {
    &&& w.healthy()
    &&& health::advances(v, w)
    &&& replay::keeps_lead(v, w)
    &&& laws::files_kept(v, w)
    &&& health::same_slots(v, w)
    &&& w.key == v.key
    &&& w.admin == v.admin
    &&& v.header.same_regions(w.header)
    &&& w.header.admin_key_slot == v.header.admin_key_slot
    &&& w.bitmap == v.bitmap
    &&& exists|i: int| #[trigger]
        w.grants(i) && !v.grants(i) && w.recipient(i)->Ok_0.signing_pubkey == signing
            && w.recipient(i)->Ok_0.encryption_pubkey == encryption && locality::confined(
            v,
            w,
            Reach { slot: None, peer: Some(i), blocks: Seq::empty() },
        ) && forall|j: int|
            0 <= j < v.header.max_recipients && j != i ==> #[trigger] w.recipient(j)
                == v.recipient(j)
}

/// The peer with this signing key can be granted access: the vault was opened by its
/// admin, the peer has no access yet, and a slot is free.
pub open spec fn grantable(v: VaultModel, signing: Seq<u8>) -> bool {
    &&& v.admin is Some
    &&& forall|i: int| #[trigger]
        v.grants(i) ==> v.recipient(i)->Ok_0.signing_pubkey != signing
    &&& exists|i: int| 0 <= i < v.header.max_recipients && !(#[trigger] v.grants(i))
}

/// The peer with this signing key was granted access at this time.
pub open spec fn granted_since(v: VaultModel, signing: Seq<u8>, at: i64) -> bool {
    v.find_recipient(signing, 0) matches Ok(Some((_, s))) && s.granted_at == at
}

/// What a search for a signing key finds.
pub(crate) proof fn lemma_find_recipient(v: VaultModel, signing: Seq<u8>, from: int)
    requires
        v.recipients_ok(),
        0 <= from,
    ensures
        v.find_recipient(signing, from) is Ok,
        match v.find_recipient(signing, from)->Ok_0 {
            Some((j, s)) => from <= j && v.grants(j) && s == v.recipient(j)->Ok_0
                && s.signing_pubkey == signing,
            None => forall|j: int|
                from <= j && #[trigger] v.grants(j) ==> v.recipient(j)->Ok_0.signing_pubkey
                    != signing,
        },
    decreases v.header.max_recipients - from,
{
    if from < v.header.max_recipients {
        assert(v.recipient(from) is Ok);
        lemma_find_recipient(v, signing, from + 1);
        let s = v.recipient(from)->Ok_0;
        if s.occupied() && s.signing_pubkey == signing {
            assert(v.grants(from));
        } else if v.find_recipient(signing, from)->Ok_0 is None {
            assert forall|j: int| from <= j && #[trigger] v.grants(j) implies v.recipient(
                j,
            )->Ok_0.signing_pubkey != signing by {
                if j == from {
                    assert(v.recipient(j)->Ok_0 == s);
                }
            }
        }
    }
}

proof fn lemma_find_free_recipient(v: VaultModel, from: int)
    requires
        v.recipients_ok(),
        0 <= from,
    ensures
        v.find_free_recipient(from) is Ok,
        match v.find_free_recipient(from)->Ok_0 {
            Some(j) => from <= j < v.header.max_recipients && !v.grants(j),
            None => forall|j: int| from <= j < v.header.max_recipients ==> #[trigger] v.grants(j),
        },
    decreases v.header.max_recipients - from,
{
    if from < v.header.max_recipients {
        assert(v.recipient(from) is Ok);
        lemma_find_free_recipient(v, from + 1);
    }
}

/// Granting access to a healthy vault keeps its promises.
pub(crate) proof fn lemma_granting(
    v: VaultModel,
    signing: Seq<u8>,
    encryption: Seq<u8>,
    wrapped: Seq<u8>,
    at: i64,
    chained_at: i64,
)
    requires
        v.healthy(),
        v.header.chain_next_seq < u64::MAX,
        signing.len() == 32,
        encryption.len() == 32,
        wrapped.len() == 92,
        crypto::unwraps_for(wrapped, encryption, v.key),
        v.granting(signing, encryption, wrapped, at, chained_at).1 is Ok,
        v.with_recipient(
            v.find_free_recipient(0)->Ok_0->Some_0,
            SlotModel {
                signing_pubkey: signing,
                encryption_pubkey: encryption,
                wrapped_dek: wrapped,
                granted_at: at,
                flags: 1,
            },
        ).record_verifies(
            ChainOp::AccessGranted,
            model::peer_target(signing),
            crypto::sha256_of(signing + encryption)@,
            chained_at,
        ),
        replay::keeps_trace(v, v.granting(signing, encryption, wrapped, at, chained_at).0),
    ensures
        granted_to(
            v,
            v.granting(signing, encryption, wrapped, at, chained_at).0,
            signing,
            encryption,
        ),
        granted_since(
            v.granting(signing, encryption, wrapped, at, chained_at).0,
            signing,
            at,
        ),
        health::tells(
            v,
            v.granting(signing, encryption, wrapped, at, chained_at).0,
            ChainOp::AccessGranted,
            model::peer_target(signing),
            crypto::sha256_of(signing + encryption)@,
            chained_at,
        ),
{
    let i = v.find_free_recipient(0)->Ok_0->Some_0;
    let s = SlotModel {
        signing_pubkey: signing,
        encryption_pubkey: encryption,
        wrapped_dek: wrapped,
        granted_at: at,
        flags: 1,
    };
    let target = model::peer_target(signing);
    let hash = crypto::sha256_of(signing + encryption)@;
    lemma_find_recipient(v, signing, 0);
    lemma_find_free_recipient(v, 0);
    records::lemma_live_flags();
    let x = v.with_recipient(i, s);
    let y = v.granting(signing, encryption, wrapped, at, chained_at).0;
    assert(y == x.with_record(ChainOp::AccessGranted, target, hash, chained_at));
    health::lemma_recipient_write(v, i, s);
    laws::lemma_chain_same(v, x);
    health::lemma_record_append(x, ChainOp::AccessGranted, target, hash, chained_at);
    health::lemma_advances_from(v, x, y);
    let reach = Reach { slot: None, peer: Some(i), blocks: Seq::empty() };
    assert(v.log.take(v.log.len() as int) =~= v.log);
    locality::lemma_peer(v, v, reach, i, s);
    locality::lemma_record(v, x, reach, ChainOp::AccessGranted, target, hash, chained_at);
    replay::lemma_keeps_lead(v, y);
    lemma_granted_from(v, x, y, i, s);
    assert(y.recipient(i) == x.recipient(i));
    assert(y.grants(i));
    lemma_find_recipient(y, signing, 0);
    let (j, found) = y.find_recipient(signing, 0)->Ok_0->Some_0;
    assert(y.grants(j));
}

/// A vault in which one more slot was granted.
proof fn lemma_granted_from(v: VaultModel, x: VaultModel, y: VaultModel, i: int, s: SlotModel)
    requires
        v.healthy(),
        0 <= i < v.header.max_recipients,
        !v.grants(i),
        s.occupied(),
        s.fits(),
        s.wrapped_dek.len() == 92,
        crypto::unwraps_for(s.wrapped_dek, s.encryption_pubkey, v.key),
        forall|j: int| #[trigger]
            v.grants(j) ==> v.recipient(j)->Ok_0.signing_pubkey != s.signing_pubkey,
        health::alike(v, x),
        health::same_slots(v, x),
        x.recipient(i) == Ok::<SlotModel, Fault>(s),
        forall|j: int|
            0 <= j < v.header.max_recipients && j != i ==> #[trigger] x.recipient(j)
                == v.recipient(j),
        health::same_blocks_but(v, x, Seq::empty()),
        health::alike(x, y),
        health::same_slots(x, y),
        health::same_recipients(x, y),
        health::same_blocks_but(x, y, Seq::empty()),
        health::advances(v, y),
        replay::keeps_lead(v, y),
        y.bitmap == v.bitmap,
        y.admin == v.admin,
        y.header.admin_key_slot == v.header.admin_key_slot,
        y.stored(),
        y.chain_ok(),
        y.admin_ok(),
        locality::confined(v, y, Reach { slot: None, peer: Some(i), blocks: Seq::empty() }),
    ensures
        granted_to(v, y, s.signing_pubkey, s.encryption_pubkey),
{
    assert(y.recipient(i) == x.recipient(i));
    assert forall|j: int| 0 <= j < v.header.max_recipients && j != i implies #[trigger] y.recipient(
        j,
    ) == v.recipient(j) by {
        assert(y.recipient(j) == x.recipient(j));
        assert(x.recipient(j) == v.recipient(j));
    }
    assert forall|j: int| 0 <= j < v.header.max_files implies #[trigger] y.slot(j) == v.slot(j) by {
        assert(y.slot(j) == x.slot(j));
        assert(x.slot(j) == v.slot(j));
    }
    assert(y.grants(i));
    assert forall|j: int| 0 <= j < y.header.max_recipients implies (#[trigger] y.recipient(
        j,
    )) is Ok by {
        if j != i {
            assert(y.recipient(j) == v.recipient(j));
        }
    }
    assert forall|j: int| #[trigger] y.grants(j) implies y.recipient(j)->Ok_0.fits()
        && y.recipient(j)->Ok_0.wrapped_dek.len() == 92 && crypto::unwraps_for(
        y.recipient(j)->Ok_0.wrapped_dek,
        y.recipient(j)->Ok_0.encryption_pubkey,
        y.key,
    ) by {
        if j != i {
            assert(y.recipient(j) == v.recipient(j));
            assert(v.grants(j));
        }
    }
    assert forall|j: int, k: int|
        #![trigger y.grants(j), y.grants(k)]
        y.grants(j) && y.grants(k) && j != k implies y.recipient(j)->Ok_0.signing_pubkey
        != y.recipient(k)->Ok_0.signing_pubkey by {
        if j != i {
            assert(y.recipient(j) == v.recipient(j));
            assert(v.grants(j));
        }
        if k != i {
            assert(y.recipient(k) == v.recipient(k));
            assert(v.grants(k));
        }
    }
    lemma_untouched_files(v, x, y);
}

/// Writes that touch neither slots nor blocks nor the bitmap leave the files
/// alone.
pub(crate) proof fn lemma_untouched_files(v: VaultModel, x: VaultModel, y: VaultModel)
    requires
        v.files_ok(),
        health::alike(v, x),
        health::same_slots(v, x),
        health::same_blocks_but(v, x, Seq::empty()),
        health::alike(x, y),
        health::same_slots(x, y),
        health::same_blocks_but(x, y, Seq::empty()),
        y.bitmap == v.bitmap,
    ensures
        y.files_ok(),
        laws::files_kept(v, y),
{
    assert forall|i: int| 0 <= i < v.header.max_files implies #[trigger] y.slot(i) == v.slot(i) by {
        assert(y.slot(i) == x.slot(i));
        assert(x.slot(i) == v.slot(i));
    }
    assert forall|i: int, k: int|
        #![trigger v.live(i), v.held(v.entry(i))[k]]
        v.live(i) && 0 <= k < v.held(v.entry(i)).len() implies y.block(
        v.held(v.entry(i))[k],
        v.entry(i).id,
    ) == v.block(v.held(v.entry(i))[k], v.entry(i).id) by {
        assert(v.sound(v.entry(i)));
        let b = v.held(v.entry(i))[k];
        let id = v.entry(i).id;
        assert(!Seq::<u64>::empty().contains(b));
        assert(y.block(b, id) == x.block(b, id));
        assert(x.block(b, id) == v.block(b, id));
    }
    lemma_files_same(v, y);
}

/// On a healthy vault, granting access is refused exactly if the vault was not
/// opened by its admin, the peer has access already, or every slot is taken.
pub proof fn law_grant_succeeds(
    v: VaultModel,
    signing: Seq<u8>,
    encryption: Seq<u8>,
    wrapped: Seq<u8>,
    at: i64,
    chained_at: i64,
)
    requires
        v.healthy(),
    ensures
        v.granting(signing, encryption, wrapped, at, chained_at).1 is Ok <==> {
            &&& v.admin is Some
            &&& forall|i: int| #[trigger]
                v.grants(i) ==> v.recipient(i)->Ok_0.signing_pubkey != signing
            &&& exists|i: int| 0 <= i < v.header.max_recipients && !(#[trigger] v.grants(i))
        },
{
    lemma_find_recipient(v, signing, 0);
    lemma_find_free_recipient(v, 0);
}

/// Once a peer was granted access, that peer opens the vault with its own keys
/// and reads the same files.
pub proof fn law_grant_gives_access(
    v: VaultModel,
    w: VaultModel,
    signing: Seq<u8>,
    encryption: Seq<u8>,
    peer: Keys,
)
    requires
        granted_to(v, w, signing, encryption),
        peer.wf(),
        peer.encryption_public() == encryption,
    ensures
        model::opening_as_recipient(w.image, peer) is Ok,
        model::opening_as_recipient(w.image, peer)->Ok_0.admin is None,
        laws::files_kept(v, model::opening_as_recipient(w.image, peer)->Ok_0),
{
    law_granted_peer_opens(w, peer);
    law_reopened_is_healthy(w, None);
    let o = model::opening_as_recipient(w.image, peer)->Ok_0;
    assert forall|n: Seq<char>| #[trigger] o.file(n) == v.file(n) by {
        assert(o.file(n) == w.file(n));
    }
}

// ---------------------------------------------------------------------
// Checking
// ---------------------------------------------------------------------

/// The chain of a healthy vault checks out up to any of its records.
proof fn lemma_checked_chain(v: VaultModel, end: int)
    requires
        v.chain_ok(),
        v.header.max_chain_records > 0,
        v.oldest() < end <= v.newest() + 1,
    ensures
        v.checked_chain(end) == Ok::<Option<RecordModel>, Fault>(Some(v.found(end - 1))),
    decreases end,
{
    assert(v.record_ok(end - 1));
    if end - 1 > v.oldest() {
        lemma_checked_chain(v, end - 1);
        assert(v.links(end - 1));
    } else {
        assert(v.checked_chain(end - 1) == Ok::<Option<RecordModel>, Fault>(None));
    }
}

/// The live files of a healthy vault, as a list.
pub(crate) proof fn lemma_live_list(v: VaultModel, n: int)
    requires
        v.files_ok(),
        0 <= n <= v.header.max_files,
    ensures
        v.live_entries(n) is Ok,
        forall|k: int|
            0 <= k < v.live_entries(n)->Ok_0.len() ==> {
                let (i, e) = #[trigger] v.live_entries(n)->Ok_0[k];
                v.live(i) && i < n && e == v.entry(i)
            },
        forall|k: int, l: int|
            0 <= k < l < v.live_entries(n)->Ok_0.len() ==> (#[trigger] v.live_entries(
                n,
            )->Ok_0[k]).0 < (#[trigger] v.live_entries(n)->Ok_0[l]).0,
        forall|i: int| #[trigger]
            v.live(i) && i < n ==> exists|k: int|
                0 <= k < v.live_entries(n)->Ok_0.len() && #[trigger] v.live_entries(n)->Ok_0[k] == (
                    i,
                    v.entry(i),
                ),
    decreases n,
{
    if n > 0 {
        lemma_live_list(v, n - 1);
        assert(v.slot(n - 1) is Ok);
        let before = v.live_entries(n - 1)->Ok_0;
        let now = v.live_entries(n)->Ok_0;
        if v.entry(n - 1).occupied() {
            assert(v.live(n - 1));
        }
        assert forall|k: int| 0 <= k < now.len() implies ({
            let (i, e) = #[trigger] now[k];
            v.live(i) && i < n && e == v.entry(i)
        }) by {
            if k < before.len() {
                assert(now[k] == before[k]);
            }
        }
        assert forall|k: int, l: int| 0 <= k < l < now.len() implies (#[trigger] now[k]).0 < (
        #[trigger] now[l]).0 by {
            assert(now[k] == before[k]);
            if l < before.len() {
                assert(now[l] == before[l]);
            }
        }
        assert forall|i: int| #[trigger] v.live(i) && i < n implies exists|k: int|
            0 <= k < now.len() && #[trigger] now[k] == (i, v.entry(i)) by {
            if i < n - 1 {
                let k = choose|k: int|
                    0 <= k < before.len() && #[trigger] before[k] == (i, v.entry(i));
                assert(now[k] == before[k]);
            } else {
                assert(now[now.len() - 1] == (i, v.entry(i)));
            }
        }
    }
}

proof fn lemma_checked_files(v: VaultModel, entries: Seq<(int, EntryModel)>, n: int)
    requires
        v.files_ok(),
        0 <= n <= entries.len(),
        forall|k: int|
            0 <= k < entries.len() ==> {
                let (i, e) = #[trigger] entries[k];
                v.live(i) && e == v.entry(i)
            },
    ensures
        v.checked_files(entries, n) is Ok,
    decreases n,
{
    if n > 0 {
        lemma_checked_files(v, entries, n - 1);
        let (i, e) = entries[n - 1];
        assert(v.live(i) && e == v.entry(i));
        laws::lemma_finds(v, i);
        assert(v.sound(v.entry(i)));
    }
}

/// A healthy vault passes its integrity check.
pub proof fn law_healthy_verifies(v: VaultModel)
    requires
        v.healthy(),
    ensures
        v.integrity() == Ok::<(), Fault>(()),
{
    lemma_checked_chain(v, v.newest() + 1);
    lemma_live_list(v, v.header.max_files as int);
    let entries = v.live_entries(v.header.max_files as int)->Ok_0;
    lemma_checked_files(v, entries, entries.len() as int);
}

proof fn lemma_chain_checked_up_to(v: VaultModel, end: int, seq: int)
    requires
        v.checked_chain(end) is Ok,
        v.oldest() <= seq < end,
    ensures
        v.checked_chain(seq + 1) is Ok,
    decreases end,
{
    if seq + 1 < end {
        lemma_chain_checked_up_to(v, end - 1, seq);
    }
}

proof fn lemma_files_checked_up_to(v: VaultModel, entries: Seq<(int, EntryModel)>, n: int, k: int)
    requires
        v.checked_files(entries, n) is Ok,
        0 <= k < n,
    ensures
        v.file(entries[k].1.name) is Ok,
    decreases n,
{
    if k < n - 1 {
        lemma_files_checked_up_to(v, entries, n - 1, k);
    }
}

proof fn lemma_live_among(v: VaultModel, n: int, i: int)
    requires
        v.live_entries(n) is Ok,
        0 <= i < n,
    ensures
        v.slot(i) is Ok,
        v.entry(i).occupied() ==> v.live_entries(n)->Ok_0.contains((i, v.entry(i))),
    decreases n,
{
    let now = v.live_entries(n)->Ok_0;
    if i < n - 1 {
        lemma_live_among(v, n - 1, i);
        let before = v.live_entries(n - 1)->Ok_0;
        if v.entry(i).occupied() {
            let k = choose|k: int| 0 <= k < before.len() && before[k] == (i, v.entry(i));
            assert(now[k] == (i, v.entry(i)));
        }
    } else if v.entry(i).occupied() {
        assert(now.last() == (i, v.entry(i)));
    }
}

/// What a vault that passes its integrity check holds, whoever wrote it: every
/// retained chain record is there and where it belongs, has the hash of its
/// contents, carries the admin's signature, and links to the record before it,
/// and the last one is the one that the header is anchored to.
pub proof fn law_verified_record(v: VaultModel, seq: int)
    requires
        v.integrity() is Ok,
        v.oldest() <= seq <= v.newest(),
    ensures
        v.record_ok(seq),
        v.oldest() < seq ==> v.links(seq),
        seq == v.newest() ==> v.found(seq).record_hash == v.header.chain_last_hash,
{
    lemma_chain_checked_up_to(v, v.newest() + 1, seq);
    if v.oldest() < seq {
        lemma_chain_checked_up_to(v, v.newest() + 1, seq - 1);
    }
}

/// Tampering with the chain does not go unnoticed: a retained record that is
/// missing or cannot be read, one that is not what the admin signed, one that
/// does not link to the record before it, and a last record that is not the one
/// the header is anchored to all fail the integrity check.
pub proof fn law_tampering_is_noticed(v: VaultModel, seq: int)
    requires
        v.oldest() <= seq <= v.newest(),
        !(v.record(seq) matches Ok(Some(_))) || !v.record_ok(seq) || (v.oldest() < seq
            && !v.links(seq)) || (seq == v.newest() && v.found(seq).record_hash
            != v.header.chain_last_hash),
    ensures
        v.integrity() is Err,
{
    if v.integrity() is Ok {
        law_verified_record(v, seq);
    }
}

/// A chain whose records were wiped does not pass the integrity check.
pub proof fn law_wiped_chain_is_noticed(v: VaultModel)
    requires
        v.header.max_chain_records > 0,
        forall|seq: int|
            v.oldest() <= seq <= v.newest() ==> #[trigger] v.record(seq) == Ok::<
                Option<RecordModel>,
                Fault,
            >(None),
    ensures
        v.integrity() == Err::<(), Fault>(Fault::IntegrityViolation("a chain record is missing")),
{
    lemma_wiped(v, v.newest() + 1);
}

proof fn lemma_wiped(v: VaultModel, end: int)
    requires
        v.header.max_chain_records > 0,
        v.oldest() < end <= v.newest() + 1,
        forall|seq: int|
            v.oldest() <= seq <= v.newest() ==> #[trigger] v.record(seq) == Ok::<
                Option<RecordModel>,
                Fault,
            >(None),
    ensures
        v.checked_chain(end) == Err::<Option<RecordModel>, Fault>(
            Fault::IntegrityViolation("a chain record is missing"),
        ),
    decreases end,
{
    assert(v.record(end - 1) == Ok::<Option<RecordModel>, Fault>(None));
    if end - 1 > v.oldest() {
        lemma_wiped(v, end - 1);
    } else {
        assert(v.checked_chain(end - 1) == Ok::<Option<RecordModel>, Fault>(None));
    }
}

/// Every file of a vault that passes its integrity check can be read, and has
/// the hash that is stored for it.
pub proof fn law_verified_file(v: VaultModel, i: int)
    requires
        v.integrity() is Ok,
        0 <= i < v.header.max_files,
    ensures
        v.slot(i) is Ok,
        v.live(i) ==> v.file(v.entry(i).name) is Ok,
        v.live(i) && v.find_file(v.entry(i).name, 0) == Ok::<Option<(int, EntryModel)>, Fault>(
            Some((i, v.entry(i))),
        ) ==> crypto::sha256_of(v.file(v.entry(i).name)->Ok_0)@ == v.entry(i).file_hash,
{
    let n = v.header.max_files as int;
    let entries = v.live_entries(n)->Ok_0;
    lemma_live_among(v, n, i);
    if v.live(i) {
        let k = choose|k: int| 0 <= k < entries.len() && entries[k] == (i, v.entry(i));
        lemma_files_checked_up_to(v, entries, entries.len() as int, k);
    }
}

/// Writing over a block touches no slot and no other block.
proof fn lemma_overwritten(v: VaultModel, b: u64, data: Seq<u8>)
    requires
        v.shaped(),
        b < v.header.block_count,
        data.len() == v.header.block_size,
    ensures
        ({
            let w = v.written(v.header.block_at(b as int), data);
            &&& w.image.len() == v.image.len()
            &&& health::same_slots(v, w)
            &&& health::same_blocks_but(v, w, seq![b])
        }),
{
    let h = v.header;
    health::lemma_places(h);
    health::lemma_total(h);
    assert(h.data_offset <= h.block_at(b as int));
    health::lemma_written(v, h.block_at(b as int), data);
    let w = v.written(h.block_at(b as int), data);
    assert forall|c: u64, id: u128|
        c < h.block_count && !seq![b].contains(c) implies #[trigger] w.block(c, id) == v.block(
        c,
        id,
    ) by {
        assert(seq![b][0] == b);
        health::lemma_apart(c as int, b as int, h.block_size as int);
    }
}

/// Vaults with the same slots find the same files.
proof fn lemma_finds_alike(v: VaultModel, w: VaultModel, name: Seq<char>, from: int)
    requires
        0 <= from,
        w.header.max_files == v.header.max_files,
        health::same_slots(v, w),
    ensures
        w.find_file(name, from) == v.find_file(name, from),
    decreases v.header.max_files - from,
{
    if from < v.header.max_files {
        assert(w.slot(from) == v.slot(from));
        lemma_finds_alike(v, w, name, from + 1);
    }
}

/// A chain of index blocks of which one cannot be opened any more breaks off.
proof fn lemma_walk_breaks(
    v: VaultModel,
    w: VaultModel,
    id: u128,
    next: u64,
    fuel: nat,
    j: int,
)
    requires
        v.walk(id, next, fuel) is Ok,
        0 <= j < v.walk(id, next, fuel)->Ok_0.len(),
        forall|k: int|
            0 <= k < j ==> w.block((#[trigger] v.walk(id, next, fuel)->Ok_0[k]).0, id) == v.block(
                v.walk(id, next, fuel)->Ok_0[k].0,
                id,
            ),
        w.block(v.walk(id, next, fuel)->Ok_0[j].0, id) is Err,
    ensures
        w.walk(id, next, fuel) is Err,
    decreases fuel,
{
    let all = v.walk(id, next, fuel)->Ok_0;
    let (n, listed) = v.index_block(next, id)->Ok_0;
    let rest = v.walk(id, n, (fuel - 1) as nat)->Ok_0;
    assert(all == seq![(next, listed)] + rest);
    assert(all[0].0 == next);
    if j > 0 {
        assert(w.block(next, id) == v.block(next, id));
        assert(all[j] == rest[j - 1]);
        assert forall|k: int| 0 <= k < j - 1 implies w.block((#[trigger] rest[k]).0, id)
            == v.block(rest[k].0, id) by {
            assert(all[k + 1] == rest[k]);
        }
        lemma_walk_breaks(v, w, id, n, (fuel - 1) as nat, j - 1);
    }
}

/// Blocks of which one cannot be opened do not join.
proof fn lemma_join_breaks(v: VaultModel, id: u128, blocks: Seq<u64>, n: int, k: int)
    requires
        0 <= k < n <= blocks.len(),
        v.block(blocks[k], id) is Err,
    ensures
        v.joined_blocks(id, blocks, n) is Err,
    decreases n,
{
    if k < n - 1 {
        lemma_join_breaks(v, id, blocks, n - 1, k);
    }
}

/// What a chain of index blocks holds: those blocks, and the blocks they list.
proof fn lemma_chained_parts(w: Seq<(u64, Seq<u64>)>, b: u64)
    requires
        model::chained_blocks(w).contains(b),
    ensures
        model::listed_blocks(w).contains(b) || exists|k: int|
            0 <= k < w.len() && (#[trigger] w[k]).0 == b,
    decreases w.len(),
{
    if w.len() > 0 {
        let front = w.drop_last();
        let tail = seq![w.last().0] + w.last().1;
        health::lemma_concat_contains(model::chained_blocks(front), tail, b);
        health::lemma_concat_contains(seq![w.last().0], w.last().1, b);
        health::lemma_concat_contains(model::listed_blocks(front), w.last().1, b);
        if model::chained_blocks(front).contains(b) {
            lemma_chained_parts(front, b);
            if !model::listed_blocks(front).contains(b) {
                let k = choose|k: int| 0 <= k < front.len() && (#[trigger] front[k]).0 == b;
                assert(w[k].0 == b);
            }
        } else if seq![w.last().0].contains(b) {
            assert(w[w.len() - 1].0 == b);
        }
    }
}

/// A file of which a block cannot be opened any more cannot be read.
proof fn lemma_broken_file(v: VaultModel, w: VaultModel, e: EntryModel, b: u64)
    requires
        v.sound(e),
        w.header == v.header,
        w.image.len() == v.image.len(),
        v.held(e).contains(b),
        health::same_blocks_but(v, w, seq![b]),
        w.block(b, e.id) is Err,
    ensures
        w.content(e) is Err,
{
    let held = v.held(e);
    let chain = v.overflow(e)->Ok_0;
    let direct = v.direct(e);
    let fuel = v.image.len();
    health::lemma_chained(chain);
    assert(held == direct + model::chained_blocks(chain));
    health::lemma_concat_contains(direct, model::chained_blocks(chain), b);
    assert forall|k: int| 0 <= k < chain.len() && (#[trigger] chain[k]).0 != b implies w.block(
        chain[k].0,
        e.id,
    ) == v.block(chain[k].0, e.id) by {
        let c = chain[k].0;
        health::lemma_concat_contains(direct, model::chained_blocks(chain), c);
        let j = choose|j: int| 0 <= j < held.len() && held[j] == c;
        assert((held[j] as int) < v.header.block_count);
        assert(!seq![b].contains(c));
    }
    if exists|k: int| 0 <= k < chain.len() && (#[trigger] chain[k]).0 == b {
        let j = lemma_first(chain, b);
        lemma_walk_breaks(v, w, e.id, e.overflow_block, fuel, j);
    } else {
        if !direct.contains(b) {
            lemma_chained_parts(chain, b);
        }
        health::lemma_walk_alike(v, w, e.id, e.overflow_block, fuel);
        let blocks = direct + model::listed_blocks(chain);
        health::lemma_concat_contains(direct, model::listed_blocks(chain), b);
        let k = choose|k: int| 0 <= k < blocks.len() && blocks[k] == b;
        assert(w.direct(e) == v.direct(e));
        lemma_join_breaks(w, e.id, blocks, blocks.len() as int, k);
    }
    assert(v.blocks_for(0) == 0);
}

/// The first index block of a chain that is block `b`.
proof fn lemma_first(chain: Seq<(u64, Seq<u64>)>, b: u64) -> (j: int)
    requires
        exists|k: int| 0 <= k < chain.len() && (#[trigger] chain[k]).0 == b,
    ensures
        0 <= j < chain.len(),
        chain[j].0 == b,
        forall|k: int| 0 <= k < j ==> (#[trigger] chain[k]).0 != b,
    decreases chain.len(),
{
    let front = chain.drop_last();
    if exists|k: int| 0 <= k < front.len() && (#[trigger] front[k]).0 == b {
        let j = lemma_first(front, b);
        assert(front[j] == chain[j]);
        assert forall|k: int| 0 <= k < j implies (#[trigger] chain[k]).0 != b by {
            assert(front[k] == chain[k]);
        }
        j
    } else {
        assert forall|k: int| 0 <= k < chain.len() - 1 implies (#[trigger] chain[k]).0 != b by {
            assert(front[k] == chain[k]);
        }
        chain.len() - 1
    }
}

/// Tampering with content does not go unnoticed: if any block of a file, data or
/// index, is written over with bytes that the cipher refuses, the file can no
/// longer be read, and the vault fails its integrity check.
pub proof fn law_tampered_block_is_noticed(v: VaultModel, i: int, b: u64, data: Seq<u8>)
    requires
        v.healthy(),
        v.live(i),
        v.held(v.entry(i)).contains(b),
        data.len() == v.header.block_size,
        model::unframed(v.key, data, v.entry(i).id, b) is Err,
    ensures
        ({
            let w = v.written(v.header.block_at(b as int), data);
            w.file(v.entry(i).name) is Err && w.integrity() is Err
        }),
{
    let h = v.header;
    let e = v.entry(i);
    let w = v.written(h.block_at(b as int), data);
    assert(v.sound(e));
    let held = v.held(e);
    let k = choose|k: int| 0 <= k < held.len() && held[k] == b;
    assert((held[k] as int) < h.block_count);
    lemma_overwritten(v, b, data);
    health::lemma_places(h);
    assert(h.data_offset <= h.block_at(b as int));
    assert(w.block(b, e.id) is Err) by {
        reveal(VaultModel::block);
        super::image::lemma_overlaid_there(v.image, h.block_at(b as int), data);
    }
    lemma_broken_file(v, w, e, b);
    lemma_finds_alike(v, w, e.name, 0);
    laws::lemma_finds(v, i);
    assert(w.slot(i) == v.slot(i));
    if w.integrity() is Ok {
        law_verified_file(w, i);
    }
}

} // verus!
