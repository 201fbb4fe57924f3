//! How far a change reaches: the ranges that it writes lie in the header, in one
//! chain record and in what belongs to the one file or peer that it is about.
//! The container is never rewritten as a whole.

use vstd::prelude::*;

use super::allocator;
use super::format::HeaderModel;
use super::health;
use super::model::{self, VaultModel};
use super::records::{self, ChainOp, EntryModel, SlotModel};
use super::replay;

verus! {

/// What a change may write besides the header and the next chain record.
#[verifier::ext_equal]
pub struct Reach {
    /// The slot of a file, and with it the bitmap.
    pub slot: Option<int>,
    /// The slot of a peer.
    pub peer: Option<int>,
    /// The blocks of a file.
    pub blocks: Seq<u64>,
}

/// The range lies in the `len` bytes at `start`.
pub open spec fn in_place(r: (u64, Seq<u8>), start: int, len: int) -> bool {
    start <= r.0 && r.0 + r.1.len() <= start + len
}

/// The range lies in one of these blocks.
pub open spec fn in_blocks(h: HeaderModel, blocks: Seq<u64>, r: (u64, Seq<u8>)) -> bool {
    exists|k: int|
        0 <= k < blocks.len() && in_place(
            r,
            h.block_at(#[trigger] blocks[k] as int),
            h.block_size as int,
        )
}

/// The range lies within reach.
pub open spec fn within(h: HeaderModel, reach: Reach, r: (u64, Seq<u8>)) -> bool {
    ||| reach.slot matches Some(i) && (in_place(r, h.slot_at(i), h.entry_size as int) || in_place(
        r,
        h.bitmap_offset as int,
        h.bitmap_len as int,
    ))
    ||| reach.peer matches Some(i) && in_place(
        r,
        h.recipient_at(i),
        h.recipient_slot_size as int,
    )
    ||| in_blocks(h, reach.blocks, r)
}

/// The range lies in the header, in the chain record that is next, or within
/// reach.
pub open spec fn belongs(h: HeaderModel, reach: Reach, r: (u64, Seq<u8>)) -> bool {
    ||| in_place(r, 0, 1024)
    ||| in_place(r, h.record_at(h.chain_next_seq as int), h.chain_record_size as int)
    ||| within(h, reach, r)
}

/// Whatever was written on the way from `v` to `w` lies within reach, and nothing
/// else was written yet.
pub open spec fn prepared(v: VaultModel, w: VaultModel, reach: Reach) -> bool {
    &&& v.log.len() <= w.log.len()
    &&& w.log.take(v.log.len() as int) == v.log
    &&& forall|k: int|
        v.log.len() <= k < w.log.len() ==> within(v.header, reach, #[trigger] w.log[k])
}

/// Whatever was written on the way from `v` to `w` lies in the header, in the next
/// chain record or within reach.
pub open spec fn confined(v: VaultModel, w: VaultModel, reach: Reach) -> bool {
    &&& v.log.len() <= w.log.len()
    &&& w.log.take(v.log.len() as int) == v.log
    &&& forall|k: int|
        v.log.len() <= k < w.log.len() ==> belongs(v.header, reach, #[trigger] w.log[k])
}

/// A change to the file of this name wrote nothing but that file's slot and the
/// blocks that it holds afterwards, the bitmap, the header and one chain record.
pub open spec fn local(v: VaultModel, w: VaultModel, name: Seq<char>) -> bool {
    match (v.find_file(name, 0), w.find_file(name, 0)) {
        (_, Ok(Some((i, e)))) => confined(
            v,
            w,
            Reach { slot: Some(i), peer: None, blocks: w.held(e) },
        ),
        (Ok(Some((i, _))), _) => confined(
            v,
            w,
            Reach { slot: Some(i), peer: None, blocks: Seq::empty() },
        ),
        _ => false,
    }
}

/// One more range within reach.
proof fn lemma_step(v: VaultModel, w: VaultModel, reach: Reach, offset: int, data: Seq<u8>)
    requires
        prepared(v, w, reach),
        0 <= offset <= u64::MAX,
        within(v.header, reach, (offset as u64, data)),
    ensures
        prepared(v, w.written(offset, data), reach),
{
    let x = w.written(offset, data);
    assert(x.log.take(v.log.len() as int) =~= v.log) by {
        assert(w.log.take(v.log.len() as int) =~= v.log);
    }
    assert forall|k: int| v.log.len() <= k < x.log.len() implies within(
        v.header,
        reach,
        #[trigger] x.log[k],
    ) by {
        if k < w.log.len() {
            assert(x.log[k] == w.log[k]);
        }
    }
}

/// Storing blocks within reach.
proof fn lemma_blocks(
    v: VaultModel,
    w: VaultModel,
    reach: Reach,
    all: Seq<(u64, u128, Seq<u8>)>,
    n: int,
)
    requires
        w.shaped(),
        w.header == v.header,
        prepared(v, w, reach),
        health::storable(w, all),
        0 <= n <= all.len(),
        forall|j: int| 0 <= j < all.len() ==> reach.blocks.contains((#[trigger] all[j]).0),
    ensures
        prepared(v, w.with_blocks(all, n), reach),
        w.with_blocks(all, n).header == v.header,
        w.with_blocks(all, n).key == w.key,
    decreases n,
{
    if n > 0 {
        lemma_blocks(v, w, reach, all, n - 1);
        let u = w.with_blocks(all, n - 1);
        let (b, id, p) = all[n - 1];
        health::lemma_framed(w.key, v.header.block_size as nat, p, id, b);
        health::lemma_places(v.header);
        let k = choose|k: int| 0 <= k < reach.blocks.len() && reach.blocks[k] == b;
        let at = v.header.block_at(b as int);
        let data = model::framed(w.key, v.header.block_size as nat, p, id, b);
        assert(in_place((at as u64, data), v.header.block_at(reach.blocks[k] as int), data.len() as int));
        lemma_step(v, u, reach, at, data);
    }
}

/// Storing the bitmap.
proof fn lemma_bitmap(v: VaultModel, w: VaultModel, reach: Reach, bitmap: Seq<u8>)
    requires
        v.header.in_order(),
        w.header == v.header,
        prepared(v, w, reach),
        reach.slot is Some,
        bitmap.len() <= v.header.bitmap_len,
    ensures
        prepared(v, w.with_stored_bitmap(bitmap), reach),
{
    let m = VaultModel { bitmap, ..w };
    assert(prepared(v, m, reach));
    lemma_step(v, m, reach, v.header.bitmap_offset as int, bitmap);
}

/// Storing content in blocks within reach.
pub(crate) proof fn lemma_content(
    v: VaultModel,
    w: VaultModel,
    reach: Reach,
    id: u128,
    data: Seq<u8>,
)
    requires
        w.stored(),
        w.header == v.header,
        prepared(v, w, reach),
        reach.slot is Some,
        data.len() <= u64::MAX,
        w.has_room(data.len() as int),
        w.content_opens(id, data),
        forall|b: u64| #[trigger]
            w.allotted(data.len() as int).contains(b) ==> reach.blocks.contains(b),
    ensures
        prepared(v, w.with_content(id, data), reach),
{
    let size = data.len() as int;
    let all = w.allotted(size);
    let blocks = w.allotted_data(size);
    let index = w.allotted_index(size);
    let bitmap = allocator::with_marks(w.bitmap, all, w.header.block_count as nat, true);
    let cw = health::chunk_writes(w, id, data);
    let iw = health::index_writes(w, id, data);
    let m = VaultModel { bitmap, ..w };
    health::lemma_allotted(w, size);
    health::lemma_content_storable(w, id, data);
    health::lemma_marks_len(w.bitmap, all, w.header.block_count as nat, true);
    assert(m.shaped());
    assert forall|j: int| 0 <= j < cw.len() implies reach.blocks.contains(
        (#[trigger] cw[j]).0,
    ) by {
        assert(all[j] == cw[j].0);
        assert(all.contains(all[j]));
    }
    assert forall|j: int| 0 <= j < iw.len() implies reach.blocks.contains(
        (#[trigger] iw[j]).0,
    ) by {
        assert(all[blocks.len() + j] == iw[j].0);
        assert(all.contains(all[blocks.len() + j]));
    }
    health::lemma_chunks_as_blocks(w, m, id, data, blocks.len() as int);
    assert(prepared(v, m, reach));
    assert(health::storable(m, cw));
    lemma_blocks(v, m, reach, cw, cw.len() as int);
    health::lemma_blocks_write(m, cw, cw.len() as int);
    let f = m.with_blocks(cw, cw.len() as int);
    health::lemma_indices_as_blocks(w, f, id, data, index.len() as int);
    assert(health::storable(f, iw));
    lemma_blocks(v, f, reach, iw, iw.len() as int);
    let g = f.with_blocks(iw, iw.len() as int);
    lemma_bitmap(v, g, reach, bitmap);
    assert(w.with_content(id, data) == g.with_stored_bitmap(bitmap));
}

/// Storing the slot of a file within reach.
pub(crate) proof fn lemma_slot(v: VaultModel, w: VaultModel, reach: Reach, i: int, e: EntryModel)
    requires
        v.header.in_order(),
        w.header == v.header,
        prepared(v, w, reach),
        reach.slot == Some(i),
        0 <= i < v.header.max_files,
        e.fits(),
    ensures
        prepared(v, w.with_slot(i, e), reach),
{
    health::lemma_places(v.header);
    records::lemma_entry_len(e);
    lemma_step(v, w, reach, v.header.slot_at(i), e.encoded());
}

/// Storing the slot of a peer within reach.
pub(crate) proof fn lemma_peer(v: VaultModel, w: VaultModel, reach: Reach, i: int, s: SlotModel)
    requires
        v.header.in_order(),
        w.header == v.header,
        prepared(v, w, reach),
        reach.peer == Some(i),
        0 <= i < v.header.max_recipients,
        s.fits(),
    ensures
        prepared(v, w.with_recipient(i, s), reach),
{
    health::lemma_places(v.header);
    records::lemma_slot_len(s);
    lemma_step(v, w, reach, v.header.recipient_at(i), s.encoded());
}

/// Freeing blocks.
pub(crate) proof fn lemma_freeing(v: VaultModel, reach: Reach, blocks: Seq<u64>)
    requires
        v.stored(),
        reach.slot is Some,
    ensures
        prepared(v, v.with_freed(blocks), reach),
{
    let n = v.header.block_count as nat;
    health::lemma_marks_len(v.bitmap, blocks, n, false);
    assert(prepared(v, v, reach)) by {
        assert(v.log.take(v.log.len() as int) =~= v.log);
    }
    lemma_bitmap(v, v, reach, allocator::with_marks(v.bitmap, blocks, n, false));
}

/// One more range.
proof fn lemma_last_step(v: VaultModel, w: VaultModel, reach: Reach, offset: int, data: Seq<u8>)
    requires
        confined(v, w, reach),
        0 <= offset <= u64::MAX,
        belongs(v.header, reach, (offset as u64, data)),
    ensures
        confined(v, w.written(offset, data), reach),
{
    let x = w.written(offset, data);
    assert(x.log.take(v.log.len() as int) =~= v.log) by {
        assert(w.log.take(v.log.len() as int) =~= v.log);
    }
    assert forall|k: int| v.log.len() <= k < x.log.len() implies belongs(
        v.header,
        reach,
        #[trigger] x.log[k],
    ) by {
        if k < w.log.len() {
            assert(x.log[k] == w.log[k]);
        }
    }
}

/// Nothing within reach is a header.
proof fn lemma_calm(v: VaultModel, w: VaultModel, reach: Reach)
    requires
        v.header.in_order(),
        prepared(v, w, reach),
        reach.slot matches Some(i) ==> 0 <= i,
        reach.peer matches Some(i) ==> 0 <= i,
    ensures
        replay::calm(v, w),
{
    let h = v.header;
    health::lemma_places(h);
    health::lemma_total(h);
    assert(h.max_files * h.entry_size >= 0 && h.max_recipients * h.recipient_slot_size >= 0
        && h.max_chain_records * h.chain_record_size >= 0) by (nonlinear_arith);
    assert forall|k: int| v.log.len() <= k < w.log.len() implies replay::interim(
        v,
        #[trigger] w.log[k],
    ) by {
        let r = w.log[k];
        assert(within(h, reach, r));
        if reach.slot is Some {
            let i = reach.slot->Some_0;
            let z = h.entry_size as int;
            assert(i * z >= 0) by (nonlinear_arith)
                requires
                    i >= 0,
                    z >= 0,
            ;
        }
        if reach.peer is Some {
            let i = reach.peer->Some_0;
            let z = h.recipient_slot_size as int;
            assert(i * z >= 0) by (nonlinear_arith)
                requires
                    i >= 0,
                    z >= 0,
            ;
        }
        if in_blocks(h, reach.blocks, r) {
            let j = choose|j: int|
                0 <= j < reach.blocks.len() && in_place(
                    r,
                    h.block_at(#[trigger] reach.blocks[j] as int),
                    h.block_size as int,
                );
            let c = reach.blocks[j] as int;
            let z = h.block_size as int;
            assert(c * z >= 0) by (nonlinear_arith)
                requires
                    c >= 0,
                    z >= 0,
            ;
        }
        assert(r.0 >= 1024);
    }
}

/// Appending the next record to the chain.
pub(crate) proof fn lemma_record(
    v: VaultModel,
    w: VaultModel,
    reach: Reach,
    op: ChainOp,
    target: u128,
    hash: Seq<u8>,
    at: i64,
)
    requires
        w.stored(),
        w.header == v.header,
        prepared(v, w, reach),
        reach.slot matches Some(i) ==> 0 <= i,
        reach.peer matches Some(i) ==> 0 <= i,
        w.admin is Some,
        w.admin_ok(),
        hash.len() == 32,
        v.header.chain_next_seq < u64::MAX,
    ensures
        confined(v, w.with_record(op, target, hash, at), reach),
        replay::concluded(v, w.with_record(op, target, hash, at)),
{
    lemma_calm(v, w, reach);
    replay::lemma_concluded(v, w, op, target, hash, at);
    let rec = w.next_record(op, target, hash, at);
    let h = HeaderModel {
        chain_next_seq: (w.header.chain_next_seq + 1) as u64,
        chain_last_hash: rec.record_hash,
        ..w.header
    };
    health::lemma_places(v.header);
    records::lemma_record_len(rec);
    super::format::lemma_body_len(h);
    let n = v.header.chain_next_seq as int;
    let x = w.written(v.header.record_at(n), rec.encoded());
    lemma_last_step(v, w, reach, v.header.record_at(n), rec.encoded());
    let y = VaultModel { header: h, ..x };
    assert(confined(v, y, reach));
    lemma_last_step(v, y, reach, 0, h.encoded());
}

} // verus!
