//! Content that was stored reads back: the index blocks lead to the data
//! blocks, and the data blocks hold the content.

use vstd::prelude::*;

use super::allocator;
use super::bytes;
use super::codec;
use super::crypto;
use super::error::Fault;
use super::health;
use super::model::{self, VaultModel};
use super::records::{self, EntryModel};
use super::vault;

verus! {

/// An index block's payload says what was put into it.
proof fn lemma_parsed_index(next: u64, listed: Seq<u64>)
    requires
        listed.len() < 0x1_0000_0000,
    ensures
        model::parsed_index(model::index_payload(next, listed)) == Ok::<(u64, Seq<u64>), Fault>(
            (next, listed),
        ),
{
    broadcast use bytes::lemma_le_length;

    let p = model::index_payload(next, listed);
    let list = records::le_list(listed);
    records::lemma_le_list(listed);
    bytes::lemma_pow256_values();
    assert(p.subrange(0, 8) =~= bytes::le(next as nat, 8));
    assert(p.subrange(8, 12) =~= bytes::le(listed.len(), 4));
    codec::lemma_num(p, 0, 8, next as nat);
    codec::lemma_num(p, 8, 4, listed.len());
    assert forall|i: int| 0 <= i < listed.len() implies codec::num(p, 12 + 8 * i, 8)
        == #[trigger] listed[i] by {
        assert(list.subrange(8 * i, 8 * i + 8) == bytes::le(listed[i] as nat, 8));
        assert(p.subrange(12 + 8 * i, 12 + 8 * i + 8) =~= list.subrange(8 * i, 8 * i + 8));
        codec::lemma_num(p, 12 + 8 * i, 8, listed[i] as nat);
    }
    assert(Seq::new(codec::num(p, 8, 4), |i: int| codec::num(p, 12 + 8 * i, 8) as u64) =~= listed);
}

/// The overflow blocks, and the part of them that each index block lists.
spec fn overflow_list(v: VaultModel, size: int) -> Seq<u64> {
    let blocks = v.allotted_data(size);
    blocks.skip(model::least(blocks.len() as int, 8))
}

/// The chain of index blocks from number `k` on.
spec fn chain_from(v: VaultModel, size: int, k: int) -> Seq<(u64, Seq<u64>)> {
    let index = v.allotted_index(size);
    Seq::new(
        (index.len() - k) as nat,
        |j: int|
            (
                index[k + j],
                model::index_chunk(overflow_list(v, size), v.header.index_capacity(), k + j),
            ),
    )
}

/// The index block number `k`, or 0 behind the last.
spec fn index_at(v: VaultModel, size: int, k: int) -> u64 {
    let index = v.allotted_index(size);
    if k < index.len() {
        index[k]
    } else {
        0
    }
}

/// Index blocks are never block 0: at least nine data blocks come before them.
proof fn lemma_index_not_zero(v: VaultModel, size: int, k: int)
    requires
        v.shaped(),
        0 <= size <= u64::MAX,
        v.has_room(size),
        0 <= k < v.allotted_index(size).len(),
    ensures
        v.allotted_index(size)[k] != 0,
{
    health::lemma_allotted(v, size);
    vault::lemma_plan(v, size);
    let all = v.allotted(size);
    let n = v.allotted_data(size).len() as int;
    assert(all[n + k] == v.allotted_index(size)[k]);
    assert(all[0] < all[n + k]);
}

/// Index block number `k` reads back.
proof fn lemma_index_back(v: VaultModel, id: u128, data: Seq<u8>, k: int)
    requires
        v.stored(),
        data.len() <= u64::MAX,
        v.has_room(data.len() as int),
        v.content_opens(id, data),
        0 <= k < v.allotted_index(data.len() as int).len(),
    ensures
        v.with_content(id, data).index_block(v.allotted_index(data.len() as int)[k], id) == Ok::<
            (u64, Seq<u64>),
            Fault,
        >(
            (
                index_at(v, data.len() as int, k + 1),
                model::index_chunk(
                    overflow_list(v, data.len() as int),
                    v.header.index_capacity(),
                    k,
                ),
            ),
        ),
{
    let size = data.len() as int;
    let w = v.with_content(id, data);
    let index = v.allotted_index(size);
    let iw = health::index_writes(v, id, data);
    let listed = model::index_chunk(overflow_list(v, size), v.header.index_capacity(), k);
    let next = model::next_index(index, k);
    assert(w.block(index[k], id) == Ok::<Seq<u8>, Fault>(model::index_payload(next, listed))) by {
        health::lemma_content_write(v, id, data);
        assert(iw[k] == (index[k], id, model::index_payload(next, listed)));
    }
    health::lemma_allotted(v, size);
    health::lemma_index_len(v, size, k);
    vault::lemma_plan(v, size);
    lemma_parsed_index(next, listed);
}

/// Following the index blocks from number `k` on gives them with their lists.
proof fn lemma_walk_back(v: VaultModel, id: u128, data: Seq<u8>, k: int, fuel: nat)
    requires
        v.stored(),
        data.len() <= u64::MAX,
        v.has_room(data.len() as int),
        v.content_opens(id, data),
        0 <= k <= v.allotted_index(data.len() as int).len(),
        v.allotted_index(data.len() as int).len() - k <= fuel,
    ensures
        v.with_content(id, data).walk(id, index_at(v, data.len() as int, k), fuel) == Ok::<
            Seq<(u64, Seq<u64>)>,
            Fault,
        >(chain_from(v, data.len() as int, k)),
    decreases v.allotted_index(data.len() as int).len() - k,
{
    let size = data.len() as int;
    let index = v.allotted_index(size);
    if k == index.len() {
        assert(chain_from(v, size, k) =~= Seq::empty());
    } else {
        lemma_index_not_zero(v, size, k);
        lemma_index_back(v, id, data, k);
        lemma_walk_back(v, id, data, k + 1, (fuel - 1) as nat);
        let listed = model::index_chunk(overflow_list(v, size), v.header.index_capacity(), k);
        assert(chain_from(v, size, k) =~= seq![(index[k], listed)] + chain_from(v, size, k + 1));
    }
}

/// The lists of the first `k` index blocks, joined, are the overflow blocks up
/// to there.
proof fn lemma_listed_prefix(v: VaultModel, size: int, k: int)
    requires
        v.shaped(),
        0 <= size <= u64::MAX,
        v.has_room(size),
        0 <= k <= v.plan(size).index,
    ensures
        model::listed_blocks(chain_from(v, size, 0).take(k)) == overflow_list(v, size).take(
            model::least(k * v.header.index_capacity(), overflow_list(v, size).len() as int),
        ),
    decreases k,
{
    let chain = chain_from(v, size, 0);
    let listed = overflow_list(v, size);
    let cap = v.header.index_capacity();
    health::lemma_allotted(v, size);
    vault::lemma_plan(v, size);
    if k == 0 {
        assert(0 * cap == 0) by (nonlinear_arith);
        assert(chain.take(0) =~= Seq::empty());
        assert(listed.take(0) =~= Seq::empty());
    } else {
        lemma_listed_prefix(v, size, k - 1);
        health::lemma_index_len(v, size, k - 1);
        assert(chain.take(k).drop_last() =~= chain.take(k - 1));
        assert(chain.take(k).last() == chain[k - 1]);
        assert(listed.take(model::least((k - 1) * cap, listed.len() as int)) + model::index_chunk(
            listed,
            cap,
            k - 1,
        ) =~= listed.take(model::least(k * cap, listed.len() as int)));
    }
}

/// The index blocks of a chain.
spec fn heads(w: Seq<(u64, Seq<u64>)>) -> Seq<u64> {
    w.map_values(|p: (u64, Seq<u64>)| p.0)
}

/// A chain's blocks are its index blocks and all that they list, each as often
/// as it occurs.
proof fn lemma_chained_multiset(w: Seq<(u64, Seq<u64>)>)
    ensures
        model::chained_blocks(w).to_multiset() == model::listed_blocks(w).to_multiset().add(
            heads(w).to_multiset(),
        ),
    decreases w.len(),
{
    broadcast use vstd::multiset::group_multiset_axioms;

    if w.len() == 0 {
        assert(heads(w) =~= Seq::empty());
        assert(Seq::<u64>::empty().to_multiset() =~= vstd::multiset::Multiset::empty()) by {
            broadcast use vstd::seq_lib::group_to_multiset_ensures;

        }
    } else {
        let front = w.drop_last();
        let h = w.last().0;
        let l = w.last().1;
        lemma_chained_multiset(front);
        vstd::seq_lib::lemma_multiset_commutative(model::chained_blocks(front), seq![h] + l);
        vstd::seq_lib::lemma_multiset_commutative(seq![h], l);
        vstd::seq_lib::lemma_multiset_commutative(model::listed_blocks(front), l);
        vstd::seq_lib::lemma_multiset_commutative(heads(front), seq![h]);
        assert(heads(w) =~= heads(front) + seq![h]);
        assert(model::chained_blocks(w).to_multiset() =~= model::listed_blocks(
            w,
        ).to_multiset().add(heads(w).to_multiset()));
    }
}

/// The vault has room for the content, what it seals opens again, and the
/// entry points to the blocks that will be allotted.
pub open spec fn fits_entry(v: VaultModel, id: u128, data: Seq<u8>, e: EntryModel) -> bool {
    &&& v.stored()
    &&& data.len() <= u64::MAX
    &&& v.has_room(data.len() as int)
    &&& v.content_opens(id, data)
    &&& e.id == id
    &&& e.size == data.len()
    &&& e.direct_blocks == v.entry_for(id, e.name, data, 0, 0).direct_blocks
    &&& e.overflow_block == v.entry_for(id, e.name, data, 0, 0).overflow_block
    &&& e.file_hash == crypto::sha256_of(data)@
}

/// The entry leads to the chain of index blocks, and that to the overflow
/// blocks.
proof fn lemma_overflow_back(v: VaultModel, id: u128, data: Seq<u8>, e: EntryModel)
    requires
        fits_entry(v, id, data, e),
    ensures
        v.with_content(id, data).overflow(e) == Ok::<Seq<(u64, Seq<u64>)>, Fault>(
            chain_from(v, data.len() as int, 0),
        ),
        model::listed_blocks(chain_from(v, data.len() as int, 0)) == overflow_list(
            v,
            data.len() as int,
        ),
        heads(chain_from(v, data.len() as int, 0)) == v.allotted_index(data.len() as int),
{
    let size = data.len() as int;
    let w = v.with_content(id, data);
    let index = v.allotted_index(size);
    let listed = overflow_list(v, size);
    let chain = chain_from(v, size, 0);
    let cap = v.header.index_capacity();
    health::lemma_content_write(v, id, data);
    health::lemma_allotted(v, size);
    vault::lemma_plan(v, size);
    lemma_fuel(v, size);
    lemma_walk_back(v, id, data, 0, w.image.len());
    assert(e.overflow_block == index_at(v, size, 0));
    lemma_listed_prefix(v, size, v.plan(size).index);
    assert(chain.take(v.plan(size).index) =~= chain);
    if v.plan(size).index == 0 {
        assert(0 * cap == 0) by (nonlinear_arith);
    }
    assert(listed.take(model::least(v.plan(size).index * cap, listed.len() as int)) =~= listed);
    assert(heads(chain) =~= index);
}

/// Direct blocks and overflow blocks are the data blocks.
proof fn lemma_direct_back(v: VaultModel, id: u128, data: Seq<u8>, e: EntryModel)
    requires
        fits_entry(v, id, data, e),
    ensures
        v.with_content(id, data).direct(e) + overflow_list(v, data.len() as int)
            == v.allotted_data(data.len() as int),
        v.with_content(id, data).blocks_for(data.len() as int) == v.allotted_data(
            data.len() as int,
        ).len(),
{
    let size = data.len() as int;
    let w = v.with_content(id, data);
    let blocks = v.allotted_data(size);
    vault::lemma_with_content_keeps(v, id, data);
    health::lemma_allotted(v, size);
    vault::lemma_plan(v, size);
    let direct = w.direct(e);
    assert(direct =~= blocks.take(model::least(blocks.len() as int, 8)));
    assert(direct + overflow_list(v, size) =~= blocks);
}

/// Stored content reads back: the entry leads to exactly the allotted blocks,
/// and they hold the content.
pub(crate) proof fn lemma_content_reads_back(v: VaultModel, id: u128, data: Seq<u8>, e: EntryModel)
    requires
        fits_entry(v, id, data, e),
    ensures
        ({
            let w = v.with_content(id, data);
            &&& w.all_blocks(e) is Ok
            &&& w.held(e).to_multiset() == v.allotted(data.len() as int).to_multiset()
            &&& w.content(e) == Ok::<Seq<u8>, Fault>(data)
        }),
{
    let size = data.len() as int;
    let w = v.with_content(id, data);
    let blocks = v.allotted_data(size);
    let index = v.allotted_index(size);
    let listed = overflow_list(v, size);
    let chain = chain_from(v, size, 0);
    let direct = w.direct(e);
    lemma_overflow_back(v, id, data, e);
    lemma_direct_back(v, id, data, e);
    assert(w.all_blocks(e) == Ok::<Seq<u64>, Fault>(direct + model::chained_blocks(chain)));
    assert(w.held(e).to_multiset() =~= v.allotted(size).to_multiset()) by {
        lemma_chained_multiset(chain);
        vstd::seq_lib::lemma_multiset_commutative(direct, model::chained_blocks(chain));
        vstd::seq_lib::lemma_multiset_commutative(direct, listed);
        vstd::seq_lib::lemma_multiset_commutative(blocks, index);
        health::lemma_allotted(v, size);
        broadcast use vstd::multiset::group_multiset_axioms;

    }
    if size > 0 {
        assert(w.data_blocks(e) == Ok::<Seq<u64>, Fault>(blocks));
        lemma_joined_back(v, id, data, blocks.len() as int);
        assert(w.joined_blocks(id, blocks, blocks.len() as int) == Ok::<Seq<u8>, Fault>(data)) by {
            health::lemma_allotted(v, size);
            vault::lemma_blocks_for(v, size);
            vault::lemma_plan(v, size);
            assert(data.take(size) =~= data);
        }
        assert(allocator::at_most(data, e.size as nat) =~= data);
    } else {
        assert(data =~= Seq::empty());
    }
}

/// Joining the first `k` data blocks gives the content up to there.
proof fn lemma_joined_back(v: VaultModel, id: u128, data: Seq<u8>, k: int)
    requires
        v.stored(),
        data.len() <= u64::MAX,
        v.has_room(data.len() as int),
        v.content_opens(id, data),
        0 <= k <= v.allotted_data(data.len() as int).len(),
    ensures
        v.with_content(id, data).joined_blocks(
            id,
            v.allotted_data(data.len() as int),
            k,
        ) == Ok::<Seq<u8>, Fault>(
            data.take(model::least(k * v.header.chunk_len(), data.len() as int)),
        ),
    decreases k,
{
    let size = data.len() as int;
    let c = v.header.chunk_len();
    let blocks = v.allotted_data(size);
    if k == 0 {
        assert(0 * c == 0) by (nonlinear_arith);
        assert(data.take(0) =~= Seq::empty());
    } else {
        lemma_joined_back(v, id, data, k - 1);
        health::lemma_content_write(v, id, data);
        health::lemma_allotted(v, size);
        let cw = health::chunk_writes(v, id, data);
        assert(cw[k - 1] == (blocks[k - 1], id, model::chunk(data, c, k - 1)));
        health::lemma_chunk_len(v, data, k - 1);
        assert(data.take(model::least((k - 1) * c, size)) + model::chunk(data, c, k - 1)
            =~= data.take(model::least(k * c, size)));
    }
}

/// There are fewer index blocks than bytes in the container.
proof fn lemma_fuel(v: VaultModel, size: int)
    requires
        v.shaped(),
        0 <= size <= u64::MAX,
        v.has_room(size),
    ensures
        v.allotted_index(size).len() <= v.image.len(),
{
    health::lemma_allotted(v, size);
    vault::lemma_plan(v, size);
    let n = v.header.block_count as int;
    let b = v.header.block_size as int;
    assert(n <= n * b) by (nonlinear_arith)
        requires
            0 <= n,
            1 <= b,
    ;
}

} // verus!
