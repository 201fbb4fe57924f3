//! Free/occupied block bitmap.
//!
//! One bit per block, most significant bit first within each byte. The bytes
//! are stored verbatim in the container's bitmap region, so a reopened vault
//! knows which blocks are in use without scanning the file table.

use vstd::prelude::*;

use super::bytes;

verus! {

/// Whether bit `k` of `b` is set, counting from the most significant bit.
pub open spec fn bit(b: u8, k: u64) -> bool {
    b & (0x80u8 >> k) != 0
}

/// Whether the bitmap marks block `i` as occupied.
pub open spec fn marked(bits: Seq<u8>, i: nat) -> bool {
    bit(bits[(i / 8) as int], (i % 8) as u64)
}

/// The bitmap with the mark of block `i` set to `occupied`.
pub open spec fn with_mark(bits: Seq<u8>, i: nat, occupied: bool) -> Seq<u8> {
    let b = bits[(i / 8) as int];
    let mask = 0x80u8 >> ((i % 8) as u64);
    bits.update((i / 8) as int, if occupied { b | mask } else { b & !mask })
}

/// The bitmap after setting the marks of all `blocks` below `count`, in order.
pub open spec fn with_marks(bits: Seq<u8>, blocks: Seq<u64>, count: nat, occupied: bool) -> Seq<u8>
    decreases blocks.len(),
{
    if blocks.len() == 0 {
        bits
    } else {
        let before = with_marks(bits, blocks.drop_last(), count, occupied);
        if (blocks.last() as nat) < count {
            with_mark(before, blocks.last() as nat, occupied)
        } else {
            before
        }
    }
}

/// How many bytes a bitmap for `count` blocks takes.
pub open spec fn bitmap_bytes(count: nat) -> nat {
    (count + 7) / 8
}

/// The free blocks below `n`, in ascending order.
pub open spec fn free_blocks(bits: Seq<u8>, n: nat) -> Seq<u64>
    decreases n,
{
    if n == 0 {
        Seq::empty()
    } else {
        let before = free_blocks(bits, (n - 1) as nat);
        if marked(bits, (n - 1) as nat) {
            before
        } else {
            before.push((n - 1) as u64)
        }
    }
}

/// The first `want` entries of `s`, or all of them if there are fewer.
pub open spec fn at_most<T>(s: Seq<T>, want: nat) -> Seq<T> {
    if want <= s.len() {
        s.take(want as int)
    } else {
        s
    }
}

proof fn lemma_bit_set(b: u8, k: u64, j: u64)
    requires
        k < 8,
        j < 8,
    ensures
        bit(b | (0x80u8 >> k), j) == (j == k || bit(b, j)),
        bit(b & !(0x80u8 >> k), j) == (j != k && bit(b, j)),
{
    assert((b | (0x80u8 >> k)) & (0x80u8 >> j) != 0 <==> (j == k || b & (0x80u8 >> j) != 0))
        by (bit_vector)
        requires
            k < 8,
            j < 8,
    ;
    assert((b & !(0x80u8 >> k)) & (0x80u8 >> j) != 0 <==> (j != k && b & (0x80u8 >> j) != 0))
        by (bit_vector)
        requires
            k < 8,
            j < 8,
    ;
}

/// Setting one mark changes that mark and no other.
pub proof fn lemma_with_mark(bits: Seq<u8>, i: nat, occupied: bool, j: nat)
    requires
        i / 8 < bits.len(),
        j / 8 < bits.len(),
    ensures
        with_mark(bits, i, occupied).len() == bits.len(),
        marked(with_mark(bits, i, occupied), j) == if i == j {
            occupied
        } else {
            marked(bits, j)
        },
{
    lemma_bit_set(bits[(i / 8) as int], (i % 8) as u64, (j % 8) as u64);
    if i / 8 == j / 8 && i % 8 == j % 8 {
        assert(i == j);
    }
}

/// Setting several marks changes the marks of those blocks and no other.
pub proof fn lemma_with_marks(bits: Seq<u8>, blocks: Seq<u64>, count: nat, occupied: bool, j: nat)
    requires
        bits.len() == bitmap_bytes(count),
        j < count,
    ensures
        with_marks(bits, blocks, count, occupied).len() == bits.len(),
        marked(with_marks(bits, blocks, count, occupied), j) == if blocks.contains(j as u64)
            && j <= u64::MAX {
            occupied
        } else {
            marked(bits, j)
        },
    decreases blocks.len(),
{
    if blocks.len() > 0 {
        let before = with_marks(bits, blocks.drop_last(), count, occupied);
        lemma_with_marks(bits, blocks.drop_last(), count, occupied, j);
        assert(blocks =~= blocks.drop_last().push(blocks.last()));
        if (blocks.last() as nat) < count {
            lemma_with_mark(before, blocks.last() as nat, occupied, j);
        }
        if j <= u64::MAX {
            if blocks.drop_last().contains(j as u64) {
                let k = choose|k: int|
                    0 <= k < blocks.drop_last().len() && blocks.drop_last()[k] == j as u64;
                assert(blocks[k] == j as u64);
            }
            if blocks.contains(j as u64) && blocks.last() != j as u64 {
                let k = choose|k: int| 0 <= k < blocks.len() && blocks[k] == j as u64;
                assert(blocks.drop_last()[k] == j as u64);
            }
            if blocks.last() == j as u64 {
                assert(blocks[blocks.len() - 1] == j as u64);
            }
        }
    }
}

/// What the list of free blocks holds: the free blocks below `n`, ascending.
pub proof fn lemma_free_blocks(bits: Seq<u8>, n: nat)
    requires
        n <= u64::MAX + 1,
    ensures
        free_blocks(bits, n).len() <= n,
        forall|k: int|
            0 <= k < free_blocks(bits, n).len() ==> (#[trigger] free_blocks(bits, n)[k] as nat) < n
                && !marked(bits, free_blocks(bits, n)[k] as nat),
        forall|a: int, b: int|
            0 <= a < b < free_blocks(bits, n).len() ==> free_blocks(bits, n)[a] < free_blocks(
                bits,
                n,
            )[b],
        forall|i: u64|
            #![trigger free_blocks(bits, n).contains(i)]
            i < n && !marked(bits, i as nat) ==> free_blocks(bits, n).contains(i),
    decreases n,
{
    if n > 0 {
        let m = (n - 1) as nat;
        lemma_free_blocks(bits, m);
        let before = free_blocks(bits, m);
        let after = free_blocks(bits, n);
        assert forall|i: u64| #![trigger after.contains(i)] i < n && !marked(
            bits,
            i as nat,
        ) implies after.contains(i) by {
            if i < m {
                assert(before.contains(i));
                let k = choose|k: int| 0 <= k < before.len() && before[k] == i;
                assert(after[k] == i);
            } else {
                assert(after[after.len() - 1] == i);
            }
        }
    }
}

proof fn lemma_free_blocks_prefix(bits: Seq<u8>, n: nat, m: nat)
    requires
        n <= m,
    ensures
        free_blocks(bits, n).len() <= free_blocks(bits, m).len(),
        free_blocks(bits, m).take(free_blocks(bits, n).len() as int) == free_blocks(bits, n),
    decreases m,
{
    if n < m {
        lemma_free_blocks_prefix(bits, n, (m - 1) as nat);
        assert(free_blocks(bits, m).take(free_blocks(bits, n).len() as int) =~= free_blocks(
            bits,
            (m - 1) as nat,
        ).take(free_blocks(bits, n).len() as int));
    } else {
        assert(free_blocks(bits, m).take(free_blocks(bits, n).len() as int) =~= free_blocks(
            bits,
            n,
        ));
    }
}

/// Equal marks give equal lists of free blocks.
pub proof fn lemma_free_blocks_cong(a: Seq<u8>, b: Seq<u8>, n: nat)
    requires
        forall|i: nat| i < n ==> marked(a, i) == marked(b, i),
    ensures
        free_blocks(a, n) == free_blocks(b, n),
    decreases n,
{
    if n > 0 {
        lemma_free_blocks_cong(a, b, (n - 1) as nat);
        assert(marked(a, (n - 1) as nat) == marked(b, (n - 1) as nat));
    }
}

proof fn lemma_free_count_mark(bits: Seq<u8>, i: nat, occupied: bool, count: nat, n: nat)
    requires
        bits.len() == bitmap_bytes(count),
        i < count,
        n <= count,
        marked(bits, i) != occupied,
    ensures
        free_blocks(with_mark(bits, i, occupied), n).len() == free_blocks(bits, n).len() + (if i
            < n {
            if occupied {
                -1int
            } else {
                1int
            }
        } else {
            0int
        }),
    decreases n,
{
    if n > 0 {
        lemma_free_count_mark(bits, i, occupied, count, (n - 1) as nat);
        lemma_with_mark(bits, i, occupied, (n - 1) as nat);
    }
}

/// Marking distinct free blocks takes them from the pool, and freeing distinct
/// occupied blocks puts them back.
pub proof fn lemma_free_count(bits: Seq<u8>, blocks: Seq<u64>, count: nat, occupied: bool)
    requires
        bits.len() == bitmap_bytes(count),
        blocks.no_duplicates(),
        forall|k: int|
            0 <= k < blocks.len() ==> (#[trigger] blocks[k] as nat) < count && marked(
                bits,
                blocks[k] as nat,
            ) != occupied,
    ensures
        free_blocks(with_marks(bits, blocks, count, occupied), count).len() == free_blocks(
            bits,
            count,
        ).len() + (if occupied {
            -(blocks.len() as int)
        } else {
            blocks.len() as int
        }),
    decreases blocks.len(),
{
    if blocks.len() > 0 {
        let front = blocks.drop_last();
        let last = blocks.last();
        let before = with_marks(bits, front, count, occupied);
        assert forall|k: int| 0 <= k < front.len() implies (#[trigger] front[k] as nat) < count
            && marked(bits, front[k] as nat) != occupied by {
            assert(front[k] == blocks[k]);
        }
        assert(front.no_duplicates()) by {
            assert forall|a: int, b: int|
                0 <= a < front.len() && 0 <= b < front.len() && a != b implies front[a]
                != front[b] by {
                assert(blocks[a] != blocks[b]);
            }
        }
        lemma_free_count(bits, front, count, occupied);
        assert(blocks[blocks.len() - 1] == last);
        lemma_with_marks(bits, front, count, occupied, last as nat);
        if front.contains(last) {
            let k = choose|k: int| 0 <= k < front.len() && front[k] == last;
            assert(blocks[k] == blocks[blocks.len() - 1]);
        }
        lemma_free_count_mark(before, last as nat, occupied, count, count);
    }
}

/// Which data blocks of a vault are in use.
#[derive(Debug, Clone)]
pub struct BlockAllocator {
    bits: Vec<u8>,
    block_count: u64,
}

impl View for BlockAllocator {
    type V = Seq<u8>;

    /// The bitmap's bytes.
    closed spec fn view(&self) -> Seq<u8> {
        self.bits@
    }
}

impl BlockAllocator {
    /// The number of blocks that are managed.
    pub closed spec fn blocks(&self) -> u64 {
        self.block_count
    }

    /// The bitmap has exactly the bytes that its blocks need.
    pub open spec fn wf(&self) -> bool {
        self@.len() == bitmap_bytes(self.blocks() as nat)
    }

    /// A bitmap with every block free.
    pub fn new(block_count: u64) -> (r: Self)
        ensures
            r.wf(),
            r.blocks() == block_count,
            r@ == bytes::zeros(bitmap_bytes(block_count as nat)),
    {
        let byte_len: u64 = Self::bitmap_len_bytes(block_count);
        let bits: Vec<u8> = bytes::zero_vec(byte_len);
        BlockAllocator { bits, block_count }
    }

    /// Takes stored bitmap bytes, cut or filled up with zero bytes to the
    /// length that `block_count` blocks need.
    pub fn from_bytes(bits: Vec<u8>, block_count: u64) -> (r: Self)
        ensures
            r.wf(),
            r.blocks() == block_count,
            r@ == resized(bits@, bitmap_bytes(block_count as nat)),
    {
        let ghost stored = bits@;
        let mut bits = bits;
        let needed: u64 = Self::bitmap_len_bytes(block_count);
        let have: u64 = bits.len() as u64;
        if needed < have {
            bits.truncate(needed as usize);
        } else {
            bytes::push_zeros(&mut bits, needed - have);
        }
        assert(bits@ =~= resized(stored, needed as nat));
        BlockAllocator { bits, block_count }
    }

    /// How many bytes a bitmap for `block_count` blocks takes.
    pub fn bitmap_len_bytes(block_count: u64) -> (r: u64)
        ensures
            r == bitmap_bytes(block_count as nat),
    {
        if block_count % 8 == 0 {
            block_count / 8
        } else {
            block_count / 8 + 1
        }
    }

    /// The bitmap's bytes, as stored in the container.
    pub fn as_bytes(&self) -> (r: &[u8])
        ensures
            r@ == self@,
    {
        self.bits.as_slice()
    }

    /// Whether `index` is a block and is free.
    pub fn is_free(&self, index: u64) -> (r: bool)
        requires
            self.wf(),
        ensures
            r == (index < self.blocks() && !marked(self@, index as nat)),
    {
        if index >= self.block_count {
            return false;
        }
        assert(index / 8 < self.bits.len());
        let byte: u8 = self.bits[(index / 8) as usize];
        let k: u64 = index % 8;
        byte & (0x80u8 >> k) == 0
    }

    fn set(&mut self, index: u64, occupied: bool)
        requires
            old(self).wf(),
            index < old(self).blocks(),
        ensures
            final(self).wf(),
            final(self).blocks() == old(self).blocks(),
            final(self)@ == with_mark(old(self)@, index as nat, occupied),
    {
        assert(index / 8 < self.bits.len());
        let at: usize = (index / 8) as usize;
        let byte: u8 = self.bits[at];
        let k: u64 = index % 8;
        let mask: u8 = 0x80u8 >> k;
        if occupied {
            self.bits[at] = byte | mask;
        } else {
            self.bits[at] = byte & !mask;
        }
    }

    /// The number of free blocks.
    pub fn free_count(&self) -> (r: u64)
        requires
            self.wf(),
        ensures
            r == free_blocks(self@, self.blocks() as nat).len(),
    {
        let mut i: u64 = 0;
        let mut n: u64 = 0;
        while i < self.block_count
            invariant
                self.wf(),
                i <= self.block_count,
                self.block_count == self.blocks(),
                n == free_blocks(self@, i as nat).len(),
                n <= i,
            decreases self.block_count - i,
        {
            if self.is_free(i) {
                n = n + 1;
            }
            i = i + 1;
        }
        n
    }

    /// The number of occupied blocks.
    pub fn occupied_count(&self) -> (r: u64)
        requires
            self.wf(),
        ensures
            r == self.blocks() - free_blocks(self@, self.blocks() as nat).len(),
    {
        proof {
            lemma_free_blocks(self@, self.blocks() as nat);
        }
        self.block_count - self.free_count()
    }

    /// Marks the first `count` free blocks as occupied and returns them in
    /// ascending order; fewer only if the pool runs out.
    pub fn allocate(&mut self, count: u64) -> (r: Vec<u64>)
        requires
            old(self).wf(),
        ensures
            final(self).wf(),
            final(self).blocks() == old(self).blocks(),
            r@ == at_most(free_blocks(old(self)@, old(self).blocks() as nat), count as nat),
            final(self)@ == with_marks(old(self)@, r@, old(self).blocks() as nat, true),
    {
        let ghost start = self@;
        let ghost n = self.blocks() as nat;
        let mut out: Vec<u64> = Vec::new();
        let mut i: u64 = 0;
        while i < self.block_count && (out.len() as u64) < count
            invariant
                self.wf(),
                self.block_count == self.blocks(),
                self.blocks() == n,
                start.len() == bitmap_bytes(n),
                i <= n,
                out@.len() <= count,
                out@ == free_blocks(start, i as nat),
                self@ == with_marks(start, out@, n, true),
            decreases n - i,
        {
            let ghost so_far = out@;
            proof {
                lemma_with_marks(start, out@, n, true, i as nat);
                lemma_free_blocks(start, i as nat);
            }
            if self.is_free(i) {
                self.set(i, true);
                out.push(i);
                assert(out@.drop_last() =~= so_far);
            }
            i = i + 1;
        }
        proof {
            lemma_free_blocks_prefix(start, i as nat, n);
            if i == n {
                assert(out@.take(out@.len() as int) =~= out@);
            }
        }
        out
    }

    /// Marks `indices` as free; those that are no blocks are skipped.
    pub fn free(&mut self, indices: &[u64])
        requires
            old(self).wf(),
        ensures
            final(self).wf(),
            final(self).blocks() == old(self).blocks(),
            final(self)@ == with_marks(old(self)@, indices@, old(self).blocks() as nat, false),
    {
        self.set_all(indices, false);
    }

    /// Marks `indices` as occupied; those that are no blocks are skipped.
    pub fn mark_occupied(&mut self, indices: &[u64])
        requires
            old(self).wf(),
        ensures
            final(self).wf(),
            final(self).blocks() == old(self).blocks(),
            final(self)@ == with_marks(old(self)@, indices@, old(self).blocks() as nat, true),
    {
        self.set_all(indices, true);
    }

    fn set_all(&mut self, indices: &[u64], occupied: bool)
        requires
            old(self).wf(),
        ensures
            final(self).wf(),
            final(self).blocks() == old(self).blocks(),
            final(self)@ == with_marks(old(self)@, indices@, old(self).blocks() as nat, occupied),
    {
        let ghost start = self@;
        let mut k: usize = 0;
        while k < indices.len()
            invariant
                self.wf(),
                self.blocks() == old(self).blocks(),
                k <= indices@.len(),
                self@ == with_marks(start, indices@.take(k as int), self.blocks() as nat, occupied),
            decreases indices@.len() - k,
        {
            let i: u64 = indices[k];
            assert(indices@.take(k + 1).drop_last() =~= indices@.take(k as int));
            if i < self.block_count {
                self.set(i, occupied);
            }
            k = k + 1;
        }
        assert(indices@.take(k as int) =~= indices@);
    }
}

/// `s` cut or filled up with zero bytes to `n` bytes.
pub open spec fn resized(s: Seq<u8>, n: nat) -> Seq<u8> {
    Seq::new(
        n,
        |i: int|
            if i < s.len() {
                s[i]
            } else {
                0u8
            },
    )
}

/// Writing a bitmap out and taking it back keeps every mark.
pub proof fn law_bitmap_round_trip(a: BlockAllocator)
    requires
        a.wf(),
    ensures
        resized(a@, bitmap_bytes(a.blocks() as nat)) == a@,
{
    assert(resized(a@, bitmap_bytes(a.blocks() as nat)) =~= a@);
}

} // verus!
