//! Little-endian numbers and byte-sequence helpers.

use vstd::prelude::*;

verus! {

/// `256` to the power of `n`.
pub open spec fn pow256(n: nat) -> nat
    decreases n,
{
    if n == 0 {
        1
    } else {
        256 * pow256((n - 1) as nat)
    }
}

/// The `width` low-order bytes of `v`, least significant first.
pub open spec fn le(v: nat, width: nat) -> Seq<u8>
    decreases width,
{
    if width == 0 {
        Seq::empty()
    } else {
        seq![(v % 256) as u8] + le(v / 256, (width - 1) as nat)
    }
}

/// The number that `s` spells, least significant byte first.
pub open spec fn le_value(s: Seq<u8>) -> nat
    decreases s.len(),
{
    if s.len() == 0 {
        0
    } else {
        s[0] as nat + 256 * le_value(s.drop_first())
    }
}

/// A signed 64-bit number as the unsigned number of the same bits.
pub open spec fn signed_bits(v: i64) -> nat {
    if v >= 0 {
        v as nat
    } else {
        (v + 0x1_0000_0000_0000_0000) as nat
    }
}

/// The signed 64-bit number whose bits are those of `n`.
pub open spec fn signed_of(n: nat) -> int {
    if n < 0x8000_0000_0000_0000 {
        n as int
    } else {
        n - 0x1_0000_0000_0000_0000
    }
}

/// The UTF-8 bytes of a text.
pub open spec fn text(s: Seq<char>) -> Seq<u8> {
    vstd::utf8::encode_utf8(s)
}

/// `n` zero bytes.
pub open spec fn zeros(n: nat) -> Seq<u8> {
    Seq::new(n, |i: int| 0u8)
}

/// `data` followed by zero bytes up to a total of `width` bytes.
pub open spec fn padded(data: Seq<u8>, width: nat) -> Seq<u8> {
    data + zeros((width - data.len()) as nat)
}

pub broadcast proof fn lemma_le_length(v: nat, width: nat)
    ensures
        (#[trigger] le(v, width)).len() == width,
    decreases width,
{
    if width > 0 {
        lemma_le_length(v / 256, (width - 1) as nat);
    }
}

/// Reading back a number gives the number, if it fits the width.
pub proof fn lemma_le_round_trip(v: nat, width: nat)
    requires
        v < pow256(width),
    ensures
        le_value(le(v, width)) == v,
    decreases width,
{
    if width > 0 {
        lemma_le_round_trip(v / 256, (width - 1) as nat);
        assert(le(v, width).drop_first() =~= le(v / 256, (width - 1) as nat));
    }
}

/// Spelling the number that some bytes spell gives those bytes.
pub proof fn lemma_le_value_round_trip(s: Seq<u8>)
    ensures
        le(le_value(s), s.len()) == s,
    decreases s.len(),
{
    if s.len() > 0 {
        let rest = s.drop_first();
        lemma_le_value_round_trip(rest);
        assert(le_value(s) % 256 == s[0] as nat);
        assert(le_value(s) / 256 == le_value(rest));
        assert(seq![s[0]] + rest =~= s);
    }
}

pub proof fn lemma_le_value_bound(s: Seq<u8>)
    ensures
        le_value(s) < pow256(s.len()),
    decreases s.len(),
{
    if s.len() > 0 {
        lemma_le_value_bound(s.drop_first());
    }
}

/// The powers of 256 that bound the widths in use.
pub proof fn lemma_pow256_values()
    ensures
        pow256(0) == 1,
        pow256(1) == 0x100,
        pow256(2) == 0x1_0000,
        pow256(4) == 0x1_0000_0000,
        pow256(8) == 0x1_0000_0000_0000_0000,
        pow256(16) == 0x1_0000_0000_0000_0000_0000_0000_0000_0000,
{
    reveal_with_fuel(pow256, 17);
}

/// A signed number survives the trip through its bits.
pub proof fn lemma_signed_round_trip(v: i64)
    ensures
        signed_bits(v) < pow256(8),
        signed_of(signed_bits(v)) == v,
{
    lemma_pow256_values();
}

/// If `p + f` starts `full`, then `p` starts `full` and `f` stands in it
/// right after `p`.
pub proof fn lemma_field(p: Seq<u8>, f: Seq<u8>, full: Seq<u8>)
    requires
        (p + f).len() <= full.len(),
        full.subrange(0, (p + f).len() as int) == p + f,
    ensures
        p.len() <= full.len(),
        full.subrange(0, p.len() as int) == p,
        full.subrange(p.len() as int, (p.len() + f.len()) as int) == f,
{
    let t = full.subrange(0, (p + f).len() as int);
    assert(full.subrange(0, p.len() as int) =~= p) by {
        assert forall|i: int| 0 <= i < p.len() implies full[i] == p[i] by {
            assert(t[i] == (p + f)[i]);
        }
    }
    assert(full.subrange(p.len() as int, (p.len() + f.len()) as int) =~= f) by {
        assert forall|i: int| 0 <= i < f.len() implies full[p.len() + i] == f[i] by {
            assert(t[p.len() + i] == (p + f)[p.len() + i]);
        }
    }
}

/// Appends `width` little-endian bytes of `v`.
pub fn push_le(buf: &mut Vec<u8>, v: u128, width: usize)
    ensures
        final(buf)@ == old(buf)@ + le(v as nat, width as nat),
{
    let ghost start = buf@;
    let mut rest: u128 = v;
    let mut i: usize = 0;
    assert(start + Seq::<u8>::empty() =~= start);
    while i < width
        invariant
            i <= width,
            buf@ + le(rest as nat, (width - i) as nat) == start + le(v as nat, width as nat),
        decreases width - i,
    {
        let ghost before = buf@;
        let b: u8 = (rest % 256) as u8;
        buf.push(b);
        proof {
            assert(before.push(b) + le((rest / 256) as nat, (width - i - 1) as nat) =~= before + (
            seq![b] + le((rest / 256) as nat, (width - i - 1) as nat)));
        }
        rest = rest / 256;
        i = i + 1;
    }
    assert(buf@ + Seq::<u8>::empty() =~= buf@);
}

/// The `width` little-endian bytes of `v`.
pub fn le_bytes(v: u128, width: usize) -> (r: Vec<u8>)
    ensures
        r@ == le(v as nat, width as nat),
{
    let mut out: Vec<u8> = Vec::new();
    push_le(&mut out, v, width);
    assert(Seq::<u8>::empty() + le(v as nat, width as nat) =~= le(v as nat, width as nat));
    out
}

proof fn lemma_le_value_push(s: Seq<u8>, lo: int, hi: int)
    requires
        0 <= lo < hi <= s.len(),
    ensures
        le_value(s.subrange(lo, hi)) == s[lo] as nat + 256 * le_value(s.subrange(lo + 1, hi)),
{
    assert(s.subrange(lo, hi).drop_first() =~= s.subrange(lo + 1, hi));
}

/// The number in `buf[pos..pos + width]`.
pub fn read_le(buf: &[u8], pos: usize, width: usize) -> (r: u128)
    requires
        pos + width <= buf@.len(),
        width <= 16,
    ensures
        r == le_value(buf@.subrange(pos as int, pos + width)),
        r < pow256(width as nat),
{
    let mut acc: u128 = 0;
    let mut i: usize = width;
    assert(buf@.subrange(pos + width, pos + width) =~= Seq::<u8>::empty());
    proof {
        lemma_pow256_values();
        lemma_pow256_monotone(width as nat, 16);
    }
    while i > 0
        invariant
            i <= width <= 16,
            pos + width <= buf.len(),
            acc == le_value(buf@.subrange(pos + i, pos + width)),
            pow256(width as nat) <= 0x1_0000_0000_0000_0000_0000_0000_0000_0000,
        decreases i,
    {
        i = i - 1;
        proof {
            lemma_le_value_push(buf@, pos + i, pos + width);
            lemma_le_value_bound(buf@.subrange(pos + i, pos + width));
            lemma_pow256_monotone((width - i) as nat, width as nat);
        }
        acc = acc * 256 + buf[pos + i] as u128;
    }
    proof {
        lemma_le_value_bound(buf@.subrange(pos as int, pos + width));
    }
    acc
}

pub proof fn lemma_pow256_monotone(a: nat, b: nat)
    requires
        a <= b,
    ensures
        pow256(a) <= pow256(b),
    decreases b,
{
    if a < b {
        lemma_pow256_monotone(a, (b - 1) as nat);
    }
}

/// `n` zero bytes.
pub fn zero_vec(n: u64) -> (r: Vec<u8>)
    ensures
        r@ == zeros(n as nat),
        n <= usize::MAX,
{
    let mut out: Vec<u8> = Vec::new();
    push_zeros(&mut out, n);
    assert(out@ =~= zeros(n as nat));
    assert(out.len() == n);
    out
}

/// Appends `n` zero bytes.
pub fn push_zeros(buf: &mut Vec<u8>, n: u64)
    ensures
        final(buf)@ == old(buf)@ + zeros(n as nat),
{
    let ghost start = buf@;
    let mut i: u64 = 0;
    assert(start + zeros(0) =~= start);
    while i < n
        invariant
            i <= n,
            buf@ == start + zeros(i as nat),
        decreases n - i,
    {
        buf.push(0u8);
        i = i + 1;
        assert(buf@ =~= start + zeros(i as nat));
    }
}

/// Copies a byte slice.
pub fn to_vec(s: &[u8]) -> (r: Vec<u8>)
    ensures
        r@ == s@,
{
    let mut out: Vec<u8> = Vec::new();
    append(&mut out, s);
    assert(Seq::<u8>::empty() + s@ =~= s@);
    out
}

/// Appends the bytes of `s`.
pub fn append(buf: &mut Vec<u8>, s: &[u8])
    ensures
        final(buf)@ == old(buf)@ + s@,
{
    let ghost start = buf@;
    buf.extend_from_slice(s);
    assert(buf@ =~= start + s@);
}

/// Whether two byte slices hold the same bytes.
pub fn same_bytes(a: &[u8], b: &[u8]) -> (r: bool)
    ensures
        r == (a@ == b@),
{
    if a.len() != b.len() {
        return false;
    }
    let mut i: usize = 0;
    while i < a.len()
        invariant
            i <= a@.len(),
            a@.len() == b@.len(),
            forall|j: int| 0 <= j < i ==> a@[j] == b@[j],
        decreases a@.len() - i,
    {
        if a[i] != b[i] {
            return false;
        }
        i = i + 1;
    }
    assert(a@ =~= b@);
    true
}

} // verus!
