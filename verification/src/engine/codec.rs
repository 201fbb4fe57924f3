//! Byte cursors that keep the on-disk widths explicit.

use vstd::prelude::*;

use super::bytes;
use super::crypto;

verus! {

/// The number in the `width` bytes of `b` at `offset`.
pub open spec fn num(b: Seq<u8>, offset: int, width: int) -> nat {
    bytes::le_value(b.subrange(offset, offset + width))
}

/// The `n` bytes of `b` at `offset`.
pub open spec fn sized(b: Seq<u8>, offset: int, n: nat) -> Seq<u8> {
    b.subrange(offset, offset + n)
}

/// A field that holds `le(v, width)` reads as `v`.
pub proof fn lemma_num(b: Seq<u8>, offset: int, width: nat, v: nat)
    requires
        0 <= offset,
        offset + width <= b.len(),
        b.subrange(offset, offset + width) == bytes::le(v, width),
        v < bytes::pow256(width),
    ensures
        num(b, offset, width as int) == v,
{
    bytes::lemma_le_round_trip(v, width);
}

/// A padded field starts with its data.
pub proof fn lemma_padded(b: Seq<u8>, offset: int, data: Seq<u8>, width: nat)
    requires
        0 <= offset,
        offset + width <= b.len(),
        data.len() <= width,
        b.subrange(offset, offset + width) == bytes::padded(data, width),
    ensures
        b.subrange(offset, offset + data.len()) == data,
{
    let field = b.subrange(offset, offset + width);
    assert forall|i: int| 0 <= i < data.len() implies b[offset + i] == data[i] by {
        assert(field[i] == b[offset + i]);
        assert(bytes::padded(data, width)[i] == data[i]);
    }
    assert(b.subrange(offset, offset + data.len()) =~= data);
}

/// Padding a field to its own width adds nothing.
pub proof fn lemma_padded_full(data: Seq<u8>)
    ensures
        bytes::padded(data, data.len()) == data,
{
    assert(bytes::padded(data, data.len()) =~= data);
}

/// Appends fields of fixed width.
pub struct Writer {
    pub buf: Vec<u8>,
}

impl View for Writer {
    type V = Seq<u8>;

    open spec fn view(&self) -> Seq<u8> {
        self.buf@
    }
}

impl Writer {
    pub fn new() -> (r: Self)
        ensures
            r@ == Seq::<u8>::empty(),
    {
        Writer { buf: Vec::new() }
    }

    pub fn put_u8(&mut self, v: u8)
        ensures
            final(self)@ == old(self)@ + seq![v],
    {
        let ghost start = self@;
        self.buf.push(v);
        assert(self@ =~= start + seq![v]);
    }

    pub fn put_u16(&mut self, v: u16)
        ensures
            final(self)@ == old(self)@ + bytes::le(v as nat, 2),
    {
        bytes::push_le(&mut self.buf, v as u128, 2);
    }

    pub fn put_u32(&mut self, v: u32)
        ensures
            final(self)@ == old(self)@ + bytes::le(v as nat, 4),
    {
        bytes::push_le(&mut self.buf, v as u128, 4);
    }

    pub fn put_u64(&mut self, v: u64)
        ensures
            final(self)@ == old(self)@ + bytes::le(v as nat, 8),
    {
        bytes::push_le(&mut self.buf, v as u128, 8);
    }

    pub fn put_i64(&mut self, v: i64)
        ensures
            final(self)@ == old(self)@ + bytes::le(bytes::signed_bits(v), 8),
    {
        let n: u128 = if v >= 0 {
            v as u128
        } else {
            (v as i128 + 0x1_0000_0000_0000_0000i128) as u128
        };
        bytes::push_le(&mut self.buf, n, 8);
    }

    pub fn put_u128(&mut self, v: u128)
        ensures
            final(self)@ == old(self)@ + bytes::le(v as nat, 16),
    {
        bytes::push_le(&mut self.buf, v, 16);
    }

    pub fn put_bytes(&mut self, v: &[u8])
        ensures
            final(self)@ == old(self)@ + v@,
    {
        bytes::append(&mut self.buf, v);
    }

    /// Appends `data`, filled up with zero bytes to `width`.
    pub fn put_fixed(&mut self, data: &[u8], width: u64)
        requires
            data@.len() <= width,
        ensures
            final(self)@ == old(self)@ + bytes::padded(data@, width as nat),
    {
        let ghost start = self@;
        bytes::append(&mut self.buf, data);
        bytes::push_zeros(&mut self.buf, width - data.len() as u64);
        assert(self@ =~= start + bytes::padded(data@, width as nat));
    }

    /// Fills up with zero bytes to a total of `width`.
    pub fn fill(self, width: u64) -> (r: Vec<u8>)
        requires
            self@.len() <= width,
        ensures
            r@ == bytes::padded(self@, width as nat),
    {
        let mut buf = self.buf;
        let have: u64 = buf.len() as u64;
        bytes::push_zeros(&mut buf, width - have);
        buf
    }
}

/// Reads fields of fixed width one after another.
pub struct Reader<'a> {
    pub buf: &'a [u8],
    pub pos: usize,
}

impl<'a> Reader<'a> {
    /// Whether `n` more bytes are there.
    pub open spec fn has(&self, n: int) -> bool {
        self.pos + n <= self.buf@.len()
    }

    pub fn new(buf: &'a [u8]) -> (r: Self)
        ensures
            r.buf@ == buf@,
            r.pos == 0,
    {
        Reader { buf, pos: 0 }
    }

    fn take_num(&mut self, width: usize) -> (r: u128)
        requires
            old(self).has(width as int),
            width <= 16,
        ensures
            r == num(old(self).buf@, old(self).pos as int, width as int),
            r < bytes::pow256(width as nat),
            final(self).buf@ == old(self).buf@,
            final(self).pos == old(self).pos + width,
    {
        assert(self.pos + width <= self.buf.len());
        let v: u128 = bytes::read_le(self.buf, self.pos, width);
        self.pos = self.pos + width;
        v
    }

    pub fn take_u8(&mut self) -> (r: u8)
        requires
            old(self).has(1),
        ensures
            r == old(self).buf@[old(self).pos as int],
            final(self).buf@ == old(self).buf@,
            final(self).pos == old(self).pos + 1,
    {
        assert(self.pos + 1 <= self.buf.len());
        let v: u8 = self.buf[self.pos];
        self.pos = self.pos + 1;
        v
    }

    pub fn take_u16(&mut self) -> (r: u16)
        requires
            old(self).has(2),
        ensures
            r == num(old(self).buf@, old(self).pos as int, 2),
            final(self).buf@ == old(self).buf@,
            final(self).pos == old(self).pos + 2,
    {
        proof {
            bytes::lemma_pow256_values();
        }
        self.take_num(2) as u16
    }

    pub fn take_u32(&mut self) -> (r: u32)
        requires
            old(self).has(4),
        ensures
            r == num(old(self).buf@, old(self).pos as int, 4),
            final(self).buf@ == old(self).buf@,
            final(self).pos == old(self).pos + 4,
    {
        proof {
            bytes::lemma_pow256_values();
        }
        self.take_num(4) as u32
    }

    pub fn take_u64(&mut self) -> (r: u64)
        requires
            old(self).has(8),
        ensures
            r == num(old(self).buf@, old(self).pos as int, 8),
            final(self).buf@ == old(self).buf@,
            final(self).pos == old(self).pos + 8,
    {
        proof {
            bytes::lemma_pow256_values();
        }
        self.take_num(8) as u64
    }

    pub fn take_i64(&mut self) -> (r: i64)
        requires
            old(self).has(8),
        ensures
            r == bytes::signed_of(num(old(self).buf@, old(self).pos as int, 8)),
            final(self).buf@ == old(self).buf@,
            final(self).pos == old(self).pos + 8,
    {
        proof {
            bytes::lemma_pow256_values();
        }
        let n: u128 = self.take_num(8);
        if n < 0x8000_0000_0000_0000 {
            n as i64
        } else {
            (n as i128 - 0x1_0000_0000_0000_0000i128) as i64
        }
    }

    pub fn take_u128(&mut self) -> (r: u128)
        requires
            old(self).has(16),
        ensures
            r == num(old(self).buf@, old(self).pos as int, 16),
            final(self).buf@ == old(self).buf@,
            final(self).pos == old(self).pos + 16,
    {
        self.take_num(16)
    }

    pub fn take_bytes(&mut self, n: usize) -> (r: &'a [u8])
        requires
            old(self).has(n as int),
        ensures
            r@ == old(self).buf@.subrange(old(self).pos as int, old(self).pos + n),
            final(self).buf@ == old(self).buf@,
            final(self).pos == old(self).pos + n,
    {
        assert(self.pos + n <= self.buf.len());
        let v = vstd::slice::slice_subrange(self.buf, self.pos, self.pos + n);
        self.pos = self.pos + n;
        v
    }

    pub fn take_array32(&mut self) -> (r: [u8; 32])
        requires
            old(self).has(32),
        ensures
            r@ == old(self).buf@.subrange(old(self).pos as int, old(self).pos + 32),
            final(self).buf@ == old(self).buf@,
            final(self).pos == old(self).pos + 32,
    {
        crypto::array32(self.take_bytes(32))
    }

    pub fn take_array64(&mut self) -> (r: [u8; 64])
        requires
            old(self).has(64),
        ensures
            r@ == old(self).buf@.subrange(old(self).pos as int, old(self).pos + 64),
            final(self).buf@ == old(self).buf@,
            final(self).pos == old(self).pos + 64,
    {
        crypto::array64(self.take_bytes(64))
    }
}

} // verus!
