//! What a patch would make of a container, read without writing anything.

use vstd::prelude::*;

use super::bytes;
use super::error::{self, Fault, Result, VaultError};
use super::image::{self, Image};
use super::model;
use super::replay;
use super::vault;

verus! {

/// A container as it would read with these ranges laid over it, in order.
pub struct Preview<'a> {
    image: &'a Image,
    ranges: &'a [(u64, Vec<u8>)],
    len: u64,
}

impl<'a> Preview<'a> {
    /// The bytes of the patched container.
    pub closed spec fn view(&self) -> Seq<u8> {
        model::patched(self.image@, vault::ranges_of(self.ranges@), self.ranges@.len() as int).0
    }

    /// Every range can be written.
    pub closed spec fn wf(&self) -> bool {
        &&& self.image.wf()
        &&& model::patched(
            self.image@,
            vault::ranges_of(self.ranges@),
            self.ranges@.len() as int,
        ).1 is Ok
        &&& self@.len() == self.len
        &&& self.len <= image::MAX_LEN
    }

    /// The container with these ranges laid over it; refused if one of them
    /// cannot be written.
    pub fn new(image: &'a Image, ranges: &'a [(u64, Vec<u8>)]) -> (r: Result<Preview<'a>>)
        requires
            image.wf(),
        ensures
            ({
                let (patched, done) = model::patched(
                    image@,
                    vault::ranges_of(ranges@),
                    ranges@.len() as int,
                );
                match r {
                    Ok(p) => p.wf() && p@ == patched && done is Ok,
                    Err(e) => done == Err::<(), Fault>(e@),
                }
            }),
    {
        let ghost rs = vault::ranges_of(ranges@);
        let mut len: u64 = image.len();
        let mut k: usize = 0;
        while k < ranges.len()
            invariant
                image.wf(),
                rs == vault::ranges_of(ranges@),
                k <= ranges@.len(),
                len <= image::MAX_LEN,
                model::patched(image@, rs, k as int).1 is Ok,
                model::patched(image@, rs, k as int).0.len() == len,
            decreases ranges@.len() - k,
        {
            assert(rs[k as int] == (ranges@[k as int].0, ranges@[k as int].1@));
            let offset: u64 = ranges[k].0;
            let n: u64 = ranges[k].1.len() as u64;
            if offset > image::MAX_LEN || n > image::MAX_LEN - offset {
                proof {
                    vault::lemma_patched_err(image@, rs, k as int, rs.len() as int);
                }
                return Err(VaultError::Io(image::TOO_FAR));
            }
            if n > 0 && len < offset + n {
                len = offset + n;
            }
            k = k + 1;
        }
        Ok(Preview { image, ranges, len })
    }

    /// The `n` bytes at `offset`.
    pub fn read(&self, offset: u64, n: u64) -> (r: Result<Vec<u8>>)
        requires
            self.wf(),
        ensures
            error::outcome(r) == image::bytes_at(self@, offset as int, n as int),
    {
        let mut out: Vec<u8> = Vec::new();
        if n == 0 {
            assert(out@ =~= Seq::<u8>::empty());
            return Ok(out);
        }
        if offset > self.len || n > self.len - offset {
            return Err(VaultError::Io(image::UNEXPECTED_END));
        }
        let stored: u64 = self.image.len();
        if offset < stored {
            let there: u64 = if n < stored - offset {
                n
            } else {
                stored - offset
            };
            match self.image.read(offset, there) {
                Ok(b) => {
                    out = b;
                },
                Err(_) => {
                    assert(false);
                },
            }
        }
        let rest: u64 = n - out.len() as u64;
        bytes::push_zeros(&mut out, rest);
        let ghost rs = vault::ranges_of(self.ranges@);
        let mut k: usize = 0;
        while k < self.ranges.len()
            invariant
                self.wf(),
                rs == vault::ranges_of(self.ranges@),
                k <= self.ranges@.len(),
                out@.len() == n,
                offset + n <= self.len,
                forall|j: int|
                    0 <= j < n ==> #[trigger] out@[j] == replay::byte_at(
                        model::patched(self.image@, rs, k as int).0,
                        offset + j,
                    ),
            decreases self.ranges@.len() - k,
        {
            assert(rs[k as int] == (self.ranges@[k as int].0, self.ranges@[k as int].1@));
            proof {
                replay::lemma_prefix_ok(self.image@, rs, k as int, rs.len() as int);
            }
            lay_over(&mut out, offset, self.ranges[k].0, self.ranges[k].1.as_slice());
            k = k + 1;
        }
        assert(out@ =~= self@.subrange(offset as int, offset + n));
        Ok(out)
    }

    /// Record number `i` of a region of records of `size` bytes.
    pub fn read_record(&self, base: u64, i: u64, size: u32) -> (r: Result<Vec<u8>>)
        requires
            self.wf(),
        ensures
            error::outcome(r) == image::bytes_at(self@, base + i * size, size as int),
    {
        proof {
            let a = i as int;
            let b = size as int;
            assert(0 <= a * b <= 0xffff_ffff_ffff_ffff * 0xffff_ffff) by (nonlinear_arith)
                requires
                    0 <= a <= 0xffff_ffff_ffff_ffff,
                    0 <= b <= 0xffff_ffff,
            ;
        }
        let at: u128 = base as u128 + i as u128 * size as u128;
        if size == 0 {
            return self.read(0, 0);
        }
        if at + size as u128 > self.len as u128 {
            return Err(VaultError::Io(image::UNEXPECTED_END));
        }
        self.read(at as u64, size as u64)
    }
}

/// Lays the range at `at` over a stretch of bytes that starts at `offset`.
fn lay_over(out: &mut Vec<u8>, offset: u64, at: u64, data: &[u8])
    requires
        offset + old(out)@.len() <= image::MAX_LEN,
        image::writable(at as int, data@),
    ensures
        final(out)@.len() == old(out)@.len(),
        forall|j: int|
            0 <= j < old(out)@.len() ==> #[trigger] final(out)@[j] == if at <= offset + j < at
                + data@.len() {
                data@[offset + j - at]
            } else {
                old(out)@[j]
            },
{
    let ghost before = out@;
    assert(data@.len() == data.len() && out@.len() == out.len());
    let end: u64 = offset + out.len() as u64;
    let stop: u64 = at + data.len() as u64;
    let mut p: u64 = if at < offset {
        offset
    } else {
        at
    };
    let ghost first = p;
    while p < end && p < stop
        invariant
            before == old(out)@,
            before.len() == out@.len(),
            out@.len() <= usize::MAX,
            data@.len() <= usize::MAX,
            end == offset + before.len(),
            stop == at + data@.len(),
            end <= image::MAX_LEN,
            offset <= first <= p,
            p == first || p <= stop && p <= end,
            at <= first,
            first == offset || first == at,
            forall|j: int|
                0 <= j < before.len() ==> #[trigger] out@[j] == if first <= offset + j < p {
                    data@[offset + j - at]
                } else {
                    before[j]
                },
        decreases end - p,
    {
        out[(p - offset) as usize] = data[(p - at) as usize];
        p = p + 1;
    }
}

} // verus!
