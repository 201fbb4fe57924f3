//! The container's bytes, held sparsely.
//!
//! A vault reserves its whole capacity up front, but most of it stays zero for
//! a long time. An [`Image`] is a byte sequence of any length that keeps only
//! the pages that were written.

use std::collections::HashMap;
use vstd::prelude::*;

use super::bytes;
use super::error::{self, Fault, Result, VaultError};

verus! {

/// Bytes per page.
const PAGE: u64 = 4096;

/// The largest length that a container can have.
pub const MAX_LEN: u64 = 0x7fff_ffff_ffff_ffff;

/// Reading past the end of a container.
pub const UNEXPECTED_END: &'static str = "failed to fill whole buffer";

/// Writing past the largest length a container can have.
pub const TOO_FAR: &'static str = "write past the largest container length";

/// The `n` bytes at `offset`, if the container holds them all.
pub open spec fn bytes_at(image: Seq<u8>, offset: int, n: int) -> core::result::Result<
    Seq<u8>,
    Fault,
> {
    if n == 0 {
        Ok(Seq::empty())
    } else if offset + n <= image.len() {
        Ok(image.subrange(offset, offset + n))
    } else {
        Err(Fault::Io(UNEXPECTED_END))
    }
}

/// The container with `data` laid over it at `offset`, extended with zero
/// bytes where it was too short.
pub open spec fn overlaid(image: Seq<u8>, offset: int, data: Seq<u8>) -> Seq<u8> {
    if data.len() == 0 {
        image
    } else {
        Seq::new(
            if image.len() < offset + data.len() {
                (offset + data.len()) as nat
            } else {
                image.len()
            },
            |i: int|
                if offset <= i < offset + data.len() {
                    data[i - offset]
                } else if i < image.len() {
                    image[i]
                } else {
                    0u8
                },
        )
    }
}

/// Whether `data` can be written at `offset`.
pub open spec fn writable(offset: int, data: Seq<u8>) -> bool {
    offset + data.len() <= MAX_LEN
}

/// A range that the written range does not touch reads as before.
pub proof fn lemma_overlaid_elsewhere(
    image: Seq<u8>,
    offset: int,
    data: Seq<u8>,
    at: int,
    n: int,
)
    requires
        0 <= offset,
        0 <= at,
        0 <= n,
        at + n <= image.len(),
        at + n <= offset || offset + data.len() <= at,
    ensures
        overlaid(image, offset, data).len() >= image.len(),
        overlaid(image, offset, data).subrange(at, at + n) == image.subrange(at, at + n),
{
    assert(overlaid(image, offset, data).subrange(at, at + n) =~= image.subrange(at, at + n));
}

/// The written range reads as what was written.
pub proof fn lemma_overlaid_there(image: Seq<u8>, offset: int, data: Seq<u8>)
    requires
        0 <= offset,
        offset + data.len() <= image.len(),
    ensures
        overlaid(image, offset, data).len() == image.len(),
        overlaid(image, offset, data).subrange(offset, offset + data.len()) == data,
{
    assert(overlaid(image, offset, data).subrange(offset, offset + data.len()) =~= data);
}

/// A sparse byte sequence.
pub struct Image {
    len: u64,
    pages: HashMap<u64, Vec<u8>>,
}

impl View for Image {
    type V = Seq<u8>;

    closed spec fn view(&self) -> Seq<u8> {
        Seq::new(self.len as nat, |i: int| self.byte(i))
    }
}

impl Image {
    spec fn byte(&self, i: int) -> u8 {
        if self.pages@.contains_key((i / 4096) as u64) {
            self.pages@[(i / 4096) as u64]@[i % 4096]
        } else {
            0u8
        }
    }

    /// Every page is whole, and zero beyond the end.
    pub closed spec fn wf(&self) -> bool {
        &&& self.len <= MAX_LEN
        &&& forall|k: u64| #[trigger]
            self.pages@.contains_key(k) ==> self.pages@[k]@.len() == 4096
        &&& forall|i: int| self.len <= i <= MAX_LEN ==> #[trigger] self.byte(i) == 0u8
    }

    /// No image is longer than the largest container.
    pub proof fn lemma_len(&self)
        requires
            self.wf(),
        ensures
            self@.len() <= MAX_LEN,
    {
    }

    /// `len` zero bytes.
    pub fn zeroed(len: u64) -> (r: Self)
        requires
            len <= MAX_LEN,
        ensures
            r.wf(),
            r@ == bytes::zeros(len as nat),
    {
        broadcast use vstd::std_specs::hash::group_hash_axioms;

        let r = Image { len, pages: HashMap::new() };
        assert(r@ =~= bytes::zeros(len as nat));
        r
    }

    /// The number of bytes.
    pub fn len(&self) -> (r: u64)
        requires
            self.wf(),
        ensures
            r == self@.len(),
            r <= MAX_LEN,
    {
        self.len
    }

    /// The `n` bytes at `offset`.
    pub fn read(&self, offset: u64, n: u64) -> (r: Result<Vec<u8>>)
        requires
            self.wf(),
        ensures
            error::outcome(r) == bytes_at(self@, offset as int, n as int),
    {
        let mut out: Vec<u8> = Vec::new();
        if n == 0 {
            assert(out@ =~= Seq::<u8>::empty());
            return Ok(out);
        }
        if offset > self.len || n > self.len - offset {
            return Err(VaultError::Io(UNEXPECTED_END));
        }
        let mut i: u64 = 0;
        while i < n
            invariant
                self.wf(),
                i <= n,
                offset + n <= self@.len(),
                offset + n <= u64::MAX,
                out@ == self@.subrange(offset as int, offset + i),
            decreases n - i,
        {
            let at: u64 = offset + i;
            let room: u64 = PAGE - at % PAGE;
            let run: u64 = if n - i < room {
                n - i
            } else {
                room
            };
            self.read_run(at, run, &mut out);
            i = i + run;
            assert(out@ =~= self@.subrange(offset as int, offset + i));
        }
        Ok(out)
    }

    /// Appends the `n` bytes at `offset`, which all lie in one page.
    fn read_run(&self, offset: u64, n: u64, out: &mut Vec<u8>)
        requires
            self.wf(),
            offset + n <= self@.len(),
            offset % 4096 + n <= 4096,
        ensures
            final(out)@ == old(out)@ + self@.subrange(offset as int, offset + n),
    {
        broadcast use vstd::std_specs::hash::group_hash_axioms;

        let ghost start = out@;
        let k: u64 = offset / PAGE;
        let from: u64 = offset % PAGE;
        match self.pages.get(&k) {
            Some(page) => {
                let (_, tail) = page.as_slice().split_at(from as usize);
                let (run, _) = tail.split_at(n as usize);
                proof {
                    assert forall|j: int| 0 <= j < n implies self@[offset + j] == run@[j] by {
                        assert((offset + j) / 4096 == k);
                        assert((offset + j) % 4096 == from + j);
                    }
                }
                bytes::append(out, run);
            },
            None => {
                proof {
                    assert forall|j: int| offset <= j < offset + n implies #[trigger] self@[j]
                        == 0u8 by {
                        assert(j / 4096 == k);
                    }
                }
                bytes::push_zeros(out, n);
            },
        }
        assert(out@ =~= start + self@.subrange(offset as int, offset + n));
    }

    /// Lays `data[from..from + n]` over the bytes at `offset`, which all lie in
    /// one page.
    fn write_run(&mut self, offset: u64, data: &[u8], from: u64, n: u64)
        requires
            old(self).wf(),
            offset + n <= old(self)@.len(),
            offset % 4096 + n <= 4096,
            from + n <= data@.len(),
        ensures
            final(self).wf(),
            final(self)@.len() == old(self)@.len(),
            forall|j: int|
                0 <= j < old(self)@.len() ==> #[trigger] final(self)@[j] == if offset <= j < offset
                    + n {
                    data@[from + (j - offset)]
                } else {
                    old(self)@[j]
                },
    {
        broadcast use vstd::std_specs::hash::group_hash_axioms;

        let ghost before = *self;
        assert(data@.len() == data.len());
        let k: u64 = offset / PAGE;
        let at: u64 = offset % PAGE;
        let mut page: Vec<u8> = match self.pages.remove(&k) {
            Some(p) => p,
            None => bytes::zero_vec(PAGE),
        };
        let ghost old_page = page@;
        assert(forall|j: int|
            0 <= j < 4096 ==> #[trigger] old_page[j] == before.byte(k * 4096 + j));
        let mut i: u64 = 0;
        while i < n
            invariant
                i <= n,
                from + n <= data.len(),
                at + n <= 4096,
                page@.len() == 4096,
                old_page.len() == 4096,
                forall|j: int|
                    0 <= j < 4096 ==> #[trigger] page@[j] == if at <= j < at + i {
                        data@[from + (j - at)]
                    } else {
                        old_page[j]
                    },
            decreases n - i,
        {
            page[(at + i) as usize] = data[(from + i) as usize];
            i = i + 1;
        }
        let ghost new_page = page@;
        self.pages.insert(k, page);
        proof {
            assert forall|j: int| 0 <= j <= MAX_LEN implies #[trigger] self.byte(j) == if offset
                <= j < offset + n {
                data@[from + (j - offset)]
            } else {
                before.byte(j)
            } by {
                if j / 4096 == k {
                    assert(self.byte(j) == new_page[j % 4096]);
                    assert(old_page[j % 4096] == before.byte(k * 4096 + j % 4096));
                    assert(k * 4096 + j % 4096 == j);
                    assert(offset == k * 4096 + at);
                } else {
                    assert(!(offset <= j < offset + n));
                }
            }
        }
    }

    /// Lays `data` over the bytes at `offset`.
    pub fn write(&mut self, offset: u64, data: &[u8]) -> (r: Result<()>)
        requires
            old(self).wf(),
        ensures
            final(self).wf(),
            writable(offset as int, data@) ==> r is Ok && final(self)@ == overlaid(
                old(self)@,
                offset as int,
                data@,
            ),
            !writable(offset as int, data@) ==> outcome_is(r, Fault::Io(TOO_FAR)) && final(self)@
                == old(self)@,
    {
        let n: u64 = data.len() as u64;
        if offset > MAX_LEN || n > MAX_LEN - offset {
            return Err(VaultError::Io(TOO_FAR));
        }
        if n == 0 {
            return Ok(());
        }
        let ghost before = self@;
        if self.len < offset + n {
            let ghost short = *self;
            self.len = offset + n;
            proof {
                assert forall|i: int| 0 <= i < self.len implies self@[i] == if i < before.len() {
                    before[i]
                } else {
                    0u8
                } by {
                    assert(self.byte(i) == short.byte(i));
                }
                assert forall|i: int| self.len <= i <= MAX_LEN implies #[trigger] self.byte(i)
                    == 0u8 by {
                    assert(self.byte(i) == short.byte(i));
                }
            }
        }
        let ghost stretched = self@;
        let mut i: u64 = 0;
        while i < n
            invariant
                self.wf(),
                i <= n,
                n == data@.len(),
                offset + n <= MAX_LEN,
                offset + n <= stretched.len(),
                stretched.len() == self@.len(),
                forall|j: int|
                    0 <= j < stretched.len() ==> #[trigger] self@[j] == if offset <= j < offset + i {
                        data@[j - offset]
                    } else {
                        stretched[j]
                    },
            decreases n - i,
        {
            let at: u64 = offset + i;
            let room: u64 = PAGE - at % PAGE;
            let run: u64 = if n - i < room {
                n - i
            } else {
                room
            };
            self.write_run(at, data, i, run);
            i = i + run;
        }
        assert(self@ =~= overlaid(before, offset as int, data@));
        Ok(())
    }

    /// A copy of the bytes `data`.
    pub fn from_bytes(data: &[u8]) -> (r: Self)
        requires
            data@.len() <= MAX_LEN,
        ensures
            r.wf(),
            r@ == data@,
    {
        let mut r = Image::zeroed(data.len() as u64);
        let _ = r.write(0, data);
        assert(r@ =~= data@);
        r
    }

    /// All the bytes.
    pub fn to_vec(&self) -> (r: Vec<u8>)
        requires
            self.wf(),
        ensures
            r@ == self@,
    {
        match self.read(0, self.len) {
            Ok(out) => {
                assert(self@.subrange(0, self.len as int) =~= self@);
                out
            },
            Err(_) => {
                assert(false);
                Vec::new()
            },
        }
    }
}

/// The operation failed with `f`.
pub open spec fn outcome_is<T>(r: Result<T>, f: Fault) -> bool {
    r is Err && r->Err_0@ == f
}

} // verus!
