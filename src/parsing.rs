//! Big-endian reads over borrowed bytes, and the forward-only byte cursor.

use vstd::prelude::*;

verus! {

/// The big-endian 32-bit integer stored at `s[i..i + 4]`.
pub open spec fn be_u32_at(s: Seq<u8>, i: int) -> int {
    s[i] as int * 16777216 + s[i + 1] as int * 65536 + s[i + 2] as int * 256 + s[i + 3] as int
}

/// The big-endian 64-bit integer stored at `s[i..i + 8]`.
pub open spec fn be_u64_at(s: Seq<u8>, i: int) -> int {
    be_u32_at(s, i) * 4294967296 + be_u32_at(s, i + 4)
}

/// Reads the big-endian `u32` at offset `i`.
pub fn read_be_u32(s: &[u8], i: usize) -> (r: u32)
    requires
        i + 4 <= s@.len(),
    ensures
        r as int == be_u32_at(s@, i as int),
{
    let a = s[i] as u32;
    let b = s[i + 1] as u32;
    let c = s[i + 2] as u32;
    let d = s[i + 3] as u32;
    a * 16777216 + b * 65536 + c * 256 + d
}

/// Reads the big-endian `u64` at offset `i`.
pub fn read_be_u64(s: &[u8], i: usize) -> (r: u64)
    requires
        i + 8 <= s@.len(),
    ensures
        r as int == be_u64_at(s@, i as int),
{
    proof {
        assert(s.len() == s@.len());
    }
    let hi = read_be_u32(s, i) as u64;
    let lo = read_be_u32(s, i + 4) as u64;
    assert(hi * 4294967296 + lo <= u64::MAX) by (nonlinear_arith)
        requires
            hi <= u32::MAX,
            lo <= u32::MAX,
    ;
    hi * 4294967296 + lo
}

/// A forward-only cursor over a borrowed byte buffer.
#[derive(Clone, Copy, Debug)]
pub struct FdtData<'a> {
    pub(crate) data: &'a [u8],
    pub(crate) pos: usize,
}

impl<'a> FdtData<'a> {
    /// The bytes that have not been consumed yet.
    pub open(crate) spec fn rest(&self) -> Seq<u8> {
        self.data@.subrange(self.pos as int, self.data@.len() as int)
    }

    /// The position lies within the bytes.
    pub open(crate) spec fn wf(&self) -> bool {
        self.pos <= self.data@.len() && self.data@.len() <= usize::MAX
    }

    /// A cursor at the start of `data`.
    pub fn new(data: &'a [u8]) -> (r: Self)
        ensures
            r.wf(),
            r.rest() == data@,
    {
        proof {
            assert(data@.subrange(0, data@.len() as int) =~= data@);
        }
        proof {
            assert(data.len() == data@.len());
        }
        FdtData { data, pos: 0 }
    }

    /// The unconsumed bytes.
    pub fn remaining(&self) -> (r: &'a [u8])
        requires
            self.wf(),
        ensures
            r@ == self.rest(),
    {
        &self.data[self.pos..self.data.len()]
    }

    /// Whether every byte has been consumed.
    pub fn is_empty(&self) -> (r: bool)
        requires
            self.wf(),
        ensures
            r == (self.rest().len() == 0),
    {
        self.pos == self.data.len()
    }

    /// Consumes four bytes as a big-endian integer; `None`, and nothing consumed, when fewer remain.
    pub fn u32(&mut self) -> (r: Option<u32>)
        requires
            old(self).wf(),
        ensures
            final(self).wf(),
            old(self).rest().len() < 4 ==> r is None && *final(self) == *old(self),
            old(self).rest().len() >= 4 ==> r == Some(be_u32_at(old(self).rest(), 0) as u32)
                && final(self).rest() == old(self).rest().subrange(4, old(self).rest().len() as int),
    {
        if self.data.len() - self.pos < 4 {
            None
        } else {
            let v = read_be_u32(self.data, self.pos);
            self.pos = self.pos + 4;
            proof {
                assert(final(self).rest() =~= old(self).rest().subrange(4, old(self).rest().len() as int));
            }
            Some(v)
        }
    }

    /// Consumes eight bytes as a big-endian integer; `None`, and nothing consumed, when fewer remain.
    pub fn u64(&mut self) -> (r: Option<u64>)
        requires
            old(self).wf(),
        ensures
            final(self).wf(),
            old(self).rest().len() < 8 ==> r is None && *final(self) == *old(self),
            old(self).rest().len() >= 8 ==> r == Some(be_u64_at(old(self).rest(), 0) as u64)
                && final(self).rest() == old(self).rest().subrange(8, old(self).rest().len() as int),
    {
        if self.data.len() - self.pos < 8 {
            None
        } else {
            let v = read_be_u64(self.data, self.pos);
            self.pos = self.pos + 8;
            proof {
                assert(final(self).rest() =~= old(self).rest().subrange(8, old(self).rest().len() as int));
            }
            Some(v)
        }
    }
}

} // verus!
