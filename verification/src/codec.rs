//! Big-endian encoding of 32-bit and 64-bit values, and a decoder that
//! reads them from the front of a byte string.
//!
//! A real number is written as its IEEE-754 bit pattern, so that the
//! encoding of a number and of its pattern are the same bytes.

use vstd::prelude::*;

verus! {

/// The 32-bit value that the four bytes from `at` on stand for, the most
/// significant byte first.
pub open spec fn be_u32(s: Seq<u8>, at: int) -> u32
    recommends
        0 <= at,
        at + 4 <= s.len(),
{
    (s[at] as nat * 16777216 + s[at + 1] as nat * 65536 + s[at + 2] as nat * 256
        + s[at + 3] as nat) as u32
}

/// The 64-bit value that the eight bytes from `at` on stand for, the most
/// significant byte first.
pub open spec fn be_u64(s: Seq<u8>, at: int) -> u64
    recommends
        0 <= at,
        at + 8 <= s.len(),
{
    (be_u32(s, at) as nat * 4294967296 + be_u32(s, at + 4) as nat) as u64
}

/// The four bytes of a 32-bit value, the most significant first.
pub open spec fn u32_bytes(x: u32) -> Seq<u8> {
    seq![
        (x / 16777216) as u8,
        ((x / 65536) % 256) as u8,
        ((x / 256) % 256) as u8,
        (x % 256) as u8,
    ]
}

/// The eight bytes of a 64-bit value, the most significant first.
pub open spec fn u64_bytes(x: u64) -> Seq<u8> {
    u32_bytes((x / 4294967296) as u32) + u32_bytes((x % 4294967296) as u32)
}

/// The bytes of each value of a sequence in turn, four for each.
pub open spec fn u32s_bytes(v: Seq<u32>) -> Seq<u8> {
    Seq::new(4 * v.len(), |k: int| u32_bytes(v[k / 4])[k % 4])
}

/// Reading back the bytes of a 32-bit value gives the value, wherever they
/// stand in a byte string.
pub proof fn lemma_be_u32_of_bytes(s: Seq<u8>, at: int, x: u32)
    requires
        0 <= at,
        at + 4 <= s.len(),
        s.subrange(at, at + 4) == u32_bytes(x),
    ensures
        be_u32(s, at) == x,
{
    let b = u32_bytes(x);
    assert(s[at] == s.subrange(at, at + 4)[0]);
    assert(s[at + 1] == s.subrange(at, at + 4)[1]);
    assert(s[at + 2] == s.subrange(at, at + 4)[2]);
    assert(s[at + 3] == s.subrange(at, at + 4)[3]);
    assert(b[0] == (x / 16777216) as u8);
    assert(b[1] == ((x / 65536) % 256) as u8);
    assert(b[2] == ((x / 256) % 256) as u8);
    assert(b[3] == (x % 256) as u8);
}

/// Reading back the bytes of a 64-bit value gives the value, wherever they
/// stand in a byte string.
pub proof fn lemma_be_u64_of_bytes(s: Seq<u8>, at: int, x: u64)
    requires
        0 <= at,
        at + 8 <= s.len(),
        s.subrange(at, at + 8) == u64_bytes(x),
    ensures
        be_u64(s, at) == x,
{
    let hi: u32 = (x / 4294967296) as u32;
    let lo: u32 = (x % 4294967296) as u32;
    let b = u64_bytes(x);
    assert(s.subrange(at, at + 4) =~= b.subrange(0, 4));
    assert(s.subrange(at + 4, at + 8) =~= b.subrange(4, 8));
    assert(b.subrange(0, 4) =~= u32_bytes(hi));
    assert(b.subrange(4, 8) =~= u32_bytes(lo));
    lemma_be_u32_of_bytes(s, at, hi);
    lemma_be_u32_of_bytes(s, at + 4, lo);
}

/// The two parts of a joined byte string, cut out of it again.
pub proof fn lemma_parts_of_join(a: Seq<u8>, b: Seq<u8>)
    ensures
        (a + b).len() == a.len() + b.len(),
        (a + b).subrange(0, a.len() as int) == a,
        (a + b).subrange(a.len() as int, (a.len() + b.len()) as int) == b,
{
    assert((a + b).subrange(0, a.len() as int) =~= a);
    assert((a + b).subrange(a.len() as int, (a.len() + b.len()) as int) =~= b);
}

/// A 64-bit value takes eight bytes.
pub proof fn lemma_u64_bytes_len(x: u64)
    ensures
        u64_bytes(x).len() == 8,
{
}

/// Appends the four bytes of `x`, the most significant first.
pub fn put_u32(out: &mut Vec<u8>, x: u32)
    ensures
        final(out)@ == old(out)@ + u32_bytes(x),
{
    out.push((x / 16777216) as u8);
    out.push(((x / 65536) % 256) as u8);
    out.push(((x / 256) % 256) as u8);
    out.push((x % 256) as u8);
    assert(out@ =~= old(out)@ + u32_bytes(x));
}

/// Appends the eight bytes of `x`, the most significant first.
pub fn put_u64(out: &mut Vec<u8>, x: u64)
    ensures
        final(out)@ == old(out)@ + u64_bytes(x),
{
    put_u32(out, (x / 4294967296) as u32);
    put_u32(out, (x % 4294967296) as u32);
    assert(out@ =~= old(out)@ + u64_bytes(x));
}

/// Why a byte string could not be decoded.
#[derive(Copy, Clone, Debug, PartialEq, Eq, Structural)]
pub enum DecodeError {
    /// The bytes end before the value that was to be read.
    UnexpectedEnd,
}

impl DecodeError {
    /// The error in words.
    pub fn message(&self) -> (text: String)
        ensures
            text@ == "failed to fill whole buffer"@,
    {
        "failed to fill whole buffer".to_string()
    }
}

/// A reader that takes values off the front of a byte string.
pub struct StoreDecoder<'a> {
    pub bytes: &'a [u8],
    pub pos: usize,
}

impl<'a> StoreDecoder<'a> {
    /// The reader stands within its bytes.
    pub open spec fn well_formed(self) -> bool {
        self.pos <= self.bytes@.len()
    }

    /// How many bytes are still to be read.
    pub open spec fn remaining(self) -> nat {
        (self.bytes@.len() - self.pos) as nat
    }

    /// A reader at the front of `bytes`.
    pub fn new(bytes: &'a [u8]) -> (d: Self)
        ensures
            d.bytes@ == bytes@,
            d.pos == 0,
            d.well_formed(),
    {
        StoreDecoder { bytes, pos: 0 }
    }

    /// Reads a 32-bit value, or fails and stays in place where fewer than
    /// four bytes are left.
    pub fn u32(&mut self) -> (r: Result<u32, DecodeError>)
        requires
            old(self).well_formed(),
        ensures
            final(self).well_formed(),
            final(self).bytes@ == old(self).bytes@,
            old(self).remaining() >= 4 <==> r is Ok,
            r matches Ok(v) ==> {
                &&& v == be_u32(old(self).bytes@, old(self).pos as int)
                &&& final(self).pos == old(self).pos + 4
            },
            r is Err ==> {
                &&& r == Err::<u32, DecodeError>(DecodeError::UnexpectedEnd)
                &&& final(self).pos == old(self).pos
            },
    {
        if self.bytes.len() - self.pos < 4 {
            return Err(DecodeError::UnexpectedEnd);
        }
        let at: usize = self.pos;
        let b0: u32 = self.bytes[at] as u32;
        let b1: u32 = self.bytes[at + 1] as u32;
        let b2: u32 = self.bytes[at + 2] as u32;
        let b3: u32 = self.bytes[at + 3] as u32;
        self.pos = at + 4;
        Ok(b0 * 16777216 + b1 * 65536 + b2 * 256 + b3)
    }

    /// Reads a 64-bit value, or fails and stays in place where fewer than
    /// eight bytes are left.
    pub fn u64(&mut self) -> (r: Result<u64, DecodeError>)
        requires
            old(self).well_formed(),
        ensures
            final(self).well_formed(),
            final(self).bytes@ == old(self).bytes@,
            old(self).remaining() >= 8 <==> r is Ok,
            r matches Ok(v) ==> {
                &&& v == be_u64(old(self).bytes@, old(self).pos as int)
                &&& final(self).pos == old(self).pos + 8
            },
            r is Err ==> {
                &&& r == Err::<u64, DecodeError>(DecodeError::UnexpectedEnd)
                &&& final(self).pos == old(self).pos
            },
    {
        if self.bytes.len() - self.pos < 8 {
            return Err(DecodeError::UnexpectedEnd);
        }
        let hi: u32 = match self.u32() {
            Ok(v) => v,
            Err(e) => {
                return Err(e);
            },
        };
        let lo: u32 = match self.u32() {
            Ok(v) => v,
            Err(e) => {
                return Err(e);
            },
        };
        Ok((hi as u64) * 4294967296 + (lo as u64))
    }

    /// Reads the bit pattern of a binary32 number.
    pub fn real32(&mut self) -> (r: Result<u32, DecodeError>)
        requires
            old(self).well_formed(),
        ensures
            final(self).well_formed(),
            final(self).bytes@ == old(self).bytes@,
            old(self).remaining() >= 4 <==> r is Ok,
            r matches Ok(v) ==> {
                &&& v == be_u32(old(self).bytes@, old(self).pos as int)
                &&& final(self).pos == old(self).pos + 4
            },
            r is Err ==> {
                &&& r == Err::<u32, DecodeError>(DecodeError::UnexpectedEnd)
                &&& final(self).pos == old(self).pos
            },
    {
        self.u32()
    }

    /// Reads the bit pattern of a binary64 number.
    pub fn real64(&mut self) -> (r: Result<u64, DecodeError>)
        requires
            old(self).well_formed(),
        ensures
            final(self).well_formed(),
            final(self).bytes@ == old(self).bytes@,
            old(self).remaining() >= 8 <==> r is Ok,
            r matches Ok(v) ==> {
                &&& v == be_u64(old(self).bytes@, old(self).pos as int)
                &&& final(self).pos == old(self).pos + 8
            },
            r is Err ==> {
                &&& r == Err::<u64, DecodeError>(DecodeError::UnexpectedEnd)
                &&& final(self).pos == old(self).pos
            },
    {
        self.u64()
    }
}

} // verus!
