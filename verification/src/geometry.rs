//! Points and axis-aligned boxes in world space, and their encoding.

use crate::codec::{
    be_u64, lemma_be_u64_of_bytes, lemma_parts_of_join, lemma_u64_bytes_len, put_u64, u64_bytes,
    DecodeError, StoreDecoder,
};
use crate::ieee::{larger64, max64, ONE64, ZERO64};
use vstd::prelude::*;

verus! {

/// A position in space. Each coordinate is the bit pattern of a binary64
/// number.
#[derive(Copy, Clone, Debug, PartialEq, Eq, Structural)]
pub struct Point3 {
    pub x: u64,
    pub y: u64,
    pub z: u64,
}

impl Point3 {
    /// The origin.
    pub fn zero() -> (p: Point3)
        ensures
            p == (Point3 { x: 0, y: 0, z: 0 }),
    {
        Point3 { x: ZERO64, y: ZERO64, z: ZERO64 }
    }

    /// The 24 bytes of a point: `x`, `y`, `z`.
    pub open spec fn encoding(self) -> Seq<u8> {
        u64_bytes(self.x) + u64_bytes(self.y) + u64_bytes(self.z)
    }

    /// The point that the 24 bytes from `at` on stand for.
    pub open spec fn decoded(s: Seq<u8>, at: int) -> Point3
        recommends
            0 <= at,
            at + 24 <= s.len(),
    {
        Point3 { x: be_u64(s, at), y: be_u64(s, at + 8), z: be_u64(s, at + 16) }
    }
}

/// A point takes 24 bytes.
pub proof fn lemma_point_encoding_len(p: Point3)
    ensures
        p.encoding().len() == 24,
{
    lemma_u64_bytes_len(p.x);
    lemma_u64_bytes_len(p.y);
    lemma_u64_bytes_len(p.z);
}

/// Reading back the bytes of a point gives the point, wherever they stand
/// in a byte string.
pub proof fn lemma_point_round_trip(s: Seq<u8>, at: int, p: Point3)
    requires
        0 <= at,
        at + 24 <= s.len(),
        s.subrange(at, at + 24) == p.encoding(),
    ensures
        Point3::decoded(s, at) == p,
{
    let e = p.encoding();
    assert(s.subrange(at, at + 8) =~= e.subrange(0, 8));
    assert(s.subrange(at + 8, at + 16) =~= e.subrange(8, 16));
    assert(s.subrange(at + 16, at + 24) =~= e.subrange(16, 24));
    assert(e.subrange(0, 8) =~= u64_bytes(p.x));
    assert(e.subrange(8, 16) =~= u64_bytes(p.y));
    assert(e.subrange(16, 24) =~= u64_bytes(p.z));
    lemma_be_u64_of_bytes(s, at, p.x);
    lemma_be_u64_of_bytes(s, at + 8, p.y);
    lemma_be_u64_of_bytes(s, at + 16, p.z);
}

/// An axis-aligned box: its lowest corner and its size along each axis.
#[derive(Copy, Clone, Debug, PartialEq, Eq, Structural)]
pub struct Extents3 {
    pub origin: Point3,
    pub size: Point3,
}

impl Extents3 {
    /// The largest of the three sizes, by which world lengths are divided
    /// to give render lengths.
    pub open spec fn spec_max_dim(self) -> u64 {
        max64(max64(self.size.x, self.size.y), self.size.z)
    }

    /// The 48 bytes of a box: its origin, then its size.
    pub open spec fn encoding(self) -> Seq<u8> {
        self.origin.encoding() + self.size.encoding()
    }

    /// The box that a byte string stands for, if it is long enough. Bytes
    /// beyond the 48th are not read.
    pub open spec fn decoded(s: Seq<u8>) -> Option<Extents3> {
        if s.len() < 48 {
            None
        } else {
            Some(Extents3 { origin: Point3::decoded(s, 0), size: Point3::decoded(s, 24) })
        }
    }

    /// The largest of the three sizes.
    pub fn max_dim(&self) -> (m: u64)
        ensures
            m == self.spec_max_dim(),
    {
        larger64(larger64(self.size.x, self.size.y), self.size.z)
    }

    /// The box from zero to one along each axis.
    pub fn zero_to_one() -> (e: Extents3)
        ensures
            e.origin == (Point3 { x: 0, y: 0, z: 0 }),
            e.size == (Point3 { x: ONE64, y: ONE64, z: ONE64 }),
    {
        Extents3 { origin: Point3::zero(), size: Point3 { x: ONE64, y: ONE64, z: ONE64 } }
    }

    /// The box of no size at the point `(x, y, z)`.
    pub fn from_pt(x: u64, y: u64, z: u64) -> (e: Extents3)
        ensures
            e.origin == (Point3 { x, y, z }),
            e.size == (Point3 { x: 0, y: 0, z: 0 }),
    {
        Extents3 { origin: Point3 { x, y, z }, size: Point3::zero() }
    }

    /// The box as 48 bytes.
    pub fn to_bytes(&self) -> (out: Vec<u8>)
        ensures
            out@ == self.encoding(),
            out@.len() == 48,
    {
        let mut out: Vec<u8> = Vec::new();
        put_u64(&mut out, self.origin.x);
        put_u64(&mut out, self.origin.y);
        put_u64(&mut out, self.origin.z);
        put_u64(&mut out, self.size.x);
        put_u64(&mut out, self.size.y);
        put_u64(&mut out, self.size.z);
        assert(out@ =~= self.encoding());
        out
    }

    /// Reads a box from the front of a byte string, or fails where fewer
    /// than 48 bytes are given.
    pub fn from_bytes(bytes: &[u8]) -> (r: Result<Extents3, DecodeError>)
        ensures
            r matches Ok(e) ==> Extents3::decoded(bytes@) == Some(e),
            r matches Err(e) ==> Extents3::decoded(bytes@) is None && e
                == DecodeError::UnexpectedEnd,
    {
        let mut d: StoreDecoder = StoreDecoder::new(bytes);
        let ox: u64 = match d.real64() {
            Ok(v) => v,
            Err(e) => {
                return Err(e);
            },
        };
        let oy: u64 = match d.real64() {
            Ok(v) => v,
            Err(e) => {
                return Err(e);
            },
        };
        let oz: u64 = match d.real64() {
            Ok(v) => v,
            Err(e) => {
                return Err(e);
            },
        };
        let sx: u64 = match d.real64() {
            Ok(v) => v,
            Err(e) => {
                return Err(e);
            },
        };
        let sy: u64 = match d.real64() {
            Ok(v) => v,
            Err(e) => {
                return Err(e);
            },
        };
        let sz: u64 = match d.real64() {
            Ok(v) => v,
            Err(e) => {
                return Err(e);
            },
        };
        Ok(Extents3 { origin: Point3 { x: ox, y: oy, z: oz }, size: Point3 { x: sx, y: sy, z: sz } })
    }
}

/// Decoding the bytes of a box gives the box back, bit for bit.
pub proof fn lemma_extents_round_trip(e: Extents3)
    ensures
        Extents3::decoded(e.encoding()) == Some(e),
{
    let s = e.encoding();
    lemma_point_encoding_len(e.origin);
    lemma_point_encoding_len(e.size);
    lemma_parts_of_join(e.origin.encoding(), e.size.encoding());
    lemma_point_round_trip(s, 0, e.origin);
    lemma_point_round_trip(s, 24, e.size);
}

/// A rectangle on the ground with its sides included, in half world
/// units from the origin of the top-level grid.
#[derive(Copy, Clone, Debug, PartialEq, Eq, Structural)]
pub struct Bounds {
    pub min_x: i64,
    pub min_y: i64,
    pub max_x: i64,
    pub max_y: i64,
}

} // verus!
