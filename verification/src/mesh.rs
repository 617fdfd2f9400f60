//! A triangle mesh: points, triangles as triples of point numbers, and the
//! translation that moves the points to where they lie in the world.

use crate::codec::{
    be_u32, be_u64, lemma_be_u32_of_bytes, lemma_be_u64_of_bytes, lemma_u64_bytes_len, put_u32,
    put_u64, u32_bytes, u32s_bytes, u64_bytes, DecodeError, StoreDecoder,
};
use crate::geometry::{lemma_point_encoding_len, lemma_point_round_trip, Point3};
use vstd::prelude::*;

verus! {

/// What a mesh holds.
pub struct MeshView {
    pub translate: Point3,
    pub points: Seq<u32>,
    pub indices: Seq<u32>,
}

/// A surface of triangles. `points` holds three coordinates for each
/// point, each the bit pattern of a binary32 number; `indices` holds three
/// point numbers for each triangle. A point lies in the world at
/// `translate` plus its coordinates.
#[derive(Debug)]
pub struct TriangleMeshSurface {
    pub points: Vec<u32>,
    pub indices: Vec<u32>,
    pub translate: Point3,
}

impl View for TriangleMeshSurface {
    type V = MeshView;

    open spec fn view(&self) -> MeshView {
        MeshView { translate: self.translate, points: self.points@, indices: self.indices@ }
    }
}

impl MeshView {
    /// Whole points, whole triangles, and no triangle names a point that
    /// is not there.
    pub open spec fn well_formed(self) -> bool {
        &&& self.points.len() % 3 == 0
        &&& self.indices.len() % 3 == 0
        &&& forall|i: int|
            0 <= i < self.indices.len() ==> 3 * (#[trigger] self.indices[i]) + 3
                <= self.points.len()
    }

    /// How many triangles the mesh has.
    pub open spec fn triangle_count(self) -> nat {
        self.indices.len() / 3
    }

    /// Coordinate `c` of corner `v` of triangle `t`, before translation.
    pub open spec fn corner(self, t: int, v: int, c: int) -> u32
        recommends
            self.well_formed(),
            0 <= t < self.triangle_count(),
            0 <= v < 3,
            0 <= c < 3,
    {
        self.points[3 * self.indices[3 * t + v] + c]
    }

    /// The bytes of a mesh: the translation, the number of coordinates,
    /// the coordinates, the number of point numbers, the point numbers.
    pub open spec fn encoding(self) -> Seq<u8> {
        self.translate.encoding() + u64_bytes(self.points.len() as u64) + u32s_bytes(self.points)
            + u64_bytes(self.indices.len() as u64) + u32s_bytes(self.indices)
    }

    /// The mesh that a byte string stands for, if it holds as many values
    /// as its two counts announce. Bytes beyond the last value are not
    /// read.
    pub open spec fn decoded(s: Seq<u8>) -> Option<MeshView> {
        if s.len() < 32 {
            None
        } else {
            let np = be_u64(s, 24) as int;
            if s.len() < 32 + 4 * np + 8 {
                None
            } else {
                let ni = be_u64(s, 32 + 4 * np) as int;
                if s.len() < 40 + 4 * np + 4 * ni {
                    None
                } else {
                    Some(
                        MeshView {
                            translate: Point3::decoded(s, 0),
                            points: Seq::new(np as nat, |i: int| be_u32(s, 32 + 4 * i)),
                            indices: Seq::new(ni as nat, |j: int| be_u32(s, 40 + 4 * np + 4 * j)),
                        },
                    )
                }
            }
        }
    }
}

/// Appends the bytes of each value of `values` in turn.
pub fn put_u32s(out: &mut Vec<u8>, values: &Vec<u32>)
    ensures
        final(out)@ == old(out)@ + u32s_bytes(values@),
{
    let mut i: usize = 0;
    assert(out@ =~= old(out)@ + u32s_bytes(values@.subrange(0, 0)));
    while i < values.len()
        invariant
            i <= values@.len(),
            out@ == old(out)@ + u32s_bytes(values@.subrange(0, i as int)),
        decreases values@.len() - i,
    {
        proof {
            lemma_u32s_bytes_push(values@.subrange(0, i as int), values@[i as int]);
            assert(values@.subrange(0, i as int).push(values@[i as int]) =~= values@.subrange(
                0,
                i + 1,
            ));
        }
        put_u32(out, values[i]);
        i += 1;
    }
    assert(values@.subrange(0, i as int) =~= values@);
}

/// The bytes of a sequence with one more value are the bytes of the
/// sequence and then those of the value.
pub proof fn lemma_u32s_bytes_push(v: Seq<u32>, x: u32)
    ensures
        u32s_bytes(v.push(x)) == u32s_bytes(v) + u32_bytes(x),
        u32s_bytes(v).len() == 4 * v.len(),
{
    let a = u32s_bytes(v.push(x));
    let b = u32s_bytes(v) + u32_bytes(x);
    assert(a.len() == b.len());
    assert forall|k: int| 0 <= k < a.len() implies a[k] == b[k] by {
        if k < 4 * v.len() {
            assert(k / 4 < v.len());
            assert(v.push(x)[k / 4] == v[k / 4]);
        } else {
            assert(k / 4 == v.len());
            assert(k % 4 == k - 4 * v.len());
        }
    }
    assert(a =~= b);
}

/// Reading a value back out of the bytes of a sequence gives the value,
/// wherever those bytes stand in a byte string.
pub proof fn lemma_be_u32_of_u32s(s: Seq<u8>, base: int, v: Seq<u32>, i: int)
    requires
        0 <= base,
        base + 4 * v.len() <= s.len(),
        s.subrange(base, base + 4 * v.len()) == u32s_bytes(v),
        0 <= i < v.len(),
    ensures
        be_u32(s, base + 4 * i) == v[i],
{
    let part = s.subrange(base, base + 4 * v.len());
    let at = base + 4 * i;
    assert forall|j: int| 0 <= j < 4 implies s.subrange(at, at + 4)[j] == u32_bytes(v[i])[j] by {
        assert(s.subrange(at, at + 4)[j] == part[4 * i + j]);
        assert((4 * i + j) / 4 == i);
        assert((4 * i + j) % 4 == j);
    }
    assert(s.subrange(at, at + 4) =~= u32_bytes(v[i]));
    lemma_be_u32_of_bytes(s, at, v[i]);
}

impl TriangleMeshSurface {
    /// A mesh of the given parts.
    pub fn new(translate: Point3, points: Vec<u32>, indices: Vec<u32>) -> (m: Self)
        ensures
            m@ == (MeshView { translate, points: points@, indices: indices@ }),
    {
        TriangleMeshSurface { points, indices, translate }
    }

    /// Whether the mesh holds whole points and whole triangles, and every
    /// triangle names points that are there.
    pub fn is_well_formed(&self) -> (b: bool)
        ensures
            b == self@.well_formed(),
    {
        if self.points.len() % 3 != 0 || self.indices.len() % 3 != 0 {
            return false;
        }
        let n: usize = self.points.len() / 3;
        let mut i: usize = 0;
        while i < self.indices.len()
            invariant
                i <= self.indices@.len(),
                n == self.points@.len() / 3,
                self.points@.len() % 3 == 0,
                forall|j: int|
                    0 <= j < i ==> 3 * (#[trigger] self.indices@[j]) + 3 <= self.points@.len(),
            decreases self.indices@.len() - i,
        {
            if self.indices[i] as usize >= n {
                assert(!(3 * self.indices@[i as int] + 3 <= self.points@.len()));
                return false;
            }
            i += 1;
        }
        true
    }

    /// The triangles of the mesh in order, each as its three corners, each
    /// corner as the three coordinates of its point before translation.
    pub fn tris(&self) -> (out: Vec<[[u32; 3]; 3]>)
        requires
            self@.well_formed(),
        ensures
            out@.len() == self@.triangle_count(),
            forall|t: int, v: int, c: int|
                0 <= t < out@.len() && 0 <= v < 3 && 0 <= c < 3 ==> out@[t][v][c]
                    == #[trigger] self@.corner(t, v, c),
    {
        let count: usize = self.indices.len() / 3;
        assert(3 * count == self.indices@.len());
        let mut out: Vec<[[u32; 3]; 3]> = Vec::new();
        let mut t: usize = 0;
        while t < count
            invariant
                t <= count,
                count == self@.triangle_count(),
                3 * count == self.indices@.len(),
                self.indices@.len() <= usize::MAX,
                self@.well_formed(),
                out@.len() == t,
                forall|u: int, v: int, c: int|
                    0 <= u < out@.len() && 0 <= v < 3 && 0 <= c < 3 ==> out@[u][v][c]
                        == #[trigger] self@.corner(u, v, c),
            decreases count - t,
        {
            let a: [u32; 3] = self.point(self.indices[3 * t]);
            let b: [u32; 3] = self.point(self.indices[3 * t + 1]);
            let c: [u32; 3] = self.point(self.indices[3 * t + 2]);
            let tri: [[u32; 3]; 3] = [a, b, c];
            out.push(tri);
            t += 1;
        }
        out
    }

    /// The three coordinates of point `i`, before translation.
    pub fn point(&self, i: u32) -> (p: [u32; 3])
        requires
            3 * i + 3 <= self@.points.len(),
        ensures
            forall|c: int| 0 <= c < 3 ==> #[trigger] p[c] == self@.points[3 * i + c],
    {
        let n: usize = self.points.len();
        let at: usize = 3 * (i as usize);
        [self.points[at], self.points[at + 1], self.points[at + 2]]
    }

    /// The mesh as bytes.
    pub fn to_bytes(&self) -> (out: Vec<u8>)
        ensures
            out@ == self@.encoding(),
    {
        let mut out: Vec<u8> = Vec::new();
        put_u64(&mut out, self.translate.x);
        put_u64(&mut out, self.translate.y);
        put_u64(&mut out, self.translate.z);
        assert(out@ =~= self.translate.encoding());
        put_u64(&mut out, self.points.len() as u64);
        put_u32s(&mut out, &self.points);
        put_u64(&mut out, self.indices.len() as u64);
        put_u32s(&mut out, &self.indices);
        out
    }

    /// Reads a mesh from the front of a byte string, or fails where the
    /// bytes end before the last value that the two counts announce.
    pub fn from_bytes(bytes: &[u8]) -> (r: Result<TriangleMeshSurface, DecodeError>)
        ensures
            r matches Ok(m) ==> MeshView::decoded(bytes@) == Some(m@),
            r matches Err(e) ==> MeshView::decoded(bytes@) is None && e
                == DecodeError::UnexpectedEnd,
    {
        let mut d: StoreDecoder = StoreDecoder::new(bytes);
        let x: u64 = match d.real64() {
            Ok(v) => v,
            Err(e) => {
                return Err(e);
            },
        };
        let y: u64 = match d.real64() {
            Ok(v) => v,
            Err(e) => {
                return Err(e);
            },
        };
        let z: u64 = match d.real64() {
            Ok(v) => v,
            Err(e) => {
                return Err(e);
            },
        };
        let np: u64 = match d.u64() {
            Ok(v) => v,
            Err(e) => {
                return Err(e);
            },
        };
        let points: Vec<u32> = match read_u32s(&mut d, np) {
            Ok(v) => v,
            Err(e) => {
                return Err(e);
            },
        };
        let ni: u64 = match d.u64() {
            Ok(v) => v,
            Err(e) => {
                return Err(e);
            },
        };
        let indices: Vec<u32> = match read_u32s(&mut d, ni) {
            Ok(v) => v,
            Err(e) => {
                return Err(e);
            },
        };
        let m = TriangleMeshSurface { points, indices, translate: Point3 { x, y, z } };
        assert(m@.points =~= Seq::new(np as nat, |i: int| be_u32(bytes@, 32 + 4 * i)));
        assert(m@.indices =~= Seq::new(ni as nat, |j: int| be_u32(bytes@, 40 + 4 * np + 4 * j)));
        Ok(m)
    }
}

/// Reads `count` 32-bit values, or fails and stays in place where the
/// bytes that are left do not hold as many.
pub fn read_u32s(d: &mut StoreDecoder, count: u64) -> (r: Result<Vec<u32>, DecodeError>)
    requires
        old(d).well_formed(),
    ensures
        final(d).well_formed(),
        final(d).bytes@ == old(d).bytes@,
        4 * count <= old(d).remaining() <==> r is Ok,
        r matches Ok(v) ==> {
            &&& v@.len() == count
            &&& final(d).pos == old(d).pos + 4 * count
            &&& forall|i: int|
                0 <= i < count ==> #[trigger] v@[i] == be_u32(old(d).bytes@, old(d).pos + 4 * i)
        },
        r matches Err(e) ==> e == DecodeError::UnexpectedEnd && final(d).pos == old(d).pos,
{
    let left: usize = d.bytes.len() - d.pos;
    if count > (left / 4) as u64 {
        return Err(DecodeError::UnexpectedEnd);
    }
    let mut out: Vec<u32> = Vec::new();
    let mut i: u64 = 0;
    while i < count
        invariant
            i <= count,
            d.well_formed(),
            d.bytes@ == old(d).bytes@,
            d.pos == old(d).pos + 4 * i,
            4 * count <= old(d).remaining(),
            out@.len() == i,
            forall|j: int|
                0 <= j < i ==> #[trigger] out@[j] == be_u32(old(d).bytes@, old(d).pos + 4 * j),
        decreases count - i,
    {
        match d.u32() {
            Ok(v) => {
                out.push(v);
            },
            Err(e) => {
                assert(false);
                return Err(e);
            },
        }
        i += 1;
    }
    Ok(out)
}

/// The five parts of a joined byte string, cut out of it again.
pub proof fn lemma_parts_of_five(a: Seq<u8>, b: Seq<u8>, c: Seq<u8>, d: Seq<u8>, e: Seq<u8>)
    ensures
        ({
            let s = a + b + c + d + e;
            let at_b = a.len() as int;
            let at_c = at_b + b.len();
            let at_d = at_c + c.len();
            let at_e = at_d + d.len();
            &&& s.len() == at_e + e.len()
            &&& s.subrange(0, at_b) == a
            &&& s.subrange(at_b, at_c) == b
            &&& s.subrange(at_c, at_d) == c
            &&& s.subrange(at_d, at_e) == d
            &&& s.subrange(at_e, at_e + e.len()) == e
        }),
{
    let s = a + b + c + d + e;
    let at_b = a.len() as int;
    let at_c = at_b + b.len();
    let at_d = at_c + c.len();
    let at_e = at_d + d.len();
    assert(s.subrange(0, at_b) =~= a);
    assert(s.subrange(at_b, at_c) =~= b);
    assert(s.subrange(at_c, at_d) =~= c);
    assert(s.subrange(at_d, at_e) =~= d);
    assert(s.subrange(at_e, at_e + e.len()) =~= e);
}

/// How many bytes the parts of a mesh take.
pub proof fn lemma_mesh_part_lens(m: MeshView)
    ensures
        m.translate.encoding().len() == 24,
        u64_bytes(m.points.len() as u64).len() == 8,
        u32s_bytes(m.points).len() == 4 * m.points.len(),
        u64_bytes(m.indices.len() as u64).len() == 8,
        u32s_bytes(m.indices).len() == 4 * m.indices.len(),
{
    lemma_point_encoding_len(m.translate);
    lemma_u64_bytes_len(m.points.len() as u64);
    lemma_u64_bytes_len(m.indices.len() as u64);
}

/// The values that were written as a sequence, read back one by one.
pub proof fn lemma_read_back_u32s(s: Seq<u8>, base: int, v: Seq<u32>)
    requires
        0 <= base,
        base + 4 * v.len() <= s.len(),
        s.subrange(base, base + 4 * v.len()) == u32s_bytes(v),
    ensures
        Seq::new(v.len(), |i: int| be_u32(s, base + 4 * i)) == v,
{
    let read = Seq::new(v.len(), |i: int| be_u32(s, base + 4 * i));
    assert forall|i: int| 0 <= i < v.len() implies read[i] == v[i] by {
        lemma_be_u32_of_u32s(s, base, v, i);
    }
    assert(read =~= v);
}

/// Decoding the bytes of a mesh gives the mesh back, bit for bit.
pub proof fn lemma_mesh_round_trip(m: MeshView)
    requires
        m.points.len() <= u64::MAX,
        m.indices.len() <= u64::MAX,
    ensures
        MeshView::decoded(m.encoding()) == Some(m),
{
    let s = m.encoding();
    let np = m.points.len() as int;
    let ni = m.indices.len() as int;
    lemma_mesh_part_lens(m);
    lemma_parts_of_five(
        m.translate.encoding(),
        u64_bytes(m.points.len() as u64),
        u32s_bytes(m.points),
        u64_bytes(m.indices.len() as u64),
        u32s_bytes(m.indices),
    );
    lemma_point_round_trip(s, 0, m.translate);
    lemma_be_u64_of_bytes(s, 24, m.points.len() as u64);
    lemma_be_u64_of_bytes(s, 32 + 4 * np, m.indices.len() as u64);
    lemma_read_back_u32s(s, 32, m.points);
    lemma_read_back_u32s(s, 40 + 4 * np, m.indices);
}

} // verus!
