//! Mesh buffers for one tile, built from its grid of heights.
//!
//! The grid has `COUNT` samples along each edge, row by row from the
//! bottom, each row from the left. A sample that is not a finite number
//! is a hole. Each finite sample becomes a vertex, numbered in grid order,
//! and each grid cell with three or four corners becomes one or two
//! triangles, wound counter-clockwise.

use crate::ieee::{finite32, is_finite32};
use crate::lists::copy_list;
use crate::tile_id::COUNT;
use vstd::prelude::*;

verus! {

/// Samples in the grid.
pub const SAMPLES: usize = 16384;

/// Cells along one edge of the grid.
pub const CELLS: usize = 127;

/// How many of the first `k` samples are finite.
pub open spec fn count_finite(zs: Seq<u32>, k: nat) -> nat
    decreases k,
{
    if k == 0 {
        0
    } else {
        count_finite(zs, (k - 1) as nat) + if is_finite32(zs[k - 1]) {
            1nat
        } else {
            0nat
        }
    }
}

/// The vertex number of sample `k`: finite samples are numbered in grid
/// order from 0, a hole has none.
pub open spec fn vertex_of(zs: Seq<u32>, k: int) -> Option<u32>
    recommends
        0 <= k < zs.len(),
{
    if is_finite32(zs[k]) {
        Some(count_finite(zs, k as nat) as u32)
    } else {
        None
    }
}

/// The coordinates of the vertices of the first `k` samples, three for
/// each vertex: across, height, along. `xs` holds the coordinate of each
/// column and `ys` that of each row.
pub open spec fn positions_upto(xs: Seq<u32>, ys: Seq<u32>, zs: Seq<u32>, k: nat) -> Seq<u32>
    decreases k,
{
    if k == 0 {
        Seq::empty()
    } else {
        positions_upto(xs, ys, zs, (k - 1) as nat) + if is_finite32(zs[k - 1]) {
            seq![xs[(k - 1) % 128], zs[k - 1], ys[(k - 1) / 128]]
        } else {
            Seq::empty()
        }
    }
}

/// The triangles of a cell with corners bottom left, bottom right, top
/// left and top right: two where all four are vertices, one where three
/// are, none else.
pub open spec fn cell_triangles(
    bl: Option<u32>,
    br: Option<u32>,
    tl: Option<u32>,
    tr: Option<u32>,
) -> Seq<u32> {
    match (bl, br, tl, tr) {
        (Some(a), Some(b), Some(c), Some(d)) => seq![a, b, d, d, c, a],
        (Some(a), Some(b), Some(c), None) => seq![c, a, b],
        (Some(a), Some(b), None, Some(d)) => seq![a, b, d],
        (Some(a), None, Some(c), Some(d)) => seq![d, c, a],
        (None, Some(b), Some(c), Some(d)) => seq![b, d, c],
        _ => Seq::empty(),
    }
}

/// The triangles of cell `c`, the cells counted row by row.
pub open spec fn cell_at(pts: Seq<Option<u32>>, c: int) -> Seq<u32>
    recommends
        pts.len() == 16384,
        0 <= c < 127 * 127,
{
    let x = c % 127;
    let y = c / 127;
    cell_triangles(
        pts[y * 128 + x],
        pts[y * 128 + x + 1],
        pts[(y + 1) * 128 + x],
        pts[(y + 1) * 128 + x + 1],
    )
}

/// The triangles of the first `n` cells.
pub open spec fn grid_triangles(pts: Seq<Option<u32>>, n: nat) -> Seq<u32>
    decreases n,
{
    if n == 0 {
        Seq::empty()
    } else {
        grid_triangles(pts, (n - 1) as nat) + cell_at(pts, n - 1)
    }
}

/// The coordinates of the corners of the triangles, three for each corner
/// in the order of `indices`, taken out of the coordinates of the vertices.
pub open spec fn corner_positions(positions: Seq<u32>, indices: Seq<u32>) -> Seq<u32> {
    Seq::new(3 * indices.len(), |j: int| positions[3 * indices[j / 3] + j % 3])
}

/// The numbers from 0 up to `n`.
pub open spec fn counting(n: nat) -> Seq<u32> {
    Seq::new(n, |i: int| i as u32)
}

/// At most every sample is finite, and counting further never loses one.
pub proof fn lemma_count_finite_bounds(zs: Seq<u32>, j: nat, k: nat)
    requires
        j <= k,
    ensures
        count_finite(zs, j) <= count_finite(zs, k),
        count_finite(zs, k) <= k,
        count_finite(zs, k) - count_finite(zs, j) <= k - j,
    decreases k,
{
    if k > 0 {
        if j < k {
            lemma_count_finite_bounds(zs, j, (k - 1) as nat);
        } else {
            lemma_count_finite_bounds(zs, (k - 1) as nat, (k - 1) as nat);
        }
    }
}

/// Every vertex takes three coordinates.
pub proof fn lemma_positions_len(xs: Seq<u32>, ys: Seq<u32>, zs: Seq<u32>, k: nat)
    ensures
        positions_upto(xs, ys, zs, k).len() == 3 * count_finite(zs, k),
    decreases k,
{
    if k > 0 {
        lemma_positions_len(xs, ys, zs, (k - 1) as nat);
    }
}

/// The triangles of a cell are whole, at most two, and name none but the
/// vertices at its corners.
pub proof fn lemma_cell_triangles(
    bl: Option<u32>,
    br: Option<u32>,
    tl: Option<u32>,
    tr: Option<u32>,
    n: nat,
)
    requires
        bl matches Some(v) ==> v < n,
        br matches Some(v) ==> v < n,
        tl matches Some(v) ==> v < n,
        tr matches Some(v) ==> v < n,
    ensures
        cell_triangles(bl, br, tl, tr).len() % 3 == 0,
        cell_triangles(bl, br, tl, tr).len() <= 6,
        forall|i: int|
            0 <= i < cell_triangles(bl, br, tl, tr).len() ==> #[trigger] cell_triangles(
                bl,
                br,
                tl,
                tr,
            )[i] < n,
{
}

/// The triangles of a grid are whole, at most two to a cell, and name none
/// but vertices of the grid.
pub proof fn lemma_grid_triangles(pts: Seq<Option<u32>>, cells: nat, n: nat)
    requires
        pts.len() == 16384,
        cells <= 127 * 127,
        forall|k: int| 0 <= k < pts.len() ==> (#[trigger] pts[k] matches Some(v) ==> v < n),
    ensures
        grid_triangles(pts, cells).len() % 3 == 0,
        grid_triangles(pts, cells).len() <= 6 * cells,
        forall|i: int|
            0 <= i < grid_triangles(pts, cells).len() ==> #[trigger] grid_triangles(pts, cells)[i]
                < n,
    decreases cells,
{
    if cells > 0 {
        let c: int = cells - 1;
        lemma_grid_triangles(pts, c as nat, n);
        let x = c % 127;
        let y = c / 127;
        assert(0 <= x < 127 && 0 <= y < 127);
        lemma_cell_triangles(
            pts[y * 128 + x],
            pts[y * 128 + x + 1],
            pts[(y + 1) * 128 + x],
            pts[(y + 1) * 128 + x + 1],
            n,
        );
    }
}

/// The vertex numbers of a grid of heights, hole by hole and vertex by
/// vertex.
pub fn build_points(zs: &Vec<u32>) -> (pts: Vec<Option<u32>>)
    requires
        zs@.len() == SAMPLES,
    ensures
        pts@.len() == SAMPLES,
        forall|k: int| 0 <= k < SAMPLES ==> #[trigger] pts@[k] == vertex_of(zs@, k),
{
    let mut pts: Vec<Option<u32>> = Vec::new();
    let mut next: u32 = 0;
    let mut k: usize = 0;
    while k < SAMPLES
        invariant
            k <= SAMPLES,
            zs@.len() == SAMPLES,
            pts@.len() == k,
            next as nat == count_finite(zs@, k as nat),
            next <= k,
            forall|j: int| 0 <= j < k ==> #[trigger] pts@[j] == vertex_of(zs@, j),
        decreases SAMPLES - k,
    {
        if finite32(zs[k]) {
            pts.push(Some(next));
            next = next + 1;
        } else {
            pts.push(None);
        }
        k += 1;
    }
    pts
}

/// The buffers of a mesh: three coordinates for each vertex, three vertex
/// numbers for each triangle, and three components of a unit normal for
/// each vertex. Coordinates and components are bit patterns of binary32
/// numbers.
#[derive(Debug)]
pub struct VertexData {
    pub positions: Vec<u32>,
    pub indices: Vec<u32>,
    pub normals: Vec<u32>,
}

impl VertexData {
    /// How many vertices the buffers hold.
    pub open spec fn vertex_count(self) -> nat {
        self.positions@.len() / 3
    }

    /// Whole vertices and whole triangles, and no triangle names a vertex
    /// that is not there.
    pub open spec fn well_formed(self) -> bool {
        &&& self.positions@.len() % 3 == 0
        &&& self.indices@.len() % 3 == 0
        &&& forall|i: int|
            0 <= i < self.indices@.len() ==> (#[trigger] self.indices@[i]) < self.vertex_count()
    }

    /// Buffers that hold nothing.
    pub fn new() -> (v: VertexData)
        ensures
            v.positions@.len() == 0,
            v.indices@.len() == 0,
            v.normals@.len() == 0,
            v.well_formed(),
    {
        VertexData { positions: Vec::new(), indices: Vec::new(), normals: Vec::new() }
    }

    /// The positions and triangles of a tile with smooth shading. `zs`
    /// holds the heights of the grid, `xs` the coordinate of each column
    /// and `ys` that of each row. The normals stay empty: they are set
    /// once they are computed from these positions and triangles.
    pub fn fill_vertex_data_from_tile_zs_smooth(xs: &Vec<u32>, ys: &Vec<u32>, zs: &Vec<u32>) -> (v:
        VertexData)
        requires
            xs@.len() == COUNT,
            ys@.len() == COUNT,
            zs@.len() == SAMPLES,
        ensures
            v.positions@ == positions_upto(xs@, ys@, zs@, SAMPLES as nat),
            v.indices@ == grid_triangles(
                Seq::new(SAMPLES as nat, |k: int| vertex_of(zs@, k)),
                (CELLS * CELLS) as nat,
            ),
            v.normals@.len() == 0,
            v.vertex_count() == count_finite(zs@, SAMPLES as nat),
            v.well_formed(),
    {
        let pts: Vec<Option<u32>> = build_points(zs);
        let mut v: VertexData = VertexData::new();
        let mut k: usize = 0;
        while k < SAMPLES
            invariant
                k <= SAMPLES,
                xs@.len() == COUNT,
                ys@.len() == COUNT,
                zs@.len() == SAMPLES,
                v.positions@ == positions_upto(xs@, ys@, zs@, k as nat),
                v.indices@.len() == 0,
                v.normals@.len() == 0,
            decreases SAMPLES - k,
        {
            let z: u32 = zs[k];
            if finite32(z) {
                let ghost before = v.positions@;
                v.positions.push(xs[k % COUNT]);
                v.positions.push(z);
                v.positions.push(ys[k / COUNT]);
                assert(v.positions@ =~= before + seq![xs@[(k % 128) as int], z, ys@[(k / 128) as int]]);
            } else {
                assert(v.positions@ =~= v.positions@ + Seq::<u32>::empty());
            }
            k += 1;
        }
        proof {
            lemma_positions_len(xs@, ys@, zs@, SAMPLES as nat);
            assert(pts@ =~= Seq::new(SAMPLES as nat, |k: int| vertex_of(zs@, k)));
            let n: nat = count_finite(zs@, SAMPLES as nat);
            assert forall|j: int| 0 <= j < pts@.len() implies (#[trigger] pts@[j] matches Some(i)
                ==> i < n) by {
                lemma_count_finite_bounds(zs@, j as nat, SAMPLES as nat);
                lemma_count_finite_bounds(zs@, j as nat, (j + 1) as nat);
                lemma_count_finite_bounds(zs@, (j + 1) as nat, SAMPLES as nat);
            }
            lemma_grid_triangles(pts@, (CELLS * CELLS) as nat, n);
        }
        v.add_indices_smooth(&pts);
        assert(v.indices@ =~= grid_triangles(pts@, (CELLS * CELLS) as nat));
        v
    }

    /// The positions and triangles of a tile with flat shading: the
    /// triangles of smooth shading, but each with three vertices of its
    /// own, so that the vertices are numbered as the corners come. The
    /// normals stay empty.
    pub fn fill_vertex_data_from_tile_zs_flat(xs: &Vec<u32>, ys: &Vec<u32>, zs: &Vec<u32>) -> (v:
        VertexData)
        requires
            xs@.len() == COUNT,
            ys@.len() == COUNT,
            zs@.len() == SAMPLES,
        ensures
            v.positions@ == corner_positions(
                positions_upto(xs@, ys@, zs@, SAMPLES as nat),
                grid_triangles(
                    Seq::new(SAMPLES as nat, |k: int| vertex_of(zs@, k)),
                    (CELLS * CELLS) as nat,
                ),
            ),
            v.indices@ == counting(
                grid_triangles(
                    Seq::new(SAMPLES as nat, |k: int| vertex_of(zs@, k)),
                    (CELLS * CELLS) as nat,
                ).len(),
            ),
            v.normals@.len() == 0,
            v.positions@.len() == 3 * v.indices@.len(),
            v.well_formed(),
    {
        let smooth: VertexData = VertexData::fill_vertex_data_from_tile_zs_smooth(xs, ys, zs);
        let ghost pts = Seq::new(SAMPLES as nat, |k: int| vertex_of(zs@, k));
        proof {
            lemma_count_finite_bounds(zs@, 0, SAMPLES as nat);
            assert forall|j: int| 0 <= j < pts.len() implies (#[trigger] pts[j] matches Some(i)
                ==> i < smooth.vertex_count()) by {
                lemma_count_finite_bounds(zs@, j as nat, (j + 1) as nat);
                lemma_count_finite_bounds(zs@, (j + 1) as nat, SAMPLES as nat);
            }
            lemma_grid_triangles(pts, (CELLS * CELLS) as nat, smooth.vertex_count());
        }
        let count: usize = smooth.indices.len();
        let mut v: VertexData = VertexData::new();
        let mut i: usize = 0;
        while i < count
            invariant
                i <= count,
                count == smooth.indices@.len(),
                count <= 6 * 127 * 127,
                smooth.well_formed(),
                smooth.positions@.len() <= 3 * 16384,
                v.normals@.len() == 0,
                v.indices@ == counting(i as nat),
                v.positions@ == corner_positions(
                    smooth.positions@,
                    smooth.indices@.subrange(0, i as int),
                ),
            decreases count - i,
        {
            let at: usize = 3 * (smooth.indices[i] as usize);
            let ghost before = v.positions@;
            v.positions.push(smooth.positions[at]);
            v.positions.push(smooth.positions[at + 1]);
            v.positions.push(smooth.positions[at + 2]);
            v.indices.push(i as u32);
            proof {
                let done = smooth.indices@.subrange(0, i as int);
                let next = smooth.indices@.subrange(0, i + 1);
                let want = corner_positions(smooth.positions@, next);
                assert(v.indices@ =~= counting((i + 1) as nat));
                assert(v.positions@.len() == want.len());
                assert forall|j: int| 0 <= j < want.len() implies v.positions@[j] == want[j] by {
                    if j < 3 * i {
                        assert(j / 3 < i);
                        assert(done[j / 3] == next[j / 3]);
                        assert(before[j] == smooth.positions@[3 * done[j / 3] + j % 3]);
                    } else {
                        assert(j / 3 == i);
                        assert(next[j / 3] == smooth.indices@[i as int]);
                    }
                }
                assert(v.positions@ =~= want);
            }
            i += 1;
        }
        assert(smooth.indices@.subrange(0, count as int) =~= smooth.indices@);
        v
    }

    /// Appends the triangles of every cell of the grid, row by row. `pts`
    /// holds the vertex number of each sample.
    pub fn add_indices_smooth(&mut self, pts: &Vec<Option<u32>>)
        requires
            pts@.len() == SAMPLES,
        ensures
            final(self).indices@ == old(self).indices@ + grid_triangles(
                pts@,
                (CELLS * CELLS) as nat,
            ),
            final(self).positions@ == old(self).positions@,
            final(self).normals@ == old(self).normals@,
    {
        let mut y: usize = 0;
        assert(self.indices@ =~= old(self).indices@ + grid_triangles(pts@, 0));
        while y < CELLS
            invariant
                y <= CELLS,
                pts@.len() == SAMPLES,
                self.indices@ == old(self).indices@ + grid_triangles(pts@, (y * 127) as nat),
                self.positions@ == old(self).positions@,
                self.normals@ == old(self).normals@,
            decreases CELLS - y,
        {
            let mut x: usize = 0;
            while x < CELLS
                invariant
                    x <= CELLS,
                    y < CELLS,
                    pts@.len() == SAMPLES,
                    self.indices@ == old(self).indices@ + grid_triangles(
                        pts@,
                        (y * 127 + x) as nat,
                    ),
                    self.positions@ == old(self).positions@,
                    self.normals@ == old(self).normals@,
                decreases CELLS - x,
            {
                let bl: usize = y * COUNT + x;
                let br: usize = bl + 1;
                let tl: usize = (y + 1) * COUNT + x;
                let tr: usize = tl + 1;
                let ghost before = self.indices@;
                let ghost c: int = y * 127 + x;
                proof {
                    assert(c % 127 == x && c / 127 == y) by (nonlinear_arith)
                        requires
                            c == y * 127 + x,
                            0 <= x < 127,
                            0 <= y,
                    ;
                }
                match (pts[bl], pts[br], pts[tl], pts[tr]) {
                    (Some(a), Some(b), Some(c), Some(d)) => {
                        self.indices.push(a);
                        self.indices.push(b);
                        self.indices.push(d);
                        self.indices.push(d);
                        self.indices.push(c);
                        self.indices.push(a);
                    },
                    (Some(a), Some(b), Some(c), None) => {
                        self.indices.push(c);
                        self.indices.push(a);
                        self.indices.push(b);
                    },
                    (Some(a), Some(b), None, Some(d)) => {
                        self.indices.push(a);
                        self.indices.push(b);
                        self.indices.push(d);
                    },
                    (Some(a), None, Some(c), Some(d)) => {
                        self.indices.push(d);
                        self.indices.push(c);
                        self.indices.push(a);
                    },
                    (None, Some(b), Some(c), Some(d)) => {
                        self.indices.push(b);
                        self.indices.push(d);
                        self.indices.push(c);
                    },
                    _ => {},
                }
                assert(self.indices@ =~= before + cell_at(pts@, c));
                assert(self.indices@ =~= old(self).indices@ + grid_triangles(
                    pts@,
                    (c + 1) as nat,
                ));
                x += 1;
            }
            y += 1;
        }
    }

    /// Sets the normals, one for each vertex.
    pub fn set_normals(&mut self, normals: Vec<u32>)
        requires
            normals@.len() == old(self).positions@.len(),
        ensures
            final(self).normals@ == normals@,
            final(self).positions@ == old(self).positions@,
            final(self).indices@ == old(self).indices@,
    {
        self.normals = normals;
    }

    /// Whether there is nothing to draw: no positions, or no normals.
    pub fn is_empty(&self) -> (b: bool)
        ensures
            b == (self.positions@.len() == 0 || self.normals@.len() == 0),
    {
        self.positions.len() == 0 || self.normals.len() == 0
    }

    /// A copy of the coordinates of the vertices.
    pub fn positions(&self) -> (out: Vec<u32>)
        ensures
            out@ == self.positions@,
    {
        copy_list(&self.positions)
    }

    /// A copy of the vertex numbers of the triangles.
    pub fn indices(&self) -> (out: Vec<u32>)
        ensures
            out@ == self.indices@,
    {
        copy_list(&self.indices)
    }

    /// A copy of the normals of the vertices.
    pub fn normals(&self) -> (out: Vec<u32>)
        ensures
            out@ == self.normals@,
    {
        copy_list(&self.normals)
    }
}

} // verus!
