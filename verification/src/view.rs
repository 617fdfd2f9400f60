//! Which tiles are in view, and at which level of detail.
//!
//! The tiles are found by a walk down the quadtree from the root tiles: a
//! tile that the camera's footprint does not touch is out of view and the
//! walk does not go below it; a tile that it touches is in view once it
//! lies at the chosen depth, and is left for its four children before.

use crate::geometry::Bounds;
use crate::ieee::{ge64, greater64, gt64, lemma_gt64_order, magnitude64};
use crate::lists::copy_list;
use crate::tile_id::{lemma_child_path, lod_res_bits, TileId, TileRect, MAX_DEPTH};
use crate::tile_laws::lemma_root_depth;
use vstd::prelude::*;

verus! {

/// The depth that a wanted sample spacing asks for: the first depth whose
/// own spacing is smaller than the wanted one, and the deepest where none
/// is. `resolution` is the bit pattern of a binary64 number.
pub open spec fn lod_depth_for(resolution: u64) -> nat {
    if gt64(resolution, lod_res_bits(0)) {
        0
    } else if gt64(resolution, lod_res_bits(1)) {
        1
    } else if gt64(resolution, lod_res_bits(2)) {
        2
    } else if gt64(resolution, lod_res_bits(3)) {
        3
    } else if gt64(resolution, lod_res_bits(4)) {
        4
    } else if gt64(resolution, lod_res_bits(5)) {
        5
    } else {
        6
    }
}

/// The depth that a wanted sample spacing asks for.
pub fn choose_lod_depth(resolution: u64) -> (depth: usize)
    ensures
        depth as nat == lod_depth_for(resolution),
        depth <= MAX_DEPTH,
        depth < MAX_DEPTH ==> gt64(resolution, lod_res_bits(depth as nat)),
        forall|d: nat| d < depth ==> !gt64(resolution, #[trigger] lod_res_bits(d)),
{
    if greater64(resolution, 0x4040_0000_0000_0000) {
        0
    } else if greater64(resolution, 0x4030_0000_0000_0000) {
        1
    } else if greater64(resolution, 0x4020_0000_0000_0000) {
        2
    } else if greater64(resolution, 0x4010_0000_0000_0000) {
        3
    } else if greater64(resolution, 0x4000_0000_0000_0000) {
        4
    } else if greater64(resolution, 0x3FF0_0000_0000_0000) {
        5
    } else {
        6
    }
}

/// A coarser wanted spacing never asks for a deeper level.
pub proof fn lemma_lod_depth_monotonic(r1: u64, r2: u64)
    requires
        ge64(r1, r2),
    ensures
        lod_depth_for(r1) <= lod_depth_for(r2),
{
    lemma_gt64_order(r1, r2, lod_res_bits(0));
    lemma_gt64_order(r1, r2, lod_res_bits(1));
    lemma_gt64_order(r1, r2, lod_res_bits(2));
    lemma_gt64_order(r1, r2, lod_res_bits(3));
    lemma_gt64_order(r1, r2, lod_res_bits(4));
    lemma_gt64_order(r1, r2, lod_res_bits(5));
}

/// Why a view could not be computed from its input.
#[derive(Copy, Clone, Debug, PartialEq, Eq, Structural)]
pub enum NumericsError {
    /// The input does not hold the fifteen numbers of a camera direction
    /// and four corners.
    InputLength,
    /// The camera looks along the ground, so that it meets no level plane.
    LevelCamera,
}

/// Whether the input of a view can be projected onto the ground: it holds
/// fifteen numbers, and the height component of the camera direction,
/// given by its bit pattern, is not zero.
pub fn check_view_input(len: usize, camera_y: u64) -> (r: Result<(), NumericsError>)
    ensures
        r is Ok <==> len == 15 && magnitude64(camera_y) != 0,
        len != 15 ==> r == Err::<(), NumericsError>(NumericsError::InputLength),
        len == 15 && magnitude64(camera_y) == 0 ==> r == Err::<(), NumericsError>(
            NumericsError::LevelCamera,
        ),
{
    if len != 15 {
        Err(NumericsError::InputLength)
    } else if camera_y % 0x8000_0000_0000_0000 == 0 {
        Err(NumericsError::LevelCamera)
    } else {
        Ok(())
    }
}

/// Whether a square and a footprint have a point in common.
pub open spec fn overlaps(r: TileRect, f: Bounds) -> bool {
    &&& r.x <= f.max_x
    &&& f.min_x <= r.x + r.side
    &&& r.y <= f.max_y
    &&& f.min_y <= r.y + r.side
}

/// Whether a square and a footprint have a point in common.
pub fn rect_overlaps(r: &TileRect, f: &Bounds) -> (b: bool)
    ensures
        b == overlaps(*r, *f),
{
    let x0: i64 = r.x as i64;
    let y0: i64 = r.y as i64;
    let x1: i64 = x0 + r.side as i64;
    let y1: i64 = y0 + r.side as i64;
    x0 <= f.max_x && f.min_x <= x1 && y0 <= f.max_y && f.min_y <= y1
}

/// What a walk goes by: the top-level grid of root tiles and the camera's
/// footprint on it.
pub struct Scene {
    pub dx: u16,
    pub dy: u16,
    pub footprint: Bounds,
}

impl Scene {
    /// Whether the footprint touches tile `t`.
    pub open spec fn touches(self, t: TileId) -> bool {
        overlaps(t.spec_extents(self.dx, self.dy), self.footprint)
    }

    /// The tiles in view that a walk finds at and below `t`, where the
    /// chosen depth lies `levels` below `t`. Of the children of a tile the
    /// last is walked first.
    pub open spec fn walk_in(self, t: TileId, levels: nat) -> Seq<u32>
        decreases levels,
    {
        if !self.touches(t) {
            Seq::empty()
        } else if levels == 0 {
            seq![t.num() as u32]
        } else {
            self.walk_in(t.spec_child(3), (levels - 1) as nat) + self.walk_in(
                t.spec_child(2),
                (levels - 1) as nat,
            ) + self.walk_in(t.spec_child(1), (levels - 1) as nat) + self.walk_in(
                t.spec_child(0),
                (levels - 1) as nat,
            )
        }
    }

    /// The tiles out of view that a walk finds at and below `t`.
    pub open spec fn walk_out(self, t: TileId, levels: nat) -> Seq<u32>
        decreases levels,
    {
        if !self.touches(t) {
            seq![t.num() as u32]
        } else if levels == 0 {
            Seq::empty()
        } else {
            self.walk_out(t.spec_child(3), (levels - 1) as nat) + self.walk_out(
                t.spec_child(2),
                (levels - 1) as nat,
            ) + self.walk_out(t.spec_child(1), (levels - 1) as nat) + self.walk_out(
                t.spec_child(0),
                (levels - 1) as nat,
            )
        }
    }

    /// The tiles in view that a walk from the root tiles of the grid finds
    /// at `depth`, the last root tile first.
    pub open spec fn in_view(self, depth: nat) -> Seq<u32> {
        self.pending_in(root_tiles((self.dx * self.dy) as nat), depth)
    }

    /// The tiles out of view that a walk from the root tiles of the grid
    /// finds on its way to `depth`.
    pub open spec fn out_view(self, depth: nat) -> Seq<u32> {
        self.pending_out(root_tiles((self.dx * self.dy) as nat), depth)
    }

    /// The tiles in view that a walk finds from a stack of tiles, the top
    /// of the stack first.
    pub open spec fn pending_in(self, stack: Seq<TileId>, depth: nat) -> Seq<u32>
        decreases stack.len(),
    {
        if stack.len() == 0 {
            Seq::empty()
        } else {
            self.walk_in(stack.last(), (depth - stack.last().depth()) as nat) + self.pending_in(
                stack.drop_last(),
                depth,
            )
        }
    }

    /// The tiles out of view that a walk finds from a stack of tiles.
    pub open spec fn pending_out(self, stack: Seq<TileId>, depth: nat) -> Seq<u32>
        decreases stack.len(),
    {
        if stack.len() == 0 {
            Seq::empty()
        } else {
            self.walk_out(stack.last(), (depth - stack.last().depth()) as nat) + self.pending_out(
                stack.drop_last(),
                depth,
            )
        }
    }
}

/// The root tiles of a grid of `n` cells, in order.
pub open spec fn root_tiles(n: nat) -> Seq<TileId> {
    Seq::new(n, |i: int| TileId { root: i as u16, path: 0 })
}

/// How many tiles a walk can visit at and below a tile that lies `levels`
/// above the chosen depth.
pub open spec fn subtree_size(levels: nat) -> nat
    decreases levels,
{
    if levels == 0 {
        1
    } else {
        4 * subtree_size((levels - 1) as nat) + 1
    }
}

/// How many tiles a walk can still visit from a stack of tiles.
pub open spec fn stack_size(stack: Seq<TileId>, depth: nat) -> nat
    decreases stack.len(),
{
    if stack.len() == 0 {
        0
    } else {
        subtree_size((depth - stack.last().depth()) as nat) + stack_size(stack.drop_last(), depth)
    }
}

/// Joining three lists groups either way.
pub proof fn lemma_seq_shift(a: Seq<u32>, b: Seq<u32>, c: Seq<u32>)
    ensures
        (a + b) + c == a + (b + c),
{
    assert((a + b) + c =~= a + (b + c));
}

/// What a walk finds from a stack with one more tile on top: what it finds
/// at and below that tile, then what it finds from the stack below it.
pub proof fn lemma_pending_push(scene: Scene, stack: Seq<TileId>, t: TileId, depth: nat)
    ensures
        scene.pending_in(stack.push(t), depth) == scene.walk_in(t, (depth - t.depth()) as nat)
            + scene.pending_in(stack, depth),
        scene.pending_out(stack.push(t), depth) == scene.walk_out(t, (depth - t.depth()) as nat)
            + scene.pending_out(stack, depth),
{
    assert(stack.push(t).drop_last() =~= stack);
    assert(stack.push(t).last() == t);
}

/// Joining five lists groups either way.
pub proof fn lemma_join_four(a: Seq<u32>, b: Seq<u32>, c: Seq<u32>, d: Seq<u32>, e: Seq<u32>)
    ensures
        a + (b + (c + (d + e))) == (a + b + c + d) + e,
{
    assert(a + (b + (c + (d + e))) =~= (a + b + c + d) + e);
}

/// What a walk finds at and below a touched tile above the chosen depth:
/// what it finds at and below its children, the last child first.
pub proof fn lemma_walk_unfold(scene: Scene, t: TileId, levels: nat)
    requires
        scene.touches(t),
        levels > 0,
    ensures
        scene.walk_in(t, levels) == scene.walk_in(t.spec_child(3), (levels - 1) as nat)
            + scene.walk_in(t.spec_child(2), (levels - 1) as nat) + scene.walk_in(
            t.spec_child(1),
            (levels - 1) as nat,
        ) + scene.walk_in(t.spec_child(0), (levels - 1) as nat),
        scene.walk_out(t, levels) == scene.walk_out(t.spec_child(3), (levels - 1) as nat)
            + scene.walk_out(t.spec_child(2), (levels - 1) as nat) + scene.walk_out(
            t.spec_child(1),
            (levels - 1) as nat,
        ) + scene.walk_out(t.spec_child(0), (levels - 1) as nat),
{
}

/// A walk that leaves a touched tile above the chosen depth for its four
/// children finds in view what it would find at and below the tile itself.
pub proof fn lemma_pending_in_children(scene: Scene, rest: Seq<TileId>, t: TileId, depth: nat)
    requires
        scene.touches(t),
        t.depth() < depth <= 6,
    ensures
        scene.pending_in(
            rest.push(t.spec_child(0)).push(t.spec_child(1)).push(t.spec_child(2)).push(
                t.spec_child(3),
            ),
            depth,
        ) == scene.pending_in(rest.push(t), depth),
{
    let c0 = t.spec_child(0);
    let c1 = t.spec_child(1);
    let c2 = t.spec_child(2);
    let c3 = t.spec_child(3);
    lemma_child_depths(t);
    let levels: nat = (depth - t.depth()) as nat;
    let l1: nat = (levels - 1) as nat;
    let stack0 = rest.push(c0);
    let stack1 = stack0.push(c1);
    let stack2 = stack1.push(c2);
    lemma_pending_push(scene, rest, t, depth);
    lemma_pending_push(scene, rest, c0, depth);
    lemma_pending_push(scene, stack0, c1, depth);
    lemma_pending_push(scene, stack1, c2, depth);
    lemma_pending_push(scene, stack2, c3, depth);
    lemma_walk_unfold(scene, t, levels);
    lemma_join_four(
        scene.walk_in(c3, l1),
        scene.walk_in(c2, l1),
        scene.walk_in(c1, l1),
        scene.walk_in(c0, l1),
        scene.pending_in(rest, depth),
    );
}

/// A walk that leaves a touched tile above the chosen depth for its four
/// children finds out of view what it would find at and below the tile
/// itself.
pub proof fn lemma_pending_out_children(scene: Scene, rest: Seq<TileId>, t: TileId, depth: nat)
    requires
        scene.touches(t),
        t.depth() < depth <= 6,
    ensures
        scene.pending_out(
            rest.push(t.spec_child(0)).push(t.spec_child(1)).push(t.spec_child(2)).push(
                t.spec_child(3),
            ),
            depth,
        ) == scene.pending_out(rest.push(t), depth),
{
    let c0 = t.spec_child(0);
    let c1 = t.spec_child(1);
    let c2 = t.spec_child(2);
    let c3 = t.spec_child(3);
    lemma_child_depths(t);
    let levels: nat = (depth - t.depth()) as nat;
    let l1: nat = (levels - 1) as nat;
    let stack0 = rest.push(c0);
    let stack1 = stack0.push(c1);
    let stack2 = stack1.push(c2);
    lemma_pending_push(scene, rest, t, depth);
    lemma_pending_push(scene, rest, c0, depth);
    lemma_pending_push(scene, stack0, c1, depth);
    lemma_pending_push(scene, stack1, c2, depth);
    lemma_pending_push(scene, stack2, c3, depth);
    lemma_walk_unfold(scene, t, levels);
    lemma_join_four(
        scene.walk_out(c3, l1),
        scene.walk_out(c2, l1),
        scene.walk_out(c1, l1),
        scene.walk_out(c0, l1),
        scene.pending_out(rest, depth),
    );
}

/// A walk that leaves a tile above the chosen depth for its four children
/// has one tile less to visit.
pub proof fn lemma_stack_size_children(rest: Seq<TileId>, t: TileId, depth: nat)
    requires
        t.depth() < depth <= 6,
    ensures
        stack_size(
            rest.push(t.spec_child(0)).push(t.spec_child(1)).push(t.spec_child(2)).push(
                t.spec_child(3),
            ),
            depth,
        ) + 1 == stack_size(rest.push(t), depth),
{
    let c0 = t.spec_child(0);
    let c1 = t.spec_child(1);
    let c2 = t.spec_child(2);
    let c3 = t.spec_child(3);
    lemma_child_depths(t);
    let levels: nat = (depth - t.depth()) as nat;
    let l1: nat = (levels - 1) as nat;
    let stack0 = rest.push(c0);
    let stack1 = stack0.push(c1);
    let stack2 = stack1.push(c2);
    lemma_stack_size_push(rest, t, depth);
    lemma_stack_size_push(rest, c0, depth);
    lemma_stack_size_push(stack0, c1, depth);
    lemma_stack_size_push(stack1, c2, depth);
    lemma_stack_size_push(stack2, c3, depth);
    assert(subtree_size(levels) == 4 * subtree_size(l1) + 1);
}

/// Each child of a tile above the deepest level lies one level below it.
pub proof fn lemma_child_depths(t: TileId)
    requires
        t.depth() < 6,
    ensures
        t.spec_child(0).depth() == t.depth() + 1,
        t.spec_child(1).depth() == t.depth() + 1,
        t.spec_child(2).depth() == t.depth() + 1,
        t.spec_child(3).depth() == t.depth() + 1,
{
    lemma_child_path(t.path, 0);
    lemma_child_path(t.path, 1);
    lemma_child_path(t.path, 2);
    lemma_child_path(t.path, 3);
}

/// How many tiles a walk can visit from a stack with one more tile on
/// top.
pub proof fn lemma_stack_size_push(stack: Seq<TileId>, t: TileId, depth: nat)
    ensures
        stack_size(stack.push(t), depth) == subtree_size((depth - t.depth()) as nat) + stack_size(
            stack,
            depth,
        ),
{
    assert(stack.push(t).drop_last() =~= stack);
    assert(stack.push(t).last() == t);
}

/// The tiles in view and out of view. Both lists hold tile numbers and
/// are written anew by each update.
pub struct ViewableTiles {
    pub dx: u16,
    pub dy: u16,
    pub in_view: Vec<u32>,
    pub out_view: Vec<u32>,
}

impl ViewableTiles {
    /// The grid has no more root tiles than a tile's root can number.
    pub open spec fn well_formed(self) -> bool {
        self.dx * self.dy <= u16::MAX
    }

    /// No tile in view and none out of view, over a top-level grid of `dx`
    /// columns and `dy` rows.
    pub fn new(dx: u16, dy: u16) -> (v: ViewableTiles)
        requires
            dx * dy <= u16::MAX,
        ensures
            v.dx == dx,
            v.dy == dy,
            v.in_view@.len() == 0,
            v.out_view@.len() == 0,
            v.well_formed(),
    {
        ViewableTiles { dx, dy, in_view: Vec::new(), out_view: Vec::new() }
    }

    /// Finds the tiles in view and out of view anew. `resolution` is the
    /// wanted sample spacing as the bit pattern of a binary64 number; it
    /// chooses the depth of the tiles in view.
    pub fn update(&mut self, resolution: u64, footprint: Bounds)
        requires
            old(self).well_formed(),
        ensures
            final(self).dx == old(self).dx,
            final(self).dy == old(self).dy,
            final(self).in_view@ == (Scene {
                dx: old(self).dx,
                dy: old(self).dy,
                footprint,
            }).in_view(lod_depth_for(resolution)),
            final(self).out_view@ == (Scene {
                dx: old(self).dx,
                dy: old(self).dy,
                footprint,
            }).out_view(lod_depth_for(resolution)),
    {
        let lod: u8 = choose_lod_depth(resolution) as u8;
        let ghost scene = Scene { dx: self.dx, dy: self.dy, footprint };
        let ghost depth: nat = lod as nat;
        let mut stack: Vec<TileId> = TileId::roots(self.dx, self.dy);
        assert(stack@ =~= root_tiles((self.dx * self.dy) as nat));
        proof {
            assert forall|i: int| 0 <= i < stack@.len() implies (#[trigger] stack@[i]).depth()
                == 0 && stack@[i].well_formed() by {
                lemma_root_depth(stack@[i]);
            }
        }
        self.in_view.clear();
        self.out_view.clear();
        let ghost all_in = scene.pending_in(stack@, depth);
        let ghost all_out = scene.pending_out(stack@, depth);
        assert(self.in_view@ + all_in =~= all_in);
        assert(self.out_view@ + all_out =~= all_out);
        while stack.len() > 0
            invariant
                self.dx == old(self).dx,
                self.dy == old(self).dy,
                scene == (Scene { dx: self.dx, dy: self.dy, footprint }),
                depth == lod,
                lod <= 6,
                forall|i: int|
                    0 <= i < stack@.len() ==> (#[trigger] stack@[i]).depth() <= depth
                        && stack@[i].well_formed(),
                self.in_view@ + scene.pending_in(stack@, depth) == all_in,
                self.out_view@ + scene.pending_out(stack@, depth) == all_out,
            decreases stack_size(stack@, depth),
        {
            let ghost before = stack@;
            let ghost in_before = self.in_view@;
            let ghost out_before = self.out_view@;
            let t: TileId = stack.pop().unwrap();
            let ghost rest = stack@;
            proof {
                assert(before =~= rest.push(t));
                lemma_pending_push(scene, rest, t, depth);
                lemma_stack_size_push(rest, t, depth);
            }
            let r: TileRect = t.extents(self.dx, self.dy);
            let ints: bool = rect_overlaps(&r, &footprint);
            let at_depth: bool = t.lod_lvl() == lod;
            if ints && at_depth {
                let n: u32 = t.as_num();
                self.in_view.push(n);
                proof {
                    lemma_seq_shift(in_before, seq![n], scene.pending_in(rest, depth));
                    lemma_seq_shift(out_before, Seq::empty(), scene.pending_out(rest, depth));
                    assert(self.in_view@ =~= in_before + seq![n]);
                    assert(self.out_view@ =~= out_before + Seq::<u32>::empty());
                }
            } else if ints {
                let c: [TileId; 4] = t.children();
                stack.push(c[0]);
                stack.push(c[1]);
                stack.push(c[2]);
                stack.push(c[3]);
                proof {
                    lemma_pending_in_children(scene, rest, t, depth);
                    lemma_pending_out_children(scene, rest, t, depth);
                    lemma_stack_size_children(rest, t, depth);
                    assert(stack@ =~= rest.push(t.spec_child(0)).push(t.spec_child(1)).push(
                        t.spec_child(2),
                    ).push(t.spec_child(3)));
                }
            } else {
                let n: u32 = t.as_num();
                self.out_view.push(n);
                proof {
                    lemma_seq_shift(in_before, Seq::empty(), scene.pending_in(rest, depth));
                    lemma_seq_shift(out_before, seq![n], scene.pending_out(rest, depth));
                    assert(self.in_view@ =~= in_before + Seq::<u32>::empty());
                    assert(self.out_view@ =~= out_before + seq![n]);
                }
            }
        }
        assert(self.in_view@ =~= self.in_view@ + scene.pending_in(stack@, depth));
        assert(self.out_view@ =~= self.out_view@ + scene.pending_out(stack@, depth));
    }

    /// A copy of the numbers of the tiles in view.
    pub fn in_view_tiles(&self) -> (out: Vec<u32>)
        ensures
            out@ == self.in_view@,
    {
        copy_list(&self.in_view)
    }

    /// A copy of the numbers of the tiles out of view.
    pub fn out_view_tiles(&self) -> (out: Vec<u32>)
        ensures
            out@ == self.out_view@,
    {
        copy_list(&self.out_view)
    }
}

} // verus!
