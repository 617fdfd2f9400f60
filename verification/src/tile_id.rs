//! Tile identifiers: a root cell of the top-level grid plus a quadtree path.
//!
//! A path is sixteen bits wide. From the most significant bit down it holds
//! three bits of depth, six bit pairs (one per level, the shallowest first)
//! and one bit of padding. In a pair the high bit is the step in X and the
//! low bit the step in Y.

use vstd::prelude::*;

verus! {

/// The deepest level of detail.
pub const MAX_DEPTH: u8 = 6;

/// Samples along one edge of a tile.
pub const COUNT: usize = 128;

/// The side of a depth-0 tile, in half world units.
pub const ROOT_SIDE: u32 = 8128;

/// The side of a tile at depth `d`, in half world units: the sample spacing
/// of that depth times the 127 intervals between the samples of an edge.
pub open spec fn tile_side(d: nat) -> nat {
    if d == 0 {
        8128
    } else if d == 1 {
        4064
    } else if d == 2 {
        2032
    } else if d == 3 {
        1016
    } else if d == 4 {
        508
    } else if d == 5 {
        254
    } else {
        127
    }
}

/// The sample spacing at depth `d`, in half world units.
pub open spec fn lod_spacing(d: nat) -> nat {
    if d == 0 {
        64
    } else if d == 1 {
        32
    } else if d == 2 {
        16
    } else if d == 3 {
        8
    } else if d == 4 {
        4
    } else if d == 5 {
        2
    } else {
        1
    }
}

/// The binary64 bit pattern of the sample spacing at depth `d` in world
/// units, a power of two from 32 down to one half: a zero mantissa under
/// the biased exponent `1023 + 5 - d`.
pub open spec fn lod_res_bits(d: nat) -> u64 {
    if d == 0 {
        0x4040_0000_0000_0000
    } else if d == 1 {
        0x4030_0000_0000_0000
    } else if d == 2 {
        0x4020_0000_0000_0000
    } else if d == 3 {
        0x4010_0000_0000_0000
    } else if d == 4 {
        0x4000_0000_0000_0000
    } else if d == 5 {
        0x3FF0_0000_0000_0000
    } else {
        0x3FE0_0000_0000_0000
    }
}

/// The depth that a path holds in its top three bits.
pub open spec fn path_depth(path: u16) -> nat {
    (path >> 13) as nat
}

/// The two bits of a path that start `shift` bits above the lowest.
pub open spec fn pair_at(path: u16, shift: u16) -> u16 {
    (path >> shift) & 3
}

/// How far the bit pair of `level` lies above the lowest bit of a path.
pub open spec fn pair_shift(level: nat) -> u16
    recommends
        level < 6,
{
    (11 - 2 * level) as u16
}

/// The bit pair of `level` (0 is the shallowest) in a path.
pub open spec fn path_pair(path: u16, level: nat) -> u16
    recommends
        level < 6,
{
    pair_at(path, pair_shift(level))
}

/// The path one level up: the depth falls by one, and the pair of the
/// deepest level and every bit below it are cleared.
pub open spec fn parent_path(path: u16) -> u16
    recommends
        path >> 13 >= 1,
{
    let keep: u16 = (15 - 2 * (path >> 13)) as u16;
    (((path - 0x2000) as u16) >> keep) << keep
}

/// The path one level down into quadrant `k`: the depth rises by one, and
/// `k` is set in the pair of the new level.
pub open spec fn child_path(path: u16, k: u16) -> u16
    recommends
        path >> 13 < 6,
        k < 4,
{
    ((path + 0x2000) as u16) | (k << ((11 - 2 * (path >> 13)) as u16))
}

/// Whether the path steps right at `level`.
pub open spec fn step_x(path: u16, level: nat) -> bool
    recommends
        level < 6,
{
    path_pair(path, level) & 2 != 0
}

/// Whether the path steps up at `level`.
pub open spec fn step_y(path: u16, level: nat) -> bool
    recommends
        level < 6,
{
    path_pair(path, level) & 1 != 0
}

/// The low bits of a path that lie below the pairs of its first `depth`
/// levels. A canonical path holds zeros there.
pub open spec fn path_tail(path: u16, depth: nat) -> u16
    recommends
        depth <= 6,
{
    path & (0x1FFFu16 >> ((2 * depth) as u16))
}

/// Bit `i` of `v`, counted from the lowest.
pub open spec fn bit_of(v: u8, i: nat) -> bool {
    ((v as u16) >> (i as u16)) & 1 == 1
}

/// The lowest `n` bits of `v`.
pub open spec fn low_bits(v: u16, n: u16) -> u16 {
    v & !(0xFFFFu16 << n)
}

/// The low six bits of `v` spread out, bit `i` moving to bit `2 * i`.
pub open spec fn spread_bits(v: u16) -> u16 {
    (v & 1) | ((v & 2) << 1) | ((v & 4) << 2) | ((v & 8) << 3) | ((v & 16) << 4) | ((v & 32) << 5)
}

/// The path of the deepest tile at cell `(x, y)` of the 64 by 64 grid of
/// such tiles in one root tile: depth six, and at each level the bit of
/// `x` over the bit of `y`, their high bits at the shallowest level.
pub open spec fn leaf_path(x: u8, y: u8) -> u16 {
    0xC000u16 | (spread_bits(x as u16) << 2) | (spread_bits(y as u16) << 1)
}

/// How far a path leads right of its root tile's origin over its first `n`
/// levels, in half world units: the sides of the tiles it steps right into.
pub open spec fn offset_x(path: u16, n: nat) -> nat
    decreases n,
{
    if n == 0 {
        0
    } else {
        offset_x(path, (n - 1) as nat) + if step_x(path, (n - 1) as nat) {
            tile_side(n)
        } else {
            0
        }
    }
}

/// How far a path leads up from its root tile's origin over its first `n`
/// levels, in half world units.
pub open spec fn offset_y(path: u16, n: nat) -> nat
    decreases n,
{
    if n == 0 {
        0
    } else {
        offset_y(path, (n - 1) as nat) + if step_y(path, (n - 1) as nat) {
            tile_side(n)
        } else {
            0
        }
    }
}

/// The side of a tile at `depth`, in half world units.
pub fn tile_size(depth: usize) -> (side: u32)
    requires
        depth <= MAX_DEPTH,
    ensures
        side as nat == tile_side(depth as nat),
        side as nat == 127 * lod_spacing(depth as nat),
{
    if depth == 0 {
        8128
    } else if depth == 1 {
        4064
    } else if depth == 2 {
        2032
    } else if depth == 3 {
        1016
    } else if depth == 4 {
        508
    } else if depth == 5 {
        254
    } else {
        127
    }
}

/// How many root tiles in a row it takes to span a length given in half
/// world units, but no more than a tile's root can count.
pub open spec fn tiles_across(len: u64) -> u16 {
    if (len + 8127) / 8128 > 65535 {
        65535
    } else {
        ((len + 8127) / 8128) as u16
    }
}

/// The columns and rows of the top-level grid that spans a footprint of
/// the given width and height, in half world units.
pub fn extent_dims(width: u64, height: u64) -> (dims: [u16; 2])
    ensures
        dims[0] == tiles_across(width),
        dims[1] == tiles_across(height),
        dims[0] < 65535 ==> (dims[0] - 1) * 8128 < width <= dims[0] * 8128,
        dims[1] < 65535 ==> (dims[1] - 1) * 8128 < height <= dims[1] * 8128,
{
    [span_tiles(width), span_tiles(height)]
}

/// How many root tiles in a row it takes to span a length.
pub fn span_tiles(len: u64) -> (n: u16)
    ensures
        n == tiles_across(len),
{
    let whole: u64 = len / 8128;
    let n: u64 = if len % 8128 == 0 {
        whole
    } else {
        whole + 1
    };
    if n > 65535 {
        65535
    } else {
        n as u16
    }
}

/// A square in the plane of the top-level grid, in half world units from
/// the grid's origin: its lower left corner and the length of its side.
#[derive(Copy, Clone, Debug, PartialEq, Eq, Structural)]
pub struct TileRect {
    pub x: u32,
    pub y: u32,
    pub side: u32,
}

/// A tile of the quadtree: `root` picks the depth-0 cell, `path` holds the
/// depth and the steps that lead from that cell down to the tile.
#[derive(Copy, Clone, Debug, PartialEq, Eq, PartialOrd, Ord, Hash, Structural)]
pub struct TileId {
    pub root: u16,
    pub path: u16,
}

impl TileId {
    /// The depth of this tile.
    pub open spec fn depth(self) -> nat {
        path_depth(self.path)
    }

    /// The steps from the root cell down to this tile, shallowest first,
    /// each as (step in X, step in Y).
    pub open spec fn steps(self) -> Seq<(bool, bool)> {
        Seq::new(self.depth(), |i: int| (step_x(self.path, i as nat), step_y(self.path, i as nat)))
    }

    /// A canonical identifier: a depth of at most six, and zeros in every
    /// bit below the pairs of its own levels.
    pub open spec fn well_formed(self) -> bool {
        &&& self.depth() <= 6
        &&& path_tail(self.path, self.depth()) == 0
    }

    /// The identifier as one number: the root in the high half, the path
    /// in the low half.
    pub open spec fn num(self) -> nat {
        (self.root as nat) * 65536 + (self.path as nat)
    }

    /// The identifier that a number stands for.
    pub open spec fn of_num(n: nat) -> TileId {
        TileId { root: (n / 65536) as u16, path: (n % 65536) as u16 }
    }

    /// Whether the tile that `id` stands for is a root tile.
    pub fn is_root(id: u32) -> (b: bool)
        ensures
            b == (TileId::of_num(id as nat).depth() == 0),
    {
        Self::from_num(id).is_root_()
    }

    /// Whether this tile is a root tile of the top-level grid.
    pub fn is_root_(&self) -> (b: bool)
        ensures
            b == (self.depth() == 0),
    {
        self.lod_lvl() == 0
    }

    /// Whether the tile that `id` stands for is at the deepest level.
    pub fn is_max(id: u32) -> (b: bool)
        ensures
            b == (TileId::of_num(id as nat).depth() == 6),
    {
        Self::from_num(id).is_max_()
    }

    /// Whether this tile is at the deepest level.
    pub fn is_max_(&self) -> (b: bool)
        ensures
            b == (self.depth() == 6),
    {
        self.lod_lvl() == MAX_DEPTH
    }

    /// Whether this identifier is canonical.
    pub fn is_well_formed(&self) -> (b: bool)
        ensures
            b == self.well_formed(),
    {
        let lvl: u8 = self.lod_lvl();
        if lvl > MAX_DEPTH {
            return false;
        }
        let shift: u16 = 2 * (lvl as u16);
        (self.path & (0x1FFFu16 >> shift)) == 0
    }

    /// Packs the identifier into one number.
    pub fn as_num(&self) -> (n: u32)
        ensures
            n as nat == self.num(),
            TileId::of_num(n as nat) == *self,
    {
        let root: u16 = self.root;
        let path: u16 = self.path;
        assert(((root as u32) << 16) | (path as u32) == (root as u32) * 65536 + (path as u32))
            by (bit_vector);
        ((self.root as u32) << 16) | self.path as u32
    }

    /// Unpacks an identifier from one number.
    pub fn from_num(n: u32) -> (id: TileId)
        ensures
            id == TileId::of_num(n as nat),
            id.num() == n as nat,
    {
        assert(n >> 16 == n / 65536) by (bit_vector);
        assert(n & 0xFFFF == n % 65536) by (bit_vector);
        let root: u16 = (n >> 16) as u16;
        let path: u16 = (n & 0xFFFF) as u16;
        TileId { root, path }
    }

    /// The sample spacing of this tile's depth in world units, as the bit
    /// pattern of a binary64 number.
    pub fn lod_res(&self) -> (bits: u64)
        requires
            self.depth() <= 6,
        ensures
            bits == lod_res_bits(self.depth()),
    {
        let lvl: u8 = self.lod_lvl();
        if lvl == 0 {
            0x4040_0000_0000_0000
        } else if lvl == 1 {
            0x4030_0000_0000_0000
        } else if lvl == 2 {
            0x4020_0000_0000_0000
        } else if lvl == 3 {
            0x4010_0000_0000_0000
        } else if lvl == 4 {
            0x4000_0000_0000_0000
        } else if lvl == 5 {
            0x3FF0_0000_0000_0000
        } else {
            0x3FE0_0000_0000_0000
        }
    }

    /// The level of detail: the top three bits of the path.
    pub fn lod_lvl(&self) -> (lvl: u8)
        ensures
            lvl as nat == self.depth(),
            lvl <= 7,
    {
        let p: u16 = self.path;
        assert(p >> 13 <= 7) by (bit_vector);
        (self.path >> 13) as u8
    }

    /// The tile one level up, if this is no root tile.
    pub open spec fn spec_parent(self) -> Option<TileId> {
        if self.depth() == 0 {
            None
        } else {
            Some(TileId { root: self.root, path: parent_path(self.path) })
        }
    }

    /// The child tile in quadrant `k`: 0 and 1 lie left, 0 and 2 at the
    /// bottom.
    pub open spec fn spec_child(self, k: nat) -> TileId
        recommends
            self.depth() < 6,
            k < 4,
    {
        TileId { root: self.root, path: child_path(self.path, k as u16) }
    }

    /// The square that this tile covers in a top-level grid of `dx` columns
    /// and `dy` rows, in half world units from the grid's origin: the cell
    /// of its root, moved by the way that its path leads. A root beyond
    /// the grid has the empty square at the origin.
    pub open spec fn spec_extents(self, dx: u16, dy: u16) -> TileRect {
        if self.root >= dx * dy {
            TileRect { x: 0, y: 0, side: 0 }
        } else {
            TileRect {
                x: ((self.root % dx) * 8128 + offset_x(self.path, self.depth())) as u32,
                y: ((self.root / dx) * 8128 + offset_y(self.path, self.depth())) as u32,
                side: tile_side(self.depth()) as u32,
            }
        }
    }

    /// The steps of the path, shallowest first, each as `[x, y]`.
    pub fn path_iter(&self) -> (out: Vec<[bool; 2]>)
        requires
            self.depth() <= 6,
        ensures
            out@.len() == self.depth(),
            forall|i: int|
                0 <= i < out@.len() ==> {
                    &&& (#[trigger] out@[i])[0] == step_x(self.path, i as nat)
                    &&& out@[i][1] == step_y(self.path, i as nat)
                },
            forall|i: int|
                0 <= i < out@.len() ==> ((#[trigger] out@[i])[0], out@[i][1]) == self.steps()[i],
    {
        let lvl: u8 = self.lod_lvl();
        let mut out: Vec<[bool; 2]> = Vec::new();
        let mut i: u8 = 0;
        while i < lvl
            invariant
                i <= lvl <= 6,
                lvl as nat == self.depth(),
                out@.len() == i,
                forall|j: int|
                    0 <= j < out@.len() ==> {
                        &&& (#[trigger] out@[j])[0] == step_x(self.path, j as nat)
                        &&& out@[j][1] == step_y(self.path, j as nat)
                    },
            decreases lvl - i,
        {
            let shift: u16 = 11 - 2 * (i as u16);
            let pair: u16 = (self.path >> shift) & 3;
            let step: [bool; 2] = [pair & 2 != 0, pair & 1 != 0];
            out.push(step);
            i += 1;
        }
        out
    }

    /// The tile one level up: `None` for a root tile, else the tile of the
    /// same root whose path is this one without its deepest step.
    pub fn parent(&self) -> (p: Option<TileId>)
        ensures
            p == self.spec_parent(),
            self.depth() == 0 <==> p is None,
            p matches Some(q) ==> {
                &&& q.root == self.root
                &&& q.depth() + 1 == self.depth()
                &&& q.well_formed()
                &&& forall|i: nat|
                    i < 6 ==> #[trigger] path_pair(q.path, i) == if i + 1 < self.depth() {
                        path_pair(self.path, i)
                    } else {
                        0
                    }
                &&& q.path & 1 == 0
            },
    {
        let lvl: u8 = self.lod_lvl();
        if lvl == 0 {
            None
        } else {
            let path: u16 = self.path;
            let d: u16 = 15 - 2 * (lvl as u16);
            let l: u16 = ((lvl as u16) - 1) << 13;
            let up: u16 = (((path & 0x1FFF) | l) >> d) << d;
            proof {
                lemma_parent_path(path);
                assert forall|i: nat| i < 6 implies #[trigger] path_pair(up, i) == if i + 1
                    < self.depth() {
                    path_pair(self.path, i)
                } else {
                    0
                } by {
                    lemma_pair_shift_odd(i);
                }
            }
            Some(TileId { root: self.root, path: up })
        }
    }

    /// The four tiles one level down, in the order of their quadrants:
    /// left bottom, left top, right bottom, right top.
    pub fn children(&self) -> (c: [TileId; 4])
        requires
            self.depth() < 6,
        ensures
            forall|k: int|
                0 <= k < 4 ==> {
                    &&& (#[trigger] c[k]) == self.spec_child(k as nat)
                    &&& c[k].root == self.root
                    &&& c[k].depth() == self.depth() + 1
                    &&& c[k].path & 1 == self.path & 1
                    &&& forall|i: nat|
                        i < 6 ==> #[trigger] path_pair(c[k].path, i) == if i == self.depth() {
                            path_pair(self.path, i) | (k as u16)
                        } else {
                            path_pair(self.path, i)
                        }
                    &&& self.well_formed() ==> c[k].well_formed()
                },
    {
        let d: u16 = self.lod_lvl() as u16;
        let path: u16 = self.path;
        let shift: u16 = 11 - d * 2;
        let base: u16 = (path & 0x1FFF) | ((d + 1) << 13);
        let c0: TileId = TileId { root: self.root, path: base };
        let c1: TileId = TileId { root: self.root, path: base | (1u16 << shift) };
        let c2: TileId = TileId { root: self.root, path: base | (2u16 << shift) };
        let c3: TileId = TileId { root: self.root, path: base | (3u16 << shift) };
        let c: [TileId; 4] = [c0, c1, c2, c3];
        proof {
            assert(base == base | (0u16 << shift)) by (bit_vector);
            assert forall|k: int| 0 <= k < 4 implies {
                &&& (#[trigger] c[k]) == self.spec_child(k as nat)
                &&& c[k].root == self.root
                &&& c[k].depth() == self.depth() + 1
                &&& c[k].path & 1 == self.path & 1
                &&& forall|i: nat|
                    i < 6 ==> #[trigger] path_pair(c[k].path, i) == if i == self.depth() {
                        path_pair(self.path, i) | (k as u16)
                    } else {
                        path_pair(self.path, i)
                    }
                &&& self.well_formed() ==> c[k].well_formed()
            } by {
                let q: u16 = k as u16;
                let down: u16 = c[k].path;
                assert(down == base | (q << shift));
                lemma_child_path(path, q);
                assert forall|i: nat| i < 6 implies #[trigger] path_pair(down, i) == if i
                    == self.depth() {
                    path_pair(path, i) | q
                } else {
                    path_pair(path, i)
                } by {
                    lemma_pair_shift_odd(i);
                }
            }
        }
        c
    }

    /// The deepest tile at cell `(x, y)` of the grid of such tiles in one
    /// root tile. Only the low six bits of `x` and of `y` count. The root
    /// is 0: the caller sets it.
    pub fn from_leaf_index(x: u8, y: u8) -> (t: TileId)
        ensures
            t.root == 0,
            t.path == leaf_path(x, y),
            t.depth() == 6,
            t.well_formed(),
            forall|i: nat| i < 6 ==> #[trigger] step_x(t.path, i) == bit_of(x, (5 - i) as nat),
            forall|i: nat| i < 6 ==> #[trigger] step_y(t.path, i) == bit_of(y, (5 - i) as nat),
    {
        let xw: u16 = x as u16;
        let yw: u16 = y as u16;
        let mut path: u16 = 0;
        let mut i: u16 = 0;
        proof {
            lemma_spread_start(xw, yw);
        }
        while i < 6
            invariant
                i <= 6,
                path == (spread_bits(low_bits(xw, i)) << 1) | spread_bits(low_bits(yw, i)),
            decreases 6 - i,
        {
            let bit: u16 = 1u16 << i;
            let t: u16 = ((yw & bit) << i) | ((xw & bit) << (i + 1));
            proof {
                lemma_spread_step(xw, yw, i);
            }
            path = path | t;
            i += 1;
        }
        proof {
            lemma_leaf_path(x, y);
            assert(path < 0x8000 && (path << 1) | 0xC000 == leaf_path(x, y)) by (bit_vector)
                requires
                    xw == x as u16,
                    yw == y as u16,
                    path == (spread_bits(low_bits(xw, 6)) << 1) | spread_bits(low_bits(yw, 6)),
            ;
            assert forall|j: nat| j < 6 implies #[trigger] step_x(leaf_path(x, y), j) == bit_of(
                x,
                (5 - j) as nat,
            ) by {
                lemma_pair_shift_odd(j);
            }
            assert forall|j: nat| j < 6 implies #[trigger] step_y(leaf_path(x, y), j) == bit_of(
                y,
                (5 - j) as nat,
            ) by {
                lemma_pair_shift_odd(j);
            }
        }
        path = path << 1;
        path = path | 0xC000;
        TileId { root: 0, path }
    }

    /// The way from the root tile's origin to this tile's origin, in half
    /// world units, as `[x, y]`.
    pub fn ovec(&self) -> (o: [u32; 2])
        requires
            self.depth() <= 6,
        ensures
            o[0] as nat == offset_x(self.path, self.depth()),
            o[1] as nat == offset_y(self.path, self.depth()),
            o[0] + tile_side(self.depth()) <= 8128,
            o[1] + tile_side(self.depth()) <= 8128,
    {
        let lvl: u8 = self.lod_lvl();
        let mut ox: u32 = 0;
        let mut oy: u32 = 0;
        let mut i: u8 = 0;
        while i < lvl
            invariant
                i <= lvl <= 6,
                ox as nat == offset_x(self.path, i as nat),
                oy as nat == offset_y(self.path, i as nat),
                ox + tile_side(i as nat) <= 8128,
                oy + tile_side(i as nat) <= 8128,
            decreases lvl - i,
        {
            let shift: u16 = 11 - 2 * (i as u16);
            let pair: u16 = (self.path >> shift) & 3;
            let side: u32 = tile_size((i + 1) as usize);
            if pair & 2 != 0 {
                ox = ox + side;
            }
            if pair & 1 != 0 {
                oy = oy + side;
            }
            i += 1;
        }
        [ox, oy]
    }

    /// The root tiles of a top-level grid of `dx` columns and `dy` rows, in
    /// row-major order.
    pub fn roots(dx: u16, dy: u16) -> (out: Vec<TileId>)
        requires
            dx * dy <= u16::MAX,
        ensures
            out@.len() == dx * dy,
            forall|i: int|
                0 <= i < out@.len() ==> #[trigger] out@[i] == (TileId { root: i as u16, path: 0 }),
    {
        let n: u16 = dx * dy;
        let mut out: Vec<TileId> = Vec::new();
        let mut root: u16 = 0;
        while root < n
            invariant
                root <= n,
                out@.len() == root,
                forall|i: int|
                    0 <= i < out@.len() ==> #[trigger] out@[i] == (TileId {
                        root: i as u16,
                        path: 0,
                    }),
            decreases n - root,
        {
            out.push(TileId { root, path: 0 });
            root += 1;
        }
        out
    }

    /// The square that this tile covers in a top-level grid of `dx` columns
    /// and `dy` rows, measured from the grid's origin. A root beyond the
    /// grid gives the empty square at the origin.
    pub fn extents(&self, dx: u16, dy: u16) -> (r: TileRect)
        requires
            self.depth() <= 6,
        ensures
            r == self.spec_extents(dx, dy),
            self.root >= dx * dy ==> r == (TileRect { x: 0, y: 0, side: 0 }),
            self.root < dx * dy ==> {
                &&& r.x as nat == (self.root % dx) * 8128 + offset_x(self.path, self.depth())
                &&& r.y as nat == (self.root / dx) * 8128 + offset_y(self.path, self.depth())
                &&& r.side as nat == tile_side(self.depth())
            },
    {
        assert(dx * dy <= 65535 * 65535) by (nonlinear_arith)
            requires
                dx <= 65535,
                dy <= 65535,
        ;
        let cells: u32 = (dx as u32) * (dy as u32);
        if self.root as u32 >= cells {
            TileRect { x: 0, y: 0, side: 0 }
        } else {
            let col: u32 = (self.root % dx) as u32;
            let row: u32 = (self.root / dx) as u32;
            let o: [u32; 2] = self.ovec();
            TileRect {
                x: col * ROOT_SIDE + o[0],
                y: row * ROOT_SIDE + o[1],
                side: tile_size(self.lod_lvl() as usize),
            }
        }
    }
}

/// The shift of every level's pair is odd and at most eleven.
pub proof fn lemma_pair_shift_odd(level: nat)
    requires
        level < 6,
    ensures
        pair_shift(level) <= 11,
        pair_shift(level) & 1 == 1,
        pair_shift(level) == 11 - 2 * level,
{
    let s = pair_shift(level);
    assert(s & 1 == 1) by (bit_vector)
        requires
            s == 1 || s == 3 || s == 5 || s == 7 || s == 9 || s == 11,
    ;
}

/// What a step up does to the bits of a path.
pub proof fn lemma_parent_path(path: u16)
    by (bit_vector)
    requires
        path >> 13 >= 1,
    ensures
        parent_path(path) == (((path & 0x1FFF) | ((((path >> 13) - 1) as u16) << 13)) >> ((15 - 2
            * (path >> 13)) as u16)) << ((15 - 2 * (path >> 13)) as u16),
        parent_path(path) >> 13 == (path >> 13) - 1,
        parent_path(path) & 1 == 0,
        parent_path(path) & (0x1FFFu16 >> ((2 * ((path >> 13) - 1)) as u16)) == 0,
        forall|s: u16|
            s <= 11 && s & 1 == 1 ==> #[trigger] pair_at(parent_path(path), s) == if s >= 15 - 2 * (
            path >> 13) {
                pair_at(path, s)
            } else {
                0
            },
{
}

/// What a step down into quadrant `k` does to the bits of a path.
pub proof fn lemma_child_path(path: u16, k: u16)
    by (bit_vector)
    requires
        path >> 13 < 6,
        k < 4,
    ensures
        child_path(path, k) == ((path & 0x1FFF) | ((((path >> 13) + 1) as u16) << 13)) | (k << ((11
            - 2 * (path >> 13)) as u16)),
        child_path(path, k) >> 13 == (path >> 13) + 1,
        child_path(path, k) & 1 == path & 1,
        forall|s: u16|
            s <= 11 && s & 1 == 1 ==> #[trigger] pair_at(child_path(path, k), s) == if s == 11 - 2
                * (path >> 13) {
                pair_at(path, s) | k
            } else {
                pair_at(path, s)
            },
        path & (0x1FFFu16 >> ((2 * (path >> 13)) as u16)) == 0 ==> child_path(path, k) & (0x1FFFu16
            >> ((2 * ((path >> 13) + 1)) as u16)) == 0,
{
}
/// Before the first round of interleaving nothing is set.
pub proof fn lemma_spread_start(x: u16, y: u16)
    by (bit_vector)
    ensures
        0u16 == (spread_bits(low_bits(x, 0)) << 1) | spread_bits(low_bits(y, 0)),
{
}

/// One round of interleaving: bit `i` of `x` and of `y` join the bits
/// below them.
pub proof fn lemma_spread_step(x: u16, y: u16, i: u16)
    by (bit_vector)
    requires
        i < 6,
    ensures
        ((spread_bits(low_bits(x, i)) << 1) | spread_bits(low_bits(y, i))) | (((y & (1u16 << i))
            << i) | ((x & (1u16 << i)) << ((i + 1) as u16))) == (spread_bits(
            low_bits(x, (i + 1) as u16),
        ) << 1) | spread_bits(low_bits(y, (i + 1) as u16)),
{
}

/// The depth, the padding and the pairs of the path of a deepest tile.
pub proof fn lemma_leaf_path(x: u8, y: u8)
    by (bit_vector)
    ensures
        leaf_path(x, y) >> 13 == 6,
        leaf_path(x, y) & 1 == 0,
        leaf_path(x, y) & (0x1FFFu16 >> 12) == 0,
        forall|s: u16|
            s <= 11 && s & 1 == 1 ==> {
                &&& (#[trigger] pair_at(leaf_path(x, y), s) & 2 != 0) == ((((x as u16) >> (((s - 1)
                    / 2) as u16)) & 1) == 1)
                &&& (pair_at(leaf_path(x, y), s) & 1 != 0) == ((((y as u16) >> (((s - 1)
                    / 2) as u16)) & 1) == 1)
            },
{
}

} // verus!
