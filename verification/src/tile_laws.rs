//! What holds between the operations on tile identifiers.

use crate::tile_id::{
    bit_of, child_path, leaf_path, lemma_child_path, lemma_leaf_path, lemma_pair_shift_odd,
    lemma_parent_path,
    lod_spacing, offset_x, offset_y, pair_at, pair_shift, parent_path, path_depth, path_pair,
    step_x, step_y, tile_side, TileId,
};
use vstd::prelude::*;

verus! {

/// Packing an identifier into a number and unpacking it gives the
/// identifier back, whatever its root and path.
pub proof fn lemma_num_round_trip(t: TileId)
    ensures
        TileId::of_num(t.num()) == t,
        t.num() < 0x1_0000_0000,
{
}

/// Unpacking a number of 32 bits and packing it gives the number back.
pub proof fn lemma_of_num_round_trip(n: nat)
    requires
        n < 0x1_0000_0000,
    ensures
        TileId::of_num(n).num() == n,
{
}

/// Two identifiers with different numbers differ, and the other way round.
pub proof fn lemma_num_injective(a: TileId, b: TileId)
    ensures
        a.num() == b.num() <==> a == b,
{
    lemma_num_round_trip(a);
    lemma_num_round_trip(b);
}

/// The side of a tile is 127 sample spacings, and halves from each depth
/// to the next.
pub proof fn lemma_tile_side_table(d: nat)
    requires
        d <= 6,
    ensures
        tile_side(d) == 127 * lod_spacing(d),
        d < 6 ==> tile_side(d) == 2 * tile_side(d + 1),
        d < 6 ==> lod_spacing(d) == 2 * lod_spacing(d + 1),
        tile_side(0) == 8128,
        tile_side(6) == 127,
{
}

/// Every child of a canonical tile above the deepest level is canonical,
/// lies one level deeper, and has that tile as its parent.
pub proof fn lemma_parent_of_child(t: TileId, k: nat)
    requires
        t.well_formed(),
        t.depth() < 6,
        k < 4,
    ensures
        t.spec_child(k).well_formed(),
        t.spec_child(k).depth() == t.depth() + 1,
        t.spec_child(k).spec_parent() == Some(t),
{
    let p: u16 = t.path;
    let q: u16 = k as u16;
    assert(child_path(p, q) >> 13 == (p >> 13) + 1 && parent_path(child_path(p, q)) == p
        && child_path(p, q) & (0x1FFFu16 >> ((2 * ((p >> 13) + 1)) as u16)) == 0) by (bit_vector)
        requires
            p >> 13 < 6,
            q < 4,
            p & (0x1FFFu16 >> ((2 * (p >> 13)) as u16)) == 0,
    ;
}

/// The quadrant in which a tile lies within its parent: the pair of its
/// deepest level.
pub open spec fn quadrant(t: TileId) -> nat
    recommends
        1 <= t.depth() <= 6,
{
    path_pair(t.path, (t.depth() - 1) as nat) as nat
}

/// A canonical tile below the top level is one of the four children of its
/// parent: the one in its own quadrant.
pub proof fn lemma_child_of_parent(t: TileId)
    requires
        t.well_formed(),
        t.depth() >= 1,
    ensures
        quadrant(t) < 4,
        t.spec_parent() matches Some(p) && p.well_formed() && p.depth() + 1 == t.depth()
            && p.spec_child(quadrant(t)) == t,
{
    let p: u16 = t.path;
    let s: u16 = pair_shift((t.depth() - 1) as nat);
    let q: u16 = pair_at(p, s);
    assert(q < 4 && parent_path(p) >> 13 == (p >> 13) - 1 && child_path(parent_path(p), q) == p
        && parent_path(p) & (0x1FFFu16 >> ((2 * ((p >> 13) - 1)) as u16)) == 0) by (bit_vector)
        requires
            1 <= p >> 13 <= 6,
            p & (0x1FFFu16 >> ((2 * (p >> 13)) as u16)) == 0,
            s == 13 - 2 * (p >> 13),
            q == pair_at(p, s),
    ;
}

/// The steps of the parent of a tile are the steps of the tile without
/// the last.
pub proof fn lemma_parent_steps(t: TileId)
    requires
        1 <= t.depth() <= 6,
    ensures
        t.spec_parent() matches Some(p) && p.steps() == t.steps().drop_last(),
{
    lemma_parent_path(t.path);
    let p = t.spec_parent()->0;
    assert forall|i: int| 0 <= i < p.steps().len() implies p.steps()[i] == t.steps().drop_last()[i] by {
        lemma_pair_shift_odd(i as nat);
    }
    assert(p.steps() =~= t.steps().drop_last());
}

/// The steps of a child of a canonical tile are the steps of the tile and
/// then the step into the child's quadrant: right in the quadrants 2 and
/// 3, up in the quadrants 1 and 3.
pub proof fn lemma_child_steps(t: TileId, k: nat)
    requires
        t.well_formed(),
        t.depth() < 6,
        k < 4,
    ensures
        t.spec_child(k).steps() == t.steps().push((k >= 2, k % 2 == 1)),
{
    let p: u16 = t.path;
    let q: u16 = k as u16;
    let c = t.spec_child(k);
    let d: nat = t.depth();
    lemma_child_path(p, q);
    lemma_pair_shift_odd(d);
    let sd: u16 = pair_shift(d);
    assert(pair_at(p, sd) == 0 && (pair_at(p, sd) | q) & 2 != 0 == (q >= 2) && ((pair_at(p, sd) | q)
        & 1 != 0) == (q % 2 == 1)) by (bit_vector)
        requires
            p >> 13 < 6,
            q < 4,
            p & (0x1FFFu16 >> ((2 * (p >> 13)) as u16)) == 0,
            sd == 11 - 2 * (p >> 13),
    ;
    let want = t.steps().push((k >= 2, k % 2 == 1));
    assert(c.steps().len() == want.len());
    assert forall|i: int| 0 <= i < want.len() implies c.steps()[i] == want[i] by {
        lemma_pair_shift_odd(i as nat);
    }
    assert(c.steps() =~= want);
}

/// The children of a tile fill it two by two: each starts where the tile
/// starts, moved by its own side to the right in the quadrants 2 and 3 and
/// up in the quadrants 1 and 3, and its side is half the tile's.
pub proof fn lemma_children_tile_parent(t: TileId, k: nat)
    requires
        t.well_formed(),
        t.depth() < 6,
        k < 4,
    ensures
        2 * tile_side(t.depth() + 1) == tile_side(t.depth()),
        offset_x(t.spec_child(k).path, t.depth() + 1) == offset_x(t.path, t.depth()) + if k >= 2 {
            tile_side(t.depth() + 1)
        } else {
            0
        },
        offset_y(t.spec_child(k).path, t.depth() + 1) == offset_y(t.path, t.depth()) + if k % 2
            == 1 {
            tile_side(t.depth() + 1)
        } else {
            0
        },
{
    let p: u16 = t.path;
    let q: u16 = k as u16;
    let c: u16 = child_path(p, q);
    let d: nat = t.depth();
    lemma_child_path(p, q);
    lemma_pair_shift_odd(d);
    let sd: u16 = pair_shift(d);
    assert(pair_at(p, sd) == 0 && (pair_at(p, sd) | q) & 2 != 0 == (q >= 2) && ((pair_at(p, sd) | q)
        & 1 != 0) == (q % 2 == 1)) by (bit_vector)
        requires
            p >> 13 < 6,
            q < 4,
            p & (0x1FFFu16 >> ((2 * (p >> 13)) as u16)) == 0,
            sd == 11 - 2 * (p >> 13),
    ;
    assert(step_x(c, d) == (k >= 2));
    assert(step_y(c, d) == (k % 2 == 1));
    assert forall|i: nat| i < d implies #[trigger] path_pair(p, i) == path_pair(c, i) by {
        lemma_pair_shift_odd(i);
    }
    lemma_offsets_agree(p, c, d);
}

/// Two paths with the same pairs on their first `n` levels lead equally
/// far over those levels.
pub proof fn lemma_offsets_agree(a: u16, b: u16, n: nat)
    requires
        n <= 6,
        forall|i: nat| i < n ==> #[trigger] path_pair(a, i) == path_pair(b, i),
    ensures
        offset_x(a, n) == offset_x(b, n),
        offset_y(a, n) == offset_y(b, n),
    decreases n,
{
    if n > 0 {
        lemma_offsets_agree(a, b, (n - 1) as nat);
        assert(path_pair(a, (n - 1) as nat) == path_pair(b, (n - 1) as nat));
    }
}

/// The deepest tile at cell `(x, y)` of a root tile lies `x` sides of a
/// deepest tile right of the root tile's origin and `y` such sides above
/// it.
pub proof fn lemma_leaf_offset(x: u8, y: u8)
    requires
        x < 64,
        y < 64,
    ensures
        path_depth(leaf_path(x, y)) == 6,
        offset_x(leaf_path(x, y), 6) == x * tile_side(6),
        offset_y(leaf_path(x, y), 6) == y * tile_side(6),
{
    let p: u16 = leaf_path(x, y);
    lemma_leaf_path(x, y);
    assert forall|j: nat| j < 6 implies #[trigger] step_x(p, j) == bit_of(x, (5 - j) as nat) by {
        lemma_pair_shift_odd(j);
    }
    assert forall|j: nat| j < 6 implies #[trigger] step_y(p, j) == bit_of(y, (5 - j) as nat) by {
        lemma_pair_shift_odd(j);
    }
    lemma_bits_sum(x);
    lemma_bits_sum(y);
    lemma_offset_expand(p);
    assert(step_x(p, 0) == bit_of(x, 5));
    assert(step_x(p, 1) == bit_of(x, 4));
    assert(step_x(p, 2) == bit_of(x, 3));
    assert(step_x(p, 3) == bit_of(x, 2));
    assert(step_x(p, 4) == bit_of(x, 1));
    assert(step_x(p, 5) == bit_of(x, 0));
    assert(step_y(p, 0) == bit_of(y, 5));
    assert(step_y(p, 1) == bit_of(y, 4));
    assert(step_y(p, 2) == bit_of(y, 3));
    assert(step_y(p, 3) == bit_of(y, 2));
    assert(step_y(p, 4) == bit_of(y, 1));
    assert(step_y(p, 5) == bit_of(y, 0));
}

/// The side of the tile that a path steps into at `level`, if `taken`.
pub open spec fn step_length(taken: bool, level: nat) -> nat {
    if taken {
        tile_side(level + 1)
    } else {
        0
    }
}

/// The way that a path leads over all six levels, step by step.
pub proof fn lemma_offset_expand(p: u16)
    ensures
        offset_x(p, 6) == step_length(step_x(p, 0), 0) + step_length(step_x(p, 1), 1) + step_length(
            step_x(p, 2),
            2,
        ) + step_length(step_x(p, 3), 3) + step_length(step_x(p, 4), 4) + step_length(
            step_x(p, 5),
            5,
        ),
        offset_y(p, 6) == step_length(step_y(p, 0), 0) + step_length(step_y(p, 1), 1) + step_length(
            step_y(p, 2),
            2,
        ) + step_length(step_y(p, 3), 3) + step_length(step_y(p, 4), 4) + step_length(
            step_y(p, 5),
            5,
        ),
{
    reveal_with_fuel(offset_x, 7);
    reveal_with_fuel(offset_y, 7);
}

/// The value of one bit of a number.
pub open spec fn bit_value(v: u8, i: nat) -> nat {
    if bit_of(v, i) {
        1
    } else {
        0
    }
}

/// A number below 64 is the sum of its six low bits, each at its weight.
pub proof fn lemma_bits_sum(v: u8)
    requires
        v < 64,
    ensures
        v == 32 * bit_value(v, 5) + 16 * bit_value(v, 4) + 8 * bit_value(v, 3) + 4 * bit_value(v, 2)
            + 2 * bit_value(v, 1) + bit_value(v, 0),
{
    let w: u16 = v as u16;
    let b0: u16 = (w >> 0) & 1;
    let b1: u16 = (w >> 1) & 1;
    let b2: u16 = (w >> 2) & 1;
    let b3: u16 = (w >> 3) & 1;
    let b4: u16 = (w >> 4) & 1;
    let b5: u16 = (w >> 5) & 1;
    assert(w == 32 * b5 + 16 * b4 + 8 * b3 + 4 * b2 + 2 * b1 + b0 && b0 <= 1 && b1 <= 1 && b2 <= 1
        && b3 <= 1 && b4 <= 1 && b5 <= 1) by (bit_vector)
        requires
            w < 64,
            b0 == (w >> 0) & 1,
            b1 == (w >> 1) & 1,
            b2 == (w >> 2) & 1,
            b3 == (w >> 3) & 1,
            b4 == (w >> 4) & 1,
            b5 == (w >> 5) & 1,
    ;
}

/// A tile with an empty path is a root tile.
pub proof fn lemma_root_depth(t: TileId)
    requires
        t.path == 0,
    ensures
        t.depth() == 0,
        t.well_formed(),
{
    let p: u16 = t.path;
    assert(p >> 13 == 0 && p & (0x1FFFu16 >> 0u16) == 0) by (bit_vector)
        requires
            p == 0,
    ;
}

} // verus!
