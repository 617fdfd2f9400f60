//! What holds of the tiles that a walk finds.

use crate::tile_hash::{ancestor_path, lineage};
use crate::tile_hash_laws::lemma_lineage;
use crate::tile_id::{child_path, TileId};
use crate::tile_laws::{
    lemma_child_of_parent, lemma_num_injective, lemma_num_round_trip, lemma_parent_of_child,
    lemma_root_depth, quadrant,
};
use crate::view::{lemma_child_depths, lemma_walk_unfold, root_tiles, Scene};
use vstd::prelude::*;

verus! {

/// Where a value of four joined lists lies: in the first, the second, the
/// third or the fourth.
pub proof fn lemma_member_of_four(a: Seq<u32>, b: Seq<u32>, c: Seq<u32>, d: Seq<u32>, n: u32)
    requires
        (a + b + c + d).contains(n),
    ensures
        a.contains(n) || b.contains(n) || c.contains(n) || d.contains(n),
{
    let s = a + b + c + d;
    let j = choose|j: int| 0 <= j < s.len() && s[j] == n;
    if j < a.len() {
        assert(a[j] == n);
    } else if j < a.len() + b.len() {
        assert(b[j - a.len()] == n);
    } else if j < a.len() + b.len() + c.len() {
        assert(c[j - a.len() - b.len()] == n);
    } else {
        assert(d[j - a.len() - b.len() - c.len()] == n);
    }
}

/// Every tile that a walk finds in view at or below a tile is touched by
/// the footprint, lies at the chosen depth and belongs to the same root
/// tile.
pub proof fn lemma_walk_in_member(scene: Scene, t: TileId, levels: nat, n: u32) -> (w: TileId)
    requires
        t.depth() + levels <= 6,
        scene.walk_in(t, levels).contains(n),
    ensures
        w.num() as u32 == n,
        scene.touches(w),
        w.depth() == t.depth() + levels,
        w.root == t.root,
    decreases levels,
{
    if levels == 0 {
        assert(scene.walk_in(t, levels)[0] == t.num() as u32);
        t
    } else {
        let l1 = (levels - 1) as nat;
        lemma_walk_unfold(scene, t, levels);
        lemma_child_depths(t);
        lemma_member_of_four(
            scene.walk_in(t.spec_child(3), l1),
            scene.walk_in(t.spec_child(2), l1),
            scene.walk_in(t.spec_child(1), l1),
            scene.walk_in(t.spec_child(0), l1),
            n,
        );
        if scene.walk_in(t.spec_child(3), l1).contains(n) {
            lemma_walk_in_member(scene, t.spec_child(3), l1, n)
        } else if scene.walk_in(t.spec_child(2), l1).contains(n) {
            lemma_walk_in_member(scene, t.spec_child(2), l1, n)
        } else if scene.walk_in(t.spec_child(1), l1).contains(n) {
            lemma_walk_in_member(scene, t.spec_child(1), l1, n)
        } else {
            lemma_walk_in_member(scene, t.spec_child(0), l1, n)
        }
    }
}

/// Every tile that a walk finds out of view at or below a tile is not
/// touched by the footprint, lies no deeper than the chosen depth and
/// belongs to the same root tile.
pub proof fn lemma_walk_out_member(scene: Scene, t: TileId, levels: nat, n: u32) -> (w: TileId)
    requires
        t.depth() + levels <= 6,
        scene.walk_out(t, levels).contains(n),
    ensures
        w.num() as u32 == n,
        !scene.touches(w),
        t.depth() <= w.depth() <= t.depth() + levels,
        w.root == t.root,
    decreases levels,
{
    if !scene.touches(t) {
        assert(scene.walk_out(t, levels)[0] == t.num() as u32);
        t
    } else {
        let l1 = (levels - 1) as nat;
        lemma_walk_unfold(scene, t, levels);
        lemma_child_depths(t);
        lemma_member_of_four(
            scene.walk_out(t.spec_child(3), l1),
            scene.walk_out(t.spec_child(2), l1),
            scene.walk_out(t.spec_child(1), l1),
            scene.walk_out(t.spec_child(0), l1),
            n,
        );
        if scene.walk_out(t.spec_child(3), l1).contains(n) {
            lemma_walk_out_member(scene, t.spec_child(3), l1, n)
        } else if scene.walk_out(t.spec_child(2), l1).contains(n) {
            lemma_walk_out_member(scene, t.spec_child(2), l1, n)
        } else if scene.walk_out(t.spec_child(1), l1).contains(n) {
            lemma_walk_out_member(scene, t.spec_child(1), l1, n)
        } else {
            lemma_walk_out_member(scene, t.spec_child(0), l1, n)
        }
    }
}

/// Every tile that a walk from the first `roots` root tiles finds in view
/// is touched by the footprint, lies at the chosen depth and under one of
/// those root tiles.
pub proof fn lemma_in_view_member(scene: Scene, roots: nat, depth: nat, n: u32) -> (w: TileId)
    requires
        roots <= 65535,
        depth <= 6,
        scene.pending_in(root_tiles(roots), depth).contains(n),
    ensures
        w.num() as u32 == n,
        scene.touches(w),
        w.depth() == depth,
        w.root < roots,
    decreases roots,
{
    let stack = root_tiles(roots);
    let top = stack.last();
    assert(top == TileId { root: (roots - 1) as u16, path: 0 });
    lemma_root_depth(top);
    let head = scene.walk_in(top, depth);
    let tail = scene.pending_in(stack.drop_last(), depth);
    assert(stack.drop_last() =~= root_tiles((roots - 1) as nat));
    let j = choose|j: int| 0 <= j < (head + tail).len() && (head + tail)[j] == n;
    if j < head.len() {
        assert(head[j] == n);
        lemma_walk_in_member(scene, top, depth, n)
    } else {
        assert(tail[j - head.len()] == n);
        lemma_in_view_member(scene, (roots - 1) as nat, depth, n)
    }
}

/// Every tile that a walk from the first `roots` root tiles finds out of
/// view is not touched by the footprint, lies no deeper than the chosen
/// depth and under one of those root tiles.
pub proof fn lemma_out_view_member(scene: Scene, roots: nat, depth: nat, n: u32) -> (w: TileId)
    requires
        roots <= 65535,
        depth <= 6,
        scene.pending_out(root_tiles(roots), depth).contains(n),
    ensures
        w.num() as u32 == n,
        !scene.touches(w),
        w.depth() <= depth,
        w.root < roots,
    decreases roots,
{
    let stack = root_tiles(roots);
    let top = stack.last();
    assert(top == TileId { root: (roots - 1) as u16, path: 0 });
    lemma_root_depth(top);
    let head = scene.walk_out(top, depth);
    let tail = scene.pending_out(stack.drop_last(), depth);
    assert(stack.drop_last() =~= root_tiles((roots - 1) as nat));
    let j = choose|j: int| 0 <= j < (head + tail).len() && (head + tail)[j] == n;
    if j < head.len() {
        assert(head[j] == n);
        lemma_walk_out_member(scene, top, depth, n)
    } else {
        assert(tail[j - head.len()] == n);
        lemma_out_view_member(scene, (roots - 1) as nat, depth, n)
    }
}

/// A value of one of four lists is a value of the four joined.
pub proof fn lemma_part_of_four(a: Seq<u32>, b: Seq<u32>, c: Seq<u32>, d: Seq<u32>, n: u32)
    requires
        a.contains(n) || b.contains(n) || c.contains(n) || d.contains(n),
    ensures
        (a + b + c + d).contains(n),
{
    let s = a + b + c + d;
    if a.contains(n) {
        let j = choose|j: int| 0 <= j < a.len() && a[j] == n;
        assert(s[j] == n);
    } else if b.contains(n) {
        let j = choose|j: int| 0 <= j < b.len() && b[j] == n;
        assert(s[a.len() + j] == n);
    } else if c.contains(n) {
        let j = choose|j: int| 0 <= j < c.len() && c[j] == n;
        assert(s[a.len() + b.len() + j] == n);
    } else {
        let j = choose|j: int| 0 <= j < d.len() && d[j] == n;
        assert(s[a.len() + b.len() + c.len() + j] == n);
    }
}

/// Whether a walk finds tile number `n` at or below a tile, in view or
/// out of view.
pub open spec fn found(scene: Scene, t: TileId, levels: nat, n: u32) -> bool {
    scene.walk_in(t, levels).contains(n) || scene.walk_out(t, levels).contains(n)
}

/// Whether a tile is in one of the two lists after an update to `depth`.
pub open spec fn listed(scene: Scene, depth: nat, t: TileId) -> bool {
    scene.in_view(depth).contains(t.num() as u32) || scene.out_view(depth).contains(
        t.num() as u32,
    )
}

/// Two tiles with the same number are the same tile.
pub proof fn lemma_same_number(a: TileId, b: TileId)
    requires
        a.num() as u32 == b.num() as u32,
    ensures
        a == b,
{
    lemma_num_round_trip(a);
    lemma_num_round_trip(b);
    lemma_num_injective(a, b);
}

/// Going up `a` levels and then `b` levels is going up `a + b` levels.
pub proof fn lemma_ancestor_add(path: u16, a: nat, b: nat)
    ensures
        ancestor_path(ancestor_path(path, a), b) == ancestor_path(path, a + b),
    decreases b,
{
    if b > 0 {
        lemma_ancestor_add(path, a, (b - 1) as nat);
        assert(ancestor_path(path, a + b) == crate::tile_id::parent_path(
            ancestor_path(path, (a + b - 1) as nat),
        ));
    }
}

/// The children of a canonical tile differ from each other.
pub proof fn lemma_children_distinct(t: TileId, j: nat, k: nat)
    requires
        t.well_formed(),
        t.depth() < 6,
        j < 4,
        k < 4,
        j != k,
    ensures
        t.spec_child(j) != t.spec_child(k),
{
    let p: u16 = t.path;
    let a: u16 = j as u16;
    let b: u16 = k as u16;
    assert(child_path(p, a) != child_path(p, b)) by (bit_vector)
        requires
            p >> 13 < 6,
            p & (0x1FFFu16 >> ((2 * (p >> 13)) as u16)) == 0,
            a < 4,
            b < 4,
            a != b,
    ;
}

/// Every tile that a walk finds at or below a canonical tile is canonical
/// and lies at or below that tile: going up from it leads to the tile.
pub proof fn lemma_found_below(scene: Scene, t: TileId, levels: nat, n: u32) -> (w: TileId)
    requires
        t.well_formed(),
        t.depth() + levels <= 6,
        found(scene, t, levels, n),
    ensures
        w.num() as u32 == n,
        w.well_formed(),
        w.root == t.root,
        t.depth() <= w.depth() <= t.depth() + levels,
        ancestor_path(w.path, (w.depth() - t.depth()) as nat) == t.path,
    decreases levels,
{
    if !scene.touches(t) {
        assert(scene.walk_in(t, levels) =~= Seq::<u32>::empty());
        assert(scene.walk_out(t, levels)[0] == t.num() as u32);
        t
    } else if levels == 0 {
        assert(scene.walk_out(t, levels) =~= Seq::<u32>::empty());
        assert(scene.walk_in(t, levels)[0] == t.num() as u32);
        t
    } else {
        let l1 = (levels - 1) as nat;
        lemma_walk_unfold(scene, t, levels);
        lemma_child_depths(t);
        if scene.walk_in(t, levels).contains(n) {
            lemma_member_of_four(
                scene.walk_in(t.spec_child(3), l1),
                scene.walk_in(t.spec_child(2), l1),
                scene.walk_in(t.spec_child(1), l1),
                scene.walk_in(t.spec_child(0), l1),
                n,
            );
        } else {
            lemma_member_of_four(
                scene.walk_out(t.spec_child(3), l1),
                scene.walk_out(t.spec_child(2), l1),
                scene.walk_out(t.spec_child(1), l1),
                scene.walk_out(t.spec_child(0), l1),
                n,
            );
        }
        let k: nat = if found(scene, t.spec_child(3), l1, n) {
            3
        } else if found(scene, t.spec_child(2), l1, n) {
            2
        } else if found(scene, t.spec_child(1), l1, n) {
            1
        } else {
            0
        };
        let c = t.spec_child(k);
        lemma_parent_of_child(t, k);
        let w = lemma_found_below(scene, c, l1, n);
        let up = (w.depth() - c.depth()) as nat;
        assert(ancestor_path(w.path, up + 1) == crate::tile_id::parent_path(
            ancestor_path(w.path, up),
        ));
        w
    }
}

/// What a walk finds at or below a touched tile above the chosen depth is
/// what it finds at or below the children of the tile.
pub proof fn lemma_found_in_children(scene: Scene, t: TileId, levels: nat, n: u32)
    requires
        scene.touches(t),
        levels > 0,
    ensures
        found(scene, t, levels, n) <==> (found(scene, t.spec_child(0), (levels - 1) as nat, n)
            || found(scene, t.spec_child(1), (levels - 1) as nat, n) || found(
            scene,
            t.spec_child(2),
            (levels - 1) as nat,
            n,
        ) || found(scene, t.spec_child(3), (levels - 1) as nat, n)),
{
    let l1 = (levels - 1) as nat;
    lemma_walk_unfold(scene, t, levels);
    let i3 = scene.walk_in(t.spec_child(3), l1);
    let i2 = scene.walk_in(t.spec_child(2), l1);
    let i1 = scene.walk_in(t.spec_child(1), l1);
    let i0 = scene.walk_in(t.spec_child(0), l1);
    let o3 = scene.walk_out(t.spec_child(3), l1);
    let o2 = scene.walk_out(t.spec_child(2), l1);
    let o1 = scene.walk_out(t.spec_child(1), l1);
    let o0 = scene.walk_out(t.spec_child(0), l1);
    if (i3 + i2 + i1 + i0).contains(n) {
        lemma_member_of_four(i3, i2, i1, i0, n);
    }
    if (o3 + o2 + o1 + o0).contains(n) {
        lemma_member_of_four(o3, o2, o1, o0, n);
    }
    if i3.contains(n) || i2.contains(n) || i1.contains(n) || i0.contains(n) {
        lemma_part_of_four(i3, i2, i1, i0, n);
    }
    if o3.contains(n) || o2.contains(n) || o1.contains(n) || o0.contains(n) {
        lemma_part_of_four(o3, o2, o1, o0, n);
    }
}

/// A walk at or below a child of a tile finds no tile on the way up from
/// a deepest tile that lies under another child of that tile.
pub proof fn lemma_sibling_finds_none(
    scene: Scene,
    root: u16,
    x: u8,
    y: u8,
    u: nat,
    k: nat,
    levels: nat,
    o: nat,
)
    requires
        1 <= u <= 6,
        k < 4,
        k != quadrant(lineage(root, x, y, (u - 1) as nat)),
        levels < u,
        o <= 6,
    ensures
        !found(scene, lineage(root, x, y, u).spec_child(k), levels, lineage(root, x, y, o).num() as u32),
{
    let t = lineage(root, x, y, u);
    let below = lineage(root, x, y, (u - 1) as nat);
    let c = t.spec_child(k);
    let n = lineage(root, x, y, o).num() as u32;
    lemma_lineage(root, x, y, u);
    lemma_lineage(root, x, y, (u - 1) as nat);
    lemma_lineage(root, x, y, o);
    lemma_child_of_parent(below);
    lemma_parent_of_child(t, k);
    lemma_children_distinct(t, k, quadrant(below));
    if found(scene, c, levels, n) {
        let w = lemma_found_below(scene, c, levels, n);
        lemma_same_number(w, lineage(root, x, y, o));
        let rise = (w.depth() - c.depth()) as nat;
        assert(rise + o == u - 1);
        lemma_ancestor_add(crate::tile_id::leaf_path(x, y), o, rise);
        assert(c.path == below.path);
    }
}

/// At or below a tile on the way up from a deepest tile a walk finds one
/// tile of that way and no other.
pub proof fn lemma_walk_finds_one(scene: Scene, root: u16, x: u8, y: u8, u: nat, levels: nat) -> (up:
    nat)
    requires
        levels <= u <= 6,
    ensures
        up <= u,
        found(scene, lineage(root, x, y, u), levels, lineage(root, x, y, up).num() as u32),
        forall|o: nat|
            o <= 6 && o != up ==> !found(
                scene,
                lineage(root, x, y, u),
                levels,
                #[trigger] lineage(root, x, y, o).num() as u32,
            ),
    decreases levels,
{
    let t = lineage(root, x, y, u);
    lemma_lineage(root, x, y, u);
    if !scene.touches(t) || levels == 0 {
        if !scene.touches(t) {
            assert(scene.walk_in(t, levels) =~= Seq::<u32>::empty());
            assert(scene.walk_out(t, levels)[0] == t.num() as u32);
        } else {
            assert(scene.walk_out(t, levels) =~= Seq::<u32>::empty());
            assert(scene.walk_in(t, levels)[0] == t.num() as u32);
        }
        assert forall|o: nat| o <= 6 && o != u implies !found(
            scene,
            t,
            levels,
            #[trigger] lineage(root, x, y, o).num() as u32,
        ) by {
            lemma_lineage(root, x, y, o);
            if found(scene, t, levels, lineage(root, x, y, o).num() as u32) {
                lemma_same_number(t, lineage(root, x, y, o));
            }
        }
        u
    } else {
        let l1 = (levels - 1) as nat;
        let below = lineage(root, x, y, (u - 1) as nat);
        lemma_lineage(root, x, y, (u - 1) as nat);
        lemma_child_of_parent(below);
        let q = quadrant(below);
        assert(t.spec_child(q) == below);
        let up = lemma_walk_finds_one(scene, root, x, y, (u - 1) as nat, l1);
        lemma_found_in_children(scene, t, levels, lineage(root, x, y, up).num() as u32);
        assert forall|o: nat| o <= 6 && o != up implies !found(
            scene,
            t,
            levels,
            #[trigger] lineage(root, x, y, o).num() as u32,
        ) by {
            let n = lineage(root, x, y, o).num() as u32;
            lemma_found_in_children(scene, t, levels, n);
            if q != 0 {
                lemma_sibling_finds_none(scene, root, x, y, u, 0, l1, o);
            }
            if q != 1 {
                lemma_sibling_finds_none(scene, root, x, y, u, 1, l1, o);
            }
            if q != 2 {
                lemma_sibling_finds_none(scene, root, x, y, u, 2, l1, o);
            }
            if q != 3 {
                lemma_sibling_finds_none(scene, root, x, y, u, 3, l1, o);
            }
        }
        up
    }
}

/// Whether a walk finds tile number `n` at or below root tile `i`.
pub open spec fn found_under(scene: Scene, depth: nat, i: nat, n: u32) -> bool {
    found(scene, TileId { root: i as u16, path: 0 }, depth, n)
}

/// What a walk from the first `roots` root tiles finds, it finds at or
/// below one of them.
pub proof fn lemma_listed_under(scene: Scene, roots: nat, depth: nat, n: u32) -> (i: nat)
    requires
        roots <= 65535,
        scene.pending_in(root_tiles(roots), depth).contains(n) || scene.pending_out(
            root_tiles(roots),
            depth,
        ).contains(n),
    ensures
        i < roots,
        found_under(scene, depth, i, n),
    decreases roots,
{
    let stack = root_tiles(roots);
    if roots == 0 {
        assert(scene.pending_in(stack, depth) =~= Seq::<u32>::empty());
        assert(scene.pending_out(stack, depth) =~= Seq::<u32>::empty());
        0
    } else {
        let top = stack.last();
        assert(top == TileId { root: (roots - 1) as u16, path: 0 });
        lemma_root_depth(top);
        assert(stack.drop_last() =~= root_tiles((roots - 1) as nat));
        let hi = scene.walk_in(top, depth);
        let ti = scene.pending_in(stack.drop_last(), depth);
        let ho = scene.walk_out(top, depth);
        let to = scene.pending_out(stack.drop_last(), depth);
        if (hi + ti).contains(n) {
            let j = choose|j: int| 0 <= j < (hi + ti).len() && (hi + ti)[j] == n;
            if j < hi.len() {
                assert(hi[j] == n);
                (roots - 1) as nat
            } else {
                assert(ti[j - hi.len()] == n);
                lemma_listed_under(scene, (roots - 1) as nat, depth, n)
            }
        } else {
            let j = choose|j: int| 0 <= j < (ho + to).len() && (ho + to)[j] == n;
            if j < ho.len() {
                assert(ho[j] == n);
                (roots - 1) as nat
            } else {
                assert(to[j - ho.len()] == n);
                lemma_listed_under(scene, (roots - 1) as nat, depth, n)
            }
        }
    }
}

/// What a walk finds at or below one of the first `roots` root tiles, the
/// walk from all of them finds.
pub proof fn lemma_under_listed(scene: Scene, roots: nat, depth: nat, i: nat, n: u32)
    requires
        i < roots <= 65535,
        found_under(scene, depth, i, n),
    ensures
        scene.pending_in(root_tiles(roots), depth).contains(n) || scene.pending_out(
            root_tiles(roots),
            depth,
        ).contains(n),
    decreases roots,
{
    let stack = root_tiles(roots);
    let top = stack.last();
    assert(top == TileId { root: (roots - 1) as u16, path: 0 });
    lemma_root_depth(top);
    assert(stack.drop_last() =~= root_tiles((roots - 1) as nat));
    let hi = scene.walk_in(top, depth);
    let ti = scene.pending_in(stack.drop_last(), depth);
    let ho = scene.walk_out(top, depth);
    let to = scene.pending_out(stack.drop_last(), depth);
    if i == roots - 1 {
        if hi.contains(n) {
            let j = choose|j: int| 0 <= j < hi.len() && hi[j] == n;
            assert((hi + ti)[j] == n);
        } else {
            let j = choose|j: int| 0 <= j < ho.len() && ho[j] == n;
            assert((ho + to)[j] == n);
        }
    } else {
        lemma_under_listed(scene, (roots - 1) as nat, depth, i, n);
        if ti.contains(n) {
            let j = choose|j: int| 0 <= j < ti.len() && ti[j] == n;
            assert((hi + ti)[hi.len() + j] == n);
        } else {
            let j = choose|j: int| 0 <= j < to.len() && to[j] == n;
            assert((ho + to)[ho.len() + j] == n);
        }
    }
}

/// After an update every deepest tile of the grid lies at or under one
/// tile of the two lists, and under no other: the tiles in view and out
/// of view cover the grid, and no two of them overlap.
pub proof fn lemma_view_partition(scene: Scene, depth: nat, root: u16, x: u8, y: u8) -> (up: nat)
    requires
        scene.dx * scene.dy <= 65535,
        depth <= 6,
        root < scene.dx * scene.dy,
    ensures
        up <= 6,
        listed(scene, depth, lineage(root, x, y, up)),
        forall|o: nat| o <= 6 && o != up ==> !listed(scene, depth, #[trigger] lineage(root, x, y, o)),
{
    let roots = (scene.dx * scene.dy) as nat;
    let top = lineage(root, x, y, 6);
    lemma_lineage(root, x, y, 6);
    let p: u16 = top.path;
    assert(p == 0) by (bit_vector)
        requires
            p >> 13 == 0,
            p & (0x1FFFu16 >> 0u16) == 0,
    ;
    assert(top == TileId { root, path: 0 });
    let up = lemma_walk_finds_one(scene, root, x, y, 6, depth);
    lemma_under_listed(scene, roots, depth, root as nat, lineage(root, x, y, up).num() as u32);
    assert forall|o: nat| o <= 6 && o != up implies !listed(
        scene,
        depth,
        #[trigger] lineage(root, x, y, o),
    ) by {
        let n = lineage(root, x, y, o).num() as u32;
        if listed(scene, depth, lineage(root, x, y, o)) {
            let i = lemma_listed_under(scene, roots, depth, n);
            let t = TileId { root: i as u16, path: 0 };
            if i != root {
                lemma_root_depth(t);
                let w = lemma_found_below(scene, t, depth, n);
                lemma_same_number(w, lineage(root, x, y, o));
            }
        }
    }
    up
}

/// Every tile in view after an update is touched by the footprint, lies
/// at the chosen depth and under a root tile of the grid.
pub proof fn lemma_in_view(scene: Scene, depth: nat, n: u32) -> (w: TileId)
    requires
        scene.dx * scene.dy <= 65535,
        depth <= 6,
        scene.in_view(depth).contains(n),
    ensures
        w.num() as u32 == n,
        scene.touches(w),
        w.depth() == depth,
        w.root < scene.dx * scene.dy,
{
    lemma_in_view_member(scene, (scene.dx * scene.dy) as nat, depth, n)
}

/// Every tile out of view after an update is not touched by the
/// footprint, lies no deeper than the chosen depth and under a root tile
/// of the grid.
pub proof fn lemma_out_view(scene: Scene, depth: nat, n: u32) -> (w: TileId)
    requires
        scene.dx * scene.dy <= 65535,
        depth <= 6,
        scene.out_view(depth).contains(n),
    ensures
        w.num() as u32 == n,
        !scene.touches(w),
        w.depth() <= depth,
        w.root < scene.dx * scene.dy,
{
    lemma_out_view_member(scene, (scene.dx * scene.dy) as nat, depth, n)
}

/// Every tile that a walk finds out of view at or below a canonical tile
/// is that tile, or a tile whose parent the footprint touches: the walk
/// stops at the first tile on its way down that is not touched.
pub proof fn lemma_walk_out_coarsest(scene: Scene, t: TileId, levels: nat, n: u32) -> (w: TileId)
    requires
        t.well_formed(),
        t.depth() + levels <= 6,
        scene.walk_out(t, levels).contains(n),
    ensures
        w.num() as u32 == n,
        w.well_formed(),
        w == t || (w.spec_parent() matches Some(p) && scene.touches(p)),
    decreases levels,
{
    if !scene.touches(t) {
        assert(scene.walk_out(t, levels)[0] == t.num() as u32);
        t
    } else {
        let l1 = (levels - 1) as nat;
        lemma_walk_unfold(scene, t, levels);
        lemma_child_depths(t);
        lemma_member_of_four(
            scene.walk_out(t.spec_child(3), l1),
            scene.walk_out(t.spec_child(2), l1),
            scene.walk_out(t.spec_child(1), l1),
            scene.walk_out(t.spec_child(0), l1),
            n,
        );
        let k: nat = if scene.walk_out(t.spec_child(3), l1).contains(n) {
            3
        } else if scene.walk_out(t.spec_child(2), l1).contains(n) {
            2
        } else if scene.walk_out(t.spec_child(1), l1).contains(n) {
            1
        } else {
            0
        };
        lemma_parent_of_child(t, k);
        lemma_walk_out_coarsest(scene, t.spec_child(k), l1, n)
    }
}

/// Every tile out of view after an update is a root tile or a tile whose
/// parent the footprint touches: it is the largest tile around it that
/// is out of view.
pub proof fn lemma_out_view_coarsest(scene: Scene, depth: nat, n: u32) -> (w: TileId)
    requires
        scene.dx * scene.dy <= 65535,
        depth <= 6,
        scene.out_view(depth).contains(n),
    ensures
        w.num() as u32 == n,
        w.depth() == 0 || (w.spec_parent() matches Some(p) && scene.touches(p)),
{
    let i = lemma_out_view_root(scene, (scene.dx * scene.dy) as nat, depth, n);
    let t = TileId { root: i as u16, path: 0 };
    lemma_root_depth(t);
    lemma_walk_out_coarsest(scene, t, depth, n)
}

/// What a walk from the first `roots` root tiles finds out of view, it
/// finds out of view at or below one of them.
pub proof fn lemma_out_view_root(scene: Scene, roots: nat, depth: nat, n: u32) -> (i: nat)
    requires
        roots <= 65535,
        scene.pending_out(root_tiles(roots), depth).contains(n),
    ensures
        i < roots,
        scene.walk_out(TileId { root: i as u16, path: 0 }, depth).contains(n),
    decreases roots,
{
    let stack = root_tiles(roots);
    if roots == 0 {
        assert(scene.pending_out(stack, depth) =~= Seq::<u32>::empty());
        0
    } else {
        let top = stack.last();
        assert(top == TileId { root: (roots - 1) as u16, path: 0 });
        lemma_root_depth(top);
        assert(stack.drop_last() =~= root_tiles((roots - 1) as nat));
        let ho = scene.walk_out(top, depth);
        let to = scene.pending_out(stack.drop_last(), depth);
        let j = choose|j: int| 0 <= j < (ho + to).len() && (ho + to)[j] == n;
        if j < ho.len() {
            assert(ho[j] == n);
            (roots - 1) as nat
        } else {
            assert(to[j - ho.len()] == n);
            lemma_out_view_root(scene, (roots - 1) as nat, depth, n)
        }
    }
}

} // verus!
