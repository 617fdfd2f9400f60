//! What holds of the spatial index.

use crate::geometry::Bounds;
use crate::tile_hash::{
    all_spans, block_nums, covering, covers, is_index, lineage, lineage_nums, root_span,
    root_spans, row_nums, span_nums, spans_nums, LeafSpan,
};
use crate::tile_id::{leaf_path, lemma_leaf_path, TileId};
use crate::tile_laws::lemma_root_depth;
use crate::tile_laws::lemma_child_of_parent;
use vstd::prelude::*;

verus! {

/// Whether cell `(x, y)` lies in a block.
pub open spec fn in_span(s: LeafSpan, x: u8, y: u8) -> bool {
    s.x0 <= x < s.x1 && s.y0 <= y < s.y1
}

/// The tile `up` levels above a deepest tile is canonical, lies at depth
/// `6 - up` in the same root tile, and is the parent of the tile one level
/// further down.
pub proof fn lemma_lineage(root: u16, x: u8, y: u8, up: nat)
    requires
        up <= 6,
    ensures
        lineage(root, x, y, up).well_formed(),
        lineage(root, x, y, up).depth() == 6 - up,
        lineage(root, x, y, up).root == root,
        up > 0 ==> lineage(root, x, y, (up - 1) as nat).spec_parent() == Some(
            lineage(root, x, y, up),
        ),
    decreases up,
{
    if up == 0 {
        lemma_leaf_path(x, y);
        let p: u16 = leaf_path(x, y);
        assert(p & (0x1FFFu16 >> 12u16) == 0 ==> p & (0x1FFFu16 >> ((2 * 6) as u16)) == 0);
    } else {
        lemma_lineage(root, x, y, (up - 1) as nat);
        lemma_child_of_parent(lineage(root, x, y, (up - 1) as nat));
    }
}

/// The numbers of a row of cells hold the number of every tile at or above
/// a cell of the row.
pub proof fn lemma_row_holds(root: u16, x: u8, y0: u8, y1: int, y: u8, up: nat)
    requires
        y0 <= y < y1,
        up <= 6,
    ensures
        row_nums(root, x, y0, y1).contains(lineage(root, x, y, up).num() as u32),
    decreases y1 - y0,
{
    let k = lineage(root, x, y, up).num() as u32;
    let head = row_nums(root, x, y0, y1 - 1);
    let tail = lineage_nums(root, x, (y1 - 1) as u8);
    if y == y1 - 1 {
        assert(tail[up as int] == k);
        assert((head + tail)[(head.len() + up) as int] == k);
    } else {
        lemma_row_holds(root, x, y0, y1 - 1, y, up);
        let j = choose|j: int| 0 <= j < head.len() && head[j] == k;
        assert((head + tail)[j] == k);
    }
}

/// Every number of a row of cells is that of a tile at or above a cell of
/// the row.
pub proof fn lemma_row_only(root: u16, x: u8, y0: u8, y1: int, k: u32) -> (w: (u8, nat))
    requires
        y1 <= 256,
        row_nums(root, x, y0, y1).contains(k),
    ensures
        y0 <= w.0 < y1,
        w.1 <= 6,
        lineage(root, x, w.0, w.1).num() as u32 == k,
    decreases y1 - y0,
{
    let head = row_nums(root, x, y0, y1 - 1);
    let tail = lineage_nums(root, x, (y1 - 1) as u8);
    let j = choose|j: int| 0 <= j < (head + tail).len() && (head + tail)[j] == k;
    if j < head.len() {
        assert(head[j] == k);
        lemma_row_only(root, x, y0, y1 - 1, k)
    } else {
        assert(tail[j - head.len()] == k);
        ((y1 - 1) as u8, (j - head.len()) as nat)
    }
}

/// The numbers of a block hold the number of every tile at or above a
/// cell of the block.
pub proof fn lemma_block_holds(root: u16, x0: u8, x1: int, y0: u8, y1: u8, x: u8, y: u8, up: nat)
    requires
        x0 <= x < x1,
        y0 <= y < y1,
        up <= 6,
    ensures
        block_nums(root, x0, x1, y0, y1).contains(lineage(root, x, y, up).num() as u32),
    decreases x1 - x0,
{
    let k = lineage(root, x, y, up).num() as u32;
    let head = block_nums(root, x0, x1 - 1, y0, y1);
    let tail = row_nums(root, (x1 - 1) as u8, y0, y1 as int);
    if x == x1 - 1 {
        lemma_row_holds(root, x, y0, y1 as int, y, up);
        let j = choose|j: int| 0 <= j < tail.len() && tail[j] == k;
        assert((head + tail)[(head.len() + j) as int] == k);
    } else {
        lemma_block_holds(root, x0, x1 - 1, y0, y1, x, y, up);
        let j = choose|j: int| 0 <= j < head.len() && head[j] == k;
        assert((head + tail)[j] == k);
    }
}

/// Every number of a block is that of a tile at or above a cell of the
/// block.
pub proof fn lemma_block_only(root: u16, x0: u8, x1: int, y0: u8, y1: u8, k: u32) -> (w: (
    u8,
    u8,
    nat,
))
    requires
        x1 <= 256,
        block_nums(root, x0, x1, y0, y1).contains(k),
    ensures
        x0 <= w.0 < x1,
        y0 <= w.1 < y1,
        w.2 <= 6,
        lineage(root, w.0, w.1, w.2).num() as u32 == k,
    decreases x1 - x0,
{
    let head = block_nums(root, x0, x1 - 1, y0, y1);
    let tail = row_nums(root, (x1 - 1) as u8, y0, y1 as int);
    let j = choose|j: int| 0 <= j < (head + tail).len() && (head + tail)[j] == k;
    if j < head.len() {
        assert(head[j] == k);
        lemma_block_only(root, x0, x1 - 1, y0, y1, k)
    } else {
        assert(tail[j - head.len()] == k);
        let r = lemma_row_only(root, (x1 - 1) as u8, y0, y1 as int, k);
        ((x1 - 1) as u8, r.0, r.1)
    }
}

/// The numbers of the first `n` blocks hold those of each of them.
pub proof fn lemma_spans_hold(spans: Seq<LeafSpan>, n: nat, s: int, k: u32)
    requires
        0 <= s < n <= spans.len(),
        span_nums(spans[s]).contains(k),
    ensures
        spans_nums(spans, n).contains(k),
    decreases n,
{
    let head = spans_nums(spans, (n - 1) as nat);
    let tail = span_nums(spans[n - 1]);
    if s == n - 1 {
        let j = choose|j: int| 0 <= j < tail.len() && tail[j] == k;
        assert((head + tail)[(head.len() + j) as int] == k);
    } else {
        lemma_spans_hold(spans, (n - 1) as nat, s, k);
        let j = choose|j: int| 0 <= j < head.len() && head[j] == k;
        assert((head + tail)[j] == k);
    }
}

/// Every number of the first `n` blocks is a number of one of them.
pub proof fn lemma_spans_only(spans: Seq<LeafSpan>, n: nat, k: u32) -> (s: int)
    requires
        n <= spans.len(),
        spans_nums(spans, n).contains(k),
    ensures
        0 <= s < n,
        span_nums(spans[s]).contains(k),
    decreases n,
{
    let head = spans_nums(spans, (n - 1) as nat);
    let tail = span_nums(spans[n - 1]);
    let j = choose|j: int| 0 <= j < (head + tail).len() && (head + tail)[j] == k;
    if j < head.len() {
        assert(head[j] == k);
        lemma_spans_only(spans, (n - 1) as nat, k)
    } else {
        assert(tail[j - head.len()] == k);
        n - 1
    }
}

/// Blocks cover every deepest tile at one of their cells, and every tile
/// above such a tile up to the root tile.
pub proof fn lemma_covers_lineage(spans: Seq<LeafSpan>, s: int, x: u8, y: u8, up: nat)
    requires
        0 <= s < spans.len(),
        in_span(spans[s], x, y),
        up <= 6,
    ensures
        covers(spans, lineage(spans[s].root, x, y, up).num() as u32),
{
    let sp = spans[s];
    lemma_block_holds(sp.root, sp.x0, sp.x1 as int, sp.y0, sp.y1, x, y, up);
    lemma_spans_hold(spans, spans.len(), s, lineage(sp.root, x, y, up).num() as u32);
}

/// Blocks cover no tile but the deepest tiles at their cells and the
/// tiles above those.
pub proof fn lemma_covers_only_lineage(spans: Seq<LeafSpan>, k: u32) -> (w: (int, u8, u8, nat))
    requires
        covers(spans, k),
    ensures
        0 <= w.0 < spans.len(),
        in_span(spans[w.0], w.1, w.2),
        w.3 <= 6,
        lineage(spans[w.0].root, w.1, w.2, w.3).num() as u32 == k,
{
    let s = lemma_spans_only(spans, spans.len(), k);
    let sp = spans[s];
    let r = lemma_block_only(sp.root, sp.x0, sp.x1 as int, sp.y0, sp.y1, k);
    (s, r.0, r.1, r.2)
}

/// The list of the first `n` triangles that cover a tile holds exactly
/// those triangles, in ascending order.
pub proof fn lemma_covering(all: Seq<Seq<LeafSpan>>, k: u32, n: nat)
    requires
        n <= usize::MAX,
    ensures
        forall|i: usize| #[trigger]
            covering(all, k, n).contains(i) <==> (i < n && covers(all[i as int], k)),
        forall|a: int, b: int|
            0 <= a < b < covering(all, k, n).len() ==> covering(all, k, n)[a] < covering(
                all,
                k,
                n,
            )[b],
        forall|a: int| 0 <= a < covering(all, k, n).len() ==> #[trigger] covering(all, k, n)[a] < n,
    decreases n,
{
    if n > 0 {
        lemma_covering(all, k, (n - 1) as nat);
        let head = covering(all, k, (n - 1) as nat);
        let full = covering(all, k, n);
        assert forall|i: usize| #[trigger] full.contains(i) <==> (i < n && covers(
            all[i as int],
            k,
        )) by {
            if full.contains(i) {
                let j = choose|j: int| 0 <= j < full.len() && full[j] == i;
                if j < head.len() {
                    assert(head[j] == i);
                    assert(head.contains(i));
                }
            }
            if i < n && covers(all[i as int], k) {
                if i < n - 1 {
                    assert(head.contains(i));
                    let j = choose|j: int| 0 <= j < head.len() && head[j] == i;
                    assert(full[j] == i);
                } else {
                    assert(full[head.len() as int] == i);
                }
            }
        }
    }
}

/// In the index of a mesh every deepest tile that a block of a triangle
/// holds has an entry that lists the triangle, and so has every tile
/// above it.
pub proof fn lemma_index_coverage(
    entries: Map<u32, Seq<usize>>,
    all: Seq<Seq<LeafSpan>>,
    i: usize,
    s: int,
    x: u8,
    y: u8,
    up: nat,
)
    requires
        all.len() <= usize::MAX,
        is_index(entries, all, all.len()),
        i < all.len(),
        0 <= s < all[i as int].len(),
        in_span(all[i as int][s], x, y),
        up <= 6,
    ensures
        entries.contains_key(lineage(all[i as int][s].root, x, y, up).num() as u32),
        entries[lineage(all[i as int][s].root, x, y, up).num() as u32].contains(i),
{
    let k = lineage(all[i as int][s].root, x, y, up).num() as u32;
    lemma_covers_lineage(all[i as int], s, x, y, up);
    lemma_covering(all, k, all.len());
    assert(covering(all, k, all.len()).contains(i));
    assert(entries.contains_key(k));
}

/// In the index of a mesh every entry lists, in ascending order, exactly
/// the triangles whose blocks cover its tile, and no entry is empty.
pub proof fn lemma_index_exact(entries: Map<u32, Seq<usize>>, all: Seq<Seq<LeafSpan>>, k: u32)
    requires
        all.len() <= usize::MAX,
        is_index(entries, all, all.len()),
        entries.contains_key(k),
    ensures
        entries[k].len() > 0,
        forall|i: usize| #[trigger]
            entries[k].contains(i) <==> (i < all.len() && covers(all[i as int], k)),
        forall|a: int, b: int| 0 <= a < b < entries[k].len() ==> entries[k][a] < entries[k][b],
{
    lemma_covering(all, k, all.len());
}

/// Whether a rectangle and the deepest tile at cell `(x, y)` of root tile
/// `root` overlap in more than a side or a corner.
pub open spec fn overlaps_cell(b: Bounds, root: u16, dx: u16, dy: u16, x: u8, y: u8) -> bool {
    let r = (TileId { root, path: 0 }).spec_extents(dx, dy);
    &&& x < 64
    &&& y < 64
    &&& b.min_x < r.x + 127 * (x + 1)
    &&& r.x + 127 * x < b.max_x
    &&& b.min_y < r.y + 127 * (y + 1)
    &&& r.y + 127 * y < b.max_y
}

/// The block that a rectangle has in a root tile of the grid holds the
/// cells of the deepest tiles that the rectangle overlaps, and no others.
pub proof fn lemma_root_span_cells(b: Bounds, root: u16, dx: u16, dy: u16, x: u8, y: u8)
    requires
        b.min_x <= b.max_x,
        b.min_y <= b.max_y,
        root < dx * dy,
    ensures
        overlaps_cell(b, root, dx, dy, x, y) <==> (root_span(b, root, dx, dy) matches Some(s)
            && in_span(s, x, y)),
{
    let t = TileId { root, path: 0 };
    lemma_root_depth(t);
    let r = t.spec_extents(dx, dy);
    assert(r.side == 8128);
    assert(crate::tile_id::offset_x(0, 0) == 0 && crate::tile_id::offset_y(0, 0) == 0);
}

/// The blocks of a rectangle over the first `n` root tiles hold the block
/// that it has in each of them.
pub proof fn lemma_root_spans_hold(b: Bounds, dx: u16, dy: u16, n: nat, root: u16) -> (j: int)
    requires
        root < n <= 65536,
        root_span(b, root, dx, dy) is Some,
    ensures
        0 <= j < root_spans(b, dx, dy, n).len(),
        root_spans(b, dx, dy, n)[j] == root_span(b, root, dx, dy)->0,
    decreases n,
{
    let head = root_spans(b, dx, dy, (n - 1) as nat);
    if root == n - 1 {
        head.len() as int
    } else {
        lemma_root_spans_hold(b, dx, dy, (n - 1) as nat, root)
    }
}

/// In the index of a mesh every deepest tile that the bounding box of a
/// triangle overlaps has an entry that lists the triangle, and so has
/// every tile above it.
pub proof fn lemma_index_covers_boxes(
    entries: Map<u32, Seq<usize>>,
    boxes: Seq<Bounds>,
    dx: u16,
    dy: u16,
    i: usize,
    root: u16,
    x: u8,
    y: u8,
    up: nat,
)
    requires
        boxes.len() <= usize::MAX,
        dx * dy <= u16::MAX,
        is_index(entries, all_spans(boxes, dx, dy), boxes.len()),
        i < boxes.len(),
        boxes[i as int].min_x <= boxes[i as int].max_x,
        boxes[i as int].min_y <= boxes[i as int].max_y,
        root < dx * dy,
        overlaps_cell(boxes[i as int], root, dx, dy, x, y),
        up <= 6,
    ensures
        entries.contains_key(lineage(root, x, y, up).num() as u32),
        entries[lineage(root, x, y, up).num() as u32].contains(i),
{
    let b = boxes[i as int];
    let all = all_spans(boxes, dx, dy);
    lemma_root_span_cells(b, root, dx, dy, x, y);
    let j = lemma_root_spans_hold(b, dx, dy, (dx * dy) as nat, root);
    assert(all[i as int] == root_spans(b, dx, dy, (dx * dy) as nat));
    assert(all[i as int][j].root == root);
    lemma_index_coverage(entries, all, i, j, x, y, up);
}

/// Every block of a rectangle over the first `n` root tiles is the block
/// that it has in one of them.
pub proof fn lemma_root_spans_only(b: Bounds, dx: u16, dy: u16, n: nat, j: int) -> (root: u16)
    requires
        n <= 65536,
        0 <= j < root_spans(b, dx, dy, n).len(),
    ensures
        root < n,
        root_span(b, root, dx, dy) == Some(root_spans(b, dx, dy, n)[j]),
    decreases n,
{
    let head = root_spans(b, dx, dy, (n - 1) as nat);
    if j < head.len() {
        lemma_root_spans_only(b, dx, dy, (n - 1) as nat, j)
    } else {
        (n - 1) as u16
    }
}

/// In the index of a mesh every tile that lists a triangle is a deepest
/// tile that the bounding box of the triangle overlaps, or lies above one.
pub proof fn lemma_index_only_boxes(
    entries: Map<u32, Seq<usize>>,
    boxes: Seq<Bounds>,
    dx: u16,
    dy: u16,
    k: u32,
    i: usize,
) -> (w: (u16, u8, u8, nat))
    requires
        boxes.len() <= usize::MAX,
        dx * dy <= u16::MAX,
        is_index(entries, all_spans(boxes, dx, dy), boxes.len()),
        entries.contains_key(k),
        entries[k].contains(i),
    ensures
        i < boxes.len(),
        w.0 < dx * dy,
        boxes[i as int].min_x <= boxes[i as int].max_x && boxes[i as int].min_y
            <= boxes[i as int].max_y ==> overlaps_cell(boxes[i as int], w.0, dx, dy, w.1, w.2),
        w.3 <= 6,
        lineage(w.0, w.1, w.2, w.3).num() as u32 == k,
{
    let all = all_spans(boxes, dx, dy);
    lemma_index_exact(entries, all, k);
    let b = boxes[i as int];
    assert(all[i as int] == root_spans(b, dx, dy, (dx * dy) as nat));
    let c = lemma_covers_only_lineage(all[i as int], k);
    let root = lemma_root_spans_only(b, dx, dy, (dx * dy) as nat, c.0);
    if b.min_x <= b.max_x && b.min_y <= b.max_y {
        lemma_root_span_cells(b, root, dx, dy, c.1, c.2);
    }
    (root, c.1, c.2, c.3)
}

} // verus!
