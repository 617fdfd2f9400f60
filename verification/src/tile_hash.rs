//! The spatial index: for every tile that a triangle may touch, the list
//! of those triangles.
//!
//! A triangle is indexed by the deepest tiles that its bounding box
//! overlaps, given for each root tile as a block of cells of that root's
//! 64 by 64 grid of deepest tiles, and by every tile above those.

use crate::geometry::{Bounds, Extents3};
use crate::lists::copy_list;
use crate::order::{dedup_numbers, sort_numbers, strictly_ascending};
use crate::mesh::TriangleMeshSurface;
use crate::tile_id::{leaf_path, lod_res_bits, parent_path, TileId, TileRect, MAX_DEPTH};
use crate::tile_map::{
    tile_entries, tile_map_get, tile_map_insert, tile_map_keys, tile_map_new, tile_map_remove,
    TileMap,
};
use vstd::prelude::*;

verus! {

/// A block of deepest tiles within one root tile: the cells `(x, y)` with
/// `x0 <= x < x1` and `y0 <= y < y1`.
#[derive(Copy, Clone, Debug, PartialEq, Eq, Structural)]
pub struct LeafSpan {
    pub root: u16,
    pub x0: u8,
    pub x1: u8,
    pub y0: u8,
    pub y1: u8,
}

/// The path `up` levels above a path.
pub open spec fn ancestor_path(path: u16, up: nat) -> u16
    decreases up,
{
    if up == 0 {
        path
    } else {
        parent_path(ancestor_path(path, (up - 1) as nat))
    }
}

/// The tile `up` levels above the deepest tile at cell `(x, y)` of root
/// tile `root`.
pub open spec fn lineage(root: u16, x: u8, y: u8, up: nat) -> TileId {
    TileId { root, path: ancestor_path(leaf_path(x, y), up) }
}

/// The numbers of the deepest tile at cell `(x, y)` of root tile `root`
/// and of the six tiles above it, from the deepest up.
pub open spec fn lineage_nums(root: u16, x: u8, y: u8) -> Seq<u32> {
    Seq::new(7, |up: int| lineage(root, x, y, up as nat).num() as u32)
}

/// The numbers of the lineages of the cells `(x, y0)` to `(x, y1 - 1)`.
pub open spec fn row_nums(root: u16, x: u8, y0: u8, y1: int) -> Seq<u32>
    decreases y1 - y0,
{
    if y1 <= y0 {
        Seq::empty()
    } else {
        row_nums(root, x, y0, y1 - 1) + lineage_nums(root, x, (y1 - 1) as u8)
    }
}

/// The numbers of the lineages of the cells of the columns `x0` to
/// `x1 - 1`, column by column.
pub open spec fn block_nums(root: u16, x0: u8, x1: int, y0: u8, y1: u8) -> Seq<u32>
    decreases x1 - x0,
{
    if x1 <= x0 {
        Seq::empty()
    } else {
        block_nums(root, x0, x1 - 1, y0, y1) + row_nums(root, (x1 - 1) as u8, y0, y1 as int)
    }
}

/// The numbers of the lineages of the cells of a block.
pub open spec fn span_nums(s: LeafSpan) -> Seq<u32> {
    block_nums(s.root, s.x0, s.x1 as int, s.y0, s.y1)
}

/// The numbers of the lineages of the cells of the first `n` blocks.
pub open spec fn spans_nums(spans: Seq<LeafSpan>, n: nat) -> Seq<u32>
    decreases n,
{
    if n == 0 {
        Seq::empty()
    } else {
        spans_nums(spans, (n - 1) as nat) + span_nums(spans[n - 1])
    }
}

/// Whether tile number `k` is a deepest tile of one of the blocks or lies
/// above one.
pub open spec fn covers(spans: Seq<LeafSpan>, k: u32) -> bool {
    spans_nums(spans, spans.len()).contains(k)
}

/// The numbers of the first `n` triangles whose blocks cover tile `k`, in
/// ascending order.
pub open spec fn covering(all: Seq<Seq<LeafSpan>>, k: u32, n: nat) -> Seq<usize>
    decreases n,
{
    if n == 0 {
        Seq::empty()
    } else {
        covering(all, k, (n - 1) as nat) + if covers(all[n - 1], k) {
            seq![(n - 1) as usize]
        } else {
            Seq::empty()
        }
    }
}

/// Whether a map is the index of the first `n` triangles: it has an entry
/// for each tile that the blocks of one of them cover, and the entry lists
/// the triangles that do.
pub open spec fn is_index(entries: Map<u32, Seq<usize>>, all: Seq<Seq<LeafSpan>>, n: nat) -> bool {
    &&& forall|k: u32| #[trigger] entries.contains_key(k) <==> covering(all, k, n).len() > 0
    &&& forall|k: u32| #[trigger] entries.contains_key(k) ==> entries[k] == covering(all, k, n)
}

/// The larger of two numbers.
pub open spec fn larger(a: int, b: int) -> int {
    if a >= b {
        a
    } else {
        b
    }
}

/// The smaller of two numbers.
pub open spec fn smaller(a: int, b: int) -> int {
    if a <= b {
        a
    } else {
        b
    }
}

/// The block of deepest tiles of root tile `root` that a rectangle
/// overlaps, in a top-level grid of `dx` columns and `dy` rows. The
/// rectangle is cut to the root tile and measured from the tile's origin;
/// the block runs from the cell that holds its lower corner to the cell
/// before which its upper corner lies. There is no block where the
/// rectangle does not reach the root tile.
pub open spec fn root_span(b: Bounds, root: u16, dx: u16, dy: u16) -> Option<LeafSpan> {
    let r = (TileId { root, path: 0 }).spec_extents(dx, dy);
    let lx = larger(b.min_x as int, r.x as int) - r.x;
    let ly = larger(b.min_y as int, r.y as int) - r.y;
    let hx = smaller(b.max_x as int, r.x + r.side) - r.x;
    let hy = smaller(b.max_y as int, r.y + r.side) - r.y;
    if lx <= hx && ly <= hy {
        Some(
            LeafSpan {
                root,
                x0: (lx / 127) as u8,
                x1: ((hx + 126) / 127) as u8,
                y0: (ly / 127) as u8,
                y1: ((hy + 126) / 127) as u8,
            },
        )
    } else {
        None
    }
}

/// The blocks of deepest tiles that a rectangle overlaps in the first `n`
/// root tiles, in the order of the root tiles.
pub open spec fn root_spans(b: Bounds, dx: u16, dy: u16, n: nat) -> Seq<LeafSpan>
    decreases n,
{
    if n == 0 {
        Seq::empty()
    } else {
        root_spans(b, dx, dy, (n - 1) as nat) + match root_span(b, (n - 1) as u16, dx, dy) {
            Some(s) => seq![s],
            None => Seq::empty(),
        }
    }
}

/// For each rectangle the blocks of deepest tiles that it overlaps in a
/// top-level grid of `dx` columns and `dy` rows.
pub open spec fn all_spans(boxes: Seq<Bounds>, dx: u16, dy: u16) -> Seq<Seq<LeafSpan>> {
    Seq::new(boxes.len(), |i: int| root_spans(boxes[i], dx, dy, (dx * dy) as nat))
}

/// The block of deepest tiles of a root tile that a rectangle overlaps.
pub fn clip_to_root(b: &Bounds, root: u16, dx: u16, dy: u16) -> (r: Option<LeafSpan>)
    ensures
        r == root_span(*b, root, dx, dy),
        r matches Some(s) ==> s.root == root && s.x0 <= 64 && s.x1 <= 64 && s.y0 <= 64 && s.y1
            <= 64,
{
    let tile: TileId = TileId { root, path: 0 };
    proof {
        crate::tile_laws::lemma_root_depth(tile);
    }
    let rect: TileRect = tile.extents(dx, dy);
    let rx: i64 = rect.x as i64;
    let ry: i64 = rect.y as i64;
    let side: i64 = rect.side as i64;
    if b.max_x < rx || b.max_y < ry || b.min_x > rx + side || b.min_y > ry + side {
        return None;
    }
    let lx: i64 = if b.min_x > rx {
        b.min_x - rx
    } else {
        0
    };
    let ly: i64 = if b.min_y > ry {
        b.min_y - ry
    } else {
        0
    };
    let hx: i64 = if b.max_x < rx + side {
        b.max_x - rx
    } else {
        side
    };
    let hy: i64 = if b.max_y < ry + side {
        b.max_y - ry
    } else {
        side
    };
    if lx <= hx && ly <= hy {
        Some(
            LeafSpan {
                root,
                x0: (lx / 127) as u8,
                x1: ((hx + 126) / 127) as u8,
                y0: (ly / 127) as u8,
                y1: ((hy + 126) / 127) as u8,
            },
        )
    } else {
        None
    }
}

/// The blocks of deepest tiles that a rectangle overlaps, root tile by
/// root tile.
pub fn triangle_spans(b: &Bounds, dx: u16, dy: u16) -> (spans: Vec<LeafSpan>)
    requires
        dx * dy <= u16::MAX,
    ensures
        spans@ == root_spans(*b, dx, dy, (dx * dy) as nat),
{
    let n: u16 = dx * dy;
    let mut spans: Vec<LeafSpan> = Vec::new();
    let mut root: u16 = 0;
    while root < n
        invariant
            root <= n,
            n == dx * dy,
            spans@ == root_spans(*b, dx, dy, root as nat),
        decreases n - root,
    {
        let ghost before = spans@;
        match clip_to_root(b, root, dx, dy) {
            Some(s) => {
                spans.push(s);
                assert(spans@ =~= before + seq![s]);
            },
            None => {
                assert(spans@ =~= before + Seq::<LeafSpan>::empty());
            },
        }
        root += 1;
    }
    spans
}

/// Appends the numbers of the deepest tile at cell `(x, y)` of root tile
/// `root` and of the six tiles above it.
pub fn push_lineage(buf: &mut Vec<u32>, root: u16, x: u8, y: u8)
    ensures
        final(buf)@ == old(buf)@ + lineage_nums(root, x, y),
{
    let leaf: TileId = TileId::from_leaf_index(x, y);
    let mut t: TileId = TileId { root, path: leaf.path };
    buf.push(t.as_num());
    let mut up: usize = 0;
    assert(buf@ =~= old(buf)@ + lineage_nums(root, x, y).take(1));
    loop
        invariant
            up <= 6,
            t == lineage(root, x, y, up as nat),
            t.depth() == 6 - up,
            buf@ == old(buf)@ + lineage_nums(root, x, y).take(up + 1),
        ensures
            up == 6,
        decreases 6 - up,
    {
        match t.parent() {
            Some(p) => {
                buf.push(p.as_num());
                t = p;
                up += 1;
                assert(buf@ =~= old(buf)@ + lineage_nums(root, x, y).take(up + 1));
            },
            None => {
                break ;
            },
        }
    }
    assert(lineage_nums(root, x, y).take(7) =~= lineage_nums(root, x, y));
}

/// Appends the numbers of the lineages of the cells of a block.
pub fn push_span(buf: &mut Vec<u32>, span: &LeafSpan)
    ensures
        final(buf)@ == old(buf)@ + span_nums(*span),
{
    let mut x: u8 = span.x0;
    assert(buf@ =~= old(buf)@ + block_nums(span.root, span.x0, x as int, span.y0, span.y1));
    while x < span.x1
        invariant
            span.x0 <= x,
            x <= span.x1 || x == span.x0,
            buf@ == old(buf)@ + block_nums(span.root, span.x0, x as int, span.y0, span.y1),
        decreases span.x1 - x,
    {
        let ghost start = buf@;
        let mut y: u8 = span.y0;
        assert(buf@ =~= start + row_nums(span.root, x, span.y0, y as int));
        while y < span.y1
            invariant
                span.y0 <= y,
                y <= span.y1 || y == span.y0,
                buf@ == start + row_nums(span.root, x, span.y0, y as int),
            decreases span.y1 - y,
        {
            push_lineage(buf, span.root, x, y);
            y += 1;
            assert(buf@ =~= start + row_nums(span.root, x, span.y0, y as int));
        }
        proof {
            assert(row_nums(span.root, x, span.y0, y as int) == row_nums(
                span.root,
                x,
                span.y0,
                span.y1 as int,
            ));
        }
        x += 1;
        assert(buf@ =~= old(buf)@ + block_nums(span.root, span.x0, x as int, span.y0, span.y1));
    }
    proof {
        assert(block_nums(span.root, span.x0, x as int, span.y0, span.y1) == span_nums(*span));
    }
}

/// The numbers of the tiles that the blocks cover, each once, in ascending
/// order.
pub fn covered_tiles(spans: &Vec<LeafSpan>) -> (buf: Vec<u32>)
    ensures
        strictly_ascending(buf@),
        forall|k: u32| buf@.contains(k) <==> covers(spans@, k),
{
    let mut buf: Vec<u32> = Vec::new();
    let mut i: usize = 0;
    assert(buf@ =~= spans_nums(spans@, 0));
    while i < spans.len()
        invariant
            i <= spans@.len(),
            buf@ == spans_nums(spans@, i as nat),
        decreases spans@.len() - i,
    {
        push_span(&mut buf, &spans[i]);
        i += 1;
    }
    let ghost all = buf@;
    sort_numbers(&mut buf);
    proof {
        let sorted = buf@;
        sorted.to_multiset_ensures();
        all.to_multiset_ensures();
        assert forall|k: u32| sorted.contains(k) <==> all.contains(k) by {
            assert(sorted.to_multiset().count(k) == all.to_multiset().count(k));
        }
    }
    dedup_numbers(&mut buf);
    buf
}

/// The list of triangles of a tile in a map: empty where the tile has no
/// entry.
pub open spec fn entry_or_empty(entries: Map<u32, Seq<usize>>, k: u32) -> Seq<usize> {
    if entries.contains_key(k) {
        entries[k]
    } else {
        Seq::empty()
    }
}

/// Appends triangle `idx` to the list of every tile in `keys`, starting a
/// list where a tile has none.
pub fn add_triangle(tiles: &mut TileMap, keys: &Vec<u32>, idx: usize)
    requires
        strictly_ascending(keys@),
    ensures
        forall|k: u32| #[trigger]
            tile_entries(*final(tiles)).contains_key(k) <==> (tile_entries(*old(tiles)).contains_key(
                k,
            ) || keys@.contains(k)),
        forall|k: u32| #[trigger]
            entry_or_empty(tile_entries(*final(tiles)), k) == entry_or_empty(
                tile_entries(*old(tiles)),
                k,
            ) + if keys@.contains(k) {
                seq![idx]
            } else {
                Seq::empty()
            },
{
    let ghost before = tile_entries(*tiles);
    let mut i: usize = 0;
    proof {
        assert forall|k: u32| #[trigger]
            entry_or_empty(before, k) == entry_or_empty(before, k) + Seq::<usize>::empty() by {
            assert(entry_or_empty(before, k) + Seq::<usize>::empty() =~= entry_or_empty(before, k));
        }
    }
    while i < keys.len()
        invariant
            i <= keys@.len(),
            strictly_ascending(keys@),
            forall|k: u32| #[trigger]
                tile_entries(*tiles).contains_key(k) <==> (before.contains_key(k) || keys@.take(
                    i as int,
                ).contains(k)),
            forall|k: u32| #[trigger]
                entry_or_empty(tile_entries(*tiles), k) == entry_or_empty(before, k) + if keys@.take(
                    i as int,
                ).contains(k) {
                    seq![idx]
                } else {
                    Seq::empty()
                },
        decreases keys@.len() - i,
    {
        let key: u32 = keys[i];
        let ghost now = tile_entries(*tiles);
        let ghost done = keys@.take(i as int);
        let ghost next = keys@.take(i + 1);
        proof {
            assert(next =~= done.push(key));
            assert(!done.contains(key)) by {
                if done.contains(key) {
                    let j = choose|j: int| 0 <= j < done.len() && done[j] == key;
                    assert(keys@[j] < keys@[i as int]);
                }
            }
            assert forall|k: u32| next.contains(k) <==> (done.contains(k) || k == key) by {
                if done.contains(k) {
                    let j = choose|j: int| 0 <= j < done.len() && done[j] == k;
                    assert(next[j] == k);
                }
                if k == key {
                    assert(next[i as int] == k);
                }
                if next.contains(k) {
                    let j = choose|j: int| 0 <= j < next.len() && next[j] == k;
                    if j < i {
                        assert(done[j] == k);
                    }
                }
            }
        }
        let mut list: Vec<usize> = match tile_map_remove(tiles, key) {
            Some(v) => v,
            None => Vec::new(),
        };
        assert(list@ =~= entry_or_empty(now, key));
        list.push(idx);
        tile_map_insert(tiles, key, list);
        proof {
            let after = tile_entries(*tiles);
            assert(after =~= now.insert(key, entry_or_empty(now, key).push(idx)));
            assert forall|k: u32| #[trigger]
                after.contains_key(k) <==> (before.contains_key(k) || next.contains(k)) by {
                assert(now.contains_key(k) <==> (before.contains_key(k) || done.contains(k)));
            }
            assert forall|k: u32| #[trigger]
                entry_or_empty(after, k) == entry_or_empty(before, k) + if next.contains(k) {
                    seq![idx]
                } else {
                    Seq::empty()
                } by {
                assert(entry_or_empty(now, k) == entry_or_empty(before, k) + if done.contains(k) {
                    seq![idx]
                } else {
                    Seq::empty()
                });
                if k == key {
                    assert(entry_or_empty(now, k) =~= entry_or_empty(before, k));
                    assert(entry_or_empty(after, k) =~= entry_or_empty(before, k) + seq![idx]);
                } else {
                    assert(entry_or_empty(after, k) == entry_or_empty(now, k));
                }
            }
        }
        i += 1;
    }
    assert(keys@.take(i as int) =~= keys@);
}

/// What is to be sampled for one tile.
pub struct SampleJob {
    /// The numbers of the triangles to sample.
    pub triangles: Vec<usize>,
    /// The square to sample, in half world units from the origin of the
    /// top-level grid.
    pub rect: TileRect,
    /// The distance between two samples in world units, as the bit pattern
    /// of a binary64 number.
    pub spacing: u64,
}

/// The index of a mesh: the triangles as they lie in the world, each
/// coordinate as the bit pattern of a binary64 number, the extents of the
/// data, the top-level grid, and the map from tiles to triangles.
pub struct TileHash {
    pub tris: Vec<[[u64; 3]; 3]>,
    pub tiles: TileMap,
    pub extents: Extents3,
    pub dx: u16,
    pub dy: u16,
}

impl TileHash {
    /// What the index holds, by tile number.
    pub open spec fn entries(self) -> Map<u32, Seq<usize>> {
        tile_entries(self.tiles)
    }

    /// The numbers of the tiles that have an entry, each once, in no
    /// order that is told.
    pub fn tiles(&self) -> (keys: Vec<u32>)
        ensures
            keys@.no_duplicates(),
            forall|k: u32| keys@.contains(k) <==> self.entries().contains_key(k),
    {
        tile_map_keys(&self.tiles)
    }

    /// What is to be sampled for a tile: its triangles, the square that it
    /// covers and its sample spacing. `None` where the tile has no entry
    /// or an empty one, or where its number holds a depth beyond the
    /// deepest.
    pub fn sample(&self, tile_idx: u32) -> (r: Option<SampleJob>)
        ensures
            r is Some <==> {
                &&& self.entries().contains_key(tile_idx)
                &&& self.entries()[tile_idx].len() > 0
                &&& TileId::of_num(tile_idx as nat).depth() <= 6
            },
            r matches Some(job) ==> {
                &&& job.triangles@ == self.entries()[tile_idx]
                &&& job.rect == TileId::of_num(tile_idx as nat).spec_extents(self.dx, self.dy)
                &&& job.spacing == lod_res_bits(TileId::of_num(tile_idx as nat).depth())
            },
    {
        let tile: TileId = TileId::from_num(tile_idx);
        if tile.lod_lvl() > MAX_DEPTH {
            return None;
        }
        match tile_map_get(&self.tiles, tile_idx) {
            Some(v) => {
                if v.len() == 0 {
                    None
                } else {
                    Some(
                        SampleJob {
                            triangles: copy_list(v),
                            rect: tile.extents(self.dx, self.dy),
                            spacing: tile.lod_res(),
                        },
                    )
                }
            },
            None => None,
        }
    }
}

impl TriangleMeshSurface {
    /// Builds the index of the mesh over a top-level grid of `dx` columns
    /// and `dy` rows. `tris` holds the triangles as they lie in the world,
    /// and `boxes` the bounding box of each on the ground. Each triangle
    /// is entered under every deepest tile that its box overlaps and under
    /// every tile above those.
    pub fn generate_tiles_hash(
        &self,
        extents: &Extents3,
        dx: u16,
        dy: u16,
        tris: Vec<[[u64; 3]; 3]>,
        boxes: &Vec<Bounds>,
    ) -> (h: TileHash)
        requires
            dx * dy <= u16::MAX,
            tris@.len() == self@.triangle_count(),
            boxes@.len() == self@.triangle_count(),
        ensures
            h.tris@ == tris@,
            h.extents == *extents,
            h.dx == dx,
            h.dy == dy,
            is_index(h.entries(), all_spans(boxes@, dx, dy), self@.triangle_count()),
    {
        let mut tiles: TileMap = tile_map_new();
        let ghost all = all_spans(boxes@, dx, dy);
        let mut idx: usize = 0;
        proof {
            assert forall|k: u32| #[trigger]
                entry_or_empty(tile_entries(tiles), k) == covering(all, k, 0) by {
                assert(!tile_entries(tiles).dom().contains(k));
            }
            assert forall|k: u32| #[trigger]
                tile_entries(tiles).contains_key(k) <==> covering(all, k, 0).len() > 0 by {
                assert(!tile_entries(tiles).dom().contains(k));
            }
        }
        while idx < boxes.len()
            invariant
                idx <= boxes@.len(),
                dx * dy <= u16::MAX,
                all == all_spans(boxes@, dx, dy),
                forall|k: u32| #[trigger]
                    tile_entries(tiles).contains_key(k) <==> covering(all, k, idx as nat).len() > 0,
                forall|k: u32| #[trigger]
                    entry_or_empty(tile_entries(tiles), k) == covering(all, k, idx as nat),
            decreases boxes@.len() - idx,
        {
            let ghost now = tile_entries(tiles);
            let spans: Vec<LeafSpan> = triangle_spans(&boxes[idx], dx, dy);
            let keys: Vec<u32> = covered_tiles(&spans);
            add_triangle(&mut tiles, &keys, idx);
            proof {
                let after = tile_entries(tiles);
                assert(all[idx as int] == spans@);
                assert forall|k: u32| #[trigger]
                    entry_or_empty(after, k) == covering(all, k, (idx + 1) as nat) by {
                    assert(entry_or_empty(now, k) == covering(all, k, idx as nat));
                    assert(keys@.contains(k) <==> covers(all[idx as int], k));
                }
                assert forall|k: u32| #[trigger]
                    after.contains_key(k) <==> covering(all, k, (idx + 1) as nat).len() > 0 by {
                    assert(now.contains_key(k) <==> covering(all, k, idx as nat).len() > 0);
                    assert(keys@.contains(k) <==> covers(all[idx as int], k));
                    assert(entry_or_empty(after, k) == covering(all, k, (idx + 1) as nat));
                }
            }
            idx += 1;
        }
        proof {
            let last = tile_entries(tiles);
            assert forall|k: u32| #[trigger] last.contains_key(k) implies last[k] == covering(
                all,
                k,
                boxes@.len(),
            ) by {
                assert(entry_or_empty(last, k) == covering(all, k, boxes@.len()));
            }
        }
        TileHash { tris, tiles, extents: *extents, dx, dy }
    }

}

} // verus!
