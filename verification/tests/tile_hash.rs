use std::collections::{BTreeMap, BTreeSet};
use terrain_tiles::geometry::{Bounds, Extents3};
use terrain_tiles::mesh::TriangleMeshSurface;
use terrain_tiles::tile_hash::{
    clip_to_root, covered_tiles, push_lineage, push_span, triangle_spans, LeafSpan, TileHash,
};
use terrain_tiles::tile_id::{TileId, TileRect};

fn lineage(root: u16, x: u8, y: u8) -> Vec<u32> {
    let mut t = TileId::from_leaf_index(x, y);
    t.root = root;
    let mut out = vec![t.as_num()];
    while let Some(p) = t.parent() {
        out.push(p.as_num());
        t = p;
    }
    out
}

fn brute(spans: &[LeafSpan]) -> BTreeSet<u32> {
    let mut set = BTreeSet::new();
    for s in spans {
        for x in s.x0..s.x1 {
            for y in s.y0..s.y1 {
                set.extend(lineage(s.root, x, y));
            }
        }
    }
    set
}

fn rect(min_x: i64, min_y: i64, max_x: i64, max_y: i64) -> Bounds {
    Bounds { min_x, min_y, max_x, max_y }
}

/// The tiles that a rectangle is to be entered under, cell by cell.
fn brute_box(b: &Bounds, dx: u16, dy: u16) -> BTreeSet<u32> {
    let mut set = BTreeSet::new();
    if b.min_x > b.max_x || b.min_y > b.max_y {
        return set;
    }
    for root in 0..dx * dy {
        let ox = (root % dx) as i64 * 8128;
        let oy = (root / dx) as i64 * 8128;
        for x in 0..64u8 {
            for y in 0..64u8 {
                let (cx, cy) = (ox + 127 * x as i64, oy + 127 * y as i64);
                if b.min_x < cx + 127 && cx < b.max_x && b.min_y < cy + 127 && cy < b.max_y {
                    set.extend(lineage(root, x, y));
                }
            }
        }
    }
    set
}

fn mesh_of(triangles: usize) -> TriangleMeshSurface {
    let zero = Extents3::zero_to_one().origin;
    TriangleMeshSurface::new(zero, vec![0; 9], vec![0, 1, 2].repeat(triangles))
}

fn build(boxes: &Vec<Bounds>, dx: u16, dy: u16) -> TileHash {
    let mesh = mesh_of(boxes.len());
    let tris = vec![[[0u64; 3]; 3]; boxes.len()];
    mesh.generate_tiles_hash(&Extents3::zero_to_one(), dx, dy, tris, boxes)
}

#[test]
fn lineage_is_seven_tiles_from_the_leaf_up() {
    let mut buf = vec![42];
    push_lineage(&mut buf, 5, 63, 0);
    assert_eq!(buf.len(), 8);
    assert_eq!(buf[0], 42);
    assert_eq!(&buf[1..], &lineage(5, 63, 0)[..]);
    assert_eq!(buf[1], (5 << 16) | 0b110_1010_1010_1010_0);
    assert_eq!(buf[7], 5 << 16);
}

#[test]
fn span_is_walked_column_by_column() {
    let mut buf = Vec::new();
    push_span(&mut buf, &LeafSpan { root: 1, x0: 2, x1: 4, y0: 7, y1: 9 });
    let mut want = Vec::new();
    for (x, y) in [(2, 7), (2, 8), (3, 7), (3, 8)] {
        want.extend(lineage(1, x, y));
    }
    assert_eq!(buf, want);
}

#[test]
fn empty_spans_give_nothing() {
    let mut buf = Vec::new();
    push_span(&mut buf, &LeafSpan { root: 1, x0: 4, x1: 4, y0: 0, y1: 9 });
    push_span(&mut buf, &LeafSpan { root: 1, x0: 5, x1: 4, y0: 0, y1: 9 });
    push_span(&mut buf, &LeafSpan { root: 1, x0: 0, x1: 4, y0: 9, y1: 3 });
    assert!(buf.is_empty());
    assert!(covered_tiles(&vec![]).is_empty());
}

#[test]
fn covered_tiles_are_sorted_and_unique() {
    let spans = vec![
        LeafSpan { root: 3, x0: 10, x1: 13, y0: 62, y1: 64 },
        LeafSpan { root: 0, x0: 0, x1: 2, y0: 0, y1: 2 },
        LeafSpan { root: 3, x0: 12, x1: 14, y0: 60, y1: 63 },
    ];
    let tiles = covered_tiles(&spans);
    let want: Vec<u32> = brute(&spans).into_iter().collect();
    assert_eq!(tiles, want);
    assert!(tiles.windows(2).all(|w| w[0] < w[1]));
}

#[test]
fn clip_gives_the_cells_that_a_box_overlaps() {
    // within one cell
    assert_eq!(
        clip_to_root(&rect(10, 20, 30, 40), 0, 2, 1),
        Some(LeafSpan { root: 0, x0: 0, x1: 1, y0: 0, y1: 1 })
    );
    // from the middle of cell 1 to the middle of cell 3, and up to a cell's edge
    assert_eq!(
        clip_to_root(&rect(127 + 60, 0, 3 * 127 + 60, 254), 0, 2, 1),
        Some(LeafSpan { root: 0, x0: 1, x1: 4, y0: 0, y1: 2 })
    );
    // in the second root tile, measured from its own origin
    assert_eq!(
        clip_to_root(&rect(8128 + 127, 300, 8128 + 128, 301), 1, 2, 1),
        Some(LeafSpan { root: 1, x0: 1, x1: 2, y0: 2, y1: 3 })
    );
    // cut to the root tile
    assert_eq!(
        clip_to_root(&rect(-500, -500, 100_000, 100_000), 1, 2, 1),
        Some(LeafSpan { root: 1, x0: 0, x1: 64, y0: 0, y1: 64 })
    );
}

#[test]
fn clip_of_a_box_beside_the_tile_is_none_or_empty() {
    assert_eq!(clip_to_root(&rect(9000, 0, 9100, 10), 0, 2, 1), None);
    assert_eq!(clip_to_root(&rect(-10, 0, -1, 10), 0, 2, 1), None);
    assert_eq!(clip_to_root(&rect(0, 9000, 10, 9100), 0, 2, 1), None);
    assert_eq!(clip_to_root(&rect(50, 50, 10, 60), 0, 2, 1), None);
    assert_eq!(clip_to_root(&rect(i64::MIN, i64::MIN, i64::MIN + 1, 0), 0, 2, 1), None);
    assert_eq!(clip_to_root(&rect(i64::MAX - 1, 0, i64::MAX, 10), 0, 2, 1), None);
    // touching the far side: a block without cells
    let s = clip_to_root(&rect(8128, 0, 9000, 10), 0, 2, 1).unwrap();
    assert_eq!((s.x0, s.x1), (64, 64));
    // touching the near side: a block without cells
    let s = clip_to_root(&rect(-10, 0, 0, 10), 0, 2, 1).unwrap();
    assert_eq!((s.x0, s.x1), (0, 0));
}

#[test]
fn triangle_spans_go_root_by_root() {
    let b = rect(8000, 100, 8300, 8200);
    let spans = triangle_spans(&b, 2, 2);
    assert_eq!(
        spans,
        vec![
            LeafSpan { root: 0, x0: 62, x1: 64, y0: 0, y1: 64 },
            LeafSpan { root: 1, x0: 0, x1: 2, y0: 0, y1: 64 },
            LeafSpan { root: 2, x0: 62, x1: 64, y0: 0, y1: 1 },
            LeafSpan { root: 3, x0: 0, x1: 2, y0: 0, y1: 1 },
        ]
    );
    assert!(triangle_spans(&b, 0, 0).is_empty());
    assert_eq!(covered_tiles(&spans), brute_box(&b, 2, 2).into_iter().collect::<Vec<_>>());
}

#[test]
fn index_lists_the_triangles_of_each_tile() {
    let boxes = vec![
        rect(0, 0, 200, 100),
        rect(50, 50, 10, 10),
        rect(8000, 8000, 8300, 8128),
        rect(16200, 130, 16256, 140),
        rect(100, 90, 8200, 300),
    ];
    let h = build(&boxes, 2, 1);
    let mut want: BTreeMap<u32, Vec<usize>> = BTreeMap::new();
    for (i, b) in boxes.iter().enumerate() {
        for k in brute_box(b, 2, 1) {
            want.entry(k).or_default().push(i);
        }
    }
    assert!(!want.is_empty());
    let mut keys = h.tiles();
    keys.sort_unstable();
    assert_eq!(keys, want.keys().copied().collect::<Vec<_>>());
    for (k, list) in &want {
        let job = h.sample(*k).unwrap();
        assert_eq!(&job.triangles, list, "tile {:#x}", k);
    }
    // the root tiles hold every triangle under them
    assert_eq!(h.sample(0).unwrap().triangles, vec![0, 2, 4]);
    assert_eq!(h.sample(1 << 16).unwrap().triangles, vec![2, 3, 4]);
}

#[test]
fn every_leaf_and_its_ancestors_are_indexed() {
    let boxes = vec![rect(3800, 3800, 4300, 4300), rect(16256 + 3937, 0, 16256 + 4000, 8128)];
    let h = build(&boxes, 3, 1);
    let cells = [(0u16, 29u8..34, 29u8..34), (2, 31..32, 0..64)];
    for (i, (root, xs, ys)) in cells.into_iter().enumerate() {
        for x in xs {
            for y in ys.clone() {
                for k in lineage(root, x, y) {
                    assert!(h.sample(k).unwrap().triangles.contains(&i), "{} {} {}", i, x, y);
                }
            }
        }
    }
}

#[test]
fn sample_of_a_tile_without_triangles_is_none() {
    let boxes = vec![rect(1, 1, 2, 2)];
    let h = build(&boxes, 1, 1);
    assert!(h.sample(0).is_some());
    assert!(h.sample(1 << 16).is_none());
    assert!(h.sample(0b110_0000_0000_0001_0).is_none());
    assert!(h.sample(0xE000).is_none());
    assert!(build(&vec![], 1, 1).tiles().is_empty());
    assert!(build(&vec![rect(-9, -9, -1, -1)], 1, 1).sample(0).is_none());
}

#[test]
fn sample_gives_the_square_and_the_spacing() {
    let boxes = vec![rect(8128 + 3 * 127 + 1, 2 * 127 + 1, 8128 + 3 * 127 + 2, 2 * 127 + 2)];
    let h = build(&boxes, 2, 1);
    let leaf = lineage(1, 3, 2)[0];
    let job = h.sample(leaf).unwrap();
    assert_eq!(job.rect, TileRect { x: 8128 + 3 * 127, y: 2 * 127, side: 127 });
    assert_eq!(f64::from_bits(job.spacing), 0.5);
    let root = h.sample(1 << 16).unwrap();
    assert_eq!(root.rect, TileRect { x: 8128, y: 0, side: 8128 });
    assert_eq!(f64::from_bits(root.spacing), 32.0);
    assert_eq!(root.triangles, vec![0]);
    assert_eq!(h.tiles().len(), 7);
}

#[test]
fn index_keeps_what_it_was_built_from() {
    let boxes = vec![rect(1, 1, 2, 2)];
    let mesh = mesh_of(1);
    let tri = [[1u64, 2, 3], [4, 5, 6], [7, 8, 9]];
    let extents = Extents3::from_pt(1, 2, 3);
    let h = mesh.generate_tiles_hash(&extents, 4, 5, vec![tri], &boxes);
    assert_eq!(h.tris, vec![tri]);
    assert_eq!(h.extents, extents);
    assert_eq!((h.dx, h.dy), (4, 5));
}
