use terrain_tiles::tile_id::TileId;
use terrain_tiles::geometry::Bounds;
use terrain_tiles::view::{check_view_input, rect_overlaps, NumericsError, ViewableTiles};

fn touches(t: TileId, dx: u16, dy: u16, f: &Bounds) -> bool {
    let r = t.extents(dx, dy);
    let (x0, y0) = (r.x as f64 / 2.0, r.y as f64 / 2.0);
    let s = r.side as f64 / 2.0;
    x0 <= f.max_x as f64 / 2.0
        && f.min_x as f64 / 2.0 <= x0 + s
        && y0 <= f.max_y as f64 / 2.0
        && f.min_y as f64 / 2.0 <= y0 + s
}

fn walk(t: TileId, dx: u16, dy: u16, f: &Bounds, depth: u8, inv: &mut Vec<u32>, out: &mut Vec<u32>) {
    if !touches(t, dx, dy, f) {
        out.push(t.as_num());
    } else if t.lod_lvl() == depth {
        inv.push(t.as_num());
    } else {
        for c in t.children().iter().rev() {
            walk(*c, dx, dy, f, depth, inv, out);
        }
    }
}

fn expected(dx: u16, dy: u16, f: &Bounds, depth: u8) -> (Vec<u32>, Vec<u32>) {
    let mut inv = Vec::new();
    let mut out = Vec::new();
    for r in TileId::roots(dx, dy).iter().rev() {
        walk(*r, dx, dy, f, depth, &mut inv, &mut out);
    }
    (inv, out)
}

#[test]
fn new_has_no_tiles() {
    let v = ViewableTiles::new(3, 2);
    assert!(v.in_view_tiles().is_empty());
    assert!(v.out_view_tiles().is_empty());
}

#[test]
fn coarse_view_keeps_the_roots() {
    let mut v = ViewableTiles::new(2, 2);
    let f = Bounds { min_x: 0, min_y: 0, max_x: 100, max_y: 100 };
    v.update(50.0f64.to_bits(), f);
    assert_eq!(v.in_view_tiles(), vec![0]);
    assert_eq!(v.out_view_tiles(), vec![3 << 16, 2 << 16, 1 << 16]);
}

#[test]
fn update_walks_as_expected() {
    let cases = [
        (1u16, 1u16, Bounds { min_x: 100, min_y: 200, max_x: 900, max_y: 700 }, 3.0),
        (2, 3, Bounds { min_x: 8000, min_y: 8000, max_x: 8300, max_y: 16300 }, 6.0),
        (2, 2, Bounds { min_x: -50, min_y: -50, max_x: 0, max_y: 0 }, 0.7),
        (2, 2, Bounds { min_x: 20000, min_y: 0, max_x: 30000, max_y: 10 }, 0.1),
        (3, 1, Bounds { min_x: 10, min_y: 10, max_x: 5, max_y: 5 }, 1.5),
        (1, 2, Bounds { min_x: 4064, min_y: 4064, max_x: 4064, max_y: 4064 }, 15.0),
    ];
    for (dx, dy, f, res) in cases {
        let res: f64 = res;
        let depth = terrain_tiles::view::choose_lod_depth(res.to_bits()) as u8;
        let mut v = ViewableTiles::new(dx, dy);
        v.update(res.to_bits(), f);
        let (inv, out) = expected(dx, dy, &f, depth);
        assert_eq!(v.in_view_tiles(), inv);
        assert_eq!(v.out_view_tiles(), out);
    }
}

#[test]
fn update_overwrites() {
    let mut v = ViewableTiles::new(1, 1);
    v.update(3.0f64.to_bits(), Bounds { min_x: 0, min_y: 0, max_x: 500, max_y: 500 });
    let first = v.in_view_tiles();
    assert!(!first.is_empty());
    v.update(50.0f64.to_bits(), Bounds { min_x: -9, min_y: -9, max_x: -1, max_y: -1 });
    assert!(v.in_view_tiles().is_empty());
    assert_eq!(v.out_view_tiles(), vec![0]);
}

#[test]
fn tiles_in_and_out_of_view_cover_the_grid_once() {
    let (dx, dy) = (2u16, 2u16);
    let f = Bounds { min_x: 3000, min_y: 5000, max_x: 9000, max_y: 9100 };
    let mut v = ViewableTiles::new(dx, dy);
    v.update(3.0f64.to_bits(), f);
    let mut area: u64 = 0;
    let all: Vec<u32> = v.in_view_tiles().into_iter().chain(v.out_view_tiles()).collect();
    for (i, a) in all.iter().enumerate() {
        let ra = TileId::from_num(*a).extents(dx, dy);
        area += ra.side as u64 * ra.side as u64;
        for b in &all[i + 1..] {
            let rb = TileId::from_num(*b).extents(dx, dy);
            let apart = ra.x + ra.side <= rb.x
                || rb.x + rb.side <= ra.x
                || ra.y + ra.side <= rb.y
                || rb.y + rb.side <= ra.y;
            assert!(apart);
        }
    }
    assert_eq!(area, 4 * 8128 * 8128);
    for n in v.in_view_tiles() {
        let t = TileId::from_num(n);
        assert_eq!(t.lod_lvl(), 4);
        assert!(rect_overlaps(&t.extents(dx, dy), &f));
    }
    for n in v.out_view_tiles() {
        assert!(!rect_overlaps(&TileId::from_num(n).extents(dx, dy), &f));
    }
}

#[test]
fn view_input_is_checked() {
    let up = 1.0f64.to_bits();
    assert_eq!(check_view_input(15, up), Ok(()));
    assert_eq!(check_view_input(15, (-1e-300f64).to_bits()), Ok(()));
    assert_eq!(check_view_input(14, up), Err(NumericsError::InputLength));
    assert_eq!(check_view_input(16, up), Err(NumericsError::InputLength));
    assert_eq!(check_view_input(0, 0), Err(NumericsError::InputLength));
    assert_eq!(check_view_input(15, 0.0f64.to_bits()), Err(NumericsError::LevelCamera));
    assert_eq!(check_view_input(15, (-0.0f64).to_bits()), Err(NumericsError::LevelCamera));
}

#[test]
fn overlap_counts_touching_sides() {
    let r = terrain_tiles::tile_id::TileRect { x: 100, y: 100, side: 50 };
    let f = |min_x, min_y, max_x, max_y| rect_overlaps(&r, &Bounds { min_x, min_y, max_x, max_y });
    assert!(f(0, 0, 100, 100));
    assert!(f(150, 150, 200, 200));
    assert!(f(120, 120, 121, 121));
    assert!(!f(0, 0, 99, 200));
    assert!(!f(151, 0, 200, 200));
    assert!(!f(0, 151, 200, 200));
    assert!(!f(0, 0, 200, 99));
    assert!(!f(i64::MIN, i64::MIN, -1, i64::MAX));
    assert!(f(i64::MIN, i64::MIN, i64::MAX, i64::MAX));
}

#[test]
fn tiles_out_of_view_are_the_largest_around_them() {
    let (dx, dy) = (2u16, 1u16);
    let f = Bounds { min_x: 5000, min_y: 100, max_x: 9000, max_y: 700 };
    let mut v = ViewableTiles::new(dx, dy);
    v.update(1.5f64.to_bits(), f);
    assert!(!v.out_view_tiles().is_empty());
    for n in v.out_view_tiles() {
        let t = TileId::from_num(n);
        assert!(t.lod_lvl() <= 5);
        if let Some(p) = t.parent() {
            assert!(rect_overlaps(&p.extents(dx, dy), &f));
        }
    }
}
