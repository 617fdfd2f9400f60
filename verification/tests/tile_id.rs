use terrain_tiles::tile_id::{extent_dims, tile_size, TileId, TileRect, MAX_DEPTH};

fn tile(path: u16) -> TileId {
    TileId { root: 0, path }
}

fn world(half_units: u32) -> f64 {
    half_units as f64 / 2.0
}

#[test]
fn assert_tile_sizing() {
    assert_eq!(world(tile_size(0)), 4064.0);
    assert_eq!(world(tile_size(1)), 2032.0);
    assert_eq!(world(tile_size(2)), 1016.0);
    assert_eq!(world(tile_size(3)), 508.0);
    assert_eq!(world(tile_size(4)), 254.0);
    assert_eq!(world(tile_size(5)), 127.0);
    assert_eq!(world(tile_size(6)), 63.5);
}

#[test]
fn tile_size_is_127_spacings() {
    let lods = [32.0, 16.0, 8.0, 4.0, 2.0, 1.0, 0.5];
    for d in 0..7usize {
        assert_eq!(world(tile_size(d)), lods[d] * 127.0);
    }
}

#[test]
fn lod_lvl_testing() {
    let f = |path: u16| {
        let x = tile(path);
        (x.lod_lvl(), f64::from_bits(x.lod_res()))
    };

    assert_eq!(f(0b000_0000_0000_0000_0), (0, 32.0));
    assert_eq!(f(0b001_0000_0000_0000_0), (1, 16.0));
    assert_eq!(f(0b010_0000_0000_0000_0), (2, 8.0));
    assert_eq!(f(0b011_0000_0000_0000_0), (3, 4.0));
    assert_eq!(f(0b100_0000_0000_0000_0), (4, 2.0));
    assert_eq!(f(0b101_0000_0000_0000_0), (5, 1.0));
    assert_eq!(f(0b110_0000_0000_0000_0), (6, 0.5));
}

#[test]
fn lod_lvl_of_malformed_path_is_seven() {
    let t = tile(0b111_0000_0000_0000_0);
    assert_eq!(t.lod_lvl(), 7);
    assert!(!t.is_well_formed());
}

#[test]
fn path_iter_testing() {
    let p = |path: u16| tile(path).path_iter();

    assert_eq!(p(0b000_0000_0000_0000_0), Vec::<[bool; 2]>::new());
    assert_eq!(p(0b001_0000_0000_0000_0), vec![[false, false]]);
    assert_eq!(p(0b001_1100_0000_0000_0), vec![[true, true]]);
    assert_eq!(p(0b001_1000_0000_0000_0), vec![[true, false]]);
    assert_eq!(
        p(0b110_1001_1100_0110_0),
        vec![
            [true, false],
            [false, true],
            [true, true],
            [false, false],
            [false, true],
            [true, false]
        ]
    );
}

#[test]
fn ovec_testing() {
    let p = |path: u16| {
        let o = tile(path).ovec();
        [world(o[0]), world(o[1])]
    };

    assert_eq!(p(0b000_0000_0000_0000_0), [0.0, 0.0]);
    assert_eq!(p(0b001_0000_0000_0000_0), [0.0, 0.0]);
    assert_eq!(p(0b001_1100_0000_0000_0), [2032.0, 2032.0]);
    assert_eq!(p(0b001_1000_0000_0000_0), [2032.0, 0.0]);
    assert_eq!(p(0b110_1001_1100_0110_0), [2603.5, 1651.0]);
}

#[test]
fn ovec_sums_the_sides_of_the_steps() {
    let t = tile(0b110_1001_1100_0110_0);
    let mut x = 0.0;
    let mut y = 0.0;
    for (i, step) in t.path_iter().into_iter().enumerate() {
        if step[0] {
            x += world(tile_size(i + 1));
        }
        if step[1] {
            y += world(tile_size(i + 1));
        }
    }
    let o = t.ovec();
    assert_eq!([world(o[0]), world(o[1])], [x, y]);
}

#[test]
fn children_testing() {
    let f = |path: u16| tile(path).children().map(|x| x.path);
    assert_eq!(
        f(0b000_0000_0000_0000_0),
        [
            0b001_0000_0000_0000_0,
            0b001_0100_0000_0000_0,
            0b001_1000_0000_0000_0,
            0b001_1100_0000_0000_0,
        ]
    );
    assert_eq!(
        f(0b011_0110_0100_0000_0),
        [
            0b100_0110_0100_0000_0,
            0b100_0110_0101_0000_0,
            0b100_0110_0110_0000_0,
            0b100_0110_0111_0000_0,
        ]
    );
}

#[test]
fn children_keep_the_root() {
    let t = TileId { root: 9, path: 0b010_0110_0000_0000_0 };
    for c in t.children() {
        assert_eq!(c.root, 9);
        assert_eq!(c.lod_lvl(), 3);
        assert_eq!(c.parent(), Some(t));
    }
}

#[test]
fn roots_and_maxs() {
    let f = |path: u16| {
        let x = tile(path);
        (x.is_root_(), x.is_max_())
    };

    assert_eq!(f(0b000_0000_0000_0000_0), (true, false));
    assert_eq!(f(0b001_0000_0000_0000_0), (false, false));
    assert_eq!(f(0b010_0000_0000_0000_0), (false, false));
    assert_eq!(f(0b011_0000_0000_0000_0), (false, false));
    assert_eq!(f(0b100_0000_0000_0000_0), (false, false));
    assert_eq!(f(0b101_0000_0000_0000_0), (false, false));
    assert_eq!(f(0b110_0000_0000_0000_0), (false, true));
}

#[test]
fn is_root_and_is_max_by_number() {
    assert!(TileId::is_root(0x0005_0000));
    assert!(!TileId::is_max(0x0005_0000));
    assert!(TileId::is_max(0x0005_C000));
    assert!(!TileId::is_root(0x0005_C000));
    assert!(!TileId::is_root(0x0000_2000));
    assert!(!TileId::is_max(0x0000_2000));
}

#[test]
fn leaf_index_to_tileid() {
    let f = |x, y| TileId::from_leaf_index(x, y).path;

    assert_eq!(f(0, 0), 0b110_0000_0000_0000_0);
    assert_eq!(f(63, 63), 0b110_1111_1111_1111_0);
    assert_eq!(f(63, 0), 0b110_1010_1010_1010_0);
    assert_eq!(f(0, 63), 0b110_0101_0101_0101_0);
    assert_eq!(f(0b1110, 31), 0b110_0001_1111_1101_0);
}

#[test]
fn leaf_index_has_root_zero_and_reads_six_bits() {
    assert_eq!(TileId::from_leaf_index(5, 9).root, 0);
    assert_eq!(TileId::from_leaf_index(64 + 5, 128 + 9), TileId::from_leaf_index(5, 9));
}

#[test]
fn leaf_offsets_are_multiples_of_the_leaf_side() {
    for x in 0..64u8 {
        for y in 0..64u8 {
            let t = TileId::from_leaf_index(x, y);
            assert_eq!(t.lod_lvl(), MAX_DEPTH);
            assert!(t.is_well_formed());
            let o = t.ovec();
            assert_eq!(world(o[0]), x as f64 * 63.5);
            assert_eq!(world(o[1]), y as f64 * 63.5);
        }
    }
}

#[test]
fn parent_testing() {
    let x = TileId {
        root: 1,
        path: 0b110_1111_1111_1111_0,
    };

    let x = x.parent().unwrap();
    assert_eq!(x.path, 0b101_1111_1111_1100_0);
    let x = x.parent().unwrap();
    assert_eq!(x.path, 0b100_1111_1111_0000_0);
    let x = x.parent().unwrap();
    assert_eq!(x.path, 0b011_1111_1100_0000_0);
    let x = x.parent().unwrap();
    assert_eq!(x.path, 0b010_1111_0000_0000_0);
    let x = x.parent().unwrap();
    assert_eq!(x.path, 0b001_1100_0000_0000_0);
    let x = x.parent().unwrap();
    assert_eq!(x.path, 0b000_0000_0000_0000_0);
    assert_eq!(x.root, 1);
    let x = x.parent();
    assert_eq!(x, None);
}

#[test]
fn parent_and_children_are_symmetric() {
    for x in [0u8, 1, 17, 42, 63] {
        for y in [0u8, 2, 31, 63] {
            let mut t = TileId::from_leaf_index(x, y);
            t.root = 3;
            while let Some(p) = t.parent() {
                assert_eq!(p.lod_lvl() + 1, t.lod_lvl());
                assert!(p.children().contains(&t));
                for c in p.children() {
                    assert_eq!(c.parent(), Some(p));
                    assert_eq!(c.lod_lvl(), p.lod_lvl() + 1);
                }
                t = p;
            }
            assert!(t.is_root_());
        }
    }
}

#[test]
fn tileid_to_from_num_round_trip() {
    for root in [0u16, 1, 2, 255, 256, 4096, 65535] {
        for path in 0..=u16::MAX {
            let id = TileId { root, path };
            assert_eq!(TileId::from_num(id.as_num()), id);
        }
    }
    for n in [0u32, 1, 0xFFFF, 0x1_0000, 0xDEAD_BEEF, u32::MAX] {
        assert_eq!(TileId::from_num(n).as_num(), n);
    }
}

#[test]
fn as_num_puts_the_root_in_the_high_half() {
    let id = TileId { root: 0x1234, path: 0xC6A8 };
    assert_eq!(id.as_num(), 0x1234_C6A8);
    assert_eq!(TileId::from_num(0x1234_C6A8), id);
}

#[test]
fn roots_are_numbered_row_by_row() {
    let roots = TileId::roots(3, 2);
    assert_eq!(roots.len(), 6);
    for (i, r) in roots.iter().enumerate() {
        assert_eq!(*r, TileId { root: i as u16, path: 0 });
    }
    assert!(TileId::roots(0, 5).is_empty());
}

#[test]
fn extents_of_roots_and_descendants() {
    let r = TileId { root: 4, path: 0 }.extents(3, 2);
    assert_eq!(r, TileRect { x: 8128, y: 8128, side: 8128 });
    let t = TileId { root: 4, path: 0b001_1000_0000_0000_0 }.extents(3, 2);
    assert_eq!(t, TileRect { x: 8128 + 4064, y: 8128, side: 4064 });
    let leaf = TileId { root: 2, path: TileId::from_leaf_index(63, 1).path }.extents(3, 2);
    assert_eq!(leaf, TileRect { x: 2 * 8128 + 63 * 127, y: 127, side: 127 });
}

#[test]
fn extents_beyond_the_grid_are_empty() {
    let zero = TileRect { x: 0, y: 0, side: 0 };
    assert_eq!(TileId { root: 6, path: 0 }.extents(3, 2), zero);
    assert_eq!(TileId { root: 7, path: 0 }.extents(3, 2), zero);
    assert_eq!(TileId { root: 0, path: 0 }.extents(0, 0), zero);
    assert_eq!(TileId { root: 5, path: 0 }.extents(3, 2).side, 8128);
}

#[test]
fn children_tile_their_parent() {
    let p = TileId { root: 1, path: 0b010_0110_0000_0000_0 };
    let pr = p.extents(2, 1);
    let c = p.children();
    let half = pr.side / 2;
    assert_eq!(c[0].extents(2, 1), TileRect { x: pr.x, y: pr.y, side: half });
    assert_eq!(c[1].extents(2, 1), TileRect { x: pr.x, y: pr.y + half, side: half });
    assert_eq!(c[2].extents(2, 1), TileRect { x: pr.x + half, y: pr.y, side: half });
    assert_eq!(c[3].extents(2, 1), TileRect { x: pr.x + half, y: pr.y + half, side: half });
}

#[test]
fn extent_dims_round_up() {
    let dims = |w: f64, h: f64| extent_dims((w * 2.0).ceil() as u64, (h * 2.0).ceil() as u64);
    assert_eq!(dims(0.0, 0.0), [0, 0]);
    assert_eq!(dims(1.0, 4064.0), [1, 1]);
    assert_eq!(dims(4064.5, 4063.9), [2, 1]);
    assert_eq!(dims(10_000.0, 8128.0), [3, 2]);
    assert_eq!(dims(0.25, 8128.25), [1, 3]);
    for (w, h) in [(1.0f64, 4064.0f64), (4064.5, 4063.9), (10_000.0, 8128.0), (123_456.7, 3.0)] {
        let want = [(w / 4064.0).ceil() as u16, (h / 4064.0).ceil() as u16];
        assert_eq!(dims(w, h), want);
    }
}

#[test]
fn extent_dims_stop_at_what_a_root_can_count() {
    assert_eq!(extent_dims(65535 * 8128, 65535 * 8128 + 1), [65535, 65535]);
    assert_eq!(extent_dims(65534 * 8128 + 1, u64::MAX), [65535, 65535]);
    assert_eq!(extent_dims(65534 * 8128, 1), [65534, 1]);
}
