use terrain_tiles::ieee::{finite32, greater64, larger64, nan64};
use terrain_tiles::view::choose_lod_depth;

fn samples() -> Vec<f64> {
    vec![
        0.0,
        -0.0,
        1.0,
        -1.0,
        0.5,
        0.7,
        1.5,
        32.0,
        -32.0,
        5e-324,
        -5e-324,
        f64::MIN_POSITIVE,
        f64::MAX,
        f64::MIN,
        f64::INFINITY,
        f64::NEG_INFINITY,
        f64::NAN,
        -f64::NAN,
        f64::from_bits(0x7FF0_0000_0000_0001),
        1e300,
        -1e-300,
    ]
}

#[test]
fn greater_agrees_with_the_numbers() {
    for a in samples() {
        for b in samples() {
            assert_eq!(greater64(a.to_bits(), b.to_bits()), a > b, "{} > {}", a, b);
        }
    }
}

#[test]
fn nan_agrees_with_the_numbers() {
    for a in samples() {
        assert_eq!(nan64(a.to_bits()), a.is_nan(), "{}", a);
    }
}

#[test]
fn larger_agrees_with_the_numbers() {
    for a in samples() {
        for b in samples() {
            let m = f64::from_bits(larger64(a.to_bits(), b.to_bits()));
            let want = a.max(b);
            assert!(m == want || (m.is_nan() && want.is_nan()), "max({}, {})", a, b);
        }
    }
}

#[test]
fn larger_of_equal_numbers_is_the_first() {
    let pz = 0.0f64.to_bits();
    let nz = (-0.0f64).to_bits();
    assert_eq!(larger64(pz, nz), pz);
    assert_eq!(larger64(nz, pz), nz);
}

#[test]
fn finite_agrees_with_the_numbers() {
    let values = [
        0.0f32,
        -0.0,
        1.0,
        -123.5,
        f32::MAX,
        f32::MIN,
        f32::MIN_POSITIVE,
        1e-45,
        f32::INFINITY,
        f32::NEG_INFINITY,
        f32::NAN,
        -f32::NAN,
        f32::from_bits(0x7F80_0001),
        f32::from_bits(0x7F7F_FFFF),
    ];
    for v in values {
        assert_eq!(finite32(v.to_bits()), v.is_finite(), "{}", v);
    }
}

#[test]
fn choose_lod_depth_testing() {
    let choose_lod_depth = |r: f64| choose_lod_depth(r.to_bits());
    assert_eq!(choose_lod_depth(50.0), 0); // 32   res
    assert_eq!(choose_lod_depth(30.0), 1); // 16   res
    assert_eq!(choose_lod_depth(15.0), 2); //  8   res
    assert_eq!(choose_lod_depth(6.0), 3); //  4   res
    assert_eq!(choose_lod_depth(3.0), 4); //  2   res
    assert_eq!(choose_lod_depth(1.5), 5); //  1   res
    assert_eq!(choose_lod_depth(0.7), 6); //  0.5 res
    assert_eq!(choose_lod_depth(0.1), 6); //  0.5 res
}

#[test]
fn choose_lod_depth_at_the_table_values() {
    let lods = [32.0f64, 16.0, 8.0, 4.0, 2.0, 1.0, 0.5];
    for (d, r) in lods.iter().enumerate() {
        assert_eq!(choose_lod_depth(r.to_bits()), (d + 1).min(6));
        assert_eq!(choose_lod_depth(f64::from_bits(r.to_bits() + 1).to_bits()), d);
    }
}

#[test]
fn choose_lod_depth_of_what_is_no_spacing() {
    for r in [0.0, -0.0, -1.0, -100.0, f64::NAN, f64::NEG_INFINITY] {
        assert_eq!(choose_lod_depth(r.to_bits()), 6, "{}", r);
    }
    assert_eq!(choose_lod_depth(f64::INFINITY.to_bits()), 0);
}

#[test]
fn choose_lod_depth_is_monotonic() {
    let mut rs = vec![0.1, 0.5, 0.7, 1.0, 1.5, 2.0, 3.0, 4.0, 6.0, 8.0, 15.0, 16.0, 30.0, 32.0, 50.0];
    rs.extend([1e-300, 1e300, 0.0, f64::INFINITY]);
    for &r1 in &rs {
        for &r2 in &rs {
            if r1 >= r2 {
                assert!(choose_lod_depth(r1.to_bits()) <= choose_lod_depth(r2.to_bits()));
            }
        }
    }
}
