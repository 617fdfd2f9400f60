use terrain_tiles::codec::{put_u32, put_u64, DecodeError, StoreDecoder};
use terrain_tiles::geometry::{Extents3, Point3};
use terrain_tiles::mesh::TriangleMeshSurface;

fn point(x: f64, y: f64, z: f64) -> Point3 {
    Point3 { x: x.to_bits(), y: y.to_bits(), z: z.to_bits() }
}

#[test]
fn put_matches_big_endian_bytes() {
    for x in [0u32, 1, 0x0102_0304, 0xDEAD_BEEF, u32::MAX] {
        let mut out = vec![7u8];
        put_u32(&mut out, x);
        let mut want = vec![7u8];
        want.extend(x.to_be_bytes());
        assert_eq!(out, want);
    }
    for x in [0u64, 1, 0x0102_0304_0506_0708, u64::MAX, 1.5f64.to_bits()] {
        let mut out = Vec::new();
        put_u64(&mut out, x);
        assert_eq!(out, x.to_be_bytes().to_vec());
    }
}

#[test]
fn decoder_reads_big_endian_values_in_turn() {
    let mut bytes = Vec::new();
    bytes.extend(0x0102_0304u32.to_be_bytes());
    bytes.extend((-2.5f64).to_be_bytes());
    bytes.extend(0.75f32.to_be_bytes());
    bytes.extend(0x1122_3344_5566_7788u64.to_be_bytes());
    let mut d = StoreDecoder::new(&bytes);
    assert_eq!(d.u32(), Ok(0x0102_0304));
    assert_eq!(d.real64().map(f64::from_bits), Ok(-2.5));
    assert_eq!(d.real32().map(f32::from_bits), Ok(0.75));
    assert_eq!(d.u64(), Ok(0x1122_3344_5566_7788));
    assert_eq!(d.pos, bytes.len());
    assert_eq!(d.u32(), Err(DecodeError::UnexpectedEnd));
}

#[test]
fn decoder_fails_on_short_input_and_stays() {
    let bytes = [1u8, 2, 3, 4, 5, 6, 7];
    let mut d = StoreDecoder::new(&bytes);
    assert_eq!(d.u64(), Err(DecodeError::UnexpectedEnd));
    assert_eq!(d.pos, 0);
    assert_eq!(d.u32(), Ok(0x0102_0304));
    assert_eq!(d.u32(), Err(DecodeError::UnexpectedEnd));
    assert_eq!(d.pos, 4);
}

#[test]
fn decode_error_message() {
    assert_eq!(DecodeError::UnexpectedEnd.message(), "failed to fill whole buffer");
}

#[test]
fn extents_to_bytes_layout() {
    let e = Extents3 { origin: point(1.0, 2.0, 3.0), size: point(4.0, 5.0, 6.0) };
    let bytes = e.to_bytes();
    assert_eq!(bytes.len(), 48);
    let mut want = Vec::new();
    for v in [1.0f64, 2.0, 3.0, 4.0, 5.0, 6.0] {
        want.extend(v.to_be_bytes());
    }
    assert_eq!(bytes, want);
}

#[test]
fn extents_round_trip() {
    let cases = [
        Extents3 { origin: point(0.0, 0.0, 0.0), size: point(0.0, 0.0, 0.0) },
        Extents3 { origin: point(-1.5, 2.25e300, 1e-310), size: point(f64::INFINITY, 7.0, -0.0) },
        Extents3 {
            origin: Point3 { x: f64::NAN.to_bits(), y: 0x7FF8_0000_0000_1234, z: u64::MAX },
            size: point(1.0, 2.0, 3.0),
        },
    ];
    for e in cases {
        assert_eq!(Extents3::from_bytes(&e.to_bytes()), Ok(e));
    }
}

#[test]
fn extents_from_bytes_rejects_short_input_and_skips_the_rest() {
    let e = Extents3 { origin: point(1.0, 2.0, 3.0), size: point(4.0, 5.0, 6.0) };
    let mut bytes = e.to_bytes();
    assert_eq!(Extents3::from_bytes(&bytes[..47]), Err(DecodeError::UnexpectedEnd));
    assert_eq!(Extents3::from_bytes(&[]), Err(DecodeError::UnexpectedEnd));
    bytes.push(9);
    assert_eq!(Extents3::from_bytes(&bytes), Ok(e));
}

fn sample_mesh() -> TriangleMeshSurface {
    let points: Vec<u32> = [0.0f32, 0.0, 0.0, 1.0, 0.0, 1.0, 1.0, 1.0, 1.0, 0.0, 1.0, 0.0]
        .iter()
        .map(|p| p.to_bits())
        .collect();
    TriangleMeshSurface::new(point(1.0, 2.0, 3.0), points, vec![0, 1, 2, 0, 3, 2])
}

#[test]
fn mesh_to_bytes_layout() {
    let m = sample_mesh();
    let mut want = Vec::new();
    for v in [1.0f64, 2.0, 3.0] {
        want.extend(v.to_be_bytes());
    }
    want.extend(12u64.to_be_bytes());
    for p in [0.0f32, 0.0, 0.0, 1.0, 0.0, 1.0, 1.0, 1.0, 1.0, 0.0, 1.0, 0.0] {
        want.extend(p.to_be_bytes());
    }
    want.extend(6u64.to_be_bytes());
    for i in [0u32, 1, 2, 0, 3, 2] {
        want.extend(i.to_be_bytes());
    }
    assert_eq!(m.to_bytes(), want);
}

#[test]
fn mesh_round_trip() {
    let m = sample_mesh();
    let back = TriangleMeshSurface::from_bytes(&m.to_bytes()).unwrap();
    assert_eq!(back.translate, m.translate);
    assert_eq!(back.points, m.points);
    assert_eq!(back.indices, m.indices);

    let odd = TriangleMeshSurface::new(
        Point3 { x: f64::NAN.to_bits(), y: (-0.0f64).to_bits(), z: 1 },
        vec![f32::NAN.to_bits(), 0xFFFF_FFFF, 0, 0x8000_0000],
        vec![u32::MAX],
    );
    let back = TriangleMeshSurface::from_bytes(&odd.to_bytes()).unwrap();
    assert_eq!(back.translate, odd.translate);
    assert_eq!(back.points, odd.points);
    assert_eq!(back.indices, odd.indices);

    let empty = TriangleMeshSurface::new(point(0.0, 0.0, 0.0), vec![], vec![]);
    let bytes = empty.to_bytes();
    assert_eq!(bytes.len(), 40);
    let back = TriangleMeshSurface::from_bytes(&bytes).unwrap();
    assert!(back.points.is_empty() && back.indices.is_empty());
}

#[test]
fn mesh_from_bytes_rejects_truncated_input() {
    let bytes = sample_mesh().to_bytes();
    for cut in [0, 10, 24, 31, 32, 50, 79, 80, 87, 88, 100, bytes.len() - 1] {
        assert_eq!(
            TriangleMeshSurface::from_bytes(&bytes[..cut]).err(),
            Some(DecodeError::UnexpectedEnd),
            "cut at {}",
            cut
        );
    }
    assert!(TriangleMeshSurface::from_bytes(&bytes).is_ok());
}

#[test]
fn mesh_from_bytes_rejects_a_count_beyond_the_input() {
    let mut bytes = sample_mesh().to_bytes();
    bytes[24..32].copy_from_slice(&u64::MAX.to_be_bytes());
    assert_eq!(TriangleMeshSurface::from_bytes(&bytes).err(), Some(DecodeError::UnexpectedEnd));
    let mut bytes = sample_mesh().to_bytes();
    bytes[80..88].copy_from_slice(&7u64.to_be_bytes());
    assert_eq!(TriangleMeshSurface::from_bytes(&bytes).err(), Some(DecodeError::UnexpectedEnd));
}

#[test]
fn mesh_from_bytes_skips_what_follows() {
    let m = sample_mesh();
    let mut bytes = m.to_bytes();
    bytes.extend([1, 2, 3]);
    let back = TriangleMeshSurface::from_bytes(&bytes).unwrap();
    assert_eq!(back.indices, m.indices);
}

#[test]
fn assert_tris_fn() {
    let mesh = sample_mesh();
    assert!(mesh.is_well_formed());
    let t = [
        f64::from_bits(mesh.translate.x),
        f64::from_bits(mesh.translate.y),
        f64::from_bits(mesh.translate.z),
    ];
    let tris: Vec<[[f64; 3]; 3]> = mesh
        .tris()
        .into_iter()
        .map(|tri| tri.map(|p| [0, 1, 2].map(|c| f32::from_bits(p[c]) as f64 + t[c])))
        .collect();
    assert_eq!(
        tris,
        vec![
            [[1., 2., 3.], [2., 2., 4.], [2., 3., 4.]],
            [[1., 2., 3.], [1., 3., 3.], [2., 3., 4.]]
        ]
    )
}

#[test]
fn mesh_well_formedness() {
    let p = point(0.0, 0.0, 0.0);
    assert!(TriangleMeshSurface::new(p, vec![], vec![]).is_well_formed());
    assert!(!TriangleMeshSurface::new(p, vec![0, 0], vec![]).is_well_formed());
    assert!(!TriangleMeshSurface::new(p, vec![0, 0, 0], vec![0, 0]).is_well_formed());
    assert!(TriangleMeshSurface::new(p, vec![0, 0, 0], vec![0, 0, 0]).is_well_formed());
    assert!(!TriangleMeshSurface::new(p, vec![0, 0, 0], vec![0, 1, 0]).is_well_formed());
    assert!(TriangleMeshSurface::new(p, vec![0; 6], vec![0, 1, 0]).is_well_formed());
}

#[test]
fn point_of_mesh() {
    let m = sample_mesh();
    assert_eq!(m.point(1).map(f32::from_bits), [1.0, 0.0, 1.0]);
    assert_eq!(m.point(3).map(f32::from_bits), [0.0, 1.0, 0.0]);
}

#[test]
fn extents_constructors() {
    let z = Point3::zero();
    assert_eq!([z.x, z.y, z.z].map(f64::from_bits), [0.0, 0.0, 0.0]);
    let u = Extents3::zero_to_one();
    assert_eq!([u.origin.x, u.origin.y, u.origin.z].map(f64::from_bits), [0.0, 0.0, 0.0]);
    assert_eq!([u.size.x, u.size.y, u.size.z].map(f64::from_bits), [1.0, 1.0, 1.0]);
    let p = Extents3::from_pt(1.5f64.to_bits(), (-2.0f64).to_bits(), 3.0f64.to_bits());
    assert_eq!([p.origin.x, p.origin.y, p.origin.z].map(f64::from_bits), [1.5, -2.0, 3.0]);
    assert_eq!([p.size.x, p.size.y, p.size.z].map(f64::from_bits), [0.0, 0.0, 0.0]);
}

#[test]
fn max_dim_is_the_largest_size() {
    let dims = [
        (1.0, 2.0, 3.0),
        (3.0, 2.0, 1.0),
        (2.0, 3.0, 1.0),
        (0.0, 0.0, 0.0),
        (5.5, 5.5, 1e-300),
        (f64::INFINITY, 1.0, 2.0),
        (-1.0, -2.0, -3.0),
        (-1.0, 0.5, -3.0),
        (f64::NAN, 2.0, 1.0),
        (1.0, f64::NAN, 3.0),
        (1.0, 4.0, f64::NAN),
    ];
    for (x, y, z) in dims {
        let e = Extents3 { origin: point(0.0, 0.0, 0.0), size: point(x, y, z) };
        assert_eq!(f64::from_bits(e.max_dim()), x.max(y).max(z), "{} {} {}", x, y, z);
    }
}
