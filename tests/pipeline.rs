use p3d::geometry::{Face, Mesh, Point3};
use p3d::pipeline::{
    decode_rotation, extreme_coordinates, first_geometry, process_mesh, AlgoType, Candidate,
    P3DError, PrimitiveCounts,
};

fn vtx(x: i64, y: i64, z: i64) -> Point3 {
    Point3 { x, y, z }
}

fn face(a: usize, b: usize, c: usize) -> Face {
    Face { a, b, c }
}

fn cube() -> Mesh {
    let vertices = vec![
        vtx(0, 0, 0), vtx(100, 0, 0), vtx(100, 100, 0), vtx(0, 100, 0),
        vtx(0, 0, 100), vtx(100, 0, 100), vtx(100, 100, 100), vtx(0, 100, 100),
    ];
    let faces = vec![
        face(0, 2, 1), face(0, 3, 2), face(4, 5, 6), face(4, 6, 7),
        face(0, 1, 5), face(0, 5, 4), face(1, 2, 6), face(1, 6, 5),
        face(2, 3, 7), face(2, 7, 6), face(3, 0, 4), face(3, 4, 7),
    ];
    Mesh::new(vertices, faces).unwrap()
}

fn tetrahedron() -> Mesh {
    let vertices = vec![vtx(0, 0, 0), vtx(120, 0, 0), vtx(0, 120, 0), vtx(0, 0, 120)];
    let faces = vec![face(0, 2, 1), face(0, 1, 3), face(1, 2, 3), face(2, 0, 3)];
    Mesh::new(vertices, faces).unwrap()
}

fn c(x: i64, y: i64, score: u64) -> Candidate {
    Candidate { x, y, score }
}

#[test]
fn cube_pooled() {
    let r = process_mesh(&cube(), AlgoType::Grid2d, 10, 2, 3).unwrap();
    assert_eq!(r, vec![c(25, 25, 3), c(75, 25, 3), c(25, 75, 3), c(75, 75, 3)]);
}

#[test]
fn cube_every_policy() {
    let m = cube();
    assert_eq!(process_mesh(&m, AlgoType::Grid2dV2, 2, 2, 3).unwrap(), vec![c(25, 25, 3), c(75, 25, 3)]);
    assert_eq!(process_mesh(&m, AlgoType::Grid2dV3, 1, 2, 3).unwrap(), vec![c(25, 25, 3 * 4 + 3)]);
    assert_eq!(process_mesh(&m, AlgoType::Grid2dV3a, 1, 2, 3).unwrap(), vec![c(25, 25, 3 * 4 + 3)]);
}

#[test]
fn reserved_tag_fails() {
    assert!(matches!(process_mesh(&cube(), AlgoType::Spectr, 10, 4, 4), Err(P3DError::UnsupportedAlgorithm)));
}

#[test]
fn tetrahedron_ranks_the_corner_first() {
    let r = process_mesh(&tetrahedron(), AlgoType::Grid2d, 3, 4, 5).unwrap();
    assert_eq!(r.len(), 3);
    // the cell nearest the apex's foot lies inside all sections but the top one
    assert_eq!((r[0].x, r[0].y, r[0].score), (15, 15, 4));
    assert!(r[0].score >= r[1].score && r[1].score >= r[2].score);
}

#[test]
fn candidate_count_never_exceeds_depth() {
    let m = cube();
    for depth in 0..20usize {
        let r = process_mesh(&m, AlgoType::Grid2dV3, depth, 3, 2).unwrap();
        assert_eq!(r.len(), depth.min(9));
    }
    assert!(process_mesh(&m, AlgoType::Grid2d, 10, 4, 0).unwrap().is_empty());
    assert!(process_mesh(&m, AlgoType::Grid2d, 10, 0, 5).unwrap().is_empty());
}

#[test]
fn same_input_same_output() {
    let a = process_mesh(&tetrahedron(), AlgoType::Grid2dV2, 6, 5, 4).unwrap();
    let b = process_mesh(&tetrahedron(), AlgoType::Grid2dV2, 6, 5, 4).unwrap();
    assert_eq!(a, b);
}

#[test]
fn extents_of_the_tetrahedron() {
    let (lo, hi) = extreme_coordinates(&tetrahedron());
    assert_eq!(lo, vtx(0, 0, 0));
    assert_eq!(hi, vtx(120, 120, 120));
}

#[test]
fn scene_without_geometry() {
    assert_eq!(first_geometry(&vec![]), None);
    let only_positions = vec![PrimitiveCounts { positions: 3, indices: 0 }];
    assert_eq!(first_geometry(&only_positions), None);
}

#[test]
fn geometry_from_the_first_complete_primitive() {
    let ps = vec![
        PrimitiveCounts { positions: 0, indices: 0 },
        PrimitiveCounts { positions: 4, indices: 0 },
        PrimitiveCounts { positions: 0, indices: 6 },
        PrimitiveCounts { positions: 9, indices: 9 },
        PrimitiveCounts { positions: 3, indices: 3 },
    ];
    assert_eq!(first_geometry(&ps), Some(3));
    assert_eq!(first_geometry(&vec![PrimitiveCounts { positions: 1, indices: 1 }]), Some(0));
}

#[test]
fn split_geometry_is_no_geometry() {
    let ps = vec![
        PrimitiveCounts { positions: 4, indices: 0 },
        PrimitiveCounts { positions: 0, indices: 6 },
    ];
    assert_eq!(first_geometry(&ps), None);
}

#[test]
fn rotation_bytes_decode() {
    let r = decode_rotation([0, 128, 255, 64]);
    assert_eq!((r.ax, r.ay, r.az), (0, 128 * 45, 255 * 45));
    assert_eq!(r.angle, 64 * 45 * 360);
}
