use p3d::geometry::{Face, Mesh, MeshFault, Point2, Point3, Segment, COORD_LIMIT};
use p3d::slicer::{intersect, intersect_slab, slice_levels};

fn vtx(x: i64, y: i64, z: i64) -> Point3 {
    Point3 { x, y, z }
}

fn face(a: usize, b: usize, c: usize) -> Face {
    Face { a, b, c }
}

fn cube() -> Mesh {
    let vertices = vec![
        vtx(0, 0, 0), vtx(100, 0, 0), vtx(100, 100, 0), vtx(0, 100, 0),
        vtx(0, 0, 100), vtx(100, 0, 100), vtx(100, 100, 100), vtx(0, 100, 100),
    ];
    let faces = vec![
        face(0, 2, 1), face(0, 3, 2), face(4, 5, 6), face(4, 6, 7),
        face(0, 1, 5), face(0, 5, 4), face(1, 2, 6), face(1, 6, 5),
        face(2, 3, 7), face(2, 7, 6), face(3, 0, 4), face(3, 4, 7),
    ];
    Mesh::new(vertices, faces).unwrap()
}

#[test]
fn levels_are_evenly_spaced_and_interior() {
    for n in 1u16..12 {
        let levels = slice_levels(0, 10, n);
        assert_eq!(levels.len(), n as usize);
        for (i, l) in levels.iter().enumerate() {
            // level / (n + 1) == 10 * (i + 1) / (n + 1)
            assert_eq!(*l, 10 * (i as i64 + 1));
            assert!(*l > 0 && *l < 10 * (n as i64 + 1));
        }
    }
}

#[test]
fn levels_with_offset_extremes() {
    assert_eq!(slice_levels(-4, 8, 3), vec![-16 + 12, -16 + 24, -16 + 36]);
    assert_eq!(slice_levels(5, 5, 2), vec![15, 15]);
    assert!(slice_levels(0, 10, 0).is_empty());
}

#[test]
fn mesh_rejects_bad_input() {
    assert!(matches!(Mesh::new(vec![vtx(0, 0, 0)], vec![]), Err(MeshFault::NoFaces)));
    assert!(matches!(
        Mesh::new(vec![vtx(0, 0, 0), vtx(1, 0, 0), vtx(0, 1, 0)], vec![face(0, 1, 3)]),
        Err(MeshFault::FaceIndexOutOfRange)
    ));
    assert!(matches!(
        Mesh::new(vec![vtx(0, 0, 0), vtx(1, 0, 0), vtx(0, 1, COORD_LIMIT + 1)], vec![face(0, 1, 2)]),
        Err(MeshFault::CoordinateOutOfRange)
    ));
    assert!(Mesh::new(vec![vtx(0, 0, 0), vtx(1, 0, 0), vtx(0, 1, COORD_LIMIT)], vec![face(0, 1, 2)]).is_ok());
}

#[test]
fn cube_cut_in_the_middle() {
    let m = cube();
    // one level over scale 2: height 50
    let segs = intersect(&m, 100, 2);
    assert_eq!(segs.len(), 8);
    // front face (0, 1, 5): edges 1-5 and 5-0 cross
    assert_eq!(
        segs[0],
        Segment { a: Point2 { x: 100, y: 0 }, b: Point2 { x: 50, y: 0 } }
    );
    for s in &segs {
        for p in [s.a, s.b] {
            assert!(p.x == 0 || p.x == 100 || p.y == 0 || p.y == 100);
        }
    }
}

#[test]
fn plane_through_a_face_gives_nothing_from_it() {
    let m = cube();
    // height 0 (level 0 over scale 1): the bottom face lies in the plane
    let segs = intersect(&m, 0, 1);
    assert_eq!(segs.len(), 0);
    // at the top the corners count as above, so the side faces give the rim
    let top = intersect(&m, 100, 1);
    assert_eq!(top.len(), 8);
    // the slab variant cuts at its lower face
    assert_eq!(intersect_slab(&m, 50, 1, 10), intersect(&m, 40, 1));
    assert_eq!(intersect_slab(&m, 1, 1, 1).len(), 0);
}

#[test]
fn crossing_rounds_toward_lower_end() {
    let m = Mesh::new(vec![vtx(0, 0, 0), vtx(10, -10, 3), vtx(0, 5, 3)], vec![face(0, 1, 2)]).unwrap();
    // height 1: one third of the way up each rising edge
    let segs = intersect(&m, 1, 1);
    assert_eq!(segs.len(), 1);
    assert_eq!(segs[0].a, Point2 { x: 0, y: 1 });
    assert_eq!(segs[0].b, Point2 { x: 3, y: -3 });
}
