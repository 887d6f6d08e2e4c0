//! Points, segments and triangle meshes in fixed-point coordinates.
use vstd::prelude::*;

verus! {

/// Largest magnitude of a coordinate; every arithmetic bound of the crate rests on it.
pub const COORD_LIMIT: i64 = 1073741824;

pub open spec fn coord_ok(v: int) -> bool {
    -COORD_LIMIT <= v <= COORD_LIMIT
}

/// A point of a horizontal plane, in fixed-point units.
#[derive(Clone, Copy, Debug, PartialEq, Eq, Structural)]
pub struct Point2 {
    pub x: i64,
    pub y: i64,
}

/// A mesh vertex, in fixed-point units.
#[derive(Clone, Copy, Debug, PartialEq, Eq, Structural)]
pub struct Point3 {
    pub x: i64,
    pub y: i64,
    pub z: i64,
}

/// An undirected piece of a cross-section.
#[derive(Clone, Copy, Debug, PartialEq, Eq, Structural)]
pub struct Segment {
    pub a: Point2,
    pub b: Point2,
}

/// A triangle, given by three vertex indices.
#[derive(Clone, Copy, Debug, PartialEq, Eq, Structural)]
pub struct Face {
    pub a: usize,
    pub b: usize,
    pub c: usize,
}

/// Why a vertex/face list does not make a mesh.
#[derive(Clone, Copy, Debug, PartialEq, Eq, Structural)]
pub enum MeshFault {
    NoFaces,
    FaceIndexOutOfRange,
    CoordinateOutOfRange,
}

impl Point2 {
    pub open spec fn bounded(self) -> bool {
        coord_ok(self.x as int) && coord_ok(self.y as int)
    }
}

impl Point3 {
    pub open spec fn bounded(self) -> bool {
        coord_ok(self.x as int) && coord_ok(self.y as int) && coord_ok(self.z as int)
    }
}

impl Segment {
    pub open spec fn bounded(self) -> bool {
        self.a.bounded() && self.b.bounded()
    }

    pub open spec fn degenerate(self) -> bool {
        self.a == self.b
    }
}

impl Face {
    pub open spec fn fits(self, n: int) -> bool {
        self.a < n && self.b < n && self.c < n
    }
}

/// A triangle mesh: vertex positions and faces that index into them.
pub struct Mesh {
    pub vertices: Vec<Point3>,
    pub faces: Vec<Face>,
}

pub open spec fn all_bounded(vs: Seq<Point3>) -> bool {
    forall|i: int| 0 <= i < vs.len() ==> (#[trigger] vs[i]).bounded()
}

pub open spec fn all_fit(fs: Seq<Face>, n: int) -> bool {
    forall|i: int| 0 <= i < fs.len() ==> (#[trigger] fs[i]).fits(n)
}

impl Mesh {
    /// Every face index names a vertex, every coordinate is within the limit,
    /// and there is at least one face.
    pub open spec fn wf(&self) -> bool {
        &&& self.faces.len() > 0
        &&& all_bounded(self.vertices@)
        &&& all_fit(self.faces@, self.vertices.len() as int)
    }

    /// Builds a mesh, refusing one without faces, with a face index out of
    /// range or with a coordinate beyond the limit (checked in that order).
    pub fn new(vertices: Vec<Point3>, faces: Vec<Face>) -> (r: Result<Mesh, MeshFault>)
        ensures
            match r {
                Ok(m) => m.wf() && m.vertices@ == vertices@ && m.faces@ == faces@,
                Err(e) => e == (if faces@.len() == 0 {
                    MeshFault::NoFaces
                } else if !all_fit(faces@, vertices@.len() as int) {
                    MeshFault::FaceIndexOutOfRange
                } else {
                    MeshFault::CoordinateOutOfRange
                }),
            },
            r is Ok <==> (faces@.len() > 0 && all_fit(faces@, vertices@.len() as int)
                && all_bounded(vertices@)),
    {
        if faces.len() == 0 {
            return Err(MeshFault::NoFaces);
        }
        let n = vertices.len();
        let mut i: usize = 0;
        while i < faces.len()
            invariant
                n == vertices.len(),
                i <= faces.len(),
                forall|j: int| 0 <= j < i ==> (#[trigger] faces@[j]).fits(n as int),
            decreases faces.len() - i,
        {
            let f = faces[i];
            if f.a >= n || f.b >= n || f.c >= n {
                return Err(MeshFault::FaceIndexOutOfRange);
            }
            i += 1;
        }
        let mut k: usize = 0;
        while k < vertices.len()
            invariant
                k <= vertices.len(),
                faces@.len() > 0,
                all_fit(faces@, vertices@.len() as int),
                forall|j: int| 0 <= j < k ==> (#[trigger] vertices@[j]).bounded(),
            decreases vertices.len() - k,
        {
            let v = vertices[k];
            if v.x < -COORD_LIMIT || v.x > COORD_LIMIT || v.y < -COORD_LIMIT || v.y > COORD_LIMIT
                || v.z < -COORD_LIMIT || v.z > COORD_LIMIT {
                return Err(MeshFault::CoordinateOutOfRange);
            }
            k += 1;
        }
        Ok(Mesh { vertices, faces })
    }
}

} // verus!
