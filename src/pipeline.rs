//! The whole pass from an aligned mesh to ranked candidates.
use vstd::prelude::*;
use crate::geometry::{coord_ok, Mesh, MeshFault, Point2, Point3, Segment};
use crate::slicer::{intersect, intersect_slab, lemma_level_bounds, level_num, slice_levels, slice_spec};
use crate::contour::{contour_of_walk, get_contour, is_walk, lemma_contour_of_walk_unique, lemma_walk_is_unique, usable};
use crate::scorer::{best_run, cell_center, cell_point, contours_ok, coverage, poly_ok, run_end, score_grid, score_of, Rect, Scoring};
use crate::rank::{is_ranking, lemma_ranking_is_unique, top_cells};

verus! {

/// The algorithm tags a caller can ask for.
#[derive(Clone, Copy, Debug, PartialEq, Eq, Structural)]
pub enum AlgoType {
    Grid2d,
    Grid2dV2,
    Grid2dV3,
    Grid2dV3a,
    /// Reserved; no scoring exists for it.
    Spectr,
}

/// The input formats a mesh may come in.
#[derive(Clone, Copy, Debug, PartialEq, Eq, Structural)]
pub enum InputFileType {
    Obj,
    Gltf,
    Glb,
}

/// Everything that can stop the pipeline.
#[derive(Clone, Debug)]
pub enum P3DError {
    /// The OBJ text could not be read; the reader's message.
    InvalidObject(String),
    /// The vertex and index lists do not make a mesh; the builder's message.
    MeshError(String),
    /// The principal-axis rotation is singular.
    MathError,
    UnsupportedFileType,
    /// The glTF container could not be read or holds no geometry.
    GltfError(String),
    /// The fixed-point mesh is not well formed.
    InvalidMesh(MeshFault),
    /// The algorithm tag has no scoring.
    UnsupportedAlgorithm,
}

/// One ranked result: the centre of a grid cell and its score.
#[derive(Clone, Copy, Debug, PartialEq, Eq, Structural)]
pub struct Candidate {
    pub x: i64,
    pub y: i64,
    pub score: u64,
}

/// The scoring policy of each tag; none for the reserved one.
pub open spec fn scoring_of(a: AlgoType) -> Option<Scoring> {
    match a {
        AlgoType::Grid2d => Some(Scoring::Pooled),
        AlgoType::Grid2dV2 => Some(Scoring::LevelAware),
        AlgoType::Grid2dV3 => Some(Scoring::LevelAwareRefined),
        AlgoType::Grid2dV3a => Some(Scoring::ToleranceCoupled),
        AlgoType::Spectr => None,
    }
}

/// Only the tolerance-coupled policy slices with the slab.
pub open spec fn uses_slab(a: AlgoType) -> bool {
    a == AlgoType::Grid2dV3a
}

/// The per-tag decision, as `scoring_of` states it.
pub fn scoring_for(a: AlgoType) -> (r: Option<Scoring>)
    ensures
        r == scoring_of(a),
{
    match a {
        AlgoType::Grid2d => Some(Scoring::Pooled),
        AlgoType::Grid2dV2 => Some(Scoring::LevelAware),
        AlgoType::Grid2dV3 => Some(Scoring::LevelAwareRefined),
        AlgoType::Grid2dV3a => Some(Scoring::ToleranceCoupled),
        AlgoType::Spectr => None,
    }
}

/// The smallest and the largest value of each coordinate over the vertices.
pub open spec fn is_extents(vs: Seq<Point3>, lo: Point3, hi: Point3) -> bool {
    &&& forall|i: int| 0 <= i < vs.len() ==> lo.x <= (#[trigger] vs[i]).x <= hi.x
        && lo.y <= vs[i].y <= hi.y && lo.z <= vs[i].z <= hi.z
    &&& exists|i: int| 0 <= i < vs.len() && (#[trigger] vs[i]).x == lo.x
    &&& exists|i: int| 0 <= i < vs.len() && (#[trigger] vs[i]).y == lo.y
    &&& exists|i: int| 0 <= i < vs.len() && (#[trigger] vs[i]).z == lo.z
    &&& exists|i: int| 0 <= i < vs.len() && (#[trigger] vs[i]).x == hi.x
    &&& exists|i: int| 0 <= i < vs.len() && (#[trigger] vs[i]).y == hi.y
    &&& exists|i: int| 0 <= i < vs.len() && (#[trigger] vs[i]).z == hi.z
}

/// The bounding extents of the mesh: its minimum and maximum corner.
pub fn extreme_coordinates(m: &Mesh) -> (r: (Point3, Point3))
    requires
        m.wf(),
    ensures
        is_extents(m.vertices@, r.0, r.1),
        r.0.bounded(),
        r.1.bounded(),
{
    let vs = &m.vertices;
    assert(m.faces@[0].fits(vs@.len() as int));
    let mut lo = vs[0];
    let mut hi = vs[0];
    let mut i: usize = 1;
    assert(vs@.take(1)[0] == vs@[0]);
    while i < vs.len()
        invariant
            1 <= i <= vs@.len(),
            crate::geometry::all_bounded(vs@),
            lo.bounded(),
            hi.bounded(),
            is_extents(vs@.take(i as int), lo, hi),
        decreases vs@.len() - i,
    {
        let v = vs[i];
        let ghost old_lo = lo;
        let ghost old_hi = hi;
        let ghost pre = vs@.take(i as int);
        if v.x < lo.x { lo.x = v.x; }
        if v.y < lo.y { lo.y = v.y; }
        if v.z < lo.z { lo.z = v.z; }
        if v.x > hi.x { hi.x = v.x; }
        if v.y > hi.y { hi.y = v.y; }
        if v.z > hi.z { hi.z = v.z; }
        proof {
            let t = vs@.take(i + 1);
            assert(t == pre.push(v));
            assert(vs@[i as int].bounded());
            assert forall|k: int| 0 <= k < t.len() implies lo.x <= (#[trigger] t[k]).x <= hi.x
                && lo.y <= t[k].y <= hi.y && lo.z <= t[k].z <= hi.z by {
                if k < pre.len() {
                    assert(pre[k] == t[k]);
                }
            }
            let w = choose|k: int| 0 <= k < pre.len() && (#[trigger] pre[k]).x == old_lo.x;
            assert(t[w] == pre[w]);
            assert(t[i as int] == v);
            let w = choose|k: int| 0 <= k < pre.len() && (#[trigger] pre[k]).y == old_lo.y;
            assert(t[w] == pre[w]);
            let w = choose|k: int| 0 <= k < pre.len() && (#[trigger] pre[k]).z == old_lo.z;
            assert(t[w] == pre[w]);
            let w = choose|k: int| 0 <= k < pre.len() && (#[trigger] pre[k]).x == old_hi.x;
            assert(t[w] == pre[w]);
            let w = choose|k: int| 0 <= k < pre.len() && (#[trigger] pre[k]).y == old_hi.y;
            assert(t[w] == pre[w]);
            let w = choose|k: int| 0 <= k < pre.len() && (#[trigger] pre[k]).z == old_hi.z;
            assert(t[w] == pre[w]);
        }
        i += 1;
    }
    assert(vs@.take(vs@.len() as int) == vs@);
    (lo, hi)
}

/// The segments that level `i` of `n` cuts, by the plane or by the slab whose
/// half-thickness is a hundredth of the level spacing, rounded up (so at least
/// one unit whenever the mesh has height).
pub open spec fn level_segments(m: &Mesh, slab: bool, z_min: int, z_max: int, n: int, i: int) -> Seq<Segment> {
    let l = level_num(z_min, z_max, n, i);
    if slab {
        slice_spec(m, l - (z_max - z_min + 99) / 100, n + 1)
    } else {
        slice_spec(m, l, n + 1)
    }
}

/// `cs` holds, bottom level first, the contour (as `get_contour` gives it) of
/// each level whose segments are not all of zero length; `which` gives the level of each contour.
pub open spec fn is_stack(m: &Mesh, slab: bool, z_min: int, z_max: int, n: int, which: Seq<int>, cs: Seq<Vec<Point2>>) -> bool {
    &&& which.len() == cs.len()
    &&& forall|k: int| 0 <= k < which.len() ==> 0 <= #[trigger] which[k] < n
    &&& forall|k: int, l: int| 0 <= k < l < which.len() ==> which[k] < which[l]
    &&& forall|k: int| 0 <= k < cs.len() ==> (#[trigger] cs[k])@.len() > 0
        && exists|idx: Seq<int>, w: Seq<Point2>| is_walk(level_segments(m, slab, z_min, z_max, n, which[k]), idx, w)
            && contour_of_walk(w, cs[k]@)
    &&& forall|i: int| 0 <= i < n && !which.contains(i)
        ==> forall|j: int| !usable(#[trigger] level_segments(m, slab, z_min, z_max, n, i), j)
}

/// The contours of the `n` slice levels between the lowest and the highest
/// vertex, as `is_stack` states it.
pub fn section_contours(m: &Mesh, slab: bool, z_min: i64, z_max: i64, n: u16) -> (r: Vec<Vec<Point2>>)
    requires
        m.wf(),
        coord_ok(z_min as int),
        coord_ok(z_max as int),
        z_min <= z_max,
    ensures
        exists|which: Seq<int>| is_stack(m, slab, z_min as int, z_max as int, n as int, which, r@),
        contours_ok(r@),
        r@.len() <= n,
{
    let levels = slice_levels(z_min, z_max, n);
    let margin: i64 = (z_max - z_min + 99) / 100;
    let scale: i64 = n as i64 + 1;
    let mut r: Vec<Vec<Point2>> = Vec::new();
    let ghost mut which: Seq<int> = Seq::empty();
    let mut i: usize = 0;
    while i < levels.len()
        invariant
            m.wf(),
            coord_ok(z_min as int),
            coord_ok(z_max as int),
            z_min <= z_max,
            levels@.len() == n,
            forall|j: int| 0 <= j < n ==> levels@[j] == level_num(z_min as int, z_max as int, n as int, j),
            margin == (z_max - z_min + 99) / 100,
            scale == n + 1,
            i <= n,
            which.len() == r@.len(),
            r@.len() <= i,
            forall|k: int| 0 <= k < which.len() ==> 0 <= #[trigger] which[k] < i,
            forall|k: int, l: int| 0 <= k < l < which.len() ==> which[k] < which[l],
            forall|k: int| 0 <= k < r@.len() ==> (#[trigger] r@[k])@.len() > 0
                && exists|idx: Seq<int>, w: Seq<Point2>| is_walk(level_segments(m, slab, z_min as int, z_max as int, n as int, which[k]), idx, w)
                    && contour_of_walk(w, r@[k]@),
            forall|j: int| 0 <= j < i && !which.contains(j)
                ==> forall|jj: int| !usable(#[trigger] level_segments(m, slab, z_min as int, z_max as int, n as int, j), jj),
            contours_ok(r@),
        decreases n - i,
    {
        proof {
            lemma_level_bounds(z_min as int, z_max as int, n as int, i as int);
        }
        let level = levels[i];
        let segs = if slab {
            intersect_slab(m, level, scale, margin)
        } else {
            intersect(m, level, scale)
        };
        assert(segs@ == level_segments(m, slab, z_min as int, z_max as int, n as int, i as int));
        let c = get_contour(&segs);
        let ghost old_which = which;
        let ghost old_r = r@;
        if c.len() > 0 {
            r.push(c);
            proof {
                which = which.push(i as int);
                assert forall|k: int| 0 <= k < r@.len() implies (#[trigger] r@[k])@.len() > 0
                    && exists|idx: Seq<int>, w: Seq<Point2>| is_walk(level_segments(m, slab, z_min as int, z_max as int, n as int, which[k]), idx, w)
                    && contour_of_walk(w, r@[k]@) by {
                    if k < old_r.len() {
                        assert(r@[k] == old_r[k]);
                        assert(which[k] == old_which[k]);
                    } else {
                        assert(r@[k] == c);
                        assert(which[k] == i);
                    }
                }
                assert forall|j: int| 0 <= j < i + 1 && !which.contains(j)
                    implies forall|jj: int| !usable(#[trigger] level_segments(m, slab, z_min as int, z_max as int, n as int, j), jj) by {
                    assert(which[which.len() - 1] == i);
                    if old_which.contains(j) {
                        let w = choose|w: int| 0 <= w < old_which.len() && old_which[w] == j;
                        assert(which[w] == j);
                    }
                }
                assert forall|k: int| 0 <= k < r@.len() implies poly_ok(#[trigger] r@[k]@) by {
                    if k < old_r.len() {
                        assert(r@[k] == old_r[k]);
                    }
                }
            }
        } else {
            proof {
                assert forall|j: int| 0 <= j < i + 1 && !which.contains(j)
                    implies forall|jj: int| !usable(#[trigger] level_segments(m, slab, z_min as int, z_max as int, n as int, j), jj) by {
                }
            }
        }
        i += 1;
    }
    assert(is_stack(m, slab, z_min as int, z_max as int, n as int, which, r@));
    r
}

/// The score of every cell, by cell number.
pub open spec fn grid_scores(v: Scoring, cs: Seq<Vec<Point2>>, rect: Rect, g: int) -> Seq<u64> {
    Seq::new((g * g) as nat, |c: int| score_of(v, cs, cell_point(rect, g, c)) as u64)
}

pub open spec fn candidate_at(v: Scoring, cs: Seq<Vec<Point2>>, rect: Rect, g: int, c: int) -> Candidate {
    Candidate {
        x: cell_point(rect, g, c).x,
        y: cell_point(rect, g, c).y,
        score: grid_scores(v, cs, rect, g)[c],
    }
}

/// `r` is the candidate list of the cells that `is_ranking` picks.
pub open spec fn is_ranked(r: Seq<Candidate>, v: Scoring, cs: Seq<Vec<Point2>>, rect: Rect, g: int, depth: int) -> bool {
    exists|cells: Seq<usize>| {
        &&& is_ranking(grid_scores(v, cs, rect, g), depth, cells)
        &&& r.len() == cells.len()
        &&& forall|i: int| 0 <= i < r.len() ==> #[trigger] r[i] == candidate_at(v, cs, rect, g, cells[i] as int)
    }
}

/// The `depth` best cells of a `g` by `g` grid over the rectangle, best first.
pub fn rank_candidates(v: Scoring, cs: &Vec<Vec<Point2>>, rect: Rect, g: u16, depth: usize) -> (r: Vec<Candidate>)
    requires
        contours_ok(cs@),
        rect.wf(),
        cs@.len() <= 65535,
        g <= 32767,
    ensures
        is_ranked(r@, v, cs@, rect, g as int, depth as int),
{
    let scores = score_grid(v, cs, rect, g);
    assert(scores@ == grid_scores(v, cs@, rect, g as int));
    let cells = top_cells(&scores, depth);
    let mut r: Vec<Candidate> = Vec::new();
    let mut i: usize = 0;
    while i < cells.len()
        invariant
            i <= cells@.len(),
            rect.wf(),
            scores@ == grid_scores(v, cs@, rect, g as int),
            is_ranking(scores@, depth as int, cells@),
            r@.len() == i,
            forall|k: int| 0 <= k < i ==> #[trigger] r@[k] == candidate_at(v, cs@, rect, g as int, cells@[k] as int),
        decreases cells@.len() - i,
    {
        let c = cells[i];
        assert(crate::rank::eligible(scores@, cells@[i as int] as int));
        proof {
            assert(g >= 1) by (nonlinear_arith)
                requires c < g * g, 0 <= c, 0 <= g;
        }
        let p = cell_center(rect, g, c);
        r.push(Candidate { x: p.x, y: p.y, score: scores[c] });
        i += 1;
    }
    r
}

/// `r` is what the pipeline returns when `lo`, `hi` are the mesh's extents and
/// `cs` the contour stack of its levels.
pub open spec fn result_from(m: &Mesh, algo: AlgoType, depth: int, g: int, n: int, r: Seq<Candidate>,
    lo: Point3, hi: Point3, which: Seq<int>, cs: Seq<Vec<Point2>>) -> bool {
    &&& is_extents(m.vertices@, lo, hi)
    &&& is_stack(m, uses_slab(algo), lo.z as int, hi.z as int, n, which, cs)
    &&& is_ranked(r, scoring_of(algo)->0, cs, (Rect { x_min: lo.x, x_max: hi.x, y_min: lo.y, y_max: hi.y }), g, depth)
}

/// `r` is a result of the pipeline on these inputs.
pub open spec fn is_result(m: &Mesh, algo: AlgoType, depth: int, g: int, n: int, r: Seq<Candidate>) -> bool {
    exists|lo: Point3, hi: Point3, which: Seq<int>, cs: Seq<Vec<Point2>>|
        result_from(m, algo, depth, g, n, r, lo, hi, which, cs)
}

/// Slices the aligned mesh at `n_sections` levels, assembles a contour per level,
/// scores a `grid_size` by `grid_size` grid over the mesh's extent and returns
/// the `depth` best cells. Fails only on the reserved tag.
pub fn process_mesh(m: &Mesh, algo: AlgoType, depth: usize, grid_size: u16, n_sections: u16) -> (r: Result<Vec<Candidate>, P3DError>)
    requires
        m.wf(),
        grid_size <= 32767,
    ensures
        r is Err <==> scoring_of(algo) is None,
        r is Err ==> r->Err_0 is UnsupportedAlgorithm,
        r is Ok ==> is_result(m, algo, depth as int, grid_size as int, n_sections as int, r->Ok_0@),
{
    let v = match scoring_for(algo) {
        None => return Err(P3DError::UnsupportedAlgorithm),
        Some(v) => v,
    };
    let (lo, hi) = extreme_coordinates(m);
    proof {
        assert(m.faces@[0].fits(m.vertices@.len() as int));
        assert(lo.x <= m.vertices@[0].x <= hi.x);
    }
    let slab = match algo {
        AlgoType::Grid2dV3a => true,
        _ => false,
    };
    let cs = section_contours(m, slab, lo.z, hi.z, n_sections);
    let rect = Rect::new(lo.x, hi.x, lo.y, hi.y);
    let r = rank_candidates(v, &cs, rect, grid_size, depth);
    proof {
        let which = choose|w: Seq<int>| is_stack(m, slab, lo.z as int, hi.z as int, n_sections as int, w, cs@);
        assert(slab == uses_slab(algo));
        assert(v == scoring_of(algo)->0);
        assert(result_from(m, algo, depth as int, grid_size as int, n_sections as int, r@, lo, hi, which, cs@));
    }
    Ok(r)
}

/// How many positions and indices one primitive of a scene supplies.
#[derive(Clone, Copy, Debug, PartialEq, Eq, Structural)]
pub struct PrimitiveCounts {
    pub positions: usize,
    pub indices: usize,
}

/// Primitive `k` supplies both positions and indices on its own.
pub open spec fn has_geometry(ps: Seq<PrimitiveCounts>, k: int) -> bool {
    ps[k].positions > 0 && ps[k].indices > 0
}

/// The first primitive, in scene order, that has both positions and indices;
/// `None` when no single primitive has both (a scene without geometry).
pub fn first_geometry(ps: &Vec<PrimitiveCounts>) -> (r: Option<usize>)
    ensures
        match r {
            Some(k) => k < ps@.len() && has_geometry(ps@, k as int)
                && forall|j: int| 0 <= j < k ==> !has_geometry(ps@, j),
            None => forall|j: int| 0 <= j < ps@.len() ==> !has_geometry(ps@, j),
        },
{
    let mut k: usize = 0;
    while k < ps.len()
        invariant
            k <= ps@.len(),
            forall|j: int| 0 <= j < k ==> !has_geometry(ps@, j),
        decreases ps@.len() - k,
    {
        if ps[k].positions > 0 && ps[k].indices > 0 {
            return Some(k);
        }
        k += 1;
    }
    None
}

/// The optional extra rotation in exact rational form: the axis components in
/// units of 1/256 and the angle in degrees in units of 1/65536.
#[derive(Clone, Copy, Debug, PartialEq, Eq, Structural)]
pub struct AxisAngle {
    pub ax: u32,
    pub ay: u32,
    pub az: u32,
    pub angle: u32,
}

/// Decodes the four packed bytes: each axis component is `byte * 45 / 256`
/// and the angle is `byte * 45 / 256 * 360 / 256` degrees.
pub fn decode_rotation(b: [u8; 4]) -> (r: AxisAngle)
    ensures
        r.ax == b@[0] * 45,
        r.ay == b@[1] * 45,
        r.az == b@[2] * 45,
        r.angle == b@[3] * 45 * 360,
{
    AxisAngle {
        ax: b[0] as u32 * 45,
        ay: b[1] as u32 * 45,
        az: b[2] as u32 * 45,
        angle: b[3] as u32 * 45 * 360,
    }
}

proof fn lemma_extents_unique(vs: Seq<Point3>, lo1: Point3, hi1: Point3, lo2: Point3, hi2: Point3)
    requires
        is_extents(vs, lo1, hi1),
        is_extents(vs, lo2, hi2),
    ensures
        lo1 == lo2,
        hi1 == hi2,
{
    let w = choose|i: int| 0 <= i < vs.len() && (#[trigger] vs[i]).x == lo1.x;
    let w = choose|i: int| 0 <= i < vs.len() && (#[trigger] vs[i]).x == lo2.x;
    let w = choose|i: int| 0 <= i < vs.len() && (#[trigger] vs[i]).y == lo1.y;
    let w = choose|i: int| 0 <= i < vs.len() && (#[trigger] vs[i]).y == lo2.y;
    let w = choose|i: int| 0 <= i < vs.len() && (#[trigger] vs[i]).z == lo1.z;
    let w = choose|i: int| 0 <= i < vs.len() && (#[trigger] vs[i]).z == lo2.z;
    let w = choose|i: int| 0 <= i < vs.len() && (#[trigger] vs[i]).x == hi1.x;
    let w = choose|i: int| 0 <= i < vs.len() && (#[trigger] vs[i]).x == hi2.x;
    let w = choose|i: int| 0 <= i < vs.len() && (#[trigger] vs[i]).y == hi1.y;
    let w = choose|i: int| 0 <= i < vs.len() && (#[trigger] vs[i]).y == hi2.y;
    let w = choose|i: int| 0 <= i < vs.len() && (#[trigger] vs[i]).z == hi1.z;
    let w = choose|i: int| 0 <= i < vs.len() && (#[trigger] vs[i]).z == hi2.z;
}

/// Strictly increasing.
pub open spec fn increasing(a: Seq<int>) -> bool {
    forall|k: int, l: int| 0 <= k < l < a.len() ==> a[k] < a[l]
}

proof fn lemma_increasing_same_members(a: Seq<int>, b: Seq<int>, k: int)
    requires
        increasing(a),
        increasing(b),
        forall|x: int| a.contains(x) <==> b.contains(x),
        0 <= k <= a.len(),
        k <= b.len(),
    ensures
        forall|i: int| 0 <= i < k ==> a[i] == b[i],
    decreases k,
{
    if k > 0 {
        lemma_increasing_same_members(a, b, k - 1);
        let i = k - 1;
        assert(a.contains(a[i]));
        assert(b.contains(b[i]));
        let j = choose|j: int| 0 <= j < b.len() && b[j] == a[i];
        let h = choose|h: int| 0 <= h < a.len() && a[h] == b[i];
        if j < i {
            assert(a[j] == b[j]);
        }
        if h < i {
            assert(a[h] == b[h]);
        }
    }
}

proof fn lemma_increasing_equal(a: Seq<int>, b: Seq<int>)
    requires
        increasing(a),
        increasing(b),
        forall|x: int| a.contains(x) <==> b.contains(x),
    ensures
        a == b,
{
    if a.len() <= b.len() {
        lemma_increasing_same_members(a, b, a.len() as int);
        if a.len() < b.len() {
            let x = b[a.len() as int];
            assert(b.contains(x));
            let j = choose|j: int| 0 <= j < a.len() && a[j] == x;
            assert(a[j] == b[j]);
        }
    } else {
        lemma_increasing_same_members(a, b, b.len() as int);
        let x = a[b.len() as int];
        assert(a.contains(x));
        let j = choose|j: int| 0 <= j < b.len() && b[j] == x;
        assert(a[j] == b[j]);
    }
    assert(a =~= b);
}

proof fn lemma_stack_members(m: &Mesh, slab: bool, z_min: int, z_max: int, n: int, which: Seq<int>, cs: Seq<Vec<Point2>>, x: int)
    requires
        is_stack(m, slab, z_min, z_max, n, which, cs),
    ensures
        which.contains(x) <==> (0 <= x < n
            && exists|j: int| usable(level_segments(m, slab, z_min, z_max, n, x), j)),
{
    if which.contains(x) {
        let k = choose|k: int| 0 <= k < which.len() && which[k] == x;
        assert(cs[k]@.len() > 0);
        let (idx, w) = choose|idx: Seq<int>, w: Seq<Point2>| is_walk(level_segments(m, slab, z_min, z_max, n, which[k]), idx, w)
            && contour_of_walk(w, cs[k]@);
        assert(usable(level_segments(m, slab, z_min, z_max, n, x), idx[0]));
    }
}

proof fn lemma_stack_unique(m: &Mesh, slab: bool, z_min: int, z_max: int, n: int,
    w1: Seq<int>, cs1: Seq<Vec<Point2>>, w2: Seq<int>, cs2: Seq<Vec<Point2>>)
    requires
        is_stack(m, slab, z_min, z_max, n, w1, cs1),
        is_stack(m, slab, z_min, z_max, n, w2, cs2),
    ensures
        cs1.len() == cs2.len(),
        forall|k: int| 0 <= k < cs1.len() ==> (#[trigger] cs1[k])@ == cs2[k]@,
{
    assert forall|x: int| w1.contains(x) <==> w2.contains(x) by {
        lemma_stack_members(m, slab, z_min, z_max, n, w1, cs1, x);
        lemma_stack_members(m, slab, z_min, z_max, n, w2, cs2, x);
    }
    lemma_increasing_equal(w1, w2);
    assert forall|k: int| 0 <= k < cs1.len() implies (#[trigger] cs1[k])@ == cs2[k]@ by {
        let segs = level_segments(m, slab, z_min, z_max, n, w1[k]);
        let (i1, v1) = choose|idx: Seq<int>, w: Seq<Point2>| is_walk(segs, idx, w) && contour_of_walk(w, cs1[k]@);
        let (i2, v2) = choose|idx: Seq<int>, w: Seq<Point2>| is_walk(level_segments(m, slab, z_min, z_max, n, w2[k]), idx, w)
            && contour_of_walk(w, cs2[k]@);
        lemma_walk_is_unique(segs, i1, v1, i2, v2);
        lemma_contour_of_walk_unique(v1, cs1[k]@, cs2[k]@);
    }
}

proof fn lemma_counts_agree(cs1: Seq<Vec<Point2>>, cs2: Seq<Vec<Point2>>, p: Point2, k: int)
    requires
        0 <= k <= cs1.len(),
        cs1.len() == cs2.len(),
        forall|i: int| 0 <= i < cs1.len() ==> (#[trigger] cs1[i])@ == cs2[i]@,
    ensures
        coverage(cs1, p, k) == coverage(cs2, p, k),
        run_end(cs1, p, k) == run_end(cs2, p, k),
        best_run(cs1, p, k) == best_run(cs2, p, k),
    decreases k,
{
    if k > 0 {
        lemma_counts_agree(cs1, cs2, p, k - 1);
        assert(cs1[k - 1]@ == cs2[k - 1]@);
    }
}

/// The pipeline is deterministic: on the same mesh and parameters, any two
/// results that its contract admits are the same list.
pub proof fn lemma_process_deterministic(m: &Mesh, algo: AlgoType, depth: int, g: int, n: int,
    r1: Seq<Candidate>, r2: Seq<Candidate>)
    requires
        is_result(m, algo, depth, g, n, r1),
        is_result(m, algo, depth, g, n, r2),
    ensures
        r1 == r2,
{
    let (lo1, hi1, w1, cs1) = choose|lo: Point3, hi: Point3, which: Seq<int>, cs: Seq<Vec<Point2>>|
        result_from(m, algo, depth, g, n, r1, lo, hi, which, cs);
    let (lo2, hi2, w2, cs2) = choose|lo: Point3, hi: Point3, which: Seq<int>, cs: Seq<Vec<Point2>>|
        result_from(m, algo, depth, g, n, r2, lo, hi, which, cs);
    lemma_extents_unique(m.vertices@, lo1, hi1, lo2, hi2);
    let slab = uses_slab(algo);
    lemma_stack_unique(m, slab, lo1.z as int, hi1.z as int, n, w1, cs1, w2, cs2);
    let v = scoring_of(algo)->0;
    let rect = Rect { x_min: lo1.x, x_max: hi1.x, y_min: lo1.y, y_max: hi1.y };
    let s1 = grid_scores(v, cs1, rect, g);
    let s2 = grid_scores(v, cs2, rect, g);
    assert forall|c: int| 0 <= c < s1.len() implies s1[c] == s2[c] by {
        lemma_counts_agree(cs1, cs2, cell_point(rect, g, c), cs1.len() as int);
    }
    assert(grid_scores(v, cs1, rect, g) =~= grid_scores(v, cs2, rect, g));
    let c1 = choose|cells: Seq<usize>| {
        &&& is_ranking(grid_scores(v, cs1, rect, g), depth, cells)
        &&& r1.len() == cells.len()
        &&& forall|i: int| 0 <= i < r1.len() ==> #[trigger] r1[i] == candidate_at(v, cs1, rect, g, cells[i] as int)
    };
    let c2 = choose|cells: Seq<usize>| {
        &&& is_ranking(grid_scores(v, cs2, rect, g), depth, cells)
        &&& r2.len() == cells.len()
        &&& forall|i: int| 0 <= i < r2.len() ==> #[trigger] r2[i] == candidate_at(v, cs2, rect, g, cells[i] as int)
    };
    lemma_ranking_is_unique(grid_scores(v, cs1, rect, g), depth, c1, c2);
    assert forall|i: int| 0 <= i < r1.len() implies r1[i] == r2[i] by {
        assert(r1[i] == candidate_at(v, cs1, rect, g, c1[i] as int));
        assert(r2[i] == candidate_at(v, cs2, rect, g, c2[i] as int));
    }
    assert(r1 =~= r2);
}

} // verus!
