//! Slice levels and plane/triangle intersection.
//!
//! Level `i` of `n` sections between `z_min` and `z_max` lies at
//! `z_min + (i + 1) * (z_max - z_min) / (n + 1)`. To keep it exact, a level is
//! held as its numerator over the scale `n + 1`, and mesh heights are
//! multiplied by that scale before they are compared with it.
use vstd::prelude::*;
use vstd::arithmetic::div_mod::lemma_div_is_ordered;
use vstd::arithmetic::div_mod::lemma_div_multiples_vanish;
use crate::geometry::{coord_ok, Mesh, Point2, Point3, Segment, Face};

verus! {

/// Numerator, over `n + 1`, of the height of level `i`.
pub open spec fn level_num(z_min: int, z_max: int, n: int, i: int) -> int {
    (n + 1) * z_min + (i + 1) * (z_max - z_min)
}

/// The `n` interior slice levels between `z_min` and `z_max`, each as its
/// numerator over `n + 1`.
pub fn slice_levels(z_min: i64, z_max: i64, n: u16) -> (r: Vec<i64>)
    requires
        coord_ok(z_min as int),
        coord_ok(z_max as int),
        z_min <= z_max,
    ensures
        r@.len() == n as int,
        forall|i: int| 0 <= i < n ==> r@[i] == level_num(z_min as int, z_max as int, n as int, i),
{
    let mut r: Vec<i64> = Vec::new();
    let scale: i64 = n as i64 + 1;
    let span: i64 = z_max - z_min;
    let mut i: u16 = 0;
    while i < n
        invariant
            i <= n,
            scale == n + 1,
            span == z_max - z_min,
            coord_ok(z_min as int),
            coord_ok(z_max as int),
            z_min <= z_max,
            r@.len() == i as int,
            forall|j: int| 0 <= j < i ==> r@[j] == level_num(z_min as int, z_max as int, n as int, j),
        decreases n - i,
    {
        proof {
            lemma_level_bounds(z_min as int, z_max as int, n as int, i as int);
        }
        let v: i64 = scale * z_min + (i as i64 + 1) * span;
        r.push(v);
        i += 1;
    }
    r
}

/// Level numerators fit comfortably in 64 bits.
pub proof fn lemma_level_bounds(z_min: int, z_max: int, n: int, i: int)
    requires
        coord_ok(z_min),
        coord_ok(z_max),
        z_min <= z_max,
        0 <= i < n <= 65535,
    ensures
        -0x1_0000_0000_0000 <= (n + 1) * z_min <= 0x1_0000_0000_0000,
        0 <= (i + 1) * (z_max - z_min) <= 0x2_0000_0000_0000,
{
    assert(-0x1_0000_0000_0000 <= (n + 1) * z_min <= 0x1_0000_0000_0000) by (nonlinear_arith)
        requires -0x4000_0000 <= z_min <= 0x4000_0000, 0 < n + 1 <= 65536;
    assert(0 <= (i + 1) * (z_max - z_min) <= 0x2_0000_0000_0000) by (nonlinear_arith)
        requires 0 <= z_max - z_min <= 0x8000_0000, 0 < i + 1 <= 65536;
}

/// Every level lies strictly between the two extremes when they differ.
pub proof fn lemma_levels_interior(z_min: int, z_max: int, n: int, i: int)
    requires
        z_min < z_max,
        0 <= i < n,
    ensures
        (n + 1) * z_min < level_num(z_min, z_max, n, i) < (n + 1) * z_max,
        i + 1 < n ==> level_num(z_min, z_max, n, i) < level_num(z_min, z_max, n, i + 1),
{
    assert((n + 1) * z_min < level_num(z_min, z_max, n, i) < (n + 1) * z_max) by (nonlinear_arith)
        requires z_min < z_max, 0 <= i < n;
    assert(level_num(z_min, z_max, n, i + 1) == level_num(z_min, z_max, n, i) + (z_max - z_min))
        by (nonlinear_arith);
}

/// The point at `num / den` of the way from `a` to `b`, rounded toward `a`.
pub open spec fn interp(a: int, b: int, num: int, den: int) -> int {
    if a <= b {
        a + (b - a) * num / den
    } else {
        a - (a - b) * num / den
    }
}

proof fn lemma_scaled_part(d: int, num: int, den: int)
    requires
        0 <= d,
        0 <= num <= den,
        0 < den,
    ensures
        0 <= d * num / den <= d,
{
    assert(0 <= d * num <= d * den) by (nonlinear_arith)
        requires d >= 0, 0 <= num <= den;
    lemma_div_is_ordered(0, d * num, den);
    lemma_div_is_ordered(d * num, d * den, den);
    lemma_div_multiples_vanish(d, den);
}

pub proof fn lemma_interp_between(a: int, b: int, num: int, den: int)
    requires
        0 <= num <= den,
        0 < den,
    ensures
        a <= b ==> a <= interp(a, b, num, den) <= b,
        b < a ==> b <= interp(a, b, num, den) <= a,
{
    if a <= b {
        lemma_scaled_part(b - a, num, den);
    } else {
        lemma_scaled_part(a - b, num, den);
    }
}

/// The interpolation that `crossing` states, on bounded coordinates.
pub(crate) fn interp_exec(a: i64, b: i64, num: i128, den: i128) -> (r: i64)
    requires
        coord_ok(a as int),
        coord_ok(b as int),
        0 < num <= den <= 0x10_0000_0000_0000,
    ensures
        r == interp(a as int, b as int, num as int, den as int),
        coord_ok(r as int),
{
    proof {
        lemma_interp_between(a as int, b as int, num as int, den as int);
    }
    if a <= b {
        let d: u128 = (b - a) as u128;
        proof {
            assert(d * num <= 0x8000_0000 * 0x10_0000_0000_0000) by (nonlinear_arith)
                requires 0 <= d <= 0x8000_0000, 0 < num <= 0x10_0000_0000_0000;
        }
        let t: u128 = d * (num as u128) / (den as u128);
        a + t as i64
    } else {
        let d: u128 = (a - b) as u128;
        proof {
            assert(d * num <= 0x8000_0000 * 0x10_0000_0000_0000) by (nonlinear_arith)
                requires 0 <= d <= 0x8000_0000, 0 < num <= 0x10_0000_0000_0000;
        }
        let t: u128 = d * (num as u128) / (den as u128);
        a - t as i64
    }
}

/// The height of a vertex multiplied by the scale.
fn scaled_z(p: Point3, scale: i64) -> (r: i64)
    requires
        p.bounded(),
        1 <= scale <= 65536,
    ensures
        r == p.z * scale,
        -0x1_0000_0000_0000 <= r <= 0x1_0000_0000_0000,
{
    proof {
        assert(-0x1_0000_0000_0000 <= p.z * scale <= 0x1_0000_0000_0000) by (nonlinear_arith)
            requires -0x4000_0000 <= p.z <= 0x4000_0000, 1 <= scale <= 65536;
    }
    p.z * scale
}

/// Whether a vertex lies below a level, as `below` states it.
fn is_below(p: Point3, level: i64, scale: i64) -> (r: bool)
    requires
        p.bounded(),
        level_ok(level as int, scale as int),
    ensures
        r == below(p, level as int, scale as int),
{
    scaled_z(p, scale) < level
}

/// A vertex lies below a level when its scaled height is smaller.
pub open spec fn below(p: Point3, level: int, scale: int) -> bool {
    p.z * scale < level
}

pub open spec fn crosses(p: Point3, q: Point3, level: int, scale: int) -> bool {
    below(p, level, scale) != below(q, level, scale)
}

/// Where the edge from `p` to `q` meets the level, measured from its lower end,
/// so that both faces of a shared edge give the same point.
pub open spec fn crossing(p: Point3, q: Point3, level: int, scale: int) -> Point2 {
    let lo = if below(p, level, scale) { p } else { q };
    let hi = if below(p, level, scale) { q } else { p };
    let num = level - lo.z * scale;
    let den = (hi.z - lo.z) * scale;
    Point2 {
        x: interp(lo.x as int, hi.x as int, num, den) as i64,
        y: interp(lo.y as int, hi.y as int, num, den) as i64,
    }
}

/// The piece of a triangle at a level: none when all three corners lie on one
/// side, otherwise the segment between its two crossing edges, taken in the
/// edge order `ab`, `bc`, `ca`.
pub open spec fn triangle_segment(p: Point3, q: Point3, s: Point3, level: int, scale: int) -> Option<Segment> {
    let c0 = crosses(p, q, level, scale);
    let c1 = crosses(q, s, level, scale);
    let c2 = crosses(s, p, level, scale);
    if c0 && c1 {
        Some(Segment { a: crossing(p, q, level, scale), b: crossing(q, s, level, scale) })
    } else if c1 && c2 {
        Some(Segment { a: crossing(q, s, level, scale), b: crossing(s, p, level, scale) })
    } else if c2 && c0 {
        Some(Segment { a: crossing(s, p, level, scale), b: crossing(p, q, level, scale) })
    } else {
        None
    }
}

pub open spec fn face_segment(m: &Mesh, f: Face, level: int, scale: int) -> Option<Segment> {
    triangle_segment(m.vertices@[f.a as int], m.vertices@[f.b as int], m.vertices@[f.c as int], level, scale)
}

/// The segments of the first `k` faces, in face order.
pub open spec fn slice_upto(m: &Mesh, level: int, scale: int, k: int) -> Seq<Segment>
    decreases k,
{
    if k <= 0 {
        Seq::empty()
    } else {
        let prev = slice_upto(m, level, scale, k - 1);
        match face_segment(m, m.faces@[k - 1], level, scale) {
            Some(s) => prev.push(s),
            None => prev,
        }
    }
}

pub open spec fn slice_spec(m: &Mesh, level: int, scale: int) -> Seq<Segment> {
    slice_upto(m, level, scale, m.faces@.len() as int)
}

pub open spec fn level_ok(level: int, scale: int) -> bool {
    1 <= scale <= 65536 && -0x8_0000_0000_0000 <= level <= 0x8_0000_0000_0000
}

proof fn lemma_slice_bounded(m: &Mesh, level: int, scale: int, k: int)
    requires
        m.wf(),
        level_ok(level, scale),
        0 <= k <= m.faces@.len(),
    ensures
        forall|i: int| 0 <= i < slice_upto(m, level, scale, k).len()
            ==> (#[trigger] slice_upto(m, level, scale, k)[i]).bounded(),
    decreases k,
{
    if k > 0 {
        lemma_slice_bounded(m, level, scale, k - 1);
        let f = m.faces@[k - 1];
        assert(f.fits(m.vertices@.len() as int));
        let p = m.vertices@[f.a as int];
        let q = m.vertices@[f.b as int];
        let s = m.vertices@[f.c as int];
        if crosses(p, q, level, scale) {
            lemma_crossing_bounded(p, q, level, scale);
        }
        if crosses(q, s, level, scale) {
            lemma_crossing_bounded(q, s, level, scale);
        }
        if crosses(s, p, level, scale) {
            lemma_crossing_bounded(s, p, level, scale);
        }
        let prev = slice_upto(m, level, scale, k - 1);
        assert forall|i: int| 0 <= i < slice_upto(m, level, scale, k).len()
            implies (#[trigger] slice_upto(m, level, scale, k)[i]).bounded() by {
            if i < prev.len() {
                assert(prev[i].bounded());
            }
        }
    }
}

proof fn lemma_crossing_bounded(p: Point3, q: Point3, level: int, scale: int)
    requires
        p.bounded(),
        q.bounded(),
        level_ok(level, scale),
        crosses(p, q, level, scale),
    ensures
        crossing(p, q, level, scale).bounded(),
{
    let lo = if below(p, level, scale) { p } else { q };
    let hi = if below(p, level, scale) { q } else { p };
    assert((hi.z - lo.z) * scale == hi.z * scale - lo.z * scale) by (nonlinear_arith);
    let num = level - lo.z * scale;
    let den = (hi.z - lo.z) * scale;
    lemma_interp_between(lo.x as int, hi.x as int, num, den);
    lemma_interp_between(lo.y as int, hi.y as int, num, den);
}

/// Crossing point of one edge, computed as `crossing` states it.
fn edge_crossing(p: Point3, q: Point3, level: i64, scale: i64) -> (r: Point2)
    requires
        p.bounded(),
        q.bounded(),
        level_ok(level as int, scale as int),
        crosses(p, q, level as int, scale as int),
    ensures
        r == crossing(p, q, level as int, scale as int),
        r.bounded(),
{
    let p_below = is_below(p, level, scale);
    let lo = if p_below { p } else { q };
    let hi = if p_below { q } else { p };
    let lz = scaled_z(lo, scale);
    let hz = scaled_z(hi, scale);
    proof {
        assert((hi.z - lo.z) * scale == hi.z * scale - lo.z * scale) by (nonlinear_arith);
    }
    let num: i128 = level as i128 - lz as i128;
    let den: i128 = hz as i128 - lz as i128;
    let x = interp_exec(lo.x, hi.x, num, den);
    let y = interp_exec(lo.y, hi.y, num, den);
    Point2 { x, y }
}

/// The segments that a horizontal plane cuts from the mesh, one for each face
/// with corners on both sides, in face order. A corner exactly on the plane
/// counts as above it, so a face lying in the plane gives no segment.
pub fn intersect(m: &Mesh, level: i64, scale: i64) -> (r: Vec<Segment>)
    requires
        m.wf(),
        level_ok(level as int, scale as int),
    ensures
        r@ == slice_spec(m, level as int, scale as int),
        forall|i: int| 0 <= i < r@.len() ==> (#[trigger] r@[i]).bounded(),
{
    let mut r: Vec<Segment> = Vec::new();
    let mut k: usize = 0;
    while k < m.faces.len()
        invariant
            m.wf(),
            level_ok(level as int, scale as int),
            k <= m.faces@.len(),
            r@ == slice_upto(m, level as int, scale as int, k as int),
        decreases m.faces@.len() - k,
    {
        let f = m.faces[k];
        assert(f.fits(m.vertices@.len() as int));
        let p = m.vertices[f.a];
        let q = m.vertices[f.b];
        let s = m.vertices[f.c];
        let bp = is_below(p, level, scale);
        let bq = is_below(q, level, scale);
        let bs = is_below(s, level, scale);
        let c0 = bp != bq;
        let c1 = bq != bs;
        let c2 = bs != bp;
        if c0 && c1 {
            let a = edge_crossing(p, q, level, scale);
            let b = edge_crossing(q, s, level, scale);
            r.push(Segment { a, b });
        } else if c1 && c2 {
            let a = edge_crossing(q, s, level, scale);
            let b = edge_crossing(s, p, level, scale);
            r.push(Segment { a, b });
        } else if c2 && c0 {
            let a = edge_crossing(s, p, level, scale);
            let b = edge_crossing(p, q, level, scale);
            r.push(Segment { a, b });
        }
        k += 1;
    }
    proof {
        lemma_slice_bounded(m, level as int, scale as int, m.faces@.len() as int);
    }
    r
}

/// The slab variant, for levels that meet flat faces. The slab
/// `[level - margin, level + margin]` is reduced to one contour by cutting it at
/// its lower face and reporting that cut for the level. Its effect is on faces
/// that lie flat at the level itself, as the faces of an aligned mesh often do.
/// Those faces are then above the cut and add nothing, and the faces around
/// them are cut across their height instead of along their rims. A face flat
/// exactly at the lower face is handled like any flat face by the plane rule
/// (its corners count as above), so it, too, gives no segment.
pub fn intersect_slab(m: &Mesh, level: i64, scale: i64, margin: i64) -> (r: Vec<Segment>)
    requires
        m.wf(),
        level_ok(level as int, scale as int),
        -0x4_0000_0000_0000 <= level <= 0x4_0000_0000_0000,
        0 <= margin <= 0x4_0000_0000_0000,
    ensures
        r@ == slice_spec(m, level - margin, scale as int),
        forall|i: int| 0 <= i < r@.len() ==> (#[trigger] r@[i]).bounded(),
{
    intersect(m, level - margin, scale)
}

} // verus!
