//! Grid scoring: how consistently each grid cell's centre lies inside the
//! stacked contours.
use vstd::prelude::*;
use crate::geometry::{coord_ok, Point2, COORD_LIMIT};
use crate::slicer::{interp, interp_exec, lemma_interp_between};

verus! {

/// The scoring policies.
#[derive(Clone, Copy, Debug, PartialEq, Eq, Structural)]
pub enum Scoring {
    /// The number of contours that hold the point, all levels pooled.
    Pooled,
    /// The longest run of consecutive levels whose contours all hold the point.
    LevelAware,
    /// The pooled count first, then the longest run to break ties.
    LevelAwareRefined,
    /// As `LevelAwareRefined`, used on contours cut by the slab variant.
    ToleranceCoupled,
}

/// The axis-aligned extent of the mesh in the slicing plane.
#[derive(Clone, Copy, Debug, PartialEq, Eq, Structural)]
pub struct Rect {
    pub x_min: i64,
    pub x_max: i64,
    pub y_min: i64,
    pub y_max: i64,
}

impl Rect {
    pub open spec fn wf(self) -> bool {
        &&& coord_ok(self.x_min as int)
        &&& coord_ok(self.x_max as int)
        &&& coord_ok(self.y_min as int)
        &&& coord_ok(self.y_max as int)
        &&& self.x_min <= self.x_max
        &&& self.y_min <= self.y_max
    }

    pub fn new(x_min: i64, x_max: i64, y_min: i64, y_max: i64) -> (r: Rect)
        ensures
            r == (Rect { x_min, x_max, y_min, y_max }),
    {
        Rect { x_min, x_max, y_min, y_max }
    }
}

pub open spec fn poly_ok(poly: Seq<Point2>) -> bool {
    forall|i: int| 0 <= i < poly.len() ==> (#[trigger] poly[i]).bounded()
}

pub open spec fn contours_ok(cs: Seq<Vec<Point2>>) -> bool {
    forall|k: int| 0 <= k < cs.len() ==> poly_ok(#[trigger] cs[k]@)
}

/// The edge from `a` to `b` meets the ray that leaves `p` toward growing `x`;
/// an end exactly at the ray's height counts as lying below it.
pub open spec fn ray_crosses(a: Point2, b: Point2, p: Point2) -> bool {
    &&& (a.y > p.y) != (b.y > p.y)
    &&& if b.y > a.y {
        (p.x - a.x) * (b.y - a.y) < (b.x - a.x) * (p.y - a.y)
    } else {
        (p.x - a.x) * (b.y - a.y) > (b.x - a.x) * (p.y - a.y)
    }
}

/// The edge that leaves point `i` of a closed polygon.
pub open spec fn edge_end(poly: Seq<Point2>, i: int) -> Point2 {
    if i + 1 == poly.len() {
        poly[0]
    } else {
        poly[i + 1]
    }
}

/// How many of the first `k` edges of the polygon the ray from `p` meets.
pub open spec fn crossings(poly: Seq<Point2>, p: Point2, k: int) -> nat
    decreases k,
{
    if k <= 0 {
        0
    } else {
        crossings(poly, p, k - 1) + if ray_crosses(poly[k - 1], edge_end(poly, k - 1), p) {
            1nat
        } else {
            0nat
        }
    }
}

/// Even-odd rule: a point lies inside when the ray meets an odd number of edges.
pub open spec fn inside(poly: Seq<Point2>, p: Point2) -> bool {
    crossings(poly, p, poly.len() as int) % 2 == 1
}

fn edge_crosses(a: Point2, b: Point2, p: Point2) -> (r: bool)
    requires
        a.bounded(),
        b.bounded(),
        p.bounded(),
    ensures
        r == ray_crosses(a, b, p),
{
    if (a.y > p.y) == (b.y > p.y) {
        return false;
    }
    let dx = (p.x as i128) - (a.x as i128);
    let ey = (b.y as i128) - (a.y as i128);
    let ex = (b.x as i128) - (a.x as i128);
    let dy = (p.y as i128) - (a.y as i128);
    proof {
        assert(-0x4000_0000_0000_0000 <= dx * ey <= 0x4000_0000_0000_0000) by (nonlinear_arith)
            requires -0x8000_0000 <= dx <= 0x8000_0000, -0x8000_0000 <= ey <= 0x8000_0000;
        assert(-0x4000_0000_0000_0000 <= ex * dy <= 0x4000_0000_0000_0000) by (nonlinear_arith)
            requires -0x8000_0000 <= ex <= 0x8000_0000, -0x8000_0000 <= dy <= 0x8000_0000;
    }
    if b.y > a.y {
        dx * ey < ex * dy
    } else {
        dx * ey > ex * dy
    }
}

/// Whether `p` lies inside the closed polygon, as `inside` states it.
pub fn contains(poly: &Vec<Point2>, p: Point2) -> (r: bool)
    requires
        poly_ok(poly@),
        p.bounded(),
    ensures
        r == inside(poly@, p),
{
    let n = poly.len();
    let mut odd = false;
    let mut i: usize = 0;
    while i < n
        invariant
            n == poly@.len(),
            i <= n,
            poly_ok(poly@),
            p.bounded(),
            odd == (crossings(poly@, p, i as int) % 2 == 1),
        decreases n - i,
    {
        let a = poly[i];
        let b = if i + 1 == n { poly[0] } else { poly[i + 1] };
        if edge_crosses(a, b, p) {
            odd = !odd;
        }
        i += 1;
    }
    odd
}

/// How many of the first `k` contours hold `p`.
pub open spec fn coverage(cs: Seq<Vec<Point2>>, p: Point2, k: int) -> nat
    decreases k,
{
    if k <= 0 {
        0
    } else {
        coverage(cs, p, k - 1) + if inside(cs[k - 1]@, p) {
            1nat
        } else {
            0nat
        }
    }
}

/// Length of the run of contours holding `p` that ends with contour `k - 1`.
pub open spec fn run_end(cs: Seq<Vec<Point2>>, p: Point2, k: int) -> nat
    decreases k,
{
    if k <= 0 {
        0
    } else if inside(cs[k - 1]@, p) {
        run_end(cs, p, k - 1) + 1
    } else {
        0
    }
}

/// Longest run of consecutive contours, among the first `k`, that hold `p`.
pub open spec fn best_run(cs: Seq<Vec<Point2>>, p: Point2, k: int) -> nat
    decreases k,
{
    if k <= 0 {
        0
    } else if best_run(cs, p, k - 1) >= run_end(cs, p, k) {
        best_run(cs, p, k - 1)
    } else {
        run_end(cs, p, k)
    }
}

/// The score of a point under a policy, over all the contours.
pub open spec fn score_of(v: Scoring, cs: Seq<Vec<Point2>>, p: Point2) -> nat {
    let n = cs.len();
    match v {
        Scoring::Pooled => coverage(cs, p, n as int),
        Scoring::LevelAware => best_run(cs, p, n as int),
        _ => coverage(cs, p, n as int) * (n + 1) + best_run(cs, p, n as int),
    }
}

/// Counts over `k` contours are at most `k`, reach it exactly when every
/// contour holds the point, and stay below it otherwise.
pub proof fn lemma_counts_bounded(cs: Seq<Vec<Point2>>, p: Point2, k: int)
    requires
        0 <= k,
    ensures
        coverage(cs, p, k) <= k,
        run_end(cs, p, k) <= k,
        best_run(cs, p, k) <= k,
        (forall|i: int| 0 <= i < k ==> inside(#[trigger] cs[i]@, p)) ==> coverage(cs, p, k) == k
            && run_end(cs, p, k) == k && best_run(cs, p, k) == k,
        (exists|i: int| 0 <= i < k && !inside(#[trigger] cs[i]@, p)) ==> coverage(cs, p, k) < k
            && run_end(cs, p, k) < k && best_run(cs, p, k) < k,
    decreases k,
{
    if k > 0 {
        lemma_counts_bounded(cs, p, k - 1);
        if exists|i: int| 0 <= i < k && !inside(#[trigger] cs[i]@, p) {
            let i = choose|i: int| 0 <= i < k && !inside(#[trigger] cs[i]@, p);
            if i < k - 1 {
                assert(exists|i: int| 0 <= i < k - 1 && !inside(#[trigger] cs[i]@, p));
            }
        }
        if forall|i: int| 0 <= i < k ==> inside(#[trigger] cs[i]@, p) {
            assert(forall|i: int| 0 <= i < k - 1 ==> inside(#[trigger] cs[i]@, p));
            assert(inside(cs[k - 1]@, p));
        }
    }
}

/// A point that lies inside every contour scores strictly higher, under every
/// policy, than one that lies outside at least one of them.
pub proof fn lemma_full_coverage_scores_higher(v: Scoring, cs: Seq<Vec<Point2>>, pa: Point2, pb: Point2)
    requires
        cs.len() > 0,
        forall|k: int| 0 <= k < cs.len() ==> inside(#[trigger] cs[k]@, pa),
        exists|k: int| 0 <= k < cs.len() && !inside(#[trigger] cs[k]@, pb),
    ensures
        score_of(v, cs, pa) > score_of(v, cs, pb),
{
    let n = cs.len() as int;
    lemma_counts_bounded(cs, pa, n);
    lemma_counts_bounded(cs, pb, n);
    let cb = coverage(cs, pb, n) as int;
    let rb = best_run(cs, pb, n) as int;
    assert(cb * (n + 1) + rb < n * (n + 1) + n) by (nonlinear_arith)
        requires 0 <= cb < n, 0 <= rb <= n;
}

proof fn lemma_run_iff_covered(cs: Seq<Vec<Point2>>, p: Point2, k: int)
    requires
        0 <= k,
    ensures
        best_run(cs, p, k) > 0 <==> coverage(cs, p, k) > 0,
        run_end(cs, p, k) > 0 ==> coverage(cs, p, k) > 0,
    decreases k,
{
    if k > 0 {
        lemma_run_iff_covered(cs, p, k - 1);
    }
}

/// Under every policy a point scores above zero exactly when some contour
/// holds it, so the cells with a positive score are the covered cells.
pub proof fn lemma_positive_iff_covered(v: Scoring, cs: Seq<Vec<Point2>>, p: Point2)
    ensures
        score_of(v, cs, p) > 0 <==> coverage(cs, p, cs.len() as int) > 0,
{
    let n = cs.len() as int;
    lemma_run_iff_covered(cs, p, n);
    let c = coverage(cs, p, n) as int;
    let b = best_run(cs, p, n) as int;
    assert(c * (n + 1) + b > 0 <==> c > 0) by (nonlinear_arith)
        requires c >= 0, b >= 0, n >= 0, b > 0 <==> c > 0;
}

proof fn lemma_counts_monotone(cs: Seq<Vec<Point2>>, pa: Point2, pb: Point2, k: int)
    requires
        0 <= k <= cs.len(),
        forall|i: int| 0 <= i < cs.len() && inside(#[trigger] cs[i]@, pb) ==> inside(cs[i]@, pa),
    ensures
        coverage(cs, pa, k) >= coverage(cs, pb, k),
        run_end(cs, pa, k) >= run_end(cs, pb, k),
        best_run(cs, pa, k) >= best_run(cs, pb, k),
    decreases k,
{
    if k > 0 {
        lemma_counts_monotone(cs, pa, pb, k - 1);
        if inside(cs[k - 1]@, pb) {
            assert(inside(cs[k - 1]@, pa));
        }
    }
}

/// A point held by every contour that holds another (and perhaps more) never
/// scores lower than it, under every policy.
pub proof fn lemma_superset_scores_no_lower(v: Scoring, cs: Seq<Vec<Point2>>, pa: Point2, pb: Point2)
    requires
        forall|i: int| 0 <= i < cs.len() && inside(#[trigger] cs[i]@, pb) ==> inside(cs[i]@, pa),
    ensures
        score_of(v, cs, pa) >= score_of(v, cs, pb),
{
    let n = cs.len() as int;
    lemma_counts_monotone(cs, pa, pb, n);
    let ca = coverage(cs, pa, n) as int;
    let cb = coverage(cs, pb, n) as int;
    let ba = best_run(cs, pa, n) as int;
    let bb = best_run(cs, pb, n) as int;
    assert(ca * (n + 1) + ba >= cb * (n + 1) + bb) by (nonlinear_arith)
        requires ca >= cb, ba >= bb, n >= 0;
}

/// The score of one point under a policy, as `score_of` states it.
pub fn score_point(v: Scoring, cs: &Vec<Vec<Point2>>, p: Point2) -> (r: u64)
    requires
        contours_ok(cs@),
        p.bounded(),
        cs@.len() <= 65535,
    ensures
        r == score_of(v, cs@, p),
{
    let n = cs.len();
    let mut cover: u64 = 0;
    let mut run: u64 = 0;
    let mut best: u64 = 0;
    let mut k: usize = 0;
    while k < n
        invariant
            n == cs@.len(),
            n <= 65535,
            k <= n,
            contours_ok(cs@),
            p.bounded(),
            cover == coverage(cs@, p, k as int),
            run == run_end(cs@, p, k as int),
            best == best_run(cs@, p, k as int),
        decreases n - k,
    {
        proof {
            lemma_counts_bounded(cs@, p, k as int);
        }
        assert(poly_ok(cs@[k as int]@));
        if contains(&cs[k], p) {
            cover += 1;
            run += 1;
        } else {
            run = 0;
        }
        if run > best {
            best = run;
        }
        k += 1;
    }
    proof {
        lemma_counts_bounded(cs@, p, n as int);
    }
    match v {
        Scoring::Pooled => cover,
        Scoring::LevelAware => best,
        _ => {
            proof {
                assert(cover * (n + 1) + best <= 65535 * 65536 + 65535) by (nonlinear_arith)
                    requires cover <= n <= 65535, best <= n;
            }
            cover * (n as u64 + 1) + best
        },
    }
}

/// The centre of cell `c` of a `g` by `g` grid over the rectangle; cells are
/// numbered row by row, `c % g` along `x` and `c / g` along `y`. Coordinates
/// are rounded toward the lower edge.
pub open spec fn cell_point(rect: Rect, g: int, c: int) -> Point2 {
    Point2 {
        x: interp(rect.x_min as int, rect.x_max as int, 2 * (c % g) + 1, 2 * g) as i64,
        y: interp(rect.y_min as int, rect.y_max as int, 2 * (c / g) + 1, 2 * g) as i64,
    }
}

/// The centre of cell `c`, as `cell_point` states it.
pub fn cell_center(rect: Rect, g: u16, c: usize) -> (r: Point2)
    requires
        rect.wf(),
        g >= 1,
        c < g * g,
    ensures
        r == cell_point(rect, g as int, c as int),
        r.bounded(),
{
    let i = c % (g as usize);
    let j = c / (g as usize);
    proof {
        let gi = g as int;
        let ci = c as int;
        assert(ci / gi < gi) by (nonlinear_arith)
            requires 0 <= ci < gi * gi, gi >= 1;
        assert(ci % gi < gi);
    }
    let x = interp_exec(rect.x_min, rect.x_max, 2 * (i as i128) + 1, 2 * (g as i128));
    let y = interp_exec(rect.y_min, rect.y_max, 2 * (j as i128) + 1, 2 * (g as i128));
    Point2 { x, y }
}

/// The score of every cell of a `g` by `g` grid over the rectangle, by cell number.
pub fn score_grid(v: Scoring, cs: &Vec<Vec<Point2>>, rect: Rect, g: u16) -> (r: Vec<u64>)
    requires
        contours_ok(cs@),
        rect.wf(),
        cs@.len() <= 65535,
        g <= 32767,
    ensures
        r@.len() == g * g,
        forall|c: int| 0 <= c < r@.len() ==> r@[c] == score_of(v, cs@, cell_point(rect, g as int, c)),
{
    proof {
        assert(g * g <= 32767 * 32767) by (nonlinear_arith)
            requires 0 <= g <= 32767;
    }
    let total: usize = (g as usize) * (g as usize);
    let mut r: Vec<u64> = Vec::new();
    let mut c: usize = 0;
    while c < total
        invariant
            total == g * g,
            c <= total,
            contours_ok(cs@),
            rect.wf(),
            cs@.len() <= 65535,
            r@.len() == c,
            forall|d: int| 0 <= d < c ==> r@[d] == score_of(v, cs@, cell_point(rect, g as int, d)),
        decreases total - c,
    {
        proof {
            assert(g >= 1) by (nonlinear_arith)
                requires c < g * g, 0 <= c, 0 <= g;
        }
        let p = cell_center(rect, g, c);
        let s = score_point(v, cs, p);
        r.push(s);
        c += 1;
    }
    r
}

} // verus!
