//! Assembly of the unordered segments of one level into an ordered contour.
use vstd::prelude::*;
use vstd::set_lib::{lemma_int_range, lemma_len_subset, set_int_range};
use crate::geometry::{Point2, Segment};

verus! {

pub open spec fn touches(s: Segment, p: Point2) -> bool {
    s.a == p || s.b == p
}

/// The end of `s` that is not `p`.
pub open spec fn other_end(s: Segment, p: Point2) -> Point2 {
    if s.a == p {
        s.b
    } else {
        s.a
    }
}

/// A segment of positive length; zero-length ones are artifacts and never used.
pub open spec fn usable(segs: Seq<Segment>, j: int) -> bool {
    0 <= j < segs.len() && !segs[j].degenerate()
}

/// Segment `j` may extend a walk whose used segments are `used` and whose
/// last point is `p`.
pub open spec fn extends(segs: Seq<Segment>, used: Seq<int>, p: Point2, j: int) -> bool {
    usable(segs, j) && !used.contains(j) && touches(segs[j], p)
}

/// Points `r` are the walk along segments `idx`: it starts with the first
/// usable segment in its stored direction, each later step takes the unused
/// segment of least index that touches the current end, and it stops where no
/// unused segment touches the end.
pub open spec fn is_walk(segs: Seq<Segment>, idx: Seq<int>, r: Seq<Point2>) -> bool {
    &&& idx.len() >= 1
    &&& r.len() == idx.len() + 1
    &&& usable(segs, idx[0])
    &&& forall|j: int| 0 <= j < idx[0] ==> !usable(segs, j)
    &&& r[0] == segs[idx[0]].a
    &&& r[1] == segs[idx[0]].b
    &&& forall|k: int| 1 <= k < idx.len() ==> {
        &&& #[trigger] extends(segs, idx.take(k), r[k], idx[k])
        &&& r[k + 1] == other_end(segs[idx[k]], r[k])
        &&& forall|j: int| 0 <= j < idx[k] ==> !#[trigger] extends(segs, idx.take(k), r[k], j)
    }
    &&& forall|j: int| !#[trigger] extends(segs, idx, r[r.len() - 1], j)
}

/// Least usable index, or `segs.len()` when there is none.
fn first_usable(segs: &Vec<Segment>) -> (r: usize)
    ensures
        r <= segs@.len(),
        r < segs@.len() ==> usable(segs@, r as int),
        forall|j: int| 0 <= j < r ==> !usable(segs@, j),
{
    let mut i: usize = 0;
    while i < segs.len()
        invariant
            i <= segs@.len(),
            forall|j: int| 0 <= j < i ==> !usable(segs@, j),
        decreases segs@.len() - i,
    {
        if segs[i].a != segs[i].b {
            return i;
        }
        i += 1;
    }
    i
}

/// Least index of a segment that extends the walk, if any.
fn next_segment(segs: &Vec<Segment>, used: &Vec<bool>, idx: Ghost<Seq<int>>, cur: Point2) -> (r: Option<usize>)
    requires
        used@.len() == segs@.len(),
        forall|j: int| 0 <= j < used@.len() ==> (used@[j] <==> idx@.contains(j)),
    ensures
        match r {
            Some(j) => extends(segs@, idx@, cur, j as int)
                && forall|i: int| 0 <= i < j ==> !extends(segs@, idx@, cur, i),
            None => forall|i: int| !#[trigger] extends(segs@, idx@, cur, i),
        },
{
    let mut i: usize = 0;
    while i < segs.len()
        invariant
            i <= segs@.len(),
            used@.len() == segs@.len(),
            forall|j: int| 0 <= j < used@.len() ==> (used@[j] <==> idx@.contains(j)),
            forall|j: int| 0 <= j < i ==> !extends(segs@, idx@, cur, j),
        decreases segs@.len() - i,
    {
        let s = segs[i];
        if !used[i] && s.a != s.b && (s.a == cur || s.b == cur) {
            return Some(i);
        }
        i += 1;
    }
    None
}

proof fn lemma_distinct_bound(idx: Seq<int>, n: int)
    requires
        idx.no_duplicates(),
        0 <= n,
        forall|k: int| 0 <= k < idx.len() ==> 0 <= #[trigger] idx[k] < n,
    ensures
        idx.len() <= n,
{
    idx.unique_seq_to_set();
    lemma_int_range(0, n);
    assert(idx.to_set().subset_of(set_int_range(0, n)));
    lemma_len_subset(idx.to_set(), set_int_range(0, n));
}

/// Lexicographic order on points: by `x`, then by `y`.
pub open spec fn pt_le(a: Point2, b: Point2) -> bool {
    a.x < b.x || (a.x == b.x && a.y <= b.y)
}

/// `out` is the cycle `c` started at `k`, the first occurrence of its least
/// point, run toward the lesser of that point's two neighbours (forward on a
/// tie), and closed by repeating its first point.
pub open spec fn canonical_at(c: Seq<Point2>, k: int, d: bool, out: Seq<Point2>) -> bool {
    let m = c.len() as int;
    &&& 0 <= k < m
    &&& forall|j: int| 0 <= j < m ==> pt_le(c[k], #[trigger] c[j])
    &&& forall|j: int| 0 <= j < k ==> #[trigger] c[j] != c[k]
    &&& d == pt_le(c[cyc_next(k, m)], c[cyc_prev(k, m)])
    &&& out.len() == m + 1
    &&& forall|i: int| 0 <= i <= m ==> #[trigger] out[i] == c[loop_pos(k, i, m, d)]
}

pub open spec fn is_canonical(c: Seq<Point2>, out: Seq<Point2>) -> bool {
    exists|k: int, d: bool| #[trigger] canonical_at(c, k, d, out)
}

/// A closed walk is reported in canonical form; an open one as it was walked.
pub open spec fn contour_of_walk(w: Seq<Point2>, out: Seq<Point2>) -> bool {
    if w[0] == w[w.len() - 1] {
        is_canonical(w.take(w.len() - 1), out)
    } else {
        out == w
    }
}

proof fn lemma_pos_in_range(k: int, i: int, m: int, d: bool)
    requires
        0 <= k < m,
        0 <= i <= m,
    ensures
        0 <= loop_pos(k, i, m, d) < m,
        i == m ==> loop_pos(k, i, m, d) == k,
        i == 1 ==> loop_pos(k, i, m, d) == if d { cyc_next(k, m) } else { cyc_prev(k, m) },
        i == m - 1 && m >= 2 ==> loop_pos(k, i, m, d) == if d { cyc_prev(k, m) } else { cyc_next(k, m) },
{
}

/// Rotates the closed walk `w` into canonical form.
fn canonicalize(w: &Vec<Point2>) -> (r: Vec<Point2>)
    requires
        w@.len() >= 2,
    ensures
        is_canonical(w@.take(w@.len() - 1), r@),
{
    let m = w.len() - 1;
    let ghost c = w@.take(m as int);
    let mut k: usize = 0;
    let mut j: usize = 1;
    while j < m
        invariant
            1 <= j <= m,
            m == w@.len() - 1,
            c == w@.take(m as int),
            0 <= k < j,
            forall|i: int| 0 <= i < j ==> pt_le(c[k as int], #[trigger] c[i]),
            forall|i: int| 0 <= i < k ==> #[trigger] c[i] != c[k as int],
        decreases m - j,
    {
        let p = w[j];
        let b = w[k];
        if p.x < b.x || (p.x == b.x && p.y < b.y) {
            k = j;
        }
        j += 1;
    }
    let nx = if k + 1 == m { w[0] } else { w[k + 1] };
    let pv = if k == 0 { w[m - 1] } else { w[k - 1] };
    let d = nx.x < pv.x || (nx.x == pv.x && nx.y <= pv.y);
    let mut r: Vec<Point2> = Vec::new();
    let mut i: usize = 0;
    let len = w.len();
    while i <= m
        invariant
            m == w@.len() - 1,
            len == w@.len(),
            m < len,
            c == w@.take(m as int),
            0 <= k < m,
            i <= m + 1,
            r@.len() == i,
            forall|t: int| 0 <= t < i ==> #[trigger] r@[t] == c[loop_pos(k as int, t, m as int, d)],
        decreases m + 1 - i,
    {
        proof {
            lemma_pos_in_range(k as int, i as int, m as int, d);
        }
        let at: usize = if d {
            if i < m - k { k + i } else { i - (m - k) }
        } else {
            if i <= k { k - i } else { m - (i - k) }
        };
        r.push(w[at]);
        i += 1;
    }
    assert(canonical_at(c, k as int, d, r@));
    r
}

proof fn lemma_canonical_unique(c: Seq<Point2>, o1: Seq<Point2>, o2: Seq<Point2>)
    requires
        is_canonical(c, o1),
        is_canonical(c, o2),
    ensures
        o1 == o2,
{
    let (k1, d1) = choose|k: int, d: bool| #[trigger] canonical_at(c, k, d, o1);
    let (k2, d2) = choose|k: int, d: bool| #[trigger] canonical_at(c, k, d, o2);
    assert(pt_le(c[k1], c[k2]));
    assert(pt_le(c[k2], c[k1]));
    if k1 < k2 {
        assert(c[k1] != c[k2]);
    } else if k2 < k1 {
        assert(c[k2] != c[k1]);
    }
    assert(o1 =~= o2);
}

/// Two canonical outputs of one closed walk, or of one open walk, are equal.
pub proof fn lemma_contour_of_walk_unique(w: Seq<Point2>, o1: Seq<Point2>, o2: Seq<Point2>)
    requires
        w.len() >= 2,
        contour_of_walk(w, o1),
        contour_of_walk(w, o2),
    ensures
        o1 == o2,
{
    if w[0] == w[w.len() - 1] {
        lemma_canonical_unique(w.take(w.len() - 1), o1, o2);
    }
}

/// The contour of one level: the walk from the first segment of positive
/// length, as `is_walk` states it, put in canonical form when it closes, so that
/// a closed loop comes out the same whatever the order of its segments; empty
/// when every segment has zero length.
pub fn get_contour(segs: &Vec<Segment>) -> (r: Vec<Point2>)
    ensures
        r@.len() == 0 <==> forall|j: int| !usable(segs@, j),
        r@.len() > 0 ==> exists|idx: Seq<int>, w: Seq<Point2>| is_walk(segs@, idx, w) && contour_of_walk(w, r@),
        (forall|j: int| 0 <= j < segs@.len() ==> (#[trigger] segs@[j]).bounded())
            ==> forall|k: int| 0 <= k < r@.len() ==> (#[trigger] r@[k]).bounded(),
{
    let n = segs.len();
    let first = first_usable(segs);
    if first == n {
        return Vec::new();
    }
    let mut used: Vec<bool> = Vec::new();
    let mut i: usize = 0;
    while i < n
        invariant
            i <= n,
            n == segs@.len(),
            first < n,
            used@.len() == i,
            forall|j: int| 0 <= j < i ==> (used@[j] <==> j == first),
        decreases n - i,
    {
        used.push(i == first);
        i += 1;
    }
    let ghost mut idx: Seq<int> = seq![first as int];
    let mut r: Vec<Point2> = Vec::new();
    r.push(segs[first].a);
    r.push(segs[first].b);
    let mut cur: Point2 = segs[first].b;
    assert(forall|j: int| 0 <= j < used@.len() ==> (used@[j] <==> idx.contains(j))) by {
        assert forall|j: int| 0 <= j < used@.len() implies (used@[j] <==> idx.contains(j)) by {
            if j == first {
                assert(idx[0] == j);
            }
        }
    }
    loop
        invariant
            n == segs@.len(),
            used@.len() == n,
            forall|j: int| 0 <= j < used@.len() ==> (used@[j] <==> idx.contains(j)),
            idx.no_duplicates(),
            forall|k: int| 0 <= k < idx.len() ==> 0 <= #[trigger] idx[k] < n,
            1 <= idx.len() <= n,
            idx[0] == first,
            usable(segs@, first as int),
            forall|j: int| 0 <= j < first ==> !usable(segs@, j),
            r@.len() == idx.len() + 1,
            r@[0] == segs@[first as int].a,
            r@[1] == segs@[first as int].b,
            cur == r@[r@.len() - 1],
            (forall|j: int| 0 <= j < segs@.len() ==> (#[trigger] segs@[j]).bounded())
                ==> forall|k: int| 0 <= k < r@.len() ==> (#[trigger] r@[k]).bounded(),
            forall|k: int| 1 <= k < idx.len() ==> {
                &&& #[trigger] extends(segs@, idx.take(k), r@[k], idx[k])
                &&& r@[k + 1] == other_end(segs@[idx[k]], r@[k])
                &&& forall|j: int| 0 <= j < idx[k] ==> !extends(segs@, idx.take(k), r@[k], j)
            },
        decreases n - idx.len(),
    {
        match next_segment(segs, &used, Ghost(idx), cur) {
            None => {
                assert(is_walk(segs@, idx, r@));
                let last = r[r.len() - 1];
                if r[0] == last {
                    let out = canonicalize(&r);
                    proof {
                        let (k, d) = choose|k: int, d: bool| #[trigger] canonical_at(r@.take(r@.len() - 1), k, d, out@);
                        let m = r@.len() - 1;
                        assert forall|t: int| 0 <= t < out@.len() implies (#[trigger] out@[t]).bounded()
                            || !(forall|jj: int| 0 <= jj < segs@.len() ==> (#[trigger] segs@[jj]).bounded()) by {
                            lemma_pos_in_range(k, t, m, d);
                            assert(out@[t] == r@.take(m)[loop_pos(k, t, m, d)]);
                        }
                        assert(contour_of_walk(r@, out@));
                    }
                    return out;
                }
                return r;
            },
            Some(j) => {
                let s = segs[j];
                let next = if s.a == cur { s.b } else { s.a };
                let ghost old_idx = idx;
                let ghost old_r = r@;
                proof {
                    idx = idx.push(j as int);
                    assert(idx.take(old_idx.len() as int) == old_idx);
                    assert forall|k: int| 1 <= k < old_idx.len() implies idx.take(k) == old_idx.take(k) by {}
                    assert forall|a: int, b: int| 0 <= a < b < idx.len() implies idx[a] != idx[b] by {
                        if b == old_idx.len() {
                            assert(old_idx.contains(idx[a]));
                        }
                    }
                    lemma_distinct_bound(idx, n as int);
                }
                used.set(j, true);
                r.push(next);
                cur = next;
                proof {
                    assert(idx[0] == old_idx[0]);
                    assert(r@[0] == old_r[0]);
                    assert(r@[1] == old_r[1]);
                    if forall|jj: int| 0 <= jj < segs@.len() ==> (#[trigger] segs@[jj]).bounded() {
                        assert(segs@[j as int].bounded());
                        assert forall|k: int| 0 <= k < r@.len() implies (#[trigger] r@[k]).bounded() by {
                            if k < old_r.len() {
                                assert(old_r[k].bounded());
                            }
                        }
                    }
                    assert forall|jj: int| 0 <= jj < used@.len() implies (used@[jj] <==> idx.contains(jj)) by {
                        if jj == j {
                            assert(idx[idx.len() - 1] == jj);
                        } else if old_idx.contains(jj) {
                            let w = choose|w: int| 0 <= w < old_idx.len() && old_idx[w] == jj;
                            assert(idx[w] == jj);
                        } else if idx.contains(jj) {
                            let w = choose|w: int| 0 <= w < idx.len() && idx[w] == jj;
                            if w < old_idx.len() {
                                assert(old_idx[w] == jj);
                            }
                        }
                    }
                    assert forall|k: int| 1 <= k < idx.len() implies {
                        &&& #[trigger] extends(segs@, idx.take(k), r@[k], idx[k])
                        &&& r@[k + 1] == other_end(segs@[idx[k]], r@[k])
                        &&& forall|jj: int| 0 <= jj < idx[k] ==> !extends(segs@, idx.take(k), r@[k], jj)
                    } by {
                        if k < old_idx.len() {
                            assert(idx.take(k) == old_idx.take(k));
                            assert(r@[k] == old_r[k]);
                            assert(r@[k + 1] == old_r[k + 1]);
                            assert(extends(segs@, old_idx.take(k), old_r[k], old_idx[k]));
                        } else {
                            assert(idx.take(k) == old_idx);
                            assert(r@[k] == old_r[old_r.len() - 1]);
                        }
                    }
                }
            },
        }
    }
}

/// Along a walk, each pair of consecutive points is joined by an input segment
/// of positive length, so a contour never jumps.
pub proof fn lemma_walk_has_no_gap(segs: Seq<Segment>, idx: Seq<int>, r: Seq<Point2>, k: int)
    requires
        is_walk(segs, idx, r),
        0 <= k < r.len() - 1,
    ensures
        usable(segs, idx[k]),
        touches(segs[idx[k]], r[k]),
        touches(segs[idx[k]], r[k + 1]),
{
    if k >= 1 {
        assert(extends(segs, idx.take(k), r[k], idx[k]));
    }
}

proof fn lemma_walk_prefix(segs: Seq<Segment>, idx1: Seq<int>, r1: Seq<Point2>, idx2: Seq<int>, r2: Seq<Point2>, k: int)
    requires
        is_walk(segs, idx1, r1),
        is_walk(segs, idx2, r2),
        1 <= k <= idx1.len(),
        k <= idx2.len(),
    ensures
        idx1.take(k) == idx2.take(k),
        forall|i: int| 0 <= i <= k ==> r1[i] == r2[i],
    decreases k,
{
    if k == 1 {
        if idx1[0] < idx2[0] {
            assert(!usable(segs, idx1[0]));
        } else if idx2[0] < idx1[0] {
            assert(!usable(segs, idx2[0]));
        }
        assert(idx1.take(1) =~= idx2.take(1));
    } else {
        lemma_walk_prefix(segs, idx1, r1, idx2, r2, k - 1);
        let j = k - 1;
        assert(extends(segs, idx1.take(j), r1[j], idx1[j]));
        assert(extends(segs, idx2.take(j), r2[j], idx2[j]));
        if idx1[j] < idx2[j] {
            assert(!extends(segs, idx2.take(j), r2[j], idx1[j]));
        } else if idx2[j] < idx1[j] {
            assert(!extends(segs, idx1.take(j), r1[j], idx2[j]));
        }
        assert(idx1.take(k) =~= idx1.take(j).push(idx1[j]));
        assert(idx2.take(k) =~= idx2.take(j).push(idx2[j]));
        assert(r1[k] == other_end(segs[idx1[j]], r1[j]));
        assert(r2[k] == other_end(segs[idx2[j]], r2[j]));
    }
}

proof fn lemma_walk_not_shorter(segs: Seq<Segment>, idx1: Seq<int>, r1: Seq<Point2>, idx2: Seq<int>, r2: Seq<Point2>)
    requires
        is_walk(segs, idx1, r1),
        is_walk(segs, idx2, r2),
        idx1.len() <= idx2.len(),
    ensures
        idx1.len() == idx2.len(),
{
    let n = idx1.len() as int;
    lemma_walk_prefix(segs, idx1, r1, idx2, r2, n);
    if n < idx2.len() {
        assert(idx1.take(n) =~= idx1);
        assert(extends(segs, idx2.take(n), r2[n], idx2[n]));
        assert(!extends(segs, idx1, r1[r1.len() - 1], idx2[n]));
    }
}

/// The walk is determined by the segments alone: the contour of a segment
/// list is the same on every run.
pub proof fn lemma_walk_is_unique(segs: Seq<Segment>, idx1: Seq<int>, r1: Seq<Point2>, idx2: Seq<int>, r2: Seq<Point2>)
    requires
        is_walk(segs, idx1, r1),
        is_walk(segs, idx2, r2),
    ensures
        r1 == r2,
{
    if idx1.len() <= idx2.len() {
        lemma_walk_not_shorter(segs, idx1, r1, idx2, r2);
    } else {
        lemma_walk_not_shorter(segs, idx2, r2, idx1, r1);
    }
    lemma_walk_prefix(segs, idx1, r1, idx2, r2, idx1.len() as int);
    assert(r1 =~= r2);
}

/// Position after `t` on a cycle of length `m`.
pub open spec fn cyc_next(t: int, m: int) -> int {
    if t + 1 == m {
        0
    } else {
        t + 1
    }
}

/// Position before `t` on a cycle of length `m`.
pub open spec fn cyc_prev(t: int, m: int) -> int {
    if t == 0 {
        m - 1
    } else {
        t - 1
    }
}

pub open spec fn joins(s: Segment, p: Point2, q: Point2) -> bool {
    (s.a == p && s.b == q) || (s.a == q && s.b == p)
}

pub open spec fn hits(e: Seq<int>, t: int) -> bool {
    exists|j: int| 0 <= j < e.len() && e[j] == t
}

/// The segments form one closed loop through the distinct points `q`, listed
/// in any order and each in either direction: segment `j` joins `q[e[j]]` to
/// the point after it, and `e` numbers every side of the loop exactly once.
pub open spec fn forms_loop(segs: Seq<Segment>, q: Seq<Point2>, e: Seq<int>) -> bool {
    &&& q.len() >= 3
    &&& segs.len() == q.len()
    &&& e.len() == q.len()
    &&& forall|i: int, j: int| 0 <= i < j < q.len() ==> q[i] != q[j]
    &&& forall|j: int| 0 <= j < e.len() ==> 0 <= #[trigger] e[j] < q.len()
    &&& forall|i: int, j: int| 0 <= i < j < e.len() ==> e[i] != e[j]
    &&& forall|t: int| 0 <= t < q.len() ==> #[trigger] hits(e, t)
    &&& forall|j: int| 0 <= j < segs.len()
        ==> joins(#[trigger] segs[j], q[e[j]], q[cyc_next(e[j], q.len() as int)])
}

/// The `i`-th position of a walk round the cycle from `s`, forward or backward.
pub open spec fn loop_pos(s: int, i: int, m: int, fwd: bool) -> int {
    if fwd {
        if s + i < m { s + i } else { s + i - m }
    } else {
        if s - i >= 0 { s - i } else { s - i + m }
    }
}

/// The side of the loop that leaves position `c` in the walk's direction.
pub open spec fn side_at(c: int, m: int, fwd: bool) -> int {
    if fwd {
        c
    } else {
        cyc_prev(c, m)
    }
}

proof fn lemma_touching_sides(segs: Seq<Segment>, q: Seq<Point2>, e: Seq<int>, j: int, c: int)
    requires
        forms_loop(segs, q, e),
        0 <= j < segs.len(),
        0 <= c < q.len(),
    ensures
        touches(segs[j], q[c]) <==> (e[j] == c || e[j] == cyc_prev(c, q.len() as int)),
        usable(segs, j),
        e[j] == c ==> other_end(segs[j], q[c]) == q[cyc_next(c, q.len() as int)],
        e[j] == cyc_prev(c, q.len() as int) ==> other_end(segs[j], q[c]) == q[e[j]],
{
    let m = q.len() as int;
    let t = e[j];
    let u = cyc_next(t, m);
    assert(joins(segs[j], q[t], q[u]));
    assert(q[t] != q[u]);
    if q[c] == q[t] && c != t {
        if c < t { assert(q[c] != q[t]); } else { assert(q[t] != q[c]); }
    }
    if q[c] == q[u] && c != u {
        if c < u { assert(q[c] != q[u]); } else { assert(q[u] != q[c]); }
    }
}

proof fn lemma_side_unique(segs: Seq<Segment>, q: Seq<Point2>, e: Seq<int>, a: int, b: int)
    requires
        forms_loop(segs, q, e),
        0 <= a < e.len(),
        0 <= b < e.len(),
        e[a] == e[b],
    ensures
        a == b,
{
    if a < b {
        assert(e[a] != e[b]);
    } else if b < a {
        assert(e[b] != e[a]);
    }
}

proof fn lemma_walk_step_usable(segs: Seq<Segment>, idx: Seq<int>, r: Seq<Point2>, k: int)
    requires
        is_walk(segs, idx, r),
        0 <= k < idx.len(),
    ensures
        usable(segs, idx[k]),
{
    if k > 0 {
        assert(extends(segs, idx.take(k), r[k], idx[k]));
    }
}

proof fn lemma_walk_follows_loop(segs: Seq<Segment>, q: Seq<Point2>, e: Seq<int>, idx: Seq<int>, r: Seq<Point2>,
    s: int, fwd: bool, k: int)
    requires
        forms_loop(segs, q, e),
        is_walk(segs, idx, r),
        0 <= s < q.len(),
        r[0] == q[s],
        e[idx[0]] == side_at(s, q.len() as int, fwd),
        r[1] == q[loop_pos(s, 1, q.len() as int, fwd)],
        1 <= k <= idx.len(),
        k <= q.len(),
    ensures
        forall|i: int| 0 <= i < k ==> e[#[trigger] idx[i]] == side_at(loop_pos(s, i, q.len() as int, fwd), q.len() as int, fwd),
        forall|i: int| 0 <= i <= k ==> #[trigger] r[i] == q[loop_pos(s, i, q.len() as int, fwd)],
    decreases k,
{
    let m = q.len() as int;
    if k > 1 {
        lemma_walk_follows_loop(segs, q, e, idx, r, s, fwd, k - 1);
        let i = k - 1;
        let c = loop_pos(s, i, m, fwd);
        let j = idx[i];
        assert(extends(segs, idx.take(i), r[i], j));
        lemma_touching_sides(segs, q, e, j, c);
        let used = side_at(loop_pos(s, i - 1, m, fwd), m, fwd);
        assert(e[idx[i - 1]] == used);
        assert(idx.take(i).contains(idx[i - 1])) by {
            assert(idx.take(i)[i - 1] == idx[i - 1]);
        }
        if e[j] == used {
            lemma_walk_step_usable(segs, idx, r, i - 1);
            lemma_side_unique(segs, q, e, idx[i - 1], j);
        }
        assert(e[j] == side_at(c, m, fwd));
        assert(r[k] == other_end(segs[j], r[i]));
    }
}

/// Whatever order the segments of one closed loop come in, and whichever way
/// each points, the walk goes once round the loop: it has one point more than
/// the loop, ends where it starts, and its points are exactly the loop's.
pub proof fn lemma_loop_walk(segs: Seq<Segment>, q: Seq<Point2>, e: Seq<int>, idx: Seq<int>, r: Seq<Point2>)
    requires
        forms_loop(segs, q, e),
        is_walk(segs, idx, r),
    ensures
        r.len() == q.len() + 1,
        r[0] == r[q.len() as int],
        forall|t: int| 0 <= t < q.len() ==> r.take(q.len() as int).contains(#[trigger] q[t]),
        forall|i: int| 0 <= i < r.len() ==> q.contains(#[trigger] r[i]),
{
    lemma_loop_walk_shape(segs, q, e, idx, r);
}

/// The walk round a loop, in closed form: from some start, one way round.
proof fn lemma_loop_walk_shape(segs: Seq<Segment>, q: Seq<Point2>, e: Seq<int>, idx: Seq<int>, r: Seq<Point2>) -> (res: (int, bool))
    requires
        forms_loop(segs, q, e),
        is_walk(segs, idx, r),
    ensures
        r.len() == q.len() + 1,
        r[0] == r[q.len() as int],
        forall|t: int| 0 <= t < q.len() ==> r.take(q.len() as int).contains(#[trigger] q[t]),
        forall|i: int| 0 <= i < r.len() ==> q.contains(#[trigger] r[i]),
        0 <= res.0 < q.len(),
        forall|i: int| 0 <= i <= q.len() ==> #[trigger] r[i] == q[loop_pos(res.0, i, q.len() as int, res.1)],
{
    let m = q.len() as int;
    let j0 = idx[0];
    let t0 = e[j0];
    assert(joins(segs[j0], q[t0], q[cyc_next(t0, m)]));
    let fwd = segs[j0].a == q[t0];
    let s = if fwd { t0 } else { cyc_next(t0, m) };
    assert(e[idx[0]] == side_at(s, m, fwd));
    let n = if idx.len() < m { idx.len() as int } else { m };
    lemma_walk_follows_loop(segs, q, e, idx, r, s, fwd, n);
    if idx.len() < m {
        let k = idx.len() as int;
        let want = side_at(loop_pos(s, k, m, fwd), m, fwd);
        assert(hits(e, want));
        let j = choose|j: int| 0 <= j < e.len() && e[j] == want;
        lemma_touching_sides(segs, q, e, j, loop_pos(s, k, m, fwd));
        assert(r[r.len() - 1] == q[loop_pos(s, k, m, fwd)]);
        if idx.contains(j) {
            let w = choose|w: int| 0 <= w < idx.len() && idx[w] == j;
            assert(e[idx[w]] == side_at(loop_pos(s, w, m, fwd), m, fwd));
        }
        assert(extends(segs, idx, r[r.len() - 1], j));
    }
    if idx.len() > m {
        let jm = idx[m];
        assert(extends(segs, idx.take(m), r[m], jm));
        lemma_touching_sides(segs, q, e, jm, s);
        assert(e[idx[0]] == side_at(s, m, fwd));
        assert(e[idx[m - 1]] == side_at(loop_pos(s, m - 1, m, fwd), m, fwd));
        assert(idx.take(m)[0] == idx[0]);
        assert(idx.take(m)[m - 1] == idx[m - 1]);
        lemma_walk_step_usable(segs, idx, r, 0);
        lemma_walk_step_usable(segs, idx, r, m - 1);
        if e[jm] == e[idx[0]] {
            lemma_side_unique(segs, q, e, jm, idx[0]);
        } else {
            lemma_side_unique(segs, q, e, jm, idx[m - 1]);
        }
    }
    assert(r[m] == q[loop_pos(s, m, m, fwd)]);
    assert forall|t: int| 0 <= t < m implies r.take(m).contains(#[trigger] q[t]) by {
        let i = if fwd {
            if t >= s { t - s } else { t - s + m }
        } else {
            if s >= t { s - t } else { s - t + m }
        };
        assert(r[i] == q[loop_pos(s, i, m, fwd)]);
        assert(r.take(m)[i] == q[t]);
    }
    assert forall|i: int| 0 <= i < r.len() implies q.contains(#[trigger] r[i]) by {
        assert(r[i] == q[loop_pos(s, i, m, fwd)]);
    }
    (s, fwd)
}

proof fn lemma_pos_compose(s: int, k: int, i: int, m: int, f: bool, d: bool)
    requires
        0 <= s < m,
        0 <= k < m,
        0 <= i <= m,
    ensures
        loop_pos(s, loop_pos(k, i, m, d), m, f) == loop_pos(loop_pos(s, k, m, f), i, m, f == d),
{
}

/// The canonical contour of a walk round a loop is the loop from its least
/// point, one way round: `res.0` is that point's index and `res.1` the way.
proof fn lemma_loop_contour_shape(segs: Seq<Segment>, q: Seq<Point2>, e: Seq<int>, idx: Seq<int>, w: Seq<Point2>,
    out: Seq<Point2>) -> (res: (int, bool))
    requires
        forms_loop(segs, q, e),
        is_walk(segs, idx, w),
        contour_of_walk(w, out),
    ensures
        0 <= res.0 < q.len(),
        forall|t: int| 0 <= t < q.len() ==> pt_le(q[res.0], #[trigger] q[t]),
        out.len() == q.len() + 1,
        forall|i: int| 0 <= i <= q.len() ==> #[trigger] out[i] == q[loop_pos(res.0, i, q.len() as int, res.1)],
        pt_le(out[1], out[q.len() - 1]),
{
    let m = q.len() as int;
    let (s, f) = lemma_loop_walk_shape(segs, q, e, idx, w);
    let c = w.take(m);
    let (k, d) = choose|k: int, d: bool| #[trigger] canonical_at(c, k, d, out);
    let t0 = loop_pos(s, k, m, f);
    lemma_pos_in_range(s, k, m, f);
    assert forall|i: int| 0 <= i <= m implies #[trigger] out[i] == q[loop_pos(t0, i, m, f == d)] by {
        lemma_pos_in_range(k, i, m, d);
        lemma_pos_compose(s, k, i, m, f, d);
        assert(out[i] == c[loop_pos(k, i, m, d)]);
        assert(c[loop_pos(k, i, m, d)] == w[loop_pos(k, i, m, d)]);
    }
    assert(c[k] == q[t0]) by {
        assert(c[k] == w[k]);
    }
    assert forall|t: int| 0 <= t < m implies pt_le(q[t0], #[trigger] q[t]) by {
        assert(c.contains(q[t]));
        let j = choose|j: int| 0 <= j < c.len() && c[j] == q[t];
        assert(pt_le(c[k], c[j]));
    }
    lemma_pos_in_range(k, 1, m, d);
    lemma_pos_in_range(k, m - 1, m, d);
    assert(out[1] == c[loop_pos(k, 1, m, d)]);
    assert(out[m - 1] == c[loop_pos(k, m - 1, m, d)]);
    (t0, f == d)
}

/// Whatever order the segments of one closed loop come in, and whichever way
/// each points, its contour is the same: the loop from its least point,
/// toward the lesser of that point's two neighbours.
pub proof fn lemma_loop_contour_order_free(q: Seq<Point2>,
    segs1: Seq<Segment>, e1: Seq<int>, idx1: Seq<int>, w1: Seq<Point2>, out1: Seq<Point2>,
    segs2: Seq<Segment>, e2: Seq<int>, idx2: Seq<int>, w2: Seq<Point2>, out2: Seq<Point2>)
    requires
        forms_loop(segs1, q, e1),
        is_walk(segs1, idx1, w1),
        contour_of_walk(w1, out1),
        forms_loop(segs2, q, e2),
        is_walk(segs2, idx2, w2),
        contour_of_walk(w2, out2),
    ensures
        out1 == out2,
{
    let m = q.len() as int;
    let (t1, d1) = lemma_loop_contour_shape(segs1, q, e1, idx1, w1, out1);
    let (t2, d2) = lemma_loop_contour_shape(segs2, q, e2, idx2, w2, out2);
    assert(pt_le(q[t1], q[t2]) && pt_le(q[t2], q[t1]));
    if t1 < t2 {
        assert(q[t1] != q[t2]);
    } else if t2 < t1 {
        assert(q[t2] != q[t1]);
    }
    lemma_pos_in_range(t1, 1, m, d1);
    lemma_pos_in_range(t1, m - 1, m, d1);
    lemma_pos_in_range(t1, 1, m, d2);
    lemma_pos_in_range(t1, m - 1, m, d2);
    if d1 != d2 {
        let a = cyc_next(t1, m);
        let b = cyc_prev(t1, m);
        assert(pt_le(q[a], q[b]) && pt_le(q[b], q[a]));
        if a < b {
            assert(q[a] != q[b]);
        } else if b < a {
            assert(q[b] != q[a]);
        }
    }
    assert forall|i: int| 0 <= i < out1.len() implies out1[i] == out2[i] by {
        assert(out1[i] == q[loop_pos(t1, i, m, d1)]);
        assert(out2[i] == q[loop_pos(t2, i, m, d2)]);
    }
    assert(out1 =~= out2);
}

/// Along a contour as `get_contour` returns it, each pair of consecutive
/// points is joined by one input segment of positive length: rotating a closed
/// walk into canonical form opens no gap.
pub proof fn lemma_contour_has_no_gap(segs: Seq<Segment>, idx: Seq<int>, w: Seq<Point2>, out: Seq<Point2>, i: int)
    requires
        is_walk(segs, idx, w),
        contour_of_walk(w, out),
        0 <= i < out.len() - 1,
    ensures
        exists|j: int| usable(segs, j) && touches(segs[j], out[i]) && touches(segs[j], out[i + 1]),
{
    if w[0] == w[w.len() - 1] {
        let m = w.len() - 1;
        let c = w.take(m);
        let (k, d) = choose|k: int, d: bool| #[trigger] canonical_at(c, k, d, out);
        lemma_pos_in_range(k, i, m, d);
        lemma_pos_in_range(k, i + 1, m, d);
        let a = loop_pos(k, i, m, d);
        let b = loop_pos(k, i + 1, m, d);
        assert(out[i] == c[a] && c[a] == w[a]);
        assert(out[i + 1] == c[b] && c[b] == w[b]);
        // the walk step that joins the two positions
        let st = if d { a } else { b };
        assert(d ==> (b == a + 1 || (a == m - 1 && b == 0)));
        assert(!d ==> (a == b + 1 || (b == m - 1 && a == 0)));
        lemma_walk_has_no_gap(segs, idx, w, st);
        if st + 1 == m {
            assert(w[st + 1] == w[0]);
        }
        assert(usable(segs, idx[st]) && touches(segs[idx[st]], out[i]) && touches(segs[idx[st]], out[i + 1]));
    } else {
        lemma_walk_has_no_gap(segs, idx, w, i);
    }
}

} // verus!
