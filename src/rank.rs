//! Ranking of scored cells: best score first, lower cell number first among
//! equal scores, cells of score zero never.
use vstd::prelude::*;

verus! {

/// Cell `i` ranks before cell `j`.
pub open spec fn ranks_before(scores: Seq<u64>, i: int, j: int) -> bool {
    scores[i] > scores[j] || (scores[i] == scores[j] && i < j)
}

pub open spec fn eligible(scores: Seq<u64>, c: int) -> bool {
    0 <= c < scores.len() && scores[c] > 0
}

/// `r` lists, best first, the `depth` best cells of positive score, or all of
/// them when there are fewer.
pub open spec fn is_ranking(scores: Seq<u64>, depth: int, r: Seq<usize>) -> bool {
    &&& r.len() <= depth
    &&& forall|i: int| 0 <= i < r.len() ==> eligible(scores, #[trigger] r[i] as int)
    &&& forall|i: int, j: int| 0 <= i < j < r.len() ==> ranks_before(scores, r[i] as int, r[j] as int)
    &&& forall|c: int| eligible(scores, c) && !r.contains(c as usize) ==> {
        &&& r.len() == depth
        &&& forall|i: int| 0 <= i < r.len() ==> ranks_before(scores, #[trigger] r[i] as int, c)
    }
}

/// The best cell of positive score that ranks after `last` (after nothing when
/// `last` is `None`), if any.
fn best_after(scores: &Vec<u64>, last: Option<usize>) -> (r: Option<usize>)
    requires
        last is Some ==> (last->0) < scores@.len(),
    ensures
        match r {
            Some(b) => eligible(scores@, b as int)
                && (last is Some ==> ranks_before(scores@, last->0 as int, b as int))
                && forall|c: int| eligible(scores@, c) && c != b
                    && (last is Some ==> ranks_before(scores@, last->0 as int, c))
                    ==> ranks_before(scores@, b as int, c),
            None => forall|c: int| eligible(scores@, c)
                ==> (last is Some && !ranks_before(scores@, last->0 as int, c)),
        },
{
    let mut best: Option<usize> = None;
    let mut c: usize = 0;
    while c < scores.len()
        invariant
            c <= scores@.len(),
            last is Some ==> (last->0) < scores@.len(),
            match best {
                Some(b) => b < c && eligible(scores@, b as int)
                    && (last is Some ==> ranks_before(scores@, last->0 as int, b as int))
                    && forall|d: int| 0 <= d < c && eligible(scores@, d) && d != b
                        && (last is Some ==> ranks_before(scores@, last->0 as int, d))
                        ==> ranks_before(scores@, b as int, d),
                None => forall|d: int| 0 <= d < c && eligible(scores@, d)
                    ==> (last is Some && !ranks_before(scores@, last->0 as int, d)),
            },
        decreases scores@.len() - c,
    {
        let s = scores[c];
        let after = match last {
            None => true,
            Some(l) => scores[l] > s || (scores[l] == s && l < c),
        };
        if s > 0 && after {
            match best {
                None => {
                    best = Some(c);
                },
                Some(b) => {
                    if s > scores[b] {
                        best = Some(c);
                    }
                },
            }
        }
        c += 1;
    }
    best
}

/// The `depth` best cells of positive score, best first, as `is_ranking`
/// states it.
pub fn top_cells(scores: &Vec<u64>, depth: usize) -> (r: Vec<usize>)
    ensures
        is_ranking(scores@, depth as int, r@),
{
    let mut r: Vec<usize> = Vec::new();
    while r.len() < depth
        invariant
            r@.len() <= depth,
            forall|i: int| 0 <= i < r@.len() ==> eligible(scores@, #[trigger] r@[i] as int),
            forall|i: int, j: int| 0 <= i < j < r@.len() ==> ranks_before(scores@, r@[i] as int, r@[j] as int),
            forall|c: int| eligible(scores@, c) && !r@.contains(c as usize)
                ==> forall|i: int| 0 <= i < r@.len() ==> ranks_before(scores@, #[trigger] r@[i] as int, c),
        decreases depth - r@.len(),
    {
        let last = if r.len() == 0 { None } else { Some(r[r.len() - 1]) };
        match best_after(scores, last) {
            None => {
                proof {
                    assert forall|c: int| eligible(scores@, c) && !r@.contains(c as usize) implies false by {
                        if r@.len() > 0 {
                            assert(ranks_before(scores@, r@[r@.len() - 1] as int, c));
                        }
                    }
                }
                return r;
            },
            Some(b) => {
                let ghost old_r = r@;
                proof {
                    assert forall|i: int| 0 <= i < old_r.len() implies ranks_before(scores@, #[trigger] old_r[i] as int, b as int) by {
                        let l = old_r[old_r.len() - 1] as int;
                        if i < old_r.len() - 1 {
                            assert(ranks_before(scores@, old_r[i] as int, l));
                        }
                    }
                    assert(!old_r.contains(b)) by {
                        if old_r.contains(b) {
                            let w = choose|w: int| 0 <= w < old_r.len() && old_r[w] == b;
                            assert(ranks_before(scores@, old_r[w] as int, b as int));
                        }
                    }
                }
                r.push(b);
                proof {
                    assert forall|c: int| eligible(scores@, c) && !r@.contains(c as usize)
                        implies forall|i: int| 0 <= i < r@.len() ==> ranks_before(scores@, #[trigger] r@[i] as int, c) by {
                        assert(!old_r.contains(c as usize)) by {
                            if old_r.contains(c as usize) {
                                let w = choose|w: int| 0 <= w < old_r.len() && old_r[w] == c as usize;
                                assert(r@[w] == c as usize);
                            }
                        }
                        assert(r@[r@.len() - 1] == b);
                        if old_r.len() > 0 {
                            assert(ranks_before(scores@, old_r[old_r.len() - 1] as int, c));
                        }
                        assert forall|i: int| 0 <= i < r@.len() implies ranks_before(scores@, #[trigger] r@[i] as int, c) by {
                            if i < old_r.len() {
                                assert(r@[i] == old_r[i]);
                            }
                        }
                    }
                }
            },
        }
    }
    r
}

proof fn lemma_same_prefix(scores: Seq<u64>, depth: int, r1: Seq<usize>, r2: Seq<usize>, k: int)
    requires
        is_ranking(scores, depth, r1),
        is_ranking(scores, depth, r2),
        0 <= k <= r1.len(),
        k <= r2.len(),
    ensures
        forall|i: int| 0 <= i < k ==> r1[i] == r2[i],
    decreases k,
{
    if k > 0 {
        lemma_same_prefix(scores, depth, r1, r2, k - 1);
        let i = k - 1;
        let a = r1[i];
        let b = r2[i];
        if a != b {
            if ranks_before(scores, a as int, b as int) {
                if r2.contains(a) {
                    let j = choose|j: int| 0 <= j < r2.len() && r2[j] == a;
                    if j < i {
                        assert(r1[j] == r2[j]);
                        assert(ranks_before(scores, r1[j] as int, r1[i] as int));
                    } else {
                        assert(ranks_before(scores, r2[i] as int, r2[j] as int));
                    }
                } else {
                    assert(eligible(scores, a as int));
                    assert(ranks_before(scores, r2[i] as int, a as int));
                }
            } else {
                if r1.contains(b) {
                    let j = choose|j: int| 0 <= j < r1.len() && r1[j] == b;
                    if j < i {
                        assert(r1[j] == r2[j]);
                        assert(ranks_before(scores, r2[j] as int, r2[i] as int));
                    } else {
                        assert(ranks_before(scores, r1[i] as int, r1[j] as int));
                    }
                } else {
                    assert(eligible(scores, b as int));
                    assert(ranks_before(scores, r1[i] as int, b as int));
                }
            }
        }
    }
}

proof fn lemma_not_shorter(scores: Seq<u64>, depth: int, r1: Seq<usize>, r2: Seq<usize>)
    requires
        is_ranking(scores, depth, r1),
        is_ranking(scores, depth, r2),
        r1.len() <= r2.len(),
        forall|i: int| 0 <= i < r1.len() ==> r1[i] == r2[i],
    ensures
        r1.len() == r2.len(),
{
    if r1.len() < r2.len() {
        let c = r2[r1.len() as int];
        assert(eligible(scores, c as int));
        if r1.contains(c) {
            let j = choose|j: int| 0 <= j < r1.len() && r1[j] == c;
            assert(r2[j] == c);
            assert(ranks_before(scores, r2[j] as int, r2[r1.len() as int] as int));
        }
    }
}

/// The ranking is determined by the scores and the depth alone: two lists that
/// both meet it are equal, so equal inputs always give equal output.
pub proof fn lemma_ranking_is_unique(scores: Seq<u64>, depth: int, r1: Seq<usize>, r2: Seq<usize>)
    requires
        is_ranking(scores, depth, r1),
        is_ranking(scores, depth, r2),
    ensures
        r1 == r2,
{
    if r1.len() <= r2.len() {
        lemma_same_prefix(scores, depth, r1, r2, r1.len() as int);
        lemma_not_shorter(scores, depth, r1, r2);
    } else {
        lemma_same_prefix(scores, depth, r2, r1, r2.len() as int);
        lemma_not_shorter(scores, depth, r2, r1);
    }
    assert(r1 =~= r2);
}

/// A ranking never holds more than `depth` cells, and holds fewer only when
/// every cell of positive score is already in it.
pub proof fn lemma_ranking_count(scores: Seq<u64>, depth: int, r: Seq<usize>)
    requires
        is_ranking(scores, depth, r),
    ensures
        r.len() <= depth,
        r.len() < depth ==> forall|c: int| 0 <= c < scores.len() && scores[c] > 0
            ==> r.contains(c as usize),
{
    assert forall|c: int| 0 <= c < scores.len() && scores[c] > 0 && r.len() < depth
        implies r.contains(c as usize) by {
        assert(eligible(scores, c));
    }
}

/// A cell with a strictly higher score than a listed cell is listed before it.
pub proof fn lemma_higher_score_ranks_earlier(scores: Seq<u64>, depth: int, r: Seq<usize>, a: usize, j: int)
    requires
        is_ranking(scores, depth, r),
        0 <= a < scores.len(),
        0 <= j < r.len(),
        scores[a as int] > scores[r[j] as int],
    ensures
        exists|i: int| 0 <= i < j && r[i] == a,
{
    assert(eligible(scores, a as int));
    if !r.contains(a) {
        assert(ranks_before(scores, r[j] as int, a as int));
    } else {
        let i = choose|i: int| 0 <= i < r.len() && r[i] == a;
        if i > j {
            assert(ranks_before(scores, r[j] as int, r[i] as int));
        }
        assert(i != j);
        assert(0 <= i < j && r[i] == a);
    }
}

} // verus!
