use p3d::geometry::Point2;
use p3d::rank::top_cells;
use p3d::scorer::{cell_center, contains, score_grid, score_point, Rect, Scoring};

fn pt(x: i64, y: i64) -> Point2 {
    Point2 { x, y }
}

fn square(lo: i64, hi: i64) -> Vec<Point2> {
    vec![pt(lo, lo), pt(hi, lo), pt(hi, hi), pt(lo, hi), pt(lo, lo)]
}

#[test]
fn point_in_polygon() {
    let sq = square(0, 10);
    assert!(contains(&sq, pt(5, 5)));
    assert!(contains(&sq, pt(1, 9)));
    assert!(!contains(&sq, pt(11, 5)));
    assert!(!contains(&sq, pt(-1, 5)));
    assert!(!contains(&sq, pt(5, 20)));
    let tri = vec![pt(0, 0), pt(10, 0), pt(0, 10)];
    assert!(contains(&tri, pt(2, 2)));
    assert!(!contains(&tri, pt(8, 8)));
    assert!(!contains(&vec![], pt(0, 0)));
}

#[test]
fn scores_of_each_policy() {
    // levels: big, small, big, big
    let cs = vec![square(0, 100), square(40, 60), square(0, 100), square(0, 100)];
    let centre = pt(50, 50);
    let edge = pt(10, 10);
    assert_eq!(score_point(Scoring::Pooled, &cs, centre), 4);
    assert_eq!(score_point(Scoring::Pooled, &cs, edge), 3);
    assert_eq!(score_point(Scoring::LevelAware, &cs, centre), 4);
    assert_eq!(score_point(Scoring::LevelAware, &cs, edge), 2);
    assert_eq!(score_point(Scoring::LevelAwareRefined, &cs, centre), 4 * 5 + 4);
    assert_eq!(score_point(Scoring::LevelAwareRefined, &cs, edge), 3 * 5 + 2);
    assert_eq!(score_point(Scoring::ToleranceCoupled, &cs, edge), 3 * 5 + 2);
    assert_eq!(score_point(Scoring::Pooled, &cs, pt(500, 500)), 0);
}

#[test]
fn full_coverage_outranks_partial_coverage() {
    let cs = vec![square(0, 100), square(30, 70), square(0, 100)];
    for v in [Scoring::Pooled, Scoring::LevelAware, Scoring::LevelAwareRefined, Scoring::ToleranceCoupled] {
        assert!(score_point(v, &cs, pt(50, 50)) > score_point(v, &cs, pt(10, 10)));
    }
}

#[test]
fn grid_cells_and_centres() {
    let rect = Rect::new(0, 100, 0, 100);
    assert_eq!(cell_center(rect, 2, 0), pt(25, 25));
    assert_eq!(cell_center(rect, 2, 1), pt(75, 25));
    assert_eq!(cell_center(rect, 2, 2), pt(25, 75));
    assert_eq!(cell_center(rect, 3, 4), pt(50, 50));
    let cs = vec![square(0, 50)];
    assert_eq!(score_grid(Scoring::Pooled, &cs, rect, 2), vec![1, 0, 0, 0]);
    assert!(score_grid(Scoring::Pooled, &cs, rect, 0).is_empty());
}

#[test]
fn ranking_best_first_ties_by_cell() {
    let scores = vec![3, 0, 5, 3, 1, 5];
    assert_eq!(top_cells(&scores, 10), vec![2, 5, 0, 3, 4]);
    assert_eq!(top_cells(&scores, 3), vec![2, 5, 0]);
    assert_eq!(top_cells(&scores, 0), Vec::<usize>::new());
    assert_eq!(top_cells(&vec![0, 0, 0], 2), Vec::<usize>::new());
}

#[test]
fn ranking_count_bound() {
    let scores = vec![1, 0, 2, 0, 7];
    for d in 0..8usize {
        let r = top_cells(&scores, d);
        assert!(r.len() <= d);
        assert_eq!(r.len(), d.min(3));
    }
}

#[test]
fn ranking_is_deterministic() {
    let scores = vec![4, 4, 4, 1, 4, 0, 9];
    let a = top_cells(&scores, 4);
    let b = top_cells(&scores.clone(), 4);
    assert_eq!(a, b);
    assert_eq!(a, vec![6, 0, 1, 2]);
}

#[test]
fn more_levels_never_score_lower() {
    // the first point is held by levels 0 and 2, the second by levels 0, 1 and 2
    let cs = vec![square(0, 100), square(40, 100), square(0, 100)];
    for v in [Scoring::Pooled, Scoring::LevelAware, Scoring::LevelAwareRefined, Scoring::ToleranceCoupled] {
        assert!(score_point(v, &cs, pt(50, 50)) >= score_point(v, &cs, pt(10, 10)));
    }
    assert_eq!(score_point(Scoring::LevelAware, &cs, pt(10, 10)), 1);
    assert_eq!(score_point(Scoring::LevelAware, &cs, pt(50, 50)), 3);
}
