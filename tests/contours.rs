use p3d::contour::get_contour;
use p3d::geometry::{Point2, Segment};

fn pt(x: i64, y: i64) -> Point2 {
    Point2 { x, y }
}

fn seg(a: (i64, i64), b: (i64, i64)) -> Segment {
    Segment { a: pt(a.0, a.1), b: pt(b.0, b.1) }
}

fn square() -> Vec<Segment> {
    vec![
        seg((0, 0), (10, 0)),
        seg((10, 0), (10, 10)),
        seg((0, 10), (10, 10)),
        seg((0, 10), (0, 0)),
    ]
}

fn joined(segs: &[Segment], a: Point2, b: Point2) -> bool {
    segs.iter().any(|s| (s.a == a && s.b == b) || (s.a == b && s.b == a))
}

fn sorted(mut v: Vec<Point2>) -> Vec<(i64, i64)> {
    v.pop();
    let mut r: Vec<(i64, i64)> = v.iter().map(|p| (p.x, p.y)).collect();
    r.sort();
    r
}

#[test]
fn square_loop_closes() {
    let segs = square();
    let c = get_contour(&segs);
    assert_eq!(c, vec![pt(0, 0), pt(0, 10), pt(10, 10), pt(10, 0), pt(0, 0)]);
}

#[test]
fn every_order_gives_the_same_loop() {
    let base = square();
    let expected = sorted(get_contour(&base));
    let orders = [[0, 1, 2, 3], [3, 2, 1, 0], [2, 0, 3, 1], [1, 3, 0, 2], [3, 0, 2, 1]];
    for o in orders.iter() {
        let segs: Vec<Segment> = o.iter().map(|&i| base[i]).collect();
        let c = get_contour(&segs);
        assert_eq!(c.len(), 5);
        assert_eq!(c[0], c[4]);
        for w in c.windows(2) {
            assert!(joined(&segs, w[0], w[1]));
        }
        assert_eq!(sorted(c.clone()), expected);
        assert_eq!(c, get_contour(&base));
    }
}

#[test]
fn triangle_sides_in_any_order() {
    let ab = seg((0, 0), (10, 0));
    let cb = seg((0, 10), (10, 0));
    let ca = seg((0, 10), (0, 0));
    let first = get_contour(&vec![ab, cb, ca]);
    assert_eq!(first, vec![pt(0, 0), pt(0, 10), pt(10, 0), pt(0, 0)]);
    assert_eq!(get_contour(&vec![cb, ca, ab]), first);
    assert_eq!(get_contour(&vec![ca, ab, cb]), first);
}

#[test]
fn zero_length_segments_are_dropped() {
    let mut segs = vec![seg((3, 3), (3, 3))];
    segs.extend(square());
    segs.push(seg((0, 0), (0, 0)));
    let c = get_contour(&segs);
    assert_eq!(c, vec![pt(0, 0), pt(0, 10), pt(10, 10), pt(10, 0), pt(0, 0)]);
    assert!(get_contour(&vec![seg((1, 1), (1, 1))]).is_empty());
    assert!(get_contour(&vec![]).is_empty());
}

#[test]
fn open_chain_stops_at_its_end() {
    let segs = vec![seg((0, 0), (5, 0)), seg((9, 9), (8, 8)), seg((5, 0), (5, 5))];
    assert_eq!(get_contour(&segs), vec![pt(0, 0), pt(5, 0), pt(5, 5)]);
}
