use torchbearer::bresenham::{BresenhamCircle, BresenhamLine, ThickBresenhamCircle};

#[test]
fn test_wp_example() {
    let bi = BresenhamLine::new((0, 1), (6, 4));
    let len = bi.len();
    let res: Vec<_> = bi.points();

    assert_eq!(
        res,
        [(0, 1), (1, 1), (2, 2), (3, 2), (4, 3), (5, 3), (6, 4)]
    );
    assert_eq!(len, 7);
}

#[test]
fn test_inverse_wp() {
    let bi = BresenhamLine::new((6, 4), (0, 1));
    let len = bi.len();
    let res: Vec<_> = bi.points();

    assert_eq!(
        res,
        [(6, 4), (5, 4), (4, 3), (3, 3), (2, 2), (1, 2), (0, 1)]
    );
    assert_eq!(len, 7);
}

#[test]
fn test_straight_hline() {
    let bi = BresenhamLine::new((2, 3), (5, 3));
    let len = bi.len();
    let res: Vec<_> = bi.points();

    assert_eq!(res, [(2, 3), (3, 3), (4, 3), (5, 3)]);
    assert_eq!(len, 4);
}

#[test]
fn test_straight_vline() {
    let bi = BresenhamLine::new((2, 3), (2, 6));
    let len = bi.len();
    let res: Vec<_> = bi.points();

    assert_eq!(res, [(2, 3), (2, 4), (2, 5), (2, 6)]);
    assert_eq!(len, 4);
}

#[test]
fn bresenham_circle_contiguous() {
    let circle = BresenhamCircle::new((0, 0), 2);

    let res: Vec<_> = circle.points();

    assert_eq!(
        res,
        [
            (2, 0),
            (2, 1),
            (1, 2),
            (0, 2),
            (-1, 2),
            (-2, 1),
            (-2, 0),
            (-2, -1),
            (-1, -2),
            (0, -2),
            (1, -2),
            (2, -1)
        ]
    );
}

#[test]
fn circle_predictable_length() {
    let circle = ThickBresenhamCircle::new((0, 0), 3);

    let points = circle.points();

    assert_eq!(24, points.len());
}

#[test]
fn circle_radius_1_is_square() {
    let circle = ThickBresenhamCircle::new((0, 0), 1);

    let mut expected = vec![
        (0, 1),
        (1, 1),
        (1, 0),
        (1, -1),
        (0, -1),
        (-1, -1),
        (-1, 0),
        (-1, 1),
    ];
    expected.sort();

    let mut result = circle.points();
    result.sort();

    assert_eq!(expected, result);
}

#[test]
fn line_reversal_on_straight_and_diagonal() {
    // the law proved for axis-aligned and diagonal lines, on concrete values
    let cases = [
        ((2, 3), (9, 3)),
        ((4, -1), (4, 7)),
        ((0, 0), (5, 5)),
        ((2, 8), (6, 4)),
    ];
    for (a, b) in cases {
        let forward = BresenhamLine::new(a, b).points();
        let mut backward = BresenhamLine::new(b, a).points();
        backward.reverse();
        assert_eq!(forward, backward);
    }
}

#[test]
fn line_endpoints_and_length() {
    let cases = [
        ((0, 0), (0, 0)),
        ((3, -2), (-4, 9)),
        ((7, 1), (2, 2)),
        ((-5, -5), (5, 6)),
    ];
    for (a, b) in cases {
        let pts = BresenhamLine::new(a, b).points();
        let dx = (b.0 - a.0).abs();
        let dy = (b.1 - a.1).abs();
        assert_eq!(pts.len() as i32, dx.max(dy) + 1);
        assert_eq!(pts[0], a);
        assert_eq!(pts[pts.len() - 1], b);
    }
}

#[test]
fn thick_circle_len_matches_output() {
    for radius in 1..20 {
        let circle = ThickBresenhamCircle::new((7, -3), radius);
        let announced = circle.len();
        let points = circle.points();
        assert_eq!(points.len(), announced);
        assert_eq!(points.len() as i32, 8 * radius);
    }
}

#[test]
fn thick_circle_no_diagonal_gaps() {
    // consecutive boundary points per octant walk never skip both axes
    let points = ThickBresenhamCircle::new((0, 0), 5).points();
    for p in &points {
        let neighbouring = points
            .iter()
            .filter(|q| (q.0 - p.0).abs() <= 1 && (q.1 - p.1).abs() <= 1 && *q != p)
            .count();
        assert!(neighbouring >= 2, "{:?} has too few neighbours", p);
    }
}

#[test]
fn thin_circle_radius_zero_is_empty() {
    let circle = BresenhamCircle::new((3, 3), 0);
    assert!(circle.points().is_empty());
}
