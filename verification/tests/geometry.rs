use puzzles::maximizer::{
    brute_force_max, contained_rectangle_area_scanline, part1, part2, part2_parallel,
    rectangle_area, GlobalBest,
};
use puzzles::polygon::{Point, PolygonBoundary};
use puzzles::scanline::ContainmentOracle;

fn oracle_from(vertices: &Vec<Point>) -> ContainmentOracle {
    let boundary = PolygonBoundary::from_vertices(vertices).unwrap();
    ContainmentOracle::new(boundary)
}

fn square_vertices() -> Vec<Point> {
    vec![Point(0, 0), Point(0, 4), Point(4, 4), Point(4, 0)]
}

fn l_shape_vertices() -> Vec<Point> {
    vec![
        Point(0, 0),
        Point(0, 6),
        Point(2, 6),
        Point(2, 2),
        Point(6, 2),
        Point(6, 0),
    ]
}

#[test]
fn test_area() {
    assert_eq!(rectangle_area(&Point(2, 5), &Point(9, 7)), 24);
    assert_eq!(rectangle_area(&Point(7, 1), &Point(11, 7)), 35);
    assert_eq!(rectangle_area(&Point(7, 3), &Point(2, 3)), 6);
}

#[test]
fn test_square_maximum() {
    // Example: a 5x5 square; the whole square is the best rectangle.
    let vertices = square_vertices();
    let oracle = oracle_from(&vertices);
    assert_eq!(part1(&vertices), Some(25));
    assert_eq!(part2(&vertices, &oracle), Some(25));
    assert_eq!(part2_parallel(&vertices, &oracle), Some(25));
    assert_eq!(brute_force_max(&vertices, &oracle), Some(25));
}

#[test]
fn test_l_shape_notch_rejected() {
    // The pair spanning the concave notch has the largest raw area but
    // its rectangle is not contained.
    let vertices = l_shape_vertices();
    let oracle = oracle_from(&vertices);
    let raw = rectangle_area(&Point(0, 6), &Point(6, 2));
    assert_eq!(raw, 35);
    assert_eq!(
        contained_rectangle_area_scanline(&Point(0, 6), &Point(6, 2), &oracle),
        None
    );
    assert_eq!(part2(&vertices, &oracle), Some(21));
    assert_eq!(brute_force_max(&vertices, &oracle), Some(21));
    assert_eq!(part2_parallel(&vertices, &oracle), Some(21));
}

fn brute_force_contains(boundary_points: &Vec<Point>, max_x: usize, p: Point) -> bool {
    if boundary_points.contains(&p) {
        return true;
    }
    let mut crossings = 0;
    for x in (p.0 + 1)..=max_x {
        if boundary_points.contains(&Point(x, p.1)) && boundary_points.contains(&Point(x, p.1 + 1))
        {
            crossings += 1;
        }
    }
    crossings % 2 == 1
}

#[test]
fn test_contains_matches_crossing_count() {
    // Parity agreement with an independent even/odd crossing count for
    // every lattice point of a small bounding box.
    for vertices in [square_vertices(), l_shape_vertices()] {
        let oracle = oracle_from(&vertices);
        let pts = oracle.boundary.points.clone();
        for x in 0..8usize {
            for y in 0..8usize {
                let p = Point(x, y);
                assert_eq!(
                    oracle.contains(&p),
                    brute_force_contains(&pts, 7, p),
                    "disagreement at ({}, {})",
                    x,
                    y
                );
            }
        }
    }
}

#[test]
fn test_validated_rectangle_boundary_inside() {
    // Every lattice point on the four edges of a rectangle reported as
    // contained passes the containment oracle itself.
    let vertices = square_vertices();
    let oracle = oracle_from(&vertices);
    let r = contained_rectangle_area_scanline(&Point(0, 0), &Point(4, 4), &oracle);
    assert_eq!(r, Some(25));
    for x in 0..=4usize {
        assert!(oracle.contains(&Point(x, 0)));
        assert!(oracle.contains(&Point(x, 4)));
    }
    for y in 0..=4usize {
        assert!(oracle.contains(&Point(0, y)));
        assert!(oracle.contains(&Point(4, y)));
    }
}

#[test]
fn test_maximizer_idempotent() {
    let vertices = l_shape_vertices();
    let oracle = oracle_from(&vertices);
    let first = part2(&vertices, &oracle);
    let second = part2(&vertices, &oracle);
    assert_eq!(first, second);
    assert_eq!(part2_parallel(&vertices, &oracle), first);
}

#[test]
fn test_global_best_only_rises() {
    let mut best = GlobalBest::new();
    let mut last = best.get();
    for area in [5usize, 3, 10, 2, 10, 7] {
        best.raise(area);
        let cur = best.get();
        assert!(cur >= last);
        assert!(cur >= area);
        last = cur;
    }
    assert_eq!(best.get(), 10);
}

#[test]
fn test_fewer_than_two_corners() {
    let vertices = square_vertices();
    let oracle = oracle_from(&vertices);
    let one = vec![Point(0, 0)];
    assert_eq!(part1(&one), None);
    assert_eq!(part2(&one, &oracle), None);
    assert_eq!(part2_parallel(&one, &oracle), None);
    assert_eq!(brute_force_max(&one, &oracle), None);
}

#[test]
fn test_diagonal_edge_rejected() {
    let vertices = vec![Point(0, 0), Point(2, 2), Point(0, 2)];
    assert!(PolygonBoundary::from_vertices(&vertices).is_err());
}

#[test]
fn test_boundary_counts_as_inside() {
    let vertices = square_vertices();
    let oracle = oracle_from(&vertices);
    assert!(oracle.contains(&Point(0, 0)));
    assert!(oracle.contains(&Point(4, 2)));
    assert!(oracle.contains(&Point(2, 2)));
    assert!(!oracle.contains(&Point(5, 2)));
    assert!(!oracle.contains(&Point(2, 5)));
}
