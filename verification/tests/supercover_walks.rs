use robosim::geometry::Point;
use robosim::supercover::supercover_points;

fn cells(points: &[Point]) -> Vec<(i32, i32)> {
    points.iter().map(|p| (p.x, p.y)).collect()
}

#[test]
fn point_new_keeps_coordinates() {
    let p = Point::new(-4, 17);
    assert_eq!(p.x, -4);
    assert_eq!(p.y, 17);
}

#[test]
fn shallow_line_steps_right_then_up() {
    let pts = supercover_points(Point::new(0, 0), Point::new(2, 1));
    assert_eq!(cells(&pts), vec![(0, 0), (1, 0), (1, 1), (2, 1)]);
}

#[test]
fn exact_diagonal_moves_diagonally() {
    let pts = supercover_points(Point::new(0, 0), Point::new(2, 2));
    assert_eq!(cells(&pts), vec![(0, 0), (1, 1), (2, 2)]);
}

#[test]
fn negative_direction_line() {
    let pts = supercover_points(Point::new(3, 3), Point::new(0, 2));
    assert_eq!(cells(&pts), vec![(3, 3), (2, 3), (1, 2), (0, 2)]);
}

#[test]
fn vertical_line() {
    let pts = supercover_points(Point::new(0, 0), Point::new(0, 3));
    assert_eq!(cells(&pts), vec![(0, 0), (0, 1), (0, 2), (0, 3)]);
}

#[test]
fn line_of_one_cell() {
    let pts = supercover_points(Point::new(5, -5), Point::new(5, -5));
    assert_eq!(cells(&pts), vec![(5, -5)]);
}

#[test]
fn offsets_from_origin_match_shifted_line() {
    let a = supercover_points(Point::new(0, 0), Point::new(7, -3));
    let b = supercover_points(Point::new(10, 20), Point::new(17, 17));
    let shifted: Vec<(i32, i32)> = cells(&a).into_iter().map(|(x, y)| (x + 10, y + 20)).collect();
    assert_eq!(shifted, cells(&b));
}

#[test]
fn far_apart_endpoints() {
    let pts = supercover_points(Point::new(i32::MAX - 3, i32::MIN + 1), Point::new(i32::MAX, i32::MIN + 3));
    let c = cells(&pts);
    assert_eq!(c.first(), Some(&(i32::MAX - 3, i32::MIN + 1)));
    assert_eq!(c.last(), Some(&(i32::MAX, i32::MIN + 3)));
}

/// The laws of the supercover line on every pair of endpoints in a small box:
/// it starts at `p0`, ends at `p1`, moves one horizontal, vertical or
/// diagonal step towards `p1` at a time, and has between
/// `max(|dx|, |dy|) + 1` and `|dx| + |dy| + 1` cells.
#[test]
fn laws_hold_on_a_grid_of_endpoints() {
    for x0 in -4..=4 {
        for y0 in -4..=4 {
            for x1 in -4..=4 {
                for y1 in -4..=4 {
                    let c = cells(&supercover_points(Point::new(x0, y0), Point::new(x1, y1)));
                    let (dx, dy) = (x1 - x0, y1 - y0);
                    let (sx, sy) = (dx.signum(), dy.signum());
                    assert_eq!(c[0], (x0, y0));
                    assert_eq!(*c.last().unwrap(), (x1, y1));
                    for w in c.windows(2) {
                        let m = (w[1].0 - w[0].0, w[1].1 - w[0].1);
                        assert!(m == (sx, 0) || m == (0, sy) || m == (sx, sy));
                    }
                    let n = c.len() as i32;
                    assert!(dx.abs().max(dy.abs()) + 1 <= n);
                    assert!(n <= dx.abs() + dy.abs() + 1);
                }
            }
        }
    }
}

/// Walked backwards, the line visits the same cells in reverse order.
#[test]
fn reversed_line_is_reversed() {
    for x0 in -3..=3 {
        for y0 in -3..=3 {
            for x1 in -3..=3 {
                for y1 in -3..=3 {
                    let fwd = cells(&supercover_points(Point::new(x0, y0), Point::new(x1, y1)));
                    let mut back = cells(&supercover_points(Point::new(x1, y1), Point::new(x0, y0)));
                    back.reverse();
                    assert_eq!(fwd, back);
                }
            }
        }
    }
}

/// Whether the segment between cell centres `p0` and `p1` passes through
/// the inside of cell `c`'s unit square, found by sampling the segment
/// finely with exact rational points.
fn segment_enters(p0: (i32, i32), p1: (i32, i32), c: (i32, i32)) -> bool {
    let steps: i64 = 4 * 9 * 8 * 7 * 5;
    (0..=steps).any(|k| {
        // point = p0 + k/steps * (p1 - p0), scaled by 2*steps
        let px = 2 * (p0.0 as i64 * steps + k * (p1.0 - p0.0) as i64);
        let py = 2 * (p0.1 as i64 * steps + k * (p1.1 - p0.1) as i64);
        let cx = 2 * c.0 as i64 * steps;
        let cy = 2 * c.1 as i64 * steps;
        (px - cx).abs() < steps && (py - cy).abs() < steps
    })
}

/// The line's cells are exactly those whose square the segment passes
/// through, all in the box of the endpoints and none twice.
#[test]
fn line_is_the_cells_the_segment_crosses() {
    let pairs = [((0, 0), (2, 1)), ((0, 0), (3, 3)), ((1, -2), (-4, 1)), ((0, 0), (5, 2)), ((2, 2), (2, -3))];
    for &(p0, p1) in &pairs {
        let c = cells(&supercover_points(Point::new(p0.0, p0.1), Point::new(p1.0, p1.1)));
        for x in -6..=6 {
            for y in -6..=6 {
                assert_eq!(c.contains(&(x, y)), segment_enters(p0, p1, (x, y)), "{:?} {:?} {:?}", p0, p1, (x, y));
            }
        }
        for (i, a) in c.iter().enumerate() {
            assert!(!c[i + 1..].contains(a));
            assert!(p0.0.min(p1.0) <= a.0 && a.0 <= p0.0.max(p1.0));
            assert!(p0.1.min(p1.1) <= a.1 && a.1 <= p0.1.max(p1.1));
        }
    }
}
