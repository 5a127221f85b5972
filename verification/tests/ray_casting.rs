use robosim::geometry::Point;
use robosim::raster::{supercover_line, try_supercover_line, GrayMap};

/// A `width` x `height` map, all lit, with the listed black cells.
fn map_with_walls(width: u32, height: u32, walls: &[(u32, u32)]) -> GrayMap {
    let mut px = vec![255u8; (width * height) as usize];
    for &(x, y) in walls {
        px[(y * width + x) as usize] = 0;
    }
    GrayMap::from_luma(width, height, px).unwrap()
}

#[test]
fn clear_ray_reaches_target() {
    let map = map_with_walls(8, 8, &[]);
    let p = supercover_line(Point::new(1, 1), Point::new(6, 4), &map);
    assert_eq!((p.x, p.y), (6, 4));
}

#[test]
fn ray_stops_at_first_wall() {
    let map = map_with_walls(8, 1, &[(3, 0), (5, 0)]);
    let p = supercover_line(Point::new(0, 0), Point::new(7, 0), &map);
    assert_eq!((p.x, p.y), (3, 0));
}

#[test]
fn ray_ignores_its_own_start_cell() {
    let map = map_with_walls(4, 1, &[(0, 0)]);
    let p = supercover_line(Point::new(0, 0), Point::new(3, 0), &map);
    assert_eq!((p.x, p.y), (3, 0));
}

#[test]
fn ray_of_one_cell_stays_put() {
    let map = map_with_walls(2, 2, &[(1, 1)]);
    let p = supercover_line(Point::new(1, 1), Point::new(1, 1), &map);
    assert_eq!((p.x, p.y), (1, 1));
}

#[test]
fn ray_stops_on_wall_cell_of_diagonal_line() {
    // (0,0) -> (2,1) enters (1,0), (1,1), (2,1).
    let map = map_with_walls(3, 2, &[(1, 1)]);
    let p = supercover_line(Point::new(0, 0), Point::new(2, 1), &map);
    assert_eq!((p.x, p.y), (1, 1));
}

#[test]
fn ray_may_end_outside_after_a_wall() {
    // The walk meets the wall at (2,0) before it would leave the 3-wide map.
    let map = map_with_walls(3, 1, &[(2, 0)]);
    let p = try_supercover_line(Point::new(0, 0), Point::new(9, 0), &map);
    assert_eq!(p.map(|q| (q.x, q.y)), Some((2, 0)));
}

#[test]
fn ray_leaving_the_map_is_refused() {
    let map = map_with_walls(3, 3, &[]);
    assert!(try_supercover_line(Point::new(1, 1), Point::new(5, 1), &map).is_none());
    assert!(try_supercover_line(Point::new(1, 1), Point::new(1, -1), &map).is_none());
}

#[test]
fn try_ray_inside_the_map() {
    let map = map_with_walls(4, 4, &[(2, 2)]);
    let p = try_supercover_line(Point::new(0, 0), Point::new(3, 3), &map);
    assert_eq!(p.map(|q| (q.x, q.y)), Some((2, 2)));
}

#[test]
fn map_needs_enough_pixels() {
    assert!(GrayMap::from_luma(3, 3, vec![0u8; 8]).is_none());
    assert!(GrayMap::from_luma(3, 3, vec![0u8; 9]).is_some());
    assert!(GrayMap::from_luma(3, 3, vec![0u8; 12]).is_some());
}

/// Adding walls only ever shortens a ray.
#[test]
fn more_walls_only_shorten_a_ray() {
    let line: Vec<(i32, i32)> = robosim::supercover::supercover_points(Point::new(0, 0), Point::new(7, 3))
        .iter()
        .map(|p| (p.x, p.y))
        .collect();
    let index_of = |p: Point| line.iter().position(|&c| c == (p.x, p.y)).unwrap();
    let few = map_with_walls(8, 4, &[(6, 3)]);
    let more = map_with_walls(8, 4, &[(6, 3), (3, 1)]);
    let r_few = supercover_line(Point::new(0, 0), Point::new(7, 3), &few);
    let r_more = supercover_line(Point::new(0, 0), Point::new(7, 3), &more);
    assert!(index_of(r_more) <= index_of(r_few));
    assert_eq!((r_more.x, r_more.y), (3, 1));
}
