use roguelike_algorithms::fov::{ray_casting_fov, shadow_casting_fov, GridMap, Map2D};
use roguelike_algorithms::Point;
use std::collections::BTreeSet;

fn open_map(w: i16, h: i16) -> GridMap {
    GridMap::new(w, h, false)
}

fn shadow_set(map: &GridMap, start: Point, range: i16) -> BTreeSet<Point> {
    shadow_casting_fov(map, start, range).into_iter().collect()
}

fn ray_set(map: &GridMap, start: Point, range: i16) -> BTreeSet<Point> {
    ray_casting_fov(map, start, range).into_iter().collect()
}

#[test]
fn both_report_the_observer_first() {
    let map = open_map(9, 9);
    let shadow = shadow_casting_fov(&map, (4, 4), 3);
    let ray = ray_casting_fov(&map, (4, 4), 3);
    assert_eq!(shadow[0], (4, 4));
    assert_eq!(ray[0], (4, 4));
}

#[test]
fn both_report_only_points_in_bounds() {
    let mut map = open_map(5, 5);
    map.set_opaque((2, 3), true);
    for p in shadow_casting_fov(&map, (1, 1), 4) {
        assert!(map.is_in_bound(p), "{:?}", p);
    }
    for p in ray_casting_fov(&map, (1, 1), 4) {
        assert!(map.is_in_bound(p), "{:?}", p);
    }
}

#[test]
fn shadow_open_map_yields_exactly_the_closed_disc() {
    // The primary acceptance test: on an open map with generous bounds the
    // visible set is the closed euclidean disc, not a square or diamond.
    let map = open_map(21, 21);
    let start: Point = (10, 10);
    let range: i16 = 5;
    let got = shadow_set(&map, start, range);
    let mut want = BTreeSet::new();
    for x in 0..21i16 {
        for y in 0..21i16 {
            let dx = (x - start.0) as i32;
            let dy = (y - start.1) as i32;
            if dx * dx + dy * dy <= (range as i32) * (range as i32) {
                want.insert((x, y));
            }
        }
    }
    assert_eq!(got, want);
}

#[test]
fn shadow_range_zero_yields_only_the_observer() {
    let map = open_map(5, 5);
    assert_eq!(shadow_casting_fov(&map, (2, 2), 0), vec![(2, 2)]);
    assert_eq!(ray_casting_fov(&map, (2, 2), 0), vec![(2, 2)]);
}

#[test]
fn single_cell_room_sees_only_itself() {
    // A fully enclosed single-cell room: the enclosure is everything
    // outside the map's one-cell bounds, so only the observer is reported.
    let map = open_map(1, 1);
    assert_eq!(shadow_casting_fov(&map, (0, 0), 3), vec![(0, 0)]);
    assert_eq!(ray_casting_fov(&map, (0, 0), 3), vec![(0, 0)]);
}

#[test]
fn shadow_wall_casts_a_shadow_but_not_sideways() {
    // A single one-cell wall right next to the observer: the cell straight
    // behind it is hidden, the wall itself and the cells diagonally past
    // its end stay visible.
    let mut map = open_map(9, 9);
    map.set_opaque((5, 4), true);
    let seen = shadow_set(&map, (4, 4), 4);
    assert!(seen.contains(&(5, 4)), "the blocking wall itself is visible");
    assert!(!seen.contains(&(6, 4)), "the cell straight behind is shadowed");
    assert!(!seen.contains(&(7, 4)), "the shadow extends outward");
    assert!(seen.contains(&(5, 5)), "the open cell above the wall is visible");
    assert!(seen.contains(&(6, 6)), "the diagonal past the wall's end is visible");
}

#[test]
fn ray_wall_stops_the_line_behind_it() {
    let mut map = open_map(9, 9);
    map.set_opaque((5, 4), true);
    let seen = ray_set(&map, (4, 4), 4);
    assert!(seen.contains(&(5, 4)));
    assert!(!seen.contains(&(6, 4)));
    assert!(!seen.contains(&(8, 4)));
}

#[test]
fn identical_calls_report_identical_sequences() {
    let mut map = open_map(13, 13);
    map.set_opaque((7, 6), true);
    map.set_opaque((3, 3), true);
    map.set_opaque((6, 9), true);
    let a = shadow_casting_fov(&map, (6, 6), 5);
    let b = shadow_casting_fov(&map, (6, 6), 5);
    assert_eq!(a, b);
    let c = ray_casting_fov(&map, (6, 6), 5);
    let d = ray_casting_fov(&map, (6, 6), 5);
    assert_eq!(c, d);
}

#[test]
fn shadow_reports_nothing_beyond_the_range() {
    let map = open_map(31, 31);
    let start: Point = (15, 15);
    for range in [1i16, 3, 7] {
        for p in shadow_casting_fov(&map, start, range) {
            let dx = (p.0 - start.0) as i32;
            let dy = (p.1 - start.1) as i32;
            assert!(dx * dx + dy * dy <= (range as i32) * (range as i32));
        }
    }
}

#[test]
fn enclosed_room_shows_its_walls() {
    // A 3x3 room with an opaque border around an open centre: both
    // algorithms see the walls but nothing beyond them.
    let mut map = open_map(7, 7);
    for i in 0..7i16 {
        for j in 0..7i16 {
            let edge_x = i == 2 || i == 4;
            let edge_y = j == 2 || j == 4;
            let on_ring = (edge_x && (2..=4).contains(&j)) || (edge_y && (2..=4).contains(&i));
            if on_ring {
                map.set_opaque((i, j), true);
            }
        }
    }
    let seen = shadow_set(&map, (3, 3), 3);
    let mut want = BTreeSet::new();
    for i in 2..=4i16 {
        for j in 2..=4i16 {
            want.insert((i, j));
        }
    }
    assert_eq!(seen, want);
    let rays = ray_set(&map, (3, 3), 3);
    assert_eq!(rays, want);
}

#[test]
fn grid_map_bounds_and_opacity() {
    let mut map = GridMap::new(4, 3, false);
    assert_eq!(map.width(), 4);
    assert_eq!(map.height(), 3);
    assert!(map.is_in_bound((0, 0)));
    assert!(map.is_in_bound((3, 2)));
    assert!(!map.is_in_bound((4, 0)));
    assert!(!map.is_in_bound((0, 3)));
    assert!(!map.is_in_bound((-1, 1)));
    assert!(!map.is_opaque((1, 1)));
    map.set_opaque((1, 1), true);
    assert!(map.is_opaque((1, 1)));
    assert!(!map.is_opaque((1, 2)));
    map.set_opaque((1, 1), false);
    assert!(!map.is_opaque((1, 1)));
    // Out-of-bounds cells count as opaque.
    assert!(map.is_opaque((9, 9)));
}

#[test]
fn all_walls_map_still_reports_adjacent_walls() {
    let map = GridMap::new(5, 5, true);
    let seen = shadow_set(&map, (2, 2), 2);
    assert!(seen.contains(&(2, 2)));
    assert!(seen.contains(&(3, 2)));
    assert!(seen.contains(&(2, 3)));
    assert!(!seen.contains(&(4, 2)));
}
