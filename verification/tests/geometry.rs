use roguelike_algorithms::geometry::circle::{circle, circle_no_diagonals};

use roguelike_algorithms::geometry::{Octant, Quadrant};
use roguelike_algorithms::Point;

fn max_abs(a: i16, b: i16) -> usize {
    let aa = if a < 0 { -(a as i32) } else { a as i32 };
    let bb = if b < 0 { -(b as i32) } else { b as i32 };
    if aa > bb {
        aa as usize
    } else {
        bb as usize
    }
}

#[test]
fn octant_round_trip_every_tag() {
    let points: [Point; 6] = [(0, 0), (3, 1), (-2, 5), (7, -4), (-6, -6), (1, 0)];
    for o in Octant::all() {
        for &p in points.iter() {
            assert_eq!(o.from_octant0((0, 0), o.to_octant0(p)), p);
            assert_eq!(o.to_octant0(o.from_octant0((0, 0), p)), p);
        }
    }
}

#[test]
fn quadrant_round_trip_every_tag() {
    let points: [Point; 6] = [(0, 0), (3, 1), (-2, 5), (7, -4), (-6, -6), (0, 2)];
    for q in Quadrant::all() {
        for &p in points.iter() {
            assert_eq!(q.from_quadrant0((0, 0), q.to_quadrant0(p)), p);
            assert_eq!(q.to_quadrant0(q.from_quadrant0((0, 0), p)), p);
            assert_eq!(
                q.to_quadrant0_rotating(q.from_quadrant0_rotating((0, 0), p)),
                p
            );
            assert_eq!(
                q.from_quadrant0_rotating((0, 0), q.to_quadrant0_rotating(p)),
                p
            );
        }
    }
}

#[test]
fn octant_from_points_canonicalizes() {
    let pairs: [(Point, Point); 5] = [
        ((0, 0), (5, 2)),
        ((0, 0), (-3, 7)),
        ((2, 2), (1, -4)),
        ((-1, -1), (-1, -1)),
        ((4, 4), (4, 9)),
    ];
    for &(a, b) in pairs.iter() {
        let (o, (dx, dy)) = Octant::from_points(a, b);
        assert!(o.0 < 8);
        assert!(0 <= dy && dy <= dx);
        // The canonical delta transforms back to the original displacement.
        assert_eq!(o.from_octant0(a, (dx, dy)), b);
    }
}

#[test]
fn quadrant_from_points_canonicalizes() {
    let pairs: [(Point, Point); 4] =
        [((0, 0), (5, 2)), ((0, 0), (-3, 7)), ((2, 2), (1, -4)), ((1, 1), (1, 1))];
    for &(a, b) in pairs.iter() {
        let (q, (dx, dy)) = Quadrant::from_points(a, b);
        assert!(q.0 < 4);
        assert!(dx >= 0 && dy >= 0);
        assert_eq!(q.from_quadrant0(a, (dx, dy)), b);
        let (qr, (rx, ry)) = Quadrant::from_points_rotating(a, b);
        assert!(qr.0 < 4);
        assert!(rx >= 0 && ry >= 0);
        assert_eq!(qr.from_quadrant0_rotating(a, (rx, ry)), b);
    }
}

#[test]
fn octant_all_yields_eight() {
    let all = Octant::all();
    assert_eq!(all.len(), 8);
    for (i, o) in all.iter().enumerate() {
        assert_eq!(o.0 as usize, i);
    }
}

#[test]
fn quadrant_all_yields_four() {
    let all = Quadrant::all();
    assert_eq!(all.len(), 4);
    for (i, q) in all.iter().enumerate() {
        assert_eq!(q.0 as usize, i);
    }
}

#[test]
fn line_shallow_exact_points() {
    let pts = roguelike_algorithms::geometry::line::line((0, 0), (3, 1));
    assert_eq!(pts, vec![(1, 0), (2, 1), (3, 1)]);
}

#[test]
fn line_diagonal_exact_points() {
    let pts = roguelike_algorithms::geometry::line::line((1, 1), (4, 4));
    assert_eq!(pts, vec![(2, 2), (3, 3), (4, 4)]);
}

#[test]
fn line_excludes_start_includes_end() {
    let cases: [(Point, Point); 7] = [
        ((0, 0), (5, 2)),
        ((0, 0), (-7, 3)),
        ((2, -3), (2, 9)),
        ((4, 4), (-1, -1)),
        ((0, 0), (0, 0)),
        ((10, -10), (-3, 5)),
        ((-2, 1), (6, -8)),
    ];
    for &(a, b) in cases.iter() {
        let pts = roguelike_algorithms::geometry::line::line(a, b);
        // The length is always max(|dx|, |dy|).
        assert_eq!(pts.len(), max_abs(b.0 - a.0, b.1 - a.1));
        assert!(!pts.contains(&a) || a == b);
        if a != b {
            assert_eq!(*pts.last().unwrap(), b);
        } else {
            assert!(pts.is_empty());
        }
    }
}

#[test]
fn circle_radius_zero_is_empty() {
    assert!(circle((3, 3), 0).is_empty());
    assert!(circle_no_diagonals((3, 3), 0).is_empty());
}

#[test]
fn circle_no_diagonals_radius_one_is_eight_distinct_points() {
    let pts = circle_no_diagonals((10, 10), 1);
    assert_eq!(pts.len(), 8);
    for (i, p) in pts.iter().enumerate() {
        for q in pts.iter().skip(i + 1) {
            assert_ne!(p, q);
        }
    }
    let mut sorted = pts.clone();
    sorted.sort();
    assert_eq!(
        sorted,
        vec![
            (9, 9),
            (9, 10),
            (9, 11),
            (10, 9),
            (10, 11),
            (11, 9),
            (11, 10),
            (11, 11)
        ]
    );
}

#[test]
fn circle_no_diagonals_never_repeats_a_point() {
    for r in 1..8i16 {
        let pts = circle_no_diagonals((0, 0), r);
        for (i, p) in pts.iter().enumerate() {
            for q in pts.iter().skip(i + 1) {
                assert_ne!(p, q, "radius {}", r);
            }
        }
    }
}

#[test]
fn circle_no_diagonals_stays_near_the_boundary() {
    for r in 1..8i32 {
        let pts = circle_no_diagonals((0, 0), r as i16);
        for p in pts.iter() {
            // The discrete boundary hugs the true circle: squared distance
            // roughly in [r^2, (r+1)^2), up to the walk's rounding slack.
            let d2 = (p.0 as i32) * (p.0 as i32) + (p.1 as i32) * (p.1 as i32);
            assert!(d2 >= r * r - 2 * r, "radius {} point {:?}", r, p);
            assert!(d2 < (r + 1) * (r + 1), "radius {} point {:?}", r, p);
        }
    }
}

#[test]
fn circle_no_diagonals_emits_eight_points_per_radius_step() {
    // Each octant's arc walks one axis at a time from its axis seam to the
    // diagonal, contributing exactly r points once its spare seam is
    // dropped.
    for r in 1..8i16 {
        let pts = circle_no_diagonals((0, 0), r);
        assert_eq!(pts.len(), 8 * r as usize);
    }
}

#[test]
fn circle_never_repeats_a_point() {
    for r in 1..8i16 {
        let pts = circle((0, 0), r);
        for (i, p) in pts.iter().enumerate() {
            for q in pts.iter().skip(i + 1) {
                assert_ne!(p, q, "radius {}", r);
            }
        }
    }
}

#[test]
fn line_sweep_length_and_endpoint() {
    // Every small displacement: the rasterized line has max(|dx|, |dy|)
    // points, ends at the target, and never revisits the start.
    for dx in -6..=6i16 {
        for dy in -6..=6i16 {
            let start: Point = (100, -50);
            let end: Point = (100 + dx, -50 + dy);
            let pts = roguelike_algorithms::geometry::line::line(start, end);
            assert_eq!(pts.len(), max_abs(dx, dy));
            if start != end {
                assert_eq!(*pts.last().unwrap(), end);
                assert!(!pts.contains(&start));
            }
        }
    }
}

#[test]
fn circle_radius_one_is_the_four_axis_points() {
    let pts = circle((5, 5), 1);
    assert_eq!(pts, vec![(6, 5), (5, 6), (4, 5), (5, 4)]);
}

#[test]
fn circle_radius_two_exact_points() {
    let pts = circle((0, 0), 2);
    assert_eq!(
        pts,
        vec![
            (1, 2),
            (2, 1),
            (2, 0),
            (-2, 1),
            (-1, 2),
            (0, 2),
            (-1, -2),
            (-2, -1),
            (-2, 0),
            (2, -1),
            (1, -2),
            (0, -2)
        ]
    );
}
