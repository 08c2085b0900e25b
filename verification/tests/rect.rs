use roguelike_algorithms::components::{Player, Position, Viewshed};
use roguelike_algorithms::rect::Rect;

#[test]
fn rect_new_spans_width_and_height() {
    let r = Rect::new(3, 4, 10, 5);
    assert_eq!(r.x1, 3);
    assert_eq!(r.y1, 4);
    assert_eq!(r.x2, 13);
    assert_eq!(r.y2, 9);
}

#[test]
fn rect_center_rounds_towards_zero() {
    assert_eq!(Rect::new(2, 2, 4, 4).center(), (4, 4));
    assert_eq!(Rect::new(0, 0, 5, 3).center(), (2, 1));
    assert_eq!(Rect::new(-7, -7, 4, 4).center(), (-5, -5));
}

#[test]
fn rect_intersect_counts_touching_edges() {
    let a = Rect::new(0, 0, 4, 4);
    let b = Rect::new(4, 4, 3, 3);
    let c = Rect::new(5, 5, 2, 2);
    assert!(a.intersect(&b));
    assert!(b.intersect(&a));
    assert!(!a.intersect(&c));
    assert!(a.intersect(&a));
}

#[test]
fn components_hold_their_values() {
    let pos = Position { x: 7, y: -2 };
    assert_eq!((pos.x, pos.y), (7, -2));
    let _marker = Player {};
    let vs = Viewshed { visible_tiles: vec![(1, 1), (2, 2)], range: 6 };
    assert_eq!(vs.range, 6);
    assert_eq!(vs.visible_tiles.len(), 2);
}
