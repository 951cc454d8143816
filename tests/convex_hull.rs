use rgeometry::{convex_hull, Error, Orientation, Point};
use std::cmp::Ordering;

fn pts(coords: &[[i64; 2]]) -> Vec<Point> {
    coords.iter().map(|c| Point::new(*c)).collect()
}

fn coords(h: &rgeometry::ConvexPolygon) -> Vec<[i64; 2]> {
    h.points().iter().map(|p| p.array).collect()
}

#[test]
fn hull_of_square() {
    let h = convex_hull(pts(&[[0, 0], [1, 0], [1, 1], [0, 1]])).unwrap();
    assert_eq!(coords(&h), vec![[0, 0], [1, 0], [1, 1], [0, 1]]);
}

#[test]
fn hull_of_square_drops_interior_point() {
    let h = convex_hull(pts(&[[1, 1], [0, 2], [2, 2], [2, 0], [0, 0]])).unwrap();
    assert_eq!(coords(&h), vec![[0, 0], [2, 0], [2, 2], [0, 2]]);
    assert_eq!(h.len(), 4);
}

#[test]
fn hull_drops_points_on_edges() {
    let h = convex_hull(pts(&[[0, 0], [1, 0], [2, 0], [2, 1], [2, 2], [1, 1], [0, 2], [0, 1]])).unwrap();
    assert_eq!(coords(&h), vec![[0, 0], [2, 0], [2, 2], [0, 2]]);
}

#[test]
fn hull_backtracks_over_several_points() {
    // The last point makes both earlier candidates lie inside.
    let h = convex_hull(pts(&[[0, 0], [10, 1], [9, 3], [7, 5], [-1, 20]])).unwrap();
    let c = coords(&h);
    assert_eq!(c[0], [0, 0]);
    let n = c.len();
    for i in 0..n {
        let o = Orientation::new(&c[i], &c[(i + 1) % n], &c[(i + 2) % n]);
        assert_eq!(o, Orientation::CounterClockWise);
    }
}

#[test]
fn hull_every_turn_ccw_and_all_points_inside() {
    let input = [
        [3, 1], [-4, 2], [0, -5], [7, 7], [2, 2], [-3, -3], [6, -2], [0, 8], [1, 0], [-6, 0],
        [0, -5], [4, 4],
    ];
    let h = convex_hull(pts(&input)).unwrap();
    let c = coords(&h);
    assert_eq!(c[0], [0, -5]);
    let n = c.len();
    for i in 0..n {
        assert!(Orientation::new(&c[i], &c[(i + 1) % n], &c[(i + 2) % n]).is_ccw());
        for p in input.iter() {
            assert!(!Orientation::new(&c[i], &c[(i + 1) % n], p).is_cw());
        }
    }
}

#[test]
fn hull_at_coordinate_extremes() {
    let m = i64::MAX;
    let l = i64::MIN;
    let h = convex_hull(pts(&[[l, l], [m, l], [m, m], [l, m], [0, 0]])).unwrap();
    assert_eq!(coords(&h), vec![[l, l], [m, l], [m, m], [l, m]]);
}

#[test]
fn hull_of_one_point() {
    let h = convex_hull(pts(&[[4, -2]])).unwrap();
    assert_eq!(coords(&h), vec![[4, -2]]);
}

#[test]
fn hull_of_two_points() {
    let h = convex_hull(pts(&[[5, 5], [1, 2]])).unwrap();
    assert_eq!(coords(&h), vec![[1, 2], [5, 5]]);
    let h = convex_hull(pts(&[[3, 3], [3, 3]])).unwrap();
    assert_eq!(coords(&h), vec![[3, 3], [3, 3]]);
}

#[test]
fn hull_of_colinear_points() {
    let h = convex_hull(pts(&[[2, 2], [0, 0], [3, 3], [1, 1]])).unwrap();
    assert_eq!(coords(&h), vec![[0, 0], [3, 3]]);
}

#[test]
fn hull_of_nothing_is_an_error() {
    assert_eq!(convex_hull(Vec::new()).unwrap_err(), Error::InsufficientInput);
}

#[test]
fn distance_comparison() {
    let o = Point::new([0, 0]);
    assert_eq!(o.cmp_distance_to(&Point::new([3, 4]), &Point::new([5, 0])), Ordering::Equal);
    assert_eq!(o.cmp_distance_to(&Point::new([1, 1]), &Point::new([0, 2])), Ordering::Less);
    let far = Point::new([i64::MIN, i64::MIN]);
    let m = Point::new([i64::MAX, i64::MAX]);
    assert_eq!(far.cmp_distance_to(&m, &Point::new([i64::MAX, i64::MAX - 1])), Ordering::Greater);
    assert_eq!(o.x_coord(), 0);
    assert_eq!(m.y_coord(), i64::MAX);
}
