use gridpath::geometry::{
    axis_gap, distance2d_chebyshev, distance2d_manhattan, distance2d_pythagoras_squared,
    distance3d_manhattan, distance3d_pythagoras_squared, line2d, to_points, DistanceAlg, Point,
    Point3,
};

/// The distance as a float, from the whole-number distances of the library.
fn distance2d(algorithm: DistanceAlg, start: Point, end: Point) -> f32 {
    match algorithm {
        DistanceAlg::Pythagoras => f32::sqrt(distance2d_pythagoras_squared(start, end) as f32),
        DistanceAlg::PythagorasSquared => distance2d_pythagoras_squared(start, end) as f32,
        DistanceAlg::Manhattan => distance2d_manhattan(start, end) as f32,
        DistanceAlg::Chebyshev => distance2d_chebyshev(start, end) as f32,
    }
}

fn distance3d(algorithm: DistanceAlg, start: Point3, end: Point3) -> f32 {
    match algorithm {
        DistanceAlg::Pythagoras => f32::sqrt(distance3d_pythagoras_squared(start, end) as f32),
        DistanceAlg::PythagorasSquared => distance3d_pythagoras_squared(start, end) as f32,
        DistanceAlg::Manhattan => distance3d_manhattan(start, end) as f32,
        DistanceAlg::Chebyshev => f32::sqrt(distance3d_pythagoras_squared(start, end) as f32),
    }
}

#[test]
fn test_pythagoras_distance() {
    let mut d = distance2d(DistanceAlg::Pythagoras, Point::new(0, 0), Point::new(5, 0));
    assert_eq!(d, 5.0);

    d = distance2d(DistanceAlg::Pythagoras, Point::new(0, 0), Point::new(-5, 0));
    assert_eq!(d, 5.0);

    d = distance2d(DistanceAlg::Pythagoras, Point::new(0, 0), Point::new(0, 5));
    assert_eq!(d, 5.0);

    d = distance2d(DistanceAlg::Pythagoras, Point::new(0, 0), Point::new(0, -5));
    assert_eq!(d, 5.0);

    d = distance2d(DistanceAlg::Pythagoras, Point::new(0, 0), Point::new(5, 5));
    assert_eq!(d, 7.071068);
}

#[test]
fn test_pythagoras_distance3d() {
    let mut d = distance3d(DistanceAlg::Pythagoras, Point3::new(0, 0, 0), Point3::new(5, 0, 0));
    assert_eq!(d, 5.0);

    d = distance3d(DistanceAlg::Pythagoras, Point3::new(0, 0, 0), Point3::new(-5, 0, 0));
    assert_eq!(d, 5.0);

    d = distance3d(DistanceAlg::Pythagoras, Point3::new(0, 0, 0), Point3::new(5, 5, 5));
    assert_eq!(d, 8.6602545);
}

#[test]
fn test_pythagoras_squared_distance() {
    let mut d = distance2d(DistanceAlg::PythagorasSquared, Point::new(0, 0), Point::new(5, 0));
    assert_eq!(d, 25.0);

    d = distance2d(DistanceAlg::PythagorasSquared, Point::new(0, 0), Point::new(-5, 0));
    assert_eq!(d, 25.0);

    d = distance2d(DistanceAlg::PythagorasSquared, Point::new(0, 0), Point::new(0, 5));
    assert_eq!(d, 25.0);

    d = distance2d(DistanceAlg::PythagorasSquared, Point::new(0, 0), Point::new(0, -5));
    assert_eq!(d, 25.0);

    d = distance2d(DistanceAlg::PythagorasSquared, Point::new(0, 0), Point::new(5, 5));
    assert_eq!(d, 50.0);
}

#[test]
fn test_pythagoras_squared_distance3d() {
    let mut d =
        distance3d(DistanceAlg::PythagorasSquared, Point3::new(0, 0, 0), Point3::new(5, 0, 0));
    assert_eq!(d, 25.0);

    d = distance3d(DistanceAlg::PythagorasSquared, Point3::new(0, 0, 0), Point3::new(-5, 0, 0));
    assert_eq!(d, 25.0);

    d = distance3d(DistanceAlg::PythagorasSquared, Point3::new(0, 0, 0), Point3::new(5, 5, 5));
    assert_eq!(d, 75.0);
}

#[test]
fn test_manhattan_distance() {
    let mut d = distance2d(DistanceAlg::Manhattan, Point::new(0, 0), Point::new(5, 0));
    assert_eq!(d, 5.0);

    d = distance2d(DistanceAlg::Manhattan, Point::new(0, 0), Point::new(-5, 0));
    assert_eq!(d, 5.0);

    d = distance2d(DistanceAlg::Manhattan, Point::new(0, 0), Point::new(0, 5));
    assert_eq!(d, 5.0);

    d = distance2d(DistanceAlg::Manhattan, Point::new(0, 0), Point::new(0, -5));
    assert_eq!(d, 5.0);

    d = distance2d(DistanceAlg::Manhattan, Point::new(0, 0), Point::new(5, 5));
    assert_eq!(d, 10.0);
}

#[test]
fn test_manhattan_distance3d() {
    let mut d = distance3d(DistanceAlg::Manhattan, Point3::new(0, 0, 0), Point3::new(5, 0, 0));
    assert_eq!(d, 5.0);

    d = distance3d(DistanceAlg::Manhattan, Point3::new(0, 0, 0), Point3::new(-5, 0, 0));
    assert_eq!(d, 5.0);

    d = distance3d(DistanceAlg::Manhattan, Point3::new(0, 0, 0), Point3::new(5, 5, 5));
    assert_eq!(d, 15.0);
}

#[test]
fn test_chebyshev_distance() {
    let mut d = distance2d(DistanceAlg::Chebyshev, Point::new(0, 0), Point::new(5, 0));
    assert_eq!(d, 5.0);

    d = distance2d(DistanceAlg::Chebyshev, Point::new(0, 0), Point::new(-5, 0));
    assert_eq!(d, 5.0);

    d = distance2d(DistanceAlg::Chebyshev, Point::new(0, 0), Point::new(0, 5));
    assert_eq!(d, 5.0);

    d = distance2d(DistanceAlg::Chebyshev, Point::new(0, 0), Point::new(0, -5));
    assert_eq!(d, 5.0);

    d = distance2d(DistanceAlg::Chebyshev, Point::new(0, 0), Point::new(5, 5));
    assert_eq!(d, 5.0);
}

#[test]
fn whole_number_distances() {
    let a = Point::new(-3, 4);
    let b = Point::new(2, -8);
    assert_eq!(axis_gap(-3, 2), 5);
    assert_eq!(axis_gap(2, -3), 5);
    assert_eq!(axis_gap(7, 7), 0);
    assert_eq!(distance2d_manhattan(a, b), 17);
    assert_eq!(distance2d_chebyshev(a, b), 12);
    assert_eq!(distance2d_chebyshev(b, a), 12);
    assert_eq!(distance2d_pythagoras_squared(a, b), 169);
    let c = Point3::new(1, 2, 3);
    let d = Point3::new(4, -2, 15);
    assert_eq!(distance3d_manhattan(c, d), 19);
    assert_eq!(distance3d_pythagoras_squared(c, d), 169);
}

#[test]
fn distances_between_the_farthest_points() {
    let low = Point::new(i32::MIN, i32::MIN);
    let high = Point::new(i32::MAX, i32::MAX);
    assert_eq!(axis_gap(i32::MIN, i32::MAX), u32::MAX);
    assert_eq!(distance2d_manhattan(low, high), 2 * (u32::MAX as u64));
    assert_eq!(distance2d_chebyshev(low, high), u32::MAX as u64);
    assert_eq!(
        distance2d_pythagoras_squared(low, high),
        2 * (u32::MAX as u128) * (u32::MAX as u128)
    );
    let low = Point3::new(i32::MIN, i32::MIN, i32::MIN);
    let high = Point3::new(i32::MAX, i32::MAX, i32::MAX);
    assert_eq!(distance3d_manhattan(low, high), 3 * (u32::MAX as u64));
    assert_eq!(
        distance3d_pythagoras_squared(high, low),
        3 * (u32::MAX as u128) * (u32::MAX as u128)
    );
}

#[test]
fn points_compare_by_their_coordinates() {
    assert_eq!(Point::new(1, 2), Point { x: 1, y: 2 });
    assert_ne!(Point::new(1, 2), Point::new(2, 1));
    assert_eq!(Point3::new(1, 2, 3), Point3 { x: 1, y: 2, z: 3 });
    assert_ne!(DistanceAlg::Manhattan, DistanceAlg::Chebyshev);
}

#[test]
fn line_leaves_out_its_end() {
    let line = line2d(Point::new(0, 1), Point::new(6, 4));
    assert_eq!(
        line,
        vec![
            Point::new(0, 1),
            Point::new(1, 1),
            Point::new(2, 2),
            Point::new(3, 2),
            Point::new(4, 3),
            Point::new(5, 3),
        ]
    );
}

#[test]
fn line_in_other_directions() {
    let line = line2d(Point::new(6, 4), Point::new(0, 1));
    assert_eq!(
        line,
        vec![
            Point::new(6, 4),
            Point::new(5, 4),
            Point::new(4, 3),
            Point::new(3, 3),
            Point::new(2, 2),
            Point::new(1, 2),
        ]
    );
    assert_eq!(
        line2d(Point::new(2, 3), Point::new(2, 6)),
        vec![Point::new(2, 3), Point::new(2, 4), Point::new(2, 5)]
    );
    assert_eq!(line2d(Point::new(-2, -2), Point::new(-2, -2)), Vec::new());
}

#[test]
fn pairs_become_points() {
    assert_eq!(to_points(&vec![(1, -2), (3, 4)]), vec![Point::new(1, -2), Point::new(3, 4)]);
    assert_eq!(to_points(&Vec::new()), Vec::new());
    assert_eq!(to_points(&vec![(1isize << 32, -1)]), vec![Point::new(0, -1)]);
}
