use simplex_engine::problem::{Constraint, Direction, Objective, Problem, Relation};
use simplex_engine::rational::Rational;
use simplex_engine::region::{feasible_region_points, find_intersection, if_valid, Line, Point};

fn whole(values: &[i64]) -> Vec<Rational> {
    values.iter().map(|v| Rational::from_i64(*v)).collect()
}

fn half_plane(a: i64, b: i64, relation: Relation, rhs: i64) -> Constraint {
    Constraint { coefficients: whole(&[a, b]), rhs: Rational::from_i64(rhs), relation }
}

fn plane_problem(constraints: Vec<Constraint>) -> Problem {
    let objective = Objective { coefficients: whole(&[1, 1]), direction: Direction::Maximize };
    Problem::new(objective, constraints).unwrap()
}

fn line(a: i64, b: i64, c: i64) -> Line {
    Line { a: Rational::from_i64(a), b: Rational::from_i64(b), c: Rational::from_i64(c) }
}

fn at(point: &Point, x: (i64, i64), y: (i64, i64)) -> bool {
    point.x.eq(&Rational::from_ratio(x.0, x.1).unwrap())
        && point.y.eq(&Rational::from_ratio(y.0, y.1).unwrap())
}

fn triangle() -> Vec<Constraint> {
    vec![
        half_plane(1, 1, Relation::AtMost, 4),
        half_plane(1, 0, Relation::AtLeast, 1),
        half_plane(0, 1, Relation::AtLeast, 1),
    ]
}

#[test]
fn validity_checks_the_square_with_its_tolerance() {
    let none: Vec<Constraint> = Vec::new();
    let zero = Rational::from_i64(0);
    let just_outside = Rational::from_ratio(-2, 100000).unwrap();
    let just_inside = Rational::from_ratio(-1, 100000).unwrap();
    assert!(if_valid(&none, &zero, &zero));
    assert!(if_valid(&none, &just_inside, &zero));
    assert!(!if_valid(&none, &just_outside, &zero));
    assert!(!if_valid(&none, &zero, &just_outside));
    let far = Rational::from_ratio(1000000001, 100000).unwrap();
    let too_far = Rational::from_ratio(1000000002, 100000).unwrap();
    assert!(if_valid(&none, &far, &far));
    assert!(!if_valid(&none, &too_far, &zero));
    assert!(!if_valid(&none, &zero, &too_far));
}

#[test]
fn validity_checks_every_constraint_exactly() {
    let cs = triangle();
    let one = Rational::from_i64(1);
    let two = Rational::from_i64(2);
    let three = Rational::from_i64(3);
    assert!(if_valid(&cs, &one, &one));
    assert!(if_valid(&cs, &one, &three));
    assert!(if_valid(&cs, &two, &two));
    assert!(!if_valid(&cs, &two, &three));
    assert!(!if_valid(&cs, &Rational::from_ratio(99999, 100000).unwrap(), &one));
    assert!(!if_valid(&cs, &three, &Rational::from_i64(0)));
}

#[test]
fn parallel_lines_do_not_cross() {
    let none: Vec<Constraint> = Vec::new();
    assert!(find_intersection(&none, &line(1, 1, 2), &line(2, 2, 7)).is_none());
    assert!(find_intersection(&none, &line(1, 1, 2), &line(1, 1, 2)).is_none());
}

#[test]
fn crossing_is_found_by_the_determinant() {
    let none: Vec<Constraint> = Vec::new();
    let point = find_intersection(&none, &line(2, 3, 12), &line(1, -1, 2)).expect("a crossing");
    assert!(at(&point, (18, 5), (8, 5)));
    let swapped = find_intersection(&none, &line(1, -1, 2), &line(2, 3, 12)).expect("a crossing");
    assert!(at(&swapped, (18, 5), (8, 5)));
}

#[test]
fn crossing_outside_the_region_is_dropped() {
    let none: Vec<Constraint> = Vec::new();
    assert!(find_intersection(&none, &line(1, 1, -2), &line(1, -1, 0)).is_none());
    let cs = triangle();
    assert!(find_intersection(&cs, &line(1, 1, 4), &line(0, 1, 0)).is_none());
    assert!(find_intersection(&cs, &line(1, 1, 4), &line(0, 1, 1)).is_some());
}

#[test]
fn region_of_a_triangle() {
    let points = feasible_region_points(&plane_problem(triangle()));
    let expected = [(1, 3), (3, 1), (1, 3), (1, 1), (3, 1), (1, 1)];
    assert_eq!(points.len(), expected.len());
    for (point, (x, y)) in points.iter().zip(expected.iter()) {
        assert!(at(point, (*x, 1), (*y, 1)));
    }
}

#[test]
fn region_of_repeated_lower_bounds_reaches_the_square() {
    let bounds = vec![
        half_plane(1, 1, Relation::AtLeast, 1),
        half_plane(1, 1, Relation::AtLeast, 1),
        half_plane(1, 1, Relation::AtLeast, 1),
    ];
    let points = feasible_region_points(&plane_problem(bounds));
    let expected =
        [(1, 0), (0, 1), (1, 0), (0, 1), (1, 0), (0, 1), (10000, 0), (10000, 10000), (0, 10000)];
    assert_eq!(points.len(), expected.len());
    for (point, (x, y)) in points.iter().zip(expected.iter()) {
        assert!(at(point, (*x, 1), (*y, 1)));
    }
}

#[test]
fn region_with_fractional_corner() {
    let cs = vec![
        half_plane(2, 3, Relation::AtMost, 12),
        half_plane(1, -1, Relation::AtMost, 2),
        half_plane(1, 1, Relation::AtMost, 20000),
    ];
    let points = feasible_region_points(&plane_problem(cs));
    assert_eq!(points.len(), 5);
    assert!(at(&points[0], (18, 5), (8, 5)));
    assert!(at(&points[1], (0, 1), (4, 1)));
    assert!(at(&points[2], (18, 5), (8, 5)));
    assert!(at(&points[3], (2, 1), (0, 1)));
    assert!(at(&points[4], (0, 1), (0, 1)));
}

#[test]
fn empty_region_has_no_points() {
    let points = feasible_region_points(&plane_problem(vec![half_plane(1, 1, Relation::AtMost, -1)]));
    assert_eq!(points.len(), 0);
}

#[test]
fn region_is_drawn_for_two_variables_only() {
    let objective = Objective { coefficients: whole(&[7, 8, 6, 5]), direction: Direction::Maximize };
    let constraints = vec![Constraint {
        coefficients: whole(&[1, 3, 5, 3]),
        rhs: Rational::from_i64(40),
        relation: Relation::AtMost,
    }];
    let p = Problem::new(objective, constraints).unwrap();
    assert_eq!(feasible_region_points(&p).len(), 0);
}
