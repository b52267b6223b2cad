use simplex_engine::problem::{Constraint, Direction, Objective, Problem, Relation};
use simplex_engine::rational::Rational;

fn numbers(values: &[i64]) -> Vec<Rational> {
    values.iter().map(|v| Rational::from_i64(*v)).collect()
}

fn bound(coefficients: &[i64], relation: Relation, rhs: i64) -> Constraint {
    Constraint { coefficients: numbers(coefficients), rhs: Rational::from_i64(rhs), relation }
}

fn goal(coefficients: &[i64]) -> Objective {
    Objective { coefficients: numbers(coefficients), direction: Direction::Maximize }
}

#[test]
fn problem_needs_a_constraint() {
    assert!(Problem::new(goal(&[1, 2]), Vec::new()).is_none());
}

#[test]
fn problem_needs_one_coefficient_for_each_variable() {
    let short = vec![bound(&[1, 2], Relation::AtMost, 3), bound(&[1], Relation::AtMost, 3)];
    assert!(Problem::new(goal(&[1, 2]), short).is_none());
    let long = vec![bound(&[1, 2, 3], Relation::AtMost, 3)];
    assert!(Problem::new(goal(&[1, 2]), long).is_none());
}

#[test]
fn problem_keeps_its_parts() {
    let constraints = vec![bound(&[1, 2], Relation::AtMost, 3), bound(&[4, 5], Relation::AtLeast, 6)];
    let p = Problem::new(goal(&[7, 8]), constraints).expect("a problem");
    assert_eq!(p.variables(), 2);
    assert_eq!(p.rows(), 2);
    assert_eq!(p.columns(), 4);
    assert_eq!(p.objective().direction, Direction::Maximize);
    assert!(p.objective().coefficients[1].eq(&Rational::from_i64(8)));
    assert_eq!(p.constraints().len(), 2);
    assert_eq!(p.constraints()[1].relation, Relation::AtLeast);
    assert!(p.constraints()[1].coefficients[0].eq(&Rational::from_i64(4)));
    assert!(p.constraints()[1].rhs.eq(&Rational::from_i64(6)));
}

#[test]
fn problem_without_variables_is_accepted() {
    let p = Problem::new(goal(&[]), vec![bound(&[], Relation::AtMost, 3)]).expect("a problem");
    assert_eq!(p.variables(), 0);
    assert_eq!(p.columns(), 1);
}

#[test]
fn relation_and_direction_are_written_as_symbols() {
    assert_eq!(Relation::AtLeast.symbol(), ">=");
    assert_eq!(Relation::AtMost.symbol(), "<=");
    assert_eq!(Direction::Maximize.label(), "Max");
    assert_eq!(Direction::Minimize.label(), "Min");
}
