use simplex_engine::engine::{
    build_tableau, change_basis, copy_row, delta_row, first_most_negative, first_most_positive,
    is_optimal, ratio_test, read_solution, rhs_values,
};
use simplex_engine::problem::{Constraint, Direction, Objective, Problem, Relation};
use simplex_engine::rational::Rational;

fn r(n: i64, d: i64) -> Rational {
    Rational::from_ratio(n, d).unwrap()
}

fn ints(values: &[i64]) -> Vec<Rational> {
    values.iter().map(|v| Rational::from_i64(*v)).collect()
}

fn table(rows: &[&[i64]]) -> Vec<Vec<Rational>> {
    rows.iter().map(|row| ints(row)).collect()
}

fn is_row(actual: &Vec<Rational>, expected: &[(i64, i64)]) -> bool {
    actual.len() == expected.len()
        && actual.iter().zip(expected.iter()).all(|(a, (n, d))| a.eq(&r(*n, *d)))
}

fn mixed_problem() -> Problem {
    let objective = Objective { coefficients: ints(&[3, -2]), direction: Direction::Minimize };
    let constraints = vec![
        Constraint { coefficients: ints(&[1, 2]), rhs: Rational::from_i64(4), relation: Relation::AtMost },
        Constraint { coefficients: ints(&[3, -1]), rhs: Rational::from_i64(5), relation: Relation::AtLeast },
        Constraint { coefficients: ints(&[0, 1]), rhs: Rational::from_i64(-6), relation: Relation::AtLeast },
    ];
    Problem::new(objective, constraints).unwrap()
}

#[test]
fn builder_negates_lower_bounds_and_seeds_the_identity() {
    let (tableau, basis) = build_tableau(&mixed_problem());
    assert_eq!(basis, vec![2, 3, 4]);
    assert_eq!(tableau.len(), 3);
    assert!(is_row(&tableau[0], &[(1, 1), (2, 1), (1, 1), (0, 1), (0, 1), (4, 1)]));
    assert!(is_row(&tableau[1], &[(-3, 1), (1, 1), (0, 1), (1, 1), (0, 1), (-5, 1)]));
    assert!(is_row(&tableau[2], &[(0, 1), (-1, 1), (0, 1), (0, 1), (1, 1), (6, 1)]));
}

#[test]
fn pivot_scales_its_row_and_clears_its_column() {
    let tableau = table(&[&[1, 3, 5, 3, 1, 0, 0, 40], &[2, 6, 1, 0, 0, 1, 0, 50], &[2, 3, 2, 5, 0, 0, 1, 30]]);
    let basis = vec![4, 5, 6];
    let (next, next_basis) = change_basis(&tableau, &basis, 1, 1);
    assert_eq!(next_basis, vec![4, 1, 6]);
    assert!(is_row(&next[0], &[(0, 1), (0, 1), (9, 2), (3, 1), (1, 1), (-1, 2), (0, 1), (15, 1)]));
    assert!(is_row(&next[1], &[(1, 3), (1, 1), (1, 6), (0, 1), (0, 1), (1, 6), (0, 1), (25, 3)]));
    assert!(is_row(&next[2], &[(1, 1), (0, 1), (3, 2), (5, 1), (0, 1), (-1, 2), (1, 1), (5, 1)]));
    assert!(is_row(&tableau[1], &[(2, 1), (6, 1), (1, 1), (0, 1), (0, 1), (1, 1), (0, 1), (50, 1)]));
    assert_eq!(basis, vec![4, 5, 6]);
}

#[test]
fn pivot_on_a_negative_entry() {
    let tableau = table(&[&[-1, -1, 1, 0, -1], &[1, 1, 0, 1, -1]]);
    let (next, next_basis) = change_basis(&tableau, &vec![2, 3], 0, 0);
    assert_eq!(next_basis, vec![0, 3]);
    assert!(is_row(&next[0], &[(1, 1), (1, 1), (-1, 1), (0, 1), (1, 1)]));
    assert!(is_row(&next[1], &[(0, 1), (0, 1), (1, 1), (1, 1), (-2, 1)]));
}

#[test]
fn pivot_keeps_the_canonical_form() {
    let tableau = table(&[&[1, 3, 5, 3, 1, 0, 0, 40], &[2, 6, 1, 0, 0, 1, 0, 50], &[2, 3, 2, 5, 0, 0, 1, 30]]);
    let (first, first_basis) = change_basis(&tableau, &vec![4, 5, 6], 1, 1);
    let (second, second_basis) = change_basis(&first, &first_basis, 2, 3);
    for (t, b) in [(&first, &first_basis), (&second, &second_basis)] {
        for (i, column) in b.iter().enumerate() {
            for (k, row) in t.iter().enumerate() {
                let expected = if k == i { 1 } else { 0 };
                assert!(row[*column].eq(&Rational::from_i64(expected)));
            }
        }
    }
}

#[test]
fn copy_of_a_row_has_the_same_values() {
    let row = vec![r(1, 2), r(-3, 4), r(0, 1)];
    assert!(is_row(&copy_row(&row), &[(1, 2), (-3, 4), (0, 1)]));
    assert_eq!(copy_row(&Vec::new()).len(), 0);
}

#[test]
fn most_negative_takes_the_first_of_the_least() {
    assert_eq!(first_most_negative(&ints(&[3, -2, -5, -5, 1]), 5), Some(2));
    assert_eq!(first_most_negative(&ints(&[3, -2, -5, -5, 1]), 2), Some(1));
    assert_eq!(first_most_negative(&ints(&[3, -2, -5, -5, 1]), 1), None);
    assert_eq!(first_most_negative(&ints(&[0, 0, 7]), 3), None);
    assert_eq!(first_most_negative(&ints(&[-1, -1]), 2), Some(0));
    assert_eq!(first_most_negative(&ints(&[-1]), 0), None);
    assert_eq!(first_most_negative(&vec![r(-1, 3), r(-1, 2), r(-2, 4)], 3), Some(1));
}

#[test]
fn most_positive_takes_the_first_of_the_greatest() {
    assert_eq!(first_most_positive(&ints(&[-3, 2, 5, 5, -1]), 5), Some(2));
    assert_eq!(first_most_positive(&ints(&[-3, 2, 5, 5, -1]), 2), Some(1));
    assert_eq!(first_most_positive(&ints(&[-3, 2, 5, 5, -1]), 1), None);
    assert_eq!(first_most_positive(&ints(&[0, 0, -7]), 3), None);
    assert_eq!(first_most_positive(&ints(&[1, 1]), 2), Some(0));
}

#[test]
fn right_hand_sides_are_the_last_entries() {
    let column = rhs_values(&table(&[&[1, 2, 3], &[4, 5, -6], &[0, 0, 0]]));
    assert!(is_row(&column, &[(3, 1), (-6, 1), (0, 1)]));
}

#[test]
fn ratio_test_takes_the_first_row_of_least_ratio() {
    let tableau = table(&[&[2, 1, 8], &[1, 1, 3], &[-1, 1, 1], &[0, 1, 0], &[2, 1, 6]]);
    assert_eq!(ratio_test(&tableau, 0), Some(1));
    assert_eq!(ratio_test(&tableau, 1), Some(3));
    let none = table(&[&[0, 1, 8], &[-1, 1, 3]]);
    assert_eq!(ratio_test(&none, 0), None);
    let tie = table(&[&[4, 8], &[1, 2], &[3, 6]]);
    assert_eq!(ratio_test(&tie, 0), Some(0));
}

#[test]
fn reduced_costs_of_the_initial_tableau_are_the_negated_objective() {
    let p = mixed_problem();
    let (tableau, basis) = build_tableau(&p);
    let delta = delta_row(&p, &tableau, &basis);
    assert!(is_row(&delta, &[(-3, 1), (2, 1), (0, 1), (0, 1), (0, 1), (0, 1)]));
}

#[test]
fn reduced_costs_count_only_basic_decision_variables() {
    let p = mixed_problem();
    let tableau = table(&[&[1, 2, 1, 0, 0, 4], &[0, 1, 0, 1, 0, 5], &[0, 0, 0, 0, 1, 6]]);
    let delta = delta_row(&p, &tableau, &vec![0, 1, 4]);
    assert!(is_row(&delta, &[(0, 1), (6, 1), (3, 1), (-2, 1), (0, 1), (2, 1)]));
}

#[test]
fn optimality_test_reads_every_entry() {
    assert!(is_optimal(Direction::Maximize, &ints(&[0, 2, 5])));
    assert!(!is_optimal(Direction::Maximize, &ints(&[0, 2, -5])));
    assert!(!is_optimal(Direction::Maximize, &ints(&[-1, 2, 5])));
    assert!(is_optimal(Direction::Minimize, &ints(&[0, -2, -5])));
    assert!(!is_optimal(Direction::Minimize, &ints(&[0, -2, 5])));
    assert!(is_optimal(Direction::Maximize, &ints(&[0, 0])));
    assert!(is_optimal(Direction::Minimize, &ints(&[0, 0])));
    assert!(is_optimal(Direction::Maximize, &Vec::new()));
}

#[test]
fn solution_gives_each_basic_variable_its_right_hand_side() {
    let tableau = table(&[&[0, 0, 9, 15], &[0, 1, 0, 20], &[1, 0, 0, 5]]);
    let x = read_solution(&tableau, &vec![2, 1, 0], 5);
    assert!(is_row(&x, &[(5, 1), (20, 1), (15, 1), (0, 1), (0, 1)]));
}
