use simplex_engine::engine::{solve, solve_within, SolveTrace};
use simplex_engine::model::Outcome;
use simplex_engine::problem::{Constraint, Direction, Objective, Problem, Relation};
use simplex_engine::rational::Rational;

fn q(n: i64, d: i64) -> Rational {
    Rational::from_ratio(n, d).unwrap()
}

fn row(values: &[i64]) -> Vec<Rational> {
    values.iter().map(|v| Rational::from_i64(*v)).collect()
}

fn problem(objective: &[i64], direction: Direction, constraints: &[(&[i64], Relation, i64)]) -> Problem {
    let objective = Objective { coefficients: row(objective), direction };
    let constraints = constraints
        .iter()
        .map(|(c, relation, rhs)| Constraint {
            coefficients: row(c),
            rhs: Rational::from_i64(*rhs),
            relation: *relation,
        })
        .collect();
    Problem::new(objective, constraints).unwrap()
}

fn same_row(actual: &Vec<Rational>, expected: &[(i64, i64)]) -> bool {
    actual.len() == expected.len()
        && actual.iter().zip(expected.iter()).all(|(a, (n, d))| a.eq(&q(*n, *d)))
}

fn dot(coefficients: &[i64], x: &[Rational]) -> Rational {
    let mut total = Rational::from_i64(0);
    for (c, v) in coefficients.iter().zip(x.iter()) {
        total = total.add(&Rational::from_i64(*c).mul(v));
    }
    total
}

fn reference_problem() -> Problem {
    problem(
        &[7, 8, 6, 5],
        Direction::Maximize,
        &[
            (&[1, 3, 5, 3], Relation::AtMost, 40),
            (&[2, 6, 1, 0], Relation::AtMost, 50),
            (&[2, 3, 2, 5], Relation::AtMost, 30),
        ],
    )
}

fn assert_same_trace(a: &SolveTrace, b: &SolveTrace) {
    assert_eq!(a.outcome, b.outcome);
    assert_eq!(a.basis_history, b.basis_history);
    assert_eq!(a.tableau_history.len(), b.tableau_history.len());
    for (ta, tb) in a.tableau_history.iter().zip(b.tableau_history.iter()) {
        assert_eq!(ta.len(), tb.len());
        for (ra, rb) in ta.iter().zip(tb.iter()) {
            assert_eq!(ra.len(), rb.len());
            assert!(ra.iter().zip(rb.iter()).all(|(x, y)| x.eq(y)));
        }
    }
    assert_eq!(a.delta_history.len(), b.delta_history.len());
    for (da, db) in a.delta_history.iter().zip(b.delta_history.iter()) {
        assert_eq!(da.len(), db.len());
        assert!(da.iter().zip(db.iter()).all(|(x, y)| x.eq(y)));
    }
    match (&a.solution, &b.solution) {
        (Some(x), Some(y)) => {
            assert_eq!(x.len(), y.len());
            assert!(x.iter().zip(y.iter()).all(|(u, v)| u.eq(v)));
        }
        (None, None) => {}
        _ => panic!("one solve has a solution and the other has none"),
    }
}

#[test]
fn bounded_maximum_is_found() {
    let trace = solve(&reference_problem());
    assert_eq!(trace.outcome, Outcome::Optimal);
    let x = trace.solution.expect("a solution");
    assert!(same_row(&x, &[(15, 1), (0, 1), (0, 1), (0, 1), (25, 1), (20, 1), (0, 1)]));
    assert!(dot(&[7, 8, 6, 5], &x).eq(&Rational::from_i64(105)));
    assert!(!Rational::from_i64(40).lt(&dot(&[1, 3, 5, 3], &x)));
    assert!(!Rational::from_i64(50).lt(&dot(&[2, 6, 1, 0], &x)));
    assert!(!Rational::from_i64(30).lt(&dot(&[2, 3, 2, 5], &x)));
    assert!(x.iter().all(|v| !v.is_negative()));
}

#[test]
fn bounded_maximum_records_every_step() {
    let trace = solve(&reference_problem());
    assert_eq!(trace.tableau_history.len(), 5);
    assert_eq!(trace.basis_history.len(), 5);
    assert_eq!(trace.delta_history.len(), 5);
    assert_eq!(
        trace.basis_history,
        vec![vec![4, 5, 6], vec![4, 1, 6], vec![4, 1, 3], vec![4, 1, 0], vec![4, 5, 0]]
    );
    let second = &trace.tableau_history[1];
    assert!(same_row(&second[0], &[(0, 1), (0, 1), (9, 2), (3, 1), (1, 1), (-1, 2), (0, 1), (15, 1)]));
    assert!(same_row(&second[1], &[(1, 3), (1, 1), (1, 6), (0, 1), (0, 1), (1, 6), (0, 1), (25, 3)]));
    assert!(same_row(&second[2], &[(1, 1), (0, 1), (3, 2), (5, 1), (0, 1), (-1, 2), (1, 1), (5, 1)]));
    assert!(same_row(
        &trace.delta_history[0],
        &[(-7, 1), (-8, 1), (-6, 1), (-5, 1), (0, 1), (0, 1), (0, 1), (0, 1)]
    ));
    assert!(same_row(
        &trace.delta_history[4],
        &[(0, 1), (5, 2), (1, 1), (25, 2), (0, 1), (0, 1), (7, 2), (105, 1)]
    ));
}

#[test]
fn repeated_lower_bounds_are_feasible_and_unbounded_below() {
    let bound: (&[i64], Relation, i64) = (&[1, 1], Relation::AtLeast, 1);
    let trace = solve(&problem(&[-2, 1], Direction::Minimize, &[bound, bound, bound]));
    assert_eq!(trace.tableau_history.len(), 2);
    assert_eq!(trace.basis_history, vec![vec![2, 3, 4], vec![0, 3, 4]]);
    let restored = &trace.tableau_history[1];
    assert!(restored.iter().all(|r| !r[5].is_negative()));
    assert!(same_row(&restored[0], &[(1, 1), (1, 1), (-1, 1), (0, 1), (0, 1), (1, 1)]));
    assert_eq!(trace.delta_history.len(), 1);
    assert!(same_row(&trace.delta_history[0], &[(0, 1), (-3, 1), (2, 1), (0, 1), (0, 1), (-2, 1)]));
    assert_eq!(trace.outcome, Outcome::Unbounded);
    assert!(trace.solution.is_none());
}

#[test]
fn solving_twice_gives_the_same_trace() {
    let p = reference_problem();
    let first = solve(&p);
    let second = solve(&p);
    assert_same_trace(&first, &second);
}

#[test]
fn default_caps_are_twenty() {
    let p = reference_problem();
    assert_same_trace(&solve(&p), &solve_within(&p, 20, 20));
}

#[test]
fn row_without_negative_entry_is_infeasible() {
    let trace = solve(&problem(&[1], Direction::Maximize, &[(&[1], Relation::AtMost, -1)]));
    assert_eq!(trace.outcome, Outcome::Infeasible);
    assert!(trace.solution.is_none());
    assert_eq!(trace.tableau_history.len(), 1);
    assert_eq!(trace.basis_history, vec![vec![1]]);
    assert_eq!(trace.delta_history.len(), 0);
}

#[test]
fn contradicting_bounds_are_infeasible_after_a_pivot() {
    let trace = solve(&problem(
        &[1, 1],
        Direction::Maximize,
        &[(&[1, 1], Relation::AtLeast, 1), (&[1, 1], Relation::AtMost, -1)],
    ));
    assert_eq!(trace.outcome, Outcome::Infeasible);
    assert!(trace.solution.is_none());
    assert_eq!(trace.basis_history, vec![vec![2, 3], vec![0, 3]]);
    assert!(same_row(&trace.tableau_history[0][0], &[(-1, 1), (-1, 1), (1, 1), (0, 1), (-1, 1)]));
    assert!(same_row(&trace.tableau_history[1][0], &[(1, 1), (1, 1), (-1, 1), (0, 1), (1, 1)]));
    assert!(same_row(&trace.tableau_history[1][1], &[(0, 1), (0, 1), (1, 1), (1, 1), (-2, 1)]));
    assert_eq!(trace.delta_history.len(), 0);
}

#[test]
fn improving_column_without_positive_entry_is_unbounded() {
    let trace = solve(&problem(&[1, 1], Direction::Maximize, &[(&[1, -1], Relation::AtMost, 1)]));
    assert_eq!(trace.outcome, Outcome::Unbounded);
    assert!(trace.solution.is_none());
    assert_eq!(trace.basis_history, vec![vec![2], vec![0]]);
    assert_eq!(trace.delta_history.len(), 2);
    assert!(same_row(&trace.delta_history[0], &[(-1, 1), (-1, 1), (0, 1), (0, 1)]));
    assert!(same_row(&trace.delta_history[1], &[(0, 1), (-2, 1), (1, 1), (1, 1)]));
}

#[test]
fn minimum_is_found_after_restoring_feasibility() {
    let trace = solve(&problem(
        &[2, 3],
        Direction::Minimize,
        &[
            (&[1, 1], Relation::AtLeast, 4),
            (&[1, 3], Relation::AtLeast, 6),
            (&[1, 0], Relation::AtMost, 10),
        ],
    ));
    assert_eq!(trace.outcome, Outcome::Optimal);
    assert_eq!(trace.basis_history, vec![vec![2, 3, 4], vec![2, 1, 4], vec![0, 1, 4]]);
    assert_eq!(trace.delta_history.len(), 1);
    assert!(same_row(&trace.delta_history[0], &[(0, 1), (0, 1), (-3, 2), (-1, 2), (0, 1), (9, 1)]));
    let x = trace.solution.expect("a solution");
    assert!(same_row(&x, &[(3, 1), (1, 1), (0, 1), (0, 1), (7, 1)]));
    assert!(dot(&[2, 3], &x).eq(&Rational::from_i64(9)));
}

#[test]
fn tableau_without_entering_column_is_accepted() {
    let trace = solve(&problem(&[1, 4], Direction::Minimize, &[(&[-5, 3], Relation::AtLeast, 7)]));
    assert_eq!(trace.outcome, Outcome::Optimal);
    assert_eq!(trace.basis_history, vec![vec![2], vec![1]]);
    assert!(same_row(&trace.tableau_history[1][0], &[(-5, 3), (1, 1), (-1, 3), (7, 3)]));
    assert_eq!(trace.delta_history.len(), 1);
    assert!(same_row(&trace.delta_history[0], &[(-23, 3), (0, 1), (-4, 3), (28, 3)]));
    assert!(trace.delta_history[0][3].is_positive());
    let x = trace.solution.expect("a solution");
    assert!(same_row(&x, &[(0, 1), (7, 3), (0, 1)]));
}

#[test]
fn fractional_coefficients_stay_exact() {
    let objective = Objective { coefficients: vec![q(1, 2), q(1, 3)], direction: Direction::Maximize };
    let constraints = vec![
        Constraint { coefficients: vec![q(1, 4), q(1, 5)], rhs: q(7, 3), relation: Relation::AtMost },
        Constraint { coefficients: vec![q(1, 1), q(1, 1)], rhs: q(10, 1), relation: Relation::AtMost },
    ];
    let trace = solve(&Problem::new(objective, constraints).unwrap());
    assert_eq!(trace.outcome, Outcome::Optimal);
    assert_eq!(trace.basis_history, vec![vec![2, 3], vec![0, 3]]);
    assert!(same_row(&trace.tableau_history[1][0], &[(1, 1), (4, 5), (4, 1), (0, 1), (28, 3)]));
    assert!(same_row(&trace.tableau_history[1][1], &[(0, 1), (1, 5), (-4, 1), (1, 1), (2, 3)]));
    assert!(same_row(&trace.delta_history[1], &[(0, 1), (1, 15), (2, 1), (0, 1), (14, 3)]));
    assert!(same_row(&trace.solution.unwrap(), &[(28, 3), (0, 1), (0, 1), (2, 3)]));
}

#[test]
fn feasibility_cap_stops_before_the_pivot_that_is_due() {
    let p = problem(&[1, 4], Direction::Minimize, &[(&[-5, 3], Relation::AtLeast, 7)]);
    let trace = solve_within(&p, 0, 20);
    assert_eq!(trace.outcome, Outcome::IterationLimit);
    assert!(trace.solution.is_none());
    assert_eq!(trace.tableau_history.len(), 1);
    assert_eq!(trace.basis_history, vec![vec![2]]);
    assert_eq!(trace.delta_history.len(), 0);
    assert_eq!(solve_within(&p, 1, 20).outcome, Outcome::Optimal);
}

#[test]
fn feasibility_cap_is_not_hit_where_no_pivot_is_due() {
    let trace = solve_within(&reference_problem(), 0, 20);
    assert_eq!(trace.outcome, Outcome::Optimal);
    assert_eq!(trace.tableau_history.len(), 5);
}

#[test]
fn optimization_cap_stops_after_its_iterations() {
    let p = reference_problem();
    let trace = solve_within(&p, 20, 2);
    assert_eq!(trace.outcome, Outcome::IterationLimit);
    assert!(trace.solution.is_none());
    assert_eq!(trace.basis_history, vec![vec![4, 5, 6], vec![4, 1, 6], vec![4, 1, 3]]);
    assert_eq!(trace.tableau_history.len(), 3);
    assert_eq!(trace.delta_history.len(), 2);
    assert!(same_row(
        &trace.delta_history[1],
        &[(-13, 3), (0, 1), (-14, 3), (-5, 1), (0, 1), (4, 3), (0, 1), (200, 3)]
    ));
    let none = solve_within(&p, 20, 0);
    assert_eq!(none.outcome, Outcome::IterationLimit);
    assert_eq!(none.tableau_history.len(), 1);
    assert_eq!(none.delta_history.len(), 0);
    assert_eq!(solve_within(&p, 20, 4).outcome, Outcome::IterationLimit);
    assert_eq!(solve_within(&p, 20, 5).outcome, Outcome::Optimal);
}

#[test]
fn ties_go_to_the_first_place() {
    let trace = solve(&problem(
        &[1, 1],
        Direction::Maximize,
        &[(&[1, 1], Relation::AtMost, 2), (&[1, 1], Relation::AtMost, 2)],
    ));
    assert_eq!(trace.outcome, Outcome::Optimal);
    assert_eq!(trace.basis_history, vec![vec![2, 3], vec![0, 3]]);
    assert!(same_row(&trace.solution.unwrap(), &[(2, 1), (0, 1), (0, 1), (0, 1)]));
}
