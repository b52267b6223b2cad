use simplex_engine::engine::{is_optimal, solve, solve_within, SolveTrace};
use simplex_engine::model::Outcome;
use simplex_engine::problem::{Constraint, Direction, Objective, Problem, Relation};
use simplex_engine::rational::Rational;

struct Sample {
    objective: Vec<i64>,
    direction: Direction,
    constraints: Vec<(Vec<i64>, Relation, i64)>,
}

fn samples() -> Vec<Sample> {
    let mut state: u64 = 0x2545_f491_4f6c_dd1d;
    let mut next = move |span: u64| -> i64 {
        state ^= state << 13;
        state ^= state >> 7;
        state ^= state << 17;
        (state % span) as i64
    };
    let mut out = Vec::new();
    for _ in 0..150 {
        let n = 1 + next(4) as usize;
        let m = 1 + next(3) as usize;
        let objective = (0..n).map(|_| next(11) - 5).collect();
        let direction = if next(2) == 0 { Direction::Maximize } else { Direction::Minimize };
        let constraints = (0..m)
            .map(|_| {
                let coefficients = (0..n).map(|_| next(11) - 5).collect();
                let relation = if next(2) == 0 { Relation::AtLeast } else { Relation::AtMost };
                (coefficients, relation, next(21) - 10)
            })
            .collect();
        out.push(Sample { objective, direction, constraints });
    }
    out
}

fn build(sample: &Sample) -> Problem {
    let objective = Objective {
        coefficients: sample.objective.iter().map(|v| Rational::from_i64(*v)).collect(),
        direction: sample.direction,
    };
    let constraints = sample
        .constraints
        .iter()
        .map(|(c, relation, rhs)| Constraint {
            coefficients: c.iter().map(|v| Rational::from_i64(*v)).collect(),
            rhs: Rational::from_i64(*rhs),
            relation: *relation,
        })
        .collect();
    Problem::new(objective, constraints).unwrap()
}

fn traces() -> Vec<(Sample, SolveTrace)> {
    samples()
        .into_iter()
        .map(|s| {
            let trace = solve(&build(&s));
            (s, trace)
        })
        .collect()
}

fn equal_rows(a: &Vec<Rational>, b: &Vec<Rational>) -> bool {
    a.len() == b.len() && a.iter().zip(b.iter()).all(|(x, y)| x.eq(y))
}

#[test]
fn samples_reach_every_outcome_but_the_limit() {
    let all = traces();
    for outcome in [Outcome::Optimal, Outcome::Infeasible, Outcome::Unbounded] {
        assert!(all.iter().any(|(_, t)| t.outcome == outcome));
    }
    assert!(all.iter().all(|(_, t)| t.outcome != Outcome::IterationLimit));
    assert!(all.iter().any(|(_, t)| t.tableau_history.len() >= 4));
}

#[test]
fn every_snapshot_is_in_canonical_form() {
    for (_, trace) in traces() {
        for (tableau, basis) in trace.tableau_history.iter().zip(trace.basis_history.iter()) {
            for (i, column) in basis.iter().enumerate() {
                for (k, row) in tableau.iter().enumerate() {
                    let expected = if k == i { 1 } else { 0 };
                    assert!(row[*column].eq(&Rational::from_i64(expected)));
                }
            }
        }
    }
}

#[test]
fn every_basis_names_distinct_variable_columns() {
    for (sample, trace) in traces() {
        let columns = sample.objective.len() + sample.constraints.len();
        for basis in trace.basis_history.iter() {
            assert_eq!(basis.len(), sample.constraints.len());
            for (i, a) in basis.iter().enumerate() {
                assert!(*a < columns);
                for b in basis.iter().skip(i + 1) {
                    assert_ne!(a, b);
                }
            }
        }
    }
}

#[test]
fn histories_have_one_entry_for_each_step() {
    for (sample, trace) in traces() {
        let width = sample.objective.len() + sample.constraints.len() + 1;
        assert_eq!(trace.tableau_history.len(), trace.basis_history.len());
        assert!(trace.tableau_history.len() >= 1);
        assert!(trace.delta_history.len() <= 20);
        assert!(trace.tableau_history.iter().all(|t| t.len() == sample.constraints.len()));
        assert!(trace.tableau_history.iter().all(|t| t.iter().all(|row| row.len() == width)));
        assert!(trace.delta_history.iter().all(|d| d.len() == width));
        for pair in trace.basis_history.windows(2) {
            let changed = pair[0].iter().zip(pair[1].iter()).filter(|(a, b)| a != b).count();
            assert!(changed <= 1);
        }
        match trace.outcome {
            Outcome::Infeasible => assert_eq!(trace.delta_history.len(), 0),
            Outcome::Optimal | Outcome::Unbounded => {
                assert!(trace.delta_history.len() >= 1);
                assert!(trace.tableau_history.len() >= trace.delta_history.len());
            }
            Outcome::IterationLimit => {}
        }
    }
}

#[test]
fn solutions_come_with_the_optimal_outcome_only() {
    for (_, trace) in traces() {
        assert_eq!(trace.solution.is_some(), trace.outcome == Outcome::Optimal);
    }
}

#[test]
fn last_reduced_costs_pass_the_optimality_test() {
    let mut accepted_without_test = 0;
    for (sample, trace) in traces() {
        if trace.solution.is_some() {
            let last = trace.delta_history.last().expect("a reduced-cost row");
            let columns = last.len() - 1;
            let improving = |v: &Rational| match sample.direction {
                Direction::Maximize => v.is_negative(),
                Direction::Minimize => v.is_positive(),
            };
            assert!(last.iter().take(columns).all(|v| !improving(v)));
            if improving(&last[columns]) {
                accepted_without_test += 1;
                assert!(!is_optimal(sample.direction, last));
            } else {
                assert!(is_optimal(sample.direction, last));
            }
        }
    }
    assert!(accepted_without_test > 0);
}

#[test]
fn solutions_are_feasible() {
    for (sample, trace) in traces() {
        if let Some(x) = &trace.solution {
            assert_eq!(x.len(), sample.objective.len() + sample.constraints.len());
            assert!(x.iter().all(|v| !v.is_negative()));
            for (coefficients, relation, rhs) in sample.constraints.iter() {
                let mut total = Rational::from_i64(0);
                for (c, v) in coefficients.iter().zip(x.iter()) {
                    total = total.add(&Rational::from_i64(*c).mul(v));
                }
                let rhs = Rational::from_i64(*rhs);
                match relation {
                    Relation::AtMost => assert!(!rhs.lt(&total)),
                    Relation::AtLeast => assert!(!total.lt(&rhs)),
                }
            }
        }
    }
}

#[test]
fn solving_again_repeats_the_trace() {
    for sample in samples().iter().take(40) {
        let p = build(sample);
        let first = solve(&p);
        let second = solve_within(&p, 20, 20);
        assert_eq!(first.outcome, second.outcome);
        assert_eq!(first.basis_history, second.basis_history);
        assert_eq!(first.tableau_history.len(), second.tableau_history.len());
        for (a, b) in first.tableau_history.iter().zip(second.tableau_history.iter()) {
            assert!(a.iter().zip(b.iter()).all(|(x, y)| equal_rows(x, y)));
        }
        assert_eq!(first.delta_history.len(), second.delta_history.len());
        for (a, b) in first.delta_history.iter().zip(second.delta_history.iter()) {
            assert!(equal_rows(a, b));
        }
        match (&first.solution, &second.solution) {
            (Some(x), Some(y)) => assert!(equal_rows(x, y)),
            (None, None) => {}
            _ => panic!("one solve has a solution and the other has none"),
        }
    }
}

#[test]
fn no_feasible_grid_point_beats_a_solution() {
    let mut compared = 0;
    for (sample, trace) in traces() {
        let n = sample.objective.len();
        if n > 3 {
            continue;
        }
        if let Some(x) = &trace.solution {
            let value = |point: &[i64]| -> i64 {
                sample.objective.iter().zip(point.iter()).map(|(c, v)| c * v).sum()
            };
            let mut best = Rational::from_i64(0);
            for (c, v) in sample.objective.iter().zip(x.iter()) {
                best = best.add(&Rational::from_i64(*c).mul(v));
            }
            let side: i64 = 9;
            let mut point = vec![0i64; n];
            loop {
                let feasible = sample.constraints.iter().all(|(coefficients, relation, rhs)| {
                    let total: i64 = coefficients.iter().zip(point.iter()).map(|(c, v)| c * v).sum();
                    match relation {
                        Relation::AtMost => total <= *rhs,
                        Relation::AtLeast => total >= *rhs,
                    }
                });
                if feasible {
                    compared += 1;
                    let here = Rational::from_i64(value(&point));
                    match sample.direction {
                        Direction::Maximize => assert!(!best.lt(&here)),
                        Direction::Minimize => assert!(!here.lt(&best)),
                    }
                }
                let mut k = 0;
                while k < n && point[k] == side {
                    point[k] = 0;
                    k += 1;
                }
                if k == n {
                    break;
                }
                point[k] += 1;
            }
        }
    }
    assert!(compared > 100);
}
