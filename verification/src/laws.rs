//! What holds of every solve, proved of the model that the engine computes.

use crate::equations::{
    lemma_history_solves, lemma_initial_solution_feasible, satisfies, solves, weighted_sum,
};
use crate::invariants::{
    canonical, distinct, lemma_canonical_distinct, lemma_none_negative, lemma_none_positive,
    lemma_solve, pivot_links, snapshot_sound,
};
use crate::model::{
    delta_entry, delta_row, initial_basis, initial_tableau, is_optimal, pivot, simulate, solution,
    Outcome,
};
use crate::optimality::{
    lemma_basic_delta_zero, lemma_delta_sum, lemma_feasible_point_solves,
    lemma_history_keeps_solutions, lemma_sum_agrees, lemma_sum_nonnegative, lemma_sum_nonpositive,
    lemma_sum_zero, with_slacks,
};
use crate::problem::{Direction, ProblemView};
use crate::readout::{lemma_solution_entries, lemma_solution_nonnegative, lemma_solution_solves};
use vstd::prelude::*;

verus! {

/// Every tableau of the history is in canonical form for the basis recorded
/// with it: the column of the basic variable of each row is one in that row
/// and zero in every other row.
pub proof fn history_is_canonical(p: ProblemView, feasibility_cap: nat, optimization_cap: nat)
    requires
        p.well_formed(),
    ensures
        ({
            let trace = simulate(p, feasibility_cap, optimization_cap).trace();
            forall|k: int|
                0 <= k < trace.tableau_history.len() ==> canonical(
                    #[trigger] trace.tableau_history[k],
                    trace.basis_history[k],
                )
        }),
{
    let run = simulate(p, feasibility_cap, optimization_cap);
    lemma_solve(p, feasibility_cap, optimization_cap);
    assert forall|k: int| 0 <= k < run.progress.tableaus.len() implies canonical(
        #[trigger] run.progress.tableaus[k],
        run.progress.bases[k],
    ) by {
        assert(snapshot_sound(p, run.progress, k));
    }
}

/// Every basis of the history names one variable column for each row, and
/// no column twice.
pub proof fn bases_are_distinct(p: ProblemView, feasibility_cap: nat, optimization_cap: nat)
    requires
        p.well_formed(),
    ensures
        ({
            let trace = simulate(p, feasibility_cap, optimization_cap).trace();
            forall|k: int|
                0 <= k < trace.basis_history.len() ==> {
                    let basis = #[trigger] trace.basis_history[k];
                    &&& basis.len() == p.rows()
                    &&& distinct(basis)
                    &&& forall|r: int| 0 <= r < basis.len() ==> 0 <= #[trigger] basis[r] < p.columns()
                }
        }),
{
    let run = simulate(p, feasibility_cap, optimization_cap);
    lemma_solve(p, feasibility_cap, optimization_cap);
    assert forall|k: int| 0 <= k < run.progress.bases.len() implies {
        let basis = #[trigger] run.progress.bases[k];
        &&& basis.len() == p.rows()
        &&& distinct(basis)
        &&& forall|r: int| 0 <= r < basis.len() ==> 0 <= #[trigger] basis[r] < p.columns()
    } by {
        assert(snapshot_sound(p, run.progress, k));
        lemma_canonical_distinct(run.progress.tableaus[k], run.progress.bases[k]);
    }
}

/// The history holds the initial tableau and basis and one more of each
/// for every pivot performed, each the pivot of the one before it; and it
/// holds one reduced-cost row for every iteration of the optimization phase,
/// none where the problem was found infeasible.
pub proof fn history_counts_steps(p: ProblemView, feasibility_cap: nat, optimization_cap: nat)
    requires
        p.well_formed(),
    ensures
        ({
            let run = simulate(p, feasibility_cap, optimization_cap);
            let trace = run.trace();
            &&& trace.tableau_history.len() == 1 + run.progress.pivots.len()
            &&& trace.basis_history.len() == 1 + run.progress.pivots.len()
            &&& trace.delta_history.len() == run.progress.iterations
            &&& trace.delta_history.len() <= optimization_cap
            &&& run.progress.pivots.len() <= feasibility_cap + optimization_cap
            &&& trace.outcome == Outcome::Infeasible ==> trace.delta_history.len() == 0
            &&& trace.tableau_history[0] == initial_tableau(p)
            &&& trace.basis_history[0] == initial_basis(p)
            &&& forall|k: int|
                0 <= k < run.progress.pivots.len() ==> {
                    let (i, j) = #[trigger] run.progress.pivots[k];
                    &&& trace.tableau_history[k + 1] == pivot(trace.tableau_history[k], i, j)
                    &&& trace.basis_history[k + 1] == trace.basis_history[k].update(i, j)
                }
        }),
{
    let run = simulate(p, feasibility_cap, optimization_cap);
    lemma_solve(p, feasibility_cap, optimization_cap);
    assert forall|k: int| 0 <= k < run.progress.pivots.len() implies {
        let (i, j) = #[trigger] run.progress.pivots[k];
        &&& run.progress.tableaus[k + 1] == pivot(run.progress.tableaus[k], i, j)
        &&& run.progress.bases[k + 1] == run.progress.bases[k].update(i, j)
    } by {
        assert(pivot_links(p, run.progress, k));
    }
}

/// A solve has a solution exactly when its outcome is optimal.
pub proof fn solution_exactly_when_optimal(p: ProblemView, feasibility_cap: nat, optimization_cap: nat)
    requires
        p.well_formed(),
    ensures
        ({
            let trace = simulate(p, feasibility_cap, optimization_cap).trace();
            trace.solution is Some <==> trace.outcome == Outcome::Optimal
        }),
{
    lemma_solve(p, feasibility_cap, optimization_cap);
}

/// The value has the sign that fails the optimality test.
pub open spec fn improving(direction: Direction, value: real) -> bool {
    match direction {
        Direction::Maximize => value < 0real,
        Direction::Minimize => value > 0real,
    }
}

/// Where a solve has a solution, no variable column of the last reduced-cost
/// row has the sign that would let it enter the basis.
pub proof fn solution_leaves_no_entering_column(p: ProblemView, feasibility_cap: nat, optimization_cap: nat)
    requires
        p.well_formed(),
        simulate(p, feasibility_cap, optimization_cap).solution is Some,
    ensures
        ({
            let trace = simulate(p, feasibility_cap, optimization_cap).trace();
            &&& trace.delta_history.len() >= 1
            &&& trace.delta_history.last().len() == p.columns() + 1
            &&& forall|k: int|
                0 <= k < p.columns() ==> !improving(p.direction, #[trigger] trace.delta_history.last()[k])
        }),
{
    let run = simulate(p, feasibility_cap, optimization_cap);
    lemma_solve(p, feasibility_cap, optimization_cap);
    let delta = run.progress.deltas.last();
    let costs = delta.take(p.columns() as int);
    if !is_optimal(p.direction, delta) {
        match p.direction {
            Direction::Maximize => lemma_none_negative(costs),
            Direction::Minimize => lemma_none_positive(costs),
        }
    }
    assert forall|k: int| 0 <= k < p.columns() implies !improving(p.direction, #[trigger] delta[k]) by {
        assert(costs[k] == delta[k]);
    }
}

/// Where a solve has a solution, the last reduced-cost row passes the
/// optimality test of the direction of the problem. The solves that accept
/// a tableau only because no column can enter are left out: in them the
/// last entry of the row, the value of the objective, has the sign that
/// fails the test.
pub proof fn solution_passes_optimality_test(p: ProblemView, feasibility_cap: nat, optimization_cap: nat)
    requires
        p.well_formed(),
        simulate(p, feasibility_cap, optimization_cap).solution is Some,
        !improving(
            p.direction,
            simulate(p, feasibility_cap, optimization_cap).trace().delta_history.last().last(),
        ),
    ensures
        ({
            let trace = simulate(p, feasibility_cap, optimization_cap).trace();
            &&& trace.delta_history.len() >= 1
            &&& is_optimal(p.direction, trace.delta_history.last())
        }),
{
    let run = simulate(p, feasibility_cap, optimization_cap);
    solution_leaves_no_entering_column(p, feasibility_cap, optimization_cap);
    let delta = run.progress.deltas.last();
    assert(delta.last() == delta[p.columns() as int]);
    assert forall|k: int| 0 <= k < delta.len() implies !improving(p.direction, delta[k]) by {}
}

/// Where a solve has a solution, the solution holds one value for each
/// variable, none of them negative, and its decision variables meet every
/// constraint of the problem.
pub proof fn solution_is_feasible(p: ProblemView, feasibility_cap: nat, optimization_cap: nat)
    requires
        p.well_formed(),
        simulate(p, feasibility_cap, optimization_cap).solution is Some,
    ensures
        ({
            let x = simulate(p, feasibility_cap, optimization_cap).trace().solution->Some_0;
            &&& x.len() == p.columns()
            &&& forall|q: int| 0 <= q < x.len() ==> x[q] >= 0real
            &&& forall|i: int| 0 <= i < p.rows() ==> satisfies(#[trigger] p.constraints[i], x)
        }),
{
    let run = simulate(p, feasibility_cap, optimization_cap);
    lemma_solve(p, feasibility_cap, optimization_cap);
    let end = run.progress;
    let last = end.tableaus.len() - 1;
    let x = run.solution->Some_0;
    assert(snapshot_sound(p, end, last));
    lemma_solution_nonnegative(end.tableau(), end.basis(), p.rows(), p.columns());
    lemma_solution_solves(end.tableau(), end.basis(), p.rows(), p.columns());
    lemma_history_solves(p, end, last, x);
    assert forall|i: int| 0 <= i < p.rows() implies satisfies(#[trigger] p.constraints[i], x) by {
        lemma_initial_solution_feasible(p, x, i);
    }
}

/// The value of the objective at the decision variables at the front of
/// `x`.
pub open spec fn objective_value(p: ProblemView, x: Seq<real>) -> real {
    weighted_sum(p.objective, x, p.variables())
}

/// The point gives each decision variable a value that is not negative and
/// meets every constraint of the problem.
pub open spec fn feasible(p: ProblemView, y: Seq<real>) -> bool {
    &&& y.len() == p.variables()
    &&& forall|k: int| 0 <= k < y.len() ==> y[k] >= 0real
    &&& forall|i: int| 0 <= i < p.rows() ==> satisfies(#[trigger] p.constraints[i], y)
}

/// Where a solve has a solution, no feasible point has a better value of the
/// objective: none a greater one when maximizing, none a lesser one when
/// minimizing.
pub proof fn solution_is_optimal(p: ProblemView, feasibility_cap: nat, optimization_cap: nat, y: Seq<real>)
    requires
        p.well_formed(),
        simulate(p, feasibility_cap, optimization_cap).solution is Some,
        feasible(p, y),
    ensures
        ({
            let x = simulate(p, feasibility_cap, optimization_cap).trace().solution->Some_0;
            match p.direction {
                Direction::Maximize => objective_value(p, y) <= objective_value(p, x),
                Direction::Minimize => objective_value(p, y) >= objective_value(p, x),
            }
        }),
{
    let run = simulate(p, feasibility_cap, optimization_cap);
    lemma_solve(p, feasibility_cap, optimization_cap);
    solution_leaves_no_entering_column(p, feasibility_cap, optimization_cap);
    let end = run.progress;
    let last = end.tableaus.len() - 1;
    let t = end.tableau();
    let b = end.basis();
    let columns = p.columns();
    let x = solution(t, b, columns);
    let z = with_slacks(p, y);
    let delta = delta_row(p, t, b);
    assert(snapshot_sound(p, end, last));
    assert(end.deltas.last() == delta);
    lemma_feasible_point_solves(p, y);
    lemma_history_keeps_solutions(p, end, last, z);
    lemma_solution_solves(t, b, p.rows(), columns);
    lemma_delta_sum(p, t, b, z);
    lemma_delta_sum(p, t, b, x);
    lemma_canonical_distinct(t, b);
    lemma_solution_entries(t, b, p.rows(), columns, p.rows());
    assert forall|q: int| 0 <= q < columns implies delta[q] == 0real || x[q] == 0real by {
        assert(delta[q] == delta_entry(p, t, b, q));
        if exists|k: int| 0 <= k < p.rows() && b[k] == q {
            let k = choose|k: int| 0 <= k < p.rows() && b[k] == q;
            lemma_basic_delta_zero(p, t, b, k);
        }
    }
    lemma_sum_zero(delta, x, columns);
    lemma_sum_agrees(p.objective, z, p.objective, y, p.variables());
    match p.direction {
        Direction::Maximize => {
            assert forall|q: int| 0 <= q < columns implies delta[q] >= 0real && z[q] >= 0real by {
                assert(!improving(p.direction, delta[q]));
            }
            lemma_sum_nonnegative(delta, z, columns);
        },
        Direction::Minimize => {
            assert forall|q: int| 0 <= q < columns implies delta[q] <= 0real && z[q] >= 0real by {
                assert(!improving(p.direction, delta[q]));
            }
            lemma_sum_nonpositive(delta, z, columns);
        },
    }
}

/// Two solves of one problem under the same caps give the same trace.
pub proof fn solve_is_deterministic(
    p: ProblemView,
    q: ProblemView,
    feasibility_cap: nat,
    optimization_cap: nat,
)
    requires
        p == q,
    ensures
        simulate(p, feasibility_cap, optimization_cap).trace() == simulate(
            q,
            feasibility_cap,
            optimization_cap,
        ).trace(),
{
}

} // verus!
