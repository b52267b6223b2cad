//! Why an accepted tableau is optimal: every feasible point solves every
//! tableau of the history, and its objective value differs from that of the
//! solution by a sum of reduced costs times variable values.

use crate::equations::{
    lemma_initial_decision_sum, lemma_initial_slack_sum, lemma_sum_reduced, lemma_sum_scaled,
    satisfies, solves, weighted_sum,
};
use crate::invariants::{canonical, pivot_links, snapshot_sound, sound};
use crate::model::{
    basic_cost, delta_entry, delta_row, initial_entry, initial_tableau, orientation, pivot,
    pivot_entry, row_cost, well_shaped, Progress,
};
use crate::problem::{ProblemView, Relation};
use vstd::prelude::*;

verus! {

/// A weighted sum reads only the first `n` entries of its rows.
pub proof fn lemma_sum_agrees(a: Seq<real>, x: Seq<real>, a2: Seq<real>, x2: Seq<real>, n: nat)
    requires
        forall|q: int| 0 <= q < n ==> a[q] == a2[q] && x[q] == x2[q],
    ensures
        weighted_sum(a, x, n) == weighted_sum(a2, x2, n),
    decreases n,
{
    if n > 0 {
        lemma_sum_agrees(a, x, a2, x2, (n - 1) as nat);
    }
}

/// A weighted sum of nonnegative values with nonnegative weights is not
/// negative.
pub proof fn lemma_sum_nonnegative(a: Seq<real>, x: Seq<real>, n: nat)
    requires
        forall|q: int| 0 <= q < n ==> a[q] >= 0real && x[q] >= 0real,
    ensures
        weighted_sum(a, x, n) >= 0real,
    decreases n,
{
    if n > 0 {
        lemma_sum_nonnegative(a, x, (n - 1) as nat);
        let u = a[n - 1];
        let v = x[n - 1];
        assert(u * v >= 0real) by (nonlinear_arith)
            requires
                u >= 0real,
                v >= 0real,
        ;
    }
}

/// A weighted sum of nonnegative values with nonpositive weights is not
/// positive.
pub proof fn lemma_sum_nonpositive(a: Seq<real>, x: Seq<real>, n: nat)
    requires
        forall|q: int| 0 <= q < n ==> a[q] <= 0real && x[q] >= 0real,
    ensures
        weighted_sum(a, x, n) <= 0real,
    decreases n,
{
    if n > 0 {
        lemma_sum_nonpositive(a, x, (n - 1) as nat);
        let u = a[n - 1];
        let v = x[n - 1];
        assert(u * v <= 0real) by (nonlinear_arith)
            requires
                u <= 0real,
                v >= 0real,
        ;
    }
}

/// A weighted sum in which every weight or its value is zero is zero.
pub proof fn lemma_sum_zero(a: Seq<real>, x: Seq<real>, n: nat)
    requires
        forall|q: int| 0 <= q < n ==> a[q] == 0real || x[q] == 0real,
    ensures
        weighted_sum(a, x, n) == 0real,
    decreases n,
{
    if n > 0 {
        lemma_sum_zero(a, x, (n - 1) as nat);
        let u = a[n - 1];
        let v = x[n - 1];
        assert(u * v == 0real) by (nonlinear_arith)
            requires
                u == 0real || v == 0real,
        ;
    }
}

/// What solves a tableau solves the tableau after a pivot.
pub proof fn lemma_pivot_keeps_solutions(
    t: Seq<Seq<real>>,
    b: Seq<int>,
    rows: nat,
    columns: nat,
    i: int,
    j: int,
    x: Seq<real>,
)
    requires
        well_shaped(t, b, rows, columns),
        0 <= i < rows,
        0 <= j < columns,
        t[i][j] != 0real,
        solves(t, x, columns),
    ensures
        solves(pivot(t, i, j), x, columns),
{
    let t2 = pivot(t, i, j);
    let d = t[i][j];
    let width = columns as int;
    assert(t[i].len() == columns + 1);
    assert forall|q: int| 0 <= q <= columns implies t2[i][q] * d == t[i][q] by {
        assert(t2[i][q] == pivot_entry(t, i, j, i, q));
        let u = t[i][q];
        assert((u / d) * d == u) by (nonlinear_arith)
            requires
                d != 0real,
        ;
    }
    lemma_sum_scaled(t[i], t2[i], x, columns, d);
    let si2 = weighted_sum(t2[i], x, columns);
    let ri2 = t2[i][width];
    assert(weighted_sum(t[i], x, columns) == t[i][width]);
    assert(si2 == ri2) by (nonlinear_arith)
        requires
            d != 0real,
            si2 * d == ri2 * d,
    ;
    assert forall|r: int| 0 <= r < t2.len() implies weighted_sum(#[trigger] t2[r], x, columns)
        == t2[r][width] by {
        if r != i {
            assert(t[r].len() == columns + 1);
            let m = t[r][j];
            assert forall|q: int| 0 <= q < columns implies t2[r][q] == t[r][q] - m * t2[i][q] by {
                assert(t2[r][q] == pivot_entry(t, i, j, r, q));
                assert(t2[i][q] == pivot_entry(t, i, j, i, q));
            }
            lemma_sum_reduced(t[r], t2[i], t2[r], x, columns, m);
            assert(weighted_sum(t[r], x, columns) == t[r][width]);
            assert(t2[r][width] == pivot_entry(t, i, j, r, width));
            assert(t2[i][width] == pivot_entry(t, i, j, i, width));
        }
    }
}

/// What solves the initial tableau solves every tableau of the history.
pub proof fn lemma_history_keeps_solutions(p: ProblemView, s: Progress, k: int, x: Seq<real>)
    requires
        sound(p, s),
        0 <= k < s.tableaus.len(),
        solves(initial_tableau(p), x, p.columns()),
    ensures
        solves(s.tableaus[k], x, p.columns()),
    decreases k,
{
    if k > 0 {
        lemma_history_keeps_solutions(p, s, k - 1, x);
        assert(pivot_links(p, s, k - 1));
        assert(snapshot_sound(p, s, k - 1));
        let (i, j) = s.pivots[k - 1];
        lemma_pivot_keeps_solutions(s.tableaus[k - 1], s.bases[k - 1], p.rows(), p.columns(), i, j, x);
    }
}

/// The values of all variables at a point of the decision variables: the
/// point itself, then for each constraint the slack that it leaves.
pub open spec fn with_slacks(p: ProblemView, y: Seq<real>) -> Seq<real> {
    Seq::new(
        p.columns(),
        |k: int|
            if k < p.variables() {
                y[k]
            } else {
                let c = p.constraints[k - p.variables()];
                orientation(c.relation) * (c.rhs - weighted_sum(c.coefficients, y, p.variables()))
            },
    )
}

/// A point that meets every constraint solves the initial tableau with its
/// slacks, none of which is negative.
pub proof fn lemma_feasible_point_solves(p: ProblemView, y: Seq<real>)
    requires
        p.well_formed(),
        y.len() == p.variables(),
        forall|k: int| 0 <= k < y.len() ==> y[k] >= 0real,
        forall|i: int| 0 <= i < p.rows() ==> satisfies(#[trigger] p.constraints[i], y),
    ensures
        solves(initial_tableau(p), with_slacks(p, y), p.columns()),
        forall|k: int| 0 <= k < p.columns() ==> with_slacks(p, y)[k] >= 0real,
{
    let z = with_slacks(p, y);
    let n = p.variables();
    let t0 = initial_tableau(p);
    assert forall|k: int| 0 <= k < p.columns() implies z[k] >= 0real by {
        if k >= n {
            let c = p.constraints[k - n];
            assert(satisfies(c, y));
            assert(c.coefficients.len() == n);
            let total = weighted_sum(c.coefficients, y, n);
            match c.relation {
                Relation::AtMost => {
                    assert(1real * (c.rhs - total) >= 0real) by (nonlinear_arith)
                        requires
                            total <= c.rhs,
                    ;
                },
                Relation::AtLeast => {
                    assert(-1real * (c.rhs - total) >= 0real) by (nonlinear_arith)
                        requires
                            total >= c.rhs,
                    ;
                },
            }
        }
    }
    assert forall|i: int| 0 <= i < t0.len() implies weighted_sum(#[trigger] t0[i], z, p.columns())
        == t0[i][p.columns() as int] by {
        let c = p.constraints[i];
        let o = orientation(c.relation);
        lemma_initial_decision_sum(p, i, z, n);
        lemma_initial_slack_sum(p, i, z, p.columns());
        lemma_sum_agrees(c.coefficients, z, c.coefficients, y, n);
        let total = weighted_sum(c.coefficients, y, n);
        assert(z[n + i] == o * (c.rhs - total));
        assert(t0[i][p.columns() as int] == initial_entry(p, i, p.columns() as int));
        assert(o * total + o * (c.rhs - total) == o * c.rhs) by (nonlinear_arith);
    }
}

/// The objective coefficient that a row brings to the reduced costs: that
/// of its basic variable, where that is a decision variable.
pub open spec fn row_weight(p: ProblemView, b: Seq<int>, r: int) -> real {
    if 0 <= b[r] < p.variables() {
        p.objective[b[r]]
    } else {
        0real
    }
}

/// The costs that the first `upto` rows contribute to each column.
pub open spec fn cost_row(p: ProblemView, t: Seq<Seq<real>>, b: Seq<int>, upto: nat) -> Seq<real> {
    Seq::new(p.columns() + 1, |k: int| basic_cost(p, t, b, k, upto))
}

/// Weighted by a solution of the tableau, the costs of the variable columns
/// sum to the cost of the right-hand side.
pub proof fn lemma_cost_sum(p: ProblemView, t: Seq<Seq<real>>, b: Seq<int>, x: Seq<real>, upto: nat)
    requires
        well_shaped(t, b, p.rows(), p.columns()),
        solves(t, x, p.columns()),
        upto <= p.rows(),
    ensures
        weighted_sum(cost_row(p, t, b, upto), x, p.columns()) == basic_cost(
            p,
            t,
            b,
            p.columns() as int,
            upto,
        ),
    decreases upto,
{
    let columns = p.columns();
    if upto == 0 {
        lemma_sum_zero(cost_row(p, t, b, 0), x, columns);
    } else {
        let r = upto - 1;
        let before = cost_row(p, t, b, r as nat);
        let after = cost_row(p, t, b, upto);
        let w = row_weight(p, b, r);
        lemma_cost_sum(p, t, b, x, r as nat);
        assert(t[r].len() == columns + 1);
        assert forall|q: int| 0 <= q < columns implies after[q] == before[q] - (-w) * t[r][q] by {
            assert(row_cost(p, t, b, q, r) == w * t[r][q]) by (nonlinear_arith)
                requires
                    row_cost(p, t, b, q, r) == (if 0 <= b[r] < p.variables() {
                        t[r][q] * p.objective[b[r]]
                    } else {
                        0real
                    }),
                    w == (if 0 <= b[r] < p.variables() {
                        p.objective[b[r]]
                    } else {
                        0real
                    }),
            ;
            assert(before[q] - (-w) * t[r][q] == before[q] + w * t[r][q]) by (nonlinear_arith);
        }
        lemma_sum_reduced(before, t[r], after, x, columns, -w);
        let total = weighted_sum(t[r], x, columns);
        let rhs = t[r][columns as int];
        assert(total == rhs);
        assert(row_cost(p, t, b, columns as int, r) == w * rhs) by (nonlinear_arith)
            requires
                row_cost(p, t, b, columns as int, r) == (if 0 <= b[r] < p.variables() {
                    rhs * p.objective[b[r]]
                } else {
                    0real
                }),
                w == (if 0 <= b[r] < p.variables() {
                    p.objective[b[r]]
                } else {
                    0real
                }),
        ;
        let sum_before = weighted_sum(before, x, columns);
        assert(sum_before - (-w) * total == sum_before + w * rhs) by (nonlinear_arith)
            requires
                total == rhs,
        ;
    }
}

/// Over the first `q` columns, the reduced costs weighted by `x` sum to the
/// weighted costs less the objective over the decision variables among
/// them.
pub proof fn lemma_delta_prefix_sum(p: ProblemView, t: Seq<Seq<real>>, b: Seq<int>, x: Seq<real>, q: nat)
    requires
        well_shaped(t, b, p.rows(), p.columns()),
        q <= p.columns(),
    ensures
        weighted_sum(delta_row(p, t, b), x, q) == weighted_sum(cost_row(p, t, b, p.rows()), x, q)
            - weighted_sum(p.objective, x, if q <= p.variables() {
            q
        } else {
            p.variables()
        }),
    decreases q,
{
    if q > 0 {
        lemma_delta_prefix_sum(p, t, b, x, (q - 1) as nat);
        let k = q - 1;
        let delta = delta_row(p, t, b);
        let cost = cost_row(p, t, b, p.rows());
        let v = x[k];
        assert(delta[k] == delta_entry(p, t, b, k));
        assert(cost[k] == basic_cost(p, t, b, k, p.rows()));
        if k < p.variables() {
            let c = p.objective[k];
            assert((cost[k] - c) * v == cost[k] * v - c * v) by (nonlinear_arith);
        }
    }
}

/// Weighted by a solution of the tableau, the reduced costs of the variable
/// columns sum to the last entry of the reduced-cost row less the value of
/// the objective.
pub proof fn lemma_delta_sum(p: ProblemView, t: Seq<Seq<real>>, b: Seq<int>, x: Seq<real>)
    requires
        well_shaped(t, b, p.rows(), p.columns()),
        solves(t, x, p.columns()),
    ensures
        weighted_sum(delta_row(p, t, b), x, p.columns()) == delta_row(p, t, b)[p.columns() as int]
            - weighted_sum(p.objective, x, p.variables()),
{
    lemma_delta_prefix_sum(p, t, b, x, p.columns());
    lemma_cost_sum(p, t, b, x, p.rows());
    assert(delta_row(p, t, b)[p.columns() as int] == delta_entry(p, t, b, p.columns() as int));
}

/// In a tableau in canonical form, the first `upto` rows bring to the
/// column of the basic variable of row `i` the weight of row `i`, once it is
/// among them.
pub proof fn lemma_basic_cost(p: ProblemView, t: Seq<Seq<real>>, b: Seq<int>, i: int, upto: nat)
    requires
        well_shaped(t, b, p.rows(), p.columns()),
        canonical(t, b),
        0 <= i < p.rows(),
        upto <= p.rows(),
    ensures
        basic_cost(p, t, b, b[i], upto) == (if i < upto {
            row_weight(p, b, i)
        } else {
            0real
        }),
    decreases upto,
{
    if upto > 0 {
        let r = upto - 1;
        lemma_basic_cost(p, t, b, i, r as nat);
        assert(t[r][b[i]] == (if r == i {
            1real
        } else {
            0real
        }));
        if 0 <= b[r] < p.variables() {
            let c = p.objective[b[r]];
            assert(1real * c == c && 0real * c == 0real) by (nonlinear_arith);
        }
    }
}

/// In a tableau in canonical form, the reduced cost of every basic variable
/// is zero.
pub proof fn lemma_basic_delta_zero(p: ProblemView, t: Seq<Seq<real>>, b: Seq<int>, i: int)
    requires
        well_shaped(t, b, p.rows(), p.columns()),
        canonical(t, b),
        0 <= i < p.rows(),
    ensures
        delta_entry(p, t, b, b[i]) == 0real,
{
    lemma_basic_cost(p, t, b, i, p.rows());
    assert(0 <= b[i] < p.columns());
}

} // verus!
