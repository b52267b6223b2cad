//! Tableaus as systems of linear equations: what solves the tableau after a
//! pivot solves the tableau before it, and what solves the initial tableau
//! with nonnegative values meets the constraints of the problem.

use crate::invariants::{pivot_links, snapshot_sound, sound};
use crate::model::{
    Progress, initial_entry, initial_tableau, orientation, pivot, pivot_entry, well_shaped,
};
use crate::problem::{ConstraintView, ProblemView, Relation};
use vstd::prelude::*;

verus! {

/// The sum of the products of the first `n` entries of `a` and `x`.
pub open spec fn weighted_sum(a: Seq<real>, x: Seq<real>, n: nat) -> real
    decreases n,
{
    if n == 0 {
        0real
    } else {
        weighted_sum(a, x, (n - 1) as nat) + a[n - 1] * x[n - 1]
    }
}

/// The decision variables at the front of `x` meet the constraint.
pub open spec fn satisfies(c: ConstraintView, x: Seq<real>) -> bool {
    match c.relation {
        Relation::AtMost => weighted_sum(c.coefficients, x, c.coefficients.len()) <= c.rhs,
        Relation::AtLeast => weighted_sum(c.coefficients, x, c.coefficients.len()) >= c.rhs,
    }
}

/// The values `x` of the variables solve every row of the tableau as an
/// equation: the entries of the row, weighted by `x`, sum to its right-hand
/// side.
pub open spec fn solves(t: Seq<Seq<real>>, x: Seq<real>, columns: nat) -> bool {
    forall|r: int| 0 <= r < t.len()
        ==> weighted_sum(#[trigger] t[r], x, columns) == t[r][columns as int]
}

/// Where each entry of `a2` times `d` is the entry of `a`, the weighted sum
/// of `a2` times `d` is the weighted sum of `a`.
pub proof fn lemma_sum_scaled(a: Seq<real>, a2: Seq<real>, x: Seq<real>, n: nat, d: real)
    requires
        forall|q: int| 0 <= q < n ==> a2[q] * d == a[q],
    ensures
        weighted_sum(a2, x, n) * d == weighted_sum(a, x, n),
    decreases n,
{
    if n == 0 {
        assert(0real * d == 0real) by (nonlinear_arith);
    } else {
        lemma_sum_scaled(a, a2, x, (n - 1) as nat, d);
        let before = weighted_sum(a2, x, (n - 1) as nat);
        let u = a2[n - 1];
        let v = x[n - 1];
        assert(u * d == a[n - 1]);
        assert((before + u * v) * d == before * d + (u * d) * v) by (nonlinear_arith);
    }
}

/// Taking `m` times a row `c` from a row takes `m` times the weighted sum of
/// `c` from its weighted sum.
pub proof fn lemma_sum_reduced(a: Seq<real>, c: Seq<real>, a2: Seq<real>, x: Seq<real>, n: nat, m: real)
    requires
        forall|q: int| 0 <= q < n ==> a2[q] == a[q] - m * c[q],
    ensures
        weighted_sum(a2, x, n) == weighted_sum(a, x, n) - m * weighted_sum(c, x, n),
    decreases n,
{
    if n == 0 {
        assert(m * 0real == 0real) by (nonlinear_arith);
    } else {
        lemma_sum_reduced(a, c, a2, x, (n - 1) as nat, m);
        let sa = weighted_sum(a, x, (n - 1) as nat);
        let sc = weighted_sum(c, x, (n - 1) as nat);
        let u = a[n - 1];
        let w = c[n - 1];
        let v = x[n - 1];
        assert(a2[n - 1] == u - m * w);
        assert((sa - m * sc) + (u - m * w) * v == (sa + u * v) - m * (sc + w * v))
            by (nonlinear_arith);
    }
}

/// What solves the tableau after a pivot solves the tableau before it.
pub proof fn lemma_pivot_solves(
    t: Seq<Seq<real>>,
    b: Seq<int>,
    rows: nat,
    columns: nat,
    i: int,
    j: int,
    x: Seq<real>,
)
    requires
        well_shaped(t, b, rows, columns),
        0 <= i < rows,
        0 <= j < columns,
        t[i][j] != 0real,
        solves(pivot(t, i, j), x, columns),
    ensures
        solves(t, x, columns),
{
    let t2 = pivot(t, i, j);
    let d = t[i][j];
    let width = columns as int;
    assert(t[i].len() == columns + 1);
    assert forall|q: int| 0 <= q <= columns implies t2[i][q] * d == t[i][q] by {
        assert(t2[i][q] == pivot_entry(t, i, j, i, q));
        let u = t[i][q];
        assert((u / d) * d == u) by (nonlinear_arith)
            requires
                d != 0real,
        ;
    }
    lemma_sum_scaled(t[i], t2[i], x, columns, d);
    assert(weighted_sum(t2[i], x, columns) == t2[i][width]);
    assert(weighted_sum(t[i], x, columns) == t[i][width]);
    assert forall|r: int| 0 <= r < t.len() implies weighted_sum(#[trigger] t[r], x, columns)
        == t[r][width] by {
        if r != i {
            assert(t[r].len() == columns + 1);
            let m = t[r][j];
            assert forall|q: int| 0 <= q < columns implies t2[r][q] == t[r][q] - m * t2[i][q] by {
                assert(t2[r][q] == pivot_entry(t, i, j, r, q));
                assert(t2[i][q] == pivot_entry(t, i, j, i, q));
            }
            lemma_sum_reduced(t[r], t2[i], t2[r], x, columns, m);
            assert(weighted_sum(t2[r], x, columns) == t2[r][width]);
            assert(t2[r][width] == pivot_entry(t, i, j, r, width));
        }
    }
}

/// What solves a tableau of the history solves the initial tableau.
pub proof fn lemma_history_solves(p: ProblemView, s: Progress, k: int, x: Seq<real>)
    requires
        sound(p, s),
        0 <= k < s.tableaus.len(),
        solves(s.tableaus[k], x, p.columns()),
    ensures
        solves(initial_tableau(p), x, p.columns()),
    decreases k,
{
    if k > 0 {
        assert(pivot_links(p, s, k - 1));
        assert(snapshot_sound(p, s, k - 1));
        let (i, j) = s.pivots[k - 1];
        lemma_pivot_solves(s.tableaus[k - 1], s.bases[k - 1], p.rows(), p.columns(), i, j, x);
        lemma_history_solves(p, s, k - 1, x);
    }
}

/// Over the decision variables, row `i` of the initial tableau sums to the
/// oriented sum of constraint `i`.
pub proof fn lemma_initial_decision_sum(p: ProblemView, i: int, x: Seq<real>, n: nat)
    requires
        p.well_formed(),
        0 <= i < p.rows(),
        n <= p.variables(),
    ensures
        weighted_sum(initial_tableau(p)[i], x, n) == orientation(p.constraints[i].relation)
            * weighted_sum(p.constraints[i].coefficients, x, n),
    decreases n,
{
    let o = orientation(p.constraints[i].relation);
    let a = p.constraints[i].coefficients;
    if n == 0 {
        assert(o * 0real == 0real) by (nonlinear_arith);
    } else {
        lemma_initial_decision_sum(p, i, x, (n - 1) as nat);
        let before = weighted_sum(a, x, (n - 1) as nat);
        let u = a[n - 1];
        let v = x[n - 1];
        assert(initial_tableau(p)[i][n - 1] == initial_entry(p, i, n - 1));
        assert(o * before + (o * u) * v == o * (before + u * v)) by (nonlinear_arith);
    }
}

/// Over the slack variables, row `i` of the initial tableau adds slack
/// variable `i` and nothing else.
pub proof fn lemma_initial_slack_sum(p: ProblemView, i: int, x: Seq<real>, n: nat)
    requires
        p.well_formed(),
        0 <= i < p.rows(),
        p.variables() <= n <= p.columns(),
    ensures
        weighted_sum(initial_tableau(p)[i], x, n) == weighted_sum(
            initial_tableau(p)[i],
            x,
            p.variables(),
        ) + (if p.variables() + i < n {
            x[p.variables() + i]
        } else {
            0real
        }),
    decreases n,
{
    if n > p.variables() {
        lemma_initial_slack_sum(p, i, x, (n - 1) as nat);
        let v = x[n - 1];
        assert(initial_tableau(p)[i][n - 1] == initial_entry(p, i, n - 1));
        assert(1real * v == v && 0real * v == 0real) by (nonlinear_arith);
    }
}

/// Nonnegative values that solve the initial tableau meet every constraint
/// of the problem.
pub proof fn lemma_initial_solution_feasible(p: ProblemView, x: Seq<real>, i: int)
    requires
        p.well_formed(),
        0 <= i < p.rows(),
        x.len() == p.columns(),
        forall|q: int| 0 <= q < p.columns() ==> x[q] >= 0real,
        solves(initial_tableau(p), x, p.columns()),
    ensures
        satisfies(p.constraints[i], x),
{
    let c = p.constraints[i];
    let row = initial_tableau(p)[i];
    let o = orientation(c.relation);
    let total = weighted_sum(c.coefficients, x, p.variables());
    let slack = x[p.variables() + i];
    lemma_initial_decision_sum(p, i, x, p.variables());
    lemma_initial_slack_sum(p, i, x, p.columns());
    assert(weighted_sum(row, x, p.columns()) == row[p.columns() as int]);
    assert(row[p.columns() as int] == initial_entry(p, i, p.columns() as int));
    assert(c.coefficients.len() == p.variables());
    assert(slack >= 0real);
    assert(o * total + slack == o * c.rhs);
    match c.relation {
        Relation::AtMost => {
            assert(total <= c.rhs) by (nonlinear_arith)
                requires
                    1real * total + slack == 1real * c.rhs,
                    slack >= 0real,
            ;
        },
        Relation::AtLeast => {
            assert(total >= c.rhs) by (nonlinear_arith)
                requires
                    -1real * total + slack == -1real * c.rhs,
                    slack >= 0real,
            ;
        },
    }
}

} // verus!
