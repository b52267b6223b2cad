//! The two-phase tableau method as mathematics over the reals.
//!
//! A tableau is a sequence of rows of equal width: one column for each
//! decision variable, one for each slack variable, and the right-hand side
//! last. Everything the engine computes is defined here as a function of the
//! problem, and the engine is proved to compute exactly that.

use crate::problem::{Direction, ProblemView, Relation};
use vstd::prelude::*;

verus! {

/// The most pivots that the feasibility phase of `solve` performs.
pub const FEASIBILITY_PIVOT_CAP: usize = 20;

/// The most iterations that the optimization phase of `solve` runs.
pub const OPTIMIZATION_ITERATION_CAP: usize = 20;

/// How a solve ended.
#[derive(Clone, Copy, Debug, PartialEq, Eq, Structural)]
pub enum Outcome {
    /// The optimization phase reached a tableau that it accepts as optimal.
    Optimal,
    /// A row with a negative right-hand side has no negative entry to pivot
    /// on.
    Infeasible,
    /// An entering column has no positive entry, so no row can leave.
    Unbounded,
    /// A phase used up its cap.
    IterationLimit,
}

/// The factor that brings a constraint into the `<=` convention.
pub open spec fn orientation(relation: Relation) -> real {
    match relation {
        Relation::AtLeast => -1real,
        Relation::AtMost => 1real,
    }
}

/// Entry `k` of row `i` of the initial tableau.
pub open spec fn initial_entry(p: ProblemView, i: int, k: int) -> real {
    let c = p.constraints[i];
    if k < p.variables() {
        orientation(c.relation) * c.coefficients[k]
    } else if k < p.columns() {
        if k == p.variables() + i {
            1real
        } else {
            0real
        }
    } else {
        orientation(c.relation) * c.rhs
    }
}

/// The initial tableau: each constraint in the `<=` convention, with the
/// identity over the slack columns.
pub open spec fn initial_tableau(p: ProblemView) -> Seq<Seq<real>> {
    Seq::new(p.rows(), |i: int| Seq::new(p.columns() + 1, |k: int| initial_entry(p, i, k)))
}

/// The initial basis: row `i` holds slack variable `i`.
pub open spec fn initial_basis(p: ProblemView) -> Seq<int> {
    Seq::new(p.rows(), |i: int| p.variables() + i)
}

/// Entry `(r, q)` of the tableau after a pivot on `(i, j)`: row `i` is
/// divided by the pivot entry, and the multiple of the new row `i` that
/// clears column `j` is taken from every other row.
pub open spec fn pivot_entry(t: Seq<Seq<real>>, i: int, j: int, r: int, q: int) -> real {
    if r == i {
        t[i][q] / t[i][j]
    } else {
        t[r][q] - t[r][j] * (t[i][q] / t[i][j])
    }
}

/// The tableau after a pivot on `(i, j)`.
pub open spec fn pivot(t: Seq<Seq<real>>, i: int, j: int) -> Seq<Seq<real>> {
    Seq::new(t.len(), |r: int| Seq::new(t[r].len(), |q: int| pivot_entry(t, i, j, r, q)))
}

/// The right-hand sides of the rows of a tableau.
pub open spec fn rhs_column(t: Seq<Seq<real>>) -> Seq<real> {
    Seq::new(t.len(), |r: int| t[r].last())
}

/// `k` is the first place where `s` takes its least value, and that value is
/// negative.
pub open spec fn is_most_negative(s: Seq<real>, k: int) -> bool {
    &&& 0 <= k < s.len()
    &&& s[k] < 0real
    &&& forall|l: int| 0 <= l < k ==> s[l] > s[k]
    &&& forall|l: int| k <= l < s.len() ==> s[l] >= s[k]
}

/// The first place of the least value of `s`, if that value is negative.
pub open spec fn most_negative(s: Seq<real>) -> Option<int> {
    if exists|k: int| is_most_negative(s, k) {
        Some(choose|k: int| is_most_negative(s, k))
    } else {
        None
    }
}

/// `k` is the first place where `s` takes its greatest value, and that value
/// is positive.
pub open spec fn is_most_positive(s: Seq<real>, k: int) -> bool {
    &&& 0 <= k < s.len()
    &&& s[k] > 0real
    &&& forall|l: int| 0 <= l < k ==> s[l] < s[k]
    &&& forall|l: int| k <= l < s.len() ==> s[l] <= s[k]
}

/// The first place of the greatest value of `s`, if that value is positive.
pub open spec fn most_positive(s: Seq<real>) -> Option<int> {
    if exists|k: int| is_most_positive(s, k) {
        Some(choose|k: int| is_most_positive(s, k))
    } else {
        None
    }
}

/// The ratio of right-hand side to entry `j` in row `r`.
pub open spec fn ratio(t: Seq<Seq<real>>, r: int, j: int) -> real {
    t[r].last() / t[r][j]
}

/// `r` is the first row that attains the least ratio among the rows whose
/// entry in column `j` is positive.
pub open spec fn is_leaving_row(t: Seq<Seq<real>>, j: int, r: int) -> bool {
    &&& 0 <= r < t.len()
    &&& t[r][j] > 0real
    &&& forall|l: int| 0 <= l < r && t[l][j] > 0real ==> ratio(t, l, j) > ratio(t, r, j)
    &&& forall|l: int| r <= l < t.len() && t[l][j] > 0real ==> ratio(t, l, j) >= ratio(t, r, j)
}

/// The row that leaves the basis when column `j` enters, if any row can.
pub open spec fn leaving_row(t: Seq<Seq<real>>, j: int) -> Option<int> {
    if exists|r: int| is_leaving_row(t, j, r) {
        Some(choose|r: int| is_leaving_row(t, j, r))
    } else {
        None
    }
}

/// The cost that row `r` contributes to column `k`: its entry times the
/// objective coefficient of its basic variable, where that is a decision
/// variable.
pub open spec fn row_cost(p: ProblemView, t: Seq<Seq<real>>, b: Seq<int>, k: int, r: int) -> real {
    if 0 <= b[r] < p.variables() {
        t[r][k] * p.objective[b[r]]
    } else {
        0real
    }
}

/// The cost that the first `upto` rows contribute to column `k`.
pub open spec fn basic_cost(
    p: ProblemView,
    t: Seq<Seq<real>>,
    b: Seq<int>,
    k: int,
    upto: nat,
) -> real
    decreases upto,
{
    if upto == 0 {
        0real
    } else {
        basic_cost(p, t, b, k, (upto - 1) as nat) + row_cost(p, t, b, k, upto - 1)
    }
}

/// Entry `k` of the reduced-cost row.
pub open spec fn delta_entry(p: ProblemView, t: Seq<Seq<real>>, b: Seq<int>, k: int) -> real {
    if k < p.variables() {
        basic_cost(p, t, b, k, t.len()) - p.objective[k]
    } else {
        basic_cost(p, t, b, k, t.len())
    }
}

/// The reduced-cost row of a tableau and basis.
pub open spec fn delta_row(p: ProblemView, t: Seq<Seq<real>>, b: Seq<int>) -> Seq<real> {
    Seq::new(p.columns() + 1, |k: int| delta_entry(p, t, b, k))
}

/// The optimality test: no entry of the reduced-cost row has the sign that
/// would improve the objective.
pub open spec fn is_optimal(direction: Direction, delta: Seq<real>) -> bool {
    match direction {
        Direction::Maximize => forall|k: int| 0 <= k < delta.len() ==> delta[k] >= 0real,
        Direction::Minimize => forall|k: int| 0 <= k < delta.len() ==> delta[k] <= 0real,
    }
}

/// The column that enters the basis: the most negative reduced cost when
/// maximizing, the most positive when minimizing.
pub open spec fn entering_column(direction: Direction, costs: Seq<real>) -> Option<int> {
    match direction {
        Direction::Maximize => most_negative(costs),
        Direction::Minimize => most_positive(costs),
    }
}

/// The values of all variables after the first `upto` rows have been read:
/// each row gives its right-hand side to its basic variable, the rest are
/// zero.
pub open spec fn solution_upto(t: Seq<Seq<real>>, b: Seq<int>, width: nat, upto: nat) -> Seq<real>
    decreases upto,
{
    if upto == 0 {
        Seq::new(width, |k: int| 0real)
    } else {
        solution_upto(t, b, width, (upto - 1) as nat).update(b[upto - 1], t[upto - 1].last())
    }
}

/// The values of all variables that a tableau and basis stand for.
pub open spec fn solution(t: Seq<Seq<real>>, b: Seq<int>, width: nat) -> Seq<real> {
    solution_upto(t, b, width, t.len())
}

/// What a solve has recorded so far, with the pivots it has performed, each
/// as its row and column, and the count of its optimization iterations.
pub struct Progress {
    pub tableaus: Seq<Seq<Seq<real>>>,
    pub bases: Seq<Seq<int>>,
    pub deltas: Seq<Seq<real>>,
    pub pivots: Seq<(int, int)>,
    pub iterations: nat,
}

/// What a solve hands to its consumer.
pub struct TraceView {
    pub tableau_history: Seq<Seq<Seq<real>>>,
    pub basis_history: Seq<Seq<int>>,
    pub delta_history: Seq<Seq<real>>,
    pub solution: Option<Seq<real>>,
    pub outcome: Outcome,
}

/// A finished solve.
pub struct Run {
    pub progress: Progress,
    pub solution: Option<Seq<real>>,
    pub outcome: Outcome,
}

impl Progress {
    /// The current tableau.
    pub open spec fn tableau(self) -> Seq<Seq<real>> {
        self.tableaus.last()
    }

    /// The current basis.
    pub open spec fn basis(self) -> Seq<int> {
        self.bases.last()
    }

    /// The state before the first pivot.
    pub open spec fn start(p: ProblemView) -> Progress {
        Progress {
            tableaus: seq![initial_tableau(p)],
            bases: seq![initial_basis(p)],
            deltas: Seq::empty(),
            pivots: Seq::empty(),
            iterations: 0,
        }
    }

    /// The state after a pivot on `(i, j)`, which is recorded.
    pub open spec fn after_pivot(self, i: int, j: int) -> Progress {
        Progress {
            tableaus: self.tableaus.push(pivot(self.tableau(), i, j)),
            bases: self.bases.push(self.basis().update(i, j)),
            pivots: self.pivots.push((i, j)),
            ..self
        }
    }

    /// The state after an optimization iteration has computed `delta`,
    /// which is recorded.
    pub open spec fn after_delta(self, delta: Seq<real>) -> Progress {
        Progress { deltas: self.deltas.push(delta), iterations: self.iterations + 1, ..self }
    }

    /// The finished solve.
    pub open spec fn finish(self, solution: Option<Seq<real>>, outcome: Outcome) -> Run {
        Run { progress: self, solution, outcome }
    }
}

impl Run {
    /// What the consumer sees of the solve.
    pub open spec fn trace(self) -> TraceView {
        TraceView {
            tableau_history: self.progress.tableaus,
            basis_history: self.progress.bases,
            delta_history: self.progress.deltas,
            solution: self.solution,
            outcome: self.outcome,
        }
    }
}

/// The feasibility phase with `budget` pivots left. While some right-hand
/// side is negative, the row of the most negative one is pivoted on its most
/// negative entry among the `columns` variable columns. The phase ends with
/// no outcome when no right-hand side is negative, as infeasible when the
/// chosen row has no negative entry, and at the iteration limit when a pivot
/// is due and the budget is spent.
pub open spec fn restore_feasibility(s: Progress, columns: nat, budget: nat) -> (
    Progress,
    Option<Outcome>,
)
    decreases budget,
{
    let t = s.tableau();
    match most_negative(rhs_column(t)) {
        None => (s, None),
        Some(i) => match most_negative(t[i].take(columns as int)) {
            None => (s, Some(Outcome::Infeasible)),
            Some(j) => if budget == 0 {
                (s, Some(Outcome::IterationLimit))
            } else {
                restore_feasibility(s.after_pivot(i, j), columns, (budget - 1) as nat)
            },
        },
    }
}

/// The optimization phase with `budget` iterations left. Each iteration
/// records the reduced-cost row, stops with the solution where the row
/// passes the optimality test or offers no entering column, stops as
/// unbounded where no row can leave, and pivots otherwise.
pub open spec fn optimize(p: ProblemView, s: Progress, budget: nat) -> Run
    decreases budget,
{
    if budget == 0 {
        s.finish(None, Outcome::IterationLimit)
    } else {
        let t = s.tableau();
        let b = s.basis();
        let delta = delta_row(p, t, b);
        let recorded = s.after_delta(delta);
        if is_optimal(p.direction, delta) {
            recorded.finish(Some(solution(t, b, p.columns())), Outcome::Optimal)
        } else {
            match entering_column(p.direction, delta.take(p.columns() as int)) {
                None => recorded.finish(Some(solution(t, b, p.columns())), Outcome::Optimal),
                Some(j) => match leaving_row(t, j) {
                    None => recorded.finish(None, Outcome::Unbounded),
                    Some(i) => optimize(p, recorded.after_pivot(i, j), (budget - 1) as nat),
                },
            }
        }
    }
}

/// The whole solve: the feasibility phase from the initial tableau, then,
/// if it restored feasibility, the optimization phase.
pub open spec fn simulate(p: ProblemView, feasibility_cap: nat, optimization_cap: nat) -> Run {
    let (s, stopped) = restore_feasibility(Progress::start(p), p.columns(), feasibility_cap);
    match stopped {
        Some(outcome) => s.finish(None, outcome),
        None => optimize(p, s, optimization_cap),
    }
}

/// A tableau of `rows` rows and `columns + 1` entries in each, with a basis
/// that names one of the `columns` variable columns for each row.
pub open spec fn well_shaped(t: Seq<Seq<real>>, b: Seq<int>, rows: nat, columns: nat) -> bool {
    &&& t.len() == rows
    &&& b.len() == rows
    &&& forall|r: int| 0 <= r < rows ==> (#[trigger] t[r]).len() == columns + 1
    &&& forall|r: int| 0 <= r < rows ==> 0 <= #[trigger] b[r] < columns
}

/// At most one place is the first place of the least value.
pub proof fn lemma_most_negative_unique(s: Seq<real>, k: int)
    requires
        is_most_negative(s, k),
    ensures
        most_negative(s) == Some(k),
{
    let c = choose|c: int| is_most_negative(s, c);
    assert(is_most_negative(s, c));
    if c < k {
        assert(s[c] > s[k]);
        assert(s[k] >= s[c]);
    } else if k < c {
        assert(s[k] > s[c]);
        assert(s[c] >= s[k]);
    }
}

/// At most one place is the first place of the greatest value.
pub proof fn lemma_most_positive_unique(s: Seq<real>, k: int)
    requires
        is_most_positive(s, k),
    ensures
        most_positive(s) == Some(k),
{
    let c = choose|c: int| is_most_positive(s, c);
    assert(is_most_positive(s, c));
    if c < k {
        assert(s[c] < s[k]);
        assert(s[k] <= s[c]);
    } else if k < c {
        assert(s[k] < s[c]);
        assert(s[c] <= s[k]);
    }
}

/// At most one row is the first to attain the least ratio.
pub proof fn lemma_leaving_row_unique(t: Seq<Seq<real>>, j: int, r: int)
    requires
        is_leaving_row(t, j, r),
    ensures
        leaving_row(t, j) == Some(r),
{
    let c = choose|c: int| is_leaving_row(t, j, c);
    assert(is_leaving_row(t, j, c));
    if c < r {
        assert(ratio(t, c, j) > ratio(t, r, j));
        assert(ratio(t, r, j) >= ratio(t, c, j));
    } else if r < c {
        assert(ratio(t, r, j) > ratio(t, c, j));
        assert(ratio(t, c, j) >= ratio(t, r, j));
    }
}

/// The initial tableau and basis have the shape of the problem.
pub proof fn lemma_initial_shape(p: ProblemView)
    ensures
        well_shaped(initial_tableau(p), initial_basis(p), p.rows(), p.columns()),
{
}

/// A pivot keeps the shape of tableau and basis.
pub proof fn lemma_pivot_shape(t: Seq<Seq<real>>, b: Seq<int>, rows: nat, columns: nat, i: int, j: int)
    requires
        well_shaped(t, b, rows, columns),
        0 <= i < rows,
        0 <= j < columns,
    ensures
        well_shaped(pivot(t, i, j), b.update(i, j), rows, columns),
{
    let t2 = pivot(t, i, j);
    let b2 = b.update(i, j);
    assert forall|r: int| 0 <= r < rows implies (#[trigger] t2[r]).len() == columns + 1 by {
        assert(t[r].len() == columns + 1);
    }
    assert forall|r: int| 0 <= r < rows implies 0 <= #[trigger] b2[r] < columns by {
        if r != i {
            assert(b2[r] == b[r]);
        }
    }
}

} // verus!
