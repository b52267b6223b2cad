//! What stays true while a solve runs: the canonical form of every tableau
//! it records, the soundness of its bookkeeping, and the sign of the
//! right-hand sides once feasibility is restored.

use crate::model::{
    Outcome, Progress, Run, delta_row, entering_column, initial_basis, initial_entry,
    initial_tableau, is_leaving_row, is_most_negative, is_most_positive, is_optimal, leaving_row,
    lemma_initial_shape, lemma_pivot_shape, most_negative, most_positive, optimize, pivot,
    pivot_entry, ratio, restore_feasibility, rhs_column, simulate, solution, well_shaped,
};
use crate::problem::{Direction, ProblemView};
use vstd::prelude::*;

verus! {

/// The tableau is in canonical form for the basis: the column of the basic
/// variable of each row is one in that row and zero in every other row.
pub open spec fn canonical(t: Seq<Seq<real>>, b: Seq<int>) -> bool {
    forall|i: int, r: int|
        0 <= i < t.len() && 0 <= r < t.len() ==> #[trigger] t[r][b[i]] == (if r == i {
            1real
        } else {
            0real
        })
}

/// No column is basic in two rows.
pub open spec fn distinct(b: Seq<int>) -> bool {
    forall|i: int, k: int| 0 <= i < b.len() && 0 <= k < b.len() && i != k ==> b[i] != b[k]
}

/// Snapshot `k` of the history has the shape of the problem and is in
/// canonical form.
pub open spec fn snapshot_sound(p: ProblemView, s: Progress, k: int) -> bool {
    &&& well_shaped(s.tableaus[k], s.bases[k], p.rows(), p.columns())
    &&& canonical(s.tableaus[k], s.bases[k])
}

/// Snapshot `k + 1` of the history is the pivot of snapshot `k` on the
/// `k`-th recorded position, whose entry is not zero.
pub open spec fn pivot_links(p: ProblemView, s: Progress, k: int) -> bool {
    let (i, j) = s.pivots[k];
    &&& 0 <= i < p.rows()
    &&& 0 <= j < p.columns()
    &&& s.tableaus[k][i][j] != 0real
    &&& s.tableaus[k + 1] == pivot(s.tableaus[k], i, j)
    &&& s.bases[k + 1] == s.bases[k].update(i, j)
}

/// The bookkeeping of a solve is sound: the history starts with the initial
/// tableau and basis, holds one more snapshot than pivots were made, each
/// snapshot the pivot of the one before it, all of them in canonical form,
/// and holds one reduced-cost row for each optimization iteration.
pub open spec fn sound(p: ProblemView, s: Progress) -> bool {
    &&& s.tableaus.len() == s.pivots.len() + 1
    &&& s.bases.len() == s.pivots.len() + 1
    &&& s.deltas.len() == s.iterations
    &&& s.tableaus[0] == initial_tableau(p)
    &&& s.bases[0] == initial_basis(p)
    &&& forall|k: int| 0 <= k < s.tableaus.len() ==> #[trigger] snapshot_sound(p, s, k)
    &&& forall|k: int| 0 <= k < s.pivots.len() ==> #[trigger] pivot_links(p, s, k)
}

/// The initial tableau is in canonical form for the initial basis.
pub proof fn lemma_initial_canonical(p: ProblemView)
    ensures
        canonical(initial_tableau(p), initial_basis(p)),
{
    let t = initial_tableau(p);
    let b = initial_basis(p);
    assert forall|i: int, r: int| 0 <= i < t.len() && 0 <= r < t.len() implies #[trigger] t[r][b[i]]
        == (if r == i {
        1real
    } else {
        0real
    }) by {
        assert(b[i] == p.variables() + i);
        assert(t[r][b[i]] == initial_entry(p, r, b[i]));
    }
}

/// A basis for which some tableau is in canonical form names no column
/// twice.
pub proof fn lemma_canonical_distinct(t: Seq<Seq<real>>, b: Seq<int>)
    requires
        canonical(t, b),
        t.len() == b.len(),
    ensures
        distinct(b),
{
    assert forall|i: int, k: int| 0 <= i < b.len() && 0 <= k < b.len() && i != k implies b[i]
        != b[k] by {
        assert(t[i][b[i]] == 1real);
        assert(t[i][b[k]] == 0real);
    }
}

/// A pivot on a nonzero entry keeps the canonical form.
pub proof fn lemma_pivot_canonical(t: Seq<Seq<real>>, b: Seq<int>, rows: nat, columns: nat, i: int, j: int)
    requires
        well_shaped(t, b, rows, columns),
        canonical(t, b),
        0 <= i < rows,
        0 <= j < columns,
        t[i][j] != 0real,
    ensures
        canonical(pivot(t, i, j), b.update(i, j)),
{
    let t2 = pivot(t, i, j);
    let b2 = b.update(i, j);
    let d = t[i][j];
    assert(d / d == 1real) by (nonlinear_arith)
        requires
            d != 0real,
    ;
    assert(0real / d == 0real) by (nonlinear_arith)
        requires
            d != 0real,
    ;
    assert forall|k: int, r: int| 0 <= k < t2.len() && 0 <= r < t2.len() implies #[trigger] t2[r][b2[k]]
        == (if r == k {
        1real
    } else {
        0real
    }) by {
        assert(t[r].len() == columns + 1);
        assert(t[i].len() == columns + 1);
        let c = b2[k];
        assert(0 <= b[k] < columns);
        assert(t2[r][c] == pivot_entry(t, i, j, r, c));
        let m = t[r][j];
        if k == i {
            assert(c == j);
            assert(m - m * 1real == 0real) by (nonlinear_arith);
        } else {
            assert(c == b[k]);
            assert(t[i][b[k]] == 0real);
            assert(t[r][b[k]] == (if r == k {
                1real
            } else {
                0real
            }));
            assert(m * 0real == 0real) by (nonlinear_arith);
        }
    }
}

/// The state before the first pivot is sound.
pub proof fn lemma_start_sound(p: ProblemView)
    ensures
        sound(p, Progress::start(p)),
{
    let s = Progress::start(p);
    lemma_initial_shape(p);
    lemma_initial_canonical(p);
    assert forall|k: int| 0 <= k < s.tableaus.len() implies #[trigger] snapshot_sound(p, s, k) by {
        assert(k == 0);
    }
}

/// Recording a pivot on a nonzero entry keeps the bookkeeping sound.
pub proof fn lemma_pivot_sound(p: ProblemView, s: Progress, i: int, j: int)
    requires
        sound(p, s),
        0 <= i < p.rows(),
        0 <= j < p.columns(),
        s.tableau()[i][j] != 0real,
    ensures
        sound(p, s.after_pivot(i, j)),
{
    let n = s.after_pivot(i, j);
    let last = s.tableaus.len() - 1;
    assert(snapshot_sound(p, s, last));
    lemma_pivot_shape(s.tableau(), s.basis(), p.rows(), p.columns(), i, j);
    lemma_pivot_canonical(s.tableau(), s.basis(), p.rows(), p.columns(), i, j);
    assert forall|k: int| 0 <= k < n.tableaus.len() implies #[trigger] snapshot_sound(p, n, k) by {
        if k <= last {
            assert(snapshot_sound(p, s, k));
            assert(n.tableaus[k] == s.tableaus[k]);
            assert(n.bases[k] == s.bases[k]);
        }
    }
    assert forall|k: int| 0 <= k < n.pivots.len() implies #[trigger] pivot_links(p, n, k) by {
        if k < last {
            assert(pivot_links(p, s, k));
            assert(n.pivots[k] == s.pivots[k]);
            assert(n.tableaus[k] == s.tableaus[k]);
            assert(n.tableaus[k + 1] == s.tableaus[k + 1]);
            assert(n.bases[k] == s.bases[k]);
            assert(n.bases[k + 1] == s.bases[k + 1]);
        } else {
            assert(n.pivots[k] == (i, j));
        }
    }
}

/// Recording a reduced-cost row keeps the bookkeeping sound.
pub proof fn lemma_delta_sound(p: ProblemView, s: Progress, delta: Seq<real>)
    requires
        sound(p, s),
    ensures
        sound(p, s.after_delta(delta)),
{
    let n = s.after_delta(delta);
    assert forall|k: int| 0 <= k < n.tableaus.len() implies #[trigger] snapshot_sound(p, n, k) by {
        assert(snapshot_sound(p, s, k));
    }
    assert forall|k: int| 0 <= k < n.pivots.len() implies #[trigger] pivot_links(p, n, k) by {
        assert(pivot_links(p, s, k));
    }
}

/// The first place of the least of the first `n` entries of `s`.
pub open spec fn first_least(s: Seq<real>, n: nat) -> int
    decreases n,
{
    if n <= 1 {
        0
    } else {
        let before = first_least(s, (n - 1) as nat);
        if s[n - 1] < s[before] {
            n - 1
        } else {
            before
        }
    }
}

/// The first place of the greatest of the first `n` entries of `s`.
pub open spec fn first_greatest(s: Seq<real>, n: nat) -> int
    decreases n,
{
    if n <= 1 {
        0
    } else {
        let before = first_greatest(s, (n - 1) as nat);
        if s[n - 1] > s[before] {
            n - 1
        } else {
            before
        }
    }
}

/// `first_least` names the first place of the least of the first `n` entries.
pub proof fn lemma_first_least(s: Seq<real>, n: nat)
    requires
        1 <= n <= s.len(),
    ensures
        0 <= first_least(s, n) < n,
        forall|l: int| 0 <= l < first_least(s, n) ==> #[trigger] s[l] > s[first_least(s, n)],
        forall|l: int| first_least(s, n) <= l < n ==> #[trigger] s[l] >= s[first_least(s, n)],
    decreases n,
{
    if n > 1 {
        lemma_first_least(s, (n - 1) as nat);
    }
}

/// `first_greatest` names the first place of the greatest of the first `n`
/// entries.
pub proof fn lemma_first_greatest(s: Seq<real>, n: nat)
    requires
        1 <= n <= s.len(),
    ensures
        0 <= first_greatest(s, n) < n,
        forall|l: int| 0 <= l < first_greatest(s, n) ==> #[trigger] s[l] < s[first_greatest(s, n)],
        forall|l: int| first_greatest(s, n) <= l < n ==> #[trigger] s[l] <= s[first_greatest(s, n)],
    decreases n,
{
    if n > 1 {
        lemma_first_greatest(s, (n - 1) as nat);
    }
}

/// Where no place is the most negative, no entry is negative.
pub proof fn lemma_none_negative(s: Seq<real>)
    requires
        most_negative(s) is None,
    ensures
        forall|k: int| 0 <= k < s.len() ==> s[k] >= 0real,
{
    if s.len() > 0 {
        lemma_first_least(s, s.len());
        let least = first_least(s, s.len());
        if s[least] < 0real {
            assert(is_most_negative(s, least));
        }
    }
}

/// Where no place is the most positive, no entry is positive.
pub proof fn lemma_none_positive(s: Seq<real>)
    requires
        most_positive(s) is None,
    ensures
        forall|k: int| 0 <= k < s.len() ==> s[k] <= 0real,
{
    if s.len() > 0 {
        lemma_first_greatest(s, s.len());
        let greatest = first_greatest(s, s.len());
        if s[greatest] > 0real {
            assert(is_most_positive(s, greatest));
        }
    }
}

/// No right-hand side of the tableau is negative.
pub open spec fn nonnegative_rhs(t: Seq<Seq<real>>) -> bool {
    forall|r: int| 0 <= r < t.len() ==> (#[trigger] t[r]).last() >= 0real
}

/// A pivot on the row that the ratio test picks keeps every right-hand side
/// nonnegative.
pub proof fn lemma_pivot_keeps_rhs(t: Seq<Seq<real>>, b: Seq<int>, rows: nat, columns: nat, i: int, j: int)
    requires
        well_shaped(t, b, rows, columns),
        nonnegative_rhs(t),
        0 <= j < columns,
        is_leaving_row(t, j, i),
    ensures
        nonnegative_rhs(pivot(t, i, j)),
{
    let t2 = pivot(t, i, j);
    assert forall|r: int| 0 <= r < t2.len() implies (#[trigger] t2[r]).last() >= 0real by {
        assert(t[r].len() == columns + 1);
        assert(t[i].len() == columns + 1);
        assert(t2[r].last() == pivot_entry(t, i, j, r, columns as int));
        let d = t[i][j];
        let x = t[i][columns as int];
        let m = t[r][j];
        let y = t[r][columns as int];
        assert(x == t[i].last());
        assert(y == t[r].last());
        assert(x >= 0real && y >= 0real);
        assert(x / d >= 0real) by (nonlinear_arith)
            requires
                d > 0real,
                x >= 0real,
        ;
        if r != i {
            if m > 0real {
                assert(ratio(t, r, j) >= ratio(t, i, j));
                assert(y - m * (x / d) >= 0real) by (nonlinear_arith)
                    requires
                        m > 0real,
                        y / m >= x / d,
                ;
            } else {
                assert(y - m * (x / d) >= 0real) by (nonlinear_arith)
                    requires
                        m <= 0real,
                        y >= 0real,
                        x / d >= 0real,
                ;
            }
        }
    }
}

/// The feasibility phase keeps the bookkeeping sound and records no
/// reduced-cost row; where it ends without an outcome, no right-hand side is
/// negative; and it makes at most `budget` pivots.
pub proof fn lemma_feasibility_phase(p: ProblemView, s: Progress, budget: nat)
    requires
        sound(p, s),
    ensures
        ({
            let (end, stopped) = restore_feasibility(s, p.columns(), budget);
            &&& sound(p, end)
            &&& end.deltas == s.deltas
            &&& end.iterations == s.iterations
            &&& end.pivots.len() <= s.pivots.len() + budget
            &&& stopped is None ==> nonnegative_rhs(end.tableau())
            &&& stopped is Some ==> stopped == Some(Outcome::Infeasible) || stopped == Some(
                Outcome::IterationLimit,
            )
        }),
    decreases budget,
{
    let t = s.tableau();
    let last = s.tableaus.len() - 1;
    assert(snapshot_sound(p, s, last));
    match most_negative(rhs_column(t)) {
        None => {
            lemma_none_negative(rhs_column(t));
            assert forall|r: int| 0 <= r < t.len() implies (#[trigger] t[r]).last() >= 0real by {
                assert(rhs_column(t)[r] == t[r].last());
            }
        },
        Some(i) => {
            assert(is_most_negative(rhs_column(t), i));
            assert(t[i].len() == p.columns() + 1);
            let costs = t[i].take(p.columns() as int);
            match most_negative(costs) {
                None => {},
                Some(j) => {
                    assert(is_most_negative(costs, j));
                    assert(costs[j] == t[i][j]);
                    if budget > 0 {
                        lemma_pivot_sound(p, s, i, j);
                        lemma_feasibility_phase(p, s.after_pivot(i, j), (budget - 1) as nat);
                    }
                },
            }
        },
    }
}

/// What holds of a solve that went through the optimization phase.
pub open spec fn optimized(p: ProblemView, r: Run) -> bool {
    let end = r.progress;
    &&& sound(p, end)
    &&& nonnegative_rhs(end.tableau())
    &&& r.outcome != Outcome::Infeasible
    &&& r.solution is Some <==> r.outcome == Outcome::Optimal
    &&& r.solution is Some ==> {
        &&& end.deltas.len() >= 1
        &&& r.solution == Some(solution(end.tableau(), end.basis(), p.columns()))
        &&& end.deltas.last() == delta_row(p, end.tableau(), end.basis())
        &&& is_optimal(p.direction, end.deltas.last()) || entering_column(
            p.direction,
            end.deltas.last().take(p.columns() as int),
        ) is None
    }
}

/// The optimization phase keeps the bookkeeping sound and every right-hand
/// side nonnegative; it ends with a solution exactly when its outcome is
/// optimal, and the solution is then read from the last tableau, whose
/// reduced-cost row is the last one recorded; and it runs at most `budget`
/// iterations.
pub proof fn lemma_optimization_phase(p: ProblemView, s: Progress, budget: nat)
    requires
        sound(p, s),
        nonnegative_rhs(s.tableau()),
    ensures
        optimized(p, optimize(p, s, budget)),
        optimize(p, s, budget).progress.iterations <= s.iterations + budget,
        optimize(p, s, budget).progress.pivots.len() <= s.pivots.len() + budget,
    decreases budget,
{
    if budget > 0 {
        let t = s.tableau();
        let b = s.basis();
        let last = s.tableaus.len() - 1;
        assert(snapshot_sound(p, s, last));
        let delta = delta_row(p, t, b);
        let recorded = s.after_delta(delta);
        lemma_delta_sound(p, s, delta);
        assert(recorded.tableau() == t && recorded.basis() == b);
        assert(recorded.deltas.last() == delta);
        if !is_optimal(p.direction, delta) {
            let costs = delta.take(p.columns() as int);
            match entering_column(p.direction, costs) {
                None => {},
                Some(j) => {
                    assert(0 <= j < p.columns()) by {
                        match p.direction {
                            Direction::Maximize => {
                                assert(is_most_negative(costs, j));
                            },
                            Direction::Minimize => {
                                assert(is_most_positive(costs, j));
                            },
                        }
                    }
                    match leaving_row(t, j) {
                        None => {},
                        Some(i) => {
                            assert(is_leaving_row(t, j, i));
                            lemma_pivot_sound(p, recorded, i, j);
                            lemma_pivot_keeps_rhs(t, b, p.rows(), p.columns(), i, j);
                            lemma_optimization_phase(
                                p,
                                recorded.after_pivot(i, j),
                                (budget - 1) as nat,
                            );
                        },
                    }
                },
            }
        }
    }
}

/// What holds of every finished solve: its bookkeeping is sound, and where
/// it has a solution, the solve went through the optimization phase.
pub proof fn lemma_solve(p: ProblemView, feasibility_cap: nat, optimization_cap: nat)
    ensures
        sound(p, simulate(p, feasibility_cap, optimization_cap).progress),
        simulate(p, feasibility_cap, optimization_cap).solution is Some ==> optimized(
            p,
            simulate(p, feasibility_cap, optimization_cap),
        ),
        simulate(p, feasibility_cap, optimization_cap).solution is Some <==> simulate(
            p,
            feasibility_cap,
            optimization_cap,
        ).outcome == Outcome::Optimal,
        simulate(p, feasibility_cap, optimization_cap).outcome == Outcome::Infeasible
            ==> simulate(p, feasibility_cap, optimization_cap).progress.iterations == 0,
        simulate(p, feasibility_cap, optimization_cap).progress.iterations <= optimization_cap,
        simulate(p, feasibility_cap, optimization_cap).progress.pivots.len() <= feasibility_cap
            + optimization_cap,
{
    let start = Progress::start(p);
    lemma_start_sound(p);
    lemma_feasibility_phase(p, start, feasibility_cap);
    let (restored, stopped) = restore_feasibility(start, p.columns(), feasibility_cap);
    if stopped is None {
        lemma_optimization_phase(p, restored, optimization_cap);
    }
}

} // verus!
