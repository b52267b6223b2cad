//! The solution read from a tableau in canonical form: it solves the
//! tableau, and it has the sign of the right-hand sides.

use crate::equations::{solves, weighted_sum};
use crate::invariants::{canonical, distinct, lemma_canonical_distinct, nonnegative_rhs};
use crate::model::{solution, solution_upto, well_shaped};
use vstd::prelude::*;

verus! {

/// After the first `upto` rows have been read, each of them has given its
/// right-hand side to its basic variable, and every variable that is basic
/// in none of them is zero.
pub proof fn lemma_solution_entries(t: Seq<Seq<real>>, b: Seq<int>, rows: nat, columns: nat, upto: nat)
    requires
        well_shaped(t, b, rows, columns),
        distinct(b),
        upto <= rows,
    ensures
        solution_upto(t, b, columns, upto).len() == columns,
        forall|r: int| 0 <= r < upto
            ==> solution_upto(t, b, columns, upto)[#[trigger] b[r]] == t[r].last(),
        forall|q: int|
            0 <= q < columns && (forall|r: int| 0 <= r < upto ==> b[r] != q) ==> #[trigger] solution_upto(
                t,
                b,
                columns,
                upto,
            )[q] == 0real,
    decreases upto,
{
    if upto > 0 {
        let before = solution_upto(t, b, columns, (upto - 1) as nat);
        let after = solution_upto(t, b, columns, upto);
        lemma_solution_entries(t, b, rows, columns, (upto - 1) as nat);
        let c = b[upto - 1];
        assert(0 <= c < columns);
        assert(after == before.update(c, t[upto - 1].last()));
        assert forall|r: int| 0 <= r < upto implies after[#[trigger] b[r]] == t[r].last() by {
            assert(0 <= b[r] < columns);
            if r < upto - 1 {
                assert(b[r] != c);
            }
        }
        assert forall|q: int|
            0 <= q < columns && (forall|r: int| 0 <= r < upto ==> b[r] != q) implies #[trigger] after[q]
            == 0real by {
            assert(q != c);
            assert forall|r: int| 0 <= r < upto - 1 implies b[r] != q by {}
        }
    }
}

/// In a tableau in canonical form, the first `n` entries of row `r`, weighted
/// by the solution, sum to the right-hand side of the row once its basic
/// column is among them, and to zero before.
pub proof fn lemma_row_sum(t: Seq<Seq<real>>, b: Seq<int>, rows: nat, columns: nat, r: int, n: nat)
    requires
        well_shaped(t, b, rows, columns),
        canonical(t, b),
        0 <= r < rows,
        n <= columns,
    ensures
        weighted_sum(t[r], solution(t, b, columns), n) == (if b[r] < n {
            t[r].last()
        } else {
            0real
        }),
    decreases n,
{
    if n > 0 {
        lemma_row_sum(t, b, rows, columns, r, (n - 1) as nat);
        lemma_canonical_distinct(t, b);
        lemma_solution_entries(t, b, rows, columns, rows);
        let x = solution(t, b, columns);
        let q = n - 1;
        let entry = t[r][q];
        let value = x[q];
        if exists|k: int| 0 <= k < rows && b[k] == q {
            let k = choose|k: int| 0 <= k < rows && b[k] == q;
            assert(x[b[k]] == t[k].last());
            assert(t[r][b[k]] == (if r == k {
                1real
            } else {
                0real
            }));
            assert(1real * value == value && 0real * value == 0real) by (nonlinear_arith);
        } else {
            assert(value == 0real);
            assert(entry * 0real == 0real) by (nonlinear_arith);
        }
    }
}

/// The solution read from a tableau in canonical form solves that tableau.
pub proof fn lemma_solution_solves(t: Seq<Seq<real>>, b: Seq<int>, rows: nat, columns: nat)
    requires
        well_shaped(t, b, rows, columns),
        canonical(t, b),
    ensures
        solves(t, solution(t, b, columns), columns),
{
    let x = solution(t, b, columns);
    assert forall|r: int| 0 <= r < t.len() implies weighted_sum(#[trigger] t[r], x, columns)
        == t[r][columns as int] by {
        lemma_row_sum(t, b, rows, columns, r, columns);
        assert(0 <= b[r] < columns);
        assert(t[r].len() == columns + 1);
    }
}

/// The solution read from a tableau in canonical form with no negative
/// right-hand side has no negative entry.
pub proof fn lemma_solution_nonnegative(t: Seq<Seq<real>>, b: Seq<int>, rows: nat, columns: nat)
    requires
        well_shaped(t, b, rows, columns),
        canonical(t, b),
        nonnegative_rhs(t),
    ensures
        solution(t, b, columns).len() == columns,
        forall|q: int| 0 <= q < columns ==> solution(t, b, columns)[q] >= 0real,
{
    lemma_canonical_distinct(t, b);
    lemma_solution_entries(t, b, rows, columns, rows);
    let x = solution(t, b, columns);
    assert forall|q: int| 0 <= q < columns implies x[q] >= 0real by {
        if exists|k: int| 0 <= k < rows && b[k] == q {
            let k = choose|k: int| 0 <= k < rows && b[k] == q;
            assert(x[b[k]] == t[k].last());
        }
    }
}

} // verus!
