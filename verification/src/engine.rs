//! The executable engine: the tableau builder, the pivot, the selection
//! rules and the two phases, each proved to compute what the model defines.

use crate::invariants::{canonical, lemma_pivot_canonical};
use crate::laws::{history_counts_steps, solution_exactly_when_optimal};
use crate::model;
use crate::model::{Outcome, Progress, TraceView};
use crate::problem::{Direction, Problem, Relation};
use crate::rational::{values, Rational};
use vstd::prelude::*;

verus! {

/// The entries of a tableau as real numbers.
pub open spec fn table_values(rows: Seq<Vec<Rational>>) -> Seq<Seq<real>> {
    Seq::new(rows.len(), |r: int| values(rows[r]@))
}

/// The column indices of a basis as integers.
pub open spec fn basis_values(basis: Seq<usize>) -> Seq<int> {
    Seq::new(basis.len(), |r: int| basis[r] as int)
}

/// The recorded tableaus as real matrices.
pub open spec fn tableau_histories(history: Seq<Vec<Vec<Rational>>>) -> Seq<Seq<Seq<real>>> {
    Seq::new(history.len(), |k: int| table_values(history[k]@))
}

/// The recorded bases as integer sequences.
pub open spec fn basis_histories(history: Seq<Vec<usize>>) -> Seq<Seq<int>> {
    Seq::new(history.len(), |k: int| basis_values(history[k]@))
}

/// The values of a solution, where there is one.
pub open spec fn solution_values(solution: Option<Vec<Rational>>) -> Option<Seq<real>> {
    match solution {
        Some(x) => Some(values(x@)),
        None => None,
    }
}

/// Every row of the tableau has `width` entries.
pub open spec fn rectangular(tableau: Seq<Vec<Rational>>, width: nat) -> bool {
    forall|r: int| 0 <= r < tableau.len() ==> (#[trigger] tableau[r]).len() == width
}

/// A copy of a row.
pub fn copy_row(row: &Vec<Rational>) -> (copy: Vec<Rational>)
    ensures
        values(copy@) == values(row@),
{
    let mut copy: Vec<Rational> = Vec::new();
    let mut k: usize = 0;
    while k < row.len()
        invariant
            k <= row.len(),
            copy.len() == k,
            forall|l: int| 0 <= l < k ==> copy[l]@ == row[l]@,
        decreases row.len() - k,
    {
        copy.push(row[k].clone());
        k += 1;
    }
    assert(values(copy@) =~= values(row@));
    copy
}

/// The first place of the least of the first `upto` entries of a row, if
/// that entry is negative.
pub fn first_most_negative(row: &Vec<Rational>, upto: usize) -> (found: Option<usize>)
    requires
        upto <= row.len(),
    ensures
        found matches Some(k) ==> k < upto && row[k as int]@ < 0real && model::most_negative(
            values(row@).take(upto as int),
        ) == Some(k as int),
        found is None ==> model::most_negative(values(row@).take(upto as int)) is None,
{
    let ghost s = values(row@).take(upto as int);
    let mut best: Option<usize> = None;
    let mut k: usize = 0;
    while k < upto
        invariant
            k <= upto <= row.len(),
            s == values(row@).take(upto as int),
            match best {
                None => forall|l: int| 0 <= l < k ==> s[l] >= 0real,
                Some(b) => b < k && s[b as int] < 0real && (forall|l: int|
                    0 <= l < b ==> s[l] > s[b as int]) && (forall|l: int|
                    b <= l < k ==> s[l] >= s[b as int]),
            },
        decreases upto - k,
    {
        let better = match best {
            None => row[k].is_negative(),
            Some(b) => row[k].lt(&row[b]),
        };
        if better {
            best = Some(k);
        }
        k += 1;
    }
    proof {
        match best {
            Some(b) => {
                assert(model::is_most_negative(s, b as int));
                model::lemma_most_negative_unique(s, b as int);
            },
            None => {
                assert forall|c: int| !model::is_most_negative(s, c) by {}
            },
        }
    }
    best
}

/// The first place of the greatest of the first `upto` entries of a row, if
/// that entry is positive.
pub fn first_most_positive(row: &Vec<Rational>, upto: usize) -> (found: Option<usize>)
    requires
        upto <= row.len(),
    ensures
        found matches Some(k) ==> k < upto && row[k as int]@ > 0real && model::most_positive(
            values(row@).take(upto as int),
        ) == Some(k as int),
        found is None ==> model::most_positive(values(row@).take(upto as int)) is None,
{
    let ghost s = values(row@).take(upto as int);
    let mut best: Option<usize> = None;
    let mut k: usize = 0;
    while k < upto
        invariant
            k <= upto <= row.len(),
            s == values(row@).take(upto as int),
            match best {
                None => forall|l: int| 0 <= l < k ==> s[l] <= 0real,
                Some(b) => b < k && s[b as int] > 0real && (forall|l: int|
                    0 <= l < b ==> s[l] < s[b as int]) && (forall|l: int|
                    b <= l < k ==> s[l] <= s[b as int]),
            },
        decreases upto - k,
    {
        let better = match best {
            None => row[k].is_positive(),
            Some(b) => row[b].lt(&row[k]),
        };
        if better {
            best = Some(k);
        }
        k += 1;
    }
    proof {
        match best {
            Some(b) => {
                assert(model::is_most_positive(s, b as int));
                model::lemma_most_positive_unique(s, b as int);
            },
            None => {
                assert forall|c: int| !model::is_most_positive(s, c) by {}
            },
        }
    }
    best
}

/// The right-hand sides of the rows of a tableau.
pub fn rhs_values(tableau: &Vec<Vec<Rational>>) -> (column: Vec<Rational>)
    requires
        forall|r: int| 0 <= r < tableau.len() ==> (#[trigger] tableau[r]).len() >= 1,
    ensures
        values(column@) == model::rhs_column(table_values(tableau@)),
{
    let mut column: Vec<Rational> = Vec::new();
    let mut r: usize = 0;
    while r < tableau.len()
        invariant
            r <= tableau.len(),
            column.len() == r,
            forall|l: int| 0 <= l < tableau.len() ==> (#[trigger] tableau[l]).len() >= 1,
            forall|l: int| 0 <= l < r ==> column[l]@ == (#[trigger] tableau[l])@.last()@,
        decreases tableau.len() - r,
    {
        let row = &tableau[r];
        column.push(row[row.len() - 1].clone());
        r += 1;
    }
    assert(values(column@) =~= model::rhs_column(table_values(tableau@)));
    column
}

/// The row that leaves the basis when column `j` enters: the first row of
/// least ratio among those with a positive entry in column `j`.
pub fn ratio_test(tableau: &Vec<Vec<Rational>>, j: usize) -> (found: Option<usize>)
    requires
        forall|r: int| 0 <= r < tableau.len() ==> j < (#[trigger] tableau[r]).len(),
    ensures
        found matches Some(r) ==> r < tableau.len() && tableau[r as int][j as int]@ > 0real
            && model::leaving_row(table_values(tableau@), j as int) == Some(r as int),
        found is None ==> model::leaving_row(table_values(tableau@), j as int) is None,
{
    let ghost t = table_values(tableau@);
    let mut best: Option<(usize, Rational)> = None;
    let mut r: usize = 0;
    while r < tableau.len()
        invariant
            r <= tableau.len(),
            t == table_values(tableau@),
            forall|l: int| 0 <= l < tableau.len() ==> j < (#[trigger] tableau[l]).len(),
            match best {
                None => forall|l: int| 0 <= l < r ==> !(t[l][j as int] > 0real),
                Some((b, least)) => b < r && t[b as int][j as int] > 0real && least@ == model::ratio(
                    t,
                    b as int,
                    j as int,
                ) && (forall|l: int|
                    0 <= l < b && t[l][j as int] > 0real ==> model::ratio(t, l, j as int)
                        > least@) && (forall|l: int|
                    b <= l < r && t[l][j as int] > 0real ==> model::ratio(t, l, j as int)
                        >= least@),
            },
        decreases tableau.len() - r,
    {
        let row = &tableau[r];
        assert(t[r as int] == values(row@));
        if row[j].is_positive() {
            let candidate = row[row.len() - 1].div(&row[j]);
            assert(candidate@ == model::ratio(t, r as int, j as int));
            let better = match &best {
                None => true,
                Some((_, least)) => candidate.lt(least),
            };
            if better {
                best = Some((r, candidate));
            }
        }
        r += 1;
    }
    match best {
        Some((b, _)) => {
            proof {
                assert(model::is_leaving_row(t, j as int, b as int));
                model::lemma_leaving_row_unique(t, j as int, b as int);
            }
            Some(b)
        },
        None => {
            proof {
                assert forall|c: int| !model::is_leaving_row(t, j as int, c) by {}
            }
            None
        },
    }
}

/// The initial tableau and basis of a problem: each constraint in the `<=`
/// convention, the identity over the slack columns, and slack variable `i`
/// basic in row `i`.
pub fn build_tableau(problem: &Problem) -> (out: (Vec<Vec<Rational>>, Vec<usize>))
    ensures
        table_values(out.0@) == model::initial_tableau(problem@),
        basis_values(out.1@) == model::initial_basis(problem@),
{
    proof {
        use_type_invariant(problem);
    }
    let objective = problem.objective();
    let constraints = problem.constraints();
    let n = objective.coefficients.len();
    let m = constraints.len();
    let ghost p = problem@;
    assert(p.variables() == n && p.rows() == m) by {
        assert(values(objective.coefficients@).len() == n);
    }
    let mut tableau: Vec<Vec<Rational>> = Vec::new();
    let mut basis: Vec<usize> = Vec::new();
    let mut i: usize = 0;
    while i < m
        invariant
            i <= m,
            m == constraints.len(),
            p == problem@,
            p.well_formed(),
            p.variables() == n,
            p.rows() == m,
            n + m < usize::MAX,
            forall|r: int| 0 <= r < m ==> (#[trigger] constraints@[r])@ == p.constraints[r],
            tableau.len() == i,
            basis.len() == i,
            forall|r: int| 0 <= r < i
                ==> values((#[trigger] tableau[r])@) == model::initial_tableau(p)[r],
            forall|r: int| 0 <= r < i ==> #[trigger] basis[r] == n + r,
        decreases m - i,
    {
        let constraint = &constraints[i];
        let ghost c = p.constraints[i as int];
        assert(constraint@ == c);
        assert(c.coefficients.len() == n);
        assert(constraint.coefficients.len() == n) by {
            assert(values(constraint.coefficients@).len() == n);
        }
        let flip = match constraint.relation {
            Relation::AtLeast => true,
            Relation::AtMost => false,
        };
        let mut row: Vec<Rational> = Vec::new();
        let mut k: usize = 0;
        while k < n + m + 1
            invariant
                k <= n + m + 1,
                i < m,
                n + m < usize::MAX,
                p.variables() == n,
                p.rows() == m,
                constraint@ == c,
                c == p.constraints[i as int],
                constraint.coefficients.len() == n,
                flip <==> constraint.relation == Relation::AtLeast,
                row.len() == k,
                forall|l: int| 0 <= l < k
                    ==> (#[trigger] row[l])@ == model::initial_entry(p, i as int, l),
            decreases n + m + 1 - k,
        {
            let entry = if k < n {
                assert(c.coefficients[k as int] == constraint.coefficients[k as int]@);
                if flip {
                    constraint.coefficients[k].neg()
                } else {
                    constraint.coefficients[k].clone()
                }
            } else if k < n + m {
                if k == n + i {
                    Rational::from_i64(1)
                } else {
                    Rational::from_i64(0)
                }
            } else {
                if flip {
                    constraint.rhs.neg()
                } else {
                    constraint.rhs.clone()
                }
            };
            proof {
                let x = c.coefficients[k as int];
                let y = c.rhs;
                assert(-1real * x == -x && 1real * x == x && -1real * y == -y && 1real * y == y)
                    by (nonlinear_arith);
            }
            row.push(entry);
            k += 1;
        }
        assert(values(row@) =~= model::initial_tableau(p)[i as int]);
        tableau.push(row);
        basis.push(n + i);
        i += 1;
    }
    assert(table_values(tableau@) =~= model::initial_tableau(p));
    assert(basis_values(basis@) =~= model::initial_basis(p));
    (tableau, basis)
}

/// The pivot on entry `(i, j)`: the tableau in which row `i` is divided by
/// that entry and column `j` is cleared from every other row, and the basis
/// in which row `i` holds variable `j`. The arguments are left as they are.
/// A pivot on a variable column of a tableau in canonical form gives a
/// tableau in canonical form.
pub fn change_basis(tableau: &Vec<Vec<Rational>>, basis: &Vec<usize>, i: usize, j: usize) -> (out: (
    Vec<Vec<Rational>>,
    Vec<usize>,
))
    requires
        i < tableau.len(),
        tableau.len() == basis.len(),
        rectangular(tableau@, tableau[i as int].len() as nat),
        j < tableau[i as int].len(),
        tableau[i as int][j as int]@ != 0real,
    ensures
        table_values(out.0@) == model::pivot(table_values(tableau@), i as int, j as int),
        basis_values(out.1@) == basis_values(basis@).update(i as int, j as int),
        j + 1 < tableau[i as int].len() && model::well_shaped(
            table_values(tableau@),
            basis_values(basis@),
            tableau.len() as nat,
            (tableau[i as int].len() - 1) as nat,
        ) && canonical(table_values(tableau@), basis_values(basis@)) ==> canonical(
            table_values(out.0@),
            basis_values(out.1@),
        ),
{
    let ghost t = table_values(tableau@);
    proof {
        let b = basis_values(basis@);
        let columns = (tableau[i as int].len() - 1) as nat;
        assert(t[i as int] == values(tableau[i as int]@));
        if j + 1 < tableau[i as int].len() && model::well_shaped(t, b, tableau.len() as nat, columns)
            && canonical(t, b) {
            lemma_pivot_canonical(t, b, tableau.len() as nat, columns, i as int, j as int);
        }
    }
    let m = tableau.len();
    let width = tableau[i].len();
    let source = &tableau[i];
    let entry = &source[j];
    assert(t[i as int] == values(source@));
    let mut scaled: Vec<Rational> = Vec::new();
    let mut q: usize = 0;
    while q < width
        invariant
            q <= width,
            width == source.len(),
            j < width,
            entry@ == t[i as int][j as int],
            entry@ != 0real,
            t[i as int] == values(source@),
            scaled.len() == q,
            forall|l: int| 0 <= l < q
                ==> (#[trigger] scaled[l])@ == t[i as int][l] / t[i as int][j as int],
        decreases width - q,
    {
        scaled.push(source[q].div(entry));
        q += 1;
    }
    let mut rows: Vec<Vec<Rational>> = Vec::new();
    let mut next: Vec<usize> = Vec::new();
    let mut r: usize = 0;
    while r < m
        invariant
            r <= m,
            m == tableau.len(),
            m == basis.len(),
            i < m,
            j < width,
            t == table_values(tableau@),
            rectangular(tableau@, width as nat),
            scaled.len() == width,
            forall|l: int| 0 <= l < width
                ==> (#[trigger] scaled[l])@ == t[i as int][l] / t[i as int][j as int],
            rows.len() == r,
            next.len() == r,
            forall|l: int| 0 <= l < r
                ==> values((#[trigger] rows[l])@) == model::pivot(t, i as int, j as int)[l],
            forall|l: int| 0 <= l < r ==> #[trigger] next[l] == (if l == i { j } else { basis[l] }),
        decreases m - r,
    {
        let old_row = &tableau[r];
        assert(t[r as int] == values(old_row@));
        assert(old_row.len() == width);
        if r == i {
            let row = copy_row(&scaled);
            assert(values(row@) =~= model::pivot(t, i as int, j as int)[r as int]);
            rows.push(row);
            next.push(j);
        } else {
            let factor = &old_row[j];
            let mut row: Vec<Rational> = Vec::new();
            let mut q: usize = 0;
            while q < width
                invariant
                    q <= width,
                    r != i,
                    r < m,
                    j < width,
                    old_row.len() == width,
                    scaled.len() == width,
                    t[r as int] == values(old_row@),
                    factor@ == t[r as int][j as int],
                    forall|l: int| 0 <= l < width
                        ==> (#[trigger] scaled[l])@ == t[i as int][l] / t[i as int][j as int],
                    row.len() == q,
                    forall|l: int| 0 <= l < q
                        ==> (#[trigger] row[l])@ == model::pivot_entry(t, i as int, j as int, r as int, l),
                decreases width - q,
            {
                let taken = factor.mul(&scaled[q]);
                row.push(old_row[q].sub(&taken));
                q += 1;
            }
            assert(values(row@) =~= model::pivot(t, i as int, j as int)[r as int]);
            rows.push(row);
            next.push(basis[r]);
        }
        r += 1;
    }
    assert(table_values(rows@) =~= model::pivot(t, i as int, j as int));
    assert(basis_values(next@) =~= basis_values(basis@).update(i as int, j as int));
    (rows, next)
}

/// The reduced-cost row of a tableau and basis under the objective of the
/// problem.
pub fn delta_row(problem: &Problem, tableau: &Vec<Vec<Rational>>, basis: &Vec<usize>) -> (delta: Vec<Rational>)
    requires
        tableau.len() == basis.len(),
        rectangular(tableau@, problem@.columns() + 1),
    ensures
        values(delta@) == model::delta_row(problem@, table_values(tableau@), basis_values(basis@)),
{
    proof {
        use_type_invariant(problem);
    }
    let objective = problem.objective();
    let n = objective.coefficients.len();
    let m = tableau.len();
    let ghost p = problem@;
    let ghost t = table_values(tableau@);
    let ghost b = basis_values(basis@);
    assert(p.variables() == n) by {
        assert(values(objective.coefficients@).len() == n);
    }
    let mut delta: Vec<Rational> = Vec::new();
    let mut k: usize = 0;
    let columns: usize = problem.columns();
    while k < columns + 1
        invariant
            k <= columns + 1,
            columns == p.columns(),
            columns < usize::MAX,
            p == problem@,
            p.variables() == n,
            values(objective.coefficients@) == p.objective,
            n == objective.coefficients.len(),
            m == tableau.len(),
            m == basis.len(),
            t == table_values(tableau@),
            b == basis_values(basis@),
            rectangular(tableau@, (columns + 1) as nat),
            delta.len() == k,
            forall|l: int| 0 <= l < k ==> (#[trigger] delta[l])@ == model::delta_entry(p, t, b, l),
        decreases columns + 1 - k,
    {
        let mut cost = Rational::from_i64(0);
        let mut r: usize = 0;
        while r < m
            invariant
                r <= m,
                k <= columns,
                p.variables() == n,
                values(objective.coefficients@) == p.objective,
                n == objective.coefficients.len(),
                m == tableau.len(),
                m == basis.len(),
                t == table_values(tableau@),
                b == basis_values(basis@),
                rectangular(tableau@, (columns + 1) as nat),
                cost@ == model::basic_cost(p, t, b, k as int, r as nat),
            decreases m - r,
        {
            let row = &tableau[r];
            assert(t[r as int] == values(row@));
            assert(b[r as int] == basis[r as int]);
            if basis[r] < n {
                assert(p.objective[basis[r as int] as int] == objective.coefficients[basis[r as int] as int]@);
                let term = row[k].mul(&objective.coefficients[basis[r]]);
                cost = cost.add(&term);
            }
            r += 1;
        }
        if k < n {
            assert(p.objective[k as int] == objective.coefficients[k as int]@);
            cost = cost.sub(&objective.coefficients[k]);
        }
        delta.push(cost);
        k += 1;
    }
    assert(values(delta@) =~= model::delta_row(p, t, b));
    delta
}

/// The optimality test on a reduced-cost row: when maximizing, no entry is
/// negative; when minimizing, none is positive.
pub fn is_optimal(direction: Direction, delta: &Vec<Rational>) -> (optimal: bool)
    ensures
        optimal == model::is_optimal(direction, values(delta@)),
{
    let ghost d = values(delta@);
    let mut k: usize = 0;
    while k < delta.len()
        invariant
            k <= delta.len(),
            d == values(delta@),
            match direction {
                Direction::Maximize => forall|l: int| 0 <= l < k ==> d[l] >= 0real,
                Direction::Minimize => forall|l: int| 0 <= l < k ==> d[l] <= 0real,
            },
        decreases delta.len() - k,
    {
        let improving = match direction {
            Direction::Maximize => delta[k].is_negative(),
            Direction::Minimize => delta[k].is_positive(),
        };
        if improving {
            assert(d[k as int] == delta[k as int]@);
            return false;
        }
        k += 1;
    }
    true
}

/// The values of all `width` variables that a tableau and basis stand for:
/// each row gives its right-hand side to its basic variable, and the other
/// variables are zero.
pub fn read_solution(tableau: &Vec<Vec<Rational>>, basis: &Vec<usize>, width: usize) -> (x: Vec<Rational>)
    requires
        tableau.len() == basis.len(),
        forall|r: int| 0 <= r < tableau.len() ==> (#[trigger] tableau[r]).len() >= 1,
        forall|r: int| 0 <= r < basis.len() ==> #[trigger] basis[r] < width,
    ensures
        values(x@) == model::solution(table_values(tableau@), basis_values(basis@), width as nat),
{
    let ghost t = table_values(tableau@);
    let ghost b = basis_values(basis@);
    let mut x: Vec<Rational> = Vec::new();
    let mut k: usize = 0;
    while k < width
        invariant
            k <= width,
            x.len() == k,
            forall|l: int| 0 <= l < k ==> (#[trigger] x[l])@ == 0real,
        decreases width - k,
    {
        x.push(Rational::from_i64(0));
        k += 1;
    }
    assert(values(x@) =~= model::solution_upto(t, b, width as nat, 0));
    let mut r: usize = 0;
    while r < tableau.len()
        invariant
            r <= tableau.len(),
            tableau.len() == basis.len(),
            t == table_values(tableau@),
            b == basis_values(basis@),
            forall|l: int| 0 <= l < tableau.len() ==> (#[trigger] tableau[l]).len() >= 1,
            forall|l: int| 0 <= l < basis.len() ==> #[trigger] basis[l] < width,
            x.len() == width,
            values(x@) == model::solution_upto(t, b, width as nat, r as nat),
        decreases tableau.len() - r,
    {
        let row = &tableau[r];
        let value = row[row.len() - 1].clone();
        let ghost before = values(x@);
        assert(t[r as int] == values(row@));
        assert(b[r as int] == basis[r as int]);
        x[basis[r]] = value;
        assert(values(x@) =~= before.update(basis[r as int] as int, t[r as int].last()));
        r += 1;
    }
    x
}

/// The record of a solve: every tableau and basis from the initial one on,
/// every reduced-cost row of the optimization phase, the solution where the
/// solve found one, and how the solve ended.
pub struct SolveTrace {
    pub tableau_history: Vec<Vec<Vec<Rational>>>,
    pub basis_history: Vec<Vec<usize>>,
    pub delta_history: Vec<Vec<Rational>>,
    pub solution: Option<Vec<Rational>>,
    pub outcome: Outcome,
}

impl View for SolveTrace {
    type V = TraceView;

    open spec fn view(&self) -> TraceView {
        TraceView {
            tableau_history: tableau_histories(self.tableau_history@),
            basis_history: basis_histories(self.basis_history@),
            delta_history: table_values(self.delta_history@),
            solution: solution_values(self.solution),
            outcome: self.outcome,
        }
    }
}

/// The histories hold what the progress has recorded, and the current
/// tableau and basis have the shape of a problem with `rows` constraints and
/// `columns` variables.
pub open spec fn records(
    tableaus: Seq<Vec<Vec<Rational>>>,
    bases: Seq<Vec<usize>>,
    deltas: Seq<Vec<Rational>>,
    s: Progress,
    rows: nat,
    columns: nat,
) -> bool {
    &&& tableaus.len() >= 1
    &&& bases.len() >= 1
    &&& tableau_histories(tableaus) == s.tableaus
    &&& basis_histories(bases) == s.bases
    &&& table_values(deltas) == s.deltas
    &&& model::well_shaped(s.tableau(), s.basis(), rows, columns)
}

/// What the recorded shape says of the current tableau and basis as stored.
proof fn lemma_current_shape(
    tableaus: Seq<Vec<Vec<Rational>>>,
    bases: Seq<Vec<usize>>,
    deltas: Seq<Vec<Rational>>,
    s: Progress,
    rows: nat,
    columns: nat,
)
    requires
        records(tableaus, bases, deltas, s, rows, columns),
    ensures
        s.tableau() == table_values(tableaus.last()@),
        s.basis() == basis_values(bases.last()@),
        tableaus.last().len() == rows,
        bases.last().len() == rows,
        rectangular(tableaus.last()@, columns + 1),
        forall|r: int| 0 <= r < rows ==> #[trigger] bases.last()[r] < columns,
{
    let t = s.tableau();
    let b = s.basis();
    assert(t == tableau_histories(tableaus)[tableaus.len() - 1]);
    assert(b == basis_histories(bases)[bases.len() - 1]);
    assert forall|r: int| 0 <= r < rows implies (#[trigger] tableaus.last()[r]).len() == columns
        + 1 by {
        assert(t[r].len() == columns + 1);
    }
    assert forall|r: int| 0 <= r < rows implies #[trigger] bases.last()[r] < columns by {
        assert(0 <= b[r] < columns);
    }
}

/// The feasibility phase: pivots, each of which is recorded, until no
/// right-hand side is negative, the chosen row offers no negative entry, or
/// `cap` pivots have been made and one more is due.
fn restore_feasibility(
    tableaus: &mut Vec<Vec<Vec<Rational>>>,
    bases: &mut Vec<Vec<usize>>,
    columns: usize,
    cap: usize,
    Ghost(start): Ghost<Progress>,
    Ghost(rows): Ghost<nat>,
) -> (out: (Option<Outcome>, Ghost<Progress>))
    requires
        columns < usize::MAX,
        records(old(tableaus)@, old(bases)@, Seq::empty(), start, rows, columns as nat),
    ensures
        (out.1@, out.0) == model::restore_feasibility(start, columns as nat, cap as nat),
        records(final(tableaus)@, final(bases)@, Seq::empty(), out.1@, rows, columns as nat),
{
    let ghost mut cur = start;
    let mut pivots: usize = 0;
    let mut stopped: Option<Outcome> = None;
    loop
        invariant_except_break
            model::restore_feasibility(start, columns as nat, cap as nat)
                == model::restore_feasibility(cur, columns as nat, (cap - pivots) as nat),
        invariant
            pivots <= cap,
            columns < usize::MAX,
            records(tableaus@, bases@, Seq::empty(), cur, rows, columns as nat),
        ensures
            (cur, stopped) == model::restore_feasibility(start, columns as nat, cap as nat),
        decreases cap - pivots,
    {
        proof {
            lemma_current_shape(tableaus@, bases@, Seq::empty(), cur, rows, columns as nat);
        }
        let last = tableaus.len() - 1;
        let tableau = &tableaus[last];
        let basis = &bases[bases.len() - 1];
        let ghost t = cur.tableau();
        let rhs = rhs_values(tableau);
        assert(values(rhs@).take(rhs.len() as int) =~= model::rhs_column(t));
        match first_most_negative(&rhs, rhs.len()) {
            None => {
                stopped = None;
                break ;
            },
            Some(i) => {
                assert(t[i as int] == values(tableau[i as int]@));
                match first_most_negative(&tableau[i], columns) {
                    None => {
                        stopped = Some(Outcome::Infeasible);
                        break ;
                    },
                    Some(j) => {
                        if pivots == cap {
                            stopped = Some(Outcome::IterationLimit);
                            break ;
                        }
                        let (next_tableau, next_basis) = change_basis(tableau, basis, i, j);
                        proof {
                            model::lemma_pivot_shape(
                                t,
                                cur.basis(),
                                rows,
                                columns as nat,
                                i as int,
                                j as int,
                            );
                        }
                        let ghost before_t = tableaus@;
                        let ghost before_b = bases@;
                        tableaus.push(next_tableau);
                        bases.push(next_basis);
                        proof {
                            let next = cur.after_pivot(i as int, j as int);
                            assert(tableau_histories(tableaus@) =~= next.tableaus);
                            assert(basis_histories(bases@) =~= next.bases);
                            cur = next;
                        }
                        pivots += 1;
                    },
                }
            },
        }
    }
    (stopped, Ghost(cur))
}

/// The optimization phase: iterations, each of which records its
/// reduced-cost row, until the row passes the optimality test or offers no
/// entering column, no row can leave, or `cap` iterations have run.
fn optimize(
    problem: &Problem,
    tableaus: &mut Vec<Vec<Vec<Rational>>>,
    bases: &mut Vec<Vec<usize>>,
    deltas: &mut Vec<Vec<Rational>>,
    cap: usize,
    Ghost(start): Ghost<Progress>,
) -> (out: (Option<Vec<Rational>>, Outcome, Ghost<Progress>))
    requires
        records(
            old(tableaus)@,
            old(bases)@,
            old(deltas)@,
            start,
            problem@.rows(),
            problem@.columns(),
        ),
    ensures
        model::optimize(problem@, start, cap as nat) == out.2@.finish(solution_values(out.0), out.1),
        records(
            final(tableaus)@,
            final(bases)@,
            final(deltas)@,
            out.2@,
            problem@.rows(),
            problem@.columns(),
        ),
{
    proof {
        use_type_invariant(problem);
    }
    let ghost p = problem@;
    let direction = problem.objective().direction;
    let columns: usize = problem.columns();
    let ghost mut cur = start;
    let mut iterations: usize = 0;
    let mut solution: Option<Vec<Rational>> = None;
    let mut outcome: Outcome = Outcome::IterationLimit;
    while iterations < cap
        invariant_except_break
            solution is None,
            outcome == Outcome::IterationLimit,
            model::optimize(p, start, cap as nat) == model::optimize(
                p,
                cur,
                (cap - iterations) as nat,
            ),
        invariant
            iterations <= cap,
            p == problem@,
            direction == p.direction,
            columns == p.columns(),
            columns < usize::MAX,
            records(tableaus@, bases@, deltas@, cur, p.rows(), p.columns()),
        ensures
            model::optimize(p, start, cap as nat) == cur.finish(solution_values(solution), outcome),
            records(tableaus@, bases@, deltas@, cur, p.rows(), p.columns()),
        decreases cap - iterations,
    {
        proof {
            lemma_current_shape(tableaus@, bases@, deltas@, cur, p.rows(), p.columns());
        }
        let tableau = &tableaus[tableaus.len() - 1];
        let basis = &bases[bases.len() - 1];
        let ghost t = cur.tableau();
        let ghost b = cur.basis();
        let delta = delta_row(problem, tableau, basis);
        let optimal = is_optimal(direction, &delta);
        let entering = match direction {
            Direction::Maximize => first_most_negative(&delta, columns),
            Direction::Minimize => first_most_positive(&delta, columns),
        };
        let ghost recorded = cur.after_delta(values(delta@));
        let ghost costs = values(delta@).take(columns as int);
        assert(match entering {
            Some(j) => model::entering_column(direction, costs) == Some(j as int),
            None => model::entering_column(direction, costs) is None,
        });
        if optimal || entering.is_none() {
            let x = read_solution(tableau, basis, columns);
            deltas.push(delta);
            proof {
                assert(table_values(deltas@) =~= recorded.deltas);
                cur = recorded;
            }
            solution = Some(x);
            outcome = Outcome::Optimal;
            break ;
        }
        let j = entering.unwrap();
        match ratio_test(tableau, j) {
            None => {
                deltas.push(delta);
                proof {
                    assert(table_values(deltas@) =~= recorded.deltas);
                    cur = recorded;
                }
                outcome = Outcome::Unbounded;
                break ;
            },
            Some(i) => {
                let (next_tableau, next_basis) = change_basis(tableau, basis, i, j);
                proof {
                    model::lemma_pivot_shape(t, b, p.rows(), p.columns(), i as int, j as int);
                }
                deltas.push(delta);
                tableaus.push(next_tableau);
                bases.push(next_basis);
                proof {
                    let next = recorded.after_pivot(i as int, j as int);
                    assert(table_values(deltas@) =~= next.deltas);
                    assert(tableau_histories(tableaus@) =~= next.tableaus);
                    assert(basis_histories(bases@) =~= next.bases);
                    cur = next;
                }
                iterations += 1;
            },
        }
    }
    (solution, outcome, Ghost(cur))
}

/// Solves the problem with the given caps: at most `feasibility_cap` pivots
/// in the feasibility phase and at most `optimization_cap` iterations in the
/// optimization phase.
pub fn solve_within(problem: &Problem, feasibility_cap: usize, optimization_cap: usize) -> (trace: SolveTrace)
    ensures
        trace@ == model::simulate(
            problem@,
            feasibility_cap as nat,
            optimization_cap as nat,
        ).trace(),
        trace.tableau_history.len() == trace.basis_history.len(),
        trace.tableau_history.len() >= 1,
        trace.delta_history.len() <= optimization_cap,
        trace.solution is Some <==> trace.outcome == Outcome::Optimal,
{
    proof {
        use_type_invariant(problem);
        history_counts_steps(problem@, feasibility_cap as nat, optimization_cap as nat);
        solution_exactly_when_optimal(problem@, feasibility_cap as nat, optimization_cap as nat);
    }
    let ghost p = problem@;
    let columns: usize = problem.columns();
    let (tableau, basis) = build_tableau(problem);
    let mut tableaus: Vec<Vec<Vec<Rational>>> = Vec::new();
    let mut bases: Vec<Vec<usize>> = Vec::new();
    let mut deltas: Vec<Vec<Rational>> = Vec::new();
    tableaus.push(tableau);
    bases.push(basis);
    let ghost start = Progress::start(p);
    proof {
        model::lemma_initial_shape(p);
        assert(tableau_histories(tableaus@) =~= start.tableaus);
        assert(basis_histories(bases@) =~= start.bases);
        assert(table_values(deltas@) =~= start.deltas);
    }
    let (stopped, Ghost(restored)) = restore_feasibility(
        &mut tableaus,
        &mut bases,
        columns,
        feasibility_cap,
        Ghost(start),
        Ghost(p.rows()),
    );
    match stopped {
        Some(outcome) => SolveTrace {
            tableau_history: tableaus,
            basis_history: bases,
            delta_history: deltas,
            solution: None,
            outcome,
        },
        None => {
            let (solution, outcome, Ghost(end)) = optimize(
                problem,
                &mut tableaus,
                &mut bases,
                &mut deltas,
                optimization_cap,
                Ghost(restored),
            );
            SolveTrace {
                tableau_history: tableaus,
                basis_history: bases,
                delta_history: deltas,
                solution,
                outcome,
            }
        },
    }
}

/// Solves the problem: the feasibility phase, then the optimization phase,
/// each under its cap. The trace is the one that the model defines, so what
/// is proved of the model holds of it.
pub fn solve(problem: &Problem) -> (trace: SolveTrace)
    ensures
        trace@ == model::simulate(
            problem@,
            model::FEASIBILITY_PIVOT_CAP as nat,
            model::OPTIMIZATION_ITERATION_CAP as nat,
        ).trace(),
        trace.tableau_history.len() == trace.basis_history.len(),
        trace.tableau_history.len() >= 1,
        trace.delta_history.len() <= model::OPTIMIZATION_ITERATION_CAP,
        trace.solution is Some <==> trace.outcome == Outcome::Optimal,
{
    solve_within(problem, model::FEASIBILITY_PIVOT_CAP, model::OPTIMIZATION_ITERATION_CAP)
}

} // verus!
