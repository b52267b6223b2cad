//! The corner candidates of the feasible region of a problem with two
//! decision variables: the crossings of its constraint lines with each other
//! and with the edges of a bounding square, and the corners of the square,
//! as far as they lie in the square and meet every constraint.

use crate::problem::{Constraint, ConstraintView, Problem, ProblemView, Relation};
use crate::rational::Rational;
use vstd::prelude::*;

verus! {

/// How far outside the bounding square a point may lie.
pub open spec fn tolerance() -> real {
    1real / 100000real
}

/// The side of the bounding square.
pub open spec fn limit() -> real {
    10000real
}

/// The point lies in the bounding square, up to the tolerance.
pub open spec fn inside_square(x: real, y: real) -> bool {
    &&& x >= -tolerance()
    &&& y >= -tolerance()
    &&& x <= limit() + tolerance()
    &&& y <= limit() + tolerance()
}

/// The point meets the constraint, which is over two variables.
pub open spec fn meets(c: ConstraintView, x: real, y: real) -> bool {
    match c.relation {
        Relation::AtLeast => x * c.coefficients[0] + y * c.coefficients[1] >= c.rhs,
        Relation::AtMost => x * c.coefficients[0] + y * c.coefficients[1] <= c.rhs,
    }
}

/// The point lies in the bounding square and meets every constraint.
pub open spec fn is_valid(cs: Seq<ConstraintView>, x: real, y: real) -> bool {
    &&& inside_square(x, y)
    &&& forall|i: int| 0 <= i < cs.len() ==> meets(#[trigger] cs[i], x, y)
}

/// The line `a x + b y = c`.
pub struct LineView {
    pub a: real,
    pub b: real,
    pub c: real,
}

/// The point where two lines cross, if they cross in one point and that
/// point is valid.
pub open spec fn crossing(cs: Seq<ConstraintView>, first: LineView, second: LineView) -> Option<
    (real, real),
> {
    let determinant = first.a * second.b - second.a * first.b;
    let x = (second.b * first.c - first.b * second.c) / determinant;
    let y = (first.a * second.c - second.a * first.c) / determinant;
    if determinant != 0real && is_valid(cs, x, y) {
        Some((x, y))
    } else {
        None
    }
}

/// The four edges of the bounding square.
pub open spec fn edges() -> Seq<LineView> {
    seq![
        LineView { a: 0real, b: 1real, c: 0real },
        LineView { a: 1real, b: 0real, c: 0real },
        LineView { a: 0real, b: 1real, c: limit() },
        LineView { a: 1real, b: 0real, c: limit() },
    ]
}

/// The four corners of the bounding square.
pub open spec fn corners() -> Seq<(real, real)> {
    seq![(0real, 0real), (limit(), 0real), (limit(), limit()), (0real, limit())]
}

/// The boundary line of a constraint over two variables.
pub open spec fn boundary(c: ConstraintView) -> LineView {
    LineView { a: c.coefficients[0], b: c.coefficients[1], c: c.rhs }
}

/// The lines that each constraint line is crossed with: the constraint
/// lines in their order, then the edges of the square.
pub open spec fn lines(cs: Seq<ConstraintView>) -> Seq<LineView> {
    Seq::new(cs.len(), |i: int| boundary(cs[i])) + edges()
}

/// The valid crossings of a line with the first `upto` of the given lines.
pub open spec fn crossings(cs: Seq<ConstraintView>, first: LineView, others: Seq<LineView>, upto: nat) -> Seq<
    (real, real),
>
    decreases upto,
{
    if upto == 0 {
        Seq::empty()
    } else {
        let before = crossings(cs, first, others, (upto - 1) as nat);
        match crossing(cs, first, others[upto - 1]) {
            Some(point) => before.push(point),
            None => before,
        }
    }
}

/// The valid crossings of the first `rows` constraint lines with all lines.
pub open spec fn all_crossings(cs: Seq<ConstraintView>, rows: nat) -> Seq<(real, real)>
    decreases rows,
{
    if rows == 0 {
        Seq::empty()
    } else {
        all_crossings(cs, (rows - 1) as nat) + crossings(
            cs,
            boundary(cs[rows - 1]),
            lines(cs),
            lines(cs).len(),
        )
    }
}

/// The valid ones among the first `upto` corners of the square.
pub open spec fn valid_corners(cs: Seq<ConstraintView>, upto: nat) -> Seq<(real, real)>
    decreases upto,
{
    if upto == 0 {
        Seq::empty()
    } else {
        let before = valid_corners(cs, (upto - 1) as nat);
        let corner = corners()[upto - 1];
        if is_valid(cs, corner.0, corner.1) {
            before.push(corner)
        } else {
            before
        }
    }
}

/// The corner candidates of the feasible region: for a problem with two
/// decision variables, the valid crossings of every constraint line, then
/// the valid corners of the square; for any other problem, none.
pub open spec fn region_points(p: ProblemView) -> Seq<(real, real)> {
    if p.variables() == 2 {
        all_crossings(p.constraints, p.rows()) + valid_corners(p.constraints, 4)
    } else {
        Seq::empty()
    }
}

/// A point of the plane.
pub struct Point {
    pub x: Rational,
    pub y: Rational,
}

impl View for Point {
    type V = (real, real);

    open spec fn view(&self) -> (real, real) {
        (self.x@, self.y@)
    }
}

/// A line `a x + b y = c`.
pub struct Line {
    pub a: Rational,
    pub b: Rational,
    pub c: Rational,
}

impl View for Line {
    type V = LineView;

    open spec fn view(&self) -> LineView {
        LineView { a: self.a@, b: self.b@, c: self.c@ }
    }
}

/// The points of a list as pairs of reals.
pub open spec fn point_values(points: Seq<Point>) -> Seq<(real, real)> {
    Seq::new(points.len(), |i: int| points[i]@)
}

/// The lines of a list as triples of reals.
pub open spec fn line_values(lines: Seq<Line>) -> Seq<LineView> {
    Seq::new(lines.len(), |i: int| lines[i]@)
}

/// The constraints of a list as their mathematical content.
pub open spec fn constraint_values(constraints: Seq<Constraint>) -> Seq<ConstraintView> {
    Seq::new(constraints.len(), |i: int| constraints[i]@)
}

/// Whether a point lies in the bounding square, up to the tolerance, and
/// meets every one of the constraints, each of which is over two variables.
pub fn if_valid(constraints: &Vec<Constraint>, x: &Rational, y: &Rational) -> (valid: bool)
    requires
        forall|i: int| 0 <= i < constraints.len()
            ==> (#[trigger] constraints[i]).coefficients.len() == 2,
    ensures
        valid == is_valid(constraint_values(constraints@), x@, y@),
{
    let ghost cs = constraint_values(constraints@);
    let slack = Rational::from_ratio(1, 100000).unwrap();
    let low = slack.neg();
    let high = Rational::from_i64(10000).add(&slack);
    assert(low@ == -tolerance() && high@ == limit() + tolerance());
    if x.lt(&low) || y.lt(&low) || high.lt(x) || high.lt(y) {
        return false;
    }
    let mut i: usize = 0;
    while i < constraints.len()
        invariant
            i <= constraints.len(),
            cs == constraint_values(constraints@),
            forall|k: int| 0 <= k < constraints.len()
                ==> (#[trigger] constraints[k]).coefficients.len() == 2,
            forall|k: int| 0 <= k < i ==> meets(#[trigger] cs[k], x@, y@),
        decreases constraints.len() - i,
    {
        let constraint = &constraints[i];
        assert(cs[i as int] == constraint@);
        assert(constraint@.coefficients[0] == constraint.coefficients[0]@);
        assert(constraint@.coefficients[1] == constraint.coefficients[1]@);
        let value = x.mul(&constraint.coefficients[0]).add(&y.mul(&constraint.coefficients[1]));
        let met = match constraint.relation {
            Relation::AtLeast => !value.lt(&constraint.rhs),
            Relation::AtMost => !constraint.rhs.lt(&value),
        };
        if !met {
            assert(!meets(cs[i as int], x@, y@));
            return false;
        }
        i += 1;
    }
    true
}

/// The point where two lines cross: none where they are parallel or where
/// the point is not valid for the constraints.
pub fn find_intersection(constraints: &Vec<Constraint>, first: &Line, second: &Line) -> (point: Option<Point>)
    requires
        forall|i: int| 0 <= i < constraints.len()
            ==> (#[trigger] constraints[i]).coefficients.len() == 2,
    ensures
        point is Some <==> crossing(constraint_values(constraints@), first@, second@) is Some,
        point matches Some(q) ==> Some(q@) == crossing(
            constraint_values(constraints@),
            first@,
            second@,
        ),
{
    let determinant = first.a.mul(&second.b).sub(&second.a.mul(&first.b));
    if determinant.is_zero() {
        return None;
    }
    let x = second.b.mul(&first.c).sub(&first.b.mul(&second.c)).div(&determinant);
    let y = first.a.mul(&second.c).sub(&second.a.mul(&first.c)).div(&determinant);
    if !if_valid(constraints, &x, &y) {
        return None;
    }
    Some(Point { x, y })
}

/// The corner candidates of the feasible region of the problem, in the
/// order in which they are found.
pub fn feasible_region_points(problem: &Problem) -> (points: Vec<Point>)
    ensures
        point_values(points@) == region_points(problem@),
{
    let mut points: Vec<Point> = Vec::new();
    if problem.variables() != 2 {
        assert(point_values(points@) =~= region_points(problem@));
        return points;
    }
    proof {
        use_type_invariant(problem);
    }
    let constraints = problem.constraints();
    let ghost cs = problem@.constraints;
    assert(constraint_values(constraints@) =~= cs);
    assert forall|i: int| 0 <= i < constraints.len() implies (#[trigger] constraints[i]).coefficients.len()
        == 2 by {
        assert(constraints[i]@ == cs[i]);
    }
    let m = constraints.len();
    let mut others: Vec<Line> = Vec::new();
    let mut i: usize = 0;
    while i < m
        invariant
            i <= m,
            m == constraints.len(),
            cs == constraint_values(constraints@),
            forall|k: int| 0 <= k < m ==> (#[trigger] constraints[k]).coefficients.len() == 2,
            others.len() == i,
            forall|k: int| 0 <= k < i ==> (#[trigger] others[k])@ == boundary(cs[k]),
        decreases m - i,
    {
        let constraint = &constraints[i];
        assert(cs[i as int] == constraint@);
        others.push(
            Line {
                a: constraint.coefficients[0].clone(),
                b: constraint.coefficients[1].clone(),
                c: constraint.rhs.clone(),
            },
        );
        i += 1;
    }
    others.push(Line { a: Rational::from_i64(0), b: Rational::from_i64(1), c: Rational::from_i64(0) });
    others.push(Line { a: Rational::from_i64(1), b: Rational::from_i64(0), c: Rational::from_i64(0) });
    others.push(
        Line { a: Rational::from_i64(0), b: Rational::from_i64(1), c: Rational::from_i64(10000) },
    );
    others.push(
        Line { a: Rational::from_i64(1), b: Rational::from_i64(0), c: Rational::from_i64(10000) },
    );
    let ghost all = lines(cs);
    assert(line_values(others@) =~= all);
    let mut i: usize = 0;
    while i < m
        invariant
            i <= m,
            m == constraints.len(),
            cs == constraint_values(constraints@),
            forall|k: int| 0 <= k < m ==> (#[trigger] constraints[k]).coefficients.len() == 2,
            all == lines(cs),
            line_values(others@) == all,
            others.len() == m + 4,
            point_values(points@) == all_crossings(cs, i as nat),
        decreases m - i,
    {
        let ghost done = all_crossings(cs, i as nat);
        let ghost first = boundary(cs[i as int]);
        assert(others[i as int]@ == all[i as int]);
        let mut j: usize = 0;
        while j < others.len()
            invariant
                j <= others.len(),
                i < m,
                m == constraints.len(),
                cs == constraint_values(constraints@),
                forall|k: int| 0 <= k < m ==> (#[trigger] constraints[k]).coefficients.len() == 2,
                line_values(others@) == all,
                others.len() == m + 4,
                others[i as int]@ == first,
                point_values(points@) == done + crossings(cs, first, all, j as nat),
            decreases others.len() - j,
        {
            assert(others[j as int]@ == all[j as int]);
            let ghost before = point_values(points@);
            match find_intersection(constraints, &others[i], &others[j]) {
                Some(point) => {
                    points.push(point);
                    assert(point_values(points@) =~= before.push(point@));
                },
                None => {},
            }
            assert(point_values(points@) =~= done + crossings(cs, first, all, (j + 1) as nat));
            j += 1;
        }
        i += 1;
    }
    let ghost crossed = all_crossings(cs, m as nat);
    let mut k: usize = 0;
    while k < 4
        invariant
            k <= 4,
            cs == constraint_values(constraints@),
            forall|l: int| 0 <= l < constraints.len()
                ==> (#[trigger] constraints[l]).coefficients.len() == 2,
            point_values(points@) == crossed + valid_corners(cs, k as nat),
        decreases 4 - k,
    {
        let x = Rational::from_i64(if k == 1 || k == 2 { 10000 } else { 0 });
        let y = Rational::from_i64(if k == 2 || k == 3 { 10000 } else { 0 });
        assert((x@, y@) == corners()[k as int]);
        let ghost before = point_values(points@);
        if if_valid(constraints, &x, &y) {
            points.push(Point { x, y });
            assert(point_values(points@) =~= before.push(corners()[k as int]));
        }
        assert(point_values(points@) =~= crossed + valid_corners(cs, (k + 1) as nat));
        k += 1;
    }
    points
}

} // verus!
