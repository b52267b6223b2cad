//! The linear program that the engine solves: an objective and a list of
//! inequality constraints over the same decision variables.

use crate::rational::{values, Rational};
use vstd::prelude::*;

verus! {

/// The comparison of a constraint: its left side is at least, or at most,
/// its right side.
#[derive(Clone, Copy, Debug, PartialEq, Eq, Structural)]
pub enum Relation {
    AtLeast,
    AtMost,
}

/// Whether the objective is to be made as large or as small as possible.
#[derive(Clone, Copy, Debug, PartialEq, Eq, Structural)]
pub enum Direction {
    Maximize,
    Minimize,
}

impl Relation {
    /// The comparison as it is written in a constraint.
    pub fn symbol(&self) -> (s: &'static str)
        ensures
            s@ == (match *self {
                Relation::AtLeast => ">="@,
                Relation::AtMost => "<="@,
            }),
    {
        match self {
            Relation::AtLeast => ">=",
            Relation::AtMost => "<=",
        }
    }
}

impl Direction {
    /// The direction as it is written beside an objective.
    pub fn label(&self) -> (s: &'static str)
        ensures
            s@ == (match *self {
                Direction::Maximize => "Max"@,
                Direction::Minimize => "Min"@,
            }),
    {
        match self {
            Direction::Maximize => "Max",
            Direction::Minimize => "Min",
        }
    }
}

/// One linear inequality: `coefficients . x  relation  rhs`.
pub struct Constraint {
    pub coefficients: Vec<Rational>,
    pub rhs: Rational,
    pub relation: Relation,
}

/// The linear function to optimize, and the direction.
pub struct Objective {
    pub coefficients: Vec<Rational>,
    pub direction: Direction,
}

/// The mathematical content of a constraint.
pub struct ConstraintView {
    pub coefficients: Seq<real>,
    pub rhs: real,
    pub relation: Relation,
}

/// The mathematical content of a problem.
pub struct ProblemView {
    pub objective: Seq<real>,
    pub direction: Direction,
    pub constraints: Seq<ConstraintView>,
}

impl ProblemView {
    /// The number of decision variables.
    pub open spec fn variables(self) -> nat {
        self.objective.len()
    }

    /// The number of constraints, which is the number of tableau rows.
    pub open spec fn rows(self) -> nat {
        self.constraints.len()
    }

    /// The number of tableau columns that stand for a variable: one for each
    /// decision variable, then one slack variable for each constraint.
    pub open spec fn columns(self) -> nat {
        self.objective.len() + self.constraints.len()
    }

    /// There is at least one constraint, and every constraint has one
    /// coefficient for each decision variable.
    pub open spec fn well_formed(self) -> bool {
        &&& self.constraints.len() >= 1
        &&& forall|i: int|
            0 <= i < self.constraints.len() ==> (#[trigger] self.constraints[i]).coefficients.len()
                == self.objective.len()
    }
}

impl View for Constraint {
    type V = ConstraintView;

    open spec fn view(&self) -> ConstraintView {
        ConstraintView {
            coefficients: values(self.coefficients@),
            rhs: self.rhs@,
            relation: self.relation,
        }
    }
}

/// The problem that an objective and a list of constraints make up.
pub open spec fn problem_view(objective: Objective, constraints: Seq<Constraint>) -> ProblemView {
    ProblemView {
        objective: values(objective.coefficients@),
        direction: objective.direction,
        constraints: Seq::new(constraints.len(), |i: int| constraints[i]@),
    }
}

/// A well-formed linear program whose tableau can be indexed.
pub struct Problem {
    objective: Objective,
    constraints: Vec<Constraint>,
}

impl View for Problem {
    type V = ProblemView;

    closed spec fn view(&self) -> ProblemView {
        problem_view(self.objective, self.constraints@)
    }
}

impl Problem {
    /// What holds of every problem: it is well-formed, and the width of its
    /// tableau is a machine index.
    #[verifier::type_invariant]
    pub open spec fn valid(self) -> bool {
        &&& self@.well_formed()
        &&& self@.columns() < usize::MAX
    }

    /// The problem with the given objective and constraints; none where
    /// there is no constraint, where a constraint does not have one
    /// coefficient for each decision variable, or where the tableau would be
    /// wider than a machine index.
    pub fn new(objective: Objective, constraints: Vec<Constraint>) -> (p: Option<Problem>)
        ensures
            p is Some <==> problem_view(objective, constraints@).well_formed() && problem_view(
                objective,
                constraints@,
            ).columns() < usize::MAX,
            p matches Some(q) ==> q@ == problem_view(objective, constraints@),
    {
        let ghost view = problem_view(objective, constraints@);
        let n = objective.coefficients.len();
        let m = constraints.len();
        if m == 0 {
            return None;
        }
        if n >= usize::MAX - m {
            return None;
        }
        let mut i: usize = 0;
        while i < m
            invariant
                i <= m,
                m == constraints.len(),
                n == objective.coefficients.len(),
                view == problem_view(objective, constraints@),
                forall|k: int| 0 <= k < i
                    ==> (#[trigger] view.constraints[k]).coefficients.len() == n,
            decreases m - i,
        {
            if constraints[i].coefficients.len() != n {
                assert(view.constraints[i as int].coefficients.len() != n);
                return None;
            }
            i += 1;
        }
        Some(Problem { objective, constraints })
    }

    /// The number of decision variables.
    pub fn variables(&self) -> (n: usize)
        ensures
            n == self@.variables(),
    {
        self.objective.coefficients.len()
    }

    /// The number of constraints.
    pub fn rows(&self) -> (m: usize)
        ensures
            m == self@.rows(),
    {
        self.constraints.len()
    }

    /// The number of variable columns of the tableau.
    pub fn columns(&self) -> (width: usize)
        ensures
            width == self@.columns(),
            width < usize::MAX,
    {
        proof {
            use_type_invariant(self);
        }
        self.objective.coefficients.len() + self.constraints.len()
    }

    /// The objective of the problem.
    pub fn objective(&self) -> (objective: &Objective)
        ensures
            values(objective.coefficients@) == self@.objective,
            objective.direction == self@.direction,
    {
        &self.objective
    }

    /// The constraints of the problem.
    pub fn constraints(&self) -> (constraints: &Vec<Constraint>)
        ensures
            constraints@.len() == self@.constraints.len(),
            forall|i: int| 0 <= i < constraints@.len()
                ==> (#[trigger] constraints@[i])@ == self@.constraints[i],
    {
        &self.constraints
    }
}

} // verus!
