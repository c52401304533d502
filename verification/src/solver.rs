//! What the interior-point iteration reports and takes from outside: the
//! status of a solve, the guess of a warm start, and new problem vectors.

use vstd::prelude::*;

verus! {

/// How a solve ended.
#[derive(Clone, Copy, Debug, PartialEq, Eq, Structural)]
pub enum SolverStatus {
    /// No solve has run yet.
    Unsolved,
    /// A solution was found to full accuracy.
    Solved,
    /// A certificate of primal infeasibility was found.
    PrimalInfeasible,
    /// A certificate of dual infeasibility was found.
    DualInfeasible,
    /// A solution was found to reduced accuracy.
    AlmostSolved,
    /// A certificate of primal infeasibility was found to reduced accuracy.
    AlmostPrimalInfeasible,
    /// A certificate of dual infeasibility was found to reduced accuracy.
    AlmostDualInfeasible,
    /// The iteration limit was reached.
    MaxIterations,
    /// The time limit was reached.
    MaxTime,
    /// The scaling of a cone could not be updated.
    ScalingError,
    /// The linear solver broke down.
    NumericalError,
    /// The step length fell below its lower bound.
    InsufficientProgress,
}

impl SolverStatus {
    /// The number of the status: its place in the order of declaration.
    pub open spec fn number(self) -> int {
        match self {
            SolverStatus::Unsolved => 0,
            SolverStatus::Solved => 1,
            SolverStatus::PrimalInfeasible => 2,
            SolverStatus::DualInfeasible => 3,
            SolverStatus::AlmostSolved => 4,
            SolverStatus::AlmostPrimalInfeasible => 5,
            SolverStatus::AlmostDualInfeasible => 6,
            SolverStatus::MaxIterations => 7,
            SolverStatus::MaxTime => 8,
            SolverStatus::ScalingError => 9,
            SolverStatus::NumericalError => 10,
            SolverStatus::InsufficientProgress => 11,
        }
    }

    /// The name of the status.
    pub open spec fn label(self) -> Seq<char> {
        match self {
            SolverStatus::Unsolved => "Unsolved"@,
            SolverStatus::Solved => "Solved"@,
            SolverStatus::PrimalInfeasible => "PrimalInfeasible"@,
            SolverStatus::DualInfeasible => "DualInfeasible"@,
            SolverStatus::AlmostSolved => "AlmostSolved"@,
            SolverStatus::AlmostPrimalInfeasible => "AlmostPrimalInfeasible"@,
            SolverStatus::AlmostDualInfeasible => "AlmostDualInfeasible"@,
            SolverStatus::MaxIterations => "MaxIterations"@,
            SolverStatus::MaxTime => "MaxTime"@,
            SolverStatus::ScalingError => "ScalingError"@,
            SolverStatus::NumericalError => "NumericalError"@,
            SolverStatus::InsufficientProgress => "InsufficientProgress"@,
        }
    }

    /// The status carries a certificate of infeasibility, to full or to
    /// reduced accuracy, and no objective value.
    pub open spec fn infeasible(self) -> bool {
        self == SolverStatus::PrimalInfeasible || self == SolverStatus::DualInfeasible || self
            == SolverStatus::AlmostPrimalInfeasible || self == SolverStatus::AlmostDualInfeasible
    }

    /// Whether the status carries a certificate of infeasibility.
    pub fn is_infeasible(&self) -> (b: bool)
        ensures
            b == self.infeasible(),
    {
        match self {
            SolverStatus::PrimalInfeasible => true,
            SolverStatus::DualInfeasible => true,
            SolverStatus::AlmostPrimalInfeasible => true,
            SolverStatus::AlmostDualInfeasible => true,
            _ => false,
        }
    }

    /// The number of the status, as a key for tables.
    pub fn code(&self) -> (c: u32)
        ensures
            c == self.number(),
    {
        match self {
            SolverStatus::Unsolved => 0,
            SolverStatus::Solved => 1,
            SolverStatus::PrimalInfeasible => 2,
            SolverStatus::DualInfeasible => 3,
            SolverStatus::AlmostSolved => 4,
            SolverStatus::AlmostPrimalInfeasible => 5,
            SolverStatus::AlmostDualInfeasible => 6,
            SolverStatus::MaxIterations => 7,
            SolverStatus::MaxTime => 8,
            SolverStatus::ScalingError => 9,
            SolverStatus::NumericalError => 10,
            SolverStatus::InsufficientProgress => 11,
        }
    }

    /// The name of the status.
    pub fn name(&self) -> (s: &'static str)
        ensures
            s@ == self.label(),
    {
        match self {
            SolverStatus::Unsolved => "Unsolved",
            SolverStatus::Solved => "Solved",
            SolverStatus::PrimalInfeasible => "PrimalInfeasible",
            SolverStatus::DualInfeasible => "DualInfeasible",
            SolverStatus::AlmostSolved => "AlmostSolved",
            SolverStatus::AlmostPrimalInfeasible => "AlmostPrimalInfeasible",
            SolverStatus::AlmostDualInfeasible => "AlmostDualInfeasible",
            SolverStatus::MaxIterations => "MaxIterations",
            SolverStatus::MaxTime => "MaxTime",
            SolverStatus::ScalingError => "ScalingError",
            SolverStatus::NumericalError => "NumericalError",
            SolverStatus::InsufficientProgress => "InsufficientProgress",
        }
    }
}

impl Default for SolverStatus {
    fn default() -> (s: Self)
        ensures
            s == SolverStatus::Unsolved,
    {
        SolverStatus::Unsolved
    }
}

/// The guess of a warm start: there is one where all three of `x`, `s` and
/// `z` are given, and where one is missing the solve starts cold.
pub fn warm_start_guess<T>(x: Option<Vec<T>>, s: Option<Vec<T>>, z: Option<Vec<T>>) -> (guess: Option<
    (Vec<T>, Vec<T>, Vec<T>),
>)
    ensures
        guess.is_some() <==> x.is_some() && s.is_some() && z.is_some(),
        guess matches Some(g) ==> x == Some(g.0) && s == Some(g.1) && z == Some(g.2),
{
    match (x, s, z) {
        (Some(gx), Some(gs), Some(gz)) => Some((gx, gs, gz)),
        _ => None,
    }
}

/// Replaces a vector of the problem data by a new one of the same length.
/// Fails, and changes nothing, where the lengths differ.
pub fn update_vector<T: Copy>(target: &mut Vec<T>, values: &[T]) -> (ok: bool)
    ensures
        ok == (old(target)@.len() == values@.len()),
        ok ==> final(target)@ == values@,
        !ok ==> final(target)@ == old(target)@,
{
    if target.len() != values.len() {
        return false;
    }
    let mut k: usize = 0;
    while k < values.len()
        invariant
            k <= values@.len(),
            target@.len() == values@.len(),
            forall|j: int| 0 <= j < k ==> target@[j] == values@[j],
        decreases values@.len() - k,
    {
        target[k] = values[k];
        k += 1;
    }
    assert(target@ =~= values@);
    true
}

} // verus!
