//! The failures a parse or a solve can report.

use vstd::prelude::*;

verus! {

/// Every way a parse or a solve attempt can fail.
///
/// The two `Unsatisfiable*` kinds are local to one search branch and trigger
/// backtracking inside the solver; the budget kinds and `Exhausted` end a
/// solve attempt.
#[derive(Debug, Copy, Clone, PartialEq, Eq, Structural)]
pub enum SolveError {
    /// A character that is neither a digit, a blank nor a line break.
    InvalidCharacter(char),
    /// An island with unmet demand has no legal edge left.
    NodeCannotBeCompleted,
    /// A saturated connected component excludes islands that still need
    /// bridges.
    IsolatedComponent,
    /// Speculative recursion went past the caller's depth budget.
    DepthExceeded,
    /// The transposition table grew past the caller's state-count budget.
    SearchBudgetExceeded,
    /// Every branch at the root was tried and failed.
    Exhausted,
}

impl SolveError {
    /// A short description of the failure.
    pub fn describe(self) -> (r: &'static str)
        ensures
            self is InvalidCharacter ==> r@ == "unexpected character (only expected 1-8)"@,
            self is NodeCannotBeCompleted ==> r@ == "node cannot be completed"@,
            self is IsolatedComponent ==> r@ == "isolated connected component exists"@,
            self is DepthExceeded ==> r@ == "max depth exceeded"@,
            self is SearchBudgetExceeded ==> r@ == "max visited state count exceeded"@,
            self is Exhausted ==> r@ == "searched all options"@,
    {
        match self {
            SolveError::InvalidCharacter(_) => "unexpected character (only expected 1-8)",
            SolveError::NodeCannotBeCompleted => "node cannot be completed",
            SolveError::IsolatedComponent => "isolated connected component exists",
            SolveError::DepthExceeded => "max depth exceeded",
            SolveError::SearchBudgetExceeded => "max visited state count exceeded",
            SolveError::Exhausted => "searched all options",
        }
    }
}

} // verus!
