//! The ways a solve can fail.

use vstd::prelude::*;
use vstd::string::StringExecFns;

verus! {

/// Why no schedule is returned.
#[derive(Debug, Clone)]
pub enum SolveError {
    /// No placement at all passed the static admissibility rule.
    EmptyCandidateSet,
    /// The optimizer produced no usable valuation; the text says why.
    SolverFailure(String),
}

/// The text reported for an empty candidate set.
pub open spec fn empty_candidate_set_text() -> Seq<char> {
    "No possible assignments found after pre-filtering. The problem might be too constrained."@
}

/// The text that precedes the optimizer's own words.
pub open spec fn solver_failure_prefix() -> Seq<char> {
    "No solution found. The problem might be too constrained. Solver error: "@
}

impl SolveError {
    /// The failure as reported to a caller.
    pub open spec fn message_text(&self) -> Seq<char> {
        match self {
            SolveError::EmptyCandidateSet => empty_candidate_set_text(),
            SolveError::SolverFailure(detail) => solver_failure_prefix() + detail@,
        }
    }

    /// Renders the failure as reported to a caller.
    pub fn message(&self) -> (text: String)
        ensures
            text@ == self.message_text(),
    {
        match self {
            SolveError::EmptyCandidateSet => String::from_str(
                "No possible assignments found after pre-filtering. The problem might be too constrained.",
            ),
            SolveError::SolverFailure(detail) => {
                let mut text = String::from_str(
                    "No solution found. The problem might be too constrained. Solver error: ",
                );
                text.append(detail.as_str());
                text
            },
        }
    }
}

} // verus!
