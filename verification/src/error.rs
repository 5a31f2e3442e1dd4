//! The fatal failures a document parse can end in.

use vstd::prelude::*;

verus! {

/// A fatal parse failure. Recoverable conditions (an unparsable event, an
/// unexpected node) never surface here: they are resolved where they occur.
#[derive(Debug, Clone, PartialEq, Eq)]
pub enum PlanError {
    /// No level-1 heading was found, or its text is not a calendar date.
    DateMissingOrMalformed,
    /// A schedule sub-list's label is neither "Planned" nor "Actual"; carries
    /// the offending text.
    ScheduleLabelMismatch { text: String },
}

/// The mathematical shape of a `PlanError`.
pub enum PlanErrorV {
    DateMissingOrMalformed,
    ScheduleLabelMismatch { text: Seq<char> },
}

impl View for PlanError {
    type V = PlanErrorV;

    open spec fn view(&self) -> PlanErrorV {
        match self {
            PlanError::DateMissingOrMalformed => PlanErrorV::DateMissingOrMalformed,
            PlanError::ScheduleLabelMismatch { text } => PlanErrorV::ScheduleLabelMismatch {
                text: text@,
            },
        }
    }
}

} // verus!
