//! Three-valued answers: yes, no, or too close to call at the current fidelity.

use vstd::prelude::*;

verus! {

/// An answer that may be undecided at the current fidelity.
#[derive(Clone, Copy, Debug, PartialEq, Eq, Hash, Structural)]
pub enum Trivalent {
    /// Definitely yes.
    Yes,
    /// Definitely no.
    No,
    /// Inside the tolerance band; a finer rung decides.
    Ambiguous,
}

} // verus!
