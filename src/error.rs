use vstd::prelude::*;

verus! {

/// Why a simulation run stopped before its last step.
#[derive(Clone, Copy, Debug, PartialEq, Eq, Structural)]
pub enum RunError {
    /// A firing, an effect or an event refers to this position, which lies
    /// outside the transition sequence.
    Index(usize),
    /// A marking, a due cycle or the applied-event counter left the range of
    /// its machine integer.
    Overflow,
}

} // verus!
