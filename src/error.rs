use vstd::prelude::*;

verus! {

/// Why parsing or running a program stopped.
#[derive(Clone, Copy, Debug, PartialEq, Eq, Structural)]
pub enum InterpError {
    /// The loop brackets of the source do not nest and balance.
    MalformedProgram,
    /// A read instruction ran with no input byte left.
    InputExhausted,
    /// A loop repeated more often than the step budget allows.
    StepLimitReached,
}

} // verus!
