use vstd::prelude::*;

verus! {

/// Error returned when a cancelled token is checked synchronously.
#[derive(Debug, Copy, Clone, Default, Eq, Ord, PartialEq, PartialOrd, Hash, Structural)]
pub struct Cancelled;

impl Cancelled {
    /// What the error says.
    pub fn message(&self) -> (text: String)
        ensures
            text@ == "cancelled by CancellationTokenSource"@,
    {
        "cancelled by CancellationTokenSource".to_string()
    }
}

} // verus!
