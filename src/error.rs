use vstd::prelude::*;

verus! {

/// The ways a sort run can fail.
#[derive(Clone, Copy, Debug, PartialEq, Eq, Structural)]
pub enum SortError {
    /// The partition parameters are unusable: no workers, or more workers
    /// than elements.
    InvalidConfiguration,
    /// A worker could not be started; the run produces no result.
    ThreadCreationFailed,
    /// The barrier's synchronisation object could not be allocated.
    ResourceExhausted,
}

} // verus!
