use vstd::prelude::*;

verus! {

/// The error kinds the engine reports. `InvalidConfiguration` is a
/// construction-time failure (no axes, a zero axis size, or too many mines);
/// `OutOfRange` and `DimensionMismatch` are access-time failures on a
/// malformed coordinate.
#[derive(Clone, Copy, Debug, PartialEq, Eq, Structural)]
pub enum GameError {
    InvalidConfiguration,
    OutOfRange,
    DimensionMismatch,
}

} // verus!
