use vstd::prelude::*;

verus! {

/// A configuration that the engine cannot be built with.
#[derive(Debug, Clone, Copy, PartialEq, Eq, Structural)]
pub enum ConfigError {
    /// A delay line was asked for a buffer of zero samples.
    ZeroCapacity,
    /// A channel junction with no physical channels or no lines.
    NoChannels,
    /// A channel junction whose line count is not a multiple of its channel count.
    UnevenChannels,
    /// A network of delay lines with no lines at all.
    NoLines,
    /// A list of per-line values whose length differs from the number of lines.
    LineCountMismatch,
    /// A buffer size that some line's current delay or cursor does not fit in.
    CapacityTooSmall,
    /// A Hadamard mix over a line count that is not a power of two.
    NotPowerOfTwo,
}

} // verus!
