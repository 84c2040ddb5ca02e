use vstd::prelude::*;

verus! {

/// Number of raw units in one whole unit: six decimal places.
pub const SCALE: i64 = 1_000_000;

/// Largest magnitude of a raw value that the numeric helpers accept (one
/// trillion whole units).
pub const RAW_LIMIT: i64 = 1_000_000_000_000_000_000;

/// A fixed-point decimal number: `raw / SCALE`.
#[derive(Debug, Clone, Copy, PartialEq, Eq, Structural)]
pub struct Fixed {
    pub raw: i64,
}

impl Fixed {
    /// Whether the magnitude is within `RAW_LIMIT`.
    pub open spec fn in_range(self) -> bool {
        -RAW_LIMIT <= self.raw <= RAW_LIMIT
    }

    /// The fixed-point number with the given raw value.
    pub fn from_raw(raw: i64) -> (r: Fixed)
        ensures
            r.raw == raw,
    {
        Fixed { raw }
    }

    /// The whole number `n`.
    pub fn from_int(n: i32) -> (r: Fixed)
        ensures
            r.raw == n * SCALE,
    {
        Fixed { raw: n as i64 * SCALE }
    }

    /// Zero.
    pub fn zero() -> (r: Fixed)
        ensures
            r.raw == 0,
    {
        Fixed { raw: 0 }
    }
}

} // verus!
