//! Timing curves.
//!
//! An easing maps linear time onto eased progress; it shapes how progress
//! moves over time and is independent of where a given progress value
//! reveals. The curves themselves are floating-point and applied by the
//! caller; this module names them.

use vstd::prelude::*;

verus! {

/// A timing curve. Input and output are both clamped to `0..=1`.
#[derive(Clone, Copy, Debug, PartialEq, Eq, Structural)]
pub enum Easing {
    /// Progress moves at a constant rate. (default)
    Linear,
    /// Decelerates toward the end, good for a confident finish.
    EaseOutCubic,
    /// Strong deceleration; the reveal "lands".
    EaseOutQuint,
    /// Slow start and end, fast middle, the classic UI curve.
    EaseInOutCubic,
}

impl Default for Easing {
    fn default() -> (e: Easing)
        ensures
            e == Easing::Linear,
    {
        Easing::Linear
    }
}

} // verus!
