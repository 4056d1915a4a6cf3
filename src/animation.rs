//! The timing of the animation that follows each move.
use vstd::prelude::*;

verus! {

/// How long the tiles of one move take to slide and to appear.
pub const ANIMATION_MS: u64 = 500;

/// The animation is as good as over once more than 99 hundredths of it
/// have run.
pub open spec fn animation_due(elapsed_ms: u64) -> bool {
    elapsed_ms * 100 > 99 * ANIMATION_MS
}

/// How much of the animation has run, `elapsed_ms` milliseconds after it
/// started, in thousandths: at most 1000.
pub open spec fn progress_spec(elapsed_ms: u64) -> int {
    if elapsed_ms >= ANIMATION_MS {
        1000
    } else {
        elapsed_ms * 1000 / ANIMATION_MS as int
    }
}

pub fn animation_is_due(elapsed_ms: u64) -> (r: bool)
    ensures
        r == animation_due(elapsed_ms),
{
    elapsed_ms >= ANIMATION_MS || elapsed_ms * 100 > 99 * ANIMATION_MS
}

pub fn progress_permille(elapsed_ms: u64) -> (r: u64)
    ensures
        r == progress_spec(elapsed_ms),
        r <= 1000,
{
    if elapsed_ms >= ANIMATION_MS {
        1000
    } else {
        elapsed_ms * 1000 / ANIMATION_MS
    }
}

} // verus!
