//! Time by the CPU cycle counter, which is what times a bit-banged edge.

use vstd::prelude::*;

verus! {

/// Cycles from `before` to `after`.
///
/// The counter wraps at 32 bits — about nine seconds at 480 MHz and thirty at
/// 160 MHz — so this is a wrapping difference, never an ordering.
pub fn elapsed(before: u32, after: u32) -> (cycles: u32)
    ensures
        cycles == (after - before) % 0x1_0000_0000,
{
    let cycles: u32 = after.wrapping_sub(before);
    assert(cycles == (after - before) % 0x1_0000_0000);
    cycles
}

/// However often the counter wrapped while fewer than 2^32 cycles passed, what
/// passed is what is measured.
pub proof fn law_elapsed_is_right_across_a_wrap(before: u32, passed: u32, after: u32)
    requires
        after == (before + passed) % 0x1_0000_0000,
    ensures
        (after - before) % 0x1_0000_0000 == passed,
{
}

} // verus!
