use vstd::prelude::*;
use crate::display::layout::COLOR_BITMASK;

verus! {

/// Number of modulation phases: one per level of a channel.
pub const PHASES: usize = 16;

/// Low bits of each 8-bit channel that the modulation drops.
pub const CHANNEL_SHIFT: u32 = 4;

/// The level, 0..16, that a channel of the 24-bit colour `n` shows: its top
/// bits.
pub open spec fn channel_level(n: u32, shift: u32) -> u32 {
    (n >> shift >> CHANNEL_SHIFT) & COLOR_BITMASK
}

/// Modulation phase of a refresh tick.
pub fn tick_phase(tick_counter: usize) -> (r: u32)
    ensures
        r == tick_counter % PHASES,
        r < PHASES,
{
    (tick_counter % PHASES) as u32
}

/// Whether the red, green and blue lines of a pixel of colour `n` are on
/// during phase `div`: a channel is on while the phase is below its level, so
/// over all phases it is on for as many ticks as its level. Red is the top
/// channel and takes every bit above the green one.
pub fn channel_states(div: u32, n: u32) -> (r: (bool, bool, bool))
    ensures
        r.0 == (div < n >> 16u32 >> CHANNEL_SHIFT),
        n < 0x1000000 ==> r.0 == (div < channel_level(n, 16)),
        r.1 == (div < channel_level(n, 8)),
        r.2 == (div < channel_level(n, 0)),
{
    assert(n < 0x1000000 ==> (n >> 16u32 >> 4u32) & 0b1111u32 == n >> 16u32 >> 4u32) by (bit_vector);
    assert(n >> 0u32 == n) by (bit_vector);
    (
        div < n >> 16u32 >> CHANNEL_SHIFT,
        div < (n >> 8u32 >> CHANNEL_SHIFT) & COLOR_BITMASK,
        div < (n >> CHANNEL_SHIFT) & COLOR_BITMASK,
    )
}

/// The level of row-select line `bit` (a mask of one bit) for row pair `y_pair`:
/// high when the bit is set.
pub fn bit_state(y_pair: u8, bit: u8) -> (r: bool)
    ensures
        r == (y_pair & bit != 0),
{
    y_pair & bit > 0
}

} // verus!
