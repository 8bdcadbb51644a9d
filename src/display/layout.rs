use vstd::prelude::*;

verus! {

/// Bits of each colour channel that the modulation shows.
pub const COLOR_BITMASK: u32 = 0b00001111;

/// Columns of the physical panel chain.
pub const PHYSICAL_WIDTH: usize = 128;
/// Rows of the physical panel chain.
pub const PHYSICAL_HEIGHT: usize = 32;
/// Columns of the picture.
pub const VIRTUAL_WIDTH: usize = 64;
/// Rows of the picture.
pub const VIRTUAL_HEIGHT: usize = 64;

/// The picture pixel shown at a physical position: the first panel shows
/// the upper half of the picture turned by half a turn, the second panel the
/// lower half as it is.
pub open spec fn physical_to_virtual_spec(x: int, y: int) -> (int, int) {
    if x < VIRTUAL_WIDTH {
        (VIRTUAL_WIDTH - x - 1, PHYSICAL_HEIGHT - y - 1)
    } else {
        (x - VIRTUAL_WIDTH, y + PHYSICAL_HEIGHT)
    }
}

/// Maps a physical position to the picture pixel it shows.
pub fn physical_to_virtual(physical_x: usize, physical_y: usize) -> (r: (usize, usize))
    requires
        physical_x < VIRTUAL_WIDTH ==> physical_y < PHYSICAL_HEIGHT,
        physical_x >= VIRTUAL_WIDTH ==> physical_y + PHYSICAL_HEIGHT <= usize::MAX,
    ensures
        (r.0 as int, r.1 as int) == physical_to_virtual_spec(physical_x as int, physical_y as int),
        physical_x < PHYSICAL_WIDTH && physical_y < PHYSICAL_HEIGHT ==> r.0 < VIRTUAL_WIDTH && r.1 < VIRTUAL_HEIGHT,
{
    if physical_x < VIRTUAL_WIDTH {
        (VIRTUAL_WIDTH - physical_x - 1, PHYSICAL_HEIGHT - physical_y - 1)
    } else {
        (physical_x - VIRTUAL_WIDTH, physical_y + PHYSICAL_HEIGHT)
    }
}

} // verus!
