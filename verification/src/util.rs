//! Process-wide simulation constants and the color palette.

use vstd::prelude::*;

verus! {

/// Default grid width used by the driver.
pub const GRID_WIDTH: usize = 30;

/// Default grid height used by the driver.
pub const GRID_HEIGHT: usize = 20;

/// Largest grid dimension the engine accepts; keeps all row-major index
/// arithmetic inside `u32`/`i32` ranges even on 32-bit targets.
pub const MAX_DIM: usize = 30000;

/// Bound on window-center coordinates for view extraction; keeps signed
/// window arithmetic free of overflow even on 32-bit targets.
pub const MAX_COORD: isize = 1000000;

/// Colors are packed `0xRRGGBBAA` values; this palette names the ones the
/// driver uses for species tints and the backdrop.
pub struct HEPT32;

impl HEPT32 {
    pub const BLACK: u32 = 0x000000FF;

    pub const TAN: u32 = 0xFBBE82FF;

    pub const BLUE: u32 = 0x5EE9E9FF;

    pub const GREEN: u32 = 0x47F641FF;

    pub const RED: u32 = 0xF94E6DFF;

    pub const YELLOW: u32 = 0xECAB11FF;
}

} // verus!
