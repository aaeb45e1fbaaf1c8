//! Fixed parameters of the light-controller wire protocol.

use vstd::prelude::*;

verus! {

/// Lowest level a point may hold.
pub const LIGHT_LEVEL_MIN: i32 = 0;

/// Highest level a point may hold: the largest 16-bit value.
pub const LIGHT_LEVEL_MAX: i32 = 65535;

/// First bus address the discovery scan probes.
pub const I2C_RANGE_MIN: u16 = 0x08;

/// First bus address past the discovery scan.
pub const I2C_RANGE_MAX: u16 = 0x77;

/// Wire bytes per light level.
pub const I2C_BYTES_PER_LIGHT: u8 = 2;

/// Register where the light levels start.
pub const I2C_LIGHT_LEVEL_START_OFFSET: u8 = 2;

/// Identity byte a controller unit answers on register 0x00.
pub const CONTROLLER_IDENTITY: u8 = 0x10;

} // verus!
