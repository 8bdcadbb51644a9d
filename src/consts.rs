use vstd::prelude::*;

verus! {

/// Command direction bit: read.
pub const READ: bool = false;
/// Command direction bit: write.
pub const WRITE: bool = true;
/// Auto-increment the address per transferred word.
pub const INC_ADDR: bool = true;

/// Bus-control function.
pub const FUNC_BUS: u32 = 0;
/// Backplane-memory function.
pub const FUNC_BACKPLANE: u32 = 1;
/// High-throughput data function.
pub const FUNC_WLAN: u32 = 2;

/// Bus configuration register.
pub const REG_BUS_CTRL: u32 = 0x0;
/// Read-only bus test register, holds `FEEDBEAD`.
pub const REG_BUS_TEST_RO: u32 = 0x14;
/// Read/write bus test register.
pub const REG_BUS_TEST_RW: u32 = 0x18;

/// Window register, low byte (bits 8..16 of the window).
pub const REG_BACKPLANE_BACKPLANE_ADDRESS_LOW: u32 = 0x1000A;
/// Window register, middle byte (bits 16..24 of the window).
pub const REG_BACKPLANE_BACKPLANE_ADDRESS_MID: u32 = 0x1000B;
/// Window register, high byte (bits 24..32 of the window).
pub const REG_BACKPLANE_BACKPLANE_ADDRESS_HIGH: u32 = 0x1000C;

/// Size of one backplane window in bytes.
pub const BACKPLANE_WINDOW_SIZE: u32 = 0x8000;
/// Mask selecting the offset of an address within its window.
pub const BACKPLANE_ADDRESS_MASK: u32 = 0x7FFF;
/// Address flag marking a word-wide backplane access.
pub const BACKPLANE_ADDRESS_32BIT_FLAG: u32 = 0x8000;
/// Largest payload of one backplane transaction, in bytes.
pub const BACKPLANE_MAX_TRANSFER_SIZE: u32 = 64;

/// Bus configuration: 32-bit word length.
pub const WORD_LENGTH_32: u32 = 0x1;
/// Bus configuration: high-speed mode.
pub const HIGH_SPEED: u32 = 0x10;

/// Value of the read-only test register.
pub const FEEDBEAD: u32 = 0xFEEDBEAD;
/// Pattern written to and read back from the read/write test register.
pub const TEST_PATTERN: u32 = 0x12345678;

} // verus!
