//! Driver core for a windowed register/memory bus spoken over a narrow
//! word-oriented serial link: command words, the cached backplane window,
//! chunked block transfers and the bring-up handshake. Beside it, the
//! decisions of a timer alarm driver and the pure helpers of an LED matrix
//! display.

pub mod consts;
pub mod command;
pub mod transport;
pub mod bus;
pub mod scripted;
pub mod display;
pub mod serial;
pub mod spi_bus;
pub mod alarm;
