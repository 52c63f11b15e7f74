//! A driver for the L3GD20 gyroscope on a synchronous serial bus.
//!
//! - `spi`: what one attempt at a byte exchange comes to, read from the bus
//!   status flags.
//! - `bus`: the platform's capabilities, the trace of every call made on
//!   them, and chip-select framing of multi-byte exchanges.
//! - `l3gd20`: command encoding, register access, the initialisation
//!   sequence and the decoding of status and measurements.
//! - `device`: how the device answers transactions, and the laws the driver's
//!   frames obey against it.
//! - `sim`: a simulated device on a simulated bus.

pub mod spi;
pub mod bus;
pub mod l3gd20;
pub mod device;
pub mod sim;
