//! Second-stage boot loader logic: a CRC-32 engine, a text console model,
//! serial port configuration and the serial kernel-loading protocol.

pub mod console;
pub mod crc32;
pub mod loader;
pub mod serial;
