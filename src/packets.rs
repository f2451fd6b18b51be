//! The packets of protocol 754 that the proxy reads or writes, by direction.
//! Floating-point fields are held as their IEEE 754 bits.

pub mod c2s;
pub mod s2c;
