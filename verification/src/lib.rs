//! Validated IPv4 addresses: dotted-decimal parsing, canonical text,
//! big-endian bit strings, and the 32-bit packed value.

pub mod bits;
pub mod grammar;
pub mod ip_trait;
pub mod my_ipv4;
