//! DNS names and patterns, IP addresses and ranges.

pub mod dns;
pub mod ip;

pub use dns::{DNSName, DNSPattern};
pub use ip::{IPAddress, IPRange};
