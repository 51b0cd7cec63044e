//! IP addresses as the numbers that their octets denote in big-endian order.
use vstd::prelude::*;

verus! {

/// An IPv4 or IPv6 address, held as the big-endian value of its octets
/// (what `u32::from(Ipv4Addr)` and `u128::from(Ipv6Addr)` give).
#[derive(Debug, Clone, Copy, PartialEq, Eq, Structural)]
pub enum IpAddress {
    V4(u32),
    V6(u128),
}

} // verus!
