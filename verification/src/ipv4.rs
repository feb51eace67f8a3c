//! IPv4 addresses.

use vstd::prelude::*;
use vstd::std_specs::convert::{FromSpec, FromSpecImpl};

verus! {

/// An IPv4 address, held as the 32-bit number whose most significant octet is
/// the first one of the dotted notation.
#[derive(Clone, Copy, Debug, PartialEq, Eq, Structural)]
pub struct Ipv4Addr {
    pub bits: u32,
}

impl Ipv4Addr {
    /// The address `a.b.c.d`.
    pub fn new(a: u8, b: u8, c: u8, d: u8) -> (r: Self)
        ensures
            r.bits == a * 0x100_0000 + b * 0x1_0000 + c * 0x100 + d,
    {
        Ipv4Addr {
            bits: a as u32 * 0x100_0000 + b as u32 * 0x1_0000 + c as u32 * 0x100 + d as u32,
        }
    }
}

impl From<u32> for Ipv4Addr {
    fn from(bits: u32) -> (r: Self)
        ensures
            r.bits == bits,
    {
        Ipv4Addr { bits }
    }
}

impl FromSpecImpl<u32> for Ipv4Addr {
    open spec fn obeys_from_spec() -> bool {
        true
    }

    open spec fn from_spec(bits: u32) -> Self {
        Ipv4Addr { bits }
    }
}

impl From<Ipv4Addr> for u32 {
    fn from(ip: Ipv4Addr) -> (r: u32)
        ensures
            r == ip.bits,
    {
        ip.bits
    }
}

impl FromSpecImpl<Ipv4Addr> for u32 {
    open spec fn obeys_from_spec() -> bool {
        true
    }

    open spec fn from_spec(ip: Ipv4Addr) -> u32 {
        ip.bits
    }
}

/// Addresses and 32-bit numbers stand for each other, one for one: neither
/// conversion loses or changes a bit, and each undoes the other.
pub proof fn law_conversions_are_inverse(n: u32, ip: Ipv4Addr)
    ensures
        <Ipv4Addr as FromSpec<u32>>::from_spec(n).bits == n,
        <u32 as FromSpec<Ipv4Addr>>::from_spec(ip) == ip.bits,
        <u32 as FromSpec<Ipv4Addr>>::from_spec(<Ipv4Addr as FromSpec<u32>>::from_spec(n)) == n,
        <Ipv4Addr as FromSpec<u32>>::from_spec(<u32 as FromSpec<Ipv4Addr>>::from_spec(ip)) == ip,
        <Ipv4Addr as FromSpec<u32>>::obeys_from_spec(),
        <u32 as FromSpec<Ipv4Addr>>::obeys_from_spec(),
{
}

/// The octets of an address are the digits of its number to the base 256, the
/// first one the most significant: the number gives each of them back.
pub proof fn law_octets(ip: Ipv4Addr, a: u8, b: u8, c: u8, d: u8)
    requires
        ip == <Ipv4Addr as FromSpec<u32>>::from_spec(
            (a * 0x100_0000 + b * 0x1_0000 + c * 0x100 + d) as u32,
        ),
    ensures
        <u32 as FromSpec<Ipv4Addr>>::from_spec(ip) / 0x100_0000 == a,
        (<u32 as FromSpec<Ipv4Addr>>::from_spec(ip) / 0x1_0000) % 0x100 == b,
        (<u32 as FromSpec<Ipv4Addr>>::from_spec(ip) / 0x100) % 0x100 == c,
        <u32 as FromSpec<Ipv4Addr>>::from_spec(ip) % 0x100 == d,
{
    let n: u32 = ip.bits;
    assert(n / 0x100 == a * 0x1_0000 + b * 0x100 + c);
    assert(n / 0x1_0000 == a * 0x100 + b);
}

} // verus!
