//! Prefixes of IPv4 addresses.

use vstd::arithmetic::div_mod::{lemma_fundamental_div_mod, lemma_mod_multiples_basic};
use vstd::arithmetic::power2::{lemma2_to64, lemma_pow2_pos, pow2};
use vstd::bits::{lemma_u32_shl_is_mul, lemma_u32_shr_is_div};
use vstd::prelude::*;

verus! {

/// The address `ip` with all but its first `len` bits cleared.
pub open spec fn network(ip: u32, len: u32) -> u32 {
    if len == 0 {
        0
    } else {
        ip & (0xffff_ffffu32 << ((32 - len) as u32))
    }
}

/// The first `len` bits of `ip`, as a number.
pub open spec fn leading(ip: u32, len: u32) -> u32 {
    if len == 0 {
        0
    } else {
        ip >> ((32 - len) as u32)
    }
}

/// A prefix is written with the bits behind its length cleared.
pub open spec fn is_prefix(net: u32, len: u32) -> bool {
    len <= 32 && network(net, len) == net
}

/// The prefix `net/len` covers the address `ip`.
pub open spec fn covers(net: u32, len: u32, ip: u32) -> bool {
    network(ip, len) == net
}

/// Two addresses have the same network exactly if their leading bits agree.
pub proof fn lemma_network_leading(a: u32, b: u32, len: u32)
    requires
        len <= 32,
    ensures
        network(a, len) == network(b, len) <==> leading(a, len) == leading(b, len),
{
    let s: u32 = (32 - len) as u32;
    if len > 0 {
        assert(s < 32 ==> (a & (0xffff_ffffu32 << s) == b & (0xffff_ffffu32 << s) <==> a >> s == b
            >> s)) by (bit_vector);
    }
}

/// A shorter network of a network is the shorter network of the address.
pub proof fn lemma_network_network(ip: u32, len: u32, short: u32)
    requires
        short <= len <= 32,
    ensures
        network(network(ip, len), short) == network(ip, short),
        is_prefix(network(ip, len), len),
{
    let s: u32 = (32 - len) as u32;
    let t: u32 = (32 - short) as u32;
    lemma_mask_mask(ip, s, t);
    lemma_mask_mask(ip, s, s);
}

proof fn lemma_mask_mask(ip: u32, s: u32, t: u32)
    ensures
        s <= t < 32 ==> (ip & (0xffff_ffffu32 << s)) & (0xffff_ffffu32 << t) == ip & (0xffff_ffffu32
            << t),
{
    assert(s <= t < 32 ==> (ip & (0xffff_ffffu32 << s)) & (0xffff_ffffu32 << t) == ip & (
    0xffff_ffffu32 << t)) by (bit_vector);
}

/// The network of all 32 bits is the address.
pub proof fn lemma_network_whole(ip: u32)
    ensures
        network(ip, 32) == ip,
{
    assert(ip & (0xffff_ffffu32 << 0) == ip) by (bit_vector);
}

/// The network is the address rounded down to a multiple of the size of the
/// prefix, and the leading bits say how many prefixes of that length come before.
pub proof fn lemma_network_div(ip: u32, len: u32)
    requires
        len <= 32,
    ensures
        leading(ip, len) == ip as nat / pow2((32 - len) as nat),
        network(ip, len) == (ip as nat / pow2((32 - len) as nat)) * pow2((32 - len) as nat),
        network(ip, len) <= ip < network(ip, len) + pow2((32 - len) as nat),
        network(ip, len) as nat % pow2((32 - len) as nat) == 0,
{
    let s: u32 = (32 - len) as u32;
    let size: int = pow2(s as nat) as int;
    let q: int = ip as int / size;
    lemma2_to64();
    lemma_pow2_pos(s as nat);
    lemma_fundamental_div_mod(ip as int, size);
    lemma_mod_multiples_basic(q, size);
    assert(size * q == q * size) by (nonlinear_arith);
    if len == 0 {
        assert(pow2(32) == 0x1_0000_0000);
        assert(ip as int / 0x1_0000_0000 == 0);
    } else {
        let h: u32 = ip >> s;
        lemma_u32_shr_is_div(ip, s);
        lemma_u32_shl_is_mul(h, s);
        assert(s < 32 ==> ip & (0xffff_ffffu32 << s) == (ip >> s) << s) by (bit_vector);
    }
}

/// Addresses that agree on a prefix agree on every shorter one.
pub proof fn lemma_network_shorter(a: u32, b: u32, len: u32, short: u32)
    requires
        short <= len <= 32,
        network(a, len) == network(b, len),
    ensures
        network(a, short) == network(b, short),
{
    lemma_network_network(a, len, short);
    lemma_network_network(b, len, short);
}

/// A prefix: its network and its length.
pub type Prefix = (u32, u32);

/// The prefix of the first `len` bits of `ip`.
pub open spec fn prefix_of(ip: u32, len: u32) -> Prefix {
    (network(ip, len), len)
}

/// The longest prefix in `m` that covers `ip` has length `len`.
pub open spec fn is_longest_match<T>(m: Map<Prefix, T>, ip: u32, len: u32) -> bool {
    &&& len <= 32
    &&& m.contains_key(prefix_of(ip, len))
    &&& forall|l: u32| len < l <= 32 ==> !m.contains_key(#[trigger] prefix_of(ip, l))
}

/// No prefix in `m` covers `ip`.
pub open spec fn no_match<T>(m: Map<Prefix, T>, ip: u32) -> bool {
    forall|l: u32| l <= 32 ==> !m.contains_key(#[trigger] prefix_of(ip, l))
}

} // verus!
