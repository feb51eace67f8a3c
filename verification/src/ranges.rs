//! Prefixes as ranges of numbers: a prefix of `len` bits is a run of `2^(32 - len)`
//! addresses that starts at a multiple of its size, and a lookup finds the
//! smallest run in the table that holds the address.

use vstd::arithmetic::div_mod::{lemma_fundamental_div_mod, lemma_fundamental_div_mod_converse};
use vstd::arithmetic::power2::{lemma2_to64, lemma_pow2_adds, lemma_pow2_pos, pow2};
use vstd::prelude::*;
use crate::prefix::{
    covers, is_longest_match, is_prefix, leading, lemma_network_div, network, no_match, prefix_of,
    Prefix,
};
use crate::tree_bitmap::TreeBitmap;

verus! {

/// The network of an address is the last multiple of the size of the prefix that
/// is not above the address.
pub proof fn law_network_rounds_down(ip: u32, len: u32)
    requires
        len <= 32,
    ensures
        network(ip, len) <= ip,
        ip - network(ip, len) < pow2((32 - len) as nat),
        network(ip, len) as nat % pow2((32 - len) as nat) == 0,
        prefix_of(ip, len).0 <= ip,
        ip - prefix_of(ip, len).0 < pow2((32 - len) as nat),
        prefix_of(ip, len).0 as nat % pow2((32 - len) as nat) == 0,
        prefix_of(ip, len).1 == len,
{
    lemma_network_div(ip, len);
}

/// Only the network starts a run of that size that holds the address.
pub proof fn law_network_unique(ip: u32, len: u32, net: u32)
    requires
        len <= 32,
        net <= ip,
        ip - net < pow2((32 - len) as nat),
        net as nat % pow2((32 - len) as nat) == 0,
    ensures
        network(ip, len) == net,
        prefix_of(ip, len) == (net, len),
{
    let size: int = pow2((32 - len) as nat) as int;
    lemma_network_div(ip, len);
    lemma_pow2_pos((32 - len) as nat);
    lemma_fundamental_div_mod(net as int, size);
    assert(size * (net as int / size) == (net as int / size) * size) by (nonlinear_arith);
    lemma_fundamental_div_mod_converse(ip as int, size, net as int / size, ip - net);
}

/// The leading bits of an address are its quotient by the size of the prefix.
pub proof fn law_leading_is_quotient(ip: u32, len: u32)
    requires
        len <= 32,
    ensures
        leading(ip, len) == ip as nat / pow2((32 - len) as nat),
{
    lemma_network_div(ip, len);
}

/// The prefixes of a length are the multiples of their size.
pub proof fn law_prefixes_are_multiples(net: u32, len: u32)
    ensures
        is_prefix(net, len) <==> len <= 32 && net as nat % pow2((32 - len) as nat) == 0,
{
    if len <= 32 {
        lemma_network_div(net, len);
        lemma_pow2_pos((32 - len) as nat);
        if net as nat % pow2((32 - len) as nat) == 0 {
            law_network_unique(net, len, net);
        }
    }
}

/// A prefix covers the addresses of its run, and no others.
pub proof fn law_prefix_covers_run(net: u32, len: u32, ip: u32)
    requires
        len <= 32,
        net as nat % pow2((32 - len) as nat) == 0,
    ensures
        covers(net, len, ip) <==> net <= ip < net + pow2((32 - len) as nat),
{
    lemma_network_div(ip, len);
    if net <= ip < net + pow2((32 - len) as nat) {
        law_network_unique(ip, len, net);
    }
}

/// The keys of a table are runs: at most 32 bits long, and at a multiple of their
/// size.
pub proof fn law_keys_are_runs<T>(table: TreeBitmap<T>, key: Prefix)
    requires
        table.wf(),
        table@.contains_key(key),
    ensures
        key.1 <= 32,
        key.0 as nat % pow2((32 - key.1) as nat) == 0,
        key.0 + pow2((32 - key.1) as nat) <= 0x1_0000_0000,
{
    law_prefixes_are_multiples(key.0, key.1);
    lemma_run_fits(key.0, key.1);
}

/// A run does not go on behind the last address.
proof fn lemma_run_fits(net: u32, len: u32)
    requires
        len <= 32,
        net as nat % pow2((32 - len) as nat) == 0,
    ensures
        net + pow2((32 - len) as nat) <= 0x1_0000_0000,
{
    let size: int = pow2((32 - len) as nat) as int;
    let q: int = net as int / size;
    let count: int = pow2(len as nat) as int;
    lemma_pow2_pos((32 - len) as nat);
    lemma_fundamental_div_mod(net as int, size);
    lemma_pow2_adds((32 - len) as nat, len as nat);
    lemma2_to64();
    assert(pow2(32) == 0x1_0000_0000);
    assert(size * count == 0x1_0000_0000);
    assert(size * q + size <= size * count) by (nonlinear_arith)
        requires
            size > 0,
            size * q < size * count,
    ;
}

/// The longest match of an address is the smallest run in the table that holds
/// the address: there is such a run of that length, and no smaller one.
pub proof fn law_longest_match_is_smallest_run<T>(m: Map<Prefix, T>, ip: u32, len: u32)
    requires
        forall|k: Prefix| #[trigger]
            m.contains_key(k) ==> k.1 <= 32 && k.0 as nat % pow2((32 - k.1) as nat) == 0,
    ensures
        is_longest_match(m, ip, len) <==> {
            &&& exists|k: Prefix| #[trigger]
                m.contains_key(k) && k.1 == len && k.0 <= ip < k.0 + pow2((32 - k.1) as nat)
            &&& forall|k: Prefix| #[trigger]
                m.contains_key(k) && k.0 <= ip < k.0 + pow2((32 - k.1) as nat) ==> k.1 <= len
        },
{
    assert forall|k: Prefix| #[trigger] m.contains_key(k) && k.0 <= ip < k.0 + pow2(
        (32 - k.1) as nat,
    ) implies k == prefix_of(ip, k.1) by {
        law_network_unique(ip, k.1, k.0);
    }
    assert forall|l: u32| l <= 32 implies {
        let k = #[trigger] prefix_of(ip, l);
        k.1 == l && k.0 <= ip < k.0 + pow2((32 - k.1) as nat)
    } by {
        law_network_rounds_down(ip, l);
    }
    if is_longest_match(m, ip, len) {
        assert(m.contains_key(prefix_of(ip, len)));
    }
}

/// An address has no match exactly if no run in the table holds it.
pub proof fn law_no_match_is_no_run<T>(m: Map<Prefix, T>, ip: u32)
    requires
        forall|k: Prefix| #[trigger]
            m.contains_key(k) ==> k.1 <= 32 && k.0 as nat % pow2((32 - k.1) as nat) == 0,
    ensures
        no_match(m, ip) <==> forall|k: Prefix| #[trigger]
            m.contains_key(k) ==> !(k.0 <= ip < k.0 + pow2((32 - k.1) as nat)),
{
    assert forall|k: Prefix| #[trigger] m.contains_key(k) && k.0 <= ip < k.0 + pow2(
        (32 - k.1) as nat,
    ) implies k == prefix_of(ip, k.1) by {
        law_network_unique(ip, k.1, k.0);
    }
    assert forall|l: u32| l <= 32 implies {
        let k = #[trigger] prefix_of(ip, l);
        k.1 == l && k.0 <= ip < k.0 + pow2((32 - k.1) as nat)
    } by {
        law_network_rounds_down(ip, l);
    }
}

/// An insertion gives its value to the one run of its length that holds the
/// address, and leaves all other prefixes alone.
pub proof fn law_insert_fills_run<T>(m: Map<Prefix, T>, ip: u32, masklen: u32, value: T, k: Prefix)
    requires
        masklen <= 32,
        k.1 <= 32,
        k.0 as nat % pow2((32 - k.1) as nat) == 0,
    ensures
        ({
            let n = m.insert(prefix_of(ip, masklen), value);
            if k.1 == masklen && k.0 <= ip < k.0 + pow2((32 - masklen) as nat) {
                n.contains_key(k) && n[k] == value
            } else {
                n.contains_key(k) == m.contains_key(k) && n[k] == m[k]
            }
        }),
{
    law_network_rounds_down(ip, masklen);
    if k.1 == masklen && k.0 <= ip < k.0 + pow2((32 - masklen) as nat) {
        law_network_unique(ip, masklen, k.0);
    }
}

/// The run of the inserted prefix, for all keys at once.
pub proof fn lemma_insert_runs<T>(m: Map<Prefix, T>, ip: u32, masklen: u32, value: T)
    requires
        masklen <= 32,
    ensures
        forall|k: Prefix|
            k.1 == masklen && k.0 as nat % pow2((32 - masklen) as nat) == 0 && k.0 <= ip < k.0
                + pow2((32 - masklen) as nat) ==> #[trigger] m.insert(
                prefix_of(ip, masklen),
                value,
            ).contains_key(k) && m.insert(prefix_of(ip, masklen), value)[k] == value,
        forall|k: Prefix|
            k.1 != masklen || !(k.0 <= ip < k.0 + pow2((32 - masklen) as nat))
                ==> #[trigger] m.insert(prefix_of(ip, masklen), value).contains_key(k)
                == m.contains_key(k) && m.insert(prefix_of(ip, masklen), value)[k] == m[k],
        forall|k: Prefix|
            k.1 == masklen && k.0 as nat % pow2((32 - masklen) as nat) == 0 && k.0 <= ip < k.0
                + pow2((32 - masklen) as nat) && #[trigger] m.contains_key(k)
                ==> m.contains_key(prefix_of(ip, masklen)) && m[k] == m[prefix_of(ip, masklen)],
        forall|k: Prefix|
            k.1 == masklen && k.0 as nat % pow2((32 - masklen) as nat) == 0 && k.0 <= ip < k.0
                + pow2((32 - masklen) as nat) && !#[trigger] m.contains_key(k)
                ==> !m.contains_key(prefix_of(ip, masklen)),
{
    let n: Map<Prefix, T> = m.insert(prefix_of(ip, masklen), value);
    law_network_rounds_down(ip, masklen);
    assert forall|k: Prefix|
        k.1 == masklen && k.0 as nat % pow2((32 - masklen) as nat) == 0 && k.0 <= ip < k.0 + pow2(
            (32 - masklen) as nat,
        ) implies #[trigger] n.contains_key(k) && n[k] == value by {
        law_network_unique(ip, masklen, k.0);
    }
    assert forall|k: Prefix|
        k.1 == masklen && k.0 as nat % pow2((32 - masklen) as nat) == 0 && k.0 <= ip < k.0 + pow2(
            (32 - masklen) as nat,
        ) implies #[trigger] m.contains_key(k) == m.contains_key(prefix_of(ip, masklen)) && m[k]
        == m[prefix_of(ip, masklen)] by {
        law_network_unique(ip, masklen, k.0);
    }
}

/// Two runs in a table are apart, or one lies within the other.
pub proof fn law_runs_nest<T>(table: TreeBitmap<T>, a: Prefix, b: Prefix, ip: u32)
    requires
        table.wf(),
        table@.contains_key(a),
        table@.contains_key(b),
        a.1 <= b.1,
        a.0 <= ip < a.0 + pow2((32 - a.1) as nat),
        b.0 <= ip < b.0 + pow2((32 - b.1) as nat),
    ensures
        a.0 <= b.0,
        b.0 + pow2((32 - b.1) as nat) <= a.0 + pow2((32 - a.1) as nat),
{
    law_keys_are_runs(table, a);
    law_keys_are_runs(table, b);
    let d: nat = (b.1 - a.1) as nat;
    let small: int = pow2((32 - b.1) as nat) as int;
    let times: int = pow2(d) as int;
    let large: int = pow2((32 - a.1) as nat) as int;
    lemma_pow2_adds((32 - b.1) as nat, d);
    lemma_pow2_pos((32 - b.1) as nat);
    lemma_pow2_pos(d);
    lemma_fundamental_div_mod(a.0 as int, large);
    lemma_fundamental_div_mod(b.0 as int, small);
    let p: int = a.0 as int / large;
    let q: int = b.0 as int / small;
    assert(small * times == large);
    let first: int = times * p;
    assert(large * p == small * first) by (nonlinear_arith)
        requires
            small * times == large,
            first == times * p,
    ;
    assert(large * p + large == small * (first + times)) by (nonlinear_arith)
        requires
            small * times == large,
            first == times * p,
    ;
    assert(first <= q) by (nonlinear_arith)
        requires
            small > 0,
            small * first < small * q + small,
    ;
    assert(q + 1 <= first + times) by (nonlinear_arith)
        requires
            small > 0,
            small * q < small * (first + times),
    ;
    assert(small * first <= small * q && small * q + small <= small * (first + times))
        by (nonlinear_arith)
        requires
            small > 0,
            first <= q,
            q + 1 <= first + times,
    ;
}

} // verus!
