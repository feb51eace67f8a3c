//! What holds of a table and its lookups, whatever it holds: laws over the map
//! from prefixes to values that is the view of a table.

use vstd::prelude::*;
use crate::bits::ones;
use crate::prefix::{
    covers, is_longest_match, is_prefix, lemma_network_network, lemma_network_whole, network,
    no_match, prefix_of, Prefix,
};
use crate::root::{short_keys, top_digits};
use crate::tree_bitmap::TreeBitmap;

verus! {

/// The keys of a table are prefixes: at most 32 bits long, with no bit set
/// behind their length.
pub proof fn law_keys_are_prefixes<T>(table: TreeBitmap<T>, key: Prefix)
    requires
        table.wf(),
        table@.contains_key(key),
    ensures
        is_prefix(key.0, key.1),
{
}

/// An address has at most one longest match, and no match if it has none.
pub proof fn law_longest_match_unique<T>(m: Map<Prefix, T>, ip: u32, a: u32, b: u32)
    requires
        is_longest_match(m, ip, a),
    ensures
        is_longest_match(m, ip, b) ==> a == b,
        !no_match(m, ip),
{
    assert(m.contains_key(prefix_of(ip, a)));
    if is_longest_match(m, ip, b) {
        assert(m.contains_key(prefix_of(ip, b)));
    }
}

/// An address that some prefix in the table covers has a longest match, at least
/// as long as that prefix.
pub proof fn law_longest_match_exists<T>(m: Map<Prefix, T>, ip: u32, net: u32, len: u32) -> (best:
    u32)
    requires
        len <= 32,
        m.contains_key((net, len)),
        covers(net, len, ip),
    ensures
        is_longest_match(m, ip, best),
        len <= best,
    decreases 32 - len,
{
    assert(m.contains_key(prefix_of(ip, len)));
    if exists|l: u32| len < l <= 32 && m.contains_key(#[trigger] prefix_of(ip, l)) {
        let l: u32 = choose|l: u32| len < l <= 32 && m.contains_key(#[trigger] prefix_of(ip, l));
        law_longest_match_exists(m, ip, network(ip, l), l)
    } else {
        len
    }
}

/// The prefix that is matched covers the address, and so do all shorter prefixes
/// of its network.
pub proof fn law_match_covers<T>(m: Map<Prefix, T>, ip: u32, len: u32, short: u32)
    requires
        is_longest_match(m, ip, len),
        short <= len,
    ensures
        covers(network(ip, len), len, ip),
        covers(network(network(ip, len), short), short, ip),
        is_prefix(network(ip, len), len),
{
    lemma_network_network(ip, len, short);
}

/// An empty table matches nothing.
pub proof fn law_empty_matches_nothing<T>(ip: u32)
    ensures
        no_match(Map::<Prefix, T>::empty(), ip),
{
}

/// A lookup gives back what an insertion wrote: an address that the inserted
/// prefix covers, and no longer one in the table does, matches that prefix and
/// gets its value.
pub proof fn law_match_after_insert<T>(
    m: Map<Prefix, T>,
    ip: u32,
    masklen: u32,
    value: T,
    addr: u32,
)
    requires
        masklen <= 32,
        covers(network(ip, masklen), masklen, addr),
        no_match(m, addr) || exists|l: u32| l <= masklen && #[trigger] is_longest_match(m, addr, l),
    ensures
        is_longest_match(m.insert(prefix_of(ip, masklen), value), addr, masklen),
        m.insert(prefix_of(ip, masklen), value)[prefix_of(addr, masklen)] == value,
{
    assert(prefix_of(addr, masklen) == prefix_of(ip, masklen));
}

/// An insertion leaves the match of an address alone if a longer prefix matches
/// already.
pub proof fn law_longer_match_stays<T>(
    m: Map<Prefix, T>,
    ip: u32,
    masklen: u32,
    value: T,
    addr: u32,
    len: u32,
)
    requires
        masklen < len,
        is_longest_match(m, addr, len),
    ensures
        is_longest_match(m.insert(prefix_of(ip, masklen), value), addr, len),
        m.insert(prefix_of(ip, masklen), value)[prefix_of(addr, len)] == m[prefix_of(addr, len)],
{
}

/// An insertion leaves the lookups of all addresses alone that the inserted
/// prefix does not cover.
pub proof fn law_uncovered_unchanged<T>(
    m: Map<Prefix, T>,
    ip: u32,
    masklen: u32,
    value: T,
    addr: u32,
    len: u32,
)
    requires
        masklen <= 32,
        !covers(network(ip, masklen), masklen, addr),
    ensures
        is_longest_match(m.insert(prefix_of(ip, masklen), value), addr, len) == is_longest_match(
            m,
            addr,
            len,
        ),
        is_longest_match(m, addr, len) ==> m.insert(
            prefix_of(ip, masklen),
            value,
        )[prefix_of(addr, len)] == m[prefix_of(addr, len)],
        no_match(m.insert(prefix_of(ip, masklen), value), addr) == no_match(m, addr),
{
    let n: Map<Prefix, T> = m.insert(prefix_of(ip, masklen), value);
    assert forall|l: u32|
        l <= 32 implies n.contains_key(#[trigger] prefix_of(addr, l)) == m.contains_key(
        prefix_of(addr, l),
    ) by {
        assert(prefix_of(addr, l) != prefix_of(ip, masklen));
    }
}

/// An insertion never shortens a match.
pub proof fn law_matches_grow<T>(
    m: Map<Prefix, T>,
    ip: u32,
    masklen: u32,
    value: T,
    addr: u32,
    before: u32,
    after: u32,
)
    requires
        is_longest_match(m, addr, before),
        is_longest_match(m.insert(prefix_of(ip, masklen), value), addr, after),
    ensures
        before <= after,
{
    assert(m.insert(prefix_of(ip, masklen), value).contains_key(prefix_of(addr, before)));
}

/// The bits of an address behind the length of the prefix do not matter to an
/// insertion.
pub proof fn law_host_bits_ignored(a: u32, b: u32, masklen: u32)
    requires
        masklen <= 32,
        network(a, masklen) == network(b, masklen),
    ensures
        prefix_of(a, masklen) == prefix_of(b, masklen),
        prefix_of(network(a, masklen), masklen) == prefix_of(a, masklen),
{
    lemma_network_network(a, masklen, masklen);
}

/// Of two insertions for the same prefix the second finds the value of the first
/// and replaces it.
pub proof fn law_insert_replaces<T>(m: Map<Prefix, T>, ip: u32, masklen: u32, first: T, second: T)
    ensures
        m.insert(prefix_of(ip, masklen), first).contains_key(prefix_of(ip, masklen)),
        m.insert(prefix_of(ip, masklen), first)[prefix_of(ip, masklen)] == first,
        m.insert(prefix_of(ip, masklen), first).insert(prefix_of(ip, masklen), second) == m.insert(
            prefix_of(ip, masklen),
            second,
        ),
{
    assert(m.insert(prefix_of(ip, masklen), first).insert(prefix_of(ip, masklen), second)
        =~= m.insert(prefix_of(ip, masklen), second));
}

/// Insertions for different prefixes can be made in either order.
pub proof fn law_inserts_commute<T>(
    m: Map<Prefix, T>,
    ip: u32,
    masklen: u32,
    value: T,
    other_ip: u32,
    other_masklen: u32,
    other_value: T,
)
    requires
        prefix_of(ip, masklen) != prefix_of(other_ip, other_masklen),
    ensures
        m.insert(prefix_of(ip, masklen), value).insert(
            prefix_of(other_ip, other_masklen),
            other_value,
        ) == m.insert(prefix_of(other_ip, other_masklen), other_value).insert(
            prefix_of(ip, masklen),
            value,
        ),
{
    assert(m.insert(prefix_of(ip, masklen), value).insert(
        prefix_of(other_ip, other_masklen),
        other_value,
    ) =~= m.insert(prefix_of(other_ip, other_masklen), other_value).insert(
        prefix_of(ip, masklen),
        value,
    ));
}

/// With a value for the empty prefix every address has a match.
pub proof fn law_default_route<T>(m: Map<Prefix, T>, ip: u32)
    requires
        m.contains_key((0, 0)),
    ensures
        !no_match(m, ip),
{
    assert(prefix_of(ip, 0) == (0u32, 0u32));
}

/// A prefix of all 32 bits is the match of its address.
pub proof fn law_host_route<T>(m: Map<Prefix, T>, ip: u32)
    requires
        m.contains_key((ip, 32)),
    ensures
        is_longest_match(m, ip, 32),
        network(ip, 32) == ip,
{
    lemma_network_whole(ip);
}

/// In a table whose values repeat their prefixes a lookup returns a value that
/// agrees with the prefix that it returns, and such a table stays so when a
/// value is inserted with its prefix.
pub proof fn law_labelled_values(m: Map<Prefix, Prefix>, ip: u32, len: u32, masklen: u32)
    requires
        forall|k: Prefix| #[trigger] m.contains_key(k) ==> m[k] == k,
    ensures
        is_longest_match(m, ip, len) ==> m[prefix_of(ip, len)] == (network(ip, len), len),
        forall|k: Prefix| #[trigger]
            m.insert(prefix_of(ip, masklen), prefix_of(ip, masklen)).contains_key(k) ==> m.insert(
                prefix_of(ip, masklen),
                prefix_of(ip, masklen),
            )[k] == k,
{
}

/// A prefix covers no address that a shorter prefix of its network does not
/// cover.
pub proof fn law_prefixes_nest(net: u32, len: u32, short: u32, ip: u32)
    requires
        short <= len <= 32,
        covers(net, len, ip),
    ensures
        covers(network(net, short), short, ip),
{
    lemma_network_network(ip, len, short);
}

/// The root of a table is a normal node. Its results are as many as the table has
/// prefixes of at most three bits, and its children as many as the longer ones
/// have first digits.
pub proof fn law_root_shape<T>(table: TreeBitmap<T>)
    requires
        table.wf(),
    ensures
        !table.nodes@[Seq::empty()].is_endnode(),
        short_keys(table@).finite(),
        ones(table.nodes@[Seq::empty()].internal()) == short_keys(table@).len(),
        top_digits(table@).finite(),
        ones(table.nodes@[Seq::empty()].external()) == top_digits(table@).len(),
{
    table.state().lemma_root_shape();
}

} // verus!
