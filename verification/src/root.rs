//! What the root of a trie says of the prefixes in it: its result bits are those
//! of the prefixes of at most three bits, and its child bits are the first digits
//! of the longer ones.

use vstd::arithmetic::div_mod::lemma_div_denominator;
use vstd::arithmetic::power2::{lemma2_to64, lemma_pow2_adds, lemma_pow2_pos, pow2};
use vstd::prelude::*;
use vstd::relations::injective_on;
use vstd::set_lib::lemma_map_size;
use crate::bits::{
    bit_set, has_bit, law_bits_are_binary_digits, law_ones_are_counted, lemma_bit_set, ones,
};
use crate::model::{Path, TrieState};
use crate::nibbles::{
    address_of, law_digits_are_base_sixteen, lemma_address_of, lemma_network_path, lemma_path_push, nibble, path_of,
};
use crate::prefix::{lemma_network_network, lemma_network_shorter, network, Prefix};
use crate::ranges::law_prefixes_are_multiples;
use crate::tree_bitmap::TreeBitmap;
use crate::trie::{law_children_in_order, law_positions, lemma_node_bits, position, TrieNode};

verus! {

/// The prefixes of at most three bits.
pub open spec fn short_keys<T>(m: Map<Prefix, T>) -> Set<Prefix> {
    Set::new(|k: Prefix| m.contains_key(k) && k.1 <= 3)
}

/// The first digits of the prefixes of four bits and more.
pub open spec fn top_digits<T>(m: Map<Prefix, T>) -> Set<u8> {
    Set::new(
        |d: u8| exists|k: Prefix| #[trigger] m.contains_key(k) && k.1 >= 4 && nibble(k.0, 0) == d,
    )
}

/// How many bits a bit position of a node stands for.
spec fn length_at(b: u32) -> u32 {
    if b == 31 {
        0
    } else if b >= 29 {
        1
    } else if b >= 25 {
        2
    } else if b >= 17 {
        3
    } else {
        4
    }
}

/// A digit that starts with the bits of a bit position of a node.
spec fn digit_at(b: u32) -> u8 {
    if b == 31 {
        0
    } else if b >= 29 {
        ((30 - b) * 8) as u8
    } else if b >= 25 {
        ((28 - b) * 4) as u8
    } else if b >= 17 {
        ((24 - b) * 2) as u8
    } else {
        (15 - b) as u8
    }
}

impl<T> TrieState<T> {
    /// The digits of a path are digits.
    proof fn lemma_path_digits(self, p: Path)
        requires
            self.wf(),
            self.nodes.contains_key(p),
        ensures
            forall|i: int| 0 <= i < p.len() ==> p[i] < 16,
        decreases p.len(),
    {
        if p.len() > 0 {
            self.lemma_parent(p);
            self.lemma_path_digits(p.drop_last());
            assert forall|i: int| 0 <= i < p.len() implies p[i] < 16 by {
                if i < p.len() - 1 {
                    assert(p[i] == p.drop_last()[i]);
                }
            }
        }
    }

    /// The prefix whose value bit `b` of the node at `p` marks.
    proof fn lemma_bit_key(self, p: Path, b: u32) -> (k: Prefix)
        requires
            self.wf(),
            self.nodes.contains_key(p),
            b < 32,
            has_bit(self.nodes[p].internal(), b),
        ensures
            self.contents().contains_key(k),
            k.1 == 4 * p.len() + length_at(b),
            path_of(k.0, p.len()) == p,
            self.entry_path(k.0, k.1) == p,
            self.entry_bit(k.0, k.1) == b,
    {
        let node: TrieNode = self.nodes[p];
        let n: u8 = digit_at(b);
        let r: u32 = length_at(b);
        lemma_node_bits(node, b);
        assert(self.node_ok(p));
        assert(position(n, r) == b);
        assert(p.len() == 8 ==> r == 0);
        let full: Path = if p.len() < 8 {
            p.push(n)
        } else {
            p
        };
        self.lemma_path_digits(p);
        lemma_address_of(full);
        let ip: u32 = address_of(full);
        let len: u32 = (4 * p.len() + r) as u32;
        assert(path_of(ip, p.len()) =~= p) by {
            assert forall|i: int| 0 <= i < p.len() implies path_of(ip, p.len())[i] == p[i] by {
                assert(nibble(ip, i) == full[i]);
            }
        }
        assert(p.len() < 8 ==> nibble(ip, p.len() as int) == n) by {
            assert(p.len() < 8 ==> nibble(ip, p.len() as int) == full[p.len() as int]);
        }
        self.lemma_final_node(ip, len, p.len());
        let net: u32 = network(ip, len);
        lemma_network_network(ip, len, len);
        self.lemma_entry_network(ip, net, len);
        lemma_network_shorter(ip, net, len, (4 * p.len()) as u32);
        lemma_network_path(ip, net, p.len() as u32, 0);
        (net, len)
    }

    /// Every node below the root leads to a prefix.
    proof fn lemma_leads_to_key(self, p: Path) -> (k: Prefix)
        requires
            self.wf(),
            self.fruitful(),
            self.nodes.contains_key(p),
            p.len() > 0,
        ensures
            self.contents().contains_key(k),
            k.1 >= 4 * p.len(),
            path_of(k.0, p.len()) == p,
        decreases 8 - p.len(),
    {
        let node: TrieNode = self.nodes[p];
        assert(!self.barren(p));
        assert(self.node_ok(p));
        if self.has_results(p) {
            lemma_bit_set(node.internal());
            let b: u32 = bit_set(node.internal()).choose();
            assert(bit_set(node.internal()).contains(b)) by {
                assert(bit_set(node.internal()).len() > 0);
            }
            self.lemma_bit_key(p, b)
        } else {
            lemma_bit_set(node.external());
            let b: u32 = bit_set(node.external()).choose();
            assert(bit_set(node.external()).contains(b)) by {
                assert(bit_set(node.external()).len() > 0);
            }
            lemma_node_bits(node, b);
            let d: u8 = (15 - b) as u8;
            assert(node.has_child(d));
            self.lemma_descend(p, d);
            let k: Prefix = self.lemma_leads_to_key(p.push(d));
            lemma_path_push(k.0, p.len());
            assert(path_of(k.0, p.len()) =~= path_of(k.0, p.len() + 1).drop_last());
            assert(p.push(d).drop_last() =~= p);
            k
        }
    }

    /// The root has a child for a digit exactly if a prefix of four bits or more
    /// starts with it.
    proof fn lemma_root_child(self, d: u8)
        requires
            self.wf(),
            self.fruitful(),
        ensures
            self.nodes[Seq::empty()].has_child(d) == top_digits(self.contents()).contains(d),
    {
        let top: Path = Seq::empty();
        let m: Map<Prefix, T> = self.contents();
        if self.nodes[top].has_child(d) {
            self.lemma_descend(top, d);
            let k: Prefix = self.lemma_leads_to_key(top.push(d));
            assert(path_of(k.0, 1)[0] == top.push(d)[0]);
            assert(m.contains_key(k) && k.1 >= 4 && nibble(k.0, 0) == d);
        }
        if top_digits(m).contains(d) {
            let k: Prefix = choose|k: Prefix| #[trigger]
                m.contains_key(k) && k.1 >= 4 && nibble(k.0, 0) == d;
            self.lemma_entry_depth(k.0, k.1);
            assert(path_of(k.0, 0) =~= top);
            assert(self.entry_depth(k.0, k.1) >= 1);
            if !self.nodes.contains_key(top.push(d)) {
                self.lemma_no_descendants(top, k.0, 0, self.entry_depth(k.0, k.1));
            }
        }
    }

    /// The root is a normal node, its results count the prefixes of at most three
    /// bits, and its children the first digits of the longer ones.
    pub proof fn lemma_root_shape(self)
        requires
            self.wf(),
            self.fruitful(),
        ensures
            !self.nodes[Seq::empty()].is_endnode(),
            short_keys(self.contents()).finite(),
            ones(self.nodes[Seq::empty()].internal()) == short_keys(self.contents()).len(),
            top_digits(self.contents()).finite(),
            ones(self.nodes[Seq::empty()].external()) == top_digits(self.contents()).len(),
    {
        let top: Path = Seq::empty();
        let root: TrieNode = self.nodes[top];
        let m: Map<Prefix, T> = self.contents();
        let marked: Set<u32> = bit_set(root.internal());
        let at = |k: Prefix| self.entry_bit(k.0, k.1);
        let key = |b: u32| choose|k: Prefix| #[trigger] short_keys(m).contains(k) && at(k) == b;
        lemma_bit_set(root.internal());
        assert forall|b: u32| #[trigger] marked.contains(b) implies short_keys(m).contains(key(b))
            && at(key(b)) == b by {
            let k: Prefix = self.lemma_bit_key(top, b);
            lemma_node_bits(root, b);
            assert(short_keys(m).contains(k) && at(k) == b);
        }
        assert forall|k: Prefix| #[trigger] short_keys(m).contains(k) implies marked.contains(at(k))
            && key(at(k)) == k by {
            self.lemma_entry_depth(k.0, k.1);
            assert(path_of(k.0, 0) =~= top);
            let j: Prefix = key(at(k));
            assert(short_keys(m).contains(j) && at(j) == at(k));
            assert(path_of(j.0, 0) =~= top);
            self.lemma_entry_unique(j.0, j.1, k.0, k.1);
        }
        assert(injective_on(key, marked));
        assert(marked.map(key) =~= short_keys(m));
        lemma_map_size(marked, short_keys(m), key);

        let children: Set<u32> = bit_set(root.external());
        let digit = |b: u32| (15 - b) as u8;
        lemma_bit_set(root.external());
        assert forall|b: u32| #[trigger] children.contains(b) implies b < 16 && top_digits(
            m,
        ).contains(digit(b)) by {
            lemma_node_bits(root, b);
            self.lemma_root_child(digit(b));
        }
        assert forall|d: u8| #[trigger] top_digits(m).contains(d) implies d < 16
            && children.contains(position(d, 4)) && digit(position(d, 4)) == d by {
            self.lemma_root_child(d);
        }
        assert(injective_on(digit, children));
        assert(children.map(digit) =~= top_digits(m));
        lemma_map_size(children, top_digits(m), digit);
    }
}

/// The root marks a prefix of at most three bits exactly if the table holds it: at
/// the place that the prefix has among the shorter ones and those of its length.
pub proof fn law_root_marks_short_prefixes<T>(table: TreeBitmap<T>, k: Prefix)
    requires
        table.wf(),
        k.1 <= 3,
        k.0 as nat % pow2((32 - k.1) as nat) == 0,
    ensures
        table@.contains_key(k) <==> (table.nodes@[Seq::empty()].internal() as nat / pow2(
            (32 - pow2(k.1 as nat) - k.0 as nat / pow2((32 - k.1) as nat)) as nat,
        )) % 2 == 1,
{
    let s: TrieState<T> = table.state();
    let n: u8 = nibble(k.0, 0);
    let d: nat = (4 - k.1) as nat;
    law_prefixes_are_multiples(k.0, k.1);
    assert(path_of(k.0, 0) =~= Seq::empty());
    assert(s.entry_bit(k.0, k.1) == position(n, k.1));
    law_digits_are_base_sixteen(k.0, 0);
    lemma2_to64();
    assert(n == k.0 as nat / 0x1000_0000);
    lemma_pow2_adds(28, d);
    lemma_pow2_pos(d);
    lemma_div_denominator(k.0 as int, 0x1000_0000, pow2(d) as int);
    assert(n as nat / pow2(d) == k.0 as nat / pow2((32 - k.1) as nat));
    law_positions(n, k.1);
    law_bits_are_binary_digits(table.nodes@[Seq::empty()].internal(), position(n, k.1));
}

/// The root has a child for a first digit exactly if a prefix of four bits or more
/// in the table starts with it.
pub proof fn law_root_leads_to_longer_prefixes<T>(table: TreeBitmap<T>, d: u8)
    requires
        table.wf(),
        d < 16,
    ensures
        (table.nodes@[Seq::empty()].external() as nat / pow2((15 - d) as nat)) % 2 == 1 <==> (
        exists|k: Prefix| #[trigger]
            table@.contains_key(k) && k.1 >= 4 && k.0 as nat / 0x1000_0000 == d),
{
    let m: Map<Prefix, T> = table@;
    table.state().lemma_root_child(d);
    law_children_in_order(table.nodes@[Seq::empty()], d);
    lemma2_to64();
    assert forall|k: Prefix| #[trigger] m.contains_key(k) implies nibble(k.0, 0) == k.0 as nat
        / 0x1000_0000 by {
        law_digits_are_base_sixteen(k.0, 0);
    }
}

/// The root has as many results as the table has prefixes of at most three bits.
pub proof fn law_root_counts_short_prefixes<T>(table: TreeBitmap<T>)
    requires
        table.wf(),
    ensures
        Set::new(|k: Prefix| table@.contains_key(k) && k.1 <= 3).finite(),
        Set::new(|k: Prefix| table@.contains_key(k) && k.1 <= 3).len() == Set::new(
            |i: u32|
                i < 32 && (table.nodes@[Seq::empty()].internal() as nat / pow2(i as nat)) % 2 == 1,
        ).len(),
{
    let bits: u32 = table.nodes@[Seq::empty()].internal();
    table.state().lemma_root_shape();
    law_ones_are_counted(bits, 0);
    assert(short_keys(table@) =~= Set::new(|k: Prefix| table@.contains_key(k) && k.1 <= 3));
    assert(Set::new(|k: u32| k < 32 && (bits as nat / pow2(k as nat)) % 2 == 1) =~= Set::new(
        |i: u32|
            i < 32 && (table.nodes@[Seq::empty()].internal() as nat / pow2(i as nat)) % 2 == 1,
    ));
}

} // verus!
