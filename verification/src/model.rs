//! What the nodes and the stored collections mean: each node of the trie is
//! named by the digits that lead to it, and each prefix has one place where its
//! value is stored.

use vstd::prelude::*;
use crate::allocator::{AllocatorHandle, Key};
use crate::bits::{
    has_bit, lemma_halves, lemma_has_bit_or, lemma_ones_from_mono, lemma_ones_from_set,
    lemma_ones_zero, lemma_rank_bound, lemma_rank_decreasing, lemma_rank_injective,
    lemma_zero_has_no_bit, ones, rank,
};
use crate::nibbles::{
    lemma_network_path, lemma_nibble_bound, lemma_path_push, nibble, nibble_head, path_of,
};
use crate::prefix::{is_prefix, lemma_network_shorter, network, Prefix};
use crate::trie::{
    lemma_has_bit_and, lemma_make_normal, lemma_mark_child, lemma_mark_result, lemma_match_mask,
    position, END_BIT_MASK, MATCH_MASKS, TrieNode,
};

verus! {

/// The digits that lead from the root to a node.
pub type Path = Seq<u8>;

/// The nodes of a trie by their paths, and the collections of nodes and of
/// results that are stored.
pub struct TrieState<T> {
    pub nodes: Map<Path, TrieNode>,
    pub trie: Map<Key, Seq<TrieNode>>,
    pub results: Map<Key, Seq<T>>,
}

/// Where the collection that holds the root is stored.
pub open spec fn root_key() -> Key {
    (0, 0)
}

impl<T> TrieState<T> {
    /// There is a node at `p`, and it has results.
    pub open spec fn has_results(self, p: Path) -> bool {
        self.nodes.contains_key(p) && ones(self.nodes[p].internal()) > 0
    }

    /// There is a node at `p`, and it has children.
    pub open spec fn has_children(self, p: Path) -> bool {
        self.nodes.contains_key(p) && ones(self.nodes[p].external()) > 0
    }

    /// Where the results of the node at `p` are stored.
    pub open spec fn result_key(self, p: Path) -> Key {
        self.nodes[p].result_handle().key()
    }

    /// Where the children of the node at `p` are stored.
    pub open spec fn child_key(self, p: Path) -> Key {
        self.nodes[p].child_handle().key()
    }

    /// The node at `p` is stored with its results and its children.
    pub open spec fn node_ok(self, p: Path) -> bool {
        let node = self.nodes[p];
        &&& p.len() <= 8
        &&& node.is_endnode() ==> node.child_ptr == 0
        &&& p.len() == 8 ==> node.external() == 0 && forall|k: u32|
            k < 31 ==> !has_bit(node.internal(), k)
        &&& self.has_results(p) ==> {
            &&& self.results.contains_key(self.result_key(p))
            &&& self.results[self.result_key(p)].len() == ones(node.internal())
        }
        &&& self.has_children(p) ==> {
            &&& self.trie.contains_key(self.child_key(p))
            &&& self.trie[self.child_key(p)].len() == ones(node.external())
            &&& self.child_key(p) != root_key()
        }
        &&& forall|d: u8| #[trigger]
            node.has_child(d) ==> self.trie[self.child_key(p)][node.child_index(d)]
                == self.nodes[p.push(d)]
    }

    /// The trie is in order: each node is stored with its results and children,
    /// there is a node for a path exactly if its parent has a child for the last
    /// digit, no two nodes share a collection, and the root is a normal node.
    pub open spec fn wf(self) -> bool {
        &&& self.nodes.contains_key(Seq::empty())
        &&& !self.nodes[Seq::empty()].is_endnode()
        &&& self.trie.contains_key(root_key())
        &&& self.trie[root_key()] == seq![self.nodes[Seq::empty()]]
        &&& forall|p: Path| #[trigger] self.nodes.contains_key(p) ==> self.node_ok(p)
        &&& forall|p: Path, d: u8| #[trigger]
            self.nodes.contains_key(p.push(d)) <==> self.nodes.contains_key(p)
                && self.nodes[p].has_child(d)
        &&& forall|p: Path, q: Path|
            #![trigger self.has_results(p), self.has_results(q)]
            self.has_results(p) && self.has_results(q) && p != q ==> self.result_key(p)
                != self.result_key(q)
        &&& forall|p: Path, q: Path|
            #![trigger self.has_children(p), self.has_children(q)]
            self.has_children(p) && self.has_children(q) && p != q ==> self.child_key(p)
                != self.child_key(q)
    }

    /// The node at `p` is not the root, and has neither results nor children.
    pub open spec fn barren(self, p: Path) -> bool {
        self.nodes.contains_key(p) && p.len() > 0 && !self.has_results(p) && !self.has_children(p)
    }

    /// Below the root every node has results or children.
    pub open spec fn fruitful(self) -> bool {
        forall|p: Path| !#[trigger] self.barren(p)
    }

    /// The collection in which the node at `p` stands.
    pub open spec fn place_key(self, p: Path) -> Key {
        if p.len() == 0 {
            root_key()
        } else {
            self.child_key(p.drop_last())
        }
    }

    /// The index at which the node at `p` stands in its collection.
    pub open spec fn place_index(self, p: Path) -> int {
        if p.len() == 0 {
            0
        } else {
            self.nodes[p.drop_last()].child_index(p.last())
        }
    }

    /// The node at `p` stands at `index` of the collection of `hdl`.
    pub open spec fn at(self, p: Path, hdl: AllocatorHandle, index: u32) -> bool {
        &&& self.nodes.contains_key(p)
        &&& hdl.key() == self.place_key(p)
        &&& hdl.len == self.trie[self.place_key(p)].len()
        &&& index == self.place_index(p)
    }

    /// A prefix that fills its last digit is stored in the node of that digit if
    /// it is an end node, and in the node below otherwise.
    pub open spec fn ends_early(self, ip: u32, len: u32) -> bool {
        &&& 0 < len
        &&& len % 4 == 0
        &&& self.nodes.contains_key(path_of(ip, (len / 4 - 1) as nat))
        &&& self.nodes[path_of(ip, (len / 4 - 1) as nat)].is_endnode()
    }

    /// How many digits lead to the node that stores the first `len` bits of `ip`.
    pub open spec fn entry_depth(self, ip: u32, len: u32) -> nat {
        if self.ends_early(ip, len) {
            (len / 4 - 1) as nat
        } else {
            (len / 4) as nat
        }
    }

    /// The node that stores the first `len` bits of `ip`.
    pub open spec fn entry_path(self, ip: u32, len: u32) -> Path {
        path_of(ip, self.entry_depth(ip, len))
    }

    /// The bit for the first `len` bits of `ip` in that node.
    pub open spec fn entry_bit(self, ip: u32, len: u32) -> u32 {
        let depth = self.entry_depth(ip, len);
        position(nibble(ip, depth as int), (len - 4 * depth) as u32)
    }

    /// What bit `b` of the node at `p` marks.
    pub open spec fn stored(self, p: Path, b: u32) -> Option<T> {
        if self.nodes.contains_key(p) && has_bit(self.nodes[p].internal(), b) {
            Some(self.results[self.result_key(p)][rank(self.nodes[p].internal(), b) as int])
        } else {
            None
        }
    }

    /// The value that is stored for the first `len` bits of `ip`.
    pub open spec fn lookup(self, ip: u32, len: u32) -> Option<T> {
        self.stored(self.entry_path(ip, len), self.entry_bit(ip, len))
    }

    /// The prefixes for which a value is stored, and their values.
    pub open spec fn contents(self) -> Map<Prefix, T> {
        Map::new(
            |k: Prefix| is_prefix(k.0, k.1) && self.lookup(k.0, k.1) is Some,
            |k: Prefix| self.lookup(k.0, k.1)->0,
        )
    }

    /// The same value is stored for every prefix.
    pub open spec fn same_lookups(self, other: Self) -> bool {
        forall|ip: u32, len: u32|
            len <= 32 ==> #[trigger] self.lookup(ip, len) == other.lookup(ip, len)
    }

    /// The same node and bit store the value for every prefix.
    pub open spec fn same_entries(self, other: Self) -> bool {
        forall|ip: u32, len: u32|
            #![trigger self.lookup(ip, len)]
            #![trigger other.lookup(ip, len)]
            self.entry_path(ip, len) == other.entry_path(ip, len) && self.entry_bit(ip, len)
                == other.entry_bit(ip, len)
    }

    /// The results of the node at `p`.
    pub open spec fn results_of(self, p: Path) -> Seq<T> {
        if self.has_results(p) {
            self.results[self.result_key(p)]
        } else {
            Seq::empty()
        }
    }

    /// The results of the node at `p` once bit `b` marks `value`.
    pub open spec fn results_with(self, p: Path, b: u32, value: T) -> Seq<T> {
        let bits = self.nodes[p].internal();
        if has_bit(bits, b) {
            self.results_of(p).update(rank(bits, b) as int, value)
        } else {
            self.results_of(p).insert(rank(bits, b) as int, value)
        }
    }

    /// The children of the node at `p`.
    pub open spec fn children_of(self, p: Path) -> Seq<TrieNode> {
        if self.has_children(p) {
            self.trie[self.child_key(p)]
        } else {
            Seq::empty()
        }
    }

    /// Every node but the root has its parent in the trie.
    pub proof fn lemma_parent(self, p: Path)
        requires
            self.wf(),
            self.nodes.contains_key(p),
            p.len() > 0,
        ensures
            self.nodes.contains_key(p.drop_last()),
            self.nodes[p.drop_last()].has_child(p.last()),
            self.has_children(p.drop_last()),
            p == p.drop_last().push(p.last()),
    {
        let q: Path = p.drop_last();
        assert(p =~= q.push(p.last()));
        assert(self.nodes.contains_key(q.push(p.last())));
        lemma_rank_bound(self.nodes[q].external(), position(p.last(), 4));
    }

    /// The node at `p` is what stands at its place.
    pub proof fn lemma_place(self, p: Path)
        requires
            self.wf(),
            self.nodes.contains_key(p),
        ensures
            self.trie.contains_key(self.place_key(p)),
            0 <= self.place_index(p) < self.trie[self.place_key(p)].len() <= 32,
            self.trie[self.place_key(p)][self.place_index(p)] == self.nodes[p],
            p.len() > 0 ==> self.trie[self.place_key(p)].len()
                == self.nodes[p.drop_last()].child_count(),
    {
        if p.len() > 0 {
            let q: Path = p.drop_last();
            self.lemma_parent(p);
            lemma_rank_bound(self.nodes[q].external(), position(p.last(), 4));
            assert(self.node_ok(q));
        } else {
            assert(p =~= Seq::empty());
        }
    }

    /// No two nodes stand at the same place.
    pub proof fn lemma_place_injective(self, p: Path, q: Path)
        requires
            self.wf(),
            self.nodes.contains_key(p),
            self.nodes.contains_key(q),
            self.place_key(p) == self.place_key(q),
            self.place_index(p) == self.place_index(q),
        ensures
            p == q,
    {
        if p.len() > 0 {
            self.lemma_parent(p);
            assert(self.node_ok(p.drop_last()));
        }
        if q.len() > 0 {
            self.lemma_parent(q);
            assert(self.node_ok(q.drop_last()));
        }
        if p.len() == 0 || q.len() == 0 {
            assert(p.len() == 0 && q.len() == 0);
            assert(p =~= q);
        } else {
            assert(self.has_children(p.drop_last()) && self.has_children(q.drop_last()));
            assert(p.drop_last() == q.drop_last());
            let ext: u32 = self.nodes[p.drop_last()].external();
            lemma_rank_injective(ext, position(p.last(), 4), position(q.last(), 4));
        }
    }

    /// The way to a child of the node at `p`.
    pub proof fn lemma_descend(self, p: Path, d: u8)
        requires
            self.wf(),
            self.nodes.contains_key(p),
            self.nodes[p].has_child(d),
        ensures
            self.at(
                p.push(d),
                self.nodes[p].child_handle(),
                self.nodes[p].child_index(d) as u32,
            ),
            p.len() < 8,
            !self.nodes[p].is_endnode(),
            self.has_children(p),
    {
        let q: Path = p.push(d);
        let b: u32 = position(d, 4);
        assert(self.nodes.contains_key(p.push(d)));
        assert(q.drop_last() =~= p);
        assert(q.last() == d);
        self.lemma_place(q);
        lemma_rank_bound(self.nodes[p].external(), b);
        assert(self.node_ok(p));
        assert(self.node_ok(q));
        lemma_zero_has_no_bit(b);
    }

    /// The depth and the bit at which a prefix is stored fit its length.
    pub proof fn lemma_entry_depth(self, ip: u32, len: u32)
        requires
            len <= 32,
        ensures
            4 * self.entry_depth(ip, len) <= len <= 4 * self.entry_depth(ip, len) + 4,
            self.entry_depth(ip, len) <= 8,
            self.entry_path(ip, len).len() == self.entry_depth(ip, len),
            self.entry_bit(ip, len) < 32,
            self.entry_bit(ip, len) != 16,
            self.entry_bit(ip, len) < 16 <==> len == 4 * self.entry_depth(ip, len) + 4,
            self.entry_bit(ip, len) == 31 <==> len == 4 * self.entry_depth(ip, len),
    {
        lemma_nibble_bound(ip, self.entry_depth(ip, len) as int);
    }

    /// The node at depth `i` on the way of `ip` stores the first `len` bits of
    /// `ip` if they end in its digit, short of the end or in an end node.
    pub proof fn lemma_final_node(self, ip: u32, len: u32, i: nat)
        requires
            self.wf(),
            self.nodes.contains_key(path_of(ip, i)),
            4 * i <= len <= 32,
            len <= 4 * i + 3 || self.nodes[path_of(ip, i)].is_endnode() && len == 4 * i + 4,
        ensures
            self.entry_depth(ip, len) == i,
            self.entry_path(ip, len) == path_of(ip, i),
            self.entry_bit(ip, len) == position(nibble(ip, i as int), (len - 4 * i) as u32),
    {
        if len == 4 * i && i > 0 {
            let p: Path = path_of(ip, i);
            let up: Path = path_of(ip, (i - 1) as nat);
            lemma_path_push(ip, (i - 1) as nat);
            assert(p.drop_last() =~= up);
            self.lemma_parent(p);
            self.lemma_descend(up, p.last());
        }
    }

    /// Nothing is stored for the prefixes of `ip` beyond a node that has no child
    /// for the next digit.
    pub proof fn lemma_dead_end(self, ip: u32, i: nat, len: u32)
        requires
            self.wf(),
            self.nodes.contains_key(path_of(ip, i)),
            !self.nodes[path_of(ip, i)].has_child(nibble(ip, i as int)),
            len <= 32,
            len > 4 * i + 4 || !self.nodes[path_of(ip, i)].is_endnode() && len == 4 * i + 4,
        ensures
            self.lookup(ip, len) is None,
    {
        let p: Path = path_of(ip, i);
        let d: u8 = nibble(ip, i as int);
        self.lemma_entry_depth(ip, len);
        assert(!self.nodes.contains_key(p.push(d)));
        self.lemma_no_descendants(p, ip, i, self.entry_depth(ip, len));
    }

    /// Reading off a node which prefixes of `ip` it stores.
    pub proof fn lemma_node_match(self, ip: u32, i: nat, r: u32)
        requires
            self.wf(),
            self.nodes.contains_key(path_of(ip, i)),
            r <= 3 || r == 4 && self.nodes[path_of(ip, i)].is_endnode(),
            4 * i + r <= 32,
        ensures
            ({
                let p = path_of(ip, i);
                let n = nibble(ip, i as int);
                let bits = self.nodes[p].internal();
                let b = position(n, r);
                &&& b < 32
                &&& has_bit(bits & MATCH_MASKS[n as int], b) == has_bit(bits, b)
                &&& self.lookup(ip, (4 * i + r) as u32) == (if has_bit(bits, b) {
                    Some(self.results[self.result_key(p)][rank(bits, b) as int])
                } else {
                    None
                })
                &&& has_bit(bits, b) ==> {
                    &&& self.results.contains_key(self.result_key(p))
                    &&& self.results[self.result_key(p)].len() == self.nodes[p].result_count()
                    &&& rank(bits, b) < self.nodes[p].result_count()
                }
            }),
    {
        let p: Path = path_of(ip, i);
        let n: u8 = nibble(ip, i as int);
        let bits: u32 = self.nodes[p].internal();
        let b: u32 = position(n, r);
        lemma_nibble_bound(ip, i as int);
        self.lemma_final_node(ip, (4 * i + r) as u32, i);
        lemma_has_bit_and(bits, MATCH_MASKS[n as int], b);
        lemma_match_mask(n, b);
        lemma_rank_bound(bits, b);
        assert(self.node_ok(p));
    }

    /// Where a value is stored depends on the prefix alone.
    pub proof fn lemma_entry_network(self, a: u32, b: u32, len: u32)
        requires
            len <= 32,
            network(a, len) == network(b, len),
        ensures
            self.entry_path(a, len) == self.entry_path(b, len),
            self.entry_bit(a, len) == self.entry_bit(b, len),
            self.lookup(a, len) == self.lookup(b, len),
    {
        let k: u32 = len / 4;
        let r: u32 = len % 4;
        lemma_network_path(a, b, k, r);
        lemma_nibble_bound(a, k as int);
        lemma_nibble_bound(b, k as int);
        if k > 0 {
            let j: u32 = (k - 1) as u32;
            lemma_network_shorter(a, b, len, (4 * k) as u32);
            lemma_network_path(a, b, j, 4);
        }
    }

    /// Different prefixes are stored at different places.
    pub proof fn lemma_entry_unique(self, a: u32, la: u32, b: u32, lb: u32)
        requires
            la <= 32,
            lb <= 32,
            self.entry_path(a, la) == self.entry_path(b, lb),
            self.entry_bit(a, la) == self.entry_bit(b, lb),
        ensures
            la == lb,
            network(a, la) == network(b, lb),
    {
        self.lemma_entry_depth(a, la);
        self.lemma_entry_depth(b, lb);
        let k: u32 = self.entry_depth(a, la) as u32;
        let na: u8 = nibble(a, k as int);
        let nb: u8 = nibble(b, k as int);
        lemma_nibble_bound(a, k as int);
        lemma_nibble_bound(b, k as int);
        assert(k == self.entry_depth(b, lb));
        assert(la == lb);
        let r: u32 = (la - 4 * k) as u32;
        assert(nibble_head(na, r) == nibble_head(nb, r));
        lemma_network_path(a, b, k, r);
    }

    /// Nodes end where no digit leads on.
    pub proof fn lemma_no_descendants(self, p: Path, ip: u32, k: nat, j: nat)
        requires
            self.wf(),
            p == path_of(ip, k),
            k < j,
            !self.nodes.contains_key(p.push(nibble(ip, k as int))),
        ensures
            !self.nodes.contains_key(path_of(ip, j)),
        decreases j,
    {
        lemma_path_push(ip, (j - 1) as nat);
        if k + 1 < j {
            self.lemma_no_descendants(p, ip, k, (j - 1) as nat);
        }
    }

    /// Storing a value at bit `b` of the node at `p`.
    pub proof fn lemma_store(self, t: Self, p: Path, b: u32, node: TrieNode, value: T)
        requires
            self.wf(),
            self.nodes.contains_key(p),
            b < 32,
            b != 16,
            b > 16 || self.nodes[p].is_endnode(),
            p.len() == 8 ==> b == 31,
            node.bitmap == self.nodes[p].bitmap | (1u32 << b),
            node.child_ptr == self.nodes[p].child_ptr,
            t.nodes == self.nodes.insert(p, node),
            t.trie == self.trie.insert(
                self.place_key(p),
                self.trie[self.place_key(p)].update(self.place_index(p), node),
            ),
            t.results.contains_key(node.result_handle().key()),
            t.results[node.result_handle().key()] == self.results_with(p, b, value),
            forall|q: Path| #[trigger]
                self.has_results(q) && q != p ==> {
                    &&& node.result_handle().key() != self.result_key(q)
                    &&& t.results.contains_key(self.result_key(q))
                    &&& t.results[self.result_key(q)] == self.results[self.result_key(q)]
                },
        ensures
            t.wf(),
            self.same_entries(t),
            t.stored(p, b) == Some(value),
            forall|q: Path, c: u32|
                c < 32 && (q != p || c != b) ==> #[trigger] t.stored(q, c) == self.stored(q, c),
            forall|q: Path| #[trigger] t.barren(q) ==> self.barren(q) && q != p,
    {
        let old_node: TrieNode = self.nodes[p];
        lemma_mark_result(old_node, b);
        assert(node.internal() == old_node.internal() | (1u32 << b));
        assert(node.external() == old_node.external());
        assert(node.is_endnode() == old_node.is_endnode());
        assert forall|d: u8| #[trigger] node.has_child(d) == old_node.has_child(d) by {}
        let bits: u32 = old_node.internal();
        lemma_rank_bound(bits, b);
        lemma_rank_bound(node.internal(), b);
        lemma_has_bit_or(bits, b, b);
        if !has_bit(bits, b) {
            lemma_ones_from_set(bits, b, 0);
            lemma_ones_from_set(bits, b, (b + 1) as u32);
        }
        assert(self.node_ok(p));
        self.lemma_place(p);
        assert(t.results[t.result_key(p)].len() == ones(node.internal()));
        assert forall|q: Path| #[trigger] t.has_results(q) && q != p implies self.has_results(q)
            && t.result_key(q) == self.result_key(q) by {}
        assert forall|q: Path| #[trigger] t.has_children(q) == self.has_children(q) by {}
        assert forall|q: Path| self.nodes.contains_key(q) implies #[trigger] t.child_key(q)
            == self.child_key(q) by {}
        assert(t.trie[root_key()] == seq![t.nodes[Seq::empty()]]) by {
            if p.len() == 0 {
                assert(p =~= Seq::empty());
                assert(t.trie[root_key()] =~= seq![node]);
            } else {
                self.lemma_parent(p);
                assert(self.node_ok(p.drop_last()));
            }
        }
        assert forall|q: Path| #[trigger] t.nodes.contains_key(q) implies t.node_ok(q) by {
            assert(self.nodes.contains_key(q));
            assert(self.node_ok(q));
            if q == p && p.len() == 8 {
                assert forall|k: u32| k < 31 implies !has_bit(node.internal(), k) by {
                    lemma_has_bit_or(bits, b, k);
                }
            }
            if q != p && t.has_results(q) {
                assert(self.has_results(q));
            }
            assert forall|d: u8| #[trigger] t.nodes[q].has_child(d) implies t.trie[t.child_key(
                q,
            )][t.nodes[q].child_index(d)] == t.nodes[q.push(d)] by {
                assert(self.nodes[q].has_child(d));
                let c: Path = q.push(d);
                assert(self.nodes.contains_key(q.push(d)));
                assert(c.drop_last() =~= q);
                assert(c.last() == d);
                self.lemma_place(c);
                if c != p && self.place_key(c) == self.place_key(p) && self.place_index(c)
                    == self.place_index(p) {
                    self.lemma_place_injective(c, p);
                }
            }
        }
        assert forall|q: Path, d: u8| #[trigger] t.nodes.contains_key(q.push(d)) <==> (
        t.nodes.contains_key(q) && t.nodes[q].has_child(d)) by {
            assert(self.nodes.contains_key(q.push(d)) <==> self.nodes.contains_key(q)
                && self.nodes[q].has_child(d));
        }
        assert forall|ip: u32, len: u32|
            t.ends_early(ip, len) == #[trigger] self.ends_early(ip, len) by {}
        assert forall|q: Path, c: u32|
            c < 32 && (q != p || c != b) implies #[trigger] t.stored(q, c) == self.stored(q, c) by {
            if q == p {
                lemma_has_bit_or(bits, b, c);
                lemma_rank_bound(bits, c);
                if has_bit(bits, c) {
                    if has_bit(bits, b) {
                        if rank(bits, b) == rank(bits, c) {
                            lemma_rank_injective(bits, b, c);
                        }
                    } else {
                        lemma_ones_from_set(bits, b, (c + 1) as u32);
                        if c < b {
                            lemma_ones_from_mono(bits, (c + 1) as u32, b);
                        } else {
                            lemma_rank_decreasing(bits, b, c);
                        }
                    }
                }
            } else if self.nodes.contains_key(q) && has_bit(self.nodes[q].internal(), c) {
                lemma_rank_bound(self.nodes[q].internal(), c);
                assert(self.has_results(q));
            }
        }
    }

    /// Adding an empty end node below the node at `p`.
    pub proof fn lemma_branch(self, t: Self, p: Path, d: u8, node: TrieNode, child: TrieNode)
        requires
            self.wf(),
            self.nodes.contains_key(p),
            p.len() < 8,
            d < 16,
            !self.nodes[p].is_endnode(),
            !self.nodes[p].has_child(d),
            node.bitmap == self.nodes[p].bitmap | (1u32 << position(d, 4)),
            node.result_ptr == self.nodes[p].result_ptr,
            child.is_endnode(),
            child.internal() == 0,
            child.child_ptr == 0,
            t.nodes == self.nodes.insert(p, node).insert(p.push(d), child),
            t.results == self.results,
            self.has_children(p) && node.child_handle().key() == self.child_key(p)
                || !self.trie.contains_key(node.child_handle().key()),
            t.trie.contains_key(node.child_handle().key()),
            t.trie[node.child_handle().key()] == self.children_of(p).insert(
                self.nodes[p].child_index(d),
                child,
            ),
            t.trie.contains_key(self.place_key(p)),
            t.trie[self.place_key(p)] == self.trie[self.place_key(p)].update(
                self.place_index(p),
                node,
            ),
            forall|k: Key| #[trigger]
                self.trie.contains_key(k) && k != self.place_key(p) && !(self.has_children(p) && k
                    == self.child_key(p)) ==> t.trie.contains_key(k) && t.trie[k] == self.trie[k],
        ensures
            t.wf(),
            self.same_lookups(t),
            forall|q: Path| #[trigger]
                t.barren(q) ==> q == p.push(d) || self.barren(q) && q != p,
    {
        let old_node: TrieNode = self.nodes[p];
        let pos: u32 = position(d, 4);
        let bits: u32 = old_node.external();
        let c: Path = p.push(d);
        lemma_mark_child(old_node, pos);
        assert(node.internal() == old_node.internal());
        assert(node.external() == bits | (1u32 << pos));
        lemma_ones_from_set(bits, pos, 0);
        lemma_ones_from_set(bits, pos, (pos + 1) as u32);
        lemma_rank_bound(bits, pos);
        lemma_has_bit_or(bits, pos, pos);
        lemma_ones_zero(0);
        assert(!self.nodes.contains_key(c));
        assert(self.node_ok(p));
        self.lemma_place(p);
        assert(c.drop_last() =~= p);
        assert(c != p);
        if p.len() > 0 {
            self.lemma_parent(p);
            assert(self.node_ok(p.drop_last()));
            assert(p.drop_last() != p);
        }
        assert(self.nodes[Seq::empty()].is_endnode() == t.nodes[Seq::empty()].is_endnode()) by {
            assert(c.len() > 0);
        }
        assert(self.has_children(p) ==> self.place_key(p) != self.child_key(p)) by {
            if p.len() > 0 && self.has_children(p) {
                assert(self.has_children(p.drop_last()));
            }
        }
        assert(node.child_handle().key() != root_key());
        assert(t.trie[root_key()] == seq![t.nodes[Seq::empty()]]) by {
            if p.len() == 0 {
                assert(p =~= Seq::empty());
                assert(t.trie[root_key()] =~= seq![node]);
            } else {
                assert(p != Seq::<u8>::empty());
                assert(c != Seq::<u8>::empty());
                assert(self.place_key(p) != root_key());
            }
        }
        assert forall|q: Path| #[trigger] t.has_results(q) == self.has_results(q) by {
            if q == c {
                assert(child.internal() == 0);
            }
        }
        assert forall|q: Path| self.nodes.contains_key(q) implies #[trigger] t.result_key(q)
            == self.result_key(q) by {}
        assert(child.external() == 0);
        assert forall|q: Path| #[trigger] t.has_children(q) && q != p implies self.has_children(q)
            && t.child_key(q) == self.child_key(q) by {}
        assert forall|e: u8| #[trigger] node.has_child(e) == (old_node.has_child(e) || e == d) by {
            if e < 16 {
                lemma_has_bit_or(bits, pos, position(e, 4));
            }
        }
        assert forall|e: u8| !#[trigger] child.has_child(e) by {
            let k: u32 = position(e, 4);
            lemma_zero_has_no_bit(k);
        }
        assert forall|q: Path, e: u8| #[trigger] t.nodes.contains_key(q.push(e)) <==> (
        t.nodes.contains_key(q) && t.nodes[q].has_child(e)) by {
            assert(self.nodes.contains_key(q.push(e)) <==> self.nodes.contains_key(q)
                && self.nodes[q].has_child(e));
            assert(q.push(e).drop_last() =~= q);
            assert(q.push(e).last() == e);
            assert(c.last() == d);
            if q == c {
                assert(!self.nodes.contains_key(c));
            }
            if q.push(e) == p {
                assert(q == p.drop_last());
            }
        }
        assert forall|q: Path| #[trigger] t.nodes.contains_key(q) implies t.node_ok(q) by {
            if q != c {
                assert(self.nodes.contains_key(q));
                assert(self.node_ok(q));
                if q != p && t.has_children(q) {
                    assert(self.has_children(q));
                    assert(self.trie.contains_key(self.child_key(q)));
                }
                assert forall|e: u8| #[trigger] t.nodes[q].has_child(e) implies t.trie[t.child_key(
                    q,
                )][t.nodes[q].child_index(e)] == t.nodes[q.push(e)] by {
                    let x: Path = q.push(e);
                    assert(x.drop_last() =~= q);
                    assert(x.last() == e);
                    if q == p {
                        assert(x != p);
                        let pe: u32 = position(e, 4);
                        if e != d {
                            assert(x != c);
                            lemma_ones_from_set(bits, pos, (pe + 1) as u32);
                            lemma_rank_bound(bits, pe);
                            if pe < pos {
                                lemma_ones_from_mono(bits, (pe + 1) as u32, pos);
                            } else {
                                lemma_rank_decreasing(bits, pos, pe);
                            }
                        } else {
                            assert(x == c);
                        }
                    } else {
                        assert(x != c);
                        assert(self.nodes[q].has_child(e));
                        assert(self.nodes.contains_key(q.push(e)));
                        self.lemma_place(x);
                        lemma_rank_bound(self.nodes[q].external(), position(e, 4));
                        assert(self.has_children(q));
                        if x != p && self.place_key(x) == self.place_key(p) && self.place_index(x)
                            == self.place_index(p) {
                            self.lemma_place_injective(x, p);
                        }
                    }
                }
            } else {
                assert forall|k: u32| k < 31 implies !has_bit(child.internal(), k) by {
                    lemma_zero_has_no_bit(k);
                }
            }
        }
        assert forall|q: Path, r: Path|
            #![trigger t.has_children(q), t.has_children(r)]
            t.has_children(q) && t.has_children(r) && q != r implies t.child_key(q) != t.child_key(
            r,
        ) by {
            if q != p {
                assert(self.has_children(q));
                assert(self.node_ok(q));
            }
            if r != p {
                assert(self.has_children(r));
                assert(self.node_ok(r));
            }
        }
        assert(t.wf());
        assert forall|ip: u32, len: u32| len <= 32 implies #[trigger] self.lookup(ip, len)
            == t.lookup(ip, len) by {
            self.lemma_entry_depth(ip, len);
            t.lemma_entry_depth(ip, len);
            let b: u32 = t.entry_bit(ip, len);
            lemma_zero_has_no_bit(b);
            assert(!has_bit(child.internal(), b));
            if self.ends_early(ip, len) != t.ends_early(ip, len) {
                assert(path_of(ip, (len / 4 - 1) as nat) == c);
                assert(self.entry_path(ip, len) == path_of(ip, (len / 4) as nat));
                assert(t.lookup(ip, len) is None);
                lemma_path_push(ip, (len / 4 - 1) as nat);
                assert(!self.nodes.contains_key(self.entry_path(ip, len)));
            }
        }
    }

    /// The nodes once the end node at `p` is the normal node `node` with the
    /// children `kids`.
    pub open spec fn nodes_split(self, p: Path, node: TrieNode, kids: Seq<TrieNode>) -> Map<
        Path,
        TrieNode,
    > {
        Map::new(
            |q: Path|
                self.nodes.contains_key(q) || q.len() > 0 && q.drop_last() == p && node.has_child(
                    q.last(),
                ),
            |q: Path|
                if q == p {
                    node
                } else if q.len() > 0 && q.drop_last() == p && node.has_child(q.last()) {
                    kids[node.child_index(q.last())]
                } else {
                    self.nodes[q]
                },
        )
    }

    /// In `t` the end node at `p` is split: `node` stands for it, and each result
    /// for four bits has a child of its own, in `kids`.
    pub open spec fn split_into(
        self,
        t: Self,
        p: Path,
        node: TrieNode,
        kids: Seq<TrieNode>,
    ) -> bool {
        &&& self.nodes.contains_key(p)
        &&& p.len() < 8
        &&& self.nodes[p].is_endnode()
        &&& node.bitmap == self.nodes[p].bitmap & END_BIT_MASK
        &&& kids.len() == ones(node.external())
        &&& t.nodes == self.nodes_split(p, node, kids)
        &&& ones(node.internal()) > 0 ==> t.results[node.result_handle().key()] == self.results_of(
            p,
        ).take(ones(node.internal()) as int)
        &&& forall|q: Path| #[trigger]
            self.has_results(q) && q != p ==> t.results[self.result_key(q)]
                == self.results[self.result_key(q)]
        &&& forall|k: int|
            0 <= k < kids.len() ==> {
                &&& (#[trigger] kids[k]).bitmap == 1u32 << 31
                &&& kids[k].child_ptr == 0
                &&& t.results[kids[k].result_handle().key()] == seq![
                    self.results_of(p)[ones(node.internal()) + k],
                ]
            }
    }

    /// Which nodes there are after a split.
    proof fn lemma_split_nodes(self, t: Self, p: Path, node: TrieNode, kids: Seq<TrieNode>)
        requires
            self.wf(),
            self.split_into(t, p, node, kids),
        ensures
            !node.is_endnode(),
            node.internal() == self.nodes[p].internal() & 0xffff_0000,
            node.external() == self.nodes[p].internal() & 0x0000_ffff,
            t.nodes.contains_key(p),
            t.nodes[p] == node,
            forall|q: Path| #[trigger]
                self.nodes.contains_key(q) && q != p ==> t.nodes.contains_key(q) && t.nodes[q]
                    == self.nodes[q],
            forall|d: u8| !self.nodes.contains_key(#[trigger] p.push(d)),
            forall|d: u8|
                t.nodes.contains_key(#[trigger] p.push(d)) == node.has_child(d) && (node.has_child(
                    d,
                ) ==> t.nodes[p.push(d)] == kids[node.child_index(d)] && 0 <= node.child_index(d)
                    < kids.len()),
            forall|q: Path| #[trigger]
                t.nodes.contains_key(q) && !self.nodes.contains_key(q) ==> q.len() > 0
                    && q.drop_last() == p && node.has_child(q.last()) && q == p.push(q.last()),
    {
        let old_node: TrieNode = self.nodes[p];
        lemma_make_normal(old_node);
        assert forall|d: u8| !self.nodes.contains_key(#[trigger] p.push(d)) by {
            let b: u32 = position(d, 4);
            lemma_zero_has_no_bit(b);
            assert(!old_node.has_child(d));
        }
        assert forall|q: Path| #[trigger] self.nodes.contains_key(q) && q != p implies t.nodes[q]
            == self.nodes[q] by {
            if q.len() > 0 && q.drop_last() == p && node.has_child(q.last()) {
                assert(q =~= p.push(q.last()));
                assert(!self.nodes.contains_key(p.push(q.last())));
            }
        }
        assert forall|d: u8|
            t.nodes.contains_key(#[trigger] p.push(d)) == node.has_child(d) && (node.has_child(d)
                ==> t.nodes[p.push(d)] == kids[node.child_index(d)] && 0 <= node.child_index(d)
                < kids.len()) by {
            let q: Path = p.push(d);
            assert(q.drop_last() =~= p);
            assert(q.last() == d);
            assert(q != p);
            if node.has_child(d) {
                lemma_rank_bound(node.external(), position(d, 4));
            }
        }
        assert forall|q: Path| #[trigger] t.nodes.contains_key(q) && !self.nodes.contains_key(
            q,
        ) implies q.len() > 0 && q.drop_last() == p && node.has_child(q.last()) && q == p.push(
            q.last(),
        ) by {
            assert(q =~= q.drop_last().push(q.last()));
        }
    }

    /// A prefix that is stored above or in the node stays where it is.
    proof fn lemma_split_lookup_above(
        self,
        t: Self,
        p: Path,
        node: TrieNode,
        kids: Seq<TrieNode>,
        ip: u32,
        len: u32,
    )
        requires
            self.wf(),
            self.split_into(t, p, node, kids),
            path_of(ip, p.len()) == p,
            len < 4 * p.len() + 4,
        ensures
            self.lookup(ip, len) == t.lookup(ip, len),
    {
        let depth: nat = p.len();
        self.lemma_split_nodes(t, p, node, kids);
        self.lemma_entry_depth(ip, len);
        t.lemma_entry_depth(ip, len);
        let sp: Path = self.entry_path(ip, len);
        let sb: u32 = self.entry_bit(ip, len);
        if len > 0 && len % 4 == 0 {
            let up: Path = path_of(ip, (len / 4 - 1) as nat);
            assert(up.len() < depth);
            assert(up != p);
            if t.nodes.contains_key(up) && !self.nodes.contains_key(up) {
                assert(up.drop_last() == p);
            }
            assert(self.ends_early(ip, len) == t.ends_early(ip, len));
        }
        assert(t.entry_path(ip, len) == sp && t.entry_bit(ip, len) == sb);
        assert(sp.len() <= depth);
        if t.nodes.contains_key(sp) && !self.nodes.contains_key(sp) {
            assert(sp.drop_last() == p);
        }
        if sp == p {
            let bits: u32 = self.nodes[p].internal();
            assert(sb > 16);
            lemma_halves(bits);
            assert(has_bit(bits & 0xffff_0000, sb) == has_bit(bits, sb));
            lemma_rank_bound(bits, sb);
            lemma_rank_bound(node.internal(), sb);
        } else if self.nodes.contains_key(sp) && has_bit(self.nodes[sp].internal(), sb) {
            lemma_rank_bound(self.nodes[sp].internal(), sb);
            assert(self.has_results(sp));
        }
    }

    /// A prefix that fills the digit of the node moves to a child.
    proof fn lemma_split_lookup_child(
        self,
        t: Self,
        p: Path,
        node: TrieNode,
        kids: Seq<TrieNode>,
        ip: u32,
        len: u32,
    )
        requires
            self.wf(),
            self.split_into(t, p, node, kids),
            path_of(ip, p.len()) == p,
            len == 4 * p.len() + 4,
        ensures
            self.lookup(ip, len) == t.lookup(ip, len),
    {
        let depth: nat = p.len();
        let d: u8 = nibble(ip, depth as int);
        self.lemma_split_nodes(t, p, node, kids);
        lemma_nibble_bound(ip, depth as int);
        lemma_path_push(ip, depth);
        let bits: u32 = self.nodes[p].internal();
        let b: u32 = position(d, 4);
        assert(self.ends_early(ip, len));
        assert(!t.ends_early(ip, len));
        assert(self.entry_path(ip, len) == p && self.entry_bit(ip, len) == b);
        assert(t.entry_path(ip, len) == p.push(d) && t.entry_bit(ip, len) == 31);
        lemma_halves(bits);
        assert(has_bit(bits & 0xffff, b) == has_bit(bits, b));
        assert(node.has_child(d) == has_bit(bits, b));
        if node.has_child(d) {
            let k: int = node.child_index(d);
            lemma_kid(kids[k]);
            lemma_rank_bound(bits, b);
            assert(has_bit(kids[k].internal(), 31));
            assert(self.has_results(p));
        } else {
            assert(!t.nodes.contains_key(p.push(d)));
        }
    }

    /// Nothing is stored below the node, before the split and after.
    proof fn lemma_split_lookup_below(
        self,
        t: Self,
        p: Path,
        node: TrieNode,
        kids: Seq<TrieNode>,
        ip: u32,
        len: u32,
    )
        requires
            self.wf(),
            t.wf(),
            self.split_into(t, p, node, kids),
            path_of(ip, p.len()) == p,
            4 * p.len() + 4 < len <= 32,
        ensures
            self.lookup(ip, len) is None,
            t.lookup(ip, len) is None,
    {
        let depth: nat = p.len();
        let d: u8 = nibble(ip, depth as int);
        let e: u8 = nibble(ip, depth as int + 1);
        let below: Path = path_of(ip, depth + 1);
        self.lemma_split_nodes(t, p, node, kids);
        self.lemma_entry_depth(ip, len);
        t.lemma_entry_depth(ip, len);
        lemma_path_push(ip, depth);
        assert(!self.nodes.contains_key(p.push(d)));
        self.lemma_no_descendants(p, ip, depth, self.entry_depth(ip, len));
        if t.nodes.contains_key(below) {
            let kid: TrieNode = kids[node.child_index(d)];
            assert(t.nodes[below] == kid);
            lemma_kid(kid);
            assert(!kid.has_child(e)) by {
                let b: u32 = position(e, 4);
                lemma_zero_has_no_bit(b);
            }
            assert(has_bit(kid.internal(), t.entry_bit(ip, len)) == (t.entry_bit(ip, len) == 31));
        }
        assert(!t.nodes.contains_key(below.push(e)));
        if t.entry_depth(ip, len) > depth + 1 {
            t.lemma_no_descendants(below, ip, depth + 1, t.entry_depth(ip, len));
        }
    }

    /// A prefix elsewhere stays where it is.
    proof fn lemma_split_lookup_elsewhere(
        self,
        t: Self,
        p: Path,
        node: TrieNode,
        kids: Seq<TrieNode>,
        ip: u32,
        len: u32,
    )
        requires
            self.wf(),
            self.split_into(t, p, node, kids),
            path_of(ip, p.len()) != p,
            len <= 32,
        ensures
            self.lookup(ip, len) == t.lookup(ip, len),
    {
        self.lemma_split_nodes(t, p, node, kids);
        self.lemma_entry_depth(ip, len);
        let sp: Path = self.entry_path(ip, len);
        let sb: u32 = self.entry_bit(ip, len);
        assert forall|k: nat| {
            &&& #[trigger] path_of(ip, k) != p
            &&& t.nodes.contains_key(path_of(ip, k)) == self.nodes.contains_key(path_of(ip, k))
        } by {
            let q: Path = path_of(ip, k);
            if q.len() > 0 && q.drop_last() == p {
                assert(q.drop_last() =~= path_of(ip, (k - 1) as nat));
            }
        }
        assert(self.ends_early(ip, len) == t.ends_early(ip, len));
        if self.nodes.contains_key(sp) && has_bit(self.nodes[sp].internal(), sb) {
            lemma_rank_bound(self.nodes[sp].internal(), sb);
            assert(self.has_results(sp));
        }
    }

    /// After the split the collections of `node` and of `kids` are stored apart
    /// from all others.
    pub open spec fn split_stored(
        self,
        t: Self,
        p: Path,
        node: TrieNode,
        kids: Seq<TrieNode>,
    ) -> bool {
        &&& kids.len() > 0 ==> {
            &&& !self.trie.contains_key(node.child_handle().key())
            &&& t.trie.contains_key(node.child_handle().key())
            &&& t.trie[node.child_handle().key()] == kids
        }
        &&& t.trie.contains_key(self.place_key(p))
        &&& t.trie[self.place_key(p)] == self.trie[self.place_key(p)].update(
            self.place_index(p),
            node,
        )
        &&& forall|k: Key| #[trigger]
            self.trie.contains_key(k) && k != self.place_key(p) ==> t.trie.contains_key(k)
                && t.trie[k] == self.trie[k]
        &&& ones(node.internal()) > 0 ==> {
            &&& t.results.contains_key(node.result_handle().key())
            &&& forall|q: Path| #[trigger]
                self.has_results(q) && q != p ==> self.result_key(q) != node.result_handle().key()
        }
        &&& forall|q: Path| #[trigger]
            self.has_results(q) && q != p ==> t.results.contains_key(self.result_key(q))
        &&& forall|k: int|
            0 <= k < kids.len() ==> {
                let key = (#[trigger] kids[k]).result_handle().key();
                &&& t.results.contains_key(key)
                &&& key != node.result_handle().key()
                &&& forall|q: Path| #[trigger]
                    self.has_results(q) && q != p ==> self.result_key(q) != key
            }
        &&& forall|j: int, k: int|
            0 <= j < k < kids.len() ==> (#[trigger] kids[j]).result_handle().key() != (
            #[trigger] kids[k]).result_handle().key()
    }

    /// The trie is in order after a split.
    proof fn lemma_split_wf(self, t: Self, p: Path, node: TrieNode, kids: Seq<TrieNode>)
        requires
            self.wf(),
            self.split_into(t, p, node, kids),
            self.split_stored(t, p, node, kids),
        ensures
            t.wf(),
    {
        let old_node: TrieNode = self.nodes[p];
        let bits: u32 = old_node.internal();
        let moved: u32 = node.external();
        self.lemma_split_nodes(t, p, node, kids);
        lemma_halves(bits);
        assert(self.node_ok(p));
        self.lemma_place(p);
        lemma_ones_zero(0);
        assert forall|k: int| 0 <= k < kids.len() implies {
            &&& !(#[trigger] kids[k]).is_endnode()
            &&& kids[k].external() == 0
            &&& ones(kids[k].internal()) == 1
        } by {
            lemma_kid(kids[k]);
        }
        assert(!self.has_children(p));
        assert(self.trie.contains_key(root_key()));
        assert(t.nodes.contains_key(Seq::<u8>::empty()));
        assert(t.trie[root_key()] == seq![t.nodes[Seq::empty()]]) by {
            if p.len() == 0 {
                assert(p =~= Seq::empty());
                assert(t.trie[root_key()] =~= seq![node]);
            } else {
                self.lemma_parent(p);
                assert(self.node_ok(p.drop_last()));
                assert(self.place_key(p) != root_key());
            }
        }
        assert forall|q: Path, e: u8| #[trigger] t.nodes.contains_key(q.push(e)) <==> (
        t.nodes.contains_key(q) && t.nodes[q].has_child(e)) by {
            self.lemma_split_children(t, p, node, kids, q, e);
        }
        assert forall|q: Path| #[trigger] t.nodes.contains_key(q) implies t.node_ok(q) by {
            self.lemma_split_node_ok(t, p, node, kids, q);
        }
        assert forall|q: Path, r: Path|
            #![trigger t.has_children(q), t.has_children(r)]
            t.has_children(q) && t.has_children(r) && q != r implies t.child_key(q) != t.child_key(
            r,
        ) by {
            assert(self.nodes.contains_key(q) && self.nodes.contains_key(r));
            assert(self.node_ok(q) && self.node_ok(r));
            if q != p {
                assert(self.has_children(q));
            }
            if r != p {
                assert(self.has_children(r));
            }
        }
        assert forall|q: Path, r: Path|
            #![trigger t.has_results(q), t.has_results(r)]
            t.has_results(q) && t.has_results(r) && q != r implies t.result_key(q) != t.result_key(
            r,
        ) by {
            if self.nodes.contains_key(q) && q != p {
                assert(self.has_results(q));
            }
            if self.nodes.contains_key(r) && r != p {
                assert(self.has_results(r));
            }
            if !self.nodes.contains_key(q) && !self.nodes.contains_key(r) {
                let j: int = node.child_index(q.last());
                let k: int = node.child_index(r.last());
                if j == k {
                    lemma_rank_injective(moved, position(q.last(), 4), position(r.last(), 4));
                }
                if j < k {
                    assert(kids[j].result_handle().key() != kids[k].result_handle().key());
                }
                if k < j {
                    assert(kids[k].result_handle().key() != kids[j].result_handle().key());
                }
            }
        }
    }

    /// The children of a node after a split are the nodes one digit further.
    proof fn lemma_split_children(
        self,
        t: Self,
        p: Path,
        node: TrieNode,
        kids: Seq<TrieNode>,
        q: Path,
        e: u8,
    )
        requires
            self.wf(),
            self.split_into(t, p, node, kids),
        ensures
            t.nodes.contains_key(q.push(e)) <==> t.nodes.contains_key(q) && t.nodes[q].has_child(e),
    {
        self.lemma_split_nodes(t, p, node, kids);
        assert(self.nodes.contains_key(q.push(e)) <==> self.nodes.contains_key(q)
            && self.nodes[q].has_child(e));
        assert(q.push(e).drop_last() =~= q);
        assert(q.push(e).last() == e);
        if t.nodes.contains_key(q) && !self.nodes.contains_key(q) {
            let kid: TrieNode = kids[node.child_index(q.last())];
            assert(t.nodes[p.push(q.last())] == kid);
            lemma_kid(kid);
            assert(!kid.has_child(e)) by {
                let b: u32 = position(e, 4);
                lemma_zero_has_no_bit(b);
            }
        }
    }

    /// Each node is stored with its results and its children after a split.
    proof fn lemma_split_node_ok(
        self,
        t: Self,
        p: Path,
        node: TrieNode,
        kids: Seq<TrieNode>,
        q: Path,
    )
        requires
            self.wf(),
            self.split_into(t, p, node, kids),
            self.split_stored(t, p, node, kids),
            t.nodes.contains_key(q),
        ensures
            t.node_ok(q),
    {
        let bits: u32 = self.nodes[p].internal();
        self.lemma_split_nodes(t, p, node, kids);
        self.lemma_place(p);
        lemma_halves(bits);
        lemma_ones_zero(0);
        assert(self.node_ok(p));
        if q == p {
            assert(ones(bits) > 0 ==> self.has_results(p));
            assert(self.trie.contains_key(root_key()));
            assert forall|e: u8| #[trigger] node.has_child(e) implies t.trie[t.child_key(
                q,
            )][node.child_index(e)] == t.nodes[q.push(e)] by {
                assert(t.nodes.contains_key(p.push(e)));
            }
        } else if self.nodes.contains_key(q) {
            assert(self.node_ok(q));
            if t.has_results(q) {
                assert(self.has_results(q));
            }
            if t.has_children(q) {
                assert(self.has_children(q));
            }
            assert forall|e: u8| #[trigger] t.nodes[q].has_child(e) implies t.trie[t.child_key(
                q,
            )][t.nodes[q].child_index(e)] == t.nodes[q.push(e)] by {
                let x: Path = q.push(e);
                assert(x.drop_last() =~= q);
                assert(x.last() == e);
                assert(self.nodes.contains_key(q.push(e)));
                self.lemma_place(x);
                lemma_rank_bound(self.nodes[q].external(), position(e, 4));
                assert(self.has_children(q));
                if x != p && self.place_key(x) == self.place_key(p) && self.place_index(x)
                    == self.place_index(p) {
                    self.lemma_place_injective(x, p);
                }
            }
        } else {
            let kid: TrieNode = kids[node.child_index(q.last())];
            assert(t.nodes[p.push(q.last())] == kid);
            lemma_kid(kid);
            assert forall|e: u8| !#[trigger] kid.has_child(e) by {
                let b: u32 = position(e, 4);
                lemma_zero_has_no_bit(b);
            }
            assert forall|k: u32| k < 31 implies !has_bit(kid.internal(), k) by {
                assert(has_bit(kid.internal(), k) == (k == 31));
            }
        }
    }

    /// Making the end node at `p` a normal node, with a child for each result
    /// that stood for four bits.
    pub proof fn lemma_split(self, t: Self, p: Path, node: TrieNode, kids: Seq<TrieNode>)
        requires
            self.wf(),
            self.split_into(t, p, node, kids),
            self.split_stored(t, p, node, kids),
        ensures
            t.wf(),
            self.same_lookups(t),
            forall|hdl: AllocatorHandle, index: u32| self.at(p, hdl, index) ==> t.at(p, hdl, index),
            t.nodes[p] == node,
            !node.is_endnode(),
            forall|q: Path| #[trigger] t.barren(q) ==> self.barren(q),
    {
        self.lemma_split_wf(t, p, node, kids);
        self.lemma_split_nodes(t, p, node, kids);
        assert forall|q: Path| #[trigger] t.barren(q) implies self.barren(q) by {
            if q == p {
                lemma_halves(self.nodes[p].internal());
                lemma_ones_zero(0);
            } else if !self.nodes.contains_key(q) {
                let kid: TrieNode = kids[node.child_index(q.last())];
                assert(t.nodes[p.push(q.last())] == kid);
                lemma_kid(kid);
            }
        }
        if p.len() > 0 {
            self.lemma_parent(p);
            assert(self.nodes.contains_key(p.drop_last()));
        }
        assert forall|ip: u32, len: u32| len <= 32 implies #[trigger] self.lookup(ip, len)
            == t.lookup(ip, len) by {
            if path_of(ip, p.len()) != p {
                self.lemma_split_lookup_elsewhere(t, p, node, kids, ip, len);
            } else if len < 4 * p.len() + 4 {
                self.lemma_split_lookup_above(t, p, node, kids, ip, len);
            } else if len == 4 * p.len() + 4 {
                self.lemma_split_lookup_child(t, p, node, kids, ip, len);
            } else {
                self.lemma_split_lookup_below(t, p, node, kids, ip, len);
            }
        }
    }
}

/// A normal node with a result for the empty prefix alone.
pub proof fn lemma_kid(kid: TrieNode)
    requires
        kid.bitmap == 1u32 << 31,
    ensures
        !kid.is_endnode(),
        kid.external() == 0,
        kid.internal() == 1u32 << 31,
        ones(kid.internal()) == 1,
        rank(kid.internal(), 31) == 0,
        forall|k: u32| k < 32 ==> #[trigger] has_bit(kid.internal(), k) == (k == 31),
{
    assert(((1u32 << 31) >> 16) & 1 == 0) by (bit_vector);
    assert((1u32 << 31) & 0xfffe_0000 == 1u32 << 31) by (bit_vector);
    assert((1u32 << 31) & 0xffff == 0) by (bit_vector);
    assert forall|k: u32| k < 32 implies #[trigger] has_bit(kid.internal(), k) == (k == 31) by {
        lemma_has_bit_or(0, 31, k);
    }
    lemma_ones_zero(0);
    lemma_has_bit_or(0, 31, 31);
    lemma_zero_has_no_bit(31);
    lemma_ones_from_set(0, 31, 0);
    assert(0u32 | (1u32 << 31) == 1u32 << 31) by (bit_vector);
}

} // verus!
