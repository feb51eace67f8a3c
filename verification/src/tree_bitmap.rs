//! The table of prefixes.

use vstd::arithmetic::power2::pow2;
use vstd::prelude::*;
use crate::allocator::{Allocator, AllocatorHandle, Key, SlotUse, BUCKETS, MAX_CAPACITY};
use crate::bits::{
    has_bit, is_lowest, lemma_halves, lemma_has_bit_or, lemma_ones_from_set, lemma_ones_low_half,
    lemma_ones_zero, lemma_rank_bound, lemma_single_bit, lemma_zero_has_no_bit, ones, rank,
};
use crate::ipv4::Ipv4Addr;
use crate::model::{lemma_kid, root_key, Path, TrieState};
use crate::nibbles::{lemma_nibble_bound, lemma_path_push, nibble, nibbles, path_of, STEPS};
use crate::prefix::{
    is_longest_match, is_prefix, lemma_network_network, lemma_network_whole, network, no_match,
    prefix_of, Prefix,
};
use crate::ranges::{
    law_keys_are_runs, law_longest_match_is_smallest_run, law_network_rounds_down,
    law_no_match_is_no_run, lemma_insert_runs,
};
use crate::root::{short_keys, top_digits};
use crate::trie::{
    gen_bitmap, lemma_bit_match, lemma_empty_endnode, lemma_has_bit_and, lemma_make_normal,
    lemma_mark_child, lemma_mark_result, lemma_match_child, lemma_match_mask, lemma_node_bits,
    position, BIT_MATCH, END_BIT_MASK, MATCH_MASKS, MatchResult, TrieNode,
};

verus! {

/// A table that maps prefixes of IPv4 addresses to values.
pub struct TreeBitmap<T> {
    pub trienodes: Allocator<TrieNode>,
    pub results: Allocator<T>,
    pub nodes: Ghost<Map<Path, TrieNode>>,
}

impl<T> View for TreeBitmap<T> {
    type V = Map<Prefix, T>;

    /// The prefixes in the table and their values.
    open spec fn view(&self) -> Map<Prefix, T> {
        self.state().contents()
    }
}

/// The change to the collections of nodes and of results when the results for
/// four bits of the end node `before`, of which there are some, get nodes of
/// their own, and `before` becomes the normal node `after`.
pub open spec fn results_moved<T>(
    trie: Map<Key, Seq<TrieNode>>,
    results: Map<Key, Seq<T>>,
    before: TrieNode,
    new_trie: Map<Key, Seq<TrieNode>>,
    new_results: Map<Key, Seq<T>>,
    after: TrieNode,
) -> bool {
    let children = after.child_handle().key();
    let kids = new_trie[children];
    let stay = ones(after.internal()) as int;
    let values = results[before.result_handle().key()];
    let others = results.remove(before.result_handle().key());
    let rest = after.result_handle().key();
    &&& !trie.contains_key(children)
    &&& new_trie == trie.insert(children, kids)
    &&& kids.len() == ones(after.external())
    &&& forall|k: int|
        0 <= k < kids.len() ==> {
            let kid = #[trigger] kids[k];
            &&& kid.bitmap == 1u32 << 31
            &&& kid.child_ptr == 0
            &&& !others.contains_key(kid.result_handle().key())
            &&& kid.result_handle().key() != rest
            &&& new_results.contains_key(kid.result_handle().key())
            &&& new_results[kid.result_handle().key()] == seq![values[stay + k]]
        }
    &&& forall|j: int, k: int|
        0 <= j < k < kids.len() ==> (#[trigger] kids[j]).result_handle().key() != (
        #[trigger] kids[k]).result_handle().key()
    &&& !others.contains_key(rest)
    &&& new_results.contains_key(rest)
    &&& new_results[rest] == values.take(stay)
    &&& forall|key: Key| #[trigger]
        others.contains_key(key) ==> new_results.contains_key(key) && new_results[key]
            == others[key]
    &&& forall|key: Key| #[trigger]
        new_results.contains_key(key) ==> others.contains_key(key) || key == rest || exists|k: int|
            0 <= k < kids.len() && (#[trigger] kids[k]).result_handle().key() == key
}

/// The change that `push_down` makes: the end node `before` becomes the normal
/// node `after`, and each of its results for four bits moves to a child.
pub open spec fn pushed_down<T>(
    trie: Map<Key, Seq<TrieNode>>,
    results: Map<Key, Seq<T>>,
    before: TrieNode,
    new_trie: Map<Key, Seq<TrieNode>>,
    new_results: Map<Key, Seq<T>>,
    after: TrieNode,
) -> bool {
    &&& after.bitmap == before.bitmap & END_BIT_MASK
    &&& if ones(before.internal() & 0x0000_ffff) > 0 {
        results_moved(trie, results, before, new_trie, new_results, after)
    } else {
        &&& new_trie == trie
        &&& new_results == results
        &&& after.child_ptr == before.child_ptr
        &&& after.result_ptr == before.result_ptr
    }
}

/// A table after `push_down` on the end node at `path`, once the node is saved.
pub open spec fn state_pushed_down<T>(
    state: TrieState<T>,
    path: Path,
    trie: Map<Key, Seq<TrieNode>>,
    results: Map<Key, Seq<T>>,
    node: TrieNode,
) -> TrieState<T> {
    let kids = if ones(node.external()) > 0 {
        trie[node.child_handle().key()]
    } else {
        Seq::empty()
    };
    let place = state.place_key(path);
    TrieState {
        nodes: state.nodes_split(path, node, kids),
        trie: trie.insert(place, trie[place].update(state.place_index(path), node)),
        results,
    }
}

/// Pushing down the results of an end node keeps the trie in order and loses no
/// value: every prefix has the value that it had before.
pub proof fn law_push_down_keeps_values<T>(
    state: TrieState<T>,
    path: Path,
    trie: Map<Key, Seq<TrieNode>>,
    results: Map<Key, Seq<T>>,
    node: TrieNode,
)
    requires
        state.wf(),
        state.nodes.contains_key(path),
        state.nodes[path].is_endnode(),
        path.len() < 8,
        pushed_down(state.trie, state.results, state.nodes[path], trie, results, node),
    ensures
        state_pushed_down(state, path, trie, results, node).wf(),
        state.same_lookups(state_pushed_down(state, path, trie, results, node)),
        state_pushed_down(state, path, trie, results, node).nodes[path] == node,
        !node.is_endnode(),
        forall|q: Path| #[trigger]
            state_pushed_down(state, path, trie, results, node).barren(q) ==> state.barren(q),
        trie.contains_key(state.place_key(path)),
        trie[state.place_key(path)] == state.trie[state.place_key(path)],
        forall|hdl: AllocatorHandle, index: u32|
            state.at(path, hdl, index) ==> state_pushed_down(state, path, trie, results, node).at(
                path,
                hdl,
                index,
            ),
{
    let before: TrieNode = state.nodes[path];
    let t: TrieState<T> = state_pushed_down(state, path, trie, results, node);
    let kids: Seq<TrieNode> = if ones(node.external()) > 0 {
        trie[node.child_handle().key()]
    } else {
        Seq::empty()
    };
    let values: Seq<T> = state.results_of(path);
    state.lemma_place(path);
    assert(state.node_ok(path));
    lemma_halves(before.internal());
    lemma_make_normal(before);
    lemma_rank_bound(before.internal(), 16);
    assert(ones(before.internal()) > 0 ==> state.has_results(path));
    assert(values.take(values.len() as int) =~= values);
    assert forall|q: Path| #[trigger] state.has_results(q) && q != path implies {
        &&& t.results.contains_key(state.result_key(q))
        &&& t.results[state.result_key(q)] == state.results[state.result_key(q)]
        &&& state.has_results(path) ==> state.result_key(q) != state.result_key(path)
    } by {
        assert(state.node_ok(q));
    }
    assert(state.split_into(t, path, node, kids));
    assert(state.split_stored(t, path, node, kids));
    state.lemma_split(t, path, node, kids);
}

/// Pushing down moves each value for four bits to the child for its digit, as the
/// one result of that child and for the whole of it; the other values of the node
/// stay with their marks, and no other collection changes.
pub proof fn law_push_down_moves_values<T>(
    trie: Map<Key, Seq<TrieNode>>,
    results: Map<Key, Seq<T>>,
    before: TrieNode,
    new_trie: Map<Key, Seq<TrieNode>>,
    new_results: Map<Key, Seq<T>>,
    after: TrieNode,
    d: u8,
    b: u32,
    key: Key,
)
    requires
        pushed_down(trie, results, before, new_trie, new_results, after),
        before.is_endnode(),
        results.contains_key(before.result_handle().key()),
        results[before.result_handle().key()].len() == before.result_count(),
        d < 16,
        16 < b < 32,
    ensures
        !after.is_endnode(),
        after.has_child(d) == has_bit(before.internal(), (15 - d) as u32),
        after.has_child(d) ==> {
            let kid = new_trie[after.child_handle().key()][after.child_index(d)];
            &&& new_trie.contains_key(after.child_handle().key())
            &&& 0 <= after.child_index(d) < new_trie[after.child_handle().key()].len()
            &&& kid.bitmap == 1u32 << 31
            &&& kid.child_ptr == 0
            &&& new_results.contains_key(kid.result_handle().key())
            &&& new_results[kid.result_handle().key()] == seq![
                results[before.result_handle().key()][rank(
                    before.internal(),
                    (15 - d) as u32,
                ) as int],
            ]
        },
        has_bit(after.internal(), b) == has_bit(before.internal(), b),
        has_bit(after.internal(), b) ==> {
            &&& new_results.contains_key(after.result_handle().key())
            &&& rank(after.internal(), b) < new_results[after.result_handle().key()].len()
            &&& new_results[after.result_handle().key()][rank(after.internal(), b) as int]
                == results[before.result_handle().key()][rank(before.internal(), b) as int]
        },
        trie.contains_key(key) ==> new_trie.contains_key(key) && new_trie[key] == trie[key],
        results.contains_key(key) && key != before.result_handle().key()
            ==> new_results.contains_key(key) && new_results[key] == results[key],
        after.child_count() == 0 ==> {
            &&& new_trie == trie
            &&& new_results == results
            &&& after.child_ptr == before.child_ptr
            &&& after.result_ptr == before.result_ptr
        },
        after.child_count() > 0 ==> {
            let kids = new_trie[after.child_handle().key()];
            &&& kids.len() == after.child_count()
            &&& !trie.contains_key(after.child_handle().key())
            &&& new_trie.contains_key(key) ==> trie.contains_key(key) || key
                == after.child_handle().key()
            &&& new_results[after.result_handle().key()].len() == after.result_count()
            &&& new_results.contains_key(key) ==> results.contains_key(key) || key
                == after.result_handle().key() || exists|k: int|
                0 <= k < kids.len() && (#[trigger] kids[k]).result_handle().key() == key
        },
{
    let p: u32 = (15 - d) as u32;
    let bits: u32 = before.internal();
    let others: Map<Key, Seq<T>> = results.remove(before.result_handle().key());
    lemma_make_normal(before);
    lemma_halves(bits);
    lemma_rank_bound(bits, p);
    lemma_rank_bound(bits, b);
    lemma_rank_bound(bits & 0x0000_ffff, p);
    lemma_rank_bound(bits & 0xffff_0000, b);
    assert(has_bit(bits & 0x0000_ffff, p) == has_bit(bits, p));
    assert(has_bit(bits & 0xffff_0000, b) == has_bit(bits, b));
    if ones(bits & 0x0000_ffff) > 0 {
        let kids: Seq<TrieNode> = new_trie[after.child_handle().key()];
        if after.has_child(d) {
            let kid: TrieNode = kids[after.child_index(d)];
            assert(kid.bitmap == 1u32 << 31);
        }
        assert(results.contains_key(key) && key != before.result_handle().key()
            ==> others.contains_key(key));
    }
}

/// What a table starts with: a normal root without results and children, alone
/// in the first collection of nodes, and an empty first collection of results.
pub open spec fn initial_state<T>() -> TrieState<T> {
    let root = TrieNode { bitmap: 0, child_ptr: 0, result_ptr: 0 };
    TrieState {
        nodes: Map::empty().insert(Seq::empty(), root),
        trie: Map::empty().insert(root_key(), seq![root]),
        results: Map::empty().insert((0, 0), Seq::empty()),
    }
}

/// The slots that an allocator of a new table has in use: the first one of the
/// first bucket.
pub open spec fn initial_usage<A>(a: Allocator<A>) -> bool {
    forall|b: nat|
        b < BUCKETS ==> #[trigger] a.usage(b) == (if b == 0 {
            SlotUse { count: 1, vacant: Seq::empty() }
        } else {
            SlotUse::unused()
        })
}

/// A new table holds one node, which marks nothing, and one empty collection of
/// results; the next slot that either allocator hands out for a new collection is
/// slot 1, and no other bucket has a slot.
pub proof fn law_new_table_is_bare<T>(table: TreeBitmap<T>, b: nat)
    requires
        table.state() == initial_state::<T>(),
        initial_usage(table.trienodes),
        initial_usage(table.results),
        0 < b < BUCKETS,
    ensures
        table.nodes@.dom() == Set::<Path>::empty().insert(Seq::empty()),
        table.nodes@[Seq::empty()].bitmap == 0,
        table.trienodes@.dom() == Set::<Key>::empty().insert((0nat, 0nat)),
        table.trienodes@[(0nat, 0nat)].len() == 1,
        table.trienodes@[(0nat, 0nat)][0] == table.nodes@[Seq::empty()],
        table.results@.dom() == Set::<Key>::empty().insert((0nat, 0nat)),
        table.results@[(0nat, 0nat)].len() == 0,
        table.trienodes.next_offset(0) == 1,
        table.results.next_offset(0) == 1,
        table.trienodes.usage(0).taken().next() == 2,
        table.results.usage(0).taken().next() == 2,
        table.trienodes.next_offset(b) == 0,
        table.results.next_offset(b) == 0,
        table.trienodes.usage(b).taken().next() == 1,
        table.results.usage(b).taken().next() == 1,
{
    assert(table.nodes@.dom() =~= Set::<Path>::empty().insert(Seq::empty()));
    assert(table.trienodes@.dom() =~= Set::<Key>::empty().insert((0nat, 0nat)));
    assert(table.results@.dom() =~= Set::<Key>::empty().insert((0nat, 0nat)));
    assert(table.trienodes.usage(0).vacant.len() == 0 && table.results.usage(0).vacant.len() == 0);
    assert(table.trienodes.usage(b).vacant.len() == 0 && table.results.usage(b).vacant.len() == 0);
}

impl<T> TreeBitmap<T> {
    /// The nodes by their paths, with what is stored.
    pub open spec fn state(self) -> TrieState<T> {
        TrieState { nodes: self.nodes@, trie: self.trienodes@, results: self.results@ }
    }

    /// The two allocators are in order, and so is the trie in them.
    pub open spec fn intact(self) -> bool {
        &&& self.trienodes.wf()
        &&& self.results.wf()
        &&& self.state().wf()
    }

    /// The table is in order, and each of its nodes leads to a value.
    pub open spec fn wf(self) -> bool {
        self.intact() && self.state().fruitful()
    }

    /// Returns a `TreeBitmap` with 0 start capacity.
    pub fn new() -> (r: Self)
        ensures
            r.wf(),
            r@ == Map::<Prefix, T>::empty(),
            r.state() == initial_state::<T>(),
            initial_usage(r.trienodes),
            initial_usage(r.results),
    {
        Self::with_capacity(0)
    }

    /// Returns a `TreeBitmap` with pre-allocated buffers of size `n`. The size
    /// changes nothing about what the table holds; the contract says nothing of the
    /// space that is allocated.
    pub fn with_capacity(n: usize) -> (r: Self)
        requires
            n <= MAX_CAPACITY,
        ensures
            r.wf(),
            r@ == Map::<Prefix, T>::empty(),
            r.state() == initial_state::<T>(),
            initial_usage(r.trienodes),
            initial_usage(r.results),
    {
        let mut trieallocator: Allocator<TrieNode> = Allocator::with_capacity(n);
        let mut root_hdl = trieallocator.allocate(0);
        let root = TrieNode::new();
        trieallocator.insert(&mut root_hdl, 0, root);

        let mut resultsallocator: Allocator<T> = Allocator::with_capacity(n);
        resultsallocator.allocate(0);
        let r = TreeBitmap {
            trienodes: trieallocator,
            results: resultsallocator,
            nodes: Ghost(Map::empty().insert(Seq::empty(), root)),
        };
        proof {
            assert(Seq::<TrieNode>::empty().insert(0, root) =~= seq![root]);
            r.lemma_fresh(root);
            assert(r.trienodes@ =~= initial_state::<T>().trie);
            assert(r.results@ =~= initial_state::<T>().results);
        }
        r
    }

    /// A trie of a root without results and children holds nothing.
    proof fn lemma_fresh(self, root: TrieNode)
        requires
            self.trienodes.wf(),
            self.results.wf(),
            root.bitmap == 0,
            self.nodes@ == Map::<Path, TrieNode>::empty().insert(Seq::empty(), root),
            self.trienodes@.contains_key(root_key()),
            self.trienodes@[root_key()] == seq![root],
        ensures
            self.wf(),
            self@ == Map::<Prefix, T>::empty(),
    {
        let s: TrieState<T> = self.state();
        lemma_zero_has_no_bit(16);
        assert(0u32 & 0xfffe_0000 == 0) by (bit_vector);
        assert(0u32 & 0xffff == 0) by (bit_vector);
        lemma_ones_zero(0);
        assert forall|k: u32| !has_bit(0, k) by {
            lemma_zero_has_no_bit(k);
        }
        assert forall|p: Path, d: u8| !#[trigger] s.nodes.contains_key(p.push(d)) by {
            assert(p.push(d).len() > 0);
        }
        assert(self@ =~= Map::<Prefix, T>::empty());
    }

    /// Returns the handle of the root node.
    pub fn root_handle(&self) -> (r: AllocatorHandle)
        ensures
            r == (AllocatorHandle { len: 1, offset: 0 }),
            r.key() == root_key(),
    {
        AllocatorHandle::generate(1, 0)
    }

    /// Returns the root node. It marks a result for each prefix of at most three
    /// bits, and a child for each first digit of the longer ones.
    pub fn root_node(&self) -> (r: TrieNode)
        requires
            self.wf(),
        ensures
            r == self.nodes@[Seq::empty()],
            r == self.trienodes@[root_key()][0],
            !r.is_endnode(),
            ones(r.internal()) == short_keys(self@).len(),
            ones(r.external()) == top_digits(self@).len(),
    {
        proof {
            self.state().lemma_root_shape();
        }
        *self.trienodes.get(&self.root_handle(), 0)
    }

    /// Pushes down the results encoded in the last 16 bits into child trie
    /// nodes. Makes `node` into a normal node.
    #[verifier::spinoff_prover]
    pub fn push_down(&mut self, node: &mut TrieNode)
        requires
            old(self).trienodes.wf(),
            old(self).results.wf(),
            old(node).is_endnode(),
            old(node).child_ptr == 0,
            ones(old(node).internal() & 0x0000_ffff) > 0 ==> old(self).results.holds(
                old(node).result_handle(),
            ),
        ensures
            final(self).trienodes.wf(),
            final(self).results.wf(),
            final(self).nodes == old(self).nodes,
            pushed_down(
                old(self).trienodes@,
                old(self).results@,
                *old(node),
                final(self).trienodes@,
                final(self).results@,
                *final(node),
            ),
            ones(old(node).internal() & 0x0000_ffff) == 0 ==> {
                &&& old(self).trienodes.same_usage(final(self).trienodes)
                &&& old(self).results.same_usage(final(self).results)
            },
    {
        let ghost trie = self.trienodes@;
        let ghost results = self.results@;
        let ghost before = *node;
        let ghost others = results.remove(before.result_handle().key());
        let ghost values = results[before.result_handle().key()];
        // count the results in the first 15 bits (those that remain in place)
        let remove_at: u32 = (node.internal() & 0xffff_0000).count_ones();
        // count how many results to push down
        let nodes_to_pushdown: u32 = (node.internal() & 0x0000_ffff).count_ones();
        proof {
            lemma_halves(node.internal());
            lemma_rank_bound(node.internal() & 0x0000_ffff, 16);
            lemma_rank_bound(node.internal(), 16);
            lemma_make_normal(*node);
            lemma_ones_low_half(node.internal());
        }
        if nodes_to_pushdown > 0 {
            let mut result_hdl = node.result_handle();
            let mut child_node_hdl = self.trienodes.allocate(0);
            let ghost mut kids: Seq<TrieNode> = Seq::empty();
            let mut i: u32 = 0;
            assert(values =~= values.take(remove_at as int) + values.skip(remove_at + i));
            while i < nodes_to_pushdown
                invariant
                    i <= nodes_to_pushdown <= 16,
                    self.nodes == old(self).nodes,
                    self.trienodes.wf(),
                    self.results.wf(),
                    others == results.remove(before.result_handle().key()),
                    values.len() == remove_at + nodes_to_pushdown,
                    values.len() <= 32,
                    child_node_hdl.len == i,
                    kids.len() == i,
                    !trie.contains_key(child_node_hdl.key()),
                    self.trienodes@ == trie.insert(child_node_hdl.key(), kids),
                    result_hdl.len == values.len() - i,
                    !others.contains_key(result_hdl.key()),
                    self.results@.contains_key(result_hdl.key()),
                    self.results@[result_hdl.key()] == values.take(remove_at as int) + values.skip(
                        remove_at + i,
                    ),
                    forall|k: int|
                        0 <= k < i ==> {
                            let kid = #[trigger] kids[k];
                            &&& kid.bitmap == 1u32 << 31
                            &&& kid.child_ptr == 0
                            &&& !others.contains_key(kid.result_handle().key())
                            &&& kid.result_handle().key() != result_hdl.key()
                            &&& self.results@.contains_key(kid.result_handle().key())
                            &&& self.results@[kid.result_handle().key()] == seq![
                                values[remove_at + k],
                            ]
                        },
                    forall|j: int, k: int|
                        0 <= j < k < i ==> (#[trigger] kids[j]).result_handle().key() != (
                        #[trigger] kids[k]).result_handle().key(),
                    forall|key: Key| #[trigger]
                        others.contains_key(key) ==> self.results@.contains_key(key)
                            && self.results@[key] == others[key],
                    forall|key: Key| #[trigger]
                        self.results@.contains_key(key) ==> others.contains_key(key) || key
                            == result_hdl.key() || exists|k: int|
                            0 <= k < i && (#[trigger] kids[k]).result_handle().key() == key,
                decreases nodes_to_pushdown - i,
            {
                let ghost old_kids = kids;
                // allocate space for the child's result value
                let mut child_result_hdl = self.results.allocate(0);
                // put the result value in the freshly allocated slot
                let result_value = self.results.remove(&mut result_hdl, remove_at);
                self.results.insert(&mut child_result_hdl, 0, result_value);
                // create and save the child node
                let mut child_node = TrieNode::new();
                child_node.set_internal(1u32 << 31);
                child_node.result_ptr = child_result_hdl.offset;
                // append the trie node to the collection
                let insert_node_at: u32 = child_node_hdl.len;
                self.trienodes.insert(&mut child_node_hdl, insert_node_at, child_node);
                proof {
                    assert(0u32 | (1u32 << 31) == 1u32 << 31) by (bit_vector);
                    lemma_kid(child_node);
                    assert(child_node.result_handle().key() == child_result_hdl.key());
                    kids = kids.push(child_node);
                    assert(old_kids.insert(i as int, child_node) =~= kids);
                    assert((values.take(remove_at as int) + values.skip(remove_at + i)).remove(
                        remove_at as int,
                    ) =~= values.take(remove_at as int) + values.skip(remove_at + i + 1));
                    assert(Seq::<T>::empty().insert(0, result_value) =~= seq![
                        values[remove_at + i],
                    ]);
                    assert(self.trienodes@ =~= trie.insert(child_node_hdl.key(), kids));
                    assert(kids[i as int] == child_node);
                    assert forall|key: Key| #[trigger]
                        self.results@.contains_key(key) implies others.contains_key(key) || key
                        == result_hdl.key() || exists|k: int|
                        0 <= k < i + 1 && (#[trigger] kids[k]).result_handle().key() == key by {
                        if exists|k: int|
                            0 <= k < i && (#[trigger] old_kids[k]).result_handle().key() == key {
                            let k: int = choose|k: int|
                                0 <= k < i && (#[trigger] old_kids[k]).result_handle().key() == key;
                            assert(kids[k].result_handle().key() == key);
                        }
                    }
                }
                i = i + 1;
            }
            // the result data may have moved to a smaller bucket, update the pointer
            node.result_ptr = result_hdl.offset;
            node.child_ptr = child_node_hdl.offset;
            proof {
                assert(values.take(remove_at as int) + values.skip(
                    remove_at + nodes_to_pushdown,
                ) =~= values.take(remove_at as int));
                let after = TrieNode { bitmap: before.bitmap & END_BIT_MASK, ..*node };
                assert(after.internal() == before.internal() & 0xffff_0000);
                assert(after.external() == before.internal() & 0x0000_ffff);
                assert(after.child_handle() == child_node_hdl);
                assert(after.result_handle() == result_hdl);
                assert(self.trienodes@[child_node_hdl.key()] == kids);
                assert(results_moved(
                    trie,
                    results,
                    before,
                    self.trienodes@,
                    self.results@,
                    after,
                ));
            }
        }
        // the low bits now mark children, and are right as they are
        node.make_normalnode();
    }

    /// Stores `value` at the bit `bitmap` of the node at `path`, which stands at
    /// `cur_index` of `cur_hdl`. Returns the value that stood there.
    fn store(
        &mut self,
        cur_hdl: &AllocatorHandle,
        cur_index: u32,
        mut cur_node: TrieNode,
        bitmap: u32,
        value: T,
        Ghost(path): Ghost<Path>,
        Ghost(bit): Ghost<u32>,
    ) -> (ret: Option<T>)
        requires
            old(self).intact(),
            old(self).state().at(path, *cur_hdl, cur_index),
            cur_node == old(self).nodes@[path],
            bitmap == 1u32 << bit,
            bit < 32,
            bit != 16,
            bit > 16 || cur_node.is_endnode(),
            path.len() == 8 ==> bit == 31,
        ensures
            final(self).intact(),
            ret == old(self).state().stored(path, bit),
            final(self).state().stored(path, bit) == Some(value),
            forall|q: Path, c: u32|
                c < 32 && (q != path || c != bit) ==> #[trigger] final(self).state().stored(q, c)
                    == old(self).state().stored(q, c),
            old(self).state().same_entries(final(self).state()),
            forall|q: Path| #[trigger]
                final(self).state().barren(q) ==> old(self).state().barren(q) && q != path,
    {
        let ghost state = self.state();
        let ghost node = cur_node;
        let ghost stored = value;
        let mut ret: Option<T> = None;
        proof {
            state.lemma_place(path);
            assert(state.node_ok(path));
            lemma_single_bit(node.internal(), bit);
            lemma_rank_bound(node.internal(), bit);
            lemma_mark_result(node, bit);
            if !has_bit(node.internal(), bit) {
                lemma_ones_from_set(node.internal(), bit, 0);
            }
        }
        let mut result_hdl = match cur_node.result_count() {
            0 => self.results.allocate(0),
            _ => cur_node.result_handle(),
        };
        let ghost start = result_hdl;
        assert(self.results@[start.key()] =~= state.results_of(path));
        let result_index: u32 = (cur_node.internal() >> bitmap.trailing_zeros()).count_ones();

        if cur_node.internal() & bitmap != 0 {
            // the key already exists: get the existing value, and set the new one
            ret = Some(self.results.remove(&mut result_hdl, result_index - 1));
            self.results.insert(&mut result_hdl, result_index - 1, value);
            assert(state.results_of(path).remove(result_index - 1).insert(
                result_index - 1,
                stored,
            ) =~= state.results_with(path, bit, stored));
        } else {
            cur_node.set_internal(bitmap);
            self.results.insert(&mut result_hdl, result_index, value);
        }
        cur_node.result_ptr = result_hdl.offset;
        self.trienodes.set(cur_hdl, cur_index, cur_node);
        self.nodes = Ghost(self.nodes@.insert(path, cur_node));
        proof {
            let t: TrieState<T> = self.state();
            assert(cur_node.bitmap == node.bitmap | bitmap) by {
                let m: u32 = node.bitmap;
                lemma_node_bits(node, bit);
                assert(bit < 32 && (m >> bit) & 1 == 1 ==> m | (1u32 << bit) == m) by (bit_vector);
            }
            assert(cur_node.result_handle().key() == result_hdl.key());
            assert forall|q: Path| #[trigger] state.has_results(q) && q != path implies {
                &&& cur_node.result_handle().key() != state.result_key(q)
                &&& t.results.contains_key(state.result_key(q))
                &&& t.results[state.result_key(q)] == state.results[state.result_key(q)]
            } by {
                assert(state.node_ok(q));
                if state.has_results(path) {
                    assert(state.result_key(q) != state.result_key(path));
                }
            }
            state.lemma_store(t, path, bit, cur_node, stored);
        }
        ret
    }

    /// Makes the end node at `path`, which stands at `cur_index` of `cur_hdl`, a
    /// normal node.
    fn split(
        &mut self,
        cur_hdl: &AllocatorHandle,
        cur_index: u32,
        cur_node: &mut TrieNode,
        Ghost(path): Ghost<Path>,
    )
        requires
            old(self).intact(),
            old(self).state().at(path, *cur_hdl, cur_index),
            *old(cur_node) == old(self).nodes@[path],
            old(cur_node).is_endnode(),
            path.len() < 8,
        ensures
            final(self).intact(),
            old(self).state().same_lookups(final(self).state()),
            final(self).state().at(path, *cur_hdl, cur_index),
            *final(cur_node) == final(self).nodes@[path],
            !final(cur_node).is_endnode(),
            forall|q: Path| #[trigger]
                final(self).state().barren(q) ==> old(self).state().barren(q),
    {
        let ghost state = self.state();
        proof {
            state.lemma_place(path);
            assert(state.node_ok(path));
            lemma_halves(cur_node.internal());
            lemma_rank_bound(cur_node.internal(), 16);
        }
        self.push_down(cur_node);
        let ghost next = state_pushed_down(
            state,
            path,
            self.trienodes@,
            self.results@,
            *cur_node,
        );
        proof {
            law_push_down_keeps_values(state, path, self.trienodes@, self.results@, *cur_node);
        }
        self.trienodes.set(cur_hdl, cur_index, *cur_node);
        self.nodes = Ghost(next.nodes);
    }

    /// Adds an empty end node for `nibble` below the normal node at `path`, which
    /// stands at `cur_index` of `cur_hdl`. Returns where the new node stands.
    fn branch(
        &mut self,
        cur_hdl: &AllocatorHandle,
        cur_index: u32,
        mut cur_node: TrieNode,
        nibble: u8,
        bitmap: u32,
        Ghost(path): Ghost<Path>,
    ) -> (r: (AllocatorHandle, u32))
        requires
            old(self).intact(),
            old(self).state().at(path, *cur_hdl, cur_index),
            cur_node == old(self).nodes@[path],
            !cur_node.is_endnode(),
            nibble < 16,
            !cur_node.has_child(nibble),
            bitmap == 1u32 << position(nibble, 4),
            path.len() < 8,
        ensures
            final(self).intact(),
            old(self).state().same_lookups(final(self).state()),
            final(self).state().at(path.push(nibble), r.0, r.1),
            forall|q: Path| #[trigger]
                final(self).state().barren(q) ==> q == path.push(nibble) || old(
                    self,
                ).state().barren(q) && q != path,
    {
        let ghost state = self.state();
        let ghost node = cur_node;
        let ghost pos: u32 = position(nibble, 4);
        proof {
            state.lemma_place(path);
            assert(state.node_ok(path));
            lemma_single_bit(node.external(), pos);
            lemma_rank_bound(node.external(), pos);
            lemma_mark_child(node, pos);
            lemma_ones_from_set(node.external(), pos, 0);
            lemma_ones_from_set(node.external(), pos, (pos + 1) as u32);
            lemma_has_bit_or(node.external(), pos, pos);
            if path.len() > 0 {
                state.lemma_parent(path);
                assert(state.node_ok(path.drop_last()));
                if state.has_children(path) {
                    assert(state.has_children(path.drop_last()));
                    assert(path.drop_last() != path);
                }
            }
            assert(state.has_children(path) ==> state.place_key(path) != state.child_key(path));
        }
        let mut child_hdl = match cur_node.child_count() {
            0 => self.trienodes.allocate(0),
            _ => cur_node.child_handle(),
        };
        assert(self.trienodes@[child_hdl.key()] =~= state.children_of(path));
        assert(child_hdl.key() != state.place_key(path));
        let child_index: u32 = (cur_node.external() >> bitmap.trailing_zeros()).count_ones();
        cur_node.set_external(bitmap);

        // prepare a child node
        let mut child_node = TrieNode::new();
        child_node.make_endnode();
        self.trienodes.insert(&mut child_hdl, child_index, child_node);  // save the child
        cur_node.child_ptr = child_hdl.offset;
        assert(child_hdl.key() != state.place_key(path));
        self.trienodes.set(cur_hdl, cur_index, cur_node);  // save the trie node
        self.nodes = Ghost(
            self.nodes@.insert(path, cur_node).insert(path.push(nibble), child_node),
        );
        proof {
            let t: TrieState<T> = self.state();
            lemma_empty_endnode(child_node);
            assert(cur_node.child_handle() == child_hdl);
            state.lemma_branch(t, path, nibble, cur_node, child_node);
            let q: Path = path.push(nibble);
            assert(q.drop_last() =~= path);
            assert(q.last() == nibble);
            assert(q != path);
        }
        (child_hdl, child_index)
    }

    /// What a table holds once the value for the first `masklen` bits of `bits`
    /// is stored.
    proof fn lemma_stored(self, t: Self, bits: u32, masklen: u32, value: T)
        requires
            masklen <= 32,
            t.state().stored(
                self.state().entry_path(bits, masklen),
                self.state().entry_bit(bits, masklen),
            ) == Some(value),
            forall|q: Path, c: u32|
                c < 32 && (q != self.state().entry_path(bits, masklen) || c
                    != self.state().entry_bit(bits, masklen)) ==> #[trigger] t.state().stored(q, c)
                    == self.state().stored(q, c),
            self.state().same_entries(t.state()),
        ensures
            t@ == self@.insert(prefix_of(bits, masklen), value),
            self.state().lookup(bits, masklen) == (if self@.contains_key(prefix_of(bits, masklen)) {
                Some(self@[prefix_of(bits, masklen)])
            } else {
                None
            }),
    {
        let s: TrieState<T> = self.state();
        let key: Prefix = prefix_of(bits, masklen);
        lemma_network_network(bits, masklen, masklen);
        s.lemma_entry_network(bits, key.0, masklen);
        assert forall|k: Prefix| is_prefix(k.0, k.1) implies #[trigger] t.state().lookup(k.0, k.1)
            == (if k == key {
            Some(value)
        } else {
            s.lookup(k.0, k.1)
        }) by {
            s.lemma_entry_depth(k.0, k.1);
            let p: Path = s.entry_path(k.0, k.1);
            let b: u32 = s.entry_bit(k.0, k.1);
            assert(t.state().lookup(k.0, k.1) == t.state().stored(p, b));
            if p == s.entry_path(bits, masklen) && b == s.entry_bit(bits, masklen) {
                s.lemma_entry_unique(k.0, k.1, bits, masklen);
            }
        }
        assert(t@ =~= self@.insert(key, value));
    }

    /// Tables that store the same value for every prefix are the same maps.
    proof fn lemma_same_view(self, t: Self)
        requires
            self.state().same_lookups(t.state()),
        ensures
            self@ == t@,
    {
        assert(self@ =~= t@);
    }

    /// Maps the prefix of the first `masklen` bits of `ip` to `value`. Returns any
    /// existing value for that prefix.
    #[verifier::spinoff_prover]
    pub fn insert(&mut self, ip: Ipv4Addr, masklen: u32, value: T) -> (r: Option<T>)
        requires
            old(self).wf(),
            masklen <= 32,
        ensures
            final(self).wf(),
            final(self)@ == old(self)@.insert(prefix_of(ip.bits, masklen), value),
            forall|k: Prefix|
                k.1 == masklen && k.0 as nat % pow2((32 - masklen) as nat) == 0 && k.0 <= ip.bits
                    < k.0 + pow2((32 - masklen) as nat) ==> #[trigger] final(self)@.contains_key(k)
                    && final(self)@[k] == value,
            forall|k: Prefix|
                k.1 != masklen || !(k.0 <= ip.bits < k.0 + pow2((32 - masklen) as nat))
                    ==> #[trigger] final(self)@.contains_key(k) == old(self)@.contains_key(k)
                    && final(self)@[k] == old(self)@[k],
            r == (if old(self)@.contains_key(prefix_of(ip.bits, masklen)) {
                Some(old(self)@[prefix_of(ip.bits, masklen)])
            } else {
                None
            }),
            forall|k: Prefix|
                k.1 == masklen && k.0 as nat % pow2((32 - masklen) as nat) == 0 && k.0 <= ip.bits
                    < k.0 + pow2((32 - masklen) as nat) ==> r == (if #[trigger] old(
                    self,
                )@.contains_key(k) {
                    Some(old(self)@[k])
                } else {
                    None
                }),
    {
        let bits: u32 = u32::from(ip);
        let digits = nibbles(bits);
        let mut cur_hdl = self.root_handle();
        let mut cur_index: u32 = 0;
        let mut bits_left: u32 = masklen;
        let mut i: usize = 0;
        proof {
            assert(path_of(bits, 0) =~= Seq::<u8>::empty());
        }
        while i < STEPS
            invariant
                i <= STEPS,
                masklen <= 32,
                bits == ip.bits,
                bits_left == masklen - 4 * i,
                forall|j: int|
                    0 <= j < STEPS ==> #[trigger] digits[j] == nibble(bits, j) && digits[j] < 16,
                self.intact(),
                forall|p: Path| #[trigger]
                    self.state().barren(p) ==> p == path_of(bits, i as nat),
                self@ == old(self)@,
                self.state().at(path_of(bits, i as nat), cur_hdl, cur_index),
            decreases STEPS - i,
        {
            let digit: u8 = digits[i as usize];
            let ghost path = path_of(bits, i as nat);
            let ghost before = *self;
            proof {
                self.state().lemma_place(path);
                assert(self.state().node_ok(path));
                lemma_path_push(bits, i as nat);
            }
            let mut cur_node = *self.trienodes.get(&cur_hdl, cur_index);
            let match_result = cur_node.match_segment(digit);

            if let MatchResult::Chase(child_hdl, index) = match_result {
                if bits_left >= 4 {
                    // follow the existing branch
                    proof {
                        self.state().lemma_descend(path, digit);
                    }
                    bits_left = bits_left - 4;
                    cur_hdl = child_hdl;
                    cur_index = index;
                    i = i + 1;
                    continue;
                }
            }
            let bitmap: u32 = gen_bitmap(
                digit,
                if bits_left < 4 {
                    bits_left
                } else {
                    4
                },
            );

            if (cur_node.is_endnode() && bits_left <= 4) || bits_left <= 3 {
                // final node reached, insert the result
                let ghost bit: u32 = position(digit, bits_left);
                proof {
                    before.state().lemma_final_node(bits, masklen, i as nat);
                    before.state().lemma_entry_depth(bits, masklen);
                }
                let ret = self.store(
                    &cur_hdl,
                    cur_index,
                    cur_node,
                    bitmap,
                    value,
                    Ghost(path),
                    Ghost(bit),
                );
                proof {
                    before.lemma_stored(*self, bits, masklen, value);
                    lemma_insert_runs(old(self)@, bits, masklen, value);
                }
                return ret;
            }
            // add a branch

            if cur_node.is_endnode() {
                // move any results out of the way, so that a branch can be added
                self.split(&cur_hdl, cur_index, &mut cur_node, Ghost(path));
                proof {
                    before.lemma_same_view(*self);
                }
            }
            proof {
                lemma_single_bit(cur_node.external(), position(digit, 4));
            }
            if cur_node.external() & bitmap == 0 {
                // no existing branch; create it
                let ghost middle = *self;
                let (child_hdl, child_index) = self.branch(
                    &cur_hdl,
                    cur_index,
                    cur_node,
                    digit,
                    bitmap,
                    Ghost(path),
                );
                proof {
                    middle.lemma_same_view(*self);
                }
                cur_hdl = child_hdl;
                cur_index = child_index;
            } else {
                // follow the existing branch
                proof {
                    self.state().lemma_descend(path, digit);
                }
                if let MatchResult::Chase(child_hdl, index) = cur_node.match_segment(digit) {
                    cur_hdl = child_hdl;
                    cur_index = index;
                }
            }
            bits_left = bits_left - 4;
            i = i + 1;
        }
        None
    }

    /// Of the prefixes of `ip` shorter than `bound` the longest in the table is
    /// that of `bits_matched` bits, whose value stands at the index in the
    /// collection of `best`; there is none without `best`.
    spec fn best_below(
        self,
        ip: u32,
        bound: int,
        best: Option<(AllocatorHandle, u32)>,
        bits_matched: u32,
    ) -> bool {
        match best {
            Some((hdl, index)) => {
                &&& bits_matched < bound
                &&& bits_matched <= 32
                &&& self.results.holds(hdl)
                &&& index < hdl.len
                &&& self.state().lookup(ip, bits_matched) == Some(
                    self.results@[hdl.key()][index as int],
                )
                &&& forall|l: u32|
                    bits_matched < l < bound && l <= 32 ==> (#[trigger] self.state().lookup(
                        ip,
                        l,
                    )) is None
            },
            None => forall|l: u32|
                l < bound && l <= 32 ==> (#[trigger] self.state().lookup(ip, l)) is None,
        }
    }

    /// One more than the length of the longest prefixes that the node at depth
    /// `i` on the way of `ip` can store.
    spec fn scanned(self, ip: u32, i: nat) -> int {
        if self.nodes@[path_of(ip, i)].is_endnode() {
            4 * i as int + 5
        } else {
            4 * i as int + 4
        }
    }

    /// A hit in the node at depth `i` is the longest prefix up to its digit.
    proof fn lemma_scan_hit(self, ip: u32, i: nat, bit_index: u32)
        requires
            self.wf(),
            self.nodes@.contains_key(path_of(ip, i)),
            bit_index < 32,
            is_lowest(
                self.nodes@[path_of(ip, i)].internal() & MATCH_MASKS[nibble(ip, i as int) as int],
                (31 - bit_index) as u32,
            ),
        ensures
            BIT_MATCH[bit_index as int] <= 4,
            ({
                let node = self.nodes@[path_of(ip, i)];
                self.best_below(
                    ip,
                    self.scanned(ip, i),
                    Some(
                        (
                            node.result_handle(),
                            rank(node.internal(), (31 - bit_index) as u32) as u32,
                        ),
                    ),
                    (4 * i + BIT_MATCH[bit_index as int]) as u32,
                )
            }),
    {
        let path: Path = path_of(ip, i);
        let node: TrieNode = self.nodes@[path];
        let n: u8 = nibble(ip, i as int);
        let hits: u32 = node.internal() & MATCH_MASKS[n as int];
        let low: u32 = (31 - bit_index) as u32;
        assert(self.state().node_ok(path));
        lemma_nibble_bound(ip, i as int);
        lemma_has_bit_and(node.internal(), MATCH_MASKS[n as int], low);
        lemma_match_mask(n, low);
        lemma_node_bits(node, low);
        let r: u32 = if low == position(n, 0) {
            0
        } else if low == position(n, 1) {
            1
        } else if low == position(n, 2) {
            2
        } else if low == position(n, 3) {
            3
        } else {
            4
        };
        assert(low == position(n, r));
        lemma_bit_match(n, r);
        assert(i == 8 ==> r == 0);
        self.state().lemma_node_match(ip, i, r);
        let m: u32 = (4 * i + r) as u32;
        assert forall|l: u32|
            m < l < self.scanned(ip, i) && l <= 32 implies (#[trigger] self.state().lookup(
            ip,
            l,
        )) is None by {
            let q: u32 = (l - 4 * i) as u32;
            self.state().lemma_node_match(ip, i, q);
            assert(position(n, q) < low);
        }
    }

    /// Without a hit in the node at depth `i` the best match stays.
    proof fn lemma_scan_miss(
        self,
        ip: u32,
        i: nat,
        best: Option<(AllocatorHandle, u32)>,
        bits_matched: u32,
    )
        requires
            self.wf(),
            self.nodes@.contains_key(path_of(ip, i)),
            self.nodes@[path_of(ip, i)].internal() & MATCH_MASKS[nibble(ip, i as int) as int] == 0,
            self.best_below(ip, 4 * i as int, best, bits_matched),
        ensures
            self.best_below(ip, self.scanned(ip, i), best, bits_matched),
    {
        let n: u8 = nibble(ip, i as int);
        assert forall|l: u32|
            4 * i <= l < self.scanned(ip, i) && l <= 32 implies (#[trigger] self.state().lookup(
            ip,
            l,
        )) is None by {
            let q: u32 = (l - 4 * i) as u32;
            let b: u32 = position(n, q);
            self.state().lemma_node_match(ip, i, q);
            lemma_zero_has_no_bit(b);
        }
    }

    /// Where no child follows no longer prefix is stored.
    proof fn lemma_scan_end(
        self,
        ip: u32,
        i: nat,
        best: Option<(AllocatorHandle, u32)>,
        bits_matched: u32,
    )
        requires
            self.wf(),
            self.nodes@.contains_key(path_of(ip, i)),
            !self.nodes@[path_of(ip, i)].has_child(nibble(ip, i as int)),
            self.best_below(ip, self.scanned(ip, i), best, bits_matched),
        ensures
            self.best_below(ip, 33, best, bits_matched),
    {
        assert forall|l: u32|
            self.scanned(ip, i) <= l <= 32 implies (#[trigger] self.state().lookup(
            ip,
            l,
        )) is None by {
            self.state().lemma_dead_end(ip, i, l);
        }
    }

    /// The table holds a prefix of `ip` exactly if a value is stored for it.
    proof fn lemma_view_lookup(self, ip: u32, len: u32)
        requires
            len <= 32,
        ensures
            self@.contains_key(prefix_of(ip, len)) == (self.state().lookup(ip, len) is Some),
            self.state().lookup(ip, len) is Some ==> self@[prefix_of(ip, len)]
                == self.state().lookup(ip, len)->0,
    {
        lemma_network_network(ip, len, len);
        self.state().lemma_entry_network(ip, network(ip, len), len);
    }

    /// Longest match lookup of `ip`. Returns the matched prefix as an address, the
    /// number of bits matched, and a reference to the value.
    #[verifier::spinoff_prover]
    pub fn longest_match(&self, ip: Ipv4Addr) -> (r: Option<(Ipv4Addr, u32, &T)>)
        requires
            self.wf(),
        ensures
            match r {
                Some((net, len, value)) => {
                    &&& is_longest_match(self@, ip.bits, len)
                    &&& net.bits == network(ip.bits, len)
                    &&& *value == self@[prefix_of(ip.bits, len)]
                    &&& len <= 32
                    &&& net.bits <= ip.bits < net.bits + pow2((32 - len) as nat)
                    &&& net.bits as nat % pow2((32 - len) as nat) == 0
                    &&& self@.contains_key((net.bits, len))
                    &&& *value == self@[(net.bits, len)]
                    &&& forall|k: Prefix| #[trigger]
                        self@.contains_key(k) && k.0 <= ip.bits < k.0 + pow2((32 - k.1) as nat)
                            ==> k.1 <= len
                },
                None => {
                    &&& no_match(self@, ip.bits)
                    &&& forall|k: Prefix| #[trigger]
                        self@.contains_key(k) ==> !(k.0 <= ip.bits < k.0 + pow2((32 - k.1) as nat))
                },
            },
    {
        let bits: u32 = u32::from(ip);
        let digits = nibbles(bits);
        let mut cur_hdl = self.root_handle();
        let mut cur_index: u32 = 0;
        let mut bits_matched: u32 = 0;
        let mut bits_searched: u32 = 0;
        let mut best_match: Option<(AllocatorHandle, u32)> = None;  // result handle and index
        let mut i: usize = 0;
        proof {
            assert(path_of(bits, 0) =~= Seq::<u8>::empty());
        }
        while i < STEPS
            invariant_except_break
                i <= 8,
                bits_searched == 4 * i,
                self.state().at(path_of(bits, i as nat), cur_hdl, cur_index),
                self.best_below(bits, 4 * i, best_match, bits_matched),
            invariant
                self.wf(),
                forall|j: int|
                    0 <= j < STEPS ==> #[trigger] digits[j] == nibble(bits, j) && digits[j] < 16,
            ensures
                self.best_below(bits, 33, best_match, bits_matched),
            decreases STEPS - i,
        {
            let digit: u8 = digits[i as usize];
            let ghost path = path_of(bits, i as nat);
            let ghost state = self.state();
            proof {
                state.lemma_place(path);
                assert(state.node_ok(path));
                lemma_path_push(bits, i as nat);
            }
            let cur_node = *self.trienodes.get(&cur_hdl, cur_index);
            let match_mask: u32 = MATCH_MASKS[digit as usize];

            match cur_node.match_internal(match_mask) {
                MatchResult::Match(result_hdl, result_index, matching_bit_index) => {
                    proof {
                        self.lemma_scan_hit(bits, i as nat, matching_bit_index);
                    }
                    bits_matched = bits_searched + BIT_MATCH[matching_bit_index as usize];
                    best_match = Some((result_hdl, result_index));
                },
                _ => {
                    proof {
                        self.lemma_scan_miss(bits, i as nat, best_match, bits_matched);
                    }
                },
            }
            proof {
                lemma_match_child(cur_node, digit);
                if cur_node.has_child(digit) {
                    state.lemma_descend(path, digit);
                } else {
                    self.lemma_scan_end(bits, i as nat, best_match, bits_matched);
                }
            }
            if cur_node.is_endnode() {
                break;
            }
            match cur_node.match_external(match_mask) {
                MatchResult::Chase(child_hdl, child_index) => {
                    bits_searched = bits_searched + 4;
                    cur_hdl = child_hdl;
                    cur_index = child_index;
                },
                _ => {
                    break;
                },
            }
            i = i + 1;
        }
        proof {
            assert forall|l: u32| l <= 32 implies self@.contains_key(#[trigger] prefix_of(bits, l))
                == (self.state().lookup(bits, l) is Some) by {
                self.lemma_view_lookup(bits, l);
            }
            assert forall|k: Prefix| #[trigger] self@.contains_key(k) implies k.1 <= 32
                && k.0 as nat % pow2((32 - k.1) as nat) == 0 by {
                law_keys_are_runs(*self, k);
            }
            law_no_match_is_no_run(self@, bits);
        }
        match best_match {
            Some((result_hdl, result_index)) => {
                proof {
                    self.lemma_view_lookup(bits, bits_matched);
                    law_network_rounds_down(bits, bits_matched);
                    law_longest_match_is_smallest_run(self@, bits, bits_matched);
                }
                let masked_ip: u32 = match bits_matched {
                    0 => 0,
                    32 => bits,
                    _ => bits & (0xffff_ffffu32 << (32 - bits_matched)),
                };
                proof {
                    lemma_network_whole(bits);
                }
                Some((
                    Ipv4Addr::from(masked_ip),
                    bits_matched,
                    self.results.get(&result_hdl, result_index),
                ))
            },
            None => None,
        }
    }

    /// Gives back buffer space that the table does not use. All nodes and
    /// collections stay where they are; the contract says nothing of the space that
    /// is given back.
    pub fn shrink_to_fit(&mut self)
        requires
            old(self).wf(),
        ensures
            final(self).wf(),
            final(self)@ == old(self)@,
            final(self).state() == old(self).state(),
            old(self).trienodes.same_usage(final(self).trienodes),
            old(self).results.same_usage(final(self).results),
    {
        self.trienodes.shrink_to_fit();
        self.results.shrink_to_fit();
    }
}

} // verus!
