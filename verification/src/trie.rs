//! Nodes of the trie. A node stands for four bits of an address and holds, in
//! one bitmap, the prefixes that end in it and the digits that lead on.

use vstd::arithmetic::power2::{lemma2_to64, pow2};
use vstd::bits::lemma_u32_shl_is_mul;
use vstd::prelude::*;
use crate::allocator::AllocatorHandle;
use crate::bits::{
    has_bit, is_lowest, law_bits_are_binary_digits, law_ones_are_counted, lemma_has_bit_or, lemma_lowest_bit, lemma_ones_from_mono, lemma_ones_shift,
    lemma_zero_has_no_bit, ones, rank,
};

verus! {

/// Marks an end node.
pub const END_BIT: u32 = 0x0001_0000;

/// All bits but `END_BIT`.
pub const END_BIT_MASK: u32 = 0xfffe_ffff;

/// The bit position of the first `len` bits of a digit: the prefixes of length 0
/// to 3 stand at positions 31 down to 17, those of length 4 at 15 down to 0.
/// Position 16 is that of `END_BIT`.
pub open spec fn position(nibble: u8, len: u32) -> u32 {
    if len == 0 {
        31
    } else if len == 1 {
        (30 - nibble / 8) as u32
    } else if len == 2 {
        (28 - nibble / 4) as u32
    } else if len == 3 {
        (24 - nibble / 2) as u32
    } else {
        (15 - nibble) as u32
    }
}

/// For each digit the positions of its prefixes of length 0 to 4.
pub const MATCH_MASKS: [u32; 16] = [
    0xd100_8000,
    0xd100_4000,
    0xd080_2000,
    0xd080_1000,
    0xc840_0800,
    0xc840_0400,
    0xc820_0200,
    0xc820_0100,
    0xa410_0080,
    0xa410_0040,
    0xa408_0020,
    0xa408_0010,
    0xa204_0008,
    0xa204_0004,
    0xa202_0002,
    0xa202_0001,
];

/// For each index, counted from the most significant bit, the length of the
/// prefixes at that position. Index 15 is that of `END_BIT`.
pub const BIT_MATCH: [u32; 32] = [
    0, 1, 1, 2, 2, 2, 2, 3, 3, 3, 3, 3, 3, 3, 3, 0, 4, 4, 4, 4, 4, 4, 4, 4, 4, 4, 4, 4, 4, 4, 4, 4,
];

/// What a node says of a digit: that a prefix of the digit ends in the node (its
/// collection of results, the index in it, and the index of the bit), that a
/// child follows (its collection of nodes, and the index in it), or neither.
#[derive(Clone, Copy, Debug, PartialEq, Eq, Structural)]
pub enum MatchResult {
    Match(AllocatorHandle, u32, u32),
    Chase(AllocatorHandle, u32),
    Miss,
}

/// A trie node. An end node has no children; the low half of its bitmap marks
/// results for prefixes of four bits. In a normal node the low half of the
/// bitmap marks children.
#[derive(Clone, Copy, Debug, PartialEq, Eq, Structural)]
pub struct TrieNode {
    pub bitmap: u32,
    pub child_ptr: usize,
    pub result_ptr: usize,
}

impl TrieNode {
    /// A normal node without results and children.
    pub fn new() -> (r: Self)
        ensures
            r == (TrieNode { bitmap: 0, child_ptr: 0, result_ptr: 0 }),
    {
        TrieNode { bitmap: 0, child_ptr: 0, result_ptr: 0 }
    }

    pub open spec fn spec_is_endnode(&self) -> bool {
        has_bit(self.bitmap, 16)
    }

    /// The node is an end node.
    #[verifier::when_used_as_spec(spec_is_endnode)]
    pub fn is_endnode(&self) -> (r: bool)
        ensures
            r == self.is_endnode(),
    {
        let bitmap: u32 = self.bitmap;
        assert(bitmap & 0x0001_0000 != 0 <==> (bitmap >> 16) & 1 == 1) by (bit_vector);
        self.bitmap & END_BIT != 0
    }

    /// Makes the node an end node.
    pub fn make_endnode(&mut self)
        ensures
            *final(self) == (TrieNode { bitmap: old(self).bitmap | END_BIT, ..*old(self) }),
    {
        self.bitmap = self.bitmap | END_BIT;
    }

    /// Makes the node a normal node; the rest of its bitmap stays as it is.
    pub fn make_normalnode(&mut self)
        ensures
            *final(self) == (TrieNode { bitmap: old(self).bitmap & END_BIT_MASK, ..*old(self) }),
    {
        self.bitmap = self.bitmap & END_BIT_MASK;
    }

    pub open spec fn spec_internal(&self) -> u32 {
        if self.is_endnode() {
            self.bitmap & END_BIT_MASK
        } else {
            self.bitmap & 0xfffe_0000
        }
    }

    /// The bits that mark results.
    #[verifier::when_used_as_spec(spec_internal)]
    pub fn internal(&self) -> (r: u32)
        ensures
            r == self.internal(),
    {
        if self.is_endnode() {
            self.bitmap & END_BIT_MASK
        } else {
            self.bitmap & 0xfffe_0000
        }
    }

    pub open spec fn spec_external(&self) -> u32 {
        if self.is_endnode() {
            0
        } else {
            self.bitmap & 0x0000_ffff
        }
    }

    /// The bits that mark children.
    #[verifier::when_used_as_spec(spec_external)]
    pub fn external(&self) -> (r: u32)
        ensures
            r == self.external(),
    {
        if self.is_endnode() {
            0
        } else {
            self.bitmap & 0x0000_ffff
        }
    }

    /// Marks the results in `bits`.
    pub fn set_internal(&mut self, bits: u32)
        ensures
            *final(self) == (TrieNode { bitmap: old(self).bitmap | bits, ..*old(self) }),
    {
        self.bitmap = self.bitmap | bits;
    }

    /// Marks the children in `bits`.
    pub fn set_external(&mut self, bits: u32)
        ensures
            *final(self) == (TrieNode { bitmap: old(self).bitmap | bits, ..*old(self) }),
    {
        self.bitmap = self.bitmap | bits;
    }

    pub open spec fn spec_result_count(&self) -> u32 {
        ones(self.internal()) as u32
    }

    /// The number of results.
    #[verifier::when_used_as_spec(spec_result_count)]
    pub fn result_count(&self) -> (r: u32)
        ensures
            r == self.result_count(),
            r == ones(self.internal()),
    {
        self.internal().count_ones()
    }

    pub open spec fn spec_child_count(&self) -> u32 {
        ones(self.external()) as u32
    }

    /// The number of children.
    #[verifier::when_used_as_spec(spec_child_count)]
    pub fn child_count(&self) -> (r: u32)
        ensures
            r == self.child_count(),
            r == ones(self.external()),
    {
        self.external().count_ones()
    }

    pub open spec fn spec_result_handle(&self) -> AllocatorHandle {
        AllocatorHandle { len: self.result_count(), offset: self.result_ptr }
    }

    /// The collection of the results of this node.
    #[verifier::when_used_as_spec(spec_result_handle)]
    pub fn result_handle(&self) -> (r: AllocatorHandle)
        ensures
            r == self.result_handle(),
    {
        AllocatorHandle::generate(self.result_count(), self.result_ptr)
    }

    pub open spec fn spec_child_handle(&self) -> AllocatorHandle {
        AllocatorHandle { len: self.child_count(), offset: self.child_ptr }
    }

    /// The collection of the children of this node.
    #[verifier::when_used_as_spec(spec_child_handle)]
    pub fn child_handle(&self) -> (r: AllocatorHandle)
        ensures
            r == self.child_handle(),
    {
        AllocatorHandle::generate(self.child_count(), self.child_ptr)
    }

    /// The node has a child for digit `n`.
    pub open spec fn has_child(self, n: u8) -> bool {
        n < 16 && has_bit(self.external(), position(n, 4))
    }

    /// Where the child for digit `n` stands in the collection of children.
    pub open spec fn child_index(self, n: u8) -> int {
        rank(self.external(), position(n, 4)) as int
    }

    /// The longest prefix in `match_mask` that ends in this node.
    pub fn match_internal(&self, match_mask: u32) -> (r: MatchResult)
        ensures
            match r {
                MatchResult::Match(hdl, index, bit_index) => {
                    let lowest = (31 - bit_index) as u32;
                    &&& bit_index < 32
                    &&& is_lowest(self.internal() & match_mask, lowest)
                    &&& hdl == self.result_handle()
                    &&& index == rank(self.internal(), lowest)
                },
                MatchResult::Chase(hdl, index) => false,
                MatchResult::Miss => self.internal() & match_mask == 0,
            },
    {
        let hits: u32 = self.internal() & match_mask;
        if hits == 0 {
            return MatchResult::Miss;
        }
        let lowest: u32 = hits.trailing_zeros();
        proof {
            lemma_lowest_bit(hits);
        }
        let index: u32 = count_above(self.internal(), lowest);
        MatchResult::Match(self.result_handle(), index, 31 - lowest)
    }

    /// The child in `match_mask`.
    pub fn match_external(&self, match_mask: u32) -> (r: MatchResult)
        ensures
            match r {
                MatchResult::Chase(hdl, index) => exists|lowest: u32|
                    {
                        &&& #[trigger] is_lowest(self.external() & match_mask, lowest)
                        &&& hdl == self.child_handle()
                        &&& index == rank(self.external(), lowest)
                    },
                MatchResult::Match(hdl, index, bit_index) => false,
                MatchResult::Miss => self.external() & match_mask == 0,
            },
    {
        let hits: u32 = self.external() & match_mask;
        if hits == 0 {
            return MatchResult::Miss;
        }
        let lowest: u32 = hits.trailing_zeros();
        proof {
            lemma_lowest_bit(hits);
        }
        let index: u32 = count_above(self.external(), lowest);
        MatchResult::Chase(self.child_handle(), index)
    }

    /// The child for a digit, or the longest prefix of the digit that ends in
    /// this node.
    pub fn match_segment(&self, segment: u8) -> (r: MatchResult)
        requires
            segment < 16,
        ensures
            self.has_child(segment) ==> r == MatchResult::Chase(
                self.child_handle(),
                self.child_index(segment) as u32,
            ),
            !self.has_child(segment) ==> match r {
                MatchResult::Match(hdl, index, bit_index) => {
                    let lowest = (31 - bit_index) as u32;
                    &&& bit_index < 32
                    &&& is_lowest(self.internal() & MATCH_MASKS[segment as int], lowest)
                    &&& hdl == self.result_handle()
                    &&& index == rank(self.internal(), lowest)
                },
                MatchResult::Chase(hdl, index) => false,
                MatchResult::Miss => self.internal() & MATCH_MASKS[segment as int] == 0,
            },
    {
        let match_mask: u32 = MATCH_MASKS[segment as usize];
        proof {
            lemma_match_child(*self, segment);
        }
        match self.match_external(match_mask) {
            MatchResult::Chase(hdl, index) => MatchResult::Chase(hdl, index),
            _ => self.match_internal(match_mask),
        }
    }
}

/// The number of set bits of `b` above position `i`.
pub fn count_above(b: u32, i: u32) -> (r: u32)
    requires
        i < 32,
    ensures
        r == rank(b, i),
{
    if i == 31 {
        0
    } else {
        proof {
            lemma_ones_shift(b, (i + 1) as u32);
        }
        (b >> (i + 1)).count_ones()
    }
}

/// The bit for the first `masklen` bits of a digit.
pub fn gen_bitmap(nibble: u8, masklen: u32) -> (r: u32)
    requires
        nibble < 16,
        masklen <= 4,
    ensures
        r == 1u32 << position(nibble, masklen),
        masklen < 4 ==> r == pow2(
            (32 - pow2(masklen as nat) - nibble as nat / pow2((4 - masklen) as nat)) as nat,
        ),
        masklen == 4 ==> r == pow2((15 - nibble) as nat),
{
    let p: u32 = match masklen {
        0 => 31,
        1 => 30 - (nibble / 8) as u32,
        2 => 28 - (nibble / 4) as u32,
        3 => 24 - (nibble / 2) as u32,
        _ => 15 - nibble as u32,
    };
    proof {
        law_positions(nibble, masklen);
        lemma2_to64();
        lemma_u32_shl_is_mul(1, p);
    }
    1u32 << p
}

pub proof fn lemma_has_bit_and(a: u32, b: u32, k: u32)
    requires
        k < 32,
    ensures
        has_bit(a & b, k) == (has_bit(a, k) && has_bit(b, k)),
{
    assert(k < 32 ==> (((a & b) >> k) & 1 == 1 <==> ((a >> k) & 1 == 1 && (b >> k) & 1 == 1)))
        by (bit_vector);
}

/// The bits in the table are those of the prefixes of the digit.
pub proof fn lemma_match_mask(n: u8, k: u32)
    requires
        n < 16,
        k < 32,
    ensures
        has_bit(MATCH_MASKS[n as int], k) <==> (k == position(n, 0) || k == position(n, 1) || k
            == position(n, 2) || k == position(n, 3) || k == position(n, 4)),
{
    let p1: u32 = position(n, 1);
    let p2: u32 = position(n, 2);
    let p3: u32 = position(n, 3);
    let p4: u32 = position(n, 4);
    assert({
        &&& 0xd100_8000u32 == (1u32 << 31) | (1u32 << 30) | (1u32 << 28) | (1u32 << 24) | (1u32
            << 15)
        &&& 0xd100_4000u32 == (1u32 << 31) | (1u32 << 30) | (1u32 << 28) | (1u32 << 24) | (1u32
            << 14)
        &&& 0xd080_2000u32 == (1u32 << 31) | (1u32 << 30) | (1u32 << 28) | (1u32 << 23) | (1u32
            << 13)
        &&& 0xd080_1000u32 == (1u32 << 31) | (1u32 << 30) | (1u32 << 28) | (1u32 << 23) | (1u32
            << 12)
        &&& 0xc840_0800u32 == (1u32 << 31) | (1u32 << 30) | (1u32 << 27) | (1u32 << 22) | (1u32
            << 11)
        &&& 0xc840_0400u32 == (1u32 << 31) | (1u32 << 30) | (1u32 << 27) | (1u32 << 22) | (1u32
            << 10)
        &&& 0xc820_0200u32 == (1u32 << 31) | (1u32 << 30) | (1u32 << 27) | (1u32 << 21) | (1u32
            << 9)
        &&& 0xc820_0100u32 == (1u32 << 31) | (1u32 << 30) | (1u32 << 27) | (1u32 << 21) | (1u32
            << 8)
        &&& 0xa410_0080u32 == (1u32 << 31) | (1u32 << 29) | (1u32 << 26) | (1u32 << 20) | (1u32
            << 7)
        &&& 0xa410_0040u32 == (1u32 << 31) | (1u32 << 29) | (1u32 << 26) | (1u32 << 20) | (1u32
            << 6)
        &&& 0xa408_0020u32 == (1u32 << 31) | (1u32 << 29) | (1u32 << 26) | (1u32 << 19) | (1u32
            << 5)
        &&& 0xa408_0010u32 == (1u32 << 31) | (1u32 << 29) | (1u32 << 26) | (1u32 << 19) | (1u32
            << 4)
        &&& 0xa204_0008u32 == (1u32 << 31) | (1u32 << 29) | (1u32 << 25) | (1u32 << 18) | (1u32
            << 3)
        &&& 0xa204_0004u32 == (1u32 << 31) | (1u32 << 29) | (1u32 << 25) | (1u32 << 18) | (1u32
            << 2)
        &&& 0xa202_0002u32 == (1u32 << 31) | (1u32 << 29) | (1u32 << 25) | (1u32 << 17) | (1u32
            << 1)
        &&& 0xa202_0001u32 == (1u32 << 31) | (1u32 << 29) | (1u32 << 25) | (1u32 << 17) | (1u32
            << 0)
    }) by (bit_vector);
    assert(n == 0 || n == 1 || n == 2 || n == 3 || n == 4 || n == 5 || n == 6 || n == 7 || n == 8
        || n == 9 || n == 10 || n == 11 || n == 12 || n == 13 || n == 14 || n == 15);
    assert(MATCH_MASKS[n as int] == (1u32 << 31) | (1u32 << p1) | (1u32 << p2) | (1u32 << p3) | (
    1u32 << p4));
    assert(k < 32 && p1 < 32 && p2 < 32 && p3 < 32 && p4 < 32 ==> ((((1u32 << 31) | (1u32 << p1) | (
    1u32 << p2) | (1u32 << p3) | (1u32 << p4)) >> k) & 1 == 1 <==> (k == 31 || k == p1 || k == p2
        || k == p3 || k == p4))) by (bit_vector);
}

/// The table gives the length of a prefix by its position.
pub proof fn lemma_bit_match(n: u8, len: u32)
    requires
        n < 16,
        len <= 4,
    ensures
        BIT_MATCH[31 - position(n, len)] == len,
{
    let k: int = 31 - position(n, len);
    if len == 1 {
        assert(k == 1 || k == 2);
    } else if len == 2 {
        assert(k == 3 || k == 4 || k == 5 || k == 6);
    } else if len == 3 {
        assert(k == 7 || k == 8 || k == 9 || k == 10 || k == 11 || k == 12 || k == 13 || k == 14);
    } else if len == 4 {
        assert(k == 16 || k == 17 || k == 18 || k == 19 || k == 20 || k == 21 || k == 22 || k == 23
            || k == 24 || k == 25 || k == 26 || k == 27 || k == 28 || k == 29 || k == 30 || k
            == 31);
    }
}

proof fn lemma_without_end_bit(b: u32, k: u32)
    requires
        k < 32,
    ensures
        has_bit(b & END_BIT_MASK, k) == (has_bit(b, k) && k != 16),
{
    assert(k < 32 ==> (((b & 0xfffe_ffff) >> k) & 1 == 1 <==> ((b >> k) & 1 == 1 && k != 16)))
        by (bit_vector);
}

/// Which bits mark results and which children.
pub proof fn lemma_node_bits(node: TrieNode, k: u32)
    requires
        k < 32,
    ensures
        has_bit(node.internal(), k) == (has_bit(node.bitmap, k) && k != 16 && (k > 16
            || node.is_endnode())),
        has_bit(node.external(), k) == (has_bit(node.bitmap, k) && k < 16 && !node.is_endnode()),
{
    let b: u32 = node.bitmap;
    lemma_without_end_bit(b, k);
    assert(k < 32 ==> (((b & 0xfffe_0000) >> k) & 1 == 1 <==> ((b >> k) & 1 == 1 && k > 16)))
        by (bit_vector);
    assert(k < 32 ==> (((b & 0xffff) >> k) & 1 == 1 <==> ((b >> k) & 1 == 1 && k < 16)))
        by (bit_vector);
    lemma_zero_has_no_bit(k);
}

/// Marking a result changes neither the kind of the node nor its children.
pub proof fn lemma_mark_result(node: TrieNode, b: u32)
    requires
        b < 32,
        b != 16,
        b > 16 || node.is_endnode(),
    ensures
        ({
            let marked = TrieNode { bitmap: node.bitmap | (1u32 << b), ..node };
            &&& marked.is_endnode() == node.is_endnode()
            &&& marked.external() == node.external()
            &&& marked.internal() == node.internal() | (1u32 << b)
        }),
        has_bit(node.internal(), b) ==> node.internal() | (1u32 << b) == node.internal(),
{
    let m: u32 = node.bitmap;
    let i: u32 = node.internal();
    lemma_has_bit_or(m, b, 16);
    assert(b < 32 && b != 16 ==> (m | (1u32 << b)) & 0xfffe_ffff == (m & 0xfffe_ffff) | (1u32 << b))
        by (bit_vector);
    assert(16 < b < 32 ==> (m | (1u32 << b)) & 0xfffe_0000 == (m & 0xfffe_0000) | (1u32 << b))
        by (bit_vector);
    assert(16 < b < 32 ==> (m | (1u32 << b)) & 0xffff == m & 0xffff) by (bit_vector);
    assert(b < 32 && (i >> b) & 1 == 1 ==> i | (1u32 << b) == i) by (bit_vector);
}

/// Marking a child changes neither the kind of the node nor its results.
pub proof fn lemma_mark_child(node: TrieNode, b: u32)
    requires
        b < 16,
        !node.is_endnode(),
    ensures
        ({
            let marked = TrieNode { bitmap: node.bitmap | (1u32 << b), ..node };
            &&& !marked.is_endnode()
            &&& marked.internal() == node.internal()
            &&& marked.external() == node.external() | (1u32 << b)
        }),
{
    let m: u32 = node.bitmap;
    lemma_has_bit_or(m, b, 16);
    assert(b < 16 ==> (m | (1u32 << b)) & 0xfffe_0000 == m & 0xfffe_0000) by (bit_vector);
    assert(b < 16 ==> (m | (1u32 << b)) & 0xffff == (m & 0xffff) | (1u32 << b)) by (bit_vector);
}

/// An end node made into a normal node: results for four bits become children.
pub proof fn lemma_make_normal(node: TrieNode)
    requires
        node.is_endnode(),
    ensures
        ({
            let normal = TrieNode { bitmap: node.bitmap & END_BIT_MASK, ..node };
            &&& !normal.is_endnode()
            &&& normal.internal() == node.internal() & 0xffff_0000
            &&& normal.external() == node.internal() & 0x0000_ffff
        }),
{
    let m: u32 = node.bitmap;
    assert(((m & 0xfffe_ffff) >> 16) & 1 == 0) by (bit_vector);
    assert((m & 0xfffe_ffff) & 0xfffe_0000 == (m & 0xfffe_ffff) & 0xffff_0000) by (bit_vector);
}

/// An end node with nothing else marked has no results.
pub proof fn lemma_empty_endnode(node: TrieNode)
    requires
        node.bitmap == 0u32 | END_BIT,
    ensures
        node.is_endnode(),
        node.internal() == 0,
{
    assert(((0u32 | 0x0001_0000) >> 16) & 1 == 1) by (bit_vector);
    assert((0u32 | 0x0001_0000) & 0xfffe_ffff == 0) by (bit_vector);
}

/// Of the bits for a digit only that of the digit itself can mark a child.
pub proof fn lemma_match_child(node: TrieNode, n: u8)
    requires
        n < 16,
    ensures
        node.external() & MATCH_MASKS[n as int] != 0 <==> node.has_child(n),
        forall|k: u32|
            k < 32 ==> (#[trigger] has_bit(node.external() & MATCH_MASKS[n as int], k) <==> (k
                == position(n, 4) && node.has_child(n))),
        rank(node.external(), position(n, 4)) < 32,
{
    let hits: u32 = node.external() & MATCH_MASKS[n as int];
    let p: u32 = position(n, 4);
    assert forall|k: u32| k < 32 implies (#[trigger] has_bit(hits, k) <==> (k == p
        && node.has_child(n))) by {
        lemma_has_bit_and(node.external(), MATCH_MASKS[n as int], k);
        lemma_match_mask(n, k);
        lemma_node_bits(node, k);
    }
    if hits != 0 {
        lemma_lowest_bit(hits);
    } else {
        lemma_zero_has_no_bit(p);
        assert(has_bit(hits, p) == node.has_child(n));
    }
    lemma_ones_from_mono(node.external(), (p + 1) as u32, 32);
}

/// The prefixes of a digit are numbered from the shortest one on: those of `len`
/// bits follow the `2^len - 1` shorter ones, in the order of their bits, from
/// position 31 down. Those of four bits stand in the low half.
pub proof fn law_positions(n: u8, len: u32)
    requires
        n < 16,
        len <= 4,
    ensures
        position(n, len) < 32,
        len < 4 ==> position(n, len) == 32 - pow2(len as nat) - n as nat / pow2((4 - len) as nat),
        len == 4 ==> position(n, len) == 15 - n,
{
    lemma_quotients(n);
    assert(len == 0 || len == 1 || len == 2 || len == 3 || len == 4);
}

/// The first bits of a digit as quotients.
proof fn lemma_quotients(n: u8)
    requires
        n < 16,
    ensures
        pow2(0) == 1 && pow2(1) == 2 && pow2(2) == 4 && pow2(3) == 8 && pow2(4) == 16,
        n as nat / pow2(4) == 0,
        n as nat / pow2(3) == n / 8,
        n as nat / pow2(2) == n / 4,
        n as nat / pow2(1) == n / 2,
        n as nat / pow2(0) == n,
{
    lemma2_to64();
    assert(n as nat / 16 == 0);
    assert(n as nat / 1 == n);
}

/// Two digits share a position exactly if it is for the same length, and they
/// agree on that many bits.
pub proof fn law_positions_are_distinct(a: u8, len: u32, b: u8, other: u32)
    requires
        a < 16,
        b < 16,
        len <= 4,
        other <= 4,
    ensures
        position(a, len) == position(b, other) <==> len == other && a as nat / pow2(
            (4 - len) as nat,
        ) == b as nat / pow2((4 - len) as nat),
        position(a, len) != 16,
        len < other ==> position(b, other) < position(a, len),
{
    lemma_quotients(a);
    lemma_quotients(b);
    assert(len == 0 || len == 1 || len == 2 || len == 3 || len == 4);
}

/// The mask of a digit has a bit for each of its five prefixes and no other, and the
/// length of a prefix can be read off its position.
pub proof fn law_masks_hold_prefixes(n: u8, k: u32)
    requires
        n < 16,
        k < 32,
    ensures
        (MATCH_MASKS[n as int] as nat / pow2(k as nat)) % 2 == 1 <==> (k == 15 - n || exists|len: u32|
            len < 4 && k == 32 - #[trigger] pow2(len as nat) - n as nat / pow2((4 - len) as nat)),
        k == 15 - n ==> BIT_MATCH[31 - k] == 4,
        forall|len: u32|
            len < 4 && k == 32 - #[trigger] pow2(len as nat) - n as nat / pow2((4 - len) as nat)
                ==> BIT_MATCH[31 - k] == len,
        BIT_MATCH[15] == 0,
{
    lemma_match_mask(n, k);
    law_bits_are_binary_digits(MATCH_MASKS[n as int], k);
    lemma_bit_match(n, 4);
    assert forall|len: u32| len < 4 implies position(n, len) == 32 - #[trigger] pow2(len as nat)
        - n as nat / pow2((4 - len) as nat) && BIT_MATCH[31 - position(n, len)] == len by {
        law_positions(n, len);
        lemma_bit_match(n, len);
    }
    law_positions(n, 4);
    assert(pow2(0u32 as nat) > 0 && pow2(1u32 as nat) > 0 && pow2(2u32 as nat) > 0 && pow2(
        3u32 as nat,
    ) > 0) by {
        lemma2_to64();
    }
}

/// The kind of a node is bit 16 of its bitmap. The bits above it mark results;
/// those below mark results in an end node, and children in a normal one.
pub proof fn law_node_marks(node: TrieNode, k: u32)
    requires
        k < 32,
    ensures
        node.is_endnode() <==> (node.bitmap as nat / 0x1_0000) % 2 == 1,
        (node.internal() as nat / pow2(k as nat)) % 2 == 1 <==> (node.bitmap as nat / pow2(
            k as nat,
        )) % 2 == 1 && (k > 16 || k < 16 && (node.bitmap as nat / 0x1_0000) % 2 == 1),
        (node.external() as nat / pow2(k as nat)) % 2 == 1 <==> (node.bitmap as nat / pow2(
            k as nat,
        )) % 2 == 1 && k < 16 && (node.bitmap as nat / 0x1_0000) % 2 == 0,
{
    lemma2_to64();
    lemma_node_bits(node, k);
    law_bits_are_binary_digits(node.bitmap, 16);
    law_bits_are_binary_digits(node.bitmap, k);
    law_bits_are_binary_digits(node.internal(), k);
    law_bits_are_binary_digits(node.external(), k);
}

/// Changing the kind of a node sets or clears bit 16, and no other.
pub proof fn law_kind_is_one_bit(node: TrieNode, k: u32)
    requires
        k < 32,
    ensures
        ((node.bitmap | END_BIT) as nat / pow2(k as nat)) % 2 == 1 <==> k == 16 || (
        node.bitmap as nat / pow2(k as nat)) % 2 == 1,
        ((node.bitmap & END_BIT_MASK) as nat / pow2(k as nat)) % 2 == 1 <==> k != 16 && (
        node.bitmap as nat / pow2(k as nat)) % 2 == 1,
{
    let b: u32 = node.bitmap;
    assert(1u32 << 16 == 0x0001_0000) by (bit_vector);
    lemma_has_bit_or(b, 16, k);
    lemma_without_end_bit(b, k);
    law_bits_are_binary_digits(b, k);
    law_bits_are_binary_digits(b | END_BIT, k);
    law_bits_are_binary_digits(b & END_BIT_MASK, k);
}

/// The collections of a node are as long as it has marks, and stand where it
/// points to.
pub proof fn law_node_collections(node: TrieNode)
    ensures
        node.result_count() == Set::new(
            |k: u32| k < 32 && (node.internal() as nat / pow2(k as nat)) % 2 == 1,
        ).len(),
        node.child_count() == Set::new(
            |k: u32| k < 32 && (node.external() as nat / pow2(k as nat)) % 2 == 1,
        ).len(),
        node.result_handle().len == node.result_count(),
        node.result_handle().offset == node.result_ptr,
        node.child_handle().len == node.child_count(),
        node.child_handle().offset == node.child_ptr,
{
    law_ones_are_counted(node.internal(), 0);
    law_ones_are_counted(node.external(), 0);
    lemma_ones_from_mono(node.internal(), 0, 32);
    lemma_ones_from_mono(node.external(), 0, 32);
}

/// The child for a digit is marked at the position of all four bits, and comes
/// behind as many others as smaller digits have children.
pub proof fn law_children_in_order(node: TrieNode, n: u8)
    requires
        n < 16,
    ensures
        node.has_child(n) <==> (node.external() as nat / pow2((15 - n) as nat)) % 2 == 1,
        node.child_index(n) == Set::new(
            |k: u32| 15 - n < k < 32 && (node.external() as nat / pow2(k as nat)) % 2 == 1,
        ).len(),
{
    let p: u32 = (15 - n) as u32;
    law_bits_are_binary_digits(node.external(), p);
    law_ones_are_counted(node.external(), p);
    assert(Set::new(
        |k: u32| p < k < 32 && (node.external() as nat / pow2(k as nat)) % 2 == 1,
    ) =~= Set::new(
        |k: u32| 15 - n < k < 32 && (node.external() as nat / pow2(k as nat)) % 2 == 1,
    ));
}

/// The lowest mark among those for a digit is that of its longest prefix in the
/// node, and the table gives the length of that prefix.
pub proof fn law_lowest_mark_is_longest(node: TrieNode, n: u8, low: u32)
    requires
        n < 16,
        is_lowest(node.internal() & MATCH_MASKS[n as int], low),
    ensures
        BIT_MATCH[31 - low] <= 4,
        low == position(n, BIT_MATCH[31 - low]),
        has_bit(node.internal(), low),
        forall|len: u32|
            BIT_MATCH[31 - low] < len <= 4 ==> !has_bit(
                node.internal(),
                #[trigger] position(n, len),
            ),
{
    let mask: u32 = MATCH_MASKS[n as int];
    lemma_has_bit_and(node.internal(), mask, low);
    lemma_match_mask(n, low);
    let r: u32 = if low == position(n, 0) {
        0
    } else if low == position(n, 1) {
        1
    } else if low == position(n, 2) {
        2
    } else if low == position(n, 3) {
        3
    } else {
        4
    };
    lemma_bit_match(n, r);
    assert forall|len: u32| r < len <= 4 implies !has_bit(
        node.internal(),
        #[trigger] position(n, len),
    ) by {
        law_positions_are_distinct(n, r, n, len);
        lemma_has_bit_and(node.internal(), mask, position(n, len));
        lemma_match_mask(n, position(n, len));
        assert(len == 1 || len == 2 || len == 3 || len == 4);
    }
}

/// A digit has no mark in a node exactly if none of its prefixes has one.
pub proof fn law_no_mark_is_no_prefix(node: TrieNode, n: u8)
    requires
        n < 16,
    ensures
        node.internal() & MATCH_MASKS[n as int] == 0 <==> forall|len: u32|
            len <= 4 ==> !has_bit(node.internal(), #[trigger] position(n, len)),
{
    let hits: u32 = node.internal() & MATCH_MASKS[n as int];
    if hits == 0 {
        assert forall|len: u32| len <= 4 implies !has_bit(
            node.internal(),
            #[trigger] position(n, len),
        ) by {
            lemma_has_bit_and(node.internal(), MATCH_MASKS[n as int], position(n, len));
            lemma_match_mask(n, position(n, len));
            lemma_zero_has_no_bit(position(n, len));
            assert(len == 0 || len == 1 || len == 2 || len == 3 || len == 4);
        }
    } else {
        lemma_lowest_bit(hits);
        let low: u32 = vstd::std_specs::bits::u32_trailing_zeros(hits);
        law_lowest_mark_is_longest(node, n, low);
        assert(has_bit(node.internal(), position(n, BIT_MATCH[31 - low])));
    }
}

} // verus!
