use treebitmap::allocator::{Allocator, AllocatorHandle};
use treebitmap::nibbles::nibbles;
use treebitmap::trie::{count_above, gen_bitmap, MatchResult, TrieNode, BIT_MATCH, MATCH_MASKS};
use treebitmap::Ipv4Addr;

#[test]
fn addresses_are_big_endian_numbers() {
    assert_eq!(Ipv4Addr::new(1, 2, 3, 4).bits, 0x0102_0304);
    assert_eq!(u32::from(Ipv4Addr::new(255, 0, 0, 1)), 0xff00_0001);
    assert_eq!(Ipv4Addr::from(0x7f00_0001), Ipv4Addr::new(127, 0, 0, 1));
}

#[test]
fn digits_of_an_address() {
    assert_eq!(nibbles(0x1234_abcd), [1, 2, 3, 4, 10, 11, 12, 13, 0]);
}

#[test]
fn bits_of_prefixes() {
    assert_eq!(gen_bitmap(0b1010, 0), 1 << 31);
    assert_eq!(gen_bitmap(0b1010, 1), 1 << 29);
    assert_eq!(gen_bitmap(0b1010, 2), 1 << 26);
    assert_eq!(gen_bitmap(0b1010, 3), 1 << 19);
    assert_eq!(gen_bitmap(0b1010, 4), 1 << 5);
    for digit in 0..16u8 {
        let mut mask = 0;
        for len in 0..5 {
            let bit = gen_bitmap(digit, len);
            assert_eq!(BIT_MATCH[bit.leading_zeros() as usize], len);
            mask |= bit;
        }
        assert_eq!(MATCH_MASKS[digit as usize], mask);
    }
}

#[test]
fn counting_bits_above_a_position() {
    assert_eq!(count_above(0b1011, 0), 2);
    assert_eq!(count_above(0b1011, 1), 1);
    assert_eq!(count_above(u32::MAX, 31), 0);
    assert_eq!(count_above(u32::MAX, 0), 31);
}

#[test]
fn kinds_of_nodes() {
    let mut node = TrieNode::new();
    assert!(!node.is_endnode());
    node.make_endnode();
    assert!(node.is_endnode());
    node.set_internal(gen_bitmap(3, 4));
    assert_eq!((node.internal(), node.external()), (1 << 12, 0));
    assert_eq!((node.result_count(), node.child_count()), (1, 0));
    node.make_normalnode();
    assert_eq!((node.internal(), node.external()), (0, 1 << 12));
    assert_eq!((node.result_count(), node.child_count()), (0, 1));
}

#[test]
fn matching_a_digit() {
    let mut node = TrieNode::new();
    assert_eq!(node.match_segment(9), MatchResult::Miss);
    node.set_internal(gen_bitmap(0, 0));
    node.set_internal(gen_bitmap(8, 2));
    node.result_ptr = 5;
    let hit = MatchResult::Match(AllocatorHandle::generate(2, 5), 1, 5);
    assert_eq!(node.match_segment(9), hit);
    assert_eq!(node.match_internal(MATCH_MASKS[9]), hit);
    assert_eq!(
        node.match_segment(4),
        MatchResult::Match(AllocatorHandle::generate(2, 5), 0, 0)
    );
    node.set_external(gen_bitmap(2, 4));
    node.set_external(gen_bitmap(9, 4));
    node.child_ptr = 3;
    let child = MatchResult::Chase(AllocatorHandle::generate(2, 3), 1);
    assert_eq!(node.match_segment(9), child);
    assert_eq!(node.match_external(MATCH_MASKS[9]), child);
    assert_eq!(node.match_external(MATCH_MASKS[8]), MatchResult::Miss);
}

#[test]
fn collections_grow_and_shrink() {
    let mut store: Allocator<u32> = Allocator::with_capacity(2);
    let mut a = store.allocate(0);
    let mut b = store.allocate(0);
    for i in 0..32 {
        store.insert(&mut a, 0, i);
        store.insert(&mut b, i, i);
    }
    assert_eq!((a.len, b.len), (32, 32));
    for i in 0..32 {
        assert_eq!(*store.get(&a, i), 31 - i);
        assert_eq!(*store.get(&b, i), i);
    }
    store.set(&a, 7, 77);
    store.shrink_to_fit();
    assert_eq!(store.remove(&mut a, 7), 77);
    for i in 0..32 {
        assert_eq!(store.remove(&mut b, 0), i);
    }
    assert_eq!((a.len, b.len), (31, 0));
    assert_eq!(*store.get(&a, 7), 23);
    store.insert(&mut b, 0, 5);
    assert_eq!(*store.get(&b, 0), 5);
    assert_eq!(*store.get(&a, 0), 31);
}

#[test]
fn vacated_slots_are_used_again() {
    let mut store: Allocator<u8> = Allocator::with_capacity(0);
    let mut a = store.allocate(0);
    assert_eq!(a, AllocatorHandle { len: 0, offset: 0 });
    store.insert(&mut a, 0, 1);
    store.insert(&mut a, 1, 2);
    let b = store.allocate(0);
    assert_eq!(b.offset, 0);
    let c = store.allocate(0);
    assert_eq!(c.offset, 1);
}
