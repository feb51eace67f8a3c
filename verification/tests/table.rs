use treebitmap::{Ipv4Addr, TreeBitmap};

#[test]
fn test_treebitmap_insert() {
    let mut tbm = TreeBitmap::<u32>::new();
    tbm.insert(Ipv4Addr::new(0, 0, 0, 0), 0, 100001);
    tbm.insert(Ipv4Addr::new(10, 0, 0, 0), 8, 100002);
    tbm.insert(Ipv4Addr::new(77, 66, 19, 0), 24, 100003);
    tbm.insert(Ipv4Addr::new(77, 66, 19, 0), 28, 100004);
    tbm.insert(Ipv4Addr::new(217, 116, 224, 0), 19, 100005);
}

#[test]
fn test_treebitmap_insert_dup() {
    let mut tbm = TreeBitmap::<u32>::new();
    assert_eq!(tbm.insert(Ipv4Addr::new(10, 0, 0, 0), 8, 1), None);
    assert_eq!(tbm.insert(Ipv4Addr::new(10, 0, 0, 0), 8, 2), Some(1));
}

#[test]
fn test_treebitmap_longest_match() {
    let mut tbm = TreeBitmap::<u32>::new();
    tbm.insert(Ipv4Addr::new(10, 0, 0, 0), 8, 100002);
    tbm.insert(Ipv4Addr::new(100, 64, 0, 0), 24, 10064024);
    tbm.insert(Ipv4Addr::new(100, 64, 1, 0), 24, 10064124);
    tbm.insert(Ipv4Addr::new(100, 64, 0, 0), 10, 100004);

    let result = tbm.longest_match(Ipv4Addr::new(10, 10, 10, 10));
    assert_eq!(result, Some((Ipv4Addr::new(10, 0, 0, 0), 8, &100002)));

    let result = tbm.longest_match(Ipv4Addr::new(100, 100, 100, 100));
    assert_eq!(result, Some((Ipv4Addr::new(100, 64, 0, 0), 10, &100004)));

    let result = tbm.longest_match(Ipv4Addr::new(100, 64, 0, 100));
    assert_eq!(result, Some((Ipv4Addr::new(100, 64, 0, 0), 24, &10064024)));

    let result = tbm.longest_match(Ipv4Addr::new(200, 200, 200, 200));
    assert_eq!(result, None);
}

#[test]
fn test_treebitmap_pushdown() {
    let mut tbm = TreeBitmap::<u32>::new();
    let mut result_hdl = tbm.results.allocate(0);
    let root_hdl = tbm.root_handle();
    let mut root_node = tbm.root_node();

    root_node.make_endnode();
    let node_count: u32 = 16;
    for i in 0..node_count {
        tbm.results.insert(&mut result_hdl, i, 100 + i);
        root_node.set_internal(1 << (node_count - i - 1));
    }

    tbm.trienodes.set(&root_hdl, 0, root_node);
    tbm.push_down(&mut root_node);
    tbm.trienodes.set(&root_hdl, 0, root_node);

    assert!(!root_node.is_endnode());
    assert_eq!(root_node.internal(), 0);
    assert_eq!(root_node.external(), 0xffff);
    assert_eq!(root_node.child_count(), 16);
    for i in 0..node_count {
        let child = *tbm.trienodes.get(&root_node.child_handle(), i);
        assert_eq!(child.internal(), 1 << 31);
        assert_eq!(child.result_count(), 1);
        assert_eq!(*tbm.results.get(&child.result_handle(), 0), 100 + i);
    }
}

#[test]
fn pushdown_keeps_the_short_prefixes_in_place() {
    let mut tbm = TreeBitmap::<&str>::new();
    let mut result_hdl = tbm.results.allocate(0);
    let mut node = tbm.root_node();
    node.make_endnode();
    tbm.results.insert(&mut result_hdl, 0, "all");
    tbm.results.insert(&mut result_hdl, 1, "half");
    tbm.results.insert(&mut result_hdl, 2, "last digit");
    node.set_internal(1 << 31);
    node.set_internal(1 << 29);
    node.set_internal(1);
    node.result_ptr = result_hdl.offset;
    tbm.push_down(&mut node);
    assert_eq!(node.internal(), (1 << 31) | (1 << 29));
    assert_eq!(node.external(), 1);
    assert_eq!(*tbm.results.get(&node.result_handle(), 0), "all");
    assert_eq!(*tbm.results.get(&node.result_handle(), 1), "half");
    let child = *tbm.trienodes.get(&node.child_handle(), 0);
    assert_eq!(*tbm.results.get(&child.result_handle(), 0), "last digit");
}

#[test]
fn pushdown_without_long_prefixes_only_changes_the_kind() {
    let mut tbm = TreeBitmap::<u8>::new();
    let mut node = tbm.root_node();
    node.make_endnode();
    tbm.push_down(&mut node);
    assert!(!node.is_endnode());
    assert_eq!(node.bitmap, 0);
    assert_eq!(node.child_ptr, 0);
    assert_eq!(node.result_ptr, 0);
}

#[test]
fn root_counts_short_prefixes_and_first_digits() {
    let mut tbm = TreeBitmap::<u8>::new();
    let root = tbm.root_node();
    assert!(!root.is_endnode());
    assert_eq!((root.result_count(), root.child_count()), (0, 0));
    let keys = [
        (Ipv4Addr::new(0, 0, 0, 0), 0),
        (Ipv4Addr::new(128, 0, 0, 0), 1),
        (Ipv4Addr::new(255, 0, 0, 0), 1),
        (Ipv4Addr::new(224, 0, 0, 0), 3),
        (Ipv4Addr::new(16, 0, 0, 0), 4),
        (Ipv4Addr::new(17, 2, 3, 4), 32),
        (Ipv4Addr::new(31, 2, 3, 4), 28),
        (Ipv4Addr::new(240, 0, 0, 0), 5),
    ];
    for (ip, len) in keys {
        tbm.insert(ip, len, 0);
    }
    tbm.shrink_to_fit();
    let root = tbm.root_node();
    assert!(!root.is_endnode());
    assert_eq!((root.result_count(), root.child_count()), (3, 2));
}

#[test]
fn empty_table_matches_nothing() {
    let tbm = TreeBitmap::<u8>::with_capacity(512);
    assert_eq!(tbm.longest_match(Ipv4Addr::new(0, 0, 0, 0)), None);
    assert_eq!(tbm.longest_match(Ipv4Addr::new(255, 255, 255, 255)), None);
}

#[test]
fn default_route_matches_everything() {
    let mut tbm = TreeBitmap::<u8>::new();
    assert_eq!(tbm.insert(Ipv4Addr::new(1, 2, 3, 4), 0, 7), None);
    let any = Ipv4Addr::new(0, 0, 0, 0);
    assert_eq!(tbm.longest_match(Ipv4Addr::new(0, 0, 0, 0)), Some((any, 0, &7)));
    assert_eq!(tbm.longest_match(Ipv4Addr::new(255, 255, 255, 255)), Some((any, 0, &7)));
}

#[test]
fn host_bits_are_ignored() {
    let mut tbm = TreeBitmap::<u8>::new();
    assert_eq!(tbm.insert(Ipv4Addr::new(10, 1, 2, 3), 15, 1), None);
    assert_eq!(tbm.insert(Ipv4Addr::new(10, 0, 0, 0), 15, 2), Some(1));
    let net = Ipv4Addr::new(10, 0, 0, 0);
    assert_eq!(tbm.longest_match(Ipv4Addr::new(10, 1, 255, 255)), Some((net, 15, &2)));
    assert_eq!(tbm.longest_match(Ipv4Addr::new(10, 2, 0, 0)), None);
}

#[test]
fn every_length_of_one_address() {
    let mut up = TreeBitmap::<u32>::new();
    let mut down = TreeBitmap::<u32>::new();
    let ip = Ipv4Addr::new(170, 85, 15, 129);
    for len in 0..33 {
        assert_eq!(up.insert(ip, len, len), None);
        assert_eq!(down.insert(ip, 32 - len, 32 - len), None);
        let (net, matched, value) = up.longest_match(ip).unwrap();
        assert_eq!((matched, *value), (len, len));
        assert_eq!(net.bits, mask(ip.bits, len));
        assert_eq!(down.longest_match(ip).unwrap().1, 32);
    }
    for len in 0..32 {
        // an address that agrees with the other on the first `len` bits alone
        let near = Ipv4Addr::from(ip.bits ^ (1 << (31 - len)));
        let expected = Some((Ipv4Addr::from(mask(ip.bits, len)), len, &len));
        assert_eq!(up.longest_match(near), expected);
        assert_eq!(down.longest_match(near), expected);
    }
    for len in 0..33 {
        assert_eq!(up.insert(ip, len, 100), Some(len));
        assert_eq!(down.insert(ip, len, 100), Some(len));
    }
}

#[test]
fn host_prefix_below_a_pushed_down_prefix() {
    let mut tbm = TreeBitmap::<u8>::new();
    let net = Ipv4Addr::new(192, 168, 7, 16);
    let host = Ipv4Addr::new(192, 168, 7, 21);
    assert_eq!(tbm.insert(net, 28, 1), None);
    assert_eq!(tbm.insert(host, 32, 2), None);
    assert_eq!(tbm.longest_match(host), Some((host, 32, &2)));
    assert_eq!(tbm.longest_match(Ipv4Addr::new(192, 168, 7, 22)), Some((net, 28, &1)));
    assert_eq!(tbm.insert(host, 32, 3), Some(2));
    assert_eq!(tbm.longest_match(host), Some((host, 32, &3)));
    assert_eq!(tbm.insert(net, 28, 4), Some(1));
    assert_eq!(tbm.longest_match(Ipv4Addr::new(192, 168, 7, 31)), Some((net, 28, &4)));
}

#[test]
fn shorter_prefixes_do_not_hide_longer_ones() {
    let mut tbm = TreeBitmap::<u8>::new();
    let addr = Ipv4Addr::new(10, 20, 30, 40);
    tbm.insert(Ipv4Addr::new(10, 20, 0, 0), 16, 1);
    let before = Some((Ipv4Addr::new(10, 20, 0, 0), 16, &1));
    assert_eq!(tbm.longest_match(addr), before);
    tbm.insert(Ipv4Addr::new(10, 0, 0, 0), 8, 2);
    tbm.insert(Ipv4Addr::new(10, 20, 0, 0), 15, 3);
    assert_eq!(tbm.longest_match(addr), before);
    tbm.insert(Ipv4Addr::new(10, 20, 28, 0), 22, 4);
    assert_eq!(tbm.longest_match(addr), Some((Ipv4Addr::new(10, 20, 28, 0), 22, &4)));
}

#[test]
fn insertions_elsewhere_change_nothing() {
    let mut tbm = TreeBitmap::<u8>::new();
    let addr = Ipv4Addr::new(10, 20, 30, 40);
    tbm.insert(Ipv4Addr::new(11, 0, 0, 0), 8, 1);
    tbm.insert(Ipv4Addr::new(10, 20, 30, 41), 32, 2);
    assert_eq!(tbm.longest_match(addr), None);
    tbm.insert(Ipv4Addr::new(10, 20, 0, 0), 17, 3);
    let before = Some((Ipv4Addr::new(10, 20, 0, 0), 17, &3));
    assert_eq!(tbm.longest_match(addr), before);
    tbm.insert(Ipv4Addr::new(10, 20, 128, 0), 17, 4);
    tbm.insert(Ipv4Addr::new(10, 20, 31, 0), 24, 5);
    assert_eq!(tbm.longest_match(addr), before);
}

#[test]
fn a_matched_network_is_in_the_table() {
    let mut tbm = TreeBitmap::<u8>::new();
    tbm.insert(Ipv4Addr::new(172, 16, 99, 99), 12, 1);
    let (net, len, _) = tbm.longest_match(Ipv4Addr::new(172, 31, 255, 255)).unwrap();
    assert_eq!((net, len), (Ipv4Addr::new(172, 16, 0, 0), 12));
    assert_eq!(tbm.insert(net, len, 2), Some(1));
}

#[test]
fn shrinking_keeps_the_table() {
    let mut tbm = TreeBitmap::<u8>::with_capacity(512);
    tbm.insert(Ipv4Addr::new(8, 8, 8, 0), 24, 1);
    tbm.insert(Ipv4Addr::new(8, 0, 0, 0), 8, 2);
    tbm.shrink_to_fit();
    assert_eq!(
        tbm.longest_match(Ipv4Addr::new(8, 8, 8, 8)),
        Some((Ipv4Addr::new(8, 8, 8, 0), 24, &1))
    );
    assert_eq!(tbm.insert(Ipv4Addr::new(8, 8, 8, 0), 24, 3), Some(1));
    assert_eq!(tbm.insert(Ipv4Addr::new(8, 8, 8, 8), 32, 4), None);
    assert_eq!(
        tbm.longest_match(Ipv4Addr::new(8, 8, 8, 8)),
        Some((Ipv4Addr::new(8, 8, 8, 8), 32, &4))
    );
}

#[test]
fn insertion_order_does_not_matter() {
    let prefixes = sample(200);
    let mut forward = TreeBitmap::<usize>::new();
    let mut backward = TreeBitmap::<usize>::new();
    for (i, (ip, len)) in prefixes.iter().enumerate() {
        forward.insert(Ipv4Addr::from(*ip), *len, i);
    }
    for (i, (ip, len)) in prefixes.iter().enumerate().rev() {
        backward.insert(Ipv4Addr::from(*ip), *len, i);
    }
    for (ip, _) in &prefixes {
        let a = forward.longest_match(Ipv4Addr::from(*ip)).unwrap();
        let b = backward.longest_match(Ipv4Addr::from(*ip)).unwrap();
        assert_eq!((a.0, a.1), (b.0, b.1));
    }
}

#[test]
fn lookups_agree_with_a_linear_search() {
    let mut tbm = TreeBitmap::<(u32, u32)>::with_capacity(16);
    let mut list: Vec<(u32, u32)> = Vec::new();
    for (ip, len) in sample(2000) {
        let key = (mask(ip, len), len);
        let known = list.contains(&key);
        let previous = tbm.insert(Ipv4Addr::from(ip), len, key);
        assert_eq!(previous, if known { Some(key) } else { None });
        if !known {
            list.push(key);
        }
    }
    for (ip, _) in sample(3000) {
        let best = list
            .iter()
            .filter(|(net, len)| mask(ip, *len) == *net)
            .max_by_key(|(_, len)| *len);
        match tbm.longest_match(Ipv4Addr::from(ip)) {
            Some((net, len, value)) => {
                assert_eq!(Some(&(net.bits, len)), best);
                assert_eq!(value, &(net.bits, len));
            }
            None => assert_eq!(best, None),
        }
    }
}

fn mask(ip: u32, len: u32) -> u32 {
    if len == 0 {
        0
    } else {
        ip & (u32::MAX << (32 - len))
    }
}

/// Prefixes that crowd into a small part of the address space, so that they nest
/// and meet.
fn sample(n: usize) -> Vec<(u32, u32)> {
    let mut state: u64 = 0x2545_f491_4f6c_dd1d;
    let mut list = Vec::new();
    for _ in 0..n {
        state ^= state << 13;
        state ^= state >> 7;
        state ^= state << 17;
        let ip = ((state >> 16) as u32) & 0x1f00_137f;
        let len = ((state >> 52) as u32) % 33;
        list.push((ip, len));
    }
    list
}
