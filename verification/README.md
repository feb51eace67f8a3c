# treebitmap

A table from IPv4 prefixes to values with longest-prefix lookup, after the
Tree-bitmap algorithm of W. Eatherton, Z. Dittia and G. Varghese, verified with
Verus.

- `src/tree_bitmap.rs`: `TreeBitmap` with `insert` and `longest_match`. Its view
  is the map from prefixes to values.
- `src/laws.rs`: what holds of tables and lookups in general.
- `src/model.rs`: what the nodes and the stored collections mean.
- `src/trie.rs`: trie nodes. Each covers four bits of an address in one bitmap.
- `src/allocator.rs`: storage for the children and the results of nodes.
- `src/root.rs`: what the root node says of the prefixes in the table.
- `src/bits.rs`, `src/nibbles.rs`, `src/prefix.rs`, `src/ipv4.rs`: bits, digits,
  prefixes and addresses.
- `app/`: the table behind `std::net::Ipv4Addr`, and tables read from files.
