//! A data structure for fast IPv4 lookups in software, based on the Tree-bitmap
//! algorithm described by W. Eatherton, Z. Dittia and G. Varghese.

pub mod allocator;
pub mod bits;
pub mod ipv4;
pub mod laws;
pub mod model;
pub mod nibbles;
pub mod prefix;
pub mod ranges;
pub mod root;
pub mod tree_bitmap;
pub mod trie;

pub use ipv4::Ipv4Addr;
pub use tree_bitmap::TreeBitmap;
