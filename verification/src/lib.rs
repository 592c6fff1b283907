//! Longest-prefix-match route lookup over two structures — a prefix-ordered
//! binary search tree and a bounded-depth binary radix trie — together with
//! the small link-layer helpers that accompany them: a CRC-32 based multicast
//! filter simulation and a MAC-address table using open double hashing.

pub mod addr;
pub mod bits;
pub mod bst;
pub mod laws;
pub mod mac_table;
pub mod mcast;
pub mod text;
pub mod trie;
