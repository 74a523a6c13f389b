pub mod b_plus_tree;
pub mod bptree;
pub mod bytes_util;
pub mod keys;
pub mod memory;
pub mod tree_proofs;
