pub mod bpstore;
pub mod page;
pub mod pager;
pub mod wal;
pub mod tree;
