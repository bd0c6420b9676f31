//! Fixed-size block storage with two engines on top of it: a natural merge
//! sort over tapes of records, and a paged B-tree index with a data store.

pub mod bytes;
pub mod cache;
pub mod btree;
pub mod btree_key;
pub mod btree_page;
pub mod btree_record;
pub mod device;
pub mod page;
pub mod pair;
pub mod record;
pub mod series;
pub mod tape;
pub mod tree;
pub mod tree_insert;
pub mod tree_merge;
pub mod tree_order;
pub mod tree_split;
