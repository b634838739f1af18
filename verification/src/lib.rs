pub mod bag;
pub mod binary_search;
pub mod binary_tree;
pub mod bloom;
pub mod btree;
pub mod cloning;
pub mod linked_list;
pub mod lru;
pub mod order;
pub mod pennant;
pub mod priority_queue;
pub mod queue;
pub mod union_find;
pub mod vecs;
