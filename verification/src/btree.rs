mod copy;
mod grow;
mod node;
mod shrink;
pub mod tree;
mod walk;

pub use tree::Btree;
pub use tree::BtreeError;
