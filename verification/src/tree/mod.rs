pub mod iterator;
pub mod node;
pub mod rbtree;
