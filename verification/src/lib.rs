pub mod laws;
pub mod order;
pub mod search;
pub mod tree;
