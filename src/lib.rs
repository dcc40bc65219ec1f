pub mod balance;
pub mod keys;
pub mod laws;
pub mod shape;
pub mod tree;
