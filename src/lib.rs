//! A small paged storage layer and a pull-based physical query plan,
//! with the byte layout and the operator semantics stated as contracts.
pub mod block;
pub mod codec;
pub mod exec;
pub mod page;
pub mod plan;
