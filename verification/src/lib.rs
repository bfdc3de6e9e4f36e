//! A flash translation layer: logical page addresses over a simulated NAND
//! array of erase blocks, with address translation, block lifecycle
//! management and garbage collection.

pub mod arith;
pub mod config;
pub mod block;
pub mod pool;
pub mod model;
pub mod collection;
pub mod writing;
pub mod laws;
pub mod ftl;
