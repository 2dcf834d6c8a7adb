pub mod btree;
pub mod error;
pub mod graph;

pub use error::Error;
