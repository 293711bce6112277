pub mod btree;
pub mod entries;
pub mod hnsw;
pub mod node;
