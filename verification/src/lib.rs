//! The core of a small relational database: pages, buffer pool, write-ahead log, B-tree and
//! nearest-neighbour indexes, locks, SQL front end and executor.
pub mod buffer;
pub mod bytes;
pub mod commands;
pub mod concurrency;
pub mod display;
pub mod engine;
pub mod index;
pub mod layout;
pub mod recovery;
pub mod shell;
pub mod sql;
pub mod storage;
pub mod text;
