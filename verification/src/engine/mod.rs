pub mod answers;
pub mod catalog;
pub mod changes;
pub mod contents;
pub mod crashes;
pub mod durability;
pub mod executor;
pub mod heap;
pub mod index_manager;
pub mod indexed;
pub mod keys;
pub mod lookups;
pub mod model;
pub mod order;
pub mod places;
pub mod promises;
pub mod query;
pub mod rebuild;
pub mod refusals;
pub mod rows;
pub mod sweep;
pub mod tables;
pub mod txn_executor;
pub mod updates;
