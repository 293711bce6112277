pub mod catalog_store;
pub mod disk_manager;
pub mod error;
pub mod page;
