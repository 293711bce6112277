pub mod grants;
pub mod lock_manager;
pub mod transaction;
