pub mod buffer_pool;
pub mod frame;
pub mod lru_replacer;
pub mod turns;
