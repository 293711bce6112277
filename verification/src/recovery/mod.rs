pub mod log_record;
pub mod tally;
pub mod wal;
