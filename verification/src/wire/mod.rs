//! The on-disk format: headers, records, and byte access.

pub mod by_bank;
pub mod bytes;
pub mod constants;
pub mod endian;
pub mod event_index;
pub mod file_header;
pub mod per_column;
pub mod record;
pub mod record_header;
pub mod split;
pub mod tables;
