//! Laws of the library: what each operation does, stated of its inputs and of what it returns.

pub mod banks;
pub mod builders;
pub mod bytes;
pub mod chains;
pub mod columns;
pub mod composites;
pub mod compression;
pub mod endian;
pub mod events;
pub mod files;
pub mod headers;
pub mod json;
pub mod layout;
pub mod messages;
pub mod occupancy;
pub mod owned;
pub mod parts;
pub mod patterns;
pub mod records;
pub mod rows;
pub mod scans;
pub mod schemas;
pub mod split_events;
pub mod tags;
pub mod texts;
pub mod typed;
pub mod walks;
pub mod writers;
