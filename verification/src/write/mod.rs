//! Writing: records, banks and whole files.

pub mod column_round_trip;
pub mod columns;
pub mod event_writer;
pub mod file;
pub mod file_round_trip;
pub mod gather;
pub mod history;
pub mod layout_round_trip;
pub mod record;
pub mod record_builder;
pub mod round_trip;
pub mod row;
pub mod salvage;
pub mod writer;

pub use self::event_writer::EventWriter;
pub use self::record::Compression;
pub use self::row::{BankWriter, RowWriter};
pub use self::writer::{WriteSummary, Writer, WriterBuilder, WriterOptions};
