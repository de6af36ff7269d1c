//! HIPO v6 event files: a verified reader and writer.
//!
//! Every on-disk structure has a mathematical model over `Seq<u8>`, and every
//! parser and builder is proved against it.

pub mod clas12;
pub mod compress;
pub mod error;
pub mod event;
pub mod fuzz_api;
pub mod laws;
pub mod message;
pub mod prelude;
pub mod read;
pub mod schema;
pub mod seqs;
pub mod tag;
pub mod text;
pub mod wire;
pub mod write;

pub use crate::error::{HipoError, Result};
pub use crate::event::{Bank, BankRow, Composite, Event, EventCtx, OwnedEvent};
pub use crate::read::{
    BankOccupancy, Chain, ChainEventIter, ChainRecordSpan, ChainStats, ColumnBuffers, ColumnData,
    EventIter, Filter, MaterializedColumn, Occupancy, ReadAt,
};
pub use crate::schema::{BankPatterns, ColumnHandle, DataType, Dict, Schema, SchemaEntry};
pub use crate::tag::{TagRegistry, TagSet};
pub use crate::wire::bytes::Endianness;
pub use crate::wire::constants::{Codec, Layout};
pub use crate::wire::file_header::FileHeader;
pub use crate::write::{BankWriter, Compression, RowWriter, WriteSummary, Writer};
