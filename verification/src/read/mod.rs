//! Reading: files, chains of files, and what they select.

pub mod cells;
pub mod chain;
pub mod column_data;
pub mod columns;
pub mod counts;
pub mod determined;
pub mod dictionary;
pub mod entries;
pub mod filter;
pub mod inner;
pub mod iter;
pub mod kept;
pub mod merge;
pub mod occupancy;
pub mod order;
pub mod passing;
pub mod plan;
pub mod ranges;
pub mod scan;
pub mod skim;
pub mod source;
pub mod stored;
pub mod sweep;
pub mod sweep_values;
pub mod tagging;
pub mod typed;
pub mod union;

pub use self::chain::{Chain, ChainEventIter};
pub use self::column_data::{ChainRecordSpan, ColumnBuffers, ColumnData, MaterializedColumn};
pub use self::filter::Filter;
pub use self::iter::EventIter;
pub use self::occupancy::{BankOccupancy, Occupancy};
pub use self::scan::ChainStats;
pub use self::source::{FnSource, InMemory, ReadAt};
