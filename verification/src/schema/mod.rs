//! Bank layouts and the dictionary that holds them.

pub mod dict;
pub mod handle;
pub mod json;
pub mod patterns;
pub mod text;
pub mod types;

pub use self::dict::Dict;
pub use self::handle::{BankColumnType, BankScalarType, ColumnHandle, Float32, Float64};
pub use self::patterns::BankPatterns;
pub use self::types::{DataType, Schema, SchemaEntry, SchemaIndex};
