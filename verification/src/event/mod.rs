//! Events: the banks that one physics event carries, read and built.

pub mod bank;
pub mod builders;
pub mod column_bank;
pub mod composite;
pub mod ctx;
pub mod event;
pub mod owned;
pub mod row_typed;
pub mod view;

pub use self::bank::Bank;
pub use self::builders::{BankBuilder, EventBuilder};
pub use self::column_bank::ColumnBank;
pub use self::composite::{Composite, CompositeField, CompositeFormat};
pub use self::ctx::EventCtx;
pub use self::event::{Event, StructureHeader, StructureIter};
pub use self::owned::OwnedEvent;
pub use self::row_typed::BankRow;
