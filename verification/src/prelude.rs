//! What most callers need.

pub use crate::error::{HipoError, Result};
pub use crate::event::{Bank, Event, EventCtx, OwnedEvent};
pub use crate::read::{Chain, ChainEventIter, ChainStats, EventIter, Filter};
pub use crate::schema::{ColumnHandle, DataType, Dict, Schema};
pub use crate::tag::{TagRegistry, TagSet};
pub use crate::write::{Compression, WriteSummary, Writer};
