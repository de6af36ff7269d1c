//! The record that a chain keeps decoded between look-ups of single events.

use std::sync::Arc;

use vstd::prelude::*;
use vstd::rwlock::{RwLock, RwLockPredicate};
#[allow(unused_imports)]
use crate::read::inner::FileView;
#[allow(unused_imports)]
use crate::read::iter::record_at;
use crate::read::stored::StoredRecord;
#[allow(unused_imports)]
use crate::schema::dict::DictView;

verus! {

/// A decoded record, and where in the chain it is.
pub struct KeptRecord {
    pub file: usize,
    pub record: usize,
    pub stored: StoredRecord,
}

/// The files and the dictionary of a chain. A kept record is what they say it is.
pub struct KeptOf {
    pub files: Seq<FileView>,
    pub dict: DictView,
}

impl RwLockPredicate<Option<KeptRecord>> for KeptOf {
    open spec fn inv(self, v: Option<KeptRecord>) -> bool {
        v matches Some(k) ==> k.file < self.files.len() && k.record
            < self.files[k.file as int].info.spans.len() && record_at(
            self.files[k.file as int].bytes,
            self.files[k.file as int].info.spans[k.record as int],
            self.dict,
        ) == Some(k.stored@)
    }
}

/// The place for the record that was decoded last. Copies of a chain share it.
pub type Kept = Arc<RwLock<Option<KeptRecord>, KeptOf>>;

/// A place that holds no record yet.
pub(crate) fn nothing_kept(of: Ghost<KeptOf>) -> (r: Kept)
    ensures
        r.pred() == of@,
{
    Arc::new(RwLock::new(None, of))
}

} // verus!
