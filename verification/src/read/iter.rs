//! `EventIter`: the events of one file, in order.
//!
//! A record that cannot be read ends the walk with its error.

use std::sync::Arc;

use vstd::prelude::*;
use crate::error::{HipoError, Result};
use crate::event::owned::OwnedEvent;
#[allow(unused_imports)]
use crate::event::view::EventView;
use crate::read::filter::Filter;
#[allow(unused_imports)]
use crate::read::filter::FilterView;
use crate::read::inner::FileInner;
#[allow(unused_imports)]
use crate::read::inner::{header_in, record_in, FileView};
use crate::read::source::ReadAt;
use crate::read::stored::StoredRecord;
#[allow(unused_imports)]
use crate::read::stored::{stored_decoded, stored_error, StoredView};
#[allow(unused_imports)]
use crate::schema::dict::DictView;
#[allow(unused_imports)]
use crate::wire::event_index::RecordSpan;
use crate::wire::record_header::RecordHeader;

verus! {

/// What a walk over events comes to.
pub enum Item {
    /// An event.
    Event(EventView),
    /// A record that cannot be read, by its number in the file's index.
    Fault(int),
}

/// The event passes the filter, where there is one.
pub open spec fn lets_through(f: Option<FilterView>, e: EventView) -> bool {
    match f {
        Some(f) => f.passes(e),
        None => true,
    }
}

/// The record tags that a filter asks for; none where every record is wanted.
pub open spec fn wanted_tags(f: Option<FilterView>) -> Seq<u64> {
    match f {
        Some(f) => f.record_tags,
        None => Seq::empty(),
    }
}

/// The record with header `h` is wanted.
pub open spec fn tag_wanted(tags: Seq<u64>, h: RecordHeader) -> bool {
    tags.len() == 0 || tags.contains(h.user_word_1)
}

/// The record of a span of the file `f`, decoded; nothing where it cannot be read.
pub open spec fn record_at(f: Seq<u8>, span: RecordSpan, dict: DictView) -> Option<StoredView> {
    match record_in(f, span.file_offset as int) {
        Ok((_, b)) => stored_decoded(b, Some(dict)),
        Err(_) => None,
    }
}

/// `e` is the error that reading the record of a span of the file `f` ends with.
pub open spec fn record_fault(f: Seq<u8>, span: RecordSpan, dict: DictView, e: HipoError) -> bool {
    match record_in(f, span.file_offset as int) {
        Ok((_, b)) => stored_error(b, Some(dict), e),
        Err(err) => e == err,
    }
}

/// The events of a record from event `e` on that pass the filter.
pub open spec fn events_stream(v: StoredView, f: Option<FilterView>, e: int) -> Seq<Item>
    decreases v.events() - e,
{
    if e >= v.events() {
        Seq::empty()
    } else if lets_through(f, v.event(e)) {
        seq![Item::Event(v.event(e))] + events_stream(v, f, e + 1)
    } else {
        events_stream(v, f, e + 1)
    }
}

/// What a walk does with a record.
pub enum Visit {
    /// It is not wanted.
    Skip,
    /// It is read.
    Read(StoredView),
    /// It cannot be read.
    Fail,
}

/// What a walk does with record `r` of a file. Its tag is looked at first, where only certain
/// tags are wanted.
pub open spec fn visit(file: FileView, f: Option<FilterView>, r: int) -> Visit {
    let span = file.info.spans[r];
    let header = header_in(file.bytes, span.file_offset as int);
    if wanted_tags(f).len() > 0 && header is Err {
        Visit::Fail
    } else if wanted_tags(f).len() > 0 && !tag_wanted(wanted_tags(f), header->Ok_0) {
        Visit::Skip
    } else {
        match record_at(file.bytes, span, file.info.dictionary.dict) {
            Some(v) => Visit::Read(v),
            None => Visit::Fail,
        }
    }
}

/// What a walk over the records of a file from record `r` on comes to. A record that cannot be
/// read ends the walk.
pub open spec fn records_stream(file: FileView, f: Option<FilterView>, r: int) -> Seq<Item>
    decreases file.info.spans.len() - r,
{
    if r < 0 || r >= file.info.spans.len() {
        Seq::empty()
    } else {
        match visit(file, f, r) {
            Visit::Skip => records_stream(file, f, r + 1),
            Visit::Read(v) => events_stream(v, f, 0) + records_stream(file, f, r + 1),
            Visit::Fail => seq![Item::Fault(r)],
        }
    }
}

/// A step of a walk ended in an error.
pub open spec fn failed<T>(r: Option<Result<T>>) -> bool {
    r is Some && r->0 is Err
}

/// A walk over the events of one file.
#[derive(Debug)]
pub struct EventIter<S> {
    inner: Arc<FileInner<S>>,
    filter: Option<Filter>,
    cur: Option<StoredRecord>,
    /// The record that comes next.
    next_record: usize,
    /// The event of the current record that comes next.
    next_event: u32,
    finished: bool,
}

/// What a filter says, if there is one.
pub open spec fn filter_view(f: Option<Filter>) -> Option<FilterView> {
    match f {
        Some(f) => Some(f@),
        None => None,
    }
}

impl<S: ReadAt> EventIter<S> {
    /// The file.
    pub closed spec fn file(self) -> FileView {
        self.inner@
    }

    /// The filter.
    pub closed spec fn filter(self) -> Option<FilterView> {
        filter_view(self.filter)
    }

    /// What is still to come.
    pub closed spec fn rest(self) -> Seq<Item> {
        if self.finished {
            Seq::empty()
        } else {
            let here = match self.cur {
                Some(rec) => events_stream(rec@, self.filter(), self.next_event as int),
                None => Seq::empty(),
            };
            here + records_stream(self.file(), self.filter(), self.next_record as int)
        }
    }

    /// A walk over a file. The filter, where there is one, has been bound to a dictionary.
    pub fn new(inner: Arc<FileInner<S>>, filter: Option<Filter>) -> (r: Self)
        ensures
            r.file() == inner@,
            r.filter() == filter_view(filter),
            r.rest() == records_stream(inner@, filter_view(filter), 0),
    {
        let r = EventIter {
            inner,
            filter,
            cur: None,
            next_record: 0,
            next_event: 0,
            finished: false,
        };
        assert(r.rest() =~= records_stream(inner@, filter_view(filter), 0));
        r
    }

    /// Whether a record with this first user word is wanted.
    fn check_tag(&self, word: u64) -> (r: bool)
        ensures
            r == (wanted_tags(self.filter()).len() == 0 || wanted_tags(self.filter()).contains(
                word,
            )),
    {
        match &self.filter {
            Some(f) => {
                let tags = f.record_tags();
                let mut i: usize = 0;
                while i < tags.len()
                    invariant
                        i <= tags.len(),
                        tags@ == wanted_tags(self.filter()),
                        forall|k: int| 0 <= k < i ==> tags@[k] != word,
                    decreases tags.len() - i,
                {
                    if tags[i] == word {
                        assert(tags@.contains(word));
                        return true;
                    }
                    i = i + 1;
                }
                tags.len() == 0
            },
            None => true,
        }
    }

    /// Are only records with certain tags wanted?
    fn has_tags(&self) -> (r: bool)
        ensures
            r == (wanted_tags(self.filter()).len() > 0),
    {
        match &self.filter {
            Some(f) => f.record_tags().len() > 0,
            None => false,
        }
    }

    /// Read record `k`, if it is wanted.
    fn visit_record(&self, k: usize) -> (r: Result<Option<StoredRecord>>)
        requires
            k < self.file().info.spans.len(),
        ensures
            self.file().intact || r is Ok ==> match r {
                Ok(Some(rec)) => visit(self.file(), self.filter(), k as int) == Visit::Read(rec@),
                Ok(None) => visit(self.file(), self.filter(), k as int) == Visit::Skip,
                Err(e) => visit(self.file(), self.filter(), k as int) == Visit::Fail
                    && record_fault(
                    self.file().bytes,
                    self.file().info.spans[k as int],
                    self.file().info.dictionary.dict,
                    e,
                ),
            },
    {
        let offset: u64 = self.inner.index().records()[k].file_offset;
        if self.has_tags() {
            match self.inner.read_record_header(offset) {
                Ok(h) => {
                    if !self.check_tag(h.user_word_1) {
                        return Ok(None);
                    }
                },
                Err(e) => {
                    return Err(e);
                },
            }
        }
        let (_, buf) = match self.inner.read_record(offset) {
            Ok(p) => p,
            Err(e) => {
                return Err(e);
            },
        };
        match StoredRecord::decode(buf.as_slice(), Some(self.inner.dict())) {
            Ok(rec) => Ok(Some(rec)),
            Err(e) => Err(e),
        }
    }

    /// Load the next record that is wanted. `Ok(false)` where there is none left.
    fn advance_record(&mut self) -> (r: Result<bool>)
        requires
            !old(self).finished,
        ensures
            final(self).file() == old(self).file(),
            final(self).filter() == old(self).filter(),
            !final(self).finished,
            r == Ok::<bool, HipoError>(true) ==> final(self).cur is Some && final(self).next_event
                == 0 && old(self).next_record < final(self).next_record
                <= final(self).file().info.spans.len(),
            old(self).file().intact || r is Ok ==> {
                let before = records_stream(
                    old(self).file(),
                    old(self).filter(),
                    old(self).next_record as int,
                );
                match r {
                    Ok(true) => before == final(self).rest(),
                    Ok(false) => before.len() == 0,
                    Err(e) => before.len() == 1 && (before[0] matches Item::Fault(k) && 0 <= k
                        < old(self).file().info.spans.len() && record_fault(
                        old(self).file().bytes,
                        old(self).file().info.spans[k],
                        old(self).file().info.dictionary.dict,
                        e,
                    )),
                }
            },
    {
        let ghost file = self.file();
        let ghost f = self.filter();
        let ghost before = records_stream(file, f, self.next_record as int);
        let n: usize = self.inner.index().record_count();
        while self.next_record < n
            invariant
                n == file.info.spans.len(),
                self.file() == file,
                self.filter() == f,
                !self.finished,
                file == old(self).file(),
                f == old(self).filter(),
                before == records_stream(file, f, old(self).next_record as int),
                old(self).next_record <= self.next_record,
                before == records_stream(file, f, self.next_record as int),
            decreases n - self.next_record,
        {
            let k: usize = self.next_record;
            self.next_record = k + 1;
            match self.visit_record(k) {
                Ok(Some(rec)) => {
                    self.cur = Some(rec);
                    self.next_event = 0;
                    return Ok(true);
                },
                Ok(None) => {},
                Err(e) => {
                    return Err(e);
                },
            }
        }
        Ok(false)
    }

    /// The next event that passes the filter; an error, once, where a record cannot be read;
    /// nothing when the walk is over.
    pub fn next_result(&mut self) -> (r: Option<Result<OwnedEvent>>)
        ensures
            final(self).file() == old(self).file(),
            final(self).filter() == old(self).filter(),
            old(self).file().intact || !failed(r) ==> match r {
                Some(Ok(ev)) => {
                    &&& old(self).rest().len() > 0
                    &&& old(self).rest()[0] == Item::Event(ev@.event)
                    &&& ev@.dict == old(self).file().info.dictionary.dict
                    &&& final(self).rest() == old(self).rest().drop_first()
                },
                Some(Err(e)) => {
                    &&& old(self).rest().len() == 1
                    &&& (old(self).rest()[0] matches Item::Fault(k) && 0 <= k
                        < old(self).file().info.spans.len() && record_fault(
                        old(self).file().bytes,
                        old(self).file().info.spans[k],
                        old(self).file().info.dictionary.dict,
                        e,
                    ))
                    &&& final(self).rest().len() == 0
                },
                None => old(self).rest().len() == 0 && final(self).rest().len() == 0,
            },
            failed(r) ==> final(self).rest().len() == 0,
    {
        if self.finished {
            return None;
        }
        let ghost goal = self.rest();
        let ghost file = self.file();
        let ghost f = self.filter();
        loop
            invariant
                self.file() == file,
                self.filter() == f,
                !self.finished,
                file == old(self).file(),
                f == old(self).filter(),
                goal == old(self).rest(),
                goal == self.rest(),
            decreases
                (if self.next_record <= file.info.spans.len() {
                    file.info.spans.len() - self.next_record
                } else {
                    0
                }),
                (match self.cur {
                    Some(rec) => if self.next_event <= rec@.events() {
                        rec@.events() - self.next_event
                    } else {
                        0
                    },
                    None => 0,
                }),
        {
            let have: u32 = match &self.cur {
                Some(rec) => rec.event_count(),
                None => 0,
            };
            if self.next_event >= have {
                let ghost later = records_stream(file, f, self.next_record as int);
                assert(self.rest() =~= later);
                match self.advance_record() {
                    Ok(true) => {},
                    Ok(false) => {
                        self.finished = true;
                        return None;
                    },
                    Err(e) => {
                        self.finished = true;
                        return Some(Err(e));
                    },
                }
            } else {
                let i: u32 = self.next_event;
                self.next_event = self.next_event + 1;
                if let Some(rec) = &self.cur {
                    let ghost e = rec@.event(i as int);
                    let pass = match &self.filter {
                        Some(filter) => rec.passes(filter, i),
                        None => true,
                    };
                    proof {
                        let here = events_stream(rec@, f, i as int);
                        let next = events_stream(rec@, f, i + 1);
                        let later = records_stream(file, f, self.next_record as int);
                        assert(pass == lets_through(f, e));
                        if pass {
                            assert(here =~= seq![Item::Event(e)] + next);
                            assert((here + later).drop_first() =~= next + later);
                        }
                    }
                    if pass {
                        return Some(Ok(rec.owned(i, self.inner.dict())));
                    }
                }
            }
        }
    }
}

} // verus!
