//! The records of one file, and which events each holds.

use vstd::prelude::*;

verus! {

/// Where one record lies, and which of the file's events it holds.
#[derive(Debug, Clone, Copy, PartialEq, Eq, Structural)]
pub struct RecordSpan {
    /// Byte offset of the record in the file.
    pub file_offset: u64,
    /// Length of the record in bytes, header and padding included.
    pub record_length: u64,
    /// Number of the record's first event within the file.
    pub first_event: u64,
    /// How many events the record holds.
    pub event_count: u32,
}

/// How many events the first `n` spans hold.
pub open spec fn events_before(spans: Seq<RecordSpan>, n: nat) -> nat
    decreases n,
{
    if n == 0 {
        0
    } else {
        events_before(spans, (n - 1) as nat) + spans[n - 1].event_count as nat
    }
}

/// How many events the spans hold.
pub open spec fn events_in(spans: Seq<RecordSpan>) -> nat {
    events_before(spans, spans.len())
}

/// Every span starts where those before it end, and events can be numbered in 64 bits.
pub open spec fn numbered(spans: Seq<RecordSpan>) -> bool {
    &&& events_in(spans) <= u64::MAX
    &&& forall|i: int|
        0 <= i < spans.len() ==> (#[trigger] spans[i]).first_event == events_before(spans, i as nat)
}

/// Event number `local` lies in span `i`.
pub open spec fn spans_event(spans: Seq<RecordSpan>, i: int, local: int) -> bool {
    0 <= i < spans.len() && spans[i].first_event <= local < spans[i].first_event
        + spans[i].event_count
}

/// The spans with a record of `events` events at `pos` behind them. A record that would take
/// the number of events past 64 bits is left out.
pub open spec fn with_span(spans: Seq<RecordSpan>, pos: u64, len: u64, events: u32) -> Seq<
    RecordSpan,
> {
    if events_in(spans) + events > u64::MAX {
        spans
    } else {
        spans.push(
            RecordSpan {
                file_offset: pos,
                record_length: len,
                first_event: events_in(spans) as u64,
                event_count: events,
            },
        )
    }
}

/// Fewer spans hold no more events.
pub proof fn lemma_events_monotone(spans: Seq<RecordSpan>, a: nat, b: nat)
    requires
        a <= b <= spans.len(),
    ensures
        events_before(spans, a) <= events_before(spans, b),
    decreases b,
{
    if a < b {
        lemma_events_monotone(spans, a, (b - 1) as nat);
    }
}

/// Only the first spans count.
pub proof fn lemma_events_same(a: Seq<RecordSpan>, b: Seq<RecordSpan>, n: nat)
    requires
        n <= a.len(),
        n <= b.len(),
        forall|i: int| 0 <= i < n ==> a[i] == b[i],
    ensures
        events_before(a, n) == events_before(b, n),
    decreases n,
{
    if n > 0 {
        lemma_events_same(a, b, (n - 1) as nat);
    }
}

/// Adding a span keeps the numbering.
pub proof fn law_with_span_keeps_numbering(spans: Seq<RecordSpan>, pos: u64, len: u64, events: u32)
    requires
        numbered(spans),
    ensures
        numbered(with_span(spans, pos, len, events)),
        events_in(spans) + events <= u64::MAX ==> events_in(with_span(spans, pos, len, events))
            == events_in(spans) + events,
{
    let after = with_span(spans, pos, len, events);
    if events_in(spans) + events <= u64::MAX {
        lemma_events_same(spans, after, spans.len());
        assert forall|i: int| 0 <= i < after.len() implies (#[trigger] after[i]).first_event
            == events_before(after, i as nat) by {
            lemma_events_same(spans, after, i as nat);
            if i < spans.len() {
                assert(after[i] == spans[i]);
            }
        }
    }
}

/// Every event of a file lies in exactly one of its records.
pub proof fn law_each_event_in_one_span(spans: Seq<RecordSpan>, local: nat) -> (i: int)
    requires
        numbered(spans),
        local < events_in(spans),
    ensures
        spans_event(spans, i, local as int),
        forall|j: int| #[trigger] spans_event(spans, j, local as int) ==> j == i,
{
    let i = find_span(spans, local, spans.len());
    assert forall|j: int| #[trigger] spans_event(spans, j, local as int) implies j == i by {
        if j < i {
            lemma_events_monotone(spans, (j + 1) as nat, i as nat);
        } else if i < j {
            lemma_events_monotone(spans, (i + 1) as nat, j as nat);
        }
    }
    i
}

/// The span that holds `local`, among the first `n`.
proof fn find_span(spans: Seq<RecordSpan>, local: nat, n: nat) -> (i: int)
    requires
        numbered(spans),
        n <= spans.len(),
        local < events_before(spans, n),
    ensures
        spans_event(spans, i, local as int),
    decreases n,
{
    if local >= events_before(spans, (n - 1) as nat) {
        n - 1
    } else {
        find_span(spans, local, (n - 1) as nat)
    }
}

/// The index of a file's data records.
#[derive(Debug)]
pub struct FileEventIndex {
    spans: Vec<RecordSpan>,
    total: u64,
}

impl View for FileEventIndex {
    type V = Seq<RecordSpan>;

    closed spec fn view(&self) -> Seq<RecordSpan> {
        self.spans@
    }
}

impl Default for FileEventIndex {
    fn default() -> (r: Self)
        ensures
            r@ == Seq::<RecordSpan>::empty(),
    {
        FileEventIndex::new()
    }
}

impl FileEventIndex {
    /// The spans are numbered, and the total is how many events they hold.
    #[verifier::type_invariant]
    pub closed spec fn inv(self) -> bool {
        numbered(self@) && self.total == events_in(self@)
    }

    pub fn new() -> (r: Self)
        ensures
            r@ == Seq::<RecordSpan>::empty(),
    {
        FileEventIndex { spans: Vec::new(), total: 0 }
    }

    /// Add the next record. A record that would take the number of events past 64 bits is left
    /// out.
    pub fn push(&mut self, pos: u64, len: u64, events: u32)
        ensures
            final(self)@ == with_span(old(self)@, pos, len, events),
    {
        proof {
            use_type_invariant(&*self);
            law_with_span_keeps_numbering(self@, pos, len, events);
        }
        if self.total > u64::MAX - events as u64 {
            return;
        }
        let mut work = FileEventIndex::new();
        core::mem::swap(&mut work, self);
        let FileEventIndex { mut spans, total } = work;
        spans.push(
            RecordSpan {
                file_offset: pos,
                record_length: len,
                first_event: total,
                event_count: events,
            },
        );
        *self = FileEventIndex { spans, total: total + events as u64 };
    }

    /// Drop the last record.
    pub fn pop_last(&mut self)
        ensures
            final(self)@ == (if old(self)@.len() == 0 {
                old(self)@
            } else {
                old(self)@.drop_last()
            }),
    {
        proof {
            use_type_invariant(&*self);
        }
        let ghost before = self@;
        let mut work = FileEventIndex::new();
        core::mem::swap(&mut work, self);
        let FileEventIndex { mut spans, total } = work;
        match spans.pop() {
            Some(last) => {
                proof {
                    lemma_events_same(before, spans@, spans@.len());
                    assert forall|i: int| 0 <= i < spans@.len() implies (
                    #[trigger] spans@[i]).first_event == events_before(spans@, i as nat) by {
                        lemma_events_same(before, spans@, i as nat);
                        assert(before[i] == spans@[i]);
                    }
                }
                *self = FileEventIndex { spans, total: total - last.event_count as u64 };
            },
            None => {
                *self = FileEventIndex { spans, total };
            },
        }
    }

    /// The records, in file order.
    pub fn records(&self) -> (r: &[RecordSpan])
        ensures
            r@ == self@,
            numbered(r@),
    {
        proof {
            use_type_invariant(self);
        }
        self.spans.as_slice()
    }

    pub fn record_count(&self) -> (r: usize)
        ensures
            r == self@.len(),
    {
        self.spans.len()
    }

    /// How many events the records hold.
    pub fn total_events(&self) -> (r: u64)
        ensures
            r == events_in(self@),
            numbered(self@),
    {
        proof {
            use_type_invariant(self);
        }
        self.total
    }

    /// The record that holds event number `local` of the file, and the event's number within
    /// that record.
    pub fn locate(&self, local: u64) -> (r: Option<(usize, u32)>)
        ensures
            match r {
                Some((i, e)) => spans_event(self@, i as int, local as int) && e == local
                    - self@[i as int].first_event && e < self@[i as int].event_count,
                None => local >= events_in(self@),
            },
    {
        proof {
            use_type_invariant(self);
        }
        if local >= self.total {
            return None;
        }
        let ghost home = law_each_event_in_one_span(self@, local as nat);
        let mut lo: usize = 0;
        let mut hi: usize = self.spans.len();
        while hi - lo > 1
            invariant
                lo <= home < hi <= self.spans.len(),
                self@ == self.spans@,
                numbered(self@),
                spans_event(self@, home, local as int),
            decreases hi - lo,
        {
            let mid: usize = lo + (hi - lo) / 2;
            proof {
                if home < mid {
                    lemma_events_monotone(self@, (home + 1) as nat, mid as nat);
                } else {
                    lemma_events_monotone(self@, mid as nat, home as nat);
                }
            }
            if self.spans[mid].first_event <= local {
                lo = mid;
            } else {
                hi = mid;
            }
        }
        assert(home == lo);
        Some((lo, (local - self.spans[lo].first_event) as u32))
    }
}

} // verus!
