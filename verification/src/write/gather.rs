//! Taking the events of a record apart into one table per bank, for the split layouts.

use vstd::prelude::*;
use crate::event::event::{Event, StructureHeader};
#[allow(unused_imports)]
use crate::event::event::{event_structures, event_tag, StructView};

verus! {

/// One structure of a record, and the event it comes from.
pub struct Piece {
    pub event: int,
    pub st: StructView,
}

/// The structures `sts` of event `e`, as pieces.
pub open spec fn event_pieces(e: int, sts: Seq<StructView>) -> Seq<Piece> {
    Seq::new(sts.len(), |i: int| Piece { event: e, st: sts[i] })
}

/// The structures of all events, in order.
pub open spec fn pieces_of(events: Seq<Seq<u8>>) -> Seq<Piece>
    decreases events.len(),
{
    if events.len() == 0 {
        Seq::empty()
    } else {
        pieces_of(events.drop_last()) + event_pieces(
            events.len() - 1,
            event_structures(events.last()),
        )
    }
}

impl Piece {
    /// The piece belongs to the bank `(group, item)`.
    pub open spec fn is(self, group: u16, item: u8) -> bool {
        self.st.header.group == group && self.st.header.item == item
    }
}

/// Some piece belongs to the bank.
pub open spec fn seen(ps: Seq<Piece>, group: u16, item: u8) -> bool
    decreases ps.len(),
{
    ps.len() > 0 && (ps.last().is(group, item) || seen(ps.drop_last(), group, item))
}

/// The data of the bank's pieces, one after the other.
pub open spec fn bank_stream(ps: Seq<Piece>, group: u16, item: u8) -> Seq<u8>
    decreases ps.len(),
{
    if ps.len() == 0 {
        Seq::empty()
    } else if ps.last().is(group, item) {
        bank_stream(ps.drop_last(), group, item) + ps.last().st.data
    } else {
        bank_stream(ps.drop_last(), group, item)
    }
}

/// Event `e` has a piece of the bank.
pub open spec fn seen_in(ps: Seq<Piece>, group: u16, item: u8, e: int) -> bool
    decreases ps.len(),
{
    ps.len() > 0 && ((ps.last().is(group, item) && ps.last().event == e) || seen_in(
        ps.drop_last(),
        group,
        item,
        e,
    ))
}

/// The size of the last piece of the bank in event `e`.
pub open spec fn size_in(ps: Seq<Piece>, group: u16, item: u8, e: int) -> nat
    decreases ps.len(),
{
    if ps.len() == 0 {
        0
    } else if ps.last().is(group, item) && ps.last().event == e {
        ps.last().st.data.len()
    } else {
        size_in(ps.drop_last(), group, item, e)
    }
}

/// The type code of the first piece of the bank.
pub open spec fn first_type(ps: Seq<Piece>, group: u16, item: u8) -> u8
    decreases ps.len(),
{
    if ps.len() == 0 {
        0
    } else if seen(ps.drop_last(), group, item) || !ps.last().is(group, item) {
        first_type(ps.drop_last(), group, item)
    } else {
        ps.last().st.header.ty
    }
}

/// Some piece of the bank has an inline header.
pub open spec fn has_format(ps: Seq<Piece>, group: u16, item: u8) -> bool
    decreases ps.len(),
{
    ps.len() > 0 && ((ps.last().is(group, item) && ps.last().st.header.header_size > 0)
        || has_format(ps.drop_last(), group, item))
}

/// What is gathered of one bank.
#[verifier::ext_equal]
pub struct TableView {
    pub group: u16,
    pub item: u8,
    pub ty: u8,
    /// Whether each event has the bank.
    pub present: Seq<bool>,
    /// The bank's size in each event.
    pub sizes: Seq<u32>,
    /// The bank's data over all events.
    pub stream: Seq<u8>,
    pub composite: bool,
}

impl TableView {
    /// The place of the bank in the order of ids.
    pub open spec fn order(self) -> int {
        self.group * 256 + self.item
    }
}

/// The table of the bank `(group, item)` over the pieces of `events` events.
pub open spec fn table_of(ps: Seq<Piece>, events: nat, group: u16, item: u8) -> TableView {
    TableView {
        group,
        item,
        ty: first_type(ps, group, item),
        present: Seq::new(events, |e: int| seen_in(ps, group, item, e)),
        sizes: Seq::new(events, |e: int| size_in(ps, group, item, e) as u32),
        stream: bank_stream(ps, group, item),
        composite: has_format(ps, group, item),
    }
}

/// `ts` are the tables of the banks in `ps`: each bank has one, in ascending order of ids.
pub open spec fn gathered(ts: Seq<TableView>, ps: Seq<Piece>, events: nat) -> bool {
    &&& forall|a: int, b: int|
        0 <= a < b < ts.len() ==> (#[trigger] ts[a]).order() < (#[trigger] ts[b]).order()
    &&& forall|b: int|
        0 <= b < ts.len() ==> seen(ps, (#[trigger] ts[b]).group, ts[b].item) && ts[b] == table_of(
            ps,
            events,
            ts[b].group,
            ts[b].item,
        )
    &&& forall|group: u16, item: u8| #[trigger]
        seen(ps, group, item) ==> exists|b: int|
            0 <= b < ts.len() && (#[trigger] ts[b]).group == group && ts[b].item == item
}

/// What is gathered of one bank.
pub struct BankTable {
    pub group: u16,
    pub item: u8,
    pub ty: u8,
    pub present: Vec<bool>,
    pub sizes: Vec<u32>,
    pub stream: Vec<u8>,
    pub composite: bool,
}

impl View for BankTable {
    type V = TableView;

    open spec fn view(&self) -> TableView {
        TableView {
            group: self.group,
            item: self.item,
            ty: self.ty,
            present: self.present@,
            sizes: self.sizes@,
            stream: self.stream@,
            composite: self.composite,
        }
    }
}

/// What a list of tables says.
pub open spec fn tables(v: Seq<BankTable>) -> Seq<TableView> {
    v.map_values(|t: BankTable| t@)
}

/// A bank that no piece belongs to is nowhere, and has no data.
proof fn lemma_unseen(ps: Seq<Piece>, group: u16, item: u8)
    requires
        !seen(ps, group, item),
    ensures
        bank_stream(ps, group, item) == Seq::<u8>::empty(),
        !has_format(ps, group, item),
        forall|e: int| !(#[trigger] seen_in(ps, group, item, e)),
        forall|e: int| (#[trigger] size_in(ps, group, item, e)) == 0,
    decreases ps.len(),
{
    if ps.len() > 0 {
        lemma_unseen(ps.drop_last(), group, item);
        assert forall|e: int| !(#[trigger] seen_in(ps, group, item, e)) by {
            assert(!seen_in(ps.drop_last(), group, item, e));
        }
        assert forall|e: int| (#[trigger] size_in(ps, group, item, e)) == 0 by {
            assert(size_in(ps.drop_last(), group, item, e) == 0);
        }
    }
}

/// A piece of another bank leaves a table as it is.
proof fn lemma_other_table(ps: Seq<Piece>, p: Piece, events: nat, group: u16, item: u8)
    requires
        !p.is(group, item),
    ensures
        table_of(ps.push(p), events, group, item) == table_of(ps, events, group, item),
        seen(ps.push(p), group, item) == seen(ps, group, item),
{
    let now = ps.push(p);
    assert(now.drop_last() =~= ps);
    let a = table_of(ps, events, group, item);
    let c = table_of(now, events, group, item);
    assert forall|e: int| 0 <= e < events implies a.present[e] == c.present[e] by {
        assert(seen_in(now, group, item, e) == seen_in(now.drop_last(), group, item, e));
    }
    assert forall|e: int| 0 <= e < events implies a.sizes[e] == c.sizes[e] by {
        assert(size_in(now, group, item, e) == size_in(now.drop_last(), group, item, e));
    }
    assert(a.present =~= c.present);
    assert(a.sizes =~= c.sizes);
    assert(a =~= c);
}

/// A table with one piece more.
spec fn stepped(t: TableView, p: Piece) -> TableView {
    TableView {
        present: t.present.update(p.event, true),
        sizes: t.sizes.update(p.event, p.st.data.len() as u32),
        stream: t.stream + p.st.data,
        composite: t.composite || p.st.header.header_size > 0,
        ..t
    }
}

/// A piece adds to the table of its bank.
proof fn lemma_own_table(ps: Seq<Piece>, p: Piece, events: nat)
    requires
        0 <= p.event < events,
    ensures
        ({
            let (g, i) = (p.st.header.group, p.st.header.item);
            let now = table_of(ps.push(p), events, g, i);
            &&& seen(ps.push(p), g, i)
            &&& seen(ps, g, i) ==> now == stepped(table_of(ps, events, g, i), p)
            &&& !seen(ps, g, i) ==> now == stepped(
                TableView {
                    group: g,
                    item: i,
                    ty: p.st.header.ty,
                    present: Seq::new(events, |e: int| false),
                    sizes: Seq::new(events, |e: int| 0u32),
                    stream: Seq::empty(),
                    composite: false,
                },
                p,
            )
        }),
{
    let (g, i) = (p.st.header.group, p.st.header.item);
    let next = ps.push(p);
    assert(next.drop_last() =~= ps);
    let now = table_of(next, events, g, i);
    if !seen(ps, g, i) {
        lemma_unseen(ps, g, i);
    }
    let base = if seen(ps, g, i) {
        table_of(ps, events, g, i)
    } else {
        TableView {
            group: g,
            item: i,
            ty: p.st.header.ty,
            present: Seq::new(events, |e: int| false),
            sizes: Seq::new(events, |e: int| 0u32),
            stream: Seq::empty(),
            composite: false,
        }
    };
    let goal = stepped(base, p);
    assert forall|e: int| 0 <= e < events implies now.present[e] == goal.present[e] by {
        assert(seen_in(next, g, i, e) == (p.event == e || seen_in(next.drop_last(), g, i, e)));
    }
    assert forall|e: int| 0 <= e < events implies now.sizes[e] == goal.sizes[e] by {
        assert(size_in(next, g, i, e) == (if p.event == e {
            p.st.data.len()
        } else {
            size_in(next.drop_last(), g, i, e)
        }));
    }
    assert(now.present =~= goal.present);
    assert(now.sizes =~= goal.sizes);
    assert(now =~= goal);
}

/// The tables after one piece more: the table of its bank is replaced, or put in its place in
/// the order.
proof fn lemma_noted(
    before: Seq<TableView>,
    after: Seq<TableView>,
    ps: Seq<Piece>,
    p: Piece,
    events: nat,
    at: int,
    known: bool,
)
    requires
        gathered(before, ps, events),
        0 <= p.event < events,
        0 <= at <= before.len(),
        forall|a: int|
            0 <= a < at ==> (#[trigger] before[a]).order() < p.st.header.group * 256
                + p.st.header.item,
        forall|a: int|
            at <= a < before.len() ==> (#[trigger] before[a]).order() >= p.st.header.group * 256
                + p.st.header.item,
        known == (at < before.len() && before[at].group == p.st.header.group && before[at].item
            == p.st.header.item),
        known ==> after == before.update(at, stepped(before[at], p)),
        !known ==> after == before.insert(
            at,
            stepped(
                TableView {
                    group: p.st.header.group,
                    item: p.st.header.item,
                    ty: p.st.header.ty,
                    present: Seq::new(events, |e: int| false),
                    sizes: Seq::new(events, |e: int| 0u32),
                    stream: Seq::empty(),
                    composite: false,
                },
                p,
            ),
        ),
    ensures
        gathered(after, ps.push(p), events),
{
    let (g, it) = (p.st.header.group, p.st.header.item);
    let key = g * 256 + it;
    let now = ps.push(p);
    assert forall|b: int| 0 <= b < before.len() && (#[trigger] before[b]).group == g
        && before[b].item == it implies known && b == at by {
        assert(before[b].order() == key);
        if b > at {
            assert(before[at].order() < before[b].order());
        }
    }
    assert(seen(ps, g, it) == known);
    lemma_own_table(ps, p, events);
    assert(after[at] == table_of(now, events, g, it));
    assert forall|b: int| 0 <= b < after.len() implies seen(
        now,
        (#[trigger] after[b]).group,
        after[b].item,
    ) && after[b] == table_of(now, events, after[b].group, after[b].item) by {
        if b != at {
            let ob = if known || b < at {
                b
            } else {
                b - 1
            };
            assert(after[b] == before[ob]);
            assert(!(before[ob].group == g && before[ob].item == it));
            lemma_other_table(ps, p, events, before[ob].group, before[ob].item);
        }
    }
    assert forall|a: int, b: int| 0 <= a < b < after.len() implies (#[trigger] after[a]).order()
        < (#[trigger] after[b]).order() by {
        let oa = if known || a < at {
            a
        } else {
            a - 1
        };
        let ob = if known || b < at {
            b
        } else {
            b - 1
        };
        if a != at && b != at {
            assert(before[oa].order() < before[ob].order());
        } else if a == at {
            assert(after[b] == before[ob]);
            if known {
                assert(before[at].order() < before[ob].order());
            } else {
                assert(before[ob].order() >= key);
                assert(!(before[ob].group == g && before[ob].item == it));
            }
        } else {
            assert(after[a] == before[oa]);
            assert(before[oa].order() < key);
        }
    }
    assert forall|gg: u16, ii: u8| #[trigger] seen(now, gg, ii) implies exists|b: int|
        0 <= b < after.len() && (#[trigger] after[b]).group == gg && after[b].item == ii by {
        if gg == g && ii == it {
            assert(after[at].group == gg);
        } else {
            lemma_other_table(ps, p, events, gg, ii);
            let b = choose|b: int|
                0 <= b < before.len() && (#[trigger] before[b]).group == gg && before[b].item == ii;
            let nb = if known || b < at {
                b
            } else {
                b + 1
            };
            assert(after[nb] == before[b]);
        }
    }
}

/// The first place whose bank does not come before `(group, item)`.
fn place(ts: &Vec<BankTable>, group: u16, item: u8) -> (r: usize)
    requires
        forall|a: int, b: int|
            0 <= a < b < ts.len() ==> (#[trigger] ts@[a])@.order() < (#[trigger] ts@[b])@.order(),
    ensures
        r <= ts.len(),
        forall|a: int| 0 <= a < r ==> (#[trigger] ts@[a])@.order() < group * 256 + item,
        forall|a: int| r <= a < ts.len() ==> (#[trigger] ts@[a])@.order() >= group * 256 + item,
{
    let key: u32 = group as u32 * 256 + item as u32;
    let mut lo: usize = 0;
    let mut hi: usize = ts.len();
    while lo < hi
        invariant
            lo <= hi <= ts.len(),
            key == group * 256 + item,
            forall|a: int, b: int|
                0 <= a < b < ts.len() ==> (#[trigger] ts@[a])@.order() < (
                #[trigger] ts@[b])@.order(),
            forall|a: int| 0 <= a < lo ==> (#[trigger] ts@[a])@.order() < key,
            forall|a: int| hi <= a < ts.len() ==> (#[trigger] ts@[a])@.order() >= key,
        decreases hi - lo,
    {
        let mid: usize = lo + (hi - lo) / 2;
        let at: u32 = ts[mid].group as u32 * 256 + ts[mid].item as u32;
        assert(at == ts@[mid as int]@.order());
        if at < key {
            lo = mid + 1;
        } else {
            hi = mid;
        }
    }
    lo
}

/// An empty table.
fn blank(group: u16, item: u8, ty: u8, events: usize) -> (r: BankTable)
    ensures
        r@ == (TableView {
            group,
            item,
            ty,
            present: Seq::new(events as nat, |e: int| false),
            sizes: Seq::new(events as nat, |e: int| 0u32),
            stream: Seq::empty(),
            composite: false,
        }),
{
    let mut present: Vec<bool> = Vec::new();
    let mut sizes: Vec<u32> = Vec::new();
    let mut e: usize = 0;
    while e < events
        invariant
            e <= events,
            present@ =~= Seq::new(e as nat, |k: int| false),
            sizes@ =~= Seq::new(e as nat, |k: int| 0u32),
        decreases events - e,
    {
        present.push(false);
        sizes.push(0);
        e = e + 1;
    }
    let r = BankTable { group, item, ty, present, sizes, stream: Vec::new(), composite: false };
    assert(r.stream@ =~= Seq::<u8>::empty());
    r
}

/// Note one more piece.
fn note(
    ts: &mut Vec<BankTable>,
    events: usize,
    e: usize,
    header: StructureHeader,
    data: &[u8],
    ps: Ghost<Seq<Piece>>,
)
    requires
        gathered(tables(old(ts)@), ps@, events as nat),
        e < events,
        data.len() < 0x100_0000,
    ensures
        gathered(
            tables(final(ts)@),
            ps@.push(Piece { event: e as int, st: StructView { header, data: data@ } }),
            events as nat,
        ),
{
    let ghost p = Piece { event: e as int, st: StructView { header, data: data@ } };
    let ghost before = tables(ts@);
    assert forall|b: int| 0 <= b < ts.len() implies (#[trigger] ts@[b])@ == before[b] by {}
    assert forall|a: int, b: int| 0 <= a < b < ts.len() implies (#[trigger] ts@[a])@.order() < (
    #[trigger] ts@[b])@.order() by {
        assert(before[a].order() < before[b].order());
    }
    let at: usize = place(ts, header.group, header.item);
    let known = at < ts.len() && ts[at].group == header.group && ts[at].item == header.item;
    if !known {
        let t = blank(header.group, header.item, header.ty, events);
        ts.insert(at, t);
    }
    let ghost middle = tables(ts@);
    let mut t = ts.remove(at);
    let ghost t0 = t@;
    assert(t0 == middle[at as int]);
    assert(t0.present.len() == events && t0.sizes.len() == events) by {
        if known {
            assert(t0 == before[at as int]);
        }
    }
    t.present.set(e, true);
    t.sizes.set(e, data.len() as u32);
    t.stream.extend_from_slice(data);
    if header.header_size > 0 {
        t.composite = true;
    }
    assert(t@ =~= stepped(t0, p));
    let ghost t1 = t@;
    ts.insert(at, t);
    proof {
        let after = tables(ts@);
        assert(after =~= middle.update(at as int, t1));
        if known {
            assert(middle =~= before);
        } else {
            assert(middle =~= before.insert(at as int, t0));
            assert(after =~= before.insert(at as int, t1));
        }
        lemma_noted(before, after, ps@, p, events as nat, at as int, known);
    }
}

/// What a list of events says.
pub open spec fn bytes_of(events: Seq<Vec<u8>>) -> Seq<Seq<u8>> {
    events.map_values(|e: Vec<u8>| e@)
}

/// Take events apart into one table per bank, in ascending order of ids.
pub fn gather(events: &[Vec<u8>]) -> (r: Vec<BankTable>)
    ensures
        gathered(tables(r@), pieces_of(bytes_of(events@)), events.len() as nat),
{
    let n: usize = events.len();
    let ghost all = bytes_of(events@);
    let mut ts: Vec<BankTable> = Vec::new();
    let mut e: usize = 0;
    assert(all.subrange(0, 0) =~= Seq::<Seq<u8>>::empty());
    assert(tables(ts@) =~= Seq::<TableView>::empty());
    while e < n
        invariant
            e <= n,
            n == events.len(),
            all == bytes_of(events@),
            gathered(tables(ts@), pieces_of(all.subrange(0, e as int)), n as nat),
        decreases n - e,
    {
        let ev = Event::new(events[e].as_slice());
        let mut it = ev.iter_structures();
        let ghost sts = event_structures(all[e as int]);
        let ghost ps0 = pieces_of(all.subrange(0, e as int));
        let ghost mut done: int = 0;
        let ghost mut ps = ps0;
        assert(it@ =~= sts.subrange(0, sts.len() as int));
        loop
            invariant
                it.inv(),
                e < n,
                0 <= done <= sts.len(),
                it@ == sts.subrange(done, sts.len() as int),
                ps == ps0 + event_pieces(e as int, sts.subrange(0, done)),
                gathered(tables(ts@), ps, n as nat),
            ensures
                gathered(
                    tables(ts@),
                    ps0 + event_pieces(e as int, sts),
                    n as nat,
                ),
            decreases it.left(),
        {
            let ghost left = it@;
            match it.next() {
                Some((h, d)) => {
                    note(&mut ts, n, e, h, d, Ghost(ps));
                    proof {
                        let p = Piece { event: e as int, st: StructView { header: h, data: d@ } };
                        assert(left[0] == sts[done]);
                        assert(left.drop_first() =~= sts.subrange(done + 1, sts.len() as int));
                        assert(ps.push(p) =~= ps0 + event_pieces(
                            e as int,
                            sts.subrange(0, done + 1),
                        ));
                        ps = ps.push(p);
                        done = done + 1;
                    }
                },
                None => {
                    assert(sts.subrange(0, done) =~= sts);
                    break;
                },
            }
        }
        proof {
            let next = all.subrange(0, e + 1);
            assert(next.drop_last() =~= all.subrange(0, e as int));
            assert(next.last() == all[e as int]);
        }
        e = e + 1;
    }
    assert(all.subrange(0, n as int) =~= all);
    ts
}

/// The tags of events.
pub open spec fn tags_of(events: Seq<Seq<u8>>) -> Seq<u32> {
    events.map_values(|e: Seq<u8>| event_tag(e))
}

/// The tags of events.
pub fn event_tags(events: &[Vec<u8>]) -> (r: Vec<u32>)
    ensures
        r@ == tags_of(bytes_of(events@)),
{
    let mut out: Vec<u32> = Vec::new();
    let mut e: usize = 0;
    while e < events.len()
        invariant
            e <= events.len(),
            out.len() == e,
            forall|k: int| 0 <= k < e ==> out@[k] == event_tag(events@[k]@),
        decreases events.len() - e,
    {
        out.push(Event::new(events[e].as_slice()).tag());
        e = e + 1;
    }
    assert(out@ =~= tags_of(bytes_of(events@)));
    out
}

} // verus!
