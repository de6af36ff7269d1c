//! What one event says, in whichever layout its record is stored.

use vstd::prelude::*;
#[allow(unused_imports)]
use crate::event::bank::{bank_fits, BankState};
#[allow(unused_imports)]
use crate::event::builders::EventBuilderView;
#[allow(unused_imports)]
use crate::event::event::{
    event_size, event_structures, event_tag, found, structure_fits, header_at, next_structure,
    StructView, StructureHeader,
};
#[allow(unused_imports)]
use crate::schema::dict::DictView;
#[allow(unused_imports)]
use crate::schema::types::{cap32, SchemaView};
#[allow(unused_imports)]
use crate::wire::by_bank::ByBankView;
#[allow(unused_imports)]
use crate::wire::bytes::{le16, le32, spliced};
#[allow(unused_imports)]
use crate::wire::per_column::PerColumnView;
#[allow(unused_imports)]
use crate::wire::split::BankDescriptor;

verus! {

/// One event: its bytes, or an event of a record that keeps its banks apart.
pub enum EventView {
    Bytes(Seq<u8>),
    ByBank(ByBankView, int),
    PerColumn(PerColumnView, int),
}

/// A bank as a structure of an event: id, type, size, data.
pub open spec fn framed_bank(d: BankDescriptor, data: Seq<u8>) -> Seq<u8> {
    le16(d.group) + seq![d.item, d.data_type] + le32(data.len() as u32) + data
}

/// `n` bytes of zero.
pub open spec fn blank(n: nat) -> Seq<u8> {
    Seq::new(n, |i: int| 0u8)
}

impl ByBankView {
    /// How many bytes bank `b` has in event `e`.
    pub open spec fn size(self, e: int, b: int) -> int {
        self.offsets[b][e + 1] - self.offsets[b][e]
    }

    /// The bytes of bank `b` in event `e`. An empty bank needs no stream.
    pub open spec fn datum(self, e: int, b: int) -> Option<Seq<u8>> {
        if self.size(e, b) == 0 {
            Some(Seq::empty())
        } else {
            self.bank_data(e, b)
        }
    }

    /// The first `n` banks of event `e` as structures, one after the other.
    pub open spec fn blob(self, e: int, n: nat) -> Seq<u8>
        decreases n,
    {
        if n == 0 {
            Seq::empty()
        } else if self.has(e, n - 1) {
            self.blob(e, (n - 1) as nat) + framed_bank(
                self.descriptors[n - 1],
                self.datum(e, n - 1)->0,
            )
        } else {
            self.blob(e, (n - 1) as nat)
        }
    }

    /// Every one of the first `n` banks that event `e` has can be read.
    pub open spec fn all_read(self, e: int, n: nat) -> bool {
        forall|b: int| 0 <= b < n && self.has(e, b) ==> (#[trigger] self.datum(e, b)) is Some
    }

    /// The structures of event `e` from bank `b` on, up to the first that cannot be read.
    pub open spec fn structs(self, e: int, b: int) -> Seq<StructView>
        decreases self.banks() - b,
    {
        if b < 0 || b >= self.banks() {
            Seq::empty()
        } else if !self.has(e, b) {
            self.structs(e, b + 1)
        } else {
            match self.datum(e, b) {
                Some(data) => seq![
                    StructView {
                        header: StructureHeader {
                            group: self.descriptors[b].group,
                            item: self.descriptors[b].item,
                            ty: self.descriptors[b].data_type,
                            data_size: self.size(e, b) as u32,
                            header_size: 0,
                        },
                        data,
                    },
                ] + self.structs(e, b + 1),
                None => Seq::empty(),
            }
        }
    }

    /// Bytes that the first `n` banks of event `e` take up as structures.
    pub open spec fn span(self, e: int, n: nat) -> nat
        decreases n,
    {
        if n == 0 {
            0
        } else if self.has(e, n - 1) {
            self.span(e, (n - 1) as nat) + 8 + self.size(e, n - 1) as nat
        } else {
            self.span(e, (n - 1) as nat)
        }
    }
}

impl PerColumnView {
    /// The cells of event `e` in the first `n` columns of bank `b`, laid out under the schema
    /// `s`. A column that is missing or too short leaves zeros.
    pub open spec fn columns_filled(self, e: int, b: int, s: SchemaView, n: nat) -> Seq<u8>
        decreases n,
    {
        if n == 0 {
            blank(self.size(e, b) as nat)
        } else {
            let before = self.columns_filled(e, b, s, (n - 1) as nat);
            let at = self.rows_in(e, b, s.row_size as nat) * s.entries[n - 1].row_offset;
            match self.column_data(e, b, n - 1, s) {
                Some(d) => if at + d.len() <= self.size(e, b) {
                    spliced(before, at, d)
                } else {
                    before
                },
                None => before,
            }
        }
    }

    /// The bytes of bank `b` in event `e` under a dictionary. What cannot be read is zero.
    pub open spec fn bank_filled(self, e: int, b: int, dict: DictView) -> Seq<u8> {
        let zero = blank(self.size(e, b) as nat);
        if self.cols[b] == 0 {
            match self.opaque_data(e, b) {
                Some(d) => d,
                None => zero,
            }
        } else {
            match dict.by_id(self.descriptors[b].group, self.descriptors[b].item) {
                Some(s) => if s.row_size == 0 {
                    zero
                } else {
                    self.columns_filled(e, b, s, s.entries.len())
                },
                None => zero,
            }
        }
    }

    /// The first `n` banks of event `e` as structures, one after the other.
    pub open spec fn blob(self, e: int, dict: DictView, n: nat) -> Seq<u8>
        decreases n,
    {
        if n == 0 {
            Seq::empty()
        } else if self.has(e, n - 1) {
            self.blob(e, dict, (n - 1) as nat) + framed_bank(
                self.descriptors[n - 1],
                self.bank_filled(e, n - 1, dict),
            )
        } else {
            self.blob(e, dict, (n - 1) as nat)
        }
    }

    /// Bytes that the first `n` banks of event `e` take up as structures.
    pub open spec fn span(self, e: int, n: nat) -> nat
        decreases n,
    {
        if n == 0 {
            0
        } else if self.has(e, n - 1) {
            self.span(e, (n - 1) as nat) + 8 + self.size(e, n - 1) as nat
        } else {
            self.span(e, (n - 1) as nat)
        }
    }
}

/// The first structure from byte `pos` on that has this id and an inline format.
pub open spec fn composite_at(s: Seq<u8>, pos: int, end: int, group: u16, item: u8) -> Option<
    Seq<u8>,
>
    decreases end - pos,
{
    if structure_fits(s, pos, end) {
        let h = header_at(s, pos);
        if h.group == group && h.item == item && h.header_size > 0 {
            Some(s.subrange(pos, next_structure(s, pos)))
        } else {
            composite_at(s, next_structure(s, pos), end, group, item)
        }
    } else {
        None
    }
}

impl EventView {
    /// An event of a record is one that the record has.
    pub open spec fn wf(self) -> bool {
        match self {
            EventView::Bytes(_) => true,
            EventView::ByBank(v, e) => v.wf() && 0 <= e < v.events(),
            EventView::PerColumn(v, e) => v.wf() && 0 <= e < v.events(),
        }
    }

    /// The event's tag.
    pub open spec fn tag(self) -> u32 {
        match self {
            EventView::Bytes(s) => event_tag(s),
            EventView::ByBank(v, e) => v.tags[e],
            EventView::PerColumn(v, e) => v.tags[e],
        }
    }

    /// The event has a bank with this id.
    pub open spec fn has(self, group: u16, item: u8) -> bool {
        match self {
            EventView::Bytes(s) => found(event_structures(s), group, item) is Some,
            EventView::ByBank(v, e) => match v.bank_at(group, item) {
                Some(b) => v.has(e, b),
                None => false,
            },
            EventView::PerColumn(v, e) => match v.bank_at(group, item) {
                Some(b) => v.has(e, b as int),
                None => false,
            },
        }
    }

    /// The data of the bank that `s` describes; nothing where the event lacks it or it cannot
    /// be read.
    pub open spec fn bank_data(self, s: SchemaView) -> Option<Seq<u8>> {
        match self {
            EventView::Bytes(b) => match found(event_structures(b), s.group, s.item) {
                Some(st) => Some(st.data),
                None => None,
            },
            EventView::ByBank(v, e) => match v.bank_at(s.group, s.item) {
                Some(b) => if v.has(e, b) {
                    v.bank_data(e, b)
                } else {
                    None
                },
                None => None,
            },
            EventView::PerColumn(v, e) => match v.bank_at(s.group, s.item) {
                Some(b) => if v.has(e, b as int) {
                    v.bank_data(e, b as int, s)
                } else {
                    None
                },
                None => None,
            },
        }
    }

    /// The bank that `s` describes; nothing where the event lacks it, it cannot be read, or its
    /// data is not a whole number of rows.
    pub open spec fn bank(self, s: SchemaView) -> Option<BankState> {
        match self.bank_data(s) {
            Some(d) => if bank_fits(s, d.len()) {
                match BankState::of(s, d) {
                    Some(b) => Some(BankState { lost: self.lost(s), ..b }),
                    None => None,
                }
            } else {
                None
            },
            None => None,
        }
    }

    /// The columns of the bank that `s` describes which cannot be read. A record that keeps
    /// columns apart can lose one and have the others.
    pub open spec fn lost(self, s: SchemaView) -> Seq<usize> {
        match self {
            EventView::PerColumn(v, e) => match v.bank_at(s.group, s.item) {
                Some(b) => v.lost_columns(e, b as int, s),
                None => Seq::empty(),
            },
            _ => Seq::empty(),
        }
    }

    /// The bank with this name in the dictionary.
    pub open spec fn named_bank(self, dict: DictView, name: Seq<char>) -> Option<BankState> {
        match dict.named(name) {
            Some(s) => self.bank(s),
            None => None,
        }
    }

    /// The event has a bank with this name.
    pub open spec fn has_named(self, dict: DictView, name: Seq<char>) -> bool {
        match dict.named(name) {
            Some(s) => self.has(s.group, s.item),
            None => false,
        }
    }

    /// The structures that can be walked without putting the event together.
    pub open spec fn structs(self) -> Seq<StructView> {
        match self {
            EventView::Bytes(s) => event_structures(s),
            EventView::ByBank(v, e) => v.structs(e, 0),
            EventView::PerColumn(v, e) => Seq::empty(),
        }
    }

    /// The event as bytes. One of a record that keeps its banks apart is put together, bank
    /// after bank in the record's order.
    pub open spec fn bytes(self, dict: DictView) -> Seq<u8> {
        match self {
            EventView::Bytes(s) => s,
            EventView::ByBank(v, e) => (EventBuilderView {
                structures: v.blob(e, v.banks()),
                tag: v.tags[e],
            }).event(),
            EventView::PerColumn(v, e) => (EventBuilderView {
                structures: v.blob(e, dict, v.banks()),
                tag: v.tags[e],
            }).event(),
        }
    }

    /// The event can be put together: its banks can be read, and its size fits its header.
    pub open spec fn readable(self, dict: DictView) -> bool {
        match self {
            EventView::Bytes(s) => true,
            EventView::ByBank(v, e) => v.all_read(e, v.banks()) && 16 + v.blob(e, v.banks()).len()
                <= u32::MAX,
            EventView::PerColumn(v, e) => 16 + v.blob(e, dict, v.banks()).len() <= u32::MAX,
        }
    }

    /// The size of the event in bytes: what its header says, or what its banks take up.
    pub open spec fn size(self) -> u32 {
        match self {
            EventView::Bytes(s) => event_size(s),
            EventView::ByBank(v, e) => cap32(16 + v.span(e, v.banks())),
            EventView::PerColumn(v, e) => cap32(16 + v.span(e, v.banks())),
        }
    }
}

} // verus!
