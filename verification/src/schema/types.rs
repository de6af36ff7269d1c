//! `Schema`, `SchemaEntry`, `DataType`, and the `(group, item)` lookup table of a dictionary.

use vstd::prelude::*;
use crate::error::{HipoError, Result};
use crate::schema::handle::{BankColumnType, ColumnHandle};
use crate::text::{owned, same_text};

verus! {

/// Wire-level data type of a column.
#[derive(Debug, Clone, Copy, PartialEq, Eq, Hash, Structural)]
pub enum DataType {
    Byte,
    Short,
    Int,
    Float,
    Double,
    Long,
}

impl DataType {
    /// The number that stands for this type on the wire.
    pub open spec fn number(self) -> u8 {
        match self {
            DataType::Byte => 1,
            DataType::Short => 2,
            DataType::Int => 3,
            DataType::Float => 4,
            DataType::Double => 5,
            DataType::Long => 8,
        }
    }

    /// The letter that stands for this type in schema text.
    pub open spec fn spec_letter(self) -> char {
        match self {
            DataType::Byte => 'B',
            DataType::Short => 'S',
            DataType::Int => 'I',
            DataType::Float => 'F',
            DataType::Double => 'D',
            DataType::Long => 'L',
        }
    }

    /// Bytes per element.
    pub open spec fn spec_size(self) -> nat {
        match self {
            DataType::Byte => 1,
            DataType::Short => 2,
            DataType::Int | DataType::Float => 4,
            DataType::Double | DataType::Long => 8,
        }
    }

    /// The type with the letter `c`.
    pub open spec fn of_letter(c: char) -> Option<DataType> {
        if c == 'B' {
            Some(DataType::Byte)
        } else if c == 'S' {
            Some(DataType::Short)
        } else if c == 'I' {
            Some(DataType::Int)
        } else if c == 'F' {
            Some(DataType::Float)
        } else if c == 'D' {
            Some(DataType::Double)
        } else if c == 'L' {
            Some(DataType::Long)
        } else {
            None
        }
    }

    /// Type letter as it appears in schema text.
    pub fn letter(self) -> (r: char)
        ensures
            r == self.spec_letter(),
            DataType::of_letter(r) == Some(self),
    {
        match self {
            DataType::Byte => 'B',
            DataType::Short => 'S',
            DataType::Int => 'I',
            DataType::Float => 'F',
            DataType::Double => 'D',
            DataType::Long => 'L',
        }
    }

    pub fn from_letter(c: char) -> (r: Option<Self>)
        ensures
            r == DataType::of_letter(c),
    {
        match c {
            'B' => Some(DataType::Byte),
            'S' => Some(DataType::Short),
            'I' => Some(DataType::Int),
            'F' => Some(DataType::Float),
            'D' => Some(DataType::Double),
            'L' => Some(DataType::Long),
            _ => None,
        }
    }

    pub fn size(self) -> (r: usize)
        ensures
            r == self.spec_size(),
            1 <= r <= 8,
    {
        match self {
            DataType::Byte => 1,
            DataType::Short => 2,
            DataType::Int | DataType::Float => 4,
            DataType::Double | DataType::Long => 8,
        }
    }

    /// The name of the type, for messages.
    pub open spec fn spec_name(self) -> &'static str {
        match self {
            DataType::Byte => "byte",
            DataType::Short => "short",
            DataType::Int => "int",
            DataType::Float => "float",
            DataType::Double => "double",
            DataType::Long => "long",
        }
    }

    pub fn name(self) -> (r: &'static str)
        ensures
            r == self.spec_name(),
    {
        match self {
            DataType::Byte => "byte",
            DataType::Short => "short",
            DataType::Int => "int",
            DataType::Float => "float",
            DataType::Double => "double",
            DataType::Long => "long",
        }
    }

    pub fn from_type_id(id: u8) -> (r: Option<Self>)
        ensures
            match r {
                Some(t) => t.number() == id,
                None => forall|t: DataType| #![trigger t.number()] t.number() != id,
            },
    {
        match id {
            1 => Some(DataType::Byte),
            2 => Some(DataType::Short),
            3 => Some(DataType::Int),
            4 => Some(DataType::Float),
            5 => Some(DataType::Double),
            8 => Some(DataType::Long),
            _ => None,
        }
    }

    /// The number that stands for this type on the wire.
    pub fn type_id(self) -> (r: u8)
        ensures
            r == self.number(),
    {
        match self {
            DataType::Byte => 1,
            DataType::Short => 2,
            DataType::Int => 3,
            DataType::Float => 4,
            DataType::Double => 5,
            DataType::Long => 8,
        }
    }
}

/// One column in a schema.
#[derive(Debug, Clone, PartialEq, Eq)]
pub struct SchemaEntry {
    pub name: String,
    pub ty: DataType,
    /// Offset within a row: the widths of the columns before this one. Banks are column-major,
    /// so a column starts at `rows * row_offset`.
    pub row_offset: u32,
    /// Elements per cell: `1` for a scalar column, `N` for a column declared `name/T#N`.
    pub length: u32,
}

/// What a schema entry says.
#[verifier::ext_equal]
pub struct EntryView {
    pub name: Seq<char>,
    pub ty: DataType,
    pub row_offset: u32,
    pub length: u32,
}

impl EntryView {
    /// Bytes per cell.
    pub open spec fn width(self) -> nat {
        self.ty.spec_size() * self.length as nat
    }
}

impl View for SchemaEntry {
    type V = EntryView;

    open spec fn view(&self) -> EntryView {
        EntryView {
            name: self.name@,
            ty: self.ty,
            row_offset: self.row_offset,
            length: self.length,
        }
    }
}

/// What a schema says.
#[verifier::ext_equal]
pub struct SchemaView {
    pub name: Seq<char>,
    pub group: u16,
    pub item: u8,
    pub entries: Seq<EntryView>,
    pub row_size: u32,
}

/// `n`, or the largest `u32` where `n` is larger.
pub open spec fn cap32(n: nat) -> u32 {
    if n > u32::MAX {
        u32::MAX
    } else {
        n as u32
    }
}

/// The widths of the first `n` columns, added up.
pub open spec fn widths(entries: Seq<EntryView>, n: nat) -> nat
    decreases n,
{
    if n == 0 {
        0
    } else {
        widths(entries, (n - 1) as nat) + entries[n - 1].width()
    }
}

/// `widths` looks at the types and lengths of the first `n` columns alone.
pub proof fn lemma_widths_same(a: Seq<EntryView>, b: Seq<EntryView>, n: nat)
    requires
        n <= a.len(),
        n <= b.len(),
        forall|i: int| 0 <= i < n ==> a[i].ty == b[i].ty && a[i].length == b[i].length,
    ensures
        widths(a, n) == widths(b, n),
    decreases n,
{
    if n > 0 {
        lemma_widths_same(a, b, (n - 1) as nat);
    }
}

/// More columns are at least as wide.
pub proof fn lemma_widths_monotone(entries: Seq<EntryView>, a: nat, b: nat)
    requires
        a <= b,
    ensures
        widths(entries, a) <= widths(entries, b),
    decreases b,
{
    if a < b {
        lemma_widths_monotone(entries, a, (b - 1) as nat);
    }
}

impl SchemaView {
    /// The layout that `from_columns` gives: every column starts where the one before it ends,
    /// and a row is as wide as its columns, both capped at the largest `u32`.
    pub open spec fn laid_out(self) -> bool {
        &&& self.entries.len() <= 65536
        &&& self.row_size == cap32(widths(self.entries, self.entries.len()))
        &&& forall|i: int|
            0 <= i < self.entries.len() ==> {
                &&& (#[trigger] self.entries[i]).row_offset == cap32(widths(self.entries, i as nat))
                &&& self.entries[i].length >= 1
            }
    }

    /// The schema has a column named `name`.
    pub open spec fn has_column(self, name: Seq<char>) -> bool {
        exists|i: int| 0 <= i < self.entries.len() && (#[trigger] self.entries[i]).name == name
    }

    /// Column `i` is the last one with the name `name`.
    pub open spec fn is_column(self, name: Seq<char>, i: int) -> bool {
        &&& 0 <= i < self.entries.len()
        &&& self.entries[i].name == name
        &&& forall|j: int| i < j < self.entries.len() ==> (#[trigger] self.entries[j]).name != name
    }
}

/// Layout of a single bank.
#[derive(Debug, PartialEq, Eq)]
pub struct Schema {
    name: String,
    group: u16,
    item: u8,
    entries: Vec<SchemaEntry>,
    row_size: u32,
}

impl View for Schema {
    type V = SchemaView;

    closed spec fn view(&self) -> SchemaView {
        SchemaView {
            name: self.name@,
            group: self.group,
            item: self.item,
            entries: self.entries@.map_values(|e: SchemaEntry| e@),
            row_size: self.row_size,
        }
    }
}

/// The columns that a list of `(name, type, length)` triples declares: a length of zero counts
/// as one, and columns past the 65,536th are dropped.
pub open spec fn declared(cols: Seq<(Seq<char>, DataType, u32)>) -> Seq<EntryView> {
    let bare = bare_entries(cols);
    Seq::new(
        bare.len(),
        |i: int| EntryView { row_offset: cap32(widths(bare, i as nat)), ..bare[i] },
    )
}

/// The columns of `declared` before their offsets are known.
pub open spec fn bare_entries(cols: Seq<(Seq<char>, DataType, u32)>) -> Seq<EntryView> {
    Seq::new(
        if cols.len() > 65536 {
            65536
        } else {
            cols.len()
        },
        |i: int|
            EntryView {
                name: cols[i].0,
                ty: cols[i].1,
                row_offset: 0,
                length: if cols[i].2 == 0 {
                    1
                } else {
                    cols[i].2
                },
            },
    )
}

/// What a list of triples says.
pub open spec fn triples(cols: Seq<(String, DataType, u32)>) -> Seq<(Seq<char>, DataType, u32)> {
    cols.map_values(|c: (String, DataType, u32)| (c.0@, c.1, c.2))
}

/// The schema that `from_columns` builds.
pub open spec fn schema_of(
    name: Seq<char>,
    group: u16,
    item: u8,
    cols: Seq<(Seq<char>, DataType, u32)>,
) -> SchemaView {
    SchemaView {
        name,
        group,
        item,
        entries: declared(cols),
        row_size: cap32(widths(bare_entries(cols), bare_entries(cols).len())),
    }
}

/// Every list of triples declares a schema whose columns lie one after the other.
pub proof fn law_declared_schema_is_laid_out(
    name: Seq<char>,
    group: u16,
    item: u8,
    cols: Seq<(Seq<char>, DataType, u32)>,
)
    ensures
        schema_of(name, group, item, cols).laid_out(),
{
    let bare = bare_entries(cols);
    let full = declared(cols);
    assert forall|n: nat| n <= full.len() implies #[trigger] widths(full, n) == widths(bare, n) by {
        lemma_widths_same(full, bare, n);
    }
}

/// Two entries with the same name, type, offset and length.
fn same_entry(a: &SchemaEntry, b: &SchemaEntry) -> (r: bool)
    ensures
        r == (a@ == b@),
{
    a.ty == b.ty && a.row_offset == b.row_offset && a.length == b.length && same_text(
        a.name.as_str(),
        b.name.as_str(),
    )
}

impl Default for Schema {
    fn default() -> (r: Self)
        ensures
            r@.name.len() == 0,
            r@.entries.len() == 0,
            r@.group == 0 && r@.item == 0 && r@.row_size == 0,
    {
        proof {
            reveal_strlit("");
        }
        Schema::new("", 0, 0)
    }
}

impl Clone for Schema {
    fn clone(&self) -> (r: Self)
        ensures
            r@ == self@,
    {
        proof {
            use_type_invariant(self);
        }
        let mut entries: Vec<SchemaEntry> = Vec::new();
        let mut i: usize = 0;
        while i < self.entries.len()
            invariant
                i <= self.entries.len(),
                entries.len() == i,
                forall|k: int| 0 <= k < i ==> (#[trigger] entries@[k])@ == self.entries@[k]@,
            decreases self.entries.len() - i,
        {
            let e = &self.entries[i];
            entries.push(
                SchemaEntry {
                    name: e.name.clone(),
                    ty: e.ty,
                    row_offset: e.row_offset,
                    length: e.length,
                },
            );
            i = i + 1;
        }
        let ghost g = entries@.map_values(|e: SchemaEntry| e@);
        assert(g =~= self@.entries);
        Schema {
            name: self.name.clone(),
            group: self.group,
            item: self.item,
            entries,
            row_size: self.row_size,
        }
    }
}

impl Schema {
    /// Every schema is laid out as `from_columns` lays it out.
    #[verifier::type_invariant]
    pub open spec fn inv(self) -> bool {
        self@.laid_out()
    }

    pub fn new(name: &str, group: u16, item: u8) -> (r: Self)
        ensures
            r@ == (SchemaView { name: name@, group, item, entries: Seq::empty(), row_size: 0 }),
    {
        let entries: Vec<SchemaEntry> = Vec::new();
        assert(entries@.map_values(|e: SchemaEntry| e@) =~= Seq::<EntryView>::empty());
        Schema { name: owned(name), group, item, entries, row_size: 0 }
    }

    /// A schema made of `(name, type, length)` triples. A length of `1` is a scalar column; a
    /// larger one a fixed-length array. Offsets saturate, so no list of columns can make them
    /// wrap.
    pub fn from_columns(
        name: &str,
        group: u16,
        item: u8,
        columns: Vec<(String, DataType, u32)>,
    ) -> (r: Self)
        ensures
            r@ == schema_of(name@, group, item, triples(columns@)),
    {
        let ghost cols = triples(columns@);
        let ghost bare = bare_entries(cols);
        let mut entries: Vec<SchemaEntry> = Vec::new();
        let mut offset: u32 = 0;
        let mut i: usize = 0;
        while i < columns.len() && i < 65536
            invariant
                i <= columns.len(),
                i <= 65536,
                cols == triples(columns@),
                bare == bare_entries(cols),
                entries.len() == i,
                offset == cap32(widths(bare, i as nat)),
                forall|k: int| 0 <= k < i ==> (#[trigger] entries@[k])@ == declared(cols)[k],
            decreases columns.len() - i,
        {
            let ty = columns[i].1;
            let length: u32 = if columns[i].2 == 0 {
                1
            } else {
                columns[i].2
            };
            entries.push(
                SchemaEntry { name: columns[i].0.clone(), ty, row_offset: offset, length },
            );
            assert(entries@[i as int]@ =~= declared(cols)[i as int]);
            assert(bare[i as int].width() <= 8 * u32::MAX) by (nonlinear_arith)
                requires
                    bare[i as int].ty.spec_size() <= 8,
                    bare[i as int].width() == bare[i as int].ty.spec_size()
                        * bare[i as int].length as nat,
            ;
            let size: u64 = ty.size() as u64;
            assert(size * (length as u64) <= 8 * u32::MAX && size * (length as u64)
                == bare[i as int].width()) by (nonlinear_arith)
                requires
                    size <= 8,
                    size == bare[i as int].ty.spec_size(),
                    length == bare[i as int].length,
                    bare[i as int].width() == bare[i as int].ty.spec_size()
                        * bare[i as int].length as nat,
            ;
            let end: u64 = offset as u64 + size * length as u64;
            offset = if end > u32::MAX as u64 {
                u32::MAX
            } else {
                end as u32
            };
            i = i + 1;
        }
        proof {
            assert(entries@.map_values(|e: SchemaEntry| e@) =~= declared(cols));
            law_declared_schema_is_laid_out(name@, group, item, cols);
        }
        let s = Schema { name: owned(name), group, item, entries, row_size: offset };
        assert(s@ =~= schema_of(name@, group, item, cols));
        s
    }

    pub fn name(&self) -> (r: &str)
        ensures
            r@ == self@.name,
    {
        self.name.as_str()
    }

    pub fn group(&self) -> (r: u16)
        ensures
            r == self@.group,
    {
        self.group
    }

    pub fn item(&self) -> (r: u8)
        ensures
            r == self@.item,
    {
        self.item
    }

    pub fn entries(&self) -> (r: &[SchemaEntry])
        ensures
            r.len() == self@.entries.len(),
            forall|i: int| 0 <= i < r.len() ==> (#[trigger] r@[i])@ == self@.entries[i],
    {
        self.entries.as_slice()
    }

    pub fn num_columns(&self) -> (r: usize)
        ensures
            r == self@.entries.len(),
            r <= 65536,
    {
        proof {
            use_type_invariant(self);
        }
        self.entries.len()
    }

    pub fn row_size(&self) -> (r: u32)
        ensures
            r == self@.row_size,
    {
        self.row_size
    }

    pub fn bytes_for_rows(&self, rows: u32) -> (r: u64)
        ensures
            r == self@.row_size * rows,
    {
        let size: u64 = self.row_size as u64;
        let n: u64 = rows as u64;
        assert(size * n <= u64::MAX) by (nonlinear_arith)
            requires
                size <= u32::MAX,
                n <= u32::MAX,
        ;
        size * n
    }

    /// Index of the column named `name`; of several, the last.
    pub fn column_index(&self, name: &str) -> (r: Option<usize>)
        ensures
            match r {
                Some(i) => self@.is_column(name@, i as int),
                None => !self@.has_column(name@),
            },
    {
        let mut i: usize = self.entries.len();
        while i > 0
            invariant
                i <= self.entries.len(),
                self.entries.len() == self@.entries.len(),
                forall|j: int| i <= j < self@.entries.len() ==> (#[trigger] self@.entries[j]).name
                    != name@,
            decreases i,
        {
            i = i - 1;
            assert(self@.entries[i as int] == self.entries@[i as int]@);
            if same_text(self.entries[i].name.as_str(), name) {
                return Some(i);
            }
        }
        None
    }

    pub fn require_column(&self, name: &str) -> (r: Result<usize>)
        ensures
            match r {
                Ok(i) => self@.is_column(name@, i as int),
                Err(e) => !self@.has_column(name@) && (e matches HipoError::UnknownColumn {
                    schema,
                    column,
                } && schema@ == self@.name && column@ == name@),
            },
    {
        match self.column_index(name) {
            Some(i) => Ok(i),
            None => Err(
                HipoError::UnknownColumn { schema: self.name.clone(), column: owned(name) },
            ),
        }
    }

    /// Resolve a typed column handle, which callers reuse across events to skip the name
    /// lookup.
    pub fn handle<T: BankColumnType>(&self, name: &str) -> (r: Result<ColumnHandle<T>>)
        ensures
            crate::schema::handle::resolved::<T>(self@, name@, r),
    {
        ColumnHandle::resolve(self, name)
    }

    /// Where column `col` starts in a bank of `total_rows` rows.
    pub fn column_byte_offset(&self, col: usize, total_rows: u32) -> (r: u64)
        requires
            col < self@.entries.len(),
        ensures
            r == total_rows * self@.entries[col as int].row_offset,
    {
        let off: u64 = self.entries[col].row_offset as u64;
        let rows: u64 = total_rows as u64;
        assert(rows * off <= u64::MAX) by (nonlinear_arith)
            requires
                rows <= u32::MAX,
                off <= u32::MAX,
        ;
        assert(self@.entries[col as int] == self.entries@[col as int]@);
        rows * off
    }

    /// Where cell `(col, row)` starts in a bank of `total_rows` rows.
    pub fn cell_byte_offset(&self, col: usize, row: u32, total_rows: u32) -> (r: u64)
        requires
            col < self@.entries.len(),
            total_rows * self@.entries[col as int].row_offset + row
                * self@.entries[col as int].width() <= u64::MAX,
        ensures
            r == total_rows * self@.entries[col as int].row_offset + row
                * self@.entries[col as int].width(),
    {
        assert(self@.entries[col as int] == self.entries@[col as int]@);
        let base: u64 = self.column_byte_offset(col, total_rows);
        let entry = &self.entries[col];
        let size: u64 = entry.ty.size() as u64;
        let length: u64 = entry.length as u64;
        let n: u64 = row as u64;
        assert(size * length <= 8 * u32::MAX) by (nonlinear_arith)
            requires
                size <= 8,
                length <= u32::MAX,
        ;
        let width: u64 = size * length;
        assert(n * width <= u64::MAX) by (nonlinear_arith)
            requires
                base + n * width <= u64::MAX,
                base >= 0,
        ;
        base + n * width
    }

    /// Elements per cell of column `col`.
    pub fn column_length(&self, col: usize) -> (r: u32)
        requires
            col < self@.entries.len(),
        ensures
            r == self@.entries[col as int].length,
    {
        assert(self@.entries[col as int] == self.entries@[col as int]@);
        self.entries[col].length
    }

    /// Whether two schemas say the same: name, id, columns and row size.
    pub fn same_as(&self, other: &Schema) -> (r: bool)
        ensures
            r == (self@ == other@),
    {
        assert(self@.entries.len() == self.entries.len());
        assert(other@.entries.len() == other.entries.len());
        if self.group != other.group || self.item != other.item || self.row_size != other.row_size
            || self.entries.len() != other.entries.len() {
            return false;
        }
        if !same_text(self.name.as_str(), other.name.as_str()) {
            return false;
        }
        let mut i: usize = 0;
        while i < self.entries.len()
            invariant
                i <= self.entries.len(),
                self.entries.len() == other.entries.len(),
                forall|k: int| 0 <= k < i ==> (#[trigger] self.entries@[k])@ == other.entries@[k]@,
            decreases self.entries.len() - i,
        {
            if !same_entry(&self.entries[i], &other.entries[i]) {
                proof {
                    assert(self@.entries[i as int] == self.entries@[i as int]@);
                    assert(other@.entries[i as int] == other.entries@[i as int]@);
                }
                return false;
            }
            i = i + 1;
        }
        assert(self@.entries =~= other@.entries);
        assert(self@ =~= other@);
        true
    }
}

/// The number of a `(group, item)` pair.
pub open spec fn id_key(group: u16, item: u8) -> nat {
    (group * 256 + item) as nat
}

/// `(group, item) -> schema id` table of a dictionary.
///
/// A flat table indexed by `group * 256 + item`, grown as schemas are added. A slot is wider than
/// an id, so that every id can be told from an empty slot.
#[derive(Debug, Clone, PartialEq, Eq)]
pub struct SchemaIndex {
    table: Vec<u32>,
}

/// Marks an empty slot.
const NO_INDEX: u32 = 0x1_0000;

impl View for SchemaIndex {
    type V = Map<(u16, u8), u16>;

    closed spec fn view(&self) -> Map<(u16, u8), u16> {
        Map::new(
            |k: (u16, u8)|
                id_key(k.0, k.1) < self.table.len() && self.table@[id_key(k.0, k.1) as int]
                    <= u16::MAX,
            |k: (u16, u8)| self.table@[id_key(k.0, k.1) as int] as u16,
        )
    }
}

impl Default for SchemaIndex {
    fn default() -> (r: Self)
        ensures
            r@ == Map::<(u16, u8), u16>::empty(),
    {
        SchemaIndex::new()
    }
}

impl SchemaIndex {
    pub fn new() -> (r: Self)
        ensures
            r@ == Map::<(u16, u8), u16>::empty(),
    {
        let r = SchemaIndex { table: Vec::new() };
        assert(r@ =~= Map::<(u16, u8), u16>::empty());
        r
    }

    /// A table that holds the same.
    pub fn copied(&self) -> (r: Self)
        ensures
            r@ == self@,
    {
        let r = SchemaIndex { table: vstd::slice::slice_to_vec(self.table.as_slice()) };
        assert(r@ =~= self@);
        r
    }

    pub fn key(group: u16, item: u8) -> (r: u32)
        ensures
            r == id_key(group, item),
    {
        group as u32 * 256 + item as u32
    }

    pub fn insert(&mut self, group: u16, item: u8, idx: u16)
        ensures
            final(self)@ == old(self)@.insert((group, item), idx),
    {
        let k: usize = Self::key(group, item) as usize;
        let ghost before = self.table@;
        if k >= self.table.len() {
            self.table.resize(k + 1, NO_INDEX);
            assert(forall|j: int| 0 <= j < before.len() ==> self.table@[j] == self.table@.subrange(
                0,
                before.len() as int,
            )[j]);
        }
        self.table[k] = idx as u32;
        assert(self@ =~= old(self)@.insert((group, item), idx));
    }

    /// Forget what is stored under `(group, item)`.
    pub fn remove(&mut self, group: u16, item: u8)
        ensures
            final(self)@ == old(self)@.remove((group, item)),
    {
        let k: usize = Self::key(group, item) as usize;
        if k < self.table.len() {
            self.table[k] = NO_INDEX;
        }
        assert(self@ =~= old(self)@.remove((group, item)));
    }

    pub fn get(&self, group: u16, item: u8) -> (r: Option<u16>)
        ensures
            r == self@.get((group, item)),
    {
        let k: usize = Self::key(group, item) as usize;
        if k >= self.table.len() || self.table[k] > u16::MAX as u32 {
            None
        } else {
            Some(self.table[k] as u16)
        }
    }
}

} // verus!
