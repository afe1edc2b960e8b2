//! Columns as plain values, and record batches of them.
//!
//! A table is a list of columns. Its cells are plain values until the whole
//! table is turned into an Arrow record batch, which Parquet then encodes.

use std::sync::Arc;

use arrow::array::{
    BooleanArray, Float64Array, Int32Array, RecordBatch, StringArray, TimestampMicrosecondArray,
    UInt64Array,
};
use arrow::datatypes::{DataType, Field as ArrowField, Schema, TimeUnit};
use parquet::arrow::ArrowWriter;
use parquet::basic::{Compression, ZstdLevel};
use parquet::file::properties::WriterProperties;

use vstd::prelude::*;
use vstd::utf8::*;

verus! {

/// What a column holds.
#[derive(Debug, Clone, Copy, PartialEq, Eq, Structural)]
pub enum Kind {
    /// UTF-8 text.
    Text,
    /// 32-bit signed integers.
    Int32,
    /// Timestamps in microseconds, explicitly UTC.
    Micros,
    /// Booleans.
    Flag,
    /// IEEE 754 doubles.
    Double,
}

/// The name and type of a column.
#[derive(Debug, PartialEq, Eq)]
pub struct Field {
    pub name: String,
    pub kind: Kind,
    pub nullable: bool,
}

/// The view of a [`Field`].
#[verifier::ext_equal]
pub struct FieldView {
    pub name: Seq<char>,
    pub kind: Kind,
    pub nullable: bool,
}

impl View for Field {
    type V = FieldView;

    open spec fn view(&self) -> FieldView {
        FieldView { name: self.name@, kind: self.kind, nullable: self.nullable }
    }
}

/// The views of a list of fields.
pub open spec fn field_views(fields: Seq<Field>) -> Seq<FieldView> {
    fields.map_values(|field: Field| field@)
}

/// A field with a name, a kind, and whether it may be null.
pub fn field(name: &str, kind: Kind, nullable: bool) -> (r: Field)
    ensures
        r@ == (FieldView { name: name@, kind, nullable }),
{
    Field { name: name.to_string(), kind, nullable }
}

/// The cells of a column. Doubles are bit patterns, carried through unread.
#[derive(Debug, PartialEq, Eq)]
pub enum Cells {
    Text(Vec<Option<String>>),
    Int32(Vec<Option<i32>>),
    Micros(Vec<Option<i64>>),
    Flag(Vec<Option<bool>>),
    Double(Vec<Option<u64>>),
}

/// A named column.
#[derive(Debug, PartialEq, Eq)]
pub struct Column {
    pub name: String,
    pub nullable: bool,
    pub cells: Cells,
}

/// The view of [`Cells`].
#[verifier::ext_equal]
pub enum CellsView {
    Text(Seq<Option<Seq<char>>>),
    Int32(Seq<Option<i32>>),
    Micros(Seq<Option<i64>>),
    Flag(Seq<Option<bool>>),
    Double(Seq<Option<u64>>),
}

/// The view of a [`Column`].
#[verifier::ext_equal]
pub struct ColumnView {
    pub name: Seq<char>,
    pub nullable: bool,
    pub cells: CellsView,
}

/// A list of texts, some of which may be absent, as specification values.
pub open spec fn opt_texts(values: Seq<Option<String>>) -> Seq<Option<Seq<char>>> {
    values.map_values(
        |value: Option<String>|
            match value {
                Some(s) => Some(s@),
                None => None,
            },
    )
}

impl View for Cells {
    type V = CellsView;

    open spec fn view(&self) -> CellsView {
        match self {
            Cells::Text(v) => CellsView::Text(opt_texts(v@)),
            Cells::Int32(v) => CellsView::Int32(v@),
            Cells::Micros(v) => CellsView::Micros(v@),
            Cells::Flag(v) => CellsView::Flag(v@),
            Cells::Double(v) => CellsView::Double(v@),
        }
    }
}

impl View for Column {
    type V = ColumnView;

    open spec fn view(&self) -> ColumnView {
        ColumnView { name: self.name@, nullable: self.nullable, cells: self.cells@ }
    }
}

/// The views of a list of columns.
pub open spec fn column_views(columns: Seq<Column>) -> Seq<ColumnView> {
    columns.map_values(|column: Column| column@)
}

impl CellsView {
    /// The number of cells.
    pub open spec fn len(self) -> nat {
        match self {
            CellsView::Text(v) => v.len(),
            CellsView::Int32(v) => v.len(),
            CellsView::Micros(v) => v.len(),
            CellsView::Flag(v) => v.len(),
            CellsView::Double(v) => v.len(),
        }
    }

    /// Whether every cell has a value.
    pub open spec fn full(self) -> bool {
        match self {
            CellsView::Text(v) => forall|i: int| 0 <= i < v.len() ==> #[trigger] v[i] is Some,
            CellsView::Int32(v) => forall|i: int| 0 <= i < v.len() ==> #[trigger] v[i] is Some,
            CellsView::Micros(v) => forall|i: int| 0 <= i < v.len() ==> #[trigger] v[i] is Some,
            CellsView::Flag(v) => forall|i: int| 0 <= i < v.len() ==> #[trigger] v[i] is Some,
            CellsView::Double(v) => forall|i: int| 0 <= i < v.len() ==> #[trigger] v[i] is Some,
        }
    }

    /// What the cells are.
    pub open spec fn kind(self) -> Kind {
        match self {
            CellsView::Text(_) => Kind::Text,
            CellsView::Int32(_) => Kind::Int32,
            CellsView::Micros(_) => Kind::Micros,
            CellsView::Flag(_) => Kind::Flag,
            CellsView::Double(_) => Kind::Double,
        }
    }
}

impl ColumnView {
    /// The column's field.
    pub open spec fn field(self) -> FieldView {
        FieldView { name: self.name, kind: self.cells.kind(), nullable: self.nullable }
    }
}

/// The fields of a list of columns.
pub open spec fn fields_of(columns: Seq<ColumnView>) -> Seq<FieldView> {
    columns.map_values(|column: ColumnView| column.field())
}

/// Cells under the fields of a schema, as columns.
pub open spec fn under_fields(fields: Seq<FieldView>, cells: Seq<CellsView>) -> Seq<ColumnView> {
    Seq::new(
        fields.len(),
        |i: int|
            ColumnView { name: fields[i].name, nullable: fields[i].nullable, cells: cells[i] },
    )
}

/// A column with a name, whether it may be null, and its cells.
pub fn column(name: &str, nullable: bool, cells: Cells) -> (r: Column)
    ensures
        r@ == (ColumnView { name: name@, nullable, cells: cells@ }),
{
    Column { name: name.to_string(), nullable, cells }
}

/// Cells of a kind that are all null.
pub open spec fn null_cells(kind: Kind, rows: nat) -> CellsView {
    match kind {
        Kind::Text => CellsView::Text(Seq::new(rows, |i: int| None::<Seq<char>>)),
        Kind::Int32 => CellsView::Int32(Seq::new(rows, |i: int| None::<i32>)),
        Kind::Micros => CellsView::Micros(Seq::new(rows, |i: int| None::<i64>)),
        Kind::Flag => CellsView::Flag(Seq::new(rows, |i: int| None::<bool>)),
        Kind::Double => CellsView::Double(Seq::new(rows, |i: int| None::<u64>)),
    }
}

/// Cells of a kind that are all null.
pub fn nulls(kind: Kind, rows: usize) -> (r: Cells)
    ensures
        r@ == null_cells(kind, rows as nat),
{
    match kind {
        Kind::Text => {
            let v: Vec<Option<String>> = no_values(rows);
            assert(opt_texts(v@) =~= Seq::new(rows as nat, |i: int| None::<Seq<char>>));
            Cells::Text(v)
        },
        Kind::Int32 => Cells::Int32(no_values(rows)),
        Kind::Micros => Cells::Micros(no_values(rows)),
        Kind::Flag => Cells::Flag(no_values(rows)),
        Kind::Double => Cells::Double(no_values(rows)),
    }
}

/// A list of absent values.
fn no_values<T>(rows: usize) -> (r: Vec<Option<T>>)
    ensures
        r@ == Seq::new(rows as nat, |i: int| None::<T>),
{
    let mut r: Vec<Option<T>> = Vec::new();
    let mut i: usize = 0;
    while i < rows
        invariant
            i <= rows,
            r@.len() == i,
            forall|k: int| 0 <= k < i ==> #[trigger] r@[k] is None,
        decreases rows - i,
    {
        r.push(None);
        i = i + 1;
    }
    assert(r@ =~= Seq::new(rows as nat, |i: int| None::<T>));
    r
}

/// The bytes that the texts of a column take.
pub open spec fn text_bytes(values: Seq<Option<Seq<char>>>) -> nat
    decreases values.len(),
{
    if values.len() == 0 {
        0
    } else {
        text_bytes(values.drop_last()) + match values.last() {
            Some(s) => encode_utf8(s).len(),
            None => 0,
        }
    }
}

/// The bytes that the texts of one column can take at most: Arrow addresses
/// them with 32-bit signed offsets.
pub const MAX_TEXT_BYTES: usize = 2_147_483_647;

/// Whether the texts of a column are within the limit.
pub open spec fn text_fits(cells: CellsView) -> bool {
    match cells {
        CellsView::Text(v) => text_bytes(v) <= MAX_TEXT_BYTES,
        _ => true,
    }
}

/// Whether the texts of every column are within the limit.
pub open spec fn texts_fit(columns: Seq<ColumnView>) -> bool {
    forall|i: int| 0 <= i < columns.len() ==> text_fits((#[trigger] columns[i]).cells)
}

/// Whether the columns make a table: as many cells in each as there are rows,
/// and a value in every cell that may not be null.
pub open spec fn is_table(columns: Seq<ColumnView>, rows: nat) -> bool {
    forall|i: int|
        0 <= i < columns.len() ==> (#[trigger] columns[i]).cells.len() == rows && (
        columns[i].nullable || columns[i].cells.full())
}

/// Whether the column at `k` is the one column of a table with a name.
pub open spec fn is_column(columns: Seq<ColumnView>, name: Seq<char>, k: int) -> bool {
    &&& 0 <= k < columns.len()
    &&& columns[k].name == name
    &&& forall|j: int| 0 <= j < columns.len() && (#[trigger] columns[j]).name == name ==> j == k
}

// ---------------------------------------------------------------------------
// Record batches
// ---------------------------------------------------------------------------

/// An Arrow record batch.
///
/// Holds an `arrow::array::RecordBatch`. What it holds is named
/// `batch_columns`; that and the functions below are all that is known of it.
#[verifier::external_body]
pub struct Batch {
    batch: RecordBatch,
}

/// The columns of a batch, in order.
pub uninterp spec fn batch_columns(batch: Batch) -> Seq<ColumnView>;

/// The file that Parquet makes of columns; `None` where it reports an error.
pub uninterp spec fn parquet_file(columns: Seq<ColumnView>) -> Option<Seq<u8>>;

/// Bytes that may be absent, as a specification value.
pub open spec fn opt_bytes(bytes: Option<Vec<u8>>) -> Option<Seq<u8>> {
    match bytes {
        Some(v) => Some(v@),
        None => None,
    }
}

/// Whether a column can be put beside others: the rows match, and a column that
/// may not be null has no null.
pub open spec fn fits_beside(columns: Seq<ColumnView>, nullable: bool, cells: CellsView) -> bool {
    &&& columns.len() > 0 ==> columns[0].cells.len() == cells.len()
    &&& nullable || cells.full()
}

impl Batch {
    /// Calls `RecordBatch::new_empty` with a schema of no fields.
    ///
    /// The batch has no columns.
    #[verifier::external_body]
    fn new() -> (r: Batch)
        ensures
            batch_columns(r) == Seq::<ColumnView>::empty(),
    {
        Batch { batch: RecordBatch::new_empty(Arc::new(Schema::empty())) }
    }

    /// Makes a `StringArray` from `values` and calls `RecordBatch::try_new` with
    /// the columns that are there and this one, under a `Utf8` field.
    ///
    /// The column is added behind the others. `StringArray` panics where the
    /// texts exceed its 32-bit offsets, and `try_new` reports an error where
    /// the lengths differ or a null stands in a field that may not be null;
    /// such arguments are left out.
    #[verifier::external_body]
    fn push_text(&mut self, name: &str, nullable: bool, values: Vec<Option<String>>)
        requires
            fits_beside(batch_columns(*old(self)), nullable, CellsView::Text(opt_texts(values@))),
            text_bytes(opt_texts(values@)) <= MAX_TEXT_BYTES,
        ensures
            batch_columns(*final(self)) == batch_columns(*old(self)).push(
                ColumnView { name: name@, nullable, cells: CellsView::Text(opt_texts(values@)) },
            ),
    {
        let mut fields = self.batch.schema().fields().to_vec();
        let mut columns = self.batch.columns().to_vec();
        fields.push(Arc::new(ArrowField::new(name, DataType::Utf8, nullable)));
        columns.push(Arc::new(StringArray::from(values)));
        self.batch = RecordBatch::try_new(Arc::new(Schema::new(fields)), columns).unwrap();
    }

    /// Makes an `Int32Array` from `values` and calls `RecordBatch::try_new` with
    /// the columns that are there and this one, under an `Int32` field.
    ///
    /// The column is added behind the others. Arguments for which `try_new`
    /// reports an error are left out.
    #[verifier::external_body]
    fn push_int32(&mut self, name: &str, nullable: bool, values: Vec<Option<i32>>)
        requires
            fits_beside(batch_columns(*old(self)), nullable, CellsView::Int32(values@)),
        ensures
            batch_columns(*final(self)) == batch_columns(*old(self)).push(
                ColumnView { name: name@, nullable, cells: CellsView::Int32(values@) },
            ),
    {
        let mut fields = self.batch.schema().fields().to_vec();
        let mut columns = self.batch.columns().to_vec();
        fields.push(Arc::new(ArrowField::new(name, DataType::Int32, nullable)));
        columns.push(Arc::new(Int32Array::from(values)));
        self.batch = RecordBatch::try_new(Arc::new(Schema::new(fields)), columns).unwrap();
    }

    /// Makes a `TimestampMicrosecondArray` from `values`, tagged `UTC`, and calls
    /// `RecordBatch::try_new` with the columns that are there and this one,
    /// under a field of that timestamp type.
    ///
    /// The column is added behind the others. Arguments for which `try_new`
    /// reports an error are left out.
    #[verifier::external_body]
    fn push_micros(&mut self, name: &str, nullable: bool, values: Vec<Option<i64>>)
        requires
            fits_beside(batch_columns(*old(self)), nullable, CellsView::Micros(values@)),
        ensures
            batch_columns(*final(self)) == batch_columns(*old(self)).push(
                ColumnView { name: name@, nullable, cells: CellsView::Micros(values@) },
            ),
    {
        let mut fields = self.batch.schema().fields().to_vec();
        let mut columns = self.batch.columns().to_vec();
        let kind = DataType::Timestamp(TimeUnit::Microsecond, Some("UTC".into()));
        fields.push(Arc::new(ArrowField::new(name, kind, nullable)));
        columns.push(Arc::new(TimestampMicrosecondArray::from(values).with_timezone("UTC")));
        self.batch = RecordBatch::try_new(Arc::new(Schema::new(fields)), columns).unwrap();
    }

    /// Makes a `BooleanArray` from `values` and calls `RecordBatch::try_new` with
    /// the columns that are there and this one, under a `Boolean` field.
    ///
    /// The column is added behind the others. Arguments for which `try_new`
    /// reports an error are left out.
    #[verifier::external_body]
    fn push_flag(&mut self, name: &str, nullable: bool, values: Vec<Option<bool>>)
        requires
            fits_beside(batch_columns(*old(self)), nullable, CellsView::Flag(values@)),
        ensures
            batch_columns(*final(self)) == batch_columns(*old(self)).push(
                ColumnView { name: name@, nullable, cells: CellsView::Flag(values@) },
            ),
    {
        let mut fields = self.batch.schema().fields().to_vec();
        let mut columns = self.batch.columns().to_vec();
        fields.push(Arc::new(ArrowField::new(name, DataType::Boolean, nullable)));
        columns.push(Arc::new(BooleanArray::from(values)));
        self.batch = RecordBatch::try_new(Arc::new(Schema::new(fields)), columns).unwrap();
    }

    /// Makes a `Float64Array` whose values have the bit patterns in `values`, by
    /// way of a `UInt64Array` and its buffer, and calls `RecordBatch::try_new`
    /// with the columns that are there and this one, under a `Float64` field.
    ///
    /// The column is added behind the others. Arguments for which `try_new`
    /// reports an error are left out.
    #[verifier::external_body]
    fn push_double(&mut self, name: &str, nullable: bool, values: Vec<Option<u64>>)
        requires
            fits_beside(batch_columns(*old(self)), nullable, CellsView::Double(values@)),
        ensures
            batch_columns(*final(self)) == batch_columns(*old(self)).push(
                ColumnView { name: name@, nullable, cells: CellsView::Double(values@) },
            ),
    {
        let mut fields = self.batch.schema().fields().to_vec();
        let mut columns = self.batch.columns().to_vec();
        let (_, bits, nulls) = UInt64Array::from(values).into_parts();
        fields.push(Arc::new(ArrowField::new(name, DataType::Float64, nullable)));
        columns.push(Arc::new(Float64Array::new(bits.into_inner().into(), nulls)));
        self.batch = RecordBatch::try_new(Arc::new(Schema::new(fields)), columns).unwrap();
    }

    /// Calls `ArrowWriter` to write the batch into memory as one Parquet file,
    /// compressed with Zstandard at the default level.
    ///
    /// The bytes depend on the columns alone and are named `parquet_file`; the
    /// format is not described. An error of the writer gives `None`.
    #[verifier::external_body]
    pub(crate) fn encode(&self) -> (r: Option<Vec<u8>>)
        ensures
            opt_bytes(r) == parquet_file(batch_columns(*self)),
    {
        let properties = WriterProperties::builder()
            .set_compression(Compression::ZSTD(ZstdLevel::default()))
            .build();
        let mut bytes = Vec::new();
        let schema = self.batch.schema();
        let mut writer = ArrowWriter::try_new(&mut bytes, schema, Some(properties)).ok()?;
        writer.write(&self.batch).ok()?;
        writer.close().ok()?;
        Some(bytes)
    }

    /// A batch of the columns of a table.
    pub fn from_columns(columns: Vec<Column>, rows: usize) -> (r: Batch)
        requires
            is_table(column_views(columns@), rows as nat),
            texts_fit(column_views(columns@)),
        ensures
            batch_columns(r) == column_views(columns@),
    {
        let ghost all = column_views(columns@);
        let ghost source = columns@;
        let mut r: Batch = Batch::new();
        assert(batch_columns(r) =~= all.take(0));
        for column in it: columns
            invariant
                it.seq() == source,
                all == column_views(source),
                is_table(all, rows as nat),
                texts_fit(all),
                batch_columns(r) == all.take(it.index()),
        {
            proof {
                let i = it.index();
                assert(all[i] == source[i]@);
                assert(text_fits(all[i].cells));
                assert(all[i].cells.len() == rows);
                if i > 0 {
                    assert(all.take(i)[0] == all[0]);
                    assert(all[0].cells.len() == rows);
                }
                assert(all.take(i + 1) =~= all.take(i).push(all[i]));
            }
            let name: &str = column.name.as_str();
            match column.cells {
                Cells::Text(values) => r.push_text(name, column.nullable, values),
                Cells::Int32(values) => r.push_int32(name, column.nullable, values),
                Cells::Micros(values) => r.push_micros(name, column.nullable, values),
                Cells::Flag(values) => r.push_flag(name, column.nullable, values),
                Cells::Double(values) => r.push_double(name, column.nullable, values),
            }
        }
        assert(all.take(all.len() as int) =~= all);
        r
    }
}

/// Whether the texts of every column are within the limit.
pub fn fits(columns: &Vec<Column>) -> (r: bool)
    ensures
        r == texts_fit(column_views(columns@)),
{
    let ghost all = column_views(columns@);
    let mut i: usize = 0;
    while i < columns.len()
        invariant
            i <= columns@.len(),
            all == column_views(columns@),
            forall|k: int| 0 <= k < i ==> text_fits((#[trigger] all[k]).cells),
        decreases columns@.len() - i,
    {
        assert(all[i as int] == columns@[i as int]@);
        if let Cells::Text(values) = &columns[i].cells {
            if !texts_within_limit(values) {
                assert(!text_fits(all[i as int].cells));
                return false;
            }
        }
        i = i + 1;
    }
    true
}

/// Whether texts are within the limit of a column.
fn texts_within_limit(values: &Vec<Option<String>>) -> (r: bool)
    ensures
        r == (text_bytes(opt_texts(values@)) <= MAX_TEXT_BYTES),
{
    let ghost all = opt_texts(values@);
    let mut total: usize = 0;
    let mut i: usize = 0;
    while i < values.len()
        invariant
            i <= values@.len(),
            all == opt_texts(values@),
            total == text_bytes(all.take(i as int)),
            total <= MAX_TEXT_BYTES,
        decreases values@.len() - i,
    {
        proof {
            assert(all.take(i + 1).drop_last() =~= all.take(i as int));
            lemma_text_bytes_grow(all, i + 1);
        }
        if let Some(s) = &values[i] {
            let bytes: usize = s.as_str().as_bytes().len();
            if bytes > MAX_TEXT_BYTES - total {
                return false;
            }
            total = total + bytes;
        }
        i = i + 1;
    }
    assert(all.take(all.len() as int) =~= all);
    true
}

proof fn lemma_text_bytes_grow(values: Seq<Option<Seq<char>>>, n: int)
    requires
        0 <= n <= values.len(),
    ensures
        text_bytes(values.take(n)) <= text_bytes(values),
    decreases values.len() - n,
{
    if n == values.len() {
        assert(values.take(n) =~= values);
    } else {
        lemma_text_bytes_grow(values, n + 1);
        assert(values.take(n + 1).drop_last() =~= values.take(n));
    }
}

// ---------------------------------------------------------------------------
// Laws
// ---------------------------------------------------------------------------

/// The texts of a column take the bytes of their UTF-8 encodings: one more text
/// takes as many more, and a null none. A column of texts is within the limit
/// as long as that is less than two to the power of 31.
pub proof fn law_texts_take_their_bytes(values: Seq<Option<Seq<char>>>, value: Option<Seq<char>>)
    ensures
        text_bytes(Seq::<Option<Seq<char>>>::empty()) == 0,
        text_bytes(values.push(value)) == text_bytes(values) + match value {
            Some(s) => encode_utf8(s).len(),
            None => 0,
        },
        text_fits(CellsView::Text(values)) <==> text_bytes(values) < 0x8000_0000,
{
    assert(values.push(value).drop_last() =~= values);
}

/// What is said of columns is said of what they hold: of each its name, whether
/// it may be null, and its cells as they are.
pub proof fn law_columns_are_seen_as_they_are(columns: Seq<Column>, k: int)
    requires
        0 <= k < columns.len(),
    ensures
        column_views(columns).len() == columns.len(),
        column_views(columns)[k].name == columns[k].name@,
        column_views(columns)[k].nullable == columns[k].nullable,
        match columns[k].cells {
            Cells::Text(v) => column_views(columns)[k].cells matches CellsView::Text(w) && w.len()
                == v@.len() && forall|i: int|
                0 <= i < v@.len() ==> match (#[trigger] v@[i]) {
                    Some(s) => w[i] == Some(s@),
                    None => w[i] is None,
                },
            Cells::Int32(v) => column_views(columns)[k].cells == CellsView::Int32(v@),
            Cells::Micros(v) => column_views(columns)[k].cells == CellsView::Micros(v@),
            Cells::Flag(v) => column_views(columns)[k].cells == CellsView::Flag(v@),
            Cells::Double(v) => column_views(columns)[k].cells == CellsView::Double(v@),
        },
{
    assert(column_views(columns)[k] == columns[k]@);
}

} // verus!
