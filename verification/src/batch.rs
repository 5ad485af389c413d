//! Tables of data.
//!
//! A [`Batch`] is an Arrow record batch read into plain values: the cells of
//! each column by the column's type, and which of them are missing.
use arrow::array::{Array, AsArray};
use arrow::datatypes::{
    DataType, Date32Type, Float32Type, Float64Type, Int16Type, Int32Type, Int64Type, Int8Type,
    TimestampMicrosecondType, UInt16Type, UInt32Type, UInt64Type, UInt8Type,
};
use arrow::record_batch::RecordBatch;
use vstd::prelude::*;

use crate::number::Number;
use crate::single::Single;
use crate::words::{optional_text, optional_texts, same_text};

verus! {

/// An Arrow record batch, as it comes from a query. `RecordBatch` itself
/// cannot be declared to the verifier, for its `Index` gives out trait
/// objects, so it is held here and read through the functions below.
#[verifier::external_body]
pub struct Records {
    pub arrow: RecordBatch,
}

/// How many bits an integer column's cells have.
#[derive(Clone, Copy, Debug, PartialEq, Eq, Structural)]
pub enum Width {
    W8,
    W16,
    W32,
    W64,
}

/// The cells of a column, by the column's type.
#[derive(Debug)]
pub enum Cells {
    /// Double-precision numbers.
    Float64(Vec<Option<Number>>),
    /// Single-precision numbers.
    Float32(Vec<Option<Single>>),
    /// Signed integers of the given width.
    Int(Width, Vec<Option<i64>>),
    /// Unsigned integers of the given width.
    UInt(Width, Vec<Option<u64>>),
    /// Texts.
    Utf8(Vec<Option<String>>),
    /// Texts with long offsets.
    LargeUtf8(Vec<Option<String>>),
    /// Microseconds since the epoch; whether the column names a time zone.
    Timestamp(bool, Vec<Option<i64>>),
    /// Days since the epoch.
    Date32(Vec<Option<i32>>),
    /// Truth values.
    Boolean(Vec<Option<bool>>),
    /// Of any other type, only which cells are missing.
    Other(Vec<bool>),
}

/// The cells of a column, as a mathematical value.
pub enum CellSeq {
    Float64(Seq<Option<Number>>),
    Float32(Seq<Option<Single>>),
    Int(Width, Seq<Option<i64>>),
    UInt(Width, Seq<Option<u64>>),
    Utf8(Seq<Option<Seq<char>>>),
    LargeUtf8(Seq<Option<Seq<char>>>),
    Timestamp(bool, Seq<Option<i64>>),
    Date32(Seq<Option<i32>>),
    Boolean(Seq<Option<bool>>),
    Other(Seq<bool>),
}

impl View for Cells {
    type V = CellSeq;

    open spec fn view(&self) -> CellSeq {
        match self {
            Cells::Float64(v) => CellSeq::Float64(v@),
            Cells::Float32(v) => CellSeq::Float32(v@),
            Cells::Int(bits, v) => CellSeq::Int(*bits, v@),
            Cells::UInt(bits, v) => CellSeq::UInt(*bits, v@),
            Cells::Utf8(v) => CellSeq::Utf8(optional_texts(v@)),
            Cells::LargeUtf8(v) => CellSeq::LargeUtf8(optional_texts(v@)),
            Cells::Timestamp(zoned, v) => CellSeq::Timestamp(*zoned, v@),
            Cells::Date32(v) => CellSeq::Date32(v@),
            Cells::Boolean(v) => CellSeq::Boolean(v@),
            Cells::Other(v) => CellSeq::Other(v@),
        }
    }
}

/// The columns of a record batch in order: each one's name and cells.
pub uninterp spec fn batch_columns(batch: Records) -> Seq<(Seq<char>, CellSeq)>;

/// The number of rows of a record batch.
pub uninterp spec fn batch_rows(batch: Records) -> nat;

/// `RecordBatch::num_rows`: the number of rows.
#[verifier::external_body]
fn row_count(batch: &Records) -> (r: usize)
    ensures
        r == batch_rows(*batch),
{
    batch.arrow.num_rows()
}

/// `RecordBatch::num_columns`: the number of columns.
#[verifier::external_body]
fn column_count(batch: &Records) -> (r: usize)
    ensures
        r == batch_columns(*batch).len(),
{
    batch.arrow.num_columns()
}

/// `Schema::field` and `Field::name` on the batch's schema: a column's name.
#[verifier::external_body]
fn column_name(batch: &Records, i: usize) -> (r: String)
    requires
        i < batch_columns(*batch).len(),
    ensures
        r@ == batch_columns(*batch)[i as int].0,
{
    batch.arrow.schema().field(i).name().clone()
}

/// `RecordBatch::column` read as a `Float64Array`: each value by its bit
/// pattern, in order, and `None` where the array's iterator says null.
#[verifier::external_body]
fn float64_cells(batch: &Records, i: usize) -> (r: Option<Vec<Option<Number>>>)
    requires
        i < batch_columns(*batch).len(),
    ensures
        r is Some <==> batch_columns(*batch)[i as int].1 is Float64,
        r matches Some(v) ==> batch_columns(*batch)[i as int].1 == CellSeq::Float64(v@),
{
    let array = batch.arrow.column(i).as_primitive_opt::<Float64Type>()?;
    Some(array.iter().map(|v| v.map(|x| Number::from_bits(x.to_bits()))).collect())
}

/// `RecordBatch::column` read as a `Float32Array`: each value by its bit
/// pattern, in order, and `None` where the array's iterator says null.
#[verifier::external_body]
fn float32_cells(batch: &Records, i: usize) -> (r: Option<Vec<Option<Single>>>)
    requires
        i < batch_columns(*batch).len(),
    ensures
        r is Some <==> batch_columns(*batch)[i as int].1 is Float32,
        r matches Some(v) ==> batch_columns(*batch)[i as int].1 == CellSeq::Float32(v@),
{
    let array = batch.arrow.column(i).as_primitive_opt::<Float32Type>()?;
    Some(array.iter().map(|v| v.map(|x| Single::from_bits(x.to_bits()))).collect())
}

/// `RecordBatch::column` read as an `Int8Array`: each value, in order, and
/// `None` where the array's iterator says null.
#[verifier::external_body]
fn int8_cells(batch: &Records, i: usize) -> (r: Option<Vec<Option<i64>>>)
    requires
        i < batch_columns(*batch).len(),
    ensures
        r is Some <==> batch_columns(*batch)[i as int].1 matches CellSeq::Int(Width::W8, _),
        r matches Some(v) ==> batch_columns(*batch)[i as int].1 == CellSeq::Int(Width::W8, v@),
{
    let array = batch.arrow.column(i).as_primitive_opt::<Int8Type>()?;
    Some(array.iter().map(|v| v.map(i64::from)).collect())
}

/// `RecordBatch::column` read as a `UInt8Array`: each value, in order, and
/// `None` where the array's iterator says null.
#[verifier::external_body]
fn uint8_cells(batch: &Records, i: usize) -> (r: Option<Vec<Option<u64>>>)
    requires
        i < batch_columns(*batch).len(),
    ensures
        r is Some <==> batch_columns(*batch)[i as int].1 matches CellSeq::UInt(Width::W8, _),
        r matches Some(v) ==> batch_columns(*batch)[i as int].1 == CellSeq::UInt(Width::W8, v@),
{
    let array = batch.arrow.column(i).as_primitive_opt::<UInt8Type>()?;
    Some(array.iter().map(|v| v.map(u64::from)).collect())
}

/// `RecordBatch::column` read as an `Int16Array`: each value, in order, and
/// `None` where the array's iterator says null.
#[verifier::external_body]
fn int16_cells(batch: &Records, i: usize) -> (r: Option<Vec<Option<i64>>>)
    requires
        i < batch_columns(*batch).len(),
    ensures
        r is Some <==> batch_columns(*batch)[i as int].1 matches CellSeq::Int(Width::W16, _),
        r matches Some(v) ==> batch_columns(*batch)[i as int].1 == CellSeq::Int(Width::W16, v@),
{
    let array = batch.arrow.column(i).as_primitive_opt::<Int16Type>()?;
    Some(array.iter().map(|v| v.map(i64::from)).collect())
}

/// `RecordBatch::column` read as a `UInt16Array`: each value, in order, and
/// `None` where the array's iterator says null.
#[verifier::external_body]
fn uint16_cells(batch: &Records, i: usize) -> (r: Option<Vec<Option<u64>>>)
    requires
        i < batch_columns(*batch).len(),
    ensures
        r is Some <==> batch_columns(*batch)[i as int].1 matches CellSeq::UInt(Width::W16, _),
        r matches Some(v) ==> batch_columns(*batch)[i as int].1 == CellSeq::UInt(Width::W16, v@),
{
    let array = batch.arrow.column(i).as_primitive_opt::<UInt16Type>()?;
    Some(array.iter().map(|v| v.map(u64::from)).collect())
}

/// `RecordBatch::column` read as an `Int32Array`: each value, in order, and
/// `None` where the array's iterator says null.
#[verifier::external_body]
fn int32_cells(batch: &Records, i: usize) -> (r: Option<Vec<Option<i64>>>)
    requires
        i < batch_columns(*batch).len(),
    ensures
        r is Some <==> batch_columns(*batch)[i as int].1 matches CellSeq::Int(Width::W32, _),
        r matches Some(v) ==> batch_columns(*batch)[i as int].1 == CellSeq::Int(Width::W32, v@),
{
    let array = batch.arrow.column(i).as_primitive_opt::<Int32Type>()?;
    Some(array.iter().map(|v| v.map(i64::from)).collect())
}

/// `RecordBatch::column` read as a `UInt32Array`: each value, in order, and
/// `None` where the array's iterator says null.
#[verifier::external_body]
fn uint32_cells(batch: &Records, i: usize) -> (r: Option<Vec<Option<u64>>>)
    requires
        i < batch_columns(*batch).len(),
    ensures
        r is Some <==> batch_columns(*batch)[i as int].1 matches CellSeq::UInt(Width::W32, _),
        r matches Some(v) ==> batch_columns(*batch)[i as int].1 == CellSeq::UInt(Width::W32, v@),
{
    let array = batch.arrow.column(i).as_primitive_opt::<UInt32Type>()?;
    Some(array.iter().map(|v| v.map(u64::from)).collect())
}

/// `RecordBatch::column` read as an `Int64Array`: each value, in order, and
/// `None` where the array's iterator says null.
#[verifier::external_body]
fn int64_cells(batch: &Records, i: usize) -> (r: Option<Vec<Option<i64>>>)
    requires
        i < batch_columns(*batch).len(),
    ensures
        r is Some <==> batch_columns(*batch)[i as int].1 matches CellSeq::Int(Width::W64, _),
        r matches Some(v) ==> batch_columns(*batch)[i as int].1 == CellSeq::Int(Width::W64, v@),
{
    let array = batch.arrow.column(i).as_primitive_opt::<Int64Type>()?;
    Some(array.iter().map(|v| v.map(i64::from)).collect())
}

/// `RecordBatch::column` read as a `UInt64Array`: each value, in order, and
/// `None` where the array's iterator says null.
#[verifier::external_body]
fn uint64_cells(batch: &Records, i: usize) -> (r: Option<Vec<Option<u64>>>)
    requires
        i < batch_columns(*batch).len(),
    ensures
        r is Some <==> batch_columns(*batch)[i as int].1 matches CellSeq::UInt(Width::W64, _),
        r matches Some(v) ==> batch_columns(*batch)[i as int].1 == CellSeq::UInt(Width::W64, v@),
{
    let array = batch.arrow.column(i).as_primitive_opt::<UInt64Type>()?;
    Some(array.iter().map(|v| v.map(u64::from)).collect())
}

/// `RecordBatch::column` read as a `StringArray`: each text, in order, and
/// `None` where the array's iterator says null.
#[verifier::external_body]
fn utf8_cells(batch: &Records, i: usize) -> (r: Option<Vec<Option<String>>>)
    requires
        i < batch_columns(*batch).len(),
    ensures
        r is Some <==> batch_columns(*batch)[i as int].1 is Utf8,
        r matches Some(v) ==> batch_columns(*batch)[i as int].1 == CellSeq::Utf8(
            optional_texts(v@),
        ),
{
    let array = batch.arrow.column(i).as_string_opt::<i32>()?;
    Some(array.iter().map(|v| v.map(String::from)).collect())
}

/// `RecordBatch::column` read as a `LargeStringArray`: each text, in order, and
/// `None` where the array's iterator says null.
#[verifier::external_body]
fn large_utf8_cells(batch: &Records, i: usize) -> (r: Option<Vec<Option<String>>>)
    requires
        i < batch_columns(*batch).len(),
    ensures
        r is Some <==> batch_columns(*batch)[i as int].1 is LargeUtf8,
        r matches Some(v) ==> batch_columns(*batch)[i as int].1 == CellSeq::LargeUtf8(
            optional_texts(v@),
        ),
{
    let array = batch.arrow.column(i).as_string_opt::<i64>()?;
    Some(array.iter().map(|v| v.map(String::from)).collect())
}

/// `RecordBatch::column` read as a `TimestampMicrosecondArray`: each value, in
/// order, `None` where the array's iterator says null; and whether the
/// column's `DataType` carries a time zone.
#[verifier::external_body]
fn timestamp_cells(batch: &Records, i: usize) -> (r: Option<(bool, Vec<Option<i64>>)>)
    requires
        i < batch_columns(*batch).len(),
    ensures
        r is Some <==> batch_columns(*batch)[i as int].1 is Timestamp,
        r matches Some(v) ==> batch_columns(*batch)[i as int].1 == CellSeq::Timestamp(v.0, v.1@),
{
    let array = batch.arrow.column(i).as_primitive_opt::<TimestampMicrosecondType>()?;
    let zoned = matches!(array.data_type(), DataType::Timestamp(_, Some(_)));
    Some((zoned, array.iter().collect()))
}

/// `RecordBatch::column` read as a `Date32Array`: each value, in order, and
/// `None` where the array's iterator says null.
#[verifier::external_body]
fn date32_cells(batch: &Records, i: usize) -> (r: Option<Vec<Option<i32>>>)
    requires
        i < batch_columns(*batch).len(),
    ensures
        r is Some <==> batch_columns(*batch)[i as int].1 is Date32,
        r matches Some(v) ==> batch_columns(*batch)[i as int].1 == CellSeq::Date32(v@),
{
    Some(batch.arrow.column(i).as_primitive_opt::<Date32Type>()?.iter().collect())
}

/// `RecordBatch::column` read as a `BooleanArray`: each value, in order, and
/// `None` where the array's iterator says null.
#[verifier::external_body]
fn boolean_cells(batch: &Records, i: usize) -> (r: Option<Vec<Option<bool>>>)
    requires
        i < batch_columns(*batch).len(),
    ensures
        r is Some <==> batch_columns(*batch)[i as int].1 is Boolean,
        r matches Some(v) ==> batch_columns(*batch)[i as int].1 == CellSeq::Boolean(v@),
{
    Some(batch.arrow.column(i).as_boolean_opt()?.iter().collect())
}

/// `Array::is_null` for each cell of a column, which is all that is read of a
/// column whose type is none of the others.
#[verifier::external_body]
fn null_cells(batch: &Records, i: usize) -> (r: Vec<bool>)
    requires
        i < batch_columns(*batch).len(),
    ensures
        batch_columns(*batch)[i as int].1 is Other ==> batch_columns(*batch)[i as int].1
            == CellSeq::Other(r@),
{
    let column = batch.arrow.column(i);
    (0..column.len()).map(|k| column.is_null(k)).collect()
}

/// The ISO text of a day, counted from the epoch, where the calendar reaches it.
pub uninterp spec fn iso_date(days: i32) -> Option<Seq<char>>;

/// `date32_to_datetime` and the date's own text, which is what a
/// `Date32Array` answers for the day: a function of the day alone.
#[verifier::external_body]
fn iso_date_text(days: i32) -> (r: Option<String>)
    ensures
        optional_text(r) == iso_date(days),
{
    arrow::temporal_conversions::date32_to_datetime(days).map(|t| t.date().to_string())
}

/// A column: its name and its cells.
#[derive(Debug)]
pub struct Column {
    pub name: String,
    pub cells: Cells,
}

impl View for Column {
    type V = (Seq<char>, CellSeq);

    open spec fn view(&self) -> (Seq<char>, CellSeq) {
        (self.name@, self.cells@)
    }
}

/// A table of data in plain values.
#[derive(Debug)]
pub struct Batch {
    pub columns: Vec<Column>,
    pub rows: usize,
}

fn read_cells(batch: &Records, i: usize) -> (r: Cells)
    requires
        i < batch_columns(*batch).len(),
    ensures
        r@ == batch_columns(*batch)[i as int].1,
{
    if let Some(v) = float64_cells(batch, i) {
        return Cells::Float64(v);
    }
    if let Some(v) = float32_cells(batch, i) {
        return Cells::Float32(v);
    }
    if let Some(v) = int8_cells(batch, i) {
        return Cells::Int(Width::W8, v);
    }
    if let Some(v) = uint8_cells(batch, i) {
        return Cells::UInt(Width::W8, v);
    }
    if let Some(v) = int16_cells(batch, i) {
        return Cells::Int(Width::W16, v);
    }
    if let Some(v) = uint16_cells(batch, i) {
        return Cells::UInt(Width::W16, v);
    }
    if let Some(v) = int32_cells(batch, i) {
        return Cells::Int(Width::W32, v);
    }
    if let Some(v) = uint32_cells(batch, i) {
        return Cells::UInt(Width::W32, v);
    }
    if let Some(v) = int64_cells(batch, i) {
        return Cells::Int(Width::W64, v);
    }
    if let Some(v) = uint64_cells(batch, i) {
        return Cells::UInt(Width::W64, v);
    }
    if let Some(v) = utf8_cells(batch, i) {
        return Cells::Utf8(v);
    }
    if let Some(v) = large_utf8_cells(batch, i) {
        return Cells::LargeUtf8(v);
    }
    if let Some(v) = timestamp_cells(batch, i) {
        return Cells::Timestamp(v.0, v.1);
    }
    if let Some(v) = date32_cells(batch, i) {
        return Cells::Date32(v);
    }
    if let Some(v) = boolean_cells(batch, i) {
        return Cells::Boolean(v);
    }
    Cells::Other(null_cells(batch, i))
}

/// The cells of the first column of that name, if there is one.
pub open spec fn lookup(columns: Seq<(Seq<char>, CellSeq)>, name: Seq<char>) -> Option<CellSeq>
    decreases columns.len(),
{
    if columns.len() == 0 {
        None
    } else if columns[0].0 == name {
        Some(columns[0].1)
    } else {
        lookup(columns.drop_first(), name)
    }
}

/// The cells of a column as numbers, where its type has them.
pub open spec fn numeric(cells: CellSeq) -> Option<Seq<Option<Number>>> {
    match cells {
        CellSeq::Float64(v) => Some(v),
        CellSeq::Float32(v) => Some(
            v.map_values(
                |o: Option<Single>|
                    match o {
                        Some(x) => Some(x.widened()),
                        None => None,
                    },
            ),
        ),
        CellSeq::Int(_, v) => Some(v.map_values(|o: Option<i64>| integer_number(o))),
        CellSeq::UInt(_, v) => Some(
            v.map_values(
                |o: Option<u64>|
                    match o {
                        Some(x) => Some(Number::spec_from_int(x as int)),
                        None => None,
                    },
            ),
        ),
        CellSeq::Timestamp(_, v) => Some(v.map_values(|o: Option<i64>| integer_number(o))),
        _ => None,
    }
}

/// An integer that may be missing, as a number.
pub open spec fn integer_number(o: Option<i64>) -> Option<Number> {
    match o {
        Some(x) => Some(Number::spec_from_int(x as int)),
        None => None,
    }
}

/// The cells of a column as texts, where its type has them.
pub open spec fn textual(cells: CellSeq) -> Option<Seq<Option<Seq<char>>>> {
    match cells {
        CellSeq::Utf8(v) => Some(v),
        CellSeq::Date32(v) => Some(
            v.map_values(
                |o: Option<i32>|
                    match o {
                        Some(d) => iso_date(d),
                        None => None,
                    },
            ),
        ),
        _ => None,
    }
}

/// Whether a cell is there and missing its value.
pub open spec fn cell_is_missing(cells: CellSeq, row: int) -> bool {
    match cells {
        CellSeq::Float64(v) => 0 <= row < v.len() && v[row] is None,
        CellSeq::Float32(v) => 0 <= row < v.len() && v[row] is None,
        CellSeq::Int(_, v) => 0 <= row < v.len() && v[row] is None,
        CellSeq::UInt(_, v) => 0 <= row < v.len() && v[row] is None,
        CellSeq::Utf8(v) => 0 <= row < v.len() && v[row] is None,
        CellSeq::LargeUtf8(v) => 0 <= row < v.len() && v[row] is None,
        CellSeq::Timestamp(_, v) => 0 <= row < v.len() && v[row] is None,
        CellSeq::Date32(v) => 0 <= row < v.len() && v[row] is None,
        CellSeq::Boolean(v) => 0 <= row < v.len() && v[row] is None,
        CellSeq::Other(v) => 0 <= row < v.len() && v[row],
    }
}

/// A row's value, where the row is there and has one.
pub open spec fn value_at<T>(v: Seq<Option<T>>, row: int) -> Option<T> {
    if 0 <= row < v.len() {
        v[row]
    } else {
        None
    }
}

/// A row's value in a column that may be missing.
pub open spec fn cell_of<T>(v: Option<Seq<Option<T>>>, row: int) -> Option<T> {
    match v {
        Some(s) => value_at(s, row),
        None => None,
    }
}

fn integers_as_numbers(v: &Vec<Option<i64>>) -> (r: Vec<Option<Number>>)
    ensures
        r@ == v@.map_values(|o: Option<i64>| integer_number(o)),
{
    let mut out: Vec<Option<Number>> = Vec::new();
    let mut i: usize = 0;
    while i < v.len()
        invariant
            i <= v.len(),
            out@ == v@.take(i as int).map_values(|o: Option<i64>| integer_number(o)),
        decreases v.len() - i,
    {
        out.push(
            match v[i] {
                Some(x) => Some(Number::from_i64(x)),
                None => None,
            },
        );
        i = i + 1;
        assert(out@ =~= v@.take(i as int).map_values(|o: Option<i64>| integer_number(o)));
    }
    assert(v@.take(i as int) =~= v@);
    out
}

/// Copies a column of texts.
fn copied_texts(v: &Vec<Option<String>>) -> (r: Vec<Option<String>>)
    ensures
        optional_texts(r@) == optional_texts(v@),
{
    let mut out: Vec<Option<String>> = Vec::new();
    let mut i: usize = 0;
    while i < v.len()
        invariant
            i <= v.len(),
            out.len() == i,
            forall|j: int|
                0 <= j < i ==> optional_text(#[trigger] out@[j]) == optional_text(v@[j]),
        decreases v.len() - i,
    {
        let copy = match &v[i] {
            Some(s) => Some(s.clone()),
            None => None,
        };
        out.push(copy);
        i = i + 1;
    }
    assert(optional_texts(out@) =~= optional_texts(v@));
    out
}

/// A column's cells as numbers, whatever numeric type they are stored in.
pub(crate) fn cell_numbers(cells: &Cells) -> (r: Option<Vec<Option<Number>>>)
    ensures
        r is Some <==> numeric(cells@) is Some,
        r matches Some(v) ==> numeric(cells@) == Some(v@),
{
    match cells {
        Cells::Float64(v) => {
            let copy = v.clone();
            assert(copy@ =~= v@);
            Some(copy)
        },
        Cells::Float32(v) => {
            let mut out: Vec<Option<Number>> = Vec::new();
            let mut i: usize = 0;
            while i < v.len()
                invariant
                    i <= v.len(),
                    Some(out@) == numeric(CellSeq::Float32(v@.take(i as int))),
                decreases v.len() - i,
            {
                out.push(
                    match v[i] {
                        Some(x) => Some(x.widened()),
                        None => None,
                    },
                );
                i = i + 1;
                assert(out@ =~= numeric(CellSeq::Float32(v@.take(i as int)))->0);
            }
            assert(v@.take(i as int) =~= v@);
            Some(out)
        },
        Cells::Int(_, v) => Some(integers_as_numbers(v)),
        Cells::UInt(w, v) => {
            let mut out: Vec<Option<Number>> = Vec::new();
            let mut i: usize = 0;
            while i < v.len()
                invariant
                    i <= v.len(),
                    Some(out@) == numeric(CellSeq::UInt(*w, v@.take(i as int))),
                decreases v.len() - i,
            {
                out.push(
                    match v[i] {
                        Some(x) => Some(Number::from_u64(x)),
                        None => None,
                    },
                );
                i = i + 1;
                assert(out@ =~= numeric(CellSeq::UInt(*w, v@.take(i as int)))->0);
            }
            assert(v@.take(i as int) =~= v@);
            Some(out)
        },
        Cells::Timestamp(_, v) => Some(integers_as_numbers(v)),
        _ => None,
    }
}

/// A column's cells as texts. A date reads as its ISO text.
pub(crate) fn cell_texts(cells: &Cells) -> (r: Option<Vec<Option<String>>>)
    ensures
        r is Some <==> textual(cells@) is Some,
        r matches Some(v) ==> textual(cells@) == Some(optional_texts(v@)),
{
    match cells {
        Cells::Utf8(v) => Some(copied_texts(v)),
        Cells::Date32(v) => {
            let mut out: Vec<Option<String>> = Vec::new();
            let mut i: usize = 0;
            while i < v.len()
                invariant
                    i <= v.len(),
                    out.len() == i,
                    forall|j: int|
                        0 <= j < i ==> optional_text(#[trigger] out@[j]) == match v@[j] {
                            Some(d) => iso_date(d),
                            None => None,
                        },
                decreases v.len() - i,
            {
                out.push(
                    match v[i] {
                        Some(d) => iso_date_text(d),
                        None => None,
                    },
                );
                i = i + 1;
            }
            assert(optional_texts(out@) =~= textual(CellSeq::Date32(v@))->0);
            Some(out)
        },
        _ => None,
    }
}

impl Batch {
    /// The table's columns: each one's name and cells.
    pub open spec fn table(self) -> Seq<(Seq<char>, CellSeq)> {
        self.columns@.map_values(|c: Column| c@)
    }

    /// The cells of the first column of that name, if there is one.
    pub open spec fn cells(self, name: Seq<char>) -> Option<CellSeq> {
        lookup(self.table(), name)
    }

    /// A column's cells as numbers, where there is such a column and its type
    /// has them.
    pub open spec fn numbers(self, name: Seq<char>) -> Option<Seq<Option<Number>>> {
        match self.cells(name) {
            Some(c) => numeric(c),
            None => None,
        }
    }

    /// A column's cells as texts, where there is such a column and its type
    /// has them.
    pub open spec fn texts(self, name: Seq<char>) -> Option<Seq<Option<Seq<char>>>> {
        match self.cells(name) {
            Some(c) => textual(c),
            None => None,
        }
    }

    /// Reads an Arrow record batch.
    pub fn read(batch: &Records) -> (r: Batch)
        ensures
            r.table() == batch_columns(*batch),
            r.rows == batch_rows(*batch),
    {
        let n = column_count(batch);
        let mut columns: Vec<Column> = Vec::new();
        let mut i: usize = 0;
        while i < n
            invariant
                i <= n,
                n == batch_columns(*batch).len(),
                columns.len() == i,
                forall|j: int| 0 <= j < i ==> (#[trigger] columns@[j])@ == batch_columns(*batch)[j],
            decreases n - i,
        {
            columns.push(Column { name: column_name(batch, i), cells: read_cells(batch, i) });
            i = i + 1;
        }
        assert(columns@.map_values(|c: Column| c@) =~= batch_columns(*batch));
        Batch { columns, rows: row_count(batch) }
    }

    /// The cells of the first column of that name.
    pub fn column(&self, name: &str) -> (r: Option<&Cells>)
        ensures
            r is Some <==> self.cells(name@) is Some,
            r matches Some(c) ==> self.cells(name@) == Some(c@),
    {
        let mut i: usize = 0;
        assert(self.table().skip(0) =~= self.table());
        while i < self.columns.len()
            invariant
                i <= self.columns.len(),
                lookup(self.table(), name@) == lookup(self.table().skip(i as int), name@),
            decreases self.columns.len() - i,
        {
            assert(self.table().skip(i as int)[0] == self.columns@[i as int]@);
            if same_text(self.columns[i].name.as_str(), name) {
                return Some(&self.columns[i].cells);
            }
            assert(self.table().skip(i as int).drop_first() =~= self.table().skip(i + 1));
            i = i + 1;
        }
        None
    }

    /// A column's cells as numbers, whatever numeric type they are stored in.
    pub fn column_as_f64(&self, name: &str) -> (r: Option<Vec<Option<Number>>>)
        ensures
            r is Some <==> self.numbers(name@) is Some,
            r matches Some(v) ==> self.numbers(name@) == Some(v@),
    {
        match self.column(name) {
            Some(cells) => cell_numbers(cells),
            None => None,
        }
    }

    /// A column's cells as the texts a band scale, a colour scale or a text
    /// mark reads them by. A date reads as its ISO text.
    pub fn column_as_string(&self, name: &str) -> (r: Option<Vec<Option<String>>>)
        ensures
            r is Some <==> self.texts(name@) is Some,
            r matches Some(v) ==> self.texts(name@) == Some(optional_texts(v@)),
    {
        match self.column(name) {
            Some(cells) => cell_texts(cells),
            None => None,
        }
    }

    /// Whether a column is there and misses its value in a row.
    pub fn is_missing(&self, name: &str, row: usize) -> (r: bool)
        ensures
            r == match self.cells(name@) {
                Some(c) => cell_is_missing(c, row as int),
                None => false,
            },
    {
        match self.column(name) {
            None => false,
            Some(Cells::Float64(v)) => row < v.len() && v[row].is_none(),
            Some(Cells::Float32(v)) => row < v.len() && v[row].is_none(),
            Some(Cells::Int(_, v)) => row < v.len() && v[row].is_none(),
            Some(Cells::UInt(_, v)) => row < v.len() && v[row].is_none(),
            Some(Cells::Utf8(v)) => row < v.len() && v[row].is_none(),
            Some(Cells::LargeUtf8(v)) => row < v.len() && v[row].is_none(),
            Some(Cells::Timestamp(_, v)) => row < v.len() && v[row].is_none(),
            Some(Cells::Date32(v)) => row < v.len() && v[row].is_none(),
            Some(Cells::Boolean(v)) => row < v.len() && v[row].is_none(),
            Some(Cells::Other(v)) => row < v.len() && v[row],
        }
    }

    /// One cell of a column as a text.
    pub fn text_at(&self, name: &str, row: usize) -> (r: Option<String>)
        ensures
            optional_text(r) == cell_of(self.texts(name@), row as int),
    {
        match self.column(name) {
            Some(Cells::Utf8(v)) => {
                if row < v.len() {
                    match &v[row] {
                        Some(s) => Some(s.clone()),
                        None => None,
                    }
                } else {
                    None
                }
            },
            Some(Cells::Date32(v)) => {
                if row < v.len() {
                    match v[row] {
                        Some(d) => iso_date_text(d),
                        None => None,
                    }
                } else {
                    None
                }
            },
            _ => None,
        }
    }
}

/// A row's number, where the row is there and has one.
pub fn number_at(v: &Vec<Option<Number>>, row: usize) -> (r: Option<Number>)
    ensures
        r == value_at(v@, row as int),
{
    if row < v.len() {
        v[row]
    } else {
        None
    }
}

/// A row's number in a column that may not be there.
pub fn number_of(v: &Option<Vec<Option<Number>>>, row: usize) -> (r: Option<Number>)
    ensures
        r == match v {
            Some(s) => value_at(s@, row as int),
            None => None,
        },
{
    match v {
        Some(s) => number_at(s, row),
        None => None,
    }
}

} // verus!
