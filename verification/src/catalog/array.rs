//! Arrays of cells: the data of one column, as the indexes read it.
use vstd::prelude::*;

use crate::float::{FloatBits, FloatScalar};
use crate::numeral::{bool_text, bool_to_string, decimal, integer_to_string};

verus! {

/// The cells of one column in one batch of rows. A cell without a value is
/// null.
#[derive(Debug)]
pub enum Array {
    Utf8(Vec<Option<String>>),
    LargeUtf8(Vec<Option<String>>),
    Utf8View(Vec<Option<String>>),
    Boolean(Vec<Option<bool>>),
    Int8(Vec<Option<i8>>),
    Int16(Vec<Option<i16>>),
    Int32(Vec<Option<i32>>),
    Int64(Vec<Option<i64>>),
    UInt8(Vec<Option<u8>>),
    UInt16(Vec<Option<u16>>),
    UInt32(Vec<Option<u32>>),
    UInt64(Vec<Option<u64>>),
    /// Each number by the text it is written as and the double that the text
    /// reads as. The latter need not be the number: a text that a single is
    /// written as can read as another double.
    Float32(Vec<Option<FloatScalar>>),
    /// Each number with the text it is written as.
    Float64(Vec<Option<FloatScalar>>),
    /// Cells of a type that no index reads: whether each has a value.
    Other(Vec<bool>),
}

/// An array under the name of its column.
#[derive(Debug)]
pub struct NamedArray {
    pub name: String,
    pub array: Array,
}

/// A batch of rows, by columns.
#[derive(Debug)]
pub struct RecordBatch {
    pub columns: Vec<NamedArray>,
}

/// A cell as an index reads it.
pub enum Cell {
    Null,
    /// There is a value, of a type that the index does not read.
    Unreadable,
    /// A value by its text, and the double that the text reads as where the
    /// cell is of a type of numbers with a fraction.
    Value(Seq<char>, Option<FloatBits>),
}

/// The cell of an optional text.
pub open spec fn text_cell(text: Option<Seq<char>>) -> Cell {
    match text {
        Some(t) => Cell::Value(t, None),
        None => Cell::Null,
    }
}

/// The text behind an optional string.
pub open spec fn owned_text(s: Option<String>) -> Option<Seq<char>> {
    match s {
        Some(s) => Some(s@),
        None => None,
    }
}

/// The text under which an optional truth value is indexed.
pub open spec fn bool_key(b: Option<bool>) -> Option<Seq<char>> {
    match b {
        Some(b) => Some(bool_text(b)),
        None => None,
    }
}

/// The cell of an optional number with a fraction.
pub open spec fn float_cell(f: Option<FloatScalar>) -> Cell {
    match f {
        Some(f) => Cell::Value(f.text@, Some(f.value)),
        None => Cell::Null,
    }
}

impl Array {
    /// The number of cells.
    pub open spec fn spec_len(self) -> nat {
        match self {
            Array::Utf8(v) => v@.len(),
            Array::LargeUtf8(v) => v@.len(),
            Array::Utf8View(v) => v@.len(),
            Array::Boolean(v) => v@.len(),
            Array::Int8(v) => v@.len(),
            Array::Int16(v) => v@.len(),
            Array::Int32(v) => v@.len(),
            Array::Int64(v) => v@.len(),
            Array::UInt8(v) => v@.len(),
            Array::UInt16(v) => v@.len(),
            Array::UInt32(v) => v@.len(),
            Array::UInt64(v) => v@.len(),
            Array::Float32(v) => v@.len(),
            Array::Float64(v) => v@.len(),
            Array::Other(v) => v@.len(),
        }
    }

    /// The cell at a place, as an index of exact values reads it.
    pub open spec fn cell(self, i: int) -> Cell {
        match self {
            Array::Utf8(v) => text_cell(owned_text(v@[i])),
            Array::LargeUtf8(v) => text_cell(owned_text(v@[i])),
            Array::Utf8View(v) => text_cell(owned_text(v@[i])),
            Array::Boolean(v) => text_cell(bool_key(v@[i])),
            Array::Int8(v) => match v@[i] {
                Some(n) => Cell::Value(decimal(n as int), None),
                None => Cell::Null,
            },
            Array::Int16(v) => match v@[i] {
                Some(n) => Cell::Value(decimal(n as int), None),
                None => Cell::Null,
            },
            Array::Int32(v) => match v@[i] {
                Some(n) => Cell::Value(decimal(n as int), None),
                None => Cell::Null,
            },
            Array::Int64(v) => match v@[i] {
                Some(n) => Cell::Value(decimal(n as int), None),
                None => Cell::Null,
            },
            Array::UInt8(v) => match v@[i] {
                Some(n) => Cell::Value(decimal(n as int), None),
                None => Cell::Null,
            },
            Array::UInt16(v) => match v@[i] {
                Some(n) => Cell::Value(decimal(n as int), None),
                None => Cell::Null,
            },
            Array::UInt32(v) => match v@[i] {
                Some(n) => Cell::Value(decimal(n as int), None),
                None => Cell::Null,
            },
            Array::UInt64(v) => match v@[i] {
                Some(n) => Cell::Value(decimal(n as int), None),
                None => Cell::Null,
            },
            Array::Float32(v) => float_cell(v@[i]),
            Array::Float64(v) => float_cell(v@[i]),
            Array::Other(v) => if v@[i] {
                Cell::Unreadable
            } else {
                Cell::Null
            },
        }
    }

    /// Whether the cells hold text.
    pub open spec fn holds_text(self) -> bool {
        self is Utf8 || self is LargeUtf8 || self is Utf8View
    }

    /// The cell at a place, as a text index reads it.
    pub open spec fn text_only_cell(self, i: int) -> Cell {
        if self.holds_text() || self.cell(i) is Null {
            self.cell(i)
        } else {
            Cell::Unreadable
        }
    }

    /// The cells, as an index of exact values reads them.
    pub open spec fn cells(self) -> Seq<Cell> {
        Seq::new(self.spec_len(), |i: int| self.cell(i))
    }

    /// The cells, as a text index reads them.
    pub open spec fn text_only_cells(self) -> Seq<Cell> {
        Seq::new(self.spec_len(), |i: int| self.text_only_cell(i))
    }

    /// The number of cells.
    pub fn len(&self) -> (r: usize)
        ensures
            r == self.spec_len(),
    {
        match self {
            Array::Utf8(v) => v.len(),
            Array::LargeUtf8(v) => v.len(),
            Array::Utf8View(v) => v.len(),
            Array::Boolean(v) => v.len(),
            Array::Int8(v) => v.len(),
            Array::Int16(v) => v.len(),
            Array::Int32(v) => v.len(),
            Array::Int64(v) => v.len(),
            Array::UInt8(v) => v.len(),
            Array::UInt16(v) => v.len(),
            Array::UInt32(v) => v.len(),
            Array::UInt64(v) => v.len(),
            Array::Float32(v) => v.len(),
            Array::Float64(v) => v.len(),
            Array::Other(v) => v.len(),
        }
    }

    /// Whether the cell at a place has no value.
    pub fn is_null(&self, idx: usize) -> (r: bool)
        requires
            idx < self.spec_len(),
        ensures
            r == (self.cell(idx as int) is Null),
    {
        match self {
            Array::Utf8(v) => v[idx].is_none(),
            Array::LargeUtf8(v) => v[idx].is_none(),
            Array::Utf8View(v) => v[idx].is_none(),
            Array::Boolean(v) => v[idx].is_none(),
            Array::Int8(v) => v[idx].is_none(),
            Array::Int16(v) => v[idx].is_none(),
            Array::Int32(v) => v[idx].is_none(),
            Array::Int64(v) => v[idx].is_none(),
            Array::UInt8(v) => v[idx].is_none(),
            Array::UInt16(v) => v[idx].is_none(),
            Array::UInt32(v) => v[idx].is_none(),
            Array::UInt64(v) => v[idx].is_none(),
            Array::Float32(v) => v[idx].is_none(),
            Array::Float64(v) => v[idx].is_none(),
            Array::Other(v) => !v[idx],
        }
    }
}

/// The text under which an index of exact values keeps the value of a cell;
/// none where the cell is null or its type is not indexed.
pub open spec fn cell_text(cell: Cell) -> Option<Seq<char>> {
    match cell {
        Cell::Value(t, _) => Some(t),
        _ => None,
    }
}

/// The double that the text of a cell reads as, where that is known.
pub open spec fn cell_reading(cell: Cell) -> Option<FloatBits> {
    match cell {
        Cell::Value(_, reading) => reading,
        _ => None,
    }
}

/// The double that the text of a cell reads as, where that is known.
pub fn float_reading_from_array(array: &Array, idx: usize) -> (r: Option<FloatBits>)
    requires
        idx < array.spec_len(),
    ensures
        r == cell_reading(array.cell(idx as int)),
{
    match array {
        Array::Float32(v) => match &v[idx] {
            Some(f) => Some(f.value),
            None => None,
        },
        Array::Float64(v) => match &v[idx] {
            Some(f) => Some(f.value),
            None => None,
        },
        _ => None,
    }
}

/// The text under which an index of exact values keeps the value of a cell;
/// none where the cell is null or its type is not indexed.
pub fn exact_value_from_array(array: &Array, idx: usize) -> (r: Option<String>)
    requires
        idx < array.spec_len(),
    ensures
        owned_text(r) == cell_text(array.cell(idx as int)),
{
    match array {
        Array::Utf8(v) => v[idx].clone(),
        Array::LargeUtf8(v) => v[idx].clone(),
        Array::Utf8View(v) => v[idx].clone(),
        Array::Boolean(v) => match v[idx] {
            Some(b) => Some(bool_to_string(b)),
            None => None,
        },
        Array::Int8(v) => match v[idx] {
            Some(n) => Some(integer_to_string(n as i128)),
            None => None,
        },
        Array::Int16(v) => match v[idx] {
            Some(n) => Some(integer_to_string(n as i128)),
            None => None,
        },
        Array::Int32(v) => match v[idx] {
            Some(n) => Some(integer_to_string(n as i128)),
            None => None,
        },
        Array::Int64(v) => match v[idx] {
            Some(n) => Some(integer_to_string(n as i128)),
            None => None,
        },
        Array::UInt8(v) => match v[idx] {
            Some(n) => Some(integer_to_string(n as i128)),
            None => None,
        },
        Array::UInt16(v) => match v[idx] {
            Some(n) => Some(integer_to_string(n as i128)),
            None => None,
        },
        Array::UInt32(v) => match v[idx] {
            Some(n) => Some(integer_to_string(n as i128)),
            None => None,
        },
        Array::UInt64(v) => match v[idx] {
            Some(n) => Some(integer_to_string(n as i128)),
            None => None,
        },
        Array::Float32(v) => match &v[idx] {
            Some(f) => Some(f.text.clone()),
            None => None,
        },
        Array::Float64(v) => match &v[idx] {
            Some(f) => Some(f.text.clone()),
            None => None,
        },
        Array::Other(_) => None,
    }
}

/// The text of a cell; none where the cell is null or holds no text.
pub fn string_value_from_array(array: &Array, idx: usize) -> (r: Option<String>)
    requires
        idx < array.spec_len(),
    ensures
        owned_text(r) == cell_text(array.text_only_cell(idx as int)),
{
    match array {
        Array::Utf8(v) => v[idx].clone(),
        Array::LargeUtf8(v) => v[idx].clone(),
        Array::Utf8View(v) => v[idx].clone(),
        _ => None,
    }
}

// ---------------------------------------------------------------------------
// How cells are written
// ---------------------------------------------------------------------------

/// An integer of any width is written in decimal, and is no text.
pub proof fn integers_are_written_in_decimal(array: Array, i: int, n: int)
    requires
        0 <= i,
        match array {
            Array::Int8(v) => i < v@.len() && (v@[i] matches Some(x) && n == x),
            Array::Int16(v) => i < v@.len() && (v@[i] matches Some(x) && n == x),
            Array::Int32(v) => i < v@.len() && (v@[i] matches Some(x) && n == x),
            Array::Int64(v) => i < v@.len() && (v@[i] matches Some(x) && n == x),
            Array::UInt8(v) => i < v@.len() && (v@[i] matches Some(x) && n == x),
            Array::UInt16(v) => i < v@.len() && (v@[i] matches Some(x) && n == x),
            Array::UInt32(v) => i < v@.len() && (v@[i] matches Some(x) && n == x),
            Array::UInt64(v) => i < v@.len() && (v@[i] matches Some(x) && n == x),
            _ => false,
        },
    ensures
        i < array.spec_len(),
        array.cell(i) == Cell::Value(decimal(n), None),
        array.text_only_cell(i) is Unreadable,
{
}

/// A text is written as it is.
pub proof fn texts_are_written_as_they_are(array: Array, i: int, s: Seq<char>)
    requires
        0 <= i,
        match array {
            Array::Utf8(v) => i < v@.len() && (v@[i] matches Some(x) && s == x@),
            Array::LargeUtf8(v) => i < v@.len() && (v@[i] matches Some(x) && s == x@),
            Array::Utf8View(v) => i < v@.len() && (v@[i] matches Some(x) && s == x@),
            _ => false,
        },
    ensures
        i < array.spec_len(),
        array.cell(i) == Cell::Value(s, None),
        array.text_only_cell(i) == Cell::Value(s, None),
{
}

/// A truth value is written as its word, and is no text; a double is written as
/// its own text and reads as itself, and is no text.
pub proof fn other_values_are_written_in_words(array: Array, i: int)
    requires
        0 <= i,
    ensures
        array matches Array::Boolean(v) ==> i < v@.len() ==> (v@[i] matches Some(b) ==> array.cell(i)
            == Cell::Value(
            if b {
                "true"@
            } else {
                "false"@
            },
            None,
        ) && array.text_only_cell(i) is Unreadable),
        array matches Array::Float32(v) ==> i < v@.len() ==> (v@[i] matches Some(f) ==> array.cell(i)
            == Cell::Value(f.text@, Some(f.value)) && array.text_only_cell(i) is Unreadable),
        array matches Array::Float64(v) ==> i < v@.len() ==> (v@[i] matches Some(f) ==> array.cell(i)
            == Cell::Value(f.text@, Some(f.value)) && array.text_only_cell(i) is Unreadable),
        array matches Array::Other(v) ==> i < v@.len() ==> if v@[i] {
            array.cell(i) is Unreadable && array.text_only_cell(i) is Unreadable
        } else {
            array.cell(i) is Null && array.text_only_cell(i) is Null
        },
{
}

/// A cell without a value is null, whatever the array holds.
pub proof fn cells_without_a_value_are_null(array: Array, i: int)
    requires
        0 <= i,
        match array {
            Array::Utf8(v) => i < v@.len() && v@[i] is None,
            Array::LargeUtf8(v) => i < v@.len() && v@[i] is None,
            Array::Utf8View(v) => i < v@.len() && v@[i] is None,
            Array::Boolean(v) => i < v@.len() && v@[i] is None,
            Array::Int8(v) => i < v@.len() && v@[i] is None,
            Array::Int16(v) => i < v@.len() && v@[i] is None,
            Array::Int32(v) => i < v@.len() && v@[i] is None,
            Array::Int64(v) => i < v@.len() && v@[i] is None,
            Array::UInt8(v) => i < v@.len() && v@[i] is None,
            Array::UInt16(v) => i < v@.len() && v@[i] is None,
            Array::UInt32(v) => i < v@.len() && v@[i] is None,
            Array::UInt64(v) => i < v@.len() && v@[i] is None,
            Array::Float32(v) => i < v@.len() && v@[i] is None,
            Array::Float64(v) => i < v@.len() && v@[i] is None,
            Array::Other(v) => i < v@.len() && !v@[i],
        },
    ensures
        i < array.spec_len(),
        array.cell(i) is Null,
        array.text_only_cell(i) is Null,
{
}

} // verus!
