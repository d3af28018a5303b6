//! Literal values as the catalog compares them.
use vstd::prelude::*;

use crate::expr::{Expr, Operator, ScalarValue};
use crate::float::{FloatBits, FloatScalar};
use crate::numeral::{bool_text, bool_to_string, decimal, integer_to_string};
use crate::text::{str_before, str_same, text_before};

verus! {

/// A value, as its kind goes.
pub enum Value {
    Bool(bool),
    Int(int),
    /// A number and the text it is written as.
    Float(FloatBits, Seq<char>),
    Text(Seq<char>),
}

impl Value {
    /// The text under which an exact-value index keeps the value.
    pub open spec fn key(self) -> Seq<char> {
        match self {
            Value::Bool(b) => bool_text(b),
            Value::Int(n) => decimal(n),
            Value::Float(_, text) => text,
            Value::Text(text) => text,
        }
    }
}

/// A literal value that the catalog can compare.
#[derive(Clone, Copy, Debug)]
pub enum CastRes<'a> {
    Bool(bool),
    Int(i64),
    Float(&'a FloatScalar),
    String(&'a str),
}

impl<'a> View for CastRes<'a> {
    type V = Value;

    open spec fn view(&self) -> Value {
        match self {
            CastRes::Bool(b) => Value::Bool(*b),
            CastRes::Int(n) => Value::Int(*n as int),
            CastRes::Float(f) => Value::Float(f.value, f.text@),
            CastRes::String(s) => Value::Text(s@),
        }
    }
}

impl<'a> CastRes<'a> {
    /// The text under which an exact-value index keeps the value.
    pub fn exact_index_key(self) -> (r: String)
        ensures
            r@ == self@.key(),
    {
        match self {
            CastRes::Bool(value) => bool_to_string(value),
            CastRes::Int(value) => integer_to_string(value as i128),
            CastRes::Float(value) => value.text.clone(),
            CastRes::String(value) => value.to_string(),
        }
    }
}

/// An unsigned 64-bit number taken as a signed one: from the middle of the
/// range on it counts down from zero.
pub open spec fn wrapped_to_signed(n: u64) -> int {
    if n <= i64::MAX {
        n as int
    } else {
        n - 0x1_0000_0000_0000_0000
    }
}

/// The value of a literal, where it is of a kind that the catalog can compare.
/// Dates and timestamps in milliseconds count as integers.
pub open spec fn scalar_value(scalar: ScalarValue) -> Option<Value> {
    match scalar {
        ScalarValue::Boolean(Some(b)) => Some(Value::Bool(b)),
        ScalarValue::Float32(Some(f)) => Some(Value::Float(f.value, f.text@)),
        ScalarValue::Float64(Some(f)) => Some(Value::Float(f.value, f.text@)),
        ScalarValue::Int8(Some(n)) => Some(Value::Int(n as int)),
        ScalarValue::Int16(Some(n)) => Some(Value::Int(n as int)),
        ScalarValue::Int32(Some(n)) => Some(Value::Int(n as int)),
        ScalarValue::Int64(Some(n)) => Some(Value::Int(n as int)),
        ScalarValue::UInt8(Some(n)) => Some(Value::Int(n as int)),
        ScalarValue::UInt16(Some(n)) => Some(Value::Int(n as int)),
        ScalarValue::UInt32(Some(n)) => Some(Value::Int(n as int)),
        ScalarValue::UInt64(Some(n)) => Some(Value::Int(wrapped_to_signed(n))),
        ScalarValue::Utf8(Some(s)) => Some(Value::Text(s@)),
        ScalarValue::Date32(Some(n)) => Some(Value::Int(n as int)),
        ScalarValue::TimestampMillisecond(Some(n), _) => Some(Value::Int(n as int)),
        _ => None,
    }
}

/// The value behind an optional comparable literal.
pub open spec fn value_of(value: Option<CastRes>) -> Option<Value> {
    match value {
        Some(v) => Some(v@),
        None => None,
    }
}

/// The value of a literal, where it is of a kind that the catalog can compare.
pub fn cast_or_none(scalar: &ScalarValue) -> (r: Option<CastRes<'_>>)
    ensures
        value_of(r) == scalar_value(*scalar),
{
    match scalar {
        ScalarValue::Boolean(Some(val)) => Some(CastRes::Bool(*val)),
        ScalarValue::Float32(Some(val)) => Some(CastRes::Float(val)),
        ScalarValue::Float64(Some(val)) => Some(CastRes::Float(val)),
        ScalarValue::Int8(Some(val)) => Some(CastRes::Int(*val as i64)),
        ScalarValue::Int16(Some(val)) => Some(CastRes::Int(*val as i64)),
        ScalarValue::Int32(Some(val)) => Some(CastRes::Int(*val as i64)),
        ScalarValue::Int64(Some(val)) => Some(CastRes::Int(*val)),
        ScalarValue::UInt8(Some(val)) => Some(CastRes::Int(*val as i64)),
        ScalarValue::UInt16(Some(val)) => Some(CastRes::Int(*val as i64)),
        ScalarValue::UInt32(Some(val)) => Some(CastRes::Int(*val as i64)),
        ScalarValue::UInt64(Some(val)) => {
            let n: u64 = *val;
            proof {
                assert(n > 0x7fff_ffff_ffff_ffff ==> (n as i64) == n - 0x1_0000_0000_0000_0000) by (bit_vector);
            }
            Some(CastRes::Int(n as i64))
        },
        ScalarValue::Utf8(Some(val)) => Some(CastRes::String(val.as_str())),
        ScalarValue::Date32(Some(val)) => Some(CastRes::Int(*val as i64)),
        ScalarValue::TimestampMillisecond(Some(val), _) => Some(CastRes::Int(*val)),
        _ => None,
    }
}

/// The value of an expression that is a plain literal of a comparable kind.
pub open spec fn literal_value(expr: Expr) -> Option<Value> {
    match expr {
        Expr::Literal(scalar, None) => scalar_value(scalar),
        _ => None,
    }
}

/// The value of an expression that is a plain literal of a comparable kind.
pub fn literal_cast_or_none(expr: &Expr) -> (r: Option<CastRes<'_>>)
    ensures
        value_of(r) == literal_value(*expr),
{
    match expr {
        Expr::Literal(value, None) => cast_or_none(value),
        _ => None,
    }
}

// ---------------------------------------------------------------------------
// Comparison
// ---------------------------------------------------------------------------

/// Where one value stands as seen from another.
#[derive(Clone, Copy, Debug, PartialEq, Eq, Structural)]
pub enum Placement {
    Below,
    Same,
    Above,
    /// The two cannot be compared: one of them is no number.
    Unordered,
}

/// Where a truth value stands as seen from another: `false` is below `true`.
pub open spec fn bool_placement(a: bool, b: bool) -> Placement {
    if a == b {
        Placement::Same
    } else if b {
        Placement::Below
    } else {
        Placement::Above
    }
}

/// Where an integer stands as seen from another.
pub open spec fn int_placement(a: int, b: int) -> Placement {
    if a < b {
        Placement::Below
    } else if a == b {
        Placement::Same
    } else {
        Placement::Above
    }
}

/// Where a double stands as seen from another.
pub open spec fn float_placement(a: FloatBits, b: FloatBits) -> Placement {
    if a.nan() || b.nan() {
        Placement::Unordered
    } else {
        int_placement(a.rank(), b.rank())
    }
}

/// Where a text stands as seen from another.
pub open spec fn text_placement(a: Seq<char>, b: Seq<char>) -> Placement {
    if text_before(a, b) {
        Placement::Below
    } else if a == b {
        Placement::Same
    } else {
        Placement::Above
    }
}

/// Where a truth value stands as seen from another.
pub fn place_bool(a: bool, b: bool) -> (r: Placement)
    ensures
        r == bool_placement(a, b),
{
    if a == b {
        Placement::Same
    } else if b {
        Placement::Below
    } else {
        Placement::Above
    }
}

/// Where an integer stands as seen from another.
pub fn place_int(a: i64, b: i64) -> (r: Placement)
    ensures
        r == int_placement(a as int, b as int),
{
    if a < b {
        Placement::Below
    } else if a == b {
        Placement::Same
    } else {
        Placement::Above
    }
}

/// Where a double stands as seen from another.
pub fn place_float(a: FloatBits, b: FloatBits) -> (r: Placement)
    ensures
        r == float_placement(a, b),
{
    if a.number_lt(b) {
        Placement::Below
    } else if a.number_eq(b) {
        Placement::Same
    } else if b.number_lt(a) {
        Placement::Above
    } else {
        Placement::Unordered
    }
}

/// Where a text stands as seen from another.
pub fn place_str(a: &str, b: &str) -> (r: Placement)
    ensures
        r == text_placement(a@, b@),
{
    if str_before(a, b) {
        Placement::Below
    } else if str_same(a, b) {
        Placement::Same
    } else {
        Placement::Above
    }
}

impl Placement {
    /// Whether the value is at most the one it was compared with.
    pub open spec fn le(self) -> bool {
        self == Placement::Below || self == Placement::Same
    }

    /// Whether the value is at least the one it was compared with.
    pub open spec fn ge(self) -> bool {
        self == Placement::Above || self == Placement::Same
    }

    /// Whether the value is at most the one it was compared with.
    pub fn at_most(self) -> (r: bool)
        ensures
            r == self.le(),
    {
        self == Placement::Below || self == Placement::Same
    }

    /// Whether the value is at least the one it was compared with.
    pub fn at_least(self) -> (r: bool)
        ensures
            r == self.ge(),
    {
        self == Placement::Above || self == Placement::Same
    }
}

/// Whether an operator asks for equality.
pub open spec fn asks_equality(op: Operator) -> bool {
    op == Operator::Eq || op == Operator::IsNotDistinctFrom
}

/// Whether an operator asks for equality.
pub fn is_equality(op: Operator) -> (r: bool)
    ensures
        r == asks_equality(op),
{
    op == Operator::Eq || op == Operator::IsNotDistinctFrom
}

/// Whether a value that stands so as seen from the query's value meets the
/// operator. An operator that is no comparison is taken to be met.
pub open spec fn comparison_holds(candidate: Placement, op: Operator) -> bool {
    match op {
        Operator::Eq | Operator::IsNotDistinctFrom => candidate == Placement::Same,
        Operator::Lt => candidate == Placement::Below,
        Operator::LtEq => candidate.le(),
        Operator::Gt => candidate == Placement::Above,
        Operator::GtEq => candidate.ge(),
        _ => true,
    }
}

/// Whether a value that stands so as seen from the query's value meets the
/// operator. An operator that is no comparison is taken to be met.
pub fn compare_exact(candidate: Placement, op: Operator) -> (r: bool)
    ensures
        r == comparison_holds(candidate, op),
{
    match op {
        Operator::Eq | Operator::IsNotDistinctFrom => candidate == Placement::Same,
        Operator::Lt => candidate == Placement::Below,
        Operator::LtEq => candidate.at_most(),
        Operator::Gt => candidate == Placement::Above,
        Operator::GtEq => candidate.at_least(),
        _ => true,
    }
}

} // verus!
