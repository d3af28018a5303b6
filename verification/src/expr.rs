//! Filter expressions: the part of a query plan's expression language that the
//! catalog reads.
use vstd::prelude::*;

use crate::float::FloatScalar;

verus! {

/// The operator of a binary expression.
#[derive(Clone, Copy, Debug, PartialEq, Eq, Structural)]
pub enum Operator {
    Eq,
    NotEq,
    Lt,
    LtEq,
    Gt,
    GtEq,
    And,
    Or,
    IsDistinctFrom,
    IsNotDistinctFrom,
    /// An operator that no rule of the catalog looks at.
    Other,
}

/// The type of the values of a column.
#[derive(Clone, Copy, Debug, PartialEq, Eq, Structural)]
pub enum DataType {
    Boolean,
    Int8,
    Int16,
    Int32,
    Int64,
    UInt8,
    UInt16,
    UInt32,
    UInt64,
    Float32,
    Float64,
    Utf8,
    LargeUtf8,
    Utf8View,
    Date32,
    /// A type that no rule of the catalog looks at.
    Other,
}

/// A literal value.
#[derive(Clone, Debug)]
pub enum ScalarValue {
    Null,
    Boolean(Option<bool>),
    /// Held as the double of the same value.
    Float32(Option<FloatScalar>),
    Float64(Option<FloatScalar>),
    Int8(Option<i8>),
    Int16(Option<i16>),
    Int32(Option<i32>),
    Int64(Option<i64>),
    UInt8(Option<u8>),
    UInt16(Option<u16>),
    UInt32(Option<u32>),
    UInt64(Option<u64>),
    Utf8(Option<String>),
    LargeUtf8(Option<String>),
    Utf8View(Option<String>),
    Date32(Option<i32>),
    /// Milliseconds since the epoch, and a time zone.
    TimestampMillisecond(Option<i64>, Option<String>),
    /// Nanoseconds since the epoch, and a time zone.
    TimestampNanosecond(Option<i64>, Option<String>),
    /// A value that no rule of the catalog looks at.
    Other,
}

/// Metadata that a literal carries.
#[derive(Clone, Debug)]
pub struct FieldMetadata {
    pub entries: Vec<(String, String)>,
}

/// A column that an expression names.
#[derive(Clone, Debug)]
pub struct ColumnRef {
    pub name: String,
}

/// Two expressions and the operator between them.
#[derive(Debug)]
pub struct BinaryExpr {
    pub left: Box<Expr>,
    pub op: Operator,
    pub right: Box<Expr>,
}

/// A range test: `expr [NOT] BETWEEN low AND high`.
#[derive(Debug)]
pub struct Between {
    pub expr: Box<Expr>,
    pub negated: bool,
    pub low: Box<Expr>,
    pub high: Box<Expr>,
}

/// A pattern test: `expr [NOT] LIKE pattern`.
#[derive(Debug)]
pub struct Like {
    pub negated: bool,
    pub expr: Box<Expr>,
    pub pattern: Box<Expr>,
    pub escape_char: Option<char>,
    pub case_insensitive: bool,
}

/// A conversion to another type.
#[derive(Debug)]
pub struct Cast {
    pub expr: Box<Expr>,
    pub data_type: DataType,
}

/// A conversion to another type that gives null where it fails.
#[derive(Debug)]
pub struct TryCast {
    pub expr: Box<Expr>,
    pub data_type: DataType,
}

/// An expression.
#[derive(Debug)]
pub enum Expr {
    Column(ColumnRef),
    Literal(ScalarValue, Option<FieldMetadata>),
    BinaryExpr(BinaryExpr),
    Between(Between),
    Like(Like),
    Cast(Cast),
    TryCast(TryCast),
    /// An expression that no rule of the catalog looks at.
    Other,
}

} // verus!
