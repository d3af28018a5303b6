//! What pruning decides, said of a filter and of what a file lists, without the
//! steps by which it comes to decide.
use vstd::prelude::*;

use crate::catalog::column::{text_hash, Column, TypedStatistics};
use crate::expr::{Between, BinaryExpr, Expr, Like, Operator, ScalarValue};
use crate::float::{FloatBits, FloatScalar};
use crate::grams::{index_terms, literal_runs, lookup_grams, occurs_at, occurs_in};
use crate::numeral::{bool_text_reads_back, decimal, decimal_reads_back, i64_reading};
use crate::query::pruning::{
    all_readable, between_in_index, candidate_placement, column_name, exact_may_satisfy, find_column,
    gram_hash_missing, gram_missing, lies_between, matching_column, readable_before, ruled_out, some_value_satisfies,
};
use crate::query::soundness::{
    lowercase_keeps_ascii_runs, matches_pattern, terms_are_grams_where_runs_are_kept, Engine,
};
use crate::query::value::{comparison_holds, Value};
use crate::text::{
    all_ascii, lowercase, text_before, text_before_is_asymmetric, text_before_is_irreflexive,
    text_before_is_total, text_before_is_transitive,
};

verus! {

/// Of several columns of one name, the first is meant.
pub proof fn first_column_of_a_name_is_meant(columns: Seq<Column>, k: int)
    requires
        0 <= k < columns.len(),
        forall|j: int| 0 <= j < k ==> (#[trigger] columns[j]).name@ != columns[k].name@,
    ensures
        find_column(columns, columns[k].name@) == Some(columns[k]),
    decreases k,
{
    if k > 0 {
        let rest = columns.skip(1);
        assert(columns[0].name@ != columns[k].name@);
        assert forall|j: int| 0 <= j < k - 1 implies (#[trigger] rest[j]).name@ != rest[k - 1].name@ by {
            assert(rest[j] == columns[j + 1]);
        }
        first_column_of_a_name_is_meant(rest, k - 1);
    }
}

// ---------------------------------------------------------------------------
// Comparisons with integers
// ---------------------------------------------------------------------------

/// A file that may hold a matching number is kept. The literal is an integer of
/// any width, a date or a timestamp in milliseconds, and means its own number;
/// what the file lists of the column is true of the number `v`, and `v` meets
/// the comparison.
pub proof fn file_with_a_matching_number_is_kept(
    columns: Seq<Column>,
    k: int,
    binary: BinaryExpr,
    scalar: ScalarValue,
    n: int,
    v: int,
)
    requires
        0 <= k < columns.len(),
        forall|j: int| 0 <= j < k ==> (#[trigger] columns[j]).name@ != columns[k].name@,
        *binary.left matches Expr::Column(col) && col.name@ == columns[k].name@,
        *binary.right == Expr::Literal(scalar, None),
        match scalar {
            ScalarValue::Int8(Some(x)) => n == x,
            ScalarValue::Int16(Some(x)) => n == x,
            ScalarValue::Int32(Some(x)) => n == x,
            ScalarValue::Int64(Some(x)) => n == x,
            ScalarValue::UInt8(Some(x)) => n == x,
            ScalarValue::UInt16(Some(x)) => n == x,
            ScalarValue::UInt32(Some(x)) => n == x,
            ScalarValue::UInt64(Some(x)) => n == x && x <= i64::MAX,
            ScalarValue::Date32(Some(x)) => n == x,
            ScalarValue::TimestampMillisecond(Some(x), _) => n == x,
            _ => false,
        },
        match binary.op {
            Operator::Eq | Operator::IsNotDistinctFrom => v == n,
            Operator::Lt => v < n,
            Operator::LtEq => v <= n,
            Operator::Gt => v > n,
            Operator::GtEq => v >= n,
            Operator::And | Operator::Or => false,
            _ => true,
        },
        columns[k].stats matches Some(stats) ==> (stats matches TypedStatistics::Int(s) && s.min <= v <= s.max),
        columns[k].exact_values matches Some(index) ==> index.complete ==> exists|i: int|
            0 <= i < index.values@.len() && (#[trigger] index.values@[i])@ == decimal(v),
        columns[k].exact_hashes matches Some(index) ==> index.complete ==> index.hashes@.contains(
            text_hash(decimal(v)),
        ),
    ensures
        !ruled_out(columns, Expr::BinaryExpr(binary)),
{
    first_column_of_a_name_is_meant(columns, k);
    let literal = Value::Int(n);
    if let Some(index) = columns[k].exact_values {
        if index.complete {
            let i = choose|i: int| 0 <= i < index.values@.len() && (#[trigger] index.values@[i])@ == decimal(v);
            assert(index.texts()[i] == decimal(v));
            if columns[k].stats is Some {
                decimal_reads_back(v as i64);
                assert(comparison_holds(candidate_placement(index, i, literal)->0, binary.op));
            }
        }
    }
}

/// A file whose column ranges over no matching number is left out.
pub proof fn file_without_a_matching_number_in_range_is_left_out(
    columns: Seq<Column>,
    k: int,
    binary: BinaryExpr,
    scalar: ScalarValue,
    n: int,
)
    requires
        0 <= k < columns.len(),
        forall|j: int| 0 <= j < k ==> (#[trigger] columns[j]).name@ != columns[k].name@,
        *binary.left matches Expr::Column(col) && col.name@ == columns[k].name@,
        *binary.right == Expr::Literal(scalar, None),
        match scalar {
            ScalarValue::Int8(Some(x)) => n == x,
            ScalarValue::Int16(Some(x)) => n == x,
            ScalarValue::Int32(Some(x)) => n == x,
            ScalarValue::Int64(Some(x)) => n == x,
            ScalarValue::UInt8(Some(x)) => n == x,
            ScalarValue::UInt16(Some(x)) => n == x,
            ScalarValue::UInt32(Some(x)) => n == x,
            ScalarValue::UInt64(Some(x)) => n == x && x <= i64::MAX,
            ScalarValue::Date32(Some(x)) => n == x,
            ScalarValue::TimestampMillisecond(Some(x), _) => n == x,
            _ => false,
        },
        columns[k].stats matches Some(TypedStatistics::Int(s)) && match binary.op {
            Operator::Eq | Operator::IsNotDistinctFrom => n < s.min || s.max < n,
            Operator::Lt => n <= s.min,
            Operator::LtEq => n < s.min,
            Operator::Gt => s.max <= n,
            Operator::GtEq => s.max < n,
            _ => false,
        },
    ensures
        ruled_out(columns, Expr::BinaryExpr(binary)),
{
    first_column_of_a_name_is_meant(columns, k);
}

/// A file whose complete index lists no matching number is left out.
pub proof fn file_without_a_matching_number_indexed_is_left_out(
    columns: Seq<Column>,
    k: int,
    binary: BinaryExpr,
    scalar: ScalarValue,
    n: int,
    numbers: Seq<i64>,
)
    requires
        0 <= k < columns.len(),
        forall|j: int| 0 <= j < k ==> (#[trigger] columns[j]).name@ != columns[k].name@,
        *binary.left matches Expr::Column(col) && col.name@ == columns[k].name@,
        *binary.right == Expr::Literal(scalar, None),
        match scalar {
            ScalarValue::Int8(Some(x)) => n == x,
            ScalarValue::Int16(Some(x)) => n == x,
            ScalarValue::Int32(Some(x)) => n == x,
            ScalarValue::Int64(Some(x)) => n == x,
            ScalarValue::UInt8(Some(x)) => n == x,
            ScalarValue::UInt16(Some(x)) => n == x,
            ScalarValue::UInt32(Some(x)) => n == x,
            ScalarValue::UInt64(Some(x)) => n == x && x <= i64::MAX,
            ScalarValue::Date32(Some(x)) => n == x,
            ScalarValue::TimestampMillisecond(Some(x), _) => n == x,
            _ => false,
        },
        columns[k].stats matches Some(TypedStatistics::Int(_)),
        columns[k].exact_values matches Some(index) && index.complete && index.values@.len() == numbers.len()
            && forall|i: int|
            0 <= i < numbers.len() ==> (#[trigger] index.values@[i])@ == decimal(numbers[i] as int),
        forall|i: int|
            0 <= i < numbers.len() ==> match binary.op {
                Operator::Eq | Operator::IsNotDistinctFrom => (#[trigger] numbers[i]) != n,
                Operator::Lt => numbers[i] >= n,
                Operator::LtEq => numbers[i] > n,
                Operator::Gt => numbers[i] <= n,
                Operator::GtEq => numbers[i] < n,
                _ => false,
            },
        match binary.op {
            Operator::Eq | Operator::IsNotDistinctFrom | Operator::Lt | Operator::LtEq | Operator::Gt
            | Operator::GtEq => true,
            _ => false,
        },
    ensures
        ruled_out(columns, Expr::BinaryExpr(binary)),
{
    first_column_of_a_name_is_meant(columns, k);
    let index = columns[k].exact_values->0;
    let literal = Value::Int(n);
    assert forall|i: int| 0 <= i < index.values@.len() implies (#[trigger] candidate_placement(index, i, literal))
        is Some && !comparison_holds(candidate_placement(index, i, literal)->0, binary.op) by {
        decimal_reads_back(numbers[i]);
        assert(index.texts()[i] == index.values@[i]@);
    }
    assert(all_readable(index, literal));
    assert(!some_value_satisfies(index, literal, binary.op));
}

/// A comparison for equality leaves out a file whose complete index, of values
/// or of hashes, lacks the number, whatever else is known of the column.
pub proof fn file_without_the_number_in_an_index_is_left_out(
    columns: Seq<Column>,
    k: int,
    binary: BinaryExpr,
    scalar: ScalarValue,
    n: int,
)
    requires
        0 <= k < columns.len(),
        forall|j: int| 0 <= j < k ==> (#[trigger] columns[j]).name@ != columns[k].name@,
        *binary.left matches Expr::Column(col) && col.name@ == columns[k].name@,
        *binary.right == Expr::Literal(scalar, None),
        binary.op == Operator::Eq || binary.op == Operator::IsNotDistinctFrom,
        match scalar {
            ScalarValue::Int8(Some(x)) => n == x,
            ScalarValue::Int16(Some(x)) => n == x,
            ScalarValue::Int32(Some(x)) => n == x,
            ScalarValue::Int64(Some(x)) => n == x,
            ScalarValue::UInt8(Some(x)) => n == x,
            ScalarValue::UInt16(Some(x)) => n == x,
            ScalarValue::UInt32(Some(x)) => n == x,
            ScalarValue::UInt64(Some(x)) => n == x && x <= i64::MAX,
            ScalarValue::Date32(Some(x)) => n == x,
            ScalarValue::TimestampMillisecond(Some(x), _) => n == x,
            _ => false,
        },
        ({
            ||| columns[k].exact_values matches Some(index) && index.complete && forall|i: int|
                0 <= i < index.values@.len() ==> (#[trigger] index.values@[i])@ != decimal(n)
            ||| columns[k].exact_hashes matches Some(index) && index.complete && !index.hashes@.contains(
                text_hash(decimal(n)),
            )
        }),
    ensures
        ruled_out(columns, Expr::BinaryExpr(binary)),
{
    first_column_of_a_name_is_meant(columns, k);
    if let Some(index) = columns[k].exact_values {
        if index.texts().contains(decimal(n)) {
            let i = index.texts().index_of(decimal(n));
            assert(index.values@[i]@ == decimal(n));
        }
    }
}

/// An unsigned literal from the middle of its range on is taken as the number
/// of the same 64 bits with a sign.
pub proof fn large_unsigned_literals_count_down_from_zero(columns: Seq<Column>, a: BinaryExpr, b: BinaryExpr, x: u64)
    requires
        x > i64::MAX,
        *a.left == *b.left,
        a.op == b.op,
        a.op != Operator::And,
        a.op != Operator::Or,
        *a.right == Expr::Literal(ScalarValue::UInt64(Some(x)), None),
        *b.right matches Expr::Literal(ScalarValue::Int64(Some(y)), None) && y == x
            - 0x1_0000_0000_0000_0000,
    ensures
        ruled_out(columns, Expr::BinaryExpr(a)) == ruled_out(columns, Expr::BinaryExpr(b)),
{
}

// ---------------------------------------------------------------------------
// Comparisons with texts, truth values and doubles
// ---------------------------------------------------------------------------

/// A file that may hold a matching text is kept.
pub proof fn file_with_a_matching_text_is_kept(
    columns: Seq<Column>,
    k: int,
    binary: BinaryExpr,
    literal: String,
    v: Seq<char>,
)
    requires
        0 <= k < columns.len(),
        forall|j: int| 0 <= j < k ==> (#[trigger] columns[j]).name@ != columns[k].name@,
        *binary.left matches Expr::Column(col) && col.name@ == columns[k].name@,
        *binary.right == Expr::Literal(ScalarValue::Utf8(Some(literal)), None),
        match binary.op {
            Operator::Eq | Operator::IsNotDistinctFrom => v == literal@,
            Operator::Lt => text_before(v, literal@),
            Operator::LtEq => v == literal@ || text_before(v, literal@),
            Operator::Gt => text_before(literal@, v),
            Operator::GtEq => v == literal@ || text_before(literal@, v),
            Operator::And | Operator::Or => false,
            _ => true,
        },
        columns[k].stats matches Some(stats) ==> (stats matches TypedStatistics::String(s) && !text_before(v, s.min@)
            && !text_before(s.max@, v)),
        columns[k].exact_values matches Some(index) ==> index.complete ==> exists|i: int|
            0 <= i < index.values@.len() && (#[trigger] index.values@[i])@ == v,
        columns[k].exact_hashes matches Some(index) ==> index.complete ==> index.hashes@.contains(text_hash(v)),
    ensures
        !ruled_out(columns, Expr::BinaryExpr(binary)),
{
    first_column_of_a_name_is_meant(columns, k);
    let query = literal@;
    text_before_is_total(v, query);
    text_before_is_irreflexive(query);
    text_before_is_irreflexive(v);
    if text_before(v, query) {
        text_before_is_asymmetric(v, query);
    }
    if text_before(query, v) {
        text_before_is_asymmetric(query, v);
    }
    if let Some(TypedStatistics::String(s)) = columns[k].stats {
        text_before_is_total(s.min@, v);
        text_before_is_total(s.max@, v);
        text_before_is_total(s.min@, query);
        text_before_is_total(s.max@, query);
        text_before_is_irreflexive(s.min@);
        text_before_is_irreflexive(s.max@);
        lemma_text_order(s.min@, v, query);
        lemma_text_order(query, v, s.max@);
    }
    if let Some(index) = columns[k].exact_values {
        if index.complete {
            let i = choose|i: int| 0 <= i < index.values@.len() && (#[trigger] index.values@[i])@ == v;
            assert(index.texts()[i] == v);
            if columns[k].stats is Some {
                assert(comparison_holds(candidate_placement(index, i, Value::Text(query))->0, binary.op));
            }
        }
    }
}

proof fn lemma_text_order(a: Seq<char>, b: Seq<char>, c: Seq<char>)
    ensures
        text_before(a, b) && text_before(b, c) ==> text_before(a, c),
        text_before(a, b) ==> !text_before(b, a),
        text_before(b, c) ==> !text_before(c, b),
        text_before(a, c) ==> !text_before(c, a),
{
    if text_before(a, b) && text_before(b, c) {
        text_before_is_transitive(a, b, c);
    }
    if text_before(a, b) {
        text_before_is_asymmetric(a, b);
    }
    if text_before(b, c) {
        text_before_is_asymmetric(b, c);
    }
    if text_before(a, c) {
        text_before_is_asymmetric(a, c);
    }
}

/// A file whose column ranges over no matching text is left out.
pub proof fn file_without_a_matching_text_in_range_is_left_out(
    columns: Seq<Column>,
    k: int,
    binary: BinaryExpr,
    literal: String,
)
    requires
        0 <= k < columns.len(),
        forall|j: int| 0 <= j < k ==> (#[trigger] columns[j]).name@ != columns[k].name@,
        *binary.left matches Expr::Column(col) && col.name@ == columns[k].name@,
        *binary.right == Expr::Literal(ScalarValue::Utf8(Some(literal)), None),
        columns[k].stats matches Some(TypedStatistics::String(s)) && match binary.op {
            Operator::Eq | Operator::IsNotDistinctFrom => text_before(literal@, s.min@) || text_before(
                s.max@,
                literal@,
            ),
            Operator::Lt => !text_before(s.min@, literal@),
            Operator::LtEq => text_before(literal@, s.min@),
            Operator::Gt => !text_before(literal@, s.max@),
            Operator::GtEq => text_before(s.max@, literal@),
            _ => false,
        },
    ensures
        ruled_out(columns, Expr::BinaryExpr(binary)),
{
    first_column_of_a_name_is_meant(columns, k);
    let stats = columns[k].stats->0;
    let s = stats->String_0;
    lemma_text_order(s.min@, literal@, s.max@);
    lemma_text_order(s.max@, literal@, s.min@);
    text_before_is_irreflexive(literal@);
    text_before_is_total(s.min@, literal@);
    text_before_is_total(s.max@, literal@);
}

/// A file whose complete index lists no matching text is left out.
pub proof fn file_without_a_matching_text_indexed_is_left_out(
    columns: Seq<Column>,
    k: int,
    binary: BinaryExpr,
    literal: String,
)
    requires
        0 <= k < columns.len(),
        forall|j: int| 0 <= j < k ==> (#[trigger] columns[j]).name@ != columns[k].name@,
        *binary.left matches Expr::Column(col) && col.name@ == columns[k].name@,
        *binary.right == Expr::Literal(ScalarValue::Utf8(Some(literal)), None),
        columns[k].stats matches Some(TypedStatistics::String(_)) || binary.op == Operator::Eq,
        columns[k].exact_values matches Some(index) && index.complete && forall|i: int|
            0 <= i < index.values@.len() ==> match binary.op {
                Operator::Eq | Operator::IsNotDistinctFrom => (#[trigger] index.values@[i])@ != literal@,
                Operator::Lt => !text_before(index.values@[i]@, literal@),
                Operator::LtEq => text_before(literal@, index.values@[i]@),
                Operator::Gt => !text_before(literal@, index.values@[i]@),
                Operator::GtEq => text_before(index.values@[i]@, literal@),
                _ => false,
            },
        match binary.op {
            Operator::Eq | Operator::IsNotDistinctFrom | Operator::Lt | Operator::LtEq | Operator::Gt
            | Operator::GtEq => true,
            _ => false,
        },
    ensures
        ruled_out(columns, Expr::BinaryExpr(binary)),
{
    first_column_of_a_name_is_meant(columns, k);
    let index = columns[k].exact_values->0;
    let query = Value::Text(literal@);
    assert forall|i: int| 0 <= i < index.values@.len() implies (#[trigger] candidate_placement(index, i, query))
        is Some && !comparison_holds(candidate_placement(index, i, query)->0, binary.op) by {
        assert(index.texts()[i] == index.values@[i]@);
        lemma_text_order(index.values@[i]@, literal@, index.values@[i]@);
        text_before_is_irreflexive(literal@);
        text_before_is_total(index.values@[i]@, literal@);
    }
    assert(all_readable(index, query));
    assert(!some_value_satisfies(index, query, binary.op));
    if index.texts().contains(literal@) {
        let i = index.texts().index_of(literal@);
        assert(index.values@[i]@ == literal@);
    }
}

/// A file whose column ranges over no matching truth value is left out.
pub proof fn file_without_a_matching_truth_value_in_range_is_left_out(
    columns: Seq<Column>,
    k: int,
    binary: BinaryExpr,
    literal: bool,
)
    requires
        0 <= k < columns.len(),
        forall|j: int| 0 <= j < k ==> (#[trigger] columns[j]).name@ != columns[k].name@,
        *binary.left matches Expr::Column(col) && col.name@ == columns[k].name@,
        *binary.right == Expr::Literal(ScalarValue::Boolean(Some(literal)), None),
        columns[k].stats matches Some(TypedStatistics::Bool(s)) && match binary.op {
            Operator::Eq | Operator::IsNotDistinctFrom => s.min && !literal || !s.max && literal,
            Operator::Lt => s.min || !literal,
            Operator::LtEq => s.min && !literal,
            Operator::Gt => !s.max || literal,
            Operator::GtEq => !s.max && literal,
            _ => false,
        },
    ensures
        ruled_out(columns, Expr::BinaryExpr(binary)),
{
    first_column_of_a_name_is_meant(columns, k);
}

/// A file that may hold a matching truth value is kept.
pub proof fn file_with_a_matching_truth_value_is_kept(
    columns: Seq<Column>,
    k: int,
    binary: BinaryExpr,
    literal: bool,
    v: bool,
)
    requires
        0 <= k < columns.len(),
        forall|j: int| 0 <= j < k ==> (#[trigger] columns[j]).name@ != columns[k].name@,
        *binary.left matches Expr::Column(col) && col.name@ == columns[k].name@,
        *binary.right == Expr::Literal(ScalarValue::Boolean(Some(literal)), None),
        match binary.op {
            Operator::Eq | Operator::IsNotDistinctFrom => v == literal,
            Operator::Lt => !v && literal,
            Operator::LtEq => !v || literal,
            Operator::Gt => v && !literal,
            Operator::GtEq => v || !literal,
            Operator::And | Operator::Or => false,
            _ => true,
        },
        columns[k].stats matches Some(stats) ==> (stats matches TypedStatistics::Bool(s) && (s.min ==> v) && (v
            ==> s.max)),
        columns[k].exact_values matches Some(index) ==> index.complete ==> exists|i: int|
            0 <= i < index.values@.len() && (#[trigger] index.values@[i])@ == (if v {
                "true"@
            } else {
                "false"@
            }),
        columns[k].exact_hashes matches Some(index) ==> index.complete ==> index.hashes@.contains(
            text_hash(
                if v {
                    "true"@
                } else {
                    "false"@
                },
            ),
        ),
    ensures
        !ruled_out(columns, Expr::BinaryExpr(binary)),
{
    first_column_of_a_name_is_meant(columns, k);
    bool_text_reads_back(v);
    let text = if v {
        "true"@
    } else {
        "false"@
    };
    if let Some(index) = columns[k].exact_values {
        if index.complete {
            let i = choose|i: int| 0 <= i < index.values@.len() && (#[trigger] index.values@[i])@ == text;
            assert(index.texts()[i] == text);
            if columns[k].stats is Some {
                assert(comparison_holds(candidate_placement(index, i, Value::Bool(literal))->0, binary.op));
            }
        }
    }
}

/// A file that may hold a matching double is kept. Doubles compare by their
/// rank; neither of the two is NaN.
pub proof fn file_with_a_matching_double_is_kept(
    columns: Seq<Column>,
    k: int,
    binary: BinaryExpr,
    scalar: ScalarValue,
    q: FloatBits,
    text: Seq<char>,
    v: FloatBits,
    written: Seq<char>,
)
    requires
        0 <= k < columns.len(),
        forall|j: int| 0 <= j < k ==> (#[trigger] columns[j]).name@ != columns[k].name@,
        *binary.left matches Expr::Column(col) && col.name@ == columns[k].name@,
        *binary.right == Expr::Literal(scalar, None),
        match scalar {
            ScalarValue::Float32(Some(f)) => q == f.value && text == f.text@,
            ScalarValue::Float64(Some(f)) => q == f.value && text == f.text@,
            _ => false,
        },
        !q.nan(),
        !v.nan(),
        match binary.op {
            Operator::Eq | Operator::IsNotDistinctFrom => v.rank() == q.rank() && written == text,
            Operator::Lt => v.rank() < q.rank(),
            Operator::LtEq => v.rank() <= q.rank(),
            Operator::Gt => v.rank() > q.rank(),
            Operator::GtEq => v.rank() >= q.rank(),
            Operator::And | Operator::Or => false,
            _ => true,
        },
        columns[k].stats matches Some(stats) ==> (stats matches TypedStatistics::Float(s) && !s.min.nan()
            && !s.max.nan() && s.min.rank() <= v.rank() <= s.max.rank()),
        columns[k].exact_values matches Some(index) ==> index.complete ==> exists|i: int|
            0 <= i < index.values@.len() && (#[trigger] index.values@[i])@ == written && (i
                < index.floats@.len() ==> (index.floats@[i] matches Some(c) ==> !c.nan() && c.rank()
                == v.rank())),
        columns[k].exact_hashes matches Some(index) ==> index.complete ==> index.hashes@.contains(
            text_hash(written),
        ),
    ensures
        !ruled_out(columns, Expr::BinaryExpr(binary)),
{
    first_column_of_a_name_is_meant(columns, k);
    let literal = Value::Float(q, text);
    if let Some(index) = columns[k].exact_values {
        if index.complete {
            let i = choose|i: int|
                0 <= i < index.values@.len() && (#[trigger] index.values@[i])@ == written && (i
                    < index.floats@.len() ==> (index.floats@[i] matches Some(c) ==> !c.nan() && c.rank()
                    == v.rank()));
            assert(index.texts()[i] == written);
            if exact_may_satisfy(index, literal, binary.op, crate::catalog::column::range_of(columns[k].stats))
                == Some(false) {
                assert(candidate_placement(index, i, literal) is Some);
                assert(comparison_holds(candidate_placement(index, i, literal)->0, binary.op));
            }
        }
    }
}

/// A file whose column ranges over no matching double is left out. Nothing
/// matches NaN.
pub proof fn file_without_a_matching_double_in_range_is_left_out(
    columns: Seq<Column>,
    k: int,
    binary: BinaryExpr,
    scalar: ScalarValue,
    q: FloatBits,
)
    requires
        0 <= k < columns.len(),
        forall|j: int| 0 <= j < k ==> (#[trigger] columns[j]).name@ != columns[k].name@,
        *binary.left matches Expr::Column(col) && col.name@ == columns[k].name@,
        *binary.right == Expr::Literal(scalar, None),
        match scalar {
            ScalarValue::Float32(Some(f)) => q == f.value,
            ScalarValue::Float64(Some(f)) => q == f.value,
            _ => false,
        },
        columns[k].stats matches Some(TypedStatistics::Float(s)) && !s.min.nan() && !s.max.nan() && match binary.op {
            Operator::Eq | Operator::IsNotDistinctFrom => q.nan() || q.rank() < s.min.rank() || q.rank()
                > s.max.rank(),
            Operator::Lt => q.nan() || q.rank() <= s.min.rank(),
            Operator::LtEq => q.nan() || q.rank() < s.min.rank(),
            Operator::Gt => q.nan() || q.rank() >= s.max.rank(),
            Operator::GtEq => q.nan() || q.rank() > s.max.rank(),
            _ => false,
        },
    ensures
        ruled_out(columns, Expr::BinaryExpr(binary)),
{
    first_column_of_a_name_is_meant(columns, k);
}

/// A file whose complete index lists no matching double is left out. Each value
/// of the index reads as a number.
pub proof fn file_without_a_matching_double_indexed_is_left_out(
    columns: Seq<Column>,
    k: int,
    binary: BinaryExpr,
    scalar: ScalarValue,
    q: FloatBits,
)
    requires
        0 <= k < columns.len(),
        forall|j: int| 0 <= j < k ==> (#[trigger] columns[j]).name@ != columns[k].name@,
        *binary.left matches Expr::Column(col) && col.name@ == columns[k].name@,
        *binary.right == Expr::Literal(scalar, None),
        match scalar {
            ScalarValue::Float32(Some(f)) => q == f.value,
            ScalarValue::Float64(Some(f)) => q == f.value,
            _ => false,
        },
        !q.nan(),
        columns[k].stats matches Some(TypedStatistics::Float(_)),
        columns[k].exact_values matches Some(index) && index.complete && index.floats@.len() == index.values@.len()
            && forall|i: int|
            0 <= i < index.floats@.len() ==> (#[trigger] index.floats@[i] matches Some(c) && !c.nan() && match binary.op {
                Operator::Eq | Operator::IsNotDistinctFrom => c.rank() != q.rank(),
                Operator::Lt => c.rank() >= q.rank(),
                Operator::LtEq => c.rank() > q.rank(),
                Operator::Gt => c.rank() <= q.rank(),
                Operator::GtEq => c.rank() < q.rank(),
                _ => false,
            }),
        match binary.op {
            Operator::Eq | Operator::IsNotDistinctFrom | Operator::Lt | Operator::LtEq | Operator::Gt
            | Operator::GtEq => true,
            _ => false,
        },
    ensures
        ruled_out(columns, Expr::BinaryExpr(binary)),
{
    first_column_of_a_name_is_meant(columns, k);
    let index = columns[k].exact_values->0;
    let literal = match scalar {
        ScalarValue::Float32(Some(f)) => Value::Float(f.value, f.text@),
        ScalarValue::Float64(Some(f)) => Value::Float(f.value, f.text@),
        _ => Value::Bool(false),
    };
    assert forall|i: int| 0 <= i < index.values@.len() implies (#[trigger] candidate_placement(index, i, literal))
        is Some && !comparison_holds(candidate_placement(index, i, literal)->0, binary.op) by {
        assert(index.floats@[i] is Some);
    }
    assert(all_readable(index, literal));
    assert(!some_value_satisfies(index, literal, binary.op));
}

/// A file whose complete index lists no matching truth value is left out.
pub proof fn file_without_a_matching_truth_value_indexed_is_left_out(
    columns: Seq<Column>,
    k: int,
    binary: BinaryExpr,
    literal: bool,
    values: Seq<bool>,
)
    requires
        0 <= k < columns.len(),
        forall|j: int| 0 <= j < k ==> (#[trigger] columns[j]).name@ != columns[k].name@,
        *binary.left matches Expr::Column(col) && col.name@ == columns[k].name@,
        *binary.right == Expr::Literal(ScalarValue::Boolean(Some(literal)), None),
        columns[k].stats matches Some(TypedStatistics::Bool(_)),
        columns[k].exact_values matches Some(index) && index.complete && index.values@.len() == values.len()
            && forall|i: int|
            0 <= i < values.len() ==> (#[trigger] index.values@[i])@ == (if values[i] {
                "true"@
            } else {
                "false"@
            }),
        forall|i: int|
            0 <= i < values.len() ==> match binary.op {
                Operator::Eq | Operator::IsNotDistinctFrom => (#[trigger] values[i]) != literal,
                Operator::Lt => values[i] || !literal,
                Operator::LtEq => values[i] && !literal,
                Operator::Gt => !values[i] || literal,
                Operator::GtEq => !values[i] && literal,
                _ => false,
            },
        match binary.op {
            Operator::Eq | Operator::IsNotDistinctFrom | Operator::Lt | Operator::LtEq | Operator::Gt
            | Operator::GtEq => true,
            _ => false,
        },
    ensures
        ruled_out(columns, Expr::BinaryExpr(binary)),
{
    first_column_of_a_name_is_meant(columns, k);
    let index = columns[k].exact_values->0;
    let query = Value::Bool(literal);
    assert forall|i: int| 0 <= i < index.values@.len() implies (#[trigger] candidate_placement(index, i, query))
        is Some && !comparison_holds(candidate_placement(index, i, query)->0, binary.op) by {
        bool_text_reads_back(values[i]);
        assert(index.texts()[i] == index.values@[i]@);
    }
    assert(all_readable(index, query));
    assert(!some_value_satisfies(index, query, binary.op));
}

/// An index with a value that reads as no number settles no order: the range
/// alone then decides.
pub proof fn unreadable_index_settles_no_order(columns: Seq<Column>, k: int, binary: BinaryExpr, n: i64, i: int)
    requires
        0 <= k < columns.len(),
        forall|j: int| 0 <= j < k ==> (#[trigger] columns[j]).name@ != columns[k].name@,
        *binary.left matches Expr::Column(col) && col.name@ == columns[k].name@,
        *binary.right == Expr::Literal(ScalarValue::Int64(Some(n)), None),
        columns[k].exact_hashes is None,
        columns[k].exact_values matches Some(index) && 0 <= i < index.values@.len() && i64_reading(
            index.values@[i]@,
        ) is None,
        columns[k].stats matches Some(TypedStatistics::Int(s)) && match binary.op {
            Operator::Lt => s.min < n,
            Operator::LtEq => s.min <= n,
            Operator::Gt => s.max > n,
            Operator::GtEq => s.max >= n,
            _ => false,
        },
    ensures
        !ruled_out(columns, Expr::BinaryExpr(binary)),
{
    first_column_of_a_name_is_meant(columns, k);
    let index = columns[k].exact_values->0;
    assert(index.texts()[i] == index.values@[i]@);
    assert(candidate_placement(index, i, Value::Int(n as int)) is None);
}

/// Without a range, the indexes of exact values settle equality alone.
pub proof fn index_without_a_range_settles_no_order(columns: Seq<Column>, k: int, binary: BinaryExpr)
    requires
        0 <= k < columns.len(),
        forall|j: int| 0 <= j < k ==> (#[trigger] columns[j]).name@ != columns[k].name@,
        *binary.left matches Expr::Column(col) && col.name@ == columns[k].name@,
        columns[k].stats is None,
        match binary.op {
            Operator::Eq | Operator::IsNotDistinctFrom | Operator::And | Operator::Or => false,
            _ => true,
        },
    ensures
        !ruled_out(columns, Expr::BinaryExpr(binary)),
{
    first_column_of_a_name_is_meant(columns, k);
}

/// A literal that carries metadata, that is null, or that is of a type that the
/// catalog does not compare, rules nothing out.
pub proof fn other_literals_rule_nothing_out(columns: Seq<Column>, binary: BinaryExpr)
    requires
        binary.op != Operator::And,
        binary.op != Operator::Or,
        match *binary.right {
            Expr::Literal(_, Some(_)) => true,
            Expr::Literal(scalar, None) => match scalar {
                ScalarValue::Null
                | ScalarValue::Boolean(None)
                | ScalarValue::Float32(None)
                | ScalarValue::Float64(None)
                | ScalarValue::Int8(None)
                | ScalarValue::Int16(None)
                | ScalarValue::Int32(None)
                | ScalarValue::Int64(None)
                | ScalarValue::UInt8(None)
                | ScalarValue::UInt16(None)
                | ScalarValue::UInt32(None)
                | ScalarValue::UInt64(None)
                | ScalarValue::Utf8(None)
                | ScalarValue::LargeUtf8(_)
                | ScalarValue::Utf8View(_)
                | ScalarValue::Date32(None)
                | ScalarValue::TimestampMillisecond(None, _)
                | ScalarValue::TimestampNanosecond(_, _)
                | ScalarValue::Other => true,
                _ => false,
            },
            _ => true,
        },
    ensures
        !ruled_out(columns, Expr::BinaryExpr(binary)),
{
}

/// A range of another type than the literal's rules nothing out.
pub proof fn range_of_another_type_rules_nothing_out(columns: Seq<Column>, k: int, binary: BinaryExpr)
    requires
        0 <= k < columns.len(),
        forall|j: int| 0 <= j < k ==> (#[trigger] columns[j]).name@ != columns[k].name@,
        *binary.left matches Expr::Column(col) && col.name@ == columns[k].name@,
        binary.op != Operator::And,
        binary.op != Operator::Or,
        columns[k].exact_values is None,
        columns[k].exact_hashes is None,
        match (*binary.right, columns[k].stats) {
            (_, None) => true,
            (Expr::Literal(ScalarValue::Utf8(Some(_)), None), Some(stats)) => !(stats is String),
            (Expr::Literal(ScalarValue::Boolean(Some(_)), None), Some(stats)) => !(stats is Bool),
            (Expr::Literal(ScalarValue::Float32(Some(_)), None), Some(stats)) => !(stats is Float),
            (Expr::Literal(ScalarValue::Float64(Some(_)), None), Some(stats)) => !(stats is Float),
            (Expr::Literal(ScalarValue::Int64(Some(_)), None), Some(stats)) => !(stats is Int),
            (Expr::Literal(ScalarValue::TimestampMillisecond(Some(_), _), None), Some(stats)) => !(stats is Int),
            _ => false,
        },
    ensures
        !ruled_out(columns, Expr::BinaryExpr(binary)),
{
    first_column_of_a_name_is_meant(columns, k);
}

// ---------------------------------------------------------------------------
// Columns, conjunctions and range tests
// ---------------------------------------------------------------------------

/// A conversion of a column is looked through: a comparison of the converted
/// column decides as that of the column itself.
pub proof fn conversions_are_looked_through(columns: Seq<Column>, a: BinaryExpr, b: BinaryExpr)
    requires
        match *a.left {
            Expr::Cast(cast) => *cast.expr == *b.left,
            Expr::TryCast(cast) => *cast.expr == *b.left,
            _ => false,
        },
        a.op == b.op,
        a.op != Operator::And,
        a.op != Operator::Or,
        *a.right == *b.right,
    ensures
        ruled_out(columns, Expr::BinaryExpr(a)) == ruled_out(columns, Expr::BinaryExpr(b)),
{
}

/// A conjunction rules out what either part does, a disjunction what both do.
pub proof fn parts_of_a_filter_decide(columns: Seq<Column>, binary: BinaryExpr)
    ensures
        binary.op == Operator::And ==> (ruled_out(columns, Expr::BinaryExpr(binary)) <==> ruled_out(
            columns,
            *binary.left,
        ) || ruled_out(columns, *binary.right)),
        binary.op == Operator::Or ==> (ruled_out(columns, Expr::BinaryExpr(binary)) <==> ruled_out(
            columns,
            *binary.left,
        ) && ruled_out(columns, *binary.right)),
{
}

/// A range test keeps a file that may hold a number between its ends, both
/// included.
pub proof fn file_with_a_number_between_is_kept(
    columns: Seq<Column>,
    k: int,
    between: Between,
    low: i64,
    high: i64,
    v: int,
)
    requires
        0 <= k < columns.len(),
        forall|j: int| 0 <= j < k ==> (#[trigger] columns[j]).name@ != columns[k].name@,
        *between.expr matches Expr::Column(col) && col.name@ == columns[k].name@,
        *between.low == Expr::Literal(ScalarValue::Int64(Some(low)), None),
        *between.high == Expr::Literal(ScalarValue::Int64(Some(high)), None),
        low <= v <= high,
        columns[k].stats matches Some(stats) ==> (stats matches TypedStatistics::Int(s) && s.min <= v <= s.max),
        columns[k].exact_values matches Some(index) ==> index.complete ==> exists|i: int|
            0 <= i < index.values@.len() && (#[trigger] index.values@[i])@ == decimal(v),
        columns[k].exact_hashes matches Some(index) ==> index.complete ==> index.hashes@.contains(
            text_hash(decimal(v)),
        ),
    ensures
        !ruled_out(columns, Expr::Between(between)),
{
    first_column_of_a_name_is_meant(columns, k);
    decimal_reads_back(v as i64);
    let l = Value::Int(low as int);
    let h = Value::Int(high as int);
    if let Some(index) = columns[k].exact_values {
        if index.complete {
            let i = choose|i: int| 0 <= i < index.values@.len() && (#[trigger] index.values@[i])@ == decimal(v);
            assert(index.texts()[i] == decimal(v));
            assert(comparison_holds(candidate_placement(index, i, l)->0, Operator::GtEq));
            assert(comparison_holds(candidate_placement(index, i, h)->0, Operator::LtEq));
            assert(lies_between(index, i, l, h));
            if between_in_index(index, l, h) == Some(false) {
                assert(all_readable(index, l));
                assert(readable_before(index, i, l));
            }
        }
    }
}

/// A range test leaves out a file whose complete index lists no number between
/// its ends; and where there is no such index, one whose column ranges over
/// none.
pub proof fn file_without_a_number_between_is_left_out(
    columns: Seq<Column>,
    k: int,
    between: Between,
    low: i64,
    high: i64,
    numbers: Seq<i64>,
)
    requires
        0 <= k < columns.len(),
        forall|j: int| 0 <= j < k ==> (#[trigger] columns[j]).name@ != columns[k].name@,
        !between.negated,
        *between.expr matches Expr::Column(col) && col.name@ == columns[k].name@,
        *between.low == Expr::Literal(ScalarValue::Int64(Some(low)), None),
        *between.high == Expr::Literal(ScalarValue::Int64(Some(high)), None),
        columns[k].stats matches Some(TypedStatistics::Int(s)) && match columns[k].exact_values {
            Some(index) => {
                &&& index.complete
                &&& index.values@.len() == numbers.len()
                &&& forall|i: int|
                    0 <= i < numbers.len() ==> (#[trigger] index.values@[i])@ == decimal(numbers[i] as int)
                &&& forall|i: int| 0 <= i < numbers.len() ==> !(low <= #[trigger] numbers[i] <= high)
            },
            None => high < s.min || s.max < low,
        },
    ensures
        ruled_out(columns, Expr::Between(between)),
{
    first_column_of_a_name_is_meant(columns, k);
    let l = Value::Int(low as int);
    let h = Value::Int(high as int);
    if let Some(index) = columns[k].exact_values {
        assert forall|i: int| 0 <= i < index.values@.len() implies (#[trigger] candidate_placement(index, i, l)) is Some
            && !lies_between(index, i, l, h) by {
            decimal_reads_back(numbers[i]);
            assert(index.texts()[i] == index.values@[i]@);
        }
        assert(all_readable(index, l));
        assert forall|i: int| 0 <= i < index.values@.len() implies !(#[trigger] lies_between(index, i, l, h)) by {
            assert(candidate_placement(index, i, l) is Some);
        }
        assert(between_in_index(index, l, h) == Some(false));
    }
}

/// A range test whose ends are crossed leaves out a file with a complete index
/// and a range of their type: no value lies between them.
pub proof fn crossed_range_test_leaves_out_an_indexed_file(
    columns: Seq<Column>,
    k: int,
    between: Between,
    low: i64,
    high: i64,
)
    requires
        0 <= k < columns.len(),
        forall|j: int| 0 <= j < k ==> (#[trigger] columns[j]).name@ != columns[k].name@,
        *between.expr matches Expr::Column(col) && col.name@ == columns[k].name@,
        !between.negated,
        *between.low == Expr::Literal(ScalarValue::Int64(Some(low)), None),
        *between.high == Expr::Literal(ScalarValue::Int64(Some(high)), None),
        low > high,
        columns[k].stats matches Some(TypedStatistics::Int(_)),
        columns[k].exact_values matches Some(index) && index.complete,
    ensures
        ruled_out(columns, Expr::Between(between)),
{
    first_column_of_a_name_is_meant(columns, k);
}

/// A range test keeps a file that may hold a text between its ends, both
/// included.
pub proof fn file_with_a_text_between_is_kept(
    columns: Seq<Column>,
    k: int,
    between: Between,
    low: String,
    high: String,
    v: Seq<char>,
)
    requires
        0 <= k < columns.len(),
        forall|j: int| 0 <= j < k ==> (#[trigger] columns[j]).name@ != columns[k].name@,
        *between.expr matches Expr::Column(col) && col.name@ == columns[k].name@,
        *between.low == Expr::Literal(ScalarValue::Utf8(Some(low)), None),
        *between.high == Expr::Literal(ScalarValue::Utf8(Some(high)), None),
        !text_before(v, low@),
        !text_before(high@, v),
        columns[k].stats matches Some(stats) ==> (stats matches TypedStatistics::String(s) && !text_before(v, s.min@)
            && !text_before(s.max@, v)),
        columns[k].exact_values matches Some(index) ==> index.complete ==> exists|i: int|
            0 <= i < index.values@.len() && (#[trigger] index.values@[i])@ == v,
    ensures
        !ruled_out(columns, Expr::Between(between)),
{
    first_column_of_a_name_is_meant(columns, k);
    let l = Value::Text(low@);
    let h = Value::Text(high@);
    text_before_is_total(v, low@);
    text_before_is_total(v, high@);
    text_before_is_total(low@, high@);
    text_before_is_irreflexive(v);
    text_before_is_irreflexive(low@);
    lemma_text_order(low@, v, high@);
    if let Some(TypedStatistics::String(s)) = columns[k].stats {
        text_before_is_total(s.min@, v);
        text_before_is_total(s.max@, v);
        text_before_is_total(s.min@, high@);
        text_before_is_total(s.max@, low@);
        text_before_is_irreflexive(s.min@);
        text_before_is_irreflexive(s.max@);
        text_before_is_irreflexive(high@);
        lemma_text_order(s.min@, v, high@);
        lemma_text_order(low@, v, s.max@);
    }
    if let Some(index) = columns[k].exact_values {
        if index.complete {
            let i = choose|i: int| 0 <= i < index.values@.len() && (#[trigger] index.values@[i])@ == v;
            assert(index.texts()[i] == v);
            assert(comparison_holds(candidate_placement(index, i, l)->0, Operator::GtEq));
            assert(comparison_holds(candidate_placement(index, i, h)->0, Operator::LtEq));
            assert(lies_between(index, i, l, h));
            assert(readable_before(index, i, l));
        }
    }
}

/// A range test keeps a file that may hold a double between its ends, both
/// included.
pub proof fn file_with_a_double_between_is_kept(
    columns: Seq<Column>,
    k: int,
    between: Between,
    low: FloatScalar,
    high: FloatScalar,
    v: FloatBits,
)
    requires
        0 <= k < columns.len(),
        forall|j: int| 0 <= j < k ==> (#[trigger] columns[j]).name@ != columns[k].name@,
        *between.expr matches Expr::Column(col) && col.name@ == columns[k].name@,
        *between.low == Expr::Literal(ScalarValue::Float64(Some(low)), None),
        *between.high == Expr::Literal(ScalarValue::Float64(Some(high)), None),
        !low.value.nan(),
        !high.value.nan(),
        !v.nan(),
        low.value.rank() <= v.rank() <= high.value.rank(),
        columns[k].stats matches Some(stats) ==> (stats matches TypedStatistics::Float(s) && !s.min.nan()
            && !s.max.nan() && s.min.rank() <= v.rank() <= s.max.rank()),
        columns[k].exact_values matches Some(index) ==> index.complete ==> exists|i: int|
            0 <= i < index.values@.len() && i < index.floats@.len() && (#[trigger] index.floats@[i] matches Some(c)
                && !c.nan() && c.rank() == v.rank()),
    ensures
        !ruled_out(columns, Expr::Between(between)),
{
    first_column_of_a_name_is_meant(columns, k);
    let l = Value::Float(low.value, low.text@);
    let h = Value::Float(high.value, high.text@);
    if let Some(index) = columns[k].exact_values {
        if index.complete {
            let i = choose|i: int|
                0 <= i < index.values@.len() && i < index.floats@.len() && (#[trigger] index.floats@[i] matches Some(c)
                    && !c.nan() && c.rank() == v.rank());
            assert(index.float_reading(i) == index.floats@[i]);
            assert(comparison_holds(candidate_placement(index, i, l)->0, Operator::GtEq));
            assert(comparison_holds(candidate_placement(index, i, h)->0, Operator::LtEq));
            assert(lies_between(index, i, l, h));
            if between_in_index(index, l, h) == Some(false) {
                assert(all_readable(index, l));
                assert(readable_before(index, i, l));
            }
        }
    }
}

/// Without an index of exact values, a range test decides as the conjunction of
/// its two comparisons.
pub proof fn range_tests_are_two_comparisons(columns: Seq<Column>, between: Between, low: BinaryExpr, high: BinaryExpr)
    requires
        !between.negated,
        *low.left == *between.expr,
        low.op == Operator::GtEq,
        *low.right == *between.low,
        *high.left == *between.expr,
        high.op == Operator::LtEq,
        *high.right == *between.high,
        forall|k: int| 0 <= k < columns.len() ==> (#[trigger] columns[k]).exact_values is None,
    ensures
        ruled_out(columns, Expr::Between(between)) <==> ruled_out(columns, Expr::BinaryExpr(low)) || ruled_out(
            columns,
            Expr::BinaryExpr(high),
        ),
{
    if let Some(name) = column_name(*between.expr) {
        lemma_found_column_has_no_index(columns, name);
    }
}

proof fn lemma_found_column_has_no_index(columns: Seq<Column>, name: Seq<char>)
    requires
        forall|k: int| 0 <= k < columns.len() ==> (#[trigger] columns[k]).exact_values is None,
    ensures
        find_column(columns, name) matches Some(col) ==> col.exact_values is None,
    decreases columns.len(),
{
    if columns.len() > 0 {
        assert(columns[0].exact_values is None);
        let rest = columns.skip(1);
        assert forall|k: int| 0 <= k < rest.len() implies (#[trigger] rest[k]).exact_values is None by {
            assert(rest[k] == columns[k + 1]);
        }
        lemma_found_column_has_no_index(rest, name);
    }
}

// ---------------------------------------------------------------------------
// Pattern tests
// ---------------------------------------------------------------------------

/// A pattern test keeps a file that may hold a matching text. The text and the
/// pattern are of ASCII, the pattern is read under the test's own escape
/// character, and the indexes list every part of up to three characters of the
/// text in lowercase.
pub proof fn file_with_a_matching_pattern_is_kept(
    columns: Seq<Column>,
    k: int,
    like: Like,
    pattern: Seq<char>,
    t: Seq<char>,
    s: Seq<char>,
)
    requires
        0 <= k < columns.len(),
        forall|j: int| 0 <= j < k ==> (#[trigger] columns[j]).name@ != columns[k].name@,
        *like.expr matches Expr::Column(col) && col.name@ == columns[k].name@,
        match *like.pattern {
            Expr::Literal(ScalarValue::Utf8(Some(text)), None) => pattern == text@,
            Expr::Literal(ScalarValue::LargeUtf8(Some(text)), None) => pattern == text@,
            Expr::Literal(ScalarValue::Utf8View(Some(text)), None) => pattern == text@,
            _ => false,
        },
        all_ascii(s),
        all_ascii(t),
        all_ascii(pattern),
        lowercase(t) == lowercase(s),
        matches_pattern(t, pattern, like.escape_char, false),
        columns[k].text_ngrams matches Some(index) ==> index.complete ==> forall|i: int, n: int|
            0 <= i && 1 <= n <= 3 && i + n <= s.len() ==> exists|g: int|
                0 <= g < index.grams@.len() && (#[trigger] index.grams@[g])@ == #[trigger] lowercase(s).subrange(
                    i,
                    i + n,
                ),
        columns[k].text_ngram_hashes matches Some(index) ==> index.complete ==> forall|i: int, n: int|
            0 <= i && 1 <= n <= 3 && i + n <= s.len() ==> index.hashes@.contains(
                text_hash(#[trigger] lowercase(s).subrange(i, i + n)),
            ),
    ensures
        !ruled_out(columns, Expr::Like(like)),
{
    first_column_of_a_name_is_meant(columns, k);
    let terms = index_terms(pattern, like.escape_char);
    let engine = Engine { convert: |v, d| None, same_letter: |a, b| false };
    lowercase_keeps_ascii_runs(engine, t, t, pattern, like.escape_char);
    assert forall|term: Seq<char>| terms.contains(term) implies exists|i: int|
        1 <= term.len() <= 3 && #[trigger] occurs_at(term, lowercase(s), i) by {
        terms_are_grams_where_runs_are_kept(t, t, pattern, like.escape_char, term);
        assert(occurs_in(term, lowercase(t)));
    }
    if let Some(index) = columns[k].text_ngrams {
        if index.complete && gram_missing(index, terms) {
            let term = choose|t: Seq<char>| #[trigger]
                terms.contains(t) && t.len() >= index.min_len && !index.texts().contains(t);
            let i = choose|i: int| 1 <= term.len() <= 3 && #[trigger] occurs_at(term, lowercase(s), i);
            assert(lowercase(s).len() == s.len());
            assert(lowercase(s).subrange(i, i + term.len()) == term);
            let g = choose|g: int| 0 <= g < index.grams@.len() && (#[trigger] index.grams@[g])@ == term;
            assert(index.texts()[g] == term);
        }
    }
    if let Some(index) = columns[k].text_ngram_hashes {
        if index.complete && gram_hash_missing(index, terms) {
            let term = choose|t: Seq<char>| #[trigger]
                terms.contains(t) && t.len() >= index.min_len && !index.hashes@.contains(text_hash(t));
            let i = choose|i: int| 1 <= term.len() <= 3 && #[trigger] occurs_at(term, lowercase(s), i);
            assert(lowercase(s).len() == s.len());
            assert(lowercase(s).subrange(i, i + term.len()) == term);
        }
    }
}

/// A pattern test leaves out a file whose complete text index lacks a part of
/// the text that the pattern asks for: three characters of a run between
/// wildcards, in lowercase, or the whole run where it is shorter.
pub proof fn file_that_lacks_a_part_of_the_pattern_is_left_out(
    columns: Seq<Column>,
    k: int,
    like: Like,
    pattern: Seq<char>,
    r: int,
    i: int,
    n: int,
)
    requires
        0 <= k < columns.len(),
        forall|j: int| 0 <= j < k ==> (#[trigger] columns[j]).name@ != columns[k].name@,
        !like.negated,
        *like.expr matches Expr::Column(col) && col.name@ == columns[k].name@,
        match *like.pattern {
            Expr::Literal(ScalarValue::Utf8(Some(text)), None) => pattern == text@,
            Expr::Literal(ScalarValue::LargeUtf8(Some(text)), None) => pattern == text@,
            Expr::Literal(ScalarValue::Utf8View(Some(text)), None) => pattern == text@,
            _ => false,
        },
        0 <= r < literal_runs(pattern, like.escape_char).len(),
        ({
            let run = lowercase(literal_runs(pattern, like.escape_char)[r]);
            let part = run.subrange(i, i + n);
            &&& run.len() > 0
            &&& n == 3 || n == run.len() && n < 3
            &&& 0 <= i
            &&& i + n <= run.len()
            &&& {
                ||| columns[k].text_ngrams matches Some(index) && index.complete && index.min_len <= n && forall|g: int|
                    0 <= g < index.grams@.len() ==> (#[trigger] index.grams@[g])@ != part
                ||| columns[k].text_ngram_hashes matches Some(index) && index.complete && index.min_len <= n
                    && !index.hashes@.contains(text_hash(part))
            }
        }),
    ensures
        ruled_out(columns, Expr::Like(like)),
{
    first_column_of_a_name_is_meant(columns, k);
    let runs = literal_runs(pattern, like.escape_char);
    let run = lowercase(runs[r]);
    let part = run.subrange(i, i + n);
    let terms = index_terms(pattern, like.escape_char);
    assert(lookup_grams(run)[i] =~= part);
    assert(lookup_grams(lowercase(runs[r])).contains(part));
    assert(terms.contains(part));
    if let Some(index) = columns[k].text_ngrams {
        if index.texts().contains(part) {
            let g = index.texts().index_of(part);
            assert(index.grams@[g]@ == part);
        } else if index.complete && index.min_len <= n {
            assert(gram_missing(index, terms));
        }
    }
    if let Some(index) = columns[k].text_ngram_hashes {
        if index.complete && index.min_len <= n && !index.hashes@.contains(text_hash(part)) {
            assert(gram_hash_missing(index, terms));
        }
    }
}

/// Whether case counts is of no matter to pruning: two pattern tests that differ
/// in that alone decide alike.
pub proof fn case_does_not_decide(columns: Seq<Column>, a: Like, b: Like)
    requires
        a.negated == b.negated,
        *a.expr == *b.expr,
        *a.pattern == *b.pattern,
        a.escape_char == b.escape_char,
    ensures
        ruled_out(columns, Expr::Like(a)) == ruled_out(columns, Expr::Like(b)),
{
}

/// The column that a comparison is about is the first that has the name of its
/// left side, itself or under conversions; other filters are about none.
pub proof fn comparison_is_about_its_column(columns: Seq<Column>, k: int, binary: BinaryExpr, inner: BinaryExpr)
    requires
        0 <= k < columns.len(),
        forall|j: int| 0 <= j < k ==> (#[trigger] columns[j]).name@ != columns[k].name@,
    ensures
        (*binary.left matches Expr::Column(col) && col.name@ == columns[k].name@) ==> matching_column(
            columns,
            Expr::BinaryExpr(binary),
        ) == Some(columns[k]),
        match *binary.left {
            Expr::Cast(cast) => *cast.expr == *inner.left,
            Expr::TryCast(cast) => *cast.expr == *inner.left,
            _ => false,
        } ==> matching_column(columns, Expr::BinaryExpr(binary)) == matching_column(
            columns,
            Expr::BinaryExpr(inner),
        ),
        match *binary.left {
            Expr::Column(_) | Expr::Cast(_) | Expr::TryCast(_) => false,
            _ => true,
        } ==> matching_column(columns, Expr::BinaryExpr(binary)) is None,
{
    first_column_of_a_name_is_meant(columns, k);
}

/// A pattern test of anything but a column, or with anything but a text without
/// metadata as its pattern, rules nothing out.
pub proof fn other_pattern_tests_rule_nothing_out(columns: Seq<Column>, like: Like)
    requires
        !(*like.expr is Column) || match *like.pattern {
            Expr::Literal(ScalarValue::Utf8(Some(_)), None) => false,
            Expr::Literal(ScalarValue::LargeUtf8(Some(_)), None) => false,
            Expr::Literal(ScalarValue::Utf8View(Some(_)), None) => false,
            _ => true,
        },
    ensures
        !ruled_out(columns, Expr::Like(like)),
{
}

/// A range test one end of which is no literal decides as the comparison with
/// its other end.
pub proof fn open_range_test_is_one_comparison(columns: Seq<Column>, between: Between, low: BinaryExpr, high: BinaryExpr)
    requires
        !between.negated,
        *low.left == *between.expr,
        low.op == Operator::GtEq,
        *low.right == *between.low,
        *high.left == *between.expr,
        high.op == Operator::LtEq,
        *high.right == *between.high,
    ensures
        !(*between.low is Literal) ==> ruled_out(columns, Expr::Between(between)) == ruled_out(
            columns,
            Expr::BinaryExpr(high),
        ),
        !(*between.high is Literal) ==> ruled_out(columns, Expr::Between(between)) == ruled_out(
            columns,
            Expr::BinaryExpr(low),
        ),
{
}

} // verus!
