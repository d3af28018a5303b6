//! What pruning promises: a file that a filter rules out holds no row that
//! meets the filter.
use vstd::prelude::*;

use crate::catalog::array::{cell_reading, cell_text, Cell, NamedArray};
use crate::catalog::column::{merged_range, range_of, text_hash, Column, ExactValues, Range, TextNgramHashes, TextNgrams};
use crate::catalog::index::{
    column_appears, column_cells, column_text_cells, distinct, entry_names, exact_indexes_of,
    exactly_indexed, gram_set, hash_set, reading_in, text_indexed, text_indexes_of, value_set, ExactIndexData,
};
use crate::catalog::manifest::{entry_for, file_columns};
use crate::catalog::row_group::{
    all_chunks, chunk_range, chunk_ranges, own_chunks, sums_up, ColumnChunk, RowGroupMetaData,
};
use crate::expr::{Between, DataType, Expr, Like, Operator, ScalarValue};
use crate::float::FloatBits;
use crate::grams::{
    ends_escaped, grams, index_terms, literal_runs, lookup_grams, occurs_at, occurs_in, runs_from, MAX_GRAM,
};
use crate::numeral::{bool_text, bool_text_reads_back, decimal, decimal_reads_back};
use crate::query::pruning::{
    all_readable, between_decision, between_in_index, candidate_placement, column_name,
    column_rules_out, comparison_ruled_out, exact_may_satisfy, find_column, gram_hash_missing,
    gram_missing, is_comparable, lies_between, like_parts, like_ruled_out, range_may_satisfy,
    readable_before, ruled_out, same_kind, some_value_satisfies, terms_ruled_out,
};
use crate::query::value::{
    asks_equality, bool_placement, comparison_holds, float_placement, int_placement, literal_value,
    text_placement, Placement, Value,
};
use crate::text::{
    all_ascii, ascii_lower, is_ascii, lowercase, text_at_most, text_before, text_before_is_asymmetric,
    text_before_is_irreflexive, text_before_is_total, text_before_is_transitive,
};

verus! {

// ---------------------------------------------------------------------------
// Rows and filters
// ---------------------------------------------------------------------------

/// A row: the value of each column that has one.
pub type Row = Map<Seq<char>, Value>;

/// What the engine that evaluates filters makes of what the catalog does not
/// look at.
pub struct Engine {
    /// What a value becomes by conversion to a type; none where it becomes null.
    pub convert: spec_fn(Value, DataType) -> Option<Value>,
    /// Whether two characters count as one letter where case does not count.
    pub same_letter: spec_fn(char, char) -> bool,
}

/// Whether two values are of one kind.
pub open spec fn of_one_kind(a: Value, b: Value) -> bool {
    match (a, b) {
        (Value::Bool(_), Value::Bool(_)) => true,
        (Value::Int(_), Value::Int(_)) => true,
        (Value::Float(..), Value::Float(..)) => true,
        (Value::Text(_), Value::Text(_)) => true,
        _ => false,
    }
}

/// Whether a value is below another of its kind: `false` is below `true`, and
/// texts go by the code points of their characters.
pub open spec fn lower_value(a: Value, b: Value) -> bool {
    match (a, b) {
        (Value::Bool(a), Value::Bool(b)) => !a && b,
        (Value::Int(a), Value::Int(b)) => a < b,
        (Value::Float(a, _), Value::Float(b, _)) => a.rank() < b.rank(),
        (Value::Text(a), Value::Text(b)) => text_before(a, b),
        _ => false,
    }
}

/// Whether a value equals another of its kind.
pub open spec fn equal_values(a: Value, b: Value) -> bool {
    match (a, b) {
        (Value::Bool(a), Value::Bool(b)) => a == b,
        (Value::Int(a), Value::Int(b)) => a == b,
        (Value::Float(a, _), Value::Float(b, _)) => a.rank() == b.rank(),
        (Value::Text(a), Value::Text(b)) => a == b,
        _ => false,
    }
}

/// Whether engines agree on where a value stands as seen from another: of two
/// floats, neither is NaN, and they are not zeros of different signs.
pub open spec fn order_is_settled(v: Value, literal: Value) -> bool {
    match (v, literal) {
        (Value::Float(a, _), Value::Float(b, _)) => {
            &&& !a.nan()
            &&& !b.nan()
            &&& a.same_number(b) ==> a == b
        },
        _ => true,
    }
}

/// Whether a value can meet an operator against a literal. Comparisons of values
/// of different kinds, or whose order engines do not agree on, are left open,
/// and so is an operator that is no comparison.
pub open spec fn value_meets(v: Value, op: Operator, literal: Value) -> bool {
    of_one_kind(v, literal) && order_is_settled(v, literal) ==> match op {
        Operator::Eq | Operator::IsNotDistinctFrom => equal_values(v, literal),
        Operator::Lt => lower_value(v, literal),
        Operator::LtEq => lower_value(v, literal) || equal_values(v, literal),
        Operator::Gt => lower_value(literal, v),
        Operator::GtEq => lower_value(literal, v) || equal_values(v, literal),
        _ => true,
    }
}

/// Whether the absence of a value can meet an operator.
pub open spec fn absence_meets(op: Operator) -> bool {
    match op {
        Operator::Eq | Operator::NotEq | Operator::Lt | Operator::LtEq | Operator::Gt | Operator::GtEq
        | Operator::IsNotDistinctFrom => false,
        _ => true,
    }
}

/// What a literal means: integers of each width stand for themselves, dates for
/// their days, and timestamps for their milliseconds.
pub open spec fn literal_meaning(expr: Expr) -> Option<Value> {
    match expr {
        Expr::Literal(ScalarValue::Boolean(Some(b)), None) => Some(Value::Bool(b)),
        Expr::Literal(ScalarValue::Float32(Some(f)), None) => Some(Value::Float(f.value, f.text@)),
        Expr::Literal(ScalarValue::Float64(Some(f)), None) => Some(Value::Float(f.value, f.text@)),
        Expr::Literal(ScalarValue::Int8(Some(n)), None) => Some(Value::Int(n as int)),
        Expr::Literal(ScalarValue::Int16(Some(n)), None) => Some(Value::Int(n as int)),
        Expr::Literal(ScalarValue::Int32(Some(n)), None) => Some(Value::Int(n as int)),
        Expr::Literal(ScalarValue::Int64(Some(n)), None) => Some(Value::Int(n as int)),
        Expr::Literal(ScalarValue::UInt8(Some(n)), None) => Some(Value::Int(n as int)),
        Expr::Literal(ScalarValue::UInt16(Some(n)), None) => Some(Value::Int(n as int)),
        Expr::Literal(ScalarValue::UInt32(Some(n)), None) => Some(Value::Int(n as int)),
        Expr::Literal(ScalarValue::UInt64(Some(n)), None) => Some(Value::Int(n as int)),
        Expr::Literal(ScalarValue::Utf8(Some(s)), None) => Some(Value::Text(s@)),
        Expr::Literal(ScalarValue::Date32(Some(n)), None) => Some(Value::Int(n as int)),
        Expr::Literal(ScalarValue::TimestampMillisecond(Some(n), _), None) => Some(Value::Int(n as int)),
        _ => None,
    }
}

/// The column that an expression reads, itself or under conversions.
pub open spec fn column_read(expr: Expr) -> Option<Seq<char>>
    decreases expr,
{
    match expr {
        Expr::Column(col) => Some(col.name@),
        Expr::Cast(cast) => column_read(*cast.expr),
        Expr::TryCast(cast) => column_read(*cast.expr),
        _ => None,
    }
}

/// The value of a column, itself or under conversions, in a row; none where it
/// is null.
pub open spec fn expr_value(row: Row, engine: Engine, expr: Expr) -> Option<Value>
    decreases expr,
{
    match expr {
        Expr::Column(col) => if row.contains_key(col.name@) {
            Some(row[col.name@])
        } else {
            None
        },
        Expr::Cast(cast) => match expr_value(row, engine, *cast.expr) {
            Some(v) => (engine.convert)(v, cast.data_type),
            None => None,
        },
        Expr::TryCast(cast) => match expr_value(row, engine, *cast.expr) {
            Some(v) => (engine.convert)(v, cast.data_type),
            None => None,
        },
        _ => None,
    }
}

/// Whether a row can meet a comparison.
pub open spec fn comparison_met(row: Row, engine: Engine, left: Expr, op: Operator, right: Expr) -> bool {
    match (column_read(left), literal_meaning(right)) {
        (Some(_), Some(literal)) => match expr_value(row, engine, left) {
            Some(v) => value_meets(v, op, literal),
            None => absence_meets(op),
        },
        _ => true,
    }
}

/// Whether a text matches what is left of a pattern: `%` stands for any
/// characters, `_` for one, and a character behind the escape character for
/// itself.
pub open spec fn matches_pattern(
    s: Seq<char>,
    pattern: Seq<char>,
    escape_char: Option<char>,
    escaped: bool,
) -> bool
    decreases pattern.len(),
{
    if pattern.len() == 0 {
        s.len() == 0
    } else {
        let c = pattern[0];
        let rest = pattern.skip(1);
        if escape_char == Some(c) && !escaped {
            matches_pattern(s, rest, escape_char, true)
        } else if !escaped && c == '%' {
            exists|k: int| 0 <= k <= s.len() && matches_pattern(#[trigger] s.skip(k), rest, escape_char, false)
        } else if !escaped && c == '_' {
            s.len() > 0 && matches_pattern(s.skip(1), rest, escape_char, false)
        } else {
            s.len() > 0 && s[0] == c && matches_pattern(s.skip(1), rest, escape_char, false)
        }
    }
}

/// Whether engines agree on the escapes of a pattern: one may take a backslash
/// as an escape character where none is given, and an escape character that
/// nothing follows as itself.
pub open spec fn escapes_are_settled(pattern: Seq<char>, escape_char: Option<char>) -> bool {
    &&& escape_char is None ==> !pattern.contains('\\')
    &&& !ends_escaped(pattern, escape_char, false)
}

/// Whether two texts are the same but for the case of their letters.
pub open spec fn same_but_for_case(engine: Engine, a: Seq<char>, b: Seq<char>) -> bool {
    &&& a.len() == b.len()
    &&& forall|i: int| 0 <= i < a.len() ==> (engine.same_letter)(#[trigger] a[i], b[i])
}

/// Whether a text can meet a pattern test. Where case does not count, it is
/// enough that a text matches which is the same but for case. Patterns whose
/// escapes engines do not agree on are left open.
pub open spec fn text_meets(
    engine: Engine,
    s: Seq<char>,
    pattern: Seq<char>,
    escape_char: Option<char>,
    case_insensitive: bool,
) -> bool {
    escapes_are_settled(pattern, escape_char) ==> if case_insensitive {
        exists|t: Seq<char>| #[trigger]
            same_but_for_case(engine, t, s) && matches_pattern(t, pattern, escape_char, false)
    } else {
        matches_pattern(s, pattern, escape_char, false)
    }
}

/// The text of a pattern that is a plain literal.
pub open spec fn pattern_text(pattern: Expr) -> Option<Seq<char>> {
    match pattern {
        Expr::Literal(ScalarValue::Utf8(Some(text)), None) => Some(text@),
        Expr::Literal(ScalarValue::LargeUtf8(Some(text)), None) => Some(text@),
        Expr::Literal(ScalarValue::Utf8View(Some(text)), None) => Some(text@),
        _ => None,
    }
}

/// Whether a row can meet a pattern test. Negated tests, and tests of what is no
/// text or no column, are left open.
pub open spec fn like_met(row: Row, engine: Engine, like: Like) -> bool {
    like.negated || match (*like.expr, pattern_text(*like.pattern)) {
        (Expr::Column(col), Some(pattern)) => row.contains_key(col.name@) && match row[col.name@] {
            Value::Text(s) => text_meets(engine, s, pattern, like.escape_char, like.case_insensitive),
            _ => true,
        },
        _ => true,
    }
}

/// Whether a row can meet a filter. What a filter asks in forms that the
/// catalog does not read is left open: any row can meet it.
pub open spec fn meets(row: Row, engine: Engine, filter: Expr) -> bool
    decreases filter,
{
    match filter {
        Expr::BinaryExpr(binary) => if binary.op == Operator::And {
            meets(row, engine, *binary.left) && meets(row, engine, *binary.right)
        } else if binary.op == Operator::Or {
            meets(row, engine, *binary.left) || meets(row, engine, *binary.right)
        } else {
            comparison_met(row, engine, *binary.left, binary.op, *binary.right)
        },
        Expr::Between(between) => between.negated || {
            &&& comparison_met(row, engine, *between.expr, Operator::GtEq, *between.low)
            &&& comparison_met(row, engine, *between.expr, Operator::LtEq, *between.high)
        },
        Expr::Like(like) => like_met(row, engine, like),
        _ => true,
    }
}

// ---------------------------------------------------------------------------
// Files
// ---------------------------------------------------------------------------

/// Whether a value lies in a range of its kind. What is no number lies in any
/// range of numbers.
pub open spec fn in_range(v: Value, range: Range) -> bool {
    match (v, range) {
        (Value::Bool(v), Range::Bool(min, max)) => (min ==> v) && (v ==> max),
        (Value::Int(v), Range::Int(min, max)) => min <= v <= max,
        (Value::Float(v, _), Range::Float(min, max)) => v.nan() || min.at_most(v) && v.at_most(max),
        (Value::Text(v), Range::String(min, max)) => text_at_most(min, v) && text_at_most(v, max),
        _ => false,
    }
}

/// The text that a value is written as.
pub open spec fn written(v: Value) -> Seq<char> {
    match v {
        Value::Bool(b) => bool_text(b),
        Value::Int(n) => decimal(n),
        Value::Float(_, text) => text,
        Value::Text(text) => text,
    }
}

/// Whether a reading is that of the number.
pub open spec fn reading_agrees(reading: Option<FloatBits>, v: FloatBits) -> bool {
    reading matches Some(c) ==> c.same_number(v) || c.nan() && v.nan()
}

/// Whether an index of exact values has the value, and has it right.
pub open spec fn index_has(exact: ExactValues, v: Value) -> bool {
    exists|i: int| #[trigger] index_has_at(exact, i, v)
}

/// Whether an index of exact values has the value at a place, and has it right.
pub open spec fn index_has_at(exact: ExactValues, i: int, v: Value) -> bool {
    &&& 0 <= i < exact.values@.len()
    &&& exact.values@[i]@ == written(v)
    &&& v matches Value::Float(f, _) ==> i < exact.floats@.len() ==> reading_agrees(exact.floats@[i], f)
}

/// Whether a text index has every gram of a text that it would hold.
pub open spec fn index_has_grams(index: TextNgrams, s: Seq<char>) -> bool {
    forall|g: Seq<char>| #[trigger]
        grams(lowercase(s)).contains(g) && g.len() >= index.min_len ==> exists|i: int|
            0 <= i < index.grams@.len() && (#[trigger] index.grams@[i])@ == g
}

/// Whether an index of hashes has that of every gram of a text that it would
/// hold.
pub open spec fn index_has_gram_hashes(index: TextNgramHashes, s: Seq<char>) -> bool {
    forall|g: Seq<char>| #[trigger]
        grams(lowercase(s)).contains(g) && g.len() >= index.min_len ==> index.hashes@.contains(text_hash(g))
}

/// Whether what is known of a column is true of a value of it.
pub open spec fn describes_value(col: Column, v: Value) -> bool {
    &&& col.stats matches Some(stats) ==> in_range(v, stats@)
    &&& col.exact_values matches Some(exact) ==> exact.complete ==> index_has(exact, v)
    &&& col.exact_hashes matches Some(exact) ==> exact.complete ==> exact.hashes@.contains(text_hash(written(v)))
    &&& v matches Value::Text(s) ==> {
        &&& col.text_ngrams matches Some(index) ==> index.complete ==> index_has_grams(index, s)
        &&& col.text_ngram_hashes matches Some(index) ==> index.complete ==> index_has_gram_hashes(index, s)
    }
}

/// Whether what is known of a column is true where it has no value. Only a
/// column that has a value somewhere has a range, so a complete index of it is
/// not empty.
pub open spec fn describes_absence(col: Column) -> bool {
    col.exact_values matches Some(exact) ==> exact.complete ==> col.stats is Some ==> exact.values@.len() > 0
}

/// Whether what is known of a file's columns is true of a row of it.
pub open spec fn describes(columns: Seq<Column>, row: Row) -> bool {
    forall|name: Seq<char>|
        (#[trigger] find_column(columns, name)) matches Some(col) ==> if row.contains_key(name) {
            describes_value(col, row[name])
        } else {
            describes_absence(col)
        }
}

// ---------------------------------------------------------------------------
// Where the promise holds
// ---------------------------------------------------------------------------

/// Whether a value and a literal that are equal numbers are written alike.
pub open spec fn written_alike(v: Value, literal: Value) -> bool {
    match (v, literal) {
        (Value::Float(a, s), Value::Float(b, t)) => a.same_number(b) ==> s == t,
        _ => true,
    }
}

/// Whether the catalog compares a row's value with a literal as the engine does:
/// - conversions of the column keep the value;
/// - the literal is below the upper half of the unsigned 64-bit range;
/// - the order of the two is settled;
/// - where equality is asked for, the literal is of the value's kind, and written
///   as the value is where the two are equal numbers.
pub open spec fn comparison_is_exact(row: Row, engine: Engine, left: Expr, op: Operator, right: Expr) -> bool {
    match (column_read(left), literal_meaning(right)) {
        (Some(name), Some(literal)) => row.contains_key(name) ==> {
            &&& expr_value(row, engine, left) == Some(row[name])
            &&& right matches Expr::Literal(ScalarValue::UInt64(Some(n)), None) ==> n <= i64::MAX
            &&& order_is_settled(row[name], literal)
            &&& asks_equality(op) ==> of_one_kind(row[name], literal) && written_alike(row[name], literal)
        },
        _ => true,
    }
}

/// Whether all comparisons of a filter are exact.
pub open spec fn comparisons_are_exact(row: Row, engine: Engine, filter: Expr) -> bool
    decreases filter,
{
    match filter {
        Expr::BinaryExpr(binary) => if binary.op == Operator::And || binary.op == Operator::Or {
            comparisons_are_exact(row, engine, *binary.left) && comparisons_are_exact(row, engine, *binary.right)
        } else {
            comparison_is_exact(row, engine, *binary.left, binary.op, *binary.right)
        },
        Expr::Between(between) => {
            &&& comparison_is_exact(row, engine, *between.expr, Operator::GtEq, *between.low)
            &&& comparison_is_exact(row, engine, *between.expr, Operator::LtEq, *between.high)
        },
        _ => true,
    }
}

/// Whether the lowercase form of each literal run of a pattern that stands in
/// `t` stands in the lowercase form of `s`. A capital sigma is where it may not,
/// even where the two texts are one: its lowercase form is another at the end of
/// a word.
pub open spec fn lowercase_keeps_runs(
    t: Seq<char>,
    s: Seq<char>,
    pattern: Seq<char>,
    escape_char: Option<char>,
) -> bool {
    let runs = literal_runs(pattern, escape_char);
    forall|k: int|
        0 <= k < runs.len() && occurs_in(#[trigger] runs[k], t) ==> occurs_in(lowercase(runs[k]), lowercase(s))
}

/// Whether a pattern test is on a text, its escapes are settled, and lowercase
/// keeps the runs of the pattern in the text. Where case does not count, that
/// goes for the texts that match and are the same but for case.
pub open spec fn pattern_is_regular(row: Row, engine: Engine, like: Like) -> bool {
    !like.negated ==> match (*like.expr, pattern_text(*like.pattern)) {
        (Expr::Column(col), Some(pattern)) => row.contains_key(col.name@) ==> {
            &&& row[col.name@] matches Value::Text(s)
            &&& escapes_are_settled(pattern, like.escape_char)
            &&& if like.case_insensitive {
                forall|t: Seq<char>| #[trigger]
                    same_but_for_case(engine, t, s) && matches_pattern(t, pattern, like.escape_char, false)
                        ==> lowercase_keeps_runs(t, s, pattern, like.escape_char)
            } else {
                lowercase_keeps_runs(s, s, pattern, like.escape_char)
            }
        },
        _ => true,
    }
}

/// Whether all patterns of a filter are regular.
pub open spec fn patterns_are_regular(row: Row, engine: Engine, filter: Expr) -> bool
    decreases filter,
{
    match filter {
        Expr::BinaryExpr(binary) => binary.op == Operator::And || binary.op == Operator::Or ==> {
            &&& patterns_are_regular(row, engine, *binary.left)
            &&& patterns_are_regular(row, engine, *binary.right)
        },
        Expr::Like(like) => pattern_is_regular(row, engine, like),
        _ => true,
    }
}

// ---------------------------------------------------------------------------
// Proof
// ---------------------------------------------------------------------------

proof fn lemma_range_is_sound(v: Value, op: Operator, literal: Value, range: Range)
    requires
        in_range(v, range),
        order_is_settled(v, literal),
        range_may_satisfy(literal, op, range) == Some(false),
    ensures
        !value_meets(v, op, literal),
{
    match (v, literal, range) {
        (Value::Text(v), Value::Text(q), Range::String(min, max)) => {
            text_before_is_total(v, q);
            text_before_is_total(q, min);
            text_before_is_total(q, max);
            text_before_is_irreflexive(v);
            if text_before(q, min) && text_before(min, v) {
                text_before_is_transitive(q, min, v);
            }
            if text_before(max, q) && text_before(v, max) {
                text_before_is_transitive(v, max, q);
            }
            if text_before(q, max) {
                text_before_is_asymmetric(q, max);
            }
            if text_before(max, q) {
                text_before_is_asymmetric(max, q);
            }
            if text_before(q, min) {
                text_before_is_asymmetric(q, min);
            }
            if text_before(min, q) {
                text_before_is_asymmetric(min, q);
            }
            if text_before(v, q) {
                text_before_is_asymmetric(v, q);
                if text_before(min, v) {
                    text_before_is_transitive(min, v, q);
                    text_before_is_asymmetric(min, q);
                }
            }
            if text_before(q, v) {
                text_before_is_asymmetric(q, v);
                if text_before(v, max) {
                    text_before_is_transitive(q, v, max);
                }
            }
        },
        _ => {},
    }
}

/// Where a value stands as seen from another of its kind.
pub open spec fn value_placement(a: Value, b: Value) -> Placement {
    match (a, b) {
        (Value::Bool(a), Value::Bool(b)) => bool_placement(a, b),
        (Value::Int(a), Value::Int(b)) => int_placement(a, b),
        (Value::Float(a, _), Value::Float(b, _)) => float_placement(a, b),
        (Value::Text(a), Value::Text(b)) => text_placement(a, b),
        _ => Placement::Unordered,
    }
}

proof fn lemma_placement_is_the_order(v: Value, op: Operator, literal: Value)
    requires
        of_one_kind(v, literal),
        order_is_settled(v, literal),
    ensures
        value_meets(v, op, literal) == comparison_holds(value_placement(v, literal), op),
{
    if let (Value::Text(a), Value::Text(b)) = (v, literal) {
        text_before_is_total(a, b);
        text_before_is_irreflexive(a);
        if text_before(a, b) {
            text_before_is_asymmetric(a, b);
        }
    }
}

proof fn lemma_column_read_is_named(expr: Expr)
    ensures
        column_read(expr) == column_name(expr),
    decreases expr,
{
    match expr {
        Expr::Cast(cast) => {
            lemma_column_read_is_named(*cast.expr);
        },
        Expr::TryCast(cast) => {
            lemma_column_read_is_named(*cast.expr);
        },
        _ => {},
    }
}

/// The value of a row stands in the index as itself.
proof fn lemma_indexed_value_reads_back(exact: ExactValues, i: int, v: Value, range: Range, query: Value)
    requires
        index_has_at(exact, i, v),
        in_range(v, range),
        v matches Value::Int(n) ==> i64::MIN <= n <= i64::MAX,
        same_kind(query, range),
        is_comparable(query),
    ensures
        of_one_kind(v, query),
        candidate_placement(exact, i, query) is Some ==> candidate_placement(exact, i, query)
            == Some(value_placement(v, query)),
{
    match v {
        Value::Int(n) => {
            decimal_reads_back(n as i64);
        },
        Value::Bool(b) => {
            bool_text_reads_back(b);
        },
        _ => {},
    }
}

proof fn lemma_column_is_sound(col: Column, v: Value, op: Operator, literal: Value)
    requires
        describes_value(col, v),
        order_is_settled(v, literal),
        asks_equality(op) ==> of_one_kind(v, literal) && written_alike(v, literal),
        column_rules_out(col, op, literal),
    ensures
        !value_meets(v, op, literal),
{
    if asks_equality(op) && value_meets(v, op, literal) {
        lemma_equal_values_have_one_key(v, op, literal);
    }
    if let Some(stats) = col.stats {
        if range_may_satisfy(literal, op, stats@) == Some(false) {
            lemma_range_is_sound(v, op, literal, stats@);
        }
        if let Some(exact) = col.exact_values {
            if exact.complete {
                let i = choose|i: int| #[trigger] index_has_at(exact, i, v);
                assert(index_has_at(exact, i, v));
                assert(exact.texts()[i] == v.key());
                if exact_may_satisfy(exact, literal, op, range_of(col.stats)) == Some(false) {
                    lemma_indexed_value_reads_back(exact, i, v, stats@, literal);
                    lemma_placement_is_the_order(v, op, literal);
                    assert(candidate_placement(exact, i, literal) is Some);
                    assert(!some_value_satisfies(exact, literal, op));
                }
            }
        }
    } else if let Some(exact) = col.exact_values {
        if exact.complete {
            let i = choose|i: int| #[trigger] index_has_at(exact, i, v);
            assert(index_has_at(exact, i, v));
            assert(exact.texts()[i] == v.key());
        }
    }
}

proof fn lemma_equal_values_have_one_key(v: Value, op: Operator, literal: Value)
    requires
        asks_equality(op),
        value_meets(v, op, literal),
        of_one_kind(v, literal),
        order_is_settled(v, literal),
        written_alike(v, literal),
    ensures
        v.key() == literal.key(),
{
}

proof fn lemma_absence_is_sound(col: Column, op: Operator, literal: Value)
    requires
        describes_absence(col),
        absence_meets(op),
    ensures
        !column_rules_out(col, op, literal),
{
    if let Some(exact) = col.exact_values {
        if exact.complete && exact_may_satisfy(exact, literal, op, range_of(col.stats)) == Some(false) {
            assert(exact.values@.len() > 0);
            assert(comparison_holds(candidate_placement(exact, 0, literal)->0, op));
            assert(some_value_satisfies(exact, literal, op));
        }
    }
}

/// A column that a row has no value of has none under conversions.
proof fn lemma_absent_value(row: Row, engine: Engine, expr: Expr)
    requires
        column_name(expr) matches Some(name) && !row.contains_key(name),
    ensures
        expr_value(row, engine, expr) is None,
    decreases expr,
{
    match expr {
        Expr::Cast(cast) => {
            lemma_absent_value(row, engine, *cast.expr);
        },
        Expr::TryCast(cast) => {
            lemma_absent_value(row, engine, *cast.expr);
        },
        _ => {},
    }
}

proof fn lemma_comparison_is_sound(
    columns: Seq<Column>,
    row: Row,
    engine: Engine,
    left: Expr,
    op: Operator,
    right: Expr,
)
    requires
        describes(columns, row),
        comparison_is_exact(row, engine, left, op, right),
        comparison_ruled_out(columns, left, op, right),
    ensures
        !comparison_met(row, engine, left, op, right),
{
    lemma_column_read_is_named(left);
    let name = column_name(left)->0;
    let literal = literal_value(right)->0;
    let col = find_column(columns, name)->0;
    if row.contains_key(name) {
        assert(literal_meaning(right) == Some(literal));
        lemma_column_is_sound(col, row[name], op, literal);
    } else {
        lemma_absent_value(row, engine, left);
        if absence_meets(op) {
            lemma_absence_is_sound(col, op, literal);
        }
    }
}

proof fn lemma_between_is_sound(columns: Seq<Column>, row: Row, engine: Engine, between: Between)
    requires
        describes(columns, row),
        comparison_is_exact(row, engine, *between.expr, Operator::GtEq, *between.low),
        comparison_is_exact(row, engine, *between.expr, Operator::LtEq, *between.high),
        between_decision(columns, between) == Some(true),
    ensures
        !(comparison_met(row, engine, *between.expr, Operator::GtEq, *between.low) && comparison_met(
            row,
            engine,
            *between.expr,
            Operator::LtEq,
            *between.high,
        )),
{
    lemma_column_read_is_named(*between.expr);
    let name = column_name(*between.expr)->0;
    let low = literal_value(*between.low)->0;
    let high = literal_value(*between.high)->0;
    let col = find_column(columns, name)->0;
    let exact = col.exact_values->0;
    if row.contains_key(name) {
        assert(literal_meaning(*between.low) == Some(low));
        assert(literal_meaning(*between.high) == Some(high));
        let v = row[name];
        let stats = col.stats->0;
        assert(describes_value(col, v));
        let i = choose|i: int| #[trigger] index_has_at(exact, i, v);
        assert(index_has_at(exact, i, v));
        lemma_indexed_value_reads_back(exact, i, v, stats@, low);
        lemma_indexed_value_reads_back(exact, i, v, stats@, high);
        if value_meets(v, Operator::GtEq, low) && value_meets(v, Operator::LtEq, high) {
            lemma_placement_is_the_order(v, Operator::GtEq, low);
            lemma_placement_is_the_order(v, Operator::LtEq, high);
            lemma_crossed_ends_hold_nothing(v, low, high);
            assert(between_in_index(exact, low, high) == Some(false));
            assert(all_readable(exact, low));
            assert(candidate_placement(exact, i, low) is Some);
            assert(candidate_placement(exact, i, high) is Some);
            assert(lies_between(exact, i, low, high));
            assert(readable_before(exact, i, low));
        }
    } else {
        lemma_absent_value(row, engine, *between.expr);
    }
}

proof fn lemma_crossed_ends_hold_nothing(v: Value, low: Value, high: Value)
    requires
        of_one_kind(v, low),
        of_one_kind(v, high),
        order_is_settled(v, low),
        order_is_settled(v, high),
        value_meets(v, Operator::GtEq, low),
        value_meets(v, Operator::LtEq, high),
    ensures
        crate::query::pruning::ends_placement(low, high) != Some(Placement::Above),
{
    match (v, low, high) {
        (Value::Text(v), Value::Text(l), Value::Text(h)) => {
            text_before_is_total(l, v);
            text_before_is_total(v, h);
            text_before_is_total(l, h);
            if text_before(l, v) && text_before(v, h) {
                text_before_is_transitive(l, v, h);
            }
        },
        _ => {},
    }
}

proof fn lemma_occurs_in_longer(part: Seq<char>, s: Seq<char>, front: Seq<char>)
    requires
        occurs_in(part, s),
    ensures
        occurs_in(part, front + s),
{
    let i = choose|i: int| occurs_at(part, s, i);
    let whole = front + s;
    assert(whole.subrange(front.len() + i, front.len() + i + part.len()) =~= part);
    assert(occurs_at(part, whole, front.len() + i));
}

/// The literal runs of a pattern stand in each text that matches it.
proof fn lemma_runs_occur(
    s: Seq<char>,
    pattern: Seq<char>,
    escape_char: Option<char>,
    run: Seq<char>,
    escaped: bool,
    k: int,
)
    requires
        matches_pattern(s, pattern, escape_char, escaped),
        0 <= k < runs_from(pattern, escape_char, run, escaped).len(),
    ensures
        occurs_in(runs_from(pattern, escape_char, run, escaped)[k], run + s),
    decreases pattern.len(),
{
    let runs = runs_from(pattern, escape_char, run, escaped);
    assert((run + s).subrange(0, run.len() as int) =~= run);
    assert(occurs_at(run, run + s, 0));
    if pattern.len() > 0 {
        let c = pattern[0];
        let rest = pattern.skip(1);
        if escape_char == Some(c) && !escaped {
            lemma_runs_occur(s, rest, escape_char, run, true, k);
        } else if !escaped && (c == '%' || c == '_') {
            if k > 0 {
                let n = if c == '%' {
                    choose|n: int|
                        0 <= n <= s.len() && matches_pattern(#[trigger] s.skip(n), rest, escape_char, false)
                } else {
                    1
                };
                let later = runs_from(rest, escape_char, Seq::empty(), false);
                lemma_runs_occur(s.skip(n), rest, escape_char, Seq::empty(), false, k - 1);
                assert(Seq::<char>::empty() + s.skip(n) =~= s.skip(n));
                lemma_occurs_in_longer(later[k - 1], s.skip(n), run + s.take(n));
                assert((run + s.take(n)) + s.skip(n) =~= run + s);
            }
        } else {
            lemma_runs_occur(s.skip(1), rest, escape_char, run.push(c), false, k);
            assert(run.push(c) + s.skip(1) =~= run + s);
        }
    }
}

/// The lookup grams of a text stand in it, and an index would hold them.
proof fn lemma_lookup_grams_are_grams(s: Seq<char>, t: Seq<char>)
    requires
        lookup_grams(s).contains(t),
    ensures
        1 <= t.len() <= MAX_GRAM,
        occurs_in(t, s),
{
    let i = choose|i: int| 0 <= i < lookup_grams(s).len() && lookup_grams(s)[i] == t;
    assert(occurs_at(t, s, i));
}

proof fn lemma_occurrence_is_transitive(a: Seq<char>, b: Seq<char>, c: Seq<char>)
    requires
        occurs_in(a, b),
        occurs_in(b, c),
    ensures
        occurs_in(a, c),
{
    let i = choose|i: int| occurs_at(a, b, i);
    let j = choose|j: int| occurs_at(b, c, j);
    assert(c.subrange(i + j, i + j + a.len()) =~= b.subrange(i, i + a.len()));
    assert(occurs_at(a, c, i + j));
}

/// The terms of a pattern are grams of each text in which lowercase keeps the
/// runs of a text that matches it.
pub proof fn terms_are_grams_where_runs_are_kept(
    t: Seq<char>,
    s: Seq<char>,
    pattern: Seq<char>,
    escape_char: Option<char>,
    term: Seq<char>,
)
    requires
        matches_pattern(t, pattern, escape_char, false),
        lowercase_keeps_runs(t, s, pattern, escape_char),
        index_terms(pattern, escape_char).contains(term),
    ensures
        grams(lowercase(s)).contains(term),
{
    let runs = literal_runs(pattern, escape_char);
    let k = choose|k: int|
        0 <= k < runs.len() && lookup_grams(lowercase(#[trigger] runs[k])).contains(term);
    lemma_runs_occur(t, pattern, escape_char, Seq::empty(), false, k);
    assert(Seq::<char>::empty() + t =~= t);
    assert(occurs_in(runs[k], t));
    lemma_lookup_grams_are_grams(lowercase(runs[k]), term);
    lemma_occurrence_is_transitive(term, lowercase(runs[k]), lowercase(s));
}

proof fn lemma_like_is_sound(columns: Seq<Column>, row: Row, engine: Engine, like: Like)
    requires
        describes(columns, row),
        pattern_is_regular(row, engine, like),
        like_ruled_out(columns, like),
    ensures
        !like_met(row, engine, like),
{
    if like_met(row, engine, like) {
        let (name, pattern, escape_char) = like_parts(like)->0;
        let col = find_column(columns, name)->0;
        let s = row[name]->Text_0;
        let terms = index_terms(pattern, escape_char);
        assert(describes_value(col, row[name]));
        let matching = if like.case_insensitive {
            choose|t: Seq<char>| #[trigger]
                same_but_for_case(engine, t, s) && matches_pattern(t, pattern, escape_char, false)
        } else {
            s
        };
        assert(lowercase_keeps_runs(matching, s, pattern, escape_char));
        assert forall|t: Seq<char>| terms.contains(t) implies grams(lowercase(s)).contains(t) by {
            terms_are_grams_where_runs_are_kept(matching, s, pattern, escape_char, t);
        }
        assert(terms_ruled_out(col, terms));
        if let Some(index) = col.text_ngrams {
            if index.complete && gram_missing(index, terms) {
                let t = choose|t: Seq<char>| #[trigger]
                    terms.contains(t) && t.len() >= index.min_len && !index.texts().contains(t);
                assert(grams(lowercase(s)).contains(t));
                let i = choose|i: int| 0 <= i < index.grams@.len() && (#[trigger] index.grams@[i])@ == t;
                assert(index.texts()[i] == t);
            }
        }
        if let Some(index) = col.text_ngram_hashes {
            if index.complete && gram_hash_missing(index, terms) {
                let t = choose|t: Seq<char>| #[trigger]
                    terms.contains(t) && t.len() >= index.min_len && !index.hashes@.contains(text_hash(t));
                assert(grams(lowercase(s)).contains(t));
            }
        }
    }
}

/// A file that a filter rules out holds no row that meets the filter.
pub proof fn pruning_is_sound(columns: Seq<Column>, row: Row, engine: Engine, filter: Expr)
    requires
        describes(columns, row),
        comparisons_are_exact(row, engine, filter),
        patterns_are_regular(row, engine, filter),
        ruled_out(columns, filter),
    ensures
        !meets(row, engine, filter),
    decreases filter,
{
    match filter {
        Expr::BinaryExpr(binary) => {
            if binary.op == Operator::And {
                if ruled_out(columns, *binary.left) {
                    pruning_is_sound(columns, row, engine, *binary.left);
                } else {
                    pruning_is_sound(columns, row, engine, *binary.right);
                }
            } else if binary.op == Operator::Or {
                pruning_is_sound(columns, row, engine, *binary.left);
                pruning_is_sound(columns, row, engine, *binary.right);
            } else {
                lemma_comparison_is_sound(columns, row, engine, *binary.left, binary.op, *binary.right);
            }
        },
        Expr::Between(between) => {
            if between_decision(columns, between) == Some(true) {
                lemma_between_is_sound(columns, row, engine, between);
            } else if comparison_ruled_out(columns, *between.expr, Operator::GtEq, *between.low) {
                lemma_comparison_is_sound(columns, row, engine, *between.expr, Operator::GtEq, *between.low);
            } else {
                lemma_comparison_is_sound(columns, row, engine, *between.expr, Operator::LtEq, *between.high);
            }
        },
        Expr::Like(like) => {
            lemma_like_is_sound(columns, row, engine, like);
        },
        _ => {},
    }
}

// ---------------------------------------------------------------------------
// Filters that the promise covers
// ---------------------------------------------------------------------------

/// Whether letters of ASCII that count as one differ in case alone.
pub open spec fn folds_ascii(engine: Engine) -> bool {
    forall|a: char, b: char|
        is_ascii(a) && is_ascii(b) && #[trigger] (engine.same_letter)(a, b) ==> ascii_lower(a) == ascii_lower(b)
}

proof fn lemma_runs_are_ascii(
    pattern: Seq<char>,
    escape_char: Option<char>,
    run: Seq<char>,
    escaped: bool,
    k: int,
)
    requires
        all_ascii(pattern),
        all_ascii(run),
        0 <= k < runs_from(pattern, escape_char, run, escaped).len(),
    ensures
        all_ascii(runs_from(pattern, escape_char, run, escaped)[k]),
    decreases pattern.len(),
{
    if pattern.len() > 0 {
        let c = pattern[0];
        let rest = pattern.skip(1);
        assert(all_ascii(rest)) by {
            assert forall|i: int| 0 <= i < rest.len() implies is_ascii(#[trigger] rest[i]) by {
                assert(rest[i] == pattern[i + 1]);
            }
        }
        if escape_char == Some(c) && !escaped {
            lemma_runs_are_ascii(rest, escape_char, run, true, k);
        } else if !escaped && (c == '%' || c == '_') {
            if k > 0 {
                lemma_runs_are_ascii(rest, escape_char, Seq::empty(), false, k - 1);
            }
        } else {
            lemma_runs_are_ascii(rest, escape_char, run.push(c), false, k);
        }
    }
}

/// Lowercase keeps the runs of a pattern of ASCII in a text of ASCII.
pub proof fn lowercase_keeps_ascii_runs(
    engine: Engine,
    t: Seq<char>,
    s: Seq<char>,
    pattern: Seq<char>,
    escape_char: Option<char>,
)
    requires
        all_ascii(s),
        all_ascii(pattern),
        t == s || folds_ascii(engine) && same_but_for_case(engine, t, s),
    ensures
        lowercase_keeps_runs(t, s, pattern, escape_char),
{
    let runs = literal_runs(pattern, escape_char);
    assert forall|k: int| 0 <= k < runs.len() && occurs_in(#[trigger] runs[k], t) implies occurs_in(
        lowercase(runs[k]),
        lowercase(s),
    ) by {
        let run = runs[k];
        lemma_runs_are_ascii(pattern, escape_char, Seq::empty(), false, k);
        let i = choose|i: int| occurs_at(run, t, i);
        let part = lowercase(s).subrange(i, i + run.len());
        assert forall|j: int| 0 <= j < run.len() implies part[j] == lowercase(run)[j] by {
            assert(run[j] == t.subrange(i, i + run.len())[j]);
            assert(run[j] == t[i + j]);
            assert(is_ascii(s[i + j]));
            assert(is_ascii(run[j]));
            if t != s {
                assert((engine.same_letter)(t[i + j], s[i + j]));
            }
        }
        assert(part =~= lowercase(run));
        assert(occurs_at(lowercase(run), lowercase(s), i));
    }
}

/// The terms of a pattern are grams of each text that meets it, where both are
/// of ASCII: a text that lacks one of them does not meet the pattern, whether
/// case counts or not.
pub proof fn terms_are_grams_of_what_meets_the_pattern(
    engine: Engine,
    s: Seq<char>,
    pattern: Seq<char>,
    escape_char: Option<char>,
    case_insensitive: bool,
    term: Seq<char>,
)
    requires
        all_ascii(s),
        all_ascii(pattern),
        folds_ascii(engine),
        escapes_are_settled(pattern, escape_char),
        text_meets(engine, s, pattern, escape_char, case_insensitive),
        index_terms(pattern, escape_char).contains(term),
    ensures
        grams(lowercase(s)).contains(term),
{
    let matching = if case_insensitive {
        choose|t: Seq<char>| #[trigger]
            same_but_for_case(engine, t, s) && matches_pattern(t, pattern, escape_char, false)
    } else {
        s
    };
    lowercase_keeps_ascii_runs(engine, matching, s, pattern, escape_char);
    terms_are_grams_where_runs_are_kept(matching, s, pattern, escape_char, term);
}

/// Whether a comparison is of a column, without conversions, with an integer, a
/// truth value or a text of the kind of the row's value.
pub open spec fn is_plain_comparison(row: Row, left: Expr, right: Expr) -> bool {
    &&& left matches Expr::Column(col)
    &&& right matches Expr::Literal(scalar, None)
    &&& match scalar {
        ScalarValue::Int64(Some(_)) | ScalarValue::Boolean(Some(_)) | ScalarValue::Utf8(Some(_)) => true,
        _ => false,
    }
    &&& row.contains_key(col.name@) ==> of_one_kind(row[col.name@], literal_meaning(right)->0)
}

/// Whether a pattern test is of a text of ASCII against a pattern of ASCII with
/// settled escapes.
pub open spec fn is_plain_pattern(row: Row, like: Like) -> bool {
    !like.negated ==> match (*like.expr, pattern_text(*like.pattern)) {
        (Expr::Column(col), Some(pattern)) => {
            &&& all_ascii(pattern)
            &&& escapes_are_settled(pattern, like.escape_char)
            &&& row.contains_key(col.name@) ==> (row[col.name@] matches Value::Text(s) && all_ascii(s))
        },
        _ => true,
    }
}

/// Whether all comparisons and pattern tests of a filter are plain.
pub open spec fn is_plain(row: Row, filter: Expr) -> bool
    decreases filter,
{
    match filter {
        Expr::BinaryExpr(binary) => if binary.op == Operator::And || binary.op == Operator::Or {
            is_plain(row, *binary.left) && is_plain(row, *binary.right)
        } else {
            is_plain_comparison(row, *binary.left, *binary.right)
        },
        Expr::Between(between) => {
            &&& is_plain_comparison(row, *between.expr, *between.low)
            &&& is_plain_comparison(row, *between.expr, *between.high)
        },
        Expr::Like(like) => is_plain_pattern(row, like),
        _ => true,
    }
}

proof fn lemma_plain_filters_are_exact(row: Row, engine: Engine, filter: Expr)
    requires
        is_plain(row, filter),
        folds_ascii(engine),
    ensures
        comparisons_are_exact(row, engine, filter),
        patterns_are_regular(row, engine, filter),
    decreases filter,
{
    match filter {
        Expr::BinaryExpr(binary) => {
            if binary.op == Operator::And || binary.op == Operator::Or {
                lemma_plain_filters_are_exact(row, engine, *binary.left);
                lemma_plain_filters_are_exact(row, engine, *binary.right);
            }
        },
        Expr::Like(like) => {
            if let (Expr::Column(col), Some(pattern)) = (*like.expr, pattern_text(*like.pattern)) {
                let escape_char = like.escape_char;
                if !like.negated && row.contains_key(col.name@) {
                    let s = row[col.name@]->Text_0;
                    lowercase_keeps_ascii_runs(engine, s, s, pattern, escape_char);
                    assert forall|t: Seq<char>| #[trigger]
                        same_but_for_case(engine, t, s) && matches_pattern(t, pattern, escape_char, false)
                        implies lowercase_keeps_runs(t, s, pattern, escape_char) by {
                        lowercase_keeps_ascii_runs(engine, t, s, pattern, escape_char);
                    }
                }
            }
        },
        _ => {},
    }
}

/// Pruning by a filter of plain comparisons and pattern tests loses no row that
/// meets the filter.
pub proof fn plain_filters_lose_no_row(columns: Seq<Column>, row: Row, engine: Engine, filter: Expr)
    requires
        describes(columns, row),
        is_plain(row, filter),
        folds_ascii(engine),
        ruled_out(columns, filter),
    ensures
        !meets(row, engine, filter),
{
    lemma_plain_filters_are_exact(row, engine, filter);
    pruning_is_sound(columns, row, engine, filter);
}

// ---------------------------------------------------------------------------
// Indexes
// ---------------------------------------------------------------------------

proof fn lemma_cell_is_indexed(cells: Seq<Cell>, i: int)
    requires
        0 <= i < cells.len(),
        cells[i] is Value,
    ensures
        value_set(cells).contains(cells[i]->Value_0),
        hash_set(cells).contains(text_hash(cells[i]->Value_0)),
        grams(lowercase(cells[i]->Value_0)).subset_of(gram_set(cells)),
    decreases cells.len(),
{
    if i < cells.len() - 1 {
        lemma_cell_is_indexed(cells.drop_last(), i);
    }
}

/// Whether no cell that is written as a value reads as another number.
pub open spec fn readings_agree(cells: Seq<Cell>, v: Value) -> bool {
    v matches Value::Float(f, text) ==> forall|i: int|
        0 <= i < cells.len() && cell_text(#[trigger] cells[i]) == Some(text) ==> reading_agrees(
            cell_reading(cells[i]),
            f,
        )
}

proof fn lemma_reading_is_that_of_a_cell(cells: Seq<Cell>, text: Seq<char>)
    requires
        value_set(cells).contains(text),
    ensures
        exists|i: int|
            0 <= i < cells.len() && cell_text(#[trigger] cells[i]) == Some(text) && cell_reading(cells[i])
                == reading_in(cells, text),
    decreases cells.len(),
{
    let shorter = cells.drop_last();
    if value_set(shorter).contains(text) {
        lemma_reading_is_that_of_a_cell(shorter, text);
        let i = choose|i: int|
            0 <= i < shorter.len() && cell_text(#[trigger] shorter[i]) == Some(text) && cell_reading(shorter[i])
                == reading_in(shorter, text);
        assert(cells[i] == shorter[i]);
    } else {
        let i = cells.len() - 1;
        assert(cell_text(cells[i]) == Some(text));
    }
}

/// An index of exact values that was built over a file has every value of its
/// column, by value or by hash.
pub proof fn exact_indexes_have_every_value(
    entries: Seq<(String, ExactIndexData)>,
    fields: Seq<Seq<char>>,
    arrays: Seq<NamedArray>,
    max_values: usize,
    max_hashes: usize,
    k: int,
    i: int,
    v: Value,
)
    requires
        exact_indexes_of(entries, fields, arrays, max_values, max_hashes),
        0 <= k < entries.len(),
        0 <= i < column_cells(arrays, entries[k].0@).len(),
        cell_text(column_cells(arrays, entries[k].0@)[i]) == Some(written(v)),
        readings_agree(column_cells(arrays, entries[k].0@), v),
    ensures
        entries[k].1.values matches Some(exact) ==> exact.complete && index_has(exact, v),
        entries[k].1.hashes matches Some(exact) ==> exact.complete && exact.hashes@.contains(text_hash(written(v))),
{
    let cells = column_cells(arrays, entries[k].0@);
    lemma_cell_is_indexed(cells, i);
    if let Some(exact) = entries[k].1.values {
        assert(exact.texts().to_set().contains(written(v)));
        let place = exact.texts().index_of(written(v));
        if let Value::Float(f, text) = v {
            lemma_reading_is_that_of_a_cell(cells, text);
            let j = choose|j: int|
                0 <= j < cells.len() && cell_text(#[trigger] cells[j]) == Some(text) && cell_reading(cells[j])
                    == reading_in(cells, text);
            assert(reading_agrees(cell_reading(cells[j]), f));
            assert(exact.float_reading(place) == exact.floats@[place]);
        }
        assert(index_has_at(exact, place, v));
    }
    if let Some(exact) = entries[k].1.hashes {
        assert(exact.hashes@.to_set().contains(text_hash(written(v))));
    }
}

/// A text index that was built over a file lacks no gram of a text of its
/// column.
pub proof fn text_indexes_have_every_gram(
    entries: Seq<(String, TextNgrams)>,
    fields: Seq<Seq<char>>,
    arrays: Seq<NamedArray>,
    max_terms: usize,
    k: int,
    i: int,
    s: Seq<char>,
)
    requires
        text_indexes_of(entries, fields, arrays, max_terms),
        0 <= k < entries.len(),
        0 <= i < column_text_cells(arrays, entries[k].0@).len(),
        cell_text(column_text_cells(arrays, entries[k].0@)[i]) == Some(s),
    ensures
        entries[k].1.complete,
        index_has_grams(entries[k].1, s),
{
    let cells = column_text_cells(arrays, entries[k].0@);
    lemma_cell_is_indexed(cells, i);
    let index = entries[k].1;
    assert forall|g: Seq<char>| #[trigger] grams(lowercase(s)).contains(g) && g.len() >= index.min_len implies exists|
        i: int,
    |
        0 <= i < index.grams@.len() && (#[trigger] index.grams@[i])@ == g by {
        assert(index.texts().to_set().contains(g));
        let place = index.texts().index_of(g);
        assert(index.grams@[place]@ == g);
    }
}

// ---------------------------------------------------------------------------
// Ranges
// ---------------------------------------------------------------------------

proof fn lemma_at_most_chains(a: Seq<char>, b: Seq<char>, c: Seq<char>)
    requires
        text_at_most(a, b),
        text_at_most(b, c),
    ensures
        text_at_most(a, c),
{
    if text_before(a, b) && text_before(b, c) {
        text_before_is_transitive(a, b, c);
    }
}

/// What lies in one of two ranges lies in the range that covers both.
pub proof fn cover_keeps_values(v: Value, a: Range, b: Range)
    requires
        in_range(v, a) || in_range(v, b),
    ensures
        a.cover(b) matches Some(both) ==> in_range(v, both),
{
    match (v, a, b) {
        (Value::Text(v), Range::String(a, b), Range::String(c, d)) => {
            text_before_is_total(a, c);
            text_before_is_total(b, d);
            if text_at_most(a, v) && text_at_most(c, a) {
                lemma_at_most_chains(c, a, v);
            }
            if text_at_most(c, v) && text_at_most(a, c) {
                lemma_at_most_chains(a, c, v);
            }
            if text_at_most(v, b) && text_at_most(b, d) {
                lemma_at_most_chains(v, b, d);
            }
            if text_at_most(v, d) && text_at_most(d, b) {
                lemma_at_most_chains(v, d, b);
            }
        },
        _ => {},
    }
}

/// The range over the parts of a column holds every value that lies in the
/// range of one of them.
pub proof fn merged_range_keeps_values(ranges: Seq<Option<Range>>, i: int, v: Value)
    requires
        0 <= i < ranges.len(),
        ranges[i] matches Some(range) && in_range(v, range),
    ensures
        merged_range(ranges) matches Some(range) ==> in_range(v, range),
    decreases ranges.len(),
{
    if ranges.len() > 1 {
        let shorter = ranges.drop_last();
        if i < shorter.len() {
            merged_range_keeps_values(shorter, i, v);
        }
        if let (Some(this), Some(other)) = (merged_range(shorter), ranges.last()) {
            cover_keeps_values(v, this, other);
        }
    }
}

// ---------------------------------------------------------------------------
// Entries
// ---------------------------------------------------------------------------

/// Whether a value of a column lies in the range of one of the column's chunks,
/// where the column has a range.
pub open spec fn is_in_a_chunk(chunks: Seq<ColumnChunk>, name: Seq<char>, v: Value) -> bool {
    let ranges = chunk_ranges(own_chunks(chunks, name));
    merged_range(ranges) is Some ==> exists|i: int|
        0 <= i < ranges.len() && (#[trigger] ranges[i] matches Some(range) && in_range(v, range))
}

/// Whether a value of a column is in a cell of the arrays, where they hold the
/// column, and no cell that is written alike reads as another number.
pub open spec fn is_in_a_cell(arrays: Seq<NamedArray>, name: Seq<char>, v: Value) -> bool {
    column_appears(arrays, name) ==> {
        &&& exists|i: int|
            0 <= i < column_cells(arrays, name).len() && cell_text(#[trigger] column_cells(arrays, name)[i])
                == Some(written(v))
        &&& readings_agree(column_cells(arrays, name), v)
        &&& v matches Value::Text(s) ==> exists|i: int|
            0 <= i < column_text_cells(arrays, name).len() && cell_text(
                #[trigger] column_text_cells(arrays, name)[i],
            ) == Some(s)
    }
}

/// Whether a row is one of a file, by its chunks and by the arrays of those
/// columns that were read for indexes: its values lie in them, and a column
/// with a range has a value in some row.
pub open spec fn is_row_of(row: Row, chunks: Seq<ColumnChunk>, arrays: Seq<NamedArray>) -> bool {
    &&& forall|name: Seq<char>| #[trigger]
        row.contains_key(name) ==> is_in_a_chunk(chunks, name, row[name]) && is_in_a_cell(
            arrays,
            name,
            row[name],
        )
    &&& forall|name: Seq<char>| #[trigger]
        column_appears(arrays, name) && chunk_range(own_chunks(chunks, name)) is Some ==> exists|i: int|
            0 <= i < column_cells(arrays, name).len() && #[trigger] column_cells(arrays, name)[i] is Value
}

proof fn lemma_found_column_is_listed(columns: Seq<Column>, name: Seq<char>)
    ensures
        find_column(columns, name) matches Some(col) ==> exists|k: int|
            0 <= k < columns.len() && #[trigger] columns[k] == col && col.name@ == name,
    decreases columns.len(),
{
    if columns.len() > 0 {
        if columns[0].name@ != name {
            let rest = columns.skip(1);
            lemma_found_column_is_listed(rest, name);
            if let Some(col) = find_column(rest, name) {
                let k = choose|k: int| 0 <= k < rest.len() && #[trigger] rest[k] == col && col.name@ == name;
                assert(columns[k + 1] == col);
            }
        } else {
            assert(columns[0] == find_column(columns, name)->0);
        }
    }
}

proof fn lemma_entry_is_listed<T>(entries: Seq<(String, T)>, name: Seq<char>)
    ensures
        entry_for(entries, name) matches Some(entry) ==> exists|k: int|
            0 <= k < entries.len() && (#[trigger] entries[k]).0@ == name && entries[k].1 == entry,
    decreases entries.len(),
{
    if entries.len() > 0 {
        if entries.last().0@ != name {
            lemma_entry_is_listed(entries.drop_last(), name);
            if let Some(entry) = entry_for(entries.drop_last(), name) {
                let shorter = entries.drop_last();
                let k = choose|k: int|
                    0 <= k < shorter.len() && (#[trigger] shorter[k]).0@ == name && shorter[k].1 == entry;
                assert(entries[k].0@ == name);
            }
        } else {
            assert(entries[entries.len() - 1].0@ == name);
        }
    }
}

proof fn lemma_indexed_column_appears(
    entries: Seq<Seq<char>>,
    fields: Seq<Seq<char>>,
    indexed: spec_fn(Seq<char>) -> bool,
    k: int,
)
    requires
        entries == distinct(fields).filter(indexed),
        0 <= k < entries.len(),
    ensures
        indexed(entries[k]),
{
    distinct(fields).filter_lemma(indexed);
}

/// What a file's entry says of the file's columns is true of every row of the
/// file: what its chunks say of ranges, and what was indexed of its cells.
pub proof fn entry_describes_its_rows(
    columns: Seq<Column>,
    row_groups: Seq<RowGroupMetaData>,
    exact: Seq<(String, ExactIndexData)>,
    text: Seq<(String, TextNgrams)>,
    fields: Seq<Seq<char>>,
    arrays: Seq<NamedArray>,
    max_values: usize,
    max_hashes: usize,
    text_fields: Seq<Seq<char>>,
    text_arrays: Seq<NamedArray>,
    max_terms: usize,
    row: Row,
)
    requires
        file_columns(columns, row_groups, exact, text),
        exact_indexes_of(exact, fields, arrays, max_values, max_hashes),
        text_indexes_of(text, text_fields, text_arrays, max_terms),
        is_row_of(row, all_chunks(row_groups), arrays),
        is_row_of(row, all_chunks(row_groups), text_arrays),
    ensures
        describes(columns, row),
{
    let chunks = all_chunks(row_groups);
    assert forall|name: Seq<char>|
        (#[trigger] find_column(columns, name)) matches Some(col) ==> if row.contains_key(name) {
            describes_value(col, row[name])
        } else {
            describes_absence(col)
        } by {
        if let Some(col) = find_column(columns, name) {
            lemma_found_column_is_listed(columns, name);
            let place = choose|k: int| 0 <= k < columns.len() && #[trigger] columns[k] == col && col.name@ == name;
            let ranges = chunk_ranges(own_chunks(chunks, name));
            assert(sums_up(columns[place], own_chunks(chunks, name)));
            assert(range_of(col.stats) == merged_range(ranges));
            lemma_entry_is_listed(exact, name);
            lemma_entry_is_listed(text, name);
            if let Some(data) = entry_for(exact, name) {
                let k = choose|k: int|
                    0 <= k < exact.len() && (#[trigger] exact[k]).0@ == name && exact[k].1 == data;
                assert(entry_names(exact)[k] == name);
                lemma_indexed_column_appears(
                    entry_names(exact),
                    fields,
                    |n: Seq<char>| exactly_indexed(arrays, n, max_values, max_hashes),
                    k,
                );
                assert(column_appears(arrays, name));
                if row.contains_key(name) {
                    let cells = column_cells(arrays, name);
                    let i = choose|i: int|
                        0 <= i < cells.len() && cell_text(#[trigger] cells[i]) == Some(written(row[name]));
                    exact_indexes_have_every_value(
                        exact,
                        fields,
                        arrays,
                        max_values,
                        max_hashes,
                        k,
                        i,
                        row[name],
                    );
                } else if data.values is Some && col.stats is Some {
                    let cells = column_cells(arrays, name);
                    let i = choose|i: int| 0 <= i < cells.len() && #[trigger] cells[i] is Value;
                    lemma_cell_is_indexed(cells, i);
                    let values = data.values->0;
                    assert(values.texts().to_set().contains(cells[i]->Value_0));
                }
            }
            if let Some(index) = entry_for(text, name) {
                let k = choose|k: int|
                    0 <= k < text.len() && (#[trigger] text[k]).0@ == name && text[k].1 == index;
                assert(entry_names(text)[k] == name);
                lemma_indexed_column_appears(
                    entry_names(text),
                    text_fields,
                    |n: Seq<char>| text_indexed(text_arrays, n, max_terms),
                    k,
                );
                assert(column_appears(text_arrays, name));
                if row.contains_key(name) {
                    if let Value::Text(s) = row[name] {
                        let cells = column_text_cells(text_arrays, name);
                        let i = choose|i: int| 0 <= i < cells.len() && cell_text(#[trigger] cells[i]) == Some(s);
                        text_indexes_have_every_gram(text, text_fields, text_arrays, max_terms, k, i, s);
                    }
                }
            }
            if row.contains_key(name) && col.stats is Some {
                let i = choose|i: int|
                    0 <= i < ranges.len() && (#[trigger] ranges[i] matches Some(range) && in_range(
                        row[name],
                        range,
                    ));
                merged_range_keeps_values(ranges, i, row[name]);
            }
        }
    }
}

} // verus!
