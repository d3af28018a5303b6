//! Pruning: which files a filter rules out by what the catalog knows of their
//! columns.
use vstd::prelude::*;
use vstd::string::StrSliceExecFns;

use crate::catalog::column::{
    range_of, text_hash, Column, ExactValues, Range, TextNgramHashes, TextNgrams, TypedStatistics,
};
use crate::catalog::manifest::ManifestFile;
use crate::expr::{Between, Expr, Like, Operator, ScalarValue};
use crate::float::FloatBits;
use crate::grams::{index_terms, like_literal_index_terms};
use crate::numeral::{bool_reading, i64_reading, parse_bool, parse_i64};
use crate::query::value::{
    asks_equality, bool_placement, compare_exact, comparison_holds, float_placement, int_placement,
    is_equality, literal_cast_or_none, literal_value, place_bool, place_float, place_int, place_str,
    text_placement, CastRes, Placement, Value,
};
use crate::text::{optional_text, str_same, texts};

verus! {

// ---------------------------------------------------------------------------
// Columns
// ---------------------------------------------------------------------------

/// The first column of a name.
pub open spec fn find_column(columns: Seq<Column>, name: Seq<char>) -> Option<Column>
    decreases columns.len(),
{
    if columns.len() == 0 {
        None
    } else if columns[0].name@ == name {
        Some(columns[0])
    } else {
        find_column(columns.skip(1), name)
    }
}

/// The first column of a name.
fn column_named<'a>(columns: &'a [Column], name: &str) -> (r: Option<&'a Column>)
    ensures
        match r {
            Some(c) => find_column(columns@, name@) == Some(*c),
            None => find_column(columns@, name@) is None,
        },
{
    let mut i: usize = 0;
    assert(columns@.skip(0) =~= columns@);
    while i < columns.len()
        invariant
            i <= columns@.len(),
            find_column(columns@, name@) == find_column(columns@.skip(i as int), name@),
        decreases columns@.len() - i,
    {
        let ghost rest = columns@.skip(i as int);
        if str_same(columns[i].name.as_str(), name) {
            assert(rest[0] == columns@[i as int]);
            return Some(&columns[i]);
        }
        assert(rest.skip(1) =~= columns@.skip(i + 1));
        i = i + 1;
    }
    None
}

/// The column that an expression stands for, itself or under conversions.
pub open spec fn column_name(expr: Expr) -> Option<Seq<char>>
    decreases expr,
{
    match expr {
        Expr::Column(col) => Some(col.name@),
        Expr::Cast(cast) => column_name(*cast.expr),
        Expr::TryCast(cast) => column_name(*cast.expr),
        _ => None,
    }
}

/// The column that an expression stands for, itself or under conversions.
pub fn filter_column_name(expr: &Expr) -> (r: Option<&str>)
    ensures
        optional_text(r) == column_name(*expr),
    decreases expr,
{
    match expr {
        Expr::Column(col) => Some(col.name.as_str()),
        Expr::Cast(cast) => filter_column_name(&cast.expr),
        Expr::TryCast(cast) => filter_column_name(&cast.expr),
        _ => None,
    }
}

// ---------------------------------------------------------------------------
// Ranges
// ---------------------------------------------------------------------------

/// Where a value stands as seen from both ends of a range of its kind.
pub open spec fn placed_in_range(value: Value, range: Range) -> Option<(Placement, Placement)> {
    match (value, range) {
        (Value::Bool(v), Range::Bool(min, max)) => Some((bool_placement(v, min), bool_placement(v, max))),
        (Value::Int(v), Range::Int(min, max)) => Some((int_placement(v, min), int_placement(v, max))),
        (Value::Float(v, _), Range::Float(min, max)) => Some(
            (float_placement(v, min), float_placement(v, max)),
        ),
        (Value::Text(v), Range::String(min, max)) => Some((text_placement(v, min), text_placement(v, max))),
        _ => None,
    }
}

/// Whether a range has room for a value that meets `op` against the query's
/// value, which stands at `ends` as seen from both ends of the range.
pub open spec fn ends_may_satisfy(ends: (Placement, Placement), op: Operator) -> Option<bool> {
    match op {
        Operator::Eq | Operator::IsNotDistinctFrom => Some(ends.0.ge() && ends.1.le()),
        Operator::Lt => Some(ends.0 == Placement::Above),
        Operator::LtEq => Some(ends.0.ge()),
        Operator::Gt => Some(ends.1 == Placement::Below),
        Operator::GtEq => Some(ends.1.le()),
        _ => None,
    }
}

/// Whether a range has room for a value that meets `op` against `value`;
/// unknown where the kinds differ or the operator is no comparison.
pub open spec fn range_may_satisfy(value: Value, op: Operator, range: Range) -> Option<bool> {
    match placed_in_range(value, range) {
        Some(ends) => ends_may_satisfy(ends, op),
        None => None,
    }
}

fn matches_ends(min: Placement, max: Placement, op: Operator) -> (r: Option<bool>)
    ensures
        r == ends_may_satisfy((min, max), op),
{
    match op {
        Operator::Eq | Operator::IsNotDistinctFrom => Some(min.at_least() && max.at_most()),
        Operator::Lt => Some(min == Placement::Above),
        Operator::LtEq => Some(min.at_least()),
        Operator::Gt => Some(max == Placement::Below),
        Operator::GtEq => Some(max.at_most()),
        _ => None,
    }
}

/// Whether a column of this range can hold a value that meets `op` against
/// `value`; unknown where the kinds differ or the operator is no comparison.
pub fn satisfy_constraints(value: CastRes<'_>, op: Operator, stats: &TypedStatistics) -> (r: Option<bool>)
    ensures
        r == range_may_satisfy(value@, op, stats@),
{
    match (value, stats) {
        (CastRes::Bool(val), TypedStatistics::Bool(stats)) => matches_ends(
            place_bool(val, stats.min),
            place_bool(val, stats.max),
            op,
        ),
        (CastRes::Int(val), TypedStatistics::Int(stats)) => matches_ends(
            place_int(val, stats.min),
            place_int(val, stats.max),
            op,
        ),
        (CastRes::Float(val), TypedStatistics::Float(stats)) => matches_ends(
            place_float(val.value, stats.min),
            place_float(val.value, stats.max),
            op,
        ),
        (CastRes::String(val), TypedStatistics::String(stats)) => matches_ends(
            place_str(val, stats.min.as_str()),
            place_str(val, stats.max.as_str()),
            op,
        ),
        _ => None,
    }
}

// ---------------------------------------------------------------------------
// Exact values
// ---------------------------------------------------------------------------

/// Where the value at a place of an index stands as seen from the query's
/// value; unknown where it does not read as a value of that kind.
pub open spec fn candidate_placement(exact: ExactValues, i: int, query: Value) -> Option<Placement> {
    match query {
        Value::Bool(q) => match bool_reading(exact.texts()[i]) {
            Some(c) => Some(bool_placement(c, q)),
            None => None,
        },
        Value::Int(q) => match i64_reading(exact.texts()[i]) {
            Some(c) => Some(int_placement(c as int, q)),
            None => None,
        },
        Value::Float(q, _) => match exact.float_reading(i) {
            Some(c) => if c.nan() {
                None
            } else {
                Some(float_placement(c, q))
            },
            None => None,
        },
        Value::Text(q) => Some(text_placement(exact.texts()[i], q)),
    }
}

/// Whether a value is a number or of another kind than numbers.
pub open spec fn is_comparable(value: Value) -> bool {
    match value {
        Value::Float(v, _) => !v.nan(),
        _ => true,
    }
}

/// Whether a value is of the kind of a range.
pub open spec fn same_kind(value: Value, range: Range) -> bool {
    match (value, range) {
        (Value::Bool(_), Range::Bool(..)) => true,
        (Value::Int(_), Range::Int(..)) => true,
        (Value::Float(..), Range::Float(..)) => true,
        (Value::Text(_), Range::String(..)) => true,
        _ => false,
    }
}

/// Whether all values of an index read as values of the query's kind.
pub open spec fn all_readable(exact: ExactValues, query: Value) -> bool {
    forall|i: int|
        0 <= i < exact.values@.len() ==> (#[trigger] candidate_placement(exact, i, query)) is Some
}

/// Whether some value of an index meets `op` against `query`.
pub open spec fn some_value_satisfies(exact: ExactValues, query: Value, op: Operator) -> bool {
    exists|i: int|
        0 <= i < exact.values@.len() && comparison_holds(
            (#[trigger] candidate_placement(exact, i, query))->0,
            op,
        )
}

/// Whether an index of exact values has one that meets `op` against `query`;
/// unknown where the kinds differ or a value does not read as one of that kind.
pub open spec fn exact_may_satisfy(
    exact: ExactValues,
    query: Value,
    op: Operator,
    range: Option<Range>,
) -> Option<bool> {
    match range {
        Some(range) => if same_kind(query, range) && is_comparable(query) && all_readable(exact, query) {
            Some(some_value_satisfies(exact, query, op))
        } else {
            None
        },
        None => None,
    }
}

fn place_candidate(exact: &ExactValues, i: usize, query: CastRes<'_>) -> (r: Option<Placement>)
    requires
        i < exact.values@.len(),
    ensures
        r == candidate_placement(*exact, i as int, query@),
{
    match query {
        CastRes::Bool(q) => match parse_bool(exact.values[i].as_str()) {
            Some(candidate) => Some(place_bool(candidate, q)),
            None => None,
        },
        CastRes::Int(q) => match parse_i64(exact.values[i].as_str()) {
            Some(candidate) => Some(place_int(candidate, q)),
            None => None,
        },
        CastRes::Float(q) => {
            let reading: Option<FloatBits> = if i < exact.floats.len() {
                exact.floats[i]
            } else {
                None
            };
            match reading {
                Some(candidate) => if candidate.is_nan() {
                    None
                } else {
                    Some(place_float(candidate, q.value))
                },
                None => None,
            }
        },
        CastRes::String(q) => Some(place_str(exact.values[i].as_str(), q)),
    }
}

/// Whether a value of the index meets `op` against `query`; unknown where one
/// does not read as a value of that kind.
pub fn exact_values_any_parse_match(exact: &ExactValues, query: CastRes<'_>, op: Operator) -> (r: Option<bool>)
    ensures
        r == (if all_readable(*exact, query@) {
            Some(some_value_satisfies(*exact, query@, op))
        } else {
            None
        }),
{
    let mut any_match = false;
    let mut i: usize = 0;
    while i < exact.values.len()
        invariant
            i <= exact.values@.len(),
            forall|j: int| 0 <= j < i ==> (#[trigger] candidate_placement(*exact, j, query@)) is Some,
            any_match <==> exists|j: int|
                0 <= j < i && comparison_holds((#[trigger] candidate_placement(*exact, j, query@))->0, op),
        decreases exact.values@.len() - i,
    {
        match place_candidate(exact, i, query) {
            Some(candidate) => {
                let matched = compare_exact(candidate, op);
                any_match = any_match || matched;
            },
            None => {
                assert(candidate_placement(*exact, i as int, query@) is None);
                return None;
            },
        }
        i = i + 1;
    }
    Some(any_match)
}

fn of_kind(value: CastRes<'_>, stats: &TypedStatistics) -> (r: bool)
    ensures
        r == (same_kind(value@, stats@) && is_comparable(value@)),
{
    match (value, stats) {
        (CastRes::Bool(_), TypedStatistics::Bool(_)) => true,
        (CastRes::Int(_), TypedStatistics::Int(_)) => true,
        (CastRes::Float(v), TypedStatistics::Float(_)) => !v.value.is_nan(),
        (CastRes::String(_), TypedStatistics::String(_)) => true,
        _ => false,
    }
}

/// Whether an index of exact values has one that meets `op` against `value`;
/// unknown where the kinds differ or a value does not read as one of that kind.
pub fn exact_values_may_satisfy(
    exact: &ExactValues,
    value: CastRes<'_>,
    op: Operator,
    stats: &Option<TypedStatistics>,
) -> (r: Option<bool>)
    ensures
        r == exact_may_satisfy(*exact, value@, op, range_of(*stats)),
{
    match stats {
        Some(stats) => if of_kind(value, stats) {
            exact_values_any_parse_match(exact, value, op)
        } else {
            None
        },
        None => None,
    }
}

/// Where the low end of a range test stands as seen from its high end.
pub open spec fn ends_placement(low: Value, high: Value) -> Option<Placement> {
    match (low, high) {
        (Value::Bool(l), Value::Bool(h)) => Some(bool_placement(l, h)),
        (Value::Int(l), Value::Int(h)) => Some(int_placement(l, h)),
        (Value::Float(l, _), Value::Float(h, _)) => Some(float_placement(l, h)),
        (Value::Text(l), Value::Text(h)) => Some(text_placement(l, h)),
        _ => None,
    }
}

/// Whether the value at a place of an index reads as one of the kind and lies
/// between the ends.
pub open spec fn lies_between(exact: ExactValues, i: int, low: Value, high: Value) -> bool {
    match (candidate_placement(exact, i, low), candidate_placement(exact, i, high)) {
        (Some(l), Some(h)) => l.ge() && h.le(),
        _ => false,
    }
}

/// Whether an index of exact values, read from the front, has one between the
/// ends; unknown where one that does not read as a value of the kind comes
/// before it.
pub open spec fn between_in_index(exact: ExactValues, low: Value, high: Value) -> Option<bool> {
    if exists|i: int|
        #![trigger lies_between(exact, i, low, high)]
        0 <= i < exact.values@.len() && lies_between(exact, i, low, high) && readable_before(exact, i, low) {
        Some(true)
    } else if all_readable(exact, low) {
        Some(false)
    } else {
        None
    }
}

/// Whether all values of an index before a place read as values of the kind.
pub open spec fn readable_before(exact: ExactValues, i: int, query: Value) -> bool {
    forall|j: int| 0 <= j < i ==> (#[trigger] candidate_placement(exact, j, query)) is Some
}

/// Whether an index of exact values has one between the ends; unknown where
/// the kinds differ, or where one that does not read as a value of the kind
/// comes before the first that lies between.
pub open spec fn exact_between_may_satisfy(
    exact: ExactValues,
    low: Value,
    high: Value,
    range: Option<Range>,
) -> Option<bool> {
    match range {
        Some(range) => if same_kind(low, range) && same_kind(high, range) && is_comparable(low)
            && is_comparable(high) {
            if ends_placement(low, high) == Some(Placement::Above) {
                Some(false)
            } else {
                between_in_index(exact, low, high)
            }
        } else {
            None
        },
        None => None,
    }
}

/// Whether a value of the index lies between the ends; unknown where one that
/// does not read as a value of the kind comes before the first that does.
pub fn exact_values_any_parse_between_match(exact: &ExactValues, low: CastRes<'_>, high: CastRes<'_>) -> (r:
    Option<bool>)
    requires
        ends_placement(low@, high@) is Some,
    ensures
        r == (if ends_placement(low@, high@) == Some(Placement::Above) {
            Some(false)
        } else {
            between_in_index(*exact, low@, high@)
        }),
{
    let crossed = match (low, high) {
        (CastRes::Bool(l), CastRes::Bool(h)) => place_bool(l, h) == Placement::Above,
        (CastRes::Int(l), CastRes::Int(h)) => place_int(l, h) == Placement::Above,
        (CastRes::Float(l), CastRes::Float(h)) => place_float(l.value, h.value) == Placement::Above,
        (CastRes::String(l), CastRes::String(h)) => place_str(l, h) == Placement::Above,
        _ => false,
    };
    if crossed {
        return Some(false);
    }
    let mut i: usize = 0;
    while i < exact.values.len()
        invariant
            i <= exact.values@.len(),
            ends_placement(low@, high@) is Some,
            ends_placement(low@, high@) != Some(Placement::Above),
            readable_before(*exact, i as int, low@),
            forall|j: int| 0 <= j < i ==> !(#[trigger] lies_between(*exact, j, low@, high@)),
        decreases exact.values@.len() - i,
    {
        match (place_candidate(exact, i, low), place_candidate(exact, i, high)) {
            (Some(from_low), Some(from_high)) => {
                if from_low.at_least() && from_high.at_most() {
                    assert(lies_between(*exact, i as int, low@, high@));
                    return Some(true);
                }
            },
            _ => {
                proof {
                    assert(candidate_placement(*exact, i as int, low@) is None);
                    assert forall|k: int|
                        0 <= k < exact.values@.len() && #[trigger] lies_between(*exact, k, low@, high@) implies !readable_before(
                        *exact,
                        k,
                        low@,
                    ) by {
                        assert(k > i);
                    }
                }
                return None;
            },
        }
        i = i + 1;
    }
    Some(false)
}

/// Whether an index of exact values has one between the ends; unknown where
/// the kinds differ, or where one that does not read as a value of the kind
/// comes before the first that lies between.
pub fn exact_values_between_may_satisfy(
    exact: &ExactValues,
    low: CastRes<'_>,
    high: CastRes<'_>,
    stats: &Option<TypedStatistics>,
) -> (r: Option<bool>)
    ensures
        r == exact_between_may_satisfy(*exact, low@, high@, range_of(*stats)),
{
    match stats {
        Some(stats) => if of_kind(low, stats) && of_kind(high, stats) {
            exact_values_any_parse_between_match(exact, low, high)
        } else {
            None
        },
        None => None,
    }
}

// ---------------------------------------------------------------------------
// Filters
// ---------------------------------------------------------------------------

/// Whether what is known of a column rules out that a value of it meets `op`
/// against `value`.
pub open spec fn column_rules_out(col: Column, op: Operator, value: Value) -> bool {
    ||| col.exact_values matches Some(exact) && exact.complete && {
        ||| asks_equality(op) && !exact.texts().contains(value.key())
        ||| exact_may_satisfy(exact, value, op, range_of(col.stats)) == Some(false)
    }
    ||| col.exact_hashes matches Some(exact) && exact.complete && asks_equality(op)
        && !exact.hashes@.contains(text_hash(value.key()))
    ||| col.stats matches Some(stats) && range_may_satisfy(value, op, stats@) == Some(false)
}

/// Whether what is known of the columns rules out a comparison.
pub open spec fn comparison_ruled_out(columns: Seq<Column>, left: Expr, op: Operator, right: Expr) -> bool {
    match (column_name(left), literal_value(right)) {
        (Some(name), Some(value)) => match find_column(columns, name) {
            Some(col) => column_rules_out(col, op, value),
            None => false,
        },
        _ => false,
    }
}

/// Whether an index of exact values settles a range test, and how.
pub open spec fn between_decision(columns: Seq<Column>, between: Between) -> Option<bool> {
    match (column_name(*between.expr), literal_value(*between.low), literal_value(*between.high)) {
        (Some(name), Some(low), Some(high)) => match find_column(columns, name) {
            Some(col) => match col.exact_values {
                Some(exact) => if exact.complete {
                    match exact_between_may_satisfy(exact, low, high, range_of(col.stats)) {
                        Some(any_match) => Some(!any_match),
                        None => None,
                    }
                } else {
                    None
                },
                None => None,
            },
            None => None,
        },
        _ => None,
    }
}

/// The column, the pattern and the escape character of a plain pattern test
/// on a column.
pub open spec fn like_parts(like: Like) -> Option<(Seq<char>, Seq<char>, Option<char>)> {
    if like.negated {
        None
    } else {
        match (*like.expr, *like.pattern) {
            (Expr::Column(col), Expr::Literal(ScalarValue::Utf8(Some(pattern)), None)) => Some(
                (col.name@, pattern@, like.escape_char),
            ),
            (Expr::Column(col), Expr::Literal(ScalarValue::LargeUtf8(Some(pattern)), None)) => Some(
                (col.name@, pattern@, like.escape_char),
            ),
            (Expr::Column(col), Expr::Literal(ScalarValue::Utf8View(Some(pattern)), None)) => Some(
                (col.name@, pattern@, like.escape_char),
            ),
            _ => None,
        }
    }
}

/// Whether an index of grams lacks one of the terms that it would hold.
pub open spec fn gram_missing(index: TextNgrams, terms: Set<Seq<char>>) -> bool {
    exists|t: Seq<char>| #[trigger]
        terms.contains(t) && t.len() >= index.min_len && !index.texts().contains(t)
}

/// Whether an index of gram hashes lacks that of a term that it would hold.
pub open spec fn gram_hash_missing(index: TextNgramHashes, terms: Set<Seq<char>>) -> bool {
    exists|t: Seq<char>| #[trigger]
        terms.contains(t) && t.len() >= index.min_len && !index.hashes@.contains(text_hash(t))
}

/// Whether a text index rules out that a text of the column holds all of the
/// terms.
pub open spec fn terms_ruled_out(col: Column, terms: Set<Seq<char>>) -> bool {
    ||| col.text_ngrams matches Some(index) && index.complete && gram_missing(index, terms)
    ||| col.text_ngram_hashes matches Some(index) && index.complete && gram_hash_missing(index, terms)
}

/// Whether what is known of the columns rules out a pattern test.
pub open spec fn like_ruled_out(columns: Seq<Column>, like: Like) -> bool {
    match like_parts(like) {
        Some((name, pattern, escape_char)) => match find_column(columns, name) {
            Some(col) => terms_ruled_out(col, index_terms(pattern, escape_char)),
            None => false,
        },
        None => false,
    }
}

/// Whether what is known of a file's columns rules out that a row of it meets
/// the filter.
pub open spec fn ruled_out(columns: Seq<Column>, filter: Expr) -> bool
    decreases filter,
{
    match filter {
        Expr::BinaryExpr(binary) => if binary.op == Operator::And {
            ruled_out(columns, *binary.left) || ruled_out(columns, *binary.right)
        } else if binary.op == Operator::Or {
            ruled_out(columns, *binary.left) && ruled_out(columns, *binary.right)
        } else {
            comparison_ruled_out(columns, *binary.left, binary.op, *binary.right)
        },
        Expr::Between(between) => !between.negated && match between_decision(columns, between) {
            Some(decided) => decided,
            None => {
                ||| comparison_ruled_out(columns, *between.expr, Operator::GtEq, *between.low)
                ||| comparison_ruled_out(columns, *between.expr, Operator::LtEq, *between.high)
            },
        },
        Expr::Like(like) => like_ruled_out(columns, like),
        _ => false,
    }
}

fn column_can_be_pruned(col: &Column, op: Operator, value: CastRes<'_>) -> (r: bool)
    ensures
        r == column_rules_out(*col, op, value@),
{
    if let Some(exact_values) = &col.exact_values {
        if exact_values.complete {
            if is_equality(op) {
                let key = value.exact_index_key();
                if !exact_values.contains(key.as_str()) {
                    return true;
                }
            }
            if let Some(any_match) = exact_values_may_satisfy(exact_values, value, op, &col.stats) {
                if !any_match {
                    return true;
                }
            }
        }
    }
    if let Some(exact_hashes) = &col.exact_hashes {
        if exact_hashes.complete && is_equality(op) {
            let key = value.exact_index_key();
            if !exact_hashes.contains_value(key.as_str()) {
                return true;
            }
        }
    }
    match &col.stats {
        Some(stats) => match satisfy_constraints(value, op, stats) {
            Some(satisfied) => !satisfied,
            None => false,
        },
        None => false,
    }
}

fn comparison_can_be_pruned(columns: &[Column], left: &Expr, op: Operator, right: &Expr) -> (r: bool)
    ensures
        r == comparison_ruled_out(columns@, *left, op, *right),
{
    match (filter_column_name(left), literal_cast_or_none(right)) {
        (Some(name), Some(value)) => match column_named(columns, name) {
            Some(col) => column_can_be_pruned(col, op, value),
            None => false,
        },
        _ => false,
    }
}

/// Whether an index of exact values settles a range test, and how.
pub fn can_prune_between(columns: &[Column], between: &Between) -> (r: Option<bool>)
    ensures
        r == between_decision(columns@, *between),
{
    let name = filter_column_name(&between.expr)?;
    let low = literal_cast_or_none(&between.low);
    let high = literal_cast_or_none(&between.high);
    match (column_named(columns, name), low, high) {
        (Some(col), Some(low), Some(high)) => match &col.exact_values {
            Some(exact_values) => if exact_values.complete {
                match exact_values_between_may_satisfy(exact_values, low, high, &col.stats) {
                    Some(any_match) => Some(!any_match),
                    None => None,
                }
            } else {
                None
            },
            None => None,
        },
        _ => None,
    }
}

/// The parts of a plain pattern test on a column.
pub open spec fn like_parts_of(parts: Option<(&str, &str, Option<char>)>) -> Option<
    (Seq<char>, Seq<char>, Option<char>),
> {
    match parts {
        Some((name, pattern, escape_char)) => Some((name@, pattern@, escape_char)),
        None => None,
    }
}

/// The column, the pattern and the escape character of a plain pattern test
/// on a column.
pub fn extract_like_pattern(like: &Like) -> (r: Option<(&str, &str, Option<char>)>)
    ensures
        like_parts_of(r) == like_parts(*like),
{
    if like.negated {
        return None;
    }
    match (&*like.expr, &*like.pattern) {
        (Expr::Column(col), Expr::Literal(ScalarValue::Utf8(Some(pattern)), None)) => Some(
            (col.name.as_str(), pattern.as_str(), like.escape_char),
        ),
        (Expr::Column(col), Expr::Literal(ScalarValue::LargeUtf8(Some(pattern)), None)) => Some(
            (col.name.as_str(), pattern.as_str(), like.escape_char),
        ),
        (Expr::Column(col), Expr::Literal(ScalarValue::Utf8View(Some(pattern)), None)) => Some(
            (col.name.as_str(), pattern.as_str(), like.escape_char),
        ),
        _ => None,
    }
}

fn lacks_gram(index: &TextNgrams, terms: &Vec<String>) -> (r: bool)
    ensures
        r == gram_missing(*index, texts(terms@).to_set()),
{
    let ghost list = texts(terms@);
    let mut i: usize = 0;
    while i < terms.len()
        invariant
            i <= terms@.len(),
            list == texts(terms@),
            forall|j: int| 0 <= j < i ==> (#[trigger] list[j]).len() < index.min_len || index.texts().contains(list[j]),
        decreases terms@.len() - i,
    {
        let term = terms[i].as_str();
        if term.unicode_len() >= index.min_len && !index.contains(term) {
            proof {
                assert(list[i as int] == term@);
                assert(list.to_set().contains(term@));
            }
            return true;
        }
        i = i + 1;
    }
    false
}

fn lacks_gram_hash(index: &TextNgramHashes, terms: &Vec<String>) -> (r: bool)
    ensures
        r == gram_hash_missing(*index, texts(terms@).to_set()),
{
    let ghost list = texts(terms@);
    let mut i: usize = 0;
    while i < terms.len()
        invariant
            i <= terms@.len(),
            list == texts(terms@),
            forall|j: int| 0 <= j < i ==> (#[trigger] list[j]).len() < index.min_len || index.hashes@.contains(
                text_hash(list[j]),
            ),
        decreases terms@.len() - i,
    {
        let term = terms[i].as_str();
        if term.unicode_len() >= index.min_len && !index.contains(term) {
            proof {
                assert(list[i as int] == term@);
                assert(list.to_set().contains(term@));
            }
            return true;
        }
        i = i + 1;
    }
    false
}

/// Whether a text index rules out that a text of the column holds all of the
/// terms.
pub fn terms_can_be_pruned(col: &Column, terms: &Vec<String>) -> (r: bool)
    ensures
        r == terms_ruled_out(*col, texts(terms@).to_set()),
{
    if let Some(index) = &col.text_ngrams {
        if index.complete && lacks_gram(index, terms) {
            return true;
        }
    }
    match &col.text_ngram_hashes {
        Some(index) => index.complete && lacks_gram_hash(index, terms),
        None => false,
    }
}

fn like_can_be_pruned(columns: &[Column], like: &Like) -> (r: bool)
    ensures
        r == like_ruled_out(columns@, *like),
{
    match extract_like_pattern(like) {
        Some((name, pattern, escape_char)) => match column_named(columns, name) {
            Some(col) => {
                let terms = like_literal_index_terms(pattern, escape_char);
                terms_can_be_pruned(col, &terms)
            },
            None => false,
        },
        None => false,
    }
}

/// Whether what is known of a file's columns rules out that a row of it meets
/// the filter.
pub fn columns_can_be_pruned(columns: &[Column], filter: &Expr) -> (r: bool)
    ensures
        r == ruled_out(columns@, *filter),
    decreases filter,
{
    match filter {
        Expr::BinaryExpr(binary) => if binary.op == Operator::And {
            columns_can_be_pruned(columns, &binary.left) || columns_can_be_pruned(columns, &binary.right)
        } else if binary.op == Operator::Or {
            columns_can_be_pruned(columns, &binary.left) && columns_can_be_pruned(columns, &binary.right)
        } else {
            comparison_can_be_pruned(columns, &binary.left, binary.op, &binary.right)
        },
        Expr::Between(between) => {
            if between.negated {
                return false;
            }
            match can_prune_between(columns, between) {
                Some(can_prune) => can_prune,
                None => {
                    comparison_can_be_pruned(columns, &between.expr, Operator::GtEq, &between.low)
                        || comparison_can_be_pruned(columns, &between.expr, Operator::LtEq, &between.high)
                },
            }
        },
        Expr::Like(like) => like_can_be_pruned(columns, like),
        _ => false,
    }
}

/// The column that a comparison is about.
pub open spec fn matching_column(columns: Seq<Column>, filter: Expr) -> Option<Column> {
    match filter {
        Expr::BinaryExpr(binary) => match column_name(*binary.left) {
            Some(name) => find_column(columns, name),
            None => None,
        },
        _ => None,
    }
}

/// What a query asks of a file that a manifest lists.
pub trait ManifestExt: ManifestFile {
    /// The column that a comparison is about, where the file has it.
    fn find_matching_column(&self, partial_filter: &Expr) -> (r: Option<&Column>)
        ensures
            match r {
                Some(col) => matching_column(self.column_list(), *partial_filter) == Some(*col),
                None => matching_column(self.column_list(), *partial_filter) is None,
            },
    {
        match partial_filter {
            Expr::BinaryExpr(binary) => match filter_column_name(&binary.left) {
                Some(name) => column_named(self.columns(), name),
                None => None,
            },
            _ => None,
        }
    }

    /// Whether what is known of the file's columns rules out that a row of it
    /// meets the filter.
    fn can_be_pruned(&self, partial_filter: &Expr) -> (r: bool)
        ensures
            r == ruled_out(self.column_list(), *partial_filter),
    {
        columns_can_be_pruned(self.columns(), partial_filter)
    }
}

impl<T: ManifestFile> ManifestExt for T {

}

// ---------------------------------------------------------------------------
// Filters that rule nothing out
// ---------------------------------------------------------------------------

/// A negated pattern or range test rules nothing out, nor does a filter that is
/// no comparison or test.
pub proof fn negated_tests_rule_nothing_out(columns: Seq<Column>, filter: Expr)
    requires
        match filter {
            Expr::Like(like) => like.negated,
            Expr::Between(between) => between.negated,
            Expr::BinaryExpr(_) => false,
            _ => true,
        },
    ensures
        !ruled_out(columns, filter),
{
}

/// The column that a comparison or a test is about, itself or under
/// conversions.
pub open spec fn tested_column(filter: Expr) -> Option<Seq<char>> {
    match filter {
        Expr::BinaryExpr(binary) => if binary.op == Operator::And || binary.op == Operator::Or {
            None
        } else {
            column_name(*binary.left)
        },
        Expr::Between(between) => column_name(*between.expr),
        Expr::Like(like) => column_name(*like.expr),
        _ => None,
    }
}

/// A comparison or a test of a column that a file does not list rules nothing
/// out.
pub proof fn unlisted_columns_rule_nothing_out(columns: Seq<Column>, filter: Expr)
    requires
        tested_column(filter) matches Some(name) && find_column(columns, name) is None,
    ensures
        !ruled_out(columns, filter),
{
}

// ---------------------------------------------------------------------------
// Incomplete indexes
// ---------------------------------------------------------------------------

/// A column without those of its indexes that leave something out.
pub open spec fn without_incomplete(col: Column) -> Column {
    Column {
        exact_values: match col.exact_values {
            Some(index) if index.complete => Some(index),
            _ => None,
        },
        exact_hashes: match col.exact_hashes {
            Some(index) if index.complete => Some(index),
            _ => None,
        },
        text_ngrams: match col.text_ngrams {
            Some(index) if index.complete => Some(index),
            _ => None,
        },
        text_ngram_hashes: match col.text_ngram_hashes {
            Some(index) if index.complete => Some(index),
            _ => None,
        },
        ..col
    }
}

/// The columns without those of their indexes that leave something out.
pub open spec fn all_without_incomplete(columns: Seq<Column>) -> Seq<Column> {
    columns.map_values(|col: Column| without_incomplete(col))
}

proof fn lemma_find_without_incomplete(columns: Seq<Column>, name: Seq<char>)
    ensures
        find_column(all_without_incomplete(columns), name) == match find_column(columns, name) {
            Some(col) => Some(without_incomplete(col)),
            None => None,
        },
    decreases columns.len(),
{
    if columns.len() > 0 {
        lemma_find_without_incomplete(columns.skip(1), name);
        assert(all_without_incomplete(columns).skip(1) =~= all_without_incomplete(columns.skip(1)));
    }
}

proof fn lemma_comparison_without_incomplete(columns: Seq<Column>, left: Expr, op: Operator, right: Expr)
    ensures
        comparison_ruled_out(all_without_incomplete(columns), left, op, right) == comparison_ruled_out(
            columns,
            left,
            op,
            right,
        ),
{
    if let Some(name) = column_name(left) {
        lemma_find_without_incomplete(columns, name);
    }
}

/// An index that leaves something out rules nothing out: without it the same
/// filters rule the file out.
pub proof fn incomplete_indexes_do_not_prune(columns: Seq<Column>, filter: Expr)
    ensures
        ruled_out(all_without_incomplete(columns), filter) == ruled_out(columns, filter),
    decreases filter,
{
    match filter {
        Expr::BinaryExpr(binary) => {
            incomplete_indexes_do_not_prune(columns, *binary.left);
            incomplete_indexes_do_not_prune(columns, *binary.right);
            lemma_comparison_without_incomplete(columns, *binary.left, binary.op, *binary.right);
        },
        Expr::Between(between) => {
            lemma_comparison_without_incomplete(columns, *between.expr, Operator::GtEq, *between.low);
            lemma_comparison_without_incomplete(columns, *between.expr, Operator::LtEq, *between.high);
            if let Some(name) = column_name(*between.expr) {
                lemma_find_without_incomplete(columns, name);
            }
        },
        Expr::Like(like) => {
            if let Some((name, _, _)) = like_parts(like) {
                lemma_find_without_incomplete(columns, name);
            }
        },
        _ => {},
    }
}

} // verus!
