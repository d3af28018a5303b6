use parseable::catalog::column::{
    exact_value_hash, text_ngram_hash, BoolType, Column, ExactHashes, ExactValues, Float64Type, Int64Type,
    TextNgramHashes, TextNgrams, TypedStatistics, Utf8Type,
};
use parseable::catalog::manifest::{File, ManifestFile};
use parseable::expr::{
    Between, BinaryExpr, Cast, ColumnRef, DataType, Expr, FieldMetadata, Like, Operator, ScalarValue, TryCast,
};
use parseable::float::{FloatBits, FloatScalar};
use parseable::grams::like_literal_index_terms;
use parseable::query::planner::parquet_scan_batch_size;
use parseable::query::pruning::ManifestExt;

fn column(name: &str) -> Expr {
    Expr::Column(ColumnRef { name: name.to_string() })
}

fn literal(value: ScalarValue) -> Expr {
    Expr::Literal(value, None)
}

fn comparison(name: &str, op: Operator, value: ScalarValue) -> Expr {
    Expr::BinaryExpr(BinaryExpr { left: Box::new(column(name)), op, right: Box::new(literal(value)) })
}

fn file_of(columns: Vec<Column>) -> File {
    File {
        file_path: "file.parquet".to_string(),
        num_rows: 10,
        file_size: 10,
        ingestion_size: 10,
        columns,
        sort_order_id: Vec::new(),
    }
}

fn bare_column(name: &str, stats: Option<TypedStatistics>) -> Column {
    Column {
        name: name.to_string(),
        stats,
        exact_values: None,
        exact_hashes: None,
        text_ngrams: None,
        text_ngram_hashes: None,
        uncompressed_size: 10,
        compressed_size: 10,
    }
}

fn sorted(values: &[&str]) -> Vec<String> {
    let mut values = values.iter().map(|value| value.to_string()).collect::<Vec<_>>();
    values.sort();
    values
}

fn text_stats() -> Option<TypedStatistics> {
    Some(TypedStatistics::String(Utf8Type { min: "a".to_string(), max: "z".to_string() }))
}

fn exact_index_filter(value: &str) -> Expr {
    comparison("trace_id", Operator::Eq, ScalarValue::Utf8(Some(value.to_string())))
}

fn exact_index_file(values: &[&str], complete: bool) -> File {
    let exact_values = Some(ExactValues { complete, values: sorted(values), floats: Vec::new() });
    file_of(vec![Column { exact_values, ..bare_column("trace_id", text_stats()) }])
}

fn exact_hash_index_file(values: &[&str], complete: bool) -> File {
    let mut hashes = values.iter().map(|value| exact_value_hash(value)).collect::<Vec<_>>();
    hashes.sort();
    let exact_hashes = Some(ExactHashes { complete, hashes });
    file_of(vec![Column { exact_hashes, ..bare_column("trace_id", text_stats()) }])
}

fn like_filter(pattern: &str) -> Expr {
    Expr::Like(Like {
        negated: false,
        expr: Box::new(column("body")),
        pattern: Box::new(literal(ScalarValue::Utf8(Some(pattern.to_string())))),
        escape_char: None,
        case_insensitive: false,
    })
}

fn text_ngram_file(grams: &[&str], complete: bool) -> File {
    text_ngram_file_with_min_len(grams, complete, 1)
}

fn text_ngram_file_with_min_len(grams: &[&str], complete: bool, min_len: usize) -> File {
    let text_ngrams = Some(TextNgrams { complete, min_len, grams: sorted(grams) });
    file_of(vec![Column { text_ngrams, ..bare_column("body", None) }])
}

fn text_ngram_hash_file(grams: &[&str], complete: bool) -> File {
    let mut hashes = grams.iter().map(|value| text_ngram_hash(value)).collect::<Vec<_>>();
    hashes.sort();
    let text_ngram_hashes = Some(TextNgramHashes { complete, min_len: 1, hashes });
    file_of(vec![Column { text_ngram_hashes, ..bare_column("body", None) }])
}

fn numeric_stats_file(min: i64, max: i64) -> File {
    file_of(vec![bare_column("duration_ms", Some(TypedStatistics::Int(Int64Type { min, max })))])
}

fn numeric_exact_index_file(values: &[&str], min: i64, max: i64) -> File {
    let exact_values = Some(ExactValues { complete: true, values: sorted(values), floats: Vec::new() });
    let stats = Some(TypedStatistics::Int(Int64Type { min, max }));
    file_of(vec![Column { exact_values, ..bare_column("duration_ms", stats) }])
}

fn cast_duration() -> Expr {
    Expr::Cast(Cast { expr: Box::new(column("duration_ms")), data_type: DataType::Int64 })
}

fn cast_numeric_filter(value: i64, op: Operator) -> Expr {
    Expr::BinaryExpr(BinaryExpr {
        left: Box::new(cast_duration()),
        op,
        right: Box::new(literal(ScalarValue::Int64(Some(value)))),
    })
}

fn numeric_between_filter(low: i64, high: i64) -> Expr {
    Expr::Between(Between {
        expr: Box::new(cast_duration()),
        negated: false,
        low: Box::new(literal(ScalarValue::Int64(Some(low)))),
        high: Box::new(literal(ScalarValue::Int64(Some(high)))),
    })
}

fn and_filter(left: Expr, right: Expr) -> Expr {
    Expr::BinaryExpr(BinaryExpr { left: Box::new(left), op: Operator::And, right: Box::new(right) })
}

fn or_filter(left: Expr, right: Expr) -> Expr {
    Expr::BinaryExpr(BinaryExpr { left: Box::new(left), op: Operator::Or, right: Box::new(right) })
}

fn double(value: f64) -> FloatScalar {
    FloatScalar { value: FloatBits { bits: value.to_bits() }, text: value.to_string() }
}

#[test]
fn exact_index_prunes_missing_equality_inside_min_max_range() {
    let file = exact_index_file(&["a", "z"], true);

    assert!(file.can_be_pruned(&exact_index_filter("m")));
    assert!(!file.can_be_pruned(&exact_index_filter("a")));
}

#[test]
fn incomplete_exact_index_does_not_prune() {
    let file = exact_index_file(&["a", "z"], false);

    assert!(!file.can_be_pruned(&exact_index_filter("m")));
}

#[test]
fn exact_hash_index_prunes_missing_equality_inside_min_max_range() {
    let file = exact_hash_index_file(&["a", "z"], true);

    assert!(file.can_be_pruned(&exact_index_filter("m")));
    assert!(!file.can_be_pruned(&exact_index_filter("a")));
}

#[test]
fn incomplete_exact_hash_index_does_not_prune() {
    let file = exact_hash_index_file(&["a", "z"], false);

    assert!(!file.can_be_pruned(&exact_index_filter("m")));
}

#[test]
fn text_ngram_index_prunes_like_when_required_trigram_missing() {
    let file = text_ngram_file(&["ups", "pst", "str", "tre", "rea", "eam"], true);

    assert!(file.can_be_pruned(&like_filter("%definitely_not_present_token%")));
    assert!(!file.can_be_pruned(&like_filter("%upstream%")));
}

#[test]
fn incomplete_text_ngram_index_does_not_prune_like() {
    let file = text_ngram_file(&["ups"], false);

    assert!(!file.can_be_pruned(&like_filter("%definitely_not_present_token%")));
}

#[test]
fn text_ngram_hash_index_prunes_like_when_required_term_missing() {
    let file = text_ngram_hash_file(&["ups", "pst", "str", "tre", "rea", "eam"], true);

    assert!(file.can_be_pruned(&like_filter("%definitely_not_present_token%")));
    assert!(!file.can_be_pruned(&like_filter("%upstream%")));
}

#[test]
fn incomplete_text_ngram_hash_index_does_not_prune_like() {
    let file = text_ngram_hash_file(&["ups"], false);

    assert!(!file.can_be_pruned(&like_filter("%definitely_not_present_token%")));
}

#[test]
fn text_ngram_index_prunes_short_like_when_required_bigram_missing() {
    let file = text_ngram_file(&["q", "x", "x=", "=1"], true);

    assert!(file.can_be_pruned(&like_filter("%q1%")));
    assert!(!file.can_be_pruned(&like_filter("%x=%")));
}

#[test]
fn legacy_trigram_index_does_not_prune_short_like() {
    let file = text_ngram_file_with_min_len(&["ups"], true, 3);

    assert!(!file.can_be_pruned(&like_filter("%q1%")));
}

#[test]
fn like_literal_index_terms_respects_wildcards_and_escapes() {
    assert_eq!(like_literal_index_terms("%cart_id%", None)[0], "art");
    assert_eq!(like_literal_index_terms("%ab%", None), vec!["ab".to_string()]);
    assert!(like_literal_index_terms(r"%abc\_def%", Some('\\')).contains(&"c_d".to_string()));
    assert!(like_literal_index_terms("%/123", None).contains(&"123".to_string()));
    assert!(like_literal_index_terms("%value with spaces%", None).contains(&" wi".to_string()));
    assert!(like_literal_index_terms("%cache_key=product:%", None).contains(&"y=p".to_string()));
}

#[test]
fn parquet_batch_size_uses_smaller_limit_aware_batches() {
    assert_eq!(parquet_scan_batch_size(20_000, Some(100)), 1024);
    assert_eq!(parquet_scan_batch_size(20_000, Some(4096)), 4096);
    assert_eq!(parquet_scan_batch_size(512, Some(100)), 512);
    assert_eq!(parquet_scan_batch_size(20_000, None), 20_000);
    assert_eq!(parquet_scan_batch_size(0, Some(100)), 1);
}

#[test]
fn manifest_pruning_sees_column_through_cast() {
    let file = numeric_stats_file(100, 400);

    assert!(file.can_be_pruned(&cast_numeric_filter(1500, Operator::GtEq)));
    assert!(!file.can_be_pruned(&cast_numeric_filter(300, Operator::GtEq)));
}

#[test]
fn complete_exact_index_prunes_numeric_range_inside_broad_min_max() {
    let file = numeric_exact_index_file(&["100", "200", "300"], 100, 10_000);

    assert!(file.can_be_pruned(&cast_numeric_filter(1500, Operator::GtEq)));
    assert!(!file.can_be_pruned(&cast_numeric_filter(200, Operator::GtEq)));
}

#[test]
fn invalid_numeric_exact_index_value_does_not_prune_range() {
    let file = numeric_exact_index_file(&["100", "not-a-number"], 100, 10_000);

    assert!(!file.can_be_pruned(&cast_numeric_filter(1500, Operator::GtEq)));
}

#[test]
fn and_filter_prunes_when_any_branch_cannot_match() {
    let file = exact_index_file(&["a"], true);

    let filter = and_filter(exact_index_filter("missing"), like_filter("%not_indexed%"));

    assert!(file.can_be_pruned(&filter));
}

#[test]
fn or_filter_prunes_only_when_all_branches_cannot_match() {
    let file = exact_index_file(&["a"], true);

    assert!(file.can_be_pruned(&or_filter(exact_index_filter("missing"), exact_index_filter("also_missing"))));
    assert!(!file.can_be_pruned(&or_filter(exact_index_filter("missing"), exact_index_filter("a"))));
}

#[test]
fn between_filter_uses_exact_numeric_index_for_pruning() {
    let file = numeric_exact_index_file(&["100", "200", "900"], 0, 10_000);

    assert!(file.can_be_pruned(&numeric_between_filter(300, 400)));
    assert!(!file.can_be_pruned(&numeric_between_filter(150, 250)));
}

#[test]
fn range_prunes_by_each_comparison() {
    let file = numeric_stats_file(100, 400);
    let prunes = |op, value| file.can_be_pruned(&comparison("duration_ms", op, ScalarValue::Int64(Some(value))));

    assert!(prunes(Operator::Eq, 99) && !prunes(Operator::Eq, 100));
    assert!(prunes(Operator::Eq, 401) && !prunes(Operator::IsNotDistinctFrom, 400));
    assert!(prunes(Operator::Lt, 100) && !prunes(Operator::Lt, 101));
    assert!(prunes(Operator::LtEq, 99) && !prunes(Operator::LtEq, 100));
    assert!(prunes(Operator::Gt, 400) && !prunes(Operator::Gt, 399));
    assert!(prunes(Operator::GtEq, 401) && !prunes(Operator::GtEq, 400));
    assert!(!prunes(Operator::NotEq, 99) && !prunes(Operator::IsDistinctFrom, 99));
    assert!(!prunes(Operator::Other, 99));
}

#[test]
fn range_of_another_kind_does_not_prune() {
    let file = numeric_stats_file(100, 400);
    let text = ScalarValue::Utf8(Some("zzz".to_string()));

    assert!(!file.can_be_pruned(&comparison("duration_ms", Operator::Eq, text)));
    assert!(!file.can_be_pruned(&comparison("duration_ms", Operator::Eq, ScalarValue::Null)));
    assert!(!file.can_be_pruned(&comparison("duration_ms", Operator::Eq, ScalarValue::Int64(None))));
    assert!(!file.can_be_pruned(&comparison("other", Operator::Eq, ScalarValue::Int64(Some(1)))));
}

#[test]
fn small_integer_literals_compare_as_integers() {
    let file = numeric_stats_file(100, 400);
    let prunes = |value| file.can_be_pruned(&comparison("duration_ms", Operator::Eq, value));

    assert!(prunes(ScalarValue::Int8(Some(7))) && prunes(ScalarValue::UInt8(Some(7))));
    assert!(prunes(ScalarValue::Int16(Some(7))) && prunes(ScalarValue::UInt16(Some(7))));
    assert!(prunes(ScalarValue::Int32(Some(7))) && prunes(ScalarValue::UInt32(Some(7))));
    assert!(prunes(ScalarValue::UInt64(Some(7))) && !prunes(ScalarValue::UInt64(Some(150))));
    assert!(prunes(ScalarValue::Date32(Some(7))) && !prunes(ScalarValue::Date32(Some(150))));
    assert!(prunes(ScalarValue::TimestampMillisecond(Some(7), None)));
    assert!(!prunes(ScalarValue::TimestampNanosecond(Some(7), None)));
}

#[test]
fn large_unsigned_literal_wraps() {
    let negative = numeric_stats_file(-5, -1);

    assert!(!negative.can_be_pruned(&comparison("duration_ms", Operator::Eq, ScalarValue::UInt64(Some(u64::MAX)))));
}

#[test]
fn truth_values_prune_by_range_and_index() {
    let stats = Some(TypedStatistics::Bool(BoolType { min: true, max: true }));
    let file = file_of(vec![bare_column("ok", stats.clone())]);
    let is = |value| comparison("ok", Operator::Eq, ScalarValue::Boolean(Some(value)));

    assert!(file.can_be_pruned(&is(false)));
    assert!(!file.can_be_pruned(&is(true)));

    let exact_values = Some(ExactValues { complete: true, values: sorted(&["true"]), floats: Vec::new() });
    let wide = Some(TypedStatistics::Bool(BoolType { min: false, max: true }));
    let indexed = file_of(vec![Column { exact_values, ..bare_column("ok", wide) }]);
    assert!(indexed.can_be_pruned(&is(false)));
    assert!(!indexed.can_be_pruned(&is(true)));
    let below = comparison("ok", Operator::Lt, ScalarValue::Boolean(Some(true)));
    assert!(indexed.can_be_pruned(&below));
}

#[test]
fn doubles_prune_by_range_and_index() {
    let bits = |value: f64| FloatBits { bits: value.to_bits() };
    let stats = Some(TypedStatistics::Float(Float64Type { min: bits(-1.5), max: bits(2.5) }));
    let file = file_of(vec![bare_column("load", stats.clone())]);
    let is = |op, value| comparison("load", op, ScalarValue::Float64(Some(double(value))));

    assert!(file.can_be_pruned(&is(Operator::Gt, 2.5)));
    assert!(!file.can_be_pruned(&is(Operator::GtEq, 2.5)));
    assert!(file.can_be_pruned(&is(Operator::Lt, -1.5)));
    assert!(!file.can_be_pruned(&is(Operator::Lt, -1.0)));
    assert!(!file.can_be_pruned(&is(Operator::Eq, -0.0)));

    let exact_values = Some(ExactValues {
        complete: true,
        values: sorted(&["-1.5", "2.5"]),
        floats: vec![Some(bits(-1.5)), Some(bits(2.5))],
    });
    let indexed = file_of(vec![Column { exact_values, ..bare_column("load", stats.clone()) }]);
    assert!(indexed.can_be_pruned(&is(Operator::Eq, 1.0)));
    assert!(!indexed.can_be_pruned(&is(Operator::Eq, 2.5)));
    assert!(!indexed.can_be_pruned(&is(Operator::Gt, 1.0)));
    let between = |low: f64, high: f64| {
        Expr::Between(Between {
            expr: Box::new(column("load")),
            negated: false,
            low: Box::new(literal(ScalarValue::Float64(Some(double(low))))),
            high: Box::new(literal(ScalarValue::Float64(Some(double(high))))),
        })
    };
    assert!(indexed.can_be_pruned(&between(-1.0, 2.0)));
    assert!(!indexed.can_be_pruned(&between(-2.0, -1.0)));

    let unread = Some(ExactValues { complete: true, values: sorted(&["-1.5", "2.5"]), floats: Vec::new() });
    let unread = file_of(vec![Column { exact_values: unread, ..bare_column("load", stats) }]);
    assert!(!unread.can_be_pruned(&is(Operator::Gt, 1.0)));
    assert!(!unread.can_be_pruned(&between(-1.0, 2.0)));
}

#[test]
fn what_is_no_number_prunes_only_by_range() {
    let bits = |value: f64| FloatBits { bits: value.to_bits() };
    let stats = Some(TypedStatistics::Float(Float64Type { min: bits(0.0), max: bits(1.0) }));
    let file = file_of(vec![bare_column("load", stats)]);
    let is = |op| comparison("load", op, ScalarValue::Float64(Some(double(f64::NAN))));

    assert!(file.can_be_pruned(&is(Operator::Eq)));
    assert!(file.can_be_pruned(&is(Operator::Lt)));
}

#[test]
fn between_prunes_by_range_without_an_index() {
    let file = numeric_stats_file(100, 400);

    assert!(file.can_be_pruned(&numeric_between_filter(401, 500)));
    assert!(file.can_be_pruned(&numeric_between_filter(1, 99)));
    assert!(!file.can_be_pruned(&numeric_between_filter(200, 300)));
    assert!(!file.can_be_pruned(&numeric_between_filter(300, 200)));
}

#[test]
fn empty_or_negated_between() {
    let file = numeric_exact_index_file(&["100", "200"], 100, 200);

    assert!(file.can_be_pruned(&numeric_between_filter(150, 120)));
    let negated = Expr::Between(Between {
        expr: Box::new(cast_duration()),
        negated: true,
        low: Box::new(literal(ScalarValue::Int64(Some(500)))),
        high: Box::new(literal(ScalarValue::Int64(Some(600)))),
    });
    assert!(!file.can_be_pruned(&negated));
}

#[test]
fn between_stops_at_the_first_match() {
    let file = numeric_exact_index_file(&["100", "x"], 0, 10_000);

    assert!(!file.can_be_pruned(&numeric_between_filter(50, 150)));
    assert!(!file.can_be_pruned(&numeric_between_filter(500, 600)));
    assert!(file.can_be_pruned(&numeric_between_filter(20_000, 30_000)));
}

#[test]
fn negated_like_and_other_filters_do_not_prune() {
    let file = text_ngram_file(&["ups"], true);
    let negated = Expr::Like(Like {
        negated: true,
        expr: Box::new(column("body")),
        pattern: Box::new(literal(ScalarValue::Utf8(Some("%xyz%".to_string())))),
        escape_char: None,
        case_insensitive: false,
    });

    assert!(!file.can_be_pruned(&negated));
    assert!(!file.can_be_pruned(&Expr::Other));
    assert!(!file.can_be_pruned(&column("body")));
}

#[test]
fn like_reads_all_kinds_of_text_literals() {
    let file = text_ngram_file(&["ups"], true);
    let like = |pattern| {
        Expr::Like(Like {
            negated: false,
            expr: Box::new(column("body")),
            pattern: Box::new(literal(pattern)),
            escape_char: None,
            case_insensitive: true,
        })
    };

    assert!(file.can_be_pruned(&like(ScalarValue::LargeUtf8(Some("%XYZ%".to_string())))));
    assert!(file.can_be_pruned(&like(ScalarValue::Utf8View(Some("%xyz%".to_string())))));
    assert!(!file.can_be_pruned(&like(ScalarValue::Utf8View(Some("%UPS%".to_string())))));
    assert!(!file.can_be_pruned(&like(ScalarValue::Utf8(None))));
}

#[test]
fn literal_with_metadata_does_not_prune() {
    let file = numeric_stats_file(100, 400);
    let metadata = FieldMetadata { entries: vec![("unit".to_string(), "ms".to_string())] };
    let filter = Expr::BinaryExpr(BinaryExpr {
        left: Box::new(column("duration_ms")),
        op: Operator::Eq,
        right: Box::new(Expr::Literal(ScalarValue::Int64(Some(1)), Some(metadata))),
    });

    assert!(!file.can_be_pruned(&filter));
}

#[test]
fn matching_column_is_found_through_casts() {
    let file = numeric_stats_file(100, 400);
    let through = Expr::BinaryExpr(BinaryExpr {
        left: Box::new(Expr::TryCast(TryCast {
            expr: Box::new(cast_duration()),
            data_type: DataType::Float64,
        })),
        op: Operator::Eq,
        right: Box::new(literal(ScalarValue::Int64(Some(1)))),
    });

    assert_eq!(file.find_matching_column(&through).map(|col| col.name.as_str()), Some("duration_ms"));
    assert!(file.find_matching_column(&like_filter("%a%")).is_none());
    assert!(file.find_matching_column(&exact_index_filter("a")).is_none());
    assert_eq!(file.columns().len(), 1);
    assert_eq!(ManifestFile::num_rows(&file), 10);
}

#[test]
fn like_terms_are_lowercase_sorted_and_distinct() {
    assert_eq!(like_literal_index_terms("%ABCABC%", None), vec!["abc", "bca", "cab"]);
    assert_eq!(like_literal_index_terms("a_B%", None), vec!["a", "b"]);
    assert!(like_literal_index_terms("%_%", None).is_empty());
    assert_eq!(like_literal_index_terms("!%!_", Some('!')), vec!["%_"]);
}

#[test]
fn joined_patterns_have_the_terms_of_both() {
    let joined = like_literal_index_terms("upstream%cart_id", None);
    let mut both = like_literal_index_terms("upstream", None);
    both.extend(like_literal_index_terms("cart_id", None));
    both.sort();
    both.dedup();

    assert_eq!(joined, both);
    assert_eq!(like_literal_index_terms("%cart_id%", None), like_literal_index_terms("cart_id", None));
}

#[test]
fn filters_on_unlisted_columns_do_not_prune() {
    let file = text_ngram_file(&["a"], true);
    let missing = |op| comparison("missing", op, ScalarValue::Int64(Some(7)));

    for op in [Operator::Eq, Operator::NotEq, Operator::Lt, Operator::GtEq, Operator::IsNotDistinctFrom] {
        assert!(!file.can_be_pruned(&missing(op)));
    }
    assert!(!file.can_be_pruned(&numeric_between_filter(9, 7)));
    assert!(!numeric_stats_file(0, 1).can_be_pruned(&like_filter("%zzz%")));
}

#[test]
fn pruned_file_holds_no_matching_row() {
    let rows = [120_i64, 250, 399];
    let file = numeric_exact_index_file(&["120", "250", "399"], 120, 399);

    for value in 90..430 {
        let filter = comparison("duration_ms", Operator::Eq, ScalarValue::Int64(Some(value)));
        if file.can_be_pruned(&filter) {
            assert!(!rows.contains(&value));
        } else {
            assert!(rows.contains(&value));
        }
        let filter = comparison("duration_ms", Operator::Gt, ScalarValue::Int64(Some(value)));
        assert_eq!(file.can_be_pruned(&filter), !rows.iter().any(|row| *row > value));
    }
}
