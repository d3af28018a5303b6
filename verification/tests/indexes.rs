use parseable::catalog::array::{Array, NamedArray, RecordBatch};
use parseable::catalog::column::{exact_value_hash, text_ngram_hash, Float64Type, TypedStatistics, Utf8Type};
use parseable::catalog::config::{exact_index_config, field_list, text_index_config};
use parseable::catalog::index::{
    exact_index_statistics, projected_indices, text_ngram_statistics, ExactIndexBuilder, ExactIndexData,
    TextIndexBuilder,
};
use parseable::catalog::manifest::{create_from_parquet_file, File};
use parseable::catalog::row_group::{ColumnChunk, ParquetMetaData, RowGroupMetaData};
use parseable::expr::{Between, BinaryExpr, ColumnRef, Expr, Like, Operator, ScalarValue};
use parseable::float::{FloatBits, FloatScalar};
use parseable::grams::{insert_lowercase_pruning_ngrams, like_literal_index_terms};
use parseable::query::pruning::ManifestExt;
use parseable::terms::TermSet;

fn texts(values: &[&str]) -> Array {
    Array::Utf8(values.iter().map(|value| Some(value.to_string())).collect())
}

fn batch(columns: Vec<(&str, Array)>) -> RecordBatch {
    RecordBatch {
        columns: columns.into_iter().map(|(name, array)| NamedArray { name: name.to_string(), array }).collect(),
    }
}

fn names(fields: &[&str]) -> Vec<String> {
    fields.iter().map(|field| field.to_string()).collect()
}

fn values_of(index: &ExactIndexData) -> Vec<String> {
    index.values.as_ref().expect("value index").values.clone()
}

#[test]
fn exact_value_statistics_reads_dotted_string_fields() {
    let batches = vec![batch(vec![
        ("attributes.trace.id.synthetic", texts(&["trace-b", "trace-a", "trace-b"])),
        ("body", texts(&["one", "two", "three"])),
    ])];

    let indexes = exact_index_statistics(&batches, &["attributes.trace.id.synthetic".to_string()], 8, 8);
    assert_eq!(indexes.len(), 1);
    assert_eq!(indexes[0].0, "attributes.trace.id.synthetic");
    let exact_values = indexes[0].1.values.as_ref().expect("dotted field value index");
    let exact_hashes = indexes[0].1.hashes.as_ref().expect("dotted field hash index");

    assert!(exact_values.complete);
    assert_eq!(exact_values.values, vec!["trace-a", "trace-b"]);
    assert!(exact_hashes.complete);
    assert_eq!(exact_hashes.hashes.len(), 2);
    assert!(exact_hashes.contains_value("trace-a"));

    let truncated = exact_index_statistics(&batches, &["attributes.trace.id.synthetic".to_string()], 1, 8);
    assert_eq!(truncated.len(), 1);
    assert_eq!(truncated[0].0, "attributes.trace.id.synthetic");
    let truncated = &truncated[0].1;
    assert!(truncated.values.is_none());
    assert!(truncated.hashes.is_some());
}

#[test]
fn text_ngram_statistics_reads_body_substrings() {
    let batches = vec![batch(vec![(
        "body",
        texts(&["upstream_timeout while loading cart_id", "ValueError from large_payload"]),
    )])];

    let indexes = text_ngram_statistics(&batches, &["body".to_string()], 1024);
    assert_eq!(indexes.len(), 1);
    assert_eq!(indexes[0].0, "body");
    let ngrams = &indexes[0].1;

    assert!(ngrams.complete);
    assert!(ngrams.grams.contains(&"ups".to_string()));
    assert!(ngrams.grams.contains(&"u".to_string()));
    assert!(ngrams.grams.contains(&"up".to_string()));
    assert!(ngrams.grams.contains(&"lo".to_string()));
    assert!(ngrams.grams.contains(&"tim".to_string()));
    assert!(ngrams.grams.contains(&"val".to_string()));
    assert_eq!(ngrams.min_len, 1);

    let truncated = text_ngram_statistics(&batches, &["body".to_string()], 1);
    assert!(!truncated.iter().any(|(name, _)| name == "body"));
}

#[test]
fn values_of_all_types_are_written_out() {
    let double = |value: f64| {
        Some(FloatScalar { value: FloatBits { bits: value.to_bits() }, text: value.to_string() })
    };
    let batches = vec![batch(vec![
        ("flag", Array::Boolean(vec![Some(true), None, Some(false)])),
        ("tiny", Array::Int8(vec![Some(-128), Some(5)])),
        ("small", Array::Int16(vec![Some(-300)])),
        ("middle", Array::Int32(vec![Some(70_000)])),
        ("large", Array::Int64(vec![Some(i64::MIN)])),
        ("utiny", Array::UInt8(vec![Some(255)])),
        ("usmall", Array::UInt16(vec![Some(65_535)])),
        ("umiddle", Array::UInt32(vec![Some(7)])),
        ("ularge", Array::UInt64(vec![Some(u64::MAX)])),
        ("single", Array::Float32(vec![double(0.5)])),
        ("double", Array::Float64(vec![double(-2.25)])),
        ("long", Array::LargeUtf8(vec![Some("x".to_string())])),
        ("view", Array::Utf8View(vec![Some("y".to_string())])),
    ])];
    let value = |field: &str| {
        let found = exact_index_statistics(&batches, &names(&[field]), 8, 8);
        values_of(&found[0].1)
    };

    assert_eq!(value("flag"), vec!["false", "true"]);
    assert_eq!(value("tiny"), vec!["-128", "5"]);
    assert_eq!(value("small"), vec!["-300"]);
    assert_eq!(value("middle"), vec!["70000"]);
    assert_eq!(value("large"), vec!["-9223372036854775808"]);
    assert_eq!(value("utiny"), vec!["255"]);
    assert_eq!(value("usmall"), vec!["65535"]);
    assert_eq!(value("umiddle"), vec!["7"]);
    assert_eq!(value("ularge"), vec!["18446744073709551615"]);
    assert_eq!(value("single"), vec!["0.5"]);
    assert_eq!(value("double"), vec!["-2.25"]);
    assert_eq!(value("long"), vec!["x"]);
    assert_eq!(value("view"), vec!["y"]);
}

#[test]
fn unreadable_values_leave_a_column_without_index() {
    let batches = vec![batch(vec![
        ("odd", Array::Other(vec![false, true])),
        ("void", Array::Other(vec![false, false])),
        ("number", Array::Int64(vec![Some(1)])),
    ])];

    let exact = exact_index_statistics(&batches, &names(&["odd", "void", "absent"]), 8, 8);
    assert_eq!(exact.len(), 1);
    assert_eq!(exact[0].0, "void");
    assert!(values_of(&exact[0].1).is_empty());

    let text = text_ngram_statistics(&batches, &names(&["number", "void"]), 8);
    assert_eq!(text.len(), 1);
    assert_eq!(text[0].0, "void");
    assert!(text[0].1.grams.is_empty());
}

#[test]
fn limits_of_zero_leave_an_index_out() {
    let batches = vec![batch(vec![("id", texts(&["a"]))])];

    let hashes_only = exact_index_statistics(&batches, &names(&["id"]), 0, 8);
    assert!(hashes_only[0].1.values.is_none());
    assert_eq!(hashes_only[0].1.hashes.as_ref().unwrap().hashes, vec![exact_value_hash("a")]);
    let values_only = exact_index_statistics(&batches, &names(&["id"]), 8, 0);
    assert!(values_only[0].1.hashes.is_none());
    assert_eq!(values_of(&values_only[0].1), vec!["a"]);
    assert!(exact_index_statistics(&batches, &names(&["id"]), 0, 0).is_empty());
}

#[test]
fn indexes_grow_over_batches_and_stay_incomplete() {
    let batches = vec![
        batch(vec![("id", texts(&["b", "a"])), ("body", texts(&["xy"]))]),
        batch(vec![("id", texts(&["c", "a"])), ("body", Array::Utf8(vec![None]))]),
        batch(vec![("body", texts(&["y"]))]),
    ];

    let three = exact_index_statistics(&batches, &names(&["id", "id"]), 3, 3);
    assert_eq!(three.len(), 1);
    assert_eq!(values_of(&three[0].1), vec!["a", "b", "c"]);
    let mut hashes = vec![exact_value_hash("a"), exact_value_hash("b"), exact_value_hash("c")];
    hashes.sort();
    assert_eq!(three[0].1.hashes.as_ref().unwrap().hashes, hashes);
    assert!(exact_index_statistics(&batches, &names(&["id"]), 2, 2).is_empty());

    let text = text_ngram_statistics(&batches, &names(&["body"]), 3);
    assert_eq!(text[0].1.grams, vec!["x", "xy", "y"]);
}

#[test]
fn builders_give_what_the_whole_file_gives() {
    let batches = vec![batch(vec![("id", texts(&["b"]))]), batch(vec![("id", texts(&["a"]))])];
    let mut exact = ExactIndexBuilder::new(&names(&["id"]), 4, 4);
    let mut text = TextIndexBuilder::new(&names(&["id"]), 4);
    for batch in &batches {
        exact.add_batch(batch);
        text.add_batch(batch);
    }

    assert_eq!(values_of(&exact.finish()[0].1), vec!["a", "b"]);
    assert_eq!(text.finish()[0].1.grams, vec!["a", "b"]);
}

#[test]
fn built_indexes_have_every_value_and_gram() {
    let values = ["Alpha", "beta", "gamma delta", ""];
    let batches = vec![batch(vec![("body", texts(&values))])];

    let exact = exact_index_statistics(&batches, &names(&["body"]), 8, 8);
    let text = text_ngram_statistics(&batches, &names(&["body"]), 1024);

    for value in values {
        assert!(exact[0].1.values.as_ref().unwrap().contains(value));
        assert!(exact[0].1.hashes.as_ref().unwrap().contains_value(value));
        let mut grams = TermSet::new();
        insert_lowercase_pruning_ngrams(value, &mut grams);
        for gram in grams.into_vec() {
            assert!(text[0].1.contains(&gram));
        }
    }
    assert!(!text[0].1.contains("Al"));
    assert!(text[0].1.contains("alp"));
}

#[test]
fn grams_are_lowercase_runs_of_up_to_three() {
    let mut grams = TermSet::new();
    insert_lowercase_pruning_ngrams("ABab", &mut grams);

    assert_eq!(grams.len(), 6);
    assert_eq!(grams.into_vec(), vec!["a", "ab", "aba", "b", "ba", "bab"]);
}

#[test]
fn hashes_are_stable() {
    assert_eq!(exact_value_hash(""), 0xcbf29ce484222325);
    assert_eq!(exact_value_hash("a"), 0xaf63dc4c8601ec8c);
    assert_eq!(text_ngram_hash("foobar"), 0x85944171f73967e8);
}

#[test]
fn columns_are_projected_by_first_place() {
    let schema = names(&["a", "b", "a"]);

    assert_eq!(projected_indices(&schema, &names(&["b", "missing", "a"])), vec![1, 0]);
    assert!(projected_indices(&schema, &names(&["missing"])).is_empty());
}

#[test]
fn field_lists_are_trimmed_sorted_and_distinct() {
    assert_eq!(field_list(" b ,a,, b,\u{3000}c\t"), vec!["a", "b", "c"]);
    assert_eq!(field_list("one field"), vec!["one field"]);
    assert!(field_list(" , ,").is_empty());
    assert!(field_list("").is_empty());
}

#[test]
fn exact_configuration_follows_its_variables() {
    let config = exact_index_config(Some("id,trace"), None, None).unwrap();
    assert_eq!((config.fields, config.max_values, config.max_hashes), (names(&["id", "trace"]), 4096, 1_000_000));
    let config = exact_index_config(Some("id"), Some("7"), Some("0")).unwrap();
    assert_eq!((config.max_values, config.max_hashes), (7, 0));
    let config = exact_index_config(Some("id"), Some("many"), Some("-1")).unwrap();
    assert_eq!((config.max_values, config.max_hashes), (4096, 1_000_000));
    assert!(exact_index_config(Some("id"), Some("0"), Some("0")).is_none());
    assert!(exact_index_config(Some(","), None, None).is_none());
    assert!(exact_index_config(None, Some("7"), None).is_none());
}

#[test]
fn text_configuration_follows_its_variables() {
    let config = text_index_config(Some("body"), None).unwrap();
    assert_eq!((config.fields, config.max_terms), (names(&["body"]), 65_536));
    assert_eq!(text_index_config(Some("body"), Some("9")).unwrap().max_terms, 9);
    assert!(text_index_config(Some("body"), Some("0")).is_none());
    assert!(text_index_config(None, None).is_none());
    assert!(text_index_config(Some(" "), None).is_none());
}

#[test]
fn terms_are_in_the_order_of_their_code_points() {
    let mut terms = TermSet::new();
    for term in ["b", "", "ab", "\u{e9}", "a", "B", "\u{10000}", "ab"] {
        terms.insert(term.to_string());
    }

    assert_eq!(terms.len(), 7);
    assert_eq!(terms.into_vec(), vec!["", "B", "a", "ab", "b", "\u{e9}", "\u{10000}"]);
    let mut cleared = TermSet::new();
    cleared.insert("x".to_string());
    cleared.clear();
    assert_eq!(cleared.len(), 0);
}

fn entry_over(groups: &[&[&str]]) -> File {
    let batches: Vec<RecordBatch> = groups.iter().map(|rows| batch(vec![("body", texts(rows))])).collect();
    let row_groups = groups
        .iter()
        .map(|rows| RowGroupMetaData {
            total_byte_size: 1,
            columns: vec![ColumnChunk {
                path: "body".to_string(),
                compressed_size: 1,
                uncompressed_size: 1,
                statistics: Some(TypedStatistics::String(Utf8Type {
                    min: rows.iter().min().unwrap().to_string(),
                    max: rows.iter().max().unwrap().to_string(),
                })),
            }],
            sorting_columns: Some(vec![]),
        })
        .collect();
    create_from_parquet_file(
        "file".to_string(),
        &ParquetMetaData { file_size: 1, num_rows: 1, row_groups },
        Some(exact_index_statistics(&batches, &names(&["body"]), 64, 64)),
        Some(text_ngram_statistics(&batches, &names(&["body"]), 4096)),
    )
}

#[test]
fn entry_rules_out_no_row_of_its_file() {
    let groups: [&[&str]; 2] = [&["Timeout in cart", "ok"], &["payload too large", "OK then"]];
    let file = entry_over(&groups);
    let rows: Vec<&str> = groups.iter().flat_map(|rows| rows.iter().copied()).collect();

    for value in ["Timeout in cart", "ok", "payload too large", "OK then", "", "A", "m", "zz"] {
        for op in [Operator::Eq, Operator::Lt, Operator::LtEq, Operator::Gt, Operator::GtEq] {
            let filter = Expr::BinaryExpr(BinaryExpr {
                left: Box::new(Expr::Column(ColumnRef { name: "body".to_string() })),
                op,
                right: Box::new(Expr::Literal(ScalarValue::Utf8(Some(value.to_string())), None)),
            });
            let met = rows.iter().any(|row| match op {
                Operator::Eq => *row == value,
                Operator::Lt => *row < value,
                Operator::LtEq => *row <= value,
                Operator::Gt => *row > value,
                _ => *row >= value,
            });
            assert_eq!(file.can_be_pruned(&filter), !met);
        }
    }
    for part in ["cart", "CART", "too l", "x", "okt", "out in"] {
        let filter = Expr::Like(Like {
            negated: false,
            expr: Box::new(Expr::Column(ColumnRef { name: "body".to_string() })),
            pattern: Box::new(Expr::Literal(ScalarValue::Utf8(Some(format!("%{part}%"))), None)),
            escape_char: None,
            case_insensitive: true,
        });
        let met = rows.iter().any(|row| row.to_lowercase().contains(&part.to_lowercase()));
        assert_eq!(file.can_be_pruned(&filter), !met);
    }
}

fn double(value: f64) -> FloatScalar {
    FloatScalar { value: FloatBits { bits: value.to_bits() }, text: value.to_string() }
}

fn load(op: Operator, value: f64) -> Expr {
    Expr::BinaryExpr(BinaryExpr {
        left: Box::new(Expr::Column(ColumnRef { name: "load".to_string() })),
        op,
        right: Box::new(Expr::Literal(ScalarValue::Float64(Some(double(value))), None)),
    })
}

fn load_between(low: f64, high: f64) -> Expr {
    Expr::Between(Between {
        expr: Box::new(Expr::Column(ColumnRef { name: "load".to_string() })),
        negated: false,
        low: Box::new(Expr::Literal(ScalarValue::Float64(Some(double(low))), None)),
        high: Box::new(Expr::Literal(ScalarValue::Float64(Some(double(high))), None)),
    })
}

fn load_entry(cells: Array, min: f64, max: f64) -> File {
    let batches = vec![batch(vec![("load", cells)])];
    let statistics = Some(TypedStatistics::Float(Float64Type {
        min: FloatBits { bits: min.to_bits() },
        max: FloatBits { bits: max.to_bits() },
    }));
    create_from_parquet_file(
        "file".to_string(),
        &ParquetMetaData {
            file_size: 1,
            num_rows: 1,
            row_groups: vec![RowGroupMetaData {
                total_byte_size: 1,
                columns: vec![ColumnChunk {
                    path: "load".to_string(),
                    compressed_size: 1,
                    uncompressed_size: 1,
                    statistics,
                }],
                sorting_columns: Some(vec![]),
            }],
        },
        Some(exact_index_statistics(&batches, &names(&["load"]), 8, 8)),
        None,
    )
}

#[test]
fn built_index_of_doubles_prunes_ranges() {
    let cells = Array::Float64(vec![Some(double(1.5)), None, Some(double(1.5)), Some(double(-2.0))]);
    let file = load_entry(cells, -2.0, 10.0);
    let index = file.columns[0].exact_values.as_ref().unwrap();

    assert_eq!(index.values, vec!["-2", "1.5"]);
    let read: Vec<Option<u64>> = index.floats.iter().map(|float| float.map(|float| float.bits)).collect();
    assert_eq!(read, vec![Some((-2.0_f64).to_bits()), Some(1.5_f64.to_bits())]);
    assert!(file.can_be_pruned(&load(Operator::Gt, 3.0)));
    assert!(!file.can_be_pruned(&load(Operator::GtEq, 1.5)));
    assert!(file.can_be_pruned(&load_between(2.0, 9.0)));
    assert!(!file.can_be_pruned(&load_between(1.0, 9.0)));
}

#[test]
fn built_index_of_singles_reads_their_texts() {
    let single = |value: f32| {
        let text = value.to_string();
        FloatScalar { value: FloatBits { bits: text.parse::<f64>().unwrap().to_bits() }, text }
    };
    let file = load_entry(Array::Float32(vec![Some(single(0.1))]), 0.1_f32 as f64, 1.0);

    assert!(file.can_be_pruned(&load_between(0.5, 0.75)));
    assert!(!file.can_be_pruned(&load_between(0.05, 0.1)));
}

#[test]
fn built_index_with_a_nan_prunes_no_range() {
    let cells = Array::Float64(vec![Some(double(1.5)), Some(double(f64::NAN))]);
    let file = load_entry(cells, 1.5, 10.0);

    assert!(!file.can_be_pruned(&load(Operator::Gt, 3.0)));
    assert!(!file.can_be_pruned(&load_between(2.0, 9.0)));
    assert!(file.can_be_pruned(&load(Operator::Gt, 10.0)));
}

#[test]
fn text_that_meets_a_pattern_has_its_terms() {
    let has_terms = |text: &str, pattern: &str, escape_char: Option<char>| {
        let mut grams = TermSet::new();
        insert_lowercase_pruning_ngrams(text, &mut grams);
        let grams = grams.into_vec();
        like_literal_index_terms(pattern, escape_char).iter().all(|term| grams.contains(term))
    };

    assert!(has_terms("GET /Cart/42 took 100%", "GET %/Cart/__ took%", None));
    assert!(has_terms("GET /Cart/42 took 100%", "get %/CART/4_%", None));
    assert!(has_terms("GET /Cart/42 took 100%", "% 100!%", Some('!')));
    assert!(!has_terms("GET /Cart/42 took 100%", "%carts%", None));
}
