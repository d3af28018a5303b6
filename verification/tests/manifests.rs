use parseable::catalog::column::{
    Column, ExactHashes, ExactValues, Float64Type, Int64Type, TextNgrams, TypedStatistics, Utf8Type,
};
use parseable::catalog::index::ExactIndexData;
use parseable::catalog::manifest::{
    create_from_parquet_file, is_summable, File, Manifest, SortOrder, CURRENT_MANIFEST_VERSION,
};
use parseable::catalog::row_group::{
    checked_column_statistics, column_statistics, file_sort_order, sort_order, ColumnChunk, ParquetMetaData,
    RowGroupMetaData, SortingColumn,
};
use parseable::float::FloatBits;

fn entry(path: &str, rows: u64) -> File {
    File { file_path: path.to_string(), num_rows: rows, ..File::default() }
}

fn listed(manifest: &Manifest) -> Vec<(&str, u64)> {
    manifest.files.iter().map(|file| (file.file_path.as_str(), file.num_rows)).collect()
}

fn range(min: i64, max: i64) -> Option<TypedStatistics> {
    Some(TypedStatistics::Int(Int64Type { min, max }))
}

fn words(min: &str, max: &str) -> Option<TypedStatistics> {
    Some(TypedStatistics::String(Utf8Type { min: min.to_string(), max: max.to_string() }))
}

fn chunk(path: &str, compressed: u64, uncompressed: u64, statistics: Option<TypedStatistics>) -> ColumnChunk {
    ColumnChunk {
        path: path.to_string(),
        compressed_size: compressed,
        uncompressed_size: uncompressed,
        statistics,
    }
}

fn sorted_by(column_idx: i32, descending: bool, nulls_first: bool) -> SortingColumn {
    SortingColumn { column_idx, descending, nulls_first }
}

fn row_group(bytes: u64, columns: Vec<ColumnChunk>, sorting: Vec<SortingColumn>) -> RowGroupMetaData {
    RowGroupMetaData { total_byte_size: bytes, columns, sorting_columns: Some(sorting) }
}

fn ints(column: &Column) -> Option<(i64, i64)> {
    match &column.stats {
        Some(TypedStatistics::Int(stats)) => Some((stats.min, stats.max)),
        _ => None,
    }
}

#[test]
fn new_manifest_is_empty_and_current() {
    let manifest = Manifest::default();

    assert_eq!(manifest.version, "v1");
    assert_eq!(CURRENT_MANIFEST_VERSION, "v1");
    assert!(manifest.files.is_empty());
    assert_eq!(SortOrder::default(), SortOrder::DescNullsFirst);
    let file = File::default();
    assert_eq!((file.num_rows, file.file_size, file.ingestion_size), (0, 0, 0));
    assert!(file.file_path.is_empty() && file.columns.is_empty() && file.sort_order_id.is_empty());
}

#[test]
fn change_replaces_the_entry_of_its_path() {
    let mut manifest = Manifest::default();
    manifest.apply_change(entry("a", 1));
    manifest.apply_change(entry("b", 2));
    manifest.apply_change(entry("a", 3));

    assert_eq!(listed(&manifest), vec![("a", 3), ("b", 2)]);
    assert_eq!(manifest.version, "v1");
}

#[test]
fn change_replaces_the_first_of_two_entries() {
    let mut manifest = Manifest { version: "v0".to_string(), files: vec![entry("a", 1), entry("a", 2)] };
    manifest.apply_change(entry("a", 3));

    assert_eq!(listed(&manifest), vec![("a", 3), ("a", 2)]);
    assert_eq!(manifest.version, "v0");
}

#[test]
fn change_twice_is_change_once() {
    let mut manifest = Manifest::default();
    manifest.apply_change(entry("a", 1));
    manifest.apply_change(entry("c", 5));
    let once = manifest.files.len();
    manifest.apply_change(entry("c", 5));

    assert_eq!(manifest.files.len(), once);
    assert_eq!(listed(&manifest), vec![("a", 1), ("c", 5)]);
}

#[test]
fn columns_are_summed_up_over_row_groups() {
    let groups = vec![
        row_group(1, vec![chunk("id", 1, 10, range(5, 9)), chunk("body", 2, 20, words("b", "d"))], vec![]),
        row_group(1, vec![chunk("body", 4, 40, words("a", "c")), chunk("id", 8, 80, range(-3, 6))], vec![]),
        row_group(1, vec![chunk("id", 16, 160, None)], vec![]),
    ];

    let columns = column_statistics(&groups);

    assert_eq!(columns.len(), 2);
    assert_eq!(columns[0].name, "id");
    assert_eq!((columns[0].compressed_size, columns[0].uncompressed_size), (25, 250));
    assert_eq!(ints(&columns[0]), Some((-3, 9)));
    assert_eq!(columns[1].name, "body");
    assert_eq!((columns[1].compressed_size, columns[1].uncompressed_size), (6, 60));
    assert!(matches!(&columns[1].stats, Some(TypedStatistics::String(s)) if s.min == "a" && s.max == "d"));
    assert!(columns[0].exact_values.is_none() && columns[0].text_ngrams.is_none());
}

#[test]
fn column_without_first_statistics_has_no_range() {
    let groups = vec![
        row_group(1, vec![chunk("id", 1, 1, None)], vec![]),
        row_group(1, vec![chunk("id", 1, 1, range(1, 2))], vec![]),
    ];

    assert!(column_statistics(&groups)[0].stats.is_none());
}

#[test]
fn column_of_two_types_has_no_range() {
    let groups = vec![
        row_group(1, vec![chunk("id", 1, 1, range(1, 2))], vec![]),
        row_group(1, vec![chunk("id", 1, 1, words("a", "b"))], vec![]),
        row_group(1, vec![chunk("id", 1, 1, range(1, 2))], vec![]),
    ];

    assert!(column_statistics(&groups)[0].stats.is_none());
}

#[test]
fn ranges_of_doubles_cover_both() {
    let bits = |value: f64| FloatBits { bits: value.to_bits() };
    let float = |min: f64, max: f64| TypedStatistics::Float(Float64Type { min: bits(min), max: bits(max) });

    let both = float(-1.0, 0.5).update(float(-0.25, 3.0)).unwrap();
    assert!(matches!(both, TypedStatistics::Float(s) if s.min == bits(-1.0) && s.max == bits(3.0)));
    assert!(float(0.0, 1.0).update(range(0, 1).unwrap()).is_none());
}

#[test]
fn sizes_that_do_not_add_up_are_told_apart() {
    let fits = vec![row_group(1, vec![chunk("a", u64::MAX, 0, None), chunk("b", u64::MAX, 0, None)], vec![])];
    let overflows = vec![row_group(1, vec![chunk("a", u64::MAX, 0, None), chunk("a", 1, 0, None)], vec![])];

    assert!(checked_column_statistics(&fits).is_some());
    assert!(checked_column_statistics(&overflows).is_none());
    assert!(is_summable(&fits));
    assert!(!is_summable(&overflows));
    assert!(!is_summable(&[row_group(u64::MAX, vec![], vec![]), row_group(1, vec![], vec![])]));
}

#[test]
fn row_groups_that_do_not_say_their_order_are_told_apart() {
    let silent = RowGroupMetaData { total_byte_size: 1, columns: vec![], sorting_columns: None };
    let beyond = row_group(1, vec![chunk("a", 1, 1, None)], vec![sorted_by(1, true, true)]);
    let negative = row_group(1, vec![chunk("a", 1, 1, None)], vec![sorted_by(-1, true, true)]);

    assert!(!is_summable(&[silent]));
    assert!(!is_summable(&[beyond]));
    assert!(!is_summable(&[negative]));
    assert!(is_summable(&[]));
}

#[test]
fn each_sort_order_is_read() {
    let columns = vec![chunk("a", 1, 1, None), chunk("b", 1, 1, None)];
    let sorting =
        vec![sorted_by(1, true, true), sorted_by(0, true, false), sorted_by(0, false, true), sorted_by(0, false, false)];

    assert_eq!(
        sort_order(&[row_group(1, columns, sorting)]),
        vec![vec![
            ("b".to_string(), SortOrder::DescNullsFirst),
            ("a".to_string(), SortOrder::DescNullsLast),
            ("a".to_string(), SortOrder::AscNullsFirst),
            ("a".to_string(), SortOrder::AscNullsLast),
        ]]
    );
}

#[test]
fn file_is_sorted_as_all_its_row_groups_are() {
    let group = |descending| row_group(1, vec![chunk("t", 1, 1, None)], vec![sorted_by(0, descending, true)]);

    assert_eq!(
        file_sort_order(&[group(true), group(true)]),
        vec![("t".to_string(), SortOrder::DescNullsFirst)]
    );
    assert!(file_sort_order(&[group(true), group(false)]).is_empty());
    assert!(file_sort_order(&[]).is_empty());
}

#[test]
fn entry_of_a_file_holds_metadata_and_indexes() {
    let metadata = ParquetMetaData {
        file_size: 900,
        num_rows: 12,
        row_groups: vec![
            row_group(40, vec![chunk("id", 1, 2, range(1, 2)), chunk("body", 3, 4, None)], vec![sorted_by(0, true, true)]),
            row_group(2, vec![chunk("id", 1, 2, range(0, 1))], vec![sorted_by(0, true, true)]),
        ],
    };
    let exact = ExactIndexData {
        values: Some(ExactValues { complete: true, values: vec!["1".to_string()], floats: vec![] }),
        hashes: Some(ExactHashes { complete: true, hashes: vec![7] }),
    };
    let stray = ExactIndexData { values: None, hashes: None };
    let grams = TextNgrams { complete: true, min_len: 1, grams: vec!["x".to_string()] };

    let file = create_from_parquet_file(
        "stream/date=2023".to_string(),
        &metadata,
        Some(vec![("id".to_string(), exact), ("gone".to_string(), stray)]),
        Some(vec![("body".to_string(), grams)]),
    );

    assert_eq!(file.file_path, "stream/date=2023");
    assert_eq!((file.num_rows, file.file_size, file.ingestion_size), (12, 900, 42));
    assert_eq!(file.sort_order_id, vec![("id".to_string(), SortOrder::DescNullsFirst)]);
    assert_eq!(file.columns.len(), 2);
    let (id, body) = (&file.columns[0], &file.columns[1]);
    assert_eq!((id.name.as_str(), body.name.as_str()), ("id", "body"));
    assert_eq!(ints(id), Some((0, 2)));
    assert_eq!(id.exact_values.as_ref().unwrap().values, vec!["1"]);
    assert_eq!(id.exact_hashes.as_ref().unwrap().hashes, vec![7]);
    assert!(id.text_ngrams.is_none());
    assert!(body.exact_values.is_none());
    assert_eq!(body.text_ngrams.as_ref().unwrap().grams, vec!["x"]);
    assert!(body.text_ngram_hashes.is_none());
}

#[test]
fn entry_of_an_unindexed_file() {
    let metadata = ParquetMetaData { file_size: 1, num_rows: 0, row_groups: vec![] };

    let file = create_from_parquet_file("p".to_string(), &metadata, None, None);

    assert!(file.columns.is_empty() && file.sort_order_id.is_empty());
    assert_eq!(file.ingestion_size, 0);
}
