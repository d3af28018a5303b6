use std::ops::Add;

use chrono::{DateTime, Duration, NaiveDate, NaiveTime, Utc};
use parseable::catalog::snapshot::{ManifestItem, Snapshot};
use parseable::datetime::NaiveDateTime;
use parseable::expr::{BinaryExpr, ColumnRef, Expr, Operator, ScalarValue};
use parseable::query::time_filter::{
    asks_for_data_since, expr_in_boundary, extract_primary_filter, extract_timestamp_bound,
    is_overlapping_query, is_within_staging_window, is_within_staging_window_at, return_listing_time_filters,
    supports_filters_pushdown, timestamps_are_held, Bound, FilterPushDown, PartialTimeFilter,
};

fn held(time: chrono::NaiveDateTime) -> NaiveDateTime {
    let time = time.and_utc();
    NaiveDateTime::from_parts(time.timestamp(), time.timestamp_subsec_nanos()).unwrap()
}

fn datetime_min(year: i32, month: u32, day: u32) -> DateTime<Utc> {
    NaiveDate::from_ymd_opt(year, month, day).unwrap().and_time(NaiveTime::MIN).and_utc()
}

fn datetime_max(year: i32, month: u32, day: u32) -> DateTime<Utc> {
    NaiveDate::from_ymd_opt(year, month, day).unwrap().and_hms_milli_opt(23, 59, 59, 999).unwrap().and_utc()
}

fn item(path: &str, day: u32) -> ManifestItem {
    ManifestItem {
        manifest_path: path.to_string(),
        time_lower_bound: held(datetime_min(2023, 12, day).naive_utc()),
        time_upper_bound: held(datetime_max(2023, 12, day).naive_utc()),
        events_ingested: 0,
        ingestion_size: 0,
        storage_size: 0,
    }
}

fn manifest_items() -> Vec<ManifestItem> {
    vec![item("1", 15), item("2", 16), item("3", 17)]
}

fn day(day: u32) -> NaiveDateTime {
    held(datetime_min(2023, 12, day).naive_utc())
}

fn column(name: &str) -> Expr {
    Expr::Column(ColumnRef { name: name.to_string() })
}

fn compare(name: &str, op: Operator, value: ScalarValue) -> Expr {
    Expr::BinaryExpr(BinaryExpr {
        left: Box::new(column(name)),
        op,
        right: Box::new(Expr::Literal(value, None)),
    })
}

fn millis(value: i64) -> ScalarValue {
    ScalarValue::TimestampMillisecond(Some(value), None)
}

fn at(time: &str) -> NaiveDateTime {
    held(chrono::NaiveDateTime::parse_from_str(time, "%Y-%m-%d %H:%M:%S").unwrap())
}

#[test]
fn bound_min_is_overlapping() {
    let res = is_overlapping_query(
        &manifest_items(),
        &[PartialTimeFilter::Low(Bound::Included(held(datetime_min(2023, 12, 14).naive_utc())))],
    );

    assert!(res)
}

#[test]
fn bound_min_plus_hour_is_overlapping() {
    let res = is_overlapping_query(
        &manifest_items(),
        &[PartialTimeFilter::Low(Bound::Included(held(
            datetime_min(2023, 12, 14).naive_utc().add(Duration::hours(3)),
        )))],
    );

    assert!(res)
}

#[test]
fn bound_next_day_min_is_not_overlapping() {
    let res = is_overlapping_query(
        &manifest_items(),
        &[PartialTimeFilter::Low(Bound::Included(held(datetime_min(2023, 12, 16).naive_utc())))],
    );

    assert!(!res)
}

#[test]
fn timestamp_in_milliseconds() {
    let binexpr = BinaryExpr {
        left: Box::new(column("timestamp_column")),
        op: Operator::Eq,
        right: Box::new(Expr::Literal(ScalarValue::TimestampMillisecond(Some(1672531200000), None), None)),
    };

    let time_partition = Some("timestamp_column".to_string());
    let result = extract_timestamp_bound(&binexpr, &time_partition);

    let expected = Some((Operator::Eq, at("2023-01-01 00:00:00")));

    assert_eq!(result, expected);
}

#[test]
fn timestamp_in_nanoseconds() {
    let binexpr = BinaryExpr {
        left: Box::new(column("timestamp_column")),
        op: Operator::Gt,
        right: Box::new(Expr::Literal(
            ScalarValue::TimestampNanosecond(Some(1672531200000000000), None),
            None,
        )),
    };

    let time_partition = Some("timestamp_column".to_string());
    let result = extract_timestamp_bound(&binexpr, &time_partition);

    let expected = Some((Operator::Gt, at("2023-01-01 00:00:00")));

    assert_eq!(result, expected);
}

#[test]
fn string_timestamp() {
    let timestamp = "2023-01-01T00:00:00";
    let binexpr = BinaryExpr {
        left: Box::new(column("timestamp_column")),
        op: Operator::Lt,
        right: Box::new(Expr::Literal(ScalarValue::Utf8(Some(timestamp.to_owned())), None)),
    };

    let time_partition = Some("timestamp_column".to_string());
    let result = extract_timestamp_bound(&binexpr, &time_partition);

    let expected = Some((
        Operator::Lt,
        held(chrono::NaiveDateTime::parse_from_str(timestamp, "%Y-%m-%dT%H:%M:%S").unwrap()),
    ));

    assert_eq!(result, expected);
}

#[test]
fn unexpected_utf8_column() {
    let timestamp = "2023-01-01T00:00:00";
    let binexpr = BinaryExpr {
        left: Box::new(column("other_column")),
        op: Operator::Eq,
        right: Box::new(Expr::Literal(ScalarValue::Utf8(Some(timestamp.to_owned())), None)),
    };

    let time_partition = Some("timestamp_column".to_string());
    let result = extract_timestamp_bound(&binexpr, &time_partition);

    assert!(result.is_none());
}

#[test]
fn unsupported_literal_type() {
    let binexpr = BinaryExpr {
        left: Box::new(column("timestamp_column")),
        op: Operator::Eq,
        right: Box::new(Expr::Literal(ScalarValue::Int32(Some(42)), None)),
    };

    let time_partition = Some("timestamp_column".to_string());
    let result = extract_timestamp_bound(&binexpr, &time_partition);

    assert!(result.is_none());
}

#[test]
fn no_literal_on_right() {
    let binexpr = BinaryExpr {
        left: Box::new(column("timestamp_column")),
        op: Operator::Eq,
        right: Box::new(column("other_column")),
    };

    let time_partition = Some("timestamp_column".to_string());
    let result = extract_timestamp_bound(&binexpr, &time_partition);

    assert!(result.is_none());
}

#[test]
fn non_time_partition_timestamps() {
    let binexpr = BinaryExpr {
        left: Box::new(column("timestamp_column")),
        op: Operator::Eq,
        right: Box::new(Expr::Literal(ScalarValue::TimestampMillisecond(Some(1672531200000), None), None)),
    };

    let time_partition = None;
    let result = extract_timestamp_bound(&binexpr, &time_partition);
    let expected = Some((
        Operator::Eq,
        held(chrono::NaiveDateTime::parse_from_str("2023-01-01T00:00:00", "%Y-%m-%dT%H:%M:%S").unwrap()),
    ));

    assert_eq!(result, expected);

    let binexpr = BinaryExpr {
        left: Box::new(column("timestamp_column")),
        op: Operator::Eq,
        right: Box::new(Expr::Literal(
            ScalarValue::TimestampNanosecond(Some(1672531200000000000), None),
            None,
        )),
    };
    let result = extract_timestamp_bound(&binexpr, &time_partition);

    assert_eq!(result, expected);
}

#[test]
fn each_operator_sets_its_bound() {
    let time = at("2023-01-01 00:00:00");
    let read = |op| PartialTimeFilter::try_from_expr(&compare("t", op, millis(1672531200000)), &None);

    assert_eq!(read(Operator::Gt), Some(PartialTimeFilter::Low(Bound::Excluded(time))));
    assert_eq!(read(Operator::GtEq), Some(PartialTimeFilter::Low(Bound::Included(time))));
    assert_eq!(read(Operator::Lt), Some(PartialTimeFilter::High(Bound::Excluded(time))));
    assert_eq!(read(Operator::LtEq), Some(PartialTimeFilter::High(Bound::Included(time))));
    assert_eq!(read(Operator::Eq), Some(PartialTimeFilter::Eq(time)));
    assert_eq!(read(Operator::IsNotDistinctFrom), Some(PartialTimeFilter::Eq(time)));
    assert_eq!(read(Operator::NotEq), None);
    assert_eq!(PartialTimeFilter::try_from_expr(&column("t"), &None), None);
}

#[test]
fn primary_filters_keep_their_order() {
    let filters = vec![
        compare("t", Operator::GtEq, millis(1000)),
        compare("level", Operator::Eq, ScalarValue::Utf8(Some("error".to_string()))),
        compare("t", Operator::Lt, ScalarValue::Utf8(Some("1970-01-01T00:01:00.5".to_string()))),
    ];
    let partition = Some("t".to_string());

    let found = extract_primary_filter(&filters, &partition);

    let low = NaiveDateTime::from_parts(1, 0).unwrap();
    let high = NaiveDateTime::from_parts(60, 500_000_000).unwrap();
    assert_eq!(
        found,
        vec![PartialTimeFilter::Low(Bound::Included(low)), PartialTimeFilter::High(Bound::Excluded(high))]
    );
    assert_eq!(extract_primary_filter(&filters, &None).len(), 1);
}

#[test]
fn conjunctions_are_not_taken_apart() {
    let both = Expr::BinaryExpr(BinaryExpr {
        left: Box::new(compare("t", Operator::GtEq, millis(1000))),
        op: Operator::And,
        right: Box::new(compare("t", Operator::Lt, millis(2000))),
    });

    assert!(extract_primary_filter(&[both], &None).is_empty());
}

#[test]
fn text_that_is_no_time_sets_no_bound() {
    let filters = vec![compare("t", Operator::Gt, ScalarValue::Utf8(Some("yesterday".to_string())))];

    assert!(extract_primary_filter(&filters, &Some("t".to_string())).is_empty());
}

#[test]
fn timestamps_beyond_the_calendar_are_told_apart() {
    let last = compare("t", Operator::Lt, millis(8_210_266_876_799_999));
    let beyond = compare("t", Operator::Lt, millis(8_210_266_876_800_000));
    let first = compare("t", Operator::Gt, millis(-8_334_601_228_800_000));
    let before = compare("t", Operator::Gt, millis(-8_334_601_228_800_001));

    assert!(timestamps_are_held(&[last, first]));
    assert!(!timestamps_are_held(&[beyond]));
    assert!(!timestamps_are_held(&[before]));
}

#[test]
fn comparison_of_a_filter_reads_back() {
    let time = NaiveDateTime::from_parts(-5, 250_000_000).unwrap();
    let filters = [
        PartialTimeFilter::Low(Bound::Included(time)),
        PartialTimeFilter::Low(Bound::Excluded(time)),
        PartialTimeFilter::High(Bound::Included(time)),
        PartialTimeFilter::High(Bound::Excluded(time)),
        PartialTimeFilter::Eq(time),
    ];

    for filter in filters {
        let expr = filter.binary_expr(column("t"));
        assert_eq!(PartialTimeFilter::try_from_expr(&expr, &None), Some(filter));
    }

    let fine = NaiveDateTime::from_parts(7, 1_999_999).unwrap();
    let coarse = NaiveDateTime::from_parts(7, 1_000_000).unwrap();
    let expr = PartialTimeFilter::Eq(fine).binary_expr(column("t"));
    assert_eq!(PartialTimeFilter::try_from_expr(&expr, &None), Some(PartialTimeFilter::Eq(coarse)));
}

#[test]
fn comparison_of_a_filter_is_in_milliseconds() {
    let time = at("2023-01-01 00:00:00");
    let expr = PartialTimeFilter::High(Bound::Excluded(time)).binary_expr(column("t"));

    let Expr::BinaryExpr(binary) = expr else { panic!("no comparison") };
    assert_eq!(binary.op, Operator::Lt);
    assert!(matches!(*binary.left, Expr::Column(ColumnRef { name }) if name == "t"));
    assert!(matches!(
        *binary.right,
        Expr::Literal(ScalarValue::TimestampMillisecond(Some(1672531200000), None), None)
    ));
}

#[test]
fn bounds_on_the_minute_are_exact() {
    let minute = 1_672_531_200_000;

    assert!(expr_in_boundary(&compare("t", Operator::GtEq, millis(minute))));
    assert!(expr_in_boundary(&compare("t", Operator::Lt, ScalarValue::TimestampNanosecond(Some(-60_000_000_000), None))));
    assert!(!expr_in_boundary(&compare("t", Operator::Eq, millis(minute))));
    assert!(!expr_in_boundary(&compare("t", Operator::GtEq, millis(minute + 1))));
    assert!(!expr_in_boundary(&compare("t", Operator::GtEq, millis(minute + 1000))));
    let text = ScalarValue::Utf8(Some("2023-01-01T00:00:00".to_string()));
    assert!(!expr_in_boundary(&compare("t", Operator::GtEq, text)));
    assert!(!expr_in_boundary(&column("t")));

    let filters = vec![compare("t", Operator::GtEq, millis(minute)), compare("t", Operator::Lt, millis(1))];
    assert_eq!(supports_filters_pushdown(&filters), vec![FilterPushDown::Exact, FilterPushDown::Inexact]);
}

#[test]
fn query_without_manifests_overlaps() {
    assert!(is_overlapping_query(&[], &[]));
    assert!(!is_overlapping_query(&manifest_items(), &[]));
    assert!(!is_overlapping_query(&manifest_items(), &[PartialTimeFilter::High(Bound::Included(day(1)))]));
    assert!(!is_overlapping_query(&manifest_items(), &[PartialTimeFilter::Low(Bound::Excluded(day(15)))]));
    assert!(is_overlapping_query(&[item("b", 17), item("a", 15)], &[PartialTimeFilter::Low(Bound::Excluded(day(14)))]));
}

#[test]
fn split_keeps_filters_where_there_are_no_manifests() {
    let mut filters = vec![PartialTimeFilter::Low(Bound::Included(day(10)))];

    let listing = return_listing_time_filters(&[], &mut filters);

    assert_eq!(listing, Some(vec![PartialTimeFilter::Low(Bound::Included(day(10)))]));
    assert_eq!(filters, vec![PartialTimeFilter::Low(Bound::Included(day(10)))]);
}

#[test]
fn split_at_the_first_manifest() {
    let mut filters = vec![
        PartialTimeFilter::Low(Bound::Included(day(10))),
        PartialTimeFilter::High(Bound::Included(day(20))),
        PartialTimeFilter::High(Bound::Excluded(day(12))),
        PartialTimeFilter::High(Bound::Excluded(day(15))),
    ];

    let listing = return_listing_time_filters(&manifest_items(), &mut filters);

    assert_eq!(
        listing,
        Some(vec![
            PartialTimeFilter::Low(Bound::Included(day(10))),
            PartialTimeFilter::High(Bound::Excluded(day(15))),
            PartialTimeFilter::High(Bound::Excluded(day(12))),
            PartialTimeFilter::High(Bound::Excluded(day(15))),
        ])
    );
    assert_eq!(
        filters,
        vec![
            PartialTimeFilter::Low(Bound::Included(day(15))),
            PartialTimeFilter::High(Bound::Included(day(20))),
            PartialTimeFilter::High(Bound::Excluded(day(12))),
            PartialTimeFilter::High(Bound::Excluded(day(15))),
        ]
    );
}

#[test]
fn split_of_no_filters_lists_nothing() {
    let mut filters = Vec::new();

    assert_eq!(return_listing_time_filters(&manifest_items(), &mut filters), None);
    assert_eq!(filters, vec![PartialTimeFilter::Low(Bound::Included(day(15)))]);
}

#[test]
fn split_keeps_unbounded_and_equal_filters_for_listing() {
    let mut filters = vec![PartialTimeFilter::High(Bound::Unbounded), PartialTimeFilter::Eq(day(16))];

    let listing = return_listing_time_filters(&manifest_items(), &mut filters);

    assert_eq!(listing, Some(vec![PartialTimeFilter::High(Bound::Unbounded), PartialTimeFilter::Eq(day(16))]));
    assert_eq!(filters, vec![PartialTimeFilter::Low(Bound::Included(day(15)))]);
}

fn admits(filter: &PartialTimeFilter, time: NaiveDateTime) -> bool {
    match filter {
        PartialTimeFilter::Low(Bound::Included(bound)) => !time.is_before(bound),
        PartialTimeFilter::Low(Bound::Excluded(bound)) => bound.is_before(&time),
        PartialTimeFilter::High(Bound::Included(bound)) => !bound.is_before(&time),
        PartialTimeFilter::High(Bound::Excluded(bound)) => time.is_before(bound),
        PartialTimeFilter::Eq(bound) => time == *bound,
        _ => true,
    }
}

#[test]
fn split_covers_each_day_once() {
    let given = vec![
        PartialTimeFilter::Low(Bound::Excluded(day(9))),
        PartialTimeFilter::High(Bound::Included(day(20))),
    ];
    let mut kept = given.clone();

    let listing = return_listing_time_filters(&manifest_items(), &mut kept).unwrap();

    for number in 1..31 {
        let asked = given.iter().all(|filter| admits(filter, day(number)));
        let listed = listing.iter().all(|filter| admits(filter, day(number)));
        let in_manifests = kept.iter().all(|filter| admits(filter, day(number)));
        assert_eq!(asked, listed || in_manifests);
        assert!(!(listed && in_manifests));
    }
}

#[test]
fn staging_window_reaches_five_minutes_back() {
    let now = at("2023-01-01 12:07:42");
    let up_to = |time: &str| is_within_staging_window_at(&[PartialTimeFilter::High(Bound::Excluded(at(time)))], &now);

    assert!(up_to("2023-01-01 12:02:00"));
    assert!(!up_to("2023-01-01 12:01:59"));
    assert!(is_within_staging_window_at(&[PartialTimeFilter::Eq(at("2023-01-01 12:02:00"))], &now));
    assert!(is_within_staging_window_at(&[PartialTimeFilter::Low(Bound::Included(at("2020-01-01 00:00:00")))], &now));
    assert!(is_within_staging_window_at(&[PartialTimeFilter::Eq(at("2020-01-01 00:00:00"))], &now));
    assert!(!is_within_staging_window_at(
        &[
            PartialTimeFilter::Eq(at("2020-01-01 00:00:00")),
            PartialTimeFilter::High(Bound::Included(at("2020-01-01 00:00:00"))),
        ],
        &now
    ));
    assert!(!is_within_staging_window_at(&[PartialTimeFilter::High(Bound::Unbounded)], &now));
    assert!(asks_for_data_since(&[], &now));

    let leap = NaiveDateTime::parse("2016-12-31T23:59:60").unwrap();
    let up_to = |time: &str| is_within_staging_window_at(&[PartialTimeFilter::High(Bound::Excluded(at(time)))], &leap);
    assert!(up_to("2016-12-31 23:55:00"));
    assert!(!up_to("2016-12-31 23:54:59"));
}

#[test]
fn staging_window_follows_the_clock() {
    let old = at("2001-01-01 00:00:00");
    let far = NaiveDateTime::from_parts(8_000_000_000_000, 0).unwrap();

    assert!(!is_within_staging_window(&[PartialTimeFilter::High(Bound::Included(old))]));
    assert!(is_within_staging_window(&[PartialTimeFilter::High(Bound::Included(far))]));
    assert!(is_within_staging_window(&[]));
    assert!(old.is_before(&NaiveDateTime::now()));
    assert!(NaiveDateTime::now().is_before(&far));
}

#[test]
fn points_in_time_have_parts() {
    let time = NaiveDateTime::from_timestamp_millis(-1).unwrap();
    assert_eq!((time.timestamp(), time.nanosecond(), time.second()), (-1, 999_000_000, 59));
    assert_eq!(time.timestamp_millis(), -1);
    assert_eq!(NaiveDateTime::from_timestamp_nanos(-1).nanosecond(), 999_999_999);
    assert_eq!(NaiveDateTime::from_timestamp_nanos(-1).timestamp_millis(), -1);
    assert!(NaiveDateTime::from_timestamp_millis(i64::MAX).is_none());
    assert!(NaiveDateTime::from_parts(0, 2_000_000_000).is_none());
    assert!(NaiveDateTime::from_parts(i64::MIN, 0).is_none());
    let read = NaiveDateTime::parse("2016-12-31T23:59:60").unwrap();
    assert_eq!((read.second(), read.nanosecond()), (59, 1_000_000_000));
    assert!(NaiveDateTime::parse("2016-12-31").is_none());
    let minute = at("2023-01-01 12:07:42").minute_before(300).unwrap();
    assert_eq!(minute, at("2023-01-01 12:02:00"));
    assert!(NaiveDateTime::from_parts(-8_334_601_228_800, 0).unwrap().minute_before(1).is_none());
}

#[test]
fn new_snapshot_is_empty() {
    assert!(Snapshot::default().manifest_list.is_empty());
}

#[test]
fn bound_on_the_minute_splits_no_minute() {
    let minute = 1_672_531_200_i64;
    for op in [Operator::GtEq, Operator::Lt, Operator::Gt, Operator::LtEq] {
        let filter = compare("t", op, millis(minute * 1000));
        assert!(expr_in_boundary(&filter));
        let bound = PartialTimeFilter::try_from_expr(&filter, &None).unwrap();
        for start in [minute - 60, minute] {
            let first = if matches!(op, Operator::GtEq | Operator::Lt) { 0 } else { 1 };
            let of_start = admits(&bound, NaiveDateTime::from_parts(start + first, 0).unwrap());
            for second in first..60 {
                let time = NaiveDateTime::from_parts(start + second, 999_999_999).unwrap();
                assert_eq!(admits(&bound, time), of_start);
            }
        }
    }
}
