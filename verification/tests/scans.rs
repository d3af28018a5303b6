use parseable::catalog::column::{Column, Int64Type, TypedStatistics};
use parseable::catalog::manifest::{File, Manifest, SortOrder};
use parseable::catalog::snapshot::{ManifestItem, Snapshot};
use parseable::datetime::NaiveDateTime;
use parseable::expr::{BinaryExpr, ColumnRef, Expr, Operator, ScalarValue};
use parseable::query::planner::{
    final_plan, output_order, step, FinalPlan, Mode, ScanAction, ScanEvent, ScanState,
};
use parseable::query::scan::{
    collect_from_snapshot, partition_files, partitioned_files, rows_are_countable,
};
use parseable::query::staging::{order_staging_files, staging_group, PathPart, PrefixKind, StagingFile};
use parseable::query::time_filter::{Bound, PartialTimeFilter};

fn column(name: &str, stats: Option<(i64, i64)>) -> Column {
    Column {
        name: name.to_string(),
        stats: stats.map(|(min, max)| TypedStatistics::Int(Int64Type { min, max })),
        exact_values: None,
        exact_hashes: None,
        text_ngrams: None,
        text_ngram_hashes: None,
        uncompressed_size: 1,
        compressed_size: 1,
    }
}

fn file(path: &str, rows: u64, columns: Vec<Column>) -> File {
    File { file_path: path.to_string(), num_rows: rows, file_size: rows * 10, columns, ..File::default() }
}

fn manifest(files: Vec<File>) -> Manifest {
    Manifest { files, ..Manifest::default() }
}

fn paths(files: &[File]) -> Vec<&str> {
    files.iter().map(|file| file.file_path.as_str()).collect()
}

fn compare(name: &str, op: Operator, value: ScalarValue) -> Expr {
    Expr::BinaryExpr(BinaryExpr {
        left: Box::new(Expr::Column(ColumnRef { name: name.to_string() })),
        op,
        right: Box::new(Expr::Literal(value, None)),
    })
}

fn over(value: i64) -> Expr {
    compare("n", Operator::Gt, ScalarValue::Int64(Some(value)))
}

fn time(secs: i64) -> NaiveDateTime {
    NaiveDateTime::from_parts(secs, 0).unwrap()
}

fn item(path: &str, lower: i64, upper: i64) -> ManifestItem {
    ManifestItem {
        manifest_path: path.to_string(),
        time_lower_bound: time(lower),
        time_upper_bound: time(upper),
        events_ingested: 0,
        ingestion_size: 0,
        storage_size: 0,
    }
}

fn range(stats: &Option<TypedStatistics>) -> Option<(i64, i64)> {
    match stats {
        Some(TypedStatistics::Int(stats)) => Some((stats.min, stats.max)),
        _ => None,
    }
}

#[test]
fn files_are_collected_latest_first() {
    let manifests = vec![
        manifest(vec![file("a", 1, vec![]), file("b", 1, vec![])]),
        manifest(vec![]),
        manifest(vec![file("c", 1, vec![])]),
    ];

    assert_eq!(paths(&collect_from_snapshot(manifests, &[], None)), vec!["c", "b", "a"]);
}

#[test]
fn files_that_a_filter_rules_out_are_left_out() {
    let files = || {
        vec![manifest(vec![
            file("low", 1, vec![column("n", Some((0, 10)))]),
            file("high", 1, vec![column("n", Some((20, 30)))]),
            file("unknown", 1, vec![column("n", None)]),
        ])]
    };

    assert_eq!(paths(&collect_from_snapshot(files(), &[over(15)], None)), vec!["unknown", "high"]);
    assert_eq!(paths(&collect_from_snapshot(files(), &[over(5), over(40)], None)), vec!["unknown"]);
}

#[test]
fn a_limit_takes_files_until_it_is_reached() {
    let files = || vec![manifest(vec![file("c", 5, vec![]), file("b", 5, vec![]), file("a", 5, vec![])])];

    assert_eq!(paths(&collect_from_snapshot(files(), &[], Some(0))), vec!["a"]);
    assert_eq!(paths(&collect_from_snapshot(files(), &[], Some(5))), vec!["a"]);
    assert_eq!(paths(&collect_from_snapshot(files(), &[], Some(6))), vec!["a", "b"]);
    assert_eq!(paths(&collect_from_snapshot(files(), &[], Some(100))), vec!["a", "b", "c"]);
    assert!(collect_from_snapshot(vec![], &[], Some(3)).is_empty());
}

#[test]
fn a_limit_does_not_overflow() {
    let files = vec![manifest(vec![file("b", u64::MAX / 10, vec![]), file("a", 3, vec![])])];

    assert_eq!(paths(&collect_from_snapshot(files, &[], Some(4))), vec!["a", "b"]);
}

#[test]
fn files_are_dealt_out_in_turn() {
    let files = (0..5).map(|i| file(&i.to_string(), i, vec![])).collect::<Vec<_>>();

    let shares = partition_files(files, &[], 3);

    let dealt = shares
        .groups
        .iter()
        .map(|group| group.iter().map(|file| (file.path.as_str(), file.size)).collect::<Vec<_>>())
        .collect::<Vec<_>>();
    assert_eq!(dealt, vec![vec![("0", 0), ("3", 30)], vec![("1", 10), ("4", 40)], vec![("2", 20)]]);
    assert_eq!((shares.num_rows, shares.file_count), (10, 5));
}

#[test]
fn ranges_are_merged_over_files() {
    let files = vec![
        file("a", 1, vec![column("n", Some((5, 9))), column("late", None)]),
        file("b", 1, vec![column("n", Some((-1, 6))), column("late", Some((1, 2)))]),
        file("c", 1, vec![column("n", None), column("new", Some((3, 4)))]),
    ];
    let schema = vec!["new".to_string(), "n".to_string(), "late".to_string(), "absent".to_string()];

    let shares = partition_files(files, &schema, 1);

    let ranges = shares.ranges.iter().map(range).collect::<Vec<_>>();
    assert_eq!(ranges, vec![Some((3, 4)), Some((-1, 9)), None, None]);
}

#[test]
fn files_are_dealt_out_to_all_processors() {
    let files = (0..40).map(|i| file(&i.to_string(), 1, vec![])).collect::<Vec<_>>();

    let shares = partitioned_files(files, &[]);

    assert_eq!(shares.groups.len(), num_cpus::get());
    assert_eq!(shares.groups.iter().map(|group| group.len()).sum::<usize>(), 40);
    let most = shares.groups.iter().map(|group| group.len()).max().unwrap();
    let least = shares.groups.iter().map(|group| group.len()).min().unwrap();
    assert!(most - least <= 1);
}

#[test]
fn rows_that_cannot_be_counted_are_told_apart() {
    let huge = |rows| File { num_rows: rows, ..File::default() };

    assert!(rows_are_countable(&[huge(u64::MAX), huge(0)]));
    assert!(!rows_are_countable(&[huge(u64::MAX), huge(1)]));
}

fn staged(path: &str) -> StagingFile {
    let mut parts = vec![PathPart::Root];
    for part in path.split('/').skip(1) {
        parts.push(match part {
            "." => PathPart::Current,
            ".." => PathPart::Parent,
            name => PathPart::Normal(name.as_bytes().to_vec()),
        });
    }
    StagingFile { parts, path: path.to_string(), place: 0 }
}

#[test]
fn staging_files_are_read_latest_first() {
    let files = vec![staged("/s/a"), staged("/s/c"), staged("/s.x/b"), staged("/s"), staged("/s/b"), staged("/../z")];

    let ordered = order_staging_files(files);

    let paths = ordered.iter().map(|file| file.path.as_str()).collect::<Vec<_>>();
    assert_eq!(paths, vec!["/s.x/b", "/s/c", "/s/b", "/s/a", "/s", "/../z"]);
    let mut expected = ["/s/a", "/s/c", "/s.x/b", "/s", "/s/b", "/../z"].map(std::path::PathBuf::from).to_vec();
    expected.sort_by(|a, b| a.cmp(b).reverse());
    assert_eq!(paths, expected.iter().map(|path| path.to_str().unwrap()).collect::<Vec<_>>());
}

#[test]
fn staging_files_of_one_path_stay_in_their_order() {
    let names = ["/s/a", "/s/b", "/s/a", "/s/c", "/s/b", "/s/a"];
    let files =
        names.iter().enumerate().map(|(place, path)| StagingFile { place, ..staged(path) }).collect::<Vec<_>>();

    let places = order_staging_files(files).iter().map(|file| file.place).collect::<Vec<_>>();

    assert_eq!(places, vec![3, 1, 4, 0, 2, 5]);
    let mut expected = names.iter().enumerate().collect::<Vec<_>>();
    expected.sort_by(|(_, a), (_, b)| a.cmp(b).reverse());
    assert_eq!(places, expected.iter().map(|(place, _)| *place).collect::<Vec<_>>());
}

#[test]
fn staging_paths_are_ordered_by_prefix_and_bytes() {
    let under = |place: usize, part: PathPart| StagingFile { parts: vec![part], path: String::new(), place };
    let prefix = |kind: PrefixKind, first: &str, second: &str| {
        PathPart::Prefix(kind, first.as_bytes().to_vec(), second.as_bytes().to_vec())
    };
    let files = vec![
        under(0, PathPart::Normal(vec![0xff])),
        under(1, PathPart::Normal(vec![0xfe, 0xff])),
        under(2, PathPart::Normal(vec![0xfe])),
        under(3, PathPart::Root),
        under(4, prefix(PrefixKind::Disk, "D", "")),
        under(5, prefix(PrefixKind::Disk, "C", "")),
        under(6, prefix(PrefixKind::Share, "host", "b")),
        under(7, prefix(PrefixKind::Share, "host", "a")),
        under(8, prefix(PrefixKind::Share, "hos", "z")),
        under(9, prefix(PrefixKind::Device, "x", "")),
        under(10, prefix(PrefixKind::VerbatimDisk, "Z", "")),
        under(11, prefix(PrefixKind::VerbatimShare, "h", "s")),
        under(12, prefix(PrefixKind::Verbatim, "v", "")),
    ];

    let forward = order_staging_files(files.clone()).iter().map(|file| file.place).collect::<Vec<_>>();
    let backward =
        order_staging_files(files.into_iter().rev().collect()).iter().map(|file| file.place).collect::<Vec<_>>();

    assert_eq!(forward, (0..13).collect::<Vec<_>>());
    assert_eq!(backward, forward);
}

#[test]
fn staging_files_that_are_gone_are_left_out() {
    let group = staging_group(vec![("b".to_string(), Some(7)), ("a".to_string(), None), ("c".to_string(), Some(0))]);

    let read = group.iter().map(|file| (file.path.as_str(), file.size)).collect::<Vec<_>>();
    assert_eq!(read, vec![("b", 7), ("c", 0)]);
}

#[test]
fn plans_are_put_together() {
    assert_eq!(final_plan(0), FinalPlan::Empty);
    assert_eq!(final_plan(1), FinalPlan::Single);
    assert_eq!(final_plan(2), FinalPlan::Union);
}

#[test]
fn rows_come_by_time_latest_first() {
    assert_eq!(output_order(None), ("p_timestamp".to_string(), SortOrder::DescNullsFirst));
    assert_eq!(output_order(Some("at")), ("at".to_string(), SortOrder::DescNullsFirst));
}

fn millis(secs: i64) -> ScalarValue {
    ScalarValue::TimestampMillisecond(Some(secs * 1000), None)
}

#[test]
fn scan_of_recent_data_goes_through_staging() {
    let filters = [over(15)];
    let snapshot = Snapshot { manifest_list: vec![item("m", 100, 200)] };
    let format = ScanEvent::FormatRead { time_partition: None, snapshot, now: time(1_000_000) };

    let (state, action) = step(ScanState::Format, format, &filters, None, Mode::Other);
    assert!(matches!(action, ScanAction::ScanStaging));
    let (state, action) = step(state, ScanEvent::StagingScanned, &filters, None, Mode::Other);
    let ScanAction::ReadManifests { time_filters, snapshot } = action else { panic!("manifests") };
    assert!(time_filters.is_empty());
    assert_eq!(snapshot.manifest_list[0].manifest_path, "m");
    let manifests = vec![manifest(vec![
        file("low", 1, vec![column("n", Some((0, 10)))]),
        file("high", 1, vec![column("n", Some((20, 30)))]),
    ])];
    let (state, action) = step(state, ScanEvent::ManifestsRead { manifests }, &filters, None, Mode::Other);
    assert!(matches!(action, ScanAction::CheckHotTier));
    let (state, action) = step(state, ScanEvent::HotTierChecked { exists: false }, &filters, None, Mode::Other);
    let ScanAction::ScanStore { files } = action else { panic!("store") };
    assert_eq!(paths(&files), vec!["high"]);
    let (state, action) = step(state, ScanEvent::StoreScanned, &filters, None, Mode::Other);
    assert!(matches!(state, ScanState::Done));
    assert!(matches!(action, ScanAction::Finish { cache_hit: false }));
}

#[test]
fn scan_of_older_data_is_split() {
    let filters = [
        compare("p_timestamp", Operator::GtEq, millis(50)),
        compare("p_timestamp", Operator::Lt, millis(150)),
    ];
    let format = ScanEvent::FormatRead {
        time_partition: None,
        snapshot: Snapshot::default(),
        now: time(1_000_000),
    };

    let (state, action) = step(ScanState::Format, format, &filters, Some(5), Mode::Query);
    assert!(matches!(action, ScanAction::ReadFormats));
    let snapshots = vec![
        Snapshot { manifest_list: vec![item("b", 120, 180)] },
        Snapshot { manifest_list: vec![item("a", 100, 110)] },
    ];
    let (state, action) = step(state, ScanEvent::FormatsRead { snapshots }, &filters, Some(5), Mode::Query);
    let ScanAction::ScanListing { time_filters } = action else { panic!("listing") };
    assert_eq!(
        time_filters,
        vec![
            PartialTimeFilter::Low(Bound::Included(time(50))),
            PartialTimeFilter::High(Bound::Excluded(time(100))),
        ]
    );
    let (state, action) = step(state, ScanEvent::ListingScanned, &filters, Some(5), Mode::Query);
    let ScanAction::ReadManifests { time_filters, snapshot } = action else { panic!("manifests") };
    assert_eq!(
        time_filters,
        vec![
            PartialTimeFilter::Low(Bound::Included(time(100))),
            PartialTimeFilter::High(Bound::Excluded(time(150))),
        ]
    );
    assert_eq!(snapshot.manifest_list.len(), 2);
    assert_eq!(snapshot.manifest_list[0].manifest_path, "b");
    let (state, action) = step(state, ScanEvent::ManifestsRead { manifests: vec![] }, &filters, Some(5), Mode::Query);
    assert!(matches!(state, ScanState::Done));
    assert!(matches!(action, ScanAction::Finish { cache_hit: false }));
}

#[test]
fn scan_that_the_hot_tier_answers_is_a_hit() {
    let files = || vec![file("a", 1, vec![]), file("b", 1, vec![])];

    let waiting = ScanState::HotTierCheck { files: files() };
    let (state, action) = step(waiting, ScanEvent::HotTierChecked { exists: true }, &[], None, Mode::Other);
    let ScanAction::ScanHotTier { files: asked } = action else { panic!("hot tier") };
    assert_eq!(paths(&asked), vec!["a", "b"]);
    let (done, action) = step(state, ScanEvent::HotTierScanned { files: vec![] }, &[], None, Mode::Other);
    assert!(matches!(done, ScanState::Done));
    assert!(matches!(action, ScanAction::Finish { cache_hit: true }));

    let (state, action) = step(ScanState::HotTier, ScanEvent::HotTierScanned { files: files() }, &[], None, Mode::Other);
    assert!(matches!(state, ScanState::Store));
    let ScanAction::ScanStore { files } = action else { panic!("store") };
    assert_eq!(paths(&files), vec!["a", "b"]);
}

#[test]
fn stream_without_manifests_is_listed() {
    let filters = [compare("p_timestamp", Operator::Lt, millis(150))];
    let format = ScanEvent::FormatRead {
        time_partition: None,
        snapshot: Snapshot::default(),
        now: time(1_000_000),
    };

    let (_, action) = step(ScanState::Format, format, &filters, None, Mode::Other);
    let ScanAction::ScanListing { time_filters } = action else { panic!("listing") };
    assert_eq!(time_filters, vec![PartialTimeFilter::High(Bound::Excluded(time(150)))]);
    let prism = step(ScanState::Staging { time_filters: vec![], snapshot: Snapshot::default() },
        ScanEvent::StagingScanned, &[], None, Mode::Prism);
    assert!(matches!(prism.1, ScanAction::ReadFormats));
}
