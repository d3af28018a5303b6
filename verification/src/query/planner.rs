//! How a scan of a stream proceeds: which of its data is read, in which order.
//!
//! The planner decides and the caller acts. The caller performs the action
//! that a step gives, and hands back what came of it as the next event, until
//! the action is to finish.
use vstd::prelude::*;

use crate::catalog::manifest::{File, Manifest, SortInfo, SortOrder};
use crate::catalog::snapshot::{first_lower_bound, ManifestItem, Snapshot};
use crate::datetime::{Instant, NaiveDateTime, MIN_SECS};
use crate::expr::Expr;
use crate::query::scan::{all_files, collect_from_snapshot, enough_files, needed_files};
use crate::query::time_filter::{
    all_admit, asked_time_in_the_window_asks_for_staging, asks_since, early_lower_bound_asks_for_older_data,
    extract_primary_filter, filter_views, filters_that_end_before_the_window_do_not_ask_for_staging,
    is_overlapping_query, is_within_staging_window_at, late_lower_bounds_ask_for_no_older_data, listing_filters,
    manifest_filters, overlaps_older_data, return_listing_time_filters, split_covers_the_query, staging_start,
    time_filters_of, times_are_held, window_starts_five_minutes_ago, PartialTimeFilter, TimeBound, TimeFilter,
    STAGING_WINDOW_SECS,
};
use crate::text::optional_text;

verus! {

// ---------------------------------------------------------------------------
// Settings of a scan
// ---------------------------------------------------------------------------

/// The column that holds the time of an event where a stream has no other.
pub const DEFAULT_TIMESTAMP_KEY: &'static str = "p_timestamp";

/// The least batch size that a limit on rows can ask for.
pub const MIN_LIMITED_BATCH_SIZE: usize = 1024;

/// The larger of two numbers.
pub open spec fn larger(a: int, b: int) -> int {
    if a < b {
        b
    } else {
        a
    }
}

/// The smaller of two numbers.
pub open spec fn smaller(a: int, b: int) -> int {
    if b < a {
        b
    } else {
        a
    }
}

/// How many rows a scan reads at a time: as many as configured, but at least
/// one, and under a limit on rows no more than the limit or 1024, whichever
/// is larger.
pub fn parquet_scan_batch_size(configured: usize, limit: Option<usize>) -> (r: usize)
    ensures
        r == match limit {
            Some(limit) => smaller(
                larger(configured as int, 1),
                larger(limit as int, MIN_LIMITED_BATCH_SIZE as int),
            ),
            None => larger(configured as int, 1),
        },
        r >= 1,
        r <= configured || r == 1,
        limit matches Some(limit) ==> r <= limit || r <= 1024,
        r < configured ==> (limit matches Some(limit) && r >= limit && r >= 1024 && (r == limit || r == 1024)),
{
    let configured = if configured < 1 {
        1
    } else {
        configured
    };
    match limit {
        Some(limit) => {
            let most = if limit < MIN_LIMITED_BATCH_SIZE {
                MIN_LIMITED_BATCH_SIZE
            } else {
                limit
            };
            if most < configured {
                most
            } else {
                configured
            }
        },
        None => configured,
    }
}

/// The order in which the files of a stream hold their rows: by the column
/// that the stream is partitioned by, or by the time of the event, the latest
/// first.
pub fn output_order(time_partition: Option<&str>) -> (r: SortInfo)
    ensures
        r.0@ == match optional_text(time_partition) {
            Some(partition) => partition,
            None => DEFAULT_TIMESTAMP_KEY@,
        },
        r.1 == SortOrder::DescNullsFirst,
{
    match time_partition {
        Some(partition) => (partition.to_string(), SortOrder::DescNullsFirst),
        None => (DEFAULT_TIMESTAMP_KEY.to_string(), SortOrder::DescNullsFirst),
    }
}

/// What becomes of the plans that a scan has gathered.
#[derive(Clone, Copy, Debug, PartialEq, Eq, Structural)]
pub enum FinalPlan {
    /// There are none: the scan gives no rows.
    Empty,
    /// There is one, which is the whole scan.
    Single,
    /// There are several, whose rows are put together.
    Union,
}

/// What becomes of so many plans.
pub fn final_plan(plans: usize) -> (r: FinalPlan)
    ensures
        r == if plans == 0 {
            FinalPlan::Empty
        } else if plans == 1 {
            FinalPlan::Single
        } else {
            FinalPlan::Union
        },
{
    if plans == 0 {
        FinalPlan::Empty
    } else if plans == 1 {
        FinalPlan::Single
    } else {
        FinalPlan::Union
    }
}

// ---------------------------------------------------------------------------
// Steps
// ---------------------------------------------------------------------------

/// What a server is there for.
#[derive(Clone, Copy, Debug, PartialEq, Eq, Structural)]
pub enum Mode {
    Query,
    Prism,
    /// Any other mode: the server keeps the streams that it scans.
    Other,
}

/// What a scan is waiting for.
#[derive(Debug)]
pub enum ScanState {
    /// The stream's format.
    Format,
    /// The scan of what is in staging.
    Staging { time_filters: Vec<PartialTimeFilter>, snapshot: Snapshot },
    /// The stream's formats on all nodes.
    Formats { time_filters: Vec<PartialTimeFilter> },
    /// The scan of what no manifest lists.
    Listing { time_filters: Vec<PartialTimeFilter>, snapshot: Snapshot },
    /// The manifests.
    Manifests,
    /// Whether the stream has a hot tier.
    HotTierCheck { files: Vec<File> },
    /// The scan of the hot tier.
    HotTier,
    /// The scan of the object store.
    Store,
    /// Nothing more.
    Done,
}

/// What came of an action.
#[derive(Debug)]
pub enum ScanEvent {
    /// The stream's format was read at a point in time.
    FormatRead { time_partition: Option<String>, snapshot: Snapshot, now: NaiveDateTime },
    StagingScanned,
    /// The snapshots of the formats that could be read, in order.
    FormatsRead { snapshots: Vec<Snapshot> },
    ListingScanned,
    /// The manifests that were found, in order.
    ManifestsRead { manifests: Vec<Manifest> },
    HotTierChecked { exists: bool },
    /// The files that the hot tier does not hold.
    HotTierScanned { files: Vec<File> },
    StoreScanned,
}

/// What is to be done next.
#[derive(Debug)]
pub enum ScanAction {
    ScanStaging,
    ReadFormats,
    ScanListing { time_filters: Vec<PartialTimeFilter> },
    ReadManifests { time_filters: Vec<PartialTimeFilter>, snapshot: Snapshot },
    CheckHotTier,
    ScanHotTier { files: Vec<File> },
    ScanStore { files: Vec<File> },
    /// The plans are complete. The hot tier may have held all files.
    Finish { cache_hit: bool },
}

/// The manifests of a list of snapshots, in order.
pub open spec fn all_items(snapshots: Seq<Snapshot>) -> Seq<ManifestItem>
    decreases snapshots.len(),
{
    if snapshots.len() == 0 {
        Seq::empty()
    } else {
        all_items(snapshots.drop_last()) + snapshots.last().manifest_list@
    }
}

/// Whether a scan waits for an event, and the event can be handled.
pub open spec fn expects(state: ScanState, event: ScanEvent) -> bool {
    match (state, event) {
        (ScanState::Format, ScanEvent::FormatRead { time_partition, snapshot, now }) => MIN_SECS
            + STAGING_WINDOW_SECS <= now@.0,
        (ScanState::Staging { .. }, ScanEvent::StagingScanned) => true,
        (ScanState::Formats { .. }, ScanEvent::FormatsRead { .. }) => true,
        (ScanState::Listing { .. }, ScanEvent::ListingScanned) => true,
        (ScanState::Manifests, ScanEvent::ManifestsRead { .. }) => true,
        (ScanState::HotTierCheck { .. }, ScanEvent::HotTierChecked { .. }) => true,
        (ScanState::HotTier, ScanEvent::HotTierScanned { .. }) => true,
        (ScanState::Store, ScanEvent::StoreScanned) => true,
        _ => false,
    }
}

/// Whether the manifests of a list are read next, under the filters.
pub open spec fn reads_manifests(
    list: Seq<ManifestItem>,
    filters: Seq<TimeFilter>,
    next: ScanState,
    action: ScanAction,
) -> bool {
    &&& next is Manifests
    &&& action matches ScanAction::ReadManifests { time_filters, snapshot }
    &&& filter_views(time_filters@) == filters
    &&& snapshot.manifest_list@ == list
}

/// Whether what no manifest lists is scanned next, under filters of its own,
/// and the manifests of the list after it, under others.
pub open spec fn scans_listing(
    list: Seq<ManifestItem>,
    listing: Seq<TimeFilter>,
    kept: Seq<TimeFilter>,
    next: ScanState,
    action: ScanAction,
) -> bool {
    &&& next matches ScanState::Listing { time_filters, snapshot }
    &&& filter_views(time_filters@) == kept
    &&& snapshot.manifest_list@ == list
    &&& action matches ScanAction::ScanListing { time_filters: listed }
    &&& filter_views(listed@) == listing
}

/// What comes once the manifests of a stream are known: what no manifest
/// lists, where the filters ask for it, and the manifests otherwise.
pub open spec fn proceeds_with_list(
    list: Seq<ManifestItem>,
    filters: Seq<TimeFilter>,
    next: ScanState,
    action: ScanAction,
) -> bool {
    if overlaps_older_data(list, filters) {
        match first_lower_bound(list) {
            Some(first) => scans_listing(
                list,
                listing_filters(filters, first),
                manifest_filters(filters, first),
                next,
                action,
            ),
            None => scans_listing(list, filters, filters, next, action),
        }
    } else {
        reads_manifests(list, filters, next, action)
    }
}

/// What comes once staging is dealt with: a server that only queries asks all
/// nodes for the stream's manifests, and another goes by its own.
pub open spec fn proceeds_from_staging(
    mode: Mode,
    list: Seq<ManifestItem>,
    filters: Seq<TimeFilter>,
    next: ScanState,
    action: ScanAction,
) -> bool {
    if mode == Mode::Query || mode == Mode::Prism {
        &&& next matches ScanState::Formats { time_filters }
        &&& filter_views(time_filters@) == filters
        &&& action is ReadFormats
    } else {
        proceeds_with_list(list, filters, next, action)
    }
}

/// What comes of an event.
pub open spec fn proceeds(
    state: ScanState,
    event: ScanEvent,
    filters: Seq<Expr>,
    limit: Option<usize>,
    mode: Mode,
    next: ScanState,
    action: ScanAction,
) -> bool {
    match (state, event) {
        (ScanState::Format, ScanEvent::FormatRead { time_partition, snapshot, now }) => {
            let bounds = time_filters_of(filters, time_partition);
            if asks_since(bounds, staging_start(now@)) {
                &&& next matches ScanState::Staging { time_filters, snapshot: own }
                &&& filter_views(time_filters@) == bounds
                &&& own == snapshot
                &&& action is ScanStaging
            } else {
                proceeds_from_staging(mode, snapshot.manifest_list@, bounds, next, action)
            }
        },
        (ScanState::Staging { time_filters, snapshot }, ScanEvent::StagingScanned) => proceeds_from_staging(
            mode,
            snapshot.manifest_list@,
            filter_views(time_filters@),
            next,
            action,
        ),
        (ScanState::Formats { time_filters }, ScanEvent::FormatsRead { snapshots }) => proceeds_with_list(
            all_items(snapshots@),
            filter_views(time_filters@),
            next,
            action,
        ),
        (ScanState::Listing { time_filters, snapshot }, ScanEvent::ListingScanned) => reads_manifests(
            snapshot.manifest_list@,
            filter_views(time_filters@),
            next,
            action,
        ),
        (ScanState::Manifests, ScanEvent::ManifestsRead { manifests }) => {
            let needed = enough_files(needed_files(all_files(manifests@), filters), limit);
            if needed.len() == 0 {
                next is Done && action == (ScanAction::Finish { cache_hit: false })
            } else {
                &&& next matches ScanState::HotTierCheck { files }
                &&& files@ == needed
                &&& action is CheckHotTier
            }
        },
        (ScanState::HotTierCheck { files }, ScanEvent::HotTierChecked { exists }) => if exists {
            next is HotTier && action == (ScanAction::ScanHotTier { files })
        } else {
            next is Store && action == (ScanAction::ScanStore { files })
        },
        (ScanState::HotTier, ScanEvent::HotTierScanned { files }) => if files@.len() == 0 {
            next is Done && action == (ScanAction::Finish { cache_hit: true })
        } else {
            next is Store && action == (ScanAction::ScanStore { files })
        },
        (ScanState::Store, ScanEvent::StoreScanned) => next is Done && action == (ScanAction::Finish {
            cache_hit: false,
        }),
        _ => false,
    }
}

fn with_list(snapshot: Snapshot, time_filters: Vec<PartialTimeFilter>) -> (r: (ScanState, ScanAction))
    ensures
        proceeds_with_list(snapshot.manifest_list@, filter_views(time_filters@), r.0, r.1),
{
    let ghost filters = filter_views(time_filters@);
    let mut time_filters = time_filters;
    if is_overlapping_query(snapshot.manifest_list.as_slice(), time_filters.as_slice()) {
        let listing = return_listing_time_filters(snapshot.manifest_list.as_slice(), &mut time_filters);
        match listing {
            Some(listing) => {
                return (
                    ScanState::Listing { time_filters, snapshot },
                    ScanAction::ScanListing { time_filters: listing },
                );
            },
            None => {
                assert(filters.len() == 0);
            },
        }
    }
    (ScanState::Manifests, ScanAction::ReadManifests { time_filters, snapshot })
}

fn from_staging(mode: Mode, snapshot: Snapshot, time_filters: Vec<PartialTimeFilter>) -> (r: (
    ScanState,
    ScanAction,
))
    ensures
        proceeds_from_staging(mode, snapshot.manifest_list@, filter_views(time_filters@), r.0, r.1),
{
    if mode == Mode::Query || mode == Mode::Prism {
        (ScanState::Formats { time_filters }, ScanAction::ReadFormats)
    } else {
        with_list(snapshot, time_filters)
    }
}

fn merge_snapshots(snapshots: Vec<Snapshot>) -> (r: Snapshot)
    ensures
        r.manifest_list@ == all_items(snapshots@),
{
    let ghost all = snapshots@;
    let mut manifest_list: Vec<ManifestItem> = Vec::new();
    for snapshot in it: snapshots
        invariant
            it.seq() == all,
            manifest_list@ == all_items(all.take(it.index())),
    {
        let ghost n = it.index();
        assert(all.take(n + 1).drop_last() =~= all.take(n));
        let mut items = snapshot.manifest_list;
        manifest_list.append(&mut items);
    }
    assert(all.take(all.len() as int) =~= all);
    Snapshot { manifest_list }
}

/// Takes a scan from what it waits for, over what came of it, to what it
/// waits for next and what is to be done for that.
pub fn step(state: ScanState, event: ScanEvent, filters: &[Expr], limit: Option<usize>, mode: Mode) -> (r: (
    ScanState,
    ScanAction,
))
    requires
        expects(state, event),
        forall|i: int| 0 <= i < filters@.len() ==> times_are_held(#[trigger] filters@[i]),
    ensures
        proceeds(state, event, filters@, limit, mode, r.0, r.1),
{
    match (state, event) {
        (ScanState::Format, ScanEvent::FormatRead { time_partition, snapshot, now }) => {
            let time_filters = extract_primary_filter(filters, &time_partition);
            if is_within_staging_window_at(time_filters.as_slice(), &now) {
                (ScanState::Staging { time_filters, snapshot }, ScanAction::ScanStaging)
            } else {
                from_staging(mode, snapshot, time_filters)
            }
        },
        (ScanState::Staging { time_filters, snapshot }, ScanEvent::StagingScanned) => from_staging(
            mode,
            snapshot,
            time_filters,
        ),
        (ScanState::Formats { time_filters }, ScanEvent::FormatsRead { snapshots }) => with_list(
            merge_snapshots(snapshots),
            time_filters,
        ),
        (ScanState::Listing { time_filters, snapshot }, ScanEvent::ListingScanned) => (
            ScanState::Manifests,
            ScanAction::ReadManifests { time_filters, snapshot },
        ),
        (ScanState::Manifests, ScanEvent::ManifestsRead { manifests }) => {
            let files = collect_from_snapshot(manifests, filters, limit);
            if files.is_empty() {
                (ScanState::Done, ScanAction::Finish { cache_hit: false })
            } else {
                (ScanState::HotTierCheck { files }, ScanAction::CheckHotTier)
            }
        },
        (ScanState::HotTierCheck { files }, ScanEvent::HotTierChecked { exists }) => if exists {
            (ScanState::HotTier, ScanAction::ScanHotTier { files })
        } else {
            (ScanState::Store, ScanAction::ScanStore { files })
        },
        (ScanState::HotTier, ScanEvent::HotTierScanned { files }) => if files.is_empty() {
            (ScanState::Done, ScanAction::Finish { cache_hit: true })
        } else {
            (ScanState::Store, ScanAction::ScanStore { files })
        },
        _ => (ScanState::Done, ScanAction::Finish { cache_hit: false }),
    }
}

/// How far a scan has come.
pub open spec fn progress(state: ScanState) -> int {
    match state {
        ScanState::Format => 0,
        ScanState::Staging { .. } => 1,
        ScanState::Formats { .. } => 2,
        ScanState::Listing { .. } => 3,
        ScanState::Manifests => 4,
        ScanState::HotTierCheck { .. } => 5,
        ScanState::HotTier => 6,
        ScanState::Store => 7,
        ScanState::Done => 8,
    }
}

/// Whether an action is what a scan waits for.
pub open spec fn awaits(state: ScanState, action: ScanAction) -> bool {
    match (state, action) {
        (ScanState::Staging { .. }, ScanAction::ScanStaging) => true,
        (ScanState::Formats { .. }, ScanAction::ReadFormats) => true,
        (ScanState::Listing { .. }, ScanAction::ScanListing { .. }) => true,
        (ScanState::Manifests, ScanAction::ReadManifests { .. }) => true,
        (ScanState::HotTierCheck { .. }, ScanAction::CheckHotTier) => true,
        (ScanState::HotTier, ScanAction::ScanHotTier { .. }) => true,
        (ScanState::Store, ScanAction::ScanStore { .. }) => true,
        (ScanState::Done, ScanAction::Finish { .. }) => true,
        _ => false,
    }
}

/// Every step takes a scan further, so that it comes to its end; and what is
/// to be done is what the scan then waits for.
pub proof fn every_step_makes_progress(
    state: ScanState,
    event: ScanEvent,
    filters: Seq<Expr>,
    limit: Option<usize>,
    mode: Mode,
    next: ScanState,
    action: ScanAction,
)
    requires
        proceeds(state, event, filters, limit, mode, next, action),
    ensures
        progress(state) < progress(next) <= 8,
        awaits(next, action),
{
}

/// Once the manifests of a stream are known, every point in time that the
/// filters ask for is asked for in what is read next or in what is read after
/// it.
pub proof fn no_asked_time_is_lost(
    list: Seq<ManifestItem>,
    filters: Seq<TimeFilter>,
    next: ScanState,
    action: ScanAction,
    t: Instant,
)
    requires
        proceeds_with_list(list, filters, next, action),
        all_admit(filters, t),
    ensures
        match (next, action) {
            (
                ScanState::Listing { time_filters: kept, .. },
                ScanAction::ScanListing { time_filters: listing },
            ) => all_admit(filter_views(listing@), t) || all_admit(filter_views(kept@), t),
            (ScanState::Manifests, ScanAction::ReadManifests { time_filters, .. }) => all_admit(
                filter_views(time_filters@),
                t,
            ),
            _ => false,
        },
{
    split_covers_the_query(list, filters, t);
}

// ---------------------------------------------------------------------------
// What a scan reads
// ---------------------------------------------------------------------------

proof fn lemma_filters_of_expressions_have_times(filters: Seq<Expr>, time_partition: Option<String>, i: int)
    requires
        0 <= i < time_filters_of(filters, time_partition).len(),
    ensures
        time_filters_of(filters, time_partition)[i].time() is Some,
    decreases filters.len(),
{
    let shorter = filters.drop_last();
    if i < time_filters_of(shorter, time_partition).len() {
        lemma_filters_of_expressions_have_times(shorter, time_partition, i);
    }
}

/// Staging is scanned wherever the filters admit some point in time of the last
/// five minutes.
pub proof fn recent_data_is_sought_in_staging(
    time_partition: Option<String>,
    snapshot: Snapshot,
    now: NaiveDateTime,
    filters: Seq<Expr>,
    limit: Option<usize>,
    mode: Mode,
    next: ScanState,
    action: ScanAction,
    t: Instant,
)
    requires
        proceeds(
            ScanState::Format,
            (ScanEvent::FormatRead { time_partition, snapshot, now }),
            filters,
            limit,
            mode,
            next,
            action,
        ),
        0 <= now@.1 < 1_000_000_000,
        t.0 > now@.0 - 300 || t.0 == now@.0 - 300 && t.1 >= 0,
        forall|i: int|
            0 <= i < time_filters_of(filters, time_partition).len() ==> (#[trigger] time_filters_of(
                filters,
                time_partition,
            )[i]).admits(t),
    ensures
        action is ScanStaging,
        next matches ScanState::Staging { time_filters, snapshot: own } && filter_views(time_filters@)
            == time_filters_of(filters, time_partition) && own == snapshot,
{
    let bounds = time_filters_of(filters, time_partition);
    window_starts_five_minutes_ago(now@);
    assert forall|i: int| 0 <= i < bounds.len() implies #[trigger] bounds[i] != TimeFilter::High(
        TimeBound::Unbounded,
    ) by {
        lemma_filters_of_expressions_have_times(filters, time_partition, i);
    }
    asked_time_in_the_window_asks_for_staging(bounds, staging_start(now@), t);
}

/// Staging is passed over where the filters end time before the last six
/// minutes.
pub proof fn old_data_is_not_sought_in_staging(
    time_partition: Option<String>,
    snapshot: Snapshot,
    now: NaiveDateTime,
    filters: Seq<Expr>,
    limit: Option<usize>,
    mode: Mode,
    next: ScanState,
    action: ScanAction,
    bound: int,
)
    requires
        proceeds(
            ScanState::Format,
            (ScanEvent::FormatRead { time_partition, snapshot, now }),
            filters,
            limit,
            mode,
            next,
            action,
        ),
        0 <= now@.1 < 1_000_000_000,
        0 <= bound < time_filters_of(filters, time_partition).len(),
        time_filters_of(filters, time_partition)[bound] is High,
        forall|i: int|
            0 <= i < time_filters_of(filters, time_partition).len() ==> match #[trigger] time_filters_of(
                filters,
                time_partition,
            )[i] {
                TimeFilter::High(TimeBound::Excluded(end)) => end.0 <= now@.0 - 360,
                TimeFilter::High(TimeBound::Included(end)) => end.0 <= now@.0 - 360,
                TimeFilter::Eq(end) => end.0 <= now@.0 - 360,
                _ => true,
            },
    ensures
        !(action is ScanStaging),
        (mode == Mode::Query || mode == Mode::Prism) <==> action is ReadFormats,
        mode == Mode::Other ==> proceeds_with_list(
            snapshot.manifest_list@,
            time_filters_of(filters, time_partition),
            next,
            action,
        ),
{
    window_starts_five_minutes_ago(now@);
    filters_that_end_before_the_window_do_not_ask_for_staging(
        time_filters_of(filters, time_partition),
        bound,
        staging_start(now@),
    );
}

/// After staging, a server that only queries asks all nodes for their manifests,
/// under the filters that it had; another goes by its own.
pub proof fn querying_servers_ask_all_nodes(
    time_filters: Vec<PartialTimeFilter>,
    snapshot: Snapshot,
    filters: Seq<Expr>,
    limit: Option<usize>,
    mode: Mode,
    next: ScanState,
    action: ScanAction,
)
    requires
        proceeds(
            (ScanState::Staging { time_filters, snapshot }),
            ScanEvent::StagingScanned,
            filters,
            limit,
            mode,
            next,
            action,
        ),
    ensures
        mode == Mode::Query || mode == Mode::Prism ==> action is ReadFormats && (
        next matches ScanState::Formats { time_filters: kept } && filter_views(kept@) == filter_views(
            time_filters@,
        )),
        mode == Mode::Other ==> proceeds_with_list(
            snapshot.manifest_list@,
            filter_views(time_filters@),
            next,
            action,
        ) && (action is ScanListing || action is ReadManifests),
{
}

/// Once all nodes were asked, the scan goes by the manifests of all of them,
/// under the filters that it had.
pub proof fn scan_goes_by_the_manifests_of_all_nodes(
    time_filters: Vec<PartialTimeFilter>,
    snapshots: Vec<Snapshot>,
    filters: Seq<Expr>,
    limit: Option<usize>,
    mode: Mode,
    next: ScanState,
    action: ScanAction,
    i: int,
    j: int,
)
    requires
        proceeds(
            (ScanState::Formats { time_filters }),
            (ScanEvent::FormatsRead { snapshots }),
            filters,
            limit,
            mode,
            next,
            action,
        ),
        0 <= i < snapshots@.len(),
        0 <= j < snapshots@[i].manifest_list@.len(),
    ensures
        match (next, action) {
            (ScanState::Listing { snapshot, .. }, ScanAction::ScanListing { .. }) => snapshot.manifest_list@.contains(
                snapshots@[i].manifest_list@[j],
            ),
            (ScanState::Manifests, ScanAction::ReadManifests { time_filters: kept, snapshot }) => filter_views(kept@)
                == filter_views(time_filters@) && snapshot.manifest_list@.contains(snapshots@[i].manifest_list@[j]),
            _ => false,
        },
{
    let all = snapshots@;
    let front = all.take(i);
    let rest = all.skip(i);
    let one = rest.take(1);
    let back = rest.skip(1);
    assert(all =~= front + rest);
    assert(rest =~= one + back);
    manifests_of_all_nodes_are_put_together(front, rest);
    manifests_of_all_nodes_are_put_together(one, back);
    assert(all_items(one) == all[i].manifest_list@);
    let item = all[i].manifest_list@[j];
    assert(all_items(all)[all_items(front).len() + j] == item);
}

/// The manifests of a list of nodes are those of each of them, in order.
pub proof fn manifests_of_all_nodes_are_put_together(a: Seq<Snapshot>, b: Seq<Snapshot>)
    ensures
        all_items(a + b) == all_items(a) + all_items(b),
        a.len() == 1 ==> all_items(a) == a[0].manifest_list@,
    decreases b.len(),
{
    if b.len() == 0 {
        assert(a + b =~= a);
        assert(all_items(a) + all_items(b) =~= all_items(a));
    } else {
        assert((a + b).drop_last() =~= a + b.drop_last());
        manifests_of_all_nodes_are_put_together(a, b.drop_last());
        assert(all_items(a) + all_items(b.drop_last()) + b.last().manifest_list@ =~= all_items(a) + (all_items(
            b.drop_last(),
        ) + b.last().manifest_list@));
    }
    if a.len() == 1 {
        reveal_with_fuel(all_items, 2);
        assert(a.drop_last() =~= Seq::<Snapshot>::empty());
        assert(all_items(a) =~= a[0].manifest_list@);
    }
}

/// Where some filter, at any place, bounds time from below before every manifest
/// begins, what no manifest lists is scanned next, and the manifests of the same
/// list after it.
pub proof fn older_data_is_listed_before_manifests_are_read(
    list: Seq<ManifestItem>,
    filters: Seq<TimeFilter>,
    next: ScanState,
    action: ScanAction,
    i: int,
    start: Instant,
)
    requires
        proceeds_with_list(list, filters, next, action),
        0 <= i < filters.len(),
        match filters[i] {
            TimeFilter::Low(TimeBound::Included(time)) => start == time,
            TimeFilter::Low(TimeBound::Excluded(time)) => start == time,
            _ => false,
        },
        forall|j: int|
            0 <= j < list.len() ==> start.0 < (#[trigger] list[j]).time_lower_bound@.0 || start.0
                == list[j].time_lower_bound@.0 && start.1 < list[j].time_lower_bound@.1,
    ensures
        action is ScanListing,
        next matches ScanState::Listing { snapshot, .. } && snapshot.manifest_list@ == list,
{
    early_lower_bound_asks_for_older_data(list, filters, i, start);
}

/// Where some manifest begins no later than each lower bound of a query, the
/// manifests are read next, all of them and under the query's own filters.
pub proof fn manifests_are_read_under_the_own_filters(
    list: Seq<ManifestItem>,
    filters: Seq<TimeFilter>,
    next: ScanState,
    action: ScanAction,
    j: int,
)
    requires
        proceeds_with_list(list, filters, next, action),
        0 <= j < list.len(),
        forall|i: int|
            0 <= i < filters.len() ==> match #[trigger] filters[i] {
                TimeFilter::Low(TimeBound::Included(time)) => list[j].time_lower_bound@.0 < time.0
                    || list[j].time_lower_bound@.0 == time.0 && list[j].time_lower_bound@.1 <= time.1,
                TimeFilter::Low(TimeBound::Excluded(time)) => list[j].time_lower_bound@.0 < time.0
                    || list[j].time_lower_bound@.0 == time.0 && list[j].time_lower_bound@.1 <= time.1,
                _ => true,
            },
    ensures
        action matches ScanAction::ReadManifests { time_filters, snapshot } && filter_views(time_filters@)
            == filters && snapshot.manifest_list@ == list,
{
    late_lower_bounds_ask_for_no_older_data(list, filters, j);
}

/// After the listing, the manifests that were put aside are read, under the
/// filters that were put aside with them.
pub proof fn manifests_are_read_after_the_listing(
    time_filters: Vec<PartialTimeFilter>,
    snapshot: Snapshot,
    filters: Seq<Expr>,
    limit: Option<usize>,
    mode: Mode,
    next: ScanState,
    action: ScanAction,
)
    requires
        proceeds(
            (ScanState::Listing { time_filters, snapshot }),
            ScanEvent::ListingScanned,
            filters,
            limit,
            mode,
            next,
            action,
        ),
    ensures
        action matches ScanAction::ReadManifests { time_filters: kept, snapshot: own } && filter_views(kept@)
            == filter_views(time_filters@) && own.manifest_list@ == snapshot.manifest_list@,
{
}

/// Once the manifests are read, the scan ends where no file is needed, and goes
/// on with the files that are otherwise. Those are then scanned in the hot tier
/// where there is one, and in the store where there is none.
pub proof fn needed_files_are_scanned(
    manifests: Vec<Manifest>,
    exists: bool,
    filters: Seq<Expr>,
    limit: Option<usize>,
    mode: Mode,
    next: ScanState,
    action: ScanAction,
    then: ScanState,
    after: ScanAction,
)
    requires
        proceeds(
            ScanState::Manifests,
            (ScanEvent::ManifestsRead { manifests }),
            filters,
            limit,
            mode,
            next,
            action,
        ),
        next is HotTierCheck ==> proceeds(
            next,
            (ScanEvent::HotTierChecked { exists }),
            filters,
            limit,
            mode,
            then,
            after,
        ),
    ensures
        ({
            let needed = enough_files(needed_files(all_files(manifests@), filters), limit);
            if needed.len() == 0 {
                action == (ScanAction::Finish { cache_hit: false })
            } else {
                &&& action is CheckHotTier
                &&& if exists {
                    after matches ScanAction::ScanHotTier { files } && files@ == needed
                } else {
                    after matches ScanAction::ScanStore { files } && files@ == needed
                }
            }
        }),
{
}

/// What the hot tier does not hold is scanned in the store. The hot tier held
/// all exactly where it leaves no file over.
pub proof fn files_beyond_the_hot_tier_are_scanned_in_the_store(
    files: Vec<File>,
    filters: Seq<Expr>,
    limit: Option<usize>,
    mode: Mode,
    next: ScanState,
    action: ScanAction,
)
    requires
        proceeds(
            ScanState::HotTier,
            (ScanEvent::HotTierScanned { files }),
            filters,
            limit,
            mode,
            next,
            action,
        ),
    ensures
        action == (ScanAction::Finish { cache_hit: true }) <==> files@.len() == 0,
        files@.len() > 0 ==> action == (ScanAction::ScanStore { files }),
{
}

/// Only a scan that the hot tier answered whole ends in a hit.
pub proof fn only_the_hot_tier_hits(
    state: ScanState,
    event: ScanEvent,
    filters: Seq<Expr>,
    limit: Option<usize>,
    mode: Mode,
    next: ScanState,
    action: ScanAction,
)
    requires
        proceeds(state, event, filters, limit, mode, next, action),
        action == (ScanAction::Finish { cache_hit: true }),
    ensures
        state is HotTier,
        event matches ScanEvent::HotTierScanned { files } && files@.len() == 0,
{
}

} // verus!
