//! Bounds on time that a query's filters set, and which of a stream's data they
//! ask for.
use vstd::prelude::*;

use crate::catalog::snapshot::{
    earliest, first_lower_bound, lemma_first_lower_bound_exists, ManifestItem,
};
use crate::datetime::{
    datetime_reading, earlier, instant_of_millis, instant_of_nanos, is_held_in_millis, is_instant,
    millis_of, moved_back, not_later, start_of_minute, Instant, NaiveDateTime, MIN_SECS,
};
use crate::expr::{BinaryExpr, Expr, Operator, ScalarValue};
use crate::text::str_same;

verus! {

// ---------------------------------------------------------------------------
// Filters
// ---------------------------------------------------------------------------

/// An end of a range of time.
#[derive(Clone, Copy, Debug, PartialEq, Eq, Structural)]
pub enum Bound {
    Included(NaiveDateTime),
    Excluded(NaiveDateTime),
    Unbounded,
}

/// A bound that a filter sets on time.
#[derive(Clone, Copy, Debug, PartialEq, Eq, Structural)]
pub enum PartialTimeFilter {
    Low(Bound),
    High(Bound),
    Eq(NaiveDateTime),
}

/// An end of a range of time, as its point in time goes.
pub enum TimeBound {
    Included(Instant),
    Excluded(Instant),
    Unbounded,
}

/// A bound that a filter sets on time, as its point in time goes.
pub enum TimeFilter {
    Low(TimeBound),
    High(TimeBound),
    Eq(Instant),
}

impl View for Bound {
    type V = TimeBound;

    open spec fn view(&self) -> TimeBound {
        match self {
            Bound::Included(time) => TimeBound::Included(time@),
            Bound::Excluded(time) => TimeBound::Excluded(time@),
            Bound::Unbounded => TimeBound::Unbounded,
        }
    }
}

impl View for PartialTimeFilter {
    type V = TimeFilter;

    open spec fn view(&self) -> TimeFilter {
        match self {
            PartialTimeFilter::Low(bound) => TimeFilter::Low(bound@),
            PartialTimeFilter::High(bound) => TimeFilter::High(bound@),
            PartialTimeFilter::Eq(time) => TimeFilter::Eq(time@),
        }
    }
}

/// What each filter of a list sets.
pub open spec fn filter_views(filters: Seq<PartialTimeFilter>) -> Seq<TimeFilter> {
    filters.map_values(|filter: PartialTimeFilter| filter@)
}

impl TimeFilter {
    /// Whether a point in time meets the filter.
    pub open spec fn admits(self, t: Instant) -> bool {
        match self {
            TimeFilter::Low(TimeBound::Included(time)) => not_later(time, t),
            TimeFilter::Low(TimeBound::Excluded(time)) => earlier(time, t),
            TimeFilter::High(TimeBound::Included(time)) => not_later(t, time),
            TimeFilter::High(TimeBound::Excluded(time)) => earlier(t, time),
            TimeFilter::Eq(time) => t == time,
            _ => true,
        }
    }

    /// The point in time that the filter names; none where it is unbounded.
    pub open spec fn time(self) -> Option<Instant> {
        match self {
            TimeFilter::Low(TimeBound::Included(time)) => Some(time),
            TimeFilter::Low(TimeBound::Excluded(time)) => Some(time),
            TimeFilter::High(TimeBound::Included(time)) => Some(time),
            TimeFilter::High(TimeBound::Excluded(time)) => Some(time),
            TimeFilter::Eq(time) => Some(time),
            _ => None,
        }
    }

    /// The operator of the comparison that the filter stands for.
    pub open spec fn operator(self) -> Operator {
        match self {
            TimeFilter::Low(TimeBound::Excluded(_)) => Operator::Gt,
            TimeFilter::Low(_) => Operator::GtEq,
            TimeFilter::High(TimeBound::Excluded(_)) => Operator::Lt,
            TimeFilter::High(_) => Operator::LtEq,
            TimeFilter::Eq(_) => Operator::Eq,
        }
    }
}

/// Whether a point in time meets all filters of a list.
pub open spec fn all_admit(filters: Seq<TimeFilter>, t: Instant) -> bool {
    forall|i: int| 0 <= i < filters.len() ==> (#[trigger] filters[i]).admits(t)
}

// ---------------------------------------------------------------------------
// Filters in expressions
// ---------------------------------------------------------------------------

/// Whether an expression is the column by which a stream is partitioned.
pub open spec fn is_partition_column(expr: Expr, time_partition: Option<String>) -> bool {
    match (expr, time_partition) {
        (Expr::Column(column), Some(partition)) => column.name@ == partition@,
        _ => false,
    }
}

/// The point in time that the right side of a comparison names. A text names
/// one only where the left side is the partition column.
pub open spec fn bound_time(left: Expr, right: Expr, time_partition: Option<String>) -> Option<Instant> {
    match right {
        Expr::Literal(ScalarValue::TimestampMillisecond(Some(millis), _), None) => Some(
            instant_of_millis(millis as int),
        ),
        Expr::Literal(ScalarValue::TimestampNanosecond(Some(nanos), _), None) => Some(
            instant_of_nanos(nanos as int),
        ),
        Expr::Literal(ScalarValue::Utf8(Some(text)), None) => if is_partition_column(left, time_partition) {
            match datetime_reading(text@) {
                Some((secs, nanos)) => Some((secs as int, nanos as int)),
                None => None,
            }
        } else {
            None
        },
        _ => None,
    }
}

/// Whether the right side of a comparison, where it is a number of
/// milliseconds, is a point in time that can be held.
pub open spec fn is_held(right: Expr) -> bool {
    right matches Expr::Literal(ScalarValue::TimestampMillisecond(Some(millis), _), None)
        ==> is_held_in_millis(millis as int)
}

/// Whether a filter compares with no number of milliseconds that is no point
/// in time.
pub open spec fn times_are_held(filter: Expr) -> bool {
    filter matches Expr::BinaryExpr(binary) ==> is_held(*binary.right)
}

/// What an operator and a point in time set.
pub open spec fn filter_from(op: Operator, time: Instant) -> Option<TimeFilter> {
    match op {
        Operator::Gt => Some(TimeFilter::Low(TimeBound::Excluded(time))),
        Operator::GtEq => Some(TimeFilter::Low(TimeBound::Included(time))),
        Operator::Lt => Some(TimeFilter::High(TimeBound::Excluded(time))),
        Operator::LtEq => Some(TimeFilter::High(TimeBound::Included(time))),
        Operator::Eq => Some(TimeFilter::Eq(time)),
        Operator::IsNotDistinctFrom => Some(TimeFilter::Eq(time)),
        _ => None,
    }
}

/// The bound that a filter sets on time, if it does.
pub open spec fn time_filter_of(expr: Expr, time_partition: Option<String>) -> Option<TimeFilter> {
    match expr {
        Expr::BinaryExpr(binary) => match bound_time(*binary.left, *binary.right, time_partition) {
            Some(time) => filter_from(binary.op, time),
            None => None,
        },
        _ => None,
    }
}

/// The bounds that a list of filters sets on time, in order.
pub open spec fn time_filters_of(filters: Seq<Expr>, time_partition: Option<String>) -> Seq<TimeFilter>
    decreases filters.len(),
{
    if filters.len() == 0 {
        Seq::empty()
    } else {
        let before = time_filters_of(filters.drop_last(), time_partition);
        match time_filter_of(filters.last(), time_partition) {
            Some(filter) => before.push(filter),
            None => before,
        }
    }
}

/// The operator and the point in time of a comparison with one.
pub fn extract_timestamp_bound(binexpr: &BinaryExpr, time_partition: &Option<String>) -> (r: Option<
    (Operator, NaiveDateTime),
>)
    requires
        is_held(*binexpr.right),
    ensures
        match r {
            Some((op, time)) => op == binexpr.op && bound_time(
                *binexpr.left,
                *binexpr.right,
                *time_partition,
            ) == Some(time@),
            None => bound_time(*binexpr.left, *binexpr.right, *time_partition) is None,
        },
{
    match &*binexpr.right {
        Expr::Literal(ScalarValue::TimestampMillisecond(Some(millis), _), None) => {
            match NaiveDateTime::from_timestamp_millis(*millis) {
                Some(time) => Some((binexpr.op, time)),
                None => None,
            }
        },
        Expr::Literal(ScalarValue::TimestampNanosecond(Some(nanos), _), None) => Some(
            (binexpr.op, NaiveDateTime::from_timestamp_nanos(*nanos)),
        ),
        Expr::Literal(ScalarValue::Utf8(Some(text)), None) => {
            let is_time_partition = match (&*binexpr.left, time_partition) {
                (Expr::Column(column), Some(partition)) => str_same(column.name.as_str(), partition.as_str()),
                _ => false,
            };
            if is_time_partition {
                match NaiveDateTime::parse(text.as_str()) {
                    Some(time) => Some((binexpr.op, time)),
                    None => None,
                }
            } else {
                None
            }
        },
        _ => None,
    }
}

impl PartialTimeFilter {
    /// What an operator and a point in time set.
    pub fn from_bound(op: Operator, time: NaiveDateTime) -> (r: Option<PartialTimeFilter>)
        ensures
            match r {
                Some(filter) => filter_from(op, time@) == Some(filter@),
                None => filter_from(op, time@) is None,
            },
    {
        match op {
            Operator::Gt => Some(PartialTimeFilter::Low(Bound::Excluded(time))),
            Operator::GtEq => Some(PartialTimeFilter::Low(Bound::Included(time))),
            Operator::Lt => Some(PartialTimeFilter::High(Bound::Excluded(time))),
            Operator::LtEq => Some(PartialTimeFilter::High(Bound::Included(time))),
            Operator::Eq => Some(PartialTimeFilter::Eq(time)),
            Operator::IsNotDistinctFrom => Some(PartialTimeFilter::Eq(time)),
            _ => None,
        }
    }

    /// The bound that a filter sets on time, if it does.
    pub fn try_from_expr(expr: &Expr, time_partition: &Option<String>) -> (r: Option<PartialTimeFilter>)
        requires
            times_are_held(*expr),
        ensures
            match r {
                Some(filter) => time_filter_of(*expr, *time_partition) == Some(filter@),
                None => time_filter_of(*expr, *time_partition) is None,
            },
    {
        match expr {
            Expr::BinaryExpr(binexpr) => match extract_timestamp_bound(binexpr, time_partition) {
                Some((op, time)) => PartialTimeFilter::from_bound(op, time),
                None => None,
            },
            _ => None,
        }
    }

    /// The comparison of an expression that the filter stands for, in whole
    /// milliseconds.
    pub fn binary_expr(&self, left: Expr) -> (r: Expr)
        requires
            self@.time() is Some,
        ensures
            stands_for(r, self@, left),
    {
        let (op, right): (Operator, i64) = match self {
            PartialTimeFilter::Low(Bound::Excluded(time)) => (Operator::Gt, time.timestamp_millis()),
            PartialTimeFilter::Low(Bound::Included(time)) => (Operator::GtEq, time.timestamp_millis()),
            PartialTimeFilter::High(Bound::Excluded(time)) => (Operator::Lt, time.timestamp_millis()),
            PartialTimeFilter::High(Bound::Included(time)) => (Operator::LtEq, time.timestamp_millis()),
            PartialTimeFilter::Eq(time) => (Operator::Eq, time.timestamp_millis()),
            _ => (Operator::Other, 0),
        };
        Expr::BinaryExpr(
            BinaryExpr {
                left: Box::new(left),
                op,
                right: Box::new(
                    Expr::Literal(ScalarValue::TimestampMillisecond(Some(right), None), None),
                ),
            },
        )
    }
}

/// Whether an expression is the comparison of `left` that a filter stands for,
/// in whole milliseconds.
pub open spec fn stands_for(expr: Expr, filter: TimeFilter, left: Expr) -> bool {
    expr matches Expr::BinaryExpr(binary) && {
        &&& *binary.left == left
        &&& binary.op == filter.operator()
        &&& *binary.right matches Expr::Literal(
            ScalarValue::TimestampMillisecond(Some(millis), None),
            None,
        )
        &&& millis == millis_of(filter.time()->0)
    }
}

/// Extracts the start and the end of the time that the filters ask for: the
/// bounds that they set on time, in order.
pub fn extract_primary_filter(filters: &[Expr], time_partition: &Option<String>) -> (r: Vec<
    PartialTimeFilter,
>)
    requires
        forall|i: int| 0 <= i < filters@.len() ==> times_are_held(#[trigger] filters@[i]),
    ensures
        filter_views(r@) == time_filters_of(filters@, *time_partition),
{
    let mut r: Vec<PartialTimeFilter> = Vec::new();
    let mut i: usize = 0;
    assert(filter_views(r@) =~= Seq::empty());
    while i < filters.len()
        invariant
            i <= filters@.len(),
            forall|j: int| 0 <= j < filters@.len() ==> times_are_held(#[trigger] filters@[j]),
            filter_views(r@) == time_filters_of(filters@.take(i as int), *time_partition),
        decreases filters@.len() - i,
    {
        proof {
            assert(filters@.take(i + 1).drop_last() =~= filters@.take(i as int));
        }
        let ghost before = r@;
        if let Some(filter) = PartialTimeFilter::try_from_expr(&filters[i], time_partition) {
            r.push(filter);
            assert(filter_views(r@) =~= filter_views(before).push(filter@));
        }
        i = i + 1;
    }
    assert(filters@.take(i as int) =~= filters@);
    r
}

/// The bound that a comparison with a number of milliseconds sets admits what
/// the comparison does: a point in time `m` milliseconds after the epoch meets
/// it exactly where `m` stands so to the number. Other operators set none.
pub proof fn comparison_with_milliseconds_bounds_time(
    binary: BinaryExpr,
    n: i64,
    zone: Option<String>,
    time_partition: Option<String>,
    m: int,
)
    requires
        *binary.right == Expr::Literal(ScalarValue::TimestampMillisecond(Some(n), zone), None),
    ensures
        ({
            let filter = time_filter_of(Expr::BinaryExpr(binary), time_partition);
            match binary.op {
                Operator::Gt => filter matches Some(f) && f is Low && (f.admits(instant_of_millis(m)) <==> m > n),
                Operator::GtEq => filter matches Some(f) && f is Low && (f.admits(instant_of_millis(m)) <==> m
                    >= n),
                Operator::Lt => filter matches Some(f) && f is High && (f.admits(instant_of_millis(m)) <==> m < n),
                Operator::LtEq => filter matches Some(f) && f is High && (f.admits(instant_of_millis(m)) <==> m
                    <= n),
                Operator::Eq | Operator::IsNotDistinctFrom => filter matches Some(f) && f is Eq && (f.admits(
                    instant_of_millis(m),
                ) <==> m == n),
                _ => filter is None,
            }
        }),
{
}

/// The bound that a comparison with a number of nanoseconds sets admits what the
/// comparison does.
pub proof fn comparison_with_nanoseconds_bounds_time(
    binary: BinaryExpr,
    n: i64,
    zone: Option<String>,
    time_partition: Option<String>,
    m: int,
)
    requires
        *binary.right == Expr::Literal(ScalarValue::TimestampNanosecond(Some(n), zone), None),
    ensures
        ({
            let filter = time_filter_of(Expr::BinaryExpr(binary), time_partition);
            match binary.op {
                Operator::Gt => filter matches Some(f) && f is Low && (f.admits(instant_of_nanos(m)) <==> m > n),
                Operator::GtEq => filter matches Some(f) && f is Low && (f.admits(instant_of_nanos(m)) <==> m >= n),
                Operator::Lt => filter matches Some(f) && f is High && (f.admits(instant_of_nanos(m)) <==> m < n),
                Operator::LtEq => filter matches Some(f) && f is High && (f.admits(instant_of_nanos(m)) <==> m
                    <= n),
                Operator::Eq | Operator::IsNotDistinctFrom => filter matches Some(f) && f is Eq && (f.admits(
                    instant_of_nanos(m),
                ) <==> m == n),
                _ => filter is None,
            }
        }),
{
}

/// A text bounds time exactly where it is compared with the column by which the
/// stream is partitioned and reads as a point in time: it then bounds as that
/// point in time does.
pub proof fn comparison_with_a_text_bounds_time(
    binary: BinaryExpr,
    text: String,
    time_partition: Option<String>,
    t: Instant,
)
    requires
        *binary.right == Expr::Literal(ScalarValue::Utf8(Some(text)), None),
    ensures
        ({
            let filter = time_filter_of(Expr::BinaryExpr(binary), time_partition);
            match (*binary.left, time_partition, datetime_reading(text@)) {
                (Expr::Column(column), Some(partition), Some((secs, nanos))) => if column.name@ == partition@ {
                    match binary.op {
                        Operator::Gt => filter matches Some(f) && f is Low && (f.admits(t) <==> t.0 > secs || t.0
                            == secs && t.1 > nanos),
                        Operator::GtEq => filter matches Some(f) && f is Low && (f.admits(t) <==> t.0 > secs
                            || t.0 == secs && t.1 >= nanos),
                        Operator::Lt => filter matches Some(f) && f is High && (f.admits(t) <==> t.0 < secs || t.0
                            == secs && t.1 < nanos),
                        Operator::LtEq => filter matches Some(f) && f is High && (f.admits(t) <==> t.0 < secs
                            || t.0 == secs && t.1 <= nanos),
                        Operator::Eq | Operator::IsNotDistinctFrom => filter matches Some(f) && f is Eq && (
                        f.admits(t) <==> t.0 == secs && t.1 == nanos),
                        _ => filter is None,
                    }
                } else {
                    filter is None
                },
                _ => filter is None,
            }
        }),
{
}

/// Filters set bounds one by one: those of two lists are those of the one, then
/// those of the other, and a single filter sets its own.
pub proof fn filters_bound_time_one_by_one(a: Seq<Expr>, b: Seq<Expr>, time_partition: Option<String>)
    ensures
        time_filters_of(a + b, time_partition) == time_filters_of(a, time_partition) + time_filters_of(
            b,
            time_partition,
        ),
        a.len() == 1 ==> match time_filter_of(a[0], time_partition) {
            Some(filter) => time_filters_of(a, time_partition) == seq![filter],
            None => time_filters_of(a, time_partition).len() == 0,
        },
    decreases b.len(),
{
    if b.len() == 0 {
        assert(a + b =~= a);
        assert(time_filters_of(a, time_partition) + time_filters_of(b, time_partition) =~= time_filters_of(
            a,
            time_partition,
        ));
    } else {
        assert((a + b).drop_last() =~= a + b.drop_last());
        filters_bound_time_one_by_one(a, b.drop_last(), time_partition);
        if let Some(filter) = time_filter_of(b.last(), time_partition) {
            let front = time_filters_of(a, time_partition);
            let back = time_filters_of(b.drop_last(), time_partition);
            assert((front + back).push(filter) =~= front + back.push(filter));
        }
    }
    if a.len() == 1 {
        reveal_with_fuel(time_filters_of, 2);
        assert(a.drop_last() =~= Seq::<Expr>::empty());
        if let Some(filter) = time_filter_of(a[0], time_partition) {
            assert(Seq::<TimeFilter>::empty().push(filter) =~= seq![filter]);
        }
    }
}

/// Whether no filter of a list compares with a number of milliseconds that is
/// no point in time.
pub fn timestamps_are_held(filters: &[Expr]) -> (r: bool)
    ensures
        r == (forall|i: int| 0 <= i < filters@.len() ==> times_are_held(#[trigger] filters@[i])),
{
    let mut i: usize = 0;
    while i < filters.len()
        invariant
            i <= filters@.len(),
            forall|j: int| 0 <= j < i ==> times_are_held(#[trigger] filters@[j]),
        decreases filters@.len() - i,
    {
        if let Expr::BinaryExpr(binary) = &filters[i] {
            if let Expr::Literal(ScalarValue::TimestampMillisecond(Some(millis), _), None) = &*binary.right {
                if NaiveDateTime::from_timestamp_millis(*millis).is_none() {
                    assert(!times_are_held(filters@[i as int]));
                    return false;
                }
            }
        }
        i = i + 1;
    }
    true
}

// ---------------------------------------------------------------------------
// Filters that partitions settle
// ---------------------------------------------------------------------------

/// How much of a filter the choice of files settles.
#[derive(Clone, Copy, Debug, PartialEq, Eq, Structural)]
pub enum FilterPushDown {
    /// All of it: no row of the chosen files needs to be tested.
    Exact,
    /// A part of it: the rows still need to be tested.
    Inexact,
}

/// Whether a filter bounds time from one side at the start of a minute. The
/// prefixes under which data is stored are a minute long, so such a bound
/// falls between two of them.
pub open spec fn falls_on_minute(filter: Expr) -> bool {
    match filter {
        Expr::BinaryExpr(binary) => match bound_time(*binary.left, *binary.right, None) {
            Some(time) => {
                &&& time.0 % 60 == 0
                &&& time.1 == 0
                &&& binary.op == Operator::Gt || binary.op == Operator::GtEq || binary.op == Operator::Lt
                    || binary.op == Operator::LtEq
            },
            None => false,
        },
        _ => false,
    }
}

/// Whether a filter bounds time from one side at the start of a minute.
pub fn expr_in_boundary(filter: &Expr) -> (r: bool)
    requires
        times_are_held(*filter),
    ensures
        r == falls_on_minute(*filter),
{
    match filter {
        Expr::BinaryExpr(binexpr) => match extract_timestamp_bound(binexpr, &None) {
            Some((op, time)) => time.second() == 0 && time.nanosecond() == 0 && matches!(
                op,
                Operator::Gt | Operator::GtEq | Operator::Lt | Operator::LtEq
            ),
            None => false,
        },
        _ => false,
    }
}

/// How much of each filter the choice of files settles.
pub fn supports_filters_pushdown(filters: &[Expr]) -> (r: Vec<FilterPushDown>)
    requires
        forall|i: int| 0 <= i < filters@.len() ==> times_are_held(#[trigger] filters@[i]),
    ensures
        r@.len() == filters@.len(),
        forall|i: int|
            0 <= i < filters@.len() ==> #[trigger] r@[i] == if falls_on_minute(filters@[i]) {
                FilterPushDown::Exact
            } else {
                FilterPushDown::Inexact
            },
{
    let mut r: Vec<FilterPushDown> = Vec::new();
    let mut i: usize = 0;
    while i < filters.len()
        invariant
            i <= filters@.len(),
            r@.len() == i,
            forall|j: int| 0 <= j < filters@.len() ==> times_are_held(#[trigger] filters@[j]),
            forall|j: int|
                0 <= j < i ==> #[trigger] r@[j] == if falls_on_minute(filters@[j]) {
                    FilterPushDown::Exact
                } else {
                    FilterPushDown::Inexact
                },
        decreases filters@.len() - i,
    {
        let support = if expr_in_boundary(&filters[i]) {
            FilterPushDown::Exact
        } else {
            FilterPushDown::Inexact
        };
        r.push(support);
        i = i + 1;
    }
    r
}

/// A bound that falls on the start of a minute splits no minute: of two points
/// in time in one minute it admits both or none. Under `>` and `<=` that leaves
/// out the start itself, which such a bound parts from the rest of its minute.
pub proof fn bound_on_a_minute_splits_no_minute(filter: Expr, a: Instant, b: Instant)
    requires
        falls_on_minute(filter),
        is_instant(a),
        is_instant(b),
        a.0 / 60 == b.0 / 60,
        time_filter_of(filter, None) matches Some(bound) && {
            bound.operator() == Operator::Gt || bound.operator() == Operator::LtEq ==> bound.time() != Some(a)
                && bound.time() != Some(b)
        },
    ensures
        time_filter_of(filter, None)->0.admits(a) == time_filter_of(filter, None)->0.admits(b),
{
}

/// The choice of files settles a comparison with a timestamp exactly where it
/// bounds time from one side at a whole minute since the epoch; it settles no
/// comparison with anything else.
pub proof fn whole_minutes_are_settled(binary: BinaryExpr)
    ensures
        ({
            let one_sided = match binary.op {
                Operator::Gt | Operator::GtEq | Operator::Lt | Operator::LtEq => true,
                _ => false,
            };
            let settled = falls_on_minute(Expr::BinaryExpr(binary));
            match *binary.right {
                Expr::Literal(ScalarValue::TimestampMillisecond(Some(n), _), None) => settled == (one_sided && n
                    % 60_000 == 0),
                Expr::Literal(ScalarValue::TimestampNanosecond(Some(n), _), None) => settled == (one_sided && n
                    % 60_000_000_000 == 0),
                _ => !settled,
            }
        }),
{
}

// ---------------------------------------------------------------------------
// Data without manifests
// ---------------------------------------------------------------------------

/// Whether a filter bounds time from below at a point before another.
pub open spec fn starts_before(filter: TimeFilter, first: Instant) -> bool {
    match filter {
        TimeFilter::Low(TimeBound::Included(time)) => earlier(time, first),
        TimeFilter::Low(TimeBound::Excluded(time)) => earlier(time, first),
        _ => false,
    }
}

/// Whether the filters ask for data from before the first manifest, or there
/// is none.
pub open spec fn overlaps_older_data(list: Seq<ManifestItem>, filters: Seq<TimeFilter>) -> bool {
    match first_lower_bound(list) {
        Some(first) => exists|i: int| 0 <= i < filters.len() && starts_before(#[trigger] filters[i], first),
        None => true,
    }
}

/// Whether a query asks for data that no manifest lists: there is no manifest,
/// or the query starts before the first one.
pub fn is_overlapping_query(manifest_list: &[ManifestItem], time_filters: &[PartialTimeFilter]) -> (r: bool)
    ensures
        r == overlaps_older_data(manifest_list@, filter_views(time_filters@)),
{
    match earliest(manifest_list) {
        Some(first) => {
            let ghost views = filter_views(time_filters@);
            let mut i: usize = 0;
            while i < time_filters.len()
                invariant
                    i <= time_filters@.len(),
                    views == filter_views(time_filters@),
                    first_lower_bound(manifest_list@) == Some(first@),
                    forall|j: int| 0 <= j < i ==> !starts_before(#[trigger] views[j], first@),
                decreases time_filters@.len() - i,
            {
                let before = match &time_filters[i] {
                    PartialTimeFilter::Low(Bound::Excluded(time)) => time.is_before(&first),
                    PartialTimeFilter::Low(Bound::Included(time)) => time.is_before(&first),
                    _ => false,
                };
                assert(before == starts_before(views[i as int], first@));
                if before {
                    return true;
                }
                i = i + 1;
            }
            false
        },
        None => true,
    }
}

/// A query asks for older data wherever a filter, at any place of the list,
/// bounds time from below at a point before every manifest begins.
pub proof fn early_lower_bound_asks_for_older_data(
    list: Seq<ManifestItem>,
    filters: Seq<TimeFilter>,
    i: int,
    start: Instant,
)
    requires
        0 <= i < filters.len(),
        match filters[i] {
            TimeFilter::Low(TimeBound::Included(time)) => start == time,
            TimeFilter::Low(TimeBound::Excluded(time)) => start == time,
            _ => false,
        },
        forall|j: int|
            0 <= j < list.len() ==> start.0 < (#[trigger] list[j]).time_lower_bound@.0 || start.0
                == list[j].time_lower_bound@.0 && start.1 < list[j].time_lower_bound@.1,
    ensures
        overlaps_older_data(list, filters),
{
    if list.len() > 0 {
        lemma_first_lower_bound_exists(list);
        let first = first_lower_bound(list)->0;
        let j = choose|j: int| 0 <= j < list.len() && (#[trigger] list[j]).time_lower_bound@ == first;
        assert(list[j].time_lower_bound@ == first);
        assert(starts_before(filters[i], first));
    }
}

/// A query for which some manifest begins no later than each of its lower bounds
/// asks for no older data.
pub proof fn late_lower_bounds_ask_for_no_older_data(list: Seq<ManifestItem>, filters: Seq<TimeFilter>, j: int)
    requires
        0 <= j < list.len(),
        forall|i: int|
            0 <= i < filters.len() ==> match #[trigger] filters[i] {
                TimeFilter::Low(TimeBound::Included(time)) => list[j].time_lower_bound@.0 < time.0
                    || list[j].time_lower_bound@.0 == time.0 && list[j].time_lower_bound@.1 <= time.1,
                TimeFilter::Low(TimeBound::Excluded(time)) => list[j].time_lower_bound@.0 < time.0
                    || list[j].time_lower_bound@.0 == time.0 && list[j].time_lower_bound@.1 <= time.1,
                _ => true,
            },
    ensures
        !overlaps_older_data(list, filters),
{
    lemma_first_lower_bound_exists(list);
    let first = first_lower_bound(list)->0;
    assert(!earlier(list[j].time_lower_bound@, first));
    assert forall|i: int| 0 <= i < filters.len() implies !starts_before(#[trigger] filters[i], first) by {
    }
}

/// Without manifests every query asks for older data.
pub proof fn query_without_manifests_asks_for_older_data(filters: Seq<TimeFilter>)
    ensures
        overlaps_older_data(Seq::empty(), filters),
{
}

/// The order of the filters does not decide whether a query asks for older data.
pub proof fn older_data_is_asked_for_in_any_order(list: Seq<ManifestItem>, a: Seq<TimeFilter>, b: Seq<TimeFilter>)
    requires
        forall|filter: TimeFilter| a.contains(filter) <==> b.contains(filter),
    ensures
        overlaps_older_data(list, a) == overlaps_older_data(list, b),
{
    lemma_overlap_by_filters(list, a, b);
    lemma_overlap_by_filters(list, b, a);
}

proof fn lemma_overlap_by_filters(list: Seq<ManifestItem>, a: Seq<TimeFilter>, b: Seq<TimeFilter>)
    requires
        forall|filter: TimeFilter| a.contains(filter) <==> b.contains(filter),
    ensures
        overlaps_older_data(list, a) ==> overlaps_older_data(list, b),
{
    if overlaps_older_data(list, a) {
        if let Some(first) = first_lower_bound(list) {
            let i = choose|i: int| 0 <= i < a.len() && starts_before(#[trigger] a[i], first);
            assert(a.contains(a[i]));
            assert(b.contains(a[i]));
            let j = b.index_of(a[i]);
            assert(starts_before(b[j], first));
        }
    }
}

/// The first manifest begins when some manifest does, and none begins before.
pub proof fn first_manifest_begins_first(list: Seq<ManifestItem>, j: int)
    requires
        0 <= j < list.len(),
    ensures
        first_lower_bound(list) matches Some(first) && {
            &&& exists|i: int| 0 <= i < list.len() && (#[trigger] list[i]).time_lower_bound@ == first
            &&& first.0 < list[j].time_lower_bound@.0 || first.0 == list[j].time_lower_bound@.0 && first.1
                <= list[j].time_lower_bound@.1
        },
{
    lemma_first_lower_bound_exists(list);
}

/// Whether a filter bounds time from above at a point.
pub open spec fn has_upper_time(filter: TimeFilter) -> bool {
    match filter {
        TimeFilter::High(TimeBound::Included(_)) => true,
        TimeFilter::High(TimeBound::Excluded(_)) => true,
        _ => false,
    }
}

/// A filter for the data from before the first manifest: a bound from above
/// that is not before the first manifest becomes the first manifest's start.
pub open spec fn listing_filter(filter: TimeFilter, first: Instant) -> TimeFilter {
    if has_upper_time(filter) && !earlier(filter.time()->0, first) {
        TimeFilter::High(TimeBound::Excluded(first))
    } else {
        filter
    }
}

/// The filters for the data from before the first manifest.
pub open spec fn listing_filters(filters: Seq<TimeFilter>, first: Instant) -> Seq<TimeFilter> {
    filters.map_values(|filter: TimeFilter| listing_filter(filter, first))
}

/// The bounds from above of a list of filters, in order.
pub open spec fn upper_filters(filters: Seq<TimeFilter>) -> Seq<TimeFilter>
    decreases filters.len(),
{
    if filters.len() == 0 {
        Seq::empty()
    } else if has_upper_time(filters.last()) {
        upper_filters(filters.drop_last()).push(filters.last())
    } else {
        upper_filters(filters.drop_last())
    }
}

/// The filters for the data that manifests list: from the first manifest's
/// start to the bounds from above.
pub open spec fn manifest_filters(filters: Seq<TimeFilter>, first: Instant) -> Seq<TimeFilter> {
    seq![TimeFilter::Low(TimeBound::Included(first))] + upper_filters(filters)
}

/// This function will accept time filters provided to the query and will split
/// them into listing time filters and manifest time filters.
///
/// Where there are no manifests all filters are for listing, and stay as they
/// are. Otherwise the filters become those for manifests, and those for
/// listing are returned, if there are any.
pub fn return_listing_time_filters(
    manifest_list: &[ManifestItem],
    time_filters: &mut Vec<PartialTimeFilter>,
) -> (r: Option<Vec<PartialTimeFilter>>)
    ensures
        match first_lower_bound(manifest_list@) {
            None => {
                &&& r matches Some(listing) && listing@ == old(time_filters)@
                &&& final(time_filters)@ == old(time_filters)@
            },
            Some(first) => {
                &&& filter_views(final(time_filters)@) == manifest_filters(
                    filter_views(old(time_filters)@),
                    first,
                )
                &&& match r {
                    Some(listing) => old(time_filters)@.len() > 0 && filter_views(listing@) == listing_filters(
                        filter_views(old(time_filters)@),
                        first,
                    ),
                    None => old(time_filters)@.len() == 0,
                }
            },
        },
{
    let ghost filters = filter_views(time_filters@);
    let ghost given = time_filters@;
    match earliest(manifest_list) {
        None => {
            let mut listing: Vec<PartialTimeFilter> = Vec::new();
            let mut i: usize = 0;
            while i < time_filters.len()
                invariant
                    i <= time_filters@.len(),
                    time_filters@ == given,
                    listing@ == given.take(i as int),
                decreases time_filters@.len() - i,
            {
                listing.push(time_filters[i]);
                assert(given.take(i + 1) =~= given.take(i as int).push(given[i as int]));
                i = i + 1;
            }
            assert(given.take(i as int) =~= given);
            Some(listing)
        },
        Some(first) => {
            let mut listing: Vec<PartialTimeFilter> = Vec::new();
            let mut kept: Vec<PartialTimeFilter> = Vec::new();
            kept.push(PartialTimeFilter::Low(Bound::Included(first)));
            let ghost start = seq![TimeFilter::Low(TimeBound::Included(first@))];
            assert(filter_views(kept@) =~= start + upper_filters(filters.take(0)));
            assert(filter_views(listing@) =~= listing_filters(filters.take(0), first@));
            let mut i: usize = 0;
            while i < time_filters.len()
                invariant
                    i <= time_filters@.len(),
                    time_filters@ == given,
                    filters == filter_views(given),
                    start == seq![TimeFilter::Low(TimeBound::Included(first@))],
                    filter_views(kept@) == start + upper_filters(filters.take(i as int)),
                    filter_views(listing@) == listing_filters(filters.take(i as int), first@),
                decreases time_filters@.len() - i,
            {
                let filter = time_filters[i];
                let ghost listed = listing@;
                let ghost held = kept@;
                proof {
                    assert(filters.take(i + 1).drop_last() =~= filters.take(i as int));
                    assert(filters[i as int] == filter@);
                }
                let upper: Option<NaiveDateTime> = match filter {
                    PartialTimeFilter::High(Bound::Included(upper)) => Some(upper),
                    PartialTimeFilter::High(Bound::Excluded(upper)) => Some(upper),
                    _ => None,
                };
                let for_listing: PartialTimeFilter = match upper {
                    Some(upper) => if upper.is_before(&first) {
                        filter
                    } else {
                        PartialTimeFilter::High(Bound::Excluded(first))
                    },
                    None => filter,
                };
                listing.push(for_listing);
                if upper.is_some() {
                    kept.push(filter);
                    assert(filter_views(kept@) =~= filter_views(held).push(filter@));
                    assert((start + upper_filters(filters.take(i as int))).push(filter@) =~= start
                        + upper_filters(filters.take(i as int)).push(filter@));
                }
                assert(filter_views(listing@) =~= filter_views(listed).push(for_listing@));
                assert(listing_filters(filters.take(i + 1), first@) =~= listing_filters(
                    filters.take(i as int),
                    first@,
                ).push(listing_filter(filter@, first@)));
                i = i + 1;
            }
            assert(filters.take(i as int) =~= filters);
            *time_filters = kept;
            if listing.len() > 0 {
                assert(listing_filters(filters, first@).len() == filter_views(listing@).len());
                Some(listing)
            } else {
                assert(filter_views(listing@).len() == 0);
                None
            }
        },
    }
}

/// No part of a query is lost when its filters are split: a point in time that
/// it asks for is asked for in the listing or in the manifests.
pub proof fn split_covers_the_query(list: Seq<ManifestItem>, filters: Seq<TimeFilter>, t: Instant)
    requires
        all_admit(filters, t),
    ensures
        first_lower_bound(list) matches Some(first) ==> all_admit(listing_filters(filters, first), t) || all_admit(
            manifest_filters(filters, first),
            t,
        ),
{
    if let Some(first) = first_lower_bound(list) {
        if earlier(t, first) {
            let listing = listing_filters(filters, first);
            assert forall|i: int| 0 <= i < listing.len() implies (#[trigger] listing[i]).admits(t) by {
                assert(filters[i].admits(t));
            }
        } else {
            let kept = manifest_filters(filters, first);
            assert forall|i: int| 0 <= i < kept.len() implies (#[trigger] kept[i]).admits(t) by {
                if i > 0 {
                    lemma_upper_filter_is_one_of(filters, i - 1);
                    let j = choose|j: int| 0 <= j < filters.len() && filters[j] == upper_filters(filters)[i - 1];
                    assert(filters[j].admits(t));
                }
            }
        }
    }
}

proof fn lemma_upper_filter_is_one_of(filters: Seq<TimeFilter>, i: int)
    requires
        0 <= i < upper_filters(filters).len(),
    ensures
        exists|j: int| 0 <= j < filters.len() && filters[j] == upper_filters(filters)[i],
    decreases filters.len(),
{
    let shorter = filters.drop_last();
    if i < upper_filters(shorter).len() {
        lemma_upper_filter_is_one_of(shorter, i);
        let j = choose|j: int| 0 <= j < shorter.len() && shorter[j] == upper_filters(shorter)[i];
        assert(filters[j] == upper_filters(filters)[i]);
    } else {
        assert(filters[filters.len() - 1] == upper_filters(filters)[i]);
    }
}

/// The filters for the listing admit what the query's own do, and nothing from
/// the first manifest's start on where an upper bound reaches it.
pub proof fn listing_admits_the_older_part(filters: Seq<TimeFilter>, first: Instant, t: Instant)
    ensures
        (forall|i: int| 0 <= i < filters.len() ==> (#[trigger] listing_filters(filters, first)[i]).admits(t)) <==> {
            &&& forall|i: int| 0 <= i < filters.len() ==> (#[trigger] filters[i]).admits(t)
            &&& (exists|i: int|
                0 <= i < filters.len() && match #[trigger] filters[i] {
                    TimeFilter::High(TimeBound::Included(end)) => !earlier(end, first),
                    TimeFilter::High(TimeBound::Excluded(end)) => !earlier(end, first),
                    _ => false,
                }) ==> earlier(t, first)
        },
        listing_filters(filters, first).len() == filters.len(),
        forall|i: int|
            0 <= i < filters.len() ==> (match #[trigger] filters[i] {
                TimeFilter::High(TimeBound::Included(end)) => earlier(end, first),
                TimeFilter::High(TimeBound::Excluded(end)) => earlier(end, first),
                _ => true,
            }) ==> listing_filters(filters, first)[i] == filters[i],
{
    let listing = listing_filters(filters, first);
    if forall|i: int| 0 <= i < filters.len() ==> (#[trigger] listing[i]).admits(t) {
        assert forall|i: int| 0 <= i < filters.len() implies (#[trigger] filters[i]).admits(t) by {
            assert(listing[i].admits(t));
        }
        if exists|i: int|
            0 <= i < filters.len() && match #[trigger] filters[i] {
                TimeFilter::High(TimeBound::Included(end)) => !earlier(end, first),
                TimeFilter::High(TimeBound::Excluded(end)) => !earlier(end, first),
                _ => false,
            } {
            let i = choose|i: int|
                0 <= i < filters.len() && match #[trigger] filters[i] {
                    TimeFilter::High(TimeBound::Included(end)) => !earlier(end, first),
                    TimeFilter::High(TimeBound::Excluded(end)) => !earlier(end, first),
                    _ => false,
                };
            assert(listing[i].admits(t));
        }
    } else {
        let i = choose|i: int| 0 <= i < filters.len() && !(#[trigger] listing[i]).admits(t);
        assert(listing[i] == listing_filter(filters[i], first));
    }
}

/// The filters for the manifests admit what lies neither before the first
/// manifest's start nor beyond one of the query's upper bounds.
pub proof fn manifests_admit_the_newer_part(filters: Seq<TimeFilter>, first: Instant, t: Instant)
    ensures
        all_admit(manifest_filters(filters, first), t) <==> {
            &&& !earlier(t, first)
            &&& forall|i: int| 0 <= i < filters.len() && #[trigger] filters[i] is High ==> filters[i].admits(t)
        },
{
    let kept = manifest_filters(filters, first);
    let upper = upper_filters(filters);
    if all_admit(kept, t) {
        assert(kept[0].admits(t));
        assert forall|i: int| 0 <= i < filters.len() && #[trigger] filters[i] is High implies filters[i].admits(t) by {
            if has_upper_time(filters[i]) {
                lemma_upper_filter_is_kept(filters, i);
                let j = choose|j: int| 0 <= j < upper.len() && upper[j] == filters[i];
                assert(kept[j + 1].admits(t));
            }
        }
    }
    if !earlier(t, first) && forall|i: int|
        0 <= i < filters.len() && #[trigger] filters[i] is High ==> filters[i].admits(t) {
        assert forall|i: int| 0 <= i < kept.len() implies (#[trigger] kept[i]).admits(t) by {
            if i > 0 {
                lemma_upper_filter_is_one_of(filters, i - 1);
                let j = choose|j: int| 0 <= j < filters.len() && filters[j] == upper[i - 1];
                lemma_upper_filters_are_upper(filters, i - 1);
                assert(filters[j] is High);
            }
        }
    }
}

proof fn lemma_upper_filter_is_kept(filters: Seq<TimeFilter>, i: int)
    requires
        0 <= i < filters.len(),
        has_upper_time(filters[i]),
    ensures
        exists|j: int| 0 <= j < upper_filters(filters).len() && upper_filters(filters)[j] == filters[i],
    decreases filters.len(),
{
    let shorter = filters.drop_last();
    if i < shorter.len() {
        lemma_upper_filter_is_kept(shorter, i);
        let j = choose|j: int| 0 <= j < upper_filters(shorter).len() && upper_filters(shorter)[j] == shorter[i];
        assert(upper_filters(filters)[j] == filters[i]);
    } else {
        assert(upper_filters(filters)[upper_filters(filters).len() - 1] == filters[i]);
    }
}

proof fn lemma_upper_filters_are_upper(filters: Seq<TimeFilter>, i: int)
    requires
        0 <= i < upper_filters(filters).len(),
    ensures
        has_upper_time(upper_filters(filters)[i]),
    decreases filters.len(),
{
    let shorter = filters.drop_last();
    if i < upper_filters(shorter).len() {
        lemma_upper_filters_are_upper(shorter, i);
    }
}

/// Nothing is read twice where a query is bounded from above: no point in time
/// is asked for both in the listing and in the manifests.
pub proof fn split_of_a_bounded_query_is_disjoint(
    list: Seq<ManifestItem>,
    filters: Seq<TimeFilter>,
    bound: int,
    t: Instant,
)
    requires
        0 <= bound < filters.len(),
        has_upper_time(filters[bound]),
    ensures
        first_lower_bound(list) matches Some(first) ==> !(all_admit(listing_filters(filters, first), t)
            && all_admit(manifest_filters(filters, first), t)),
{
    if let Some(first) = first_lower_bound(list) {
        let listing = listing_filters(filters, first);
        let kept = manifest_filters(filters, first);
        if all_admit(listing, t) && all_admit(kept, t) {
            assert(listing[bound].admits(t));
            assert(kept[0].admits(t));
        }
    }
}

/// The comparison that a filter stands for reads back as the filter, in whole
/// milliseconds.
pub proof fn comparison_reads_back(expr: Expr, filter: TimeFilter, left: Expr, time_partition: Option<String>)
    requires
        filter.time() matches Some(time) && is_instant(time) && time.1 < 1_000_000_000,
        stands_for(expr, filter, left),
    ensures
        times_are_held(expr),
        ({
            let time = filter.time()->0;
            let whole = (time.0, time.1 - time.1 % 1_000_000);
            &&& time_filter_of(expr, time_partition) == filter_from(filter.operator(), whole)
            &&& time == whole ==> time_filter_of(expr, time_partition) == Some(filter)
        }),
{
}

// ---------------------------------------------------------------------------
// Data in staging
// ---------------------------------------------------------------------------

/// How far back data may still be in staging, in seconds.
pub const STAGING_WINDOW_SECS: u32 = 300;

/// Whether a filter's upper end is not before a point in time.
pub open spec fn reaches(filter: TimeFilter, since: Instant) -> bool {
    match filter {
        TimeFilter::High(TimeBound::Excluded(time)) => not_later(since, time),
        TimeFilter::High(TimeBound::Included(time)) => not_later(since, time),
        TimeFilter::Eq(time) => not_later(since, time),
        _ => false,
    }
}

/// Whether filters ask for data since a point in time: one of them reaches
/// it, or none bounds time from above.
pub open spec fn asks_since(filters: Seq<TimeFilter>, since: Instant) -> bool {
    ||| exists|i: int| 0 <= i < filters.len() && reaches(#[trigger] filters[i], since)
    ||| forall|i: int| 0 <= i < filters.len() ==> !(#[trigger] filters[i] is High)
}

/// The point since which data may be in staging: the start of the minute five
/// minutes ago.
pub open spec fn staging_start(now: Instant) -> Instant {
    start_of_minute(moved_back(now, STAGING_WINDOW_SECS as int))
}

/// Whether filters ask for data since a point in time.
pub fn asks_for_data_since(time_filters: &[PartialTimeFilter], since: &NaiveDateTime) -> (r: bool)
    ensures
        r == asks_since(filter_views(time_filters@), since@),
{
    let ghost views = filter_views(time_filters@);
    let mut has_upper_bound = false;
    let mut i: usize = 0;
    while i < time_filters.len()
        invariant
            i <= time_filters@.len(),
            views == filter_views(time_filters@),
            forall|j: int| 0 <= j < i ==> !reaches(#[trigger] views[j], since@),
            has_upper_bound <==> exists|j: int| 0 <= j < i && #[trigger] views[j] is High,
        decreases time_filters@.len() - i,
    {
        let reached = match &time_filters[i] {
            PartialTimeFilter::High(Bound::Excluded(time)) => !time.is_before(since),
            PartialTimeFilter::High(Bound::Included(time)) => !time.is_before(since),
            PartialTimeFilter::Eq(time) => !time.is_before(since),
            _ => false,
        };
        assert(reached == reaches(views[i as int], since@));
        if reached {
            return true;
        }
        if let PartialTimeFilter::High(_) = &time_filters[i] {
            assert(views[i as int] is High);
            has_upper_bound = true;
        }
        i = i + 1;
    }
    !has_upper_bound
}

/// Whether data in staging concerns a query, at a point in time: data of the
/// last five minutes may still be there.
pub fn is_within_staging_window_at(time_filters: &[PartialTimeFilter], now: &NaiveDateTime) -> (r: bool)
    requires
        MIN_SECS + STAGING_WINDOW_SECS <= now@.0,
    ensures
        r == asks_since(filter_views(time_filters@), staging_start(now@)),
{
    match now.minute_before(STAGING_WINDOW_SECS) {
        Some(since) => asks_for_data_since(time_filters, &since),
        None => true,
    }
}

/// We should consider data in staging for queries concerning a time period,
/// ending within 5 minutes from now.
pub fn is_within_staging_window(time_filters: &[PartialTimeFilter]) -> (r: bool)
    ensures
        exists|now: Instant|
            0 <= now.0 && is_instant(now) && r == #[trigger] asks_since(
                filter_views(time_filters@),
                staging_start(now),
            ),
        (forall|i: int| 0 <= i < time_filters@.len() ==> !(#[trigger] time_filters@[i] is High)) ==> r,
{
    let now = NaiveDateTime::now();
    let r = is_within_staging_window_at(time_filters, &now);
    let ghost views = filter_views(time_filters@);
    assert(r == asks_since(views, staging_start(now@)));
    assert forall|i: int| 0 <= i < views.len() && !(time_filters@[i] is High) implies !(#[trigger] views[i] is High) by {
    }
    r
}

/// Staging is scanned wherever a filter, at any place of the list, ends time at
/// or after the start of the window.
pub proof fn filter_that_reaches_the_window_asks_for_staging(
    filters: Seq<TimeFilter>,
    i: int,
    end: Instant,
    since: Instant,
)
    requires
        0 <= i < filters.len(),
        match filters[i] {
            TimeFilter::High(TimeBound::Excluded(time)) => end == time,
            TimeFilter::High(TimeBound::Included(time)) => end == time,
            TimeFilter::Eq(time) => end == time,
            _ => false,
        },
        since.0 < end.0 || since.0 == end.0 && since.1 <= end.1,
    ensures
        asks_since(filters, since),
{
    assert(reaches(filters[i], since));
}

/// Staging is not scanned where a query is bounded from above and every end of
/// its time lies before the start of the window.
pub proof fn filters_that_end_before_the_window_do_not_ask_for_staging(
    filters: Seq<TimeFilter>,
    bound: int,
    since: Instant,
)
    requires
        0 <= bound < filters.len(),
        filters[bound] is High,
        forall|i: int|
            0 <= i < filters.len() ==> match #[trigger] filters[i] {
                TimeFilter::High(TimeBound::Excluded(end)) => end.0 < since.0 || end.0 == since.0 && end.1
                    < since.1,
                TimeFilter::High(TimeBound::Included(end)) => end.0 < since.0 || end.0 == since.0 && end.1
                    < since.1,
                TimeFilter::Eq(end) => end.0 < since.0 || end.0 == since.0 && end.1 < since.1,
                _ => true,
            },
    ensures
        !asks_since(filters, since),
{
    assert(filters[bound] is High);
}

/// A query without an upper bound asks for staging.
pub proof fn unbounded_query_asks_for_staging(filters: Seq<TimeFilter>, since: Instant)
    requires
        forall|i: int| 0 <= i < filters.len() ==> !(#[trigger] filters[i] is High),
    ensures
        asks_since(filters, since),
{
}

/// Staging is scanned where some point in time since the start of the window
/// meets all filters.
pub proof fn asked_time_in_the_window_asks_for_staging(filters: Seq<TimeFilter>, since: Instant, t: Instant)
    requires
        t.0 > since.0 || t.0 == since.0 && t.1 >= since.1,
        forall|i: int| 0 <= i < filters.len() ==> #[trigger] filters[i] != TimeFilter::High(TimeBound::Unbounded),
        forall|i: int| 0 <= i < filters.len() ==> (#[trigger] filters[i]).admits(t),
    ensures
        asks_since(filters, since),
{
    if exists|i: int| 0 <= i < filters.len() && #[trigger] filters[i] is High {
        let i = choose|i: int| 0 <= i < filters.len() && #[trigger] filters[i] is High;
        assert(filters[i].admits(t));
        assert(reaches(filters[i], since));
    }
}

/// The order of the filters does not decide whether staging is scanned.
pub proof fn staging_is_asked_for_in_any_order(a: Seq<TimeFilter>, b: Seq<TimeFilter>, since: Instant)
    requires
        forall|filter: TimeFilter| a.contains(filter) <==> b.contains(filter),
    ensures
        asks_since(a, since) == asks_since(b, since),
{
    lemma_asks_since_by_filters(a, b, since);
    lemma_asks_since_by_filters(b, a, since);
}

proof fn lemma_asks_since_by_filters(a: Seq<TimeFilter>, b: Seq<TimeFilter>, since: Instant)
    requires
        forall|filter: TimeFilter| a.contains(filter) <==> b.contains(filter),
    ensures
        asks_since(a, since) ==> asks_since(b, since),
{
    if asks_since(a, since) {
        if exists|i: int| 0 <= i < a.len() && reaches(#[trigger] a[i], since) {
            let i = choose|i: int| 0 <= i < a.len() && reaches(#[trigger] a[i], since);
            assert(a.contains(a[i]));
            let j = b.index_of(a[i]);
            assert(b.contains(a[i]));
            assert(reaches(b[j], since));
        } else {
            assert forall|j: int| 0 <= j < b.len() implies !(#[trigger] b[j] is High) by {
                assert(b.contains(b[j]));
                assert(a.contains(b[j]));
                let i = a.index_of(b[j]);
                assert(!(a[i] is High));
            }
        }
    }
}

/// The window starts at the start of the minute five minutes ago.
pub proof fn window_starts_five_minutes_ago(now: Instant)
    requires
        0 <= now.1 < 1_000_000_000,
    ensures
        staging_start(now).1 == 0,
        staging_start(now).0 % 60 == 0,
        staging_start(now).0 <= now.0 - 300 < staging_start(now).0 + 60,
{
}

/// In a leap second the window is that of the second that follows it.
pub proof fn leap_second_has_the_window_of_the_next(now: Instant)
    requires
        1_000_000_000 <= now.1 < 2_000_000_000,
    ensures
        staging_start(now) == staging_start((now.0 + 1, now.1 - 1_000_000_000)),
{
}

} // verus!
