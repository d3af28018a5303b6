//! Snapshots: which manifests a stream has, and the time that each covers.
use vstd::prelude::*;

use crate::datetime::{earlier, Instant, NaiveDateTime};

verus! {

/// A manifest in the list of a stream, and the time that it covers.
#[derive(Clone, Debug)]
pub struct ManifestItem {
    pub manifest_path: String,
    pub time_lower_bound: NaiveDateTime,
    pub time_upper_bound: NaiveDateTime,
    pub events_ingested: u64,
    pub ingestion_size: u64,
    pub storage_size: u64,
}

/// The manifests of a stream.
#[derive(Debug)]
pub struct Snapshot {
    pub manifest_list: Vec<ManifestItem>,
}

impl Default for Snapshot {
    fn default() -> (r: Snapshot)
        ensures
            r.manifest_list@.len() == 0,
    {
        Snapshot { manifest_list: Vec::new() }
    }
}

/// Whether a point in time is the earliest at which a manifest of the list
/// begins.
pub open spec fn is_first_lower_bound(list: Seq<ManifestItem>, time: Instant) -> bool {
    &&& exists|i: int| 0 <= i < list.len() && (#[trigger] list[i]).time_lower_bound@ == time
    &&& forall|i: int| 0 <= i < list.len() ==> !earlier((#[trigger] list[i]).time_lower_bound@, time)
}

/// The earliest point in time at which a manifest of the list begins.
pub open spec fn first_lower_bound(list: Seq<ManifestItem>) -> Option<Instant> {
    if list.len() == 0 {
        None
    } else {
        Some(choose|time: Instant| is_first_lower_bound(list, time))
    }
}

/// There is one earliest point in time at which a manifest begins.
pub(crate) proof fn lemma_first_lower_bound(list: Seq<ManifestItem>, time: Instant)
    requires
        is_first_lower_bound(list, time),
    ensures
        first_lower_bound(list) == Some(time),
{
    let other = choose|time: Instant| is_first_lower_bound(list, time);
    let i = choose|i: int| 0 <= i < list.len() && (#[trigger] list[i]).time_lower_bound@ == time;
    let j = choose|j: int| 0 <= j < list.len() && (#[trigger] list[j]).time_lower_bound@ == other;
    assert(!earlier(list[j].time_lower_bound@, time));
    assert(!earlier(list[i].time_lower_bound@, other));
}

/// Where there are manifests, one of them begins first.
pub(crate) proof fn lemma_first_lower_bound_exists(list: Seq<ManifestItem>)
    requires
        list.len() > 0,
    ensures
        first_lower_bound(list) matches Some(first) && is_first_lower_bound(list, first),
    decreases list.len(),
{
    let shorter = list.drop_last();
    let last = list.last().time_lower_bound@;
    let time = if shorter.len() == 0 {
        last
    } else {
        lemma_first_lower_bound_exists(shorter);
        let first = first_lower_bound(shorter)->0;
        if earlier(last, first) {
            last
        } else {
            first
        }
    };
    assert(is_first_lower_bound(list, time)) by {
        assert(list[list.len() - 1].time_lower_bound@ == last);
        if time != last {
            let i = choose|i: int| 0 <= i < shorter.len() && (#[trigger] shorter[i]).time_lower_bound@ == time;
            assert(list[i].time_lower_bound@ == time);
        }
        assert forall|i: int| 0 <= i < list.len() implies !earlier((#[trigger] list[i]).time_lower_bound@, time) by {
            if i < shorter.len() {
                assert(shorter[i] == list[i]);
            }
        }
    }
    lemma_first_lower_bound(list, time);
}

/// The earliest point in time at which a manifest of the list begins.
pub(crate) fn earliest(list: &[ManifestItem]) -> (r: Option<NaiveDateTime>)
    ensures
        match r {
            Some(time) => first_lower_bound(list@) == Some(time@),
            None => list@.len() == 0,
        },
{
    if list.len() == 0 {
        return None;
    }
    let mut first: NaiveDateTime = list[0].time_lower_bound;
    let mut i: usize = 1;
    assert(is_first_lower_bound(list@.take(1), first@)) by {
        assert(list@.take(1)[0] == list@[0]);
    }
    while i < list.len()
        invariant
            1 <= i <= list@.len(),
            is_first_lower_bound(list@.take(i as int), first@),
        decreases list@.len() - i,
    {
        let ghost shorter = list@.take(i as int);
        let ghost longer = list@.take(i + 1);
        let ghost before = first@;
        let time = list[i].time_lower_bound;
        if time.is_before(&first) {
            first = time;
        }
        assert(is_first_lower_bound(longer, first@)) by {
            let k = choose|k: int| 0 <= k < shorter.len() && (#[trigger] shorter[k]).time_lower_bound@ == before;
            assert(longer[k] == shorter[k]);
            assert(longer[i as int] == list@[i as int]);
            assert forall|j: int| 0 <= j < longer.len() implies !earlier(
                (#[trigger] longer[j]).time_lower_bound@,
                first@,
            ) by {
                if j < i {
                    assert(longer[j] == shorter[j]);
                    assert(!earlier(shorter[j].time_lower_bound@, before));
                }
            }
        }
        i = i + 1;
    }
    assert(list@.take(i as int) =~= list@);
    proof {
        lemma_first_lower_bound(list@, first@);
    }
    Some(first)
}

} // verus!
