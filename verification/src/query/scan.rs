//! Which files a query scans, and how they are shared out.
use vstd::prelude::*;

use crate::catalog::column::{
    merged_range, numbers_range_from_least_to_greatest, range_of, Column, Int64Type, Range, TypedStatistics,
};
use crate::catalog::index::{distinct, lemma_distinct_has_no_duplicates};
use crate::catalog::manifest::{File, Manifest, ManifestFile};
use crate::expr::Expr;
use crate::query::pruning::{ruled_out, ManifestExt};
use crate::query::soundness::{
    comparisons_are_exact, describes, meets, patterns_are_regular, pruning_is_sound, Engine, Row,
};
use crate::text::{str_same, texts};

verus! {

// ---------------------------------------------------------------------------
// Files that a query needs
// ---------------------------------------------------------------------------

/// The files of a list of manifests, in order.
pub open spec fn all_files(manifests: Seq<Manifest>) -> Seq<File>
    decreases manifests.len(),
{
    if manifests.len() == 0 {
        Seq::empty()
    } else {
        all_files(manifests.drop_last()) + manifests.last().files@
    }
}

/// Whether no filter rules a file out.
pub open spec fn is_needed(file: File, filters: Seq<Expr>) -> bool {
    forall|i: int| 0 <= i < filters.len() ==> !ruled_out(file.columns@, #[trigger] filters[i])
}

/// The files that no filter rules out, the last one first.
pub open spec fn needed_files(files: Seq<File>, filters: Seq<Expr>) -> Seq<File> {
    files.reverse().filter(|file: File| is_needed(file, filters))
}

/// The number of rows of a list of files.
pub open spec fn row_total(files: Seq<File>) -> int
    decreases files.len(),
{
    if files.len() == 0 {
        0
    } else {
        row_total(files.drop_last()) + files.last().num_rows
    }
}

/// How many files from the front reach a number of rows: at least one, and all
/// of them where they do not reach it.
pub open spec fn files_for_rows(files: Seq<File>, rows: int) -> int
    decreases files.len(),
{
    if files.len() == 0 {
        0
    } else if files[0].num_rows >= rows {
        1
    } else {
        1 + files_for_rows(files.skip(1), rows - files[0].num_rows)
    }
}

/// The files from the front that are enough for a limit on rows.
pub open spec fn enough_files(files: Seq<File>, limit: Option<usize>) -> Seq<File> {
    match limit {
        Some(limit) => files.take(files_for_rows(files, limit as int)),
        None => files,
    }
}

fn file_is_needed(file: &File, filters: &[Expr]) -> (r: bool)
    ensures
        r == is_needed(*file, filters@),
{
    let mut i: usize = 0;
    while i < filters.len()
        invariant
            i <= filters@.len(),
            forall|j: int| 0 <= j < i ==> !ruled_out(file.columns@, #[trigger] filters@[j]),
        decreases filters@.len() - i,
    {
        if file.can_be_pruned(&filters[i]) {
            assert(ruled_out(file.columns@, filters@[i as int]));
            return false;
        }
        i = i + 1;
    }
    true
}

proof fn lemma_reverse_grows(files: Seq<File>, n: int)
    requires
        0 < n <= files.len(),
    ensures
        files.skip(n - 1).reverse() == files.skip(n).reverse().push(files[n - 1]),
{
    assert(files.skip(n - 1).reverse() =~= files.skip(n).reverse().push(files[n - 1]));
}

/// The files of some manifests that a query needs, the last one first: those
/// that no filter rules out, and no more of them than the limit on rows asks
/// for.
pub fn collect_from_snapshot(manifests: Vec<Manifest>, filters: &[Expr], limit: Option<usize>) -> (r: Vec<
    File,
>)
    ensures
        r@ == enough_files(needed_files(all_files(manifests@), filters@), limit),
{
    let ghost lists = manifests@;
    let mut files: Vec<File> = Vec::new();
    for manifest in it: manifests
        invariant
            it.seq() == lists,
            files@ == all_files(lists.take(it.index())),
    {
        let ghost n = it.index();
        assert(lists.take(n + 1).drop_last() =~= lists.take(n));
        let mut listed = manifest.files;
        files.append(&mut listed);
    }
    assert(lists.take(lists.len() as int) =~= lists);
    let ghost all = files@;
    let ghost needed = |file: File| is_needed(file, filters@);
    let mut r: Vec<File> = Vec::new();
    proof {
        reveal(Seq::filter);
        assert(all.skip(all.len() as int).reverse() =~= Seq::<File>::empty());
    }
    while files.len() > 0
        invariant
            files@.len() <= all.len(),
            files@ == all.take(files@.len() as int),
            needed == (|file: File| is_needed(file, filters@)),
            r@ == all.skip(files@.len() as int).reverse().filter(needed),
        decreases files@.len(),
    {
        let ghost n = files@.len() as int;
        proof {
            lemma_reverse_grows(all, n);
            reveal(Seq::filter);
            let longer = all.skip(n - 1).reverse();
            assert(longer.drop_last() =~= all.skip(n).reverse());
            assert(longer.last() == all[n - 1]);
        }
        if let Some(file) = files.pop() {
            assert(files@ =~= all.take(n - 1));
            if file_is_needed(&file, filters) {
                r.push(file);
            }
        }
    }
    assert(all.skip(0) =~= all);
    if let Some(wanted) = limit {
        let ghost listed = r@;
        let mut missing: u64 = wanted as u64;
        let mut i: usize = 0;
        assert(listed.skip(0) =~= listed);
        while i < r.len()
            invariant
                i <= r@.len(),
                r@ == listed,
                limit == Some(wanted),
                files_for_rows(listed, wanted as int) == i + files_for_rows(
                    listed.skip(i as int),
                    missing as int,
                ),
                listed == needed_files(all, filters@),
                all == all_files(manifests@),
            decreases r@.len() - i,
        {
            let ghost rest = listed.skip(i as int);
            assert(rest[0] == listed[i as int]);
            assert(rest.skip(1) =~= listed.skip(i + 1));
            let rows = r[i].num_rows();
            if rows >= missing {
                r.truncate(i + 1);
                return r;
            }
            missing = missing - rows;
            i = i + 1;
        }
        assert(listed.take(listed.len() as int) =~= listed);
    }
    r
}

proof fn lemma_row_total_of_rest(files: Seq<File>, n: int)
    requires
        0 < n <= files.len(),
    ensures
        row_total(files.take(n)) == files[0].num_rows + row_total(files.skip(1).take(n - 1)),
    decreases n,
{
    assert(files.take(n).drop_last() =~= files.take(n - 1));
    if n > 1 {
        lemma_row_total_of_rest(files, n - 1);
        assert(files.skip(1).take(n - 1).drop_last() =~= files.skip(1).take(n - 2));
        assert(files.skip(1).take(n - 1).last() == files[n - 1]);
    } else {
        assert(files.take(n - 1) =~= Seq::<File>::empty());
        assert(files.skip(1).take(n - 1) =~= Seq::<File>::empty());
    }
}

/// A limit on rows leaves files out only where those before them hold that
/// many rows, and takes no file after they do.
pub proof fn enough_files_hold_the_rows(files: Seq<File>, rows: int)
    ensures
        0 <= files_for_rows(files, rows) <= files.len(),
        files_for_rows(files, rows) < files.len() ==> row_total(files.take(files_for_rows(files, rows))) >= rows,
        forall|n: int| 0 < n < files_for_rows(files, rows) ==> row_total(#[trigger] files.take(n)) < rows,
    decreases files.len(),
{
    if files.len() > 0 {
        let count = files_for_rows(files, rows);
        let rest = files.skip(1);
        let missing = rows - files[0].num_rows;
        enough_files_hold_the_rows(rest, missing);
        lemma_row_total_of_rest(files, 1);
        assert(rest.take(0) =~= Seq::<File>::empty());
        if files[0].num_rows < rows {
            lemma_row_total_of_rest(files, count);
        }
        assert forall|n: int| 0 < n < count implies row_total(#[trigger] files.take(n)) < rows by {
            lemma_row_total_of_rest(files, n);
            if n > 1 {
                assert(row_total(rest.take(n - 1)) < missing);
            }
        }
    }
}

/// The rows of a list of files are those of each of them, added up.
pub proof fn rows_are_added_up(files: Seq<File>)
    ensures
        row_total(files) == files.fold_left(0int, |sum: int, file: File| sum + file.num_rows),
    decreases files.len(),
{
    if files.len() > 0 {
        rows_are_added_up(files.drop_last());
    }
}

/// A limit of `n` rows takes the needed files from the front until they hold `n`
/// rows: those that it takes are all of them or hold at least `n` rows, and
/// without the last one they hold fewer. A limit of no rows takes one file.
pub proof fn limit_takes_files_until_it_is_reached(manifests: Seq<Manifest>, filters: Seq<Expr>, n: usize)
    ensures
        ({
            let needed = enough_files(needed_files(all_files(manifests), filters), None);
            let taken = enough_files(needed_files(all_files(manifests), filters), Some(n));
            let add = |sum: int, file: File| sum + file.num_rows;
            &&& taken.len() <= needed.len()
            &&& forall|i: int| 0 <= i < taken.len() ==> #[trigger] taken[i] == needed[i]
            &&& taken.len() == needed.len() || taken.fold_left(0int, add) >= n
            &&& taken.len() > 0 && n > 0 ==> taken.drop_last().fold_left(0int, add) < n
            &&& needed.len() > 0 ==> taken.len() > 0
            &&& n == 0 ==> taken.len() <= 1
        }),
{
    let needed = needed_files(all_files(manifests), filters);
    let count = files_for_rows(needed, n as int);
    enough_files_hold_the_rows(needed, n as int);
    let taken = enough_files(needed, Some(n));
    rows_are_added_up(taken);
    if taken.len() > 0 {
        assert(taken.drop_last() =~= needed.take(count - 1));
        rows_are_added_up(taken.drop_last());
        if count == 1 {
            assert(needed.take(0) =~= Seq::<File>::empty());
        }
    }
}

/// Without a limit a query reads every file of every manifest that no filter
/// rules out, and no other.
pub proof fn every_needed_file_is_read(manifests: Seq<Manifest>, filters: Seq<Expr>, file: File)
    ensures
        enough_files(needed_files(all_files(manifests), filters), None).contains(file) <==> {
            &&& exists|m: int, i: int|
                0 <= m < manifests.len() && 0 <= i < manifests[m].files@.len() && #[trigger] manifests[m].files@[i]
                    == file
            &&& forall|f: int| 0 <= f < filters.len() ==> !ruled_out(file.columns@, #[trigger] filters[f])
        },
{
    let all = all_files(manifests);
    let back = all.reverse();
    let needed = |file: File| is_needed(file, filters);
    lemma_listed_files(manifests, file);
    let r = back.filter(needed);
    if r.contains(file) {
        let i = r.index_of(file);
        back.lemma_filter_pred(needed, i);
        back.lemma_filter_contains_rev(needed, file);
        let j = back.index_of(file);
        assert(all[all.len() - 1 - j] == file);
    }
    if all.contains(file) && is_needed(file, filters) {
        let j = all.index_of(file);
        assert(back[all.len() - 1 - j] == file);
        back.lemma_filter_contains(needed, all.len() - 1 - j);
    }
}

proof fn lemma_listed_files(manifests: Seq<Manifest>, file: File)
    ensures
        all_files(manifests).contains(file) <==> exists|m: int, i: int|
            0 <= m < manifests.len() && 0 <= i < manifests[m].files@.len() && #[trigger] manifests[m].files@[i]
                == file,
    decreases manifests.len(),
{
    if manifests.len() > 0 {
        let shorter = manifests.drop_last();
        let last = manifests.last().files@;
        let front = all_files(shorter);
        lemma_listed_files(shorter, file);
        if all_files(manifests).contains(file) {
            let k = all_files(manifests).index_of(file);
            if k < front.len() {
                assert(front[k] == file);
                let (m, i) = choose|m: int, i: int|
                    0 <= m < shorter.len() && 0 <= i < shorter[m].files@.len() && #[trigger] shorter[m].files@[i]
                        == file;
                assert(manifests[m].files@[i] == file);
            } else {
                assert(manifests[manifests.len() - 1].files@[k - front.len()] == file);
            }
        }
        if exists|m: int, i: int|
            0 <= m < manifests.len() && 0 <= i < manifests[m].files@.len() && #[trigger] manifests[m].files@[i]
                == file {
            let (m, i) = choose|m: int, i: int|
                0 <= m < manifests.len() && 0 <= i < manifests[m].files@.len() && #[trigger] manifests[m].files@[i]
                    == file;
            if m < shorter.len() {
                assert(shorter[m].files@[i] == file);
                let k = front.index_of(file);
                assert(all_files(manifests)[k] == file);
            } else {
                assert(all_files(manifests)[front.len() + i] == file);
            }
        }
    }
}

/// The files of later manifests, and of one manifest the later ones, are read
/// first: those of two lists of manifests are read as those of the second, then
/// those of the first; those of one manifest from its last file on.
pub proof fn later_files_are_read_first(a: Seq<Manifest>, b: Seq<Manifest>, filters: Seq<Expr>)
    ensures
        enough_files(needed_files(all_files(a + b), filters), None) == enough_files(
            needed_files(all_files(b), filters),
            None,
        ) + enough_files(needed_files(all_files(a), filters), None),
        a.len() == 1 && filters.len() == 0 ==> enough_files(needed_files(all_files(a), filters), None)
            == a[0].files@.reverse(),
{
    let needed = |file: File| is_needed(file, filters);
    lemma_files_of_joined_manifests(a, b);
    let front = all_files(a);
    let back = all_files(b);
    assert((front + back).reverse() =~= back.reverse() + front.reverse());
    Seq::filter_distributes_over_add(back.reverse(), front.reverse(), needed);
    if a.len() == 1 && filters.len() == 0 {
        reveal_with_fuel(all_files, 2);
        assert(a.drop_last() =~= Seq::<Manifest>::empty());
        assert(front =~= a[0].files@);
        lemma_all_pass(front.reverse(), needed);
    }
}

proof fn lemma_all_pass(files: Seq<File>, pass: spec_fn(File) -> bool)
    requires
        forall|i: int| 0 <= i < files.len() ==> pass(#[trigger] files[i]),
    ensures
        files.filter(pass) == files,
    decreases files.len(),
{
    reveal(Seq::filter);
    if files.len() > 0 {
        lemma_all_pass(files.drop_last(), pass);
        assert(pass(files[files.len() - 1]));
        assert(files.drop_last().push(files.last()) =~= files);
    }
}

proof fn lemma_files_of_joined_manifests(a: Seq<Manifest>, b: Seq<Manifest>)
    ensures
        all_files(a + b) == all_files(a) + all_files(b),
    decreases b.len(),
{
    if b.len() == 0 {
        assert(a + b =~= a);
        assert(all_files(a) + all_files(b) =~= all_files(a));
    } else {
        assert((a + b).drop_last() =~= a + b.drop_last());
        lemma_files_of_joined_manifests(a, b.drop_last());
        assert(all_files(a) + all_files(b.drop_last()) + b.last().files@ =~= all_files(a) + (all_files(
            b.drop_last(),
        ) + b.last().files@));
    }
}

/// A file that is left out holds no row that meets all filters.
pub proof fn left_out_files_hold_nothing(file: File, filters: Seq<Expr>, row: Row, engine: Engine)
    requires
        describes(file.columns@, row),
        forall|i: int|
            0 <= i < filters.len() ==> comparisons_are_exact(row, engine, #[trigger] filters[i])
                && patterns_are_regular(row, engine, filters[i]),
        !is_needed(file, filters),
    ensures
        exists|i: int| 0 <= i < filters.len() && !meets(row, engine, #[trigger] filters[i]),
{
    let i = choose|i: int| 0 <= i < filters.len() && ruled_out(file.columns@, #[trigger] filters[i]);
    pruning_is_sound(file.columns@, row, engine, filters[i]);
    assert(!meets(row, engine, filters[i]));
}

// ---------------------------------------------------------------------------
// Shares
// ---------------------------------------------------------------------------

/// A file that a scan reads.
#[derive(Clone, Debug)]
pub struct PartitionedFile {
    pub path: String,
    pub size: u64,
}

/// The files of a scan, shared out, and what is known of their rows.
#[derive(Debug)]
pub struct FilePartitions {
    pub groups: Vec<Vec<PartitionedFile>>,
    /// The range of each field of the schema.
    pub ranges: Vec<Option<TypedStatistics>>,
    pub num_rows: u64,
    pub file_count: u64,
}

/// The path and the size of each file of a list.
pub open spec fn paths_and_sizes(files: Seq<PartitionedFile>) -> Seq<(Seq<char>, u64)> {
    files.map_values(|file: PartitionedFile| (file.path@, file.size))
}

/// The share of a group when files are dealt out in turn.
pub open spec fn share_of(files: Seq<File>, groups: int, group: int) -> Seq<(Seq<char>, u64)>
    decreases files.len(),
{
    if files.len() == 0 {
        Seq::empty()
    } else if (files.len() - 1) % groups == group {
        share_of(files.drop_last(), groups, group).push((files.last().file_path@, files.last().file_size))
    } else {
        share_of(files.drop_last(), groups, group)
    }
}

/// The name and the range of each column of a list.
pub open spec fn named_ranges(columns: Seq<Column>) -> Seq<(Seq<char>, Option<Range>)> {
    columns.map_values(|col: Column| (col.name@, range_of(col.stats)))
}

/// The name and the range of each column of a list of files, in order.
pub open spec fn all_ranges(files: Seq<File>) -> Seq<(Seq<char>, Option<Range>)>
    decreases files.len(),
{
    if files.len() == 0 {
        Seq::empty()
    } else {
        all_ranges(files.drop_last()) + named_ranges(files.last().columns@)
    }
}

/// The names of a list of named ranges.
pub open spec fn range_names(named: Seq<(Seq<char>, Option<Range>)>) -> Seq<Seq<char>> {
    named.map_values(|n: (Seq<char>, Option<Range>)| n.0)
}

/// The ranges under a name, in order.
pub open spec fn ranges_under(named: Seq<(Seq<char>, Option<Range>)>, name: Seq<char>) -> Seq<Option<Range>>
    decreases named.len(),
{
    if named.len() == 0 {
        Seq::empty()
    } else if named.last().0 == name {
        ranges_under(named.drop_last(), name).push(named.last().1)
    } else {
        ranges_under(named.drop_last(), name)
    }
}

/// Whether the partitions are those of the files: dealt out in turn, with the
/// range of each field of the schema over all files, and the number of rows
/// and of files.
pub open spec fn partitions_of(r: FilePartitions, files: Seq<File>, schema: Seq<Seq<char>>) -> bool {
    &&& forall|g: int|
        0 <= g < r.groups@.len() ==> paths_and_sizes((#[trigger] r.groups@[g])@) == share_of(
            files,
            r.groups@.len() as int,
            g,
        )
    &&& r.ranges@.len() == schema.len()
    &&& forall|i: int|
        0 <= i < schema.len() ==> range_of(#[trigger] r.ranges@[i]) == merged_range(
            ranges_under(all_ranges(files), schema[i]),
        )
    &&& r.num_rows == row_total(files)
    &&& r.file_count == files.len()
}

/// Whether a list holds one range for each name, over all ranges of that name.
spec fn merges(stats: Seq<(String, Option<TypedStatistics>)>, named: Seq<(Seq<char>, Option<Range>)>) -> bool {
    &&& stats.map_values(|s: (String, Option<TypedStatistics>)| s.0@) == distinct(range_names(named))
    &&& forall|k: int|
        0 <= k < stats.len() ==> range_of((#[trigger] stats[k]).1) == merged_range(
            ranges_under(named, stats[k].0@),
        )
}

proof fn lemma_ranges_under_other_name(named: Seq<(Seq<char>, Option<Range>)>, name: Seq<char>)
    ensures
        distinct(range_names(named)).contains(name) <==> range_names(named).contains(name),
        !range_names(named).contains(name) ==> ranges_under(named, name) == Seq::<Option<Range>>::empty(),
        range_names(named).contains(name) ==> ranges_under(named, name).len() > 0,
    decreases named.len(),
{
    if named.len() > 0 {
        let shorter = named.drop_last();
        let last = named.last().0;
        lemma_ranges_under_other_name(shorter, name);
        lemma_ranges_under_other_name(shorter, last);
        assert(range_names(named).drop_last() =~= range_names(shorter));
        assert(range_names(named) =~= range_names(shorter).push(last));
        assert(range_names(named)[shorter.len() as int] == last);
        if range_names(shorter).contains(name) {
            let i = range_names(shorter).index_of(name);
            assert(range_names(named)[i] == name);
        }
        let d = distinct(range_names(shorter));
        if d.contains(name) {
            let i = d.index_of(name);
            assert(d.push(last)[i] == name);
        }
        assert(d.push(last)[d.len() as int] == last);
    }
}

/// Takes the range of a column into the list.
fn merge_column(
    stats: &mut Vec<(String, Option<TypedStatistics>)>,
    col: Column,
    Ghost(named): Ghost<Seq<(Seq<char>, Option<Range>)>>,
)
    requires
        merges(old(stats)@, named),
    ensures
        merges(final(stats)@, named.push((col.name@, range_of(col.stats)))),
{
    let ghost name = col.name@;
    let ghost range = range_of(col.stats);
    let ghost all = named.push((name, range));
    let ghost before = stats@;
    let ghost names = before.map_values(|s: (String, Option<TypedStatistics>)| s.0@);
    proof {
        assert(all.drop_last() =~= named);
        assert(range_names(all) =~= range_names(named).push(name));
        assert(range_names(all).drop_last() =~= range_names(named));
        lemma_distinct_has_no_duplicates(range_names(named));
        lemma_ranges_under_other_name(named, name);
    }
    let mut k: usize = 0;
    while k < stats.len()
        invariant
            k <= stats@.len(),
            stats@ == before,
            name == col.name@,
            range == range_of(col.stats),
            all == named.push((name, range)),
            all.drop_last() == named,
            range_names(all) == range_names(named).push(name),
            range_names(all).drop_last() == range_names(named),
            names == before.map_values(|s: (String, Option<TypedStatistics>)| s.0@),
            names.no_duplicates(),
            merges(before, named),
            distinct(range_names(named)).contains(name) <==> range_names(named).contains(name),
            range_names(named).contains(name) ==> ranges_under(named, name).len() > 0,
            forall|j: int| 0 <= j < k ==> (#[trigger] before[j]).0@ != name,
        decreases stats@.len() - k,
    {
        if str_same(stats[k].0.as_str(), col.name.as_str()) {
            let ghost under = ranges_under(named, name);
            proof {
                assert(names[k as int] == name);
                assert(ranges_under(all, name) == under.push(range));
                assert(under.push(range).drop_last() =~= under);
                assert(range_of(before[k as int].1) == merged_range(under));
            }
            let entry = &mut stats[k];
            if let Some(other) = col.stats {
                if let Some(this) = entry.1.take() {
                    entry.1 = this.update(other);
                }
            }
            proof {
                let after = stats@;
                assert(after.map_values(|s: (String, Option<TypedStatistics>)| s.0@) =~= names);
                assert forall|j: int| 0 <= j < after.len() implies range_of((#[trigger] after[j]).1)
                    == merged_range(ranges_under(all, after[j].0@)) by {
                    if j != k {
                        assert(after[j] == before[j]);
                        assert(names[j] != names[k as int]);
                    }
                }
            }
            return;
        }
        k = k + 1;
    }
    proof {
        assert(!names.contains(name)) by {
            if names.contains(name) {
                let j = names.index_of(name);
                assert(before[j].0@ == name);
            }
        }
        assert(ranges_under(named, name) == Seq::<Option<Range>>::empty());
    }
    stats.push((col.name, col.stats));
    proof {
        let after = stats@;
        assert(after.map_values(|s: (String, Option<TypedStatistics>)| s.0@) =~= names.push(name));
        assert forall|j: int| 0 <= j < after.len() implies range_of((#[trigger] after[j]).1) == merged_range(
            ranges_under(all, after[j].0@),
        ) by {
            if j < before.len() {
                assert(after[j] == before[j]);
                assert(before[j].0@ != name);
            } else {
                assert(ranges_under(all, name) == Seq::<Option<Range>>::empty().push(range));
            }
        }
    }
}

/// The range under a name in the list.
fn merged_under(stats: &Vec<(String, Option<TypedStatistics>)>, name: &str, Ghost(named): Ghost<
    Seq<(Seq<char>, Option<Range>)>,
>) -> (r: Option<TypedStatistics>)
    requires
        merges(stats@, named),
    ensures
        range_of(r) == merged_range(ranges_under(named, name@)),
{
    let ghost names = stats@.map_values(|s: (String, Option<TypedStatistics>)| s.0@);
    let mut k: usize = 0;
    while k < stats.len()
        invariant
            k <= stats@.len(),
            merges(stats@, named),
            forall|j: int| 0 <= j < k ==> (#[trigger] stats@[j]).0@ != name@,
        decreases stats@.len() - k,
    {
        if str_same(stats[k].0.as_str(), name) {
            return match &stats[k].1 {
                Some(stats) => Some(stats.clone()),
                None => None,
            };
        }
        k = k + 1;
    }
    proof {
        lemma_ranges_under_other_name(named, name@);
        if names.contains(name@) {
            let j = names.index_of(name@);
            assert(stats@[j].0@ == name@);
        }
    }
    None
}

proof fn lemma_row_total_grows(files: Seq<File>, n: int)
    requires
        0 <= n <= files.len(),
    ensures
        0 <= row_total(files.take(n)) <= row_total(files),
    decreases files.len(),
{
    if n < files.len() {
        assert(files.drop_last().take(n) =~= files.take(n));
        lemma_row_total_grows(files.drop_last(), n);
    } else {
        assert(files.take(n) =~= files);
        if files.len() > 0 {
            lemma_row_total_grows(files.drop_last(), n - 1);
            assert(files.drop_last().take(n - 1) =~= files.drop_last());
        }
    }
}

/// Whether the rows of a list of files can be counted in a `u64`.
pub fn rows_are_countable(files: &[File]) -> (r: bool)
    ensures
        r == (row_total(files@) <= u64::MAX),
{
    let mut sum: u64 = 0;
    let mut i: usize = 0;
    while i < files.len()
        invariant
            i <= files@.len(),
            sum == row_total(files@.take(i as int)),
        decreases files@.len() - i,
    {
        proof {
            assert(files@.take(i + 1).drop_last() =~= files@.take(i as int));
            lemma_row_total_grows(files@, i + 1);
        }
        if sum > u64::MAX - files[i].num_rows {
            return false;
        }
        sum = sum + files[i].num_rows;
        i = i + 1;
    }
    assert(files@.take(i as int) =~= files@);
    true
}

/// Deals files out to a number of groups in turn.
pub fn partition_files(files: Vec<File>, schema: &[String], target_partition: usize) -> (r: FilePartitions)
    requires
        target_partition > 0,
        row_total(files@) <= u64::MAX,
    ensures
        r.groups@.len() == target_partition,
        partitions_of(r, files@, texts(schema@)),
{
    let ghost all = files@;
    let ghost n = target_partition as int;
    let mut groups: Vec<Vec<PartitionedFile>> = Vec::new();
    let mut g: usize = 0;
    while g < target_partition
        invariant
            g <= target_partition,
            groups@.len() == g,
            all == files@,
            n == target_partition,
            forall|h: int|
                0 <= h < g ==> paths_and_sizes((#[trigger] groups@[h])@) == share_of(all.take(0), n, h),
        decreases target_partition - g,
    {
        let group: Vec<PartitionedFile> = Vec::new();
        assert(paths_and_sizes(group@) =~= share_of(all.take(0), n, g as int));
        groups.push(group);
        g = g + 1;
    }
    let mut stats: Vec<(String, Option<TypedStatistics>)> = Vec::new();
    let mut count: u64 = 0;
    let mut index: usize = 0;
    let file_count: u64 = files.len() as u64;
    proof {
        assert(stats@.map_values(|s: (String, Option<TypedStatistics>)| s.0@) =~= distinct(
            range_names(all_ranges(all.take(0))),
        ));
    }
    for file in it: files
        invariant
            it.seq() == all,
            n == target_partition,
            n > 0,
            groups@.len() == n,
            index < n,
            index == it.index() % n,
            row_total(all) <= u64::MAX,
            count == row_total(all.take(it.index())),
            merges(stats@, all_ranges(all.take(it.index()))),
            forall|h: int|
                0 <= h < n ==> paths_and_sizes((#[trigger] groups@[h])@) == share_of(
                    all.take(it.index()),
                    n,
                    h,
                ),
    {
        let ghost i = it.index();
        let ghost shared = groups@;
        proof {
            assert(all.take(i + 1).drop_last() =~= all.take(i));
            assert(all.take(i + 1).last() == all[i]);
            lemma_row_total_grows(all, i + 1);
            lemma_next_turn(i, n);
        }
        let File { file_path, num_rows, file_size, columns, .. } = file;
        let ghost path = file_path@;
        let group = &mut groups[index];
        let ghost share = group@;
        group.push(PartitionedFile { path: file_path, size: file_size });
        proof {
            assert(paths_and_sizes(groups@[index as int]@) =~= paths_and_sizes(share).push((path, file_size)));
            assert forall|h: int| 0 <= h < n implies paths_and_sizes((#[trigger] groups@[h])@) == share_of(
                all.take(i + 1),
                n,
                h,
            ) by {
                if h != index {
                    assert(groups@[h] == shared[h]);
                }
            }
        }
        let ghost named = all_ranges(all.take(i));
        let ghost own = columns@;
        assert(named + named_ranges(own.take(0)) =~= named);
        for col in inner: columns
            invariant
                inner.seq() == own,
                merges(stats@, named + named_ranges(own.take(inner.index()))),
        {
            let ghost j = inner.index();
            assert((named + named_ranges(own.take(j))).push((col.name@, range_of(col.stats))) =~= named
                + named_ranges(own.take(j + 1)));
            merge_column(&mut stats, col, Ghost(named + named_ranges(own.take(j))));
        }
        assert(own.take(own.len() as int) =~= own);
        count = count + num_rows;
        index = if index + 1 == target_partition {
            0
        } else {
            index + 1
        };
    }
    assert(all.take(all.len() as int) =~= all);
    let ghost named = all_ranges(all);
    let mut ranges: Vec<Option<TypedStatistics>> = Vec::new();
    let mut f: usize = 0;
    while f < schema.len()
        invariant
            f <= schema@.len(),
            ranges@.len() == f,
            merges(stats@, named),
            forall|j: int|
                0 <= j < f ==> range_of(#[trigger] ranges@[j]) == merged_range(
                    ranges_under(named, texts(schema@)[j]),
                ),
        decreases schema@.len() - f,
    {
        ranges.push(merged_under(&stats, schema[f].as_str(), Ghost(named)));
        f = f + 1;
    }
    FilePartitions { groups, ranges, num_rows: count, file_count }
}

proof fn lemma_next_turn(i: int, n: int)
    requires
        0 <= i,
        0 < n,
    ensures
        0 <= i % n < n,
        (i + 1) % n == if i % n + 1 == n {
            0
        } else {
            i % n + 1
        },
        (i + 1) / n == if i % n + 1 == n {
            i / n + 1
        } else {
            i / n
        },
{
    vstd::arithmetic::div_mod::lemma_fundamental_div_mod(i, n);
    let q = i / n;
    let r = i % n;
    assert(i == n * q + r);
    if r + 1 == n {
        assert(i + 1 == n * (q + 1) + 0) by (nonlinear_arith)
            requires
                i == n * q + r,
                r + 1 == n,
        ;
        assert(i + 1 == (q + 1) * n + 0) by (nonlinear_arith)
            requires
                i + 1 == n * (q + 1) + 0,
        ;
        vstd::arithmetic::div_mod::lemma_fundamental_div_mod_converse(i + 1, n, q + 1, 0);
    } else {
        assert(i + 1 == q * n + (r + 1)) by (nonlinear_arith)
            requires
                i == n * q + r,
        ;
        vstd::arithmetic::div_mod::lemma_fundamental_div_mod_converse(i + 1, n, q, r + 1);
    }
}

/// `num_cpus::get`: the number of processors that are available, which is at
/// least one. It depends on the machine; nothing else is stated of it.
#[verifier::external_body]
fn available_cpus() -> (r: usize)
    ensures
        r > 0,
{
    num_cpus::get()
}

/// Deals files out to as many groups as there are processors, in turn.
pub fn partitioned_files(files: Vec<File>, schema: &[String]) -> (r: FilePartitions)
    requires
        row_total(files@) <= u64::MAX,
    ensures
        r.groups@.len() > 0,
        partitions_of(r, files@, texts(schema@)),
{
    partition_files(files, schema, available_cpus())
}

/// The shares of two groups differ by one file at most.
pub proof fn shares_are_even(files: Seq<File>, groups: int, a: int, b: int)
    requires
        0 <= a < groups,
        0 <= b < groups,
    ensures
        -1 <= share_of(files, groups, a).len() - share_of(files, groups, b).len() <= 1,
{
    lemma_share_len(files, groups, a);
    lemma_share_len(files, groups, b);
}

proof fn lemma_share_len(files: Seq<File>, groups: int, g: int)
    requires
        0 <= g < groups,
    ensures
        share_of(files, groups, g).len() == files.len() as int / groups + if g < files.len() as int % groups {
            1int
        } else {
            0
        },
    decreases files.len(),
{
    if files.len() == 0 {
        vstd::arithmetic::div_mod::lemma_fundamental_div_mod_converse(0, groups, 0, 0);
    } else {
        lemma_share_len(files.drop_last(), groups, g);
        lemma_next_turn(files.len() - 1, groups);
    }
}

/// Each file stands in one group, at the place of its turn.
pub proof fn each_file_has_a_place(files: Seq<File>, groups: int, i: int)
    requires
        0 < groups,
        0 <= i < files.len(),
    ensures
        0 <= i % groups < groups,
        0 <= i / groups < share_of(files, groups, i % groups).len(),
        share_of(files, groups, i % groups)[i / groups] == (files[i].file_path@, files[i].file_size),
    decreases files.len(),
{
    let shorter = files.drop_last();
    lemma_next_turn(i, groups);
    if i < shorter.len() {
        each_file_has_a_place(shorter, groups, i);
    } else {
        lemma_share_len(shorter, groups, i % groups);
        vstd::arithmetic::div_mod::lemma_div_pos_is_pos(i, groups);
    }
}

/// What is shared out is the files, each once and with its size: the file at a
/// place stands in the group of its turn, and each place of a group holds the
/// file whose turn it is.
pub proof fn partitions_hold_each_file_once(
    r: FilePartitions,
    files: Seq<File>,
    schema: Seq<Seq<char>>,
    i: int,
    g: int,
    k: int,
)
    requires
        partitions_of(r, files, schema),
        r.groups@.len() > 0,
    ensures
        0 <= i < files.len() ==> {
            let group = r.groups@[i % (r.groups@.len() as int)]@;
            let place = i / (r.groups@.len() as int);
            &&& 0 <= place < group.len()
            &&& group[place].path@ == files[i].file_path@
            &&& group[place].size == files[i].file_size
        },
        0 <= g < r.groups@.len() && 0 <= k < r.groups@[g]@.len() ==> 0 <= k * r.groups@.len() + g < files.len(),
        r.num_rows == files.fold_left(0int, |sum: int, file: File| sum + file.num_rows),
        r.file_count == files.len(),
{
    let n = r.groups@.len() as int;
    rows_are_added_up(files);
    if 0 <= i < files.len() {
        each_file_has_a_place(files, n, i);
        let group = r.groups@[i % n]@;
        assert(paths_and_sizes(group) == share_of(files, n, i % n));
        assert(paths_and_sizes(group)[i / n] == (group[i / n].path@, group[i / n].size));
    }
    if 0 <= g < n && 0 <= k < r.groups@[g]@.len() {
        assert(paths_and_sizes(r.groups@[g]@) == share_of(files, n, g));
        assert(paths_and_sizes(r.groups@[g]@).len() == r.groups@[g]@.len());
        lemma_share_len(files, n, g);
        let q = files.len() as int / n;
        let rest = files.len() as int % n;
        vstd::arithmetic::div_mod::lemma_fundamental_div_mod(files.len() as int, n);
        vstd::arithmetic::div_mod::lemma_mod_bound(files.len() as int, n);
        if k < q {
            assert(k * n + g < files.len()) by (nonlinear_arith)
                requires
                    k + 1 <= q,
                    0 <= g < n,
                    files.len() == n * q + rest,
                    0 <= rest,
            ;
        } else {
            assert(k * n + g < files.len()) by (nonlinear_arith)
                requires
                    k == q,
                    g < rest,
                    files.len() == n * q + rest,
            ;
        }
        assert(0 <= k * n) by (nonlinear_arith)
            requires
                0 <= k,
                0 < n,
        ;
    }
}

proof fn lemma_range_of_a_column(files: Seq<File>, name: Seq<char>, f: int, c: int)
    requires
        0 <= f < files.len(),
        0 <= c < files[f].columns@.len(),
        files[f].columns@[c].name@ == name,
    ensures
        ranges_under(all_ranges(files), name).contains(range_of(files[f].columns@[c].stats)),
    decreases files.len(),
{
    let shorter = files.drop_last();
    let own = named_ranges(files.last().columns@);
    lemma_ranges_of_joined_lists(all_ranges(shorter), own, name);
    let front = ranges_under(all_ranges(shorter), name);
    let back = ranges_under(own, name);
    let range = range_of(files[f].columns@[c].stats);
    if f < shorter.len() {
        lemma_range_of_a_column(shorter, name, f, c);
        let i = front.index_of(range);
        assert((front + back)[i] == range);
    } else {
        assert(own[c] == (name, range));
        lemma_range_under_its_name(own, name, c);
        let i = back.index_of(range);
        assert((front + back)[front.len() + i] == range);
    }
}

proof fn lemma_range_under_its_name(named: Seq<(Seq<char>, Option<Range>)>, name: Seq<char>, c: int)
    requires
        0 <= c < named.len(),
        named[c].0 == name,
    ensures
        ranges_under(named, name).contains(named[c].1),
    decreases named.len(),
{
    let shorter = named.drop_last();
    let front = ranges_under(shorter, name);
    if c < shorter.len() {
        lemma_range_under_its_name(shorter, name, c);
        let i = front.index_of(named[c].1);
        assert(ranges_under(named, name)[i] == named[c].1);
    } else {
        assert(ranges_under(named, name)[front.len() as int] == named[c].1);
    }
}

proof fn lemma_ranges_of_joined_lists(
    a: Seq<(Seq<char>, Option<Range>)>,
    b: Seq<(Seq<char>, Option<Range>)>,
    name: Seq<char>,
)
    ensures
        ranges_under(a + b, name) == ranges_under(a, name) + ranges_under(b, name),
    decreases b.len(),
{
    if b.len() == 0 {
        assert(a + b =~= a);
        assert(ranges_under(a, name) + ranges_under(b, name) =~= ranges_under(a, name));
    } else {
        assert((a + b).drop_last() =~= a + b.drop_last());
        lemma_ranges_of_joined_lists(a, b.drop_last(), name);
        let front = ranges_under(a, name);
        let back = ranges_under(b.drop_last(), name);
        assert((front + back).push(b.last().1) =~= front + back.push(b.last().1));
    }
}

proof fn lemma_range_comes_from_a_column(files: Seq<File>, name: Seq<char>, range: Option<Range>)
    requires
        ranges_under(all_ranges(files), name).contains(range),
    ensures
        exists|f: int, c: int|
            0 <= f < files.len() && 0 <= c < files[f].columns@.len() && (#[trigger] files[f].columns@[c]).name@
                == name && range_of(files[f].columns@[c].stats) == range,
    decreases files.len(),
{
    if files.len() == 0 {
        assert(false);
    } else {
        let shorter = files.drop_last();
        let own = named_ranges(files.last().columns@);
        lemma_ranges_of_joined_lists(all_ranges(shorter), own, name);
        let front = ranges_under(all_ranges(shorter), name);
        let back = ranges_under(own, name);
        let i = (front + back).index_of(range);
        if i < front.len() {
            assert(front[i] == range);
            lemma_range_comes_from_a_column(shorter, name, range);
            let (f, c) = choose|f: int, c: int|
                0 <= f < shorter.len() && 0 <= c < shorter[f].columns@.len() && (
                #[trigger] shorter[f].columns@[c]).name@ == name && range_of(shorter[f].columns@[c].stats) == range;
            assert(files[f].columns@[c].name@ == name);
        } else {
            assert(back[i - front.len()] == range);
            lemma_range_has_a_name(own, name, range);
            let c = choose|c: int| 0 <= c < own.len() && (#[trigger] own[c]).0 == name && own[c].1 == range;
            let f = files.len() - 1;
            assert(files[f].columns@[c].name@ == name);
        }
    }
}

proof fn lemma_range_has_a_name(named: Seq<(Seq<char>, Option<Range>)>, name: Seq<char>, range: Option<Range>)
    requires
        ranges_under(named, name).contains(range),
    ensures
        exists|c: int| 0 <= c < named.len() && (#[trigger] named[c]).0 == name && named[c].1 == range,
    decreases named.len(),
{
    if named.len() == 0 {
        assert(false);
    } else {
        let shorter = named.drop_last();
        let i = ranges_under(named, name).index_of(range);
        if i < ranges_under(shorter, name).len() {
            assert(ranges_under(shorter, name)[i] == range);
            lemma_range_has_a_name(shorter, name, range);
            let c = choose|c: int| 0 <= c < shorter.len() && (#[trigger] shorter[c]).0 == name && shorter[c].1 == range;
            assert(named[c].0 == name);
        } else {
            assert(named[named.len() - 1].0 == name);
        }
    }
}

/// The range of a field over files whose columns of its name all hold numbers is
/// from the least of their least to the greatest of their greatest.
pub proof fn field_ranges_over_all_its_columns(
    r: FilePartitions,
    files: Seq<File>,
    schema: Seq<Seq<char>>,
    j: int,
    f: int,
    c: int,
)
    requires
        partitions_of(r, files, schema),
        0 <= j < schema.len(),
        0 <= f < files.len(),
        0 <= c < files[f].columns@.len(),
        files[f].columns@[c].name@ == schema[j],
        forall|g: int, d: int|
            0 <= g < files.len() && 0 <= d < files[g].columns@.len() && (#[trigger] files[g].columns@[d]).name@
                == schema[j] ==> files[g].columns@[d].stats matches Some(TypedStatistics::Int(_)),
    ensures
        r.ranges@[j] matches Some(TypedStatistics::Int(s)) && {
            let stats = files[f].columns@[c].stats->0;
            let own = stats->Int_0;
            &&& s.min <= own.min
            &&& own.max <= s.max
            &&& exists|g: int, d: int|
                0 <= g < files.len() && 0 <= d < files[g].columns@.len() && (#[trigger] files[g].columns@[d]).name@
                    == schema[j] && files[g].columns@[d].stats == Some(TypedStatistics::Int(Int64Type {
                    min: s.min,
                    max: ((files[g].columns@[d].stats->0)->Int_0).max,
                }))
            &&& exists|g: int, d: int|
                0 <= g < files.len() && 0 <= d < files[g].columns@.len() && (#[trigger] files[g].columns@[d]).name@
                    == schema[j] && files[g].columns@[d].stats == Some(TypedStatistics::Int(Int64Type {
                    min: ((files[g].columns@[d].stats->0)->Int_0).min,
                    max: s.max,
                }))
        },
{
    let name = schema[j];
    let ranges = ranges_under(all_ranges(files), name);
    lemma_range_of_a_column(files, name, f, c);
    assert forall|i: int| 0 <= i < ranges.len() implies #[trigger] ranges[i] is Some && ranges[i]->0 is Int by {
        assert(ranges.contains(ranges[i]));
        lemma_range_comes_from_a_column(files, name, ranges[i]);
        let (g, d) = choose|g: int, d: int|
            0 <= g < files.len() && 0 <= d < files[g].columns@.len() && (#[trigger] files[g].columns@[d]).name@
                == name && range_of(files[g].columns@[d].stats) == ranges[i];
        assert(files[g].columns@[d].stats matches Some(TypedStatistics::Int(_)));
    }
    numbers_range_from_least_to_greatest(ranges);
    assert(range_of(r.ranges@[j]) == merged_range(ranges));
    let whole = merged_range(ranges)->0;
    let k = ranges.index_of(range_of(files[f].columns@[c].stats));
    assert(ranges[k] == range_of(files[f].columns@[c].stats));
    let least = choose|i: int| 0 <= i < ranges.len() && (#[trigger] ranges[i])->0->Int_0 == whole->Int_0;
    let greatest = choose|i: int| 0 <= i < ranges.len() && (#[trigger] ranges[i])->0->Int_1 == whole->Int_1;
    assert(ranges.contains(ranges[least]));
    assert(ranges.contains(ranges[greatest]));
    lemma_range_comes_from_a_column(files, name, ranges[least]);
    lemma_range_comes_from_a_column(files, name, ranges[greatest]);
    let (g, d) = choose|g: int, d: int|
        0 <= g < files.len() && 0 <= d < files[g].columns@.len() && (#[trigger] files[g].columns@[d]).name@ == name
            && range_of(files[g].columns@[d].stats) == ranges[least];
    assert(files[g].columns@[d].stats matches Some(TypedStatistics::Int(_)));
    let (h, e) = choose|g: int, d: int|
        0 <= g < files.len() && 0 <= d < files[g].columns@.len() && (#[trigger] files[g].columns@[d]).name@ == name
            && range_of(files[g].columns@[d].stats) == ranges[greatest];
    assert(files[h].columns@[e].stats matches Some(TypedStatistics::Int(_)));
}

} // verus!
