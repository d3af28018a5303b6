//! Manifests: lists of files with what is known of each, by which a query
//! leaves out files that hold nothing for it.
use vstd::prelude::*;

use crate::catalog::column::{
    merged_range, numbers_range_from_least_to_greatest, Column, ExactHashes, ExactValues, TextNgrams, TypedStatistics,
};
use crate::catalog::index::{
    distinct, distinct_keeps_every_name, lemma_distinct_has_no_duplicates, ExactIndexData,
};
use crate::catalog::row_group::{
    all_chunks, checked_column_statistics, chunk_paths, chunk_ranges, chunk_sizes_fit, chunks_are_those_of_the_row_groups,
    column_names, column_statistics, common_order, file_sort_order, has_sort_order, own_chunks,
    own_chunks_are_those_of_the_path, row_group_orders, says_sort_order, sizes_are_added_up, sort_infos, sums_up,
    ColumnChunk, ParquetMetaData, RowGroupMetaData,
};
use crate::text::str_same;

verus! {

/// How a column is sorted, and where its nulls stand.
#[derive(Clone, Copy, Debug, PartialEq, Eq, Structural)]
pub enum SortOrder {
    AscNullsFirst,
    AscNullsLast,
    DescNullsLast,
    DescNullsFirst,
}

impl Default for SortOrder {
    fn default() -> (r: SortOrder)
        ensures
            r == SortOrder::DescNullsFirst,
    {
        SortOrder::DescNullsFirst
    }
}

/// A column's path and how the column is sorted.
pub type SortInfo = (String, SortOrder);

/// The version that a new manifest carries.
pub const CURRENT_MANIFEST_VERSION: &'static str = "v1";

/// An entry in a manifest which points to a single file.
/// Additionally, it is meant to store the statistics for the file it
/// points to. Used for pruning file at planning level.
#[derive(Clone, Debug)]
pub struct File {
    pub file_path: String,
    pub num_rows: u64,
    pub file_size: u64,
    pub ingestion_size: u64,
    pub columns: Vec<Column>,
    pub sort_order_id: Vec<SortInfo>,
}

impl Default for File {
    fn default() -> (r: File)
        ensures
            r.file_path@.len() == 0,
            r.num_rows == 0,
            r.file_size == 0,
            r.ingestion_size == 0,
            r.columns@.len() == 0,
            r.sort_order_id@.len() == 0,
    {
        File {
            file_path: String::new(),
            num_rows: 0,
            file_size: 0,
            ingestion_size: 0,
            columns: Vec::new(),
            sort_order_id: Vec::new(),
        }
    }
}

/// What a query needs to know of a file that a manifest lists.
pub trait ManifestFile {
    /// What is known of the file's columns.
    spec fn column_list(&self) -> Seq<Column>;

    /// The number of the file's rows.
    spec fn row_count(&self) -> u64;

    /// What is known of the file's columns.
    fn columns(&self) -> (r: &[Column])
        ensures
            r@ == self.column_list(),
    ;

    /// The number of the file's rows.
    fn num_rows(&self) -> (r: u64)
        ensures
            r == self.row_count(),
    ;
}

impl ManifestFile for File {
    open spec fn column_list(&self) -> Seq<Column> {
        self.columns@
    }

    open spec fn row_count(&self) -> u64 {
        self.num_rows
    }

    fn columns(&self) -> (r: &[Column]) {
        self.columns.as_slice()
    }

    fn num_rows(&self) -> (r: u64) {
        self.num_rows
    }
}

/// A manifest file composed of multiple file entries.
#[derive(Clone, Debug)]
pub struct Manifest {
    pub version: String,
    pub files: Vec<File>,
}

impl Default for Manifest {
    fn default() -> (r: Manifest)
        ensures
            r.version@ == CURRENT_MANIFEST_VERSION@,
            r.files@.len() == 0,
    {
        Manifest { version: CURRENT_MANIFEST_VERSION.to_string(), files: Vec::new() }
    }
}

/// The first place at which a file of the path stands.
pub open spec fn place_of(files: Seq<File>, path: Seq<char>) -> Option<int>
    decreases files.len(),
{
    if files.len() == 0 {
        None
    } else {
        match place_of(files.drop_last(), path) {
            Some(i) => Some(i),
            None => if files.last().file_path@ == path {
                Some(files.len() - 1)
            } else {
                None
            },
        }
    }
}

/// The entries after a change: the first one of the changed file's path is
/// replaced, or the changed file is added at the end where there is none.
pub open spec fn changed(files: Seq<File>, change: File) -> Seq<File> {
    match place_of(files, change.file_path@) {
        Some(i) => files.update(i, change),
        None => files.push(change),
    }
}

proof fn lemma_place_in_prefix(files: Seq<File>, path: Seq<char>, n: int)
    requires
        0 <= n <= files.len(),
        place_of(files.take(n), path) is Some,
    ensures
        place_of(files, path) == place_of(files.take(n), path),
    decreases files.len(),
{
    if n < files.len() {
        assert(files.drop_last().take(n) =~= files.take(n));
        lemma_place_in_prefix(files.drop_last(), path, n);
    } else {
        assert(files.take(n) =~= files);
    }
}

impl Manifest {
    /// Puts an entry in the place of the one of the same path, or at the end
    /// where there is none.
    pub fn apply_change(&mut self, change: File)
        ensures
            final(self).files@ == changed(old(self).files@, change),
            final(self).version == old(self).version,
    {
        let ghost path = change.file_path@;
        let mut pos: usize = 0;
        while pos < self.files.len()
            invariant
                pos <= self.files@.len(),
                *self == *old(self),
                path == change.file_path@,
                place_of(self.files@.take(pos as int), path) is None,
            decreases self.files@.len() - pos,
        {
            assert(self.files@.take(pos + 1).drop_last() =~= self.files@.take(pos as int));
            if str_same(self.files[pos].file_path.as_str(), change.file_path.as_str()) {
                proof {
                    lemma_place_in_prefix(self.files@, path, pos + 1);
                }
                self.files.set(pos, change);
                return;
            }
            pos = pos + 1;
        }
        assert(self.files@.take(pos as int) =~= self.files@);
        self.files.push(change);
    }
}

// ---------------------------------------------------------------------------
// Laws of changes
// ---------------------------------------------------------------------------

/// Whether no two entries are of one path.
pub open spec fn paths_are_distinct(files: Seq<File>) -> bool {
    forall|i: int, j: int|
        0 <= i < j < files.len() ==> (#[trigger] files[i]).file_path@ != (#[trigger] files[j]).file_path@
}

/// The first entry of a path.
pub open spec fn entry_of(files: Seq<File>, path: Seq<char>) -> Option<File> {
    match place_of(files, path) {
        Some(i) => Some(files[i]),
        None => None,
    }
}

/// The place of a path is the first at which a file of that path stands.
pub proof fn place_is_the_first(files: Seq<File>, path: Seq<char>)
    ensures
        match place_of(files, path) {
            Some(i) => {
                &&& 0 <= i < files.len()
                &&& files[i].file_path@ == path
                &&& forall|j: int| 0 <= j < i ==> (#[trigger] files[j]).file_path@ != path
            },
            None => forall|j: int| 0 <= j < files.len() ==> (#[trigger] files[j]).file_path@ != path,
        },
    decreases files.len(),
{
    if files.len() > 0 {
        let shorter = files.drop_last();
        place_is_the_first(shorter, path);
        assert forall|j: int| 0 <= j < shorter.len() implies files[j] == shorter[j] by {}
        if let Some(i) = place_of(shorter, path) {
            assert forall|j: int| 0 <= j < i implies (#[trigger] files[j]).file_path@ != path by {
                assert(shorter[j].file_path@ != path);
            }
        } else {
            assert forall|j: int| 0 <= j < files.len() - 1 implies (#[trigger] files[j]).file_path@ != path by {
                assert(shorter[j].file_path@ != path);
            }
        }
    }
}

proof fn lemma_place_is_unique(files: Seq<File>, path: Seq<char>, i: int)
    requires
        0 <= i < files.len(),
        files[i].file_path@ == path,
        forall|j: int| 0 <= j < i ==> (#[trigger] files[j]).file_path@ != path,
    ensures
        place_of(files, path) == Some(i),
{
    place_is_the_first(files, path);
    let k = place_of(files, path)->0;
    if k < i {
        assert(files[k].file_path@ != path);
    }
}

/// After a change, the changed entry is the one of its path, and every other
/// path has the entry it had before.
pub proof fn change_is_looked_up(files: Seq<File>, change: File, path: Seq<char>)
    ensures
        entry_of(changed(files, change), path) == if path == change.file_path@ {
            Some(change)
        } else {
            entry_of(files, path)
        },
{
    let after = changed(files, change);
    place_is_the_first(files, change.file_path@);
    place_is_the_first(files, path);
    place_is_the_first(after, path);
    if path == change.file_path@ {
        let i = match place_of(files, path) {
            Some(i) => i,
            None => files.len() as int,
        };
        assert forall|j: int| 0 <= j < i implies (#[trigger] after[j]).file_path@ != path by {
            assert(after[j] == files[j]);
        }
        lemma_place_is_unique(after, path, i);
    } else {
        match place_of(files, path) {
            Some(i) => {
                assert forall|j: int| 0 <= j < i implies (#[trigger] after[j]).file_path@ != path by {
                    if after[j] != change {
                        assert(after[j] == files[j]);
                    }
                }
                assert(after[i] == files[i]);
                lemma_place_is_unique(after, path, i);
            },
            None => {
                if let Some(i) = place_of(after, path) {
                    assert(after[i] == files[i]);
                }
            },
        }
    }
}

/// A change that is applied twice has the effect of one.
pub proof fn change_is_idempotent(files: Seq<File>, change: File)
    ensures
        changed(changed(files, change), change) == changed(files, change),
{
    let after = changed(files, change);
    change_is_looked_up(files, change, change.file_path@);
    let i = place_of(after, change.file_path@)->0;
    place_is_the_first(after, change.file_path@);
    assert(after.update(i, change) =~= after);
}

/// A change keeps the paths of a manifest distinct.
pub proof fn change_keeps_paths_distinct(files: Seq<File>, change: File)
    requires
        paths_are_distinct(files),
    ensures
        paths_are_distinct(changed(files, change)),
{
    let after = changed(files, change);
    place_is_the_first(files, change.file_path@);
    assert forall|i: int, j: int| 0 <= i < j < after.len() implies (#[trigger] after[i]).file_path@ != (
    #[trigger] after[j]).file_path@ by {
        match place_of(files, change.file_path@) {
            Some(_) => {
                assert(files[i].file_path@ != files[j].file_path@);
            },
            None => {
                assert(after[i] == files[i]);
                if j < files.len() {
                    assert(after[j] == files[j]);
                }
            },
        }
    }
}

/// A change touches one place: where entries of its path stand, it takes the
/// place of the first of them, and otherwise it comes behind all entries. All
/// other entries stay where they are.
pub proof fn change_touches_one_place(files: Seq<File>, change: File, j: int)
    ensures
        match (
            exists|i: int| 0 <= i < files.len() && (#[trigger] files[i]).file_path@ == change.file_path@
        ) {
            true => changed(files, change).len() == files.len(),
            false => changed(files, change).len() == files.len() + 1 && changed(files, change)[files.len() as int]
                == change,
        },
        0 <= j < files.len() ==> changed(files, change)[j] == if files[j].file_path@ == change.file_path@ && (
        forall|i: int| 0 <= i < j ==> (#[trigger] files[i]).file_path@ != change.file_path@) {
            change
        } else {
            files[j]
        },
{
    place_is_the_first(files, change.file_path@);
    if let Some(i) = place_of(files, change.file_path@) {
        assert(files[i].file_path@ == change.file_path@);
    }
}

// ---------------------------------------------------------------------------
// Entries of files
// ---------------------------------------------------------------------------

/// The entry of a name in a list of entries; the last one where there are
/// several.
pub open spec fn entry_for<T>(entries: Seq<(String, T)>, name: Seq<char>) -> Option<T>
    decreases entries.len(),
{
    if entries.len() == 0 {
        None
    } else if entries.last().0@ == name {
        Some(entries.last().1)
    } else {
        entry_for(entries.drop_last(), name)
    }
}

/// A column with the indexes of exact values that are listed under its name.
pub open spec fn with_exact_index(col: Column, entries: Seq<(String, ExactIndexData)>) -> Column {
    match entry_for(entries, col.name@) {
        Some(index) => Column { exact_values: index.values, exact_hashes: index.hashes, ..col },
        None => col,
    }
}

/// A column with the text index that is listed under its name.
pub open spec fn with_text_index(col: Column, entries: Seq<(String, TextNgrams)>) -> Column {
    match entry_for(entries, col.name@) {
        Some(index) => Column { text_ngrams: Some(index), ..col },
        None => col,
    }
}

fn find_by_name(columns: &Vec<Column>, name: &str) -> (r: Option<usize>)
    ensures
        match r {
            Some(k) => k < columns@.len() && columns@[k as int].name@ == name@,
            None => forall|k: int| 0 <= k < columns@.len() ==> (#[trigger] columns@[k]).name@ != name@,
        },
{
    let mut k: usize = 0;
    while k < columns.len()
        invariant
            k <= columns@.len(),
            forall|j: int| 0 <= j < k ==> (#[trigger] columns@[j]).name@ != name@,
        decreases columns@.len() - k,
    {
        if str_same(columns[k].name.as_str(), name) {
            return Some(k);
        }
        k = k + 1;
    }
    None
}

fn attach_exact_indexes(columns: &mut Vec<Column>, indexes: Vec<(String, ExactIndexData)>)
    requires
        column_names(old(columns)@).no_duplicates(),
    ensures
        final(columns)@ == old(columns)@.map_values(|col: Column| with_exact_index(col, indexes@)),
{
    let ghost before = columns@;
    let ghost all = indexes@;
    assert(columns@ =~= before.map_values(|col: Column| with_exact_index(col, all.take(0))));
    for entry in it: indexes
        invariant
            it.seq() == all,
            column_names(before).no_duplicates(),
            columns@ == before.map_values(|col: Column| with_exact_index(col, all.take(it.index()))),
    {
        let ghost n = it.index();
        let ghost now = columns@;
        let (name, index) = entry;
        proof {
            assert(all.take(n + 1).drop_last() =~= all.take(n));
            assert(all.take(n + 1).last() == all[n]);
        }
        if let Some(k) = find_by_name(columns, name.as_str()) {
            let column = &mut columns[k];
            column.exact_values = index.values;
            column.exact_hashes = index.hashes;
            proof {
                assert forall|j: int| 0 <= j < before.len() && j != k implies (#[trigger] before[j]).name@ != name@ by {
                    assert(column_names(before)[j] != column_names(before)[k as int]);
                    assert(now[k as int].name == before[k as int].name);
                }
            }
        } else {
            proof {
                assert forall|j: int| 0 <= j < before.len() implies (#[trigger] before[j]).name@ != name@ by {
                    assert(now[j].name == before[j].name);
                }
            }
        }
        assert(columns@ =~= before.map_values(|col: Column| with_exact_index(col, all.take(n + 1))));
    }
    assert(all.take(all.len() as int) =~= all);
}

fn attach_text_indexes(columns: &mut Vec<Column>, indexes: Vec<(String, TextNgrams)>)
    requires
        column_names(old(columns)@).no_duplicates(),
    ensures
        final(columns)@ == old(columns)@.map_values(|col: Column| with_text_index(col, indexes@)),
{
    let ghost before = columns@;
    let ghost all = indexes@;
    assert(columns@ =~= before.map_values(|col: Column| with_text_index(col, all.take(0))));
    for entry in it: indexes
        invariant
            it.seq() == all,
            column_names(before).no_duplicates(),
            columns@ == before.map_values(|col: Column| with_text_index(col, all.take(it.index()))),
    {
        let ghost n = it.index();
        let ghost now = columns@;
        let (name, index) = entry;
        proof {
            assert(all.take(n + 1).drop_last() =~= all.take(n));
            assert(all.take(n + 1).last() == all[n]);
        }
        if let Some(k) = find_by_name(columns, name.as_str()) {
            let column = &mut columns[k];
            column.text_ngrams = Some(index);
            proof {
                assert forall|j: int| 0 <= j < before.len() && j != k implies (#[trigger] before[j]).name@ != name@ by {
                    assert(column_names(before)[j] != column_names(before)[k as int]);
                    assert(now[k as int].name == before[k as int].name);
                }
            }
        } else {
            proof {
                assert forall|j: int| 0 <= j < before.len() implies (#[trigger] before[j]).name@ != name@ by {
                    assert(now[j].name == before[j].name);
                }
            }
        }
        assert(columns@ =~= before.map_values(|col: Column| with_text_index(col, all.take(n + 1))));
    }
    assert(all.take(all.len() as int) =~= all);
}

/// The size of the rows of a list of row groups before compression.
pub open spec fn byte_total(row_groups: Seq<RowGroupMetaData>) -> int
    decreases row_groups.len(),
{
    if row_groups.len() == 0 {
        0
    } else {
        byte_total(row_groups.drop_last()) + row_groups.last().total_byte_size
    }
}

proof fn lemma_byte_total_grows(row_groups: Seq<RowGroupMetaData>, n: int)
    requires
        0 <= n <= row_groups.len(),
    ensures
        0 <= byte_total(row_groups.take(n)) <= byte_total(row_groups),
    decreases row_groups.len(),
{
    if n < row_groups.len() {
        assert(row_groups.drop_last().take(n) =~= row_groups.take(n));
        lemma_byte_total_grows(row_groups.drop_last(), n);
    } else {
        assert(row_groups.take(n) =~= row_groups);
        if row_groups.len() > 0 {
            lemma_byte_total_grows(row_groups.drop_last(), n - 1);
            assert(row_groups.drop_last().take(n - 1) =~= row_groups.drop_last());
        }
    }
}

fn ingestion_size(row_groups: &Vec<RowGroupMetaData>) -> (r: u64)
    requires
        byte_total(row_groups@) <= u64::MAX,
    ensures
        r == byte_total(row_groups@),
{
    let mut sum: u64 = 0;
    let mut i: usize = 0;
    while i < row_groups.len()
        invariant
            i <= row_groups@.len(),
            sum == byte_total(row_groups@.take(i as int)),
            byte_total(row_groups@) <= u64::MAX,
        decreases row_groups@.len() - i,
    {
        proof {
            assert(row_groups@.take(i + 1).drop_last() =~= row_groups@.take(i as int));
            lemma_byte_total_grows(row_groups@, i + 1);
        }
        sum = sum + row_groups[i].total_byte_size;
        i = i + 1;
    }
    assert(row_groups@.take(i as int) =~= row_groups@);
    sum
}

/// The entries of an optional list of entries.
pub open spec fn optional_entries<T>(entries: Option<Vec<(String, T)>>) -> Seq<(String, T)> {
    match entries {
        Some(entries) => entries@,
        None => Seq::empty(),
    }
}

/// The index of exact values that is listed under a name.
pub open spec fn values_for(entries: Seq<(String, ExactIndexData)>, name: Seq<char>) -> Option<ExactValues> {
    match entry_for(entries, name) {
        Some(index) => index.values,
        None => None,
    }
}

/// The index of hashes that is listed under a name.
pub open spec fn hashes_for(entries: Seq<(String, ExactIndexData)>, name: Seq<char>) -> Option<ExactHashes> {
    match entry_for(entries, name) {
        Some(index) => index.hashes,
        None => None,
    }
}

/// The size of the row groups of a file is that of each of them, added up.
pub proof fn bytes_are_added_up(row_groups: Seq<RowGroupMetaData>)
    ensures
        byte_total(row_groups) == row_groups.fold_left(
            0int,
            |sum: int, row_group: RowGroupMetaData| sum + row_group.total_byte_size,
        ),
    decreases row_groups.len(),
{
    if row_groups.len() > 0 {
        bytes_are_added_up(row_groups.drop_last());
    }
}

/// The entry of a name is the last that is listed under it, and there is one
/// exactly where one is listed.
pub proof fn last_entry_of_a_name_counts<T>(entries: Seq<(String, T)>, name: Seq<char>, k: int)
    requires
        0 <= k < entries.len(),
        entries[k].0@ == name,
        forall|j: int| k < j < entries.len() ==> (#[trigger] entries[j]).0@ != name,
    ensures
        entry_for(entries, name) == Some(entries[k].1),
    decreases entries.len(),
{
    if k < entries.len() - 1 {
        assert(entries[entries.len() - 1].0@ != name);
        last_entry_of_a_name_counts(entries.drop_last(), name, k);
    }
}

/// A name under which nothing is listed has no entry.
pub proof fn unlisted_name_has_no_entry<T>(entries: Seq<(String, T)>, name: Seq<char>)
    requires
        forall|j: int| 0 <= j < entries.len() ==> (#[trigger] entries[j]).0@ != name,
    ensures
        entry_for(entries, name) is None,
    decreases entries.len(),
{
    if entries.len() > 0 {
        assert(entries[entries.len() - 1].0@ != name);
        unlisted_name_has_no_entry(entries.drop_last(), name);
    }
}

/// Whether the columns are those of a file, each once, in the order in which
/// they first occur, with sizes and ranges over all row groups and with the
/// indexes that are listed under their names.
pub open spec fn file_columns(
    columns: Seq<Column>,
    row_groups: Seq<RowGroupMetaData>,
    exact: Seq<(String, ExactIndexData)>,
    text: Seq<(String, TextNgrams)>,
) -> bool {
    let chunks = all_chunks(row_groups);
    &&& column_names(columns) == distinct(chunk_paths(chunks))
    &&& forall|k: int|
        0 <= k < columns.len() ==> {
            let col = #[trigger] columns[k];
            &&& sums_up(col, own_chunks(chunks, col.name@))
            &&& col.exact_values == values_for(exact, col.name@)
            &&& col.exact_hashes == hashes_for(exact, col.name@)
            &&& col.text_ngrams == entry_for(text, col.name@)
            &&& col.text_ngram_hashes is None
        }
}

/// Whether a file's metadata can be summed up: its sizes are within what a
/// `u64` holds, and each row group says what it is sorted by.
pub open spec fn can_be_summed_up(row_groups: Seq<RowGroupMetaData>) -> bool {
    &&& byte_total(row_groups) <= u64::MAX
    &&& chunk_sizes_fit(all_chunks(row_groups))
    &&& forall|i: int| 0 <= i < row_groups.len() ==> has_sort_order(#[trigger] row_groups[i])
}

/// Whether a file's metadata can be summed up.
pub fn is_summable(row_groups: &[RowGroupMetaData]) -> (r: bool)
    ensures
        r == can_be_summed_up(row_groups@),
{
    let mut sum: u64 = 0;
    let mut i: usize = 0;
    while i < row_groups.len()
        invariant
            i <= row_groups@.len(),
            sum == byte_total(row_groups@.take(i as int)),
            forall|j: int| 0 <= j < i ==> has_sort_order(#[trigger] row_groups@[j]),
        decreases row_groups@.len() - i,
    {
        proof {
            assert(row_groups@.take(i + 1).drop_last() =~= row_groups@.take(i as int));
            lemma_byte_total_grows(row_groups@, i + 1);
        }
        if sum > u64::MAX - row_groups[i].total_byte_size {
            return false;
        }
        if !says_sort_order(&row_groups[i]) {
            return false;
        }
        sum = sum + row_groups[i].total_byte_size;
        i = i + 1;
    }
    assert(row_groups@.take(i as int) =~= row_groups@);
    checked_column_statistics(row_groups).is_some()
}

/// The entry of a parquet file: what its metadata says, and the indexes that
/// were built over its columns, if any were.
pub fn create_from_parquet_file(
    object_store_path: String,
    metadata: &ParquetMetaData,
    exact_indexes: Option<Vec<(String, ExactIndexData)>>,
    text_indexes: Option<Vec<(String, TextNgrams)>>,
) -> (r: File)
    requires
        can_be_summed_up(metadata.row_groups@),
    ensures
        r.file_path == object_store_path,
        r.num_rows == metadata.num_rows,
        r.file_size == metadata.file_size,
        r.ingestion_size == byte_total(metadata.row_groups@),
        file_columns(
            r.columns@,
            metadata.row_groups@,
            optional_entries(exact_indexes),
            optional_entries(text_indexes),
        ),
        sort_infos(r.sort_order_id@) == common_order(row_group_orders(metadata.row_groups@)),
{
    let row_groups = &metadata.row_groups;
    let ghost chunks = all_chunks(row_groups@);
    let mut columns = column_statistics(row_groups.as_slice());
    let ghost bare = columns@;
    proof {
        lemma_distinct_has_no_duplicates(chunk_paths(chunks));
    }
    if let Some(exact_indexes) = exact_indexes {
        attach_exact_indexes(&mut columns, exact_indexes);
    }
    let ghost exact = optional_entries(exact_indexes);
    assert(columns@ =~= bare.map_values(|col: Column| with_exact_index(col, exact)));
    assert(column_names(columns@) =~= column_names(bare));
    let ghost indexed = columns@;
    if let Some(text_indexes) = text_indexes {
        attach_text_indexes(&mut columns, text_indexes);
    }
    let ghost text = optional_entries(text_indexes);
    assert(columns@ =~= indexed.map_values(|col: Column| with_text_index(col, text)));
    assert(column_names(columns@) =~= column_names(bare));
    proof {
        assert forall|k: int| 0 <= k < columns@.len() implies {
            let col = #[trigger] columns@[k];
            &&& sums_up(col, own_chunks(chunks, col.name@))
            &&& col.exact_values == values_for(exact, col.name@)
            &&& col.exact_hashes == hashes_for(exact, col.name@)
            &&& col.text_ngrams == entry_for(text, col.name@)
            &&& col.text_ngram_hashes is None
        } by {
            assert(sums_up(bare[k], own_chunks(chunks, bare[k].name@)));
            assert(indexed[k] == with_exact_index(bare[k], exact));
            assert(columns@[k] == with_text_index(indexed[k], text));
        }
    }
    File {
        file_path: object_store_path,
        num_rows: metadata.num_rows,
        file_size: metadata.file_size,
        ingestion_size: ingestion_size(row_groups),
        columns,
        sort_order_id: file_sort_order(row_groups.as_slice()),
    }
}

/// The columns of a file's entry are the paths of its chunks, each once; the
/// sizes of a column are those of its chunks, added up; and it carries the
/// indexes that are listed under its name.
pub proof fn entry_lists_each_column_once(
    columns: Seq<Column>,
    row_groups: Seq<RowGroupMetaData>,
    exact: Seq<(String, ExactIndexData)>,
    text: Seq<(String, TextNgrams)>,
    k: int,
    name: Seq<char>,
    g: int,
    c: int,
)
    requires
        file_columns(columns, row_groups, exact, text),
    ensures
        0 <= g < row_groups.len() && 0 <= c < row_groups[g].columns@.len() ==> exists|j: int|
            0 <= j < columns.len() && (#[trigger] columns[j]).name@ == row_groups[g].columns@[c].path@,
        forall|i: int, j: int| 0 <= i < j < columns.len() ==> (#[trigger] columns[i]).name@ != (
        #[trigger] columns[j]).name@,
        0 <= k < columns.len() && columns[k].name@ == name ==> {
            let own = all_chunks(row_groups).filter(|chunk: ColumnChunk| chunk.path@ == name);
            &&& own.len() > 0
            &&& columns[k].compressed_size == own.fold_left(
                0int,
                |sum: int, chunk: ColumnChunk| sum + chunk.compressed_size,
            )
            &&& columns[k].uncompressed_size == own.fold_left(
                0int,
                |sum: int, chunk: ColumnChunk| sum + chunk.uncompressed_size,
            )
            &&& forall|e: int|
                0 <= e < exact.len() && (#[trigger] exact[e]).0@ == name && (forall|j: int|
                    e < j < exact.len() ==> (#[trigger] exact[j]).0@ != name)
                    ==> columns[k].exact_values == exact[e].1.values && columns[k].exact_hashes
                    == exact[e].1.hashes
            &&& forall|e: int|
                0 <= e < text.len() && (#[trigger] text[e]).0@ == name && (forall|j: int|
                    e < j < text.len() ==> (#[trigger] text[j]).0@ != name) ==> columns[k].text_ngrams
                    == Some(text[e].1)
            &&& (forall|e: int| 0 <= e < exact.len() ==> (#[trigger] exact[e]).0@ != name)
                ==> columns[k].exact_values is None && columns[k].exact_hashes is None
            &&& (forall|e: int| 0 <= e < text.len() ==> (#[trigger] text[e]).0@ != name)
                ==> columns[k].text_ngrams is None
        },
{
    let chunks = all_chunks(row_groups);
    let paths = chunk_paths(chunks);
    lemma_distinct_has_no_duplicates(paths);
    assert forall|i: int, j: int| 0 <= i < j < columns.len() implies (#[trigger] columns[i]).name@ != (
    #[trigger] columns[j]).name@ by {
        assert(column_names(columns)[i] != column_names(columns)[j]);
    }
    if 0 <= g < row_groups.len() && 0 <= c < row_groups[g].columns@.len() {
        let path = row_groups[g].columns@[c].path@;
        chunks_are_those_of_the_row_groups(row_groups, g, c);
        let i = chunks.index_of(row_groups[g].columns@[c]);
        assert(paths[i] == path);
        distinct_keeps_every_name(paths, path);
        let j = distinct(paths).index_of(path);
        assert(column_names(columns)[j] == path);
        assert(columns[j].name@ == path);
    }
    if 0 <= k < columns.len() && columns[k].name@ == name {
        assert(sums_up(columns[k], own_chunks(chunks, name)));
        own_chunks_are_those_of_the_path(chunks, name);
        sizes_are_added_up(own_chunks(chunks, name));
        assert(column_names(columns)[k] == name);
        assert(distinct(paths).contains(name));
        distinct_keeps_every_name(paths, name);
        let i = paths.index_of(name);
        assert(chunks[i].path@ == name);
        let own = chunks.filter(|chunk: ColumnChunk| chunk.path@ == name);
        chunks.lemma_filter_contains(|chunk: ColumnChunk| chunk.path@ == name, i);
        assert(own.contains(chunks[i]));
        assert forall|e: int|
            0 <= e < exact.len() && (#[trigger] exact[e]).0@ == name && (forall|j: int|
                e < j < exact.len() ==> (#[trigger] exact[j]).0@ != name) implies columns[k].exact_values
            == exact[e].1.values && columns[k].exact_hashes == exact[e].1.hashes by {
            last_entry_of_a_name_counts(exact, name, e);
        }
        assert forall|e: int|
            0 <= e < text.len() && (#[trigger] text[e]).0@ == name && (forall|j: int|
                e < j < text.len() ==> (#[trigger] text[j]).0@ != name) implies columns[k].text_ngrams == Some(
            text[e].1,
        ) by {
            last_entry_of_a_name_counts(text, name, e);
        }
        if forall|e: int| 0 <= e < exact.len() ==> (#[trigger] exact[e]).0@ != name {
            unlisted_name_has_no_entry(exact, name);
        }
        if forall|e: int| 0 <= e < text.len() ==> (#[trigger] text[e]).0@ != name {
            unlisted_name_has_no_entry(text, name);
        }
    }
}

/// The range of a column whose chunks all hold numbers is from the least of
/// their least to the greatest of their greatest.
pub proof fn column_ranges_over_all_its_chunks(
    columns: Seq<Column>,
    row_groups: Seq<RowGroupMetaData>,
    exact: Seq<(String, ExactIndexData)>,
    text: Seq<(String, TextNgrams)>,
    k: int,
    name: Seq<char>,
)
    requires
        file_columns(columns, row_groups, exact, text),
        0 <= k < columns.len(),
        columns[k].name@ == name,
        ({
            let own = all_chunks(row_groups).filter(|chunk: ColumnChunk| chunk.path@ == name);
            forall|i: int| 0 <= i < own.len() ==> (#[trigger] own[i]).statistics matches Some(TypedStatistics::Int(_))
        }),
    ensures
        ({
            let own = all_chunks(row_groups).filter(|chunk: ColumnChunk| chunk.path@ == name);
            columns[k].stats matches Some(TypedStatistics::Int(s)) && {
                &&& forall|i: int|
                    0 <= i < own.len() ==> s.min <= ((#[trigger] own[i]).statistics->0)->Int_0.min && (
                    own[i].statistics->0)->Int_0.max <= s.max
                &&& exists|i: int| 0 <= i < own.len() && ((#[trigger] own[i]).statistics->0)->Int_0.min == s.min
                &&& exists|i: int| 0 <= i < own.len() && ((#[trigger] own[i]).statistics->0)->Int_0.max == s.max
            }
        }),
{
    let chunks = all_chunks(row_groups);
    let own = chunks.filter(|chunk: ColumnChunk| chunk.path@ == name);
    entry_lists_each_column_once(columns, row_groups, exact, text, k, name, -1, -1);
    own_chunks_are_those_of_the_path(chunks, name);
    assert(sums_up(columns[k], own_chunks(chunks, name)));
    let ranges = chunk_ranges(own);
    assert forall|i: int| 0 <= i < ranges.len() implies #[trigger] ranges[i] is Some && ranges[i]->0 is Int by {
        assert(own[i].statistics matches Some(TypedStatistics::Int(_)));
    }
    numbers_range_from_least_to_greatest(ranges);
    let whole = merged_range(ranges)->0;
    let least = choose|i: int| 0 <= i < ranges.len() && (#[trigger] ranges[i])->0->Int_0 == whole->Int_0;
    let greatest = choose|i: int| 0 <= i < ranges.len() && (#[trigger] ranges[i])->0->Int_1 == whole->Int_1;
    assert(own[least].statistics matches Some(TypedStatistics::Int(_)));
    assert(own[greatest].statistics matches Some(TypedStatistics::Int(_)));
    assert forall|i: int| 0 <= i < own.len() implies {
        let s = (columns[k].stats->0)->Int_0;
        s.min <= ((#[trigger] own[i]).statistics->0)->Int_0.min && (own[i].statistics->0)->Int_0.max <= s.max
    } by {
        assert(ranges[i] is Some);
        assert(own[i].statistics matches Some(TypedStatistics::Int(_)));
    }
}

} // verus!
