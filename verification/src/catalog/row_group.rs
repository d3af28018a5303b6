//! The metadata of a parquet file, and what a manifest keeps of it.
use vstd::prelude::*;

use crate::catalog::column::{merged_range, range_of, Column, Range, TypedStatistics};
use crate::catalog::index::{distinct, lemma_distinct_has_no_duplicates};
use crate::catalog::manifest::{SortInfo, SortOrder};
use crate::text::str_same;

verus! {

/// A column that the rows of a row group are sorted by.
#[derive(Clone, Copy, Debug)]
pub struct SortingColumn {
    pub column_idx: i32,
    pub descending: bool,
    pub nulls_first: bool,
}

/// The part of a column that lies in one row group.
#[derive(Clone, Debug)]
pub struct ColumnChunk {
    /// The path of the column in the schema.
    pub path: String,
    pub compressed_size: u64,
    pub uncompressed_size: u64,
    pub statistics: Option<TypedStatistics>,
}

/// A group of rows of a file.
#[derive(Clone, Debug)]
pub struct RowGroupMetaData {
    pub total_byte_size: u64,
    pub columns: Vec<ColumnChunk>,
    pub sorting_columns: Option<Vec<SortingColumn>>,
}

/// What a file says of itself.
#[derive(Clone, Debug)]
pub struct ParquetMetaData {
    pub file_size: u64,
    pub num_rows: u64,
    pub row_groups: Vec<RowGroupMetaData>,
}

// ---------------------------------------------------------------------------
// Columns
// ---------------------------------------------------------------------------

/// The chunks of a list of row groups, in order.
pub open spec fn all_chunks(row_groups: Seq<RowGroupMetaData>) -> Seq<ColumnChunk>
    decreases row_groups.len(),
{
    if row_groups.len() == 0 {
        Seq::empty()
    } else {
        all_chunks(row_groups.drop_last()) + row_groups.last().columns@
    }
}

/// The paths of a list of chunks.
pub open spec fn chunk_paths(chunks: Seq<ColumnChunk>) -> Seq<Seq<char>> {
    chunks.map_values(|c: ColumnChunk| c.path@)
}

/// The chunks of one column, in order.
pub open spec fn own_chunks(chunks: Seq<ColumnChunk>, path: Seq<char>) -> Seq<ColumnChunk>
    decreases chunks.len(),
{
    if chunks.len() == 0 {
        Seq::empty()
    } else if chunks.last().path@ == path {
        own_chunks(chunks.drop_last(), path).push(chunks.last())
    } else {
        own_chunks(chunks.drop_last(), path)
    }
}

/// The compressed size of a list of chunks.
pub open spec fn compressed_total(chunks: Seq<ColumnChunk>) -> int
    decreases chunks.len(),
{
    if chunks.len() == 0 {
        0
    } else {
        compressed_total(chunks.drop_last()) + chunks.last().compressed_size
    }
}

/// The uncompressed size of a list of chunks.
pub open spec fn uncompressed_total(chunks: Seq<ColumnChunk>) -> int
    decreases chunks.len(),
{
    if chunks.len() == 0 {
        0
    } else {
        uncompressed_total(chunks.drop_last()) + chunks.last().uncompressed_size
    }
}

/// The range of a column over its chunks.
pub open spec fn chunk_range(chunks: Seq<ColumnChunk>) -> Option<Range> {
    merged_range(chunk_ranges(chunks))
}

/// The range of each chunk.
pub open spec fn chunk_ranges(chunks: Seq<ColumnChunk>) -> Seq<Option<Range>> {
    chunks.map_values(|c: ColumnChunk| range_of(c.statistics))
}

/// Whether the sizes of each column add up to what a `u64` holds.
pub open spec fn chunk_sizes_fit(chunks: Seq<ColumnChunk>) -> bool {
    forall|path: Seq<char>|
        {
            &&& compressed_total(#[trigger] own_chunks(chunks, path)) <= u64::MAX
            &&& uncompressed_total(own_chunks(chunks, path)) <= u64::MAX
        }
}

/// The names of a list of columns.
pub open spec fn column_names(columns: Seq<Column>) -> Seq<Seq<char>> {
    columns.map_values(|c: Column| c.name@)
}

/// Whether a column's sizes and range are those of its chunks.
pub open spec fn sums_up(col: Column, chunks: Seq<ColumnChunk>) -> bool {
    &&& col.compressed_size == compressed_total(chunks)
    &&& col.uncompressed_size == uncompressed_total(chunks)
    &&& range_of(col.stats) == chunk_range(chunks)
}

/// Whether a column has no index.
pub open spec fn is_unindexed(col: Column) -> bool {
    &&& col.exact_values is None
    &&& col.exact_hashes is None
    &&& col.text_ngrams is None
    &&& col.text_ngram_hashes is None
}

/// Whether the columns are those of the chunks, each once, in the order in
/// which they first occur, without indexes.
pub open spec fn columns_of(columns: Seq<Column>, chunks: Seq<ColumnChunk>) -> bool {
    &&& column_names(columns) == distinct(chunk_paths(chunks))
    &&& forall|k: int|
        0 <= k < columns.len() ==> {
            &&& sums_up(#[trigger] columns[k], own_chunks(chunks, columns[k].name@))
            &&& is_unindexed(columns[k])
        }
}

proof fn lemma_totals_grow(chunks: Seq<ColumnChunk>, more: Seq<ColumnChunk>, path: Seq<char>)
    ensures
        0 <= compressed_total(own_chunks(chunks, path)) <= compressed_total(own_chunks(chunks + more, path)),
        0 <= uncompressed_total(own_chunks(chunks, path)) <= uncompressed_total(
            own_chunks(chunks + more, path),
        ),
    decreases chunks.len() + more.len(),
{
    if more.len() > 0 {
        lemma_totals_grow(chunks, more.drop_last(), path);
        assert((chunks + more).drop_last() =~= chunks + more.drop_last());
        let before = own_chunks(chunks + more.drop_last(), path);
        assert(before.push(more.last()).drop_last() =~= before);
    } else {
        assert(chunks + more =~= chunks);
        if chunks.len() > 0 {
            lemma_totals_grow(chunks.drop_last(), Seq::empty(), path);
            assert(chunks.drop_last() + Seq::<ColumnChunk>::empty() =~= chunks.drop_last());
            let before = own_chunks(chunks.drop_last(), path);
            assert(before.push(chunks.last()).drop_last() =~= before);
        }
    }
}

proof fn lemma_fit_is_inherited(chunks: Seq<ColumnChunk>, more: Seq<ColumnChunk>)
    requires
        chunk_sizes_fit(chunks + more),
    ensures
        chunk_sizes_fit(chunks),
{
    assert forall|path: Seq<char>| {
        &&& compressed_total(#[trigger] own_chunks(chunks, path)) <= u64::MAX
        &&& uncompressed_total(own_chunks(chunks, path)) <= u64::MAX
    } by {
        lemma_totals_grow(chunks, more, path);
        assert(compressed_total(own_chunks(chunks + more, path)) <= u64::MAX);
    }
}

/// A path has chunks of its own only if it is the path of a chunk.
proof fn lemma_own_chunks_of_other_path(chunks: Seq<ColumnChunk>, path: Seq<char>)
    ensures
        distinct(chunk_paths(chunks)).contains(path) <==> chunk_paths(chunks).contains(path),
        !chunk_paths(chunks).contains(path) ==> own_chunks(chunks, path) == Seq::<ColumnChunk>::empty(),
        chunk_paths(chunks).contains(path) ==> own_chunks(chunks, path).len() > 0,
    decreases chunks.len(),
{
    if chunks.len() > 0 {
        let shorter = chunks.drop_last();
        lemma_own_chunks_of_other_path(shorter, path);
        lemma_own_chunks_of_other_path(shorter, chunks.last().path@);
        assert(chunk_paths(chunks).drop_last() =~= chunk_paths(shorter));
        assert(chunk_paths(chunks) =~= chunk_paths(shorter).push(chunks.last().path@));
        let n = shorter.len() as int;
        assert(chunk_paths(chunks)[n] == chunks.last().path@);
        if chunk_paths(shorter).contains(path) {
            let i = chunk_paths(shorter).index_of(path);
            assert(chunk_paths(chunks)[i] == path);
        }
        let d = distinct(chunk_paths(shorter));
        if d.contains(path) {
            let i = d.index_of(path);
            assert(d.push(chunks.last().path@)[i] == path);
        }
        assert(d.push(chunks.last().path@)[d.len() as int] == chunks.last().path@);
    }
}

/// Columns that sum up their chunks have sizes that fit.
proof fn lemma_columns_fit(columns: Seq<Column>, chunks: Seq<ColumnChunk>)
    requires
        columns_of(columns, chunks),
    ensures
        chunk_sizes_fit(chunks),
{
    assert forall|path: Seq<char>| {
        &&& compressed_total(#[trigger] own_chunks(chunks, path)) <= u64::MAX
        &&& uncompressed_total(own_chunks(chunks, path)) <= u64::MAX
    } by {
        lemma_own_chunks_of_other_path(chunks, path);
        if column_names(columns).contains(path) {
            let k = column_names(columns).index_of(path);
            assert(columns[k].name@ == path);
            assert(sums_up(columns[k], own_chunks(chunks, path)));
        }
    }
}

/// Takes a chunk into the columns, unless its sizes do not fit.
fn add_chunk(columns: &mut Vec<Column>, chunk: &ColumnChunk, Ghost(done): Ghost<Seq<ColumnChunk>>) -> (r: bool)
    requires
        columns_of(old(columns)@, done),
    ensures
        r ==> columns_of(final(columns)@, done.push(*chunk)),
        !r ==> !chunk_sizes_fit(done.push(*chunk)),
{
    let ghost all = done.push(*chunk);
    let ghost before = columns@;
    proof {
        assert(all.drop_last() =~= done);
        assert(chunk_paths(all) =~= chunk_paths(done).push(chunk.path@));
        assert(chunk_paths(all).drop_last() =~= chunk_paths(done));
        lemma_distinct_has_no_duplicates(chunk_paths(done));
        lemma_own_chunks_of_other_path(done, chunk.path@);
    }
    let mut k: usize = 0;
    while k < columns.len()
        invariant
            k <= columns@.len(),
            columns@ == before,
            forall|j: int| 0 <= j < k ==> (#[trigger] before[j]).name@ != chunk.path@,
            columns_of(before, done),
            all == done.push(*chunk),
            all.drop_last() == done,
            chunk_paths(all) == chunk_paths(done).push(chunk.path@),
            chunk_paths(all).drop_last() == chunk_paths(done),
            column_names(before).no_duplicates(),
            distinct(chunk_paths(done)).contains(chunk.path@) <==> chunk_paths(done).contains(chunk.path@),
            chunk_paths(done).contains(chunk.path@) ==> own_chunks(done, chunk.path@).len() > 0,
        decreases columns@.len() - k,
    {
        if str_same(columns[k].name.as_str(), chunk.path.as_str()) {
            let ghost own = own_chunks(done, chunk.path@);
            proof {
                assert(column_names(before)[k as int] == chunk.path@);
                assert(own_chunks(all, chunk.path@) == own.push(*chunk));
                assert(own.push(*chunk).drop_last() =~= own);
                assert(chunk_ranges(own.push(*chunk)).drop_last() =~= chunk_ranges(own));
                assert(sums_up(before[k as int], own));
            }
            let entry = &mut columns[k];
            if entry.compressed_size > u64::MAX - chunk.compressed_size || entry.uncompressed_size > u64::MAX
                - chunk.uncompressed_size {
                assert(!chunk_sizes_fit(all)) by {
                    let own_all = own_chunks(all, chunk.path@);
                    assert(compressed_total(own_all) > u64::MAX || uncompressed_total(own_all) > u64::MAX);
                }
                return false;
            }
            entry.compressed_size = entry.compressed_size + chunk.compressed_size;
            entry.uncompressed_size = entry.uncompressed_size + chunk.uncompressed_size;
            if let Some(other) = &chunk.statistics {
                let this = entry.stats.take();
                entry.stats = match this {
                    Some(this) => this.update(other.clone()),
                    None => None,
                };
            }
            proof {
                assert(column_names(columns@) =~= column_names(before));
                assert forall|j: int| 0 <= j < columns@.len() implies {
                    &&& sums_up(#[trigger] columns@[j], own_chunks(all, columns@[j].name@))
                    &&& is_unindexed(columns@[j])
                } by {
                    if j != k {
                        assert(columns@[j] == before[j]);
                        assert(column_names(before)[j] != column_names(before)[k as int]);
                    }
                }
            }
            return true;
        }
        k = k + 1;
    }
    proof {
        assert(!column_names(before).contains(chunk.path@)) by {
            if column_names(before).contains(chunk.path@) {
                let j = column_names(before).index_of(chunk.path@);
                assert(before[j].name@ == chunk.path@);
            }
        }
        assert(own_chunks(done, chunk.path@) == Seq::<ColumnChunk>::empty());
    }
    let col = Column {
        name: chunk.path.clone(),
        stats: match &chunk.statistics {
            Some(stats) => Some(stats.clone()),
            None => None,
        },
        exact_values: None,
        exact_hashes: None,
        text_ngrams: None,
        text_ngram_hashes: None,
        uncompressed_size: chunk.uncompressed_size,
        compressed_size: chunk.compressed_size,
    };
    columns.push(col);
    proof {
        assert(column_names(columns@) =~= column_names(before).push(chunk.path@));
        assert forall|j: int| 0 <= j < columns@.len() implies {
            &&& sums_up(#[trigger] columns@[j], own_chunks(all, columns@[j].name@))
            &&& is_unindexed(columns@[j])
        } by {
            if j < before.len() {
                assert(columns@[j] == before[j]);
                assert(before[j].name@ != chunk.path@);
            } else {
                let own = own_chunks(all, chunk.path@);
                assert(own == Seq::<ColumnChunk>::empty().push(*chunk));
                assert(own.drop_last() =~= Seq::<ColumnChunk>::empty());
                assert(compressed_total(own.drop_last()) == 0);
                assert(uncompressed_total(own.drop_last()) == 0);
            }
        }
    }
    true
}

/// The columns of a file, with sizes and ranges over all its row groups;
/// `None` where the sizes of a column are too large to add up.
pub fn checked_column_statistics(row_groups: &[RowGroupMetaData]) -> (r: Option<Vec<Column>>)
    ensures
        match r {
            Some(columns) => chunk_sizes_fit(all_chunks(row_groups@)) && columns_of(
                columns@,
                all_chunks(row_groups@),
            ),
            None => !chunk_sizes_fit(all_chunks(row_groups@)),
        },
{
    let mut columns: Vec<Column> = Vec::new();
    let mut i: usize = 0;
    assert(column_names(columns@) =~= Seq::empty());
    while i < row_groups.len()
        invariant
            i <= row_groups@.len(),
            columns_of(columns@, all_chunks(row_groups@.take(i as int))),
        decreases row_groups@.len() - i,
    {
        let chunks = &row_groups[i].columns;
        let ghost before = all_chunks(row_groups@.take(i as int));
        let mut j: usize = 0;
        assert(before + chunks@.take(0) =~= before);
        while j < chunks.len()
            invariant
                i < row_groups@.len(),
                chunks == row_groups@[i as int].columns,
                before == all_chunks(row_groups@.take(i as int)),
                j <= chunks@.len(),
                columns_of(columns@, before + chunks@.take(j as int)),
            decreases chunks@.len() - j,
        {
            let ghost done = before + chunks@.take(j as int);
            assert(done.push(chunks@[j as int]) =~= before + chunks@.take(j + 1));
            if !add_chunk(&mut columns, &chunks[j], Ghost(done)) {
                proof {
                    if chunk_sizes_fit(all_chunks(row_groups@)) {
                        lemma_chunks_of_prefix(row_groups@, i as int);
                        assert(before + chunks@ =~= done.push(chunks@[j as int]) + chunks@.skip(j + 1));
                        lemma_fit_is_inherited(done.push(chunks@[j as int]), chunks@.skip(j + 1));
                    }
                }
                return None;
            }
            j = j + 1;
        }
        assert(chunks@.take(j as int) =~= chunks@);
        assert(row_groups@.take(i + 1).drop_last() =~= row_groups@.take(i as int));
        i = i + 1;
    }
    assert(row_groups@.take(i as int) =~= row_groups@);
    proof {
        lemma_columns_fit(columns@, all_chunks(row_groups@));
    }
    Some(columns)
}

/// The columns of a file, with sizes and ranges over all its row groups.
pub fn column_statistics(row_groups: &[RowGroupMetaData]) -> (r: Vec<Column>)
    requires
        chunk_sizes_fit(all_chunks(row_groups@)),
    ensures
        columns_of(r@, all_chunks(row_groups@)),
{
    match checked_column_statistics(row_groups) {
        Some(columns) => columns,
        None => Vec::new(),
    }
}

proof fn lemma_chunks_of_prefix(row_groups: Seq<RowGroupMetaData>, i: int)
    requires
        0 <= i < row_groups.len(),
        chunk_sizes_fit(all_chunks(row_groups)),
    ensures
        chunk_sizes_fit(all_chunks(row_groups.take(i)) + row_groups[i].columns@),
    decreases row_groups.len(),
{
    if i == row_groups.len() - 1 {
        assert(row_groups.drop_last() =~= row_groups.take(i));
    } else {
        let shorter = row_groups.drop_last();
        lemma_fit_is_inherited(all_chunks(shorter), row_groups.last().columns@);
        lemma_chunks_of_prefix(shorter, i);
        assert(shorter.take(i) =~= row_groups.take(i));
    }
}

// ---------------------------------------------------------------------------
// Order of rows
// ---------------------------------------------------------------------------

/// The order in which a sorting column sorts.
pub open spec fn sorting_order(sorting: SortingColumn) -> SortOrder {
    if sorting.descending {
        if sorting.nulls_first {
            SortOrder::DescNullsFirst
        } else {
            SortOrder::DescNullsLast
        }
    } else {
        if sorting.nulls_first {
            SortOrder::AscNullsFirst
        } else {
            SortOrder::AscNullsLast
        }
    }
}

/// What a list of columns with orders says, by the columns' paths.
pub open spec fn sort_infos(list: Seq<SortInfo>) -> Seq<(Seq<char>, SortOrder)> {
    list.map_values(|info: SortInfo| (info.0@, info.1))
}

/// Whether a row group says what it is sorted by, in columns that it has.
pub open spec fn has_sort_order(row_group: RowGroupMetaData) -> bool {
    match row_group.sorting_columns {
        Some(sorting) => forall|i: int|
            0 <= i < sorting@.len() ==> 0 <= (#[trigger] sorting@[i]).column_idx < row_group.columns@.len(),
        None => false,
    }
}

/// What a row group is sorted by.
pub open spec fn row_group_order(row_group: RowGroupMetaData) -> Seq<(Seq<char>, SortOrder)> {
    row_group.sorting_columns->0@.map_values(
        |sorting: SortingColumn|
            (row_group.columns@[sorting.column_idx as int].path@, sorting_order(sorting)),
    )
}

/// What each row group is sorted by.
pub open spec fn row_group_orders(row_groups: Seq<RowGroupMetaData>) -> Seq<Seq<(Seq<char>, SortOrder)>> {
    row_groups.map_values(|row_group: RowGroupMetaData| row_group_order(row_group))
}

/// What a file is sorted by: that of its row groups where they all agree.
pub open spec fn common_order(orders: Seq<Seq<(Seq<char>, SortOrder)>>) -> Seq<(Seq<char>, SortOrder)> {
    if orders.len() > 0 && forall|i: int|
        0 <= i < orders.len() ==> #[trigger] orders[i] == orders.last() {
        orders.last()
    } else {
        Seq::empty()
    }
}

/// Whether a row group says what it is sorted by, in columns that it has.
pub(crate) fn says_sort_order(row_group: &RowGroupMetaData) -> (r: bool)
    ensures
        r == has_sort_order(*row_group),
{
    match &row_group.sorting_columns {
        Some(sorting) => {
            let mut i: usize = 0;
            while i < sorting.len()
                invariant
                    i <= sorting@.len(),
                    row_group.sorting_columns == Some(*sorting),
                    forall|j: int|
                        0 <= j < i ==> 0 <= (#[trigger] sorting@[j]).column_idx < row_group.columns@.len(),
                decreases sorting@.len() - i,
            {
                let idx = sorting[i].column_idx;
                if idx < 0 || idx as usize >= row_group.columns.len() {
                    assert(!(0 <= (row_group.sorting_columns->0)@[i as int].column_idx
                        < row_group.columns@.len()));
                    return false;
                }
                i = i + 1;
            }
            true
        },
        None => false,
    }
}

fn one_sort_order(row_group: &RowGroupMetaData) -> (r: Vec<SortInfo>)
    requires
        has_sort_order(*row_group),
    ensures
        sort_infos(r@) == row_group_order(*row_group),
{
    let mut r: Vec<SortInfo> = Vec::new();
    if let Some(sorting) = &row_group.sorting_columns {
        let mut i: usize = 0;
        while i < sorting.len()
            invariant
                i <= sorting@.len(),
                r@.len() == i,
                has_sort_order(*row_group),
                row_group.sorting_columns == Some(*sorting),
                forall|j: int| 0 <= j < i ==> sort_infos(r@)[j] == #[trigger] row_group_order(*row_group)[j],
            decreases sorting@.len() - i,
        {
            let column = sorting[i];
            assert(0 <= (row_group.sorting_columns->0)@[i as int].column_idx < row_group.columns@.len());
            let path = row_group.columns[column.column_idx as usize].path.clone();
            let order = match (column.descending, column.nulls_first) {
                (true, true) => SortOrder::DescNullsFirst,
                (true, false) => SortOrder::DescNullsLast,
                (false, true) => SortOrder::AscNullsFirst,
                (false, false) => SortOrder::AscNullsLast,
            };
            let ghost before = sort_infos(r@);
            r.push((path, order));
            assert(sort_infos(r@) =~= before.push((path@, order)));
            i = i + 1;
        }
        assert(sort_infos(r@) =~= row_group_order(*row_group));
    }
    r
}

/// What each row group is sorted by.
pub fn sort_order(row_groups: &[RowGroupMetaData]) -> (r: Vec<Vec<SortInfo>>)
    requires
        forall|i: int| 0 <= i < row_groups@.len() ==> has_sort_order(#[trigger] row_groups@[i]),
    ensures
        r@.map_values(|order: Vec<SortInfo>| sort_infos(order@)) == row_group_orders(row_groups@),
{
    let mut r: Vec<Vec<SortInfo>> = Vec::new();
    let mut i: usize = 0;
    while i < row_groups.len()
        invariant
            i <= row_groups@.len(),
            r@.len() == i,
            forall|j: int| 0 <= j < row_groups@.len() ==> has_sort_order(#[trigger] row_groups@[j]),
            forall|j: int| 0 <= j < i ==> sort_infos((#[trigger] r@[j])@) == row_group_order(row_groups@[j]),
        decreases row_groups@.len() - i,
    {
        r.push(one_sort_order(&row_groups[i]));
        i = i + 1;
    }
    r
}

fn same_order(a: &Vec<SortInfo>, b: &Vec<SortInfo>) -> (r: bool)
    ensures
        r == (sort_infos(a@) == sort_infos(b@)),
{
    if a.len() != b.len() {
        assert(sort_infos(a@).len() != sort_infos(b@).len());
        return false;
    }
    let mut i: usize = 0;
    while i < a.len()
        invariant
            i <= a@.len(),
            a@.len() == b@.len(),
            forall|j: int| 0 <= j < i ==> sort_infos(a@)[j] == sort_infos(b@)[j],
        decreases a@.len() - i,
    {
        if !str_same(a[i].0.as_str(), b[i].0.as_str()) || a[i].1 != b[i].1 {
            assert(sort_infos(a@)[i as int] != sort_infos(b@)[i as int]);
            return false;
        }
        i = i + 1;
    }
    assert(sort_infos(a@) =~= sort_infos(b@));
    true
}

/// What a file is sorted by: the order of its row groups where they all
/// agree, and no order otherwise.
pub fn file_sort_order(row_groups: &[RowGroupMetaData]) -> (r: Vec<SortInfo>)
    requires
        forall|i: int| 0 <= i < row_groups@.len() ==> has_sort_order(#[trigger] row_groups@[i]),
    ensures
        sort_infos(r@) == common_order(row_group_orders(row_groups@)),
{
    let mut orders = sort_order(row_groups);
    let ghost all = row_group_orders(row_groups@);
    let ghost listed = orders@;
    match orders.pop() {
        Some(last) => {
            proof {
                assert forall|j: int| 0 <= j < all.len() implies #[trigger] all[j] == sort_infos(listed[j]@) by {
                    assert(listed.map_values(|order: Vec<SortInfo>| sort_infos(order@))[j] == all[j]);
                }
                assert(all.len() == listed.len());
                assert(all.last() == sort_infos(last@));
            }
            let mut i: usize = 0;
            while i < orders.len()
                invariant
                    i <= orders@.len(),
                    all == row_group_orders(row_groups@),
                    all.len() == orders@.len() + 1,
                    all.last() == sort_infos(last@),
                    forall|j: int| 0 <= j < orders@.len() ==> #[trigger] all[j] == sort_infos(orders@[j]@),
                    forall|j: int| 0 <= j < i ==> #[trigger] all[j] == all.last(),
                decreases orders@.len() - i,
            {
                if !same_order(&orders[i], &last) {
                    assert(all[i as int] != all.last());
                    let none: Vec<SortInfo> = Vec::new();
                    assert(sort_infos(none@) =~= common_order(all));
                    return none;
                }
                i = i + 1;
            }
            last
        },
        None => {
            let none: Vec<SortInfo> = Vec::new();
            assert(listed.map_values(|order: Vec<SortInfo>| sort_infos(order@)).len() == 0);
            assert(sort_infos(none@) =~= common_order(all));
            none
        },
    }
}

// ---------------------------------------------------------------------------
// What is summed up
// ---------------------------------------------------------------------------

/// The chunks of a file are those of each of its row groups, in order.
pub proof fn chunks_are_those_of_the_row_groups(row_groups: Seq<RowGroupMetaData>, g: int, c: int)
    requires
        0 <= g < row_groups.len(),
        0 <= c < row_groups[g].columns@.len(),
    ensures
        all_chunks(row_groups).contains(row_groups[g].columns@[c]),
    decreases row_groups.len(),
{
    let shorter = row_groups.drop_last();
    let front = all_chunks(shorter);
    let chunk = row_groups[g].columns@[c];
    if g < shorter.len() {
        chunks_are_those_of_the_row_groups(shorter, g, c);
        let i = front.index_of(chunk);
        assert(all_chunks(row_groups)[i] == chunk);
    } else {
        assert(all_chunks(row_groups)[front.len() + c] == chunk);
    }
}

/// The chunks of a column are those of its path, in order.
pub proof fn own_chunks_are_those_of_the_path(chunks: Seq<ColumnChunk>, path: Seq<char>)
    ensures
        own_chunks(chunks, path) == chunks.filter(|chunk: ColumnChunk| chunk.path@ == path),
    decreases chunks.len(),
{
    reveal(Seq::filter);
    if chunks.len() > 0 {
        own_chunks_are_those_of_the_path(chunks.drop_last(), path);
    }
}

/// The sizes of chunks are those of each of them, added up.
pub proof fn sizes_are_added_up(chunks: Seq<ColumnChunk>)
    ensures
        compressed_total(chunks) == chunks.fold_left(
            0int,
            |sum: int, chunk: ColumnChunk| sum + chunk.compressed_size,
        ),
        uncompressed_total(chunks) == chunks.fold_left(
            0int,
            |sum: int, chunk: ColumnChunk| sum + chunk.uncompressed_size,
        ),
    decreases chunks.len(),
{
    if chunks.len() > 0 {
        sizes_are_added_up(chunks.drop_last());
    }
}

/// A sort order says for itself whether it descends and whether nulls come
/// first.
pub proof fn sort_order_keeps_its_directions(sorting: SortingColumn)
    ensures
        sorting_order(sorting) is DescNullsFirst || sorting_order(sorting) is DescNullsLast
            <==> sorting.descending,
        sorting_order(sorting) is DescNullsFirst || sorting_order(sorting) is AscNullsFirst
            <==> sorting.nulls_first,
{
}

/// A file is sorted as its row groups are where they agree, and in no order
/// where two of them differ or there are none.
pub proof fn file_is_sorted_where_its_row_groups_agree(row_groups: Seq<RowGroupMetaData>, i: int, j: int)
    ensures
        ({
            let order = common_order(row_group_orders(row_groups));
            &&& row_groups.len() == 0 ==> order.len() == 0
            &&& 0 <= i < row_groups.len() && 0 <= j < row_groups.len() && row_group_order(row_groups[i])
                != row_group_order(row_groups[j]) ==> order.len() == 0
            &&& row_groups.len() > 0 && (forall|g: int|
                0 <= g < row_groups.len() ==> row_group_order(#[trigger] row_groups[g]) == row_group_order(
                    row_groups[0],
                )) ==> order == row_group_order(row_groups[0])
        }),
{
    let orders = row_group_orders(row_groups);
    if row_groups.len() > 0 && (forall|g: int|
        0 <= g < row_groups.len() ==> row_group_order(#[trigger] row_groups[g]) == row_group_order(row_groups[0])) {
        assert forall|g: int| 0 <= g < orders.len() implies #[trigger] orders[g] == orders.last() by {
            assert(orders[g] == row_group_order(row_groups[g]));
            assert(orders.last() == row_group_order(row_groups[row_groups.len() - 1]));
        }
        assert(orders.last() == row_group_order(row_groups[row_groups.len() - 1]));
    }
    if 0 <= i < row_groups.len() && 0 <= j < row_groups.len() && row_group_order(row_groups[i])
        != row_group_order(row_groups[j]) {
        assert(orders[i] == row_group_order(row_groups[i]));
        assert(orders[j] == row_group_order(row_groups[j]));
    }
}

/// A row group is sorted by the paths that its sorting columns point to, in
/// their order.
pub proof fn row_group_is_sorted_by_its_columns(row_group: RowGroupMetaData, i: int)
    requires
        row_group.sorting_columns matches Some(sorting) && 0 <= i < sorting@.len(),
    ensures
        ({
            let sorting = row_group.sorting_columns->0@;
            let order = row_group_order(row_group);
            &&& order.len() == sorting.len()
            &&& order[i].0 == row_group.columns@[sorting[i].column_idx as int].path@
            &&& order[i].1 is DescNullsFirst || order[i].1 is DescNullsLast <==> sorting[i].descending
            &&& order[i].1 is DescNullsFirst || order[i].1 is AscNullsFirst <==> sorting[i].nulls_first
        }),
{
}

} // verus!
