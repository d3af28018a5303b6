//! Indexes over the values of columns, built batch by batch.
use std::collections::BTreeSet;
use vstd::prelude::*;

use crate::catalog::array::{
    cell_reading, cell_text, exact_value_from_array, float_reading_from_array, string_value_from_array, Array, Cell, NamedArray, RecordBatch,
};
use crate::catalog::column::{exact_value_hash, text_hash, ExactHashes, ExactValues, TextNgrams};
use crate::float::FloatBits;
use crate::grams::{grams, insert_lowercase_pruning_ngrams, lemma_grams_are_finite};
use crate::terms::{lists_numbers, lists_texts, numbers_in_order, ReadTermSet, TermSet};
use crate::text::{lowercase, str_same, texts};

verus! {

// ---------------------------------------------------------------------------
// What an index holds
// ---------------------------------------------------------------------------

/// The cells of a column over a list of arrays, as an index of exact values
/// reads them.
pub open spec fn column_cells(arrays: Seq<NamedArray>, name: Seq<char>) -> Seq<Cell>
    decreases arrays.len(),
{
    if arrays.len() == 0 {
        Seq::empty()
    } else if arrays.last().name@ == name {
        column_cells(arrays.drop_last(), name) + arrays.last().array.cells()
    } else {
        column_cells(arrays.drop_last(), name)
    }
}

/// The cells of a column over a list of arrays, as a text index reads them.
pub open spec fn column_text_cells(arrays: Seq<NamedArray>, name: Seq<char>) -> Seq<Cell>
    decreases arrays.len(),
{
    if arrays.len() == 0 {
        Seq::empty()
    } else if arrays.last().name@ == name {
        column_text_cells(arrays.drop_last(), name) + arrays.last().array.text_only_cells()
    } else {
        column_text_cells(arrays.drop_last(), name)
    }
}

/// Whether a column is among the arrays.
pub open spec fn column_appears(arrays: Seq<NamedArray>, name: Seq<char>) -> bool {
    exists|i: int| 0 <= i < arrays.len() && (#[trigger] arrays[i]).name@ == name
}

/// The arrays of a list of batches, in order.
pub open spec fn all_arrays(batches: Seq<RecordBatch>) -> Seq<NamedArray>
    decreases batches.len(),
{
    if batches.len() == 0 {
        Seq::empty()
    } else {
        all_arrays(batches.drop_last()) + batches.last().columns@
    }
}

/// Whether no cell has a value that the index does not read.
pub open spec fn all_cells_readable(cells: Seq<Cell>) -> bool {
    forall|i: int| 0 <= i < cells.len() ==> !(#[trigger] cells[i] is Unreadable)
}

/// The distinct values of the cells.
pub open spec fn value_set(cells: Seq<Cell>) -> Set<Seq<char>>
    decreases cells.len(),
{
    if cells.len() == 0 {
        Set::empty()
    } else {
        match cells.last() {
            Cell::Value(t, _) => value_set(cells.drop_last()).insert(t),
            _ => value_set(cells.drop_last()),
        }
    }
}

/// The double that a value of the cells reads as, where that is known: what the
/// first cell of that value says.
pub open spec fn reading_in(cells: Seq<Cell>, text: Seq<char>) -> Option<FloatBits>
    decreases cells.len(),
{
    if cells.len() == 0 {
        None
    } else if value_set(cells.drop_last()).contains(text) {
        reading_in(cells.drop_last(), text)
    } else {
        cell_reading(cells.last())
    }
}

/// The hashes of the values of the cells.
pub open spec fn hash_set(cells: Seq<Cell>) -> Set<u64>
    decreases cells.len(),
{
    if cells.len() == 0 {
        Set::empty()
    } else {
        match cells.last() {
            Cell::Value(t, _) => hash_set(cells.drop_last()).insert(text_hash(t)),
            _ => hash_set(cells.drop_last()),
        }
    }
}

/// The grams of the values of the cells, in lowercase.
pub open spec fn gram_set(cells: Seq<Cell>) -> Set<Seq<char>>
    decreases cells.len(),
{
    if cells.len() == 0 {
        Set::empty()
    } else {
        match cells.last() {
            Cell::Value(t, _) => gram_set(cells.drop_last()).union(grams(lowercase(t))),
            _ => gram_set(cells.drop_last()),
        }
    }
}

/// Whether the distinct values can be listed in full: all are readable, and
/// there are no more of them than allowed. Under a limit of zero none are.
pub open spec fn values_fit(cells: Seq<Cell>, max_values: usize) -> bool {
    max_values > 0 && all_cells_readable(cells) && value_set(cells).len() <= max_values
}

/// Whether the hashes can be listed in full: all values are readable, and there
/// are no more hashes than allowed. Under a limit of zero none are.
pub open spec fn hashes_fit(cells: Seq<Cell>, max_hashes: usize) -> bool {
    max_hashes > 0 && all_cells_readable(cells) && hash_set(cells).len() <= max_hashes
}

/// Whether the grams can be listed in full: all values are text, and there are
/// no more grams than allowed.
pub open spec fn grams_fit(cells: Seq<Cell>, max_terms: usize) -> bool {
    all_cells_readable(cells) && gram_set(cells).len() <= max_terms
}

/// The distinct texts of a list, in the order of their first occurrence.
pub open spec fn distinct(list: Seq<Seq<char>>) -> Seq<Seq<char>>
    decreases list.len(),
{
    if list.len() == 0 {
        Seq::empty()
    } else if distinct(list.drop_last()).contains(list.last()) {
        distinct(list.drop_last())
    } else {
        distinct(list.drop_last()).push(list.last())
    }
}

proof fn lemma_sets_grow(cells: Seq<Cell>, more: Seq<Cell>)
    ensures
        value_set(cells).finite(),
        hash_set(cells).finite(),
        value_set(cells).subset_of(value_set(cells + more)),
        hash_set(cells).subset_of(hash_set(cells + more)),
        gram_set(cells).subset_of(gram_set(cells + more)),
    decreases cells.len() + more.len(),
{
    if more.len() > 0 {
        lemma_sets_grow(cells, more.drop_last());
        assert((cells + more).drop_last() =~= cells + more.drop_last());
    } else {
        assert(cells + more =~= cells);
        if cells.len() > 0 {
            lemma_sets_grow(cells.drop_last(), Seq::empty());
        }
    }
}

/// An index that has left something out stays incomplete.
proof fn lemma_fit_is_monotone(cells: Seq<Cell>, more: Seq<Cell>, max: usize)
    ensures
        values_fit(cells + more, max) ==> values_fit(cells, max),
        hashes_fit(cells + more, max) ==> hashes_fit(cells, max),
        gram_set(cells + more).finite() && grams_fit(cells + more, max) ==> grams_fit(cells, max),
{
    lemma_sets_grow(cells, more);
    lemma_sets_grow(cells + more, Seq::empty());
    assert forall|i: int| 0 <= i < cells.len() && all_cells_readable(cells + more) implies !(
    #[trigger] cells[i] is Unreadable) by {
        assert((cells + more)[i] == cells[i]);
    }
    vstd::set_lib::lemma_len_subset(value_set(cells), value_set(cells + more));
    vstd::set_lib::lemma_len_subset(hash_set(cells), hash_set(cells + more));
    if gram_set(cells + more).finite() {
        vstd::set_lib::lemma_len_subset(gram_set(cells), gram_set(cells + more));
    }
}

pub(crate) proof fn lemma_distinct_has_no_duplicates(list: Seq<Seq<char>>)
    ensures
        distinct(list).no_duplicates(),
    decreases list.len(),
{
    if list.len() > 0 {
        lemma_distinct_has_no_duplicates(list.drop_last());
    }
}

proof fn lemma_gram_set_is_finite(cells: Seq<Cell>)
    ensures
        gram_set(cells).finite(),
    decreases cells.len(),
{
    if cells.len() > 0 {
        lemma_gram_set_is_finite(cells.drop_last());
        if let Cell::Value(t, _) = cells.last() {
            lemma_grams_are_finite(lowercase(t));
        }
    }
}

// ---------------------------------------------------------------------------
// Exact values
// ---------------------------------------------------------------------------

/// The indexes of exact values over one column; `None` where an index would
/// not be complete.
#[derive(Debug)]
pub struct ExactIndexData {
    pub values: Option<ExactValues>,
    pub hashes: Option<ExactHashes>,
}

/// Whether an index lists the distinct values of the cells with what they read
/// as, or is left out because they do not fit.
pub open spec fn lists_values(index: Option<ExactValues>, cells: Seq<Cell>, max_values: usize) -> bool {
    match index {
        Some(exact) => {
            &&& values_fit(cells, max_values)
            &&& exact.complete
            &&& lists_texts(exact.values@, value_set(cells))
            &&& exact.floats@.len() == exact.values@.len()
            &&& forall|i: int|
                0 <= i < exact.floats@.len() ==> #[trigger] exact.floats@[i] == reading_in(
                    cells,
                    exact.texts()[i],
                )
        },
        None => !values_fit(cells, max_values),
    }
}

/// Whether an index lists the hashes of the values of the cells, or is left out
/// because they do not fit.
pub open spec fn lists_hashes(index: Option<ExactHashes>, cells: Seq<Cell>, max_hashes: usize) -> bool {
    match index {
        Some(exact) => {
            &&& hashes_fit(cells, max_hashes)
            &&& exact.complete
            &&& lists_numbers(exact.hashes@, hash_set(cells))
        },
        None => !hashes_fit(cells, max_hashes),
    }
}

/// The distinct values of the cells, each with what it reads as.
spec fn read_values(cells: Seq<Cell>) -> Map<Seq<char>, Option<FloatBits>> {
    Map::new(|t: Seq<char>| value_set(cells).contains(t), |t: Seq<char>| reading_in(cells, t))
}

proof fn lemma_read_values_grow(cells: Seq<Cell>, next: Cell)
    ensures
        read_values(cells.push(next)) == match next {
            Cell::Value(t, reading) => if read_values(cells).contains_key(t) {
                read_values(cells)
            } else {
                read_values(cells).insert(t, reading)
            },
            _ => read_values(cells),
        },
        read_values(cells).dom() == value_set(cells),
{
    let longer = cells.push(next);
    assert(longer.drop_last() =~= cells);
    assert(longer.last() == next);
    assert(read_values(cells).dom() =~= value_set(cells));
    match next {
        Cell::Value(t, reading) => {
            if read_values(cells).contains_key(t) {
                assert(read_values(longer) =~= read_values(cells));
            } else {
                assert(read_values(longer) =~= read_values(cells).insert(t, reading));
            }
        },
        _ => {
            assert(read_values(longer) =~= read_values(cells));
        },
    }
}

/// What is held of one column while its indexes are built.
struct FieldIndex {
    name: String,
    values: ReadTermSet,
    hashes: BTreeSet<u64>,
    values_complete: bool,
    hashes_complete: bool,
    seen: bool,
}

impl FieldIndex {
    spec fn reflects(self, cells: Seq<Cell>, max_values: usize, max_hashes: usize) -> bool {
        &&& self.values.wf()
        &&& self.values_complete == values_fit(cells, max_values)
        &&& self.values_complete ==> self.values@ == read_values(cells)
        &&& self.hashes_complete == hashes_fit(cells, max_hashes)
        &&& self.hashes_complete ==> self.hashes@ == hash_set(cells)
    }

    fn new(name: &str, max_values: usize, max_hashes: usize) -> (r: FieldIndex)
        ensures
            r.name@ == name@,
            !r.seen,
            r.reflects(Seq::empty(), max_values, max_hashes),
    {
        assert(read_values(Seq::empty()) =~= Map::<Seq<char>, Option<FloatBits>>::empty());
        FieldIndex {
            name: name.to_string(),
            values: ReadTermSet::new(),
            hashes: BTreeSet::new(),
            values_complete: max_values > 0,
            hashes_complete: max_hashes > 0,
            seen: false,
        }
    }

    /// Takes the cells of an array into the indexes that are still complete.
    /// An index that is not complete stays as it is.
    fn collect_exact_indexes(
        &mut self,
        array: &Array,
        max_values: usize,
        max_hashes: usize,
        Ghost(cells): Ghost<Seq<Cell>>,
    )
        requires
            old(self).reflects(cells, max_values, max_hashes),
        ensures
            final(self).reflects(cells + array.cells(), max_values, max_hashes),
            !old(self).values_complete ==> final(self).values == old(self).values,
            !old(self).hashes_complete ==> final(self).hashes == old(self).hashes,
            final(self).name == old(self).name,
            final(self).seen == old(self).seen,
    {
        let ghost added = array.cells();
        let n = array.len();
        let mut idx: usize = 0;
        assert(cells + added.take(0) =~= cells);
        while idx < n
            invariant
                idx <= n,
                n == array.spec_len(),
                added == array.cells(),
                self.reflects(cells + added.take(idx as int), max_values, max_hashes),
                !old(self).values_complete ==> !self.values_complete && self.values == old(self).values,
                !old(self).hashes_complete ==> !self.hashes_complete && self.hashes == old(self).hashes,
                self.name == old(self).name,
                self.seen == old(self).seen,
            decreases n - idx,
        {
            let ghost before = cells + added.take(idx as int);
            let ghost after = cells + added.take(idx + 1);
            proof {
                assert(after.drop_last() =~= before);
                assert(after.last() == added[idx as int]);
                assert(after =~= before + seq![added[idx as int]]);
                lemma_fit_is_monotone(before, seq![added[idx as int]], max_values);
                lemma_fit_is_monotone(before, seq![added[idx as int]], max_hashes);
                lemma_sets_grow(before, seq![added[idx as int]]);
                lemma_read_values_grow(before, added[idx as int]);
                lemma_read_values_grow(after, added[idx as int]);
                assert(before.push(added[idx as int]) =~= after);
                assert(all_cells_readable(after) <==> all_cells_readable(before) && !(added[idx as int]
                    is Unreadable)) by {
                    assert forall|i: int| 0 <= i < before.len() implies after[i] == before[i] by {}
                    assert(after[before.len() as int] == added[idx as int]);
                    if all_cells_readable(after) {
                        assert forall|i: int| 0 <= i < before.len() implies !(#[trigger] before[i] is Unreadable) by {
                            assert(after[i] == before[i]);
                        }
                    }
                }
            }
            if !self.values_complete && !self.hashes_complete {
                proof {
                    assert((cells + added) =~= before + added.skip(idx as int));
                    lemma_fit_is_monotone(before, added.skip(idx as int), max_values);
                    lemma_fit_is_monotone(before, added.skip(idx as int), max_hashes);
                }
                return;
            }
            if !array.is_null(idx) {
                match exact_value_from_array(array, idx) {
                    None => {
                        self.values_complete = false;
                        self.hashes_complete = false;
                        proof {
                            assert(added[idx as int] is Unreadable);
                        }
                    },
                    Some(value) => {
                        if self.hashes_complete {
                            self.hashes.insert(exact_value_hash(value.as_str()));
                            if self.hashes.len() > max_hashes {
                                self.hashes.clear();
                                self.hashes_complete = false;
                            }
                        }
                        if self.values_complete {
                            let reading = float_reading_from_array(array, idx);
                            self.values.insert(value, reading);
                            assert(self.values@ == read_values(after));
                            if self.values.len() > max_values {
                                self.values.clear();
                                self.values_complete = false;
                            }
                        }
                    },
                }
            }
            idx = idx + 1;
        }
        assert(added.take(idx as int) =~= added);
    }

    /// The indexes that are complete.
    fn finish(self, Ghost(cells): Ghost<Seq<Cell>>, Ghost(max_values): Ghost<usize>, Ghost(max_hashes): Ghost<usize>) -> (r:
        (String, ExactIndexData))
        requires
            self.reflects(cells, max_values, max_hashes),
        ensures
            r.0 == self.name,
            lists_values(r.1.values, cells, max_values),
            lists_hashes(r.1.hashes, cells, max_hashes),
    {
        let values = if self.values_complete {
            assert(read_values(cells).dom() =~= value_set(cells));
            let (values, floats) = self.values.into_vecs();
            proof {
                assert forall|i: int| 0 <= i < values@.len() implies value_set(cells).contains(
                    #[trigger] texts(values@)[i],
                ) by {
                    assert(texts(values@).to_set().contains(texts(values@)[i]));
                }
            }
            Some(ExactValues { complete: true, values, floats })
        } else {
            None
        };
        let hashes = if self.hashes_complete {
            Some(ExactHashes { complete: true, hashes: numbers_in_order(&self.hashes) })
        } else {
            None
        };
        (self.name, ExactIndexData { values, hashes })
    }
}

/// Whether a column gets an index of exact values, by values or by hashes.
pub open spec fn exactly_indexed(
    arrays: Seq<NamedArray>,
    name: Seq<char>,
    max_values: usize,
    max_hashes: usize,
) -> bool {
    let cells = column_cells(arrays, name);
    column_appears(arrays, name) && (values_fit(cells, max_values) || hashes_fit(cells, max_hashes))
}

/// The names of a list of entries.
pub open spec fn entry_names<T>(entries: Seq<(String, T)>) -> Seq<Seq<char>> {
    entries.map_values(|e: (String, T)| e.0@)
}

/// Whether the entries are the indexes of exact values over the arrays: one
/// for each of the fields that gets one, in the order of the fields.
pub open spec fn exact_indexes_of(
    entries: Seq<(String, ExactIndexData)>,
    fields: Seq<Seq<char>>,
    arrays: Seq<NamedArray>,
    max_values: usize,
    max_hashes: usize,
) -> bool {
    &&& entry_names(entries) == distinct(fields).filter(
        |name: Seq<char>| exactly_indexed(arrays, name, max_values, max_hashes),
    )
    &&& forall|k: int|
        0 <= k < entries.len() ==> {
            let cells = column_cells(arrays, (#[trigger] entries[k]).0@);
            &&& lists_values(entries[k].1.values, cells, max_values)
            &&& lists_hashes(entries[k].1.hashes, cells, max_hashes)
        }
}

/// Builds the indexes of exact values over some columns of a file, batch by
/// batch.
pub struct ExactIndexBuilder {
    fields: Vec<FieldIndex>,
    max_values: usize,
    max_hashes: usize,
    names: Ghost<Seq<Seq<char>>>,
    arrays: Ghost<Seq<NamedArray>>,
}

impl View for ExactIndexBuilder {
    type V = Seq<NamedArray>;

    /// The arrays that have been taken in.
    closed spec fn view(&self) -> Seq<NamedArray> {
        self.arrays@
    }
}

impl ExactIndexBuilder {
    /// The columns to index.
    pub closed spec fn names(&self) -> Seq<Seq<char>> {
        self.names@
    }

    /// The most values that an index lists.
    pub closed spec fn value_limit(&self) -> usize {
        self.max_values
    }

    /// The most hashes that an index lists.
    pub closed spec fn hash_limit(&self) -> usize {
        self.max_hashes
    }

    spec fn field_names(fields: Seq<FieldIndex>) -> Seq<Seq<char>> {
        fields.map_values(|f: FieldIndex| f.name@)
    }

    /// Whether what is held of each column reflects the arrays taken in.
    pub closed spec fn wf(&self) -> bool {
        &&& Self::field_names(self.fields@) == distinct(self.names@)
        &&& forall|k: int|
            0 <= k < self.fields@.len() ==> {
                let f = #[trigger] self.fields@[k];
                &&& f.reflects(column_cells(self.arrays@, f.name@), self.max_values, self.max_hashes)
                &&& f.seen == column_appears(self.arrays@, f.name@)
            }
    }

    fn position(fields: &Vec<FieldIndex>, name: &str) -> (r: Option<usize>)
        ensures
            match r {
                Some(k) => k < fields@.len() && fields@[k as int].name@ == name@,
                None => forall|k: int| 0 <= k < fields@.len() ==> (#[trigger] fields@[k]).name@ != name@,
            },
    {
        let mut k: usize = 0;
        while k < fields.len()
            invariant
                k <= fields@.len(),
                forall|j: int| 0 <= j < k ==> (#[trigger] fields@[j]).name@ != name@,
            decreases fields@.len() - k,
        {
            if str_same(fields[k].name.as_str(), name) {
                return Some(k);
            }
            k = k + 1;
        }
        None
    }

    /// A builder that has taken in nothing.
    pub fn new(fields: &[String], max_values: usize, max_hashes: usize) -> (r: ExactIndexBuilder)
        ensures
            r.wf(),
            r@ == Seq::<NamedArray>::empty(),
            r.names() == texts(fields@),
            r.value_limit() == max_values,
            r.hash_limit() == max_hashes,
    {
        let ghost all = texts(fields@);
        let mut list: Vec<FieldIndex> = Vec::new();
        let mut i: usize = 0;
        assert(Self::field_names(list@) =~= distinct(all.take(0)));
        while i < fields.len()
            invariant
                i <= fields@.len(),
                all == texts(fields@),
                Self::field_names(list@) == distinct(all.take(i as int)),
                forall|k: int|
                    0 <= k < list@.len() ==> {
                        let f = #[trigger] list@[k];
                        &&& f.reflects(Seq::empty(), max_values, max_hashes)
                        &&& !f.seen
                    },
            decreases fields@.len() - i,
        {
            let ghost names = Self::field_names(list@);
            proof {
                assert(all.take(i + 1).drop_last() =~= all.take(i as int));
                assert(all.take(i + 1).last() == fields@[i as int]@);
            }
            match Self::position(&list, fields[i].as_str()) {
                Some(k) => {
                    assert(names[k as int] == fields@[i as int]@);
                },
                None => {
                    proof {
                        if names.contains(fields@[i as int]@) {
                            let k = choose|k: int| 0 <= k < names.len() && names[k] == fields@[i as int]@;
                            assert(list@[k].name@ == fields@[i as int]@);
                        }
                    }
                    list.push(FieldIndex::new(fields[i].as_str(), max_values, max_hashes));
                    assert(Self::field_names(list@) =~= names.push(fields@[i as int]@));
                },
            }
            i = i + 1;
        }
        assert(all.take(i as int) =~= all);
        ExactIndexBuilder {
            fields: list,
            max_values,
            max_hashes,
            names: Ghost(all),
            arrays: Ghost(Seq::empty()),
        }
    }

    /// Takes in one column of a batch.
    pub fn add_array(&mut self, named: &NamedArray)
        requires
            old(self).wf(),
        ensures
            final(self).wf(),
            final(self)@ == old(self)@.push(*named),
            final(self).names() == old(self).names(),
            final(self).value_limit() == old(self).value_limit(),
            final(self).hash_limit() == old(self).hash_limit(),
    {
        let ghost before = self.arrays@;
        let ghost after = before.push(*named);
        let ghost held = self.fields@;
        proof {
            assert(after.drop_last() =~= before);
            assert(after.last() == *named);
            assert forall|name: Seq<char>| #[trigger] column_appears(after, name) <==> column_appears(before, name)
                || named.name@ == name by {
                if column_appears(before, name) {
                    let i = choose|i: int| 0 <= i < before.len() && (#[trigger] before[i]).name@ == name;
                    assert(after[i].name@ == name);
                }
                if named.name@ == name {
                    assert(after[before.len() as int].name@ == name);
                }
                if column_appears(after, name) {
                    let i = choose|i: int| 0 <= i < after.len() && (#[trigger] after[i]).name@ == name;
                    if i < before.len() {
                        assert(before[i].name@ == name);
                    }
                }
            }
        }
        match Self::position(&self.fields, named.name.as_str()) {
            Some(k) => {
                let max_values = self.max_values;
                let max_hashes = self.max_hashes;
                let ghost cells = column_cells(before, named.name@);
                let field = &mut self.fields[k];
                field.seen = true;
                field.collect_exact_indexes(&named.array, max_values, max_hashes, Ghost(cells));
                proof {
                    lemma_distinct_has_no_duplicates(self.names@);
                    assert(Self::field_names(self.fields@) =~= Self::field_names(held));
                    assert forall|j: int| 0 <= j < self.fields@.len() && j != k implies (
                    #[trigger] self.fields@[j]).name@ != named.name@ by {
                        assert(Self::field_names(held)[j] != Self::field_names(held)[k as int]);
                    }
                }
            },
            None => {},
        }
        self.arrays = Ghost(after);
    }

    /// Takes in a batch of rows.
    pub fn add_batch(&mut self, batch: &RecordBatch)
        requires
            old(self).wf(),
        ensures
            final(self).wf(),
            final(self)@ == old(self)@ + batch.columns@,
            final(self).names() == old(self).names(),
            final(self).value_limit() == old(self).value_limit(),
            final(self).hash_limit() == old(self).hash_limit(),
    {
        let mut i: usize = 0;
        let ghost before = self@;
        assert(before + batch.columns@.take(0) =~= before);
        while i < batch.columns.len()
            invariant
                i <= batch.columns@.len(),
                self.wf(),
                self@ == before + batch.columns@.take(i as int),
                self.names() == old(self).names(),
                self.value_limit() == old(self).value_limit(),
                self.hash_limit() == old(self).hash_limit(),
            decreases batch.columns@.len() - i,
        {
            self.add_array(&batch.columns[i]);
            assert(self@ =~= before + batch.columns@.take(i + 1));
            i = i + 1;
        }
        assert(batch.columns@.take(i as int) =~= batch.columns@);
    }

    /// The indexes over what has been taken in.
    pub fn finish(self) -> (r: Vec<(String, ExactIndexData)>)
        requires
            self.wf(),
        ensures
            exact_indexes_of(r@, self.names(), self@, self.value_limit(), self.hash_limit()),
    {
        let ghost all = distinct(self.names@);
        let ghost arrays = self.arrays@;
        let ghost max_values = self.max_values;
        let ghost max_hashes = self.max_hashes;
        let ghost chosen = |name: Seq<char>| exactly_indexed(arrays, name, max_values, max_hashes);
        let ghost held = self.fields@;
        let mut r: Vec<(String, ExactIndexData)> = Vec::new();
        proof {
            assert(Self::field_names(held) == all);
            assert(all.take(0).filter(chosen) =~= Seq::<Seq<char>>::empty()) by {
                reveal(Seq::filter);
            }
            assert(entry_names(r@) =~= Seq::<Seq<char>>::empty());
        }
        for field in it: self.fields
            invariant
                it.seq() == held,
                Self::field_names(held) == all,
                forall|k: int|
                    0 <= k < held.len() ==> {
                        let f = #[trigger] held[k];
                        &&& f.reflects(column_cells(arrays, f.name@), max_values, max_hashes)
                        &&& f.seen == column_appears(arrays, f.name@)
                    },
                chosen == (|name: Seq<char>| exactly_indexed(arrays, name, max_values, max_hashes)),
                entry_names(r@) == all.take(it.index()).filter(chosen),
                forall|k: int|
                    0 <= k < r@.len() ==> {
                        let cells = column_cells(arrays, (#[trigger] r@[k]).0@);
                        &&& lists_values(r@[k].1.values, cells, max_values)
                        &&& lists_hashes(r@[k].1.hashes, cells, max_hashes)
                    },
        {
            let ghost cells = column_cells(arrays, field.name@);
            let ghost done = all.take(it.index());
            let ghost entries = entry_names(r@);
            proof {
                assert(field == held[it.index()]);
                assert(all[it.index()] == field.name@);
                assert(all.take(it.index() + 1) =~= done.push(field.name@));
                assert(done.push(field.name@).drop_last() =~= done);
                reveal(Seq::filter);
            }
            if field.seen && (field.values_complete || field.hashes_complete) {
                r.push(field.finish(Ghost(cells), Ghost(max_values), Ghost(max_hashes)));
                assert(entry_names(r@) =~= entries.push(field.name@));
            }
        }
        proof {
            assert(all.take(all.len() as int) =~= all);
        }
        r
    }
}

// ---------------------------------------------------------------------------
// Text
// ---------------------------------------------------------------------------

/// Whether an index lists the grams of the values of the cells.
pub open spec fn lists_grams(index: TextNgrams, cells: Seq<Cell>) -> bool {
    &&& index.complete
    &&& index.min_len == 1
    &&& lists_texts(index.grams@, gram_set(cells))
}

/// Whether a column gets a text index.
pub open spec fn text_indexed(arrays: Seq<NamedArray>, name: Seq<char>, max_terms: usize) -> bool {
    column_appears(arrays, name) && grams_fit(column_text_cells(arrays, name), max_terms)
}

/// Whether the entries are the text indexes over the arrays: one for each of
/// the fields that gets one, in the order of the fields.
pub open spec fn text_indexes_of(
    entries: Seq<(String, TextNgrams)>,
    fields: Seq<Seq<char>>,
    arrays: Seq<NamedArray>,
    max_terms: usize,
) -> bool {
    &&& entry_names(entries) == distinct(fields).filter(
        |name: Seq<char>| text_indexed(arrays, name, max_terms),
    )
    &&& forall|k: int|
        0 <= k < entries.len() ==> lists_grams(
            (#[trigger] entries[k]).1,
            column_text_cells(arrays, entries[k].0@),
        )
}

/// What is held of one column while its text index is built.
struct TextFieldIndex {
    name: String,
    grams: TermSet,
    complete: bool,
    seen: bool,
}

impl TextFieldIndex {
    spec fn reflects(self, cells: Seq<Cell>, max_terms: usize) -> bool {
        &&& self.grams.wf()
        &&& self.complete == grams_fit(cells, max_terms)
        &&& self.complete ==> self.grams@ == gram_set(cells)
    }

    fn new(name: &str) -> (r: TextFieldIndex)
        ensures
            r.name@ == name@,
            !r.seen,
            forall|max_terms: usize| #[trigger] r.reflects(Seq::empty(), max_terms),
    {
        TextFieldIndex { name: name.to_string(), grams: TermSet::new(), complete: true, seen: false }
    }

    /// Takes the texts of an array into the index while it is complete.
    fn collect_text_ngrams(&mut self, array: &Array, max_terms: usize, Ghost(cells): Ghost<Seq<Cell>>)
        requires
            old(self).reflects(cells, max_terms),
        ensures
            final(self).reflects(cells + array.text_only_cells(), max_terms),
            !old(self).complete ==> final(self).grams == old(self).grams,
            final(self).name == old(self).name,
            final(self).seen == old(self).seen,
    {
        let ghost added = array.text_only_cells();
        let n = array.len();
        let mut idx: usize = 0;
        assert(cells + added.take(0) =~= cells);
        while idx < n
            invariant
                idx <= n,
                n == array.spec_len(),
                added == array.text_only_cells(),
                self.reflects(cells + added.take(idx as int), max_terms),
                !old(self).complete ==> !self.complete && self.grams == old(self).grams,
                self.name == old(self).name,
                self.seen == old(self).seen,
            decreases n - idx,
        {
            let ghost before = cells + added.take(idx as int);
            let ghost after = cells + added.take(idx + 1);
            let ghost next = added[idx as int];
            proof {
                assert(after.drop_last() =~= before);
                assert(after.last() == next);
                assert(after =~= before + seq![next]);
                lemma_gram_set_is_finite(before);
                lemma_gram_set_is_finite(after);
                lemma_fit_is_monotone(before, seq![next], max_terms);
                assert(all_cells_readable(after) <==> all_cells_readable(before) && !(next is Unreadable)) by {
                    assert(after[before.len() as int] == next);
                    if all_cells_readable(after) {
                        assert forall|i: int| 0 <= i < before.len() implies !(#[trigger] before[i] is Unreadable) by {
                            assert(after[i] == before[i]);
                        }
                    }
                }
            }
            if !self.complete {
                proof {
                    assert((cells + added) =~= before + added.skip(idx as int));
                    lemma_gram_set_is_finite(cells + added);
                    lemma_fit_is_monotone(before, added.skip(idx as int), max_terms);
                }
                return;
            }
            if !array.is_null(idx) {
                match string_value_from_array(array, idx) {
                    None => {
                        self.complete = false;
                        assert(next is Unreadable);
                    },
                    Some(value) => {
                        insert_lowercase_pruning_ngrams(value.as_str(), &mut self.grams);
                        if self.grams.len() > max_terms {
                            self.grams.clear();
                            self.complete = false;
                        }
                    },
                }
            }
            idx = idx + 1;
        }
        assert(added.take(idx as int) =~= added);
    }

    /// The index, which is complete.
    fn finish(self, Ghost(cells): Ghost<Seq<Cell>>, Ghost(max_terms): Ghost<usize>) -> (r: (String, TextNgrams))
        requires
            self.reflects(cells, max_terms),
            self.complete,
        ensures
            r.0 == self.name,
            lists_grams(r.1, cells),
    {
        (self.name, TextNgrams { complete: true, min_len: 1, grams: self.grams.into_vec() })
    }
}

/// Builds the text indexes over some columns of a file, batch by batch.
pub struct TextIndexBuilder {
    fields: Vec<TextFieldIndex>,
    max_terms: usize,
    names: Ghost<Seq<Seq<char>>>,
    arrays: Ghost<Seq<NamedArray>>,
}

impl View for TextIndexBuilder {
    type V = Seq<NamedArray>;

    /// The arrays that have been taken in.
    closed spec fn view(&self) -> Seq<NamedArray> {
        self.arrays@
    }
}

impl TextIndexBuilder {
    /// The columns to index.
    pub closed spec fn names(&self) -> Seq<Seq<char>> {
        self.names@
    }

    /// The most grams that an index lists.
    pub closed spec fn term_limit(&self) -> usize {
        self.max_terms
    }

    spec fn field_names(fields: Seq<TextFieldIndex>) -> Seq<Seq<char>> {
        fields.map_values(|f: TextFieldIndex| f.name@)
    }

    /// Whether what is held of each column reflects the arrays taken in.
    pub closed spec fn wf(&self) -> bool {
        &&& Self::field_names(self.fields@) == distinct(self.names@)
        &&& forall|k: int|
            0 <= k < self.fields@.len() ==> {
                let f = #[trigger] self.fields@[k];
                &&& f.reflects(column_text_cells(self.arrays@, f.name@), self.max_terms)
                &&& f.seen == column_appears(self.arrays@, f.name@)
            }
    }

    fn position(fields: &Vec<TextFieldIndex>, name: &str) -> (r: Option<usize>)
        ensures
            match r {
                Some(k) => k < fields@.len() && fields@[k as int].name@ == name@,
                None => forall|k: int| 0 <= k < fields@.len() ==> (#[trigger] fields@[k]).name@ != name@,
            },
    {
        let mut k: usize = 0;
        while k < fields.len()
            invariant
                k <= fields@.len(),
                forall|j: int| 0 <= j < k ==> (#[trigger] fields@[j]).name@ != name@,
            decreases fields@.len() - k,
        {
            if str_same(fields[k].name.as_str(), name) {
                return Some(k);
            }
            k = k + 1;
        }
        None
    }

    /// A builder that has taken in nothing.
    pub fn new(fields: &[String], max_terms: usize) -> (r: TextIndexBuilder)
        ensures
            r.wf(),
            r@ == Seq::<NamedArray>::empty(),
            r.names() == texts(fields@),
            r.term_limit() == max_terms,
    {
        let ghost all = texts(fields@);
        let mut list: Vec<TextFieldIndex> = Vec::new();
        let mut i: usize = 0;
        assert(Self::field_names(list@) =~= distinct(all.take(0)));
        while i < fields.len()
            invariant
                i <= fields@.len(),
                all == texts(fields@),
                Self::field_names(list@) == distinct(all.take(i as int)),
                forall|k: int|
                    0 <= k < list@.len() ==> {
                        let f = #[trigger] list@[k];
                        &&& f.reflects(Seq::empty(), max_terms)
                        &&& !f.seen
                    },
            decreases fields@.len() - i,
        {
            let ghost names = Self::field_names(list@);
            proof {
                assert(all.take(i + 1).drop_last() =~= all.take(i as int));
                assert(all.take(i + 1).last() == fields@[i as int]@);
            }
            match Self::position(&list, fields[i].as_str()) {
                Some(k) => {
                    assert(names[k as int] == fields@[i as int]@);
                },
                None => {
                    proof {
                        if names.contains(fields@[i as int]@) {
                            let k = choose|k: int| 0 <= k < names.len() && names[k] == fields@[i as int]@;
                            assert(list@[k].name@ == fields@[i as int]@);
                        }
                    }
                    list.push(TextFieldIndex::new(fields[i].as_str()));
                    assert(Self::field_names(list@) =~= names.push(fields@[i as int]@));
                },
            }
            i = i + 1;
        }
        assert(all.take(i as int) =~= all);
        TextIndexBuilder {
            fields: list,
            max_terms,
            names: Ghost(all),
            arrays: Ghost(Seq::empty()),
        }
    }

    /// Takes in one column of a batch.
    pub fn add_array(&mut self, named: &NamedArray)
        requires
            old(self).wf(),
        ensures
            final(self).wf(),
            final(self)@ == old(self)@.push(*named),
            final(self).names() == old(self).names(),
            final(self).term_limit() == old(self).term_limit(),
    {
        let ghost before = self.arrays@;
        let ghost after = before.push(*named);
        let ghost held = self.fields@;
        proof {
            assert(after.drop_last() =~= before);
            assert(after.last() == *named);
            assert forall|name: Seq<char>| #[trigger] column_appears(after, name) <==> column_appears(before, name)
                || named.name@ == name by {
                if column_appears(before, name) {
                    let i = choose|i: int| 0 <= i < before.len() && (#[trigger] before[i]).name@ == name;
                    assert(after[i].name@ == name);
                }
                if named.name@ == name {
                    assert(after[before.len() as int].name@ == name);
                }
                if column_appears(after, name) {
                    let i = choose|i: int| 0 <= i < after.len() && (#[trigger] after[i]).name@ == name;
                    if i < before.len() {
                        assert(before[i].name@ == name);
                    }
                }
            }
        }
        match Self::position(&self.fields, named.name.as_str()) {
            Some(k) => {
                let max_terms = self.max_terms;
                let ghost cells = column_text_cells(before, named.name@);
                let field = &mut self.fields[k];
                field.seen = true;
                field.collect_text_ngrams(&named.array, max_terms, Ghost(cells));
                proof {
                    lemma_distinct_has_no_duplicates(self.names@);
                    assert(Self::field_names(self.fields@) =~= Self::field_names(held));
                    assert forall|j: int| 0 <= j < self.fields@.len() && j != k implies (
                    #[trigger] self.fields@[j]).name@ != named.name@ by {
                        assert(Self::field_names(held)[j] != Self::field_names(held)[k as int]);
                    }
                }
            },
            None => {},
        }
        self.arrays = Ghost(after);
    }

    /// Takes in a batch of rows.
    pub fn add_batch(&mut self, batch: &RecordBatch)
        requires
            old(self).wf(),
        ensures
            final(self).wf(),
            final(self)@ == old(self)@ + batch.columns@,
            final(self).names() == old(self).names(),
            final(self).term_limit() == old(self).term_limit(),
    {
        let mut i: usize = 0;
        let ghost before = self@;
        assert(before + batch.columns@.take(0) =~= before);
        while i < batch.columns.len()
            invariant
                i <= batch.columns@.len(),
                self.wf(),
                self@ == before + batch.columns@.take(i as int),
                self.names() == old(self).names(),
                self.term_limit() == old(self).term_limit(),
            decreases batch.columns@.len() - i,
        {
            self.add_array(&batch.columns[i]);
            assert(self@ =~= before + batch.columns@.take(i + 1));
            i = i + 1;
        }
        assert(batch.columns@.take(i as int) =~= batch.columns@);
    }

    /// The indexes over what has been taken in.
    pub fn finish(self) -> (r: Vec<(String, TextNgrams)>)
        requires
            self.wf(),
        ensures
            text_indexes_of(r@, self.names(), self@, self.term_limit()),
    {
        let ghost all = distinct(self.names@);
        let ghost arrays = self.arrays@;
        let ghost max_terms = self.max_terms;
        let ghost chosen = |name: Seq<char>| text_indexed(arrays, name, max_terms);
        let ghost held = self.fields@;
        let mut r: Vec<(String, TextNgrams)> = Vec::new();
        proof {
            assert(Self::field_names(held) == all);
            assert(all.take(0).filter(chosen) =~= Seq::<Seq<char>>::empty()) by {
                reveal(Seq::filter);
            }
            assert(entry_names(r@) =~= Seq::<Seq<char>>::empty());
        }
        for field in it: self.fields
            invariant
                it.seq() == held,
                Self::field_names(held) == all,
                forall|k: int|
                    0 <= k < held.len() ==> {
                        let f = #[trigger] held[k];
                        &&& f.reflects(column_text_cells(arrays, f.name@), max_terms)
                        &&& f.seen == column_appears(arrays, f.name@)
                    },
                chosen == (|name: Seq<char>| text_indexed(arrays, name, max_terms)),
                entry_names(r@) == all.take(it.index()).filter(chosen),
                forall|k: int|
                    0 <= k < r@.len() ==> lists_grams(
                        (#[trigger] r@[k]).1,
                        column_text_cells(arrays, r@[k].0@),
                    ),
        {
            let ghost cells = column_text_cells(arrays, field.name@);
            let ghost done = all.take(it.index());
            let ghost entries = entry_names(r@);
            proof {
                assert(field == held[it.index()]);
                assert(all[it.index()] == field.name@);
                assert(all.take(it.index() + 1) =~= done.push(field.name@));
                assert(done.push(field.name@).drop_last() =~= done);
                reveal(Seq::filter);
            }
            if field.seen && field.complete {
                r.push(field.finish(Ghost(cells), Ghost(max_terms)));
                assert(entry_names(r@) =~= entries.push(field.name@));
            }
        }
        proof {
            assert(all.take(all.len() as int) =~= all);
        }
        r
    }
}

// ---------------------------------------------------------------------------
// Whole files
// ---------------------------------------------------------------------------

/// The indexes of exact values over some columns of a file's rows: for each
/// column that appears, its distinct values and their hashes, as far as they
/// are readable and not too many.
pub fn exact_index_statistics(
    batches: &[RecordBatch],
    fields: &[String],
    max_values: usize,
    max_hashes: usize,
) -> (r: Vec<(String, ExactIndexData)>)
    ensures
        exact_indexes_of(r@, texts(fields@), all_arrays(batches@), max_values, max_hashes),
{
    let mut builder = ExactIndexBuilder::new(fields, max_values, max_hashes);
    let mut i: usize = 0;
    while i < batches.len()
        invariant
            i <= batches@.len(),
            builder.wf(),
            builder@ == all_arrays(batches@.take(i as int)),
            builder.names() == texts(fields@),
            builder.value_limit() == max_values,
            builder.hash_limit() == max_hashes,
        decreases batches@.len() - i,
    {
        builder.add_batch(&batches[i]);
        assert(batches@.take(i + 1).drop_last() =~= batches@.take(i as int));
        i = i + 1;
    }
    assert(batches@.take(i as int) =~= batches@);
    builder.finish()
}

/// The text indexes over some columns of a file's rows: for each column that
/// appears, the grams of its texts, as far as all its values are text and the
/// grams are not too many.
pub fn text_ngram_statistics(batches: &[RecordBatch], fields: &[String], max_terms: usize) -> (r: Vec<
    (String, TextNgrams),
>)
    ensures
        text_indexes_of(r@, texts(fields@), all_arrays(batches@), max_terms),
{
    let mut builder = TextIndexBuilder::new(fields, max_terms);
    let mut i: usize = 0;
    while i < batches.len()
        invariant
            i <= batches@.len(),
            builder.wf(),
            builder@ == all_arrays(batches@.take(i as int)),
            builder.names() == texts(fields@),
            builder.term_limit() == max_terms,
        decreases batches@.len() - i,
    {
        builder.add_batch(&batches[i]);
        assert(batches@.take(i + 1).drop_last() =~= batches@.take(i as int));
        i = i + 1;
    }
    assert(batches@.take(i as int) =~= batches@);
    builder.finish()
}

/// The first place of a name.
pub open spec fn first_index(names: Seq<Seq<char>>, name: Seq<char>) -> Option<usize>
    decreases names.len(),
{
    if names.len() == 0 {
        None
    } else {
        match first_index(names.drop_last(), name) {
            Some(i) => Some(i),
            None => if names.last() == name {
                Some((names.len() - 1) as usize)
            } else {
                None
            },
        }
    }
}

/// The places of the fields that the schema has, in the order of the fields.
pub open spec fn projection(schema: Seq<Seq<char>>, fields: Seq<Seq<char>>) -> Seq<usize>
    decreases fields.len(),
{
    if fields.len() == 0 {
        Seq::empty()
    } else {
        match first_index(schema, fields.last()) {
            Some(i) => projection(schema, fields.drop_last()).push(i),
            None => projection(schema, fields.drop_last()),
        }
    }
}

fn index_of(names: &[String], name: &str) -> (r: Option<usize>)
    ensures
        r == first_index(texts(names@), name@),
{
    let ghost all = texts(names@);
    let mut i: usize = 0;
    let mut found: Option<usize> = None;
    while i < names.len()
        invariant
            i <= names@.len(),
            all == texts(names@),
            found == first_index(all.take(i as int), name@),
        decreases names@.len() - i,
    {
        proof {
            assert(all.take(i + 1).drop_last() =~= all.take(i as int));
        }
        if found.is_none() && str_same(names[i].as_str(), name) {
            found = Some(i);
        }
        i = i + 1;
    }
    assert(all.take(i as int) =~= all);
    found
}

/// The places in a file's schema of the columns to index; a field that the
/// schema lacks has none.
pub fn projected_indices(schema: &[String], fields: &[String]) -> (r: Vec<usize>)
    ensures
        r@ == projection(texts(schema@), texts(fields@)),
{
    let ghost all = texts(fields@);
    let mut r: Vec<usize> = Vec::new();
    let mut i: usize = 0;
    while i < fields.len()
        invariant
            i <= fields@.len(),
            all == texts(fields@),
            r@ == projection(texts(schema@), all.take(i as int)),
        decreases fields@.len() - i,
    {
        proof {
            assert(all.take(i + 1).drop_last() =~= all.take(i as int));
        }
        if let Some(place) = index_of(schema, fields[i].as_str()) {
            r.push(place);
        }
        i = i + 1;
    }
    assert(all.take(i as int) =~= all);
    r
}

// ---------------------------------------------------------------------------
// What is indexed
// ---------------------------------------------------------------------------

/// The distinct names of a list are its names.
pub proof fn distinct_keeps_every_name(list: Seq<Seq<char>>, name: Seq<char>)
    ensures
        distinct(list).contains(name) <==> list.contains(name),
    decreases list.len(),
{
    if list.len() > 0 {
        let shorter = list.drop_last();
        let d = distinct(shorter);
        distinct_keeps_every_name(shorter, name);
        assert(list =~= shorter.push(list.last()));
        if list.contains(name) {
            let i = list.index_of(name);
            if i < shorter.len() {
                assert(shorter[i] == name);
                let j = d.index_of(name);
                assert(d.push(list.last())[j] == name);
            } else {
                assert(d.push(list.last())[d.len() as int] == name);
            }
        }
        if distinct(list).contains(name) && name != list.last() {
            let j = distinct(list).index_of(name);
            assert(d[j] == name);
            let i = shorter.index_of(name);
            assert(list[i] == name);
        }
        if name == list.last() {
            assert(list[list.len() - 1] == name);
        }
    }
}

/// The distinct names of a list stand in the order in which they first occur.
pub proof fn distinct_keeps_the_order(list: Seq<Seq<char>>, more: Seq<Seq<char>>)
    ensures
        distinct(list).len() <= distinct(list + more).len(),
        distinct(list + more).take(distinct(list).len() as int) == distinct(list),
        list.no_duplicates() ==> distinct(list) == list,
    decreases list.len() + more.len(),
{
    if more.len() > 0 {
        assert((list + more).drop_last() =~= list + more.drop_last());
        distinct_keeps_the_order(list, more.drop_last());
        let before = distinct(list + more.drop_last());
        let n = distinct(list).len() as int;
        assert(before.push((list + more).last()).take(n) =~= before.take(n));
    } else {
        assert(list + more =~= list);
        assert(distinct(list).take(distinct(list).len() as int) =~= distinct(list));
    }
    if list.no_duplicates() && list.len() > 0 {
        let shorter = list.drop_last();
        distinct_keeps_the_order(shorter, Seq::empty());
        assert forall|i: int, j: int| 0 <= i < shorter.len() && 0 <= j < shorter.len() && i != j implies shorter[i]
            != shorter[j] by {
            assert(list[i] != list[j]);
        }
        if shorter.contains(list.last()) {
            let i = shorter.index_of(list.last());
            assert(list[i] == list[list.len() - 1]);
        }
        assert(shorter.push(list.last()) =~= list);
    }
    if list.len() == 0 {
        assert(distinct(list) =~= list);
    }
}

proof fn lemma_indexed_cells(cells: Seq<Cell>, text: Seq<char>)
    ensures
        value_set(cells).contains(text) <==> exists|i: int|
            0 <= i < cells.len() && cell_text(#[trigger] cells[i]) == Some(text),
    decreases cells.len(),
{
    if cells.len() > 0 {
        let shorter = cells.drop_last();
        lemma_indexed_cells(shorter, text);
        if value_set(cells).contains(text) {
            if value_set(shorter).contains(text) {
                let i = choose|i: int| 0 <= i < shorter.len() && cell_text(#[trigger] shorter[i]) == Some(text);
                assert(cell_text(cells[i]) == Some(text));
            } else {
                assert(cell_text(cells[cells.len() - 1]) == Some(text));
            }
        }
        if exists|i: int| 0 <= i < cells.len() && cell_text(#[trigger] cells[i]) == Some(text) {
            let i = choose|i: int| 0 <= i < cells.len() && cell_text(#[trigger] cells[i]) == Some(text);
            if i < shorter.len() {
                assert(cell_text(shorter[i]) == Some(text));
            }
        }
    }
}

proof fn lemma_hashed_cells(cells: Seq<Cell>, hash: u64)
    ensures
        hash_set(cells).contains(hash) <==> exists|i: int|
            0 <= i < cells.len() && (cell_text(#[trigger] cells[i]) matches Some(text) && text_hash(text) == hash),
    decreases cells.len(),
{
    if cells.len() > 0 {
        let shorter = cells.drop_last();
        lemma_hashed_cells(shorter, hash);
        if hash_set(cells).contains(hash) {
            if hash_set(shorter).contains(hash) {
                let i = choose|i: int|
                    0 <= i < shorter.len() && (cell_text(#[trigger] shorter[i]) matches Some(text) && text_hash(text)
                        == hash);
                assert(cells[i] == shorter[i]);
            } else {
                let i = cells.len() - 1;
                assert(cell_text(cells[i]) is Some);
            }
        }
        if exists|i: int|
            0 <= i < cells.len() && (cell_text(#[trigger] cells[i]) matches Some(text) && text_hash(text) == hash) {
            let i = choose|i: int|
                0 <= i < cells.len() && (cell_text(#[trigger] cells[i]) matches Some(text) && text_hash(text)
                    == hash);
            if i < shorter.len() {
                assert(cell_text(shorter[i]) is Some);
            }
        }
    }
}

proof fn lemma_gram_cells(cells: Seq<Cell>, gram: Seq<char>)
    ensures
        gram_set(cells).contains(gram) <==> exists|i: int|
            0 <= i < cells.len() && (cell_text(#[trigger] cells[i]) matches Some(text) && grams(
                lowercase(text),
            ).contains(gram)),
    decreases cells.len(),
{
    if cells.len() > 0 {
        let shorter = cells.drop_last();
        lemma_gram_cells(shorter, gram);
        if gram_set(cells).contains(gram) {
            if gram_set(shorter).contains(gram) {
                let i = choose|i: int|
                    0 <= i < shorter.len() && (cell_text(#[trigger] shorter[i]) matches Some(text) && grams(
                        lowercase(text),
                    ).contains(gram));
                assert(cells[i] == shorter[i]);
            } else {
                let i = cells.len() - 1;
                assert(cell_text(cells[i]) is Some);
            }
        }
        if exists|i: int|
            0 <= i < cells.len() && (cell_text(#[trigger] cells[i]) matches Some(text) && grams(
                lowercase(text),
            ).contains(gram)) {
            let i = choose|i: int|
                0 <= i < cells.len() && (cell_text(#[trigger] cells[i]) matches Some(text) && grams(
                    lowercase(text),
                ).contains(gram));
            if i < shorter.len() {
                assert(cell_text(shorter[i]) is Some);
            }
        }
    }
}

proof fn lemma_cells_of_a_column(arrays: Seq<NamedArray>, name: Seq<char>, cell: Cell)
    ensures
        column_cells(arrays, name).contains(cell) <==> exists|a: int, i: int|
            0 <= a < arrays.len() && arrays[a].name@ == name && 0 <= i < arrays[a].array.spec_len()
                && #[trigger] arrays[a].array.cell(i) == cell,
        column_text_cells(arrays, name).contains(cell) <==> exists|a: int, i: int|
            0 <= a < arrays.len() && arrays[a].name@ == name && 0 <= i < arrays[a].array.spec_len()
                && #[trigger] arrays[a].array.text_only_cell(i) == cell,
    decreases arrays.len(),
{
    if arrays.len() > 0 {
        let shorter = arrays.drop_last();
        let last = arrays.last();
        lemma_cells_of_a_column(shorter, name, cell);
        let front = column_cells(shorter, name);
        let text_front = column_text_cells(shorter, name);
        if column_cells(arrays, name).contains(cell) {
            let k = column_cells(arrays, name).index_of(cell);
            if k < front.len() {
                assert(front[k] == cell);
                let (a, i) = choose|a: int, i: int|
                    0 <= a < shorter.len() && shorter[a].name@ == name && 0 <= i < shorter[a].array.spec_len()
                        && #[trigger] shorter[a].array.cell(i) == cell;
                assert(arrays[a].array.cell(i) == cell);
            } else {
                assert(arrays[arrays.len() - 1].array.cell(k - front.len()) == cell);
            }
        }
        if exists|a: int, i: int|
            0 <= a < arrays.len() && arrays[a].name@ == name && 0 <= i < arrays[a].array.spec_len()
                && #[trigger] arrays[a].array.cell(i) == cell {
            let (a, i) = choose|a: int, i: int|
                0 <= a < arrays.len() && arrays[a].name@ == name && 0 <= i < arrays[a].array.spec_len()
                    && #[trigger] arrays[a].array.cell(i) == cell;
            if a < shorter.len() {
                assert(shorter[a].array.cell(i) == cell);
                let k = front.index_of(cell);
                assert(column_cells(arrays, name)[k] == cell);
            } else {
                assert(column_cells(arrays, name)[front.len() + i] == cell);
            }
        }
        if column_text_cells(arrays, name).contains(cell) {
            let k = column_text_cells(arrays, name).index_of(cell);
            if k < text_front.len() {
                assert(text_front[k] == cell);
                let (a, i) = choose|a: int, i: int|
                    0 <= a < shorter.len() && shorter[a].name@ == name && 0 <= i < shorter[a].array.spec_len()
                        && #[trigger] shorter[a].array.text_only_cell(i) == cell;
                assert(arrays[a].array.text_only_cell(i) == cell);
            } else {
                assert(arrays[arrays.len() - 1].array.text_only_cell(k - text_front.len()) == cell);
            }
        }
        if exists|a: int, i: int|
            0 <= a < arrays.len() && arrays[a].name@ == name && 0 <= i < arrays[a].array.spec_len()
                && #[trigger] arrays[a].array.text_only_cell(i) == cell {
            let (a, i) = choose|a: int, i: int|
                0 <= a < arrays.len() && arrays[a].name@ == name && 0 <= i < arrays[a].array.spec_len()
                    && #[trigger] arrays[a].array.text_only_cell(i) == cell;
            if a < shorter.len() {
                assert(shorter[a].array.text_only_cell(i) == cell);
                let k = text_front.index_of(cell);
                assert(column_text_cells(arrays, name)[k] == cell);
            } else {
                assert(column_text_cells(arrays, name)[text_front.len() + i] == cell);
            }
        }
    }
}

/// A column that was read is indexed exactly where one of the two indexes can
/// hold it: each of its values is readable, and there are no more distinct
/// values, or hashes of them, than the limit, which is not zero. An index that
/// would be too large is left out.
pub proof fn columns_within_the_limits_are_indexed(
    entries: Seq<(String, ExactIndexData)>,
    fields: Seq<Seq<char>>,
    arrays: Seq<NamedArray>,
    max_values: usize,
    max_hashes: usize,
    name: Seq<char>,
    values: Set<Seq<char>>,
    hashes: Set<u64>,
)
    requires
        exact_indexes_of(entries, fields, arrays, max_values, max_hashes),
        fields.contains(name),
        exists|a: int| 0 <= a < arrays.len() && (#[trigger] arrays[a]).name@ == name,
        forall|a: int, i: int|
            0 <= a < arrays.len() && arrays[a].name@ == name && 0 <= i < arrays[a].array.spec_len() ==> !(
            #[trigger] arrays[a].array.cell(i) is Unreadable),
        forall|text: Seq<char>| #[trigger]
            values.contains(text) <==> exists|a: int, i: int|
                0 <= a < arrays.len() && arrays[a].name@ == name && 0 <= i < arrays[a].array.spec_len() && cell_text(
                    #[trigger] arrays[a].array.cell(i),
                ) == Some(text),
        forall|hash: u64| #[trigger]
            hashes.contains(hash) <==> exists|text: Seq<char>| values.contains(text) && #[trigger] text_hash(text)
                == hash,
    ensures
        (exists|k: int| 0 <= k < entries.len() && (#[trigger] entries[k]).0@ == name) <==> max_values > 0
            && values.len() <= max_values || max_hashes > 0 && hashes.len() <= max_hashes,
        forall|k: int|
            0 <= k < entries.len() && (#[trigger] entries[k]).0@ == name ==> {
                &&& entries[k].1.values is Some <==> max_values > 0 && values.len() <= max_values
                &&& entries[k].1.hashes is Some <==> max_hashes > 0 && hashes.len() <= max_hashes
                &&& entries[k].1.values matches Some(index) ==> index.complete && forall|text: Seq<char>|
                    (exists|i: int| 0 <= i < index.values@.len() && (#[trigger] index.values@[i])@ == text)
                        <==> #[trigger] values.contains(text)
                &&& entries[k].1.hashes matches Some(index) ==> index.complete && forall|hash: u64|
                    index.hashes@.contains(hash) <==> #[trigger] hashes.contains(hash)
            },
{
    let cells = column_cells(arrays, name);
    let indexed = |n: Seq<char>| exactly_indexed(arrays, n, max_values, max_hashes);
    assert forall|text: Seq<char>| value_set(cells).contains(text) <==> values.contains(text) by {
        lemma_indexed_cells(cells, text);
        if value_set(cells).contains(text) {
            let i = choose|i: int| 0 <= i < cells.len() && cell_text(#[trigger] cells[i]) == Some(text);
            assert(cells.contains(cells[i]));
            lemma_cells_of_a_column(arrays, name, cells[i]);
        }
        if values.contains(text) {
            let (a, i) = choose|a: int, i: int|
                0 <= a < arrays.len() && arrays[a].name@ == name && 0 <= i < arrays[a].array.spec_len() && cell_text(
                    #[trigger] arrays[a].array.cell(i),
                ) == Some(text);
            lemma_cells_of_a_column(arrays, name, arrays[a].array.cell(i));
            let k = cells.index_of(arrays[a].array.cell(i));
            assert(cell_text(cells[k]) == Some(text));
        }
    }
    assert(value_set(cells) =~= values);
    assert forall|hash: u64| hash_set(cells).contains(hash) <==> hashes.contains(hash) by {
        lemma_hashed_cells(cells, hash);
        if hash_set(cells).contains(hash) {
            let i = choose|i: int|
                0 <= i < cells.len() && (cell_text(#[trigger] cells[i]) matches Some(text) && text_hash(text)
                    == hash);
            let text = cell_text(cells[i])->0;
            lemma_indexed_cells(cells, text);
            assert(values.contains(text) && text_hash(text) == hash);
        }
        if hashes.contains(hash) {
            let text = choose|text: Seq<char>| values.contains(text) && #[trigger] text_hash(text) == hash;
            lemma_indexed_cells(cells, text);
            let i = choose|i: int| 0 <= i < cells.len() && cell_text(#[trigger] cells[i]) == Some(text);
            assert(cell_text(cells[i]) == Some(text));
        }
    }
    assert(hash_set(cells) =~= hashes);
    assert(all_cells_readable(cells)) by {
        assert forall|i: int| 0 <= i < cells.len() implies !(#[trigger] cells[i] is Unreadable) by {
            assert(cells.contains(cells[i]));
            lemma_cells_of_a_column(arrays, name, cells[i]);
        }
    }
    distinct_keeps_every_name(fields, name);
    let names = entry_names(entries);
    let d = distinct(fields);
    if indexed(name) {
        let i = d.index_of(name);
        d.lemma_filter_contains(indexed, i);
        let k = names.index_of(name);
        assert(entries[k].0@ == name);
    }
    assert forall|k: int| 0 <= k < entries.len() && (#[trigger] entries[k]).0@ == name implies indexed(name) by {
        assert(names[k] == name);
        d.lemma_filter_pred(indexed, k);
    }
    assert forall|k: int| 0 <= k < entries.len() && (#[trigger] entries[k]).0@ == name implies {
        &&& entries[k].1.values is Some <==> max_values > 0 && values.len() <= max_values
        &&& entries[k].1.hashes is Some <==> max_hashes > 0 && hashes.len() <= max_hashes
        &&& entries[k].1.values matches Some(index) ==> index.complete && forall|text: Seq<char>|
            (exists|i: int| 0 <= i < index.values@.len() && (#[trigger] index.values@[i])@ == text)
                <==> #[trigger] values.contains(text)
        &&& entries[k].1.hashes matches Some(index) ==> index.complete && forall|hash: u64|
            index.hashes@.contains(hash) <==> #[trigger] hashes.contains(hash)
    } by {
        if let Some(index) = entries[k].1.values {
            assert forall|text: Seq<char>|
                (exists|i: int| 0 <= i < index.values@.len() && (#[trigger] index.values@[i])@ == text)
                    <==> #[trigger] values.contains(text) by {
                if values.contains(text) {
                    assert(index.texts().to_set().contains(text));
                    let i = index.texts().index_of(text);
                    assert(index.values@[i]@ == text);
                }
                if exists|i: int| 0 <= i < index.values@.len() && (#[trigger] index.values@[i])@ == text {
                    let i = choose|i: int| 0 <= i < index.values@.len() && (#[trigger] index.values@[i])@ == text;
                    assert(index.texts()[i] == text);
                    assert(index.texts().to_set().contains(text));
                }
            }
        }
        if let Some(index) = entries[k].1.hashes {
            assert forall|hash: u64| index.hashes@.contains(hash) <==> #[trigger] hashes.contains(hash) by {
                assert(index.hashes@.to_set().contains(hash) <==> index.hashes@.contains(hash));
            }
        }
    }
}

/// A column that was read, of texts and nulls alone, has a text index exactly
/// where its texts have no more distinct parts of up to three characters, in
/// lowercase, than the limit; and the index lists those parts and no others.
pub proof fn texts_within_the_limit_are_indexed(
    entries: Seq<(String, TextNgrams)>,
    fields: Seq<Seq<char>>,
    arrays: Seq<NamedArray>,
    max_terms: usize,
    name: Seq<char>,
    parts: Set<Seq<char>>,
)
    requires
        text_indexes_of(entries, fields, arrays, max_terms),
        fields.contains(name),
        exists|a: int| 0 <= a < arrays.len() && (#[trigger] arrays[a]).name@ == name,
        forall|a: int, i: int|
            0 <= a < arrays.len() && arrays[a].name@ == name && 0 <= i < arrays[a].array.spec_len() ==> !(
            #[trigger] arrays[a].array.text_only_cell(i) is Unreadable),
        forall|part: Seq<char>| #[trigger]
            parts.contains(part) <==> exists|a: int, i: int|
                0 <= a < arrays.len() && arrays[a].name@ == name && 0 <= i < arrays[a].array.spec_len() && (cell_text(
                    #[trigger] arrays[a].array.text_only_cell(i),
                ) matches Some(text) && grams(lowercase(text)).contains(part)),
    ensures
        (exists|k: int| 0 <= k < entries.len() && (#[trigger] entries[k]).0@ == name) <==> parts.len() <= max_terms,
        forall|k: int|
            0 <= k < entries.len() && (#[trigger] entries[k]).0@ == name ==> {
                &&& entries[k].1.complete
                &&& entries[k].1.min_len == 1
                &&& forall|part: Seq<char>|
                    (exists|i: int| 0 <= i < entries[k].1.grams@.len() && (#[trigger] entries[k].1.grams@[i])@
                        == part) <==> #[trigger] parts.contains(part)
            },
{
    let cells = column_text_cells(arrays, name);
    let indexed = |n: Seq<char>| text_indexed(arrays, n, max_terms);
    assert forall|part: Seq<char>| gram_set(cells).contains(part) <==> parts.contains(part) by {
        lemma_gram_cells(cells, part);
        if gram_set(cells).contains(part) {
            let i = choose|i: int|
                0 <= i < cells.len() && (cell_text(#[trigger] cells[i]) matches Some(text) && grams(
                    lowercase(text),
                ).contains(part));
            assert(cells.contains(cells[i]));
            lemma_cells_of_a_column(arrays, name, cells[i]);
        }
        if parts.contains(part) {
            let (a, i) = choose|a: int, i: int|
                0 <= a < arrays.len() && arrays[a].name@ == name && 0 <= i < arrays[a].array.spec_len() && (cell_text(
                    #[trigger] arrays[a].array.text_only_cell(i),
                ) matches Some(text) && grams(lowercase(text)).contains(part));
            lemma_cells_of_a_column(arrays, name, arrays[a].array.text_only_cell(i));
            let k = cells.index_of(arrays[a].array.text_only_cell(i));
            assert(cell_text(cells[k]) is Some);
        }
    }
    assert(gram_set(cells) =~= parts);
    assert(all_cells_readable(cells)) by {
        assert forall|i: int| 0 <= i < cells.len() implies !(#[trigger] cells[i] is Unreadable) by {
            assert(cells.contains(cells[i]));
            lemma_cells_of_a_column(arrays, name, cells[i]);
        }
    }
    distinct_keeps_every_name(fields, name);
    let names = entry_names(entries);
    let d = distinct(fields);
    if indexed(name) {
        let i = d.index_of(name);
        d.lemma_filter_contains(indexed, i);
        let k = names.index_of(name);
        assert(entries[k].0@ == name);
    }
    assert forall|k: int| 0 <= k < entries.len() && (#[trigger] entries[k]).0@ == name implies indexed(name) by {
        assert(names[k] == name);
        d.lemma_filter_pred(indexed, k);
    }
    assert forall|k: int| 0 <= k < entries.len() && (#[trigger] entries[k]).0@ == name implies {
        &&& entries[k].1.complete
        &&& entries[k].1.min_len == 1
        &&& forall|part: Seq<char>|
            (exists|i: int| 0 <= i < entries[k].1.grams@.len() && (#[trigger] entries[k].1.grams@[i])@ == part)
                <==> #[trigger] parts.contains(part)
    } by {
        let index = entries[k].1;
        assert forall|part: Seq<char>|
            (exists|i: int| 0 <= i < index.grams@.len() && (#[trigger] index.grams@[i])@ == part)
                <==> #[trigger] parts.contains(part) by {
            if parts.contains(part) {
                assert(index.texts().to_set().contains(part));
                let i = index.texts().index_of(part);
                assert(index.grams@[i]@ == part);
            }
            if exists|i: int| 0 <= i < index.grams@.len() && (#[trigger] index.grams@[i])@ == part {
                let i = choose|i: int| 0 <= i < index.grams@.len() && (#[trigger] index.grams@[i])@ == part;
                assert(index.texts()[i] == part);
                assert(index.texts().to_set().contains(part));
            }
        }
    }
}

/// A column that was not asked for or not read, or that has an unreadable value,
/// has no index.
pub proof fn other_columns_are_not_indexed(
    entries: Seq<(String, ExactIndexData)>,
    text_entries: Seq<(String, TextNgrams)>,
    fields: Seq<Seq<char>>,
    arrays: Seq<NamedArray>,
    max_values: usize,
    max_hashes: usize,
    max_terms: usize,
    k: int,
    l: int,
    a: int,
    i: int,
)
    requires
        exact_indexes_of(entries, fields, arrays, max_values, max_hashes),
        text_indexes_of(text_entries, fields, arrays, max_terms),
    ensures
        0 <= k < entries.len() ==> {
            &&& fields.contains(entries[k].0@)
            &&& exists|b: int| 0 <= b < arrays.len() && (#[trigger] arrays[b]).name@ == entries[k].0@
            &&& 0 <= a < arrays.len() && arrays[a].name@ == entries[k].0@ && 0 <= i < arrays[a].array.spec_len()
                ==> !(arrays[a].array.cell(i) is Unreadable)
        },
        0 <= l < text_entries.len() ==> {
            &&& fields.contains(text_entries[l].0@)
            &&& exists|b: int| 0 <= b < arrays.len() && (#[trigger] arrays[b]).name@ == text_entries[l].0@
            &&& 0 <= a < arrays.len() && arrays[a].name@ == text_entries[l].0@ && 0 <= i
                < arrays[a].array.spec_len() ==> !(arrays[a].array.text_only_cell(i) is Unreadable)
        },
{
    let d = distinct(fields);
    if 0 <= k < entries.len() {
        let name = entries[k].0@;
        let indexed = |n: Seq<char>| exactly_indexed(arrays, n, max_values, max_hashes);
        assert(entry_names(entries)[k] == name);
        d.lemma_filter_pred(indexed, k);
        d.lemma_filter_contains_rev(indexed, name);
        distinct_keeps_every_name(fields, name);
        if 0 <= a < arrays.len() && arrays[a].name@ == name && 0 <= i < arrays[a].array.spec_len() {
            let cells = column_cells(arrays, name);
            lemma_cells_of_a_column(arrays, name, arrays[a].array.cell(i));
            let c = cells.index_of(arrays[a].array.cell(i));
            assert(!(cells[c] is Unreadable));
        }
    }
    if 0 <= l < text_entries.len() {
        let name = text_entries[l].0@;
        let indexed = |n: Seq<char>| text_indexed(arrays, n, max_terms);
        assert(entry_names(text_entries)[l] == name);
        d.lemma_filter_pred(indexed, l);
        d.lemma_filter_contains_rev(indexed, name);
        distinct_keeps_every_name(fields, name);
        if 0 <= a < arrays.len() && arrays[a].name@ == name && 0 <= i < arrays[a].array.spec_len() {
            let cells = column_text_cells(arrays, name);
            lemma_cells_of_a_column(arrays, name, arrays[a].array.text_only_cell(i));
            let c = cells.index_of(arrays[a].array.text_only_cell(i));
            assert(!(cells[c] is Unreadable));
        }
    }
}

/// The arrays of a list of batches are those of each batch, in order.
pub proof fn batches_are_read_in_order(a: Seq<RecordBatch>, b: Seq<RecordBatch>)
    ensures
        all_arrays(a + b) == all_arrays(a) + all_arrays(b),
        a.len() == 1 ==> all_arrays(a) == a[0].columns@,
    decreases b.len(),
{
    if b.len() == 0 {
        assert(a + b =~= a);
        assert(all_arrays(a) + all_arrays(b) =~= all_arrays(a));
    } else {
        assert((a + b).drop_last() =~= a + b.drop_last());
        batches_are_read_in_order(a, b.drop_last());
        assert(all_arrays(a) + all_arrays(b.drop_last()) + b.last().columns@ =~= all_arrays(a) + (all_arrays(
            b.drop_last(),
        ) + b.last().columns@));
    }
    if a.len() == 1 {
        reveal_with_fuel(all_arrays, 2);
        assert(a.drop_last() =~= Seq::<RecordBatch>::empty());
        assert(all_arrays(a) =~= a[0].columns@);
    }
}

/// A field is projected to the first place at which the schema names it, and one
/// that the schema does not name to none; fields keep their order.
pub proof fn fields_are_projected_to_their_places(schema: Seq<Seq<char>>, fields: Seq<Seq<char>>, field: Seq<char>, k: int)
    requires
        schema.len() <= usize::MAX,
    ensures
        0 <= k < schema.len() && schema[k] == field && (forall|j: int| 0 <= j < k ==> #[trigger] schema[j] != field)
            ==> projection(schema, fields.push(field)) == projection(schema, fields).push(k as usize),
        (forall|j: int| 0 <= j < schema.len() ==> #[trigger] schema[j] != field) ==> projection(
            schema,
            fields.push(field),
        ) == projection(schema, fields),
        projection(schema, Seq::empty()).len() == 0,
{
    assert(fields.push(field).drop_last() =~= fields);
    lemma_first_index(schema, field);
}

proof fn lemma_first_index(names: Seq<Seq<char>>, name: Seq<char>)
    requires
        names.len() <= usize::MAX,
    ensures
        match first_index(names, name) {
            Some(i) => i < names.len() && names[i as int] == name && forall|j: int|
                0 <= j < i ==> #[trigger] names[j] != name,
            None => forall|j: int| 0 <= j < names.len() ==> #[trigger] names[j] != name,
        },
    decreases names.len(),
{
    if names.len() > 0 {
        let shorter = names.drop_last();
        lemma_first_index(shorter, name);
        match first_index(shorter, name) {
            Some(i) => {
                assert(names[i as int] == shorter[i as int]);
                assert forall|j: int| 0 <= j < i implies #[trigger] names[j] != name by {
                    assert(shorter[j] != name);
                }
            },
            None => {
                assert forall|j: int| 0 <= j < names.len() - 1 implies #[trigger] names[j] != name by {
                    assert(shorter[j] != name);
                }
            },
        }
    }
}

/// An index of exact values reads each value as the cells that are written so
/// do, where those agree.
pub proof fn index_reads_as_its_cells_do(
    entries: Seq<(String, ExactIndexData)>,
    fields: Seq<Seq<char>>,
    arrays: Seq<NamedArray>,
    max_values: usize,
    max_hashes: usize,
    k: int,
    i: int,
    reading: Option<FloatBits>,
)
    requires
        exact_indexes_of(entries, fields, arrays, max_values, max_hashes),
        0 <= k < entries.len(),
        entries[k].1.values matches Some(index) && 0 <= i < index.values@.len() && forall|a: int, c: int|
            0 <= a < arrays.len() && arrays[a].name@ == entries[k].0@ && 0 <= c < arrays[a].array.spec_len() ==> (
            match #[trigger] arrays[a].array.cell(c) {
                Cell::Value(text, own) => text == index.values@[i]@ ==> own == reading,
                _ => true,
            }),
    ensures
        entries[k].1.values matches Some(index) && index.floats@.len() == index.values@.len() && index.floats@[i]
            == reading,
{
    let name = entries[k].0@;
    let cells = column_cells(arrays, name);
    let index = entries[k].1.values->0;
    let text = index.values@[i]@;
    assert(index.texts()[i] == text);
    assert(index.texts().to_set().contains(text));
    assert forall|c: int| 0 <= c < cells.len() && cell_text(#[trigger] cells[c]) == Some(text) implies cell_reading(
        cells[c],
    ) == reading by {
        assert(cells.contains(cells[c]));
        lemma_cells_of_a_column(arrays, name, cells[c]);
    }
    lemma_agreed_reading(cells, text, reading);
    assert(index.floats@[i] == reading_in(cells, index.texts()[i]));
}

proof fn lemma_agreed_reading(cells: Seq<Cell>, text: Seq<char>, reading: Option<FloatBits>)
    requires
        value_set(cells).contains(text),
        forall|c: int|
            0 <= c < cells.len() && cell_text(#[trigger] cells[c]) == Some(text) ==> cell_reading(cells[c])
                == reading,
    ensures
        reading_in(cells, text) == reading,
    decreases cells.len(),
{
    let shorter = cells.drop_last();
    if value_set(shorter).contains(text) {
        assert forall|c: int| 0 <= c < shorter.len() && cell_text(#[trigger] shorter[c]) == Some(text) implies cell_reading(
            shorter[c],
        ) == reading by {
            assert(shorter[c] == cells[c]);
        }
        lemma_agreed_reading(shorter, text, reading);
    } else {
        let c = cells.len() - 1;
        assert(cell_text(cells[c]) == Some(text));
    }
}

} // verus!
