//! Files that are still in staging, awaiting push to object storage.
use vstd::prelude::*;

use crate::query::scan::{paths_and_sizes, PartitionedFile};

verus! {

/// The kind of a prefix that a path of Windows starts with, in the order in
/// which prefixes stand.
#[derive(Clone, Copy, Debug, PartialEq, Eq, Structural)]
pub enum PrefixKind {
    Verbatim,
    VerbatimShare,
    VerbatimDisk,
    Device,
    Share,
    Disk,
}

/// A part of a path. Names are held as the bytes that the system has for them,
/// by which they are ordered.
#[derive(Clone, Debug)]
pub enum PathPart {
    /// A prefix: a name, the letter of a disk, or a server and its share.
    Prefix(PrefixKind, Vec<u8>, Vec<u8>),
    Root,
    Current,
    Parent,
    Normal(Vec<u8>),
}

/// A parquet file in staging.
#[derive(Clone, Debug)]
pub struct StagingFile {
    /// The path, part by part.
    pub parts: Vec<PathPart>,
    /// The path as it is written.
    pub path: String,
    /// The place of the file in the listing of the staging area.
    pub place: usize,
}

/// A part of a path as it is ordered: by kind, then by its names.
pub type PartKey = (int, Seq<u8>, Seq<u8>);

/// The place of a kind of prefix among the kinds of parts.
pub open spec fn prefix_rank(kind: PrefixKind) -> int {
    match kind {
        PrefixKind::Verbatim => 0,
        PrefixKind::VerbatimShare => 1,
        PrefixKind::VerbatimDisk => 2,
        PrefixKind::Device => 3,
        PrefixKind::Share => 4,
        PrefixKind::Disk => 5,
    }
}

impl View for PathPart {
    type V = PartKey;

    open spec fn view(&self) -> PartKey {
        match self {
            PathPart::Prefix(kind, first, second) => (prefix_rank(*kind), first@, second@),
            PathPart::Root => (6, Seq::empty(), Seq::empty()),
            PathPart::Current => (7, Seq::empty(), Seq::empty()),
            PathPart::Parent => (8, Seq::empty(), Seq::empty()),
            PathPart::Normal(name) => (9, name@, Seq::empty()),
        }
    }
}

/// The parts of a path as they are ordered.
pub open spec fn path_key(parts: Seq<PathPart>) -> Seq<PartKey> {
    parts.map_values(|part: PathPart| part@)
}

/// Whether a name stands before another: by the first byte in which they
/// differ, or because the other one goes on.
pub open spec fn name_before(a: Seq<u8>, b: Seq<u8>) -> bool
    decreases a.len(),
{
    if b.len() == 0 {
        false
    } else if a.len() == 0 {
        true
    } else if a[0] == b[0] {
        name_before(a.skip(1), b.skip(1))
    } else {
        a[0] < b[0]
    }
}

/// Whether a part stands before another.
pub open spec fn part_before(a: PartKey, b: PartKey) -> bool {
    ||| a.0 < b.0
    ||| a.0 == b.0 && name_before(a.1, b.1)
    ||| a.0 == b.0 && a.1 == b.1 && name_before(a.2, b.2)
}

/// Whether a path stands before another: by the first part in which they
/// differ, or because the other one goes on.
pub open spec fn path_before(a: Seq<PartKey>, b: Seq<PartKey>) -> bool
    decreases a.len(),
{
    if b.len() == 0 {
        false
    } else if a.len() == 0 {
        true
    } else if a[0] == b[0] {
        path_before(a.skip(1), b.skip(1))
    } else {
        part_before(a[0], b[0])
    }
}

/// No name stands before itself.
pub proof fn name_before_is_irreflexive(a: Seq<u8>)
    ensures
        !name_before(a, a),
    decreases a.len(),
{
    if a.len() > 0 {
        name_before_is_irreflexive(a.skip(1));
    }
}

/// A name that stands before another stands before all that the other stands
/// before.
pub proof fn name_before_is_transitive(a: Seq<u8>, b: Seq<u8>, c: Seq<u8>)
    requires
        name_before(a, b),
        name_before(b, c),
    ensures
        name_before(a, c),
    decreases a.len(),
{
    if a.len() > 0 && a[0] == b[0] && b[0] == c[0] {
        name_before_is_transitive(a.skip(1), b.skip(1), c.skip(1));
    }
}

proof fn lemma_part_before_is_irreflexive(a: PartKey)
    ensures
        !part_before(a, a),
{
    name_before_is_irreflexive(a.1);
    name_before_is_irreflexive(a.2);
}

proof fn lemma_part_before_is_transitive(a: PartKey, b: PartKey, c: PartKey)
    requires
        part_before(a, b),
        part_before(b, c),
    ensures
        part_before(a, c),
{
    if name_before(a.1, b.1) && name_before(b.1, c.1) {
        name_before_is_transitive(a.1, b.1, c.1);
    }
    if name_before(a.2, b.2) && name_before(b.2, c.2) {
        name_before_is_transitive(a.2, b.2, c.2);
    }
}

/// No path stands before itself.
pub proof fn path_before_is_irreflexive(a: Seq<PartKey>)
    ensures
        !path_before(a, a),
    decreases a.len(),
{
    if a.len() > 0 {
        path_before_is_irreflexive(a.skip(1));
    }
}

/// A path that stands before another stands before all that the other stands
/// before.
pub proof fn path_before_is_transitive(a: Seq<PartKey>, b: Seq<PartKey>, c: Seq<PartKey>)
    requires
        path_before(a, b),
        path_before(b, c),
    ensures
        path_before(a, c),
    decreases a.len(),
{
    if a.len() > 0 {
        if a[0] == b[0] && b[0] == c[0] {
            path_before_is_transitive(a.skip(1), b.skip(1), c.skip(1));
        } else if a[0] != b[0] && b[0] != c[0] {
            lemma_part_before_is_transitive(a[0], b[0], c[0]);
            lemma_part_before_is_irreflexive(a[0]);
        }
    }
}

fn same_name(a: &Vec<u8>, b: &Vec<u8>) -> (r: bool)
    ensures
        r == (a@ == b@),
{
    if a.len() != b.len() {
        return false;
    }
    let mut i: usize = 0;
    while i < a.len()
        invariant
            i <= a@.len(),
            a@.len() == b@.len(),
            forall|j: int| 0 <= j < i ==> a@[j] == b@[j],
        decreases a@.len() - i,
    {
        if a[i] != b[i] {
            return false;
        }
        i = i + 1;
    }
    assert(a@ =~= b@);
    true
}

fn name_is_before(a: &Vec<u8>, b: &Vec<u8>) -> (r: bool)
    ensures
        r == name_before(a@, b@),
{
    let mut i: usize = 0;
    assert(a@.skip(0) =~= a@);
    assert(b@.skip(0) =~= b@);
    while i < a.len() && i < b.len()
        invariant
            i <= a@.len(),
            i <= b@.len(),
            name_before(a@, b@) == name_before(a@.skip(i as int), b@.skip(i as int)),
        decreases a@.len() - i,
    {
        assert(a@.skip(i as int).skip(1) =~= a@.skip(i + 1));
        assert(b@.skip(i as int).skip(1) =~= b@.skip(i + 1));
        if a[i] != b[i] {
            return a[i] < b[i];
        }
        i = i + 1;
    }
    i < b.len()
}

fn kind_of(part: &PathPart) -> (r: u8)
    ensures
        r == part@.0,
{
    match part {
        PathPart::Prefix(PrefixKind::Verbatim, _, _) => 0,
        PathPart::Prefix(PrefixKind::VerbatimShare, _, _) => 1,
        PathPart::Prefix(PrefixKind::VerbatimDisk, _, _) => 2,
        PathPart::Prefix(PrefixKind::Device, _, _) => 3,
        PathPart::Prefix(PrefixKind::Share, _, _) => 4,
        PathPart::Prefix(PrefixKind::Disk, _, _) => 5,
        PathPart::Root => 6,
        PathPart::Current => 7,
        PathPart::Parent => 8,
        PathPart::Normal(_) => 9,
    }
}

fn same_part(a: &PathPart, b: &PathPart) -> (r: bool)
    ensures
        r == (a@ == b@),
{
    match (a, b) {
        (PathPart::Prefix(_, a_first, a_second), PathPart::Prefix(_, b_first, b_second)) => {
            kind_of(a) == kind_of(b) && same_name(a_first, b_first) && same_name(a_second, b_second)
        },
        (PathPart::Normal(a), PathPart::Normal(b)) => same_name(a, b),
        _ => kind_of(a) == kind_of(b),
    }
}

fn part_is_before(a: &PathPart, b: &PathPart) -> (r: bool)
    ensures
        r == part_before(a@, b@),
{
    match (a, b) {
        (PathPart::Prefix(_, a_first, a_second), PathPart::Prefix(_, b_first, b_second)) => {
            kind_of(a) < kind_of(b) || kind_of(a) == kind_of(b) && (name_is_before(a_first, b_first)
                || same_name(a_first, b_first) && name_is_before(a_second, b_second))
        },
        (PathPart::Normal(a), PathPart::Normal(b)) => name_is_before(a, b),
        _ => kind_of(a) < kind_of(b),
    }
}

fn path_is_before(a: &Vec<PathPart>, b: &Vec<PathPart>) -> (r: bool)
    ensures
        r == path_before(path_key(a@), path_key(b@)),
{
    let ghost x = path_key(a@);
    let ghost y = path_key(b@);
    let mut i: usize = 0;
    assert(x.skip(0) =~= x);
    assert(y.skip(0) =~= y);
    while i < a.len() && i < b.len()
        invariant
            i <= a@.len(),
            i <= b@.len(),
            x == path_key(a@),
            y == path_key(b@),
            path_before(x, y) == path_before(x.skip(i as int), y.skip(i as int)),
        decreases a@.len() - i,
    {
        let ghost rest_x = x.skip(i as int);
        let ghost rest_y = y.skip(i as int);
        proof {
            assert(rest_x[0] == a@[i as int]@);
            assert(rest_y[0] == b@[i as int]@);
            assert(rest_x.skip(1) =~= x.skip(i + 1));
            assert(rest_y.skip(1) =~= y.skip(i + 1));
        }
        if !same_part(&a[i], &b[i]) {
            return part_is_before(&a[i], &b[i]);
        }
        i = i + 1;
    }
    i < b.len()
}

/// Whether no file of a list stands before one that follows it.
pub open spec fn is_latest_first(files: Seq<StagingFile>) -> bool {
    forall|i: int, j: int|
        0 <= i < j < files.len() ==> !path_before(
            path_key((#[trigger] files[i]).parts@),
            path_key((#[trigger] files[j]).parts@),
        )
}

/// The files of a list that have a path, in order.
pub open spec fn files_at(files: Seq<StagingFile>, key: Seq<PartKey>) -> Seq<StagingFile> {
    files.filter(|file: StagingFile| path_key(file.parts@) == key)
}

/// A file that stands behind all others of its path is the last of them.
proof fn lemma_inserted_file_is_last_of_its_path(
    files: Seq<StagingFile>,
    k: int,
    file: StagingFile,
    key: Seq<PartKey>,
)
    requires
        0 <= k <= files.len(),
        forall|j: int|
            k <= j < files.len() ==> path_key((#[trigger] files[j]).parts@) != path_key(file.parts@),
    ensures
        files_at(files.insert(k, file), key) == files_at(files.push(file), key),
{
    let at = |file: StagingFile| path_key(file.parts@) == key;
    let front = files.take(k);
    let back = files.skip(k);
    assert(files.insert(k, file) =~= front.push(file) + back);
    assert(files =~= front + back);
    Seq::filter_distributes_over_add(front.push(file), back, at);
    Seq::filter_distributes_over_add(front, back, at);
    front.lemma_filter_push(file, at);
    files.lemma_filter_push(file, at);
    if at(file) {
        if back.filter(at).len() > 0 {
            let other = back.filter(at)[0];
            back.lemma_filter_pred(at, 0);
            back.lemma_filter_contains_rev(at, other);
            let j = choose|j: int| 0 <= j < back.len() && back[j] == other;
            assert(files[k + j] == other);
        }
        assert(back.filter(at) =~= Seq::empty());
    }
    assert(files.insert(k, file).filter(at) =~= files.push(file).filter(at));
}

fn insert_latest_first(files: &mut Vec<StagingFile>, file: StagingFile)
    requires
        is_latest_first(old(files)@),
    ensures
        is_latest_first(final(files)@),
        final(files)@.to_multiset() == old(files)@.to_multiset().insert(file),
        forall|key: Seq<PartKey>| #[trigger]
            files_at(final(files)@, key) == files_at(old(files)@.push(file), key),
{
    let ghost before = files@;
    let ghost key = path_key(file.parts@);
    let mut k: usize = 0;
    while k < files.len() && !path_is_before(&files[k].parts, &file.parts)
        invariant
            k <= files@.len(),
            files@ == before,
            key == path_key(file.parts@),
            forall|j: int| 0 <= j < k ==> !path_before(path_key((#[trigger] before[j]).parts@), key),
        decreases files@.len() - k,
    {
        k = k + 1;
    }
    proof {
        vstd::seq_lib::to_multiset_insert(before, k as int, file);
        let after = before.insert(k as int, file);
        assert forall|i: int, j: int| 0 <= i < j < after.len() implies !path_before(
            path_key((#[trigger] after[i]).parts@),
            path_key((#[trigger] after[j]).parts@),
        ) by {
            let x = path_key(after[i].parts@);
            let y = path_key(after[j].parts@);
            if i == k {
                assert(after[j] == before[j - 1]);
                let here = path_key(before[k as int].parts@);
                if path_before(key, y) {
                    path_before_is_transitive(here, key, y);
                    if j - 1 > k {
                        assert(!path_before(here, path_key(before[j - 1].parts@)));
                    } else {
                        path_before_is_irreflexive(here);
                    }
                }
            } else if j == k {
                assert(after[i] == before[i]);
            } else {
                let p = if i < k {
                    i
                } else {
                    i - 1
                };
                let q = if j < k {
                    j
                } else {
                    j - 1
                };
                assert(after[i] == before[p]);
                assert(after[j] == before[q]);
            }
        }
    }
    proof {
        assert forall|j: int| k <= j < before.len() implies path_key((#[trigger] before[j]).parts@) != key by {
            let here = path_key(before[k as int].parts@);
            path_before_is_irreflexive(here);
            if j > k {
                assert(!path_before(here, path_key(before[j].parts@)));
            }
        }
        assert forall|other: Seq<PartKey>| #[trigger]
            files_at(before.insert(k as int, file), other) == files_at(before.push(file), other) by {
            lemma_inserted_file_is_last_of_its_path(before, k as int, file, other);
        }
    }
    files.insert(k, file);
}

/// The files in staging in the order in which they are read, the latest path
/// first. Files of one path stay in their order.
pub fn order_staging_files(files: Vec<StagingFile>) -> (r: Vec<StagingFile>)
    ensures
        is_latest_first(r@),
        r@.to_multiset() == files@.to_multiset(),
        forall|key: Seq<PartKey>| #[trigger] files_at(r@, key) == files_at(files@, key),
{
    let ghost all = files@;
    let mut r: Vec<StagingFile> = Vec::new();
    assert(all.take(0) =~= Seq::<StagingFile>::empty());
    for file in it: files
        invariant
            it.seq() == all,
            is_latest_first(r@),
            r@.to_multiset() == all.take(it.index()).to_multiset(),
            forall|key: Seq<PartKey>| #[trigger] files_at(r@, key) == files_at(all.take(it.index()), key),
    {
        let ghost n = it.index();
        proof {
            assert(all.take(n + 1) =~= all.take(n).push(all[n]));
            vstd::seq_lib::to_multiset_build(all.take(n), all[n]);
        }
        let ghost before = r@;
        insert_latest_first(&mut r, file);
        proof {
            assert forall|key: Seq<PartKey>| #[trigger] files_at(r@, key) == files_at(all.take(n + 1), key) by {
                let at = |file: StagingFile| path_key(file.parts@) == key;
                before.lemma_filter_push(all[n], at);
                all.take(n).lemma_filter_push(all[n], at);
                assert(files_at(before, key) == files_at(all.take(n), key));
            }
        }
    }
    assert(all.take(all.len() as int) =~= all);
    r
}

/// The files of a list whose size could be read, in order.
pub open spec fn readable_files(files: Seq<(String, Option<u64>)>) -> Seq<(Seq<char>, u64)>
    decreases files.len(),
{
    if files.len() == 0 {
        Seq::empty()
    } else {
        let before = readable_files(files.drop_last());
        match files.last().1 {
            Some(size) => before.push((files.last().0@, size)),
            None => before,
        }
    }
}

/// The one group of files in staging that a scan reads: those whose size
/// could be read, in order. A file may be gone by the time it is looked at.
pub fn staging_group(files: Vec<(String, Option<u64>)>) -> (r: Vec<PartitionedFile>)
    ensures
        paths_and_sizes(r@) == readable_files(files@),
{
    let ghost all = files@;
    let mut r: Vec<PartitionedFile> = Vec::new();
    assert(paths_and_sizes(r@) =~= readable_files(all.take(0)));
    for file in it: files
        invariant
            it.seq() == all,
            paths_and_sizes(r@) == readable_files(all.take(it.index())),
    {
        let ghost n = it.index();
        let ghost before = r@;
        proof {
            assert(all.take(n + 1).drop_last() =~= all.take(n));
            assert(all.take(n + 1).last() == all[n]);
        }
        let (path, size) = file;
        let ghost text = path@;
        if let Some(size) = size {
            r.push(PartitionedFile { path, size });
            assert(paths_and_sizes(r@) =~= paths_and_sizes(before).push((text, size)));
        }
    }
    assert(all.take(all.len() as int) =~= all);
    r
}

// ---------------------------------------------------------------------------
// The order of paths
// ---------------------------------------------------------------------------

/// Of two names that differ, one stands before the other.
pub proof fn name_before_is_total(a: Seq<u8>, b: Seq<u8>)
    ensures
        name_before(a, b) || a == b || name_before(b, a),
    decreases a.len(),
{
    if a.len() > 0 && b.len() > 0 {
        if a[0] == b[0] {
            name_before_is_total(a.skip(1), b.skip(1));
            if a.skip(1) == b.skip(1) {
                assert(a =~= seq![a[0]] + a.skip(1));
                assert(b =~= seq![b[0]] + b.skip(1));
            }
        }
    } else if a.len() == 0 && b.len() == 0 {
        assert(a =~= b);
    }
}

/// Of two paths that differ, one stands before the other.
pub proof fn path_before_is_total(a: Seq<PartKey>, b: Seq<PartKey>)
    ensures
        path_before(a, b) || a == b || path_before(b, a),
    decreases a.len(),
{
    if a.len() > 0 && b.len() > 0 {
        if a[0] == b[0] {
            path_before_is_total(a.skip(1), b.skip(1));
            if a.skip(1) == b.skip(1) {
                assert(a =~= seq![a[0]] + a.skip(1));
                assert(b =~= seq![b[0]] + b.skip(1));
            }
        } else {
            name_before_is_total(a[0].1, b[0].1);
            name_before_is_total(a[0].2, b[0].2);
        }
    } else if a.len() == 0 && b.len() == 0 {
        assert(a =~= b);
    }
}

/// Names that differ in their last byte alone stand as that byte does, and a
/// name stands before all that go on from it.
pub proof fn names_stand_by_their_first_difference(front: Seq<u8>, a: u8, b: u8, x: Seq<u8>, y: Seq<u8>)
    ensures
        a != b ==> (name_before(front + seq![a] + x, front + seq![b] + y) <==> a < b),
        name_before(front, front + seq![a] + x),
    decreases front.len(),
{
    let p = front + seq![a] + x;
    let q = front + seq![b] + y;
    if front.len() > 0 {
        names_stand_by_their_first_difference(front.skip(1), a, b, x, y);
        assert(p.skip(1) =~= front.skip(1) + seq![a] + x);
        assert(q.skip(1) =~= front.skip(1) + seq![b] + y);
    }
}

/// Paths stand as the first parts in which they differ: the root before the
/// current directory, that before the parent, that before names, and names by
/// their bytes. A path stands before all that go on from it.
pub proof fn paths_stand_by_their_first_difference(
    front: Seq<PathPart>,
    a: PathPart,
    b: PathPart,
    x: Seq<PathPart>,
    y: Seq<PathPart>,
)
    ensures
        ({
            let p = path_key(front + seq![a] + x);
            let q = path_key(front + seq![b] + y);
            &&& path_before(path_key(front), p)
            &&& match (a, b) {
                (PathPart::Normal(m), PathPart::Normal(n)) => name_before(m@, n@) ==> path_before(p, q),
                (PathPart::Root, PathPart::Current) => path_before(p, q),
                (PathPart::Root, PathPart::Parent) => path_before(p, q),
                (PathPart::Root, PathPart::Normal(_)) => path_before(p, q),
                (PathPart::Current, PathPart::Parent) => path_before(p, q),
                (PathPart::Current, PathPart::Normal(_)) => path_before(p, q),
                (PathPart::Parent, PathPart::Normal(_)) => path_before(p, q),
                _ => true,
            }
        }),
    decreases front.len(),
{
    let p = front + seq![a] + x;
    let q = front + seq![b] + y;
    if let (PathPart::Normal(m), PathPart::Normal(n)) = (a, b) {
        if name_before(m@, n@) {
            name_before_is_irreflexive(m@);
        }
    }
    if front.len() > 0 {
        paths_stand_by_their_first_difference(front.skip(1), a, b, x, y);
        assert(path_key(p).skip(1) =~= path_key(front.skip(1) + seq![a] + x));
        assert(path_key(q).skip(1) =~= path_key(front.skip(1) + seq![b] + y));
        assert(path_key(front).skip(1) =~= path_key(front.skip(1)));
        assert(path_key(p)[0] == front[0]@);
        assert(path_key(q)[0] == front[0]@);
    } else {
        assert(path_key(p)[0] == a@);
        assert(path_key(q)[0] == b@);
    }
}

/// A scan of staging reads the files whose size could be read, each with its
/// size, in order.
pub proof fn staging_reads_files_one_by_one(
    a: Seq<(String, Option<u64>)>,
    b: Seq<(String, Option<u64>)>,
    path: String,
    size: u64,
)
    ensures
        readable_files(a + b) == readable_files(a) + readable_files(b),
        readable_files(seq![(path, Some(size))]) == seq![(path@, size)],
        readable_files(seq![(path, None::<u64>)]).len() == 0,
    decreases b.len(),
{
    if b.len() == 0 {
        assert(a + b =~= a);
        assert(readable_files(a) + readable_files(b) =~= readable_files(a));
    } else {
        assert((a + b).drop_last() =~= a + b.drop_last());
        staging_reads_files_one_by_one(a, b.drop_last(), path, size);
        if let Some(size) = b.last().1 {
            let front = readable_files(a);
            let back = readable_files(b.drop_last());
            assert((front + back).push((b.last().0@, size)) =~= front + back.push((b.last().0@, size)));
        }
    }
    reveal_with_fuel(readable_files, 2);
    let one = seq![(path, Some(size))];
    assert(one.drop_last() =~= Seq::<(String, Option<u64>)>::empty());
    assert(Seq::<(Seq<char>, u64)>::empty().push((path@, size)) =~= seq![(path@, size)]);
    let gone = seq![(path, None::<u64>)];
    assert(gone.drop_last() =~= Seq::<(String, Option<u64>)>::empty());
}

/// Of two files in staging, the one whose path stands behind that of the other
/// is read first.
pub proof fn later_paths_are_read_first(files: Seq<StagingFile>, i: int, j: int)
    requires
        is_latest_first(files),
        0 <= i < files.len(),
        0 <= j < files.len(),
        path_before(path_key(files[j].parts@), path_key(files[i].parts@)),
    ensures
        i < j,
{
    path_before_is_irreflexive(path_key(files[i].parts@));
    if j < i {
        assert(!path_before(path_key(files[j].parts@), path_key(files[i].parts@)));
    }
}

} // verus!
