//! What is known of one column of a file: the range of its values, and indexes
//! over them.
use vstd::prelude::*;

use crate::float::FloatBits;
use crate::text::{
    str_before, str_same, text_before, text_before_is_asymmetric, text_before_is_irreflexive, texts,
};

verus! {

// ---------------------------------------------------------------------------
// Ranges
// ---------------------------------------------------------------------------

#[derive(Clone, Copy, Debug)]
pub struct BoolType {
    pub min: bool,
    pub max: bool,
}

#[derive(Clone, Copy, Debug)]
pub struct Float64Type {
    pub min: FloatBits,
    pub max: FloatBits,
}

#[derive(Clone, Copy, Debug)]
pub struct Int64Type {
    pub min: i64,
    pub max: i64,
}

#[derive(Clone, Debug)]
pub struct Utf8Type {
    pub min: String,
    pub max: String,
}

/// The lowest and the highest value of a column.
#[derive(Debug)]
pub enum TypedStatistics {
    Bool(BoolType),
    Int(Int64Type),
    Float(Float64Type),
    String(Utf8Type),
}

/// The range of a column, as its values go.
pub enum Range {
    Bool(bool, bool),
    Int(int, int),
    Float(FloatBits, FloatBits),
    String(Seq<char>, Seq<char>),
}

/// The earlier of two texts.
pub open spec fn earlier_text(a: Seq<char>, b: Seq<char>) -> Seq<char> {
    if text_before(b, a) {
        b
    } else {
        a
    }
}

/// The later of two texts.
pub open spec fn later_text(a: Seq<char>, b: Seq<char>) -> Seq<char> {
    if text_before(a, b) {
        b
    } else {
        a
    }
}

impl Range {
    /// The least range that covers both; none where they are of different types.
    pub open spec fn cover(self, other: Range) -> Option<Range> {
        match (self, other) {
            (Range::Bool(a, b), Range::Bool(c, d)) => Some(Range::Bool(a && c, b || d)),
            (Range::Int(a, b), Range::Int(c, d)) => Some(
                Range::Int(
                    if c < a {
                        c
                    } else {
                        a
                    },
                    if d > b {
                        d
                    } else {
                        b
                    },
                ),
            ),
            (Range::Float(a, b), Range::Float(c, d)) => Some(Range::Float(a.lower(c), b.higher(d))),
            (Range::String(a, b), Range::String(c, d)) => Some(
                Range::String(earlier_text(a, c), later_text(b, d)),
            ),
            _ => None,
        }
    }
}

impl View for TypedStatistics {
    type V = Range;

    open spec fn view(&self) -> Range {
        match self {
            TypedStatistics::Bool(s) => Range::Bool(s.min, s.max),
            TypedStatistics::Int(s) => Range::Int(s.min as int, s.max as int),
            TypedStatistics::Float(s) => Range::Float(s.min, s.max),
            TypedStatistics::String(s) => Range::String(s.min@, s.max@),
        }
    }
}

/// The range behind optional statistics.
pub open spec fn range_of(stats: Option<TypedStatistics>) -> Option<Range> {
    match stats {
        Some(s) => Some(s@),
        None => None,
    }
}

/// The range over the parts of a column: that of the first part, covering each
/// later one that has a range. There is none where the first part has none or
/// two parts have ranges of different types.
pub open spec fn merged_range(ranges: Seq<Option<Range>>) -> Option<Range>
    decreases ranges.len(),
{
    if ranges.len() == 0 {
        None
    } else if ranges.len() == 1 {
        ranges.last()
    } else {
        match (merged_range(ranges.drop_last()), ranges.last()) {
            (Some(this), Some(other)) => this.cover(other),
            (this, None) => this,
            (None, _) => None,
        }
    }
}

impl TypedStatistics {
    /// The least range that covers both; `None` where the two are of different
    /// types, as when a column was written under different types over time.
    pub fn update(self, other: TypedStatistics) -> (r: Option<TypedStatistics>)
        ensures
            range_of(r) == self@.cover(other@),
    {
        match (self, other) {
            (TypedStatistics::Bool(this), TypedStatistics::Bool(other)) => Some(
                TypedStatistics::Bool(
                    BoolType { min: this.min && other.min, max: this.max || other.max },
                ),
            ),
            (TypedStatistics::Int(this), TypedStatistics::Int(other)) => Some(
                TypedStatistics::Int(
                    Int64Type {
                        min: if other.min < this.min {
                            other.min
                        } else {
                            this.min
                        },
                        max: if other.max > this.max {
                            other.max
                        } else {
                            this.max
                        },
                    },
                ),
            ),
            (TypedStatistics::Float(this), TypedStatistics::Float(other)) => Some(
                TypedStatistics::Float(
                    Float64Type {
                        min: this.min.min_number(other.min),
                        max: this.max.max_number(other.max),
                    },
                ),
            ),
            (TypedStatistics::String(this), TypedStatistics::String(other)) => {
                let min = if str_before(other.min.as_str(), this.min.as_str()) {
                    other.min
                } else {
                    this.min
                };
                let max = if str_before(this.max.as_str(), other.max.as_str()) {
                    other.max
                } else {
                    this.max
                };
                Some(TypedStatistics::String(Utf8Type { min, max }))
            },
            _ => None,
        }
    }
}

impl Clone for TypedStatistics {
    fn clone(&self) -> (r: TypedStatistics)
        ensures
            r@ == self@,
    {
        match self {
            TypedStatistics::Bool(s) => TypedStatistics::Bool(*s),
            TypedStatistics::Int(s) => TypedStatistics::Int(*s),
            TypedStatistics::Float(s) => TypedStatistics::Float(*s),
            TypedStatistics::String(s) => TypedStatistics::String(
                Utf8Type { min: s.min.clone(), max: s.max.clone() },
            ),
        }
    }
}

/// The range over parts that all hold numbers is from the least of their least
/// to the greatest of their greatest.
pub proof fn numbers_range_from_least_to_greatest(ranges: Seq<Option<Range>>)
    requires
        ranges.len() > 0,
        forall|i: int| 0 <= i < ranges.len() ==> #[trigger] ranges[i] is Some && ranges[i]->0 is Int,
    ensures
        merged_range(ranges) matches Some(Range::Int(least, greatest)) && {
            &&& forall|i: int|
                0 <= i < ranges.len() ==> least <= (#[trigger] ranges[i])->0->Int_0 && ranges[i]->0->Int_1
                    <= greatest
            &&& exists|i: int| 0 <= i < ranges.len() && (#[trigger] ranges[i])->0->Int_0 == least
            &&& exists|i: int| 0 <= i < ranges.len() && (#[trigger] ranges[i])->0->Int_1 == greatest
        },
    decreases ranges.len(),
{
    let last = ranges.len() - 1;
    assert(ranges[last] is Some && ranges[last]->0 is Int);
    if ranges.len() > 1 {
        let shorter = ranges.drop_last();
        assert forall|i: int| 0 <= i < shorter.len() implies #[trigger] shorter[i] is Some && shorter[i]->0 is Int by {
            assert(shorter[i] == ranges[i]);
        }
        numbers_range_from_least_to_greatest(shorter);
        let before = merged_range(shorter)->0;
        let l = choose|i: int| 0 <= i < shorter.len() && (#[trigger] shorter[i])->0->Int_0 == before->Int_0;
        let g = choose|i: int| 0 <= i < shorter.len() && (#[trigger] shorter[i])->0->Int_1 == before->Int_1;
        assert(ranges[l] == shorter[l]);
        assert(ranges[g] == shorter[g]);
        assert forall|i: int| 0 <= i < ranges.len() implies merged_range(ranges)->0->Int_0 <= (
        #[trigger] ranges[i])->0->Int_0 && ranges[i]->0->Int_1 <= merged_range(ranges)->0->Int_1 by {
            if i < last {
                assert(shorter[i] == ranges[i]);
            }
        }
    }
}

/// Parts without a range of their own are passed over, but for the first; and
/// where the first has none there is none.
pub proof fn parts_without_a_range_are_passed_over(ranges: Seq<Option<Range>>)
    requires
        ranges.len() > 0,
    ensures
        merged_range(ranges.push(None)) == merged_range(ranges),
        ranges[0] is None ==> merged_range(ranges) is None,
    decreases ranges.len(),
{
    assert(ranges.push(None).drop_last() =~= ranges);
    if ranges.len() > 1 {
        parts_without_a_range_are_passed_over(ranges.drop_last());
    }
}

/// Two ranges are covered by one exactly where they are of one type, and its
/// ends are ends of theirs: it covers no more than it must.
pub proof fn cover_is_tight(a: Range, b: Range)
    ensures
        match (a, b) {
            (Range::Bool(l, h), Range::Bool(m, k)) => a.cover(b) matches Some(Range::Bool(x, y)) && (x == l || x
                == m) && (y == h || y == k) && (x ==> l && m) && (h || k ==> y),
            (Range::Int(l, h), Range::Int(m, k)) => a.cover(b) matches Some(Range::Int(x, y)) && (x == l || x
                == m) && (y == h || y == k) && x <= l && x <= m && h <= y && k <= y,
            (Range::Float(l, h), Range::Float(m, k)) => a.cover(b) matches Some(Range::Float(x, y)) && (x == l
                || x == m) && (y == h || y == k) && (!l.nan() ==> x.at_most(l)) && (!m.nan() ==> x.at_most(m)) && (
            !h.nan() ==> h.at_most(y)) && (!k.nan() ==> k.at_most(y)),
            (Range::String(l, h), Range::String(m, k)) => a.cover(b) matches Some(Range::String(x, y)) && (x == l
                || x == m) && (y == h || y == k) && !text_before(l, x) && !text_before(m, x) && !text_before(y, h)
                && !text_before(y, k),
            _ => a.cover(b) is None,
        },
{
    if let (Range::String(l, h), Range::String(m, k)) = (a, b) {
        text_before_is_irreflexive(l);
        text_before_is_irreflexive(m);
        text_before_is_irreflexive(h);
        text_before_is_irreflexive(k);
        if text_before(m, l) {
            text_before_is_asymmetric(m, l);
        }
        if text_before(h, k) {
            text_before_is_asymmetric(h, k);
        }
    }
}

// ---------------------------------------------------------------------------
// Hashes
// ---------------------------------------------------------------------------

/// The hash of no bytes.
pub const HASH_OFFSET: u64 = 0xcbf2_9ce4_8422_2325;

/// The factor that each byte's step multiplies by.
pub const HASH_PRIME: u64 = 0x0000_0100_0000_01b3;

/// One step of the hash: the byte is mixed in, then the sum is multiplied.
pub open spec fn hash_step(hash: u64, byte: u8) -> u64 {
    (hash ^ (byte as u64)).wrapping_mul(HASH_PRIME)
}

/// The 64-bit FNV-1a hash of a sequence of bytes.
pub open spec fn fnv1a(bytes: Seq<u8>) -> u64
    decreases bytes.len(),
{
    if bytes.len() == 0 {
        HASH_OFFSET
    } else {
        hash_step(fnv1a(bytes.drop_last()), bytes.last())
    }
}

/// The hash of a text: that of its UTF-8 bytes.
pub open spec fn text_hash(s: Seq<char>) -> u64 {
    fnv1a(vstd::utf8::encode_utf8(s))
}

/// The hash of a text goes byte by byte over its UTF-8 form: one more byte is
/// mixed into the hash of those before it.
pub proof fn hashes_go_byte_by_byte(s: Seq<char>, bytes: Seq<u8>, byte: u8)
    ensures
        vstd::utf8::encode_utf8(s) == bytes.push(byte) ==> text_hash(s) == (fnv1a(bytes) ^ (
        byte as u64)).wrapping_mul(0x100_0000_01b3),
        vstd::utf8::encode_utf8(s).len() == 0 ==> text_hash(s) == 0xcbf2_9ce4_8422_2325,
        fnv1a(bytes.push(byte)) == (fnv1a(bytes) ^ (byte as u64)).wrapping_mul(0x100_0000_01b3),
{
    assert(bytes.push(byte).drop_last() =~= bytes);
}

fn stable_hash(bytes: &[u8]) -> (r: u64)
    ensures
        r == fnv1a(bytes@),
{
    let mut hash: u64 = HASH_OFFSET;
    let mut i: usize = 0;
    while i < bytes.len()
        invariant
            i <= bytes@.len(),
            hash == fnv1a(bytes@.take(i as int)),
        decreases bytes@.len() - i,
    {
        proof {
            let next = bytes@.take(i + 1);
            assert(next.drop_last() =~= bytes@.take(i as int));
            assert(next.last() == bytes@[i as int]);
        }
        hash = (hash ^ (bytes[i] as u64)).wrapping_mul(HASH_PRIME);
        i = i + 1;
    }
    assert(bytes@.take(i as int) =~= bytes@);
    hash
}

/// The hash under which an exact-value index keeps a value.
pub fn exact_value_hash(value: &str) -> (r: u64)
    ensures
        r == text_hash(value@),
{
    stable_hash(value.as_bytes())
}

/// The hash under which a text index keeps a gram.
pub fn text_ngram_hash(gram: &str) -> (r: u64)
    ensures
        r == text_hash(gram@),
{
    stable_hash(gram.as_bytes())
}

// ---------------------------------------------------------------------------
// Indexes
// ---------------------------------------------------------------------------

/// The distinct values of a column, as text.
#[derive(Clone, Debug)]
pub struct ExactValues {
    /// Whether no value of the column is left out.
    pub complete: bool,
    pub values: Vec<String>,
    /// What the values read as where a double is expected: `floats[i]` is the
    /// reading of `values[i]`, and a value beyond the end has none.
    pub floats: Vec<Option<FloatBits>>,
}

/// The hashes of the distinct values of a column.
#[derive(Clone, Debug)]
pub struct ExactHashes {
    /// Whether no value of the column is left out.
    pub complete: bool,
    pub hashes: Vec<u64>,
}

/// The grams that occur in a text column, in lowercase.
#[derive(Clone, Debug)]
pub struct TextNgrams {
    /// Whether no gram of at least `min_len` characters is left out.
    pub complete: bool,
    pub min_len: usize,
    pub grams: Vec<String>,
}

/// The hashes of the grams that occur in a text column, in lowercase.
#[derive(Clone, Debug)]
pub struct TextNgramHashes {
    /// Whether no gram of at least `min_len` characters is left out.
    pub complete: bool,
    pub min_len: usize,
    pub hashes: Vec<u64>,
}

/// Whether a string is among those of a list.
fn list_contains(list: &Vec<String>, text: &str) -> (r: bool)
    ensures
        r == texts(list@).contains(text@),
{
    let mut i: usize = 0;
    while i < list.len()
        invariant
            i <= list@.len(),
            forall|j: int| 0 <= j < i ==> texts(list@)[j] != text@,
        decreases list@.len() - i,
    {
        if str_same(list[i].as_str(), text) {
            assert(texts(list@)[i as int] == text@);
            return true;
        }
        i = i + 1;
    }
    false
}

/// Whether a number is among those of a list.
fn number_list_contains(list: &Vec<u64>, number: u64) -> (r: bool)
    ensures
        r == list@.contains(number),
{
    let mut i: usize = 0;
    while i < list.len()
        invariant
            i <= list@.len(),
            forall|j: int| 0 <= j < i ==> list@[j] != number,
        decreases list@.len() - i,
    {
        if list[i] == number {
            return true;
        }
        i = i + 1;
    }
    false
}

impl ExactValues {
    /// The texts of the values.
    pub open spec fn texts(self) -> Seq<Seq<char>> {
        texts(self.values@)
    }

    /// What the value at a place reads as where a double is expected.
    pub open spec fn float_reading(self, i: int) -> Option<FloatBits> {
        if 0 <= i < self.floats@.len() {
            self.floats@[i]
        } else {
            None
        }
    }

    /// Whether a value is in the index.
    pub fn contains(&self, value: &str) -> (r: bool)
        ensures
            r == self.texts().contains(value@),
    {
        list_contains(&self.values, value)
    }
}

impl ExactHashes {
    /// Whether the hash of a value is in the index.
    pub fn contains_value(&self, value: &str) -> (r: bool)
        ensures
            r == self.hashes@.contains(text_hash(value@)),
    {
        number_list_contains(&self.hashes, exact_value_hash(value))
    }
}

impl TextNgrams {
    /// The texts of the grams.
    pub open spec fn texts(self) -> Seq<Seq<char>> {
        texts(self.grams@)
    }

    /// Whether a gram is in the index.
    pub fn contains(&self, gram: &str) -> (r: bool)
        ensures
            r == self.texts().contains(gram@),
    {
        list_contains(&self.grams, gram)
    }
}

impl TextNgramHashes {
    /// Whether the hash of a gram is in the index.
    pub fn contains(&self, gram: &str) -> (r: bool)
        ensures
            r == self.hashes@.contains(text_hash(gram@)),
    {
        number_list_contains(&self.hashes, text_ngram_hash(gram))
    }
}

/// What is known of one column of a file.
#[derive(Clone, Debug)]
pub struct Column {
    pub name: String,
    pub stats: Option<TypedStatistics>,
    pub exact_values: Option<ExactValues>,
    pub exact_hashes: Option<ExactHashes>,
    pub text_ngrams: Option<TextNgrams>,
    pub text_ngram_hashes: Option<TextNgramHashes>,
    pub uncompressed_size: u64,
    pub compressed_size: u64,
}

} // verus!
