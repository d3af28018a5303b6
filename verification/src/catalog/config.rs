//! Which columns are indexed, and how large an index may grow, as a server is
//! told in its environment.
use vstd::prelude::*;

use crate::numeral::{parse_usize, usize_reading};
use crate::terms::{lists_texts, TermSet};
use crate::text::{chars_of, optional_text, string_of, texts};

verus! {

/// The variable that lists the columns to index by exact values.
pub const EXACT_INDEX_FIELDS_ENV: &'static str = "P_EXACT_INDEX_FIELDS";

/// The variable that limits the values of an index.
pub const EXACT_INDEX_MAX_VALUES_ENV: &'static str = "P_EXACT_INDEX_MAX_VALUES";

/// The most values of an index where the variable does not say.
pub const DEFAULT_EXACT_INDEX_MAX_VALUES: usize = 4096;

/// The variable that limits the hashes of an index.
pub const EXACT_INDEX_MAX_HASHES_ENV: &'static str = "P_EXACT_INDEX_MAX_HASHES";

/// The most hashes of an index where the variable does not say.
pub const DEFAULT_EXACT_INDEX_MAX_HASHES: usize = 1_000_000;

/// The variable that lists the columns to index by text.
pub const TEXT_INDEX_FIELDS_ENV: &'static str = "P_TEXT_INDEX_FIELDS";

/// The variable that limits the grams of a text index.
pub const TEXT_INDEX_MAX_TERMS_ENV: &'static str = "P_TEXT_INDEX_MAX_TERMS";

/// The most grams of a text index where the variable does not say.
pub const DEFAULT_TEXT_INDEX_MAX_TERMS: usize = 65_536;

/// Which columns are indexed by exact values.
#[derive(Debug)]
pub struct ExactIndexConfig {
    pub fields: Vec<String>,
    pub max_values: usize,
    pub max_hashes: usize,
}

/// Which columns are indexed by text.
#[derive(Debug)]
pub struct TextIndexConfig {
    pub fields: Vec<String>,
    pub max_terms: usize,
}

// ---------------------------------------------------------------------------
// Lists of fields
// ---------------------------------------------------------------------------

/// Whether a character is white space, as Unicode has it.
pub open spec fn is_white_space(c: char) -> bool {
    let n = c as int;
    ||| 0x09 <= n <= 0x0d
    ||| n == 0x20
    ||| n == 0x85
    ||| n == 0xa0
    ||| n == 0x1680
    ||| 0x2000 <= n <= 0x200a
    ||| n == 0x2028
    ||| n == 0x2029
    ||| n == 0x202f
    ||| n == 0x205f
    ||| n == 0x3000
}

/// A text without the white space before it and behind it.
pub open spec fn trimmed(s: Seq<char>) -> Seq<char>
    decreases s.len(),
{
    if s.len() == 0 {
        s
    } else if is_white_space(s.first()) {
        trimmed(s.skip(1))
    } else if is_white_space(s.last()) {
        trimmed(s.drop_last())
    } else {
        s
    }
}

/// `str::trim`: the text without the white space before it and behind it.
#[verifier::external_body]
fn trim(s: &str) -> (r: &str)
    ensures
        r@ == trimmed(s@),
{
    s.trim()
}

/// Whether a part of a list is one of its pieces: it reaches from the start
/// or a comma to the next comma or the end.
pub open spec fn is_piece(list: Seq<char>, from: int, to: int) -> bool {
    &&& 0 <= from <= to <= list.len()
    &&& from == 0 || list[from - 1] == ','
    &&& to == list.len() || list[to] == ','
    &&& forall|i: int| from <= i < to ==> #[trigger] list[i] != ','
}

/// The fields that a list names: its pieces, trimmed, but for empty ones.
pub open spec fn named_fields(list: Seq<char>) -> Set<Seq<char>> {
    fields_before(list, (list.len() + 1) as int)
}

/// The fields that the pieces of a list name which end before a place.
pub open spec fn fields_before(list: Seq<char>, end: int) -> Set<Seq<char>> {
    Set::new(
        |field: Seq<char>|
            field.len() > 0 && exists|from: int, to: int| #[trigger]
                is_piece(list, from, to) && to < end && trimmed(list.subrange(from, to)) == field,
    )
}

/// The fields that a list names, each once, in order.
pub fn field_list(list: &str) -> (r: Vec<String>)
    ensures
        lists_texts(r@, named_fields(list@)),
{
    let chars = chars_of(list);
    let ghost all = list@;
    let mut fields = TermSet::new();
    let mut start: usize = 0;
    let mut i: usize = 0;
    assert(fields@ =~= fields_before(all, 0));
    let mut done = false;
    while !done
        invariant
            chars@ == all,
            fields.wf(),
            !done ==> {
                &&& start <= i <= all.len()
                &&& start == 0 || all[start - 1] == ','
                &&& forall|j: int| start <= j < i ==> #[trigger] all[j] != ','
                &&& fields@ == fields_before(all, i as int)
            },
            done ==> fields@ == named_fields(all),
        decreases (if done {
            0int
        } else {
            all.len() - i + 1
        }),
    {
        let at_end = i >= chars.len();
        let ghost before = fields@;
        if at_end || chars[i] == ',' {
            let piece = string_of(vstd::slice::slice_subrange(chars.as_slice(), start, i));
            let field = trim(piece.as_str());
            let ghost name = trimmed(all.subrange(start as int, i as int));
            proof {
                assert(piece@ == all.subrange(start as int, i as int));
                assert(is_piece(all, start as int, i as int));
                assert forall|f: Seq<char>| fields_before(all, i + 1).contains(f) <==> before.contains(f) || (
                f == name && f.len() > 0) by {
                    if fields_before(all, i + 1).contains(f) && !before.contains(f) {
                        let (from, to) = choose|from: int, to: int| #[trigger]
                            is_piece(all, from, to) && to < i + 1 && trimmed(all.subrange(from, to)) == f;
                        assert(to == i);
                        if from < start {
                            assert(all[start - 1] == ',');
                        }
                        if from > start {
                            assert(all[from - 1] == ',');
                        }
                    }
                    if before.contains(f) {
                        let (from, to) = choose|from: int, to: int| #[trigger]
                            is_piece(all, from, to) && to < i && trimmed(all.subrange(from, to)) == f;
                        assert(is_piece(all, from, to) && to < i + 1);
                    }
                }
            }
            if !field.is_empty() {
                fields.insert(field.to_string());
                assert(fields@ =~= fields_before(all, i + 1));
            } else {
                assert(fields@ =~= fields_before(all, i + 1));
            }
            if at_end {
                done = true;
            } else {
                i = i + 1;
                start = i;
            }
        } else {
            proof {
                assert forall|f: Seq<char>| fields_before(all, i + 1).contains(f) <==> before.contains(f) by {
                    if fields_before(all, i + 1).contains(f) {
                        let (from, to) = choose|from: int, to: int| #[trigger]
                            is_piece(all, from, to) && to < i + 1 && trimmed(all.subrange(from, to)) == f;
                        assert(to != i);
                        assert(is_piece(all, from, to) && to < i);
                    }
                    if before.contains(f) {
                        let (from, to) = choose|from: int, to: int| #[trigger]
                            is_piece(all, from, to) && to < i && trimmed(all.subrange(from, to)) == f;
                        assert(is_piece(all, from, to) && to < i + 1);
                    }
                }
                assert(fields@ =~= fields_before(all, i + 1));
            }
            i = i + 1;
        }
    }
    fields.into_vec()
}

// ---------------------------------------------------------------------------
// Configurations
// ---------------------------------------------------------------------------

/// The limit that a text gives, and another where it gives none.
pub open spec fn limit_of(text: Option<Seq<char>>, default: usize) -> usize {
    match text {
        Some(text) => match usize_reading(text) {
            Some(limit) => limit,
            None => default,
        },
        None => default,
    }
}

fn limit_or(text: Option<&str>, default: usize) -> (r: usize)
    ensures
        r == limit_of(optional_text(text), default),
{
    match text {
        Some(text) => match parse_usize(text) {
            Some(limit) => limit,
            None => default,
        },
        None => default,
    }
}

/// Which columns are indexed by exact values, by the three variables: those
/// that the first lists, within the limits of the others. None are where no
/// column is listed or both limits are zero.
pub fn exact_index_config(fields: Option<&str>, max_values: Option<&str>, max_hashes: Option<&str>) -> (r: Option<
    ExactIndexConfig,
>)
    ensures
        r is Some <==> {
            &&& fields is Some
            &&& named_fields(fields->0@).len() > 0
            &&& limit_of(optional_text(max_values), DEFAULT_EXACT_INDEX_MAX_VALUES) > 0 || limit_of(
                optional_text(max_hashes),
                DEFAULT_EXACT_INDEX_MAX_HASHES,
            ) > 0
        },
        r matches Some(config) ==> {
            &&& lists_texts(config.fields@, named_fields(fields->0@))
            &&& config.max_values == limit_of(optional_text(max_values), DEFAULT_EXACT_INDEX_MAX_VALUES)
            &&& config.max_hashes == limit_of(optional_text(max_hashes), DEFAULT_EXACT_INDEX_MAX_HASHES)
        },
{
    match fields {
        Some(list) => {
            let fields = field_list(list);
            proof {
                lemma_listed_set_is_empty(fields@, named_fields(list@));
            }
            if fields.is_empty() {
                return None;
            }
            let max_values = limit_or(max_values, DEFAULT_EXACT_INDEX_MAX_VALUES);
            let max_hashes = limit_or(max_hashes, DEFAULT_EXACT_INDEX_MAX_HASHES);
            if max_values > 0 || max_hashes > 0 {
                Some(ExactIndexConfig { fields, max_values, max_hashes })
            } else {
                None
            }
        },
        None => None,
    }
}

/// Which columns are indexed by text, by the two variables: those that the
/// first lists, within the limit of the other. None are where no column is
/// listed or the limit is zero.
pub fn text_index_config(fields: Option<&str>, max_terms: Option<&str>) -> (r: Option<TextIndexConfig>)
    ensures
        r is Some <==> {
            &&& fields is Some
            &&& named_fields(fields->0@).len() > 0
            &&& limit_of(optional_text(max_terms), DEFAULT_TEXT_INDEX_MAX_TERMS) > 0
        },
        r matches Some(config) ==> {
            &&& lists_texts(config.fields@, named_fields(fields->0@))
            &&& config.max_terms == limit_of(optional_text(max_terms), DEFAULT_TEXT_INDEX_MAX_TERMS)
        },
{
    match fields {
        Some(list) => {
            let fields = field_list(list);
            proof {
                lemma_listed_set_is_empty(fields@, named_fields(list@));
            }
            if fields.is_empty() {
                return None;
            }
            let max_terms = limit_or(max_terms, DEFAULT_TEXT_INDEX_MAX_TERMS);
            if max_terms > 0 {
                Some(TextIndexConfig { fields, max_terms })
            } else {
                None
            }
        },
        None => None,
    }
}

proof fn lemma_listed_set_is_empty(list: Seq<String>, set: Set<Seq<char>>)
    requires
        lists_texts(list, set),
    ensures
        list.len() == 0 <==> set.len() == 0,
{
    texts(list).lemma_cardinality_of_empty_set_is_0();
}

// ---------------------------------------------------------------------------
// What lists name
// ---------------------------------------------------------------------------

/// A list without a comma names one field, itself without the white space around
/// it; one of white space alone names none.
pub proof fn list_without_a_comma_names_one_field(list: Seq<char>, field: Seq<char>)
    requires
        forall|i: int| 0 <= i < list.len() ==> #[trigger] list[i] != ',',
    ensures
        named_fields(list).contains(field) <==> field.len() > 0 && field == trimmed(list),
{
    let n = list.len() as int;
    assert(list.subrange(0, n) =~= list);
    assert(is_piece(list, 0, n));
    if named_fields(list).contains(field) {
        let (from, to) = choose|from: int, to: int| #[trigger]
            is_piece(list, from, to) && to < n + 1 && trimmed(list.subrange(from, to)) == field;
        if from > 0 {
            assert(list[from - 1] == ',');
        }
        if to < n {
            assert(list[to] == ',');
        }
    }
}

/// Lists are taken apart at commas: two lists with a comma between them name the
/// fields of the one and of the other.
pub proof fn joined_lists_name_the_fields_of_both(a: Seq<char>, b: Seq<char>, field: Seq<char>)
    ensures
        named_fields(a + seq![','] + b).contains(field) <==> named_fields(a).contains(field) || named_fields(
            b,
        ).contains(field),
{
    let joined = a + seq![','] + b;
    let n = a.len() as int;
    let m = b.len() as int;
    assert(joined[n] == ',');
    assert forall|i: int| 0 <= i < n implies joined[i] == a[i] by {}
    assert forall|i: int| n < i < joined.len() implies joined[i] == b[i - n - 1] by {}
    if named_fields(joined).contains(field) {
        let (from, to) = choose|from: int, to: int| #[trigger]
            is_piece(joined, from, to) && to < joined.len() + 1 && trimmed(joined.subrange(from, to)) == field;
        if from <= n {
            if to > n {
                assert(joined[n] != ',');
            }
            assert(joined.subrange(from, to) =~= a.subrange(from, to));
            assert forall|i: int| from <= i < to implies #[trigger] a[i] != ',' by {
                assert(joined[i] != ',');
            }
            assert(is_piece(a, from, to));
        } else {
            let f = from - n - 1;
            let t = to - n - 1;
            assert(joined.subrange(from, to) =~= b.subrange(f, t));
            assert forall|i: int| f <= i < t implies #[trigger] b[i] != ',' by {
                assert(joined[i + n + 1] != ',');
            }
            if f > 0 {
                assert(joined[from - 1] == ',');
            }
            if t < m {
                assert(joined[to] == ',');
            }
            assert(is_piece(b, f, t));
        }
    }
    if named_fields(a).contains(field) {
        let (from, to) = choose|from: int, to: int| #[trigger]
            is_piece(a, from, to) && to < n + 1 && trimmed(a.subrange(from, to)) == field;
        assert(joined.subrange(from, to) =~= a.subrange(from, to));
        assert forall|i: int| from <= i < to implies #[trigger] joined[i] != ',' by {
            assert(a[i] != ',');
        }
        assert(is_piece(joined, from, to));
    }
    if named_fields(b).contains(field) {
        let (from, to) = choose|from: int, to: int| #[trigger]
            is_piece(b, from, to) && to < m + 1 && trimmed(b.subrange(from, to)) == field;
        let f = from + n + 1;
        let t = to + n + 1;
        assert(joined.subrange(f, t) =~= b.subrange(from, to));
        assert forall|i: int| f <= i < t implies #[trigger] joined[i] != ',' by {
            assert(b[i - n - 1] != ',');
        }
        if from > 0 {
            assert(b[from - 1] == ',');
        }
        assert(is_piece(joined, f, t));
    }
}

/// A limit is the number that its text reads as; a text that reads as none, or
/// its absence, leaves the default.
pub proof fn limits_are_read_or_default(text: Option<Seq<char>>, default: usize)
    ensures
        (text matches Some(t) && usize_reading(t) is Some) ==> Some(limit_of(text, default)) == usize_reading(
            text->0,
        ),
        !(text matches Some(t) && usize_reading(t) is Some) ==> limit_of(text, default) == default,
{
}

} // verus!
