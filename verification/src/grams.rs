//! Grams: the short runs of characters by which a text index finds a text.
//!
//! An index holds every gram of up to three characters of a column's lowercase
//! texts. A `LIKE` pattern asks for the grams of its literal runs: a text that
//! lacks one of them cannot match.
use vstd::prelude::*;

use crate::terms::{lemma_to_set_push, lists_texts, TermSet};
use crate::text::{chars_of, lowercase, string_of, texts, to_lowercase};

verus! {

/// The longest gram that an index holds, in characters.
pub const MAX_GRAM: usize = 3;

// ---------------------------------------------------------------------------
// Grams of a text
// ---------------------------------------------------------------------------

/// Whether `gram` stands somewhere in `s`.
pub open spec fn occurs_in(gram: Seq<char>, s: Seq<char>) -> bool {
    exists|i: int| occurs_at(gram, s, i)
}

/// Whether `gram` stands in `s` at place `i`.
pub open spec fn occurs_at(gram: Seq<char>, s: Seq<char>, i: int) -> bool {
    0 <= i && i + gram.len() <= s.len() && s.subrange(i, i + gram.len()) == gram
}

/// The grams of a text: what stands in it and has one to three characters.
pub open spec fn grams(s: Seq<char>) -> Set<Seq<char>> {
    Set::new(|g: Seq<char>| 1 <= g.len() <= MAX_GRAM && occurs_in(g, s))
}

/// A text has finitely many grams.
pub(crate) proof fn lemma_grams_are_finite(s: Seq<char>)
    ensures
        grams(s).finite(),
{
    let pairs = vstd::set_lib::set_int_range(0, ((s.len() + 1) * 4) as int);
    vstd::set_lib::lemma_int_range(0, ((s.len() + 1) * 4) as int);
    let gram_at = |n: int| s.subrange(n / 4, n / 4 + n % 4);
    pairs.lemma_map_finite(gram_at);
    assert forall|g: Seq<char>| #[trigger] grams(s).contains(g) implies pairs.map(gram_at).contains(g) by {
        let i = choose|i: int| occurs_at(g, s, i);
        let n = i * 4 + g.len();
        assert(n / 4 == i && n % 4 == g.len());
        assert(gram_at(n) == g);
        assert(pairs.contains(n));
    }
    assert(grams(s).subset_of(pairs.map(gram_at)));
    vstd::set_lib::lemma_set_subset_finite(pairs.map(gram_at), grams(s));
}

/// Puts the grams of a text into a set.
pub fn insert_pruning_ngrams(chars: &Vec<char>, set: &mut TermSet)
    requires
        old(set).wf(),
    ensures
        final(set).wf(),
        final(set)@ == old(set)@.union(grams(chars@)),
{
    let widest: usize = if chars.len() < MAX_GRAM {
        chars.len()
    } else {
        MAX_GRAM
    };
    let ghost before = set@;
    let mut width: usize = 1;
    while width <= widest
        invariant
            1 <= width <= widest + 1,
            widest <= MAX_GRAM,
            widest <= chars@.len(),
            widest == chars@.len() || widest == MAX_GRAM,
            chars@.len() <= usize::MAX,
            set.wf(),
            forall|g: Seq<char>| #[trigger]
                set@.contains(g) <==> before.contains(g) || 1 <= g.len() < width && occurs_in(g, chars@),
        decreases widest + 1 - width,
    {
        let last: usize = chars.len() - width;
        let mut start: usize = 0;
        while start <= last
            invariant
                1 <= width <= widest,
                widest <= MAX_GRAM,
                widest <= chars@.len(),
                last == chars@.len() - width,
                chars@.len() <= usize::MAX,
                start <= last + 1,
                set.wf(),
                forall|g: Seq<char>| #[trigger]
                    set@.contains(g) <==> {
                        ||| before.contains(g)
                        ||| 1 <= g.len() < width && occurs_in(g, chars@)
                        ||| g.len() == width && exists|i: int| i < start && occurs_at(g, chars@, i)
                    },
            decreases last + 1 - start,
        {
            let window = vstd::slice::slice_subrange(chars.as_slice(), start, start + width);
            let ghost gram = chars@.subrange(start as int, start + width);
            let ghost held = set@;
            set.insert(string_of(window));
            proof {
                assert(occurs_at(gram, chars@, start as int));
                assert forall|g: Seq<char>| #[trigger] set@.contains(g) <==> {
                    ||| before.contains(g)
                    ||| 1 <= g.len() < width && occurs_in(g, chars@)
                    ||| g.len() == width && exists|i: int| i < start + 1 && occurs_at(g, chars@, i)
                } by {
                    assert(set@.contains(g) <==> held.contains(g) || g == gram);
                    if g.len() == width && exists|i: int| i < start + 1 && occurs_at(g, chars@, i) {
                        let i = choose|i: int| i < start + 1 && occurs_at(g, chars@, i);
                        if i == start {
                            assert(g == gram);
                        }
                    }
                }
            }
            start = start + 1;
        }
        proof {
            assert forall|g: Seq<char>| #[trigger] set@.contains(g) <==> before.contains(g) || 1 <= g.len()
                < width + 1 && occurs_in(g, chars@) by {
                if g.len() == width && occurs_in(g, chars@) {
                    let i = choose|i: int| occurs_at(g, chars@, i);
                    assert(i < start);
                }
            }
        }
        width = width + 1;
    }
    proof {
        assert forall|g: Seq<char>| set@.contains(g) <==> before.union(grams(chars@)).contains(g) by {
            if 1 <= g.len() <= MAX_GRAM && occurs_in(g, chars@) {
                let i = choose|i: int| occurs_at(g, chars@, i);
                assert(g.len() <= chars@.len());
            }
        }
        assert(set@ =~= before.union(grams(chars@)));
    }
}

/// Puts the grams of a text's lowercase form into a set.
pub fn insert_lowercase_pruning_ngrams(value: &str, set: &mut TermSet)
    requires
        old(set).wf(),
    ensures
        final(set).wf(),
        final(set)@ == old(set)@.union(grams(lowercase(value@))),
{
    let lower = to_lowercase(value);
    let chars = chars_of(lower.as_str());
    insert_pruning_ngrams(&chars, set);
}

// ---------------------------------------------------------------------------
// Terms of a pattern
// ---------------------------------------------------------------------------

/// The literal runs of what is left of a pattern: what stands between its
/// wildcards. `run` is the run that has been read so far, and `escaped` says
/// whether the escape character came last.
pub open spec fn runs_from(
    pattern: Seq<char>,
    escape_char: Option<char>,
    run: Seq<char>,
    escaped: bool,
) -> Seq<Seq<char>>
    decreases pattern.len(),
{
    if pattern.len() == 0 {
        seq![run]
    } else {
        let c = pattern[0];
        let rest = pattern.skip(1);
        if escape_char == Some(c) && !escaped {
            runs_from(rest, escape_char, run, true)
        } else if !escaped && (c == '%' || c == '_') {
            seq![run] + runs_from(rest, escape_char, Seq::empty(), false)
        } else {
            runs_from(rest, escape_char, run.push(c), false)
        }
    }
}

/// The literal runs of a pattern: what stands between its wildcards.
pub open spec fn literal_runs(pattern: Seq<char>, escape_char: Option<char>) -> Seq<Seq<char>> {
    runs_from(pattern, escape_char, Seq::empty(), false)
}

/// The grams by which a text is looked up: those of three characters, or the
/// text itself where it is shorter.
pub open spec fn lookup_grams(s: Seq<char>) -> Seq<Seq<char>> {
    let width: int = if s.len() < MAX_GRAM {
        s.len() as int
    } else {
        MAX_GRAM as int
    };
    if s.len() == 0 {
        Seq::empty()
    } else {
        Seq::new((s.len() - width + 1) as nat, |i: int| s.subrange(i, i + width))
    }
}

/// The terms of a pattern: the lookup grams of its literal runs in lowercase.
pub open spec fn index_terms(pattern: Seq<char>, escape_char: Option<char>) -> Set<Seq<char>> {
    let runs = literal_runs(pattern, escape_char);
    Set::new(
        |t: Seq<char>|
            exists|k: int| 0 <= k < runs.len() && lookup_grams(lowercase(#[trigger] runs[k])).contains(t),
    )
}

/// The literal runs of a pattern, in which `%` and `_` are the wildcards. A
/// character behind the escape character stands for itself.
pub fn pattern_literals(pattern: &str, escape_char: Option<char>) -> (r: Vec<String>)
    ensures
        texts(r@) == literal_runs(pattern@, escape_char),
{
    let chars = chars_of(pattern);
    let mut runs: Vec<String> = Vec::new();
    let mut literal: Vec<char> = Vec::new();
    let mut escaped = false;
    let mut i: usize = 0;
    proof {
        assert(chars@.skip(0) =~= pattern@);
        assert(texts(runs@) + literal_runs(pattern@, escape_char) =~= literal_runs(pattern@, escape_char));
    }
    while i < chars.len()
        invariant
            i <= chars@.len(),
            literal_runs(pattern@, escape_char) == texts(runs@) + runs_from(
                chars@.skip(i as int),
                escape_char,
                literal@,
                escaped,
            ),
        decreases chars@.len() - i,
    {
        let c = chars[i];
        let ghost rest = chars@.skip(i as int);
        let ghost done = texts(runs@);
        proof {
            assert(rest.skip(1) =~= chars@.skip(i + 1));
            assert(rest[0] == c);
        }
        let is_escape = match escape_char {
            Some(e) => e == c,
            None => false,
        };
        if is_escape && !escaped {
            escaped = true;
        } else if !escaped && (c == '%' || c == '_') {
            let ghost run = literal@;
            runs.push(string_of(literal.as_slice()));
            literal.clear();
            proof {
                assert(literal@ =~= Seq::<char>::empty());
                assert(texts(runs@) =~= done + seq![run]);
                assert(done + (seq![run] + runs_from(rest.skip(1), escape_char, Seq::empty(), false)) =~= (done
                    + seq![run]) + runs_from(rest.skip(1), escape_char, Seq::empty(), false));
            }
        } else {
            literal.push(c);
            escaped = false;
        }
        i = i + 1;
    }
    let ghost done = texts(runs@);
    let ghost run = literal@;
    runs.push(string_of(literal.as_slice()));
    proof {
        assert(chars@.skip(i as int).len() == 0);
        assert(texts(runs@) =~= done + seq![run]);
    }
    runs
}

/// Appends the lookup grams of a text.
pub fn push_lookup_grams(chars: &Vec<char>, list: &mut Vec<String>)
    ensures
        texts(final(list)@) == texts(old(list)@) + lookup_grams(chars@),
{
    if chars.len() == 0 {
        assert(texts(list@) + lookup_grams(chars@) =~= texts(list@));
        return;
    }
    let width: usize = if chars.len() < MAX_GRAM {
        chars.len()
    } else {
        MAX_GRAM
    };
    let last: usize = chars.len() - width;
    let ghost before = texts(list@);
    let ghost wanted = lookup_grams(chars@);
    let mut start: usize = 0;
    assert(before + wanted.take(0) =~= before);
    while start <= last
        invariant
            0 < chars@.len(),
            width <= chars@.len(),
            width == chars@.len() && width < MAX_GRAM || width == MAX_GRAM,
            last == chars@.len() - width,
            chars@.len() <= usize::MAX,
            start <= last + 1,
            wanted == lookup_grams(chars@),
            wanted.len() == last + 1,
            texts(list@) == before + wanted.take(start as int),
        decreases last + 1 - start,
    {
        let window = vstd::slice::slice_subrange(chars.as_slice(), start, start + width);
        let ghost held = texts(list@);
        list.push(string_of(window));
        proof {
            assert(texts(list@) =~= held.push(window@));
            assert(wanted[start as int] == chars@.subrange(start as int, start + width));
            assert(texts(list@) =~= before + wanted.take(start + 1));
        }
        start = start + 1;
    }
    assert(wanted.take(start as int) =~= wanted);
}

/// Appends the lookup grams of a literal in lowercase.
pub fn push_literal_index_terms(literal: &str, list: &mut Vec<String>)
    ensures
        texts(final(list)@) == texts(old(list)@) + lookup_grams(lowercase(literal@)),
{
    let lower = to_lowercase(literal);
    let chars = chars_of(lower.as_str());
    push_lookup_grams(&chars, list);
}

/// The texts of a list, each once, in order.
pub fn sorted_distinct(list: &Vec<String>) -> (r: Vec<String>)
    ensures
        lists_texts(r@, texts(list@).to_set()),
{
    let mut set = TermSet::new();
    let ghost all = texts(list@);
    assert(all.take(0).to_set() =~= Set::<Seq<char>>::empty());
    let mut i: usize = 0;
    while i < list.len()
        invariant
            i <= list@.len(),
            all == texts(list@),
            set.wf(),
            set@ == all.take(i as int).to_set(),
        decreases list@.len() - i,
    {
        set.insert(list[i].clone());
        proof {
            assert(all.take(i + 1) =~= all.take(i as int).push(all[i as int]));
            lemma_to_set_push(all.take(i as int), all[i as int]);
        }
        i = i + 1;
    }
    assert(all.take(i as int) =~= all);
    set.into_vec()
}

/// The terms of a pattern, each once, in order.
pub fn like_literal_index_terms(pattern: &str, escape_char: Option<char>) -> (r: Vec<String>)
    ensures
        lists_texts(r@, index_terms(pattern@, escape_char)),
{
    let runs = pattern_literals(pattern, escape_char);
    let ghost spec_runs = literal_runs(pattern@, escape_char);
    let mut list: Vec<String> = Vec::new();
    let mut k: usize = 0;
    while k < runs.len()
        invariant
            k <= runs@.len(),
            texts(runs@) == spec_runs,
            forall|t: Seq<char>| #[trigger]
                texts(list@).contains(t) <==> exists|j: int|
                    0 <= j < k && lookup_grams(lowercase(#[trigger] spec_runs[j])).contains(t),
        decreases runs@.len() - k,
    {
        let ghost held = texts(list@);
        push_literal_index_terms(runs[k].as_str(), &mut list);
        proof {
            let added = lookup_grams(lowercase(spec_runs[k as int]));
            assert(texts(list@) == held + added);
            assert forall|t: Seq<char>| #[trigger] texts(list@).contains(t) <==> exists|j: int|
                0 <= j < k + 1 && lookup_grams(lowercase(#[trigger] spec_runs[j])).contains(t) by {
                assert((held + added).contains(t) <==> held.contains(t) || added.contains(t)) by {
                    if held.contains(t) {
                        let i = choose|i: int| 0 <= i < held.len() && held[i] == t;
                        assert((held + added)[i] == t);
                    }
                    if added.contains(t) {
                        let i = choose|i: int| 0 <= i < added.len() && added[i] == t;
                        assert((held + added)[held.len() + i] == t);
                    }
                }
                if exists|j: int| 0 <= j < k + 1 && lookup_grams(lowercase(#[trigger] spec_runs[j])).contains(t) {
                    let j = choose|j: int|
                        0 <= j < k + 1 && lookup_grams(lowercase(#[trigger] spec_runs[j])).contains(t);
                    if j == k {
                        assert(added.contains(t));
                    }
                }
                if added.contains(t) {
                    assert(lookup_grams(lowercase(spec_runs[k as int])).contains(t));
                }
            }
        }
        k = k + 1;
    }
    proof {
        assert(texts(list@).to_set() =~= index_terms(pattern@, escape_char));
    }
    sorted_distinct(&list)
}

// ---------------------------------------------------------------------------
// Patterns put together
// ---------------------------------------------------------------------------

/// Whether a pattern ends in an escape character that no character follows.
/// `escaped` says whether the escape character came last before it.
pub open spec fn ends_escaped(pattern: Seq<char>, escape_char: Option<char>, escaped: bool) -> bool
    decreases pattern.len(),
{
    if pattern.len() == 0 {
        escaped
    } else if escape_char == Some(pattern[0]) && !escaped {
        ends_escaped(pattern.skip(1), escape_char, true)
    } else {
        ends_escaped(pattern.skip(1), escape_char, false)
    }
}

proof fn lemma_runs_of_joined_patterns(
    p: Seq<char>,
    q: Seq<char>,
    escape_char: Option<char>,
    run: Seq<char>,
    escaped: bool,
)
    requires
        escape_char != Some('%'),
        !ends_escaped(p, escape_char, escaped),
    ensures
        runs_from(p + seq!['%'] + q, escape_char, run, escaped) == runs_from(p, escape_char, run, escaped)
            + literal_runs(q, escape_char),
    decreases p.len(),
{
    let joined = p + seq!['%'] + q;
    if p.len() == 0 {
        assert(joined.skip(1) =~= q);
    } else {
        let c = p[0];
        let rest = p.skip(1);
        assert(joined[0] == c);
        assert(joined.skip(1) =~= rest + seq!['%'] + q);
        if escape_char == Some(c) && !escaped {
            lemma_runs_of_joined_patterns(rest, q, escape_char, run, true);
        } else if !escaped && (c == '%' || c == '_') {
            lemma_runs_of_joined_patterns(rest, q, escape_char, Seq::empty(), false);
            assert(seq![run] + (runs_from(rest, escape_char, Seq::empty(), false) + literal_runs(q, escape_char))
                =~= seq![run] + runs_from(rest, escape_char, Seq::empty(), false) + literal_runs(q, escape_char));
        } else {
            lemma_runs_of_joined_patterns(rest, q, escape_char, run.push(c), false);
        }
    }
}

/// No term spans a wildcard: the terms of two patterns with `%` between them are
/// those of the one and those of the other.
pub proof fn terms_of_joined_patterns(p: Seq<char>, q: Seq<char>, escape_char: Option<char>)
    requires
        escape_char != Some('%'),
        !ends_escaped(p, escape_char, false),
    ensures
        index_terms(p + seq!['%'] + q, escape_char) == index_terms(p, escape_char).union(
            index_terms(q, escape_char),
        ),
{
    let front = literal_runs(p, escape_char);
    let back = literal_runs(q, escape_char);
    let joined = literal_runs(p + seq!['%'] + q, escape_char);
    lemma_runs_of_joined_patterns(p, q, escape_char, Seq::empty(), false);
    assert(joined == front + back);
    assert forall|t: Seq<char>| #[trigger] index_terms(p + seq!['%'] + q, escape_char).contains(t)
        <==> index_terms(p, escape_char).contains(t) || index_terms(q, escape_char).contains(t) by {
        if index_terms(p + seq!['%'] + q, escape_char).contains(t) {
            let k = choose|k: int|
                0 <= k < joined.len() && lookup_grams(lowercase(#[trigger] joined[k])).contains(t);
            if k < front.len() {
                assert(front[k] == joined[k]);
            } else {
                assert(back[k - front.len()] == joined[k]);
            }
        }
        if index_terms(p, escape_char).contains(t) {
            let k = choose|k: int| 0 <= k < front.len() && lookup_grams(lowercase(#[trigger] front[k])).contains(t);
            assert(joined[k] == front[k]);
        }
        if index_terms(q, escape_char).contains(t) {
            let k = choose|k: int| 0 <= k < back.len() && lookup_grams(lowercase(#[trigger] back[k])).contains(t);
            assert(joined[front.len() + k] == back[k]);
        }
    }
    assert(index_terms(p + seq!['%'] + q, escape_char) =~= index_terms(p, escape_char).union(
        index_terms(q, escape_char),
    ));
}

/// A pattern without characters has no terms.
proof fn lemma_empty_pattern_has_no_terms(escape_char: Option<char>)
    ensures
        index_terms(Seq::empty(), escape_char) == Set::<Seq<char>>::empty(),
{
    let none = Seq::<char>::empty();
    assert(literal_runs(none, escape_char) == seq![none]);
    assert(lowercase(none) =~= none);
    assert(index_terms(none, escape_char) =~= Set::<Seq<char>>::empty());
}

/// Wildcards around a pattern add no terms and take none away.
pub proof fn wildcards_around_a_pattern_keep_its_terms(p: Seq<char>, escape_char: Option<char>)
    requires
        escape_char != Some('%'),
        !ends_escaped(p, escape_char, false),
    ensures
        index_terms(seq!['%'] + p + seq!['%'], escape_char) == index_terms(p, escape_char),
{
    let none = Seq::<char>::empty();
    let open = p + seq!['%'] + none;
    terms_of_joined_patterns(p, none, escape_char);
    terms_of_joined_patterns(none, open, escape_char);
    lemma_empty_pattern_has_no_terms(escape_char);
    assert(none + seq!['%'] + open =~= seq!['%'] + p + seq!['%']);
    assert(index_terms(seq!['%'] + p + seq!['%'], escape_char) =~= index_terms(p, escape_char));
}

// ---------------------------------------------------------------------------
// What terms and grams are
// ---------------------------------------------------------------------------

/// The grams of a text are its parts of one to three characters.
pub proof fn grams_are_parts_of_up_to_three(s: Seq<char>, g: Seq<char>)
    ensures
        grams(s).contains(g) <==> 1 <= g.len() <= 3 && exists|i: int|
            0 <= i && i + g.len() <= s.len() && #[trigger] s.subrange(i, i + g.len()) == g,
{
    if grams(s).contains(g) {
        let i = choose|i: int| occurs_at(g, s, i);
        assert(s.subrange(i, i + g.len()) == g);
    }
    if exists|i: int| 0 <= i && i + g.len() <= s.len() && #[trigger] s.subrange(i, i + g.len()) == g {
        let i = choose|i: int| 0 <= i && i + g.len() <= s.len() && #[trigger] s.subrange(i, i + g.len()) == g;
        assert(occurs_at(g, s, i));
    }
}

/// A text is looked up by all of its parts of three characters, or as a whole
/// where it is shorter; one without characters is not looked up.
pub proof fn texts_are_looked_up_by_threes(s: Seq<char>, t: Seq<char>)
    ensures
        s.len() >= 3 ==> (lookup_grams(s).contains(t) <==> t.len() == 3 && exists|i: int|
            0 <= i && i + 3 <= s.len() && #[trigger] s.subrange(i, i + 3) == t),
        0 < s.len() < 3 ==> (lookup_grams(s).contains(t) <==> t == s),
        s.len() == 0 ==> !lookup_grams(s).contains(t),
{
    let looked_up = lookup_grams(s);
    if looked_up.contains(t) {
        let i = choose|i: int| 0 <= i < looked_up.len() && looked_up[i] == t;
        if s.len() >= 3 {
            assert(s.subrange(i, i + 3) == t);
        } else {
            assert(s.subrange(0, s.len() as int) =~= s);
        }
    }
    if s.len() >= 3 && exists|i: int| 0 <= i && i + 3 <= s.len() && #[trigger] s.subrange(i, i + 3) == t {
        let i = choose|i: int| 0 <= i && i + 3 <= s.len() && #[trigger] s.subrange(i, i + 3) == t;
        assert(looked_up[i] == t);
    }
    if 0 < s.len() < 3 && t == s {
        assert(looked_up[0] =~= s);
    }
}

proof fn lemma_runs_of_a_plain_front(p: Seq<char>, q: Seq<char>, escape_char: Option<char>, run: Seq<char>)
    requires
        forall|i: int| 0 <= i < p.len() ==> #[trigger] p[i] != '%' && p[i] != '_' && escape_char != Some(p[i]),
    ensures
        runs_from(p + q, escape_char, run, false) == runs_from(q, escape_char, run + p, false),
    decreases p.len(),
{
    if p.len() == 0 {
        assert(p + q =~= q);
        assert(run + p =~= run);
    } else {
        assert((p + q)[0] == p[0]);
        assert((p + q).skip(1) =~= p.skip(1) + q);
        lemma_runs_of_a_plain_front(p.skip(1), q, escape_char, run.push(p[0]));
        assert(run.push(p[0]) + p.skip(1) =~= run + p);
    }
}

/// A pattern without wildcards and escapes is one run.
pub proof fn plain_pattern_is_one_run(p: Seq<char>, escape_char: Option<char>)
    requires
        forall|i: int| 0 <= i < p.len() ==> #[trigger] p[i] != '%' && p[i] != '_' && escape_char != Some(p[i]),
    ensures
        literal_runs(p, escape_char) == seq![p],
{
    let none = Seq::<char>::empty();
    lemma_runs_of_a_plain_front(p, none, escape_char, none);
    assert(p + none =~= p);
    assert(none + p =~= p);
}

/// A wildcard, of either kind, ends a run; what follows it is a pattern of its
/// own.
pub proof fn wildcard_ends_a_run(p: Seq<char>, wildcard: char, q: Seq<char>, escape_char: Option<char>)
    requires
        forall|i: int| 0 <= i < p.len() ==> #[trigger] p[i] != '%' && p[i] != '_' && escape_char != Some(p[i]),
        wildcard == '%' || wildcard == '_',
        escape_char != Some(wildcard),
    ensures
        literal_runs(p + seq![wildcard] + q, escape_char) == seq![p] + literal_runs(q, escape_char),
{
    let none = Seq::<char>::empty();
    let rest = seq![wildcard] + q;
    assert(p + seq![wildcard] + q =~= p + rest);
    lemma_runs_of_a_plain_front(p, rest, escape_char, none);
    assert(none + p =~= p);
    assert(rest.skip(1) =~= q);
}

/// A character behind the escape character is one of the run, whatever it is: a
/// wildcard or the escape character itself too.
pub proof fn escaped_character_stands_for_itself(p: Seq<char>, escape: char, c: char, q: Seq<char>)
    requires
        forall|i: int| 0 <= i < p.len() ==> #[trigger] p[i] != '%' && p[i] != '_' && p[i] != escape,
        forall|i: int| 0 <= i < q.len() ==> #[trigger] q[i] != '%' && q[i] != '_' && q[i] != escape,
    ensures
        literal_runs(p + seq![escape, c] + q, Some(escape)) == seq![p + seq![c] + q],
{
    let none = Seq::<char>::empty();
    let rest = seq![escape, c] + q;
    assert(p + seq![escape, c] + q =~= p + rest);
    lemma_runs_of_a_plain_front(p, rest, Some(escape), none);
    assert(none + p =~= p);
    let behind = rest.skip(1);
    assert(behind[0] == c);
    assert(behind.skip(1) =~= q);
    assert(runs_from(rest, Some(escape), p, false) == runs_from(behind, Some(escape), p, true));
    assert(runs_from(behind, Some(escape), p, true) == runs_from(q, Some(escape), p.push(c), false));
    lemma_runs_of_a_plain_front(q, none, Some(escape), p.push(c));
    assert(q + none =~= q);
    assert(p.push(c) + q =~= p + seq![c] + q);
}

} // verus!
