//! Sets of texts and of hashes, kept and handed out in order.
use std::collections::BTreeSet;
use vstd::prelude::*;

use crate::float::FloatBits;
use crate::text::{
    str_before, str_same, text_before, text_before_is_asymmetric, text_before_is_irreflexive,
    text_before_is_total, text_before_is_transitive, texts,
};

verus! {

/// Whether each text of a list stands before all that follow it.
pub open spec fn strictly_sorted(list: Seq<Seq<char>>) -> bool {
    forall|i: int, j: int| 0 <= i < j < list.len() ==> text_before(#[trigger] list[i], #[trigger] list[j])
}

/// Whether each number of a list is below all that follow it.
pub open spec fn strictly_increasing(list: Seq<u64>) -> bool {
    forall|i: int, j: int| 0 <= i < j < list.len() ==> (#[trigger] list[i]) < (#[trigger] list[j])
}

/// Whether a list of strings holds exactly the texts of a set, each once, in
/// order.
pub open spec fn lists_texts(list: Seq<String>, set: Set<Seq<char>>) -> bool {
    &&& strictly_sorted(texts(list))
    &&& texts(list).to_set() == set
}

/// Whether a list of numbers holds exactly those of a set, each once, in order.
pub open spec fn lists_numbers(list: Seq<u64>, set: Set<u64>) -> bool {
    &&& strictly_increasing(list)
    &&& list.to_set() == set
}

proof fn lemma_strictly_sorted_is_distinct(list: Seq<Seq<char>>)
    requires
        strictly_sorted(list),
    ensures
        list.no_duplicates(),
        list.to_set().len() == list.len(),
        list.to_set().finite(),
{
    assert forall|i: int, j: int| 0 <= i < list.len() && 0 <= j < list.len() && i != j implies list[i]
        != list[j] by {
        text_before_is_irreflexive(list[i]);
        if i < j {
            assert(text_before(list[i], list[j]));
        } else {
            assert(text_before(list[j], list[i]));
        }
    }
    list.unique_seq_to_set();
}

/// A set of texts is listed in one way only.
pub proof fn sorted_list_of_a_set_is_unique(a: Seq<Seq<char>>, b: Seq<Seq<char>>)
    requires
        strictly_sorted(a),
        strictly_sorted(b),
        a.to_set() == b.to_set(),
    ensures
        a == b,
    decreases a.len(),
{
    lemma_strictly_sorted_is_distinct(a);
    lemma_strictly_sorted_is_distinct(b);
    if a.len() > 0 {
        let x = a.last();
        let y = b.last();
        assert(a.to_set().contains(x));
        assert(b.to_set().contains(y));
        assert(b.contains(x) && a.contains(y));
        let i = choose|i: int| 0 <= i < b.len() && b[i] == x;
        let j = choose|j: int| 0 <= j < a.len() && a[j] == y;
        if x != y {
            assert(text_before(b[i], b[b.len() - 1]));
            assert(text_before(a[j], a[a.len() - 1]));
            text_before_is_asymmetric(x, y);
        }
        assert(a.drop_last().to_set() =~= a.to_set().remove(x)) by {
            assert forall|t: Seq<char>| a.to_set().remove(x).contains(t) implies a.drop_last().to_set().contains(t) by {
                let k = choose|k: int| 0 <= k < a.len() && a[k] == t;
                assert(a.drop_last()[k] == t);
            }
            assert forall|t: Seq<char>| a.drop_last().to_set().contains(t) implies a.to_set().remove(x).contains(t) by {
                let k = choose|k: int| 0 <= k < a.drop_last().len() && a.drop_last()[k] == t;
                assert(a[k] == t);
            }
        }
        assert(b.drop_last().to_set() =~= b.to_set().remove(x)) by {
            assert forall|t: Seq<char>| b.to_set().remove(x).contains(t) implies b.drop_last().to_set().contains(t) by {
                let k = choose|k: int| 0 <= k < b.len() && b[k] == t;
                assert(b.drop_last()[k] == t);
            }
            assert forall|t: Seq<char>| b.drop_last().to_set().contains(t) implies b.to_set().remove(x).contains(t) by {
                let k = choose|k: int| 0 <= k < b.drop_last().len() && b.drop_last()[k] == t;
                assert(b[k] == t);
            }
        }
        sorted_list_of_a_set_is_unique(a.drop_last(), b.drop_last());
        assert(a =~= a.drop_last().push(x));
        assert(b =~= b.drop_last().push(y));
    } else {
        assert(a =~= b);
    }
}

/// What a list holds once one more item has been appended.
pub(crate) proof fn lemma_to_set_push<A>(s: Seq<A>, a: A)
    ensures
        s.push(a).to_set() == s.to_set().insert(a),
{
    let longer = s.push(a);
    assert forall|t: A| s.to_set().insert(a).contains(t) implies longer.to_set().contains(t) by {
        if t == a {
            assert(longer[s.len() as int] == t);
        } else {
            let k = choose|k: int| 0 <= k < s.len() && s[k] == t;
            assert(longer[k] == t);
        }
    }
    assert(longer.to_set() =~= s.to_set().insert(a));
}

/// The place of a text in a list that is in order: all before it stand before
/// the text, and none from there on does.
fn place_in(terms: &Vec<String>, term: &str) -> (r: usize)
    requires
        strictly_sorted(texts(terms@)),
    ensures
        r <= terms@.len(),
        forall|i: int| 0 <= i < r ==> text_before(#[trigger] texts(terms@)[i], term@),
        forall|i: int| r <= i < terms@.len() ==> !text_before(#[trigger] texts(terms@)[i], term@),
{
    let ghost list = texts(terms@);
    let mut low: usize = 0;
    let mut high: usize = terms.len();
    while low < high
        invariant
            list == texts(terms@),
            strictly_sorted(list),
            low <= high <= terms.len(),
            forall|i: int| 0 <= i < low ==> text_before(#[trigger] list[i], term@),
            forall|i: int| high <= i < terms.len() ==> !text_before(#[trigger] list[i], term@),
        decreases high - low,
    {
        let mid: usize = low + (high - low) / 2;
        if str_before(terms[mid].as_str(), term) {
            proof {
                assert forall|i: int| 0 <= i < mid + 1 implies text_before(#[trigger] list[i], term@) by {
                    if i < mid {
                        text_before_is_transitive(list[i], list[mid as int], term@);
                    }
                }
            }
            low = mid + 1;
        } else {
            proof {
                assert forall|i: int| mid <= i < terms.len() implies !text_before(#[trigger] list[i], term@) by {
                    if mid < i && text_before(list[i], term@) {
                        text_before_is_transitive(list[mid as int], list[i], term@);
                    }
                }
            }
            high = mid;
        }
    }
    low
}

/// A list in order stays in order when a text is inserted at its place.
proof fn lemma_insert_in_place(list: Seq<Seq<char>>, place: int, text: Seq<char>)
    requires
        strictly_sorted(list),
        0 <= place <= list.len(),
        forall|i: int| 0 <= i < place ==> text_before(#[trigger] list[i], text),
        forall|i: int| place <= i < list.len() ==> !text_before(#[trigger] list[i], text),
        place < list.len() ==> list[place] != text,
    ensures
        strictly_sorted(list.insert(place, text)),
        list.insert(place, text).to_set() == list.to_set().insert(text),
        !list.contains(text),
{
    let inserted = list.insert(place, text);
    assert forall|i: int| place <= i < list.len() implies text_before(text, #[trigger] list[i]) by {
        text_before_is_total(text, list[i]);
        if i > place {
            text_before_is_total(text, list[place]);
            assert(text_before(list[place], list[i]));
            text_before_is_transitive(text, list[place], list[i]);
        }
    }
    text_before_is_irreflexive(text);
    assert forall|t: Seq<char>| list.to_set().insert(text).contains(t) implies inserted.to_set().contains(t) by {
        if t == text {
            assert(inserted[place] == t);
        } else {
            let k = choose|k: int| 0 <= k < list.len() && list[k] == t;
            if k < place {
                assert(inserted[k] == t);
            } else {
                assert(inserted[k + 1] == t);
            }
        }
    }
    assert forall|t: Seq<char>| inserted.to_set().contains(t) implies list.to_set().insert(text).contains(t) by {
        let k = choose|k: int| 0 <= k < inserted.len() && inserted[k] == t;
        if k < place {
            assert(list[k] == t);
        } else if k > place {
            assert(list[k - 1] == t);
        }
    }
    assert(inserted.to_set() =~= list.to_set().insert(text));
}

/// A set of texts, kept in order.
#[derive(Debug)]
pub struct TermSet {
    terms: Vec<String>,
}

impl View for TermSet {
    type V = Set<Seq<char>>;

    closed spec fn view(&self) -> Set<Seq<char>> {
        texts(self.terms@).to_set()
    }
}

impl TermSet {
    /// Whether the texts are in order and none is there twice.
    pub closed spec fn wf(&self) -> bool {
        strictly_sorted(texts(self.terms@))
    }

    /// The empty set.
    pub fn new() -> (r: TermSet)
        ensures
            r.wf(),
            r@ == Set::<Seq<char>>::empty(),
    {
        let r = TermSet { terms: Vec::new() };
        assert(texts(r.terms@) =~= Seq::<Seq<char>>::empty());
        assert(r@ =~= Set::<Seq<char>>::empty());
        r
    }

    /// The number of texts in the set.
    pub fn len(&self) -> (r: usize)
        requires
            self.wf(),
        ensures
            r == self@.len(),
            self@.finite(),
    {
        proof {
            lemma_strictly_sorted_is_distinct(texts(self.terms@));
        }
        self.terms.len()
    }

    /// Takes all texts out of the set.
    pub fn clear(&mut self)
        ensures
            final(self).wf(),
            final(self)@ == Set::<Seq<char>>::empty(),
    {
        self.terms.clear();
        assert(texts(self.terms@) =~= Seq::<Seq<char>>::empty());
        assert(self@ =~= Set::<Seq<char>>::empty());
    }

    /// Puts a text into the set.
    pub fn insert(&mut self, term: String)
        requires
            old(self).wf(),
        ensures
            final(self).wf(),
            final(self)@ == old(self)@.insert(term@),
    {
        let place = place_in(&self.terms, term.as_str());
        let ghost list = texts(self.terms@);
        if place < self.terms.len() && str_same(self.terms[place].as_str(), term.as_str()) {
            proof {
                assert(list[place as int] == term@);
                assert(list.to_set().contains(term@));
                assert(self@ =~= old(self)@.insert(term@));
            }
        } else {
            let ghost text = term@;
            proof {
                lemma_insert_in_place(list, place as int, text);
            }
            self.terms.insert(place, term);
            assert(texts(self.terms@) =~= list.insert(place as int, text));
        }
    }

    /// The texts of the set, in order.
    pub fn into_vec(self) -> (r: Vec<String>)
        requires
            self.wf(),
        ensures
            lists_texts(r@, self@),
    {
        self.terms
    }
}

/// A set of texts, kept in order, each with the double that it reads as where it
/// is known to read as one.
#[derive(Debug)]
pub struct ReadTermSet {
    terms: Vec<String>,
    readings: Vec<Option<FloatBits>>,
}

impl View for ReadTermSet {
    type V = Map<Seq<char>, Option<FloatBits>>;

    closed spec fn view(&self) -> Map<Seq<char>, Option<FloatBits>> {
        Map::new(
            |t: Seq<char>| texts(self.terms@).contains(t),
            |t: Seq<char>| self.readings@[texts(self.terms@).index_of(t)],
        )
    }
}

impl ReadTermSet {
    /// Whether the texts are in order, none is there twice, and each has its
    /// reading.
    pub closed spec fn wf(&self) -> bool {
        strictly_sorted(texts(self.terms@)) && self.readings@.len() == self.terms@.len()
    }

    /// The empty set.
    pub fn new() -> (r: ReadTermSet)
        ensures
            r.wf(),
            r@ == Map::<Seq<char>, Option<FloatBits>>::empty(),
    {
        let r = ReadTermSet { terms: Vec::new(), readings: Vec::new() };
        assert(texts(r.terms@) =~= Seq::<Seq<char>>::empty());
        assert(r@ =~= Map::<Seq<char>, Option<FloatBits>>::empty());
        r
    }

    /// The number of texts in the set.
    pub fn len(&self) -> (r: usize)
        requires
            self.wf(),
        ensures
            r == self@.dom().len(),
            self@.dom().finite(),
    {
        proof {
            lemma_strictly_sorted_is_distinct(texts(self.terms@));
            assert(self@.dom() =~= texts(self.terms@).to_set());
        }
        self.terms.len()
    }

    /// Takes all texts out of the set.
    pub fn clear(&mut self)
        ensures
            final(self).wf(),
            final(self)@ == Map::<Seq<char>, Option<FloatBits>>::empty(),
    {
        self.terms.clear();
        self.readings.clear();
        assert(texts(self.terms@) =~= Seq::<Seq<char>>::empty());
        assert(self@ =~= Map::<Seq<char>, Option<FloatBits>>::empty());
    }

    /// Puts a text with its reading into the set. A text that is there keeps
    /// the reading that it has.
    pub fn insert(&mut self, term: String, reading: Option<FloatBits>)
        requires
            old(self).wf(),
        ensures
            final(self).wf(),
            final(self)@ == if old(self)@.contains_key(term@) {
                old(self)@
            } else {
                old(self)@.insert(term@, reading)
            },
    {
        let place = place_in(&self.terms, term.as_str());
        let ghost list = texts(self.terms@);
        let ghost before = *self;
        if place < self.terms.len() && str_same(self.terms[place].as_str(), term.as_str()) {
            assert(list[place as int] == term@);
        } else {
            let ghost text = term@;
            proof {
                lemma_insert_in_place(list, place as int, text);
            }
            self.terms.insert(place, term);
            self.readings.insert(place, reading);
            proof {
                let after = texts(self.terms@);
                assert(after =~= list.insert(place as int, text));
                lemma_strictly_sorted_is_distinct(after);
                lemma_strictly_sorted_is_distinct(list);
                assert forall|t: Seq<char>| after.contains(t) <==> list.contains(t) || t == text by {
                    assert(after.to_set().contains(t) <==> list.to_set().insert(text).contains(t));
                }
                assert forall|t: Seq<char>| after.contains(t) implies #[trigger] self@[t] == before@.insert(
                    text,
                    reading,
                )[t] by {
                    let k = after.index_of(t);
                    assert(after[k] == t);
                    if t == text {
                        assert(after[place as int] == text);
                    } else {
                        let i = if k < place {
                            k
                        } else {
                            k - 1
                        };
                        assert(list[i] == t);
                        assert(list.index_of(t) == i);
                    }
                }
                assert(self@ =~= before@.insert(text, reading));
            }
        }
    }

    /// The texts of the set in order, and their readings.
    pub fn into_vecs(self) -> (r: (Vec<String>, Vec<Option<FloatBits>>))
        requires
            self.wf(),
        ensures
            lists_texts(r.0@, self@.dom()),
            r.1@.len() == r.0@.len(),
            forall|i: int| 0 <= i < r.1@.len() ==> #[trigger] r.1@[i] == self@[texts(r.0@)[i]],
    {
        proof {
            let list = texts(self.terms@);
            lemma_strictly_sorted_is_distinct(list);
            assert(self@.dom() =~= list.to_set());
            assert forall|i: int| 0 <= i < list.len() implies self.readings@[i] == self@[#[trigger] list[i]] by {
                assert(list.contains(list[i]));
                assert(list.index_of(list[i]) == i);
            }
        }
        (self.terms, self.readings)
    }
}

/// The numbers of a set, in order.
pub(crate) fn numbers_in_order(set: &BTreeSet<u64>) -> (r: Vec<u64>)
    ensures
        lists_numbers(r@, set@),
{
    broadcast use vstd::laws_cmp::group_laws_cmp;

    let mut r: Vec<u64> = Vec::new();
    let ghost listed = vstd::std_specs::iter::IteratorSpec::remaining(
        &vstd::std_specs::btree::spec_btree_keys_iter(set),
    );
    for h in it: set.iter()
        invariant
            it.seq() == listed,
            r@ == listed.unref().take(it.index()),
    {
        proof {
            assert(listed.unref().take(it.index() + 1) =~= listed.unref().take(it.index()).push(*h));
        }
        r.push(*h);
    }
    proof {
        assert(r@ =~= listed.unref());
        assert(vstd::laws_cmp::obeys_cmp::<&u64>());
        assert forall|i: int, j: int| 0 <= i < j < r@.len() implies (#[trigger] r@[i]) < (#[trigger] r@[j]) by {
            assert(r@[i] == *listed[i] && r@[j] == *listed[j]);
            assert(vstd::std_specs::cmp::OrdSpec::cmp_spec(&listed[i], &listed[j]) is Less);
        }
    }
    r
}

} // verus!
