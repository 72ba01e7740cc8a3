//! The bag of words: each normalized word with its number of occurrences,
//! kept in ascending order of the words.
use vstd::multiset::Multiset;
use vstd::prelude::*;

use crate::entries::{
    distinct_words, entries_bag, lemma_entries_bag_bump, lemma_entries_bag_concat,
    lemma_entries_bag_count, lemma_entries_bag_insert, lemma_entries_bag_take,
};
use crate::order::{compare, lemma_lex_irreflexive, lemma_lex_transitive, lex_lt};
use crate::text::{
    chars_of, flush, fragment_words, fragments, has_uppercase, is_alphabetic, is_valid_word,
    is_whitespace, lemma_words_in_flush, lowercase, match_count_of, normalize, split_from,
    string_of, text_bag, trim, trim_end, trim_start, words_in,
};

verus! {

broadcast use vstd::multiset::group_multiset_axioms, vstd::seq_lib::group_to_multiset_ensures,
    vstd::seq_lib::lemma_multiset_commutative;

/// Each word of some texts with the number of times it occurs in them.
///
/// `keys[i]` is a normalized word and `counts[i]` its number of occurrences;
/// the words are in strictly ascending order and every count is at least one.
#[derive(Debug, Clone)]
pub struct Bbow {
    keys: Vec<Vec<char>>,
    counts: Vec<usize>,
}

impl View for Bbow {
    type V = Multiset<Seq<char>>;

    /// Every stored word, as many times as it was counted.
    closed spec fn view(&self) -> Multiset<Seq<char>> {
        entries_bag(self.entries())
    }
}

impl Default for Bbow {
    /// An empty bag.
    fn default() -> (r: Self)
        ensures
            r.wf(),
            r@ == Multiset::<Seq<char>>::empty(),
    {
        Bbow::new()
    }
}

impl Bbow {
    /// The stored (word, count) entries, in order.
    pub closed spec fn entries(&self) -> Seq<(Seq<char>, nat)> {
        Seq::new(self.keys.len() as nat, |i: int| (self.keys[i]@, self.counts[i] as nat))
    }

    /// Words strictly ascending, counts positive, and the total count fits
    /// in a `usize`.
    pub closed spec fn wf(&self) -> bool {
        &&& self.keys.len() == self.counts.len()
        &&& forall|i: int, j: int|
            0 <= i < j < self.keys.len() ==> lex_lt(#[trigger] self.keys[i]@, #[trigger] self.keys[j]@)
        &&& forall|i: int| 0 <= i < self.counts.len() ==> #[trigger] self.counts[i] > 0
        &&& self@.len() <= usize::MAX
    }

    proof fn lemma_distinct(&self)
        requires
            self.wf(),
        ensures
            distinct_words(self.entries()),
    {
        assert forall|i: int, j: int|
            0 <= i < self.entries().len() && 0 <= j < self.entries().len() && i != j implies
            self.entries()[i].0 != self.entries()[j].0 by {
            lemma_lex_irreflexive(self.keys[i]@);
        }
    }

    /// An empty bag.
    pub fn new() -> (r: Self)
        ensures
            r.wf(),
            r@ == Multiset::<Seq<char>>::empty(),
    {
        let r = Bbow { keys: Vec::new(), counts: Vec::new() };
        assert(r.entries() =~= Seq::<(Seq<char>, nat)>::empty());
        r
    }

    /// Where `w` stands among the stored words: the index of the first word
    /// not before it, and whether that word is `w` itself.
    fn locate(&self, w: &Vec<char>) -> (r: (usize, bool))
        requires
            self.wf(),
        ensures
            r.0 <= self.keys.len(),
            forall|j: int| 0 <= j < r.0 ==> lex_lt(#[trigger] self.keys[j]@, w@),
            r.1 ==> r.0 < self.keys.len() && self.keys[r.0 as int]@ == w@,
            !r.1 ==> forall|j: int| r.0 <= j < self.keys.len() ==> lex_lt(w@, #[trigger] self.keys[j]@),
    {
        let mut lo: usize = 0;
        let mut hi: usize = self.keys.len();
        while lo < hi
            invariant
                self.wf(),
                lo <= hi <= self.keys.len(),
                forall|j: int| 0 <= j < lo ==> lex_lt(#[trigger] self.keys[j]@, w@),
                forall|j: int| hi <= j < self.keys.len() ==> lex_lt(w@, #[trigger] self.keys[j]@),
            decreases hi - lo,
        {
            let mid = lo + (hi - lo) / 2;
            let c = compare(&self.keys[mid], w);
            if c < 0 {
                assert forall|j: int| 0 <= j <= mid implies lex_lt(#[trigger] self.keys[j]@, w@) by {
                    if j < mid {
                        lemma_lex_transitive(self.keys[j]@, self.keys[mid as int]@, w@);
                    }
                }
                lo = mid + 1;
            } else if c == 0 {
                return (mid, true);
            } else {
                assert forall|j: int| mid <= j < self.keys.len() implies lex_lt(
                    w@,
                    #[trigger] self.keys[j]@,
                ) by {
                    if j > mid {
                        lemma_lex_transitive(w@, self.keys[mid as int]@, self.keys[j]@);
                    }
                }
                hi = mid;
            }
        }
        (lo, false)
    }

    /// The view counts each stored word as its entry says, and nothing else.
    proof fn lemma_counts(&self)
        requires
            self.wf(),
        ensures
            forall|i: int| 0 <= i < self.keys.len() ==> self@.count(#[trigger] self.keys[i]@) == self.counts[i],
            forall|k: Seq<char>|
                (forall|i: int| 0 <= i < self.keys.len() ==> self.keys[i]@ != k) ==> #[trigger] self@.count(k) == 0,
            self@.dom().len() == self.keys.len(),
    {
        self.lemma_distinct();
        let es = self.entries();
        assert forall|i: int| 0 <= i < self.keys.len() implies self@.count(#[trigger] self.keys[i]@)
            == self.counts[i] by {
            lemma_entries_bag_count(es, self.keys[i]@);
            assert(es[i].0 == self.keys[i]@);
        }
        assert forall|k: Seq<char>|
            (forall|i: int| 0 <= i < self.keys.len() ==> self.keys[i]@ != k) implies #[trigger] self@.count(k)
            == 0 by {
            lemma_entries_bag_count(es, k);
            assert forall|i: int| 0 <= i < es.len() implies es[i].0 != k by {
                assert(es[i].0 == self.keys[i]@);
            }
        }
        let ks = es.map_values(|e: (Seq<char>, nat)| e.0);
        assert(ks.no_duplicates());
        assert forall|k: Seq<char>| self@.dom().contains(k) <==> ks.to_set().contains(k) by {
            if self@.dom().contains(k) {
                if forall|i: int| 0 <= i < self.keys.len() ==> self.keys[i]@ != k {
                    assert(self@.count(k) == 0);
                }
                let i = choose|i: int| 0 <= i < self.keys.len() && self.keys[i]@ == k;
                assert(ks[i] == k);
            }
            if ks.to_set().contains(k) {
                let i = choose|i: int| 0 <= i < ks.len() && ks[i] == k;
                assert(self@.count(self.keys[i]@) == self.counts[i]);
            }
        }
        assert(self@.dom() =~= ks.to_set());
        ks.unique_seq_to_set();
    }

    /// The number of occurrences of `keyword`. A keyword that is not a
    /// non-empty run of alphabetic characters gives 0; the keyword is not
    /// lowercased, so one holding an uppercase letter only matches a stored
    /// word that is literally the same.
    pub fn match_count(&self, keyword: &str) -> (r: usize)
        requires
            self.wf(),
        ensures
            r == match_count_of(self@, keyword@),
    {
        let k = chars_of(keyword);
        if !is_valid_word(&k) {
            return 0;
        }
        let (p, found) = self.locate(&k);
        proof {
            self.lemma_counts();
        }
        if found {
            self.counts[p]
        } else {
            proof {
                assert forall|i: int| 0 <= i < self.keys.len() implies self.keys[i]@ != k@ by {
                    if i < p {
                        lemma_lex_irreflexive(k@);
                    } else {
                        lemma_lex_irreflexive(k@);
                    }
                }
            }
            0
        }
    }

    /// The distinct stored words, in ascending order.
    pub fn words(&self) -> (r: Vec<String>)
        requires
            self.wf(),
        ensures
            forall|i: int| 0 <= i < r.len() ==> self@.count(#[trigger] r[i]@) > 0,
            forall|k: Seq<char>| self@.count(k) > 0 ==> exists|i: int| 0 <= i < r.len() && #[trigger] r[i]@ == k,
            forall|i: int, j: int| 0 <= i < j < r.len() ==> lex_lt(#[trigger] r[i]@, #[trigger] r[j]@),
    {
        let mut r: Vec<String> = Vec::new();
        let mut i: usize = 0;
        while i < self.keys.len()
            invariant
                self.wf(),
                i <= self.keys.len(),
                r.len() == i,
                forall|j: int| 0 <= j < i ==> (#[trigger] r[j])@ == self.keys[j]@,
            decreases self.keys.len() - i,
        {
            r.push(string_of(&self.keys[i]));
            i += 1;
        }
        proof {
            self.lemma_counts();
            assert forall|k: Seq<char>| self@.count(k) > 0 implies exists|i: int|
                0 <= i < r.len() && #[trigger] r[i]@ == k by {
                if forall|i: int| 0 <= i < self.keys.len() ==> self.keys[i]@ != k {
                    assert(self@.count(k) == 0);
                }
                let i = choose|i: int| 0 <= i < self.keys.len() && self.keys[i]@ == k;
                assert(r[i]@ == k);
            }
            assert forall|i: int, j: int| 0 <= i < j < r.len() implies lex_lt(
                #[trigger] r[i]@,
                #[trigger] r[j]@,
            ) by {
                assert(lex_lt(self.keys[i]@, self.keys[j]@));
            }
            assert forall|i: int| 0 <= i < r.len() implies self@.count(#[trigger] r[i]@) > 0 by {
                assert(self@.count(self.keys[i]@) == self.counts[i]);
            }
        }
        r
    }

    /// The total number of occurrences, repeats included.
    pub fn count(&self) -> (r: usize)
        requires
            self.wf(),
        ensures
            r == self@.len(),
    {
        let ghost es = self.entries();
        let mut total: usize = 0;
        let mut i: usize = 0;
        assert(es.take(0) =~= Seq::<(Seq<char>, nat)>::empty());
        while i < self.counts.len()
            invariant
                self.wf(),
                es == self.entries(),
                i <= self.counts.len(),
                total == entries_bag(es.take(i as int)).len(),
            decreases self.counts.len() - i,
        {
            proof {
                lemma_entries_bag_take(es, i as int);
                lemma_entries_bag_concat(es.take(i + 1), es.skip(i + 1));
                assert(es =~= es.take(i + 1) + es.skip(i + 1));
            }
            total = total + self.counts[i];
            i += 1;
        }
        assert(es.take(i as int) =~= es);
        total
    }

    /// The number of distinct words.
    pub fn len(&self) -> (r: usize)
        requires
            self.wf(),
        ensures
            r == self@.dom().len(),
    {
        proof {
            self.lemma_counts();
        }
        self.keys.len()
    }

    /// Whether the bag holds no word.
    pub fn is_empty(&self) -> (r: bool)
        requires
            self.wf(),
        ensures
            r == (self@.dom().len() == 0),
            r == (self@.len() == 0),
    {
        proof {
            self.lemma_counts();
            if self.keys.len() == 0 {
                assert(self.entries() =~= Seq::<(Seq<char>, nat)>::empty());
            } else {
                assert(self@.count(self.keys[0]@) == self.counts[0]);
            }
        }
        self.keys.len() == 0
    }

    /// Counts the word of the fragment `chars[s..e]`, if it has one.
    fn add_fragment(&mut self, chars: &Vec<char>, s: usize, e: usize)
        requires
            old(self).wf(),
            s <= e <= chars.len(),
            old(self)@.len() + (e - s) <= usize::MAX,
        ensures
            final(self).wf(),
            final(self)@ == old(self)@.add(fragment_words(chars@.subrange(s as int, e as int)).to_multiset()),
            fragment_words(chars@.subrange(s as int, e as int)).len() <= e - s,
    {
        let ghost f = chars@.subrange(s as int, e as int);
        let mut a = s;
        while a < e && !is_alphabetic(chars[a])
            invariant
                s <= a <= e <= chars.len(),
                trim_start(f) == trim_start(chars@.subrange(a as int, e as int)),
            decreases e - a,
        {
            assert(chars@.subrange(a as int, e as int).drop_first() =~= chars@.subrange(a + 1, e as int));
            a += 1;
        }
        assert(trim_start(f) == chars@.subrange(a as int, e as int));
        let mut b = e;
        while b > a && !is_alphabetic(chars[b - 1])
            invariant
                a <= b <= e <= chars.len(),
                trim(f) == trim_end(chars@.subrange(a as int, b as int)),
            decreases b - a,
        {
            assert(chars@.subrange(a as int, b as int).drop_last() =~= chars@.subrange(a as int, b - 1));
            b -= 1;
        }
        let ghost t = chars@.subrange(a as int, b as int);
        assert(trim(f) == t);
        let mut word: Vec<char> = Vec::new();
        let mut j = a;
        while j < b
            invariant
                a <= j <= b <= chars.len(),
                word@ == chars@.subrange(a as int, j as int),
            decreases b - j,
        {
            word.push(chars[j]);
            j += 1;
        }
        assert(word@ == t);
        if is_valid_word(&word) {
            let key = if has_uppercase(&word) {
                lowercase(&word)
            } else {
                word
            };
            assert(key@ == normalize(t));
            assert(fragment_words(f) == seq![key@]);
            assert(seq![key@] =~= Seq::<Seq<char>>::empty().push(key@));
            assert(self@.add(seq![key@].to_multiset()) =~= self@.insert(key@));
            self.insert_word(key);
        } else {
            assert(fragment_words(f) == Seq::<Seq<char>>::empty());
            assert(self@.add(Seq::<Seq<char>>::empty().to_multiset()) =~= self@);
        }
    }

    /// Adds the words of `target` to this bag: the text is split at
    /// whitespace, each fragment loses its leading and trailing
    /// non-alphabetic characters, and what remains is counted, lowercased if
    /// it holds an uppercase letter, when it is a non-empty run of
    /// alphabetic characters. Calls can be chained to cover several texts.
    pub fn extend_from_text(self, target: &str) -> (r: Self)
        requires
            self.wf(),
            self@.len() + target@.len() <= usize::MAX,
        ensures
            r.wf(),
            r@ == self@.add(text_bag(target@)),
    {
        let mut bag = self;
        let chars = chars_of(target);
        let n = chars.len();
        let mut start: usize = 0;
        let mut i: usize = 0;
        let ghost mut done: Seq<Seq<char>> = Seq::empty();
        assert(chars@.subrange(0, n as int) =~= chars@);
        assert(chars@.subrange(0, 0) =~= Seq::<char>::empty());
        assert(words_in(done).to_multiset() =~= Multiset::empty());
        assert(self@.add(Multiset::empty()) =~= self@);
        while i < n
            invariant
                chars@ == target@,
                n == chars.len(),
                start <= i <= n,
                fragments(target@) == done + split_from(
                    chars@.subrange(i as int, n as int),
                    chars@.subrange(start as int, i as int),
                ),
                bag.wf(),
                bag@ == self@.add(words_in(done).to_multiset()),
                words_in(done).len() <= start,
                self@.len() + n <= usize::MAX,
            decreases n - i,
        {
            let ghost rest = chars@.subrange(i as int, n as int);
            let ghost cur = chars@.subrange(start as int, i as int);
            assert(rest.drop_first() =~= chars@.subrange(i + 1, n as int));
            if is_whitespace(chars[i]) {
                let ghost before = bag@;
                bag.add_fragment(&chars, start, i);
                proof {
                    lemma_words_in_flush(done, cur);
                    assert(done + (flush(cur) + split_from(rest.drop_first(), Seq::empty()))
                        =~= (done + flush(cur)) + split_from(rest.drop_first(), Seq::empty()));
                    done = done + flush(cur);
                    assert(bag@ =~= self@.add(words_in(done).to_multiset()));
                    assert(chars@.subrange(i + 1, i + 1) =~= Seq::<char>::empty());
                }
                start = i + 1;
            } else {
                assert(cur.push(chars@[i as int]) =~= chars@.subrange(start as int, i + 1));
            }
            i += 1;
        }
        let ghost cur = chars@.subrange(start as int, n as int);
        assert(chars@.subrange(n as int, n as int) =~= Seq::<char>::empty());
        bag.add_fragment(&chars, start, n);
        proof {
            lemma_words_in_flush(done, cur);
            assert(bag@ =~= self@.add(words_in(done + flush(cur)).to_multiset()));
        }
        bag
    }

    /// Counts one more occurrence of the word `w`.
    fn insert_word(&mut self, w: Vec<char>)
        requires
            old(self).wf(),
            old(self)@.len() < usize::MAX,
        ensures
            final(self).wf(),
            final(self)@ == old(self)@.insert(w@),
    {
        let (p, found) = self.locate(&w);
        proof {
            self.lemma_distinct();
        }
        if found {
            let c = self.counts[p];
            proof {
                lemma_entries_bag_count(self.entries(), w@);
                assert(self.entries()[p as int].0 == w@);
                assert(self@.count(w@) == c);
            }
            self.counts[p] = c + 1;
            proof {
                assert(self.entries() =~= old(self).entries().update(
                    p as int,
                    (old(self).entries()[p as int].0, old(self).entries()[p as int].1 + 1),
                ));
                lemma_entries_bag_bump(old(self).entries(), p as int);
            }
        } else {
            self.keys.insert(p, w);
            self.counts.insert(p, 1);
            proof {
                assert(self.entries() =~= old(self).entries().insert(p as int, (w@, 1nat)));
                lemma_entries_bag_insert(old(self).entries(), p as int, w@);
                assert forall|i: int, j: int| 0 <= i < j < self.keys.len() implies lex_lt(
                    #[trigger] self.keys[i]@,
                    #[trigger] self.keys[j]@,
                ) by {
                    if j < p {
                        assert(self.keys[i] == old(self).keys[i]);
                        assert(self.keys[j] == old(self).keys[j]);
                    } else if j == p {
                        assert(self.keys[i] == old(self).keys[i]);
                    } else if i < p {
                        assert(self.keys[i] == old(self).keys[i]);
                        assert(self.keys[j] == old(self).keys[j - 1]);
                    } else if i == p {
                        assert(self.keys[j] == old(self).keys[j - 1]);
                    } else {
                        assert(self.keys[i] == old(self).keys[i - 1]);
                        assert(self.keys[j] == old(self).keys[j - 1]);
                    }
                }
                assert forall|i: int| 0 <= i < self.counts.len() implies #[trigger] self.counts[i]
                    > 0 by {
                    if i < p {
                        assert(self.counts[i] == old(self).counts[i]);
                    } else if i > p {
                        assert(self.counts[i] == old(self).counts[i - 1]);
                    }
                }
            }
        }
    }
}

} // verus!
