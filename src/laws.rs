//! Laws that hold of ingestion and queries, proved over the spec functions
//! that the bag's contracts use.
use vstd::multiset::Multiset;
use vstd::prelude::*;

use crate::text::{
    flush, fragment_words, fragments, has_upper, is_alpha, is_space, is_word, lemma_words_in_flush,
    lower_of, match_count_of, normalize, split_from, text_bag, text_words, trim, trim_end,
    trim_start, words_in,
};

verus! {

broadcast use vstd::multiset::group_multiset_axioms, vstd::seq_lib::group_to_multiset_ensures,
    vstd::seq_lib::lemma_multiset_commutative;

/// The sum of `match_count_of(m, k)` over the keywords `ks`.
pub open spec fn total_matches(m: Multiset<Seq<char>>, ks: Seq<Seq<char>>) -> nat
    decreases ks.len(),
{
    if ks.len() == 0 {
        0
    } else {
        total_matches(m, ks.drop_last()) + match_count_of(m, ks.last())
    }
}

/// Whether `t` holds no whitespace.
pub open spec fn no_space(t: Seq<char>) -> bool {
    forall|i: int| 0 <= i < t.len() ==> !is_space(#[trigger] t[i])
}

/// Whether `t` holds no alphabetic character.
pub open spec fn no_alpha(t: Seq<char>) -> bool {
    forall|i: int| 0 <= i < t.len() ==> !is_alpha(#[trigger] t[i])
}

/// Splitting at a whitespace character splits the fragments there.
proof fn lemma_split_at_space(t1: Seq<char>, c: char, t2: Seq<char>, cur: Seq<char>)
    requires
        is_space(c),
    ensures
        split_from(t1 + seq![c] + t2, cur) == split_from(t1, cur) + split_from(t2, seq![]),
    decreases t1.len(),
{
    let t = t1 + seq![c] + t2;
    if t1.len() == 0 {
        assert(t.drop_first() =~= t2);
        assert(flush(cur) + split_from(t2, seq![]) =~= split_from(t1, cur) + split_from(t2, seq![]));
    } else {
        assert(t.drop_first() =~= t1.drop_first() + seq![c] + t2);
        assert(t[0] == t1[0]);
        if is_space(t1[0]) {
            lemma_split_at_space(t1.drop_first(), c, t2, seq![]);
            assert(flush(cur) + (split_from(t1.drop_first(), seq![]) + split_from(t2, seq![])) =~= (
            flush(cur) + split_from(t1.drop_first(), seq![])) + split_from(t2, seq![]));
        } else {
            lemma_split_at_space(t1.drop_first(), c, t2, cur.push(t1[0]));
        }
    }
}

proof fn lemma_words_in_concat(a: Seq<Seq<char>>, b: Seq<Seq<char>>)
    ensures
        words_in(a + b) == words_in(a) + words_in(b),
    decreases b.len(),
{
    if b.len() == 0 {
        assert(a + b =~= a);
        assert(words_in(a) + words_in(b) =~= words_in(a));
    } else {
        assert((a + b).drop_last() =~= a + b.drop_last());
        lemma_words_in_concat(a, b.drop_last());
        assert(words_in(a + b) =~= words_in(a) + words_in(b));
    }
}

/// The words of two texts joined by whitespace are those of the first, then
/// those of the second.
pub proof fn lemma_text_words_join(t1: Seq<char>, c: char, t2: Seq<char>)
    requires
        is_space(c),
    ensures
        text_words(t1 + seq![c] + t2) == text_words(t1) + text_words(t2),
{
    lemma_split_at_space(t1, c, t2, seq![]);
    lemma_words_in_concat(fragments(t1), fragments(t2));
}

/// Ingesting `t1` then `t2` counts what ingesting `t1`, a whitespace
/// character and `t2` counts, and what ingesting `t2` then `t1` counts.
pub proof fn lemma_ingest_order_independent(t1: Seq<char>, c: char, t2: Seq<char>)
    requires
        is_space(c),
    ensures
        Multiset::empty().add(text_bag(t1)).add(text_bag(t2)) == Multiset::empty().add(
            text_bag(t1 + seq![c] + t2),
        ),
        Multiset::empty().add(text_bag(t1)).add(text_bag(t2)) == Multiset::empty().add(
            text_bag(t2),
        ).add(text_bag(t1)),
{
    lemma_text_words_join(t1, c, t2);
    assert(Multiset::empty().add(text_bag(t1)).add(text_bag(t2)) =~= Multiset::empty().add(
        text_bag(t1 + seq![c] + t2),
    ));
    assert(Multiset::empty().add(text_bag(t1)).add(text_bag(t2)) =~= Multiset::empty().add(
        text_bag(t2),
    ).add(text_bag(t1)));
}

/// Ingesting a text twice into an empty bag gives every keyword twice the
/// count that ingesting it once gives.
pub proof fn lemma_ingest_twice_doubles(t: Seq<char>, k: Seq<char>)
    ensures
        match_count_of(Multiset::empty().add(text_bag(t)).add(text_bag(t)), k) == 2
            * match_count_of(Multiset::empty().add(text_bag(t)), k),
{
}

proof fn lemma_total_matches_insert(m: Multiset<Seq<char>>, ks: Seq<Seq<char>>, x: Seq<char>)
    requires
        ks.no_duplicates(),
        forall|i: int| 0 <= i < ks.len() ==> is_word(#[trigger] ks[i]),
    ensures
        total_matches(m.insert(x), ks) == total_matches(m, ks) + if ks.contains(x) {
            1nat
        } else {
            0nat
        },
    decreases ks.len(),
{
    if ks.len() > 0 {
        let init = ks.drop_last();
        assert(init.no_duplicates());
        lemma_total_matches_insert(m, init, x);
        assert(ks =~= init.push(ks.last()));
        if ks.last() == x {
            assert(!init.contains(x)) by {
                if init.contains(x) {
                    let i = choose|i: int| 0 <= i < init.len() && init[i] == x;
                    assert(ks[i] == ks[ks.len() - 1]);
                }
            }
        } else {
            assert(ks.contains(x) == init.contains(x)) by {
                if ks.contains(x) {
                    let i = choose|i: int| 0 <= i < ks.len() && ks[i] == x;
                    assert(init[i] == x);
                }
            }
        }
    }
}

proof fn lemma_total_matches_of_seq(s: Seq<Seq<char>>, ks: Seq<Seq<char>>)
    requires
        ks.no_duplicates(),
        forall|i: int| 0 <= i < ks.len() ==> is_word(#[trigger] ks[i]),
        forall|i: int| 0 <= i < s.len() ==> ks.contains(#[trigger] s[i]),
    ensures
        total_matches(s.to_multiset(), ks) == s.len(),
    decreases s.len(),
{
    if s.len() == 0 {
        assert(s =~= Seq::<Seq<char>>::empty());
        lemma_total_matches_empty(ks);
    } else {
        let init = s.drop_last();
        assert(s =~= init.push(s.last()));
        assert(ks.contains(s[s.len() - 1]));
        assert forall|i: int| 0 <= i < init.len() implies ks.contains(#[trigger] init[i]) by {
            assert(init[i] == s[i]);
        }
        lemma_total_matches_of_seq(init, ks);
        lemma_total_matches_insert(init.to_multiset(), ks, s.last());
    }
}

proof fn lemma_total_matches_empty(ks: Seq<Seq<char>>)
    ensures
        total_matches(Seq::<Seq<char>>::empty().to_multiset(), ks) == 0,
    decreases ks.len(),
{
    if ks.len() > 0 {
        lemma_total_matches_empty(ks.drop_last());
    }
}

/// After ingesting a text, the distinct stored words are the distinct words
/// extracted from it.
pub proof fn lemma_distinct_entries(t: Seq<char>)
    ensures
        text_bag(t).dom() == text_words(t).to_set(),
{
    assert(text_bag(t).dom() =~= text_words(t).to_set());
}

/// After ingesting a text, the total count is the sum of the counts that
/// `match_count` gives for each distinct word, listed once each in `ks`, and
/// the number of distinct entries is the length of that list. This needs
/// every stored word to be a word itself: the lowercase mapping may turn a
/// letter into characters that are not all alphabetic.
pub proof fn lemma_total_is_sum_of_matches(t: Seq<char>, ks: Seq<Seq<char>>)
    requires
        ks.no_duplicates(),
        ks.to_set() == text_words(t).to_set(),
        forall|i: int| 0 <= i < text_words(t).len() ==> is_word(#[trigger] text_words(t)[i]),
    ensures
        text_bag(t).len() == total_matches(text_bag(t), ks),
        text_bag(t).dom().len() == ks.len(),
{
    let s = text_words(t);
    assert forall|i: int| 0 <= i < ks.len() implies is_word(#[trigger] ks[i]) by {
        assert(ks.to_set().contains(ks[i]));
        let j = choose|j: int| 0 <= j < s.len() && s[j] == ks[i];
    }
    assert forall|i: int| 0 <= i < s.len() implies ks.contains(#[trigger] s[i]) by {
        assert(s.to_set().contains(s[i]));
    }
    lemma_total_matches_of_seq(s, ks);
    lemma_distinct_entries(t);
    ks.unique_seq_to_set();
}

/// A text without whitespace is one fragment, or none when it is empty.
proof fn lemma_split_no_space(t: Seq<char>, cur: Seq<char>)
    requires
        no_space(t),
    ensures
        split_from(t, cur) == flush(cur + t),
    decreases t.len(),
{
    if t.len() == 0 {
        assert(cur + t =~= cur);
    } else {
        lemma_split_no_space(t.drop_first(), cur.push(t[0]));
        assert(cur.push(t[0]) + t.drop_first() =~= cur + t);
    }
}

/// The words of a text without whitespace are what its single fragment gives.
pub proof fn lemma_single_fragment(f: Seq<char>)
    requires
        no_space(f),
    ensures
        text_words(f) == fragment_words(f),
{
    lemma_split_no_space(f, seq![]);
    assert(Seq::<char>::empty() + f =~= f);
    lemma_words_in_flush(Seq::empty(), f);
    assert(Seq::<Seq<char>>::empty() + flush(f) =~= flush(f));
    assert(words_in(Seq::<Seq<char>>::empty()) + fragment_words(f) =~= fragment_words(f));
}

/// A fragment with a non-alphabetic character left after trimming its ends
/// contributes nothing: it is not split into the words around that character.
pub proof fn lemma_inner_mark_discards(f: Seq<char>, i: int)
    requires
        no_space(f),
        0 <= i < trim(f).len(),
        !is_alpha(trim(f)[i]),
    ensures
        text_words(f) == Seq::<Seq<char>>::empty(),
{
    lemma_single_fragment(f);
}

proof fn lemma_trim_start_prefix(p: Seq<char>, x: Seq<char>)
    requires
        no_alpha(p),
        x.len() > 0,
        is_alpha(x[0]),
    ensures
        trim_start(p + x) == x,
    decreases p.len(),
{
    if p.len() == 0 {
        assert(p + x =~= x);
    } else {
        assert((p + x).drop_first() =~= p.drop_first() + x);
        assert((p + x)[0] == p[0]);
        lemma_trim_start_prefix(p.drop_first(), x);
    }
}

proof fn lemma_trim_end_suffix(x: Seq<char>, q: Seq<char>)
    requires
        no_alpha(q),
        x.len() > 0,
        is_alpha(x.last()),
    ensures
        trim_end(x + q) == x,
    decreases q.len(),
{
    if q.len() == 0 {
        assert(x + q =~= x);
    } else {
        assert((x + q).drop_last() =~= x + q.drop_last());
        assert((x + q).last() == q.last());
        lemma_trim_end_suffix(x, q.drop_last());
    }
}

/// Non-alphabetic characters around a word are removed, and the word is
/// counted under its normalized form.
pub proof fn lemma_boundary_marks_stripped(p: Seq<char>, w: Seq<char>, q: Seq<char>)
    requires
        no_alpha(p),
        no_alpha(q),
        is_word(w),
        no_space(p + w + q),
    ensures
        text_words(p + w + q) == seq![normalize(w)],
{
    assert(p + w + q =~= p + (w + q));
    lemma_trim_start_prefix(p, w + q);
    lemma_trim_end_suffix(w, q);
    lemma_single_fragment(p + w + q);
}

/// Words that differ in case only are counted under one key, whose count is
/// their number. This needs each of them to be lowercase already or to hold
/// an uppercase letter: a word of titlecase letters alone is kept as it is.
pub proof fn lemma_case_variants_share_key(w1: Seq<char>, c: char, w2: Seq<char>)
    requires
        is_word(w1),
        is_word(w2),
        no_space(w1),
        no_space(w2),
        is_space(c),
        lower_of(w1) == lower_of(w2),
        has_upper(w1) || lower_of(w1) == w1,
        has_upper(w2) || lower_of(w2) == w2,
    ensures
        normalize(w1) == normalize(w2),
        text_bag(w1 + seq![c] + w2).count(normalize(w1)) == 2,
        text_bag(w1 + seq![c] + w2).dom().len() == 1,
{
    let e = Seq::<char>::empty();
    assert(e + w1 + e =~= w1);
    assert(e + w2 + e =~= w2);
    lemma_boundary_marks_stripped(e, w1, e);
    lemma_boundary_marks_stripped(e, w2, e);
    lemma_text_words_join(w1, c, w2);
    let k = normalize(w1);
    let s = text_words(w1 + seq![c] + w2);
    assert(s =~= seq![k, k]);
    assert(s =~= seq![k].push(k));
    assert(seq![k] =~= Seq::<Seq<char>>::empty().push(k));
    assert(text_bag(w1 + seq![c] + w2).dom() =~= set![k]);
    assert(set![k].len() == 1) by {
        assert(set![k] =~= Set::<Seq<char>>::empty().insert(k));
    }
}

/// A query takes its keyword literally: one that is not a word counts
/// nothing, and after ingesting a text whose stored words hold no uppercase
/// letter, one holding an uppercase letter counts nothing either, whatever
/// its lowercase form counts.
pub proof fn lemma_keyword_taken_literally(t: Seq<char>, k: Seq<char>, m: Multiset<Seq<char>>)
    ensures
        !is_word(k) ==> match_count_of(m, k) == 0,
        has_upper(k) && (forall|i: int|
            0 <= i < text_words(t).len() ==> !has_upper(#[trigger] text_words(t)[i]))
            ==> match_count_of(text_bag(t), k) == 0,
{
    if has_upper(k) && (forall|i: int|
        0 <= i < text_words(t).len() ==> !has_upper(#[trigger] text_words(t)[i])) {
        assert(!text_words(t).contains(k));
    }
}

} // verus!
