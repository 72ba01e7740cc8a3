//! Lists of (word, count) entries and the counts they hold.
use vstd::multiset::Multiset;
use vstd::prelude::*;

verus! {

broadcast use vstd::multiset::group_multiset_axioms;

/// `n` copies of `k`.
pub open spec fn copies(k: Seq<char>, n: nat) -> Multiset<Seq<char>>
    decreases n,
{
    if n == 0 {
        Multiset::empty()
    } else {
        copies(k, (n - 1) as nat).insert(k)
    }
}

/// The counts held by a list of (word, count) entries.
pub open spec fn entries_bag(es: Seq<(Seq<char>, nat)>) -> Multiset<Seq<char>>
    decreases es.len(),
{
    if es.len() == 0 {
        Multiset::empty()
    } else {
        entries_bag(es.drop_last()).add(copies(es.last().0, es.last().1))
    }
}

/// No two entries hold the same word.
pub open spec fn distinct_words(es: Seq<(Seq<char>, nat)>) -> bool {
    forall|i: int, j: int| 0 <= i < es.len() && 0 <= j < es.len() && i != j ==> es[i].0 != es[j].0
}

pub proof fn lemma_copies(k: Seq<char>, n: nat)
    ensures
        forall|x: Seq<char>| #[trigger] copies(k, n).count(x) == if x == k { n } else { 0 },
        copies(k, n).len() == n,
    decreases n,
{
    if n > 0 {
        lemma_copies(k, (n - 1) as nat);
    }
}

pub proof fn lemma_entries_bag_concat(a: Seq<(Seq<char>, nat)>, b: Seq<(Seq<char>, nat)>)
    ensures
        entries_bag(a + b) =~= entries_bag(a).add(entries_bag(b)),
    decreases b.len(),
{
    if b.len() == 0 {
        assert(a + b =~= a);
    } else {
        assert((a + b).drop_last() =~= a + b.drop_last());
        lemma_entries_bag_concat(a, b.drop_last());
    }
}

pub proof fn lemma_entries_bag_single(e: (Seq<char>, nat))
    ensures
        entries_bag(seq![e]) =~= copies(e.0, e.1),
{
    assert(seq![e].drop_last() =~= Seq::<(Seq<char>, nat)>::empty());
    assert(entries_bag(Seq::<(Seq<char>, nat)>::empty()) == Multiset::<Seq<char>>::empty());
    assert(Multiset::<Seq<char>>::empty().add(copies(e.0, e.1)) =~= copies(e.0, e.1));
}

/// Among entries with distinct words, a word counts what its entry says,
/// and a word without an entry counts nothing.
pub proof fn lemma_entries_bag_count(es: Seq<(Seq<char>, nat)>, k: Seq<char>)
    requires
        distinct_words(es),
    ensures
        forall|i: int| 0 <= i < es.len() && es[i].0 == k ==> entries_bag(es).count(k) == es[i].1,
        (forall|i: int| 0 <= i < es.len() ==> es[i].0 != k) ==> entries_bag(es).count(k) == 0,
    decreases es.len(),
{
    if es.len() > 0 {
        let init = es.drop_last();
        assert(distinct_words(init));
        lemma_entries_bag_count(init, k);
        lemma_copies(es.last().0, es.last().1);
        assert forall|i: int| 0 <= i < es.len() && es[i].0 == k implies entries_bag(es).count(k)
            == es[i].1 by {
            if i < es.len() - 1 {
                assert(init[i] == es[i]);
            } else {
                assert forall|j: int| 0 <= j < init.len() implies init[j].0 != k by {
                    assert(init[j] == es[j]);
                }
            }
        }
        if forall|i: int| 0 <= i < es.len() ==> es[i].0 != k {
            assert forall|j: int| 0 <= j < init.len() implies init[j].0 != k by {
                assert(init[j] == es[j]);
            }
        }
    }
}

/// Adding one to the count of entry `i` adds one occurrence of its word.
pub proof fn lemma_entries_bag_bump(es: Seq<(Seq<char>, nat)>, i: int)
    requires
        0 <= i < es.len(),
    ensures
        entries_bag(es.update(i, (es[i].0, es[i].1 + 1))) =~= entries_bag(es).insert(es[i].0),
{
    let pre = es.subrange(0, i);
    let post = es.subrange(i + 1, es.len() as int);
    let e = es[i];
    let e2 = (e.0, e.1 + 1);
    assert(es =~= pre + seq![e] + post);
    assert(es.update(i, e2) =~= pre + seq![e2] + post);
    lemma_entries_bag_concat(pre + seq![e], post);
    lemma_entries_bag_concat(pre, seq![e]);
    lemma_entries_bag_concat(pre + seq![e2], post);
    lemma_entries_bag_concat(pre, seq![e2]);
    lemma_entries_bag_single(e);
    lemma_entries_bag_single(e2);
    lemma_copies(e.0, e.1);
    lemma_copies(e.0, e2.1);
}

/// A new entry of count one at `p` adds one occurrence of its word.
pub proof fn lemma_entries_bag_insert(es: Seq<(Seq<char>, nat)>, p: int, w: Seq<char>)
    requires
        0 <= p <= es.len(),
    ensures
        entries_bag(es.insert(p, (w, 1))) =~= entries_bag(es).insert(w),
{
    let pre = es.subrange(0, p);
    let post = es.subrange(p, es.len() as int);
    let e = (w, 1nat);
    assert(es =~= pre + post);
    assert(es.insert(p, e) =~= pre + seq![e] + post);
    lemma_entries_bag_concat(pre, post);
    lemma_entries_bag_concat(pre + seq![e], post);
    lemma_entries_bag_concat(pre, seq![e]);
    lemma_entries_bag_single(e);
    lemma_copies(w, 1);
}

/// The total of the counts of the first `i` entries and of entry `i`.
pub proof fn lemma_entries_bag_take(es: Seq<(Seq<char>, nat)>, i: int)
    requires
        0 <= i < es.len(),
    ensures
        entries_bag(es.take(i + 1)).len() == entries_bag(es.take(i)).len() + es[i].1,
{
    assert(es.take(i + 1).drop_last() =~= es.take(i));
    lemma_copies(es[i].0, es[i].1);
}

} // verus!
