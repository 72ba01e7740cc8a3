//! The rules that turn a text into its sequence of normalized words, stated
//! as spec functions, and the character classes they rest on.
use vstd::multiset::Multiset;
use vstd::prelude::*;

verus! {

/// Whether `c` has the Unicode `Alphabetic` property.
pub uninterp spec fn is_alpha(c: char) -> bool;

/// Whether `c` has the Unicode `Uppercase` property.
pub uninterp spec fn is_upper(c: char) -> bool;

/// The Unicode lowercase mapping of a whole string.
pub uninterp spec fn lower_of(s: Seq<char>) -> Seq<char>;

/// Whether `c` has the Unicode `White_Space` property.
pub open spec fn is_space(c: char) -> bool {
    let u = c as int;
    ||| 0x09 <= u <= 0x0D
    ||| u == 0x20
    ||| u == 0x85
    ||| u == 0xA0
    ||| u == 0x1680
    ||| 0x2000 <= u <= 0x200A
    ||| u == 0x2028
    ||| u == 0x2029
    ||| u == 0x202F
    ||| u == 0x205F
    ||| u == 0x3000
}

/// Relies on `char::is_alphabetic`, which tests the `Alphabetic` property.
#[verifier::external_body]
pub(crate) fn is_alphabetic(c: char) -> (r: bool)
    ensures
        r == is_alpha(c),
{
    c.is_alphabetic()
}

/// Relies on `char::is_uppercase`, which tests the `Uppercase` property.
#[verifier::external_body]
pub(crate) fn is_uppercase(c: char) -> (r: bool)
    ensures
        r == is_upper(c),
{
    c.is_uppercase()
}

/// Relies on `char::is_whitespace`, which tests the `White_Space` property.
#[verifier::external_body]
pub(crate) fn is_whitespace(c: char) -> (r: bool)
    ensures
        r == is_space(c),
{
    c.is_whitespace()
}

/// Relies on `str::to_lowercase`: the lowercase mapping of the characters.
#[verifier::external_body]
pub(crate) fn lowercase(w: &Vec<char>) -> (r: Vec<char>)
    ensures
        r@ == lower_of(w@),
{
    let s: String = w.iter().collect();
    s.to_lowercase().chars().collect()
}

/// Relies on `str::chars`: the characters of `s`, in order.
#[verifier::external_body]
pub(crate) fn chars_of(s: &str) -> (r: Vec<char>)
    ensures
        r@ == s@,
{
    s.chars().collect()
}

/// Relies on `String`'s `FromIterator<char>`: the characters of `v`, in order.
#[verifier::external_body]
pub(crate) fn string_of(v: &Vec<char>) -> (r: String)
    ensures
        r@ == v@,
{
    v.iter().collect()
}

/// The fragment being gathered, as a list of zero or one fragments.
pub open spec fn flush(cur: Seq<char>) -> Seq<Seq<char>> {
    if cur.len() == 0 {
        seq![]
    } else {
        seq![cur]
    }
}

/// Splitting `t` at whitespace, where `cur` is the non-whitespace run read
/// just before `t`. Runs of whitespace give no empty fragments.
pub open spec fn split_from(t: Seq<char>, cur: Seq<char>) -> Seq<Seq<char>>
    decreases t.len(),
{
    if t.len() == 0 {
        flush(cur)
    } else if is_space(t[0]) {
        flush(cur) + split_from(t.drop_first(), seq![])
    } else {
        split_from(t.drop_first(), cur.push(t[0]))
    }
}

/// The maximal whitespace-free runs of `t`, in order.
pub open spec fn fragments(t: Seq<char>) -> Seq<Seq<char>> {
    split_from(t, seq![])
}

/// `f` without its leading non-alphabetic characters.
pub open spec fn trim_start(f: Seq<char>) -> Seq<char>
    decreases f.len(),
{
    if f.len() > 0 && !is_alpha(f[0]) {
        trim_start(f.drop_first())
    } else {
        f
    }
}

/// `f` without its trailing non-alphabetic characters.
pub open spec fn trim_end(f: Seq<char>) -> Seq<char>
    decreases f.len(),
{
    if f.len() > 0 && !is_alpha(f.last()) {
        trim_end(f.drop_last())
    } else {
        f
    }
}

/// `f` without non-alphabetic characters at either end.
pub open spec fn trim(f: Seq<char>) -> Seq<char> {
    trim_end(trim_start(f))
}

/// A word: non-empty and alphabetic throughout.
pub open spec fn is_word(w: Seq<char>) -> bool {
    w.len() > 0 && forall|i: int| 0 <= i < w.len() ==> is_alpha(#[trigger] w[i])
}

/// Whether some character of `w` is uppercase.
pub open spec fn has_upper(w: Seq<char>) -> bool {
    exists|i: int| 0 <= i < w.len() && is_upper(#[trigger] w[i])
}

/// The key under which a word is counted: lowercased when it holds an
/// uppercase character, itself otherwise.
pub open spec fn normalize(w: Seq<char>) -> Seq<char> {
    if has_upper(w) {
        lower_of(w)
    } else {
        w
    }
}

/// What one fragment contributes: its normalized word, or nothing when the
/// trimmed fragment is not a word.
pub open spec fn fragment_words(f: Seq<char>) -> Seq<Seq<char>> {
    if is_word(trim(f)) {
        seq![normalize(trim(f))]
    } else {
        seq![]
    }
}

/// Whether `w` is a word: non-empty and alphabetic throughout.
pub fn is_valid_word(w: &Vec<char>) -> (r: bool)
    ensures
        r == is_word(w@),
{
    if w.len() == 0 {
        return false;
    }
    let mut i: usize = 0;
    while i < w.len()
        invariant
            i <= w.len(),
            forall|j: int| 0 <= j < i ==> is_alpha(#[trigger] w@[j]),
        decreases w.len() - i,
    {
        if !is_alphabetic(w[i]) {
            return false;
        }
        i += 1;
    }
    true
}

/// Whether some character of `w` is uppercase.
pub fn has_uppercase(w: &Vec<char>) -> (r: bool)
    ensures
        r == has_upper(w@),
{
    let mut i: usize = 0;
    while i < w.len()
        invariant
            i <= w.len(),
            forall|j: int| 0 <= j < i ==> !is_upper(#[trigger] w@[j]),
        decreases w.len() - i,
    {
        if is_uppercase(w[i]) {
            return true;
        }
        i += 1;
    }
    false
}

/// The words contributed by a list of fragments, in order.
pub open spec fn words_in(fs: Seq<Seq<char>>) -> Seq<Seq<char>>
    decreases fs.len(),
{
    if fs.len() == 0 {
        seq![]
    } else {
        words_in(fs.drop_last()) + fragment_words(fs.last())
    }
}

/// The normalized words of `t`, in the order they occur.
pub open spec fn text_words(t: Seq<char>) -> Seq<Seq<char>> {
    words_in(fragments(t))
}

/// The normalized words of `t`, each with its number of occurrences.
pub open spec fn text_bag(t: Seq<char>) -> Multiset<Seq<char>> {
    text_words(t).to_multiset()
}

/// What a query for `k` answers on the counts `m`: nothing for a keyword
/// that is not a word, its count otherwise. The keyword is not normalized.
pub open spec fn match_count_of(m: Multiset<Seq<char>>, k: Seq<char>) -> nat {
    if is_word(k) {
        m.count(k)
    } else {
        0
    }
}

/// The words of `done` followed by those of the fragment `f`.
pub proof fn lemma_words_in_flush(done: Seq<Seq<char>>, f: Seq<char>)
    ensures
        words_in(done + flush(f)) == words_in(done) + fragment_words(f),
{
    if f.len() == 0 {
        assert(done + flush(f) =~= done);
        assert(trim(f) =~= f);
        assert(fragment_words(f) =~= seq![]);
        assert(words_in(done) + fragment_words(f) =~= words_in(done));
    } else {
        assert((done + flush(f)).drop_last() =~= done);
    }
}

} // verus!
