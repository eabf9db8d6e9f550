//! Text matching for the search engine.
//!
//! All searches case-fold both the query and the stored text with one policy:
//! Unicode lowercasing as `str::to_lowercase` performs it. Exact search is
//! substring containment; fuzzy search matches the query as an ordered
//! subsequence of the text, so every query character is taken literally.

use vstd::prelude::*;

verus! {

/// The lowercase form of a sequence of characters, as `str::to_lowercase`
/// computes it.
pub uninterp spec fn lower_of(s: Seq<char>) -> Seq<char>;

/// Relies on str::to_lowercase: the result depends on the characters alone.
#[verifier::external_body]
pub(crate) fn lowercase(s: &str) -> (r: String)
    ensures
        r@ == lower_of(s@),
        s@.len() == 0 ==> r@.len() == 0,
{
    s.to_lowercase()
}

/// `pat` occurs in `text` starting at position `i`.
pub open spec fn contains_at(text: Seq<char>, pat: Seq<char>, i: int) -> bool {
    &&& 0 <= i
    &&& i + pat.len() <= text.len()
    &&& text.subrange(i, i + pat.len()) == pat
}

/// `pat` occurs somewhere in `text` as a contiguous substring.
pub open spec fn seq_contains(text: Seq<char>, pat: Seq<char>) -> bool {
    exists|i: int| contains_at(text, pat, i)
}

/// `pat` occurs in `text` as an ordered, not necessarily contiguous,
/// subsequence.
pub open spec fn is_subsequence(pat: Seq<char>, text: Seq<char>) -> bool
    decreases text.len(),
{
    if pat.len() == 0 {
        true
    } else if text.len() == 0 {
        false
    } else if pat[0] == text[0] {
        is_subsequence(pat.skip(1), text.skip(1))
    } else {
        is_subsequence(pat, text.skip(1))
    }
}

/// A fuzzy match is literal: when the query is an ordered subsequence of
/// the text, every character of the query occurs in the text itself. No
/// query character acts as a pattern operator, so no query matches beyond
/// its own characters.
pub proof fn lemma_subsequence_literal(pat: Seq<char>, text: Seq<char>)
    requires
        is_subsequence(pat, text),
    ensures
        forall|k: int| 0 <= k < pat.len() ==> text.contains(#[trigger] pat[k]),
    decreases text.len(),
{
    if pat.len() == 0 {
    } else if text.len() == 0 {
    } else if pat[0] == text[0] {
        lemma_subsequence_literal(pat.skip(1), text.skip(1));
        assert forall|k: int| 0 <= k < pat.len() implies text.contains(#[trigger] pat[k]) by {
            if k == 0 {
                assert(text[0] == pat[k]);
            } else {
                assert(pat.skip(1)[k - 1] == pat[k]);
                assert(text.skip(1).contains(pat[k]));
                let i = choose|i: int|
                    0 <= i < text.skip(1).len() && text.skip(1)[i] == pat[k];
                assert(text[i + 1] == pat[k]);
            }
        }
    } else {
        lemma_subsequence_literal(pat, text.skip(1));
        assert forall|k: int| 0 <= k < pat.len() implies text.contains(#[trigger] pat[k]) by {
            assert(text.skip(1).contains(pat[k]));
            let i = choose|i: int| 0 <= i < text.skip(1).len() && text.skip(1)[i] == pat[k];
            assert(text[i + 1] == pat[k]);
        }
    }
}

/// Character-for-character string equality.
pub fn str_eq(a: &str, b: &str) -> (r: bool)
    ensures
        r == (a@ == b@),
{
    let n = a.unicode_len();
    if n != b.unicode_len() {
        return false;
    }
    let mut i: usize = 0;
    while i < n
        invariant
            i <= n,
            n == a@.len(),
            n == b@.len(),
            forall|k: int| 0 <= k < i ==> a@[k] == b@[k],
        decreases n - i,
    {
        if a.get_char(i) != b.get_char(i) {
            return false;
        }
        i = i + 1;
    }
    proof {
        assert(a@ =~= b@);
    }
    true
}

/// `pat` matches `text` exactly at position `i`.
fn match_at(text: &str, pat: &str, i: usize) -> (r: bool)
    requires
        i + pat@.len() <= text@.len(),
    ensures
        r == contains_at(text@, pat@, i as int),
{
    let n = text.unicode_len();
    let m = pat.unicode_len();
    let mut j: usize = 0;
    while j < m
        invariant
            j <= m,
            n == text@.len(),
            m == pat@.len(),
            i + m <= text@.len(),
            forall|k: int| 0 <= k < j ==> text@[i + k] == pat@[k],
        decreases m - j,
    {
        if text.get_char(i + j) != pat.get_char(j) {
            assert(text@.subrange(i as int, i + pat@.len())[j as int] != pat@[j as int]);
            return false;
        }
        j = j + 1;
    }
    proof {
        assert(text@.subrange(i as int, i + pat@.len()) =~= pat@);
    }
    true
}

/// Substring search: does `pat` occur contiguously in `text`?
pub fn str_contains(text: &str, pat: &str) -> (r: bool)
    ensures
        r == seq_contains(text@, pat@),
{
    let n = text.unicode_len();
    let m = pat.unicode_len();
    if m > n {
        return false;
    }
    if m == 0 {
        proof {
            assert(text@.subrange(0, 0) =~= pat@);
            assert(contains_at(text@, pat@, 0));
        }
        return true;
    }
    let mut i: usize = 0;
    while i <= n - m
        invariant
            0 < m <= n,
            n == text@.len(),
            m == pat@.len(),
            i <= n - m + 1,
            forall|j: int| 0 <= j < i ==> !contains_at(text@, pat@, j),
        decreases n - m - i + 1,
    {
        if match_at(text, pat, i) {
            return true;
        }
        i = i + 1;
    }
    false
}

/// Subsequence search: does every character of `pat` occur in `text`, in
/// order? Scans greedily, which decides the recursive definition exactly.
pub fn str_subsequence(pat: &str, text: &str) -> (r: bool)
    ensures
        r == is_subsequence(pat@, text@),
{
    let m = pat.unicode_len();
    let n = text.unicode_len();
    let mut i: usize = 0;
    let mut j: usize = 0;
    proof {
        assert(pat@.skip(0) =~= pat@);
        assert(text@.skip(0) =~= text@);
    }
    while i < n && j < m
        invariant
            i <= n,
            j <= m,
            n == text@.len(),
            m == pat@.len(),
            is_subsequence(pat@, text@) == is_subsequence(pat@.skip(j as int), text@.skip(i as int)),
        decreases n - i,
    {
        proof {
            assert(pat@.skip(j as int).len() > 0);
            assert(text@.skip(i as int).len() > 0);
            assert(pat@.skip(j as int)[0] == pat@[j as int]);
            assert(text@.skip(i as int)[0] == text@[i as int]);
            assert(pat@.skip(j as int).skip(1) =~= pat@.skip(j + 1));
            assert(text@.skip(i as int).skip(1) =~= text@.skip(i + 1));
        }
        if pat.get_char(j) == text.get_char(i) {
            j = j + 1;
        }
        i = i + 1;
    }
    proof {
        if j == m {
            assert(pat@.skip(j as int).len() == 0);
        } else {
            assert(i == n);
            assert(text@.skip(i as int).len() == 0);
            assert(pat@.skip(j as int).len() > 0);
        }
    }
    j == m
}

} // verus!
