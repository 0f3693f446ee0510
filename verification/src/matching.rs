//! The fuzzy match primitive: which (haystack, pattern) pairs match, and the
//! score and matched character positions the matcher assigns to them.
//!
//! Matching itself is done by an outside matcher whose acceptance condition
//! is a greedy in-order scan of the haystack; that condition is modelled
//! here exactly, so that the guarantee "a contiguous occurrence of the
//! pattern is always found" can be proved rather than assumed.

use vstd::prelude::*;

verus! {

/// Does the pattern contain an ASCII uppercase letter? The matcher compares
/// case-sensitively exactly when it does ("smart case").
pub open spec fn contains_ascii_upper(p: Seq<char>) -> bool {
    exists|i: int| 0 <= i < p.len() && 65 <= #[trigger] p[i] as u32 <= 90
}

/// The code point of `c`, with ASCII uppercase folded to lowercase.
pub open spec fn ascii_lower_u32(c: char) -> u32 {
    if 65 <= c as u32 && c as u32 <= 90 {
        (c as u32 + 32) as u32
    } else {
        c as u32
    }
}

/// The character comparison the matcher uses: equality when case-sensitive,
/// ASCII-case-insensitive equality otherwise.
pub open spec fn chars_match(a: char, b: char, case_sensitive: bool) -> bool {
    if case_sensitive {
        a == b
    } else {
        ascii_lower_u32(a) == ascii_lower_u32(b)
    }
}

/// A greedy in-order scan of `hay`, consuming a pattern character whenever
/// the current haystack character matches it; true when the whole pattern is
/// consumed.
pub open spec fn greedy_subseq(hay: Seq<char>, pat: Seq<char>, cs: bool) -> bool
    decreases hay.len(),
{
    if pat.len() == 0 {
        true
    } else if hay.len() == 0 {
        false
    } else if chars_match(hay[0], pat[0], cs) {
        greedy_subseq(hay.drop_first(), pat.drop_first(), cs)
    } else {
        greedy_subseq(hay.drop_first(), pat, cs)
    }
}

/// `pat` embeds into `hay` in order under the matcher's character comparison.
pub open spec fn is_subseq(hay: Seq<char>, pat: Seq<char>, cs: bool) -> bool
    decreases hay.len(),
{
    if pat.len() == 0 {
        true
    } else if hay.len() == 0 {
        false
    } else {
        (chars_match(hay[0], pat[0], cs) && is_subseq(hay.drop_first(), pat.drop_first(), cs))
            || is_subseq(hay.drop_first(), pat, cs)
    }
}

/// `pat` occurs in `hay` as a contiguous run starting at `i`, character by
/// character under the matcher's comparison.
pub open spec fn matches_at(hay: Seq<char>, pat: Seq<char>, i: int, cs: bool) -> bool {
    &&& 0 <= i
    &&& i + pat.len() <= hay.len()
    &&& forall|j: int| 0 <= j < pat.len() ==> chars_match(hay[i + j], #[trigger] pat[j], cs)
}

/// Does the matcher report a match at all for this pair?
pub open spec fn fuzzy_is_match(hay: Seq<char>, pat: Seq<char>) -> bool {
    pat.len() == 0 || greedy_subseq(hay, pat, contains_ascii_upper(pat))
}

/// The score and matched character positions the matcher assigns to a
/// matching pair; a function of the two strings alone, named but not
/// otherwise specified.
pub uninterp spec fn skim_result(hay: Seq<char>, pat: Seq<char>) -> (i64, Seq<usize>);

/// Relies on `fuzzy_matcher`'s `SkimMatcherV2::fuzzy_indices` in its default
/// (smart-case) configuration: it returns `Some` exactly when the pattern is
/// empty or a greedy in-order scan of the haystack consumes the whole
/// pattern, comparing ASCII-case-insensitively unless the pattern holds an
/// ASCII uppercase letter; the score and matched positions returned depend
/// on the two strings alone.
#[verifier::external_body]
pub fn fuzzy_indices(hay: &str, pat: &str) -> (r: Option<(i64, Vec<usize>)>)
    ensures
        r is Some <==> fuzzy_is_match(hay@, pat@),
        match r {
            Some(p) => p.0 == skim_result(hay@, pat@).0 && p.1@ == skim_result(hay@, pat@).1,
            None => true,
        },
{
    fuzzy_matcher::FuzzyMatcher::fuzzy_indices(
        &fuzzy_matcher::skim::SkimMatcherV2::default(),
        hay,
        pat,
    )
}

/// Dropping the first pattern character preserves an in-order embedding.
proof fn lemma_subseq_drop_pat(hay: Seq<char>, pat: Seq<char>, cs: bool)
    requires
        is_subseq(hay, pat, cs),
        pat.len() > 0,
    ensures
        is_subseq(hay, pat.drop_first(), cs),
    decreases hay.len(),
{
    if hay.len() > 0 {
        if chars_match(hay[0], pat[0], cs) && is_subseq(hay.drop_first(), pat.drop_first(), cs) {
            if pat.drop_first().len() > 0 {
                assert(is_subseq(hay, pat.drop_first(), cs));
            }
        } else {
            lemma_subseq_drop_pat(hay.drop_first(), pat, cs);
        }
    }
}

/// The greedy scan succeeds whenever any in-order embedding exists.
proof fn lemma_subseq_implies_greedy(hay: Seq<char>, pat: Seq<char>, cs: bool)
    requires
        is_subseq(hay, pat, cs),
    ensures
        greedy_subseq(hay, pat, cs),
    decreases hay.len(),
{
    if pat.len() > 0 && hay.len() > 0 {
        if chars_match(hay[0], pat[0], cs) {
            if is_subseq(hay.drop_first(), pat.drop_first(), cs) {
                lemma_subseq_implies_greedy(hay.drop_first(), pat.drop_first(), cs);
            } else {
                lemma_subseq_drop_pat(hay.drop_first(), pat, cs);
                lemma_subseq_implies_greedy(hay.drop_first(), pat.drop_first(), cs);
            }
        } else {
            lemma_subseq_implies_greedy(hay.drop_first(), pat, cs);
        }
    }
}

/// A contiguous occurrence is in particular an in-order embedding.
proof fn lemma_occurrence_implies_subseq(hay: Seq<char>, pat: Seq<char>, i: int, cs: bool)
    requires
        matches_at(hay, pat, i, cs),
    ensures
        is_subseq(hay, pat, cs),
    decreases hay.len(),
{
    if pat.len() > 0 {
        if i > 0 {
            assert(matches_at(hay.drop_first(), pat, i - 1, cs)) by {
                assert(forall|j: int|
                    0 <= j < pat.len() ==> chars_match(
                        hay.drop_first()[i - 1 + j],
                        #[trigger] pat[j],
                        cs,
                    ));
            }
            lemma_occurrence_implies_subseq(hay.drop_first(), pat, i - 1, cs);
        } else {
            assert(chars_match(hay[0], pat[0], cs));
            assert(matches_at(hay.drop_first(), pat.drop_first(), 0, cs)) by {
                assert(forall|j: int|
                    0 <= j < pat.drop_first().len() ==> chars_match(
                        hay.drop_first()[j],
                        #[trigger] pat.drop_first()[j],
                        cs,
                    ));
            }
            lemma_occurrence_implies_subseq(hay.drop_first(), pat.drop_first(), 0, cs);
        }
    }
}

/// If the pattern occurs in the haystack as a contiguous run of characters
/// (under the character comparison the matcher uses for that pattern), the
/// matcher reports a match.
pub proof fn lemma_substring_match_found(hay: Seq<char>, pat: Seq<char>, i: int)
    requires
        matches_at(hay, pat, i, contains_ascii_upper(pat)),
    ensures
        fuzzy_is_match(hay, pat),
{
    if pat.len() > 0 {
        let cs = contains_ascii_upper(pat);
        lemma_occurrence_implies_subseq(hay, pat, i, cs);
        lemma_subseq_implies_greedy(hay, pat, cs);
    }
}

/// Any in-order embedding at all (contiguous or not) is found by the
/// matcher; a match is never missed for want of adjacency.
pub proof fn lemma_subsequence_match_found(hay: Seq<char>, pat: Seq<char>)
    requires
        is_subseq(hay, pat, contains_ascii_upper(pat)),
    ensures
        fuzzy_is_match(hay, pat),
{
    if pat.len() > 0 {
        lemma_subseq_implies_greedy(hay, pat, contains_ascii_upper(pat));
    }
}

} // verus!
