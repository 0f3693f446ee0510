//! The ordering policy applied uniformly across providers: scored candidates
//! are ranked best-first (higher score first), ties keeping their given
//! candidate order, and the list is truncated to the caller's cap only after
//! the full ranking.

use vstd::prelude::*;

use crate::interface::SearchItemHandle;
use crate::matching::{
    contains_ascii_upper, fuzzy_is_match, lemma_substring_match_found, matches_at, skim_result,
};

verus! {

/// The scored candidates for a query: one entry per matching candidate
/// text, in candidate order, carrying the matcher's score and the
/// candidate's index as its handle.
pub open spec fn scored_candidates(texts: Seq<Seq<char>>, pat: Seq<char>) -> Seq<
    (i64, SearchItemHandle),
>
    decreases texts.len(),
{
    if texts.len() == 0 {
        Seq::empty()
    } else {
        let rest = scored_candidates(texts.drop_last(), pat);
        if fuzzy_is_match(texts.last(), pat) {
            rest.push(
                (skim_result(texts.last(), pat).0, SearchItemHandle((texts.len() - 1) as i32)),
            )
        } else {
            rest
        }
    }
}

/// Handles of scored candidates index into the candidate list.
pub proof fn lemma_scored_handles_in_range(texts: Seq<Seq<char>>, pat: Seq<char>)
    requires
        texts.len() <= i32::MAX,
    ensures
        forall|y: (i64, SearchItemHandle)|
            #[trigger] scored_candidates(texts, pat).contains(y) ==> 0 <= y.1.0 < texts.len(),
    decreases texts.len(),
{
    if texts.len() > 0 {
        lemma_scored_handles_in_range(texts.drop_last(), pat);
        let rest = scored_candidates(texts.drop_last(), pat);
        if fuzzy_is_match(texts.last(), pat) {
            let x = (skim_result(texts.last(), pat).0, SearchItemHandle((texts.len() - 1) as i32));
            assert forall|y: (i64, SearchItemHandle)|
                #[trigger] scored_candidates(texts, pat).contains(y) implies 0 <= y.1.0
                < texts.len() by {
                let r = rest.push(x);
                let k = choose|k: int| 0 <= k < r.len() && r[k] == y;
                if k < rest.len() {
                    assert(rest.contains(y));
                }
            }
        }
    }
}

/// A candidate stands among the scored candidates exactly when the matcher
/// reports a match for its text.
pub proof fn lemma_scored_membership(texts: Seq<Seq<char>>, pat: Seq<char>, i: int)
    requires
        texts.len() <= i32::MAX,
        0 <= i < texts.len(),
    ensures
        fuzzy_is_match(texts[i], pat) <==> exists|k: int|
            0 <= k < scored_candidates(texts, pat).len() && (#[trigger] scored_candidates(
                texts,
                pat,
            )[k]).1.0 == i,
    decreases texts.len(),
{
    let s = scored_candidates(texts, pat);
    let rest = scored_candidates(texts.drop_last(), pat);
    if i == texts.len() - 1 {
        if fuzzy_is_match(texts[i], pat) {
            assert(s[rest.len() as int].1.0 == i);
        } else {
            lemma_scored_handles_in_range(texts.drop_last(), pat);
            if exists|k: int| 0 <= k < s.len() && (#[trigger] s[k]).1.0 == i {
                let k = choose|k: int| 0 <= k < s.len() && (#[trigger] s[k]).1.0 == i;
                assert(rest.contains(rest[k]));
            }
        }
    } else {
        lemma_scored_membership(texts.drop_last(), pat, i);
        if fuzzy_is_match(texts[i], pat) {
            let k = choose|k: int| 0 <= k < rest.len() && (#[trigger] rest[k]).1.0 == i;
            assert(s[k].1.0 == i);
        } else {
            if exists|k: int| 0 <= k < s.len() && (#[trigger] s[k]).1.0 == i {
                let k = choose|k: int| 0 <= k < s.len() && (#[trigger] s[k]).1.0 == i;
                assert(k < rest.len());
                assert(rest[k].1.0 == i);
            }
        }
    }
}

/// A candidate whose text contains the pattern as a contiguous run (under
/// the character comparison the matcher uses for that pattern) is never
/// missing from the scored candidates.
pub proof fn lemma_contiguous_candidate_scored(
    texts: Seq<Seq<char>>,
    pat: Seq<char>,
    i: int,
    at: int,
)
    requires
        texts.len() <= i32::MAX,
        0 <= i < texts.len(),
        matches_at(texts[i], pat, at, contains_ascii_upper(pat)),
    ensures
        exists|k: int|
            0 <= k < scored_candidates(texts, pat).len() && (#[trigger] scored_candidates(
                texts,
                pat,
            )[k]).1.0 == i,
{
    lemma_substring_match_found(texts[i], pat, at);
    lemma_scored_membership(texts, pat, i);
}

/// Insert `x` into a best-first list: after every entry scoring at least as
/// well, so that among equal scores earlier candidates stay first.
pub open spec fn insert_desc(
    x: (i64, SearchItemHandle),
    s: Seq<(i64, SearchItemHandle)>,
) -> Seq<(i64, SearchItemHandle)>
    decreases s.len(),
{
    if s.len() == 0 {
        seq![x]
    } else if x.0 > s[0].0 {
        seq![x] + s
    } else {
        seq![s[0]] + insert_desc(x, s.drop_first())
    }
}

/// The full best-first ranking of the scored candidates: a stable sort by
/// score, descending.
pub open spec fn sort_desc(s: Seq<(i64, SearchItemHandle)>) -> Seq<(i64, SearchItemHandle)>
    decreases s.len(),
{
    if s.len() == 0 {
        Seq::empty()
    } else {
        insert_desc(s.last(), sort_desc(s.drop_last()))
    }
}

/// The handles of the best `max` candidates, best first: the full ranking,
/// truncated to `max`, each entry reduced to its handle.
pub open spec fn rank_spec(s: Seq<(i64, SearchItemHandle)>, max: int) -> Seq<SearchItemHandle> {
    let sorted = sort_desc(s);
    (if max < 0 {
        Seq::<(i64, SearchItemHandle)>::empty()
    } else if max < sorted.len() {
        sorted.take(max)
    } else {
        sorted
    }).map_values(|p: (i64, SearchItemHandle)| p.1)
}

pub proof fn lemma_insert_desc_len(x: (i64, SearchItemHandle), s: Seq<(i64, SearchItemHandle)>)
    ensures
        insert_desc(x, s).len() == s.len() + 1,
    decreases s.len(),
{
    if s.len() > 0 && !(x.0 > s[0].0) {
        lemma_insert_desc_len(x, s.drop_first());
    }
}

/// Ranking neither drops nor invents candidates.
pub proof fn lemma_sort_desc_len(s: Seq<(i64, SearchItemHandle)>)
    ensures
        sort_desc(s).len() == s.len(),
    decreases s.len(),
{
    if s.len() > 0 {
        lemma_sort_desc_len(s.drop_last());
        lemma_insert_desc_len(s.last(), sort_desc(s.drop_last()));
    }
}

proof fn lemma_cons_contains(
    h: (i64, SearchItemHandle),
    t: Seq<(i64, SearchItemHandle)>,
    y: (i64, SearchItemHandle),
)
    ensures
        (seq![h] + t).contains(y) <==> (y == h || t.contains(y)),
{
    let c = seq![h] + t;
    if c.contains(y) {
        let k = choose|k: int| 0 <= k < c.len() && c[k] == y;
        if k > 0 {
            assert(t[k - 1] == y);
        }
    }
    if y == h {
        assert(c[0] == y);
    }
    if t.contains(y) {
        let k = choose|k: int| 0 <= k < t.len() && t[k] == y;
        assert(c[k + 1] == y);
    }
}

proof fn lemma_insert_desc_contains(
    x: (i64, SearchItemHandle),
    s: Seq<(i64, SearchItemHandle)>,
    y: (i64, SearchItemHandle),
)
    ensures
        insert_desc(x, s).contains(y) <==> (y == x || s.contains(y)),
    decreases s.len(),
{
    if s.len() == 0 {
        assert(seq![x][0] == x);
        if insert_desc(x, s).contains(y) {
            let k = choose|k: int| 0 <= k < seq![x].len() && seq![x][k] == y;
            assert(y == x);
        }
    } else if x.0 > s[0].0 {
        lemma_cons_contains(x, s, y);
    } else {
        lemma_insert_desc_contains(x, s.drop_first(), y);
        assert(s =~= seq![s[0]] + s.drop_first());
        lemma_cons_contains(s[0], s.drop_first(), y);
        lemma_cons_contains(s[0], insert_desc(x, s.drop_first()), y);
    }
}

/// Every entry of the ranking is one of the scored candidates.
pub proof fn lemma_sort_desc_contains(s: Seq<(i64, SearchItemHandle)>)
    ensures
        forall|y: (i64, SearchItemHandle)| sort_desc(s).contains(y) <==> s.contains(y),
    decreases s.len(),
{
    if s.len() > 0 {
        lemma_sort_desc_contains(s.drop_last());
        assert forall|y: (i64, SearchItemHandle)|
            sort_desc(s).contains(y) <==> s.contains(y) by {
            lemma_insert_desc_contains(s.last(), sort_desc(s.drop_last()), y);
            assert(s.contains(y) <==> (y == s.last() || s.drop_last().contains(y))) by {
                if s.contains(y) {
                    let k = choose|k: int| 0 <= k < s.len() && s[k] == y;
                    if k < s.len() - 1 {
                        assert(s.drop_last()[k] == y);
                    }
                }
                if s.drop_last().contains(y) {
                    let k = choose|k: int| 0 <= k < s.drop_last().len() && s.drop_last()[k] == y;
                    assert(s[k] == y);
                }
            }
        }
    }
}

/// Scores are non-increasing along the ranking: it is ordered best-first.
pub open spec fn sorted_desc(s: Seq<(i64, SearchItemHandle)>) -> bool {
    forall|i: int, j: int| 0 <= i <= j < s.len() ==> (#[trigger] s[i]).0 >= (#[trigger] s[j]).0
}

proof fn lemma_insert_desc_sorted(x: (i64, SearchItemHandle), s: Seq<(i64, SearchItemHandle)>)
    requires
        sorted_desc(s),
    ensures
        sorted_desc(insert_desc(x, s)),
    decreases s.len(),
{
    if s.len() == 0 {
    } else if x.0 > s[0].0 {
    } else {
        assert(sorted_desc(s.drop_first()));
        lemma_insert_desc_sorted(x, s.drop_first());
        lemma_insert_desc_len(x, s.drop_first());
        let r = seq![s[0]] + insert_desc(x, s.drop_first());
        assert forall|i: int, j: int|
            0 <= i <= j < r.len() implies (#[trigger] r[i]).0 >= (#[trigger] r[j]).0 by {
            lemma_insert_desc_contains(x, s.drop_first(), r[j]);
            if i > 0 {
                assert(r[i] == insert_desc(x, s.drop_first())[i - 1]);
            } else if j > 0 {
                assert(r[j] == insert_desc(x, s.drop_first())[j - 1]);
                assert(insert_desc(x, s.drop_first()).contains(r[j]));
                assert(r[j] == x || s.drop_first().contains(r[j]));
                if s.drop_first().contains(r[j]) {
                    let k = choose|k: int|
                        0 <= k < s.drop_first().len() && s.drop_first()[k] == r[j];
                    assert(s[k + 1] == r[j]);
                }
            }
        }
    }
}

/// The full ranking is ordered best-first.
pub proof fn lemma_sort_desc_sorted(s: Seq<(i64, SearchItemHandle)>)
    ensures
        sorted_desc(sort_desc(s)),
    decreases s.len(),
{
    if s.len() > 0 {
        lemma_sort_desc_sorted(s.drop_last());
        lemma_insert_desc_sorted(s.last(), sort_desc(s.drop_last()));
    }
}

/// Where the scan of a best-first list stops determines the inserted shape.
proof fn lemma_insert_desc_at(
    s: Seq<(i64, SearchItemHandle)>,
    x: (i64, SearchItemHandle),
    p: int,
)
    requires
        0 <= p <= s.len(),
        forall|k: int| 0 <= k < p ==> (#[trigger] s[k]).0 >= x.0,
        p < s.len() ==> s[p].0 < x.0,
    ensures
        insert_desc(x, s) == s.take(p) + seq![x] + s.skip(p),
    decreases s.len(),
{
    if s.len() == 0 {
        assert(insert_desc(x, s) =~= s.take(p) + seq![x] + s.skip(p));
    } else if p == 0 {
        assert(s[0].0 < x.0);
        assert(insert_desc(x, s) =~= s.take(0) + seq![x] + s.skip(0));
    } else {
        assert(s[0].0 >= x.0);
        lemma_insert_desc_at(s.drop_first(), x, p - 1);
        assert(seq![s[0]] + (s.drop_first().take(p - 1) + seq![x] + s.drop_first().skip(p - 1))
            =~= s.take(p) + seq![x] + s.skip(p));
    }
}

/// Sort the scored candidates best-first (stable in the candidates' given
/// order) and return the handles of the best `max_returned` of them; the
/// list is truncated only after the full ranking.
pub fn rank_candidates(scored: &Vec<(i64, SearchItemHandle)>, max_returned: u32) -> (res: Vec<
    SearchItemHandle,
>)
    ensures
        res@ == rank_spec(scored@, max_returned as int),
        res@.len() <= max_returned as int,
{
    let mut sorted: Vec<(i64, SearchItemHandle)> = Vec::new();
    let mut i: usize = 0;
    proof {
        assert(scored@.take(0) =~= Seq::<(i64, SearchItemHandle)>::empty());
    }
    while i < scored.len()
        invariant
            i <= scored@.len(),
            sorted@ == sort_desc(scored@.take(i as int)),
        decreases scored@.len() - i,
    {
        let x = scored[i];
        let ghost pre = sorted@;
        let mut p: usize = 0;
        while p < sorted.len() && sorted[p].0 >= x.0
            invariant
                sorted@ == pre,
                p <= sorted@.len(),
                forall|k: int| 0 <= k < p ==> (#[trigger] sorted@[k]).0 >= x.0,
            decreases sorted@.len() - p,
        {
            p = p + 1;
        }
        sorted.insert(p, x);
        proof {
            lemma_insert_desc_at(pre, x, p as int);
            assert(sorted@ =~= pre.take(p as int) + seq![x] + pre.skip(p as int));
            assert(scored@.take(i + 1).drop_last() =~= scored@.take(i as int));
            assert(scored@.take(i + 1).last() == scored@[i as int]);
            assert(sorted@ == sort_desc(scored@.take(i + 1)));
        }
        i = i + 1;
    }
    proof {
        assert(scored@.take(scored@.len() as int) =~= scored@);
        lemma_sort_desc_len(scored@);
    }
    let mut res: Vec<SearchItemHandle> = Vec::new();
    let mut j: usize = 0;
    while j < sorted.len() && (j as u64) < (max_returned as u64)
        invariant
            j <= sorted@.len(),
            sorted@ == sort_desc(scored@),
            sorted@.len() == scored@.len(),
            j as int <= max_returned as int,
            res@ == sorted@.take(j as int).map_values(|p: (i64, SearchItemHandle)| p.1),
        decreases sorted@.len() - j,
    {
        res.push(sorted[j].1);
        proof {
            assert(res@ =~= sorted@.take(j + 1).map_values(|p: (i64, SearchItemHandle)| p.1));
        }
        j = j + 1;
    }
    proof {
        if (max_returned as int) < sorted@.len() {
            assert(j == max_returned as int);
        } else {
            assert(j == sorted@.len());
            assert(sorted@.take(j as int) =~= sorted@);
        }
    }
    res
}

/// Handles coming out of a ranking satisfy any bound that the scored
/// candidates' handles satisfy.
pub proof fn lemma_rank_handles_in_range(s: Seq<(i64, SearchItemHandle)>, max: int, bound: int)
    requires
        forall|y: (i64, SearchItemHandle)| #[trigger] s.contains(y) ==> 0 <= y.1.0 < bound,
    ensures
        forall|k: int|
            0 <= k < rank_spec(s, max).len() ==> 0 <= (#[trigger] rank_spec(s, max)[k]).0 < bound,
{
    lemma_sort_desc_contains(s);
    lemma_sort_desc_len(s);
    let sorted = sort_desc(s);
    assert forall|k: int|
        0 <= k < rank_spec(s, max).len() implies 0 <= (#[trigger] rank_spec(s, max)[k]).0
        < bound by {
        assert(rank_spec(s, max)[k] == sorted[k].1);
        assert(sorted.contains(sorted[k]));
        assert(s.contains(sorted[k]));
    }
}

/// Truncation law: the ranking under cap `k1` is a prefix of the ranking
/// under any larger cap `k2` (and so, in particular, of the full ranking,
/// which any cap of at least the candidate count yields); its length is at
/// most `k1`.
pub proof fn lemma_rank_truncation(s: Seq<(i64, SearchItemHandle)>, k1: int, k2: int)
    requires
        0 <= k1 <= k2,
    ensures
        rank_spec(s, k1).len() <= k1,
        rank_spec(s, k1).len() <= rank_spec(s, k2).len(),
        rank_spec(s, k1) == rank_spec(s, k2).take(rank_spec(s, k1).len() as int),
        k2 >= s.len() ==> rank_spec(s, k2) == sort_desc(s).map_values(
            |p: (i64, SearchItemHandle)| p.1,
        ),
{
    lemma_sort_desc_len(s);
    let sorted = sort_desc(s);
    if k1 < sorted.len() {
        if k2 < sorted.len() {
            assert(rank_spec(s, k1) =~= rank_spec(s, k2).take(k1));
        } else {
            assert(rank_spec(s, k1) =~= rank_spec(s, k2).take(k1));
        }
    } else {
        assert(sorted.take(sorted.len() as int) =~= sorted);
        assert(rank_spec(s, k1) =~= rank_spec(s, k2).take(rank_spec(s, k1).len() as int));
    }
}

} // verus!
