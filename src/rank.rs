//! Fuzzy scoring of entry names against a query, and the order in which
//! scored entries are listed.
use vstd::prelude::*;

use fuzzy_matcher::skim::SkimMatcherV2;
use fuzzy_matcher::FuzzyMatcher;

verus! {

pub open spec fn is_ascii_upper(c: char) -> bool {
    'A' <= c <= 'Z'
}

/// The code of `c` with an ASCII capital taken to its small letter.
pub open spec fn ascii_lower_code(c: char) -> int {
    if is_ascii_upper(c) {
        c as int + 32
    } else {
        c as int
    }
}

/// Whether a choice character matches a pattern character: exactly, or
/// ignoring ASCII case.
pub open spec fn chars_match(c: char, p: char, case_sensitive: bool) -> bool {
    if case_sensitive {
        c == p
    } else {
        ascii_lower_code(c) == ascii_lower_code(p)
    }
}

/// Whether `pattern` occurs in `choice` as a subsequence, characters
/// compared by `chars_match`.
pub open spec fn is_subsequence(pattern: Seq<char>, choice: Seq<char>, case_sensitive: bool) -> bool
    decreases choice.len(),
{
    if pattern.len() == 0 {
        true
    } else if choice.len() == 0 {
        false
    } else if chars_match(choice[0], pattern[0], case_sensitive) {
        is_subsequence(pattern.drop_first(), choice.drop_first(), case_sensitive)
    } else {
        is_subsequence(pattern, choice.drop_first(), case_sensitive)
    }
}

/// Smart case: a pattern that holds an ASCII capital is matched exactly,
/// any other ignoring ASCII case.
pub open spec fn fuzzy_subsequence(pattern: Seq<char>, choice: Seq<char>) -> bool {
    is_subsequence(
        pattern,
        choice,
        exists|i: int| 0 <= i < pattern.len() && is_ascii_upper(#[trigger] pattern[i]),
    )
}

/// The score that the skim algorithm gives `choice` for `pattern`.
pub uninterp spec fn skim_score(choice: Seq<char>, pattern: Seq<char>) -> Option<i64>;

/// Relies on fuzzy_matcher's `SkimMatcherV2::fuzzy_match`, with its default
/// scoring and smart case: an empty pattern scores 0; any other has a score
/// exactly when it is a subsequence of the choice (`cheap_matches`), with
/// ASCII case ignored unless the pattern holds an ASCII capital.
#[verifier::external_body]
fn fuzzy_score(choice: &str, pattern: &str) -> (r: Option<i64>)
    ensures
        r == skim_score(choice@, pattern@),
        pattern@.len() == 0 ==> r == Some(0i64),
        pattern@.len() > 0 ==> (r is Some <==> fuzzy_subsequence(pattern@, choice@)),
{
    SkimMatcherV2::default().smart_case().fuzzy_match(choice, pattern)
}

/// Whether entry `i` has a score above the threshold.
pub open spec fn retained(scores: Seq<Option<i64>>, threshold: i64, i: int) -> bool {
    &&& 0 <= i < scores.len()
    &&& scores[i] is Some
    &&& scores[i]->0 > threshold
}

/// Whether entry `i` is listed before entry `j`: by higher score, and by
/// lower index between equal scores.
pub open spec fn ranks_before(scores: Seq<Option<i64>>, i: int, j: int) -> bool {
    ||| scores[i]->0 > scores[j]->0
    ||| scores[i]->0 == scores[j]->0 && i < j
}

/// `order` lists the retained entries of `scores`, each once, best first.
pub open spec fn is_ranking(order: Seq<usize>, scores: Seq<Option<i64>>, threshold: i64) -> bool {
    &&& forall|k: int| 0 <= k < order.len() ==> retained(scores, threshold, #[trigger] order[k] as int)
    &&& forall|i: int| retained(scores, threshold, i) ==> order.contains(i as usize)
    &&& forall|k: int, l: int|
        0 <= k < l < order.len() ==> ranks_before(scores, #[trigger] order[k] as int, #[trigger] order[l] as int)
}

/// The score of each name for `query`.
pub open spec fn name_scores(names: Seq<Seq<char>>, query: Seq<char>) -> Seq<Option<i64>> {
    Seq::new(names.len(), |i: int| skim_score(names[i], query))
}

/// The score of `choice` for `pattern`.
pub fn score(choice: &str, pattern: &str) -> (r: Option<i64>)
    ensures
        r == skim_score(choice@, pattern@),
        pattern@.len() == 0 ==> r == Some(0i64),
        pattern@.len() > 0 ==> (r is Some <==> fuzzy_subsequence(pattern@, choice@)),
{
    fuzzy_score(choice, pattern)
}

/// The indices of the entries whose score is above `threshold`, by score
/// descending and, between equal scores, by index.
pub fn rank_scores(scores: &Vec<Option<i64>>, threshold: i64) -> (order: Vec<usize>)
    ensures
        is_ranking(order@, scores@, threshold),
{
    let n = scores.len();
    let mut order: Vec<usize> = Vec::new();
    let mut i: usize = 0;
    while i < n
        invariant
            i <= n == scores@.len(),
            forall|k: int| 0 <= k < order@.len() ==> #[trigger] order@[k] < i && retained(scores@, threshold, order@[k] as int),
            forall|j: int| 0 <= j < i && retained(scores@, threshold, j) ==> order@.contains(j as usize),
            forall|k: int, l: int|
                0 <= k < l < order@.len() ==> ranks_before(scores@, #[trigger] order@[k] as int, #[trigger] order@[l] as int),
        decreases n - i,
    {
        match scores[i] {
            Some(s) if s > threshold => {
                let mut pos: usize = 0;
                while pos < order.len() && scores[order[pos]].unwrap() >= s
                    invariant
                        i < n == scores@.len(),
                        scores@[i as int] == Some(s),
                        pos <= order@.len(),
                        forall|k: int| 0 <= k < order@.len() ==> #[trigger] order@[k] < i && retained(scores@, threshold, order@[k] as int),
                        forall|k: int| 0 <= k < pos ==> scores@[#[trigger] order@[k] as int]->0 >= s,
                    decreases order@.len() - pos,
                {
                    pos = pos + 1;
                }
                let ghost old_order = order@;
                order.insert(pos, i);
                proof {
                    assert(order@ == old_order.insert(pos as int, i));
                    if pos < old_order.len() {
                        assert(scores@[old_order[pos as int] as int]->0 < s);
                    }
                    assert forall|k: int, l: int| 0 <= k < l < order@.len() implies ranks_before(
                        scores@,
                        #[trigger] order@[k] as int,
                        #[trigger] order@[l] as int,
                    ) by {
                        if k < pos && l < pos {
                            assert(order@[k] == old_order[k] && order@[l] == old_order[l]);
                        } else if k < pos && l == pos {
                            assert(order@[k] == old_order[k]);
                        } else if k < pos {
                            assert(order@[k] == old_order[k] && order@[l] == old_order[l - 1]);
                        } else if k == pos {
                            assert(order@[l] == old_order[l - 1]);
                            if l - 1 > pos {
                                assert(ranks_before(scores@, old_order[pos as int] as int, old_order[l - 1] as int));
                            }
                        } else {
                            assert(order@[k] == old_order[k - 1] && order@[l] == old_order[l - 1]);
                        }
                    }
                    assert forall|j: int| 0 <= j < i + 1 && retained(scores@, threshold, j) implies order@.contains(j as usize) by {
                        if j < i {
                            let q = choose|q: int| 0 <= q < old_order.len() && old_order[q] == j as usize;
                            if q < pos {
                                assert(order@[q] == j as usize);
                            } else {
                                assert(order@[q + 1] == j as usize);
                            }
                        } else {
                            assert(order@[pos as int] == i);
                        }
                    }
                    assert forall|k: int| 0 <= k < order@.len() implies #[trigger] order@[k] < i + 1 && retained(scores@, threshold, order@[k] as int) by {
                        if k < pos {
                            assert(order@[k] == old_order[k]);
                        } else if k > pos {
                            assert(order@[k] == old_order[k - 1]);
                        }
                    }
                }
            },
            _ => {},
        }
        i = i + 1;
    }
    order
}

proof fn lemma_sorted_unique(scores: Seq<Option<i64>>, threshold: i64, a: Seq<usize>, b: Seq<usize>)
    requires
        forall|k: int| 0 <= k < a.len() ==> retained(scores, threshold, #[trigger] a[k] as int),
        forall|k: int| 0 <= k < b.len() ==> retained(scores, threshold, #[trigger] b[k] as int),
        forall|k: int, l: int|
            0 <= k < l < a.len() ==> ranks_before(scores, #[trigger] a[k] as int, #[trigger] a[l] as int),
        forall|k: int, l: int|
            0 <= k < l < b.len() ==> ranks_before(scores, #[trigger] b[k] as int, #[trigger] b[l] as int),
        forall|x: usize| a.contains(x) <==> b.contains(x),
    ensures
        a == b,
    decreases a.len(),
{
    if a.len() == 0 {
        if b.len() > 0 {
            assert(b.contains(b[0]));
        }
        assert(a =~= b);
    } else {
        assert(a.contains(a[0]));
        assert(b.len() > 0);
        assert(b.contains(b[0]));
        let q = choose|q: int| 0 <= q < b.len() && b[q] == a[0];
        let p = choose|p: int| 0 <= p < a.len() && a[p] == b[0];
        if a[0] != b[0] {
            assert(q > 0 && p > 0);
            assert(ranks_before(scores, b[0] as int, b[q] as int));
            assert(ranks_before(scores, a[0] as int, a[p] as int));
            assert(false);
        }
        let a1 = a.drop_first();
        let b1 = b.drop_first();
        assert forall|x: usize| a1.contains(x) <==> b1.contains(x) by {
            if a1.contains(x) {
                let k = choose|k: int| 0 <= k < a1.len() && a1[k] == x;
                assert(a[k + 1] == x);
                assert(ranks_before(scores, a[0] as int, a[k + 1] as int));
                assert(x != a[0]);
                assert(a.contains(x));
                let m = choose|m: int| 0 <= m < b.len() && b[m] == x;
                assert(m != 0);
                assert(b1[m - 1] == x);
            }
            if b1.contains(x) {
                let k = choose|k: int| 0 <= k < b1.len() && b1[k] == x;
                assert(b[k + 1] == x);
                assert(ranks_before(scores, b[0] as int, b[k + 1] as int));
                assert(x != b[0]);
                assert(b.contains(x));
                let m = choose|m: int| 0 <= m < a.len() && a[m] == x;
                assert(m != 0);
                assert(a1[m - 1] == x);
            }
        }
        assert forall|k: int, l: int| 0 <= k < l < a1.len() implies ranks_before(
            scores,
            #[trigger] a1[k] as int,
            #[trigger] a1[l] as int,
        ) by {
            assert(a1[k] == a[k + 1] && a1[l] == a[l + 1]);
        }
        assert forall|k: int, l: int| 0 <= k < l < b1.len() implies ranks_before(
            scores,
            #[trigger] b1[k] as int,
            #[trigger] b1[l] as int,
        ) by {
            assert(b1[k] == b[k + 1] && b1[l] == b[l + 1]);
        }
        assert forall|k: int| 0 <= k < a1.len() implies retained(scores, threshold, #[trigger] a1[k] as int) by {
            assert(a1[k] == a[k + 1]);
        }
        assert forall|k: int| 0 <= k < b1.len() implies retained(scores, threshold, #[trigger] b1[k] as int) by {
            assert(b1[k] == b[k + 1]);
        }
        lemma_sorted_unique(scores, threshold, a1, b1);
        assert(a.len() == b.len());
        assert forall|k: int| 0 <= k < a.len() implies a[k] == b[k] by {
            if k > 0 {
                assert(a[k] == a1[k - 1] && b[k] == b1[k - 1]);
            }
        }
        assert(a =~= b);
    }
}

/// There is one ranking of a list of scores: ranking the same scores twice
/// lists the same entries in the same order.
pub proof fn ranking_is_unique(scores: Seq<Option<i64>>, threshold: i64, a: Seq<usize>, b: Seq<usize>)
    requires
        is_ranking(a, scores, threshold),
        is_ranking(b, scores, threshold),
    ensures
        a == b,
{
    assert forall|x: usize| a.contains(x) <==> b.contains(x) by {
        if a.contains(x) {
            let k = choose|k: int| 0 <= k < a.len() && a[k] == x;
            assert(retained(scores, threshold, a[k] as int));
        }
        if b.contains(x) {
            let k = choose|k: int| 0 <= k < b.len() && b[k] == x;
            assert(retained(scores, threshold, b[k] as int));
        }
    }
    lemma_sorted_unique(scores, threshold, a, b);
}

} // verus!
