//! The core of an application launcher: descriptor files become entries,
//! and entries are ranked against a typed query by fuzzy matching.
use vstd::prelude::*;

pub mod bin;
pub mod desktop;
pub mod errors;
pub mod rank;
pub mod text;

use crate::bin::Bin;
use crate::rank::{
    fuzzy_subsequence, is_ranking, name_scores, rank_scores, ranking_is_unique, score,
};

verus! {

/// The score an entry must exceed to be listed, on the skim algorithm's scale.
pub const DEFAULT_THRESHOLD: i64 = 30;

/// The names of `bins`, in order.
pub open spec fn names_of(bins: Seq<Bin>) -> Seq<Seq<char>> {
    bins.map_values(|b: Bin| b@.name)
}

/// `r` lists `bins[order[0]]`, `bins[order[1]]`, ...
pub open spec fn lists_in_order(r: Seq<&Bin>, bins: Seq<Bin>, order: Seq<usize>) -> bool {
    &&& r.len() == order.len()
    &&& forall|k: int| 0 <= k < r.len() ==> *r[k] == bins[order[k] as int]
}

/// `r` is what ranking `bins` against `query` lists: nothing for an empty
/// query; otherwise the entries whose name scores above `threshold`, best
/// first, and in index order between equal scores.
pub open spec fn is_ranked_result(
    r: Seq<&Bin>,
    bins: Seq<Bin>,
    query: Seq<char>,
    threshold: i64,
) -> bool {
    if query.len() == 0 {
        r.len() == 0
    } else {
        exists|order: Seq<usize>|
            #[trigger] is_ranking(order, name_scores(names_of(bins), query), threshold)
                && lists_in_order(r, bins, order)
    }
}

/// The index of discovered entries, ranked afresh against each query.
pub struct Searcher {
    bins: Vec<Bin>,
    threshold: i64,
}

impl Searcher {
    /// The entries held, in discovery order.
    pub closed spec fn entries(&self) -> Seq<Bin> {
        self.bins@
    }

    /// The score an entry must exceed to be listed.
    pub closed spec fn threshold(&self) -> i64 {
        self.threshold
    }

    /// An index of `bins` with the default threshold.
    pub fn new(bins: Vec<Bin>) -> (r: Self)
        ensures
            r.entries() == bins@,
            r.threshold() == DEFAULT_THRESHOLD,
    {
        Searcher { bins, threshold: DEFAULT_THRESHOLD }
    }

    /// An index of `bins` that lists entries scoring above `threshold`.
    pub fn with_threshold(bins: Vec<Bin>, threshold: i64) -> (r: Self)
        ensures
            r.entries() == bins@,
            r.threshold() == threshold,
    {
        Searcher { bins, threshold }
    }

    /// The entries held, in discovery order.
    pub fn bins(&self) -> (r: &Vec<Bin>)
        ensures
            r@ == self.entries(),
    {
        &self.bins
    }

    /// The entries whose name matches `search` well enough, best first.
    pub fn sorted_bins(&self, search: &str) -> (r: Vec<&Bin>)
        ensures
            is_ranked_result(r@, self.entries(), search@, self.threshold()),
            forall|k: int| 0 <= k < r@.len() ==> fuzzy_subsequence(search@, r@[k]@.name),
            (forall|i: int| 0 <= i < self.entries().len()
                ==> !fuzzy_subsequence(search@, #[trigger] self.entries()[i]@.name))
                ==> r@.len() == 0,
    {
        if search.is_empty() {
            return Vec::new();
        }
        let n = self.bins.len();
        let ghost names = names_of(self.bins@);
        let mut scores: Vec<Option<i64>> = Vec::new();
        let mut i: usize = 0;
        while i < n
            invariant
                n == self.bins@.len(),
                names == names_of(self.bins@),
                search@.len() > 0,
                i <= n,
                scores@.len() == i,
                forall|j: int| 0 <= j < i ==> #[trigger] scores@[j] == rank::skim_score(names[j], search@),
                forall|j: int| 0 <= j < i && (#[trigger] scores@[j]) is Some ==> fuzzy_subsequence(search@, names[j]),
            decreases n - i,
        {
            let s = score(self.bins[i].name(), search);
            scores.push(s);
            i = i + 1;
        }
        assert(scores@ =~= name_scores(names, search@));
        let order = rank_scores(&scores, self.threshold);
        let mut r: Vec<&Bin> = Vec::new();
        let mut k: usize = 0;
        while k < order.len()
            invariant
                n == self.bins@.len(),
                is_ranking(order@, scores@, self.threshold),
                scores@.len() == n,
                k <= order@.len(),
                r@.len() == k,
                forall|m: int| 0 <= m < k ==> *r@[m] == self.bins@[order@[m] as int],
            decreases order@.len() - k,
        {
            assert(rank::retained(scores@, self.threshold, order@[k as int] as int));
            r.push(&self.bins[order[k]]);
            k = k + 1;
        }
        proof {
            assert(lists_in_order(r@, self.bins@, order@));
            assert forall|m: int| 0 <= m < r@.len() implies fuzzy_subsequence(search@, r@[m]@.name) by {
                let j = order@[m] as int;
                assert(rank::retained(scores@, self.threshold, j));
                assert(names[j] == self.bins@[j]@.name);
            }
            if r@.len() > 0 {
                let j = order@[0] as int;
                assert(rank::retained(scores@, self.threshold, j));
                assert(names[j] == self.bins@[j]@.name);
                assert(self.entries()[j] == self.bins@[j]);
                assert(fuzzy_subsequence(search@, self.entries()[j]@.name));
            }
        }
        r
    }
}

/// The text of each of `slots` display slots: the names of the first
/// entries of `found`, then blanks.
pub fn display_names(found: &Vec<&Bin>, slots: usize) -> (r: Vec<String>)
    ensures
        r@.len() == slots,
        forall|k: int|
            0 <= k < slots ==> (#[trigger] r@[k])@ == (if k < found@.len() {
                found@[k]@.name
            } else {
                Seq::<char>::empty()
            }),
{
    let mut r: Vec<String> = Vec::new();
    let mut k: usize = 0;
    while k < slots
        invariant
            k <= slots,
            r@.len() == k,
            forall|j: int|
                0 <= j < k ==> (#[trigger] r@[j])@ == (if j < found@.len() {
                    found@[j]@.name
                } else {
                    Seq::<char>::empty()
                }),
        decreases slots - k,
    {
        if k < found.len() {
            r.push(found[k].name().to_owned());
        } else {
            r.push(String::new());
        }
        k = k + 1;
    }
    r
}

/// Ranking is a function of the entries and the query: two rankings of the
/// same index against the same query list the same entries in the same order.
pub proof fn ranking_is_deterministic(
    bins: Seq<Bin>,
    query: Seq<char>,
    threshold: i64,
    r1: Seq<&Bin>,
    r2: Seq<&Bin>,
)
    requires
        is_ranked_result(r1, bins, query, threshold),
        is_ranked_result(r2, bins, query, threshold),
    ensures
        r1 == r2,
{
    if query.len() == 0 {
        assert(r1 =~= r2);
    } else {
        let scores = name_scores(names_of(bins), query);
        let o1 = choose|o: Seq<usize>| #[trigger] is_ranking(o, scores, threshold) && lists_in_order(r1, bins, o);
        let o2 = choose|o: Seq<usize>| #[trigger] is_ranking(o, scores, threshold) && lists_in_order(r2, bins, o);
        ranking_is_unique(scores, threshold, o1, o2);
        assert forall|k: int| 0 <= k < r1.len() implies r1[k] == r2[k] by {
            assert(*r1[k] == *r2[k]);
        }
        assert(r1 =~= r2);
    }
}

} // verus!
