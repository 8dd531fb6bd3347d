use vstd::prelude::*;
use crate::order::{ints, rank_by_keys, ranking_by, lemma_ranking_by, sorted_ranking, zero_keys};
use crate::tally::{is_duel_matrix, pref_count};
use crate::types::{CandidateId, Election, VoteResult};
use crate::vote::VotingAlgorithm;
use crate::vote::plurality::no_key;
use crate::vote::smith_irv::pairwise_matrix;

verus! {

/// Copeland's method: each duel won is worth 2 points and each tied duel 1; candidates
/// are ranked by decreasing points, ties broken by name.
pub struct Copeland;

/// The Copeland points `x` earns from its duel with `y`.
pub open spec fn copeland_points(v: Seq<Seq<CandidateId>>, x: CandidateId, y: CandidateId) -> int {
    if x == y {
        0
    } else if pref_count(v, x, y) > pref_count(v, y, x) {
        2
    } else if pref_count(v, x, y) == pref_count(v, y, x) {
        1
    } else {
        0
    }
}

/// A duel is worth 2 points to its winner and none to its loser, 1 to each side when
/// tied, and a candidate earns nothing from a duel with itself.
pub proof fn lemma_copeland_points_duel(v: Seq<Seq<CandidateId>>, x: CandidateId, y: CandidateId)
    ensures
        copeland_points(v, x, x) == 0,
        x != y && pref_count(v, x, y) > pref_count(v, y, x) ==> copeland_points(v, x, y) == 2 && copeland_points(v, y, x) == 0,
        x != y && pref_count(v, x, y) == pref_count(v, y, x) ==> copeland_points(v, x, y) == 1 && copeland_points(v, y, x) == 1,
        x != y ==> copeland_points(v, x, y) + copeland_points(v, y, x) == 2,
{
}

/// The Copeland points of `x` from its duels with the candidates below `k`.
pub open spec fn copeland_partial(v: Seq<Seq<CandidateId>>, x: CandidateId, k: nat) -> int
    decreases k,
{
    if k == 0 {
        0
    } else {
        copeland_partial(v, x, (k - 1) as nat) + copeland_points(v, x, (k - 1) as usize)
    }
}

/// Each candidate's Copeland points.
pub open spec fn copeland_scores(e: &Election) -> Seq<int> {
    Seq::new(e.n(), |c: int| copeland_partial(e.votes(), c as usize, e.n()))
}

/// The Copeland ranking.
pub open spec fn copeland_ranking(e: &Election) -> Seq<usize> {
    ranking_by(copeland_scores(e), no_key(e.n()), e.names())
}

/// Copeland points stay between 0 and 2 per duel.
pub proof fn lemma_copeland_partial_bound(v: Seq<Seq<CandidateId>>, x: CandidateId, k: nat)
    ensures
        0 <= copeland_partial(v, x, k) <= 2 * k,
    decreases k,
{
    if k > 0 {
        lemma_copeland_partial_bound(v, x, (k - 1) as nat);
    }
}

/// Each candidate's Copeland points, read off a duel matrix.
pub fn copeland_totals(m: &Vec<Vec<usize>>, n: usize, Ghost(v): Ghost<Seq<Seq<CandidateId>>>) -> (r: Vec<u128>)
    requires
        is_duel_matrix(m@, v, n as nat),
    ensures
        r@.len() == n,
        forall|c: int| 0 <= c < n ==> #[trigger] r@[c] == copeland_partial(v, c as usize, n as nat),
{
    let mut r: Vec<u128> = Vec::new();
    let mut i: usize = 0;
    while i < n
        invariant
            is_duel_matrix(m@, v, n as nat),
            i <= n,
            r@.len() == i,
            forall|c: int| 0 <= c < i ==> #[trigger] r@[c] == copeland_partial(v, c as usize, n as nat),
        decreases n - i,
    {
        let mut s: u128 = 0;
        let mut j: usize = 0;
        while j < n
            invariant
                is_duel_matrix(m@, v, n as nat),
                i < n,
                j <= n,
                s == copeland_partial(v, i, j as nat),
            decreases n - j,
        {
            proof {
                lemma_copeland_partial_bound(v, i, j as nat);
                assert(m@[i as int]@[j as int] == pref_count(v, i, j));
                assert(m@[j as int]@[i as int] == pref_count(v, j, i));
            }
            if i != j {
                if m[i][j] > m[j][i] {
                    s = s + 2;
                } else if m[i][j] == m[j][i] {
                    s = s + 1;
                }
            }
            j = j + 1;
        }
        r.push(s);
        i = i + 1;
    }
    r
}

impl VotingAlgorithm for Copeland {
    fn name(&self) -> (r: String)
        ensures
            r@ == "Copeland"@,
    {
        "Copeland".to_string()
    }

    fn compute(&self, election: &Election) -> (r: VoteResult)
        ensures
            r.ranking@ == copeland_ranking(election),
            sorted_ranking(r.ranking@, copeland_scores(election), no_key(election.n()), election.names()),
    {
        let n = election.candidates.len();
        let wins = pairwise_matrix(election);
        let scores = copeland_totals(&wins, n, Ghost(election.votes()));
        let k2 = zero_keys(n);
        let names = election.name_table();
        let ranking = rank_by_keys(&names, &scores, &k2);
        proof {
            assert(ints(scores@) =~= copeland_scores(election));
            assert(ints(k2@) =~= no_key(election.n()));
            lemma_ranking_by(ranking@, copeland_scores(election), no_key(election.n()), election.names());
        }
        VoteResult { ranking }
    }
}


/// A Condorcet winner earns 2 points from each duel.
pub proof fn lemma_copeland_winner_points(v: Seq<Seq<CandidateId>>, n: nat, w: CandidateId, k: nat)
    requires
        k <= n,
        n <= usize::MAX,
        forall|d: CandidateId| d < n && d != w ==> #[trigger] pref_count(v, w, d) > pref_count(v, d, w),
    ensures
        copeland_partial(v, w, k) == 2 * k - if w < k { 2int } else { 0int },
    decreases k,
{
    if k > 0 {
        lemma_copeland_winner_points(v, n, w, (k - 1) as nat);
        let j = (k - 1) as usize;
        if j != w {
            assert(pref_count(v, w, j) > pref_count(v, j, w));
        }
    }
}

/// Every other candidate misses the points of its duel with itself and of its duel with
/// the Condorcet winner.
pub proof fn lemma_copeland_other_points(v: Seq<Seq<CandidateId>>, n: nat, w: CandidateId, d: CandidateId, k: nat)
    requires
        k <= n,
        n <= usize::MAX,
        d != w,
        d < n,
        forall|x: CandidateId| x < n && x != w ==> #[trigger] pref_count(v, w, x) > pref_count(v, x, w),
    ensures
        copeland_partial(v, d, k) <= 2 * k - (if w < k { 2int } else { 0int }) - (if d < k { 2int } else { 0int }),
    decreases k,
{
    if k > 0 {
        lemma_copeland_other_points(v, n, w, d, (k - 1) as nat);
        let j = (k - 1) as usize;
        if j == w {
            assert(pref_count(v, w, d) > pref_count(v, d, w));
        }
    }
}

/// A Condorcet winner comes first in the Copeland ranking, and has the most points.
pub proof fn lemma_copeland_condorcet(e: &Election, w: CandidateId)
    requires
        e.wf(),
        crate::tally::is_condorcet_candidate(e, w),
    ensures
        copeland_ranking(e)[0] == w,
        forall|d: CandidateId| d < e.n() && d != w ==> #[trigger] copeland_scores(e)[d as int] < copeland_scores(e)[w as int],
{
    let v = e.votes();
    let n = e.n();
    lemma_copeland_winner_points(v, n, w, n);
    assert forall|d: CandidateId| d < e.n() && d != w implies #[trigger] copeland_scores(e)[d as int] < copeland_scores(e)[w as int] by {
        lemma_copeland_other_points(v, n, w, d, n);
    }
    crate::order::lemma_ranking_by_sorted(copeland_scores(e), no_key(n), e.names());
    crate::order::lemma_top_key_first(copeland_ranking(e), copeland_scores(e), no_key(n), e.names(), w);
}

} // verus!
