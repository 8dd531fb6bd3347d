use vstd::prelude::*;
use crate::order::{ints, rank_by_keys, ranking_by, lemma_ranking_by, sorted_ranking};
use crate::tally::{lemma_product_fits, lemma_take_step, lemma_valid_ballot_len, zero_matrix};
use crate::types::{CandidateId, Election, VoteResult, valid_ballot};
use crate::vote::VotingAlgorithm;

verus! {

/// Bucklin's method: the ballots are counted place by place (first places, then second
/// places added, and so on) until a candidate reaches an absolute majority. Candidates
/// are ranked by the place at which they reach it (never counts as after the last
/// place), then by their count at that point (their whole count if never), then by name.
pub struct Bucklin;

/// The number of ballots that put `c` in place `r` (counting from 0).
pub open spec fn rank_count(v: Seq<Seq<CandidateId>>, r: nat, c: CandidateId) -> nat
    decreases v.len(),
{
    if v.len() == 0 {
        0
    } else {
        rank_count(v.drop_last(), r, c) + if r < v.last().len() && v.last()[r as int] == c { 1nat } else { 0nat }
    }
}

/// The number of ballots that put `c` in one of the first `k` places.
pub open spec fn cum_rank(v: Seq<Seq<CandidateId>>, k: nat, c: CandidateId) -> nat
    decreases k,
{
    if k == 0 {
        0
    } else {
        cum_rank(v, (k - 1) as nat, c) + rank_count(v, (k - 1) as nat, c)
    }
}

/// An absolute majority of the ballots.
pub open spec fn majority(v: Seq<Seq<CandidateId>>) -> nat {
    v.len() / 2 + 1
}

/// The majority is an absolute one: a count reaches it exactly when it is more than half
/// of the ballots.
pub proof fn lemma_majority_is_more_than_half(v: Seq<Seq<CandidateId>>, x: nat)
    ensures
        x >= majority(v) <==> 2 * x > v.len(),
        2 * majority(v) > v.len(),
        2 * (majority(v) - 1) <= v.len(),
{
}

/// The first place `>= r` at which `c`'s count reaches a majority, or `n` if none does.
pub open spec fn reach_round(v: Seq<Seq<CandidateId>>, n: nat, c: CandidateId, r: nat) -> nat
    decreases n - r,
{
    if r >= n {
        n
    } else if cum_rank(v, r + 1, c) >= majority(v) {
        r
    } else {
        reach_round(v, n, c, r + 1)
    }
}

/// Counts by place add up over two lists of ballots, and a single ballot counts once, for
/// the candidate at that place.
pub proof fn lemma_rank_count_adds(v1: Seq<Seq<CandidateId>>, v2: Seq<Seq<CandidateId>>, r: nat, c: CandidateId, b: Seq<CandidateId>)
    ensures
        rank_count(v1 + v2, r, c) == rank_count(v1, r, c) + rank_count(v2, r, c),
        rank_count(seq![b], r, c) == if r < b.len() && b[r as int] == c { 1nat } else { 0nat },
    decreases v2.len(),
{
    let one = seq![b];
    assert(one.drop_last() =~= Seq::<Seq<CandidateId>>::empty());
    assert(one.last() == b);
    assert(rank_count(one.drop_last(), r, c) == 0);
    if v2.len() == 0 {
        assert(v1 + v2 =~= v1);
    } else {
        lemma_rank_count_adds(v1, v2.drop_last(), r, c, b);
        assert((v1 + v2).drop_last() =~= v1 + v2.drop_last());
        assert((v1 + v2).last() == v2.last());
    }
}

/// Counts over the first `k` places add up over two lists of ballots, and a single ballot
/// without repeats counts once for `c` exactly when it names `c` in one of its first `k`
/// places.
pub proof fn lemma_cum_rank_adds(v1: Seq<Seq<CandidateId>>, v2: Seq<Seq<CandidateId>>, k: nat, c: CandidateId, b: Seq<CandidateId>)
    requires
        b.no_duplicates(),
    ensures
        cum_rank(v1 + v2, k, c) == cum_rank(v1, k, c) + cum_rank(v2, k, c),
        cum_rank(seq![b], k, c) == if exists|i: int| 0 <= i < k && i < b.len() && b[i] == c { 1nat } else { 0nat },
    decreases k,
{
    if k > 0 {
        let kk = (k - 1) as nat;
        lemma_cum_rank_adds(v1, v2, kk, c, b);
        lemma_rank_count_adds(v1, v2, kk, c, b);
        if exists|i: int| 0 <= i < k && i < b.len() && b[i] == c {
            let i = choose|i: int| 0 <= i < k && i < b.len() && b[i] == c;
            if i < kk {
                assert(exists|i: int| 0 <= i < kk && i < b.len() && b[i] == c);
                if kk < b.len() {
                    assert(b[kk as int] != c);
                }
            } else {
                assert(!exists|j: int| 0 <= j < kk && j < b.len() && b[j] == c);
            }
        } else {
            assert(!exists|j: int| 0 <= j < kk && j < b.len() && b[j] == c);
        }
    }
}

/// The place `reach_round` finds from `r` on is the first place from `r` on where `c` is
/// named on more than half of the ballots, counting all places up to it; it is `n` when
/// there is none before `n`.
pub proof fn lemma_reach_round_least(v: Seq<Seq<CandidateId>>, n: nat, c: CandidateId, r: nat)
    ensures
        r <= n ==> r <= reach_round(v, n, c, r) <= n,
        reach_round(v, n, c, r) < n ==> 2 * cum_rank(v, reach_round(v, n, c, r) + 1, c) > v.len(),
        forall|q: nat| r <= q < reach_round(v, n, c, r) && q < n ==> 2 * #[trigger] cum_rank(v, q + 1, c) <= v.len(),
    decreases n - r,
{
    if r < n {
        lemma_majority_is_more_than_half(v, cum_rank(v, r + 1, c));
        lemma_reach_round_least(v, n, c, r + 1);
    }
}

/// Bucklin's place for `c` is the first place at which more than half of the ballots name
/// `c` in that place or earlier, or `n` if there is none.
pub proof fn lemma_bucklin_round_least(v: Seq<Seq<CandidateId>>, n: nat, c: CandidateId)
    ensures
        bucklin_round(v, n, c) <= n,
        bucklin_round(v, n, c) < n ==> 2 * cum_rank(v, bucklin_round(v, n, c) + 1, c) > v.len(),
        forall|q: nat| q < bucklin_round(v, n, c) ==> 2 * #[trigger] cum_rank(v, q + 1, c) <= v.len(),
{
    lemma_reach_round_least(v, n, c, 0);
}

/// The place at which `c` reaches a majority, or `n` if it never does.
pub open spec fn bucklin_round(v: Seq<Seq<CandidateId>>, n: nat, c: CandidateId) -> nat {
    reach_round(v, n, c, 0)
}

/// `c`'s count at the place it reaches a majority, or over all places if it never does.
pub open spec fn bucklin_count(v: Seq<Seq<CandidateId>>, n: nat, c: CandidateId) -> nat {
    if bucklin_round(v, n, c) < n {
        cum_rank(v, bucklin_round(v, n, c) + 1, c)
    } else {
        cum_rank(v, n, c)
    }
}

/// The primary Bucklin key: the earlier the majority, the higher.
pub open spec fn bucklin_speed(e: &Election) -> Seq<int> {
    Seq::new(e.n(), |c: int| e.n() - bucklin_round(e.votes(), e.n(), c as usize))
}

/// The secondary Bucklin key: the count at that place.
pub open spec fn bucklin_counts(e: &Election) -> Seq<int> {
    Seq::new(e.n(), |c: int| bucklin_count(e.votes(), e.n(), c as usize) as int)
}

/// The Bucklin ranking.
pub open spec fn bucklin_ranking(e: &Election) -> Seq<usize> {
    ranking_by(bucklin_speed(e), bucklin_counts(e), e.names())
}

/// No more ballots put `c` in a given place than there are ballots.
pub proof fn lemma_rank_count_bound(v: Seq<Seq<CandidateId>>, r: nat, c: CandidateId)
    ensures
        rank_count(v, r, c) <= v.len(),
    decreases v.len(),
{
    if v.len() > 0 {
        lemma_rank_count_bound(v.drop_last(), r, c);
    }
}

/// Over `k` places, at most `k` counts per ballot.
pub proof fn lemma_cum_rank_bound(v: Seq<Seq<CandidateId>>, k: nat, c: CandidateId)
    ensures
        cum_rank(v, k, c) <= k * v.len(),
    decreases k,
{
    if k > 0 {
        lemma_cum_rank_bound(v, (k - 1) as nat, c);
        lemma_rank_count_bound(v, (k - 1) as nat, c);
        assert((k - 1) * v.len() + v.len() == k * v.len()) by (nonlinear_arith);
    }
}

/// The table `m[r][c]` of how many ballots put `c` in place `r`.
pub fn counts_per_rank(e: &Election) -> (m: Vec<Vec<usize>>)
    requires
        e.wf(),
    ensures
        m@.len() == e.n(),
        forall|r: int| 0 <= r < e.n() ==> (#[trigger] m@[r])@.len() == e.n(),
        forall|r: int, c: int| 0 <= r < e.n() && 0 <= c < e.n() ==> #[trigger] m@[r]@[c] == rank_count(e.votes(), r as nat, c as usize),
{
    let n = e.candidates.len();
    let ghost v = e.votes();
    let mut m = zero_matrix(n);
    let nb = e.ballots.len();
    let mut k: usize = 0;
    while k < nb
        invariant
            e.wf(),
            n == e.n(),
            v == e.votes(),
            v.len() == nb,
            k <= nb,
            m@.len() == n,
            forall|r: int| 0 <= r < n ==> (#[trigger] m@[r])@.len() == n,
            forall|r: int, c: int| 0 <= r < n && 0 <= c < n ==> #[trigger] m@[r]@[c] == rank_count(v.take(k as int), r as nat, c as usize),
        decreases nb - k,
    {
        let b = &e.ballots[k].ranking;
        let ghost w = v.take(k as int);
        proof {
            assert(v[k as int] == b@);
            assert(valid_ballot(v[k as int], e.n()));
            lemma_take_step(v, k as int);
            lemma_valid_ballot_len(b@, n as nat);
        }
        let mut p: usize = 0;
        while p < b.len()
            invariant
                n == e.n(),
                valid_ballot(b@, n as nat),
                b@.len() <= n,
                k < nb,
                w.len() == k,
                p <= b@.len(),
                m@.len() == n,
                forall|r: int| 0 <= r < n ==> (#[trigger] m@[r])@.len() == n,
                forall|r: int, c: int| 0 <= r < n && 0 <= c < n ==> #[trigger] m@[r]@[c] == rank_count(w, r as nat, c as usize)
                    + if r < p && b@[r] == c { 1int } else { 0int },
            decreases b@.len() - p,
        {
            let c = b[p];
            if p < n {
                proof {
                    lemma_rank_count_bound(w, p as nat, c);
                }
                m[p][c] = m[p][c] + 1;
            }
            p = p + 1;
        }
        k = k + 1;
    }
    proof {
        assert(v.take(nb as int) =~= v);
    }
    m
}

impl VotingAlgorithm for Bucklin {
    fn name(&self) -> (r: String)
        ensures
            r@ == "Bucklin"@,
    {
        "Bucklin".to_string()
    }

    fn compute(&self, election: &Election) -> (r: VoteResult)
        ensures
            r.ranking@ == bucklin_ranking(election),
            sorted_ranking(r.ranking@, bucklin_speed(election), bucklin_counts(election), election.names()),
    {
        let e = election;
        let ghost v = e.votes();
        let n = e.candidates.len();
        let nb = e.ballots.len();
        let majority_count = nb / 2 + 1;
        let counts = counts_per_rank(e);
        let mut speed: Vec<u128> = Vec::new();
        let mut scores: Vec<u128> = Vec::new();
        let mut c: usize = 0;
        while c < n
            invariant
                n == e.n(),
                v == e.votes(),
                v.len() == nb,
                majority_count == majority(v),
                counts@.len() == n,
                forall|r: int| 0 <= r < n ==> (#[trigger] counts@[r])@.len() == n,
                forall|r: int, d: int| 0 <= r < n && 0 <= d < n ==> #[trigger] counts@[r]@[d] == rank_count(v, r as nat, d as usize),
                c <= n,
                speed@.len() == c,
                scores@.len() == c,
                forall|d: int| 0 <= d < c ==> #[trigger] speed@[d] == n - bucklin_round(v, n as nat, d as usize),
                forall|d: int| 0 <= d < c ==> #[trigger] scores@[d] == bucklin_count(v, n as nat, d as usize),
            decreases n - c,
        {
            let mut total: u128 = 0;
            let mut round: usize = n;
            let mut r: usize = 0;
            while r < n
                invariant_except_break
                    round == n,
                    total == cum_rank(v, r as nat, c),
                    bucklin_round(v, n as nat, c) == reach_round(v, n as nat, c, r as nat),
                invariant
                    n == e.n(),
                    v.len() == nb,
                    majority_count == majority(v),
                    counts@.len() == n,
                    forall|q: int| 0 <= q < n ==> (#[trigger] counts@[q])@.len() == n,
                    forall|q: int, d: int| 0 <= q < n && 0 <= d < n ==> #[trigger] counts@[q]@[d] == rank_count(v, q as nat, d as usize),
                    c < n,
                    r <= n,
                ensures
                    round < n ==> total == cum_rank(v, (round + 1) as nat, c) && bucklin_round(v, n as nat, c) == round,
                    round == n ==> total == cum_rank(v, n as nat, c) && bucklin_round(v, n as nat, c) == n,
                    round <= n,
                decreases n - r,
            {
                proof {
                    lemma_cum_rank_bound(v, (r + 1) as nat, c);
                    lemma_product_fits(r + 1, nb as int);
                    assert(cum_rank(v, (r + 1) as nat, c) == cum_rank(v, r as nat, c) + rank_count(v, r as nat, c));
                }
                total = total + counts[r][c] as u128;
                if total >= majority_count as u128 {
                    round = r;
                    break;
                }
                r = r + 1;
            }
            speed.push((n - round) as u128);
            scores.push(total);
            c = c + 1;
        }
        let names = e.name_table();
        let ranking = rank_by_keys(&names, &speed, &scores);
        proof {
            assert(ints(speed@) =~= bucklin_speed(e));
            assert(ints(scores@) =~= bucklin_counts(e));
            lemma_ranking_by(ranking@, bucklin_speed(e), bucklin_counts(e), e.names());
        }
        VoteResult { ranking }
    }
}


/// First places are the count at place 0.
pub proof fn lemma_rank0_is_first(v: Seq<Seq<CandidateId>>, c: CandidateId)
    ensures
        rank_count(v, 0, c) == crate::tally::first_count(v, c),
    decreases v.len(),
{
    if v.len() > 0 {
        lemma_rank0_is_first(v.drop_last(), c);
    }
}

/// The place found from `r` on is `r` or later.
pub proof fn lemma_reach_round_after(v: Seq<Seq<CandidateId>>, n: nat, c: CandidateId, r: nat)
    requires
        r <= n,
    ensures
        r <= reach_round(v, n, c, r) <= n,
    decreases n - r,
{
    if r < n && cum_rank(v, r + 1, c) < majority(v) {
        lemma_reach_round_after(v, n, c, r + 1);
    }
}

/// A candidate with more than half of the first places comes first in the Bucklin ranking.
pub proof fn lemma_bucklin_majority(e: &Election, c: CandidateId)
    requires
        e.wf(),
        c < e.n(),
        2 * crate::tally::first_count(e.votes(), c) > e.votes().len(),
    ensures
        bucklin_round(e.votes(), e.n(), c) == 0,
        bucklin_ranking(e)[0] == c,
{
    let v = e.votes();
    let n = e.n();
    lemma_rank0_is_first(v, c);
    reveal_with_fuel(cum_rank, 2);
    assert(cum_rank(v, 1, c) == rank_count(v, 0, c));
    assert(bucklin_round(v, n, c) == 0);
    assert forall|d: CandidateId| d < e.names().len() && d != c implies #[trigger] bucklin_speed(e)[d as int] < bucklin_speed(e)[c as int] by {
        lemma_rank0_is_first(v, d);
        crate::tally::lemma_first_counts_disjoint(v, c, d);
        assert(cum_rank(v, 1, d) == rank_count(v, 0, d));
        lemma_reach_round_after(v, n, d, 1);
        assert(bucklin_round(v, n, d) == reach_round(v, n, d, 1));
    }
    crate::order::lemma_ranking_by_sorted(bucklin_speed(e), bucklin_counts(e), e.names());
    crate::order::lemma_top_key_first(bucklin_ranking(e), bucklin_speed(e), bucklin_counts(e), e.names(), c);
}

} // verus!
