use vstd::prelude::*;
use crate::tally::{active_count, active_first_counts, lemma_missing_candidate};
use crate::types::{CandidateId, Election, VoteResult};
use crate::vote::VotingAlgorithm;

verus! {

/// Instant-runoff voting: in each round every ballot counts for its first candidate still
/// in the race, and the candidate with the fewest such ballots is eliminated (of those
/// tied, the one with the greatest index) until one candidate is left.
pub struct IRV;

/// Who is still in the race once the candidates in `out` are eliminated.
pub open spec fn still_in(n: nat, out: Seq<CandidateId>) -> Seq<bool> {
    Seq::new(n, |c: int| !out.contains(c as usize))
}

/// `c` is the candidate IRV eliminates next: in the race, with the fewest ballots, and of
/// those tied the greatest index.
pub open spec fn is_irv_loser(v: Seq<Seq<CandidateId>>, n: nat, out: Seq<CandidateId>, c: CandidateId) -> bool {
    let a = still_in(n, out);
    &&& c < n
    &&& a[c as int]
    &&& forall|d: CandidateId|
        d < n && #[trigger] a[d as int] ==> active_count(v, a, c) <= active_count(v, a, d)
    &&& forall|d: CandidateId|
        d < n && #[trigger] a[d as int] && active_count(v, a, d) == active_count(v, a, c) ==> d <= c
}

/// The candidate IRV eliminates once `out` are eliminated.
pub open spec fn irv_loser(v: Seq<Seq<CandidateId>>, n: nat, out: Seq<CandidateId>) -> CandidateId {
    choose|c: CandidateId| is_irv_loser(v, n, out, c)
}

/// The first `k` candidates IRV eliminates, in order.
pub open spec fn irv_out(v: Seq<Seq<CandidateId>>, n: nat, k: nat) -> Seq<CandidateId>
    decreases k,
{
    if k == 0 {
        Seq::empty()
    } else {
        let out = irv_out(v, n, (k - 1) as nat);
        out.push(irv_loser(v, n, out))
    }
}

/// The candidate left after `n - 1` eliminations (the first one still in the race).
pub open spec fn irv_winner(e: &Election) -> CandidateId {
    let out = irv_out(e.votes(), e.n(), (e.n() - 1) as nat);
    choose|w: CandidateId| w < e.n() && !out.contains(w) && forall|d: CandidateId| d < w ==> out.contains(d)
}

/// The IRV ranking: the winner, then the eliminated candidates from last to first.
pub open spec fn irv_ranking(e: &Election) -> Seq<CandidateId> {
    seq![irv_winner(e)] + irv_out(e.votes(), e.n(), (e.n() - 1) as nat).reverse()
}

/// At most one candidate is the next to be eliminated.
pub proof fn lemma_irv_loser_unique(v: Seq<Seq<CandidateId>>, n: nat, out: Seq<CandidateId>, c: CandidateId)
    requires
        is_irv_loser(v, n, out, c),
    ensures
        irv_loser(v, n, out) == c,
{
    let d = irv_loser(v, n, out);
    assert(is_irv_loser(v, n, out, d));
    let a = still_in(n, out);
    assert(a[d as int]);
    assert(a[c as int]);
}

/// The candidate to eliminate, found the way the count goes: over the candidates in
/// index order, keep the one with the fewest ballots, the later one on a tie.
pub fn pick_irv_loser(scores: &Vec<usize>, active: &Vec<bool>, n: usize) -> (r: Option<CandidateId>)
    requires
        scores@.len() == n,
        active@.len() == n,
    ensures
        match r {
            Some(c) => {
                &&& c < n
                &&& active@[c as int]
                &&& forall|d: CandidateId| d < n && #[trigger] active@[d as int] ==> scores@[c as int] <= scores@[d as int]
                &&& forall|d: CandidateId|
                    d < n && #[trigger] active@[d as int] && scores@[d as int] == scores@[c as int] ==> d <= c
            },
            None => forall|d: int| 0 <= d < n ==> !#[trigger] active@[d],
        },
{
    let mut min_score: usize = usize::MAX;
    let mut cand: Option<CandidateId> = None;
    let mut c: usize = 0;
    while c < n
        invariant
            scores@.len() == n,
            active@.len() == n,
            c <= n,
            match cand {
                Some(l) => {
                    &&& l < c
                    &&& active@[l as int]
                    &&& min_score == scores@[l as int]
                    &&& forall|d: CandidateId| d < c && #[trigger] active@[d as int] ==> scores@[l as int] <= scores@[d as int]
                    &&& forall|d: CandidateId|
                        d < c && #[trigger] active@[d as int] && scores@[d as int] == scores@[l as int] ==> d <= l
                },
                None => min_score == usize::MAX && forall|d: int| 0 <= d < c ==> !#[trigger] active@[d],
            },
        decreases n - c,
    {
        if active[c] {
            if scores[c] < min_score {
                min_score = scores[c];
                cand = Some(c);
            } else if scores[c] == min_score {
                cand = Some(c);
            }
        }
        c = c + 1;
    }
    cand
}

impl VotingAlgorithm for IRV {
    fn name(&self) -> (r: String)
        ensures
            r@ == "IRV"@,
    {
        "IRV".to_string()
    }

    fn compute(&self, election: &Election) -> (r: VoteResult)
        ensures
            r.ranking@ == irv_ranking(election),
    {
        let e = election;
        let ghost v = e.votes();
        let n = e.candidates.len();
        let mut active: Vec<bool> = Vec::new();
        let mut c: usize = 0;
        while c < n
            invariant
                c <= n,
                active@.len() == c,
                forall|d: int| 0 <= d < c ==> #[trigger] active@[d],
            decreases n - c,
        {
            active.push(true);
            c = c + 1;
        }
        let mut order: Vec<CandidateId> = Vec::new();
        proof {
            assert(active@ =~= still_in(n as nat, order@));
        }
        let mut round: usize = 0;
        while round < n - 1
            invariant
                e.wf(),
                n == e.n(),
                v == e.votes(),
                round <= n - 1,
                order@ == irv_out(v, n as nat, round as nat),
                order@.len() == round,
                active@ == still_in(n as nat, order@),
            decreases n - 1 - round,
        {
            let scores = active_first_counts(e, &active);
            let picked = pick_irv_loser(&scores, &active, n);
            proof {
                let m = lemma_missing_candidate(order@, n as nat);
                assert(active@[m as int]);
            }
            match picked {
                Some(loser) => {
                    proof {
                        assert forall|d: CandidateId| d < n && #[trigger] active@[d as int] implies
                            scores@[d as int] == active_count(v, still_in(n as nat, order@), d) by {}
                        assert(is_irv_loser(v, n as nat, order@, loser));
                        lemma_irv_loser_unique(v, n as nat, order@, loser);
                    }
                    let ghost old_order = order@;
                    active.set(loser, false);
                    order.push(loser);
                    proof {
                        assert(active@ =~= still_in(n as nat, order@)) by {
                            assert forall|d: int| 0 <= d < n implies active@[d] == !order@.contains(d as usize) by {
                                if d as usize != loser {
                                    if order@.contains(d as usize) {
                                        let j = choose|j: int| 0 <= j < order@.len() && order@[j] == d as usize;
                                        assert(old_order[j] == d as usize);
                                    }
                                    if old_order.contains(d as usize) {
                                        let j = choose|j: int| 0 <= j < old_order.len() && old_order[j] == d as usize;
                                        assert(order@[j] == d as usize);
                                    }
                                } else {
                                    assert(order@[order@.len() - 1] == loser);
                                }
                            }
                        }
                    }
                },
                None => {
                    proof {
                        assert(false);
                    }
                },
            }
            round = round + 1;
        }
        let ghost out = order@;
        proof {
            let m = lemma_missing_candidate(order@, n as nat);
            assert(active@[m as int]);
        }
        let mut w: usize = 0;
        while !active[w]
            invariant
                active@.len() == n,
                active@ == still_in(n as nat, out),
                w < n,
                exists|m: int| w <= m < n && #[trigger] active@[m],
                forall|d: int| 0 <= d < w ==> !#[trigger] active@[d],
            decreases n - w,
        {
            w = w + 1;
        }
        proof {
            assert forall|d: CandidateId| d < w implies out.contains(d) by {
                assert(!active@[d as int]);
            }
            assert(!out.contains(w)) by {
                assert(active@[w as int]);
            }
            let wc = irv_winner(e);
            assert(wc < n && !out.contains(wc) && forall|d: CandidateId| d < wc ==> out.contains(d));
            if wc < w {
                assert(out.contains(wc));
            }
            if w < wc {
                assert(out.contains(w));
            }
        }
        let mut ranking: Vec<CandidateId> = Vec::new();
        ranking.push(w);
        let mut i: usize = order.len();
        while i > 0
            invariant
                i <= order@.len(),
                order@ == out,
                ranking@ == seq![w] + out.subrange(i as int, out.len() as int).reverse(),
            decreases i,
        {
            i = i - 1;
            ranking.push(order[i]);
            proof {
                assert(ranking@ =~= seq![w] + out.subrange(i as int, out.len() as int).reverse());
            }
        }
        proof {
            assert(out.subrange(0, out.len() as int) =~= out);
        }
        VoteResult { ranking }
    }
}


/// Among the candidates below `k` still in the race, one with the fewest ballots, and of
/// those the greatest index.
pub proof fn lemma_irv_min_below(v: Seq<Seq<CandidateId>>, n: nat, out: Seq<CandidateId>, k: nat) -> (r: Option<CandidateId>)
    requires
        k <= n,
        n <= usize::MAX,
    ensures
        match r {
            Some(c) => {
                let a = still_in(n, out);
                &&& c < k
                &&& a[c as int]
                &&& forall|d: CandidateId| d < k && #[trigger] a[d as int] ==> active_count(v, a, c) <= active_count(v, a, d)
                &&& forall|d: CandidateId|
                    d < k && #[trigger] a[d as int] && active_count(v, a, d) == active_count(v, a, c) ==> d <= c
            },
            None => forall|d: CandidateId| d < k ==> !#[trigger] still_in(n, out)[d as int],
        },
    decreases k,
{
    if k == 0 {
        None
    } else {
        let a = still_in(n, out);
        let x = (k - 1) as usize;
        let prev = lemma_irv_min_below(v, n, out, (k - 1) as nat);
        if !a[x as int] {
            prev
        } else {
            match prev {
                None => Some(x),
                Some(c) => {
                    if active_count(v, a, x) <= active_count(v, a, c) {
                        Some(x)
                    } else {
                        Some(c)
                    }
                },
            }
        }
    }
}

/// While a candidate is in the race, IRV has a candidate to eliminate, and it is in the race.
pub proof fn lemma_irv_loser_exists(v: Seq<Seq<CandidateId>>, n: nat, out: Seq<CandidateId>, c: CandidateId)
    requires
        n <= usize::MAX,
        c < n,
        !out.contains(c),
    ensures
        is_irv_loser(v, n, out, irv_loser(v, n, out)),
        !out.contains(irv_loser(v, n, out)),
        irv_loser(v, n, out) < n,
{
    let r = lemma_irv_min_below(v, n, out, n);
    assert(still_in(n, out)[c as int]);
    let l = r.unwrap();
    assert(is_irv_loser(v, n, out, l));
    lemma_irv_loser_unique(v, n, out, l);
}

/// The first `k` eliminations are `k` distinct candidates.
pub proof fn lemma_irv_out(v: Seq<Seq<CandidateId>>, n: nat, k: nat)
    requires
        n <= usize::MAX,
        k < n,
    ensures
        irv_out(v, n, k).len() == k,
        irv_out(v, n, k).no_duplicates(),
        forall|i: int| 0 <= i < k ==> #[trigger] irv_out(v, n, k)[i] < n,
    decreases k,
{
    if k > 0 {
        let prev = irv_out(v, n, (k - 1) as nat);
        lemma_irv_out(v, n, (k - 1) as nat);
        let m = crate::tally::lemma_missing_candidate(prev, n);
        lemma_irv_loser_exists(v, n, prev, m);
        crate::tally::lemma_push_distinct(prev, irv_loser(v, n, prev));
    }
}

/// The IRV ranking ranks every candidate exactly once, and its winner is the one
/// candidate never eliminated.
pub proof fn lemma_irv_is_ranking(e: &Election)
    requires
        e.wf(),
    ensures
        crate::tally::is_ranking(irv_ranking(e), e.n()),
        irv_winner(e) < e.n(),
        !irv_out(e.votes(), e.n(), (e.n() - 1) as nat).contains(irv_winner(e)),
{
    let v = e.votes();
    let n = e.n();
    let out = irv_out(v, n, (n - 1) as nat);
    lemma_irv_out(v, n, (n - 1) as nat);
    let m = crate::tally::lemma_missing_candidate(out, n);
    assert forall|d: CandidateId| d < m implies out.contains(d) by {
        if !out.contains(d) {
            crate::tally::lemma_one_missing(out, n, m, d);
        }
    }
    let w = irv_winner(e);
    assert(w < n && !out.contains(w) && forall|d: CandidateId| d < w ==> out.contains(d));
    let r = irv_ranking(e);
    let rev = out.reverse();
    assert forall|i: int| 0 <= i < r.len() implies #[trigger] r[i] < n by {
        if i > 0 {
            assert(r[i] == out[out.len() - i]);
        }
    }
    assert(r.no_duplicates()) by {
        assert forall|i: int, j: int| 0 <= i < r.len() && 0 <= j < r.len() && i != j implies r[i] != r[j] by {
            if i == 0 {
                assert(r[j] == out[out.len() - j]);
            } else if j == 0 {
                assert(r[i] == out[out.len() - i]);
            } else {
                assert(r[i] == out[out.len() - i]);
                assert(r[j] == out[out.len() - j]);
            }
        }
    }
    crate::tally::lemma_full_ranking(r, n);
}

/// A candidate with more than half of the first places is never eliminated, and wins IRV.
pub proof fn lemma_irv_majority(e: &Election, c: CandidateId)
    requires
        e.wf(),
        c < e.n(),
        2 * crate::tally::first_count(e.votes(), c) > e.votes().len(),
    ensures
        irv_winner(e) == c,
        irv_ranking(e)[0] == c,
{
    let v = e.votes();
    let n = e.n();
    lemma_irv_survives(e, c, (n - 1) as nat);
    lemma_irv_is_ranking(e);
    let out = irv_out(v, n, (n - 1) as nat);
    lemma_irv_out(v, n, (n - 1) as nat);
    crate::tally::lemma_one_missing(out, n, c, irv_winner(e));
}

/// A candidate with more than half of the first places survives every elimination.
pub proof fn lemma_irv_survives(e: &Election, c: CandidateId, k: nat)
    requires
        e.wf(),
        c < e.n(),
        k < e.n(),
        2 * crate::tally::first_count(e.votes(), c) > e.votes().len(),
    ensures
        !irv_out(e.votes(), e.n(), k).contains(c),
    decreases k,
{
    let v = e.votes();
    let n = e.n();
    if k > 0 {
        let prev = irv_out(v, n, (k - 1) as nat);
        lemma_irv_survives(e, c, (k - 1) as nat);
        lemma_irv_out(v, n, (k - 1) as nat);
        lemma_irv_loser_exists(v, n, prev, c);
        let l = irv_loser(v, n, prev);
        if l == c {
            let s = prev.push(c);
            let d = crate::tally::lemma_missing_candidate(s, n);
            assert(!prev.contains(d)) by {
                if prev.contains(d) {
                    let j = choose|j: int| 0 <= j < prev.len() && prev[j] == d;
                    assert(s[j] == d);
                }
            }
            assert(d != c) by {
                assert(s[s.len() - 1] == c);
            }
            let a = still_in(n, prev);
            assert(a[d as int]);
            crate::tally::lemma_first_implies_active(v, a, c);
            crate::tally::lemma_active_counts_disjoint(v, a, c, d);
        }
        let cur = irv_out(v, n, k);
        if cur.contains(c) {
            let j = choose|j: int| 0 <= j < cur.len() && cur[j] == c;
            if j < prev.len() {
                assert(prev[j] == c);
            }
        }
    }
}

/// The eliminations depend only on which ballots were cast, not on their order.
pub proof fn lemma_irv_out_multiset(v1: Seq<Seq<CandidateId>>, v2: Seq<Seq<CandidateId>>, n: nat, k: nat)
    requires
        v1.to_multiset() == v2.to_multiset(),
        n <= usize::MAX,
        k < n,
    ensures
        irv_out(v1, n, k) == irv_out(v2, n, k),
    decreases k,
{
    if k > 0 {
        let out = irv_out(v1, n, (k - 1) as nat);
        lemma_irv_out_multiset(v1, v2, n, (k - 1) as nat);
        lemma_irv_out(v1, n, (k - 1) as nat);
        let m = crate::tally::lemma_missing_candidate(out, n);
        lemma_irv_loser_exists(v1, n, out, m);
        let l = irv_loser(v1, n, out);
        let a = still_in(n, out);
        assert forall|d: CandidateId| #![trigger active_count(v2, a, d)] active_count(v2, a, d) == active_count(v1, a, d) by {
            crate::tally::lemma_active_count_multiset(v1, v2, a, d);
        }
        assert(is_irv_loser(v2, n, out, l));
        lemma_irv_loser_unique(v2, n, out, l);
    }
}

/// The IRV ranking depends only on which ballots were cast, not on their order: two
/// elections with the same candidates and the same ballots, in any order, get the same
/// ranking.
pub proof fn lemma_irv_ballot_order(e1: &Election, e2: &Election)
    requires
        e1.wf(),
        e2.wf(),
        e1.n() == e2.n(),
        e1.votes().to_multiset() == e2.votes().to_multiset(),
    ensures
        irv_ranking(e1) == irv_ranking(e2),
{
    lemma_irv_out_multiset(e1.votes(), e2.votes(), e1.n(), (e1.n() - 1) as nat);
}

/// Each IRV elimination takes, among the candidates still in the race, one with the
/// fewest ballots counting for it, and of those tied the one with the greatest index.
pub proof fn lemma_irv_elimination(e: &Election, k: nat)
    requires
        e.wf(),
        k + 1 < e.n(),
    ensures
        ({
            let v = e.votes();
            let out = irv_out(v, e.n(), k);
            let l = irv_out(v, e.n(), k + 1)[k as int];
            let a = still_in(e.n(), out);
            &&& l < e.n()
            &&& !out.contains(l)
            &&& forall|d: CandidateId| d < e.n() && !out.contains(d) ==> active_count(v, a, l) <= #[trigger] active_count(v, a, d)
            &&& forall|d: CandidateId| d < e.n() && !out.contains(d) && #[trigger] active_count(v, a, d) == active_count(v, a, l) ==> d <= l
        }),
{
    let v = e.votes();
    let n = e.n();
    let out = irv_out(v, n, k);
    lemma_irv_out(v, n, k);
    let m = lemma_missing_candidate(out, n);
    lemma_irv_loser_exists(v, n, out, m);
    let a = still_in(n, out);
    let l = irv_loser(v, n, out);
    assert(irv_out(v, n, k + 1)[k as int] == l);
    assert(is_irv_loser(v, n, out, l));
    assert forall|d: CandidateId| d < n && !out.contains(d) implies active_count(v, a, l) <= #[trigger] active_count(v, a, d) by {
        assert(a[d as int]);
    }
    assert forall|d: CandidateId| d < n && !out.contains(d) && #[trigger] active_count(v, a, d) == active_count(v, a, l) implies d <= l by {
        assert(a[d as int]);
    }
    assert(a[l as int]);
}

} // verus!
