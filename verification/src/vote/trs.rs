use vstd::prelude::*;
use crate::order::{name_less, name_lt, sorted_ranking};
use crate::tally::{duel, first_choice_counts, first_count, lemma_single_candidate, pref_count};
use crate::types::{Election, VoteResult};
use crate::vote::VotingAlgorithm;
use crate::vote::plurality::{no_key, plurality_order, plurality_ranking, plurality_scores};

verus! {

/// The two-round system: a candidate with more than half of the first places wins
/// outright; otherwise the two leaders of the first round meet in a second round.
pub struct Trs;

/// The winner of the second round between `c1` (the first-round leader) and `c2`: the one
/// more ballots prefer, and on a tie the one whose name comes first (`c2` if the names
/// are equal).
pub open spec fn runoff_winner(e: &Election, c1: usize, c2: usize) -> usize {
    let s1 = pref_count(e.votes(), c1, c2);
    let s2 = pref_count(e.votes(), c2, c1);
    if s1 > s2 {
        c1
    } else if s2 > s1 {
        c2
    } else if name_lt(e.names()[c1 as int], e.names()[c2 as int]) {
        c1
    } else {
        c2
    }
}

/// The first round's leader has more than half of the ballots.
pub open spec fn trs_majority(e: &Election) -> bool {
    2 * first_count(e.votes(), plurality_ranking(e)[0]) > e.votes().len()
}

/// The two-round ranking: the first round's ranking when its leader has a majority;
/// otherwise the runoff's winner, its loser, then the others in first-round order.
pub open spec fn trs_ranking(e: &Election) -> Seq<usize> {
    let r1 = plurality_ranking(e);
    if trs_majority(e) {
        r1
    } else {
        let w = runoff_winner(e, r1[0], r1[1]);
        let l = if w == r1[0] { r1[1] } else { r1[0] };
        seq![w, l] + r1.skip(2)
    }
}

impl VotingAlgorithm for Trs {
    fn name(&self) -> (r: String)
        ensures
            r@ == "TRS"@,
    {
        "TRS".to_string()
    }

    fn compute(&self, election: &Election) -> (r: VoteResult)
        ensures
            r.ranking@ == trs_ranking(election),
    {
        let e = election;
        let ghost v = e.votes();
        let round1 = plurality_order(e);
        let counts = first_choice_counts(e);
        let nb = e.ballots.len();
        let lead = round1[0];
        proof {
            assert(round1@.contains(lead));
        }
        if (counts[lead] as u128) * 2 > nb as u128 {
            return VoteResult { ranking: round1 };
        }
        proof {
            if e.n() == 1 {
                assert(v.len() == e.ballots@.len());
                assert forall|i: int| 0 <= i < v.len() implies crate::types::valid_ballot(#[trigger] v[i], 1) by {}
                lemma_single_candidate(v);
                assert(lead == 0);
            }
            assert(sorted_ranking(round1@, plurality_scores(e), no_key(e.n()), e.names()));
        }
        let c1 = round1[0];
        let c2 = round1[1];
        proof {
            assert(round1@.contains(c2));
            assert(crate::order::ranks_before(plurality_scores(e), no_key(e.n()), e.names(), c1 as int, c2 as int));
            crate::order::lemma_ranks_before_order(plurality_scores(e), no_key(e.n()), e.names(), c1 as int, c1 as int, c1 as int);
        }
        let (score1, score2) = duel(e, c1, c2);
        let names = e.name_table();
        proof {
            assert(names@[c1 as int]@ == e.names()[c1 as int]);
            assert(names@[c2 as int]@ == e.names()[c2 as int]);
        }
        let winner = if score1 > score2 {
            c1
        } else if score2 > score1 {
            c2
        } else if name_less(&names[c1], &names[c2]) {
            c1
        } else {
            c2
        };
        let loser = if winner == c1 { c2 } else { c1 };
        let mut ranking: Vec<usize> = Vec::new();
        ranking.push(winner);
        ranking.push(loser);
        let mut i: usize = 2;
        while i < round1.len()
            invariant
                2 <= i <= round1@.len(),
                ranking@ == seq![winner, loser] + round1@.subrange(2, i as int),
            decreases round1@.len() - i,
        {
            ranking.push(round1[i]);
            proof {
                assert(ranking@ =~= seq![winner, loser] + round1@.subrange(2, i + 1));
            }
            i = i + 1;
        }
        proof {
            assert(round1@.subrange(2, round1@.len() as int) =~= round1@.skip(2));
        }
        VoteResult { ranking }
    }
}


/// A candidate with more than half of the first places wins the two-round system in the
/// first round.
pub proof fn lemma_trs_majority(e: &Election, c: usize)
    requires
        e.wf(),
        c < e.n(),
        2 * first_count(e.votes(), c) > e.votes().len(),
    ensures
        trs_majority(e),
        trs_ranking(e)[0] == c,
{
    crate::vote::plurality::lemma_plurality_majority(e, c);
}


/// The two-round ranking ranks every candidate exactly once.
pub proof fn lemma_trs_is_ranking(e: &Election)
    requires
        e.wf(),
    ensures
        crate::tally::is_ranking(trs_ranking(e), e.n()),
{
    let v = e.votes();
    let n = e.n();
    let r1 = plurality_ranking(e);
    crate::order::lemma_ranking_by_sorted(plurality_scores(e), no_key(n), e.names());
    crate::order::lemma_sorted_is_ranking(r1, plurality_scores(e), no_key(n), e.names());
    if !trs_majority(e) {
        if n == 1 {
            assert forall|i: int| 0 <= i < v.len() implies crate::types::valid_ballot(#[trigger] v[i], 1) by {}
            lemma_single_candidate(v);
            assert(r1.contains(r1[0]));
        }
        let r = trs_ranking(e);
        let w = runoff_winner(e, r1[0], r1[1]);
        let l = if w == r1[0] { r1[1] } else { r1[0] };
        assert(r1.contains(r1[0]) && r1.contains(r1[1]));
        assert forall|i: int| 0 <= i < r.len() implies #[trigger] r[i] < n by {
            if i >= 2 {
                assert(r[i] == r1[i]);
                assert(r1.contains(r1[i]));
            }
        }
        assert(r.no_duplicates()) by {
            assert forall|i: int, j: int| 0 <= i < r.len() && 0 <= j < r.len() && i != j implies r[i] != r[j] by {
                if i >= 2 {
                    assert(r[i] == r1[i]);
                }
                if j >= 2 {
                    assert(r[j] == r1[j]);
                }
            }
        }
        crate::tally::lemma_full_ranking(r, n);
    }
}

/// The two rounds: when the first round's leader has more than half of the ballots as
/// first places, the ranking is the first round's; otherwise the two leaders meet, the
/// one more ballots rank above the other comes first (on a tie, the leader whose name
/// comes first in dictionary order, the second if the names are equal), the other comes
/// second, and the rest keep their first-round order.
pub proof fn lemma_trs_rounds(e: &Election)
    requires
        e.wf(),
    ensures
        ({
            let v = e.votes();
            let nm = e.names();
            let r1 = plurality_ranking(e);
            let r = trs_ranking(e);
            &&& 2 * first_count(v, r1[0]) > v.len() ==> r == r1
            &&& 2 * first_count(v, r1[0]) <= v.len() ==> {
                &&& e.n() >= 2
                &&& r.len() == e.n()
                &&& r.skip(2) == r1.skip(2)
                &&& (r[0] == r1[0] && r[1] == r1[1]) || (r[0] == r1[1] && r[1] == r1[0])
                &&& pref_count(v, r[0], r[1]) >= pref_count(v, r[1], r[0])
                &&& pref_count(v, r[0], r[1]) == pref_count(v, r[1], r[0]) ==> (r[0] == r1[0] <==> name_lt(nm[r1[0] as int], nm[r1[1] as int]))
            }
        }),
{
    let v = e.votes();
    let n = e.n();
    let r1 = plurality_ranking(e);
    lemma_trs_is_ranking(e);
    crate::order::lemma_ranking_by_sorted(plurality_scores(e), no_key(n), e.names());
    crate::order::lemma_sorted_is_ranking(r1, plurality_scores(e), no_key(n), e.names());
    if 2 * first_count(v, r1[0]) <= v.len() {
        if n == 1 {
            assert forall|i: int| 0 <= i < v.len() implies crate::types::valid_ballot(#[trigger] v[i], 1) by {}
            lemma_single_candidate(v);
            assert(r1.contains(r1[0]));
        }
        assert(r1.contains(r1[0]) && r1.contains(r1[1]));
        let r = trs_ranking(e);
        assert(r.skip(2) =~= r1.skip(2));
    }
}

} // verus!
