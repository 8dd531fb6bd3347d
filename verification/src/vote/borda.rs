use vstd::prelude::*;
use crate::order::{ints, rank_by_keys, ranking_by, lemma_ranking_by, sorted_ranking, zero_keys};
use crate::tally::{borda_score, borda_scores};
use crate::types::{Election, VoteResult};
use crate::vote::VotingAlgorithm;
use crate::vote::plurality::no_key;

verus! {

/// The Borda count. On each ballot the candidate in first place gets `n - 1` points,
/// where `n` is the number of candidates, the one in second place `n - 2`, and so on
/// down to 0; candidates the ballot leaves out get nothing. Candidates are ranked by
/// decreasing total, ties broken by name.
pub struct Borda;

/// Each candidate's Borda total.
pub open spec fn borda_totals(e: &Election) -> Seq<int> {
    Seq::new(e.n(), |c: int| borda_score(e.votes(), c as usize, e.n()))
}

/// The Borda ranking.
pub open spec fn borda_ranking(e: &Election) -> Seq<usize> {
    ranking_by(borda_totals(e), no_key(e.n()), e.names())
}

impl VotingAlgorithm for Borda {
    fn name(&self) -> (r: String)
        ensures
            r@ == "Borda"@,
    {
        "Borda".to_string()
    }

    fn compute(&self, election: &Election) -> (r: VoteResult)
        ensures
            r.ranking@ == borda_ranking(election),
            sorted_ranking(r.ranking@, borda_totals(election), no_key(election.n()), election.names()),
    {
        let scores = borda_scores(election);
        let k2 = zero_keys(election.candidates.len());
        let names = election.name_table();
        let ranking = rank_by_keys(&names, &scores, &k2);
        proof {
            assert(ints(scores@) =~= borda_totals(election));
            assert(ints(k2@) =~= no_key(election.n()));
            lemma_ranking_by(ranking@, borda_totals(election), no_key(election.n()), election.names());
        }
        VoteResult { ranking }
    }
}

} // verus!
