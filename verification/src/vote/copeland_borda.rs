use vstd::prelude::*;
use crate::order::{ints, rank_by_keys, ranking_by, lemma_ranking_by, sorted_ranking};
use crate::tally::borda_scores;
use crate::types::{Election, VoteResult};
use crate::vote::VotingAlgorithm;
use crate::vote::borda::borda_totals;
use crate::vote::copeland::{copeland_scores, copeland_totals};
use crate::vote::smith_irv::pairwise_matrix;

verus! {

/// Copeland's method with the Borda count as tie-break: candidates are ranked by
/// decreasing Copeland points, then by decreasing Borda total, then by name.
pub struct CopelandBorda;

/// The Copeland ranking with Borda tie-break.
pub open spec fn copeland_borda_ranking(e: &Election) -> Seq<usize> {
    ranking_by(copeland_scores(e), borda_totals(e), e.names())
}

impl VotingAlgorithm for CopelandBorda {
    fn name(&self) -> (r: String)
        ensures
            r@ == "Copeland+Borda"@,
    {
        "Copeland+Borda".to_string()
    }

    fn compute(&self, election: &Election) -> (r: VoteResult)
        ensures
            r.ranking@ == copeland_borda_ranking(election),
            sorted_ranking(r.ranking@, copeland_scores(election), borda_totals(election), election.names()),
    {
        let n = election.candidates.len();
        let wins = pairwise_matrix(election);
        let copeland = copeland_totals(&wins, n, Ghost(election.votes()));
        let borda = borda_scores(election);
        let names = election.name_table();
        let ranking = rank_by_keys(&names, &copeland, &borda);
        proof {
            assert(ints(copeland@) =~= copeland_scores(election));
            assert(ints(borda@) =~= borda_totals(election));
            lemma_ranking_by(ranking@, copeland_scores(election), borda_totals(election), election.names());
        }
        VoteResult { ranking }
    }
}


/// A Condorcet winner comes first in the Copeland ranking with Borda tie-break.
pub proof fn lemma_copeland_borda_condorcet(e: &Election, w: usize)
    requires
        e.wf(),
        crate::tally::is_condorcet_candidate(e, w),
    ensures
        copeland_borda_ranking(e)[0] == w,
{
    crate::vote::copeland::lemma_copeland_condorcet(e, w);
    crate::order::lemma_ranking_by_sorted(copeland_scores(e), borda_totals(e), e.names());
    crate::order::lemma_top_key_first(copeland_borda_ranking(e), copeland_scores(e), borda_totals(e), e.names(), w);
}

} // verus!
