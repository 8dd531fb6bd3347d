use vstd::prelude::*;
use crate::order::{lemma_ranking_by_sorted, lemma_sorted_is_ranking};
use crate::tally::{first_count, is_condorcet_candidate, is_ranking, lemma_majority_is_condorcet};
use crate::types::{CandidateId, Election, VoteResult};

pub mod plurality;
pub mod trs;
pub mod irv;
pub mod borda;
pub mod bucklin;
pub mod baldwin;
pub mod copeland;
pub mod copeland_borda;
pub mod schulze;
pub mod smith_irv;

verus! {

/// What every voting method offers: the name under which it is reported, and the
/// ranking it gives an election.
pub trait VotingAlgorithm: Sync {
    /// The name of the method as it is printed.
    fn name(&self) -> String;

    /// The final ranking of the candidates, best first.
    fn compute(&self, election: &Election) -> VoteResult
        requires
            election.wf(),
    ;
}


/// Every method ranks each candidate exactly once.
pub proof fn lemma_every_method_ranks_all(e: &Election)
    requires
        e.wf(),
    ensures
        is_ranking(plurality::plurality_ranking(e), e.n()),
        is_ranking(trs::trs_ranking(e), e.n()),
        is_ranking(irv::irv_ranking(e), e.n()),
        is_ranking(borda::borda_ranking(e), e.n()),
        is_ranking(bucklin::bucklin_ranking(e), e.n()),
        is_ranking(baldwin::baldwin_ranking(e), e.n()),
        is_ranking(copeland::copeland_ranking(e), e.n()),
        is_ranking(copeland_borda::copeland_borda_ranking(e), e.n()),
        is_ranking(schulze::schulze_ranking(e), e.n()),
        is_ranking(smith_irv::smith_irv_ranking(e), e.n()),
{
    let n = e.n();
    let nm = e.names();
    lemma_ranking_by_sorted(plurality::plurality_scores(e), plurality::no_key(n), nm);
    lemma_sorted_is_ranking(plurality::plurality_ranking(e), plurality::plurality_scores(e), plurality::no_key(n), nm);
    trs::lemma_trs_is_ranking(e);
    irv::lemma_irv_is_ranking(e);
    lemma_ranking_by_sorted(borda::borda_totals(e), plurality::no_key(n), nm);
    lemma_sorted_is_ranking(borda::borda_ranking(e), borda::borda_totals(e), plurality::no_key(n), nm);
    lemma_ranking_by_sorted(bucklin::bucklin_speed(e), bucklin::bucklin_counts(e), nm);
    lemma_sorted_is_ranking(bucklin::bucklin_ranking(e), bucklin::bucklin_speed(e), bucklin::bucklin_counts(e), nm);
    baldwin::lemma_baldwin_is_ranking(e);
    lemma_ranking_by_sorted(copeland::copeland_scores(e), plurality::no_key(n), nm);
    lemma_sorted_is_ranking(copeland::copeland_ranking(e), copeland::copeland_scores(e), plurality::no_key(n), nm);
    lemma_ranking_by_sorted(copeland::copeland_scores(e), borda::borda_totals(e), nm);
    lemma_sorted_is_ranking(copeland_borda::copeland_borda_ranking(e), copeland::copeland_scores(e), borda::borda_totals(e), nm);
    schulze::lemma_schulze_is_ranking(e);
    smith_irv::lemma_smith_irv_is_ranking(e);
}

/// A candidate that wins its duel with every other candidate comes first in every
/// Condorcet method (Copeland, Copeland with Borda tie-break, Schulze, Smith+IRV).
pub proof fn lemma_condorcet_winner_first(e: &Election, w: CandidateId)
    requires
        e.wf(),
        is_condorcet_candidate(e, w),
    ensures
        copeland::copeland_ranking(e)[0] == w,
        copeland_borda::copeland_borda_ranking(e)[0] == w,
        schulze::schulze_ranking(e)[0] == w,
        smith_irv::smith_irv_ranking(e)[0] == w,
{
    copeland::lemma_copeland_condorcet(e, w);
    copeland_borda::lemma_copeland_borda_condorcet(e, w);
    schulze::lemma_schulze_condorcet(e, w);
    smith_irv::lemma_smith_irv_condorcet(e, w);
}

/// A candidate with more than half of the first places comes first in plurality, the
/// two-round system, IRV, Bucklin and every Condorcet method.
pub proof fn lemma_majority_winner_first(e: &Election, c: CandidateId)
    requires
        e.wf(),
        c < e.n(),
        2 * first_count(e.votes(), c) > e.votes().len(),
    ensures
        plurality::plurality_ranking(e)[0] == c,
        trs::trs_ranking(e)[0] == c,
        irv::irv_ranking(e)[0] == c,
        bucklin::bucklin_ranking(e)[0] == c,
        copeland::copeland_ranking(e)[0] == c,
        copeland_borda::copeland_borda_ranking(e)[0] == c,
        schulze::schulze_ranking(e)[0] == c,
        smith_irv::smith_irv_ranking(e)[0] == c,
{
    plurality::lemma_plurality_majority(e, c);
    trs::lemma_trs_majority(e, c);
    irv::lemma_irv_majority(e, c);
    bucklin::lemma_bucklin_majority(e, c);
    lemma_majority_is_condorcet(e, c);
    lemma_condorcet_winner_first(e, c);
}

} // verus!
