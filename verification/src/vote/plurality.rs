use vstd::prelude::*;
use crate::order::{ints, rank_by_keys, ranking_by, lemma_ranking_by, sorted_ranking};
use crate::tally::{first_choice_counts, first_count};
use crate::types::{Election, VoteResult};
use crate::vote::VotingAlgorithm;

verus! {

/// One-round plurality: the candidate with the most first places wins.
pub struct Plurality;

/// Each candidate's number of first places.
pub open spec fn plurality_scores(e: &Election) -> Seq<int> {
    Seq::new(e.n(), |c: int| first_count(e.votes(), c as usize) as int)
}

/// A key that is the same for every candidate.
pub open spec fn no_key(n: nat) -> Seq<int> {
    Seq::new(n, |c: int| 0)
}

/// The plurality ranking: most first places first, then by name.
pub open spec fn plurality_ranking(e: &Election) -> Seq<usize> {
    ranking_by(plurality_scores(e), no_key(e.n()), e.names())
}

/// The candidates by decreasing number of first places, then in name order.
pub fn plurality_order(e: &Election) -> (r: Vec<usize>)
    requires
        e.wf(),
    ensures
        sorted_ranking(r@, plurality_scores(e), no_key(e.n()), e.names()),
        r@ == plurality_ranking(e),
{
    let n = e.candidates.len();
    let counts = first_choice_counts(e);
    let mut k1: Vec<u128> = Vec::new();
    let mut k2: Vec<u128> = Vec::new();
    let mut c: usize = 0;
    while c < n
        invariant
            n == e.n(),
            counts@.len() == n,
            forall|d: int| 0 <= d < n ==> #[trigger] counts@[d] == first_count(e.votes(), d as usize),
            c <= n,
            k1@.len() == c,
            k2@.len() == c,
            forall|d: int| 0 <= d < c ==> #[trigger] k1@[d] == counts@[d],
            forall|d: int| 0 <= d < c ==> #[trigger] k2@[d] == 0,
        decreases n - c,
    {
        k1.push(counts[c] as u128);
        k2.push(0);
        c = c + 1;
    }
    let names = e.name_table();
    let r = rank_by_keys(&names, &k1, &k2);
    proof {
        assert(ints(k1@) =~= plurality_scores(e));
        assert(ints(k2@) =~= no_key(e.n()));
        lemma_ranking_by(r@, plurality_scores(e), no_key(e.n()), e.names());
    }
    r
}

impl VotingAlgorithm for Plurality {
    fn name(&self) -> (r: String)
        ensures
            r@ == "Plurality"@,
    {
        "Plurality".to_string()
    }

    fn compute(&self, election: &Election) -> (r: VoteResult)
        ensures
            r.ranking@ == plurality_ranking(election),
            sorted_ranking(r.ranking@, plurality_scores(election), no_key(election.n()), election.names()),
    {
        VoteResult { ranking: plurality_order(election) }
    }
}


/// A candidate with more than half of the first places comes first in the plurality ranking.
pub proof fn lemma_plurality_majority(e: &Election, c: usize)
    requires
        e.wf(),
        c < e.n(),
        2 * first_count(e.votes(), c) > e.votes().len(),
    ensures
        plurality_ranking(e)[0] == c,
{
    crate::order::lemma_ranking_by_sorted(plurality_scores(e), no_key(e.n()), e.names());
    assert forall|d: usize| d < e.names().len() && d != c implies #[trigger] plurality_scores(e)[d as int] < plurality_scores(e)[c as int] by {
        crate::tally::lemma_first_counts_disjoint(e.votes(), c, d);
    }
    crate::order::lemma_top_key_first(plurality_ranking(e), plurality_scores(e), no_key(e.n()), e.names(), c);
}

/// A ballot added to the count adds a first place to its first candidate only.
pub proof fn lemma_first_count_push(v: Seq<Seq<usize>>, b: Seq<usize>, c: usize)
    ensures
        first_count(v.push(b), c) == first_count(v, c) + if b.len() > 0 && b[0] == c { 1nat } else { 0nat },
{
    assert(v.push(b).drop_last() =~= v);
}

/// Plurality is monotone: adding a ballot that puts the winner first keeps that winner.
pub proof fn lemma_plurality_monotone(e1: &Election, e2: &Election, b: Seq<usize>)
    requires
        e1.wf(),
        e2.wf(),
        e2.names() == e1.names(),
        e2.votes() == e1.votes().push(b),
        b.len() > 0,
        b[0] == plurality_ranking(e1)[0],
    ensures
        plurality_ranking(e2)[0] == plurality_ranking(e1)[0],
{
    let n = e1.n();
    let nm = e1.names();
    let k1 = plurality_scores(e1);
    let k2 = plurality_scores(e2);
    let z = no_key(n);
    assert(e2.n() == nm.len());
    assert(no_key(e2.n()) == z);
    crate::order::lemma_ranking_by_sorted(k1, z, nm);
    crate::order::lemma_ranking_by_sorted(k2, z, nm);
    let r1 = plurality_ranking(e1);
    let r2 = plurality_ranking(e2);
    let w = r1[0];
    assert(r1.contains(w));
    assert forall|d: usize| d < n && d != w implies #[trigger] crate::order::ranks_before(k2, z, nm, w as int, d as int) by {
        assert(r1.contains(d));
        let j = choose|j: int| 0 <= j < r1.len() && r1[j] == d;
        assert(j != 0);
        assert(crate::order::ranks_before(k1, z, nm, r1[0] as int, r1[j] as int));
        lemma_first_count_push(e1.votes(), b, w);
        lemma_first_count_push(e1.votes(), b, d);
    }
    assert(r2.contains(w));
    let j = choose|j: int| 0 <= j < r2.len() && r2[j] == w;
    if j > 0 {
        let d = r2[0];
        assert(r2.contains(d));
        assert(crate::order::ranks_before(k2, z, nm, r2[0] as int, r2[j] as int));
        crate::order::lemma_ranks_before_order(k2, z, nm, w as int, d as int, w as int);
    }
}

} // verus!
