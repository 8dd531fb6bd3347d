use vstd::prelude::*;
use vstd::string::*;

verus! {

/// A candidate is known by its position in the election's list of candidates.
pub type CandidateId = usize;

/// One voter's preferences: candidates from most to least preferred.
#[derive(Debug, Clone)]
pub struct Ballot {
    pub ranking: Vec<CandidateId>,
}

/// The candidates (index = `CandidateId`) and the ballots cast.
#[derive(Debug, Clone)]
pub struct Election {
    pub candidates: Vec<String>,
    pub ballots: Vec<Ballot>,
}

/// A ranking of the candidates, from best to worst.
#[derive(Debug, Clone)]
pub struct VoteResult {
    pub ranking: Vec<CandidateId>,
}

/// A ballot is valid when it names only candidates `< n` and none twice.
pub open spec fn valid_ballot(b: Seq<CandidateId>, n: nat) -> bool {
    &&& b.len() > 0
    &&& names_known(b, n)
}

/// A ballot names only candidates `< n`, and none twice.
pub open spec fn names_known(b: Seq<CandidateId>, n: nat) -> bool {
    &&& forall|i: int| 0 <= i < b.len() ==> #[trigger] b[i] < n
    &&& b.no_duplicates()
}

impl Election {
    /// The names of the candidates.
    pub open spec fn names(&self) -> Seq<Seq<char>> {
        self.candidates@.map_values(|s: String| s@)
    }

    /// The ballots, each as the sequence of candidates it ranks.
    pub open spec fn votes(&self) -> Seq<Seq<CandidateId>> {
        self.ballots@.map_values(|b: Ballot| b.ranking@)
    }

    /// The number of candidates.
    pub open spec fn n(&self) -> nat {
        self.candidates@.len()
    }

    /// Every ballot names only known candidates, none twice (and, as for any vectors,
    /// there are no more candidates or ballots than `usize` counts).
    pub open spec fn consistent(&self) -> bool {
        &&& self.n() <= usize::MAX
        &&& self.ballots@.len() <= usize::MAX
        &&& forall|i: int| 0 <= i < self.ballots@.len() ==> names_known(#[trigger] self.votes()[i], self.n())
    }

    /// What a well-formed election guarantees: it is consistent, it has at least one
    /// candidate and at least one ballot, and every ballot names someone.
    pub open spec fn wf(&self) -> bool {
        &&& self.n() > 0
        &&& self.n() <= usize::MAX
        &&& self.ballots@.len() <= usize::MAX
        &&& self.ballots@.len() > 0
        &&& forall|i: int| 0 <= i < self.ballots@.len() ==> valid_ballot(#[trigger] self.votes()[i], self.n())
    }
}

/// The characters of a name.
pub fn name_chars(s: &String) -> (r: Vec<char>)
    ensures
        r@ == s@,
{
    let t = s.as_str();
    let len = t.unicode_len();
    let mut r: Vec<char> = Vec::new();
    let mut i: usize = 0;
    while i < len
        invariant
            t@ == s@,
            len == s@.len(),
            i <= len,
            r@ == s@.subrange(0, i as int),
        decreases len - i,
    {
        let ch = t.get_char(i);
        r.push(ch);
        proof {
            assert(r@ =~= s@.subrange(0, i + 1));
        }
        i = i + 1;
    }
    proof {
        assert(r@ =~= s@);
    }
    r
}

impl Election {
    /// The names of the candidates, as character vectors.
    pub fn name_table(&self) -> (r: Vec<Vec<char>>)
        ensures
            r@.len() == self.n(),
            r@.map_values(|v: Vec<char>| v@) == self.names(),
    {
        let mut r: Vec<Vec<char>> = Vec::new();
        let mut i: usize = 0;
        while i < self.candidates.len()
            invariant
                i <= self.candidates@.len(),
                r@.len() == i,
                forall|j: int| 0 <= j < i ==> (#[trigger] r@[j])@ == self.candidates@[j]@,
            decreases self.candidates@.len() - i,
        {
            let v = name_chars(&self.candidates[i]);
            r.push(v);
            i = i + 1;
        }
        proof {
            assert(r@.map_values(|v: Vec<char>| v@) =~= self.names());
        }
        r
    }
}


impl Election {
    /// Whether the election is well formed (`wf`).
    pub fn is_well_formed(&self) -> (r: bool)
        ensures
            r == self.wf(),
    {
        let n = self.candidates.len();
        let nb = self.ballots.len();
        if n == 0 || nb == 0 {
            return false;
        }
        let mut k: usize = 0;
        while k < nb
            invariant
                n == self.n(),
                nb == self.ballots@.len(),
                k <= nb,
                forall|i: int| 0 <= i < k ==> valid_ballot(#[trigger] self.votes()[i], self.n()),
            decreases nb - k,
        {
            let b = &self.ballots[k].ranking;
            assert(self.votes()[k as int] == b@);
            if b.len() == 0 {
                return false;
            }
            let mut i: usize = 0;
            while i < b.len()
                invariant
                    n == self.n(),
                    nb == self.ballots@.len(),
                    k < nb,
                    b@ == self.votes()[k as int],
                    i <= b@.len(),
                    forall|p: int| 0 <= p < i ==> #[trigger] b@[p] < n,
                    forall|p: int, q: int| 0 <= p < i && 0 <= q < i && p != q ==> b@[p] != b@[q],
                decreases b@.len() - i,
            {
                if b[i] >= n {
                    assert(!valid_ballot(self.votes()[k as int], self.n()));
                    return false;
                }
                let mut j: usize = 0;
                while j < i
                    invariant
                        nb == self.ballots@.len(),
                        k < nb,
                        b@ == self.votes()[k as int],
                        i < b@.len(),
                        j <= i,
                        forall|q: int| 0 <= q < j ==> b@[q] != b@[i as int],
                    decreases i - j,
                {
                    if b[j] == b[i] {
                        assert(!b@.no_duplicates());
                        assert(!valid_ballot(self.votes()[k as int], self.n()));
                        return false;
                    }
                    j = j + 1;
                }
                i = i + 1;
            }
            k = k + 1;
        }
        true
    }
}

} // verus!
