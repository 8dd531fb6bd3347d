use vstd::prelude::*;
use crate::tally::{add_ballot_duels, is_duel_matrix, lemma_take_step, pref_count, zero_matrix};
use crate::types::{CandidateId, Election, VoteResult, names_known};
use crate::order::{name_less, name_lt, lemma_name_lt_irreflexive, lemma_name_lt_total, lemma_name_lt_transitive};
use crate::vote::VotingAlgorithm;

verus! {

/// The duel matrix of an election: entry `[x][y]` is the number of ballots that rank
/// `x` above `y`.
pub fn pairwise_matrix(election: &Election) -> (m: Vec<Vec<usize>>)
    requires
        election.consistent(),
    ensures
        is_duel_matrix(m@, election.votes(), election.n()),
{
    let n = election.candidates.len();
    let ghost v = election.votes();
    let mut m = zero_matrix(n);
    proof {
        assert(v.take(0) =~= Seq::<Seq<CandidateId>>::empty());
    }
    let nb = election.ballots.len();
    let mut k: usize = 0;
    while k < nb
        invariant
            election.consistent(),
            n == election.n(),
            v == election.votes(),
            v.len() == nb,
            k <= nb,
            is_duel_matrix(m@, v.take(k as int), n as nat),
        decreases nb - k,
    {
        let b = &election.ballots[k].ranking;
        proof {
            assert(v[k as int] == b@);
            assert(names_known(v[k as int], election.n()));
            lemma_take_step(v, k as int);
            assert(v.take(k as int).push(b@) =~= v.take(k + 1));
        }
        add_ballot_duels(&mut m, b, n, Ghost(v.take(k as int)));
        k = k + 1;
    }
    proof {
        assert(v.take(nb as int) =~= v);
    }
    m
}


/// `x` beats `y` in their duel.
pub open spec fn duel_win(v: Seq<Seq<CandidateId>>, x: CandidateId, y: CandidateId) -> bool {
    pref_count(v, x, y) > pref_count(v, y, x)
}

/// Net duels of `i` against the candidates below `k`: one up for each won, one down for
/// each lost.
pub open spec fn net_partial(v: Seq<Seq<CandidateId>>, i: CandidateId, k: nat) -> int
    decreases k,
{
    if k == 0 {
        0
    } else {
        let j = (k - 1) as usize;
        net_partial(v, i, (k - 1) as nat) + if duel_win(v, i, j) { 1int } else if duel_win(v, j, i) { -1int } else { 0int }
    }
}

/// The net duels of `i` against all candidates.
pub open spec fn net_score(e: &Election, i: CandidateId) -> int {
    net_partial(e.votes(), i, e.n())
}

/// `i` has the highest net duel score.
pub open spec fn net_leader(e: &Election, i: CandidateId) -> bool {
    &&& i < e.n()
    &&& forall|j: CandidateId| j < e.n() ==> #[trigger] net_score(e, j) <= net_score(e, i)
}

/// A set `t` of candidates from which no outside candidate ties or beats a member: every
/// member beats every candidate outside.
pub open spec fn dominating(e: &Election, t: Set<CandidateId>) -> bool {
    forall|i: CandidateId, j: CandidateId|
        i < e.n() && j < e.n() && #[trigger] t.contains(j) && !#[trigger] t.contains(i) ==> duel_win(e.votes(), j, i)
}

/// `c` is in the smallest dominating set that holds every net-score leader.
pub open spec fn in_smith(e: &Election, c: CandidateId) -> bool {
    &&& c < e.n()
    &&& forall|t: Set<CandidateId>|
        (forall|i: CandidateId| net_leader(e, i) ==> #[trigger] t.contains(i)) && dominating(e, t) ==> #[trigger] t.contains(c)
}

/// The members of that set below `k`, in increasing order.
pub open spec fn smith_below(e: &Election, k: nat) -> Seq<CandidateId>
    decreases k,
{
    if k == 0 {
        Seq::empty()
    } else {
        smith_below(e, (k - 1) as nat) + if in_smith(e, (k - 1) as usize) { seq![(k - 1) as usize] } else { Seq::empty() }
    }
}

/// The members of that set, in increasing order.
pub open spec fn smith_members(e: &Election) -> Seq<CandidateId> {
    smith_below(e, e.n())
}

/// The number of `true` entries.
pub open spec fn count_true(s: Seq<bool>) -> nat
    decreases s.len(),
{
    if s.len() == 0 {
        0
    } else {
        count_true(s.drop_last()) + if s.last() { 1nat } else { 0nat }
    }
}

/// Turning one `false` entry to `true` adds one; there are no more `true` entries than entries.
pub proof fn lemma_count_true_update(s: Seq<bool>, i: int)
    requires
        0 <= i < s.len(),
        !s[i],
    ensures
        count_true(s.update(i, true)) == count_true(s) + 1,
        count_true(s.update(i, true)) <= s.len(),
    decreases s.len(),
{
    lemma_count_true_bound(s.update(i, true));
    if i < s.len() - 1 {
        assert(s.update(i, true).drop_last() =~= s.drop_last().update(i, true));
        lemma_count_true_update(s.drop_last(), i);
    } else {
        assert(s.update(i, true).drop_last() =~= s.drop_last());
    }
}

/// There are no more `true` entries than entries.
pub proof fn lemma_count_true_bound(s: Seq<bool>)
    ensures
        count_true(s) <= s.len(),
    decreases s.len(),
{
    if s.len() > 0 {
        lemma_count_true_bound(s.drop_last());
    }
}

/// The members flagged in `flags`, as a set.
pub open spec fn flagged(flags: Seq<bool>) -> Set<CandidateId> {
    Set::new(|c: CandidateId| c < flags.len() && flags[c as int])
}

/// The net duel score of every candidate, read off a duel matrix.
pub fn net_scores(m: &Vec<Vec<usize>>, n: usize, Ghost(e): Ghost<&Election>) -> (r: Vec<i128>)
    requires
        n == e.n(),
        is_duel_matrix(m@, e.votes(), n as nat),
    ensures
        r@.len() == n,
        forall|c: int| 0 <= c < n ==> #[trigger] r@[c] == net_score(e, c as usize),
{
    let ghost v = e.votes();
    let mut r: Vec<i128> = Vec::new();
    let mut i: usize = 0;
    while i < n
        invariant
            n == e.n(),
            v == e.votes(),
            is_duel_matrix(m@, v, n as nat),
            i <= n,
            r@.len() == i,
            forall|c: int| 0 <= c < i ==> #[trigger] r@[c] == net_score(e, c as usize),
        decreases n - i,
    {
        let mut s: i128 = 0;
        let mut j: usize = 0;
        while j < n
            invariant
                n == e.n(),
                v == e.votes(),
                is_duel_matrix(m@, v, n as nat),
                i < n,
                j <= n,
                s == net_partial(v, i, j as nat),
                -(j as int) <= s <= j,
            decreases n - j,
        {
            proof {
                assert(m@[i as int]@[j as int] == pref_count(v, i, j));
                assert(m@[j as int]@[i as int] == pref_count(v, j, i));
            }
            if m[i][j] > m[j][i] {
                s = s + 1;
            } else if m[j][i] > m[i][j] {
                s = s - 1;
            }
            j = j + 1;
        }
        r.push(s);
        i = i + 1;
    }
    r
}

/// The Smith set: the smallest set of candidates that holds every candidate with the
/// highest net duel score and whose members each beat every candidate outside it, in
/// increasing order.
pub fn smith_set(election: &Election) -> (r: Vec<CandidateId>)
    requires
        election.consistent(),
        election.n() > 0,
    ensures
        r@ == smith_members(election),
        r@.len() > 0,
        forall|i: int, j: int| 0 <= i < j < r@.len() ==> #[trigger] r@[i] < #[trigger] r@[j],
        forall|c: CandidateId| #[trigger] r@.contains(c) <==> in_smith(election, c),
        forall|i: int| 0 <= i < r@.len() ==> #[trigger] r@[i] < election.n(),
{
    let e = election;
    let ghost v = e.votes();
    let n = e.candidates.len();
    let wins = pairwise_matrix(e);
    let net = net_scores(&wins, n, Ghost(e));
    let mut max_score: i128 = net[0];
    let mut i: usize = 1;
    while i < n
        invariant
            n == e.n(),
            net@.len() == n,
            1 <= i <= n,
            exists|c: int| 0 <= c < i && net@[c] == max_score,
            forall|c: int| 0 <= c < i ==> #[trigger] net@[c] <= max_score,
        decreases n - i,
    {
        if net[i] > max_score {
            max_score = net[i];
        }
        i = i + 1;
    }
    let mut smith: Vec<bool> = Vec::new();
    let mut i: usize = 0;
    while i < n
        invariant
            n == e.n(),
            net@.len() == n,
            forall|c: int| 0 <= c < n ==> #[trigger] net@[c] == net_score(e, c as usize),
            forall|c: int| 0 <= c < n ==> #[trigger] net@[c] <= max_score,
            i <= n,
            smith@.len() == i,
            forall|c: int| 0 <= c < i ==> #[trigger] smith@[c] == (net@[c] == max_score),
        decreases n - i,
    {
        smith.push(net[i] == max_score);
        i = i + 1;
    }
    proof {
        let c0 = choose|c: int| 0 <= c < n && net@[c] == max_score;
        assert forall|c: CandidateId| net_leader(e, c) implies #[trigger] smith@[c as int] by {
            assert(net_score(e, c0 as usize) <= net_score(e, c));
            assert(net@[c0] == net_score(e, c0 as usize));
            assert(net@[c as int] == net_score(e, c));
        }
        assert forall|c: CandidateId| c < n && #[trigger] smith@[c as int] implies in_smith(e, c) by {
            assert forall|j: CandidateId| j < e.n() implies net_score(e, j) <= #[trigger] net_score(e, c) by {
                assert(net@[j as int] == net_score(e, j));
                assert(net@[c as int] == net_score(e, c));
            }
            assert(net_leader(e, c));
        }
    }
    loop
        invariant
            e.consistent(),
            n == e.n(),
            v == e.votes(),
            is_duel_matrix(wins@, v, n as nat),
            smith@.len() == n,
            forall|c: CandidateId| net_leader(e, c) ==> #[trigger] smith@[c as int],
            forall|c: CandidateId| c < n && #[trigger] smith@[c as int] ==> in_smith(e, c),
        ensures
            smith@.len() == n,
            forall|c: CandidateId| net_leader(e, c) ==> #[trigger] smith@[c as int],
            forall|c: CandidateId| c < n && #[trigger] smith@[c as int] ==> in_smith(e, c),
            forall|a: CandidateId, b: CandidateId|
                a < n && b < n && !#[trigger] smith@[a as int] && #[trigger] smith@[b as int] ==> duel_win(v, b, a),
        decreases n - count_true(smith@),
    {
        let ghost start = smith@;
        proof {
            lemma_count_true_bound(smith@);
        }
        let mut added = false;
        let mut i: usize = 0;
        while i < n
            invariant
                e.consistent(),
                n == e.n(),
                v == e.votes(),
                is_duel_matrix(wins@, v, n as nat),
                smith@.len() == n,
                forall|c: CandidateId| net_leader(e, c) ==> #[trigger] smith@[c as int],
                forall|c: CandidateId| c < n && #[trigger] smith@[c as int] ==> in_smith(e, c),
                i <= n,
                added ==> count_true(smith@) > count_true(start),
                !added ==> smith@ == start,
                count_true(smith@) >= count_true(start),
                count_true(smith@) <= n,
                !added ==> forall|a: CandidateId, b: CandidateId|
                    a < i && b < n && !#[trigger] smith@[a as int] && #[trigger] smith@[b as int] ==> duel_win(v, b, a),
            decreases n - i,
        {
            if !smith[i] {
                let mut j: usize = 0;
                while j < n
                    invariant
                        n == e.n(),
                        v == e.votes(),
                        is_duel_matrix(wins@, v, n as nat),
                        smith@.len() == n,
                        i < n,
                        !smith@[i as int],
                        j <= n,
                        forall|b: CandidateId| b < j && #[trigger] smith@[b as int] ==> duel_win(v, b, i),
                    ensures
                        j <= n,
                        j < n ==> smith@[j as int] && !duel_win(v, j, i),
                        j == n ==> forall|b: CandidateId| b < n && #[trigger] smith@[b as int] ==> duel_win(v, b, i),
                    decreases n - j,
                {
                    proof {
                        assert(wins@[i as int]@[j as int] == pref_count(v, i, j));
                        assert(wins@[j as int]@[i as int] == pref_count(v, j, i));
                    }
                    if smith[j] && wins[i][j] >= wins[j][i] {
                        break;
                    }
                    j = j + 1;
                }
                if j < n {
                    proof {
                        assert(in_smith(e, j));
                        assert forall|t: Set<CandidateId>|
                            (forall|c: CandidateId| net_leader(e, c) ==> #[trigger] t.contains(c)) && dominating(e, t)
                            implies #[trigger] t.contains(i) by {
                            assert(t.contains(j));
                            if !t.contains(i) {
                                assert(duel_win(v, j, i));
                            }
                        }
                        lemma_count_true_update(smith@, i as int);
                    }
                    smith.set(i, true);
                    added = true;
                }
            }
            i = i + 1;
        }
        if !added {
            break;
        }
    }
    let ghost lead = choose|c: int| 0 <= c < n && net@[c] == max_score;
    proof {
        assert(net_leader(e, lead as usize)) by {
            assert forall|j: CandidateId| j < e.n() implies #[trigger] net_score(e, j) <= net_score(e, lead as usize) by {
                assert(net@[j as int] == net_score(e, j));
                assert(net@[lead] == net_score(e, lead as usize));
            }
        }
        assert(smith@[lead]);
        let s = flagged(smith@);
        assert forall|c: CandidateId| net_leader(e, c) implies #[trigger] s.contains(c) by {}
        assert(dominating(e, s)) by {
            assert forall|a: CandidateId, b: CandidateId|
                a < n && b < n && #[trigger] s.contains(b) && !#[trigger] s.contains(a) implies duel_win(v, b, a) by {
                assert(smith@[b as int] && !smith@[a as int]);
            }
        }
        assert forall|c: CandidateId| in_smith(e, c) <==> c < n && #[trigger] smith@[c as int] by {
            if in_smith(e, c) {
                assert(s.contains(c));
            }
        }
    }
    let mut r: Vec<CandidateId> = Vec::new();
    let mut c: usize = 0;
    while c < n
        invariant
            n == e.n(),
            smith@.len() == n,
            forall|x: CandidateId| in_smith(e, x) <==> x < n && #[trigger] smith@[x as int],
            c <= n,
            r@ == smith_below(e, c as nat),
            0 <= lead < n,
            smith@[lead],
            lead < c ==> r@.len() > 0,
            forall|i: int, j: int| 0 <= i < j < r@.len() ==> #[trigger] r@[i] < #[trigger] r@[j],
            forall|i: int| 0 <= i < r@.len() ==> #[trigger] r@[i] < c,
            forall|x: CandidateId| #[trigger] r@.contains(x) <==> x < c && in_smith(e, x),
        decreases n - c,
    {
        let ghost old_r = r@;
        if smith[c] {
            r.push(c);
            proof {
                assert(r@ == old_r.push(c));
                assert forall|x: CandidateId| #[trigger] r@.contains(x) <==> x < c + 1 && in_smith(e, x) by {
                    if x == c {
                        assert(smith@[c as int]);
                        assert(in_smith(e, c));
                        assert(r@[r@.len() - 1] == c);
                    } else if r@.contains(x) {
                        let k = choose|k: int| 0 <= k < r@.len() && r@[k] == x;
                        assert(k < old_r.len());
                        assert(old_r[k] == x);
                        assert(old_r.contains(x));
                    } else if old_r.contains(x) {
                        let k = choose|k: int| 0 <= k < old_r.len() && old_r[k] == x;
                        assert(r@[k] == x);
                    }
                }
            }
        }
        c = c + 1;
    }
    r
}


/// `c` is among `cs` and wins, in matrix `w`, its duel with every other of `cs`.
pub open spec fn is_condorcet_winner(w: Seq<Vec<usize>>, cs: Seq<CandidateId>, c: CandidateId) -> bool {
    &&& cs.contains(c)
    &&& forall|j: CandidateId| #[trigger] cs.contains(j) && j != c ==> w[c as int]@[j as int] > w[j as int]@[c as int]
}

/// There is at most one Condorcet winner among a group of candidates.
pub proof fn lemma_condorcet_winner_unique(w: Seq<Vec<usize>>, cs: Seq<CandidateId>, a: CandidateId, b: CandidateId)
    requires
        is_condorcet_winner(w, cs, a),
        is_condorcet_winner(w, cs, b),
    ensures
        a == b,
{
    if a != b {
        assert(cs.contains(b));
        assert(cs.contains(a));
    }
}

/// The candidate among `candidates` that wins its duel with every other one of them, if
/// there is one.
pub fn condorcet_winner(wins: &Vec<Vec<usize>>, candidates: &[CandidateId]) -> (r: Option<CandidateId>)
    requires
        forall|i: int| 0 <= i < candidates@.len() ==> #[trigger] candidates@[i] < wins@.len(),
        forall|i: int, j: int|
            0 <= i < candidates@.len() && 0 <= j < candidates@.len() ==> #[trigger] candidates@[j] < (#[trigger] wins@[candidates@[i] as int])@.len(),
    ensures
        match r {
            Some(c) => is_condorcet_winner(wins@, candidates@, c),
            None => forall|c: CandidateId| !is_condorcet_winner(wins@, candidates@, c),
        },
{
    let mut a: usize = 0;
    while a < candidates.len()
        invariant
            forall|i: int| 0 <= i < candidates@.len() ==> #[trigger] candidates@[i] < wins@.len(),
            forall|i: int, j: int|
                0 <= i < candidates@.len() && 0 <= j < candidates@.len() ==> #[trigger] candidates@[j] < (#[trigger] wins@[candidates@[i] as int])@.len(),
            a <= candidates@.len(),
            forall|k: int| 0 <= k < a ==> !is_condorcet_winner(wins@, candidates@, #[trigger] candidates@[k]),
        decreases candidates@.len() - a,
    {
        let i = candidates[a];
        let mut ok = true;
        let mut b: usize = 0;
        while b < candidates.len()
            invariant
                forall|x: int| 0 <= x < candidates@.len() ==> #[trigger] candidates@[x] < wins@.len(),
                forall|x: int, y: int|
                    0 <= x < candidates@.len() && 0 <= y < candidates@.len() ==> #[trigger] candidates@[y] < (#[trigger] wins@[candidates@[x] as int])@.len(),
                a < candidates@.len(),
                i == candidates@[a as int],
                b <= candidates@.len(),
                ok == forall|k: int| 0 <= k < b && #[trigger] candidates@[k] != i ==> wins@[i as int]@[candidates@[k] as int] > wins@[candidates@[k] as int]@[i as int],
            decreases candidates@.len() - b,
        {
            let j = candidates[b];
            if i != j && wins[i][j] <= wins[j][i] {
                ok = false;
            }
            b = b + 1;
        }
        if ok {
            proof {
                assert(candidates@.contains(i));
                assert forall|j: CandidateId| #[trigger] candidates@.contains(j) && j != i implies wins@[i as int]@[j as int] > wins@[j as int]@[i as int] by {
                    let k = choose|k: int| 0 <= k < candidates@.len() && candidates@[k] == j;
                }
            }
            return Some(i);
        }
        proof {
            let k = choose|k: int| 0 <= k < candidates@.len() && candidates@[k] != i && !(wins@[i as int]@[candidates@[k] as int] > wins@[candidates@[k] as int]@[i as int]);
            assert(candidates@.contains(candidates@[k]));
        }
        a = a + 1;
    }
    proof {
        assert forall|c: CandidateId| !is_condorcet_winner(wins@, candidates@, c) by {
            if is_condorcet_winner(wins@, candidates@, c) {
                let k = choose|k: int| 0 <= k < candidates@.len() && candidates@[k] == c;
            }
        }
    }
    None
}


/// Smith+IRV: instant-runoff voting among the members of the Smith set. Before each
/// elimination, if one remaining candidate wins its duel with every other remaining one,
/// it wins. Otherwise every ballot counts for its first remaining candidate and the one
/// with the fewest such ballots is eliminated (of those tied, the one whose name comes
/// last, then the greatest index). The ranking is the winner, the eliminated candidates
/// from last to first, then every other candidate in index order.
pub struct SmithIRV;

/// `s` as flags over the candidates `0 .. n`.
pub open spec fn flags_of(n: nat, s: Seq<CandidateId>) -> Seq<bool> {
    Seq::new(n, |c: int| s.contains(c as usize))
}

/// `w` is among `s` and beats every other member of `s`.
pub open spec fn beats_all_in(v: Seq<Seq<CandidateId>>, s: Seq<CandidateId>, w: CandidateId) -> bool {
    &&& s.contains(w)
    &&& forall|j: CandidateId| #[trigger] s.contains(j) && j != w ==> duel_win(v, w, j)
}

/// `c` is the member of `s` eliminated next: fewest ballots whose first member of `s` it
/// is, of those tied the name that comes last, then the greatest index.
pub open spec fn is_runoff_loser(e: &Election, s: Seq<CandidateId>, c: CandidateId) -> bool {
    let a = flags_of(e.n(), s);
    let v = e.votes();
    let nm = e.names();
    &&& s.contains(c)
    &&& forall|d: CandidateId| #[trigger] s.contains(d) ==> crate::tally::active_count(v, a, c) <= crate::tally::active_count(v, a, d)
    &&& forall|d: CandidateId|
        #[trigger] s.contains(d) && d != c && crate::tally::active_count(v, a, d) == crate::tally::active_count(v, a, c)
            ==> name_lt(nm[d as int], nm[c as int]) || (nm[d as int] == nm[c as int] && d < c)
}

/// `s` without `x`.
pub open spec fn without(s: Seq<CandidateId>, x: CandidateId) -> Seq<CandidateId>
    decreases s.len(),
{
    if s.len() == 0 {
        s
    } else if s.last() == x {
        without(s.drop_last(), x)
    } else {
        without(s.drop_last(), x).push(s.last())
    }
}

/// The candidates below `k` that `head` leaves out, in index order.
pub open spec fn rest_after(head: Seq<CandidateId>, k: nat) -> Seq<CandidateId>
    decreases k,
{
    if k == 0 {
        Seq::empty()
    } else {
        rest_after(head, (k - 1) as nat) + if head.contains((k - 1) as usize) { Seq::empty() } else { seq![(k - 1) as usize] }
    }
}

/// The final ranking: `w`, the eliminated candidates from last to first, then the others.
pub open spec fn finish(n: nat, w: CandidateId, out: Seq<CandidateId>) -> Seq<CandidateId> {
    let head = seq![w] + out.reverse();
    head + rest_after(head, n)
}

/// The outcome of the runoff among `s`, once `out` are eliminated.
pub open spec fn runoff(e: &Election, s: Seq<CandidateId>, out: Seq<CandidateId>) -> Seq<CandidateId>
    decreases s.len(),
{
    if exists|w: CandidateId| beats_all_in(e.votes(), s, w) {
        finish(e.n(), choose|w: CandidateId| beats_all_in(e.votes(), s, w), out)
    } else {
        let l = choose|c: CandidateId| is_runoff_loser(e, s, c);
        let s2 = without(s, l);
        if s2.len() >= s.len() {
            Seq::empty()
        } else if s2.len() == 1 {
            finish(e.n(), s2[0], out.push(l))
        } else {
            runoff(e, s2, out.push(l))
        }
    }
}

/// The Smith+IRV ranking.
pub open spec fn smith_irv_ranking(e: &Election) -> Seq<CandidateId> {
    runoff(e, smith_members(e), Seq::empty())
}

/// What is left of `s` without `x`.
pub proof fn lemma_without(s: Seq<CandidateId>, x: CandidateId)
    ensures
        forall|y: CandidateId| #[trigger] without(s, x).contains(y) <==> s.contains(y) && y != x,
        without(s, x).len() <= s.len(),
        s.no_duplicates() && s.contains(x) ==> without(s, x).len() == s.len() - 1,
        (forall|i: int, j: int| 0 <= i < j < s.len() ==> s[i] < s[j]) ==> (forall|i: int, j: int|
            0 <= i < j < without(s, x).len() ==> #[trigger] without(s, x)[i] < #[trigger] without(s, x)[j]),
    decreases s.len(),
{
    if s.len() > 0 {
        let t = s.drop_last();
        lemma_without(t, x);
        let w = without(t, x);
        assert forall|y: CandidateId| #[trigger] without(s, x).contains(y) <==> s.contains(y) && y != x by {
            if s.contains(y) && y != x {
                let k = choose|k: int| 0 <= k < s.len() && s[k] == y;
                if k < s.len() - 1 {
                    assert(t[k] == y);
                    assert(t.contains(y));
                }
                if s.last() != x {
                    assert(w.push(s.last())[w.len() as int] == s.last());
                    if w.contains(y) {
                        let k2 = choose|k2: int| 0 <= k2 < w.len() && w[k2] == y;
                        assert(w.push(s.last())[k2] == y);
                    }
                }
            }
            if without(s, x).contains(y) {
                let k = choose|k: int| 0 <= k < without(s, x).len() && without(s, x)[k] == y;
                if s.last() != x && k == w.len() {
                    assert(s[s.len() - 1] == y);
                } else {
                    assert(w[k] == y);
                    assert(w.contains(y));
                    let k2 = choose|k2: int| 0 <= k2 < t.len() && t[k2] == y;
                    assert(s[k2] == y);
                }
            }
        }
        if s.no_duplicates() && s.contains(x) {
            if s.last() == x {
                assert(!t.contains(x)) by {
                    if t.contains(x) {
                        let k = choose|k: int| 0 <= k < t.len() && t[k] == x;
                        assert(s[k] == s[s.len() - 1]);
                    }
                }
                assert forall|y: CandidateId| #[trigger] w.contains(y) <==> t.contains(y) by {}
                lemma_without_absent(t, x);
            } else {
                let k = choose|k: int| 0 <= k < s.len() && s[k] == x;
                assert(t[k] == x);
                assert(t.no_duplicates());
            }
        }
        if forall|i: int, j: int| 0 <= i < j < s.len() ==> s[i] < s[j] {
            assert(forall|i: int, j: int| 0 <= i < j < t.len() ==> t[i] < t[j]) by {
                assert forall|i: int, j: int| 0 <= i < j < t.len() implies t[i] < t[j] by {
                    assert(t[i] == s[i] && t[j] == s[j]);
                }
            }
            if s.last() != x {
                assert forall|i: int, j: int| 0 <= i < j < without(s, x).len() implies #[trigger] without(s, x)[i] < #[trigger] without(s, x)[j] by {
                    if j == w.len() {
                        let y = w[i];
                        assert(w.contains(y));
                        let k = choose|k: int| 0 <= k < t.len() && t[k] == y;
                        assert(s[k] < s[s.len() - 1]);
                    } else {
                        assert(without(s, x)[i] == w[i]);
                        assert(without(s, x)[j] == w[j]);
                    }
                }
            }
        }
    }
}

/// Removing an absent candidate changes nothing.
pub proof fn lemma_without_absent(s: Seq<CandidateId>, x: CandidateId)
    requires
        !s.contains(x),
    ensures
        without(s, x) == s,
    decreases s.len(),
{
    if s.len() > 0 {
        assert(!s.drop_last().contains(x)) by {
            if s.drop_last().contains(x) {
                let k = choose|k: int| 0 <= k < s.drop_last().len() && s.drop_last()[k] == x;
                assert(s[k] == x);
            }
        }
        lemma_without_absent(s.drop_last(), x);
        assert(s.drop_last().push(s.last()) =~= s);
    }
}


/// The ranking that puts `w` first, then `out` from last to first, then every other
/// candidate below `n` in index order.
pub fn finish_ranking(n: usize, w: CandidateId, out: &Vec<CandidateId>) -> (r: Vec<CandidateId>)
    requires
        w < n,
        forall|i: int| 0 <= i < out@.len() ==> #[trigger] out@[i] < n,
    ensures
        r@ == finish(n as nat, w, out@),
{
    let mut head: Vec<CandidateId> = Vec::new();
    head.push(w);
    let mut i: usize = out.len();
    while i > 0
        invariant
            i <= out@.len(),
            head@ == seq![w] + out@.subrange(i as int, out@.len() as int).reverse(),
        decreases i,
    {
        i = i - 1;
        head.push(out[i]);
        proof {
            assert(head@ =~= seq![w] + out@.subrange(i as int, out@.len() as int).reverse());
        }
    }
    proof {
        assert(out@.subrange(0, out@.len() as int) =~= out@);
    }
    let ghost h = head@;
    let mut seen: Vec<bool> = Vec::new();
    let mut c: usize = 0;
    while c < n
        invariant
            c <= n,
            seen@.len() == c,
            forall|d: int| 0 <= d < c ==> !#[trigger] seen@[d],
        decreases n - c,
    {
        seen.push(false);
        c = c + 1;
    }
    let mut k: usize = 0;
    while k < head.len()
        invariant
            h == head@,
            forall|i: int| 0 <= i < h.len() ==> #[trigger] h[i] < n,
            seen@.len() == n,
            k <= h.len(),
            forall|d: int| 0 <= d < n ==> #[trigger] seen@[d] == h.subrange(0, k as int).contains(d as usize),
        decreases h.len() - k,
    {
        let x = head[k];
        seen.set(x, true);
        proof {
            assert forall|d: int| 0 <= d < n implies #[trigger] seen@[d] == h.subrange(0, k + 1).contains(d as usize) by {
                let s1 = h.subrange(0, k + 1);
                let s0 = h.subrange(0, k as int);
                let du = d as usize;
                if du == x {
                    assert(s1[k as int] == x);
                } else {
                    if s1.contains(du) {
                        let q = choose|q: int| 0 <= q < s1.len() && s1[q] == du;
                        assert(s0[q] == du);
                    }
                    if s0.contains(du) {
                        let q = choose|q: int| 0 <= q < s0.len() && s0[q] == du;
                        assert(s1[q] == du);
                    }
                }
            }
        }
        k = k + 1;
    }
    proof {
        assert(h.subrange(0, h.len() as int) =~= h);
    }
    let mut r = head;
    let mut c: usize = 0;
    while c < n
        invariant
            seen@.len() == n,
            forall|d: int| 0 <= d < n ==> #[trigger] seen@[d] == h.contains(d as usize),
            c <= n,
            r@ == h + rest_after(h, c as nat),
        decreases n - c,
    {
        if !seen[c] {
            r.push(c);
        }
        proof {
            assert(r@ =~= h + rest_after(h, (c + 1) as nat));
        }
        c = c + 1;
    }
    r
}

/// The member of `s` to eliminate, found the way `max_by_key` finds it: over `s` in
/// order, a later member replaces the one kept when it has fewer ballots, or as many
/// ballots and a name that does not come before.
pub fn pick_runoff_loser(s: &Vec<CandidateId>, scores: &Vec<usize>, names: &Vec<Vec<char>>) -> (r: CandidateId)
    requires
        s@.len() > 0,
        forall|i: int, j: int| 0 <= i < j < s@.len() ==> #[trigger] s@[i] < #[trigger] s@[j],
        forall|i: int| 0 <= i < s@.len() ==> #[trigger] s@[i] < scores@.len(),
        names@.len() == scores@.len(),
    ensures
        s@.contains(r),
        forall|d: CandidateId| #[trigger] s@.contains(d) ==> scores@[r as int] <= scores@[d as int],
        forall|d: CandidateId|
            #[trigger] s@.contains(d) && d != r && scores@[d as int] == scores@[r as int]
                ==> name_lt(names@[d as int]@, names@[r as int]@) || (names@[d as int]@ == names@[r as int]@ && d < r),
{
    let mut best: CandidateId = s[0];
    proof {
        assert(s@.subrange(0, 1)[0] == best);
    }
    let mut i: usize = 1;
    while i < s.len()
        invariant
            s@.len() > 0,
            forall|a: int, b: int| 0 <= a < b < s@.len() ==> #[trigger] s@[a] < #[trigger] s@[b],
            forall|a: int| 0 <= a < s@.len() ==> #[trigger] s@[a] < scores@.len(),
            names@.len() == scores@.len(),
            1 <= i <= s@.len(),
            s@.subrange(0, i as int).contains(best),
            forall|k: int| 0 <= k < i ==> scores@[best as int] <= scores@[#[trigger] s@[k] as int],
            forall|k: int|
                0 <= k < i && #[trigger] s@[k] != best && scores@[s@[k] as int] == scores@[best as int]
                    ==> name_lt(names@[s@[k] as int]@, names@[best as int]@) || (names@[s@[k] as int]@ == names@[best as int]@ && s@[k] < best),
        decreases s@.len() - i,
    {
        let x = s[i];
        let ghost old_best = best;
        proof {
            let kb = choose|kb: int| 0 <= kb < i && s@.subrange(0, i as int)[kb] == best;
            assert(s@[kb] == best);
            assert(best < x);
        }
        if scores[x] < scores[best] || (scores[x] == scores[best] && !name_less(&names[x], &names[best])) {
            proof {
                if scores@[x as int] == scores@[old_best as int] {
                    if names@[x as int]@ != names@[old_best as int]@ {
                        lemma_name_lt_total(names@[x as int]@, names@[old_best as int]@);
                    }
                }
                assert forall|k: int|
                    0 <= k < i + 1 && #[trigger] s@[k] != x && scores@[s@[k] as int] == scores@[x as int]
                    implies name_lt(names@[s@[k] as int]@, names@[x as int]@) || (names@[s@[k] as int]@ == names@[x as int]@ && s@[k] < x) by {
                    if k < i {
                        assert(s@[k] < x);
                        if s@[k] != old_best {
                            if name_lt(names@[s@[k] as int]@, names@[old_best as int]@) && name_lt(names@[old_best as int]@, names@[x as int]@) {
                                lemma_name_lt_transitive(names@[s@[k] as int]@, names@[old_best as int]@, names@[x as int]@);
                            }
                        }
                    }
                }
                assert(s@.subrange(0, i + 1)[i as int] == x);
            }
            best = x;
        } else {
            proof {
                let kb = choose|kb: int| 0 <= kb < i && s@.subrange(0, i as int)[kb] == best;
                assert(s@.subrange(0, i + 1)[kb] == best);
            }
        }
        i = i + 1;
    }
    proof {
        assert(s@.subrange(0, s@.len() as int) =~= s@);
        assert forall|d: CandidateId| #[trigger] s@.contains(d) implies scores@[best as int] <= scores@[d as int] by {
            let k = choose|k: int| 0 <= k < s@.len() && s@[k] == d;
        }
        assert forall|d: CandidateId|
            #[trigger] s@.contains(d) && d != best && scores@[d as int] == scores@[best as int]
            implies name_lt(names@[d as int]@, names@[best as int]@) || (names@[d as int]@ == names@[best as int]@ && d < best) by {
            let k = choose|k: int| 0 <= k < s@.len() && s@[k] == d;
        }
    }
    best
}


/// `s` without `x`.
pub fn remove_candidate(s: &Vec<CandidateId>, x: CandidateId) -> (r: Vec<CandidateId>)
    ensures
        r@ == without(s@, x),
{
    let mut r: Vec<CandidateId> = Vec::new();
    let mut i: usize = 0;
    while i < s.len()
        invariant
            i <= s@.len(),
            r@ == without(s@.take(i as int), x),
        decreases s@.len() - i,
    {
        proof {
            assert(s@.take(i + 1).drop_last() =~= s@.take(i as int));
            assert(s@.take(i + 1).last() == s@[i as int]);
        }
        if s[i] != x {
            r.push(s[i]);
        }
        i = i + 1;
    }
    proof {
        assert(s@.take(s@.len() as int) =~= s@);
    }
    r
}

/// In a duel matrix, winning every duel within `s` is `beats_all_in`.
pub proof fn lemma_condorcet_matrix(m: Seq<Vec<usize>>, e: &Election, s: Seq<CandidateId>, c: CandidateId)
    requires
        is_duel_matrix(m, e.votes(), e.n()),
        forall|i: int| 0 <= i < s.len() ==> #[trigger] s[i] < e.n(),
    ensures
        is_condorcet_winner(m, s, c) <==> beats_all_in(e.votes(), s, c),
{
    let v = e.votes();
    if s.contains(c) {
        let k = choose|k: int| 0 <= k < s.len() && s[k] == c;
        assert(c < e.n());
        assert forall|j: CandidateId| #[trigger] s.contains(j) implies (m[c as int]@[j as int] > m[j as int]@[c as int] <==> duel_win(v, c, j)) by {
            let kj = choose|kj: int| 0 <= kj < s.len() && s[kj] == j;
            assert(m[c as int]@[j as int] == pref_count(v, c, j));
            assert(m[j as int]@[c as int] == pref_count(v, j, c));
        }
    }
}

impl VotingAlgorithm for SmithIRV {
    fn name(&self) -> (r: String)
        ensures
            r@ == "Smith+IRV"@,
    {
        "Smith+IRV".to_string()
    }

    fn compute(&self, election: &Election) -> (r: VoteResult)
        ensures
            r.ranking@ == smith_irv_ranking(election),
    {
        let e = election;
        let ghost v = e.votes();
        let n = e.candidates.len();
        let wins = pairwise_matrix(e);
        let names = e.name_table();
        let ghost nm = e.names();
        proof {
            assert forall|d: int| 0 <= d < n implies #[trigger] nm[d] == names@[d]@ by {
                assert(names@.map_values(|v: Vec<char>| v@)[d] == names@[d]@);
            }
        }
        let mut smith = smith_set(e);
        let mut eliminated: Vec<CandidateId> = Vec::new();
        loop
            invariant
                e == election,
                e.wf(),
                n == e.n(),
                v == e.votes(),
                nm == e.names(),
                names@.len() == n,
                forall|d: int| 0 <= d < n ==> #[trigger] nm[d] == names@[d]@,
                is_duel_matrix(wins@, v, n as nat),
                smith@.len() > 0,
                forall|i: int, j: int| 0 <= i < j < smith@.len() ==> #[trigger] smith@[i] < #[trigger] smith@[j],
                forall|i: int| 0 <= i < smith@.len() ==> #[trigger] smith@[i] < n,
                forall|i: int| 0 <= i < eliminated@.len() ==> #[trigger] eliminated@[i] < n,
                runoff(e, smith@, eliminated@) == smith_irv_ranking(e),
            decreases smith@.len(),
        {
            proof {
                assert forall|i: int, j: int|
                    0 <= i < smith@.len() && 0 <= j < smith@.len() implies #[trigger] smith@[j] < (#[trigger] wins@[smith@[i] as int])@.len() by {
                    assert(smith@[i] < n);
                }
            }
            match condorcet_winner(&wins, smith.as_slice()) {
                Some(w) => {
                    proof {
                        lemma_condorcet_matrix(wins@, e, smith@, w);
                        assert(beats_all_in(v, smith@, w));
                        let cw = choose|x: CandidateId| beats_all_in(v, smith@, x);
                        lemma_condorcet_matrix(wins@, e, smith@, cw);
                        lemma_condorcet_winner_unique(wins@, smith@, w, cw);
                        let k = choose|k: int| 0 <= k < smith@.len() && smith@[k] == w;
                        assert(runoff(e, smith@, eliminated@) == finish(n as nat, w, eliminated@));
                    }
                    let ranking = finish_ranking(n, w, &eliminated);
                    return VoteResult { ranking };
                },
                None => {
                    proof {
                        assert forall|x: CandidateId| !beats_all_in(v, smith@, x) by {
                            lemma_condorcet_matrix(wins@, e, smith@, x);
                        }
                    }
                },
            }
            let mut flags: Vec<bool> = Vec::new();
            let mut c: usize = 0;
            while c < n
                invariant
                    c <= n,
                    flags@.len() == c,
                    forall|d: int| 0 <= d < c ==> !#[trigger] flags@[d],
                decreases n - c,
            {
                flags.push(false);
                c = c + 1;
            }
            let mut k: usize = 0;
            while k < smith.len()
                invariant
                    forall|i: int| 0 <= i < smith@.len() ==> #[trigger] smith@[i] < n,
                    flags@.len() == n,
                    k <= smith@.len(),
                    forall|d: int| 0 <= d < n ==> #[trigger] flags@[d] == smith@.subrange(0, k as int).contains(d as usize),
                decreases smith@.len() - k,
            {
                let x = smith[k];
                flags.set(x, true);
                proof {
                    assert forall|d: int| 0 <= d < n implies #[trigger] flags@[d] == smith@.subrange(0, k + 1).contains(d as usize) by {
                        let s1 = smith@.subrange(0, k + 1);
                        let s0 = smith@.subrange(0, k as int);
                        let du = d as usize;
                        if du == x {
                            assert(s1[k as int] == x);
                        } else {
                            if s1.contains(du) {
                                let q = choose|q: int| 0 <= q < s1.len() && s1[q] == du;
                                assert(s0[q] == du);
                            }
                            if s0.contains(du) {
                                let q = choose|q: int| 0 <= q < s0.len() && s0[q] == du;
                                assert(s1[q] == du);
                            }
                        }
                    }
                }
                k = k + 1;
            }
            proof {
                assert(smith@.subrange(0, smith@.len() as int) =~= smith@);
                assert(flags@ =~= flags_of(n as nat, smith@));
            }
            let scores = crate::tally::active_first_counts(e, &flags);
            let loser = pick_runoff_loser(&smith, &scores, &names);
            proof {
                assert forall|d: CandidateId| #[trigger] smith@.contains(d) implies d < n by {
                    let q = choose|q: int| 0 <= q < smith@.len() && smith@[q] == d;
                }
                assert(is_runoff_loser(e, smith@, loser));
                let l2 = choose|x: CandidateId| is_runoff_loser(e, smith@, x);
                assert(is_runoff_loser(e, smith@, l2));
                if l2 != loser {
                    lemma_name_lt_irreflexive(nm[loser as int]);
                    if name_lt(nm[l2 as int], nm[loser as int]) && name_lt(nm[loser as int], nm[l2 as int]) {
                        lemma_name_lt_transitive(nm[loser as int], nm[l2 as int], nm[loser as int]);
                    }
                }
                lemma_without(smith@, loser);
                assert(smith@.no_duplicates());
                if smith@.len() == 1 {
                    assert(beats_all_in(v, smith@, smith@[0]));
                }
            }
            let remaining = remove_candidate(&smith, loser);
            let ghost old_out = eliminated@;
            proof {
                let q = choose|q: int| 0 <= q < smith@.len() && smith@[q] == loser;
                assert(smith@.contains(loser));
                assert(remaining@.len() < smith@.len());
                assert(!(exists|w: CandidateId| beats_all_in(v, smith@, w)));
            }
            eliminated.push(loser);
            if remaining.len() == 1 {
                proof {
                    let q = choose|q: int| 0 <= q < smith@.len() && smith@[q] == loser;
                    assert(remaining@.contains(remaining@[0]));
                    assert(runoff(e, smith@, old_out) == finish(n as nat, remaining@[0], eliminated@));
                }
                let ranking = finish_ranking(n, remaining[0], &eliminated);
                return VoteResult { ranking };
            }
            proof {
                let q = choose|q: int| 0 <= q < smith@.len() && smith@[q] == loser;
                assert forall|i: int| 0 <= i < remaining@.len() implies #[trigger] remaining@[i] < n by {
                    assert(remaining@.contains(remaining@[i]));
                    let q2 = choose|q2: int| 0 <= q2 < smith@.len() && smith@[q2] == remaining@[i];
                }
            }
            proof {
                assert(runoff(e, smith@, old_out) == runoff(e, remaining@, eliminated@));
            }
            smith = remaining;
        }
    }
}


/// Every member of the Smith set beats every candidate outside it.
pub proof fn lemma_smith_dominates(e: &Election, a: CandidateId, b: CandidateId)
    requires
        in_smith(e, b),
        a < e.n(),
        !in_smith(e, a),
    ensures
        duel_win(e.votes(), b, a),
{
    let t = choose|t: Set<CandidateId>|
        !((forall|i: CandidateId| net_leader(e, i) ==> #[trigger] t.contains(i)) && dominating(e, t) ==> #[trigger] t.contains(a));
    assert(t.contains(b));
}

/// A candidate `m` in a dominating set `t` scores more net duels, over the candidates
/// below `k`, than a candidate `o` outside it: at least as much against each, and one
/// more against `o` itself.
pub proof fn lemma_net_member_outsider(e: &Election, t: Set<CandidateId>, m: CandidateId, o: CandidateId, k: nat)
    requires
        dominating(e, t),
        m < e.n(),
        o < e.n(),
        k <= e.n(),
        t.contains(m),
        !t.contains(o),
    ensures
        net_partial(e.votes(), m, k) >= net_partial(e.votes(), o, k) + if o < k { 1int } else { 0int },
    decreases k,
{
    let v = e.votes();
    if k > 0 {
        lemma_net_member_outsider(e, t, m, o, (k - 1) as nat);
        let x = (k - 1) as usize;
        if t.contains(x) {
            assert(duel_win(v, x, o));
        } else {
            assert(duel_win(v, m, x));
        }
    }
}

/// The Smith set is the smallest dominating set: every dominating set that holds some
/// candidate holds every member of the Smith set.
pub proof fn lemma_smith_smallest(e: &Election, t: Set<CandidateId>, j: CandidateId, c: CandidateId)
    requires
        dominating(e, t),
        j < e.n(),
        t.contains(j),
        in_smith(e, c),
    ensures
        t.contains(c),
{
    assert forall|i: CandidateId| net_leader(e, i) implies #[trigger] t.contains(i) by {
        if !t.contains(i) {
            lemma_net_member_outsider(e, t, j, i, e.n());
            assert(net_score(e, j) <= net_score(e, i));
        }
    }
}

/// Every candidate with the highest net duel score is in the Smith set.
pub proof fn lemma_smith_has_leaders(e: &Election, c: CandidateId)
    requires
        net_leader(e, c),
    ensures
        in_smith(e, c),
{
}

/// A Condorcet winner's net duel score over the candidates below `k`.
pub proof fn lemma_net_winner(v: Seq<Seq<CandidateId>>, n: nat, w: CandidateId, k: nat)
    requires
        k <= n,
        n <= usize::MAX,
        forall|d: CandidateId| d < n && d != w ==> #[trigger] pref_count(v, w, d) > pref_count(v, d, w),
    ensures
        net_partial(v, w, k) == k - if w < k { 1int } else { 0int },
    decreases k,
{
    if k > 0 {
        lemma_net_winner(v, n, w, (k - 1) as nat);
        let j = (k - 1) as usize;
        if j != w {
            assert(pref_count(v, w, j) > pref_count(v, j, w));
        }
    }
}

/// Any other candidate's net duel score over the candidates below `k`.
pub proof fn lemma_net_other(v: Seq<Seq<CandidateId>>, n: nat, w: CandidateId, d: CandidateId, k: nat)
    requires
        k <= n,
        n <= usize::MAX,
        d != w,
        d < n,
        forall|x: CandidateId| x < n && x != w ==> #[trigger] pref_count(v, w, x) > pref_count(v, x, w),
    ensures
        net_partial(v, d, k) <= k - (if d < k { 1int } else { 0int }) - (if w < k { 2int } else { 0int }),
    decreases k,
{
    if k > 0 {
        lemma_net_other(v, n, w, d, (k - 1) as nat);
        let j = (k - 1) as usize;
        if j == w {
            assert(pref_count(v, w, d) > pref_count(v, d, w));
        }
    }
}

/// The Smith set members below `k` when only `w` is in the set.
pub proof fn lemma_smith_below_single(e: &Election, w: CandidateId, k: nat)
    requires
        forall|c: CandidateId| in_smith(e, c) <==> c == w,
        k <= e.n(),
        e.n() <= usize::MAX,
    ensures
        smith_below(e, k) == if w < k { seq![w] } else { Seq::<CandidateId>::empty() },
    decreases k,
{
    if k > 0 {
        lemma_smith_below_single(e, w, (k - 1) as nat);
        if w == (k - 1) as usize {
            assert(Seq::<CandidateId>::empty() + seq![w] =~= seq![w]);
        } else if w < k - 1 {
            assert(seq![w] + Seq::<CandidateId>::empty() =~= seq![w]);
        } else {
            assert(Seq::<CandidateId>::empty() + Seq::<CandidateId>::empty() =~= Seq::<CandidateId>::empty());
        }
    }
}

/// A Condorcet winner is the whole Smith set, and wins Smith+IRV.
pub proof fn lemma_smith_irv_condorcet(e: &Election, w: CandidateId)
    requires
        e.wf(),
        crate::tally::is_condorcet_candidate(e, w),
    ensures
        smith_members(e) == seq![w],
        smith_irv_ranking(e)[0] == w,
{
    let v = e.votes();
    let n = e.n();
    lemma_net_winner(v, n, w, n);
    assert(net_leader(e, w)) by {
        assert forall|j: CandidateId| j < n implies net_score(e, j) <= #[trigger] net_score(e, w) by {
            if j != w {
                lemma_net_other(v, n, w, j, n);
            }
        }
    }
    assert forall|c: CandidateId| in_smith(e, c) <==> c == w by {
        if c == w {
            lemma_smith_has_leaders(e, w);
        } else if in_smith(e, c) {
            let t = Set::<CandidateId>::empty().insert(w);
            assert forall|i: CandidateId| net_leader(e, i) implies #[trigger] t.contains(i) by {
                if i != w {
                    lemma_net_other(v, n, w, i, n);
                    assert(net_score(e, w) <= net_score(e, i));
                }
            }
            assert(dominating(e, t)) by {
                assert forall|i: CandidateId, j: CandidateId|
                    i < n && j < n && #[trigger] t.contains(j) && !#[trigger] t.contains(i) implies duel_win(v, j, i) by {
                    assert(pref_count(v, w, i) > pref_count(v, i, w));
                }
            }
            assert(t.contains(c));
        }
    }
    lemma_smith_below_single(e, w, n);
    let s = seq![w];
    assert(s[0] == w);
    assert(beats_all_in(v, s, w));
    let cw = choose|x: CandidateId| beats_all_in(v, s, x);
    assert(s.contains(cw));
    assert(cw == w);
}


/// What `rest_after` holds: the candidates below `k` that `head` leaves out, once each.
pub proof fn lemma_rest_after(head: Seq<CandidateId>, k: nat)
    requires
        k <= usize::MAX,
    ensures
        forall|x: CandidateId| #[trigger] rest_after(head, k).contains(x) <==> x < k && !head.contains(x),
        rest_after(head, k).no_duplicates(),
        forall|i: int| 0 <= i < rest_after(head, k).len() ==> #[trigger] rest_after(head, k)[i] < k,
    decreases k,
{
    if k > 0 {
        let prev = rest_after(head, (k - 1) as nat);
        lemma_rest_after(head, (k - 1) as nat);
        let x = (k - 1) as usize;
        let cur = rest_after(head, k);
        if head.contains(x) {
            assert(cur =~= prev);
        } else {
            assert(cur =~= prev.push(x));
            assert(!prev.contains(x));
            crate::tally::lemma_push_distinct(prev, x);
            assert forall|y: CandidateId| #[trigger] cur.contains(y) <==> y < k && !head.contains(y) by {
                if y == x {
                    assert(cur[cur.len() - 1] == x);
                } else {
                    if cur.contains(y) {
                        let j = choose|j: int| 0 <= j < cur.len() && cur[j] == y;
                        assert(j < prev.len());
                        assert(prev[j] == y);
                        assert(prev.contains(y));
                    }
                    if prev.contains(y) {
                        let j = choose|j: int| 0 <= j < prev.len() && prev[j] == y;
                        assert(cur[j] == y);
                    }
                    assert(prev.contains(y) <==> y < k - 1 && !head.contains(y));
                }
            }
        }
    }
}

/// A sequence that holds every candidate below `n` has at least `n` entries.
pub proof fn lemma_cover_len(r: Seq<CandidateId>, n: nat)
    requires
        n <= usize::MAX,
        forall|c: CandidateId| c < n ==> r.contains(c),
    ensures
        r.len() >= n,
{
    if r.len() < n {
        let c = crate::tally::lemma_missing_candidate(r, n);
    }
}

/// The final ranking of Smith+IRV ranks every candidate exactly once.
pub proof fn lemma_finish_is_ranking(n: nat, w: CandidateId, out: Seq<CandidateId>)
    requires
        n <= usize::MAX,
        w < n,
        out.no_duplicates(),
        forall|i: int| 0 <= i < out.len() ==> #[trigger] out[i] < n,
        !out.contains(w),
    ensures
        crate::tally::is_ranking(finish(n, w, out), n),
{
    let head = seq![w] + out.reverse();
    let rest = rest_after(head, n);
    let r = finish(n, w, out);
    lemma_rest_after(head, n);
    assert forall|i: int| 0 <= i < head.len() implies #[trigger] head[i] < n by {
        if i > 0 {
            assert(head[i] == out[out.len() - i]);
        }
    }
    assert(head.no_duplicates()) by {
        assert forall|i: int, j: int| 0 <= i < head.len() && 0 <= j < head.len() && i != j implies head[i] != head[j] by {
            if i > 0 {
                assert(head[i] == out[out.len() - i]);
            }
            if j > 0 {
                assert(head[j] == out[out.len() - j]);
            }
            if i == 0 {
                assert(out.contains(out[out.len() - j]));
            }
            if j == 0 {
                assert(out.contains(out[out.len() - i]));
            }
        }
    }
    assert forall|i: int| 0 <= i < r.len() implies #[trigger] r[i] < n by {
        if i >= head.len() {
            assert(r[i] == rest[i - head.len()]);
        }
    }
    assert(r.no_duplicates()) by {
        assert forall|i: int, j: int| 0 <= i < r.len() && 0 <= j < r.len() && i != j implies r[i] != r[j] by {
            if i < head.len() && j >= head.len() {
                assert(rest.contains(rest[j - head.len()]));
                assert(head.contains(head[i]));
            } else if j < head.len() && i >= head.len() {
                assert(rest.contains(rest[i - head.len()]));
                assert(head.contains(head[j]));
            } else if i >= head.len() && j >= head.len() {
                assert(r[i] == rest[i - head.len()]);
                assert(r[j] == rest[j - head.len()]);
            }
        }
    }
    assert forall|c: CandidateId| c < n implies r.contains(c) by {
        if head.contains(c) {
            let j = choose|j: int| 0 <= j < head.len() && head[j] == c;
            assert(r[j] == c);
        } else {
            assert(rest.contains(c));
            let j = choose|j: int| 0 <= j < rest.len() && rest[j] == c;
            assert(r[head.len() + j] == c);
        }
    }
    lemma_cover_len(r, n);
    crate::tally::lemma_distinct_len(r, n);
    crate::tally::lemma_full_ranking(r, n);
}

/// Among the members of `t`, the one the runoff would eliminate first (counting ballots
/// by their first member of `s`): fewest ballots, then the name that comes last, then
/// the greatest index.
pub proof fn lemma_runoff_min(e: &Election, s: Seq<CandidateId>, t: Seq<CandidateId>) -> (r: Option<CandidateId>)
    ensures
        match r {
            Some(c) => {
                let a = flags_of(e.n(), s);
                let v = e.votes();
                let nm = e.names();
                &&& t.contains(c)
                &&& forall|d: CandidateId| #[trigger] t.contains(d) ==> crate::tally::active_count(v, a, c) <= crate::tally::active_count(v, a, d)
                &&& forall|d: CandidateId|
                    #[trigger] t.contains(d) && d != c && crate::tally::active_count(v, a, d) == crate::tally::active_count(v, a, c)
                        ==> name_lt(nm[d as int], nm[c as int]) || (nm[d as int] == nm[c as int] && d < c)
            },
            None => t.len() == 0,
        },
    decreases t.len(),
{
    if t.len() == 0 {
        None
    } else {
        let a = flags_of(e.n(), s);
        let v = e.votes();
        let nm = e.names();
        let u = t.drop_last();
        let x = t.last();
        let prev = lemma_runoff_min(e, s, u);
        assert forall|d: CandidateId| #[trigger] t.contains(d) implies d == x || u.contains(d) by {
            let j = choose|j: int| 0 <= j < t.len() && t[j] == d;
            if j < u.len() {
                assert(u[j] == d);
            }
        }
        assert(t[t.len() - 1] == x);
        match prev {
            None => {
                Some(x)
            },
            Some(c) => {
                let j = choose|j: int| 0 <= j < u.len() && u[j] == c;
                assert(t[j] == c);
                let cx = crate::tally::active_count(v, a, x);
                let cc = crate::tally::active_count(v, a, c);
                if x == c {
                    Some(c)
                } else if cx < cc {
                    Some(x)
                } else if cx == cc && (name_lt(nm[c as int], nm[x as int]) || (nm[c as int] == nm[x as int] && c < x)) {
                    assert forall|d: CandidateId|
                        #[trigger] t.contains(d) && d != x && crate::tally::active_count(v, a, d) == cx
                        implies name_lt(nm[d as int], nm[x as int]) || (nm[d as int] == nm[x as int] && d < x) by {
                        if d != c {
                            assert(u.contains(d));
                            if name_lt(nm[d as int], nm[c as int]) && name_lt(nm[c as int], nm[x as int]) {
                                lemma_name_lt_transitive(nm[d as int], nm[c as int], nm[x as int]);
                            }
                        }
                    }
                    Some(x)
                } else {
                    if cx == cc && nm[c as int] != nm[x as int] {
                        lemma_name_lt_total(nm[c as int], nm[x as int]);
                    }
                    Some(c)
                }
            },
        }
    }
}

/// The runoff among a non-empty group `s`, with `out` already eliminated and outside `s`,
/// ranks every candidate exactly once.
pub proof fn lemma_runoff_is_ranking(e: &Election, s: Seq<CandidateId>, out: Seq<CandidateId>)
    requires
        e.n() <= usize::MAX,
        s.len() > 0,
        s.no_duplicates(),
        forall|i: int| 0 <= i < s.len() ==> #[trigger] s[i] < e.n(),
        out.no_duplicates(),
        forall|i: int| 0 <= i < out.len() ==> #[trigger] out[i] < e.n(),
        forall|c: CandidateId| #[trigger] s.contains(c) ==> !out.contains(c),
    ensures
        crate::tally::is_ranking(runoff(e, s, out), e.n()),
    decreases s.len(),
{
    let v = e.votes();
    let n = e.n();
    if exists|w: CandidateId| beats_all_in(v, s, w) {
        let w = choose|w: CandidateId| beats_all_in(v, s, w);
        let j = choose|j: int| 0 <= j < s.len() && s[j] == w;
        lemma_finish_is_ranking(n, w, out);
    } else {
        if s.len() == 1 {
            assert(beats_all_in(v, s, s[0])) by {
                assert(s.contains(s[0]));
                assert forall|j: CandidateId| #[trigger] s.contains(j) && j != s[0] implies duel_win(v, s[0], j) by {
                    let k = choose|k: int| 0 <= k < s.len() && s[k] == j;
                }
            }
        }
        let mo = lemma_runoff_min(e, s, s);
        let m = mo.unwrap();
        assert(is_runoff_loser(e, s, m));
        let l = choose|c: CandidateId| is_runoff_loser(e, s, c);
        let nm = e.names();
        if l != m {
            lemma_name_lt_irreflexive(nm[m as int]);
            if name_lt(nm[l as int], nm[m as int]) && name_lt(nm[m as int], nm[l as int]) {
                lemma_name_lt_transitive(nm[m as int], nm[l as int], nm[m as int]);
            }
        }
        lemma_without(s, l);
        let s2 = without(s, l);
        let out2 = out.push(l);
        crate::tally::lemma_push_distinct(out, l);
        let jl = choose|j: int| 0 <= j < s.len() && s[j] == l;
        assert forall|i: int| 0 <= i < s2.len() implies #[trigger] s2[i] < n by {
            assert(s2.contains(s2[i]));
            let k = choose|k: int| 0 <= k < s.len() && s[k] == s2[i];
        }
        assert forall|i: int| 0 <= i < out2.len() implies #[trigger] out2[i] < n by {
            if i < out.len() {
                assert(out2[i] == out[i]);
            }
        }
        assert forall|c: CandidateId| #[trigger] s2.contains(c) implies !out2.contains(c) by {
            if out2.contains(c) {
                let k = choose|k: int| 0 <= k < out2.len() && out2[k] == c;
                if k < out.len() {
                    assert(out.contains(c));
                }
            }
        }
        if s2.len() == 1 {
            assert(s2.contains(s2[0]));
            lemma_finish_is_ranking(n, s2[0], out2);
        } else {
            assert(s2.no_duplicates()) by {
                assert forall|i: int, j: int| 0 <= i < s2.len() && 0 <= j < s2.len() && i != j implies s2[i] != s2[j] by {
                    lemma_without_distinct(s, l);
                }
            }
            lemma_runoff_is_ranking(e, s2, out2);
        }
    }
}

/// Removing a candidate keeps a sequence free of repeats.
pub proof fn lemma_without_distinct(s: Seq<CandidateId>, x: CandidateId)
    requires
        s.no_duplicates(),
    ensures
        without(s, x).no_duplicates(),
    decreases s.len(),
{
    if s.len() > 0 {
        let t = s.drop_last();
        assert(t.no_duplicates()) by {
            assert forall|i: int, j: int| 0 <= i < t.len() && 0 <= j < t.len() && i != j implies t[i] != t[j] by {
                assert(t[i] == s[i] && t[j] == s[j]);
            }
        }
        lemma_without_distinct(t, x);
        lemma_without(t, x);
        if s.last() != x {
            assert(!t.contains(s.last())) by {
                if t.contains(s.last()) {
                    let k = choose|k: int| 0 <= k < t.len() && t[k] == s.last();
                    assert(s[k] == s[s.len() - 1]);
                }
            }
            crate::tally::lemma_push_distinct(without(t, x), s.last());
        }
    }
}

/// The Smith+IRV ranking ranks every candidate exactly once.
pub proof fn lemma_smith_irv_is_ranking(e: &Election)
    requires
        e.wf(),
    ensures
        crate::tally::is_ranking(smith_irv_ranking(e), e.n()),
{
    let smith = smith_members(e);
    lemma_smith_members(e);
    assert(smith.no_duplicates()) by {
        assert forall|i: int, j: int| 0 <= i < smith.len() && 0 <= j < smith.len() && i != j implies smith[i] != smith[j] by {
            if i < j {
                assert(smith[i] < smith[j]);
            } else {
                assert(smith[j] < smith[i]);
            }
        }
    }
    lemma_runoff_is_ranking(e, smith, Seq::empty());
}


/// A candidate below `k` with the highest net duel score among those below `k`.
pub proof fn lemma_best_net_below(e: &Election, k: nat) -> (c: CandidateId)
    requires
        0 < k <= e.n(),
        e.n() <= usize::MAX,
    ensures
        c < k,
        forall|j: CandidateId| j < k ==> #[trigger] net_score(e, j) <= net_score(e, c),
    decreases k,
{
    if k == 1 {
        0
    } else {
        let p = lemma_best_net_below(e, (k - 1) as nat);
        let x = (k - 1) as usize;
        if net_score(e, x) > net_score(e, p) {
            x
        } else {
            p
        }
    }
}

/// The Smith set below `k` lists its members below `k` in increasing order.
pub proof fn lemma_smith_below(e: &Election, k: nat)
    requires
        k <= e.n(),
        e.n() <= usize::MAX,
    ensures
        forall|i: int, j: int| 0 <= i < j < smith_below(e, k).len() ==> #[trigger] smith_below(e, k)[i] < #[trigger] smith_below(e, k)[j],
        forall|i: int| 0 <= i < smith_below(e, k).len() ==> #[trigger] smith_below(e, k)[i] < k,
        forall|c: CandidateId| #[trigger] smith_below(e, k).contains(c) <==> c < k && in_smith(e, c),
    decreases k,
{
    if k > 0 {
        lemma_smith_below(e, (k - 1) as nat);
        let prev = smith_below(e, (k - 1) as nat);
        let cur = smith_below(e, k);
        let x = (k - 1) as usize;
        if in_smith(e, x) {
            assert(cur =~= prev.push(x));
            assert forall|c: CandidateId| #[trigger] cur.contains(c) <==> c < k && in_smith(e, c) by {
                if c == x {
                    assert(cur[cur.len() - 1] == x);
                } else {
                    if cur.contains(c) {
                        let j = choose|j: int| 0 <= j < cur.len() && cur[j] == c;
                        assert(j < prev.len());
                        assert(prev[j] == c);
                        assert(prev.contains(c));
                    }
                    if prev.contains(c) {
                        let j = choose|j: int| 0 <= j < prev.len() && prev[j] == c;
                        assert(cur[j] == c);
                    }
                }
            }
        } else {
            assert(cur =~= prev);
        }
    }
}

/// The Smith set is not empty, and `smith_members` lists exactly its members, in
/// increasing order.
pub proof fn lemma_smith_members(e: &Election)
    requires
        e.wf(),
    ensures
        smith_members(e).len() > 0,
        forall|i: int, j: int| 0 <= i < j < smith_members(e).len() ==> #[trigger] smith_members(e)[i] < #[trigger] smith_members(e)[j],
        forall|i: int| 0 <= i < smith_members(e).len() ==> #[trigger] smith_members(e)[i] < e.n(),
        forall|c: CandidateId| #[trigger] smith_members(e).contains(c) <==> in_smith(e, c),
{
    lemma_smith_below(e, e.n());
    let c = lemma_best_net_below(e, e.n());
    assert(net_leader(e, c));
    lemma_smith_has_leaders(e, c);
    assert(smith_members(e).contains(c));
}

/// A round of the Smith+IRV runoff: when no candidate of the group `s` beats all the
/// others, the candidate eliminated is one of `s` with the fewest ballots counting for it
/// (each ballot counts for its first candidate in `s`), of those tied the one whose name
/// comes last in dictionary order (the greatest index among equal names); the runoff goes
/// on without it, and ends when one candidate is left.
pub proof fn lemma_runoff_round(e: &Election, s: Seq<CandidateId>, out: Seq<CandidateId>)
    requires
        s.len() >= 2,
        s.no_duplicates(),
        !exists|w: CandidateId| beats_all_in(e.votes(), s, w),
    ensures
        exists|l: CandidateId| #![trigger without(s, l)] {
            let a = flags_of(e.n(), s);
            let v = e.votes();
            let nm = e.names();
            &&& s.contains(l)
            &&& forall|d: CandidateId| #[trigger] s.contains(d) ==> crate::tally::active_count(v, a, l) <= crate::tally::active_count(v, a, d)
            &&& forall|d: CandidateId|
                #[trigger] s.contains(d) && d != l && crate::tally::active_count(v, a, d) == crate::tally::active_count(v, a, l)
                    ==> name_lt(nm[d as int], nm[l as int]) || (nm[d as int] == nm[l as int] && d < l)
            &&& runoff(e, s, out) == if without(s, l).len() == 1 {
                finish(e.n(), without(s, l)[0], out.push(l))
            } else {
                runoff(e, without(s, l), out.push(l))
            }
        },
{
    let r = lemma_runoff_min(e, s, s);
    assert(s.contains(s[0]));
    let m = r->Some_0;
    assert(is_runoff_loser(e, s, m));
    let l = choose|c: CandidateId| is_runoff_loser(e, s, c);
    assert(is_runoff_loser(e, s, l));
    lemma_without(s, l);
    assert(without(s, l).len() < s.len());
}

} // verus!
