use vstd::prelude::*;
use crate::order::{name_less, name_lt, lemma_name_lt_irreflexive, lemma_name_lt_total, lemma_name_lt_transitive};
use crate::tally::{lemma_index_of_unique, lemma_missing_candidate, lemma_product_fits, lemma_take_step, lemma_valid_ballot_len, pref_count};
use crate::types::{CandidateId, Election, VoteResult, valid_ballot};
use crate::vote::VotingAlgorithm;
use crate::vote::irv::still_in;

verus! {

/// Baldwin's method: in each round the Borda count is taken over the candidates still in
/// the race (on a ballot naming `m` of them, the first gets `m` points, the next `m - 1`,
/// and so on), and the candidate with the lowest total is eliminated (of those tied, the
/// one whose name comes last). The ranking is the reverse order of elimination.
pub struct Baldwin;

/// How many entries of `s` are still in the race.
pub open spec fn count_in(s: Seq<CandidateId>, active: Seq<bool>) -> nat
    decreases s.len(),
{
    if s.len() == 0 {
        0
    } else {
        count_in(s.drop_last(), active) + if active[s.last() as int] { 1nat } else { 0nat }
    }
}

/// Baldwin points of `c` on ballot `b`: for a candidate still in the race, the number of
/// candidates still in the race that the ballot names at or after it.
pub open spec fn baldwin_points(b: Seq<CandidateId>, active: Seq<bool>, c: CandidateId) -> int {
    if active[c as int] && b.contains(c) {
        count_in(b, active) - count_in(b.take(b.index_of(c)), active)
    } else {
        0
    }
}

/// The total Baldwin points of `c`.
pub open spec fn baldwin_score(v: Seq<Seq<CandidateId>>, active: Seq<bool>, c: CandidateId) -> int
    decreases v.len(),
{
    if v.len() == 0 {
        0
    } else {
        baldwin_score(v.drop_last(), active, c) + baldwin_points(v.last(), active, c)
    }
}

/// `c` is the candidate Baldwin eliminates next: in the race, with the lowest total, and
/// of those tied the one whose name comes last (the smallest index among equal names).
pub open spec fn is_baldwin_loser(e: &Election, out: Seq<CandidateId>, c: CandidateId) -> bool {
    let a = still_in(e.n(), out);
    let v = e.votes();
    let nm = e.names();
    &&& c < e.n()
    &&& a[c as int]
    &&& forall|d: CandidateId|
        d < e.n() && #[trigger] a[d as int] ==> baldwin_score(v, a, c) <= baldwin_score(v, a, d)
    &&& forall|d: CandidateId|
        d < e.n() && #[trigger] a[d as int] && d != c && baldwin_score(v, a, d) == baldwin_score(v, a, c)
            ==> name_lt(nm[d as int], nm[c as int]) || (nm[d as int] == nm[c as int] && c < d)
}

/// The candidate Baldwin eliminates once `out` are eliminated.
pub open spec fn baldwin_loser(e: &Election, out: Seq<CandidateId>) -> CandidateId {
    choose|c: CandidateId| is_baldwin_loser(e, out, c)
}

/// The first `k` candidates Baldwin eliminates, in order.
pub open spec fn baldwin_out(e: &Election, k: nat) -> Seq<CandidateId>
    decreases k,
{
    if k == 0 {
        Seq::empty()
    } else {
        let out = baldwin_out(e, (k - 1) as nat);
        out.push(baldwin_loser(e, out))
    }
}

/// The Baldwin ranking: the candidates in reverse order of elimination.
pub open spec fn baldwin_ranking(e: &Election) -> Seq<CandidateId> {
    baldwin_out(e, e.n()).reverse()
}

/// At most one candidate is the next to be eliminated.
pub proof fn lemma_baldwin_loser_unique(e: &Election, out: Seq<CandidateId>, c: CandidateId)
    requires
        is_baldwin_loser(e, out, c),
    ensures
        baldwin_loser(e, out) == c,
{
    let d = baldwin_loser(e, out);
    assert(is_baldwin_loser(e, out, d));
    let a = still_in(e.n(), out);
    let nm = e.names();
    assert(a[d as int]);
    assert(a[c as int]);
    if d != c {
        lemma_name_lt_irreflexive(nm[c as int]);
        if name_lt(nm[d as int], nm[c as int]) && name_lt(nm[c as int], nm[d as int]) {
            lemma_name_lt_transitive(nm[c as int], nm[d as int], nm[c as int]);
        }
    }
}

/// Whether a candidate is still in the race.
pub open spec fn racing(active: Seq<bool>) -> spec_fn(CandidateId) -> bool {
    |x: CandidateId| active[x as int]
}

/// `count_in` counts the entries still in the race.
pub proof fn lemma_count_in_filter(s: Seq<CandidateId>, active: Seq<bool>)
    ensures
        count_in(s, active) == s.filter(racing(active)).len(),
    decreases s.len(),
{
    let p = racing(active);
    reveal(Seq::filter);
    if s.len() > 0 {
        lemma_count_in_filter(s.drop_last(), active);
        let sub = s.drop_last().filter(p);
        assert(s.filter(p) == if p(s.last()) { sub.push(s.last()) } else { sub });
    }
}

/// Entries in the race add up over two sequences.
pub proof fn lemma_count_in_concat(s1: Seq<CandidateId>, s2: Seq<CandidateId>, active: Seq<bool>)
    ensures
        count_in(s1 + s2, active) == count_in(s1, active) + count_in(s2, active),
    decreases s2.len(),
{
    if s2.len() == 0 {
        assert(s1 + s2 =~= s1);
    } else {
        lemma_count_in_concat(s1, s2.drop_last(), active);
        assert((s1 + s2).drop_last() =~= s1 + s2.drop_last());
        assert((s1 + s2).last() == s2.last());
    }
}

/// On a ballot without repeats, a candidate in the race at place `k` gets one Baldwin
/// point for each candidate in the race named at place `k` or later (itself included); a
/// candidate out of the race, or not named, gets none.
pub proof fn lemma_baldwin_points_by_place(b: Seq<CandidateId>, active: Seq<bool>, k: int, c: CandidateId)
    requires
        b.no_duplicates(),
        0 <= k < b.len(),
    ensures
        active[b[k] as int] ==> baldwin_points(b, active, b[k]) == b.skip(k).filter(racing(active)).len(),
        !active[c as int] || !b.contains(c) ==> baldwin_points(b, active, c) == 0,
{
    lemma_index_of_unique(b, k);
    assert(b =~= b.take(k) + b.skip(k));
    lemma_count_in_concat(b.take(k), b.skip(k), active);
    lemma_count_in_filter(b.skip(k), active);
}

/// Baldwin totals add up over two lists of ballots, and over one ballot are its points.
pub proof fn lemma_baldwin_score_adds(v1: Seq<Seq<CandidateId>>, v2: Seq<Seq<CandidateId>>, active: Seq<bool>, c: CandidateId, b: Seq<CandidateId>)
    ensures
        baldwin_score(v1 + v2, active, c) == baldwin_score(v1, active, c) + baldwin_score(v2, active, c),
        baldwin_score(seq![b], active, c) == baldwin_points(b, active, c),
    decreases v2.len(),
{
    let one = seq![b];
    assert(one.drop_last() =~= Seq::<Seq<CandidateId>>::empty());
    assert(one.last() == b);
    assert(baldwin_score(one.drop_last(), active, c) == 0);
    if v2.len() == 0 {
        assert(v1 + v2 =~= v1);
    } else {
        lemma_baldwin_score_adds(v1, v2.drop_last(), active, c, b);
        assert((v1 + v2).drop_last() =~= v1 + v2.drop_last());
        assert((v1 + v2).last() == v2.last());
    }
}

/// Counting the candidates still in the race over a longer prefix gives no fewer.
pub proof fn lemma_count_in_prefix(s: Seq<CandidateId>, active: Seq<bool>, j: int, k: int)
    requires
        0 <= j <= k <= s.len(),
    ensures
        count_in(s.take(j), active) <= count_in(s.take(k), active),
        count_in(s.take(k), active) <= k,
    decreases k,
{
    if k > 0 {
        assert(s.take(k).drop_last() =~= s.take(k - 1));
        if j < k {
            lemma_count_in_prefix(s, active, j, k - 1);
        } else {
            lemma_count_in_prefix(s, active, k - 1, k - 1);
        }
    }
}

/// Baldwin totals stay between 0 and `n` points per ballot.
pub proof fn lemma_baldwin_score_bound(v: Seq<Seq<CandidateId>>, active: Seq<bool>, c: CandidateId, n: nat)
    requires
        n <= usize::MAX,
        forall|i: int| 0 <= i < v.len() ==> valid_ballot(#[trigger] v[i], n),
    ensures
        0 <= baldwin_score(v, active, c) <= v.len() * n,
    decreases v.len(),
{
    if v.len() > 0 {
        let b = v.last();
        assert(valid_ballot(v[v.len() - 1], n));
        lemma_valid_ballot_len(b, n);
        if active[c as int] && b.contains(c) {
            let j = choose|j: int| 0 <= j < b.len() && b[j] == c;
            lemma_index_of_unique(b, j);
            lemma_count_in_prefix(b, active, j, b.len() as int);
            assert(b.take(b.len() as int) =~= b);
        }
        assert forall|i: int| 0 <= i < v.drop_last().len() implies valid_ballot(#[trigger] v.drop_last()[i], n) by {
            assert(v.drop_last()[i] == v[i]);
        }
        lemma_baldwin_score_bound(v.drop_last(), active, c, n);
        assert((v.len() - 1) * n + n == v.len() * n) by (nonlinear_arith);
    }
}

/// Each candidate's Baldwin total over the candidates still in the race.
pub fn baldwin_scores(e: &Election, active: &Vec<bool>) -> (r: Vec<u128>)
    requires
        e.wf(),
        active@.len() == e.n(),
    ensures
        r@.len() == e.n(),
        forall|c: int| 0 <= c < e.n() ==> #[trigger] r@[c] == baldwin_score(e.votes(), active@, c as usize),
{
    let n = e.candidates.len();
    let ghost v = e.votes();
    let ghost a = active@;
    let mut r: Vec<u128> = Vec::new();
    let mut c: usize = 0;
    while c < n
        invariant
            c <= n,
            r@.len() == c,
            forall|d: int| 0 <= d < c ==> #[trigger] r@[d] == 0,
        decreases n - c,
    {
        r.push(0);
        c = c + 1;
    }
    let nb = e.ballots.len();
    let mut k: usize = 0;
    while k < nb
        invariant
            e.wf(),
            n == e.n(),
            a == active@,
            a.len() == n,
            v == e.votes(),
            v.len() == nb,
            k <= nb,
            r@.len() == n,
            forall|c: int| 0 <= c < n ==> #[trigger] r@[c] == baldwin_score(v.take(k as int), a, c as usize),
        decreases nb - k,
    {
        let b = &e.ballots[k].ranking;
        let ghost w = v.take(k as int);
        let ghost base = r@;
        proof {
            assert(v[k as int] == b@);
            assert(valid_ballot(v[k as int], e.n()));
            lemma_take_step(v, k as int);
            lemma_valid_ballot_len(b@, n as nat);
        }
        let mut m: usize = 0;
        let mut i: usize = 0;
        while i < b.len()
            invariant
                valid_ballot(b@, n as nat),
                a == active@,
                a.len() == n,
                i <= b@.len(),
                m == count_in(b@.take(i as int), a),
            decreases b@.len() - i,
        {
            proof {
                assert(b@.take(i + 1).drop_last() =~= b@.take(i as int));
                lemma_count_in_prefix(b@, a, i as int, i + 1);
            }
            if active[b[i]] {
                m = m + 1;
            }
            i = i + 1;
        }
        proof {
            assert(b@.take(b@.len() as int) =~= b@);
        }
        let mut pts: usize = m;
        let mut p: usize = 0;
        while p < b.len()
            invariant
                e.wf(),
                v == e.votes(),
                v.len() == nb,
                n == e.n(),
                valid_ballot(b@, n as nat),
                b@.len() <= n,
                a == active@,
                a.len() == n,
                k < nb,
                w == v.take(k as int),
                m == count_in(b@, a),
                p <= b@.len(),
                pts == m - count_in(b@.take(p as int), a),
                r@.len() == n,
                base.len() == n,
                forall|c: int| 0 <= c < n ==> #[trigger] base[c] == baldwin_score(w, a, c as usize),
                forall|c: int| 0 <= c < n ==> #[trigger] r@[c] == base[c] + if a[c] && b@.take(p as int).contains(c as usize) {
                    m - count_in(b@.take(b@.index_of(c as usize)), a)
                } else {
                    0
                },
            decreases b@.len() - p,
        {
            let x = b[p];
            proof {
                lemma_index_of_unique(b@, p as int);
                assert(b@.take(p + 1).drop_last() =~= b@.take(p as int));
                lemma_count_in_prefix(b@, a, p + 1, b@.len() as int);
                assert(b@.take(b@.len() as int) =~= b@);
                if b@.take(p as int).contains(x) {
                    let q = choose|q: int| 0 <= q < p && b@.take(p as int)[q] == x;
                    assert(b@[q] == b@[p as int]);
                }
            }
            if active[x] {
                proof {
                    assert forall|i: int| 0 <= i < w.len() implies valid_ballot(#[trigger] w[i], n as nat) by {
                        assert(w[i] == v[i]);
                    }
                    lemma_baldwin_score_bound(w, a, x, n as nat);
                    assert((k as int) * (n as int) + n == (k + 1) * (n as int)) by (nonlinear_arith);
                    lemma_product_fits(k + 1, n as int);
                }
                r.set(x, r[x] + pts as u128);
                pts = pts - 1;
            }
            proof {
                assert forall|c: int| 0 <= c < n implies #[trigger] r@[c] == base[c] + if a[c] && b@.take(p + 1).contains(c as usize) {
                    m - count_in(b@.take(b@.index_of(c as usize)), a)
                } else {
                    0
                } by {
                    let s1 = b@.take(p + 1);
                    let s0 = b@.take(p as int);
                    let cu = c as usize;
                    if cu == x {
                        assert(s1[p as int] == x);
                    } else {
                        if s1.contains(cu) {
                            let q = choose|q: int| 0 <= q < s1.len() && s1[q] == cu;
                            assert(s0[q] == cu);
                        }
                        if s0.contains(cu) {
                            let q = choose|q: int| 0 <= q < s0.len() && s0[q] == cu;
                            assert(s1[q] == cu);
                        }
                    }
                }
            }
            p = p + 1;
        }
        proof {
            assert(b@.take(b@.len() as int) =~= b@);
            assert forall|c: int| 0 <= c < n implies #[trigger] r@[c] == baldwin_score(v.take(k + 1), a, c as usize) by {
                assert(v.take(k + 1).last() == b@);
            }
        }
        k = k + 1;
    }
    proof {
        assert(v.take(nb as int) =~= v);
    }
    r
}

/// The candidate to eliminate, found the way the count goes: over the candidates in index
/// order, keep the one with the lowest total, replacing it on a tie only by a name that
/// comes later.
pub fn pick_baldwin_loser(scores: &Vec<u128>, active: &Vec<bool>, names: &Vec<Vec<char>>, n: usize) -> (r: Option<CandidateId>)
    requires
        scores@.len() == n,
        active@.len() == n,
        names@.len() == n,
    ensures
        match r {
            Some(c) => {
                &&& c < n
                &&& active@[c as int]
                &&& forall|d: CandidateId| d < n && #[trigger] active@[d as int] ==> scores@[c as int] <= scores@[d as int]
                &&& forall|d: CandidateId|
                    d < n && #[trigger] active@[d as int] && d != c && scores@[d as int] == scores@[c as int]
                        ==> name_lt(names@[d as int]@, names@[c as int]@) || (names@[d as int]@ == names@[c as int]@ && c < d)
            },
            None => forall|d: int| 0 <= d < n ==> !#[trigger] active@[d],
        },
{
    let mut cand: Option<CandidateId> = None;
    let mut c: usize = 0;
    while c < n
        invariant
            scores@.len() == n,
            active@.len() == n,
            names@.len() == n,
            c <= n,
            match cand {
                Some(l) => {
                    &&& l < c
                    &&& active@[l as int]
                    &&& forall|d: CandidateId| d < c && #[trigger] active@[d as int] ==> scores@[l as int] <= scores@[d as int]
                    &&& forall|d: CandidateId|
                        d < c && #[trigger] active@[d as int] && d != l && scores@[d as int] == scores@[l as int]
                            ==> name_lt(names@[d as int]@, names@[l as int]@) || (names@[d as int]@ == names@[l as int]@ && l < d)
                },
                None => forall|d: int| 0 <= d < c ==> !#[trigger] active@[d],
            },
        decreases n - c,
    {
        if active[c] {
            match cand {
                None => {
                    cand = Some(c);
                },
                Some(l) => {
                    if scores[c] < scores[l] {
                        proof {
                            assert forall|d: CandidateId| d < c + 1 && #[trigger] active@[d as int] && d != c
                                implies scores@[d as int] != scores@[c as int] by {}
                        }
                        cand = Some(c);
                    } else if scores[c] == scores[l] && name_less(&names[l], &names[c]) {
                        proof {
                            assert forall|d: CandidateId|
                                d < c + 1 && #[trigger] active@[d as int] && d != c && scores@[d as int] == scores@[c as int]
                                implies name_lt(names@[d as int]@, names@[c as int]@) || (names@[d as int]@ == names@[c as int]@ && c < d) by {
                                if d != l {
                                    if name_lt(names@[d as int]@, names@[l as int]@) {
                                        lemma_name_lt_transitive(names@[d as int]@, names@[l as int]@, names@[c as int]@);
                                    }
                                }
                            }
                        }
                        cand = Some(c);
                    } else {
                        proof {
                            if scores@[c as int] == scores@[l as int] {
                                if names@[c as int]@ != names@[l as int]@ {
                                    lemma_name_lt_total(names@[c as int]@, names@[l as int]@);
                                }
                            }
                        }
                    }
                },
            }
        }
        c = c + 1;
    }
    cand
}

impl VotingAlgorithm for Baldwin {
    fn name(&self) -> (r: String)
        ensures
            r@ == "Baldwin"@,
    {
        "Baldwin".to_string()
    }

    fn compute(&self, election: &Election) -> (r: VoteResult)
        ensures
            r.ranking@ == baldwin_ranking(election),
    {
        let e = election;
        let n = e.candidates.len();
        let names = e.name_table();
        let mut active: Vec<bool> = Vec::new();
        let mut c: usize = 0;
        while c < n
            invariant
                c <= n,
                active@.len() == c,
                forall|d: int| 0 <= d < c ==> #[trigger] active@[d],
            decreases n - c,
        {
            active.push(true);
            c = c + 1;
        }
        let mut order: Vec<CandidateId> = Vec::new();
        proof {
            assert(active@ =~= still_in(n as nat, order@));
        }
        let mut round: usize = 0;
        while round < n
            invariant
                e.wf(),
                n == e.n(),
                names@.len() == n,
                names@.map_values(|v: Vec<char>| v@) == e.names(),
                round <= n,
                order@ == baldwin_out(e, round as nat),
                order@.len() == round,
                active@ == still_in(n as nat, order@),
            decreases n - round,
        {
            let scores = baldwin_scores(e, &active);
            let picked = pick_baldwin_loser(&scores, &active, &names, n);
            proof {
                let m = lemma_missing_candidate(order@, n as nat);
                assert(active@[m as int]);
            }
            match picked {
                Some(loser) => {
                    proof {
                        let nm = e.names();
                        assert forall|d: int| 0 <= d < n implies #[trigger] nm[d] == names@[d]@ by {
                            assert(names@.map_values(|v: Vec<char>| v@)[d] == names@[d]@);
                        }
                        assert(is_baldwin_loser(e, order@, loser));
                        lemma_baldwin_loser_unique(e, order@, loser);
                    }
                    let ghost old_order = order@;
                    active.set(loser, false);
                    order.push(loser);
                    proof {
                        assert(active@ =~= still_in(n as nat, order@)) by {
                            assert forall|d: int| 0 <= d < n implies active@[d] == !order@.contains(d as usize) by {
                                if d as usize != loser {
                                    if order@.contains(d as usize) {
                                        let j = choose|j: int| 0 <= j < order@.len() && order@[j] == d as usize;
                                        assert(old_order[j] == d as usize);
                                    }
                                    if old_order.contains(d as usize) {
                                        let j = choose|j: int| 0 <= j < old_order.len() && old_order[j] == d as usize;
                                        assert(order@[j] == d as usize);
                                    }
                                } else {
                                    assert(order@[order@.len() - 1] == loser);
                                }
                            }
                        }
                    }
                },
                None => {
                    proof {
                        assert(false);
                    }
                },
            }
            round = round + 1;
        }
        let ghost out = order@;
        let mut ranking: Vec<CandidateId> = Vec::new();
        let mut i: usize = order.len();
        while i > 0
            invariant
                i <= order@.len(),
                order@ == out,
                ranking@ == out.subrange(i as int, out.len() as int).reverse(),
            decreases i,
        {
            i = i - 1;
            ranking.push(order[i]);
            proof {
                assert(ranking@ =~= out.subrange(i as int, out.len() as int).reverse());
            }
        }
        proof {
            assert(out.subrange(0, out.len() as int) =~= out);
        }
        VoteResult { ranking }
    }
}


/// Among the candidates below `k` still in the race, the one Baldwin would eliminate
/// first: lowest total, then the name that comes last, then the smallest index.
pub proof fn lemma_baldwin_min_below(e: &Election, out: Seq<CandidateId>, k: nat) -> (r: Option<CandidateId>)
    requires
        k <= e.n(),
        e.n() <= usize::MAX,
    ensures
        match r {
            Some(c) => {
                let a = still_in(e.n(), out);
                let v = e.votes();
                let nm = e.names();
                &&& c < k
                &&& a[c as int]
                &&& forall|d: CandidateId| d < k && #[trigger] a[d as int] ==> baldwin_score(v, a, c) <= baldwin_score(v, a, d)
                &&& forall|d: CandidateId|
                    d < k && #[trigger] a[d as int] && d != c && baldwin_score(v, a, d) == baldwin_score(v, a, c)
                        ==> name_lt(nm[d as int], nm[c as int]) || (nm[d as int] == nm[c as int] && c < d)
            },
            None => forall|d: CandidateId| d < k ==> !#[trigger] still_in(e.n(), out)[d as int],
        },
    decreases k,
{
    if k == 0 {
        None
    } else {
        let a = still_in(e.n(), out);
        let v = e.votes();
        let nm = e.names();
        let x = (k - 1) as usize;
        let prev = lemma_baldwin_min_below(e, out, (k - 1) as nat);
        if !a[x as int] {
            prev
        } else {
            match prev {
                None => Some(x),
                Some(c) => {
                    if baldwin_score(v, a, x) < baldwin_score(v, a, c) {
                        Some(x)
                    } else if baldwin_score(v, a, x) == baldwin_score(v, a, c) && name_lt(nm[c as int], nm[x as int]) {
                        assert forall|d: CandidateId|
                            d < k && #[trigger] a[d as int] && d != x && baldwin_score(v, a, d) == baldwin_score(v, a, x)
                            implies name_lt(nm[d as int], nm[x as int]) || (nm[d as int] == nm[x as int] && x < d) by {
                            if d != c && name_lt(nm[d as int], nm[c as int]) {
                                lemma_name_lt_transitive(nm[d as int], nm[c as int], nm[x as int]);
                            }
                        }
                        Some(x)
                    } else {
                        if nm[c as int] != nm[x as int] {
                            lemma_name_lt_total(nm[c as int], nm[x as int]);
                        }
                        Some(c)
                    }
                },
            }
        }
    }
}

/// The first `k` eliminations are `k` distinct candidates.
pub proof fn lemma_baldwin_out(e: &Election, k: nat)
    requires
        e.wf(),
        k <= e.n(),
    ensures
        baldwin_out(e, k).len() == k,
        baldwin_out(e, k).no_duplicates(),
        forall|i: int| 0 <= i < k ==> #[trigger] baldwin_out(e, k)[i] < e.n(),
    decreases k,
{
    if k > 0 {
        let prev = baldwin_out(e, (k - 1) as nat);
        lemma_baldwin_out(e, (k - 1) as nat);
        let m = crate::tally::lemma_missing_candidate(prev, e.n());
        assert(still_in(e.n(), prev)[m as int]);
        let r = lemma_baldwin_min_below(e, prev, e.n());
        let l = r.unwrap();
        assert(is_baldwin_loser(e, prev, l));
        lemma_baldwin_loser_unique(e, prev, l);
        crate::tally::lemma_push_distinct(prev, l);
    }
}

/// The Baldwin ranking ranks every candidate exactly once.
pub proof fn lemma_baldwin_is_ranking(e: &Election)
    requires
        e.wf(),
    ensures
        crate::tally::is_ranking(baldwin_ranking(e), e.n()),
{
    let out = baldwin_out(e, e.n());
    lemma_baldwin_out(e, e.n());
    let r = out.reverse();
    assert forall|i: int| 0 <= i < r.len() implies #[trigger] r[i] < e.n() by {
        assert(r[i] == out[out.len() - 1 - i]);
    }
    assert(r.no_duplicates()) by {
        assert forall|i: int, j: int| 0 <= i < r.len() && 0 <= j < r.len() && i != j implies r[i] != r[j] by {
            assert(r[i] == out[out.len() - 1 - i]);
            assert(r[j] == out[out.len() - 1 - j]);
        }
    }
    crate::tally::lemma_full_ranking(r, e.n());
}

/// The sum of `f` over the candidates below `k`.
pub open spec fn sum_below(f: spec_fn(CandidateId) -> int, k: nat) -> int
    decreases k,
{
    if k == 0 {
        0
    } else {
        sum_below(f, (k - 1) as nat) + f((k - 1) as usize)
    }
}

/// The sum of `f` over the entries of `s`.
pub open spec fn sum_over(f: spec_fn(CandidateId) -> int, s: Seq<CandidateId>) -> int
    decreases s.len(),
{
    if s.len() == 0 {
        0
    } else {
        sum_over(f, s.drop_last()) + f(s.last())
    }
}

/// Sums of functions that agree below `k` are equal; the sum of a pointwise sum is the
/// sum of the sums.
pub proof fn lemma_sum_below_add(f: spec_fn(CandidateId) -> int, g: spec_fn(CandidateId) -> int, h: spec_fn(CandidateId) -> int, k: nat)
    requires
        forall|x: CandidateId| x < k ==> #[trigger] h(x) == f(x) + g(x),
    ensures
        sum_below(h, k) == sum_below(f, k) + sum_below(g, k),
    decreases k,
{
    if k > 0 {
        lemma_sum_below_add(f, g, h, (k - 1) as nat);
        assert(h((k - 1) as usize) == f((k - 1) as usize) + g((k - 1) as usize));
    }
}

/// A function that is `c` at `w` and 0 elsewhere sums to `c` below `k` when `w < k`.
pub proof fn lemma_sum_below_single(f: spec_fn(CandidateId) -> int, w: CandidateId, c: int, k: nat)
    requires
        k <= usize::MAX,
        forall|x: CandidateId| x < k ==> #[trigger] f(x) == if x == w { c } else { 0 },
    ensures
        sum_below(f, k) == if w < k { c } else { 0 },
    decreases k,
{
    if k > 0 {
        lemma_sum_below_single(f, w, c, (k - 1) as nat);
        assert(f((k - 1) as usize) == if (k - 1) as usize == w { c } else { 0 });
    }
}

/// If `f` is at least `lo` times `g` below `k`, its sum is at least `lo` times that of `g`.
pub proof fn lemma_sum_below_scaled(f: spec_fn(CandidateId) -> int, g: spec_fn(CandidateId) -> int, lo: int, k: nat)
    requires
        forall|x: CandidateId| x < k ==> #[trigger] f(x) >= lo * g(x),
    ensures
        sum_below(f, k) >= lo * sum_below(g, k),
    decreases k,
{
    if k > 0 {
        let kk = (k - 1) as nat;
        lemma_sum_below_scaled(f, g, lo, kk);
        let x = (k - 1) as usize;
        assert(f(x) >= lo * g(x));
        assert(lo * sum_below(g, k) == lo * sum_below(g, kk) + lo * g(x)) by (nonlinear_arith)
            requires
                sum_below(g, k) == sum_below(g, kk) + g(x),
        ;
    }
}

/// A function with no negative value that is 1 at two candidates below `k` sums to at
/// least 2 below `k`.
pub proof fn lemma_sum_below_two(f: spec_fn(CandidateId) -> int, x: CandidateId, y: CandidateId, k: nat)
    requires
        k <= usize::MAX,
        x != y,
        x < k,
        y < k,
        f(x) == 1,
        f(y) == 1,
        forall|z: CandidateId| z < k ==> #[trigger] f(z) >= 0,
    ensures
        sum_below(f, k) >= 2,
    decreases k,
{
    let kk = (k - 1) as nat;
    let m = (k - 1) as usize;
    assert(f(m) >= 0);
    if m == x || m == y {
        let o = if m == x { y } else { x };
        lemma_sum_below_scaled(f, |z: CandidateId| if z == o { 1int } else { 0int }, 1, kk);
        lemma_sum_below_single(|z: CandidateId| if z == o { 1int } else { 0int }, o, 1, kk);
    } else {
        lemma_sum_below_two(f, x, y, kk);
    }
}

/// Over a sequence of distinct candidates below `n`, outside of which `f` is 0, the sum
/// over the sequence is the sum over the candidates below `n`.
pub proof fn lemma_sum_over_below(f: spec_fn(CandidateId) -> int, s: Seq<CandidateId>, n: nat)
    requires
        n <= usize::MAX,
        s.no_duplicates(),
        forall|i: int| 0 <= i < s.len() ==> #[trigger] s[i] < n,
        forall|x: CandidateId| x < n && !s.contains(x) ==> #[trigger] f(x) == 0,
    ensures
        sum_over(f, s) == sum_below(f, n),
    decreases s.len(),
{
    if s.len() == 0 {
        lemma_sum_below_single(f, 0, 0, n);
    } else {
        let y = s.last();
        let t = s.drop_last();
        let g = |x: CandidateId| if x == y { 0int } else { f(x) };
        assert(y < n) by {
            assert(s[s.len() - 1] == y);
        }
        assert(!t.contains(y)) by {
            if t.contains(y) {
                let j = choose|j: int| 0 <= j < t.len() && t[j] == y;
                assert(s[j] == s[s.len() - 1]);
            }
        }
        assert(t.no_duplicates()) by {
            assert forall|i: int, j: int| 0 <= i < t.len() && 0 <= j < t.len() && i != j implies t[i] != t[j] by {
                assert(t[i] == s[i] && t[j] == s[j]);
            }
        }
        assert forall|i: int| 0 <= i < t.len() implies #[trigger] t[i] < n by {
            assert(t[i] == s[i]);
        }
        assert forall|x: CandidateId| x < n && !t.contains(x) implies #[trigger] g(x) == 0 by {
            if x != y && s.contains(x) {
                let j = choose|j: int| 0 <= j < s.len() && s[j] == x;
                assert(t[j] == x);
            }
        }
        lemma_sum_over_below(g, t, n);
        lemma_sum_over_ext(f, g, t);
        let single = |x: CandidateId| if x == y { f(y) } else { 0int };
        lemma_sum_below_add(g, single, f, n);
        lemma_sum_below_single(single, y, f(y), n);
    }
}

/// Sums over a sequence of functions that agree on its entries are equal.
pub proof fn lemma_sum_over_ext(f: spec_fn(CandidateId) -> int, g: spec_fn(CandidateId) -> int, s: Seq<CandidateId>)
    requires
        forall|i: int| 0 <= i < s.len() ==> f(#[trigger] s[i]) == g(s[i]),
    ensures
        sum_over(f, s) == sum_over(g, s),
    decreases s.len(),
{
    if s.len() > 0 {
        let t = s.drop_last();
        assert forall|i: int| 0 <= i < t.len() implies f(#[trigger] t[i]) == g(t[i]) by {
            assert(t[i] == s[i]);
        }
        lemma_sum_over_ext(f, g, t);
        assert(f(s[s.len() - 1]) == g(s[s.len() - 1]));
    }
}

/// The Baldwin points on ballot `b`, as a function of the candidate.
pub open spec fn points_on(b: Seq<CandidateId>, active: Seq<bool>) -> spec_fn(CandidateId) -> int {
    |c: CandidateId| baldwin_points(b, active, c)
}

/// 1 for a candidate still in the race, 0 otherwise.
pub open spec fn in_race(active: Seq<bool>) -> spec_fn(CandidateId) -> int {
    |x: CandidateId| if active[x as int] { 1int } else { 0int }
}

/// A ballot that names every one of the `n` candidates.
pub open spec fn full_ballot(b: Seq<CandidateId>, n: nat) -> bool {
    &&& valid_ballot(b, n)
    &&& b.len() == n
}

/// Functions that agree below `k` have the same sum below `k`.
pub proof fn lemma_sum_below_ext(f: spec_fn(CandidateId) -> int, g: spec_fn(CandidateId) -> int, k: nat)
    requires
        k <= usize::MAX,
        forall|x: CandidateId| x < k ==> #[trigger] f(x) == g(x),
    ensures
        sum_below(f, k) == sum_below(g, k),
{
    let z = |x: CandidateId| 0int;
    lemma_sum_below_add(g, z, f, k);
    lemma_sum_below_single(z, 0, 0, k);
}

/// The candidates of `s` still in the race, counted as a sum.
pub proof fn lemma_count_in_sum(s: Seq<CandidateId>, active: Seq<bool>)
    ensures
        count_in(s, active) == sum_over(in_race(active), s),
    decreases s.len(),
{
    if s.len() > 0 {
        lemma_count_in_sum(s.drop_last(), active);
    }
}

/// Over the first `k` places of a ballot without repeats, with `m` of its candidates in
/// the race and `c` of them among those places, the Baldwin points add up to
/// `m * c - c * (c - 1) / 2` (stated doubled).
pub proof fn lemma_points_prefix(b: Seq<CandidateId>, active: Seq<bool>, k: int)
    requires
        b.no_duplicates(),
        0 <= k <= b.len(),
    ensures
        2 * sum_over(points_on(b, active), b.take(k))
            == 2 * count_in(b, active) * count_in(b.take(k), active)
            - count_in(b.take(k), active) * (count_in(b.take(k), active) - 1),
    decreases k,
{
    let f = points_on(b, active);
    if k == 0 {
        assert(b.take(0) =~= Seq::<CandidateId>::empty());
        assert(sum_over(f, b.take(0)) == 0);
        assert(count_in(b.take(0), active) == 0);
    } else {
        lemma_points_prefix(b, active, k - 1);
        let t = b.take(k);
        assert(t.drop_last() =~= b.take(k - 1));
        assert(t.last() == b[k - 1]);
        lemma_index_of_unique(b, k - 1);
        let m = count_in(b, active) as int;
        let c0 = count_in(b.take(k - 1), active) as int;
        let s0 = sum_over(f, b.take(k - 1));
        assert(2 * s0 == 2 * m * c0 - c0 * (c0 - 1));
        assert(sum_over(f, t) == s0 + f(b[k - 1]));
        assert(count_in(t, active) == c0 + if active[b[k - 1] as int] { 1int } else { 0int });
        assert(b.contains(b[k - 1]));
        assert(b.index_of(b[k - 1]) == k - 1);
        if active[b[k - 1] as int] {
            assert(baldwin_points(b, active, b[k - 1]) == m - c0);
            assert(f(b[k - 1]) == m - c0);
            assert(2 * (s0 + (m - c0)) == 2 * m * (c0 + 1) - (c0 + 1) * c0) by (nonlinear_arith)
                requires
                    2 * s0 == 2 * m * c0 - c0 * (c0 - 1),
            ;
        } else {
            assert(f(b[k - 1]) == 0);
        }
        let c1 = count_in(t, active) as int;
        let s1 = sum_over(f, t);
        assert(2 * s1 == 2 * m * c1 - c1 * (c1 - 1)) by (nonlinear_arith)
            requires
                2 * s0 == 2 * m * c0 - c0 * (c0 - 1),
                s1 == s0 + f(b[k - 1]),
                c1 == c0 + 1 && f(b[k - 1]) == m - c0 || c1 == c0 && f(b[k - 1]) == 0,
        ;
    }
}

/// On a valid ballot naming `m` candidates still in the race, the Baldwin points of all
/// candidates add up to `m * (m + 1) / 2` (stated doubled).
pub proof fn lemma_points_total(b: Seq<CandidateId>, active: Seq<bool>, n: nat)
    requires
        n <= usize::MAX,
        valid_ballot(b, n),
    ensures
        2 * sum_below(points_on(b, active), n)
            == count_in(b, active) * (count_in(b, active) + 1),
{
    let f = points_on(b, active);
    lemma_points_prefix(b, active, b.len() as int);
    assert(b.take(b.len() as int) =~= b);
    lemma_sum_over_below(f, b, n);
    let m = count_in(b, active) as int;
    assert(2 * m * m - m * (m - 1) == m * (m + 1)) by (nonlinear_arith);
}

/// On a ballot naming every candidate, the candidates in the race on it are all the
/// candidates in the race.
pub proof fn lemma_full_count_in(b: Seq<CandidateId>, active: Seq<bool>, n: nat)
    requires
        n <= usize::MAX,
        full_ballot(b, n),
    ensures
        count_in(b, active) == sum_below(in_race(active), n),
{
    lemma_count_in_sum(b, active);
    crate::tally::lemma_full_ranking(b, n);
    lemma_sum_over_below(in_race(active), b, n);
}

/// The Baldwin points of `w` on a ballot naming every candidate: 1, and 1 more for each
/// candidate in the race that the ballot ranks below `w`.
pub open spec fn points_of(b: Seq<CandidateId>, active: Seq<bool>, w: CandidateId) -> spec_fn(CandidateId) -> int {
    |x: CandidateId| if x == w { 1int } else if active[x as int] && crate::tally::prefers(b, w, x) { 1int } else { 0int }
}

/// Counting, over the first `k` places of `b`, the candidates in the race placed at `i`
/// or later: what is counted over those places from place `min(i, k)` on.
pub proof fn lemma_count_from(b: Seq<CandidateId>, active: Seq<bool>, i: int, k: int)
    requires
        b.no_duplicates(),
        0 <= i <= b.len(),
        0 <= k <= b.len(),
    ensures
        count_in(b.take(k), active) - count_in(b.take(if i < k { i } else { k }), active) == sum_over(
            |x: CandidateId| if active[x as int] && b.contains(x) && b.index_of(x) >= i { 1int } else { 0int },
            b.take(k),
        ),
    decreases k,
{
    let g = |x: CandidateId| if active[x as int] && b.contains(x) && b.index_of(x) >= i { 1int } else { 0int };
    if k == 0 {
        assert(b.take(0) =~= Seq::<CandidateId>::empty());
    } else {
        lemma_count_from(b, active, i, k - 1);
        let t = b.take(k);
        assert(t.drop_last() =~= b.take(k - 1));
        assert(t.last() == b[k - 1]);
        lemma_index_of_unique(b, k - 1);
        assert(g(b[k - 1]) == if active[b[k - 1] as int] && k - 1 >= i { 1int } else { 0int });
        if k - 1 < i {
            assert(sum_over(g, b.take(k - 1)) == 0);
        }
    }
}

/// The Baldwin points of a candidate `w` in the race on a ballot naming every candidate,
/// as a sum over the candidates.
pub proof fn lemma_points_as_sum(b: Seq<CandidateId>, active: Seq<bool>, w: CandidateId, n: nat)
    requires
        n <= usize::MAX,
        full_ballot(b, n),
        w < n,
        active[w as int],
    ensures
        baldwin_points(b, active, w) == sum_below(points_of(b, active, w), n),
{
    crate::tally::lemma_full_ranking(b, n);
    assert(b.contains(w));
    let iw = b.index_of(w);
    let g = |x: CandidateId| if active[x as int] && b.contains(x) && b.index_of(x) >= iw { 1int } else { 0int };
    lemma_count_from(b, active, iw, b.len() as int);
    assert(b.take(b.len() as int) =~= b);
    lemma_sum_over_below(g, b, n);
    let j = choose|j: int| 0 <= j < b.len() && b[j] == w;
    lemma_index_of_unique(b, j);
    assert forall|x: CandidateId| x < n implies #[trigger] g(x) == points_of(b, active, w)(x) by {
        if x != w {
            assert(b.contains(x));
            let q = choose|q: int| 0 <= q < b.len() && b[q] == x;
            lemma_index_of_unique(b, q);
        }
    }
    lemma_sum_below_ext(g, points_of(b, active, w), n);
}

/// A candidate out of the race scores no Baldwin points.
pub proof fn lemma_score_out(v: Seq<Seq<CandidateId>>, active: Seq<bool>, c: CandidateId)
    requires
        !active[c as int],
    ensures
        baldwin_score(v, active, c) == 0,
    decreases v.len(),
{
    if v.len() > 0 {
        lemma_score_out(v.drop_last(), active, c);
    }
}

/// Every ballot of `v` names every one of the `n` candidates.
pub open spec fn all_full(v: Seq<Seq<CandidateId>>, n: nat) -> bool {
    forall|i: int| 0 <= i < v.len() ==> full_ballot(#[trigger] v[i], n)
}

/// Dropping the last ballot keeps every ballot naming every candidate.
pub proof fn lemma_all_full_drop_last(v: Seq<Seq<CandidateId>>, n: nat)
    requires
        all_full(v, n),
        v.len() > 0,
    ensures
        all_full(v.drop_last(), n),
        full_ballot(v.last(), n),
{
    assert forall|i: int| 0 <= i < v.drop_last().len() implies full_ballot(#[trigger] v.drop_last()[i], n) by {
        assert(v.drop_last()[i] == v[i]);
    }
    assert(full_ballot(v[v.len() - 1], n));
}

/// The Baldwin total of each candidate, as a function of the candidate.
pub open spec fn score_of(v: Seq<Seq<CandidateId>>, active: Seq<bool>) -> spec_fn(CandidateId) -> int {
    |c: CandidateId| baldwin_score(v, active, c)
}

/// The Baldwin total of `w` spread over the candidates: the number of ballots at `w`, and
/// at each other candidate in the race the number of ballots that rank `w` above it.
pub open spec fn pair_total(v: Seq<Seq<CandidateId>>, active: Seq<bool>, w: CandidateId) -> spec_fn(CandidateId) -> int {
    |x: CandidateId| if x == w { v.len() as int } else if active[x as int] { pref_count(v, w, x) as int } else { 0int }
}

/// On ballots that name every candidate, the Baldwin total of a candidate `w` in the race
/// is the number of ballots plus, for each other candidate in the race, the number of
/// ballots that rank `w` above it.
pub proof fn lemma_score_pairwise(v: Seq<Seq<CandidateId>>, active: Seq<bool>, w: CandidateId, n: nat)
    requires
        n <= usize::MAX,
        all_full(v, n),
        w < n,
        active[w as int],
    ensures
        baldwin_score(v, active, w) == sum_below(pair_total(v, active, w), n),
    decreases v.len(),
{
    if v.len() == 0 {
        lemma_sum_below_single(pair_total(v, active, w), w, 0, n);
    } else {
        let u = v.drop_last();
        let b = v.last();
        lemma_all_full_drop_last(v, n);
        lemma_score_pairwise(u, active, w, n);
        lemma_points_as_sum(b, active, w, n);
        assert forall|x: CandidateId| x < n implies #[trigger] pair_total(v, active, w)(x)
            == pair_total(u, active, w)(x) + points_of(b, active, w)(x) by {
        }
        lemma_sum_below_add(pair_total(u, active, w), points_of(b, active, w), pair_total(v, active, w), n);
    }
}

/// On ballots that name every candidate, with `m` candidates in the race, the Baldwin
/// totals of all candidates add up to `m * (m + 1) / 2` per ballot (stated doubled).
pub proof fn lemma_scores_total(v: Seq<Seq<CandidateId>>, active: Seq<bool>, n: nat)
    requires
        n <= usize::MAX,
        all_full(v, n),
    ensures
        2 * sum_below(score_of(v, active), n) == v.len() * (sum_below(in_race(active), n) * (sum_below(in_race(active), n) + 1)),
    decreases v.len(),
{
    let m = sum_below(in_race(active), n);
    if v.len() == 0 {
        lemma_sum_below_single(score_of(v, active), 0, 0, n);
    } else {
        let u = v.drop_last();
        let b = v.last();
        lemma_all_full_drop_last(v, n);
        lemma_scores_total(u, active, n);
        lemma_points_total(b, active, n);
        lemma_full_count_in(b, active, n);
        assert forall|c: CandidateId| c < n implies #[trigger] score_of(v, active)(c)
            == score_of(u, active)(c) + points_on(b, active)(c) by {
        }
        lemma_sum_below_add(score_of(u, active), points_on(b, active), score_of(v, active), n);
        let tu = sum_below(score_of(u, active), n);
        let p = sum_below(points_on(b, active), n);
        let x = m * (m + 1);
        assert(2 * (tu + p) == v.len() * x) by (nonlinear_arith)
            requires
                2 * tu == u.len() * x,
                2 * p == x,
                v.len() == u.len() + 1,
        ;
    }
}

/// On ballots that name every candidate, each ballot ranks one of two candidates above
/// the other.
pub proof fn lemma_pref_pair(v: Seq<Seq<CandidateId>>, n: nat, w: CandidateId, x: CandidateId)
    requires
        n <= usize::MAX,
        all_full(v, n),
        w < n,
        x < n,
        w != x,
    ensures
        pref_count(v, w, x) + pref_count(v, x, w) == v.len(),
    decreases v.len(),
{
    if v.len() > 0 {
        lemma_all_full_drop_last(v, n);
        lemma_pref_pair(v.drop_last(), n, w, x);
        let b = v.last();
        crate::tally::lemma_full_ranking(b, n);
        assert(b.contains(w) && b.contains(x));
        let i = choose|i: int| 0 <= i < b.len() && b[i] == w;
        let j = choose|j: int| 0 <= j < b.len() && b[j] == x;
        lemma_index_of_unique(b, i);
        lemma_index_of_unique(b, j);
    }
}

/// On ballots that name every candidate, a Condorcet winner still in the race, with at
/// least one other candidate in the race, does not have the lowest Baldwin total: some
/// candidate in the race has less. (Its total is more than the average.)
pub proof fn lemma_condorcet_not_lowest(e: &Election, active: Seq<bool>, w: CandidateId, d: CandidateId) -> (c: CandidateId)
    requires
        e.wf(),
        all_full(e.votes(), e.n()),
        crate::tally::is_condorcet_candidate(e, w),
        active.len() == e.n(),
        active[w as int],
        d < e.n(),
        d != w,
        active[d as int],
    ensures
        c < e.n(),
        active[c as int],
        baldwin_score(e.votes(), active, c) < baldwin_score(e.votes(), active, w),
{
    let v = e.votes();
    let n = e.n();
    let sc = score_of(v, active);
    let sw = sc(w);
    if exists|c: CandidateId| c < n && active[c as int] && #[trigger] sc(c) < sw {
        choose|c: CandidateId| c < n && active[c as int] && #[trigger] sc(c) < sw
    } else {
        let bb = v.len() as int;
        let ir = in_race(active);
        let m = sum_below(ir, n);
        lemma_sum_below_two(ir, w, d, n);
        lemma_scores_total(v, active, n);
        let t = sum_below(sc, n);
        assert forall|c: CandidateId| c < n implies #[trigger] sc(c) >= sw * ir(c) by {
            if !active[c as int] {
                lemma_score_out(v, active, c);
            }
        }
        lemma_sum_below_scaled(sc, ir, sw, n);
        lemma_score_pairwise(v, active, w, n);
        let single = |x: CandidateId| if x == w { bb } else { 0int };
        let rest = |x: CandidateId| if x != w && active[x as int] { pref_count(v, w, x) as int } else { 0int };
        lemma_sum_below_add(single, rest, pair_total(v, active, w), n);
        lemma_sum_below_single(single, w, bb, n);
        let one = |x: CandidateId| if x == w { 1int } else { 0int };
        let g = |x: CandidateId| if x != w && active[x as int] { 1int } else { 0int };
        lemma_sum_below_add(g, one, ir, n);
        lemma_sum_below_single(one, w, 1, n);
        let rest2 = |x: CandidateId| 2 * rest(x);
        lemma_sum_below_add(rest, rest, rest2, n);
        assert forall|x: CandidateId| x < n implies #[trigger] rest2(x) >= (bb + 1) * g(x) by {
            if x != w && active[x as int] {
                lemma_pref_pair(v, n, w, x);
                assert(pref_count(v, w, x) > pref_count(v, x, w));
            }
        }
        lemma_sum_below_scaled(rest2, g, bb + 1, n);
        assert(2 * sw >= 2 * bb + (bb + 1) * (m - 1));
        assert(false) by (nonlinear_arith)
            requires
                2 * t == bb * (m * (m + 1)),
                t >= sw * m,
                2 * sw >= 2 * bb + (bb + 1) * (m - 1),
                m >= 2,
                bb >= 0,
        ;
        w
    }
}

/// On ballots that name every candidate, a Condorcet winner survives the first `k`
/// eliminations, for `k < n`.
pub proof fn lemma_baldwin_survives(e: &Election, w: CandidateId, k: nat)
    requires
        e.wf(),
        all_full(e.votes(), e.n()),
        crate::tally::is_condorcet_candidate(e, w),
        k < e.n(),
    ensures
        !baldwin_out(e, k).contains(w),
    decreases k,
{
    let n = e.n();
    if k > 0 {
        let prev = baldwin_out(e, (k - 1) as nat);
        lemma_baldwin_survives(e, w, (k - 1) as nat);
        lemma_baldwin_out(e, (k - 1) as nat);
        let s = prev.push(w);
        let d = lemma_missing_candidate(s, n);
        assert(!prev.contains(d)) by {
            if prev.contains(d) {
                let j = choose|j: int| 0 <= j < prev.len() && prev[j] == d;
                assert(s[j] == d);
            }
        }
        assert(d != w) by {
            assert(s[s.len() - 1] == w);
        }
        let a = still_in(n, prev);
        assert(a[w as int] && a[d as int]);
        let r = lemma_baldwin_min_below(e, prev, n);
        let l = r.unwrap();
        assert(is_baldwin_loser(e, prev, l));
        lemma_baldwin_loser_unique(e, prev, l);
        if l == w {
            let c = lemma_condorcet_not_lowest(e, a, w, d);
            assert(baldwin_score(e.votes(), a, w) <= baldwin_score(e.votes(), a, c));
        }
        let cur = baldwin_out(e, k);
        if cur.contains(w) {
            let j = choose|j: int| 0 <= j < cur.len() && cur[j] == w;
            if j < prev.len() {
                assert(prev[j] == w);
            }
        }
    }
}

/// Baldwin elects the Condorcet winner when every ballot ranks every candidate: a
/// candidate that wins its duel with every other comes first.
pub proof fn lemma_baldwin_condorcet(e: &Election, w: CandidateId)
    requires
        e.wf(),
        forall|i: int| 0 <= i < e.votes().len() ==> (#[trigger] e.votes()[i]).len() == e.n(),
        crate::tally::is_condorcet_candidate(e, w),
    ensures
        baldwin_ranking(e)[0] == w,
{
    let n = e.n();
    let v = e.votes();
    assert forall|i: int| 0 <= i < v.len() implies full_ballot(#[trigger] v[i], n) by {
        assert(valid_ballot(v[i], n));
    }
    lemma_baldwin_survives(e, w, (n - 1) as nat);
    lemma_baldwin_out(e, n);
    let out = baldwin_out(e, n);
    crate::tally::lemma_full_ranking(out, n);
    assert(out.contains(w));
    let j = choose|j: int| 0 <= j < out.len() && out[j] == w;
    if j < n - 1 {
        assert(out.drop_last() == baldwin_out(e, (n - 1) as nat));
        assert(out.drop_last()[j] == w);
    }
    assert(out.reverse()[0] == out[n - 1]);
}

/// Each Baldwin elimination takes, among the candidates still in the race, one with the
/// lowest total, and of those tied the one whose name comes last (the smallest index
/// among equal names).
pub proof fn lemma_baldwin_elimination(e: &Election, k: nat)
    requires
        e.wf(),
        k < e.n(),
    ensures
        ({
            let v = e.votes();
            let nm = e.names();
            let out = baldwin_out(e, k);
            let l = baldwin_out(e, k + 1)[k as int];
            let a = still_in(e.n(), out);
            &&& l < e.n()
            &&& !out.contains(l)
            &&& forall|d: CandidateId| d < e.n() && !out.contains(d) ==> baldwin_score(v, a, l) <= #[trigger] baldwin_score(v, a, d)
            &&& forall|d: CandidateId|
                d < e.n() && !out.contains(d) && d != l && #[trigger] baldwin_score(v, a, d) == baldwin_score(v, a, l)
                    ==> name_lt(nm[d as int], nm[l as int]) || (nm[d as int] == nm[l as int] && l < d)
        }),
{
    let n = e.n();
    let out = baldwin_out(e, k);
    lemma_baldwin_out(e, k);
    let m = lemma_missing_candidate(out, n);
    assert(still_in(n, out)[m as int]);
    let r = lemma_baldwin_min_below(e, out, n);
    let l = r.unwrap();
    assert(is_baldwin_loser(e, out, l));
    lemma_baldwin_loser_unique(e, out, l);
    assert(baldwin_out(e, k + 1)[k as int] == l);
    let a = still_in(n, out);
    assert forall|d: CandidateId| d < n && !out.contains(d) implies #[trigger] a[d as int] by {}
}

} // verus!
