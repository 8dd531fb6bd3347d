use vstd::prelude::*;
use crate::order::{name_less, name_lt, lemma_name_lt_irreflexive, lemma_name_lt_total, lemma_name_lt_transitive};
use crate::tally::{is_duel_matrix, lemma_pref_count_bound, pref_count, zero_matrix};
use crate::types::{CandidateId, Election, VoteResult};
use crate::vote::VotingAlgorithm;
use crate::vote::smith_irv::pairwise_matrix;

verus! {

/// The Schulze method. The margin of `x` over `y` is how many more ballots rank `x`
/// above `y` than `y` above `x` (0 if not positive). The strength of the strongest path
/// from `x` to `y` is computed from the margins in the manner of Floyd and Warshall;
/// `x` beats `y` when the strongest path from `x` to `y` is stronger than the one back.
/// Candidates are ranked so that none is placed after a candidate it beats; at each
/// place, of the candidates no remaining candidate beats, the one whose name comes first.
pub struct Schulze;

/// The margin by which `x` wins its duel with `y`, or 0.
pub open spec fn margin(v: Seq<Seq<CandidateId>>, x: CandidateId, y: CandidateId) -> int {
    if x != y && pref_count(v, x, y) > pref_count(v, y, x) {
        pref_count(v, x, y) - pref_count(v, y, x)
    } else {
        0
    }
}

/// The margins of a duel: the difference of the two margins is the difference of the
/// two counts, and at most one of them is not 0; a candidate has no margin over itself.
pub proof fn lemma_margin_duel(v: Seq<Seq<CandidateId>>, x: CandidateId, y: CandidateId)
    ensures
        margin(v, x, x) == 0,
        margin(v, x, y) >= 0,
        x != y ==> margin(v, x, y) - margin(v, y, x) == pref_count(v, x, y) - pref_count(v, y, x),
        margin(v, x, y) == 0 || margin(v, y, x) == 0,
{
}

/// The larger of two integers.
pub open spec fn max_int(a: int, b: int) -> int {
    if a >= b { a } else { b }
}

/// The smaller of two integers.
pub open spec fn min_int(a: int, b: int) -> int {
    if a <= b { a } else { b }
}

/// The strength of the strongest path from `i` to `j` through the candidates below `k`:
/// the margin for `k == 0`; for `k + 1`, the better of the path through the candidates
/// below `k` and the one that goes through `k`.
pub open spec fn strength(v: Seq<Seq<CandidateId>>, k: nat, i: CandidateId, j: CandidateId) -> int
    decreases k,
{
    if k == 0 {
        margin(v, i, j)
    } else {
        let m = (k - 1) as usize;
        let p = strength(v, (k - 1) as nat, i, j);
        if i != j && i != m && j != m {
            max_int(p, min_int(strength(v, (k - 1) as nat, i, m), strength(v, (k - 1) as nat, m, j)))
        } else {
            p
        }
    }
}

/// The strongest path from `x` to `y` among all `n` candidates.
pub open spec fn path_strength(e: &Election, x: CandidateId, y: CandidateId) -> int {
    strength(e.votes(), e.n(), x, y)
}

/// `x` beats `y` in the Schulze sense.
pub open spec fn schulze_beats(e: &Election, x: CandidateId, y: CandidateId) -> bool {
    path_strength(e, x, y) > path_strength(e, y, x)
}

/// `c` is the candidate the Schulze ranking places after `placed`: not yet placed, beaten
/// by no candidate not yet placed, and of those the one whose name comes first (the
/// smaller index among equal names).
pub open spec fn is_schulze_pick(e: &Election, placed: Seq<CandidateId>, c: CandidateId) -> bool {
    let nm = e.names();
    &&& c < e.n()
    &&& !placed.contains(c)
    &&& forall|d: CandidateId| d < e.n() && !placed.contains(d) ==> !#[trigger] schulze_beats(e, d, c)
    &&& forall|d: CandidateId|
        d < e.n() && !placed.contains(d) && d != c && (forall|x: CandidateId| x < e.n() && !placed.contains(x) ==> !#[trigger] schulze_beats(e, x, d))
            ==> #[trigger] name_lt(nm[c as int], nm[d as int]) || (nm[c as int] == nm[d as int] && c < d)
}

/// The candidate the Schulze ranking places after `placed`.
pub open spec fn schulze_pick(e: &Election, placed: Seq<CandidateId>) -> CandidateId {
    choose|c: CandidateId| is_schulze_pick(e, placed, c)
}

/// The first `k` places of the Schulze ranking.
pub open spec fn schulze_prefix(e: &Election, k: nat) -> Seq<CandidateId>
    decreases k,
{
    if k == 0 {
        Seq::empty()
    } else {
        let placed = schulze_prefix(e, (k - 1) as nat);
        placed.push(schulze_pick(e, placed))
    }
}

/// The Schulze ranking.
pub open spec fn schulze_ranking(e: &Election) -> Seq<CandidateId> {
    schulze_prefix(e, e.n())
}

/// Path strengths never drop as more candidates may be passed through.
pub proof fn lemma_strength_grows(v: Seq<Seq<CandidateId>>, k: nat, i: CandidateId, j: CandidateId)
    ensures
        strength(v, k, i, j) >= 0,
        k > 0 ==> strength(v, k, i, j) >= strength(v, (k - 1) as nat, i, j),
    decreases k,
{
    if k > 0 {
        lemma_strength_grows(v, (k - 1) as nat, i, j);
    }
}

/// The strongest path composes: for distinct `i`, `j`, `x` with `x < k`, the path from
/// `i` to `j` is at least as strong as the weaker of the paths `i` to `x` and `x` to `j`.
pub proof fn lemma_strength_triangle(v: Seq<Seq<CandidateId>>, k: nat, i: CandidateId, j: CandidateId, x: CandidateId)
    requires
        i != j,
        i != x,
        j != x,
        x < k,
    ensures
        strength(v, k, i, j) >= min_int(strength(v, k, i, x), strength(v, k, x, j)),
    decreases k,
{
    let m = (k - 1) as usize;
    let kk = (k - 1) as nat;
    lemma_strength_grows(v, k, i, j);
    if x == m {
    } else {
        if i == m {
            lemma_strength_triangle(v, kk, m, j, x);
        } else if j == m {
            lemma_strength_triangle(v, kk, i, m, x);
        } else {
            lemma_strength_triangle(v, kk, i, j, x);
            lemma_strength_triangle(v, kk, m, j, x);
            lemma_strength_triangle(v, kk, i, m, x);
        }
    }
}

/// Beating is transitive.
pub proof fn lemma_beats_transitive(e: &Election, a: CandidateId, b: CandidateId, c: CandidateId)
    requires
        a < e.n(),
        b < e.n(),
        c < e.n(),
        schulze_beats(e, a, b),
        schulze_beats(e, b, c),
    ensures
        schulze_beats(e, a, c),
{
    let v = e.votes();
    let n = e.n();
    assert(a != b && b != c);
    if a == c {
    } else {
        lemma_strength_triangle(v, n, a, c, b);
        lemma_strength_triangle(v, n, b, a, c);
        lemma_strength_triangle(v, n, c, b, a);
    }
}


/// How many candidates below `k`, not in `placed`, `c` beats.
pub open spec fn beat_count(e: &Election, placed: Seq<CandidateId>, c: CandidateId, k: nat) -> nat
    decreases k,
{
    if k == 0 {
        0
    } else {
        let x = (k - 1) as usize;
        beat_count(e, placed, c, (k - 1) as nat) + if !placed.contains(x) && schulze_beats(e, c, x) { 1nat } else { 0nat }
    }
}

/// A candidate that beats `c` beats more of the remaining candidates than `c` does.
pub proof fn lemma_beat_count_grows(e: &Election, placed: Seq<CandidateId>, d: CandidateId, c: CandidateId, k: nat)
    requires
        k <= e.n(),
        c < e.n(),
        d < e.n(),
        !placed.contains(c),
        schulze_beats(e, d, c),
    ensures
        beat_count(e, placed, d, k) >= beat_count(e, placed, c, k),
        c < k ==> beat_count(e, placed, d, k) > beat_count(e, placed, c, k),
    decreases k,
{
    if k > 0 {
        let x = (k - 1) as usize;
        lemma_beat_count_grows(e, placed, d, c, (k - 1) as nat);
        if schulze_beats(e, c, x) {
            lemma_beats_transitive(e, d, c, x);
        }
    }
}

/// Among the remaining candidates below `k`, one that beats the most remaining candidates.
pub proof fn lemma_best_below(e: &Election, placed: Seq<CandidateId>, k: nat) -> (r: Option<CandidateId>)
    requires
        k <= e.n(),
    ensures
        match r {
            Some(c) => {
                &&& c < k
                &&& !placed.contains(c)
                &&& forall|d: CandidateId| d < k && !placed.contains(d) ==> beat_count(e, placed, d, e.n()) <= #[trigger] beat_count(e, placed, c, e.n())
            },
            None => forall|d: CandidateId| d < k ==> #[trigger] placed.contains(d),
        },
    decreases k,
{
    if k == 0 {
        None
    } else {
        let x = (k - 1) as usize;
        let prev = lemma_best_below(e, placed, (k - 1) as nat);
        if placed.contains(x) {
            prev
        } else {
            match prev {
                None => Some(x),
                Some(c) => {
                    if beat_count(e, placed, x, e.n()) > beat_count(e, placed, c, e.n()) {
                        Some(x)
                    } else {
                        Some(c)
                    }
                },
            }
        }
    }
}

/// While candidates remain, one of them is beaten by no remaining candidate.
pub proof fn lemma_unbeaten_exists(e: &Election, placed: Seq<CandidateId>, c0: CandidateId) -> (c: CandidateId)
    requires
        c0 < e.n(),
        !placed.contains(c0),
    ensures
        c < e.n(),
        !placed.contains(c),
        forall|d: CandidateId| d < e.n() && !placed.contains(d) ==> !#[trigger] schulze_beats(e, d, c),
{
    let r = lemma_best_below(e, placed, e.n());
    let c = r.unwrap();
    assert forall|d: CandidateId| d < e.n() && !placed.contains(d) implies !#[trigger] schulze_beats(e, d, c) by {
        if schulze_beats(e, d, c) {
            lemma_beat_count_grows(e, placed, d, c, e.n());
        }
    }
    c
}

/// At most one candidate is the next pick.
pub proof fn lemma_schulze_pick_unique(e: &Election, placed: Seq<CandidateId>, c: CandidateId)
    requires
        is_schulze_pick(e, placed, c),
    ensures
        schulze_pick(e, placed) == c,
{
    let d = schulze_pick(e, placed);
    assert(is_schulze_pick(e, placed, d));
    let nm = e.names();
    if d != c {
        assert(name_lt(nm[c as int], nm[d as int]) || (nm[c as int] == nm[d as int] && c < d));
        assert(name_lt(nm[d as int], nm[c as int]) || (nm[c as int] == nm[d as int] && d < c));
        lemma_name_lt_irreflexive(nm[c as int]);
        if name_lt(nm[d as int], nm[c as int]) && name_lt(nm[c as int], nm[d as int]) {
            lemma_name_lt_transitive(nm[c as int], nm[d as int], nm[c as int]);
        }
    }
}

/// The strongest-path matrix: entry `[i][j]` is `path_strength(e, i, j)`.
pub fn strongest_paths(e: &Election) -> (p: Vec<Vec<usize>>)
    requires
        e.wf(),
    ensures
        p@.len() == e.n(),
        forall|i: int| 0 <= i < e.n() ==> (#[trigger] p@[i])@.len() == e.n(),
        forall|i: int, j: int| 0 <= i < e.n() && 0 <= j < e.n() ==> #[trigger] p@[i]@[j] == path_strength(e, i as usize, j as usize),
{
    let n = e.candidates.len();
    let ghost v = e.votes();
    let wins = pairwise_matrix(e);
    let mut p = zero_matrix(n);
    let mut i: usize = 0;
    while i < n
        invariant
            n == e.n(),
            v == e.votes(),
            is_duel_matrix(wins@, v, n as nat),
            i <= n,
            p@.len() == n,
            forall|a: int| 0 <= a < n ==> (#[trigger] p@[a])@.len() == n,
            forall|a: int, b: int| 0 <= a < n && 0 <= b < n ==> #[trigger] p@[a]@[b] == if a < i { strength(v, 0, a as usize, b as usize) } else { 0 },
        decreases n - i,
    {
        let mut j: usize = 0;
        while j < n
            invariant
                n == e.n(),
                v == e.votes(),
                is_duel_matrix(wins@, v, n as nat),
                i < n,
                j <= n,
                p@.len() == n,
                forall|a: int| 0 <= a < n ==> (#[trigger] p@[a])@.len() == n,
                forall|a: int, b: int| 0 <= a < n && 0 <= b < n ==> #[trigger] p@[a]@[b] == if a < i || (a == i && b < j) { strength(v, 0, a as usize, b as usize) } else { 0 },
            decreases n - j,
        {
            proof {
                assert(wins@[i as int]@[j as int] == pref_count(v, i, j));
                assert(wins@[j as int]@[i as int] == pref_count(v, j, i));
            }
            if i != j && wins[i][j] > wins[j][i] {
                p[i][j] = wins[i][j] - wins[j][i];
            }
            j = j + 1;
        }
        i = i + 1;
    }
    let mut k: usize = 0;
    while k < n
        invariant
            n == e.n(),
            v == e.votes(),
            k <= n,
            p@.len() == n,
            forall|a: int| 0 <= a < n ==> (#[trigger] p@[a])@.len() == n,
            forall|a: int, b: int| 0 <= a < n && 0 <= b < n ==> #[trigger] p@[a]@[b] == strength(v, k as nat, a as usize, b as usize),
        decreases n - k,
    {
        let mut i: usize = 0;
        while i < n
            invariant
                n == e.n(),
                v == e.votes(),
                k < n,
                i <= n,
                p@.len() == n,
                forall|a: int| 0 <= a < n ==> (#[trigger] p@[a])@.len() == n,
                forall|a: int, b: int| 0 <= a < n && 0 <= b < n ==> #[trigger] p@[a]@[b] == strength(v, if a < i { (k + 1) as nat } else { k as nat }, a as usize, b as usize),
            decreases n - i,
        {
            let mut j: usize = 0;
            while j < n
                invariant
                    n == e.n(),
                    v == e.votes(),
                    k < n,
                    i < n,
                    j <= n,
                    p@.len() == n,
                    forall|a: int| 0 <= a < n ==> (#[trigger] p@[a])@.len() == n,
                    forall|a: int, b: int| 0 <= a < n && 0 <= b < n ==> #[trigger] p@[a]@[b] == strength(
                        v,
                        if a < i || (a == i && b < j) { (k + 1) as nat } else { k as nat },
                        a as usize,
                        b as usize,
                    ),
                decreases n - j,
            {
                proof {
                    assert(strength(v, (k + 1) as nat, i, k) == strength(v, k as nat, i, k));
                    assert(strength(v, (k + 1) as nat, k, j) == strength(v, k as nat, k, j));
                    assert(p@[i as int]@[k as int] == strength(v, k as nat, i, k));
                    assert(p@[k as int]@[j as int] == strength(v, k as nat, k, j));
                }
                if i != j && i != k && j != k {
                    let s = if p[i][k] <= p[k][j] { p[i][k] } else { p[k][j] };
                    if s > p[i][j] {
                        p[i][j] = s;
                    }
                }
                j = j + 1;
            }
            i = i + 1;
        }
        k = k + 1;
    }
    p
}


impl VotingAlgorithm for Schulze {
    fn name(&self) -> (r: String)
        ensures
            r@ == "Schulze"@,
    {
        "Schulze".to_string()
    }

    fn compute(&self, election: &Election) -> (r: VoteResult)
        ensures
            r.ranking@ == schulze_ranking(election),
    {
        let e = election;
        let n = e.candidates.len();
        let p = strongest_paths(e);
        let names = e.name_table();
        let ghost nm = e.names();
        proof {
            assert forall|d: int| 0 <= d < n implies #[trigger] nm[d] == names@[d]@ by {
                assert(names@.map_values(|v: Vec<char>| v@)[d] == names@[d]@);
            }
        }
        let mut placed: Vec<bool> = Vec::new();
        let mut c: usize = 0;
        while c < n
            invariant
                c <= n,
                placed@.len() == c,
                forall|d: int| 0 <= d < c ==> !#[trigger] placed@[d],
            decreases n - c,
        {
            placed.push(false);
            c = c + 1;
        }
        let mut ranking: Vec<CandidateId> = Vec::new();
        let mut t: usize = 0;
        while t < n
            invariant
                e.wf(),
                n == e.n(),
                nm == e.names(),
                names@.len() == n,
                forall|d: int| 0 <= d < n ==> #[trigger] nm[d] == names@[d]@,
                p@.len() == n,
                forall|a: int| 0 <= a < n ==> (#[trigger] p@[a])@.len() == n,
                forall|a: int, b: int| 0 <= a < n && 0 <= b < n ==> #[trigger] p@[a]@[b] == path_strength(e, a as usize, b as usize),
                t <= n,
                ranking@ == schulze_prefix(e, t as nat),
                ranking@.len() == t,
                placed@.len() == n,
                forall|d: int| 0 <= d < n ==> #[trigger] placed@[d] == ranking@.contains(d as usize),
            decreases n - t,
        {
            let ghost placed_seq = ranking@;
            let mut best: Option<CandidateId> = None;
            let mut c: usize = 0;
            while c < n
                invariant
                    e.wf(),
                    n == e.n(),
                    nm == e.names(),
                    names@.len() == n,
                    forall|d: int| 0 <= d < n ==> #[trigger] nm[d] == names@[d]@,
                    p@.len() == n,
                    forall|a: int| 0 <= a < n ==> (#[trigger] p@[a])@.len() == n,
                    forall|a: int, b: int| 0 <= a < n && 0 <= b < n ==> #[trigger] p@[a]@[b] == path_strength(e, a as usize, b as usize),
                    placed@.len() == n,
                    placed_seq == ranking@,
                    forall|d: int| 0 <= d < n ==> #[trigger] placed@[d] == placed_seq.contains(d as usize),
                    c <= n,
                    match best {
                        Some(b) => {
                            &&& b < c
                            &&& !placed_seq.contains(b)
                            &&& forall|d: CandidateId| d < n && !placed_seq.contains(d) ==> !#[trigger] schulze_beats(e, d, b)
                            &&& forall|d: CandidateId|
                                d < c && !placed_seq.contains(d) && d != b && (forall|x: CandidateId| x < n && !placed_seq.contains(x) ==> !#[trigger] schulze_beats(e, x, d))
                                    ==> #[trigger] name_lt(nm[b as int], nm[d as int]) || (nm[b as int] == nm[d as int] && b < d)
                        },
                        None => forall|d: CandidateId|
                            d < c && !placed_seq.contains(d) ==> exists|x: CandidateId| x < n && !placed_seq.contains(x) && #[trigger] schulze_beats(e, x, d),
                    },
                decreases n - c,
            {
                if !placed[c] {
                    let mut beaten = false;
                    let mut d: usize = 0;
                    while d < n
                        invariant
                            n == e.n(),
                            p@.len() == n,
                            forall|a: int| 0 <= a < n ==> (#[trigger] p@[a])@.len() == n,
                            forall|a: int, b: int| 0 <= a < n && 0 <= b < n ==> #[trigger] p@[a]@[b] == path_strength(e, a as usize, b as usize),
                            placed@.len() == n,
                            forall|x: int| 0 <= x < n ==> #[trigger] placed@[x] == placed_seq.contains(x as usize),
                            c < n,
                            d <= n,
                            beaten == exists|x: CandidateId| x < d && !placed_seq.contains(x) && #[trigger] schulze_beats(e, x, c),
                        decreases n - d,
                    {
                        proof {
                            assert(p@[d as int]@[c as int] == path_strength(e, d, c));
                            assert(p@[c as int]@[d as int] == path_strength(e, c, d));
                        }
                        let ghost old_beaten = beaten;
                        if !placed[d] && p[d][c] > p[c][d] {
                            beaten = true;
                        }
                        proof {
                            if !placed_seq.contains(d) && schulze_beats(e, d, c) {
                                assert(d < d + 1 && !placed_seq.contains(d) && schulze_beats(e, d, c));
                            }
                            if old_beaten {
                                let x = choose|x: CandidateId| x < d && !placed_seq.contains(x) && #[trigger] schulze_beats(e, x, c);
                                assert(x < d + 1);
                            }
                        }
                        d = d + 1;
                    }
                    if !beaten {
                        match best {
                            None => {
                                best = Some(c);
                            },
                            Some(b) => {
                                if name_less(&names[c], &names[b]) {
                                    proof {
                                        assert forall|d: CandidateId|
                                            d < c + 1 && !placed_seq.contains(d) && d != c && (forall|x: CandidateId| x < n && !placed_seq.contains(x) ==> !#[trigger] schulze_beats(e, x, d))
                                            implies #[trigger] name_lt(nm[c as int], nm[d as int]) || (nm[c as int] == nm[d as int] && c < d) by {
                                            if d != b {
                                                if name_lt(nm[b as int], nm[d as int]) {
                                                    lemma_name_lt_transitive(nm[c as int], nm[b as int], nm[d as int]);
                                                }
                                            }
                                        }
                                    }
                                    best = Some(c);
                                } else {
                                    proof {
                                        if nm[c as int] != nm[b as int] {
                                            lemma_name_lt_total(nm[c as int], nm[b as int]);
                                        }
                                    }
                                }
                            },
                        }
                    }
                }
                c = c + 1;
            }
            proof {
                let m = crate::tally::lemma_missing_candidate(placed_seq, n as nat);
                let u = lemma_unbeaten_exists(e, placed_seq, m);
            }
            match best {
                Some(b) => {
                    proof {
                        assert(is_schulze_pick(e, placed_seq, b));
                        lemma_schulze_pick_unique(e, placed_seq, b);
                    }
                    placed.set(b, true);
                    ranking.push(b);
                    proof {
                        assert forall|d: int| 0 <= d < n implies #[trigger] placed@[d] == ranking@.contains(d as usize) by {
                            if d as usize != b {
                                if ranking@.contains(d as usize) {
                                    let j = choose|j: int| 0 <= j < ranking@.len() && ranking@[j] == d as usize;
                                    assert(placed_seq[j] == d as usize);
                                }
                                if placed_seq.contains(d as usize) {
                                    let j = choose|j: int| 0 <= j < placed_seq.len() && placed_seq[j] == d as usize;
                                    assert(ranking@[j] == d as usize);
                                }
                            } else {
                                assert(ranking@[ranking@.len() - 1] == b);
                            }
                        }
                    }
                },
                None => {
                    proof {
                        assert(false);
                    }
                },
            }
            t = t + 1;
        }
        VoteResult { ranking }
    }
}


/// Not placed, and beaten by no candidate not placed.
pub open spec fn unbeaten(e: &Election, placed: Seq<CandidateId>, d: CandidateId) -> bool {
    &&& d < e.n()
    &&& !placed.contains(d)
    &&& forall|x: CandidateId| x < e.n() && !placed.contains(x) ==> !#[trigger] schulze_beats(e, x, d)
}

/// Among the unbeaten candidates below `k`, the one whose name comes first (then the
/// smallest index).
pub proof fn lemma_least_unbeaten_below(e: &Election, placed: Seq<CandidateId>, k: nat) -> (r: Option<CandidateId>)
    requires
        k <= e.n(),
        e.n() <= usize::MAX,
    ensures
        match r {
            Some(c) => {
                let nm = e.names();
                &&& c < k
                &&& unbeaten(e, placed, c)
                &&& forall|d: CandidateId| d < k && d != c && #[trigger] unbeaten(e, placed, d)
                    ==> name_lt(nm[c as int], nm[d as int]) || (nm[c as int] == nm[d as int] && c < d)
            },
            None => forall|d: CandidateId| d < k ==> !#[trigger] unbeaten(e, placed, d),
        },
    decreases k,
{
    if k == 0 {
        None
    } else {
        let nm = e.names();
        let x = (k - 1) as usize;
        let prev = lemma_least_unbeaten_below(e, placed, (k - 1) as nat);
        if !unbeaten(e, placed, x) {
            prev
        } else {
            match prev {
                None => Some(x),
                Some(c) => {
                    if name_lt(nm[x as int], nm[c as int]) {
                        assert forall|d: CandidateId| d < k && d != x && #[trigger] unbeaten(e, placed, d)
                            implies name_lt(nm[x as int], nm[d as int]) || (nm[x as int] == nm[d as int] && x < d) by {
                            if d != c {
                                if name_lt(nm[c as int], nm[d as int]) {
                                    lemma_name_lt_transitive(nm[x as int], nm[c as int], nm[d as int]);
                                }
                            }
                        }
                        Some(x)
                    } else {
                        if nm[c as int] != nm[x as int] {
                            lemma_name_lt_total(nm[c as int], nm[x as int]);
                        }
                        Some(c)
                    }
                },
            }
        }
    }
}

/// While candidates remain, the Schulze ranking has a next pick, and it is one of them.
pub proof fn lemma_schulze_pick_exists(e: &Election, placed: Seq<CandidateId>, c0: CandidateId)
    requires
        e.n() <= usize::MAX,
        c0 < e.n(),
        !placed.contains(c0),
    ensures
        is_schulze_pick(e, placed, schulze_pick(e, placed)),
{
    let u = lemma_unbeaten_exists(e, placed, c0);
    assert(unbeaten(e, placed, u));
    let r = lemma_least_unbeaten_below(e, placed, e.n());
    let c = r.unwrap();
    let nm = e.names();
    assert forall|d: CandidateId|
        d < e.n() && !placed.contains(d) && d != c && (forall|x: CandidateId| x < e.n() && !placed.contains(x) ==> !#[trigger] schulze_beats(e, x, d))
        implies #[trigger] name_lt(nm[c as int], nm[d as int]) || (nm[c as int] == nm[d as int] && c < d) by {
        assert(unbeaten(e, placed, d));
    }
    assert(is_schulze_pick(e, placed, c));
    lemma_schulze_pick_unique(e, placed, c);
}

/// The first `k` places are `k` distinct candidates, each the pick after the ones before.
pub proof fn lemma_schulze_prefix(e: &Election, k: nat)
    requires
        e.wf(),
        k <= e.n(),
    ensures
        schulze_prefix(e, k).len() == k,
        schulze_prefix(e, k).no_duplicates(),
        forall|i: int| 0 <= i < k ==> #[trigger] schulze_prefix(e, k)[i] < e.n(),
        forall|i: int| 0 <= i <= k ==> schulze_prefix(e, k).take(i) == #[trigger] schulze_prefix(e, i as nat),
        forall|i: int| 0 <= i < k ==> is_schulze_pick(e, schulze_prefix(e, i as nat), #[trigger] schulze_prefix(e, k)[i]),
    decreases k,
{
    if k > 0 {
        let prev = schulze_prefix(e, (k - 1) as nat);
        lemma_schulze_prefix(e, (k - 1) as nat);
        let m = crate::tally::lemma_missing_candidate(prev, e.n());
        lemma_schulze_pick_exists(e, prev, m);
        crate::tally::lemma_push_distinct(prev, schulze_pick(e, prev));
        let cur = schulze_prefix(e, k);
        assert forall|i: int| 0 <= i <= k implies cur.take(i) == #[trigger] schulze_prefix(e, i as nat) by {
            if i < k {
                assert(cur.take(i) =~= prev.take(i));
            } else {
                assert(cur.take(i) =~= cur);
            }
        }
        assert forall|i: int| 0 <= i < k implies is_schulze_pick(e, schulze_prefix(e, i as nat), #[trigger] cur[i]) by {
            if i < k - 1 {
                assert(cur[i] == prev[i]);
            }
        }
    } else {
        assert(schulze_prefix(e, 0).take(0) =~= schulze_prefix(e, 0));
    }
}

/// The Schulze ranking ranks every candidate exactly once, and never places a candidate
/// after one it beats.
pub proof fn lemma_schulze_is_ranking(e: &Election)
    requires
        e.wf(),
    ensures
        crate::tally::is_ranking(schulze_ranking(e), e.n()),
        forall|i: int, j: int| 0 <= i < j < e.n() ==> !schulze_beats(e, #[trigger] schulze_ranking(e)[j], #[trigger] schulze_ranking(e)[i]),
{
    let r = schulze_ranking(e);
    lemma_schulze_prefix(e, e.n());
    crate::tally::lemma_full_ranking(r, e.n());
    assert forall|i: int, j: int| 0 <= i < j < e.n() implies !schulze_beats(e, #[trigger] r[j], #[trigger] r[i]) by {
        let placed = schulze_prefix(e, i as nat);
        assert(r.take(i) == placed);
        assert(is_schulze_pick(e, placed, r[i]));
        assert(!placed.contains(r[j])) by {
            if placed.contains(r[j]) {
                let q = choose|q: int| 0 <= q < placed.len() && placed[q] == r[j];
                assert(r[q] == r[j]);
            }
        }
    }
}

/// Nothing beats a Condorcet winner: every path into it has strength 0.
pub proof fn lemma_strength_into_winner(v: Seq<Seq<CandidateId>>, n: nat, w: CandidateId, k: nat, x: CandidateId)
    requires
        forall|d: CandidateId| d < n && d != w ==> #[trigger] pref_count(v, w, d) > pref_count(v, d, w),
        x < n,
        k <= n,
        n <= usize::MAX,
    ensures
        strength(v, k, x, w) == 0,
    decreases k,
{
    if k > 0 {
        let m = (k - 1) as usize;
        lemma_strength_into_winner(v, n, w, (k - 1) as nat, x);
        lemma_strength_into_winner(v, n, w, (k - 1) as nat, m);
        lemma_strength_grows(v, (k - 1) as nat, x, m);
    } else if x != w {
        assert(pref_count(v, w, x) > pref_count(v, x, w));
    }
}

/// Path strengths are at least the margins.
pub proof fn lemma_strength_at_least_margin(v: Seq<Seq<CandidateId>>, k: nat, x: CandidateId, y: CandidateId)
    ensures
        strength(v, k, x, y) >= margin(v, x, y),
    decreases k,
{
    if k > 0 {
        lemma_strength_at_least_margin(v, (k - 1) as nat, x, y);
        lemma_strength_grows(v, k, x, y);
    }
}

/// A Condorcet winner beats every other candidate in the Schulze sense, and comes first
/// in the Schulze ranking.
pub proof fn lemma_schulze_condorcet(e: &Election, w: CandidateId)
    requires
        e.wf(),
        crate::tally::is_condorcet_candidate(e, w),
    ensures
        forall|d: CandidateId| d < e.n() && d != w ==> #[trigger] schulze_beats(e, w, d),
        schulze_ranking(e)[0] == w,
{
    let v = e.votes();
    let n = e.n();
    assert forall|d: CandidateId| d < n && d != w implies #[trigger] schulze_beats(e, w, d) by {
        lemma_strength_into_winner(v, n, w, n, d);
        lemma_strength_at_least_margin(v, n, w, d);
        assert(pref_count(v, w, d) > pref_count(v, d, w));
    }
    let placed = Seq::<CandidateId>::empty();
    assert forall|x: CandidateId| x < n && !placed.contains(x) implies !#[trigger] schulze_beats(e, x, w) by {
        lemma_strength_into_winner(v, n, w, n, x);
        lemma_strength_grows(v, n, w, x);
    }
    assert(is_schulze_pick(e, placed, w)) by {
        assert forall|d: CandidateId| d < n && !placed.contains(d) && d != w implies
            !(forall|x: CandidateId| x < n && !placed.contains(x) ==> !#[trigger] schulze_beats(e, x, d)) by {
            assert(schulze_beats(e, w, d));
        }
    }
    lemma_schulze_pick_unique(e, placed, w);
    lemma_schulze_prefix(e, n);
    assert(schulze_prefix(e, 0) =~= placed);
    assert(is_schulze_pick(e, schulze_prefix(e, 0), schulze_ranking(e)[0]));
    lemma_schulze_pick_unique(e, placed, schulze_ranking(e)[0]);
}


/// The pairwise order used to sort candidates by Schulze strength: `a` before `b` when
/// `a` beats `b`, or neither beats the other and `a`'s name comes first (the smaller
/// index among equal names).
pub open spec fn precedes(e: &Election, a: CandidateId, b: CandidateId) -> bool {
    let nm = e.names();
    ||| schulze_beats(e, a, b)
    ||| !schulze_beats(e, b, a) && (name_lt(nm[a as int], nm[b as int]) || (nm[a as int] == nm[b as int] && a < b))
}

/// `precedes` is transitive on the candidates.
pub open spec fn precedence_transitive(e: &Election) -> bool {
    forall|a: CandidateId, b: CandidateId, c: CandidateId|
        a < e.n() && b < e.n() && c < e.n() && #[trigger] precedes(e, a, b) && #[trigger] precedes(e, b, c)
            ==> precedes(e, a, c)
}

/// `precedes` orders any two distinct candidates one way or the other, and no
/// candidate before itself.
pub proof fn lemma_precedence_total(e: &Election, a: CandidateId, b: CandidateId)
    ensures
        !precedes(e, a, a),
        a != b ==> precedes(e, a, b) || precedes(e, b, a),
{
    let nm = e.names();
    lemma_name_lt_irreflexive(nm[a as int]);
    if a != b && nm[a as int] != nm[b as int] {
        lemma_name_lt_total(nm[a as int], nm[b as int]);
    }
}

/// The first of the candidates below `k` not in `placed`, by a transitive `precedes`.
pub proof fn lemma_first_by_precedence(e: &Election, placed: Seq<CandidateId>, k: nat) -> (r: Option<CandidateId>)
    requires
        k <= e.n(),
        e.n() <= usize::MAX,
        precedence_transitive(e),
    ensures
        match r {
            Some(m) => m < k && !placed.contains(m) && forall|d: CandidateId|
                d < k && !placed.contains(d) && d != m ==> #[trigger] precedes(e, m, d),
            None => forall|d: CandidateId| d < k ==> #[trigger] placed.contains(d),
        },
    decreases k,
{
    if k == 0 {
        None
    } else {
        let x = (k - 1) as usize;
        let prev = lemma_first_by_precedence(e, placed, (k - 1) as nat);
        if placed.contains(x) {
            prev
        } else {
            match prev {
                None => Some(x),
                Some(m) => {
                    lemma_precedence_total(e, x, m);
                    if precedes(e, x, m) {
                        assert forall|d: CandidateId| d < k && !placed.contains(d) && d != x implies #[trigger] precedes(e, x, d) by {
                            if d != m {
                                assert(precedes(e, m, d));
                                assert(x < e.n() && m < e.n() && d < e.n());
                            }
                        }
                        Some(x)
                    } else {
                        Some(m)
                    }
                },
            }
        }
    }
}

/// Whenever `precedes` is transitive (so that sorting by it is well defined), the
/// Schulze ranking is sorted by it.
pub proof fn lemma_schulze_sorted_when_consistent(e: &Election)
    requires
        e.wf(),
        precedence_transitive(e),
    ensures
        forall|i: int, j: int| 0 <= i < j < e.n() ==> precedes(e, #[trigger] schulze_ranking(e)[i], #[trigger] schulze_ranking(e)[j]),
{
    let r = schulze_ranking(e);
    let n = e.n();
    let nm = e.names();
    lemma_schulze_prefix(e, n);
    assert forall|i: int, j: int| 0 <= i < j < n implies precedes(e, #[trigger] r[i], #[trigger] r[j]) by {
        let placed = schulze_prefix(e, i as nat);
        assert(r.take(i) == placed);
        assert(is_schulze_pick(e, placed, r[i]));
        assert(!placed.contains(r[j])) by {
            if placed.contains(r[j]) {
                let q = choose|q: int| 0 <= q < placed.len() && placed[q] == r[j];
                assert(r[q] == r[j]);
            }
        }
        let mo = lemma_first_by_precedence(e, placed, n);
        let m = mo.unwrap();
        assert forall|y: CandidateId| y < n && !placed.contains(y) implies !#[trigger] schulze_beats(e, y, m) by {
            if schulze_beats(e, y, m) {
                lemma_precedence_total(e, m, m);
                assert(precedes(e, y, m));
                assert(precedes(e, m, y));
            }
        }
        assert(is_schulze_pick(e, placed, m)) by {
            assert forall|d: CandidateId|
                d < n && !placed.contains(d) && d != m && (forall|x: CandidateId| x < n && !placed.contains(x) ==> !#[trigger] schulze_beats(e, x, d))
                implies #[trigger] name_lt(nm[m as int], nm[d as int]) || (nm[m as int] == nm[d as int] && m < d) by {
                assert(precedes(e, m, d));
                assert(!schulze_beats(e, m, d));
            }
        }
        lemma_schulze_pick_unique(e, placed, m);
        lemma_schulze_pick_unique(e, placed, r[i]);
        assert(r[i] != r[j]);
    }
}

/// The width of a path of at least two candidates: its weakest margin.
pub open spec fn path_width(v: Seq<Seq<CandidateId>>, p: Seq<CandidateId>) -> int
    decreases p.len(),
{
    if p.len() <= 2 {
        margin(v, p[0], p[1])
    } else {
        min_int(path_width(v, p.drop_last()), margin(v, p[p.len() - 2], p.last()))
    }
}

/// The strongest path from one candidate to another is at least as strong as any path
/// between them that passes through no candidate twice.
pub proof fn lemma_path_lower_bound(e: &Election, p: Seq<CandidateId>)
    requires
        e.wf(),
        p.len() >= 2,
        p.no_duplicates(),
        forall|i: int| 0 <= i < p.len() ==> #[trigger] p[i] < e.n(),
    ensures
        path_strength(e, p[0], p.last()) >= path_width(e.votes(), p),
    decreases p.len(),
{
    let v = e.votes();
    let n = e.n();
    let j = p.last();
    if p.len() == 2 {
        lemma_strength_at_least_margin(v, n, p[0], j);
    } else {
        let q = p.drop_last();
        let x = q.last();
        assert(q.no_duplicates()) by {
            assert forall|a: int, b: int| 0 <= a < q.len() && 0 <= b < q.len() && a != b implies q[a] != q[b] by {
                assert(q[a] == p[a] && q[b] == p[b]);
            }
        }
        assert forall|a: int| 0 <= a < q.len() implies #[trigger] q[a] < n by {
            assert(q[a] == p[a]);
        }
        lemma_path_lower_bound(e, q);
        assert(p[0] != j && p[0] != x && x != j) by {
            assert(x == p[p.len() - 2]);
            assert(j == p[p.len() - 1]);
        }
        assert(x < n) by {
            assert(x == p[p.len() - 2]);
        }
        lemma_strength_triangle(v, n, p[0], j, x);
        lemma_strength_at_least_margin(v, n, x, j);
        assert(q[0] == p[0]);
    }
}

/// The margin of the step of path `p` from place `s` to place `s + 1`.
pub open spec fn step_margin(v: Seq<Seq<CandidateId>>, p: Seq<CandidateId>, s: int) -> int {
    margin(v, p[s], p[s + 1])
}

/// The width of a path is its narrowest step: no step is narrower, and the step at the
/// returned place is exactly as narrow.
pub proof fn lemma_width_steps(v: Seq<Seq<CandidateId>>, p: Seq<CandidateId>) -> (t: int)
    requires
        p.len() >= 2,
    ensures
        0 <= t < p.len() - 1,
        path_width(v, p) == step_margin(v, p, t),
        forall|s: int| 0 <= s < p.len() - 1 ==> path_width(v, p) <= #[trigger] step_margin(v, p, s),
    decreases p.len(),
{
    if p.len() == 2 {
        0
    } else {
        let q = p.drop_last();
        let t0 = lemma_width_steps(v, q);
        let l = p.len() - 2;
        assert forall|s: int| 0 <= s < p.len() - 1 implies path_width(v, p) <= #[trigger] step_margin(v, p, s) by {
            if s < l {
                assert(step_margin(v, q, s) == step_margin(v, p, s));
            }
        }
        assert(step_margin(v, q, t0) == step_margin(v, p, t0));
        if path_width(v, q) <= margin(v, p[l], p.last()) {
            t0
        } else {
            l
        }
    }
}

/// A path whose every step is at least `w` wide has width at least `w`.
pub proof fn lemma_width_at_least(v: Seq<Seq<CandidateId>>, p: Seq<CandidateId>, w: int)
    requires
        p.len() >= 2,
        forall|s: int| 0 <= s < p.len() - 1 ==> #[trigger] step_margin(v, p, s) >= w,
    ensures
        path_width(v, p) >= w,
    decreases p.len(),
{
    if p.len() > 2 {
        let q = p.drop_last();
        assert forall|s: int| 0 <= s < q.len() - 1 implies #[trigger] step_margin(v, q, s) >= w by {
            assert(step_margin(v, q, s) == step_margin(v, p, s));
        }
        lemma_width_at_least(v, q, w);
        assert(step_margin(v, p, p.len() - 2) >= w);
        assert(p.last() == p[p.len() - 1]);
    } else {
        assert(step_margin(v, p, 0) >= w);
    }
}

/// Following one path and then another from where it ends: the width is the narrower of
/// the two widths.
pub proof fn lemma_width_concat(v: Seq<Seq<CandidateId>>, p1: Seq<CandidateId>, p2: Seq<CandidateId>)
    requires
        p1.len() >= 2,
        p2.len() >= 2,
        p1.last() == p2[0],
    ensures
        path_width(v, p1 + p2.drop_first()) == min_int(path_width(v, p1), path_width(v, p2)),
{
    let r = p1 + p2.drop_first();
    let l1 = p1.len() as int;
    let t1 = lemma_width_steps(v, p1);
    let t2 = lemma_width_steps(v, p2);
    let t = lemma_width_steps(v, r);
    let w = min_int(path_width(v, p1), path_width(v, p2));
    assert forall|s: int| 0 <= s < r.len() - 1 implies #[trigger] step_margin(v, r, s) >= w by {
        if s < l1 - 1 {
            assert(step_margin(v, r, s) == step_margin(v, p1, s));
        } else {
            assert(r[s] == p2[s - l1 + 1]);
            assert(r[s + 1] == p2[s - l1 + 2]);
            assert(step_margin(v, r, s) == step_margin(v, p2, s - l1 + 1));
        }
    }
    lemma_width_at_least(v, r, w);
    assert(step_margin(v, r, t1) == step_margin(v, p1, t1));
    assert(r[t2 + l1 - 1] == p2[t2]);
    assert(r[t2 + l1] == p2[t2 + 1]);
    assert(step_margin(v, r, t2 + l1 - 1) == step_margin(v, p2, t2));
}

/// For distinct `i`, `j` among the `n` candidates, a path from `i` to `j` over candidates
/// below `n` (possibly passing one twice) whose width is the strength through the
/// candidates below `k`.
pub proof fn lemma_strength_walk(v: Seq<Seq<CandidateId>>, n: nat, k: nat, i: CandidateId, j: CandidateId) -> (p: Seq<CandidateId>)
    requires
        k <= n,
        i != j,
        i < n,
        j < n,
    ensures
        p.len() >= 2,
        p[0] == i,
        p.last() == j,
        forall|s: int| 0 <= s < p.len() ==> #[trigger] p[s] < n,
        path_width(v, p) == strength(v, k, i, j),
    decreases k,
{
    if k == 0 {
        let p = seq![i, j];
        assert(p.last() == j);
        p
    } else {
        let m = (k - 1) as usize;
        let kk = (k - 1) as nat;
        if i == m || j == m || strength(v, kk, i, j) >= min_int(strength(v, kk, i, m), strength(v, kk, m, j)) {
            lemma_strength_walk(v, n, kk, i, j)
        } else {
            let p1 = lemma_strength_walk(v, n, kk, i, m);
            let p2 = lemma_strength_walk(v, n, kk, m, j);
            lemma_width_concat(v, p1, p2);
            let r = p1 + p2.drop_first();
            assert forall|s: int| 0 <= s < r.len() implies #[trigger] r[s] < n by {
                if s >= p1.len() {
                    assert(r[s] == p2[s - p1.len() + 1]);
                }
            }
            assert(r.last() == p2.last());
            r
        }
    }
}

/// Cutting the loops out of a path from one candidate to another leaves a path that
/// passes through no candidate twice, with the same ends and at least the same width.
pub proof fn lemma_walk_to_path(v: Seq<Seq<CandidateId>>, n: nat, p: Seq<CandidateId>) -> (q: Seq<CandidateId>)
    requires
        p.len() >= 2,
        p[0] != p.last(),
        forall|s: int| 0 <= s < p.len() ==> #[trigger] p[s] < n,
    ensures
        q.len() >= 2,
        q[0] == p[0],
        q.last() == p.last(),
        q.no_duplicates(),
        forall|s: int| 0 <= s < q.len() ==> #[trigger] q[s] < n,
        path_width(v, q) >= path_width(v, p),
    decreases p.len(),
{
    if p.no_duplicates() {
        p
    } else {
        let (x, y) = choose|x: int, y: int| 0 <= x < p.len() && 0 <= y < p.len() && x != y && p[x] == p[y];
        let a = if x < y { x } else { y };
        let b = if x < y { y } else { x };
        let q0 = p.take(a + 1) + p.skip(b + 1);
        let d = b - a;
        assert(q0.len() == p.len() - d);
        assert(q0.len() >= 2) by {
            if q0.len() < 2 {
                assert(a == 0 && b == p.len() - 1);
                assert(p[0] == p[p.len() - 1]);
            }
        }
        assert(q0[0] == p[0]);
        assert(q0.last() == p.last()) by {
            if b == p.len() - 1 {
                assert(q0.last() == p[a]);
            } else {
                assert(q0.last() == p[p.len() - 1]);
            }
        }
        assert forall|s: int| 0 <= s < q0.len() implies #[trigger] q0[s] < n by {
            if s <= a {
                assert(q0[s] == p[s]);
            } else {
                assert(q0[s] == p[s + d]);
            }
        }
        lemma_width_steps(v, p);
        let w = path_width(v, p);
        assert forall|s: int| 0 <= s < q0.len() - 1 implies #[trigger] step_margin(v, q0, s) >= w by {
            if s < a {
                assert(q0[s] == p[s] && q0[s + 1] == p[s + 1]);
                assert(step_margin(v, q0, s) == step_margin(v, p, s));
            } else if s == a {
                assert(q0[s] == p[b] && q0[s + 1] == p[b + 1]);
                assert(step_margin(v, q0, s) == step_margin(v, p, b));
            } else {
                assert(q0[s] == p[s + d] && q0[s + 1] == p[s + d + 1]);
                assert(step_margin(v, q0, s) == step_margin(v, p, s + d));
            }
        }
        lemma_width_at_least(v, q0, w);
        lemma_walk_to_path(v, n, q0)
    }
}

/// The strongest path is attained: for distinct candidates `x` and `y`, some path from
/// `x` to `y` that passes through no candidate twice is exactly as strong as
/// `path_strength(e, x, y)`.
pub proof fn lemma_path_attained(e: &Election, x: CandidateId, y: CandidateId) -> (p: Seq<CandidateId>)
    requires
        e.wf(),
        x < e.n(),
        y < e.n(),
        x != y,
    ensures
        p.len() >= 2,
        p[0] == x,
        p.last() == y,
        p.no_duplicates(),
        forall|s: int| 0 <= s < p.len() ==> #[trigger] p[s] < e.n(),
        path_width(e.votes(), p) == path_strength(e, x, y),
{
    let w = lemma_strength_walk(e.votes(), e.n(), e.n(), x, y);
    let p = lemma_walk_to_path(e.votes(), e.n(), w);
    lemma_path_lower_bound(e, p);
    p
}

/// How the Schulze ranking picks each place: the candidate placed there is beaten, in
/// strongest paths, by none of the candidates not yet placed; and of the candidates not
/// yet placed that none of them beats, it is the one whose name comes first in
/// dictionary order (the smallest index among equal names).
pub proof fn lemma_schulze_places(e: &Election, i: int)
    requires
        e.wf(),
        0 <= i < e.n(),
    ensures
        ({
            let r = schulze_ranking(e);
            let nm = e.names();
            let c = r[i];
            let placed = r.take(i);
            &&& c < e.n()
            &&& !placed.contains(c)
            &&& forall|d: CandidateId|
                d < e.n() && !placed.contains(d) ==> #[trigger] path_strength(e, d, c) <= path_strength(e, c, d)
            &&& forall|d: CandidateId|
                d < e.n() && !placed.contains(d) && d != c && (forall|x: CandidateId|
                    x < e.n() && !placed.contains(x) ==> #[trigger] path_strength(e, x, d) <= path_strength(e, d, x))
                    ==> #[trigger] name_lt(nm[c as int], nm[d as int]) || (nm[c as int] == nm[d as int] && c < d)
        }),
{
    let n = e.n();
    lemma_schulze_prefix(e, n);
    let r = schulze_ranking(e);
    let placed = schulze_prefix(e, i as nat);
    assert(r.take(i) == placed);
    let c = r[i];
    assert(is_schulze_pick(e, placed, c));
    assert forall|d: CandidateId| d < n && !placed.contains(d) implies #[trigger] path_strength(e, d, c) <= path_strength(e, c, d) by {
        assert(!schulze_beats(e, d, c));
    }
    let nm = e.names();
    assert forall|d: CandidateId|
        d < n && !placed.contains(d) && d != c && (forall|x: CandidateId|
            x < n && !placed.contains(x) ==> #[trigger] path_strength(e, x, d) <= path_strength(e, d, x))
        implies #[trigger] name_lt(nm[c as int], nm[d as int]) || (nm[c as int] == nm[d as int] && c < d) by {
        assert forall|x: CandidateId| x < n && !placed.contains(x) implies !#[trigger] schulze_beats(e, x, d) by {
            assert(path_strength(e, x, d) <= path_strength(e, d, x));
        }
    }
}

} // verus!
