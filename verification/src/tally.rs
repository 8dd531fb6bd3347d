use vstd::prelude::*;
use crate::types::{CandidateId, Election, valid_ballot};

verus! {

/// Ballot `b` ranks `x` above `y`: it names `x`, and either does not name `y` or
/// names it later.
pub open spec fn prefers(b: Seq<CandidateId>, x: CandidateId, y: CandidateId) -> bool {
    &&& b.contains(x)
    &&& (!b.contains(y) || b.index_of(x) < b.index_of(y))
}

/// The number of ballots that rank `x` above `y`.
pub open spec fn pref_count(v: Seq<Seq<CandidateId>>, x: CandidateId, y: CandidateId) -> nat
    decreases v.len(),
{
    if v.len() == 0 {
        0
    } else {
        pref_count(v.drop_last(), x, y) + if prefers(v.last(), x, y) { 1nat } else { 0nat }
    }
}

/// The number of ballots whose first choice is `c`.
pub open spec fn first_count(v: Seq<Seq<CandidateId>>, c: CandidateId) -> nat
    decreases v.len(),
{
    if v.len() == 0 {
        0
    } else {
        first_count(v.drop_last(), c) + if v.last().len() > 0 && v.last()[0] == c { 1nat } else { 0nat }
    }
}

/// In a ballot without repeats, the candidate at place `k` is found at place `k`.
pub proof fn lemma_index_of_unique(b: Seq<CandidateId>, k: int)
    requires
        b.no_duplicates(),
        0 <= k < b.len(),
    ensures
        b.contains(b[k]),
        b.index_of(b[k]) == k,
{
    assert(b.contains(b[k]));
    let i = b.index_of(b[k]);
    assert(0 <= i < b.len() && b[i] == b[k]);
}

/// The place of each candidate on a valid ballot, or `usize::MAX` for those it omits.
pub fn positions(b: &Vec<CandidateId>, n: usize) -> (pos: Vec<usize>)
    requires
        forall|i: int| 0 <= i < b@.len() ==> #[trigger] b@[i] < n,
        b@.no_duplicates(),
    ensures
        pos@.len() == n,
        forall|c: usize|
            c < n ==> if b@.contains(c) {
                #[trigger] pos@[c as int] == b@.index_of(c)
            } else {
                pos@[c as int] == usize::MAX
            },
{
    let mut pos: Vec<usize> = Vec::new();
    let mut c: usize = 0;
    while c < n
        invariant
            c <= n,
            pos@.len() == c,
            forall|d: int| 0 <= d < c ==> #[trigger] pos@[d] == usize::MAX,
        decreases n - c,
    {
        pos.push(usize::MAX);
        c = c + 1;
    }
    let mut k: usize = 0;
    while k < b.len()
        invariant
            k <= b.len(),
            pos@.len() == n,
            forall|i: int| 0 <= i < b@.len() ==> #[trigger] b@[i] < n,
            b@.no_duplicates(),
            forall|i: int| 0 <= i < k ==> #[trigger] pos@[b@[i] as int] == i,
            forall|d: usize| d < n && !b@.subrange(0, k as int).contains(d) ==> #[trigger] pos@[d as int] == usize::MAX,
        decreases b.len() - k,
    {
        let x = b[k];
        pos.set(x, k);
        proof {
            assert forall|d: usize| d < n && !b@.subrange(0, k + 1).contains(d) implies #[trigger] pos@[d as int] == usize::MAX by {
                if b@.subrange(0, k as int).contains(d) {
                    let j = choose|j: int| 0 <= j < k && b@.subrange(0, k as int)[j] == d;
                    assert(b@.subrange(0, k + 1)[j] == d);
                }
                assert(b@.subrange(0, k + 1)[k as int] == x);
            }
        }
        k = k + 1;
    }
    proof {
        assert forall|c: usize| c < n implies if b@.contains(c) {
            #[trigger] pos@[c as int] == b@.index_of(c)
        } else {
            pos@[c as int] == usize::MAX
        } by {
            if b@.contains(c) {
                let j = choose|j: int| 0 <= j < b@.len() && b@[j] == c;
                lemma_index_of_unique(b@, j);
            } else {
                if b@.subrange(0, b@.len() as int).contains(c) {
                    let j = choose|j: int| 0 <= j < b@.len() && b@.subrange(0, b@.len() as int)[j] == c;
                    assert(b@[j] == c);
                }
            }
        }
    }
    pos
}


/// No more ballots rank `x` above `y` than there are ballots.
pub proof fn lemma_pref_count_bound(v: Seq<Seq<CandidateId>>, x: CandidateId, y: CandidateId)
    ensures
        pref_count(v, x, y) <= v.len(),
    decreases v.len(),
{
    if v.len() > 0 {
        lemma_pref_count_bound(v.drop_last(), x, y);
    }
}

/// No more ballots have `c` first than there are ballots.
pub proof fn lemma_first_count_bound(v: Seq<Seq<CandidateId>>, c: CandidateId)
    ensures
        first_count(v, c) <= v.len(),
    decreases v.len(),
{
    if v.len() > 0 {
        lemma_first_count_bound(v.drop_last(), c);
    }
}

/// Counting over one more ballot adds that ballot's contribution.
pub proof fn lemma_take_step(v: Seq<Seq<CandidateId>>, k: int)
    requires
        0 <= k < v.len(),
    ensures
        v.take(k + 1).drop_last() =~= v.take(k),
        v.take(k + 1).last() == v[k],
{
}

/// Duel counts add up over two lists of ballots cast one after the other.
pub proof fn lemma_pref_count_concat(v1: Seq<Seq<CandidateId>>, v2: Seq<Seq<CandidateId>>, x: CandidateId, y: CandidateId)
    ensures
        pref_count(v1 + v2, x, y) == pref_count(v1, x, y) + pref_count(v2, x, y),
    decreases v2.len(),
{
    if v2.len() == 0 {
        assert(v1 + v2 =~= v1);
    } else {
        lemma_pref_count_concat(v1, v2.drop_last(), x, y);
        assert((v1 + v2).drop_last() =~= v1 + v2.drop_last());
        assert((v1 + v2).last() == v2.last());
    }
}

/// On a ballot without repeats, of two candidates it names the one at the earlier place
/// is preferred; a named candidate is preferred to an unnamed one; an unnamed candidate
/// is preferred to no one.
pub proof fn lemma_prefers_by_place(b: Seq<CandidateId>, i: int, j: int, x: CandidateId, y: CandidateId)
    requires
        b.no_duplicates(),
        0 <= i < b.len(),
        0 <= j < b.len(),
    ensures
        prefers(b, b[i], b[j]) <==> i < j,
        !b.contains(y) ==> prefers(b, b[i], y),
        !b.contains(x) ==> !prefers(b, x, y),
{
    lemma_index_of_unique(b, i);
    lemma_index_of_unique(b, j);
}

/// A one-ballot list counts 1 for a duel exactly when that ballot prefers the winner of
/// the duel.
pub proof fn lemma_pref_count_single(b: Seq<CandidateId>, x: CandidateId, y: CandidateId)
    ensures
        pref_count(seq![b], x, y) == if prefers(b, x, y) { 1nat } else { 0nat },
{
    let one = seq![b];
    assert(one.drop_last() =~= Seq::<Seq<CandidateId>>::empty());
    assert(one.last() == b);
    assert(pref_count(one.drop_last(), x, y) == 0);
}

/// First places add up over two lists of ballots, and a single ballot gives one first
/// place, to the candidate it names first.
pub proof fn lemma_first_count_adds(v1: Seq<Seq<CandidateId>>, v2: Seq<Seq<CandidateId>>, c: CandidateId, b: Seq<CandidateId>)
    ensures
        first_count(v1 + v2, c) == first_count(v1, c) + first_count(v2, c),
        first_count(seq![b], c) == if b.len() > 0 && b[0] == c { 1nat } else { 0nat },
    decreases v2.len(),
{
    let one = seq![b];
    assert(one.drop_last() =~= Seq::<Seq<CandidateId>>::empty());
    assert(one.last() == b);
    assert(first_count(one.drop_last(), c) == 0);
    if v2.len() == 0 {
        assert(v1 + v2 =~= v1);
    } else {
        lemma_first_count_adds(v1, v2.drop_last(), c, b);
        assert((v1 + v2).drop_last() =~= v1 + v2.drop_last());
        assert((v1 + v2).last() == v2.last());
    }
}

/// The duel matrix `m`: `m[x][y]` ballots rank `x` above `y`.
pub open spec fn is_duel_matrix(m: Seq<Vec<usize>>, v: Seq<Seq<CandidateId>>, n: nat) -> bool {
    &&& m.len() == n
    &&& forall|i: int| 0 <= i < n ==> (#[trigger] m[i])@.len() == n
    &&& forall|i: int, j: int| 0 <= i < n && 0 <= j < n ==> #[trigger] m[i]@[j] == pref_count(v, i as usize, j as usize)
}

/// The duel matrix of two lists of ballots cast one after the other is the sum of their
/// duel matrices.
pub proof fn lemma_duel_matrix_concat(
    m1: Seq<Vec<usize>>,
    m2: Seq<Vec<usize>>,
    m: Seq<Vec<usize>>,
    v1: Seq<Seq<CandidateId>>,
    v2: Seq<Seq<CandidateId>>,
    n: nat,
)
    requires
        is_duel_matrix(m1, v1, n),
        is_duel_matrix(m2, v2, n),
        is_duel_matrix(m, v1 + v2, n),
    ensures
        forall|i: int, j: int| 0 <= i < n && 0 <= j < n ==> #[trigger] m[i]@[j] == m1[i]@[j] + m2[i]@[j],
{
    assert forall|i: int, j: int| 0 <= i < n && 0 <= j < n implies #[trigger] m[i]@[j] == m1[i]@[j] + m2[i]@[j] by {
        lemma_pref_count_concat(v1, v2, i as usize, j as usize);
    }
}

/// An `n` by `n` matrix of zeros.
pub fn zero_matrix(n: usize) -> (m: Vec<Vec<usize>>)
    ensures
        m@.len() == n,
        forall|i: int| 0 <= i < n ==> (#[trigger] m@[i])@.len() == n,
        forall|i: int, j: int| 0 <= i < n && 0 <= j < n ==> #[trigger] m@[i]@[j] == 0,
{
    let mut m: Vec<Vec<usize>> = Vec::new();
    let mut i: usize = 0;
    while i < n
        invariant
            i <= n,
            m@.len() == i,
            forall|a: int| 0 <= a < i ==> (#[trigger] m@[a])@.len() == n,
            forall|a: int, b: int| 0 <= a < i && 0 <= b < n ==> #[trigger] m@[a]@[b] == 0,
        decreases n - i,
    {
        let mut row: Vec<usize> = Vec::new();
        let mut j: usize = 0;
        while j < n
            invariant
                j <= n,
                row@.len() == j,
                forall|b: int| 0 <= b < j ==> #[trigger] row@[b] == 0,
            decreases n - j,
        {
            row.push(0);
            j = j + 1;
        }
        m.push(row);
        i = i + 1;
    }
    m
}

/// Adds one valid ballot to a duel matrix.
pub fn add_ballot_duels(m: &mut Vec<Vec<usize>>, b: &Vec<CandidateId>, n: usize, Ghost(v): Ghost<Seq<Seq<CandidateId>>>)
    requires
        is_duel_matrix(old(m)@, v, n as nat),
        v.len() < usize::MAX,
        forall|i: int| 0 <= i < b@.len() ==> #[trigger] b@[i] < n,
        b@.no_duplicates(),
    ensures
        is_duel_matrix(final(m)@, v.push(b@), n as nat),
{
    let pos = positions(b, n);
    let ghost w = v.push(b@);
    assert(w.drop_last() =~= v);
    let ghost m0 = m@;
    let mut i: usize = 0;
    while i < n
        invariant
            pos@.len() == n,
            forall|c: usize|
                c < n ==> if b@.contains(c) {
                    #[trigger] pos@[c as int] == b@.index_of(c)
                } else {
                    pos@[c as int] == usize::MAX
                },
            i <= n,
            v.len() < usize::MAX,
            b@.no_duplicates(),
            w == v.push(b@),
            w.drop_last() == v,
            m@.len() == n,
            forall|a: int| 0 <= a < n ==> (#[trigger] m@[a])@.len() == n,
            forall|x: int, y: int| 0 <= x < n && 0 <= y < n ==> #[trigger] m@[x]@[y] == pref_count(
                if x < i { w } else { v },
                x as usize,
                y as usize,
            ),
        decreases n - i,
    {
        let mut j: usize = 0;
        while j < n
            invariant
                pos@.len() == n,
                forall|c: usize|
                    c < n ==> if b@.contains(c) {
                        #[trigger] pos@[c as int] == b@.index_of(c)
                    } else {
                        pos@[c as int] == usize::MAX
                    },
                i < n,
                j <= n,
                v.len() < usize::MAX,
                b@.no_duplicates(),
                w == v.push(b@),
                w.drop_last() == v,
                m@.len() == n,
                forall|a: int| 0 <= a < n ==> (#[trigger] m@[a])@.len() == n,
                forall|x: int, y: int| 0 <= x < n && 0 <= y < n ==> #[trigger] m@[x]@[y] == pref_count(
                    if x < i || (x == i && y < j) { w } else { v },
                    x as usize,
                    y as usize,
                ),
            decreases n - j,
        {
            proof {
                if b@.contains(i) {
                    let k = choose|k: int| 0 <= k < b@.len() && b@[k] == i;
                    lemma_index_of_unique(b@, k);
                }
                if b@.contains(j) {
                    let k = choose|k: int| 0 <= k < b@.len() && b@[k] == j;
                    lemma_index_of_unique(b@, k);
                }
                assert(b@.len() == b.len());
                let pi = pos@[i as int];
                let pj = pos@[j as int];
                if b@.contains(i) {
                    assert(pi == b@.index_of(i));
                    if b@.contains(j) {
                        assert(pj == b@.index_of(j));
                    } else {
                        assert(pj == usize::MAX);
                    }
                } else {
                    assert(pi == usize::MAX);
                }
                assert(pos@[i as int] < pos@[j as int] <==> prefers(b@, i, j));
                lemma_pref_count_bound(v, i, j);
                assert(m@[i as int]@[j as int] == pref_count(v, i, j));
            }
            if pos[i] < pos[j] {
                m[i][j] = m[i][j] + 1;
            }
            j = j + 1;
        }
        i = i + 1;
    }
}


/// A vector of `n` zeros.
pub fn zeros(n: usize) -> (r: Vec<usize>)
    ensures
        r@.len() == n,
        forall|i: int| 0 <= i < n ==> #[trigger] r@[i] == 0,
{
    let mut r: Vec<usize> = Vec::new();
    let mut i: usize = 0;
    while i < n
        invariant
            i <= n,
            r@.len() == i,
            forall|a: int| 0 <= a < i ==> #[trigger] r@[a] == 0,
        decreases n - i,
    {
        r.push(0);
        i = i + 1;
    }
    r
}

/// The number of first places of each candidate.
pub fn first_choice_counts(e: &Election) -> (r: Vec<usize>)
    requires
        e.wf(),
    ensures
        r@.len() == e.n(),
        forall|c: int| 0 <= c < e.n() ==> #[trigger] r@[c] == first_count(e.votes(), c as usize),
{
    let n = e.candidates.len();
    let ghost v = e.votes();
    let mut r = zeros(n);
    let mut k: usize = 0;
    while k < e.ballots.len()
        invariant
            e.wf(),
            n == e.n(),
            v == e.votes(),
            k <= v.len(),
            r@.len() == n,
            forall|c: int| 0 <= c < n ==> #[trigger] r@[c] == first_count(v.take(k as int), c as usize),
        decreases v.len() - k,
    {
        let b = &e.ballots[k].ranking;
        proof {
            assert(v[k as int] == b@);
            assert(valid_ballot(v[k as int], e.n()));
            lemma_take_step(v, k as int);
        }
        if b.len() > 0 {
            let c = b[0];
            proof {
                lemma_first_count_bound(v.take(k as int), c);
            }
            r.set(c, r[c] + 1);
        }
        k = k + 1;
    }
    proof {
        assert(v.take(v.len() as int) =~= v);
    }
    r
}


/// Whether valid ballot `b` ranks `x` above `y`.
pub fn ballot_prefers(b: &Vec<CandidateId>, x: CandidateId, y: CandidateId) -> (r: bool)
    requires
        b@.no_duplicates(),
        x != y,
    ensures
        r == prefers(b@, x, y),
{
    let mut i: usize = 0;
    while i < b.len()
        invariant
            b@.no_duplicates(),
            x != y,
            i <= b@.len(),
            forall|j: int| 0 <= j < i ==> #[trigger] b@[j] != x && b@[j] != y,
        decreases b@.len() - i,
    {
        if b[i] == x {
            proof {
                lemma_index_of_unique(b@, i as int);
                if b@.contains(y) {
                    let j = choose|j: int| 0 <= j < b@.len() && b@[j] == y;
                    lemma_index_of_unique(b@, j);
                }
            }
            return true;
        }
        if b[i] == y {
            proof {
                lemma_index_of_unique(b@, i as int);
                if b@.contains(x) {
                    let j = choose|j: int| 0 <= j < b@.len() && b@[j] == x;
                    lemma_index_of_unique(b@, j);
                }
            }
            return false;
        }
        i = i + 1;
    }
    false
}

/// The two sides of the duel between `x` and `y`: how many ballots rank `x` above `y`,
/// and how many rank `y` above `x`.
pub fn duel(e: &Election, x: CandidateId, y: CandidateId) -> (r: (usize, usize))
    requires
        e.wf(),
        x != y,
    ensures
        r.0 == pref_count(e.votes(), x, y),
        r.1 == pref_count(e.votes(), y, x),
{
    let ghost v = e.votes();
    let mut s1: usize = 0;
    let mut s2: usize = 0;
    let mut k: usize = 0;
    while k < e.ballots.len()
        invariant
            e.wf(),
            x != y,
            v == e.votes(),
            k <= v.len(),
            s1 == pref_count(v.take(k as int), x, y),
            s2 == pref_count(v.take(k as int), y, x),
        decreases v.len() - k,
    {
        let b = &e.ballots[k].ranking;
        proof {
            assert(v[k as int] == b@);
            assert(valid_ballot(v[k as int], e.n()));
            lemma_take_step(v, k as int);
            lemma_pref_count_bound(v.take(k as int), x, y);
            lemma_pref_count_bound(v.take(k as int), y, x);
        }
        if ballot_prefers(b, x, y) {
            s1 = s1 + 1;
        }
        if ballot_prefers(b, y, x) {
            s2 = s2 + 1;
        }
        k = k + 1;
    }
    proof {
        assert(v.take(v.len() as int) =~= v);
    }
    (s1, s2)
}

/// With a single candidate, every valid ballot puts it first.
pub proof fn lemma_single_candidate(v: Seq<Seq<CandidateId>>)
    requires
        forall|i: int| 0 <= i < v.len() ==> valid_ballot(#[trigger] v[i], 1),
    ensures
        first_count(v, 0) == v.len(),
    decreases v.len(),
{
    if v.len() > 0 {
        assert(valid_ballot(v[v.len() - 1], 1));
        assert(v.last()[0] < 1);
        lemma_single_candidate(v.drop_last());
    }
}


/// Borda points of `c` on ballot `b` among `n` candidates: the candidate in first place
/// gets `n - 1` points, the next `n - 2`, and so on; a candidate the ballot does not
/// name gets none.
pub open spec fn borda_points(b: Seq<CandidateId>, c: CandidateId, n: nat) -> int {
    if b.contains(c) {
        n - 1 - b.index_of(c)
    } else {
        0
    }
}

/// The total Borda points of `c` over all ballots.
pub open spec fn borda_score(v: Seq<Seq<CandidateId>>, c: CandidateId, n: nat) -> int
    decreases v.len(),
{
    if v.len() == 0 {
        0
    } else {
        borda_score(v.drop_last(), c, n) + borda_points(v.last(), c, n)
    }
}

/// Borda points fall by exactly one per place: the candidate at place `k` of a ballot
/// without repeats gets `n - 1 - k` points, so first place gets `n - 1` and each place one
/// more than the next; a candidate the ballot does not name gets none.
pub proof fn lemma_borda_points_by_place(b: Seq<CandidateId>, n: nat, k: int, c: CandidateId)
    requires
        b.no_duplicates(),
        0 <= k < b.len(),
    ensures
        borda_points(b, b[k], n) == n - 1 - k,
        borda_points(b, b[0], n) == n - 1,
        k + 1 < b.len() ==> borda_points(b, b[k], n) == borda_points(b, b[k + 1], n) + 1,
        !b.contains(c) ==> borda_points(b, c, n) == 0,
{
    lemma_index_of_unique(b, k);
    lemma_index_of_unique(b, 0);
    if k + 1 < b.len() {
        lemma_index_of_unique(b, k + 1);
    }
}

/// A Borda total over two lists of ballots is the sum of the totals, and over one ballot
/// it is that ballot's points.
pub proof fn lemma_borda_score_adds(v1: Seq<Seq<CandidateId>>, v2: Seq<Seq<CandidateId>>, c: CandidateId, n: nat, b: Seq<CandidateId>)
    ensures
        borda_score(v1 + v2, c, n) == borda_score(v1, c, n) + borda_score(v2, c, n),
        borda_score(seq![b], c, n) == borda_points(b, c, n),
    decreases v2.len(),
{
    let one = seq![b];
    assert(one.drop_last() =~= Seq::<Seq<CandidateId>>::empty());
    assert(one.last() == b);
    assert(borda_score(one.drop_last(), c, n) == 0);
    assert(borda_score(one, c, n) == borda_score(one.drop_last(), c, n) + borda_points(one.last(), c, n));
    if v2.len() == 0 {
        assert(v1 + v2 =~= v1);
    } else {
        lemma_borda_score_adds(v1, v2.drop_last(), c, n, b);
        assert((v1 + v2).drop_last() =~= v1 + v2.drop_last());
        assert((v1 + v2).last() == v2.last());
    }
}

/// Borda totals stay between 0 and `n` points per ballot.
pub proof fn lemma_borda_score_bound(v: Seq<Seq<CandidateId>>, c: CandidateId, n: nat)
    requires
        n <= usize::MAX,
        forall|i: int| 0 <= i < v.len() ==> valid_ballot(#[trigger] v[i], n),
    ensures
        0 <= borda_score(v, c, n) <= v.len() * n,
    decreases v.len(),
{
    if v.len() > 0 {
        let b = v.last();
        assert(valid_ballot(v[v.len() - 1], n));
        if b.contains(c) {
            let j = choose|j: int| 0 <= j < b.len() && b[j] == c;
            lemma_index_of_unique(b, j);
            lemma_valid_ballot_len(b, n);
        }
        assert forall|i: int| 0 <= i < v.drop_last().len() implies valid_ballot(#[trigger] v.drop_last()[i], n) by {
            assert(v.drop_last()[i] == v[i]);
        }
        lemma_borda_score_bound(v.drop_last(), c, n);
        assert((v.len() - 1) * n + n == v.len() * n) by (nonlinear_arith);
    }
}

/// The candidates `0 .. n` as a set.
pub open spec fn below(n: nat) -> Set<CandidateId> {
    Set::new(|x: CandidateId| x < n)
}

/// There are `n` candidates below `n`.
pub proof fn lemma_below_len(n: nat)
    requires
        n <= usize::MAX,
    ensures
        below(n).finite(),
        below(n).len() == n,
    decreases n,
{
    if n == 0 {
        assert(below(n) =~= Set::empty());
    } else {
        lemma_below_len((n - 1) as nat);
        assert(below((n - 1) as nat).insert((n - 1) as usize) =~= below(n));
    }
}

/// A sequence of distinct candidates below `n` has at most `n` entries.
pub proof fn lemma_distinct_len(b: Seq<CandidateId>, n: nat)
    requires
        n <= usize::MAX,
        b.no_duplicates(),
        forall|i: int| 0 <= i < b.len() ==> #[trigger] b[i] < n,
    ensures
        b.len() <= n,
{
    assert forall|x: CandidateId| #[trigger] b.to_set().contains(x) implies below(n).contains(x) by {
        let j = choose|j: int| 0 <= j < b.len() && b[j] == x;
    }
    b.unique_seq_to_set();
    lemma_below_len(n);
    vstd::set_lib::lemma_len_subset(b.to_set(), below(n));
}

/// A sequence of fewer than `n` candidates misses one of the candidates below `n`.
pub proof fn lemma_missing_candidate(b: Seq<CandidateId>, n: nat) -> (c: CandidateId)
    requires
        n <= usize::MAX,
        b.len() < n,
    ensures
        c < n,
        !b.contains(c),
{
    b.lemma_cardinality_of_set();
    lemma_below_len(n);
    if below(n).subset_of(b.to_set()) {
        vstd::set_lib::lemma_len_subset(below(n), b.to_set());
    }
    let c = choose|c: CandidateId| below(n).contains(c) && !b.to_set().contains(c);
    c
}

/// A valid ballot names at most `n` candidates.
pub proof fn lemma_valid_ballot_len(b: Seq<CandidateId>, n: nat)
    requires
        valid_ballot(b, n),
        n <= usize::MAX,
    ensures
        b.len() <= n,
{
    lemma_distinct_len(b, n);
}


/// A product of two machine-sized counts fits in 128 bits.
pub proof fn lemma_product_fits(a: int, b: int)
    requires
        0 <= a <= usize::MAX,
        0 <= b <= usize::MAX,
    ensures
        a * b <= 0xffff_ffff_ffff_fffe_0000_0000_0000_0001int,
{
    assert(usize::MAX <= 0xffff_ffff_ffff_ffff);
    assert(a * b <= 0xffff_ffff_ffff_ffffint * 0xffff_ffff_ffff_ffffint) by (nonlinear_arith)
        requires
            0 <= a <= 0xffff_ffff_ffff_ffffint,
            0 <= b <= 0xffff_ffff_ffff_ffffint,
    ;
}

/// Each candidate's total Borda points.
pub fn borda_scores(e: &Election) -> (r: Vec<u128>)
    requires
        e.wf(),
    ensures
        r@.len() == e.n(),
        forall|c: int| 0 <= c < e.n() ==> #[trigger] r@[c] == borda_score(e.votes(), c as usize, e.n()),
{
    let n = e.candidates.len();
    let ghost v = e.votes();
    let mut r: Vec<u128> = Vec::new();
    let mut c: usize = 0;
    while c < n
        invariant
            c <= n,
            r@.len() == c,
            forall|d: int| 0 <= d < c ==> #[trigger] r@[d] == 0,
        decreases n - c,
    {
        r.push(0);
        c = c + 1;
    }
    let nb = e.ballots.len();
    let mut k: usize = 0;
    while k < nb
        invariant
            e.wf(),
            n == e.n(),
            v == e.votes(),
            v.len() == nb,
            k <= v.len(),
            r@.len() == n,
            forall|c: int| 0 <= c < n ==> #[trigger] r@[c] == borda_score(v.take(k as int), c as usize, n as nat),
        decreases v.len() - k,
    {
        let b = &e.ballots[k].ranking;
        let ghost base = r@;
        proof {
            assert(v[k as int] == b@);
            assert(valid_ballot(v[k as int], e.n()));
            lemma_take_step(v, k as int);
            lemma_valid_ballot_len(b@, n as nat);
        }
        let mut p: usize = 0;
        while p < b.len()
            invariant
                e.wf(),
                v == e.votes(),
                v.len() == nb,
                n == e.n(),
                valid_ballot(b@, n as nat),
                b@.len() <= n,
                k < v.len(),
                p <= b@.len(),
                r@.len() == n,
                base.len() == n,
                forall|c: int| 0 <= c < n ==> #[trigger] base[c] == borda_score(v.take(k as int), c as usize, n as nat),
                forall|c: int| 0 <= c < n ==> #[trigger] r@[c] == base[c] + if b@.subrange(0, p as int).contains(c as usize) {
                    n - 1 - b@.index_of(c as usize)
                } else {
                    0
                },
            decreases b@.len() - p,
        {
            let x = b[p];
            proof {
                lemma_index_of_unique(b@, p as int);
                if b@.subrange(0, p as int).contains(x) {
                    let q = choose|q: int| 0 <= q < p && b@.subrange(0, p as int)[q] == x;
                    assert(b@[q] == b@[p as int]);
                }
                assert forall|i: int| 0 <= i < v.take(k as int).len() implies valid_ballot(#[trigger] v.take(k as int)[i], n as nat) by {
                    assert(v.take(k as int)[i] == v[i]);
                }
                lemma_borda_score_bound(v.take(k as int), x, n as nat);
                assert((k as int) * (n as int) + n == (k + 1) * (n as int)) by (nonlinear_arith);
                lemma_product_fits(k + 1, n as int);
            }
            r.set(x, r[x] + (n - 1 - p) as u128);
            proof {
                assert forall|c: int| 0 <= c < n implies #[trigger] r@[c] == base[c] + if b@.subrange(0, p + 1).contains(c as usize) {
                    n - 1 - b@.index_of(c as usize)
                } else {
                    0
                } by {
                    if c == x {
                        assert(b@.subrange(0, p + 1)[p as int] == x);
                    } else {
                        let s1 = b@.subrange(0, p + 1);
                        let s0 = b@.subrange(0, p as int);
                        let cu = c as usize;
                        if s1.contains(cu) {
                            let q = choose|q: int| 0 <= q < s1.len() && s1[q] == cu;
                            assert(s0[q] == cu);
                        }
                        if s0.contains(cu) {
                            let q = choose|q: int| 0 <= q < s0.len() && s0[q] == cu;
                            assert(s1[q] == cu);
                        }
                    }
                }
            }
            p = p + 1;
        }
        proof {
            assert(b@.subrange(0, b@.len() as int) =~= b@);
        }
        k = k + 1;
    }
    proof {
        assert(v.take(v.len() as int) =~= v);
    }
    r
}


/// The first candidate on ballot `b` that is still in the race (`active`), if any.
pub open spec fn first_active(b: Seq<CandidateId>, active: Seq<bool>) -> Option<CandidateId>
    decreases b.len(),
{
    if b.len() == 0 {
        None
    } else if active[b[0] as int] {
        Some(b[0])
    } else {
        first_active(b.drop_first(), active)
    }
}

/// A ballot counts for the first candidate on it, at any depth, that is still in the
/// race: if some candidate on `b` is in the race, the result is the one at the least such
/// place; otherwise there is none.
pub proof fn lemma_first_active_is_first(b: Seq<CandidateId>, active: Seq<bool>)
    ensures
        match first_active(b, active) {
            Some(c) => exists|k: int|
                0 <= k < b.len() && b[k] == c && active[c as int] && forall|j: int| 0 <= j < k ==> !active[#[trigger] b[j] as int],
            None => forall|k: int| 0 <= k < b.len() ==> !active[#[trigger] b[k] as int],
        },
    decreases b.len(),
{
    if b.len() > 0 {
        let t = b.drop_first();
        lemma_first_active_is_first(t, active);
        if active[b[0] as int] {
            assert(0 <= 0 < b.len() && b[0] == b[0] && active[b[0] as int] && forall|j: int| 0 <= j < 0 ==> !active[#[trigger] b[j] as int]);
        } else {
            match first_active(t, active) {
                Some(c) => {
                    let k = choose|k: int|
                        0 <= k < t.len() && t[k] == c && active[c as int] && forall|j: int| 0 <= j < k ==> !active[#[trigger] t[j] as int];
                    assert forall|j: int| 0 <= j < k + 1 implies !active[#[trigger] b[j] as int] by {
                        if j > 0 {
                            assert(b[j] == t[j - 1]);
                        }
                    }
                    assert(b[k + 1] == c);
                },
                None => {
                    assert forall|k: int| 0 <= k < b.len() implies !active[#[trigger] b[k] as int] by {
                        if k > 0 {
                            assert(b[k] == t[k - 1]);
                        }
                    }
                },
            }
        }
    }
}

/// Whichever place holds the first candidate in the race, that candidate is the one a
/// ballot counts for.
pub proof fn lemma_first_active_at(b: Seq<CandidateId>, active: Seq<bool>, k: int)
    requires
        0 <= k < b.len(),
        active[b[k] as int],
        forall|j: int| 0 <= j < k ==> !active[#[trigger] b[j] as int],
    ensures
        first_active(b, active) == Some(b[k]),
{
    lemma_first_active_is_first(b, active);
    match first_active(b, active) {
        Some(c) => {
            let i = choose|i: int|
                0 <= i < b.len() && b[i] == c && active[c as int] && forall|j: int| 0 <= j < i ==> !active[#[trigger] b[j] as int];
            if i < k {
                assert(!active[b[i] as int]);
            } else if k < i {
                assert(!active[b[k] as int]);
            }
        },
        None => {
            assert(!active[b[k] as int]);
        },
    }
}

/// The number of ballots whose first candidate still in the race is `c`.
pub open spec fn active_count(v: Seq<Seq<CandidateId>>, active: Seq<bool>, c: CandidateId) -> nat
    decreases v.len(),
{
    if v.len() == 0 {
        0
    } else {
        active_count(v.drop_last(), active, c) + if first_active(v.last(), active) == Some(c) { 1nat } else { 0nat }
    }
}

/// Leaving out the ballot at `i` takes away what it counted.
pub proof fn lemma_active_count_remove(v: Seq<Seq<CandidateId>>, active: Seq<bool>, c: CandidateId, i: int)
    requires
        0 <= i < v.len(),
    ensures
        active_count(v, active, c) == active_count(v.remove(i), active, c) + if first_active(v[i], active) == Some(c) {
            1nat
        } else {
            0nat
        },
    decreases v.len(),
{
    if i == v.len() - 1 {
        assert(v.remove(i) =~= v.drop_last());
    } else {
        lemma_active_count_remove(v.drop_last(), active, c, i);
        assert(v.remove(i).drop_last() =~= v.drop_last().remove(i));
        assert(v.remove(i).last() == v.last());
    }
}

/// The count depends only on which ballots were cast, not on their order.
pub proof fn lemma_active_count_multiset(v1: Seq<Seq<CandidateId>>, v2: Seq<Seq<CandidateId>>, active: Seq<bool>, c: CandidateId)
    requires
        v1.to_multiset() == v2.to_multiset(),
    ensures
        active_count(v1, active, c) == active_count(v2, active, c),
    decreases v1.len(),
{
    broadcast use vstd::seq_lib::group_to_multiset_ensures;
    broadcast use vstd::multiset::group_multiset_axioms;
    if v1.len() == 0 {
        assert(v2.len() == v2.to_multiset().len());
        assert(v1.len() == v1.to_multiset().len());
    } else {
        let x = v1.last();
        let r1 = v1.drop_last();
        assert(r1.push(x) =~= v1);
        assert(v1.to_multiset() =~= r1.to_multiset().insert(x));
        assert(v2.to_multiset().count(x) > 0);
        assert(v2.contains(x));
        let i = choose|i: int| 0 <= i < v2.len() && v2[i] == x;
        assert(v2.remove(i).to_multiset() =~= v2.to_multiset().remove(x));
        assert(r1.to_multiset().insert(x).remove(x) =~= r1.to_multiset());
        lemma_active_count_multiset(r1, v2.remove(i), active, c);
        lemma_active_count_remove(v2, active, c, i);
    }
}

/// Counts for the candidates in the race add up over two lists of ballots, and a single
/// ballot counts once, for the first candidate on it still in the race.
pub proof fn lemma_active_count_adds(v1: Seq<Seq<CandidateId>>, v2: Seq<Seq<CandidateId>>, active: Seq<bool>, c: CandidateId, b: Seq<CandidateId>)
    ensures
        active_count(v1 + v2, active, c) == active_count(v1, active, c) + active_count(v2, active, c),
        active_count(seq![b], active, c) == if first_active(b, active) == Some(c) { 1nat } else { 0nat },
    decreases v2.len(),
{
    let one = seq![b];
    assert(one.drop_last() =~= Seq::<Seq<CandidateId>>::empty());
    assert(one.last() == b);
    assert(active_count(one.drop_last(), active, c) == 0);
    if v2.len() == 0 {
        assert(v1 + v2 =~= v1);
    } else {
        lemma_active_count_adds(v1, v2.drop_last(), active, c, b);
        assert((v1 + v2).drop_last() =~= v1 + v2.drop_last());
        assert((v1 + v2).last() == v2.last());
    }
}

/// No more ballots count for `c` than there are ballots.
pub proof fn lemma_active_count_bound(v: Seq<Seq<CandidateId>>, active: Seq<bool>, c: CandidateId)
    ensures
        active_count(v, active, c) <= v.len(),
    decreases v.len(),
{
    if v.len() > 0 {
        lemma_active_count_bound(v.drop_last(), active, c);
    }
}

/// The first candidate still in the race on a ballot.
pub fn ballot_first_active(b: &Vec<CandidateId>, active: &Vec<bool>) -> (r: Option<CandidateId>)
    requires
        forall|i: int| 0 <= i < b@.len() ==> #[trigger] b@[i] < active@.len(),
    ensures
        r == first_active(b@, active@),
        r matches Some(c) ==> c < active@.len(),
{
    let mut i: usize = 0;
    assert(b@.skip(0) =~= b@);
    while i < b.len()
        invariant
            forall|i: int| 0 <= i < b@.len() ==> #[trigger] b@[i] < active@.len(),
            i <= b@.len(),
            first_active(b@, active@) == first_active(b@.skip(i as int), active@),
        decreases b@.len() - i,
    {
        let c = b[i];
        assert(b@.skip(i as int)[0] == c);
        if active[c] {
            return Some(c);
        }
        assert(b@.skip(i as int).drop_first() =~= b@.skip(i + 1));
        i = i + 1;
    }
    None
}

/// For each candidate, the number of ballots whose first candidate still in the race it is.
pub fn active_first_counts(e: &Election, active: &Vec<bool>) -> (r: Vec<usize>)
    requires
        e.wf(),
        active@.len() == e.n(),
    ensures
        r@.len() == e.n(),
        forall|c: int| 0 <= c < e.n() ==> #[trigger] r@[c] == active_count(e.votes(), active@, c as usize),
{
    let n = e.candidates.len();
    let ghost v = e.votes();
    let mut r = zeros(n);
    let nb = e.ballots.len();
    let mut k: usize = 0;
    while k < nb
        invariant
            e.wf(),
            n == e.n(),
            active@.len() == n,
            v == e.votes(),
            v.len() == nb,
            k <= nb,
            r@.len() == n,
            forall|c: int| 0 <= c < n ==> #[trigger] r@[c] == active_count(v.take(k as int), active@, c as usize),
        decreases nb - k,
    {
        let b = &e.ballots[k].ranking;
        proof {
            assert(v[k as int] == b@);
            assert(valid_ballot(v[k as int], e.n()));
            lemma_take_step(v, k as int);
        }
        match ballot_first_active(b, active) {
            Some(c) => {
                proof {
                    lemma_active_count_bound(v.take(k as int), active@, c);
                }
                r.set(c, r[c] + 1);
            },
            None => {},
        }
        k = k + 1;
    }
    proof {
        assert(v.take(nb as int) =~= v);
    }
    r
}


/// All ballots of `v` are valid for `n` candidates.
pub open spec fn all_valid(v: Seq<Seq<CandidateId>>, n: nat) -> bool {
    forall|i: int| 0 <= i < v.len() ==> valid_ballot(#[trigger] v[i], n)
}

/// Dropping the last ballot keeps the others valid.
pub proof fn lemma_all_valid_drop_last(v: Seq<Seq<CandidateId>>, n: nat)
    requires
        all_valid(v, n),
        v.len() > 0,
    ensures
        all_valid(v.drop_last(), n),
        valid_ballot(v.last(), n),
{
    assert forall|i: int| 0 <= i < v.drop_last().len() implies valid_ballot(#[trigger] v.drop_last()[i], n) by {
        assert(v.drop_last()[i] == v[i]);
    }
    assert(valid_ballot(v[v.len() - 1], n));
}

/// A ballot counts as a first place for at most one candidate.
pub proof fn lemma_first_counts_disjoint(v: Seq<Seq<CandidateId>>, c: CandidateId, d: CandidateId)
    requires
        c != d,
    ensures
        first_count(v, c) + first_count(v, d) <= v.len(),
    decreases v.len(),
{
    if v.len() > 0 {
        lemma_first_counts_disjoint(v.drop_last(), c, d);
    }
}

/// A ballot counts for at most one side of a duel.
pub proof fn lemma_pref_counts_disjoint(v: Seq<Seq<CandidateId>>, c: CandidateId, d: CandidateId)
    ensures
        pref_count(v, c, d) + pref_count(v, d, c) <= v.len(),
    decreases v.len(),
{
    if v.len() > 0 {
        lemma_pref_counts_disjoint(v.drop_last(), c, d);
    }
}

/// A ballot that puts `c` first ranks it above every other candidate.
pub proof fn lemma_first_implies_pref(v: Seq<Seq<CandidateId>>, n: nat, c: CandidateId, d: CandidateId)
    requires
        all_valid(v, n),
        c != d,
    ensures
        first_count(v, c) <= pref_count(v, c, d),
    decreases v.len(),
{
    if v.len() > 0 {
        lemma_all_valid_drop_last(v, n);
        lemma_first_implies_pref(v.drop_last(), n, c, d);
        let b = v.last();
        if b.len() > 0 && b[0] == c {
            lemma_index_of_unique(b, 0);
            if b.contains(d) {
                let j = choose|j: int| 0 <= j < b.len() && b[j] == d;
                lemma_index_of_unique(b, j);
            }
        }
    }
}

/// A candidate with more than half of the first places wins its duel with every other.
pub proof fn lemma_majority_wins_duels(v: Seq<Seq<CandidateId>>, n: nat, c: CandidateId, d: CandidateId)
    requires
        all_valid(v, n),
        c != d,
        2 * first_count(v, c) > v.len(),
    ensures
        pref_count(v, c, d) > pref_count(v, d, c),
{
    lemma_first_implies_pref(v, n, c, d);
    lemma_pref_counts_disjoint(v, c, d);
}

/// With `c` still in the race, every ballot that puts `c` first counts for `c`.
pub proof fn lemma_first_implies_active(v: Seq<Seq<CandidateId>>, active: Seq<bool>, c: CandidateId)
    requires
        active[c as int],
    ensures
        first_count(v, c) <= active_count(v, active, c),
    decreases v.len(),
{
    if v.len() > 0 {
        lemma_first_implies_active(v.drop_last(), active, c);
    }
}

/// A ballot counts for at most one candidate still in the race.
pub proof fn lemma_active_counts_disjoint(v: Seq<Seq<CandidateId>>, active: Seq<bool>, c: CandidateId, d: CandidateId)
    requires
        c != d,
    ensures
        active_count(v, active, c) + active_count(v, active, d) <= v.len(),
    decreases v.len(),
{
    if v.len() > 0 {
        lemma_active_counts_disjoint(v.drop_last(), active, c, d);
    }
}


/// `w` wins its duel with every other candidate: a Condorcet winner.
pub open spec fn is_condorcet_candidate(e: &Election, w: CandidateId) -> bool {
    &&& w < e.n()
    &&& forall|d: CandidateId| d < e.n() && d != w ==> #[trigger] pref_count(e.votes(), w, d) > pref_count(e.votes(), d, w)
}

/// A candidate with more than half of the first places is a Condorcet winner.
pub proof fn lemma_majority_is_condorcet(e: &Election, c: CandidateId)
    requires
        e.wf(),
        c < e.n(),
        2 * first_count(e.votes(), c) > e.votes().len(),
    ensures
        is_condorcet_candidate(e, c),
{
    assert forall|d: CandidateId| d < e.n() && d != c implies #[trigger] pref_count(e.votes(), c, d) > pref_count(e.votes(), d, c) by {
        lemma_majority_wins_duels(e.votes(), e.n(), c, d);
    }
}


/// `r` ranks each candidate `0 .. n` exactly once.
pub open spec fn is_ranking(r: Seq<CandidateId>, n: nat) -> bool {
    &&& r.len() == n
    &&& r.no_duplicates()
    &&& forall|c: CandidateId| r.contains(c) <==> c < n
}

/// `n` distinct candidates below `n` are all of them.
pub proof fn lemma_full_ranking(r: Seq<CandidateId>, n: nat)
    requires
        n <= usize::MAX,
        r.len() == n,
        r.no_duplicates(),
        forall|i: int| 0 <= i < r.len() ==> #[trigger] r[i] < n,
    ensures
        is_ranking(r, n),
{
    assert forall|c: CandidateId| r.contains(c) <==> c < n by {
        if c < n && !r.contains(c) {
            let s = r.push(c);
            assert forall|i: int| 0 <= i < s.len() implies #[trigger] s[i] < n by {}
            assert(s.no_duplicates()) by {
                assert forall|i: int, j: int| 0 <= i < s.len() && 0 <= j < s.len() && i != j implies s[i] != s[j] by {
                    if i == r.len() {
                        assert(r.contains(r[j]));
                    } else if j == r.len() {
                        assert(r.contains(r[i]));
                    }
                }
            }
            lemma_distinct_len(s, n);
        }
        if r.contains(c) {
            let k = choose|k: int| 0 <= k < r.len() && r[k] == c;
        }
    }
}

/// Adding a candidate that is not there keeps a sequence free of repeats.
pub proof fn lemma_push_distinct(r: Seq<CandidateId>, c: CandidateId)
    requires
        r.no_duplicates(),
        !r.contains(c),
    ensures
        r.push(c).no_duplicates(),
{
    let s = r.push(c);
    assert forall|i: int, j: int| 0 <= i < s.len() && 0 <= j < s.len() && i != j implies s[i] != s[j] by {
        if i == r.len() {
            assert(r.contains(r[j]));
        } else if j == r.len() {
            assert(r.contains(r[i]));
        }
    }
}

/// Of `n - 1` distinct candidates below `n`, exactly one candidate below `n` is missing.
pub proof fn lemma_one_missing(r: Seq<CandidateId>, n: nat, c: CandidateId, d: CandidateId)
    requires
        n <= usize::MAX,
        r.len() + 1 == n,
        r.no_duplicates(),
        forall|i: int| 0 <= i < r.len() ==> #[trigger] r[i] < n,
        c < n,
        d < n,
        !r.contains(c),
        !r.contains(d),
    ensures
        c == d,
{
    if c != d {
        lemma_push_distinct(r, c);
        let s = r.push(c);
        assert(!s.contains(d)) by {
            if s.contains(d) {
                let k = choose|k: int| 0 <= k < s.len() && s[k] == d;
                if k < r.len() {
                    assert(r.contains(d));
                }
            }
        }
        lemma_push_distinct(s, d);
        let t = s.push(d);
        assert forall|i: int| 0 <= i < t.len() implies #[trigger] t[i] < n by {
            if i < r.len() {
                assert(t[i] == r[i]);
            }
        }
        lemma_distinct_len(t, n);
    }
}

} // verus!
