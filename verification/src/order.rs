use vstd::prelude::*;

verus! {

/// Dictionary order on names: `a` comes strictly before `b` when, at the first place
/// where they differ, `a` has the smaller character, or when `a` is a proper prefix
/// of `b`. Characters are compared by code point, which is also the order of their
/// UTF-8 encodings, so this is the order of `String`s.
pub open spec fn name_lt(a: Seq<char>, b: Seq<char>) -> bool
    decreases a.len(),
{
    if a.len() == 0 {
        b.len() > 0
    } else if b.len() == 0 {
        false
    } else if a[0] != b[0] {
        a[0] < b[0]
    } else {
        name_lt(a.drop_first(), b.drop_first())
    }
}

/// Dictionary order compares at the first place where two names differ: if `a` and `b`
/// agree on their first `i` characters, then `a` comes first when `a` has ended there and
/// `b` has not, or when both go on and `a`'s next character is the smaller.
pub proof fn lemma_name_lt_first_difference(a: Seq<char>, b: Seq<char>, i: int)
    requires
        0 <= i <= a.len(),
        i <= b.len(),
        forall|j: int| 0 <= j < i ==> a[j] == b[j],
    ensures
        i == a.len() ==> (name_lt(a, b) <==> i < b.len()),
        i < a.len() && i < b.len() && a[i] != b[i] ==> (name_lt(a, b) <==> a[i] < b[i]),
    decreases i,
{
    if i > 0 {
        let a1 = a.drop_first();
        let b1 = b.drop_first();
        assert forall|j: int| 0 <= j < i - 1 implies a1[j] == b1[j] by {
            assert(a1[j] == a[j + 1] && b1[j] == b[j + 1]);
        }
        lemma_name_lt_first_difference(a1, b1, i - 1);
        assert(a[0] == b[0]);
        if i < a.len() && i < b.len() {
            assert(a1[i - 1] == a[i] && b1[i - 1] == b[i]);
        }
    }
}

/// No name comes before itself.
pub proof fn lemma_name_lt_irreflexive(a: Seq<char>)
    ensures
        !name_lt(a, a),
    decreases a.len(),
{
    if a.len() > 0 {
        lemma_name_lt_irreflexive(a.drop_first());
    }
}

/// Dictionary order is transitive.
pub proof fn lemma_name_lt_transitive(a: Seq<char>, b: Seq<char>, c: Seq<char>)
    requires
        name_lt(a, b),
        name_lt(b, c),
    ensures
        name_lt(a, c),
    decreases a.len(),
{
    if a.len() > 0 && b.len() > 0 && c.len() > 0 && a[0] == b[0] && b[0] == c[0] {
        lemma_name_lt_transitive(a.drop_first(), b.drop_first(), c.drop_first());
    }
}

/// Of two different names, one comes before the other.
pub proof fn lemma_name_lt_total(a: Seq<char>, b: Seq<char>)
    requires
        a != b,
    ensures
        name_lt(a, b) || name_lt(b, a),
    decreases a.len(),
{
    if a.len() == 0 {
        assert(b.len() > 0) by {
            if b.len() == 0 {
                assert(a =~= b);
            }
        }
    } else if b.len() > 0 && a[0] == b[0] {
        if a.drop_first() == b.drop_first() {
            assert(a =~= seq![a[0]] + a.drop_first());
            assert(b =~= seq![b[0]] + b.drop_first());
        }
        lemma_name_lt_total(a.drop_first(), b.drop_first());
    } else if b.len() > 0 {
    }
}

/// Whether name `a` comes strictly before name `b` in dictionary order.
pub fn name_less(a: &Vec<char>, b: &Vec<char>) -> (r: bool)
    ensures
        r == name_lt(a@, b@),
{
    let mut i: usize = 0;
    assert(a@.skip(0) =~= a@);
    assert(b@.skip(0) =~= b@);
    while i < a.len() && i < b.len() && a[i] == b[i]
        invariant
            i <= a.len(),
            i <= b.len(),
            name_lt(a@, b@) == name_lt(a@.skip(i as int), b@.skip(i as int)),
        decreases a.len() - i,
    {
        assert(a@.skip(i as int).drop_first() =~= a@.skip(i + 1));
        assert(b@.skip(i as int).drop_first() =~= b@.skip(i + 1));
        i = i + 1;
    }
    if i == a.len() {
        i < b.len()
    } else if i == b.len() {
        false
    } else {
        a[i] < b[i]
    }
}

/// The order in which a method ranks candidates `a` and `b`: a higher primary key first,
/// then a higher secondary key, then the name that comes first in dictionary order,
/// then the smaller index.
pub open spec fn ranks_before(
    k1: Seq<int>,
    k2: Seq<int>,
    names: Seq<Seq<char>>,
    a: int,
    b: int,
) -> bool {
    ||| k1[a] > k1[b]
    ||| k1[a] == k1[b] && k2[a] > k2[b]
    ||| k1[a] == k1[b] && k2[a] == k2[b] && name_lt(names[a], names[b])
    ||| k1[a] == k1[b] && k2[a] == k2[b] && names[a] == names[b] && a < b
}

/// `r` ranks every candidate `0 .. names.len()` exactly once, in the order `ranks_before`.
pub open spec fn sorted_ranking(
    r: Seq<usize>,
    k1: Seq<int>,
    k2: Seq<int>,
    names: Seq<Seq<char>>,
) -> bool {
    &&& r.len() == names.len()
    &&& forall|c: usize| r.contains(c) <==> c < names.len()
    &&& forall|i: int, j: int|
        0 <= i < j < r.len() ==> ranks_before(k1, k2, names, #[trigger] r[i] as int, #[trigger] r[j] as int)
}

/// A key sequence of machine integers seen as mathematical integers.
pub open spec fn ints(k: Seq<u128>) -> Seq<int> {
    k.map_values(|x: u128| x as int)
}

/// `ranks_before` is irreflexive, transitive and total on distinct candidates.
pub proof fn lemma_ranks_before_order(
    k1: Seq<int>,
    k2: Seq<int>,
    names: Seq<Seq<char>>,
    a: int,
    b: int,
    c: int,
)
    ensures
        !ranks_before(k1, k2, names, a, a),
        ranks_before(k1, k2, names, a, b) && ranks_before(k1, k2, names, b, c) ==> ranks_before(
            k1,
            k2,
            names,
            a,
            c,
        ),
        a != b ==> ranks_before(k1, k2, names, a, b) || ranks_before(k1, k2, names, b, a),
{
    lemma_name_lt_irreflexive(names[a]);
    if names[a] != names[b] {
        lemma_name_lt_total(names[a], names[b]);
    }
    if ranks_before(k1, k2, names, a, b) && ranks_before(k1, k2, names, b, c) {
        if name_lt(names[a], names[b]) && name_lt(names[b], names[c]) {
            lemma_name_lt_transitive(names[a], names[b], names[c]);
        }
    }
}

/// Whether candidate `a` ranks before candidate `b`.
fn key_before(names: &Vec<Vec<char>>, k1: &Vec<u128>, k2: &Vec<u128>, a: usize, b: usize) -> (r: bool)
    requires
        a < names.len(),
        b < names.len(),
        k1.len() == names.len(),
        k2.len() == names.len(),
    ensures
        r == ranks_before(ints(k1@), ints(k2@), names@.map_values(|v: Vec<char>| v@), a as int, b as int),
{
    let ghost nm = names@.map_values(|v: Vec<char>| v@);
    assert(nm[a as int] == names[a as int]@);
    assert(nm[b as int] == names[b as int]@);
    if k1[a] != k1[b] {
        k1[a] > k1[b]
    } else if k2[a] != k2[b] {
        k2[a] > k2[b]
    } else if name_less(&names[a], &names[b]) {
        true
    } else if name_less(&names[b], &names[a]) {
        false
    } else {
        proof {
            if names[a as int]@ != names[b as int]@ {
                lemma_name_lt_total(names[a as int]@, names[b as int]@);
            }
        }
        a < b
    }
}

/// The candidates `0 .. names.len()` sorted by `ranks_before`: higher `k1` first, then
/// higher `k2`, then by name, then by index.
pub fn rank_by_keys(names: &Vec<Vec<char>>, k1: &Vec<u128>, k2: &Vec<u128>) -> (r: Vec<usize>)
    requires
        k1.len() == names.len(),
        k2.len() == names.len(),
    ensures
        sorted_ranking(r@, ints(k1@), ints(k2@), names@.map_values(|v: Vec<char>| v@)),
{
    let ghost nm = names@.map_values(|v: Vec<char>| v@);
    let ghost i1 = ints(k1@);
    let ghost i2 = ints(k2@);
    let n = names.len();
    let mut r: Vec<usize> = Vec::new();
    let mut c: usize = 0;
    while c < n
        invariant
            n == names.len(),
            k1.len() == n,
            k2.len() == n,
            nm == names@.map_values(|v: Vec<char>| v@),
            i1 == ints(k1@),
            i2 == ints(k2@),
            c <= n,
            r.len() == c,
            forall|x: usize| r@.contains(x) <==> x < c,
            forall|i: int, j: int|
                0 <= i < j < r@.len() ==> ranks_before(i1, i2, nm, #[trigger] r@[i] as int, #[trigger] r@[j] as int),
        decreases n - c,
    {
        let mut p: usize = 0;
        assert forall|q: int| 0 <= q < r@.len() implies #[trigger] r@[q] < n by {
            assert(r@.contains(r@[q]));
        }
        while p < r.len() && !key_before(names, k1, k2, c, r[p])
            invariant
                n == names.len(),
                k1.len() == n,
                k2.len() == n,
                nm == names@.map_values(|v: Vec<char>| v@),
                i1 == ints(k1@),
                i2 == ints(k2@),
                c < n,
                r.len() == c,
                forall|x: usize| r@.contains(x) <==> x < c,
                p <= r.len(),
                forall|q: int| 0 <= q < r@.len() ==> #[trigger] r@[q] < n,
                forall|q: int| 0 <= q < p ==> ranks_before(i1, i2, nm, #[trigger] r@[q] as int, c as int),
            decreases r.len() - p,
        {
            proof {
                let x = r@[p as int];
                assert(r@.contains(x));
                lemma_ranks_before_order(i1, i2, nm, x as int, c as int, c as int);
            }
            p = p + 1;
        }
        let ghost old_r = r@;
        r.insert(p, c);
        proof {
            assert(r@ =~= old_r.insert(p as int, c));
            assert forall|x: usize| r@.contains(x) <==> x < c + 1 by {
                if x < c + 1 && x != c {
                    assert(old_r.contains(x));
                    let k = choose|k: int| 0 <= k < old_r.len() && old_r[k] == x;
                    if k < p {
                        assert(r@[k] == x);
                    } else {
                        assert(r@[k + 1] == x);
                    }
                }
                if x == c {
                    assert(r@[p as int] == c);
                }
                if r@.contains(x) {
                    let k = choose|k: int| 0 <= k < r@.len() && r@[k] == x;
                    if k < p {
                        assert(old_r[k] == x);
                        assert(old_r.contains(x));
                    } else if k > p {
                        assert(old_r[k - 1] == x);
                        assert(old_r.contains(x));
                    }
                }
            }
            assert forall|i: int, j: int|
                0 <= i < j < r@.len() implies ranks_before(i1, i2, nm, #[trigger] r@[i] as int, #[trigger] r@[j] as int) by {
                if j < p {
                    assert(r@[i] == old_r[i] && r@[j] == old_r[j]);
                } else if j == p {
                    assert(r@[i] == old_r[i]);
                } else if i == p {
                    assert(r@[j] == old_r[j - 1]);
                    let y = old_r[p as int];
                    assert(old_r.contains(y));
                    assert(ranks_before(i1, i2, nm, c as int, y as int));
                    if j - 1 > p {
                        assert(ranks_before(i1, i2, nm, y as int, old_r[j - 1] as int));
                        lemma_ranks_before_order(i1, i2, nm, c as int, y as int, old_r[j - 1] as int);
                    }
                } else if i < p {
                    assert(r@[i] == old_r[i] && r@[j] == old_r[j - 1]);
                    if i < j - 1 {
                        assert(ranks_before(i1, i2, nm, old_r[i] as int, old_r[j - 1] as int));
                    } else {
                        // i == p - 1 == j - 1 is impossible since j > p > i
                    }
                } else {
                    assert(r@[i] == old_r[i - 1] && r@[j] == old_r[j - 1]);
                }
            }
        }
        c = c + 1;
    }
    r
}


/// Two sequences that hold the same candidates, each in strictly increasing
/// `ranks_before` order, are equal.
pub proof fn lemma_sorted_unique(
    k1: Seq<int>,
    k2: Seq<int>,
    names: Seq<Seq<char>>,
    r: Seq<usize>,
    s: Seq<usize>,
)
    requires
        r.len() == s.len(),
        forall|x: usize| r.contains(x) <==> s.contains(x),
        forall|i: int, j: int|
            0 <= i < j < r.len() ==> ranks_before(k1, k2, names, #[trigger] r[i] as int, #[trigger] r[j] as int),
        forall|i: int, j: int|
            0 <= i < j < s.len() ==> ranks_before(k1, k2, names, #[trigger] s[i] as int, #[trigger] s[j] as int),
    ensures
        r == s,
    decreases r.len(),
{
    if r.len() > 0 {
        let x = r[0];
        let y = s[0];
        assert(r.contains(x));
        assert(s.contains(y));
        if x != y {
            let j = choose|j: int| 0 <= j < s.len() && s[j] == x;
            let i = choose|i: int| 0 <= i < r.len() && r[i] == y;
            assert(ranks_before(k1, k2, names, y as int, x as int));
            assert(ranks_before(k1, k2, names, x as int, y as int));
            lemma_ranks_before_order(k1, k2, names, x as int, y as int, x as int);
        }
        let r2 = r.drop_first();
        let s2 = s.drop_first();
        assert forall|z: usize| r2.contains(z) <==> s2.contains(z) by {
            if r2.contains(z) {
                let i = choose|i: int| 0 <= i < r2.len() && r2[i] == z;
                assert(r.contains(z));
                let j = choose|j: int| 0 <= j < s.len() && s[j] == z;
                if j == 0 {
                    assert(ranks_before(k1, k2, names, r[0] as int, r[i + 1] as int));
                    lemma_ranks_before_order(k1, k2, names, x as int, x as int, x as int);
                }
                assert(s2[j - 1] == z);
            }
            if s2.contains(z) {
                let i = choose|i: int| 0 <= i < s2.len() && s2[i] == z;
                assert(s.contains(z));
                let j = choose|j: int| 0 <= j < r.len() && r[j] == z;
                if j == 0 {
                    assert(ranks_before(k1, k2, names, s[0] as int, s[i + 1] as int));
                    lemma_ranks_before_order(k1, k2, names, y as int, y as int, y as int);
                }
                assert(r2[j - 1] == z);
            }
        }
        assert forall|i: int, j: int| 0 <= i < j < r2.len() implies ranks_before(k1, k2, names, #[trigger] r2[i] as int, #[trigger] r2[j] as int) by {
            assert(r2[i] == r[i + 1] && r2[j] == r[j + 1]);
        }
        assert forall|i: int, j: int| 0 <= i < j < s2.len() implies ranks_before(k1, k2, names, #[trigger] s2[i] as int, #[trigger] s2[j] as int) by {
            assert(s2[i] == s[i + 1] && s2[j] == s[j + 1]);
        }
        lemma_sorted_unique(k1, k2, names, r2, s2);
        assert forall|i: int| 0 <= i < r.len() implies r[i] == s[i] by {
            if i > 0 {
                assert(r[i] == r2[i - 1]);
                assert(s[i] == s2[i - 1]);
            }
        }
        assert(r =~= s);
    }
}

/// The one ranking of `0 .. names.len()` in `ranks_before` order.
pub open spec fn ranking_by(k1: Seq<int>, k2: Seq<int>, names: Seq<Seq<char>>) -> Seq<usize> {
    choose|r: Seq<usize>| sorted_ranking(r, k1, k2, names)
}

/// A sorted ranking is the ranking `ranking_by` names.
pub proof fn lemma_ranking_by(r: Seq<usize>, k1: Seq<int>, k2: Seq<int>, names: Seq<Seq<char>>)
    requires
        sorted_ranking(r, k1, k2, names),
    ensures
        ranking_by(k1, k2, names) == r,
{
    let s = ranking_by(k1, k2, names);
    assert(sorted_ranking(s, k1, k2, names));
    lemma_sorted_unique(k1, k2, names, r, s);
}


/// A key of `n` zeros, for methods that rank on one key only.
pub fn zero_keys(n: usize) -> (r: Vec<u128>)
    ensures
        r@.len() == n,
        forall|i: int| 0 <= i < n ==> #[trigger] r@[i] == 0,
{
    let mut r: Vec<u128> = Vec::new();
    let mut i: usize = 0;
    while i < n
        invariant
            i <= n,
            r@.len() == i,
            forall|a: int| 0 <= a < i ==> #[trigger] r@[a] == 0,
        decreases n - i,
    {
        r.push(0);
        i = i + 1;
    }
    r
}


/// For any keys, some ranking of `0 .. names.len()` is sorted by `ranks_before`, so
/// `ranking_by` is that ranking.
pub proof fn lemma_ranking_by_sorted(k1: Seq<int>, k2: Seq<int>, names: Seq<Seq<char>>)
    requires
        names.len() <= usize::MAX,
    ensures
        sorted_ranking(ranking_by(k1, k2, names), k1, k2, names),
{
    let leq = |a: usize, b: usize| a == b || ranks_before(k1, k2, names, a as int, b as int);
    assert forall|x: usize, y: usize| #[trigger] leq(x, y) && #[trigger] leq(y, x) implies x == y by {
        lemma_ranks_before_order(k1, k2, names, x as int, y as int, x as int);
    }
    assert forall|x: usize, y: usize, z: usize| #[trigger] leq(x, y) && #[trigger] leq(y, z) implies leq(x, z) by {
        lemma_ranks_before_order(k1, k2, names, x as int, y as int, z as int);
    }
    assert forall|x: usize, y: usize| #[trigger] leq(x, y) || #[trigger] leq(y, x) by {
        lemma_ranks_before_order(k1, k2, names, x as int, y as int, x as int);
    }
    assert(vstd::relations::total_ordering(leq));
    let n = names.len();
    let s = Seq::new(n, |i: int| i as usize);
    let r = s.sort_by(leq);
    s.lemma_sort_by_ensures(leq);
    broadcast use vstd::seq_lib::group_to_multiset_ensures;
    assert(s.no_duplicates());
    s.lemma_multiset_has_no_duplicates();
    r.lemma_multiset_has_no_duplicates_conv();
    assert forall|c: usize| r.contains(c) <==> c < n by {
        assert(s.contains(c) <==> s.to_multiset().count(c) > 0);
        assert(r.contains(c) <==> r.to_multiset().count(c) > 0);
        assert(s.to_multiset().count(c) == r.to_multiset().count(c));
        if c < n {
            assert(s[c as int] == c);
        }
    }
    assert forall|i: int, j: int| 0 <= i < j < r.len() implies ranks_before(k1, k2, names, #[trigger] r[i] as int, #[trigger] r[j] as int) by {
        assert(leq(r[i], r[j]));
    }
    assert(r.len() == r.to_multiset().len());
    assert(s.len() == s.to_multiset().len());
    assert(sorted_ranking(r, k1, k2, names));
    lemma_ranking_by(r, k1, k2, names);
}


/// A candidate whose primary key is strictly the highest comes first.
pub proof fn lemma_top_key_first(r: Seq<usize>, k1: Seq<int>, k2: Seq<int>, names: Seq<Seq<char>>, c: usize)
    requires
        sorted_ranking(r, k1, k2, names),
        c < names.len(),
        forall|d: usize| d < names.len() && d != c ==> #[trigger] k1[d as int] < k1[c as int],
    ensures
        r.len() > 0,
        r[0] == c,
{
    assert(r.contains(c));
    let j = choose|j: int| 0 <= j < r.len() && r[j] == c;
    if j > 0 {
        assert(ranks_before(k1, k2, names, r[0] as int, r[j] as int));
        assert(r.contains(r[0]));
    }
}


/// A sorted ranking ranks each candidate exactly once.
pub proof fn lemma_sorted_is_ranking(r: Seq<usize>, k1: Seq<int>, k2: Seq<int>, names: Seq<Seq<char>>)
    requires
        sorted_ranking(r, k1, k2, names),
    ensures
        crate::tally::is_ranking(r, names.len()),
{
    assert forall|i: int, j: int| 0 <= i < r.len() && 0 <= j < r.len() && i != j implies r[i] != r[j] by {
        lemma_ranks_before_order(k1, k2, names, r[i] as int, r[i] as int, r[i] as int);
        if i < j {
            assert(ranks_before(k1, k2, names, r[i] as int, r[j] as int));
        } else {
            assert(ranks_before(k1, k2, names, r[j] as int, r[i] as int));
        }
    }
}

} // verus!
