//! Facts about filtering sequences that the analyses rely on.

use vstd::prelude::*;

verus! {

/// The indices `0, 1, ..., n - 1`.
pub open spec fn index_range(n: usize) -> Seq<usize> {
    Seq::new(n as nat, |i: int| i as usize)
}

/// The elements of `s` strictly increase.
pub open spec fn increasing(s: Seq<usize>) -> bool {
    forall|i: int, j: int| 0 <= i < j < s.len() ==> #[trigger] s[i] < #[trigger] s[j]
}

/// `index_range(n)` lists `0, 1, ..., n - 1`.
pub proof fn lemma_index_range(n: usize)
    ensures
        index_range(n).len() == n,
        forall|i: int| 0 <= i < n ==> #[trigger] index_range(n)[i] == i,
{
}

/// `0, 1, ..., n - 1` strictly increases.
pub proof fn lemma_index_range_increasing(n: usize)
    ensures
        increasing(index_range(n)),
{
}

/// Filtering keeps a strictly increasing sequence strictly increasing.
pub proof fn lemma_filter_increasing(s: Seq<usize>, p: spec_fn(usize) -> bool)
    requires
        increasing(s),
    ensures
        increasing(s.filter(p)),
    decreases s.len(),
{
    reveal(Seq::filter);
    if s.len() > 0 {
        let t = s.drop_last();
        assert(increasing(t)) by {
            assert forall|i: int, j: int| 0 <= i < j < t.len() implies #[trigger] t[i] < #[trigger] t[j] by {
                assert(t[i] == s[i] && t[j] == s[j]);
            }
        }
        lemma_filter_increasing(t, p);
        let f = t.filter(p);
        if p(s.last()) {
            assert forall|i: int| 0 <= i < f.len() implies #[trigger] f[i] < s.last() by {
                lemma_filter_contains_iff(t, p, f[i]);
                assert(f.contains(f[i]));
                let k = choose|k: int| 0 <= k < t.len() && t[k] == f[i];
                assert(s[k] == t[k]);
            }
            let g = f.push(s.last());
            assert forall|i: int, j: int| 0 <= i < j < g.len() implies #[trigger] g[i] < #[trigger] g[j] by {
                if j == g.len() - 1 {
                    assert(g[i] == f[i]);
                } else {
                    assert(g[i] == f[i] && g[j] == f[j]);
                }
            }
        }
    }
}

/// A nonempty sequence has an element on which `f` is largest.
pub proof fn lemma_argmax<A>(s: Seq<A>, f: spec_fn(A) -> int) -> (k: int)
    requires
        s.len() > 0,
    ensures
        0 <= k < s.len(),
        forall|j: int| 0 <= j < s.len() ==> f(#[trigger] s[j]) <= f(s[k]),
    decreases s.len(),
{
    if s.len() == 1 {
        0
    } else {
        let t = s.drop_last();
        let k0 = lemma_argmax(t, f);
        assert forall|j: int| 0 <= j < t.len() implies f(#[trigger] s[j]) <= f(s[k0]) by {
            assert(s[j] == t[j]);
        }
        if f(s.last()) > f(s[k0]) {
            (s.len() - 1) as int
        } else {
            k0
        }
    }
}

/// A strictly increasing sequence whose only element value is `x`, and
/// which holds `x`, is exactly `[x]`.
pub proof fn lemma_increasing_singleton(s: Seq<usize>, x: usize)
    requires
        increasing(s),
        s.contains(x),
        forall|i: int| 0 <= i < s.len() ==> #[trigger] s[i] == x,
    ensures
        s == seq![x],
{
    if s.len() > 1 {
        assert(s[0] < s[1]);
    }
    assert(s =~= seq![x]);
}

/// `x` occurs among `0, ..., n - 1` exactly when it is below `n`.
pub proof fn lemma_index_range_contains(n: usize, x: usize)
    ensures
        index_range(n).contains(x) <==> x < n,
{
    if x < n {
        assert(index_range(n)[x as int] == x);
    }
}

/// The vector `0, 1, ..., n - 1`.
pub fn strategy_indices(n: usize) -> (v: Vec<usize>)
    ensures
        v@ == index_range(n),
{
    let mut v: Vec<usize> = Vec::new();
    for i in 0..n
        invariant
            v@ == index_range(i),
    {
        v.push(i);
        assert(index_range((i + 1) as usize) == index_range(i).push(i));
    }
    v
}

/// Whether `x` occurs in `v`.
pub fn vec_contains(v: &Vec<usize>, x: usize) -> (r: bool)
    ensures
        r == v@.contains(x),
{
    for i in 0..v.len()
        invariant
            forall|j: int| 0 <= j < i ==> v@[j] != x,
    {
        if v[i] == x {
            return true;
        }
    }
    false
}

/// Two predicates that agree on every element of `s` filter it alike.
pub proof fn lemma_filter_ext<A>(s: Seq<A>, p: spec_fn(A) -> bool, q: spec_fn(A) -> bool)
    requires
        forall|i: int| 0 <= i < s.len() ==> p(#[trigger] s[i]) == q(s[i]),
    ensures
        s.filter(p) == s.filter(q),
    decreases s.len(),
{
    reveal(Seq::filter);
    if s.len() > 0 {
        let t = s.drop_last();
        assert forall|i: int| 0 <= i < t.len() implies p(#[trigger] t[i]) == q(t[i]) by {
            assert(t[i] == s[i]);
        }
        lemma_filter_ext(t, p, q);
    }
}

/// Filtering keeps every element exactly when no element fails the predicate.
pub proof fn lemma_filter_keeps_all<A>(s: Seq<A>, p: spec_fn(A) -> bool)
    ensures
        (forall|i: int| 0 <= i < s.len() ==> p(#[trigger] s[i])) ==> s.filter(p) == s,
        (exists|i: int| 0 <= i < s.len() && !p(#[trigger] s[i])) ==> s.filter(p).len() < s.len(),
        s.filter(p).len() <= s.len(),
    decreases s.len(),
{
    reveal(Seq::filter);
    if s.len() > 0 {
        let t = s.drop_last();
        lemma_filter_keeps_all(t, p);
        if forall|i: int| 0 <= i < s.len() ==> p(#[trigger] s[i]) {
            assert forall|i: int| 0 <= i < t.len() implies p(#[trigger] t[i]) by {
                assert(t[i] == s[i]);
            }
            assert(t.push(s.last()) == s);
        }
        if exists|i: int| 0 <= i < s.len() && !p(#[trigger] s[i]) {
            let i = choose|i: int| 0 <= i < s.len() && !p(#[trigger] s[i]);
            if i < t.len() {
                assert(t[i] == s[i]);
            }
        }
    }
}

/// Filtering by a predicate that no element satisfies leaves nothing.
pub proof fn lemma_filter_none<A>(s: Seq<A>, p: spec_fn(A) -> bool)
    requires
        forall|i: int| 0 <= i < s.len() ==> !p(#[trigger] s[i]),
    ensures
        s.filter(p).len() == 0,
{
    if s.filter(p).len() > 0 {
        s.lemma_filter_pred(p, 0);
        lemma_filter_contains_iff(s, p, s.filter(p)[0]);
    }
}

/// An element is kept by the filter exactly when it occurs in `s` and
/// satisfies the predicate.
pub proof fn lemma_filter_contains_iff<A>(s: Seq<A>, p: spec_fn(A) -> bool, x: A)
    ensures
        s.filter(p).contains(x) <==> (s.contains(x) && p(x)),
{
    broadcast use Seq::lemma_filter_contains_rev;

    if s.filter(p).contains(x) {
        let k = choose|k: int| 0 <= k < s.filter(p).len() && s.filter(p)[k] == x;
        s.lemma_filter_pred(p, k);
    }
    if s.contains(x) && p(x) {
        let k = choose|k: int| 0 <= k < s.len() && s[k] == x;
        s.lemma_filter_contains(p, k);
    }
}

} // verus!
