//! Facts about sequences that the proofs share.

use vstd::prelude::*;

verus! {

/// What `filter_map` keeps of an element is in the result.
pub proof fn lemma_filter_map_has<A, B>(s: Seq<A>, f: spec_fn(A) -> Option<B>, i: int)
    requires
        0 <= i < s.len(),
        f(s[i]) is Some,
    ensures
        s.filter_map(f).contains(f(s[i])->0),
{
    lemma_filter_map_prefix_has(s, f, i, s.len() as int);
    assert(s.take(s.len() as int) =~= s);
}

proof fn lemma_filter_map_prefix_has<A, B>(s: Seq<A>, f: spec_fn(A) -> Option<B>, i: int, n: int)
    requires
        0 <= i < n <= s.len(),
        f(s[i]) is Some,
    ensures
        s.take(n).filter_map(f).contains(f(s[i])->0),
    decreases n,
{
    s.lemma_filter_map_take_succ(f, n - 1);
    let now = s.take(n).filter_map(f);
    if i == n - 1 {
        assert(now[now.len() - 1] == f(s[i])->0);
    } else {
        lemma_filter_map_prefix_has(s, f, i, n - 1);
        let before = s.take(n - 1).filter_map(f);
        let p = choose|p: int| 0 <= p < before.len() && before[p] == f(s[i])->0;
        assert(now[p] == f(s[i])->0);
    }
}

/// An element of a `flat_map` comes from one of the sequences that it joins.
pub proof fn lemma_flat_map_from<A, B>(s: Seq<A>, f: spec_fn(A) -> Seq<B>, p: int) -> (at: (
    int,
    int,
))
    requires
        0 <= p < s.flat_map(f).len(),
    ensures
        0 <= at.0 < s.len(),
        0 <= at.1 < f(s[at.0]).len(),
        s.flat_map(f)[p] == f(s[at.0])[at.1],
{
    assert(s.take(s.len() as int) =~= s);
    lemma_flat_map_prefix_from(s, f, s.len() as int, p)
}

proof fn lemma_flat_map_prefix_from<A, B>(
    s: Seq<A>,
    f: spec_fn(A) -> Seq<B>,
    n: int,
    p: int,
) -> (at: (int, int))
    requires
        0 <= n <= s.len(),
        0 <= p < s.take(n).flat_map(f).len(),
    ensures
        0 <= at.0 < n,
        0 <= at.1 < f(s[at.0]).len(),
        s.take(n).flat_map(f)[p] == f(s[at.0])[at.1],
    decreases n,
{
    if n == 0 {
        assert(s.take(0) =~= Seq::<A>::empty());
        assert(s.take(0).flat_map(f) =~= Seq::<B>::empty());
        (0, 0)
    } else {
        s.lemma_flat_map_take_append(f, n - 1);
        let before = s.take(n - 1).flat_map(f);
        if p < before.len() {
            lemma_flat_map_prefix_from(s, f, n - 1, p)
        } else {
            (n - 1, p - before.len())
        }
    }
}

/// Whether these are indices below `n`, each greater than the one before.
pub open spec fn are_indices(src: Seq<int>, n: int) -> bool {
    &&& forall|t: int| 0 <= t < src.len() ==> 0 <= #[trigger] src[t] < n
    &&& forall|t: int, u: int| 0 <= t < u < src.len() ==> #[trigger] src[t] < #[trigger] src[u]
}

/// Where the elements of a `filter_map` come from, in order.
pub proof fn lemma_filter_map_sources<A, B>(s: Seq<A>, f: spec_fn(A) -> Option<B>) -> (src: Seq<
    int,
>)
    ensures
        are_indices(src, s.len() as int),
        src.len() == s.filter_map(f).len(),
        forall|t: int|
            0 <= t < src.len() ==> f(s[#[trigger] src[t]]) == Some(s.filter_map(f)[t]),
        forall|i: int| 0 <= i < s.len() ==> (src.contains(i) <==> f(#[trigger] s[i]) is Some),
{
    assert(s.take(s.len() as int) =~= s);
    lemma_filter_map_prefix_sources(s, f, s.len() as int)
}

proof fn lemma_filter_map_prefix_sources<A, B>(
    s: Seq<A>,
    f: spec_fn(A) -> Option<B>,
    n: int,
) -> (src: Seq<int>)
    requires
        0 <= n <= s.len(),
    ensures
        are_indices(src, n),
        src.len() == s.take(n).filter_map(f).len(),
        forall|t: int|
            0 <= t < src.len() ==> f(s[#[trigger] src[t]]) == Some(s.take(n).filter_map(f)[t]),
        forall|i: int| 0 <= i < n ==> (src.contains(i) <==> f(#[trigger] s[i]) is Some),
    decreases n,
{
    if n == 0 {
        assert(s.take(0).filter_map(f) =~= Seq::<B>::empty()) by {
            reveal(Seq::filter_map);
        }
        Seq::empty()
    } else {
        let before = lemma_filter_map_prefix_sources(s, f, n - 1);
        s.lemma_filter_map_take_succ(f, n - 1);
        if f(s[n - 1]) is Some {
            let src = before.push(n - 1);
            assert forall|i: int| 0 <= i < n implies (src.contains(i) <==> f(
                #[trigger] s[i],
            ) is Some) by {
                if i < n - 1 && before.contains(i) {
                    let t = choose|t: int| 0 <= t < before.len() && before[t] == i;
                    assert(src[t] == i);
                }
                if src.contains(i) && i < n - 1 {
                    let t = choose|t: int| 0 <= t < src.len() && src[t] == i;
                    assert(before[t] == i);
                }
                assert(src[before.len() as int] == n - 1);
            }
            src
        } else {
            assert forall|i: int| 0 <= i < n implies (before.contains(i) <==> f(
                #[trigger] s[i],
            ) is Some) by {
                if i == n - 1 && before.contains(i) {
                    let t = choose|t: int| 0 <= t < before.len() && before[t] == i;
                }
            }
            before
        }
    }
}

/// Where the elements of a `filter` come from, in order.
pub proof fn lemma_filter_sources<A>(s: Seq<A>, pred: spec_fn(A) -> bool) -> (src: Seq<int>)
    ensures
        are_indices(src, s.len() as int),
        src.len() == s.filter(pred).len(),
        forall|t: int| 0 <= t < src.len() ==> s[#[trigger] src[t]] == s.filter(pred)[t],
        forall|i: int| 0 <= i < s.len() ==> (src.contains(i) <==> pred(#[trigger] s[i])),
    decreases s.len(),
{
    if s.len() == 0 {
        assert(s.filter(pred) =~= s);
        Seq::empty()
    } else {
        let d = s.drop_last();
        let n = d.len() as int;
        let before = lemma_filter_sources(d, pred);
        assert(s =~= d.push(s.last()));
        d.lemma_filter_push(s.last(), pred);
        let src = if pred(s.last()) {
            before.push(n)
        } else {
            before
        };
        assert forall|t: int| 0 <= t < src.len() implies s[#[trigger] src[t]] == s.filter(
            pred,
        )[t] by {
            if t < before.len() {
                assert(src[t] == before[t]);
                assert(d[before[t]] == s[before[t]]);
            }
        }
        assert forall|i: int| 0 <= i < s.len() implies (src.contains(i) <==> pred(
            #[trigger] s[i],
        )) by {
            if i < n {
                assert(d[i] == s[i]);
                if before.contains(i) {
                    let t = choose|t: int| 0 <= t < before.len() && before[t] == i;
                    assert(src[t] == i);
                }
                if src.contains(i) {
                    let t = choose|t: int| 0 <= t < src.len() && src[t] == i;
                    assert(before[t] == i);
                }
            } else if pred(s[i]) {
                assert(src[before.len() as int] == i);
            } else if src.contains(i) {
                let t = choose|t: int| 0 <= t < src.len() && src[t] == i;
                assert(before[t] == i);
            }
        }
        src
    }
}

/// Where an element of a joined sequence stands in a `flat_map`.
pub proof fn lemma_flat_map_at<A, B>(s: Seq<A>, f: spec_fn(A) -> Seq<B>, i: int, j: int)
    requires
        0 <= i < s.len(),
        0 <= j < f(s[i]).len(),
    ensures
        s.take(i).flat_map(f).len() + j < s.flat_map(f).len(),
        s.flat_map(f)[s.take(i).flat_map(f).len() + j] == f(s[i])[j],
{
    assert(s.take(s.len() as int) =~= s);
    lemma_flat_map_prefix_at(s, f, s.len() as int, i, j);
}

proof fn lemma_flat_map_prefix_at<A, B>(
    s: Seq<A>,
    f: spec_fn(A) -> Seq<B>,
    n: int,
    i: int,
    j: int,
)
    requires
        0 <= i < n <= s.len(),
        0 <= j < f(s[i]).len(),
    ensures
        s.take(i).flat_map(f).len() + j < s.take(n).flat_map(f).len(),
        s.take(n).flat_map(f)[s.take(i).flat_map(f).len() + j] == f(s[i])[j],
    decreases n,
{
    s.lemma_flat_map_take_append(f, n - 1);
    if i < n - 1 {
        lemma_flat_map_prefix_at(s, f, n - 1, i, j);
    }
}

/// A `filter_map` depends on what is made of each element alone.
pub proof fn lemma_filter_map_alike<A, B>(
    s: Seq<A>,
    r: Seq<A>,
    f: spec_fn(A) -> Option<B>,
    g: spec_fn(A) -> Option<B>,
)
    requires
        s.len() == r.len(),
        forall|i: int| 0 <= i < s.len() ==> f(#[trigger] s[i]) == g(r[i]),
    ensures
        s.filter_map(f) == r.filter_map(g),
{
    assert(s.take(s.len() as int) =~= s);
    assert(r.take(r.len() as int) =~= r);
    lemma_filter_map_prefix_alike(s, r, f, g, s.len() as int);
}

proof fn lemma_filter_map_prefix_alike<A, B>(
    s: Seq<A>,
    r: Seq<A>,
    f: spec_fn(A) -> Option<B>,
    g: spec_fn(A) -> Option<B>,
    n: int,
)
    requires
        0 <= n <= s.len(),
        s.len() == r.len(),
        forall|i: int| 0 <= i < s.len() ==> f(#[trigger] s[i]) == g(r[i]),
    ensures
        s.take(n).filter_map(f) == r.take(n).filter_map(g),
    decreases n,
{
    if n == 0 {
        reveal(Seq::filter_map);
        assert(s.take(0).filter_map(f) =~= r.take(0).filter_map(g));
    } else {
        lemma_filter_map_prefix_alike(s, r, f, g, n - 1);
        s.lemma_filter_map_take_succ(f, n - 1);
        r.lemma_filter_map_take_succ(g, n - 1);
        assert(f(s[n - 1]) == g(r[n - 1]));
    }
}

/// Indices of indices.
pub open spec fn composed(a: Seq<int>, b: Seq<int>) -> Seq<int> {
    Seq::new(b.len(), |t: int| a[b[t]])
}

/// Indices of indices are indices.
pub proof fn lemma_composed(a: Seq<int>, b: Seq<int>, n: int)
    requires
        are_indices(a, n),
        are_indices(b, a.len() as int),
    ensures
        are_indices(composed(a, b), n),
        forall|i: int|
            composed(a, b).contains(i) <==> exists|q: int|
                0 <= q < a.len() && a[q] == i && #[trigger] b.contains(q),
{
    let c = composed(a, b);
    assert forall|t: int, u: int| 0 <= t < u < c.len() implies #[trigger] c[t]
        < #[trigger] c[u] by {
        assert(b[t] < b[u]);
        assert(a[b[t]] < a[b[u]]);
    }
    assert forall|t: int| 0 <= t < c.len() implies 0 <= #[trigger] c[t] < n by {
        assert(0 <= b[t] < a.len());
    }
    assert forall|i: int|
        c.contains(i) <==> exists|q: int|
            0 <= q < a.len() && a[q] == i && #[trigger] b.contains(q) by {
        if c.contains(i) {
            let t = choose|t: int| 0 <= t < c.len() && c[t] == i;
            assert(0 <= b[t] < a.len());
            assert(b.contains(b[t]));
        }
        if exists|q: int| 0 <= q < a.len() && a[q] == i && #[trigger] b.contains(q) {
            let q = choose|q: int| 0 <= q < a.len() && a[q] == i && #[trigger] b.contains(q);
            let t = choose|t: int| 0 <= t < b.len() && b[t] == q;
            assert(c[t] == i);
        }
    }
}

} // verus!
