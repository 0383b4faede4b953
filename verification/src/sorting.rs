use vstd::prelude::*;

verus! {

broadcast use vstd::seq_lib::group_seq_properties;

/// `lt` is a strict total order.
pub open spec fn strict_total<K>(lt: spec_fn(K, K) -> bool) -> bool {
    &&& forall|a: K| !#[trigger] lt(a, a)
    &&& forall|a: K, b: K, c: K| #[trigger] lt(a, b) && #[trigger] lt(b, c) ==> lt(a, c)
    &&& forall|a: K, b: K| #![trigger lt(a, b)] #![trigger lt(b, a)] a != b ==> lt(a, b) || lt(b, a)
}

/// No element comes before an element whose key is smaller.
pub open spec fn sorted_by_key<A, K>(s: Seq<A>, key: spec_fn(A) -> K, lt: spec_fn(K, K) -> bool) -> bool {
    forall|i: int, j: int| 0 <= i < j < s.len() ==> !lt(key(#[trigger] s[j]), key(#[trigger] s[i]))
}

/// The elements whose key is `k`.
pub open spec fn key_class<A, K>(key: spec_fn(A) -> K, k: K) -> spec_fn(A) -> bool {
    |x: A| key(x) == k
}

/// For every key, the elements with that key come in the same order in both.
pub open spec fn same_classes<A, K>(a: Seq<A>, b: Seq<A>, key: spec_fn(A) -> K) -> bool {
    forall|k: K| #[trigger] a.filter(key_class(key, k)) == b.filter(key_class(key, k))
}

/// `res` is what a stable sort of `src` by `key` gives: sorted, and the
/// elements of equal key keep their order.
pub open spec fn stable_sort_of<A, K>(
    res: Seq<A>,
    src: Seq<A>,
    key: spec_fn(A) -> K,
    lt: spec_fn(K, K) -> bool,
) -> bool {
    sorted_by_key(res, key, lt) && same_classes(res, src, key)
}

/// At most one position satisfies `p`: filtering keeps at most one element.
pub proof fn lemma_filter_at_most_one<A>(s: Seq<A>, p: spec_fn(A) -> bool)
    requires
        forall|a: int, b: int| 0 <= a < s.len() && 0 <= b < s.len() && p(#[trigger] s[a]) && p(#[trigger] s[b]) ==> a == b,
    ensures
        s.filter(p).len() <= 1,
    decreases s.len(),
{
    if s.len() > 0 {
        let d = s.drop_last();
        assert(s =~= d.push(s.last()));
        d.lemma_filter_push(s.last(), p);
        assert forall|a: int, b: int| 0 <= a < d.len() && 0 <= b < d.len() && p(#[trigger] d[a]) && p(#[trigger] d[b]) implies a == b by {
            assert(d[a] == s[a] && d[b] == s[b]);
        }
        if p(s.last()) {
            assert forall|i: int| 0 <= i < d.len() implies (|x: A| !p(x))(#[trigger] d[i]) by {
                assert(d[i] == s[i]);
                assert(p(s[s.len() - 1]));
            }
            d.lemma_all_neg_filter_empty(p);
        } else {
            lemma_filter_at_most_one(d, p);
        }
    }
}

/// Two positions satisfy `p`: filtering keeps at least two elements.
pub proof fn lemma_filter_two<A>(s: Seq<A>, p: spec_fn(A) -> bool, i: int, j: int)
    requires
        0 <= i < j < s.len(),
        p(s[i]),
        p(s[j]),
    ensures
        s.filter(p).len() >= 2,
    decreases s.len(),
{
    let d = s.drop_last();
    assert(s =~= d.push(s.last()));
    d.lemma_filter_push(s.last(), p);
    assert(d[i] == s[i]);
    if j == s.len() - 1 {
        d.lemma_filter_contains(p, i);
        assert(d.filter(p).len() >= 1);
    } else {
        assert(d[j] == s[j]);
        lemma_filter_two(d, p, i, j);
    }
}

/// A stable sort keeps the elements: the same ones are in both.
pub proof fn lemma_stable_sort_elements<A, K>(
    res: Seq<A>,
    src: Seq<A>,
    key: spec_fn(A) -> K,
    lt: spec_fn(K, K) -> bool,
)
    requires
        stable_sort_of(res, src, key, lt),
    ensures
        forall|x: A| #[trigger] res.contains(x) <==> src.contains(x),
{
    assert forall|x: A| #[trigger] res.contains(x) <==> src.contains(x) by {
        let c = key_class(key, key(x));
        assert(res.filter(c) == src.filter(c));
        if src.contains(x) {
            let i = choose|i: int| 0 <= i < src.len() && src[i] == x;
            src.lemma_filter_contains(c, i);
            res.lemma_filter_contains_rev(c, x);
        }
        if res.contains(x) {
            let i = choose|i: int| 0 <= i < res.len() && res[i] == x;
            res.lemma_filter_contains(c, i);
            src.lemma_filter_contains_rev(c, x);
        }
    }
}

/// Every element of `s` from `p` on has a key greater than `k`, given that
/// `s[p]` does and `s` is sorted.
pub proof fn lemma_sorted_tail_above<A, K>(
    s: Seq<A>,
    key: spec_fn(A) -> K,
    lt: spec_fn(K, K) -> bool,
    k: K,
    p: int,
)
    requires
        strict_total(lt),
        sorted_by_key(s, key, lt),
        0 <= p < s.len(),
        lt(k, key(s[p])),
    ensures
        forall|j: int| p <= j < s.len() ==> lt(k, key(#[trigger] s[j])),
{
    assert forall|j: int| p <= j < s.len() implies lt(k, key(#[trigger] s[j])) by {
        if j > p {
            assert(!lt(key(s[j]), key(s[p])));
            if key(s[j]) != key(s[p]) {
                assert(lt(key(s[p]), key(s[j])));
            }
        }
    }
}

/// Inserting an element after all keys not above its own, and before all keys
/// above it, extends a stable sort by that element.
pub proof fn lemma_stable_insert<A, K>(
    res: Seq<A>,
    src: Seq<A>,
    key: spec_fn(A) -> K,
    lt: spec_fn(K, K) -> bool,
    x: A,
    p: int,
)
    requires
        strict_total(lt),
        stable_sort_of(res, src, key, lt),
        0 <= p <= res.len(),
        forall|i: int| 0 <= i < p ==> !lt(key(x), key(#[trigger] res[i])),
        forall|i: int| p <= i < res.len() ==> lt(key(x), key(#[trigger] res[i])),
    ensures
        stable_sort_of(res.insert(p, x), src.push(x), key, lt),
{
    let r2 = res.insert(p, x);
    res.insert_ensures(p, x);
    assert forall|i: int, j: int| 0 <= i < j < r2.len() implies !lt(
        key(#[trigger] r2[j]),
        key(#[trigger] r2[i]),
    ) by {
        if i < p && j < p {
        } else if i < p && j == p {
        } else if i < p {
            assert(r2[j] == res[j - 1]);
        } else if i == p {
            assert(r2[j] == res[j - 1]);
            assert(lt(key(x), key(res[j - 1])));
        } else {
            assert(r2[i] == res[i - 1]);
            assert(r2[j] == res[j - 1]);
        }
    }
    let a = res.take(p);
    let b = res.skip(p);
    assert(r2 =~= a + (seq![x] + b));
    assert(res =~= a + b);
    assert forall|k: K| #[trigger] r2.filter(key_class(key, k)) == src.push(x).filter(
        key_class(key, k),
    ) by {
        let f = key_class(key, k);
        assert(res.filter(f) == src.filter(f));
        src.lemma_filter_push(x, f);
        Seq::filter_distributes_over_add(a, seq![x] + b, f);
        Seq::filter_distributes_over_add(seq![x], b, f);
        Seq::filter_distributes_over_add(a, b, f);
        if k == key(x) {
            assert forall|i: int| 0 <= i < b.len() implies !f(#[trigger] b[i]) by {
                assert(b[i] == res[p + i]);
                assert(lt(key(x), key(res[p + i])));
            }
            b.lemma_all_neg_filter_empty(f);
            assert(b.filter(f) =~= Seq::<A>::empty());
            assert(seq![x].filter(f) =~= seq![x]) by {
                Seq::<A>::empty().lemma_filter_push(x, f);
                assert(Seq::<A>::empty().push(x) =~= seq![x]);
                assert(Seq::<A>::empty().filter(f) =~= Seq::<A>::empty()) by {
                    reveal(Seq::filter);
                }
            }
            assert(r2.filter(f) =~= a.filter(f).push(x));
            assert(res.filter(f) =~= a.filter(f));
        } else {
            assert(seq![x].filter(f) =~= Seq::<A>::empty()) by {
                Seq::<A>::empty().lemma_filter_push(x, f);
                assert(Seq::<A>::empty().push(x) =~= seq![x]);
                assert(Seq::<A>::empty().filter(f) =~= Seq::<A>::empty()) by {
                    reveal(Seq::filter);
                }
            }
            assert(r2.filter(f) =~= res.filter(f));
        }
    }
}

/// Strictly increasing: sorted with no repeats.
pub open spec fn strictly_sorted<A>(s: Seq<A>, lt: spec_fn(A, A) -> bool) -> bool {
    forall|i: int, j: int| 0 <= i < j < s.len() ==> lt(#[trigger] s[i], #[trigger] s[j])
}

/// Inserting `x` where it belongs keeps a strictly sorted sequence strictly
/// sorted, and adds exactly `x` to its elements.
pub proof fn lemma_sorted_insert<A>(res: Seq<A>, lt: spec_fn(A, A) -> bool, x: A, p: int)
    requires
        strict_total(lt),
        strictly_sorted(res, lt),
        0 <= p <= res.len(),
        forall|i: int| 0 <= i < p ==> lt(#[trigger] res[i], x),
        p < res.len() ==> lt(x, res[p]),
    ensures
        strictly_sorted(res.insert(p, x), lt),
        forall|y: A| #[trigger] res.insert(p, x).contains(y) <==> (res.contains(y) || y == x),
{
    let r2 = res.insert(p, x);
    res.insert_ensures(p, x);
    assert forall|i: int, j: int| 0 <= i < j < r2.len() implies lt(
        #[trigger] r2[i],
        #[trigger] r2[j],
    ) by {
        if i < p && j < p {
        } else if i < p && j == p {
        } else if i < p {
            assert(r2[j] == res[j - 1]);
        } else if i == p {
            assert(r2[j] == res[j - 1]);
            if j - 1 > p {
                assert(lt(res[p], res[j - 1]));
            }
        } else {
            assert(r2[i] == res[i - 1]);
            assert(r2[j] == res[j - 1]);
        }
    }
    assert forall|y: A| #[trigger] r2.contains(y) <==> (res.contains(y) || y == x) by {
        if r2.contains(y) {
            let i = choose|i: int| 0 <= i < r2.len() && r2[i] == y;
            if i < p {
                assert(res[i] == y);
            } else if i > p {
                assert(res[i - 1] == y);
            }
        }
        if res.contains(y) {
            let i = choose|i: int| 0 <= i < res.len() && res[i] == y;
            if i < p {
                assert(r2[i] == y);
            } else {
                assert(r2[i + 1] == y);
            }
        }
        if y == x {
            assert(r2[p] == x);
        }
    }
}


/// `x` put into the strictly increasing `u`, unless it is there already.
pub open spec fn insert_distinct<A>(u: Seq<A>, x: A, lt: spec_fn(A, A) -> bool) -> Seq<A>
    decreases u.len(),
{
    if u.len() == 0 {
        seq![x]
    } else if x == u[0] {
        u
    } else if lt(x, u[0]) {
        seq![x] + u
    } else {
        seq![u[0]] + insert_distinct(u.drop_first(), x, lt)
    }
}

/// The distinct elements of `s`, in increasing order.
pub open spec fn distinct_sorted<A>(s: Seq<A>, lt: spec_fn(A, A) -> bool) -> Seq<A>
    decreases s.len(),
{
    if s.len() == 0 {
        seq![]
    } else {
        insert_distinct(distinct_sorted(s.drop_last(), lt), s.last(), lt)
    }
}

pub proof fn lemma_insert_distinct<A>(u: Seq<A>, x: A, lt: spec_fn(A, A) -> bool)
    requires
        strict_total(lt),
        strictly_sorted(u, lt),
    ensures
        strictly_sorted(insert_distinct(u, x, lt), lt),
        forall|y: A| #[trigger] insert_distinct(u, x, lt).contains(y) <==> (u.contains(y) || y == x),
        insert_distinct(u, x, lt).len() > 0,
        insert_distinct(u, x, lt)[0] == u[0] || insert_distinct(u, x, lt)[0] == x,
    decreases u.len(),
{
    let r = insert_distinct(u, x, lt);
    if u.len() == 0 {
        assert forall|y: A| #[trigger] r.contains(y) <==> (u.contains(y) || y == x) by {
            if r.contains(y) {
                assert(r[0] == y);
            }
            if y == x {
                assert(r[0] == x);
            }
        }
    } else if x == u[0] {
    } else if lt(x, u[0]) {
        assert forall|i: int, j: int| 0 <= i < j < r.len() implies lt(#[trigger] r[i], #[trigger] r[j]) by {
            if i == 0 {
                assert(r[j] == u[j - 1]);
                if j - 1 > 0 {
                    assert(lt(u[0], u[j - 1]));
                }
            } else {
                assert(r[i] == u[i - 1]);
                assert(r[j] == u[j - 1]);
            }
        }
        assert forall|y: A| #[trigger] r.contains(y) <==> (u.contains(y) || y == x) by {
            if r.contains(y) {
                let i = choose|i: int| 0 <= i < r.len() && r[i] == y;
                if i > 0 {
                    assert(u[i - 1] == y);
                }
            }
            if u.contains(y) {
                let i = choose|i: int| 0 <= i < u.len() && u[i] == y;
                assert(r[i + 1] == y);
            }
            if y == x {
                assert(r[0] == x);
            }
        }
    } else {
        let t = u.drop_first();
        assert forall|i: int, j: int| 0 <= i < j < t.len() implies lt(#[trigger] t[i], #[trigger] t[j]) by {
            assert(t[i] == u[i + 1] && t[j] == u[j + 1]);
        }
        lemma_insert_distinct(t, x, lt);
        let rt = insert_distinct(t, x, lt);
        assert(r == seq![u[0]] + rt);
        assert(lt(u[0], x));
        assert forall|y: A| rt.contains(y) implies lt(u[0], y) by {
            if t.contains(y) {
                let i = choose|i: int| 0 <= i < t.len() && t[i] == y;
                assert(t[i] == u[i + 1]);
            }
        }
        assert forall|i: int, j: int| 0 <= i < j < r.len() implies lt(#[trigger] r[i], #[trigger] r[j]) by {
            if i == 0 {
                assert(r[j] == rt[j - 1]);
                assert(rt.contains(rt[j - 1]));
            } else {
                assert(r[i] == rt[i - 1]);
                assert(r[j] == rt[j - 1]);
            }
        }
        assert forall|y: A| #[trigger] r.contains(y) <==> (u.contains(y) || y == x) by {
            if r.contains(y) {
                let i = choose|i: int| 0 <= i < r.len() && r[i] == y;
                if i > 0 {
                    assert(rt[i - 1] == y);
                    assert(rt.contains(y));
                    if t.contains(y) {
                        let k = choose|k: int| 0 <= k < t.len() && t[k] == y;
                        assert(u[k + 1] == y);
                    }
                }
            }
            if u.contains(y) {
                let i = choose|i: int| 0 <= i < u.len() && u[i] == y;
                if i == 0 {
                    assert(r[0] == y);
                } else {
                    assert(t[i - 1] == y);
                    assert(rt.contains(y));
                    let k = choose|k: int| 0 <= k < rt.len() && rt[k] == y;
                    assert(r[k + 1] == y);
                }
            }
            if y == x {
                assert(rt.contains(x));
                let k = choose|k: int| 0 <= k < rt.len() && rt[k] == x;
                assert(r[k + 1] == x);
            }
        }
    }
}

pub proof fn lemma_distinct_sorted<A>(s: Seq<A>, lt: spec_fn(A, A) -> bool)
    requires
        strict_total(lt),
    ensures
        strictly_sorted(distinct_sorted(s, lt), lt),
        forall|y: A| #[trigger] distinct_sorted(s, lt).contains(y) <==> s.contains(y),
    decreases s.len(),
{
    if s.len() > 0 {
        lemma_distinct_sorted(s.drop_last(), lt);
        lemma_insert_distinct(distinct_sorted(s.drop_last(), lt), s.last(), lt);
        assert forall|y: A| #[trigger] distinct_sorted(s, lt).contains(y) <==> s.contains(y) by {
            assert(s =~= s.drop_last().push(s.last()));
            if s.contains(y) && y != s.last() {
                let i = choose|i: int| 0 <= i < s.len() && s[i] == y;
                assert(s.drop_last()[i] == y);
            }
        }
    } else {
        assert forall|y: A| #[trigger] distinct_sorted(s, lt).contains(y) <==> s.contains(y) by {}
    }
}

/// A strictly increasing sequence is fixed by its elements.
pub proof fn lemma_strictly_sorted_unique<A>(a: Seq<A>, b: Seq<A>, lt: spec_fn(A, A) -> bool)
    requires
        strict_total(lt),
        strictly_sorted(a, lt),
        strictly_sorted(b, lt),
        forall|y: A| #[trigger] a.contains(y) <==> b.contains(y),
    ensures
        a == b,
    decreases a.len(),
{
    if a.len() == 0 {
        if b.len() > 0 {
            assert(b.contains(b[0]));
            assert(a.contains(b[0]));
            assert(false);
        }
        assert(a =~= b);
    } else {
        assert(a.contains(a[0]));
        assert(b.len() > 0);
        assert(b.contains(b[0]));
        assert(a.contains(b[0]));
        let j = choose|j: int| 0 <= j < b.len() && b[j] == a[0];
        let i = choose|i: int| 0 <= i < a.len() && a[i] == b[0];
        if j > 0 {
            assert(lt(b[0], b[j]));
            if i > 0 {
                assert(lt(a[0], a[i]));
            }
            assert(false);
        }
        let ta = a.drop_first();
        let tb = b.drop_first();
        assert forall|p: int, q: int| 0 <= p < q < ta.len() implies lt(#[trigger] ta[p], #[trigger] ta[q]) by {
            assert(ta[p] == a[p + 1] && ta[q] == a[q + 1]);
        }
        assert forall|p: int, q: int| 0 <= p < q < tb.len() implies lt(#[trigger] tb[p], #[trigger] tb[q]) by {
            assert(tb[p] == b[p + 1] && tb[q] == b[q + 1]);
        }
        assert forall|y: A| #[trigger] ta.contains(y) <==> tb.contains(y) by {
            if ta.contains(y) {
                let k = choose|k: int| 0 <= k < ta.len() && ta[k] == y;
                assert(a[k + 1] == y);
                assert(lt(a[0], a[k + 1]));
                assert(a.contains(y));
                assert(b.contains(y));
                let m = choose|m: int| 0 <= m < b.len() && b[m] == y;
                assert(m != 0);
                assert(tb[m - 1] == y);
            }
            if tb.contains(y) {
                let k = choose|k: int| 0 <= k < tb.len() && tb[k] == y;
                assert(b[k + 1] == y);
                assert(lt(b[0], b[k + 1]));
                assert(b.contains(y));
                assert(a.contains(y));
                let m = choose|m: int| 0 <= m < a.len() && a[m] == y;
                assert(m != 0);
                assert(ta[m - 1] == y);
            }
        }
        lemma_strictly_sorted_unique(ta, tb, lt);
        assert(a =~= seq![a[0]] + ta);
        assert(b =~= seq![b[0]] + tb);
    }
}

} // verus!
