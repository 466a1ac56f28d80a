//! Stable sorting: what it means for one sequence to be another sorted
//! stably by a key, that this determines the result, and a sort that does it.

use vstd::prelude::*;

verus! {

/// A value that is ordered by an integer rank.
pub trait Ranked {
    /// The rank by which values of this type are sorted.
    spec fn rank(&self) -> int;

    /// Whether `self` must stand after `other`.
    fn outranks(&self, other: &Self) -> (b: bool)
        ensures
            b == (self.rank() > other.rank()),
    ;
}

/// The rank of a value, as a key to sort by.
pub open spec fn rank_of<T: Ranked>() -> spec_fn(T) -> int {
    |x: T| x.rank()
}

/// Whether an item with key `k1` that came from place `a1` stands before one
/// with key `k2` from place `a2`: by key first, by place among equal keys.
pub open spec fn precedes(k1: int, a1: int, k2: int, a2: int) -> bool {
    k1 < k2 || (k1 == k2 && a1 < a2)
}

/// `p` shows that `r` is `s` sorted stably by `key`: `r[u]` is the item that
/// stood at place `p[u]` of `s`, every place of `s` is taken once, and the
/// items of `r` ascend by key, those of equal key by their place in `s`.
pub open spec fn stable_witness<T>(
    r: Seq<T>,
    s: Seq<T>,
    key: spec_fn(T) -> int,
    p: Seq<int>,
) -> bool {
    &&& r.len() == s.len()
    &&& p.len() == s.len()
    &&& forall|u: int| 0 <= u < p.len() ==> 0 <= #[trigger] p[u] < s.len() && r[u] == s[p[u]]
    &&& forall|a: int| 0 <= a < s.len() ==> #[trigger] p.contains(a)
    &&& forall|u: int, v: int|
        0 <= u < v < p.len() ==> precedes(
            key(s[#[trigger] p[u]]),
            p[u],
            key(s[#[trigger] p[v]]),
            p[v],
        )
}

/// `r` is `s` sorted stably by `key`.
pub open spec fn stable_sort_of<T>(r: Seq<T>, s: Seq<T>, key: spec_fn(T) -> int) -> bool {
    exists|p: Seq<int>| stable_witness(r, s, key, p)
}

/// The sequence that `s` becomes when it is sorted stably by `key`.
pub open spec fn stable_sorted<T>(s: Seq<T>, key: spec_fn(T) -> int) -> Seq<T> {
    choose|r: Seq<T>| stable_sort_of(r, s, key)
}

/// Whether `s` ascends by `key`.
pub open spec fn ascending<T>(s: Seq<T>, key: spec_fn(T) -> int) -> bool {
    forall|u: int, v: int| 0 <= u < v < s.len() ==> key(#[trigger] s[u]) <= key(#[trigger] s[v])
}

/// Putting a further item `x` into a stably sorted sequence, behind the items
/// of no greater key and before those of greater key, gives the stable sort
/// of the longer input.
pub proof fn lemma_insert_step<T>(
    r: Seq<T>,
    s: Seq<T>,
    key: spec_fn(T) -> int,
    p: Seq<int>,
    x: T,
    j: int,
)
    requires
        stable_witness(r, s, key, p),
        0 <= j <= r.len(),
        forall|u: int| 0 <= u < j ==> key(#[trigger] r[u]) <= key(x),
        forall|u: int| j <= u < r.len() ==> key(#[trigger] r[u]) > key(x),
    ensures
        stable_witness(r.insert(j, x), s.push(x), key, p.insert(j, s.len() as int)),
{
    let n = s.len() as int;
    let r2 = r.insert(j, x);
    let s2 = s.push(x);
    let pb = p.insert(j, n);
    assert forall|u: int| 0 <= u < pb.len() implies 0 <= #[trigger] pb[u] < s2.len() && r2[u]
        == s2[pb[u]] by {
        if u < j {
            assert(pb[u] == p[u]);
        } else if u > j {
            assert(pb[u] == p[u - 1]);
        }
    }
    assert forall|a: int| 0 <= a < s2.len() implies #[trigger] pb.contains(a) by {
        if a == n {
            assert(pb[j] == a);
        } else {
            assert(p.contains(a));
            let u = choose|u: int| 0 <= u < p.len() && p[u] == a;
            if u < j {
                assert(pb[u] == a);
            } else {
                assert(pb[u + 1] == a);
            }
        }
    }
    assert forall|u: int, v: int| 0 <= u < v < pb.len() implies precedes(
        key(s2[#[trigger] pb[u]]),
        pb[u],
        key(s2[#[trigger] pb[v]]),
        pb[v],
    ) by {
        let ou = if u < j { u } else { u - 1 };
        let ov = if v < j { v } else { v - 1 };
        if u != j {
            assert(pb[u] == p[ou] && r[ou] == s[p[ou]]);
        }
        if v != j {
            assert(pb[v] == p[ov] && r[ov] == s[p[ov]]);
        }
    }
}

/// Where a further item of key `k` goes in the ascending sequence `r`: behind
/// the last item whose key is no greater.
pub open spec fn insertion_point<T>(r: Seq<T>, key: spec_fn(T) -> int, k: int) -> int
    decreases r.len(),
{
    if r.len() > 0 && key(r.last()) > k {
        insertion_point(r.drop_last(), key, k)
    } else {
        r.len() as int
    }
}

/// The insertion point parts an ascending sequence: no item before it has a
/// greater key than `k`, every item from it on has.
pub proof fn lemma_insertion_point<T>(r: Seq<T>, key: spec_fn(T) -> int, k: int)
    requires
        ascending(r, key),
    ensures
        0 <= insertion_point(r, key, k) <= r.len(),
        forall|u: int| 0 <= u < insertion_point(r, key, k) ==> key(#[trigger] r[u]) <= k,
        forall|u: int| insertion_point(r, key, k) <= u < r.len() ==> key(#[trigger] r[u]) > k,
    decreases r.len(),
{
    if r.len() > 0 && key(r.last()) > k {
        let q = r.drop_last();
        assert forall|u: int, v: int| 0 <= u < v < q.len() implies key(#[trigger] q[u]) <= key(
            #[trigger] q[v],
        ) by {
            assert(q[u] == r[u] && q[v] == r[v]);
        }
        lemma_insertion_point(q, key, k);
        let j = insertion_point(q, key, k);
        assert forall|u: int| 0 <= u < j implies key(#[trigger] r[u]) <= k by {
            assert(r[u] == q[u]);
        }
        assert forall|u: int| j <= u < r.len() implies key(#[trigger] r[u]) > k by {
            if u < q.len() {
                assert(r[u] == q[u]);
            }
        }
    } else if r.len() > 0 {
        assert forall|u: int| 0 <= u < r.len() implies key(#[trigger] r[u]) <= k by {
            if u < r.len() - 1 {
                assert(key(r[u]) <= key(r[r.len() - 1]));
            }
        }
    }
}

/// A stably sorted sequence ascends by the key.
pub proof fn lemma_stable_sort_ascends<T>(r: Seq<T>, s: Seq<T>, key: spec_fn(T) -> int)
    requires
        stable_sort_of(r, s, key),
    ensures
        ascending(r, key),
        r.len() == s.len(),
{
    let p = choose|p: Seq<int>| stable_witness(r, s, key, p);
    assert forall|u: int, v: int| 0 <= u < v < r.len() implies key(#[trigger] r[u]) <= key(
        #[trigger] r[v],
    ) by {
        assert(precedes(key(s[p[u]]), p[u], key(s[p[v]]), p[v]));
    }
}

/// A stable sort holds the items of its input, and no others.
pub proof fn lemma_stable_sort_same_items<T>(r: Seq<T>, s: Seq<T>, key: spec_fn(T) -> int)
    requires
        stable_sort_of(r, s, key),
    ensures
        forall|x: T| r.contains(x) <==> s.contains(x),
{
    let p = choose|p: Seq<int>| stable_witness(r, s, key, p);
    assert forall|x: T| r.contains(x) <==> s.contains(x) by {
        if r.contains(x) {
            let u = choose|u: int| 0 <= u < r.len() && r[u] == x;
            assert(s[p[u]] == x);
        }
        if s.contains(x) {
            let a = choose|a: int| 0 <= a < s.len() && s[a] == x;
            assert(p.contains(a));
            let u = choose|u: int| 0 <= u < p.len() && p[u] == a;
            assert(r[u] == x);
        }
    }
}

/// Items of equal key keep the order that they had: where the input ascends
/// by a second key, so do the items of equal key in its stable sort.
pub proof fn lemma_stable_sort_keeps_ties<T>(
    r: Seq<T>,
    s: Seq<T>,
    key: spec_fn(T) -> int,
    second: spec_fn(T) -> int,
)
    requires
        stable_sort_of(r, s, key),
        ascending(s, second),
    ensures
        forall|u: int, v: int|
            0 <= u < v < r.len() && key(#[trigger] r[u]) == key(#[trigger] r[v]) ==> second(r[u])
                <= second(r[v]),
{
    let p = choose|p: Seq<int>| stable_witness(r, s, key, p);
    assert forall|u: int, v: int|
        0 <= u < v < r.len() && key(#[trigger] r[u]) == key(#[trigger] r[v]) implies second(r[u])
        <= second(r[v]) by {
        assert(precedes(key(s[p[u]]), p[u], key(s[p[v]]), p[v]));
        assert(second(s[p[u]]) <= second(s[p[v]]));
    }
}

proof fn lemma_witnesses_agree<T>(
    s: Seq<T>,
    key: spec_fn(T) -> int,
    r1: Seq<T>,
    pa: Seq<int>,
    r2: Seq<T>,
    pb: Seq<int>,
    k: int,
)
    requires
        stable_witness(r1, s, key, pa),
        stable_witness(r2, s, key, pb),
        0 <= k <= s.len(),
    ensures
        forall|u: int| 0 <= u < k ==> pa[u] == pb[u],
    decreases k,
{
    if k > 0 {
        lemma_witnesses_agree(s, key, r1, pa, r2, pb, k - 1);
        let m = k - 1;
        let a = pa[m];
        let b = pb[m];
        if a != b {
            assert(pb.contains(a));
            let w = choose|w: int| 0 <= w < pb.len() && pb[w] == a;
            assert(pa.contains(b));
            let x = choose|x: int| 0 <= x < pa.len() && pa[x] == b;
            if w < m {
                assert(pa[w] == a);
                assert(precedes(key(s[pa[w]]), pa[w], key(s[pa[m]]), pa[m]));
            } else if x < m {
                assert(pb[x] == b);
                assert(precedes(key(s[pb[x]]), pb[x], key(s[pb[m]]), pb[m]));
            } else {
                assert(precedes(key(s[pb[m]]), pb[m], key(s[pb[w]]), pb[w]));
                assert(precedes(key(s[pa[m]]), pa[m], key(s[pa[x]]), pa[x]));
            }
        }
    }
}

/// A sequence has one stable sort by a key, and no other.
pub proof fn lemma_stable_sort_unique<T>(r1: Seq<T>, r2: Seq<T>, s: Seq<T>, key: spec_fn(T) -> int)
    requires
        stable_sort_of(r1, s, key),
        stable_sort_of(r2, s, key),
    ensures
        r1 == r2,
{
    let pa = choose|p: Seq<int>| stable_witness(r1, s, key, p);
    let pb = choose|p: Seq<int>| stable_witness(r2, s, key, p);
    lemma_witnesses_agree(s, key, r1, pa, r2, pb, s.len() as int);
    assert forall|u: int| 0 <= u < r1.len() implies r1[u] == r2[u] by {
        assert(r1[u] == s[pa[u]]);
        assert(r2[u] == s[pb[u]]);
    }
    assert(r1 =~= r2);
}

/// Every sequence has a stable sort by any key.
pub proof fn lemma_stable_sort_exists<T>(s: Seq<T>, key: spec_fn(T) -> int)
    ensures
        stable_sort_of(stable_sorted(s, key), s, key),
    decreases s.len(),
{
    if s.len() == 0 {
        assert(stable_witness(s, s, key, Seq::<int>::empty()));
        assert(stable_sort_of(s, s, key));
    } else {
        let q = s.drop_last();
        let x = s.last();
        lemma_stable_sort_exists(q, key);
        let r = stable_sorted(q, key);
        let p = choose|p: Seq<int>| stable_witness(r, q, key, p);
        lemma_stable_sort_ascends(r, q, key);
        lemma_insertion_point(r, key, key(x));
        let j = insertion_point(r, key, key(x));
        lemma_insert_step(r, q, key, p, x, j);
        assert(q.push(x) =~= s);
        assert(stable_sort_of(r.insert(j, x), s, key));
    }
}

/// Whatever is a stable sort of `s` is `stable_sorted(s, key)`.
pub proof fn lemma_stable_sorted_is<T>(r: Seq<T>, s: Seq<T>, key: spec_fn(T) -> int)
    requires
        stable_sort_of(r, s, key),
    ensures
        r == stable_sorted(s, key),
{
    lemma_stable_sort_unique(r, stable_sorted(s, key), s, key);
}

/// A stable sort is carried over by any map of the items that keeps their keys.
pub proof fn lemma_stable_sort_maps<T, U>(
    r: Seq<T>,
    s: Seq<T>,
    key: spec_fn(T) -> int,
    f: spec_fn(T) -> U,
    key_after: spec_fn(U) -> int,
)
    requires
        stable_sort_of(r, s, key),
        forall|x: T| key_after(#[trigger] f(x)) == key(x),
    ensures
        stable_sort_of(r.map_values(f), s.map_values(f), key_after),
{
    let p = choose|p: Seq<int>| stable_witness(r, s, key, p);
    let r2 = r.map_values(f);
    let s2 = s.map_values(f);
    assert forall|u: int, v: int| 0 <= u < v < p.len() implies precedes(
        key_after(s2[#[trigger] p[u]]),
        p[u],
        key_after(s2[#[trigger] p[v]]),
        p[v],
    ) by {
        assert(precedes(key(s[p[u]]), p[u], key(s[p[v]]), p[v]));
    }
    assert(stable_witness(r2, s2, key_after, p));
}

/// Sorts `v` stably by rank: items ascend by rank, and items of equal rank
/// keep the order in which they stood.
pub fn stable_sort<T: Ranked>(v: &mut Vec<T>)
    ensures
        stable_sort_of(final(v)@, old(v)@, rank_of::<T>()),
        final(v)@ == stable_sorted(old(v)@, rank_of::<T>()),
{
    let ghost s0 = v@;
    let ghost key = rank_of::<T>();
    let ghost mut p: Seq<int> = Seq::empty();
    let n = v.len();
    let mut i: usize = 0;
    proof {
        assert(stable_witness(v@.take(0), s0.take(0), key, p));
    }
    while i < n
        invariant
            i <= n,
            n == v.len(),
            n == s0.len(),
            key == rank_of::<T>(),
            stable_witness(v@.take(i as int), s0.take(i as int), key, p),
            v@.skip(i as int) == s0.skip(i as int),
        decreases n - i,
    {
        let ghost before = v@;
        let ghost r = before.take(i as int);
        proof {
            lemma_stable_sort_ascends(r, s0.take(i as int), key);
        }
        let mut j: usize = i;
        while j > 0 && v[j - 1].outranks(&v[i])
            invariant
                j <= i < n,
                n == v.len(),
                v@ == before,
                key == rank_of::<T>(),
                forall|u: int| j <= u < i ==> key(#[trigger] before[u]) > key(before[i as int]),
            decreases j,
        {
            j -= 1;
        }
        let x = v.remove(i);
        v.insert(j, x);
        proof {
            assert(x == s0.skip(i as int)[0]);
            assert forall|u: int| 0 <= u < j implies key(#[trigger] r[u]) <= key(x) by {
                if u < j - 1 {
                    assert(key(r[u]) <= key(r[j - 1]));
                }
            }
            assert forall|u: int| j <= u < r.len() implies key(#[trigger] r[u]) > key(x) by {
                assert(r[u] == before[u]);
            }
            lemma_insert_step(r, s0.take(i as int), key, p, x, j as int);
            p = p.insert(j as int, i as int);
            assert(v@.take(i + 1) =~= r.insert(j as int, x));
            assert(s0.take(i + 1) =~= s0.take(i as int).push(x));
            let ghost rest = v@.skip(i + 1);
            assert forall|u: int| 0 <= u < n - i - 1 implies #[trigger] rest[u] == s0[u + i + 1] by {
                assert(v@[u + i + 1] == before[u + i + 1]);
                assert(before[u + i + 1] == before.skip(i as int)[u + 1]);
            }
            assert(rest =~= s0.skip(i + 1));
        }
        i += 1;
    }
    proof {
        assert(v@.take(n as int) =~= v@);
        assert(s0.take(n as int) =~= s0);
        lemma_stable_sorted_is(v@, s0, key);
    }
}

} // verus!
