//! A stable sort by descending weight, the order in which directories, files
//! and languages are listed (std's `sort_by_key` with `Reverse(weight)`).
use vstd::prelude::*;

verus! {

/// How many entries of `s` weigh at least `k`.
pub open spec fn count_at_least<T>(s: Seq<(u64, T)>, k: u64) -> nat
    decreases s.len(),
{
    if s.len() == 0 {
        0
    } else {
        count_at_least(s.drop_last(), k) + if s.last().0 >= k {
            1nat
        } else {
            0nat
        }
    }
}

/// Heaviest first; among equal weights, the order of `s` is kept: each entry is
/// placed after every earlier entry that weighs at least as much.
pub open spec fn sort_desc<T>(s: Seq<(u64, T)>) -> Seq<(u64, T)>
    decreases s.len(),
{
    if s.len() == 0 {
        s
    } else {
        let r = sort_desc(s.drop_last());
        r.insert(count_at_least(r, s.last().0) as int, s.last())
    }
}

pub open spec fn sorted_desc<T>(s: Seq<(u64, T)>) -> bool {
    forall|i: int, j: int| 0 <= i < j < s.len() ==> s[i].0 >= s[j].0
}

proof fn lemma_count_bounds<T>(s: Seq<(u64, T)>, k: u64)
    ensures
        count_at_least(s, k) <= s.len(),
    decreases s.len(),
{
    if s.len() > 0 {
        lemma_count_bounds(s.drop_last(), k);
    }
}

/// In a list sorted heaviest first, the entries weighing at least `k` are
/// exactly its first `count_at_least(s, k)`.
proof fn lemma_count_is_prefix<T>(s: Seq<(u64, T)>, k: u64)
    requires
        sorted_desc(s),
    ensures
        count_at_least(s, k) <= s.len(),
        forall|i: int| 0 <= i < count_at_least(s, k) ==> s[i].0 >= k,
        forall|i: int| count_at_least(s, k) <= i < s.len() ==> s[i].0 < k,
    decreases s.len(),
{
    if s.len() > 0 {
        let d = s.drop_last();
        assert(sorted_desc(d));
        lemma_count_is_prefix(d, k);
        assert(forall|i: int| 0 <= i < d.len() ==> s[i] == #[trigger] d[i]);
        if s.last().0 >= k {
            assert forall|i: int| 0 <= i < d.len() implies d[i].0 >= k by {
                assert(s[i].0 >= s[s.len() - 1].0);
            }
            assert(count_at_least(d, k) == d.len()) by {
                if count_at_least(d, k) < d.len() {
                    assert(d[count_at_least(d, k) as int].0 < k);
                }
            }
            assert forall|i: int| 0 <= i < count_at_least(s, k) implies s[i].0 >= k by {
                if i < d.len() {
                    assert(d[i].0 >= k);
                }
            }
        } else {
            assert(count_at_least(s, k) == count_at_least(d, k));
            assert forall|i: int| 0 <= i < count_at_least(s, k) implies s[i].0 >= k by {
                assert(d[i].0 >= k);
            }
        }
    }
}

/// The stable descending order is sorted heaviest first.
pub proof fn lemma_sort_desc_sorted<T>(s: Seq<(u64, T)>)
    ensures
        sorted_desc(sort_desc(s)),
        sort_desc(s).len() == s.len(),
    decreases s.len(),
{
    if s.len() > 0 {
        let r = sort_desc(s.drop_last());
        lemma_sort_desc_sorted(s.drop_last());
        lemma_count_is_prefix(r, s.last().0);
        let p = count_at_least(r, s.last().0) as int;
        let out = r.insert(p, s.last());
        assert forall|i: int, j: int| 0 <= i < j < out.len() implies out[i].0 >= out[j].0 by {
            if j < p {
                assert(out[i] == r[i] && out[j] == r[j]);
            } else if j == p {
                assert(out[i] == r[i]);
            } else if i < p {
                assert(out[i] == r[i] && out[j] == r[j - 1]);
            } else if i == p {
                assert(out[j] == r[j - 1]);
            } else {
                assert(out[i] == r[i - 1] && out[j] == r[j - 1]);
            }
        }
    }
}

/// The stable descending order holds the same entries.
pub proof fn lemma_sort_desc_permutes<T>(s: Seq<(u64, T)>)
    ensures
        sort_desc(s).to_multiset() == s.to_multiset(),
    decreases s.len(),
{
    broadcast use vstd::seq_lib::to_multiset_insert, vstd::seq_lib::to_multiset_build;

    if s.len() > 0 {
        let r = sort_desc(s.drop_last());
        lemma_sort_desc_permutes(s.drop_last());
        lemma_sort_desc_sorted(s.drop_last());
        lemma_count_bounds(r, s.last().0);
        assert(s.drop_last().push(s.last()) =~= s);
    }
}

proof fn lemma_count_map<T, U>(s: Seq<(u64, T)>, f: spec_fn(T) -> U, k: u64)
    ensures
        count_at_least(s.map_values(|x: (u64, T)| (x.0, f(x.1))), k) == count_at_least(s, k),
    decreases s.len(),
{
    if s.len() > 0 {
        lemma_count_map(s.drop_last(), f, k);
        assert(s.map_values(|x: (u64, T)| (x.0, f(x.1))).drop_last() =~= s.drop_last().map_values(
            |x: (u64, T)| (x.0, f(x.1)),
        ));
    }
}

/// Sorting commutes with changing what the entries carry, weights kept.
pub proof fn lemma_sort_desc_map<T, U>(s: Seq<(u64, T)>, f: spec_fn(T) -> U)
    ensures
        sort_desc(s.map_values(|x: (u64, T)| (x.0, f(x.1)))) == sort_desc(s).map_values(
            |x: (u64, T)| (x.0, f(x.1)),
        ),
    decreases s.len(),
{
    let g = |x: (u64, T)| (x.0, f(x.1));
    if s.len() > 0 {
        let d = s.drop_last();
        lemma_sort_desc_map(d, f);
        assert(s.map_values(g).drop_last() =~= d.map_values(g));
        let r = sort_desc(d);
        lemma_count_map(r, f, s.last().0);
        lemma_sort_desc_sorted(d);
        lemma_count_bounds(r, s.last().0);
        let p = count_at_least(r, s.last().0) as int;
        assert(r.insert(p, s.last()).map_values(g) =~= r.map_values(g).insert(p, g(s.last())));
    } else {
        assert(s.map_values(g) =~= Seq::<(u64, U)>::empty());
        assert(sort_desc(s).map_values(g) =~= Seq::<(u64, U)>::empty());
    }
}

/// Whatever holds of every entry holds of every entry of the sorted list.
pub proof fn lemma_sort_desc_keeps<T>(s: Seq<(u64, T)>, pred: spec_fn((u64, T)) -> bool)
    requires
        forall|i: int| 0 <= i < s.len() ==> pred(#[trigger] s[i]),
    ensures
        forall|i: int| 0 <= i < sort_desc(s).len() ==> pred(#[trigger] sort_desc(s)[i]),
    decreases s.len(),
{
    if s.len() > 0 {
        let d = s.drop_last();
        assert forall|i: int| 0 <= i < d.len() implies pred(#[trigger] d[i]) by {
            assert(d[i] == s[i]);
        }
        lemma_sort_desc_keeps(d, pred);
        let r = sort_desc(d);
        lemma_sort_desc_sorted(d);
        lemma_count_bounds(r, s.last().0);
        let p = count_at_least(r, s.last().0) as int;
        let out = r.insert(p, s.last());
        assert forall|i: int| 0 <= i < out.len() implies pred(#[trigger] out[i]) by {
            if i < p {
                assert(out[i] == r[i]);
            } else if i > p {
                assert(out[i] == r[i - 1]);
            }
        }
    }
}

/// The sum of `g` over the entries of `s`.
pub open spec fn sum_by<T>(s: Seq<T>, g: spec_fn(T) -> int) -> int
    decreases s.len(),
{
    if s.len() == 0 {
        0
    } else {
        sum_by(s.drop_last(), g) + g(s.last())
    }
}

pub proof fn lemma_sum_by_insert<T>(s: Seq<T>, i: int, x: T, g: spec_fn(T) -> int)
    requires
        0 <= i <= s.len(),
    ensures
        sum_by(s.insert(i, x), g) == sum_by(s, g) + g(x),
    decreases s.len(),
{
    if i == s.len() {
        assert(s.insert(i, x).drop_last() =~= s);
    } else {
        lemma_sum_by_insert(s.drop_last(), i, x, g);
        assert(s.insert(i, x).drop_last() =~= s.drop_last().insert(i, x));
        assert(s.insert(i, x).last() == s.last());
    }
}

/// Sorting does not change a sum over the entries.
pub proof fn lemma_sum_by_sort_desc<T>(s: Seq<(u64, T)>, g: spec_fn((u64, T)) -> int)
    ensures
        sum_by(sort_desc(s), g) == sum_by(s, g),
    decreases s.len(),
{
    if s.len() > 0 {
        let r = sort_desc(s.drop_last());
        lemma_sum_by_sort_desc(s.drop_last(), g);
        lemma_sort_desc_sorted(s.drop_last());
        lemma_count_bounds(r, s.last().0);
        lemma_sum_by_insert(r, count_at_least(r, s.last().0) as int, s.last(), g);
    }
}

pub proof fn lemma_sum_by_map<T, U>(s: Seq<T>, f: spec_fn(T) -> U, g: spec_fn(U) -> int)
    ensures
        sum_by(s.map_values(f), g) == sum_by(s, |x: T| g(f(x))),
    decreases s.len(),
{
    if s.len() > 0 {
        lemma_sum_by_map(s.drop_last(), f, g);
        assert(s.map_values(f).drop_last() =~= s.drop_last().map_values(f));
    }
}

pub proof fn lemma_sum_by_ext<T>(s: Seq<T>, g: spec_fn(T) -> int, h: spec_fn(T) -> int)
    requires
        forall|i: int| 0 <= i < s.len() ==> g(s[i]) == h(#[trigger] s[i]),
    ensures
        sum_by(s, g) == sum_by(s, h),
    decreases s.len(),
{
    if s.len() > 0 {
        assert forall|i: int| 0 <= i < s.drop_last().len() implies g(s.drop_last()[i]) == h(
            #[trigger] s.drop_last()[i],
        ) by {
            assert(s.drop_last()[i] == s[i]);
        }
        lemma_sum_by_ext(s.drop_last(), g, h);
    }
}

pub proof fn lemma_sum_by_pointwise<T, U>(a: Seq<T>, b: Seq<U>, g: spec_fn(T) -> int, h: spec_fn(U) -> int)
    requires
        a.len() == b.len(),
        forall|i: int| 0 <= i < a.len() ==> g(#[trigger] a[i]) == h(b[i]),
    ensures
        sum_by(a, g) == sum_by(b, h),
    decreases a.len(),
{
    if a.len() > 0 {
        assert forall|i: int| 0 <= i < a.drop_last().len() implies g(#[trigger] a.drop_last()[i]) == h(
            b.drop_last()[i],
        ) by {
            assert(a.drop_last()[i] == a[i] && b.drop_last()[i] == b[i]);
        }
        lemma_sum_by_pointwise(a.drop_last(), b.drop_last(), g, h);
        assert(g(a[a.len() - 1]) == h(b[b.len() - 1]));
    }
}

/// Sorts heaviest first, keeping the given order among equal weights.
pub fn sort_by_weight_desc<T>(items: Vec<(u64, T)>) -> (r: Vec<(u64, T)>)
    ensures
        r@ == sort_desc(items@),
{
    let ghost orig = items@;
    let mut rest = items;
    let mut out: Vec<(u64, T)> = Vec::new();
    let n = rest.len();
    let mut i: usize = 0;
    assert(orig.take(0) =~= Seq::<(u64, T)>::empty());
    assert(orig.skip(0) =~= orig);
    while i < n
        invariant
            n == orig.len(),
            i <= n,
            rest@ == orig.skip(i as int),
            out@ == sort_desc(orig.take(i as int)),
        decreases n - i,
    {
        let x = rest.remove(0);
        assert(x == orig[i as int]);
        assert(rest@ =~= orig.skip(i + 1));
        let k = x.0;
        proof {
            lemma_sort_desc_sorted(orig.take(i as int));
            lemma_count_is_prefix(out@, k);
        }
        let mut p: usize = 0;
        while p < out.len() && out[p].0 >= k
            invariant
                p <= out.len(),
                p <= count_at_least(out@, k),
                sorted_desc(out@),
                count_at_least(out@, k) <= out.len(),
                forall|j: int| count_at_least(out@, k) <= j < out.len() ==> out@[j].0 < k,
            decreases out.len() - p,
        {
            p = p + 1;
        }
        assert(p == count_at_least(out@, k));
        proof {
            assert(orig.take(i + 1).drop_last() =~= orig.take(i as int));
            assert(orig.take(i + 1).last() == x);
        }
        out.insert(p, x);
        i = i + 1;
    }
    assert(orig.take(n as int) =~= orig);
    out
}

/// What the entries carry, weights dropped.
pub fn payloads<T>(v: Vec<(u64, T)>) -> (r: Vec<T>)
    ensures
        r@ == v@.map_values(|x: (u64, T)| x.1),
{
    let ghost orig = v@;
    let mut rest = v;
    let mut out: Vec<T> = Vec::new();
    let n = rest.len();
    let mut i: usize = 0;
    assert(orig.skip(0) =~= orig);
    while i < n
        invariant
            n == orig.len(),
            i <= n,
            rest@ == orig.skip(i as int),
            out@ == orig.take(i as int).map_values(|x: (u64, T)| x.1),
        decreases n - i,
    {
        let x = rest.remove(0);
        assert(rest@ =~= orig.skip(i + 1));
        out.push(x.1);
        i = i + 1;
        assert(out@ =~= orig.take(i as int).map_values(|x: (u64, T)| x.1));
    }
    assert(orig.take(n as int) =~= orig);
    out
}

} // verus!
