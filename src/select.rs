use crate::price::Price;
use std::cmp::Ordering;
use vstd::multiset::Multiset;
use vstd::prelude::*;

verus! {

broadcast use {vstd::seq_lib::group_to_multiset_ensures, vstd::multiset::group_multiset_axioms};

/// The prices whose value is below `v`.
pub open spec fn below(v: int) -> spec_fn(Price) -> bool {
    |x: Price| x.scaled() < v
}

/// The prices whose value is at most `v`.
pub open spec fn at_most(v: int) -> spec_fn(Price) -> bool {
    |x: Price| x.scaled() <= v
}

/// `p` is one of the prices in `m`, and by value the one of rank `k`
/// (counted from zero) once `m` is put in order: at most `k` prices are below
/// it and more than `k` are at most it.
pub open spec fn is_rank(m: Multiset<Price>, k: int, p: Price) -> bool {
    &&& m.count(p) > 0
    &&& m.filter(below(p.scaled())).len() <= k
    &&& m.filter(at_most(p.scaled())).len() > k
}

/// Counting by a predicate gives the same on a sequence as on its multiset.
pub proof fn lemma_filter_len_multiset(s: Seq<Price>, f: spec_fn(Price) -> bool)
    ensures
        s.filter(f).len() == s.to_multiset().filter(f).len(),
    decreases s.len(),
{
    if s.len() == 0 {
        assert(s.filter(f) =~= Seq::<Price>::empty()) by {
            reveal(Seq::filter);
        }
        assert(s.to_multiset().filter(f) =~= Multiset::<Price>::empty());
    } else {
        let t = s.drop_last();
        let x = s.last();
        lemma_filter_len_multiset(t, f);
        assert(s =~= t.push(x));
        assert(s.filter(f) == (if f(x) {
            t.filter(f).push(x)
        } else {
            t.filter(f)
        })) by {
            reveal(Seq::filter);
        }
        assert(s.to_multiset() =~= t.to_multiset().insert(x));
        if f(x) {
            assert(s.to_multiset().filter(f) =~= t.to_multiset().filter(f).insert(x));
        } else {
            assert(s.to_multiset().filter(f) =~= t.to_multiset().filter(f));
        }
    }
}

/// A filter keeps every element of a sequence that all pass it, and none of
/// one that none pass.
proof fn lemma_filter_all_or_none(s: Seq<Price>, f: spec_fn(Price) -> bool)
    ensures
        (forall|i: int| 0 <= i < s.len() ==> f(#[trigger] s[i])) ==> s.filter(f).len() == s.len(),
        (forall|i: int| 0 <= i < s.len() ==> !f(#[trigger] s[i])) ==> s.filter(f).len() == 0,
    decreases s.len(),
{
    reveal(Seq::filter);
    if s.len() > 0 {
        lemma_filter_all_or_none(s.drop_last(), f);
        let t = s.drop_last();
        assert(forall|i: int| 0 <= i < t.len() ==> t[i] == s[i]);
    }
}

/// A sequence split around position `k`, with no larger value before `k` and
/// no smaller one after it, holds at `k` the price of rank `k`.
pub proof fn lemma_partition_gives_rank(s: Seq<Price>, k: int)
    requires
        0 <= k < s.len(),
        forall|i: int| 0 <= i < k ==> (#[trigger] s[i]).scaled() <= s[k].scaled(),
        forall|i: int| k < i < s.len() ==> (#[trigger] s[i]).scaled() >= s[k].scaled(),
    ensures
        is_rank(s.to_multiset(), k, s[k]),
{
    let v = s[k].scaled();
    let lo = s.subrange(0, k);
    let hi = s.subrange(k, s.len() as int);
    let lo1 = s.subrange(0, k + 1);
    let hi1 = s.subrange(k + 1, s.len() as int);
    assert(s =~= lo + hi);
    assert(s =~= lo1 + hi1);
    broadcast use vstd::seq_lib::group_seq_properties;
    Seq::<Price>::filter_distributes_over_add(lo, hi, below(v));
    Seq::<Price>::filter_distributes_over_add(lo1, hi1, at_most(v));
    assert forall|i: int| 0 <= i < hi.len() implies !below(v)(#[trigger] hi[i]) by {
        assert(hi[i] == s[k + i]);
    }
    assert forall|i: int| 0 <= i < lo1.len() implies at_most(v)(#[trigger] lo1[i]) by {
        assert(lo1[i] == s[i]);
    }
    lemma_filter_all_or_none(hi, below(v));
    lemma_filter_all_or_none(lo1, at_most(v));
    lo.lemma_filter_len(below(v));
    lemma_filter_len_multiset(s, below(v));
    lemma_filter_len_multiset(s, at_most(v));
    assert(s.contains(s[k]));
}

/// Two prices of the same rank in one multiset have the same value.
pub proof fn lemma_rank_unique(m: Multiset<Price>, k: int, p: Price, q: Price)
    requires
        is_rank(m, k, p),
        is_rank(m, k, q),
    ensures
        p.scaled() == q.scaled(),
{
    if p.scaled() < q.scaled() {
        lemma_rank_counts_ordered(m, k, p, q);
    } else if q.scaled() < p.scaled() {
        lemma_rank_counts_ordered(m, k, q, p);
    }
}

proof fn lemma_rank_counts_ordered(m: Multiset<Price>, k: int, p: Price, q: Price)
    requires
        p.scaled() < q.scaled(),
    ensures
        m.filter(at_most(p.scaled())).len() <= m.filter(below(q.scaled())).len(),
{
    assert(m.filter(at_most(p.scaled())).subset_of(m.filter(below(q.scaled()))));
    let d = m.filter(below(q.scaled())).sub(m.filter(at_most(p.scaled())));
    assert(m.filter(below(q.scaled())) =~= m.filter(at_most(p.scaled())).add(d));
}

/// Exchanges two elements.
fn swap(v: &mut Vec<Price>, i: usize, j: usize)
    requires
        i < old(v).len(),
        j < old(v).len(),
    ensures
        final(v)@ == old(v)@.update(i as int, old(v)@[j as int]).update(j as int, old(v)@[i as int]),
        final(v)@.to_multiset() == old(v)@.to_multiset(),
{
    let a = v[i];
    let b = v[j];
    let ghost s = v@;
    v.set(i, b);
    v.set(j, a);
    proof {
        let s1 = s.update(i as int, b);
        vstd::seq_lib::to_multiset_update(s, i as int, b);
        vstd::seq_lib::to_multiset_update(s1, j as int, a);
        if i == j {
            assert(v@ =~= s);
        } else {
            assert(s1[j as int] == b);
            assert(v@.to_multiset() =~= s.to_multiset());
        }
    }
}

/// Reorders `v` so that position `k` holds the price of rank `k` by value,
/// with none larger before it and none smaller after it (quickselect, with
/// the middle element of each range as pivot: linear time on average).
pub fn select_nth(v: &mut Vec<Price>, k: usize)
    requires
        k < old(v).len(),
    ensures
        final(v).len() == old(v).len(),
        final(v)@.to_multiset() == old(v)@.to_multiset(),
        forall|i: int| 0 <= i < k ==> (#[trigger] final(v)@[i]).scaled() <= final(v)@[k as int].scaled(),
        forall|i: int|
            k < i < final(v).len() ==> (#[trigger] final(v)@[i]).scaled() >= final(v)@[k as int].scaled(),
{
    let ghost orig = v@;
    let n = v.len();
    let mut lo: usize = 0;
    let mut hi: usize = n;
    while hi - lo > 1
        invariant
            v.len() == n,
            v@.to_multiset() == orig.to_multiset(),
            lo <= k < hi <= n,
            forall|i: int, j: int|
                0 <= i < lo <= j < n ==> (#[trigger] v@[i]).scaled() <= (#[trigger] v@[j]).scaled(),
            forall|i: int, j: int|
                0 <= i < hi <= j < n ==> (#[trigger] v@[i]).scaled() <= (#[trigger] v@[j]).scaled(),
        decreases hi - lo,
    {
        let last = hi - 1;
        let mid = lo + (hi - lo) / 2;
        swap(v, mid, last);
        let pivot = v[last];
        let mut store: usize = lo;
        let mut j: usize = lo;
        while j < last
            invariant
                v.len() == n,
                v@.to_multiset() == orig.to_multiset(),
                lo <= store <= j <= last,
                last == hi - 1,
                lo <= k < hi <= n,
                v@[last as int] == pivot,
                forall|i: int, j: int|
                    0 <= i < lo <= j < n ==> (#[trigger] v@[i]).scaled() <= (#[trigger] v@[j]).scaled(),
                forall|i: int, j: int|
                    0 <= i < hi <= j < n ==> (#[trigger] v@[i]).scaled() <= (#[trigger] v@[j]).scaled(),
                forall|i: int| lo <= i < store ==> (#[trigger] v@[i]).scaled() < pivot.scaled(),
                forall|i: int| store <= i < j ==> (#[trigger] v@[i]).scaled() >= pivot.scaled(),
            decreases last - j,
        {
            let o = v[j].compare(&pivot);
            match o {
                Ordering::Less => {
                    swap(v, store, j);
                    store = store + 1;
                },
                _ => {},
            }
            j = j + 1;
        }
        swap(v, store, last);
        if k < store {
            hi = store;
        } else if k > store {
            lo = store + 1;
        } else {
            lo = store;
            hi = store + 1;
        }
    }
}

} // verus!
