//! Stable sorting by a key, largest first.

use crate::briefing::{push_item, ContentItem};
use crate::text::views;
use vstd::prelude::*;

verus! {

/// Whether the place `a` comes before the place `b`: its key is larger, or the
/// keys are equal and it came first.
pub open spec fn comes_before(keys: Seq<i128>, a: int, b: int) -> bool {
    keys[a] > keys[b] || (keys[a] == keys[b] && a < b)
}

/// Whether `order` lists every place of `keys` once, those with larger keys
/// first and those with equal keys as they stood.
pub open spec fn is_descending(order: Seq<usize>, keys: Seq<i128>) -> bool {
    &&& order.len() == keys.len()
    &&& forall|i: int| 0 <= i < order.len() ==> (#[trigger] order[i]) < keys.len()
    &&& forall|i: int, j: int|
        0 <= i < j < order.len() ==> comes_before(keys, #[trigger] order[i] as int, #[trigger] order[j] as int)
    &&& forall|k: int| 0 <= k < keys.len() ==> #[trigger] order.contains(k as usize)
}

/// The elements of `s` in the given order.
pub open spec fn arranged<A>(s: Seq<A>, order: Seq<usize>) -> Seq<A> {
    Seq::new(order.len(), |i: int| s[order[i] as int])
}

/// The order that sorts `keys`, largest first, stably.
pub fn descending_order(keys: &Vec<i128>) -> (order: Vec<usize>)
    ensures
        is_descending(order@, keys@),
{
    let mut order: Vec<usize> = Vec::new();
    let mut k: usize = 0;
    while k < keys.len()
        invariant
            k <= keys@.len(),
            is_descending(order@, keys@.take(k as int)),
        decreases keys.len() - k,
    {
        let ghost seen = keys@.take(k as int);
        let ghost next = keys@.take(k + 1);
        let key: i128 = keys[k];
        let mut p: usize = 0;
        while p < order.len() && keys[order[p]] >= key
            invariant
                p <= order@.len(),
                k < keys@.len(),
                key == keys@[k as int],
                seen == keys@.take(k as int),
                is_descending(order@, seen),
                forall|i: int| 0 <= i < p ==> keys@[(#[trigger] order@[i]) as int] >= key,
            decreases order.len() - p,
        {
            p = p + 1;
        }
        let ghost prev = order@;
        order.insert(p, k);
        proof {
            assert(order@ == prev.insert(p as int, k));
            assert forall|i: int| 0 <= i < order@.len() implies (#[trigger] order@[i]) < next.len() by {
                if i < p {
                    assert(order@[i] == prev[i]);
                } else if i > p {
                    assert(order@[i] == prev[i - 1]);
                }
            }
            assert forall|i: int, j: int| 0 <= i < j < order@.len() implies comes_before(
                next,
                #[trigger] order@[i] as int,
                #[trigger] order@[j] as int,
            ) by {
                if j < p {
                    assert(order@[i] == prev[i] && order@[j] == prev[j]);
                    assert(comes_before(seen, prev[i] as int, prev[j] as int));
                } else if j == p {
                    assert(order@[i] == prev[i]);
                } else if i < p {
                    assert(order@[i] == prev[i] && order@[j] == prev[j - 1]);
                    assert(comes_before(seen, prev[i] as int, prev[j - 1] as int));
                } else if i == p {
                    assert(order@[j] == prev[j - 1]);
                    if j - 1 > p {
                        assert(comes_before(seen, prev[p as int] as int, prev[j - 1] as int));
                    }
                } else {
                    assert(order@[i] == prev[i - 1] && order@[j] == prev[j - 1]);
                    assert(comes_before(seen, prev[i - 1] as int, prev[j - 1] as int));
                }
            }
            assert forall|m: int| 0 <= m < next.len() implies #[trigger] order@.contains(m as usize) by {
                if m == k {
                    assert(order@[p as int] == m as usize);
                } else {
                    assert(prev.contains(m as usize));
                    let i = choose|i: int| 0 <= i < prev.len() && prev[i] == m as usize;
                    if i < p {
                        assert(order@[i] == m as usize);
                    } else {
                        assert(order@[i + 1] == m as usize);
                    }
                }
            }
        }
        k = k + 1;
    }
    assert(keys@.take(k as int) =~= keys@);
    order
}

/// Copies the items in the given order.
pub fn arrange(items: &Vec<ContentItem>, order: &Vec<usize>) -> (r: Vec<ContentItem>)
    requires
        forall|i: int| 0 <= i < order@.len() ==> (#[trigger] order@[i]) < items@.len(),
    ensures
        views(r@) == arranged(views(items@), order@),
{
    let mut out: Vec<ContentItem> = Vec::new();
    let mut i: usize = 0;
    while i < order.len()
        invariant
            i <= order@.len(),
            forall|k: int| 0 <= k < order@.len() ==> (#[trigger] order@[k]) < items@.len(),
            views(out@) == arranged(views(items@), order@.take(i as int)),
        decreases order.len() - i,
    {
        push_item(&mut out, items[order[i]].clone());
        assert(views(out@) =~= arranged(views(items@), order@.take(i + 1)));
        i = i + 1;
    }
    assert(order@.take(i as int) =~= order@);
    out
}

/// Places that come out in ascending order come out as they stood.
proof fn lemma_ascending_places(order: Seq<usize>, n: int, i: int)
    requires
        order.len() == n,
        forall|a: int| 0 <= a < n ==> (#[trigger] order[a]) < n,
        forall|a: int, b: int| 0 <= a < b < n ==> (#[trigger] order[a]) < (#[trigger] order[b]),
        0 <= i < n,
    ensures
        i <= order[i],
        order[i] <= i,
    decreases n,
{
    lemma_at_least(order, n, i);
    lemma_at_most(order, n, n - 1 - i);
}

proof fn lemma_at_least(order: Seq<usize>, n: int, i: int)
    requires
        order.len() == n,
        forall|a: int, b: int| 0 <= a < b < n ==> (#[trigger] order[a]) < (#[trigger] order[b]),
        0 <= i < n,
    ensures
        i <= order[i],
    decreases i,
{
    if i > 0 {
        lemma_at_least(order, n, i - 1);
        assert(order[i - 1] < order[i]);
    }
}

proof fn lemma_at_most(order: Seq<usize>, n: int, d: int)
    requires
        order.len() == n,
        forall|a: int| 0 <= a < n ==> (#[trigger] order[a]) < n,
        forall|a: int, b: int| 0 <= a < b < n ==> (#[trigger] order[a]) < (#[trigger] order[b]),
        0 <= d < n,
    ensures
        order[n - 1 - d] <= n - 1 - d,
    decreases d,
{
    if d > 0 {
        lemma_at_most(order, n, d - 1);
        assert(order[n - 1 - d] < order[n - d]);
    }
}

/// Sorting leaves a list alone whose keys never rise from one place to the next.
pub proof fn sorted_stays<A>(s: Seq<A>, order: Seq<usize>, keys: Seq<i128>)
    requires
        s.len() == keys.len(),
        is_descending(order, keys),
        forall|i: int, j: int| 0 <= i <= j < keys.len() ==> (#[trigger] keys[i]) >= (#[trigger] keys[j]),
    ensures
        arranged(s, order) == s,
{
    let n = keys.len() as int;
    assert forall|a: int, b: int| 0 <= a < b < n implies (#[trigger] order[a]) < (#[trigger] order[b]) by {
        assert(comes_before(keys, order[a] as int, order[b] as int));
        if order[b] <= order[a] {
            assert(keys[order[b] as int] >= keys[order[a] as int]);
        }
    }
    assert forall|i: int| 0 <= i < n implies arranged(s, order)[i] == s[i] by {
        lemma_ascending_places(order, n, i);
    }
    assert(arranged(s, order) =~= s);
}

/// Sorting loses nothing and invents nothing: the sorted list has the length of
/// the list, every element of it was there, and every element is still there.
pub proof fn sorting_keeps_elements<A>(s: Seq<A>, order: Seq<usize>, keys: Seq<i128>)
    requires
        s.len() == keys.len(),
        keys.len() <= usize::MAX,
        is_descending(order, keys),
    ensures
        arranged(s, order).len() == s.len(),
        forall|a: A| arranged(s, order).contains(a) <==> #[trigger] s.contains(a),
        forall|i: int, j: int| 0 <= i < j < order.len() ==> (#[trigger] order[i]) != (#[trigger] order[j]),
{
    let t = arranged(s, order);
    assert forall|a: A| t.contains(a) <==> #[trigger] s.contains(a) by {
        if t.contains(a) {
            let i = choose|i: int| 0 <= i < t.len() && t[i] == a;
            assert(s[order[i] as int] == a);
        }
        if s.contains(a) {
            let k = choose|k: int| 0 <= k < s.len() && s[k] == a;
            assert(order.contains(k as usize));
            let i = choose|i: int| 0 <= i < order.len() && order[i] == k as usize;
            assert(t[i] == a);
        }
    }
    assert forall|i: int, j: int| 0 <= i < j < order.len() implies (#[trigger] order[i]) != (#[trigger] order[j]) by {
        assert(comes_before(keys, order[i] as int, order[j] as int));
    }
}

/// There is only one such order: what sorting gives is fixed by the keys.
pub proof fn order_is_unique(a: Seq<usize>, b: Seq<usize>, keys: Seq<i128>)
    requires
        is_descending(a, keys),
        is_descending(b, keys),
    ensures
        a == b,
{
    assert forall|i: int| 0 <= i < a.len() implies a[i] == b[i] by {
        lemma_same_place(a, b, keys, i);
    }
    assert(a =~= b);
}

proof fn lemma_same_place(a: Seq<usize>, b: Seq<usize>, keys: Seq<i128>, i: int)
    requires
        is_descending(a, keys),
        is_descending(b, keys),
        0 <= i < a.len(),
    ensures
        a[i] == b[i],
    decreases i,
{
    assert forall|j: int| 0 <= j < i implies a[j] == b[j] by {
        lemma_same_place(a, b, keys, j);
    }
    if a[i] != b[i] {
        let x = a[i];
        let y = b[i];
        assert(b.contains(x as int as usize));
        assert(a.contains(y as int as usize));
        let p = choose|p: int| 0 <= p < b.len() && b[p] == x;
        let q = choose|q: int| 0 <= q < a.len() && a[q] == y;
        if p < i {
            assert(a[p] == x);
            assert(comes_before(keys, a[p] as int, a[i] as int));
        }
        if q < i {
            assert(b[q] == y);
            assert(comes_before(keys, b[q] as int, b[i] as int));
        }
        assert(p > i && q > i);
        assert(comes_before(keys, b[i] as int, b[p] as int));
        assert(comes_before(keys, a[i] as int, a[q] as int));
    }
}

} // verus!
