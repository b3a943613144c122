//! Ascending arrangement of the crossing columns of a row, and the order in
//! which the faces of a solid are painted.

use vstd::prelude::*;
use vstd::relations::{sorted_by, total_ordering};
use vstd::seq_lib::{lemma_sorted_unique, to_multiset_build, to_multiset_insert};
use crate::utils::as_ints;

verus! {

/// No element of the sequence is larger than one that follows it.
pub open spec fn ascending(s: Seq<int>) -> bool {
    forall|i: int, j: int| 0 <= i < j < s.len() ==> s[i] <= s[j]
}

/// An ascending rearrangement of a sequence is its sorted form.
pub proof fn lemma_ascending_rearrangement_is_sort(s: Seq<int>, t: Seq<int>)
    requires
        ascending(t),
        t.to_multiset() == s.to_multiset(),
    ensures
        t == s.sort(),
{
    let leq = |x: int, y: int| x <= y;
    s.lemma_sort_ensures();
    assert(sorted_by(s.sort(), leq));
    assert(sorted_by(t, leq));
    assert(total_ordering(leq));
    lemma_sorted_unique(t, s.sort(), leq);
}

/// The sorted form of a sequence is ascending and has the same length.
pub proof fn lemma_sort_is_ascending(s: Seq<int>)
    ensures
        ascending(s.sort()),
        s.sort().len() == s.len(),
        s.sort().to_multiset() == s.to_multiset(),
{
    let leq = |x: int, y: int| x <= y;
    let t = s.sort();
    s.lemma_sort_ensures();
    assert forall|i: int, j: int| 0 <= i < j < t.len() implies t[i] <= t[j] by {
        assert(leq(t[i], t[j]));
    }
    vstd::seq_lib::to_multiset_len(s);
    vstd::seq_lib::to_multiset_len(t);
}

/// The sorted form of two elements: the smaller one first.
pub proof fn lemma_sort_two(p: int, q: int)
    ensures
        seq![p, q].sort() == (if p <= q {
            seq![p, q]
        } else {
            seq![q, p]
        }),
{
    let e = Seq::<int>::empty();
    assert(seq![p, q] =~= e.push(p).push(q));
    assert(seq![q, p] =~= e.push(q).push(p));
    to_multiset_build(e, p);
    to_multiset_build(e.push(p), q);
    to_multiset_build(e, q);
    to_multiset_build(e.push(q), p);
    assert(e.push(p).push(q).to_multiset() =~= e.push(q).push(p).to_multiset());
    if p <= q {
        lemma_ascending_rearrangement_is_sort(seq![p, q], seq![p, q]);
    } else {
        lemma_ascending_rearrangement_is_sort(seq![p, q], seq![q, p]);
    }
}

/// The elements of `v` in ascending order.
pub fn sort_ascending(v: &Vec<i32>) -> (out: Vec<i32>)
    ensures
        as_ints(out@) == as_ints(v@).sort(),
{
    let mut out: Vec<i32> = Vec::new();
    let mut i: usize = 0;
    assert(as_ints(out@) =~= as_ints(v@.take(0)));
    while i < v.len()
        invariant
            i <= v.len(),
            out.len() == i,
            ascending(as_ints(out@)),
            as_ints(out@).to_multiset() == as_ints(v@.take(i as int)).to_multiset(),
        decreases v.len() - i,
    {
        let x = v[i];
        let mut j: usize = 0;
        while j < out.len() && out[j] <= x
            invariant
                j <= out.len(),
                forall|k: int| 0 <= k < j ==> out@[k] <= x,
            decreases out.len() - j,
        {
            j += 1;
        }
        let ghost before = as_ints(out@);
        assert(forall|k: int| j <= k < before.len() ==> x < before[k]) by {
            if j < out.len() {
                assert(before[j as int] > x);
            }
        }
        assert(forall|k: int| 0 <= k < j ==> before[k] <= x);
        out.insert(j, x);
        proof {
            let after = before.insert(j as int, x as int);
            assert(as_ints(out@) =~= after);
            assert forall|a: int, b: int| 0 <= a < b < after.len() implies after[a] <= after[b] by {
                if a < j && b > j {
                    assert(after[a] == before[a] && after[b] == before[b - 1]);
                } else if a > j {
                    assert(after[a] == before[a - 1] && after[b] == before[b - 1]);
                } else if b < j {
                    assert(after[a] == before[a] && after[b] == before[b]);
                } else if a == j {
                    assert(after[b] == before[b - 1]);
                } else {
                    assert(after[a] == before[a]);
                }
            }
            to_multiset_insert(before, j as int, x as int);
            assert(as_ints(v@.take(i + 1)) =~= as_ints(v@.take(i as int)).push(x as int));
            to_multiset_build(as_ints(v@.take(i as int)), x as int);
        }
        i += 1;
    }
    proof {
        assert(v@.take(v.len() as int) == v@);
        lemma_ascending_rearrangement_is_sort(as_ints(v@), as_ints(out@));
    }
    out
}

/// Face `a` is painted before face `b`: its depth is larger, or the depths
/// are equal and its index is larger.
pub open spec fn painted_before(depths: Seq<int>, a: int, b: int) -> bool {
    depths[a] > depths[b] || (depths[a] == depths[b] && a > b)
}

/// `order` lists the faces with the given depths in the order in which they
/// are painted: every face once, from the largest depth to the smallest,
/// faces of equal depth from the last to the first.
///
/// This is the reverse of the stable ascending arrangement by depth.
pub open spec fn is_paint_order(order: Seq<int>, depths: Seq<int>) -> bool {
    &&& order.len() == depths.len()
    &&& forall|k: int| 0 <= k < order.len() ==> 0 <= #[trigger] order[k] < depths.len()
    &&& forall|i: int| 0 <= i < depths.len() ==> order.contains(i)
    &&& forall|a: int, b: int|
        0 <= a < b < order.len() ==> painted_before(depths, #[trigger] order[a], #[trigger] order[b])
}

/// Two paint orders of the same faces agree on their first `k` places.
proof fn lemma_paint_orders_agree(o1: Seq<int>, o2: Seq<int>, depths: Seq<int>, k: int)
    requires
        is_paint_order(o1, depths),
        is_paint_order(o2, depths),
        0 <= k <= depths.len(),
    ensures
        forall|j: int| 0 <= j < k ==> o1[j] == o2[j],
    decreases k,
{
    if k > 0 {
        lemma_paint_orders_agree(o1, o2, depths, k - 1);
        let v = o1[k - 1];
        let w = o2[k - 1];
        assert(o2.contains(v));
        assert(o1.contains(w));
        let m2 = choose|m: int| 0 <= m < o2.len() && o2[m] == v;
        let m1 = choose|m: int| 0 <= m < o1.len() && o1[m] == w;
        if m2 < k - 1 {
            assert(painted_before(depths, o1[m2], o1[k - 1]));
        } else if m1 < k - 1 {
            assert(painted_before(depths, o2[m1], o2[k - 1]));
        } else if m2 > k - 1 && m1 > k - 1 {
            assert(painted_before(depths, o2[k - 1], o2[m2]));
            assert(painted_before(depths, o1[k - 1], o1[m1]));
        }
    }
}

/// The faces of a solid have one paint order only.
pub proof fn lemma_paint_order_unique(o1: Seq<int>, o2: Seq<int>, depths: Seq<int>)
    requires
        is_paint_order(o1, depths),
        is_paint_order(o2, depths),
    ensures
        o1 == o2,
{
    lemma_paint_orders_agree(o1, o2, depths, depths.len() as int);
    assert(o1 =~= o2);
}

/// A sequence of indices read as mathematical integers.
pub open spec fn as_indices(s: Seq<usize>) -> Seq<int> {
    s.map_values(|v: usize| v as int)
}

/// The order in which faces with the given depths are painted.
pub fn paint_order(depths: &Vec<i32>) -> (order: Vec<usize>)
    ensures
        is_paint_order(as_indices(order@), as_ints(depths@)),
{
    let ghost d = as_ints(depths@);
    let mut order: Vec<usize> = Vec::new();
    let mut i: usize = 0;
    while i < depths.len()
        invariant
            i <= depths.len(),
            d == as_ints(depths@),
            order.len() == i,
            forall|k: int| 0 <= k < i ==> 0 <= #[trigger] order@[k] < i,
            forall|v: int| 0 <= v < i ==> as_indices(order@).contains(v),
            forall|a: int, b: int|
                0 <= a < b < i ==> painted_before(
                    d,
                    #[trigger] order@[a] as int,
                    #[trigger] order@[b] as int,
                ),
        decreases depths.len() - i,
    {
        let depth = depths[i];
        let mut j: usize = 0;
        while j < order.len() && depths[order[j]] > depth
            invariant
                j <= order.len(),
                order.len() == i,
                i < depths.len(),
                forall|k: int| 0 <= k < i ==> 0 <= #[trigger] order@[k] < i,
                forall|k: int| 0 <= k < j ==> depths@[order@[k] as int] > depth,
            decreases order.len() - j,
        {
            j += 1;
        }
        let ghost before = order@;
        assert(forall|k: int| j <= k < i ==> d[before[k] as int] <= depth) by {
            if j < i {
                assert(d[before[j as int] as int] <= depth);
                assert forall|k: int| j < k < i implies d[before[k] as int] <= depth by {
                    assert(painted_before(d, before[j as int] as int, before[k] as int));
                }
            }
        }
        order.insert(j, i);
        proof {
            let after = order@;
            assert(after =~= before.insert(j as int, i));
            assert forall|k: int| 0 <= k < i + 1 implies 0 <= #[trigger] after[k] < i + 1 by {
                if k < j {
                    assert(after[k] == before[k]);
                } else if k > j {
                    assert(after[k] == before[k - 1]);
                }
            }
            assert forall|v: int| 0 <= v < i + 1 implies as_indices(after).contains(v) by {
                if v == i {
                    assert(as_indices(after)[j as int] == v);
                } else {
                    let sb = as_indices(before);
                    assert(sb.contains(v));
                    let k = choose|k: int| 0 <= k < sb.len() && sb[k] == v;
                    if k < j {
                        assert(as_indices(after)[k] == v);
                    } else {
                        assert(as_indices(after)[k + 1] == v);
                    }
                }
            }
            assert forall|a: int, b: int| 0 <= a < b < i + 1 implies painted_before(
                d,
                #[trigger] after[a] as int,
                #[trigger] after[b] as int,
            ) by {
                let va = if a < j {
                    before[a]
                } else if a == j {
                    i
                } else {
                    before[a - 1]
                };
                let vb = if b < j {
                    before[b]
                } else if b == j {
                    i
                } else {
                    before[b - 1]
                };
                assert(after[a] == va && after[b] == vb);
                if a != j && b != j {
                    let pa = if a < j { a } else { a - 1 };
                    let pb = if b < j { b } else { b - 1 };
                    assert(painted_before(d, before[pa] as int, before[pb] as int));
                }
            }
        }
        i += 1;
    }
    proof {
        let o = as_indices(order@);
        assert forall|a: int, b: int| 0 <= a < b < o.len() implies painted_before(
            d,
            #[trigger] o[a],
            #[trigger] o[b],
        ) by {
            assert(painted_before(d, order@[a] as int, order@[b] as int));
        }
    }
    order
}

} // verus!
