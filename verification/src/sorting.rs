//! Sorting points along an axis.
use vstd::prelude::*;
use vstd::seq_lib::{to_multiset_build, to_multiset_contains, to_multiset_len};

use crate::drawing::Point;
use crate::number::Number;

verus! {

/// A key and where it came from.
#[derive(Debug, Clone, Copy, PartialEq, Eq, Structural)]
pub struct Keyed {
    pub key: Number,
    pub index: usize,
}

/// Whether one comes before another: by key, and by where they came from where
/// the keys do not tell them apart.
pub open spec fn earlier(a: Keyed, b: Keyed) -> bool {
    a.key.lt(b.key) || (!b.key.lt(a.key) && a.index < b.index)
}

/// Whether every key is a number.
pub open spec fn comparable(v: Seq<Keyed>) -> bool {
    forall|i: int| 0 <= i < v.len() ==> !(#[trigger] v[i]).key.is_nan()
}

/// Whether none comes before one that stands in front of it.
pub open spec fn ascending(v: Seq<Keyed>) -> bool {
    forall|i: int, j: int| 0 <= i < j < v.len() ==> !earlier(#[trigger] v[j], #[trigger] v[i])
}

fn is_earlier(a: Keyed, b: Keyed) -> (r: bool)
    ensures
        r == earlier(a, b),
{
    a.key.lt(b.key) || (!b.key.lt(a.key) && a.index < b.index)
}

proof fn lemma_take_push(v: Seq<Keyed>, i: int)
    requires
        0 <= i < v.len(),
    ensures
        v.take(i + 1).to_multiset() == v.take(i).to_multiset().insert(v[i]),
{
    assert(v.take(i + 1) =~= v.take(i).push(v[i]));
    to_multiset_build(v.take(i), v[i]);
}

/// Merges two lists that ascend into one that does.
fn merge(a: &Vec<Keyed>, b: &Vec<Keyed>) -> (out: Vec<Keyed>)
    ensures
        out@.to_multiset() == a@.to_multiset().add(b@.to_multiset()),
        comparable(a@) && comparable(b@) && ascending(a@) && ascending(b@) ==> ascending(out@)
            && comparable(out@),
{
    let ghost fit = comparable(a@) && comparable(b@) && ascending(a@) && ascending(b@);
    let mut out: Vec<Keyed> = Vec::new();
    let mut i: usize = 0;
    let mut j: usize = 0;
    proof {
        assert(a@.take(0) =~= Seq::<Keyed>::empty());
        assert(b@.take(0) =~= Seq::<Keyed>::empty());
        assert(out@ =~= Seq::<Keyed>::empty());
        to_multiset_len(Seq::<Keyed>::empty());
        assert(out@.to_multiset() =~= a@.take(0).to_multiset().add(b@.take(0).to_multiset()));
    }
    while i < a.len() || j < b.len()
        invariant
            i <= a.len(),
            j <= b.len(),
            fit == (comparable(a@) && comparable(b@) && ascending(a@) && ascending(b@)),
            out@.to_multiset() == a@.take(i as int).to_multiset().add(
                b@.take(j as int).to_multiset(),
            ),
            fit ==> ascending(out@) && comparable(out@),
            fit ==> forall|k: int, m: int|
                0 <= k < out.len() && i <= m < a.len() ==> !earlier(
                    #[trigger] a@[m],
                    #[trigger] out@[k],
                ),
            fit ==> forall|k: int, m: int|
                0 <= k < out.len() && j <= m < b.len() ==> !earlier(
                    #[trigger] b@[m],
                    #[trigger] out@[k],
                ),
        decreases (a.len() - i) + (b.len() - j),
    {
        let from_b = j < b.len() && (i >= a.len() || is_earlier(b[j], a[i]));
        let ghost before = out@;
        if from_b {
            proof {
                lemma_take_push(b@, j as int);
                to_multiset_build(before, b@[j as int]);
                assert(before.push(b@[j as int]).to_multiset() =~= a@.take(
                    i as int,
                ).to_multiset().add(b@.take(j + 1).to_multiset()));
            }
            out.push(b[j]);
            j = j + 1;
        } else {
            proof {
                lemma_take_push(a@, i as int);
                to_multiset_build(before, a@[i as int]);
                assert(before.push(a@[i as int]).to_multiset() =~= a@.take(
                    i + 1,
                ).to_multiset().add(b@.take(j as int).to_multiset()));
            }
            out.push(a[i]);
            i = i + 1;
        }
    }
    assert(a@.take(i as int) =~= a@);
    assert(b@.take(j as int) =~= b@);
    out
}

/// Sorts keys, keeping the order of those that are alike.
fn sorted(v: &Vec<Keyed>, from: usize, to: usize) -> (out: Vec<Keyed>)
    requires
        from <= to <= v.len(),
    ensures
        out@.to_multiset() == v@.subrange(from as int, to as int).to_multiset(),
        comparable(v@.subrange(from as int, to as int)) ==> ascending(out@) && comparable(out@),
    decreases to - from,
{
    let ghost part = v@.subrange(from as int, to as int);
    if to - from <= 1 {
        let mut out: Vec<Keyed> = Vec::new();
        if from < to {
            out.push(v[from]);
        }
        assert(out@ =~= part);
        return out;
    }
    let mid: usize = from + (to - from) / 2;
    let a = sorted(v, from, mid);
    let b = sorted(v, mid, to);
    let ghost left = v@.subrange(from as int, mid as int);
    let ghost right = v@.subrange(mid as int, to as int);
    proof {
        assert(part =~= left + right);
        vstd::seq_lib::lemma_multiset_commutative(left, right);
        if comparable(part) {
            assert forall|k: int| 0 <= k < left.len() implies !(#[trigger] left[k]).key.is_nan() by {
                assert(left[k] == part[k]);
            }
            assert forall|k: int| 0 <= k < right.len() implies !(
            #[trigger] right[k]).key.is_nan() by {
                assert(right[k] == part[left.len() + k]);
            }
        }
    }
    merge(&a, &b)
}

/// Whether a list of positions is an arrangement of the first `n`.
pub open spec fn is_arrangement(order: Seq<int>, n: nat) -> bool {
    &&& order.len() == n
    &&& order.no_duplicates()
    &&& forall|i: int| 0 <= i < n ==> 0 <= #[trigger] order[i] < n
}

/// Whether position `i` comes before position `j`: by key, and by position
/// where the keys are the same.
pub open spec fn stands_before(keys: Seq<Number>, i: int, j: int) -> bool {
    keys[i].lt(keys[j]) || (keys[i].same(keys[j]) && i < j)
}

/// Whether an arrangement puts keys in ascending order, those that are the
/// same staying in the order they came in.
pub open spec fn ascends(keys: Seq<Number>, order: Seq<int>) -> bool {
    forall|i: int, j: int|
        0 <= i < j < order.len() ==> stands_before(
            keys,
            #[trigger] order[i],
            #[trigger] order[j],
        )
}

/// Whether every key is a number.
pub open spec fn all_numbers(keys: Seq<Number>) -> bool {
    forall|i: int| 0 <= i < keys.len() ==> !(#[trigger] keys[i]).is_nan()
}

/// Whether an arrangement sorts keys.
pub open spec fn sorts(keys: Seq<Number>, order: Seq<int>) -> bool {
    is_arrangement(order, keys.len()) && ascends(keys, order)
}

/// The arrangement that sorts keys and keeps the order of those that are the
/// same. Keys that are not all numbers have no order and stay where they are.
pub open spec fn order_of(keys: Seq<Number>) -> Seq<int> {
    if all_numbers(keys) {
        choose|order: Seq<int>| sorts(keys, order)
    } else {
        Seq::new(keys.len(), |i: int| i)
    }
}

/// An arrangement holds every position.
pub proof fn lemma_arrangement_holds(order: Seq<int>, n: nat, v: int) -> (k: int)
    requires
        is_arrangement(order, n),
        0 <= v < n,
    ensures
        0 <= k < n,
        order[k] == v,
{
    let range = vstd::set_lib::set_int_range(0, n as int);
    vstd::set_lib::lemma_int_range(0, n as int);
    order.unique_seq_to_set();
    assert(order.to_set().subset_of(range));
    vstd::set_lib::lemma_subset_equality(order.to_set(), range);
    assert(range.contains(v));
    assert(order.to_set().contains(v));
    let k = choose|k: int| 0 <= k < order.len() && order[k] == v;
    k
}

/// Only one arrangement sorts keys.
pub proof fn lemma_sorting_is_unique(keys: Seq<Number>, a: Seq<int>, b: Seq<int>)
    requires
        sorts(keys, a),
        sorts(keys, b),
    ensures
        a == b,
{
    assert forall|k: int| 0 <= k < a.len() implies a[k] == b[k] by {
        lemma_sortings_agree(keys, a, b, k);
    }
    assert(a =~= b);
}

proof fn lemma_sortings_agree(keys: Seq<Number>, a: Seq<int>, b: Seq<int>, k: int)
    requires
        sorts(keys, a),
        sorts(keys, b),
        0 <= k < a.len(),
    ensures
        a[k] == b[k],
    decreases k,
{
    assert forall|j: int| 0 <= j < k implies a[j] == b[j] by {
        lemma_sortings_agree(keys, a, b, j);
    }
    if a[k] != b[k] {
        let p = lemma_arrangement_holds(a, keys.len(), b[k]);
        let q = lemma_arrangement_holds(b, keys.len(), a[k]);
        assert(p > k) by {
            if p < k {
                assert(a[p] == b[p]);
                assert(b[p] == b[k]);
            }
        }
        assert(q > k) by {
            if q < k {
                assert(a[q] == b[q]);
                assert(a[q] == a[k]);
            }
        }
        assert(stands_before(keys, a[k], a[p]));
        assert(stands_before(keys, b[k], b[q]));
    }
}

/// Where each key comes from once they are sorted.
pub fn sort_order(keys: &Vec<Number>) -> (out: Vec<usize>)
    ensures
        out@.map_values(|i: usize| i as int) == order_of(keys@),
        out.len() == keys.len(),
        forall|i: int| 0 <= i < out.len() ==> #[trigger] out@[i] < keys.len(),
{
    let mut list: Vec<Keyed> = Vec::new();
    let mut out: Vec<usize> = Vec::new();
    let mut ordered = true;
    let mut i: usize = 0;
    while i < keys.len()
        invariant
            i <= keys.len(),
            list.len() == i,
            out.len() == i,
            forall|k: int|
                0 <= k < i ==> (#[trigger] list@[k]) == (Keyed { key: keys@[k], index: k as usize }),
            forall|k: int| 0 <= k < i ==> (#[trigger] out@[k]) == k,
            ordered == forall|k: int| 0 <= k < i ==> !(#[trigger] keys@[k]).is_nan(),
        decreases keys.len() - i,
    {
        if keys[i].is_nan() {
            ordered = false;
        }
        list.push(Keyed { key: keys[i], index: i });
        out.push(i);
        i = i + 1;
    }
    if !ordered {
        assert(out@.map_values(|i: usize| i as int) =~= order_of(keys@));
        return out;
    }
    let found = sorted(&list, 0, list.len());
    let ghost all = list@;
    let ghost order = found@.map_values(|k: Keyed| k.index as int);
    proof {
        assert(all.subrange(0, all.len() as int) =~= all);
        to_multiset_len(all);
        to_multiset_len(found@);
        assert(all.no_duplicates());
        all.lemma_multiset_has_no_duplicates();
        found@.lemma_multiset_has_no_duplicates_conv();
        assert forall|k: int| 0 <= k < found@.len() implies {
            let x = #[trigger] found@[k];
            x.index < keys.len() && x.key == keys@[x.index as int]
        } by {
            let x = found@[k];
            assert(found@.contains(x));
            to_multiset_contains(found@, x);
            to_multiset_contains(all, x);
            let m = choose|m: int| 0 <= m < all.len() && all[m] == x;
            assert(all[m].index == m);
        }
        assert(order.no_duplicates()) by {
            assert forall|a: int, b: int|
                0 <= a < order.len() && 0 <= b < order.len() && a != b implies order[a]
                != order[b] by {
                let x = found@[a];
                let y = found@[b];
                if order[a] == order[b] {
                    assert(x.index == y.index);
                    assert(x == y);
                }
            }
        }
        assert(is_arrangement(order, keys@.len()));
        assert(comparable(all));
        assert forall|a: int, b: int| 0 <= a < b < order.len() implies stands_before(
            keys@,
            #[trigger] order[a],
            #[trigger] order[b],
        ) by {
            let x = found@[a];
            let y = found@[b];
            assert(!earlier(y, x));
            assert(!keys@[x.index as int].is_nan());
            assert(!keys@[y.index as int].is_nan());
            assert(order[a] != order[b]);
        }
        assert(sorts(keys@, order));
        lemma_sorting_is_unique(keys@, order, order_of(keys@));
    }
    let mut places: Vec<usize> = Vec::new();
    let mut j: usize = 0;
    while j < found.len()
        invariant
            j <= found.len(),
            places.len() == j,
            forall|k: int| 0 <= k < j ==> #[trigger] places@[k] == found@[k].index,
        decreases found.len() - j,
    {
        places.push(found[j].index);
        j = j + 1;
    }
    proof {
        assert(places@.map_values(|i: usize| i as int) =~= order);
        assert forall|i: int| 0 <= i < places.len() implies #[trigger] places@[i] < keys.len() by {
            assert(order[i] == places@[i]);
        }
    }
    places
}

/// Points arranged.
pub open spec fn arranged(points: Seq<Point>, order: Seq<int>) -> Seq<Point> {
    order.map_values(|i: int| points[i])
}

/// Points in ascending order along x, those that are level in the order they
/// came in.
pub open spec fn along_x(points: Seq<Point>) -> Seq<Point> {
    arranged(points, order_of(points.map_values(|p: Point| p.x)))
}

/// Points in ascending order along y, those that are level in the order they
/// came in.
pub open spec fn along_y(points: Seq<Point>) -> Seq<Point> {
    arranged(points, order_of(points.map_values(|p: Point| p.y)))
}

fn arrange(points: &Vec<Point>, keys: &Vec<Number>) -> (out: Vec<Point>)
    requires
        keys.len() == points.len(),
    ensures
        out@ == arranged(points@, order_of(keys@)),
        out.len() == points.len(),
{
    let order = sort_order(keys);
    let ghost places = order@.map_values(|i: usize| i as int);
    let mut out: Vec<Point> = Vec::new();
    let mut j: usize = 0;
    while j < order.len()
        invariant
            j <= order.len(),
            keys.len() == points.len(),
            forall|i: int| 0 <= i < order.len() ==> #[trigger] order@[i] < keys.len(),
            places == order@.map_values(|i: usize| i as int),
            out@ == arranged(points@, places).take(j as int),
        decreases order.len() - j,
    {
        out.push(points[order[j]]);
        j = j + 1;
        assert(out@ =~= arranged(points@, places).take(j as int));
    }
    assert(out@ =~= arranged(points@, places));
    out
}

/// Sorts points along x. The sort is stable; points that have no number for
/// their x stay as they are.
pub fn sort_along_x(points: &Vec<Point>) -> (out: Vec<Point>)
    ensures
        out@ == along_x(points@),
        out.len() == points.len(),
{
    let mut keys: Vec<Number> = Vec::new();
    let mut i: usize = 0;
    while i < points.len()
        invariant
            i <= points.len(),
            keys@ == points@.map_values(|p: Point| p.x).take(i as int),
        decreases points.len() - i,
    {
        keys.push(points[i].x);
        i = i + 1;
        assert(keys@ =~= points@.map_values(|p: Point| p.x).take(i as int));
    }
    assert(keys@ =~= points@.map_values(|p: Point| p.x));
    arrange(points, &keys)
}

/// Sorts points along y. The sort is stable; points that have no number for
/// their y stay as they are.
pub fn sort_along_y(points: &Vec<Point>) -> (out: Vec<Point>)
    ensures
        out@ == along_y(points@),
        out.len() == points.len(),
{
    let mut keys: Vec<Number> = Vec::new();
    let mut i: usize = 0;
    while i < points.len()
        invariant
            i <= points.len(),
            keys@ == points@.map_values(|p: Point| p.y).take(i as int),
        decreases points.len() - i,
    {
        keys.push(points[i].y);
        i = i + 1;
        assert(keys@ =~= points@.map_values(|p: Point| p.y).take(i as int));
    }
    assert(keys@ =~= points@.map_values(|p: Point| p.y));
    arrange(points, &keys)
}

/// Sorting along x gives back every point once, in ascending order, and keeps
/// the order of points that are level.
pub proof fn a_line_runs_in_x_order(points: Seq<Point>)
    requires
        all_numbers(points.map_values(|p: Point| p.x)),
    ensures
        sorts(
            points.map_values(|p: Point| p.x),
            order_of(points.map_values(|p: Point| p.x)),
        ),
{
    lemma_sortable(points.map_values(|p: Point| p.x));
}

/// Numbers can be sorted.
pub proof fn lemma_sortable(keys: Seq<Number>)
    requires
        all_numbers(keys),
    ensures
        sorts(keys, order_of(keys)),
    decreases keys.len(),
{
    if keys.len() == 0 {
        assert(sorts(keys, Seq::<int>::empty()));
    } else {
        let rest = keys.drop_last();
        assert(all_numbers(rest)) by {
            assert forall|i: int| 0 <= i < rest.len() implies !(#[trigger] rest[i]).is_nan() by {
                assert(rest[i] == keys[i]);
            }
        }
        lemma_sortable(rest);
        let n = rest.len() as int;
        let before = order_of(rest);
        assert(!keys[n].is_nan());
        let at = lemma_insertion_point(keys, before, 0);
        let order = before.insert(at, n);
        assert(sorts(keys, order)) by {
            assert forall|i: int, j: int| 0 <= i < j < order.len() implies stands_before(
                keys,
                #[trigger] order[i],
                #[trigger] order[j],
            ) by {
                let p = if i < at {
                    i
                } else {
                    i - 1
                };
                let q = if j < at {
                    j
                } else {
                    j - 1
                };
                if i != at && j != at {
                    assert(stands_before(rest, before[p], before[q]));
                } else if i == at {
                    assert(stands_before(keys, n, before[q]));
                } else {
                    assert(stands_before(keys, before[p], n));
                }
            }
        }
    }
}

proof fn lemma_insertion_point(keys: Seq<Number>, before: Seq<int>, from: int) -> (at: int)
    requires
        keys.len() > 0,
        all_numbers(keys),
        sorts(keys.drop_last(), before),
        0 <= from <= before.len(),
        forall|i: int|
            0 <= i < from ==> stands_before(keys, #[trigger] before[i], keys.len() - 1),
    ensures
        0 <= at <= before.len(),
        forall|i: int|
            0 <= i < at ==> stands_before(keys, #[trigger] before[i], keys.len() - 1),
        forall|i: int|
            at <= i < before.len() ==> stands_before(keys, keys.len() - 1, #[trigger] before[i]),
    decreases before.len() - from,
{
    let n = keys.len() - 1;
    assert(!keys[n].is_nan());
    if from == before.len() {
        from
    } else if stands_before(keys, before[from], n) {
        lemma_insertion_point(keys, before, from + 1)
    } else {
        assert(!keys[before[from]].is_nan());
        assert forall|i: int| from <= i < before.len() implies stands_before(
            keys,
            n,
            #[trigger] before[i],
        ) by {
            assert(!keys[before[i]].is_nan());
            if i > from {
                assert(stands_before(keys.drop_last(), before[from], before[i]));
            }
        }
        from
    }
}

} // verus!
