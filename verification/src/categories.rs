//! Lists of categories.
use vstd::prelude::*;
use vstd::seq_lib::{
    to_multiset_build, to_multiset_contains, to_multiset_len, to_multiset_remove,
};

use crate::words::{
    comes_before, lemma_dictionary_chain, lemma_dictionary_order, precedes, same_text, texts,
};

verus! {

/// Where a category first stands in a list.
pub open spec fn index_in(categories: Seq<Seq<char>>, category: Seq<char>) -> Option<nat>
    decreases categories.len(),
{
    if categories.len() == 0 {
        None
    } else if categories[0] == category {
        Some(0)
    } else {
        match index_in(categories.drop_first(), category) {
            Some(i) => Some(i + 1),
            None => None,
        }
    }
}

/// What an index found in a list says of the list.
pub proof fn lemma_index_in(categories: Seq<Seq<char>>, category: Seq<char>)
    ensures
        match index_in(categories, category) {
            Some(i) => i < categories.len() && categories[i as int] == category && forall|j: int|
                0 <= j < i ==> categories[j] != category,
            None => !categories.contains(category),
        },
    decreases categories.len(),
{
    if categories.len() > 0 && categories[0] != category {
        lemma_index_in(categories.drop_first(), category);
        let rest = categories.drop_first();
        if index_in(rest, category) is None && categories.contains(category) {
            let k = choose|k: int| 0 <= k < categories.len() && categories[k] == category;
            assert(rest[k - 1] == category);
        }
        if let Some(i) = index_in(rest, category) {
            assert forall|j: int| 0 <= j < i + 1 implies categories[j] != category by {
                if j > 0 {
                    assert(rest[j - 1] != category);
                }
            }
        }
    }
}

/// Where a category first stands in a list.
pub(crate) fn position(categories: &Vec<String>, category: &str) -> (r: Option<usize>)
    ensures
        match r {
            Some(i) => index_in(texts(categories@), category@) == Some(i as nat) && i
                < categories.len(),
            None => index_in(texts(categories@), category@) is None,
        },
{
    let mut i: usize = 0;
    let ghost all = texts(categories@);
    assert(all.skip(0) =~= all);
    while i < categories.len()
        invariant
            i <= categories.len(),
            all == texts(categories@),
            index_in(all, category@) == match index_in(all.skip(i as int), category@) {
                Some(k) => Some((k + i) as nat),
                None => None,
            },
        decreases categories.len() - i,
    {
        assert(all.skip(i as int)[0] == categories@[i as int]@);
        if same_text(categories[i].as_str(), category) {
            return Some(i);
        }
        assert(all.skip(i as int).drop_first() =~= all.skip(i + 1));
        i = i + 1;
    }
    None
}

/// Copies a list of texts.
pub(crate) fn copied_strings(v: &Vec<String>) -> (r: Vec<String>)
    ensures
        texts(r@) == texts(v@),
{
    let mut out: Vec<String> = Vec::new();
    let mut i: usize = 0;
    while i < v.len()
        invariant
            i <= v.len(),
            out.len() == i,
            forall|j: int| 0 <= j < i ==> (#[trigger] out@[j])@ == v@[j]@,
        decreases v.len() - i,
    {
        out.push(v[i].clone());
        i = i + 1;
    }
    assert(texts(out@) =~= texts(v@));
    out
}

/// Whether a list of texts stands in dictionary order.
pub open spec fn in_order(v: Seq<Seq<char>>) -> bool {
    forall|i: int, j: int| 0 <= i <= j < v.len() ==> !precedes(#[trigger] v[j], #[trigger] v[i])
}

/// Put a colour scale's category list into the order that fixes each
/// category's palette slot: ascending by the category's own text.
///
/// A palette slot is a category's index in this list, so the slots are a
/// function of the set of categories alone.
pub fn order_categories(categories: &mut Vec<String>)
    ensures
        in_order(texts(final(categories)@)),
        texts(final(categories)@).to_multiset() == texts(old(categories)@).to_multiset(),
{
    let n: usize = categories.len();
    let mut i: usize = 0;
    while i < n
        invariant
            i <= n,
            categories.len() == n,
            in_order(texts(categories@).take(i as int)),
            texts(categories@).to_multiset() == texts(old(categories)@).to_multiset(),
        decreases n - i,
    {
        let ghost before = categories@;
        let ghost sorted = texts(before).take(i as int);
        let mut j: usize = i;
        while j > 0 && comes_before(categories[i].as_str(), categories[j - 1].as_str())
            invariant
                j <= i < n,
                categories.len() == n,
                categories@ == before,
                sorted == texts(before).take(i as int),
                forall|k: int|
                    j <= k < i ==> precedes(before[i as int]@, #[trigger] texts(before)[k]),
            decreases j,
        {
            assert(texts(before)[j - 1] == before[j - 1]@);
            j = j - 1;
        }
        let moved = categories.remove(i);
        categories.insert(j, moved);
        proof {
            let was = texts(before);
            let now = texts(categories@);
            assert(now =~= was.remove(i as int).insert(j as int, was[i as int]));
            lemma_moved_keeps_members(was, i as int, j as int);
            assert(now.take(i + 1) =~= was.remove(i as int).insert(j as int, was[i as int]).take(
                i + 1,
            ));
            lemma_insertion_keeps_order(was, i as int, j as int);
        }
        i = i + 1;
    }
    assert(texts(categories@).take(n as int) =~= texts(categories@));
}

/// Moving an item within a list keeps the list's members.
proof fn lemma_moved_keeps_members(was: Seq<Seq<char>>, i: int, j: int)
    requires
        0 <= j <= i < was.len(),
    ensures
        was.remove(i).insert(j, was[i]).to_multiset() == was.to_multiset(),
{
    let now = was.remove(i).insert(j, was[i]);
    assert(now.remove(j) =~= was.remove(i));
    assert(now[j] == was[i]);
    to_multiset_remove(now, j);
    to_multiset_remove(was, i);
    to_multiset_contains(now, was[i]);
    to_multiset_contains(was, was[i]);
    assert(now.contains(was[i]) && was.contains(was[i]));
    let item = was[i];
    assert(now.to_multiset() =~= now.to_multiset().remove(item).insert(item));
    assert(was.to_multiset() =~= was.to_multiset().remove(item).insert(item));
}

/// Moving an item down to where it belongs keeps the order in front of it.
proof fn lemma_insertion_keeps_order(was: Seq<Seq<char>>, i: int, j: int)
    requires
        0 <= j <= i < was.len(),
        in_order(was.take(i)),
        forall|k: int| j <= k < i ==> precedes(was[i], #[trigger] was[k]),
        j > 0 ==> !precedes(was[i], was[j - 1]),
    ensures
        in_order(was.remove(i).insert(j, was[i]).take(i + 1)),
{
    let front = was.remove(i).insert(j, was[i]).take(i + 1);
    let sorted = was.take(i);
    assert forall|a: int, b: int| 0 <= a <= b < front.len() implies !precedes(
        #[trigger] front[b],
        #[trigger] front[a],
    ) by {
        let x = if a < j {
            a
        } else {
            a - 1
        };
        let y = if b < j {
            b
        } else {
            b - 1
        };
        lemma_dictionary_order(front[a], front[b]);
        if a == b {
        } else if b == j {
            assert(front[a] == sorted[a]);
            assert(was[j - 1] == sorted[j - 1]);
            lemma_dictionary_chain(was[a], was[j - 1], was[i]);
        } else if a == j {
            assert(front[b] == was[y]);
            lemma_dictionary_order(was[i], was[y]);
        } else {
            assert(front[a] == sorted[x] && front[b] == sorted[y]);
        }
    }
}

/// Where an item belongs among the ordered texts in front of it.
proof fn lemma_slot(was: Seq<Seq<char>>, i: int, from: int) -> (j: int)
    requires
        0 <= from <= i < was.len(),
        forall|k: int| from <= k < i ==> precedes(was[i], #[trigger] was[k]),
    ensures
        0 <= j <= i,
        forall|k: int| j <= k < i ==> precedes(was[i], #[trigger] was[k]),
        j > 0 ==> !precedes(was[i], was[j - 1]),
    decreases from,
{
    if from > 0 && precedes(was[i], was[from - 1]) {
        lemma_slot(was, i, from - 1)
    } else {
        from
    }
}

/// Every list of texts can be put into dictionary order.
pub proof fn lemma_orderable(list: Seq<Seq<char>>) -> (o: Seq<Seq<char>>)
    ensures
        in_order(o),
        o.to_multiset() == list.to_multiset(),
    decreases list.len(),
{
    if list.len() == 0 {
        list
    } else {
        let x = list.last();
        let front = lemma_orderable(list.drop_last());
        to_multiset_len(front);
        to_multiset_len(list.drop_last());
        let was = front.push(x);
        let i = front.len() as int;
        assert(was.take(i) =~= front);
        let j = lemma_slot(was, i, i);
        lemma_insertion_keeps_order(was, i, j);
        lemma_moved_keeps_members(was, i, j);
        let o = was.remove(i).insert(j, was[i]);
        assert(o.take(i + 1) =~= o);
        to_multiset_build(front, x);
        to_multiset_build(list.drop_last(), x);
        assert(list.drop_last().push(x) =~= list);
        o
    }
}

/// A list in dictionary order is the only one with its members: the order of
/// categories is a function of the set alone, whatever order they came in.
pub proof fn ordered_categories_are_determined(a: Seq<Seq<char>>, b: Seq<Seq<char>>)
    requires
        in_order(a),
        in_order(b),
        a.to_multiset() == b.to_multiset(),
    ensures
        a == b,
    decreases a.len(),
{
    to_multiset_len(a);
    to_multiset_len(b);
    if a.len() == 0 {
        assert(a =~= b);
    } else {
        let x = a.last();
        let y = b.last();
        let n = a.len() - 1;
        to_multiset_contains(a, x);
        to_multiset_contains(b, x);
        to_multiset_contains(a, y);
        to_multiset_contains(b, y);
        assert(a.contains(x) && b.contains(y));
        let i = choose|i: int| 0 <= i < b.len() && b[i] == x;
        let k = choose|k: int| 0 <= k < a.len() && a[k] == y;
        assert(!precedes(b[n], b[i]));
        assert(!precedes(a[n], a[k]));
        lemma_dictionary_order(x, y);
        assert(x == y);
        to_multiset_remove(a, n);
        to_multiset_remove(b, n);
        assert(a.remove(n) =~= a.drop_last());
        assert(b.remove(n) =~= b.drop_last());
        ordered_categories_are_determined(a.drop_last(), b.drop_last());
        assert(a =~= a.drop_last().push(x));
        assert(b =~= b.drop_last().push(y));
    }
}

} // verus!
