//! Extremes and members of columns with missing values.
use vstd::prelude::*;
use vstd::seq_lib::to_multiset_contains;

use crate::categories::{
    in_order, index_in, lemma_index_in, lemma_orderable, order_categories,
    ordered_categories_are_determined, position,
};
use crate::number::Number;
use crate::words::{optional_text, optional_texts, texts};

verus! {

/// The values that are there, in order.
pub open spec fn present<T>(v: Seq<Option<T>>) -> Seq<T>
    decreases v.len(),
{
    if v.len() == 0 {
        Seq::empty()
    } else {
        match v.last() {
            Some(x) => present(v.drop_last()).push(x),
            None => present(v.drop_last()),
        }
    }
}

/// The least of the values and `start`. What is not a number is passed over.
pub open spec fn lowest_from(start: Number, v: Seq<Number>) -> Number
    decreases v.len(),
{
    if v.len() == 0 {
        start
    } else {
        let rest = lowest_from(start, v.drop_last());
        if v.last().lt(rest) {
            v.last()
        } else {
            rest
        }
    }
}

/// The greatest of the values and `start`. What is not a number is passed
/// over.
pub open spec fn highest_from(start: Number, v: Seq<Number>) -> Number
    decreases v.len(),
{
    if v.len() == 0 {
        start
    } else {
        let rest = highest_from(start, v.drop_last());
        if rest.lt(v.last()) {
            v.last()
        } else {
            rest
        }
    }
}

/// The least of the integers and `start`.
pub open spec fn least_from(start: i64, v: Seq<i64>) -> i64
    decreases v.len(),
{
    if v.len() == 0 {
        start
    } else {
        let rest = least_from(start, v.drop_last());
        if v.last() < rest {
            v.last()
        } else {
            rest
        }
    }
}

/// The greatest of the integers and `start`.
pub open spec fn greatest_from(start: i64, v: Seq<i64>) -> i64
    decreases v.len(),
{
    if v.len() == 0 {
        start
    } else {
        let rest = greatest_from(start, v.drop_last());
        if v.last() > rest {
            v.last()
        } else {
            rest
        }
    }
}

/// The least value is one of the values or `start`, and none is below it.
pub proof fn lemma_lowest(start: Number, v: Seq<Number>)
    requires
        !start.is_nan(),
    ensures
        ({
            let low = lowest_from(start, v);
            &&& low == start || v.contains(low)
            &&& !low.is_nan()
            &&& low.le(start)
            &&& forall|i: int|
                0 <= i < v.len() && !(#[trigger] v[i]).is_nan() ==> low.le(v[i])
        }),
    decreases v.len(),
{
    if v.len() > 0 {
        let rest = v.drop_last();
        lemma_lowest(start, rest);
        let low = lowest_from(start, rest);
        assert(v.contains(v.last()));
        if rest.contains(low) {
            let k = choose|k: int| 0 <= k < rest.len() && rest[k] == low;
            assert(v[k] == low);
        }
        assert forall|i: int|
            0 <= i < v.len() && !(#[trigger] v[i]).is_nan() implies lowest_from(start, v).le(
            v[i],
        ) by {
            if i < rest.len() {
                assert(rest[i] == v[i]);
            }
        }
    }
}

/// The greatest value is one of the values or `start`, and none is above it.
pub proof fn lemma_highest(start: Number, v: Seq<Number>)
    requires
        !start.is_nan(),
    ensures
        ({
            let high = highest_from(start, v);
            &&& high == start || v.contains(high)
            &&& !high.is_nan()
            &&& start.le(high)
            &&& forall|i: int|
                0 <= i < v.len() && !(#[trigger] v[i]).is_nan() ==> v[i].le(high)
        }),
    decreases v.len(),
{
    if v.len() > 0 {
        let rest = v.drop_last();
        lemma_highest(start, rest);
        let high = highest_from(start, rest);
        assert(v.contains(v.last()));
        if rest.contains(high) {
            let k = choose|k: int| 0 <= k < rest.len() && rest[k] == high;
            assert(v[k] == high);
        }
        assert forall|i: int|
            0 <= i < v.len() && !(#[trigger] v[i]).is_nan() implies v[i].le(
            highest_from(start, v),
        ) by {
            if i < rest.len() {
                assert(rest[i] == v[i]);
            }
        }
    }
}

/// The least and greatest integers bound all of them.
pub proof fn lemma_integer_extremes(low: i64, high: i64, v: Seq<i64>)
    ensures
        least_from(low, v) <= low,
        greatest_from(high, v) >= high,
        forall|i: int|
            0 <= i < v.len() ==> least_from(low, v) <= #[trigger] v[i] <= greatest_from(high, v),
    decreases v.len(),
{
    if v.len() > 0 {
        let rest = v.drop_last();
        lemma_integer_extremes(low, high, rest);
        assert forall|i: int| 0 <= i < v.len() implies least_from(low, v) <= #[trigger] v[i]
            <= greatest_from(high, v) by {
            if i < rest.len() {
                assert(rest[i] == v[i]);
            }
        }
    }
}

/// Adds a text to a list that does not hold it yet.
pub open spec fn added_once(list: Seq<Seq<char>>, t: Seq<char>) -> Seq<Seq<char>> {
    if list.contains(t) {
        list
    } else {
        list.push(t)
    }
}

/// A list with more texts added, each once, in order of first appearance.
pub open spec fn gathered(list: Seq<Seq<char>>, more: Seq<Seq<char>>) -> Seq<Seq<char>>
    decreases more.len(),
{
    if more.len() == 0 {
        list
    } else {
        added_once(gathered(list, more.drop_last()), more.last())
    }
}

/// The texts in dictionary order.
pub open spec fn ordered(list: Seq<Seq<char>>) -> Seq<Seq<char>> {
    choose|o: Seq<Seq<char>>| in_order(o) && o.to_multiset() == list.to_multiset()
}

/// Adds a text to a list that does not hold it yet.
pub(crate) fn add_once(list: &mut Vec<String>, t: &str)
    ensures
        texts(final(list)@) == added_once(texts(old(list)@), t@),
{
    proof {
        lemma_index_in(texts(list@), t@);
    }
    if position(list, t).is_none() {
        list.push(t.to_owned());
    } else {
        let ghost i = index_in(texts(list@), t@)->0;
        assert(texts(list@)[i as int] == t@);
    }
    assert(texts(list@) =~= added_once(texts(old(list)@), t@));
}

/// Puts a list of texts into dictionary order.
pub(crate) fn put_in_order(list: &mut Vec<String>)
    ensures
        texts(final(list)@) == ordered(texts(old(list)@)),
{
    order_categories(list);
    proof {
        let got = texts(list@);
        let had = texts(old(list)@);
        assert(in_order(got) && got.to_multiset() == had.to_multiset());
        let o = ordered(had);
        assert(in_order(o) && o.to_multiset() == had.to_multiset());
        ordered_categories_are_determined(got, o);
    }
}

/// Texts that are in order already stay as they are.
pub proof fn lemma_ordered_stays(list: Seq<Seq<char>>)
    requires
        in_order(list),
    ensures
        ordered(list) == list,
{
    assert(in_order(list) && list.to_multiset() == list.to_multiset());
    ordered_categories_are_determined(ordered(list), list);
}

/// Gathering a list without repetitions onto nothing gives the list.
pub proof fn lemma_gathered_of_distinct(list: Seq<Seq<char>>)
    requires
        list.no_duplicates(),
    ensures
        gathered(Seq::empty(), list) == list,
    decreases list.len(),
{
    if list.len() > 0 {
        let rest = list.drop_last();
        assert(rest.no_duplicates());
        lemma_gathered_of_distinct(rest);
        if rest.contains(list.last()) {
            let k = choose|k: int| 0 <= k < rest.len() && rest[k] == list.last();
            assert(list[k] == list[list.len() - 1]);
        }
        assert(rest.push(list.last()) =~= list);
    }
}

/// Gathering repeats nothing and leaves nothing out.
pub proof fn lemma_gathered(list: Seq<Seq<char>>, more: Seq<Seq<char>>)
    requires
        list.no_duplicates(),
    ensures
        gathered(list, more).no_duplicates(),
        forall|t: Seq<char>|
            #[trigger] gathered(list, more).contains(t) <==> list.contains(t) || more.contains(t),
    decreases more.len(),
{
    if more.len() > 0 {
        let rest = more.drop_last();
        lemma_gathered(list, rest);
        let before = gathered(list, rest);
        let now = gathered(list, more);
        assert forall|t: Seq<char>| #[trigger] now.contains(t) <==> list.contains(t)
            || more.contains(t) by {
            if now.contains(t) {
                let k = choose|k: int| 0 <= k < now.len() && now[k] == t;
                if k < before.len() {
                    assert(before[k] == t);
                    assert(before.contains(t));
                    if rest.contains(t) {
                        let m = choose|m: int| 0 <= m < rest.len() && rest[m] == t;
                        assert(more[m] == t);
                    }
                } else {
                    assert(more[more.len() - 1] == t);
                }
            }
            if list.contains(t) || more.contains(t) {
                if t == more.last() {
                    if !before.contains(t) {
                        assert(now[before.len() as int] == t);
                    }
                } else {
                    if more.contains(t) {
                        let m = choose|m: int| 0 <= m < more.len() && more[m] == t;
                        assert(rest[m] == t);
                    }
                    assert(before.contains(t));
                    let k = choose|k: int| 0 <= k < before.len() && before[k] == t;
                    assert(now[k] == t);
                }
            }
        }
    } else {
        assert(forall|t: Seq<char>| !more.contains(t));
    }
}

/// Ordering a list keeps it free of repetitions.
pub proof fn lemma_ordered_of_distinct(list: Seq<Seq<char>>)
    requires
        list.no_duplicates(),
    ensures
        ordered(list).no_duplicates(),
        in_order(ordered(list)),
        forall|t: Seq<char>| #[trigger] ordered(list).contains(t) <==> list.contains(t),
{
    let witness = lemma_orderable(list);
    assert(in_order(witness) && witness.to_multiset() == list.to_multiset());
    let o = ordered(list);
    assert(in_order(o) && o.to_multiset() == list.to_multiset());
    list.lemma_multiset_has_no_duplicates();
    o.lemma_multiset_has_no_duplicates_conv();
    assert forall|t: Seq<char>| #[trigger] o.contains(t) <==> list.contains(t) by {
        to_multiset_contains(o, t);
        to_multiset_contains(list, t);
    }
}

/// Where no value is there, none is among those that are there.
pub proof fn lemma_nothing_present<T>(v: Seq<Option<T>>)
    requires
        forall|i: int| 0 <= i < v.len() ==> (#[trigger] v[i]) is None,
    ensures
        present(v).len() == 0,
    decreases v.len(),
{
    if v.len() > 0 {
        assert(v.last() is None);
        lemma_nothing_present(v.drop_last());
    }
}

/// What is among the values that are there is one of the values.
pub proof fn lemma_present_comes<T>(v: Seq<Option<T>>, x: T)
    requires
        present(v).contains(x),
    ensures
        exists|i: int| 0 <= i < v.len() && #[trigger] v[i] == Some(x),
    decreases v.len(),
{
    if v.len() > 0 {
        let rest = v.drop_last();
        if v.last() == Some(x) {
            assert(v[v.len() - 1] == Some(x));
        } else {
            let k = choose|k: int| 0 <= k < present(v).len() && present(v)[k] == x;
            assert(present(rest)[k] == x);
            lemma_present_comes(rest, x);
            let i = choose|i: int| 0 <= i < rest.len() && #[trigger] rest[i] == Some(x);
            assert(v[i] == Some(x));
        }
    }
}

/// A value that is there is among those that are there.
pub proof fn lemma_present_holds<T>(v: Seq<Option<T>>, i: int)
    requires
        0 <= i < v.len(),
    ensures
        v[i] matches Some(x) ==> present(v).contains(x),
    decreases v.len(),
{
    if let Some(x) = v[i] {
        let rest = v.drop_last();
        if i < rest.len() {
            lemma_present_holds(rest, i);
            assert(rest[i] == v[i]);
            let k = choose|k: int| 0 <= k < present(rest).len() && present(rest)[k] == x;
            assert(present(v)[k] == x);
        } else {
            assert(present(v)[present(rest).len() as int] == x);
        }
    }
}

/// The least and greatest of a column's numbers, from the given starts.
pub(crate) fn column_extremes(v: &Vec<Option<Number>>, low: Number, high: Number) -> (r: (
    Number,
    Number,
))
    ensures
        r.0 == lowest_from(low, present(v@)),
        r.1 == highest_from(high, present(v@)),
{
    let mut min = low;
    let mut max = high;
    let mut i: usize = 0;
    assert(v@.take(0) =~= Seq::<Option<Number>>::empty());
    while i < v.len()
        invariant
            i <= v.len(),
            min == lowest_from(low, present(v@.take(i as int))),
            max == highest_from(high, present(v@.take(i as int))),
        decreases v.len() - i,
    {
        proof {
            let part = v@.take(i + 1);
            assert(part.drop_last() =~= v@.take(i as int));
            if let Some(x) = part.last() {
                let before = present(v@.take(i as int));
                assert(before.push(x).drop_last() =~= before);
            }
        }
        if let Some(x) = v[i] {
            if x.lt(min) {
                min = x;
            }
            if max.lt(x) {
                max = x;
            }
        }
        i = i + 1;
    }
    assert(v@.take(i as int) =~= v@);
    (min, max)
}

/// The least and greatest of a column's integers, from the given starts.
pub(crate) fn integer_extremes(v: &Vec<Option<i64>>, low: i64, high: i64) -> (r: (i64, i64))
    ensures
        r.0 == least_from(low, present(v@)),
        r.1 == greatest_from(high, present(v@)),
{
    let mut min: i64 = low;
    let mut max: i64 = high;
    let mut i: usize = 0;
    assert(v@.take(0) =~= Seq::<Option<i64>>::empty());
    while i < v.len()
        invariant
            i <= v.len(),
            min == least_from(low, present(v@.take(i as int))),
            max == greatest_from(high, present(v@.take(i as int))),
        decreases v.len() - i,
    {
        proof {
            let part = v@.take(i + 1);
            assert(part.drop_last() =~= v@.take(i as int));
            if let Some(x) = part.last() {
                let before = present(v@.take(i as int));
                assert(before.push(x).drop_last() =~= before);
            }
        }
        if let Some(x) = v[i] {
            if x < min {
                min = x;
            }
            if x > max {
                max = x;
            }
        }
        i = i + 1;
    }
    assert(v@.take(i as int) =~= v@);
    (min, max)
}

/// A column's texts, each once, in order of first appearance.
pub(crate) fn distinct_texts(v: &Vec<Option<String>>) -> (r: Vec<String>)
    ensures
        texts(r@) == gathered(Seq::empty(), present(optional_texts(v@))),
{
    let mut out: Vec<String> = Vec::new();
    let mut i: usize = 0;
    let ghost all = optional_texts(v@);
    assert(all.take(0) =~= Seq::<Option<Seq<char>>>::empty());
    assert(texts(out@) =~= Seq::<Seq<char>>::empty());
    while i < v.len()
        invariant
            i <= v.len(),
            all == optional_texts(v@),
            texts(out@) == gathered(Seq::empty(), present(all.take(i as int))),
        decreases v.len() - i,
    {
        proof {
            let part = all.take(i + 1);
            assert(part.drop_last() =~= all.take(i as int));
            assert(part.last() == optional_text(v@[i as int]));
            if let Some(x) = part.last() {
                let before = present(all.take(i as int));
                assert(before.push(x).drop_last() =~= before);
            }
        }
        if let Some(t) = &v[i] {
            add_once(&mut out, t.as_str());
        }
        i = i + 1;
    }
    assert(all.take(i as int) =~= all);
    out
}

} // verus!
