//! Bin centres: which there are, and how far apart the bins stand.
use vstd::prelude::*;

use crate::folds::{lowest_from, present};
use crate::number::Number;
use crate::numerals::{BILLIONTH, INFINITY, MILLIONTH};
use crate::sorting::{order_of, sort_order};

verus! {

/// Whether two centres are the same to within a billionth.
pub open spec fn coincide(u: Number, v: Number) -> bool {
    u.minus(v).abs().lt(Number::from_bits(BILLIONTH))
}

/// Whether a list holds a centre.
pub open spec fn holds_centre(list: Seq<Number>, v: Number) -> bool {
    exists|i: int| 0 <= i < list.len() && coincide(#[trigger] list[i], v)
}

/// Values without repetition: each that coincides with an earlier one is left
/// out.
pub open spec fn distinct(v: Seq<Number>) -> Seq<Number>
    decreases v.len(),
{
    if v.len() == 0 {
        Seq::empty()
    } else {
        let before = distinct(v.drop_last());
        if holds_centre(before, v.last()) {
            before
        } else {
            before.push(v.last())
        }
    }
}

/// Numbers in ascending order.
pub open spec fn in_order(v: Seq<Number>) -> Seq<Number> {
    order_of(v).map_values(|i: int| v[i])
}

/// The distinct values of a list in ascending order.
pub open spec fn centres_of(v: Seq<Number>) -> Seq<Number> {
    in_order(distinct(v))
}

fn list_holds(list: &Vec<Number>, v: Number) -> (r: bool)
    ensures
        r == holds_centre(list@, v),
{
    let near = Number::from_bits(BILLIONTH);
    let mut i: usize = 0;
    while i < list.len()
        invariant
            i <= list.len(),
            near == Number::from_bits(BILLIONTH),
            forall|k: int| 0 <= k < i ==> !coincide(#[trigger] list@[k], v),
        decreases list.len() - i,
    {
        if list[i].minus(v).abs().lt(near) {
            assert(coincide(list@[i as int], v));
            return true;
        }
        i = i + 1;
    }
    false
}

/// Adds a centre that a list does not hold.
pub fn add_centre(list: &mut Vec<Number>, v: Number)
    ensures
        final(list)@ == if holds_centre(old(list)@, v) {
            old(list)@
        } else {
            old(list)@.push(v)
        },
{
    if !list_holds(list, v) {
        list.push(v);
    }
}

/// Numbers in ascending order.
pub fn sorted_numbers(v: &Vec<Number>) -> (out: Vec<Number>)
    ensures
        out@ == in_order(v@),
        out.len() == v.len(),
{
    let order = sort_order(v);
    let ghost places = order@.map_values(|i: usize| i as int);
    let mut out: Vec<Number> = Vec::new();
    let mut j: usize = 0;
    while j < order.len()
        invariant
            j <= order.len(),
            forall|i: int| 0 <= i < order.len() ==> #[trigger] order@[i] < v.len(),
            places == order@.map_values(|i: usize| i as int),
            out@ == places.map_values(|i: int| v@[i]).take(j as int),
        decreases order.len() - j,
    {
        out.push(v[order[j]]);
        j = j + 1;
        assert(out@ =~= places.map_values(|i: int| v@[i]).take(j as int));
    }
    assert(out@ =~= places.map_values(|i: int| v@[i]));
    out
}

/// Sorted unique values of a column, those within a billionth of one another
/// counting as one.
pub fn sorted_unique(vals: &Vec<Option<Number>>) -> (out: Vec<Number>)
    ensures
        out@ == centres_of(present(vals@)),
{
    let mut list: Vec<Number> = Vec::new();
    let mut i: usize = 0;
    assert(vals@.take(0) =~= Seq::<Option<Number>>::empty());
    while i < vals.len()
        invariant
            i <= vals.len(),
            list@ == distinct(present(vals@.take(i as int))),
        decreases vals.len() - i,
    {
        proof {
            let part = vals@.take(i + 1);
            assert(part.drop_last() =~= vals@.take(i as int));
            if let Some(x) = part.last() {
                let before = present(vals@.take(i as int));
                assert(before.push(x).drop_last() =~= before);
            }
        }
        if let Some(v) = vals[i] {
            add_centre(&mut list, v);
        }
        i = i + 1;
    }
    assert(vals@.take(i as int) =~= vals@);
    sorted_numbers(&list)
}

/// The step from one centre to the next, where it is more than a billionth.
pub open spec fn gap_at(centres: Seq<Number>, i: int) -> Option<Number> {
    let d = centres[i + 1].minus(centres[i]);
    if Number::from_bits(BILLIONTH).lt(d) {
        Some(d)
    } else {
        None
    }
}

/// The gaps between neighbouring centres.
pub open spec fn gaps_of(centres: Seq<Number>) -> Seq<Number> {
    present(
        Seq::new(
            if centres.len() == 0 {
                0
            } else {
                (centres.len() - 1) as nat
            },
            |i: int| gap_at(centres, i),
        ),
    )
}

/// Whether a gap is a whole number of widths, to within a millionth.
pub open spec fn whole_multiple(w: Number, gap: Number) -> bool {
    let ratio = gap.over(w);
    ratio.minus(ratio.round()).abs().lt(Number::from_bits(MILLIONTH))
}

/// Whether every gap is a whole number of widths.
pub open spec fn divides_all(w: Number, gaps: Seq<Number>) -> bool {
    forall|i: int| 0 <= i < gaps.len() ==> whole_multiple(w, #[trigger] gaps[i])
}

/// The least gap over the least count from `k` to 12 that divides every gap;
/// the least gap itself where none does.
pub open spec fn width_from(least: Number, gaps: Seq<Number>, k: nat) -> Number
    decreases 13 - k,
{
    if k > 12 {
        least
    } else {
        let w = least.over(Number::spec_from_int(k as int));
        if divides_all(w, gaps) {
            w
        } else {
            width_from(least, gaps, k + 1)
        }
    }
}

/// The bin pitch of centres: the greatest width that divides every gap.
pub open spec fn pitch(centres: Seq<Number>) -> Option<Number> {
    let gaps = gaps_of(centres);
    let least = lowest_from(Number::from_bits(INFINITY), gaps);
    if least.is_finite() {
        Some(width_from(least, gaps, 1))
    } else {
        None
    }
}

fn all_divided(w: Number, gaps: &Vec<Number>) -> (r: bool)
    ensures
        r == divides_all(w, gaps@),
{
    let close = Number::from_bits(MILLIONTH);
    let mut i: usize = 0;
    while i < gaps.len()
        invariant
            i <= gaps.len(),
            close == Number::from_bits(MILLIONTH),
            forall|k: int| 0 <= k < i ==> whole_multiple(w, #[trigger] gaps@[k]),
        decreases gaps.len() - i,
    {
        let ratio = gaps[i].over(w);
        if !ratio.minus(ratio.round()).abs().lt(close) {
            assert(!whole_multiple(w, gaps@[i as int]));
            return false;
        }
        i = i + 1;
    }
    true
}

/// The bin pitch. The gap between two occupied centres is a whole multiple of
/// it, so it is the greatest width that divides every gap: the least gap over
/// 1, 2 and so on up to 12, and the least gap itself where none of these
/// divides them all. None for fewer than two distinct centres.
pub fn bin_step(centres: &Vec<Number>) -> (r: Option<Number>)
    ensures
        r == pitch(centres@),
{
    let near = Number::from_bits(BILLIONTH);
    let ghost all = Seq::new(
        if centres@.len() == 0 {
            0
        } else {
            (centres@.len() - 1) as nat
        },
        |i: int| gap_at(centres@, i),
    );
    let mut gaps: Vec<Number> = Vec::new();
    let mut least = Number::from_bits(INFINITY);
    assert(all.take(0) =~= Seq::<Option<Number>>::empty());
    if centres.len() > 0 {
        let mut i: usize = 0;
        while i < centres.len() - 1
            invariant
                i <= centres.len() - 1,
                near == Number::from_bits(BILLIONTH),
                all == Seq::new((centres@.len() - 1) as nat, |i: int| gap_at(centres@, i)),
                gaps@ == present(all.take(i as int)),
                least == lowest_from(Number::from_bits(INFINITY), gaps@),
            decreases centres.len() - i,
        {
            assert(all.take(i + 1).drop_last() =~= all.take(i as int));
            let d = centres[i + 1].minus(centres[i]);
            if near.lt(d) {
                let ghost before = gaps@;
                gaps.push(d);
                assert(gaps@.drop_last() =~= before);
                if d.lt(least) {
                    least = d;
                }
            }
            i = i + 1;
        }
        assert(all.take(i as int) =~= all);
    } else {
        assert(all =~= all.take(0));
    }
    assert(gaps@ == gaps_of(centres@));
    if !least.is_finite() {
        return None;
    }
    let mut k: u64 = 1;
    while k <= 12
        invariant
            1 <= k <= 13,
            width_from(least, gaps@, 1) == width_from(least, gaps@, k as nat),
            gaps@ == gaps_of(centres@),
            least == lowest_from(Number::from_bits(INFINITY), gaps@),
            least.is_finite(),
        decreases 13 - k,
    {
        let w = least.over(Number::from_u64(k));
        if all_divided(w, &gaps) {
            return Some(w);
        }
        k = k + 1;
    }
    Some(least)
}

/// The pitch is the least gap over some count up to 12; it divides every gap,
/// and no smaller count does, unless no count up to 12 does and it is the least
/// gap itself.
pub proof fn the_pitch_is_the_greatest_common_width(centres: Seq<Number>)
    requires
        pitch(centres) is Some,
    ensures
        ({
            let gaps = gaps_of(centres);
            let least = lowest_from(Number::from_bits(INFINITY), gaps);
            let w = pitch(centres)->0;
            ||| exists|k: nat|
                {
                    &&& 1 <= k <= 12
                    &&& w == least.over(#[trigger] Number::spec_from_int(k as int))
                    &&& divides_all(w, gaps)
                    &&& forall|j: nat|
                        1 <= j < k ==> !divides_all(
                            least.over(#[trigger] Number::spec_from_int(j as int)),
                            gaps,
                        )
                }
            ||| w == least && forall|j: nat|
                1 <= j <= 12 ==> !divides_all(
                    least.over(#[trigger] Number::spec_from_int(j as int)),
                    gaps,
                )
        }),
{
    let gaps = gaps_of(centres);
    let least = lowest_from(Number::from_bits(INFINITY), gaps);
    lemma_width(least, gaps, 1);
}

proof fn lemma_width(least: Number, gaps: Seq<Number>, from: nat)
    requires
        1 <= from <= 13,
        forall|j: nat|
            1 <= j < from ==> !divides_all(
                least.over(#[trigger] Number::spec_from_int(j as int)),
                gaps,
            ),
    ensures
        ({
            let w = width_from(least, gaps, from);
            ||| exists|k: nat|
                {
                    &&& 1 <= k <= 12
                    &&& w == least.over(#[trigger] Number::spec_from_int(k as int))
                    &&& divides_all(w, gaps)
                    &&& forall|j: nat|
                        1 <= j < k ==> !divides_all(
                            least.over(#[trigger] Number::spec_from_int(j as int)),
                            gaps,
                        )
                }
            ||| w == least && forall|j: nat|
                1 <= j <= 12 ==> !divides_all(
                    least.over(#[trigger] Number::spec_from_int(j as int)),
                    gaps,
                )
        }),
    decreases 13 - from,
{
    if from <= 12 {
        let w = least.over(Number::spec_from_int(from as int));
        if !divides_all(w, gaps) {
            lemma_width(least, gaps, from + 1);
        } else {
            assert(width_from(least, gaps, from) == least.over(
                Number::spec_from_int(from as int),
            ));
        }
    }
}

} // verus!
