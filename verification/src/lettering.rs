//! Where text stands: at its anchor, and by the tip of its bar.
use vstd::arithmetic::power::lemma_pow0;
use vstd::arithmetic::power2::{
    lemma2_to64, lemma2_to64_rest, lemma_pow2_adds, lemma_pow2_pos, pow2,
};
use vstd::prelude::*;

use crate::accuracy::{
    amount, distance, lemma_amount_of_sign, lemma_amounts_in_order, lemma_distances,
    lemma_minus_accuracy, lemma_part, roundoff, trip_roundoff,
};
use crate::approximation::{
    is_about, is_ordinary, lemma_about, lemma_beside, lemma_exactly_stands, lemma_ordinary_size,
    lemma_ordinary_sizes, lemma_stands_more, lemma_stands_product, lemma_stands_quotient,
    lemma_stands_sum, size_of,
};
use crate::bar::{label_place, percent_text, total_of, BAR_LABEL_PAD};
use crate::colour::Rgba;
use crate::decimal::{decimal, fixed, tenths};
use crate::drawing::TextAnchor;
use crate::fits::within;
use crate::mirrors::lemma_forward;
use crate::number::{lemma_format, Number};
use crate::numerals::{HUNDRED, ONE, TWO, ZERO};
use crate::reading::a_fixed_numeral_is_the_nearest;
use crate::residual::lemma_one;
use crate::single::Single;
use crate::text::{start_of, width_of};
use crate::widget_placement::lemma_numeral;

verus! {

/// A text lies about its anchor: it starts there, has its middle there, or ends
/// there.
pub proof fn a_text_lies_at_its_anchor(anchor: TextAnchor, x: Number, width: Number)
    requires
        within(x, 200),
        within(width, 200),
    ensures
        ({
            let start = start_of(anchor, x, width);
            let reach = match anchor {
                TextAnchor::Start => 0 as real,
                TextAnchor::Middle => amount(width) / 2 as real,
                TextAnchor::End => amount(width),
            };
            is_about(start, amount(x) - reach, 2 as real * size_of(x, width))
        }),
{
    lemma_beside(x, width);
    lemma_distances(amount(x), amount(width));
    let e = trip_roundoff();
    let s = 2 as real * size_of(x, width);
    assert(e * s >= 0 as real) by (nonlinear_arith)
        requires
            e > 0 as real,
            s >= 0 as real,
    ;
    assert(amount(x) - amount(x) == 0 as real && distance(0 as real) == 0 as real) by {
        reveal(distance);
    }
}

/// A text is as wide as its glyphs: one more glyph makes it wider by the
/// glyph's own advance, and a text of none has no width.
pub proof fn a_text_is_as_wide_as_its_glyphs(advances: Seq<Single>, next: Single)
    ensures
        width_of(Seq::<Single>::empty()) == Number::from_bits(ZERO),
        ({
            let (before, step) = (width_of(advances), next.widened());
            within(before, 200) && within(step, 200) ==> is_about(
                width_of(advances.push(next)),
                amount(before) + amount(step),
                2 as real * size_of(before, step),
            )
        }),
{
    let (before, step) = (width_of(advances), next.widened());
    assert(advances.push(next).drop_last() =~= advances);
    if within(before, 200) && within(step, 200) {
        lemma_beside(before, step);
    }
}

/// The size of the numbers that a label is placed by.
pub open spec fn label_size(needed: Number, base: Number, tip: Number) -> real {
    distance(amount(needed)) + distance(amount(base)) + distance(amount(tip)) + 64 as real
}

/// A label stands six pixels from the tip of its bar. Where the bar is long
/// enough to hold it with as much room behind it, it stands inside and leads
/// back to the foot, in the ink that shows on the bar; where it is not, it
/// stands outside and leads away.
pub proof fn a_label_stands_by_the_tip_of_its_bar(
    needed: Number,
    base: Number,
    tip: Number,
    ink: Rgba,
    knockout: Rgba,
)
    requires
        within(needed, 200),
        within(base, 200),
        within(tip, 200),
    ensures
        ({
            let label = label_place(needed, base, tip, ink, knockout);
            let way = amount(tip) - amount(base);
            let size = 8 as real * label_size(needed, base, tip);
            let room = distance(way) - (amount(needed) + 12 as real);
            let back = if way < 0 as real {
                -6 as real
            } else {
                6 as real
            };
            &&& room > trip_roundoff() * size ==> {
                &&& is_about(label.at, amount(tip) - back, size)
                &&& label.anchor == if way < 0 as real {
                    TextAnchor::Start
                } else {
                    TextAnchor::End
                }
                &&& label.colour == knockout
            }
            &&& room < -(trip_roundoff() * size) ==> {
                &&& is_about(label.at, amount(tip) + back, size)
                &&& label.anchor == if way < 0 as real {
                    TextAnchor::End
                } else {
                    TextAnchor::Start
                }
                &&& label.colour == ink
            }
        }),
{
    let s = label_size(needed, base, tip);
    let pad = Number::from_bits(BAR_LABEL_PAD);
    let (zero, one, two) = (
        Number::from_bits(ZERO),
        Number::from_bits(ONE),
        Number::from_bits(TWO),
    );
    let (n, b, t) = (amount(needed), amount(base), amount(tip));
    let way = t - b;
    let span = tip.minus(base);
    lemma_label_size(needed, base, tip);
    lemma_label_lengths();
    lemma_one();
    lemma_format();
    reveal(distance);
    // The bar, and which way it leads.
    lemma_exactly_stands(base, s);
    lemma_exactly_stands(tip, s);
    lemma_stands_sum(tip, t, s, base, b, s, 0);
    lemma_minus_accuracy(tip, base);
    lemma_part(distance(amount(span)));
    lemma_amount_of_sign(zero);
    lemma_amounts_in_order(span, zero);
    let backwards = span.lt(zero);
    assert(backwards <==> way < 0 as real);
    // What the label needs, and a pad on either side.
    lemma_exactly_stands(two, 2 as real);
    lemma_exactly_stands(pad, s);
    assert(2 as real * s == s * 2 as real);
    lemma_stands_product(two, 2 as real, 2 as real, 0, pad, 6 as real, s, 0);
    let both = two.times(pad);
    lemma_exactly_stands(needed, s);
    lemma_stands_more(needed, n, s, 0, 2 as real * s, 8);
    lemma_stands_sum(needed, n, 2 as real * s, both, 12 as real, 2 as real * s, 8);
    let want = needed.plus(both);
    lemma_amount_of_sign(span);
    lemma_amounts_in_order(want, span.abs());
    // Six pixels either way.
    lemma_amount_of_sign(one);
    let direction = if backwards {
        one.negated()
    } else {
        one
    };
    let d = amount(direction);
    assert(1 as real * s == s);
    lemma_exactly_stands(direction, 1 as real);
    lemma_stands_product(direction, d, 1 as real, 0, pad, 6 as real, s, 0);
    let step = direction.times(pad);
    lemma_stands_more(tip, t, s, 0, s, 8);
    lemma_stands_sum(tip, t, s, step, d * 6 as real, s, 8);
    let (inside, outside) = (tip.minus(step), tip.plus(step));
    let back = d * 6 as real;
    lemma_stands_more(inside, t - back, 2 as real * s, 16, 8 as real * s, 16);
    lemma_stands_more(outside, t + back, 2 as real * s, 16, 8 as real * s, 16);
    lemma_about(inside, t - back, 8 as real * s, 16);
    lemma_about(outside, t + back, 8 as real * s, 16);
    lemma_room(distance(amount(span)), distance(way), amount(want), n + 12 as real, s);
}

/// A bar that is longer, or shorter, than what a label wants by more than
/// rounding is found to be so.
proof fn lemma_room(span: real, way: real, want: real, wanted: real, s: real)
    requires
        s >= 64 as real,
        distance(span - way) <= 8 as real * (roundoff() * (2 as real * s)),
        distance(want - wanted) <= 16 as real * (roundoff() * (4 as real * s)),
    ensures
        way - wanted > trip_roundoff() * (8 as real * s) ==> want <= span,
        way - wanted < -(trip_roundoff() * (8 as real * s)) ==> want > span,
{
    reveal(distance);
    let u = roundoff() * s;
    assert(roundoff() * (2 as real * s) == 2 as real * u) by (nonlinear_arith)
        requires
            u == roundoff() * s,
    ;
    assert(roundoff() * (4 as real * s) == 4 as real * u) by (nonlinear_arith)
        requires
            u == roundoff() * s,
    ;
    assert(trip_roundoff() * (8 as real * s) == 4096 as real * u) by (nonlinear_arith)
        requires
            u == roundoff() * s,
            trip_roundoff() == 1 as real / 17592186044416 as real,
            roundoff() == 1 as real / 9007199254740992 as real,
    ;
    lemma_part(s);
}

/// The lengths that a label is placed by.
proof fn lemma_label_lengths()
    ensures
        amount(Number::from_bits(BAR_LABEL_PAD)) == 6 as real,
        amount(Number::from_bits(TWO)) == 2 as real,
{
    lemma_format();
    lemma2_to64();
    lemma2_to64_rest();
    assert(pow2(51) == 2251799813685248 && pow2(50) == 1125899906842624);
    lemma_numeral(Number::from_bits(BAR_LABEL_PAD), 50, 6 as real);
    lemma_numeral(Number::from_bits(TWO), 51, 2 as real);
}

/// The size of a label's numbers is ordinary.
proof fn lemma_label_size(needed: Number, base: Number, tip: Number)
    requires
        within(needed, 200),
        within(base, 200),
        within(tip, 200),
    ensures
        ({
            let s = label_size(needed, base, tip);
            &&& s >= 64 as real
            &&& is_ordinary(s) && is_ordinary(2 as real * s) && is_ordinary(4 as real * s)
            &&& is_ordinary(8 as real * s) && is_ordinary(1 as real) && is_ordinary(2 as real)
            &&& distance(amount(needed)) <= s && distance(amount(base)) <= s && distance(
                amount(tip),
            ) <= s
        }),
{
    let s = label_size(needed, base, tip);
    lemma_distances(amount(needed), amount(base));
    lemma_distances(amount(tip), amount(base));
    lemma_pow2_adds(10, 190);
    lemma_pow2_pos(190);
    lemma_pow2_adds(10, 389);
    lemma_pow2_pos(389);
    lemma2_to64();
    assert(pow2(200) >= 1024) by (nonlinear_arith)
        requires
            pow2(200) == pow2(10) * pow2(190),
            pow2(10) == 1024,
            pow2(190) >= 1,
    ;
    assert(pow2(399) >= 1024) by (nonlinear_arith)
        requires
            pow2(399) == pow2(10) * pow2(389),
            pow2(10) == 1024,
            pow2(389) >= 1,
    ;
    lemma_ordinary_sizes(s);
    lemma_ordinary_size(1 as real);
    lemma_ordinary_size(2 as real);
}

/// A total is the sum of its parts: one more part makes it greater by the part,
/// and a total of none is nothing.
pub proof fn a_total_is_the_sum_of_its_parts(parts: Seq<Number>, next: Number)
    ensures
        total_of(Seq::<Number>::empty()) == Number::from_bits(ZERO),
        ({
            let before = total_of(parts);
            within(before, 200) && within(next, 200) ==> is_about(
                total_of(parts.push(next)),
                amount(before) + amount(next),
                2 as real * size_of(before, next),
            )
        }),
{
    assert(parts.push(next).drop_last() =~= parts);
    if within(total_of(parts), 200) && within(next, 200) {
        lemma_beside(total_of(parts), next);
    }
}

/// A percentage label is the nearest whole percentage of the total.
pub proof fn a_percentage_label_is_the_nearest(v: Number, total: Number) -> (count: nat)
    requires
        within(v, 60),
        !v.negative(),
        within(total, 60),
        !total.negative(),
        amount(total) >= 1 as real / 1024 as real,
    ensures
        percent_text(v, total) == decimal(count).push('%'),
        distance(count as real - 100 as real * amount(v) / amount(total)) <= 1 as real / 2 as real
            + trip_roundoff() * (100 as real * (distance(amount(v)) + 1 as real) / amount(total)),
{
    let hundred = Number::from_bits(HUNDRED);
    let q = hundred.times(v).over(total);
    let (x, t) = (amount(v), amount(total));
    let s = 100 as real * (distance(x) + 1 as real);
    lemma_format();
    lemma2_to64();
    lemma2_to64_rest();
    assert(pow2(46) == 70368744177664 && pow2(60) == 1152921504606846976);
    lemma_numeral(hundred, 46, 100 as real);
    lemma_pow2_adds(60, 60);
    lemma_pow2_adds(120, 279);
    lemma_pow2_pos(279);
    assert(pow2(399) >= pow2(120)) by (nonlinear_arith)
        requires
            pow2(399) == pow2(120) * pow2(279),
            pow2(279) >= 1,
    ;
    assert(pow2(399) as real >= 1000000000000000000000000 as real);
    lemma_distances(x, t);
    assert(distance(t) == t && distance(100 as real) == 100 as real) by {
        reveal(distance);
    }
    lemma_ordinary_size(distance(x) + 1 as real);
    lemma_ordinary_size(t);
    lemma_ordinary_size(100 as real);
    lemma_ordinary_size(s);
    let r = s / t;
    assert(r * t == s) by (nonlinear_arith)
        requires
            r == s / t,
            t > 0 as real,
    ;
    assert(r <= 1024 as real * s && r * 1152921504606846976 as real >= s) by (nonlinear_arith)
        requires
            r * t == s,
            t >= 1 as real / 1024 as real,
            t <= 1152921504606846976 as real,
            s >= 100 as real,
    ;
    lemma_ordinary_size(r);
    lemma_exactly_stands(hundred, 100 as real);
    lemma_exactly_stands(v, distance(x) + 1 as real);
    lemma_exactly_stands(total, t);
    lemma_stands_product(hundred, 100 as real, 100 as real, 0, v, x, distance(x) + 1 as real, 0);
    lemma_stands_quotient(hundred.times(v), 100 as real * x, s, 8, total, t, 0);
    lemma_about(q, 100 as real * x / t, r, 20);
    lemma_forward(hundred, v);
    lemma_forward(hundred.times(v), total);
    let count = tenths(q, 0);
    a_fixed_numeral_is_the_nearest(q, 0);
    lemma_pow0(10);
    lemma_amounts_in_order(Number::from_bits(ZERO), q);
    lemma_amount_of_sign(Number::from_bits(ZERO));
    assert(distance(amount(q)) * 1 as real == distance(amount(q)));
    reveal(distance);
    assert(fixed(q, 0) =~= decimal(count));
    count
}

} // verus!
