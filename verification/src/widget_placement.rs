//! Where widgets are drawn: in their boxes, about the middle line.
use vstd::arithmetic::power2::{
    lemma2_to64, lemma2_to64_rest, lemma_pow2_adds, lemma_pow2_pos, pow2,
};
use vstd::prelude::*;

use crate::accuracy::{
    amount, distance, lemma_amount_of_parts, lemma_amount_of_sign, lemma_amounts_in_order,
    lemma_distances, trip_roundoff,
};
use crate::approximation::{
    is_about, is_ordinary, lemma_about, lemma_exactly_stands, lemma_ordinary_size,
    lemma_ordinary_sizes, lemma_stands_half, lemma_stands_more, lemma_stands_product,
    lemma_stands_sum, lemma_whole_stands, stands_for,
};
use crate::drawing::{Op, Outline, Point, Rect};
use crate::fits::within;
use crate::ink::ChartInk;
use crate::number::{lemma_format, Number, FRACTIONS};
use crate::numerals::{FOUR, HALF, ONE, SEVEN, SIX, TEN, THREE, TWO, ZERO};
use crate::residual::lemma_one;
use crate::standing::{a_polygon_goes_through_its_corners, is_outline, reached};
use crate::widgets::{
    check_corner, checkbox_ops, chevron, menu_ops, middle, option_ops, slider_ops, WidgetBox, EIGHT,
    EIGHTEEN, ELEVEN, FOURTEEN, RADIO_ROW_HEIGHT, SEVEN_AND_A_HALF, SLIDER_THUMB_RADIUS,
    SLIDER_TRACK_THICKNESS, TEN_AND_A_HALF, THREE_AND_A_HALF, TWENTY_FOUR, TWENTY_TWO,
    TWO_AND_A_HALF, WIDGET_BASELINE_NUDGE,
};

verus! {

/// The exact value of a number by its significant digits.
pub proof fn lemma_numeral(x: Number, above: nat, value: real)
    requires
        x.is_finite(),
        !x.negative(),
        x.magnitude() >= FRACTIONS,
        x.magnitude() / FRACTIONS as nat + above == 1075,
        value * pow2(above) as real == (FRACTIONS + x.magnitude() % FRACTIONS as nat) as real,
    ensures
        amount(x) == value,
{
    lemma_amount_of_parts(x, above);
    lemma_pow2_pos(above);
    let (a, p) = (amount(x), pow2(above) as real);
    assert(a == value) by (nonlinear_arith)
        requires
            a * p == value * p,
            p > 0 as real,
    ;
}

/// The lengths that widgets are made of.
proof fn lemma_lengths()
    ensures
        amount(Number::from_bits(HALF)) == 1 as real / 2 as real,
        amount(Number::from_bits(TWO)) == 2 as real,
        amount(Number::from_bits(THREE)) == 3 as real,
        amount(Number::from_bits(FOUR)) == 4 as real,
        amount(Number::from_bits(SIX)) == 6 as real,
        amount(Number::from_bits(SEVEN)) == 7 as real,
        amount(Number::from_bits(EIGHT)) == 8 as real,
        amount(Number::from_bits(TEN)) == 10 as real,
        amount(Number::from_bits(ELEVEN)) == 11 as real,
        amount(Number::from_bits(FOURTEEN)) == 14 as real,
        amount(Number::from_bits(EIGHTEEN)) == 18 as real,
        amount(Number::from_bits(TWENTY_TWO)) == 22 as real,
        amount(Number::from_bits(TWENTY_FOUR)) == 24 as real,
        amount(Number::from_bits(TWO_AND_A_HALF)) == 5 as real / 2 as real,
        amount(Number::from_bits(THREE_AND_A_HALF)) == 7 as real / 2 as real,
        amount(Number::from_bits(SEVEN_AND_A_HALF)) == 15 as real / 2 as real,
        amount(Number::from_bits(TEN_AND_A_HALF)) == 21 as real / 2 as real,
{
    lemma_format();
    lemma2_to64();
    lemma2_to64_rest();
    assert(pow2(53) == 9007199254740992 && pow2(51) == 2251799813685248 && pow2(50)
        == 1125899906842624 && pow2(49) == 562949953421312 && pow2(48) == 281474976710656);
    lemma_numeral(Number::from_bits(HALF), 53, 1 as real / 2 as real);
    lemma_numeral(Number::from_bits(TWO), 51, 2 as real);
    lemma_numeral(Number::from_bits(THREE), 51, 3 as real);
    lemma_numeral(Number::from_bits(FOUR), 50, 4 as real);
    lemma_numeral(Number::from_bits(SIX), 50, 6 as real);
    lemma_numeral(Number::from_bits(SEVEN), 50, 7 as real);
    lemma_numeral(Number::from_bits(EIGHT), 49, 8 as real);
    lemma_numeral(Number::from_bits(TEN), 49, 10 as real);
    lemma_numeral(Number::from_bits(ELEVEN), 49, 11 as real);
    lemma_numeral(Number::from_bits(FOURTEEN), 49, 14 as real);
    lemma_numeral(Number::from_bits(EIGHTEEN), 48, 18 as real);
    lemma_numeral(Number::from_bits(TWENTY_TWO), 48, 22 as real);
    lemma_numeral(Number::from_bits(TWENTY_FOUR), 48, 24 as real);
    lemma_numeral(Number::from_bits(TWO_AND_A_HALF), 51, 5 as real / 2 as real);
    lemma_numeral(Number::from_bits(THREE_AND_A_HALF), 51, 7 as real / 2 as real);
    lemma_numeral(Number::from_bits(SEVEN_AND_A_HALF), 50, 15 as real / 2 as real);
    lemma_numeral(Number::from_bits(TEN_AND_A_HALF), 49, 21 as real / 2 as real);
}

/// Whether a box is moderate.
pub open spec fn is_moderate_box(at: WidgetBox) -> bool {
    within(at.x, 200) && within(at.y, 200) && within(at.width, 200) && within(at.height, 200)
}

/// The size of a box's numbers.
pub open spec fn box_size(at: WidgetBox) -> real {
    distance(amount(at.x)) + distance(amount(at.y)) + distance(amount(at.width)) + distance(
        amount(at.height),
    ) + 64 as real
}

/// Whether a point is at a place, up to rounding.
pub open spec fn is_at(p: Point, x: real, y: real, size: real) -> bool {
    is_about(p.x, x, 8 as real * size) && is_about(p.y, y, 8 as real * size)
}

/// Whether a rectangle has its edges at places, up to rounding.
pub open spec fn is_rect(r: Rect, x0: real, y0: real, x1: real, y1: real, size: real) -> bool {
    &&& is_at(Point { x: r.x0, y: r.y0 }, x0, y0, size)
    &&& is_at(Point { x: r.x1, y: r.y1 }, x1, y1, size)
}

/// The middle line of a box.
pub open spec fn midline(at: WidgetBox) -> real {
    amount(at.y) + amount(at.height) / 2 as real
}

/// The size of a moderate box is ordinary.
proof fn lemma_box(at: WidgetBox)
    requires
        is_moderate_box(at),
    ensures
        ({
            let s = box_size(at);
            &&& s >= 64 as real
            &&& is_ordinary(s) && is_ordinary(2 as real * s) && is_ordinary(4 as real * s)
            &&& is_ordinary(8 as real * s) && is_ordinary(s / 2 as real)
            &&& is_ordinary(16 as real * s) && is_ordinary(1 as real)
            &&& stands_for(at.x, amount(at.x), s, 0)
            &&& stands_for(at.y, amount(at.y), s, 0)
            &&& stands_for(at.width, amount(at.width), s, 0)
            &&& stands_for(at.height, amount(at.height), s, 0)
            &&& stands_for(middle(at), midline(at), 2 as real * s, 20)
        }),
{
    let s = box_size(at);
    lemma_distances(amount(at.x), amount(at.y));
    lemma_distances(amount(at.width), amount(at.height));
    lemma_pow2_adds(10, 190);
    lemma_pow2_pos(190);
    lemma2_to64();
    assert(pow2(200) >= 1024) by (nonlinear_arith)
        requires
            pow2(200) == pow2(10) * pow2(190),
            pow2(10) == 1024,
            pow2(190) >= 1,
    ;
    lemma_ordinary_sizes(s);
    lemma_pow2_pos(399);
    lemma_ordinary_size(1 as real);
    lemma_exactly_stands(at.x, s);
    lemma_exactly_stands(at.y, s);
    lemma_exactly_stands(at.width, s);
    lemma_exactly_stands(at.height, s);
    let half = at.height.over(Number::from_bits(TWO));
    lemma_stands_half(at.height, amount(at.height), s, 0);
    lemma_stands_more(half, amount(at.height) / 2 as real, s / 2 as real, 12, s, 12);
    lemma_stands_more(at.y, amount(at.y), s, 0, s, 12);
    lemma_stands_sum(at.y, amount(at.y), s, half, amount(at.height) / 2 as real, s, 12);
}

/// A number beside a length is where it should be.
proof fn lemma_offset(a: Number, v: real, s: real, c: Number)
    requires
        stands_for(a, v, 4 as real * s, 30),
        is_ordinary(4 as real * s),
        is_ordinary(8 as real * s),
        c.is_finite(),
        distance(amount(c)) <= s,
        s >= 0 as real,
    ensures
        is_about(a.plus(c), v + amount(c), 8 as real * s),
        is_about(a.minus(c), v - amount(c), 8 as real * s),
        stands_for(a.plus(c), v + amount(c), 8 as real * s, 38),
        stands_for(a.minus(c), v - amount(c), 8 as real * s, 38),
{
    let size = 4 as real * s;
    lemma_exactly_stands(c, size);
    lemma_stands_more(c, amount(c), size, 0, size, 30);
    lemma_stands_sum(a, v, size, c, amount(c), size, 30);
    lemma_about(a.plus(c), v + amount(c), 8 as real * s, 38);
    lemma_about(a.minus(c), v - amount(c), 8 as real * s, 38);
}

/// The places that a widget's parts are measured from: its left edge, its right
/// edge, its top, its bottom and its middle line.
proof fn lemma_edges(at: WidgetBox)
    requires
        is_moderate_box(at),
    ensures
        ({
            let s = box_size(at);
            &&& stands_for(at.x, amount(at.x), 4 as real * s, 30)
            &&& stands_for(at.y, amount(at.y), 4 as real * s, 30)
            &&& stands_for(
                at.x.plus(at.width),
                amount(at.x) + amount(at.width),
                4 as real * s,
                30,
            )
            &&& stands_for(
                at.y.plus(at.height),
                amount(at.y) + amount(at.height),
                4 as real * s,
                30,
            )
            &&& stands_for(middle(at), midline(at), 4 as real * s, 30)
        }),
{
    let s = box_size(at);
    let four = 4 as real * s;
    lemma_box(at);
    lemma_stands_sum(at.x, amount(at.x), s, at.width, amount(at.width), s, 0);
    lemma_stands_sum(at.y, amount(at.y), s, at.height, amount(at.height), s, 0);
    lemma_stands_more(at.x, amount(at.x), s, 0, four, 30);
    lemma_stands_more(at.y, amount(at.y), s, 0, four, 30);
    lemma_stands_more(
        at.x.plus(at.width),
        amount(at.x) + amount(at.width),
        2 as real * s,
        8,
        four,
        30,
    );
    lemma_stands_more(
        at.y.plus(at.height),
        amount(at.y) + amount(at.height),
        2 as real * s,
        8,
        four,
        30,
    );
    lemma_stands_more(middle(at), midline(at), 2 as real * s, 20, four, 30);
}

/// Whether an entry of a display list is a text that starts at a place.
pub open spec fn is_label(op: Op, text: Seq<char>, x: real, y: real, size: real) -> bool {
    op matches Op::Text(t, p, _, _, anchor) && t == text && anchor is Start && is_at(p, x, y, size)
}

/// A menu fills its box but for half a pixel round it, its label starts ten
/// pixels in on the middle line, and its chevron points down near the right
/// edge.
pub proof fn a_menu_fills_its_box(at: WidgetBox, label: Seq<char>, ink: ChartInk)
    requires
        is_moderate_box(at),
    ensures
        ({
            let ops = menu_ops(at, label, ink);
            let s = box_size(at);
            let (left, top) = (amount(at.x), amount(at.y));
            let (right, bottom) = (left + amount(at.width), top + amount(at.height));
            let h = 1 as real / 2 as real;
            &&& ops[0] matches Op::Fill(_, Outline::Rounded(r, _)) && is_rect(
                r,
                left + h,
                top + h,
                right - h,
                bottom - h,
                s,
            )
            &&& ops[1] matches Op::Stroke(_, _, outline) && outline == ops[0]->Fill_1
            &&& label.len() > 0 ==> is_label(
                ops[2],
                label,
                left + 10 as real,
                midline(at) + 4 as real,
                s,
            )
            &&& ops.last() matches Op::Fill(_, Outline::Path(steps)) && is_outline(steps, 3) && {
                &&& is_at(
                    reached(steps[0]),
                    right - 18 as real,
                    midline(at) - 5 as real / 2 as real,
                    s,
                )
                &&& is_at(
                    reached(steps[1]),
                    right - 8 as real,
                    midline(at) - 5 as real / 2 as real,
                    s,
                )
                &&& is_about(
                    reached(steps[2]).y,
                    midline(at) + 7 as real / 2 as real,
                    8 as real * s,
                )
                &&& is_about(reached(steps[2]).x, right - 13 as real, 16 as real * s)
            }
        }),
{
    let s = box_size(at);
    lemma_lengths();
    lemma_edges(at);
    lemma_box(at);
    lemma_format();
    reveal(distance);
    let half = Number::from_bits(HALF);
    lemma_offset(at.x, amount(at.x), s, half);
    lemma_offset(at.y, amount(at.y), s, half);
    lemma_offset(at.x.plus(at.width), amount(at.x) + amount(at.width), s, half);
    lemma_offset(at.y.plus(at.height), amount(at.y) + amount(at.height), s, half);
    lemma_offset(at.x, amount(at.x), s, Number::from_bits(TEN));
    lemma_offset(middle(at), midline(at), s, Number::from_bits(WIDGET_BASELINE_NUDGE));
    lemma_chevron(at);
    a_polygon_goes_through_its_corners(chevron(at));
}

/// Where the corners of a menu's chevron are.
proof fn lemma_chevron(at: WidgetBox)
    requires
        is_moderate_box(at),
    ensures
        ({
            let c = chevron(at);
            let s = box_size(at);
            let right = amount(at.x) + amount(at.width);
            let top = midline(at) - 5 as real / 2 as real;
            &&& is_at(c[0], right - 18 as real, top, s)
            &&& is_at(c[1], right - 8 as real, top, s)
            &&& is_about(c[2].x, right - 13 as real, 16 as real * s)
            &&& is_about(c[2].y, midline(at) + 7 as real / 2 as real, 8 as real * s)
        }),
{
    let s = box_size(at);
    let edge = at.x.plus(at.width);
    let right = amount(at.x) + amount(at.width);
    lemma_lengths();
    lemma_edges(at);
    lemma_box(at);
    lemma_format();
    reveal(distance);
    let (a, b) = (Number::from_bits(EIGHTEEN), Number::from_bits(EIGHT));
    lemma_offset(edge, right, s, a);
    lemma_offset(edge, right, s, b);
    lemma_offset(middle(at), midline(at), s, Number::from_bits(TWO_AND_A_HALF));
    lemma_offset(middle(at), midline(at), s, Number::from_bits(THREE_AND_A_HALF));
    let eight = 8 as real * s;
    let (l, r) = (edge.minus(a), edge.minus(b));
    lemma_stands_sum(l, right - 18 as real, eight, r, right - 8 as real, eight, 38);
    let both = l.plus(r);
    let v = right - 18 as real + (right - 8 as real);
    lemma_stands_half(both, v, 16 as real * s, 46);
    assert(v / 2 as real == right - 13 as real);
    lemma_stands_more(
        both.over(Number::from_bits(TWO)),
        right - 13 as real,
        8 as real * s,
        58,
        16 as real * s,
        58,
    );
    lemma_about(both.over(Number::from_bits(TWO)), right - 13 as real, 16 as real * s, 58);
}

/// A slider's track runs from one thumb's breadth to the other on the middle
/// line, and its thumb stands a part of the way along it.
pub proof fn a_thumb_stands_a_part_of_the_way(at: WidgetBox, frac: Number, ink: ChartInk)
    requires
        is_moderate_box(at),
        amount(at.width) >= 14 as real,
        frac.is_finite(),
        0 as real <= amount(frac) <= 1 as real,
    ensures
        ({
            let ops = slider_ops(at, frac, ink);
            let s = box_size(at);
            let (left, width) = (amount(at.x), amount(at.width));
            let mid = midline(at);
            &&& ops[0] matches Op::Fill(_, Outline::Rounded(r, _)) && {
                &&& is_about(r.x0, left + 7 as real, 16 as real * s)
                &&& is_about(r.x1, left + width - 7 as real, 16 as real * s)
                &&& is_about(r.y0, mid - 2 as real, 16 as real * s)
                &&& is_about(r.y1, mid + 2 as real, 16 as real * s)
            }
            &&& ops[1] matches Op::Fill(_, Outline::Circle(c, _)) && {
                &&& is_about(
                    c.x,
                    left + 7 as real + (width - 14 as real) * amount(frac),
                    16 as real * s,
                )
                &&& is_about(c.y, mid, 16 as real * s)
            }
        }),
{
    let s = box_size(at);
    let two = Number::from_bits(TWO);
    let zero = Number::from_bits(ZERO);
    let one = Number::from_bits(ONE);
    let radius = Number::from_bits(SLIDER_THUMB_RADIUS);
    let (x, w, f) = (amount(at.x), amount(at.width), amount(frac));
    let (four, eight) = (4 as real * s, 8 as real * s);
    lemma_lengths();
    lemma_one();
    lemma_edges(at);
    lemma_box(at);
    lemma_format();
    reveal(distance);
    lemma_amounts_in_order(zero, frac);
    lemma_amounts_in_order(frac, zero);
    lemma_amounts_in_order(frac, one);
    lemma_amounts_in_order(one, frac);
    assert(amount(zero) == 0 as real) by {
        lemma_amount_of_sign(zero);
    }
    assert(frac.clamp(zero, one) == frac);
    let thick = Number::from_bits(SLIDER_TRACK_THICKNESS);
    let half = thick.over(two);
    lemma_exactly_stands(thick, s);
    lemma_stands_half(thick, 4 as real, s, 0);
    lemma_stands_more(half, 2 as real, s / 2 as real, 12, four, 30);
    lemma_stands_sum(middle(at), midline(at), four, half, 2 as real, four, 30);
    let both = radius.times(two);
    lemma_exactly_stands(radius, s);
    lemma_exactly_stands(two, 2 as real);
    assert(s * 2 as real == 2 as real * s);
    lemma_stands_product(radius, 7 as real, s, 0, two, 2 as real, 2 as real, 0);
    lemma_stands_more(at.width, w, s, 0, 2 as real * s, 8);
    lemma_stands_sum(at.width, w, 2 as real * s, both, 14 as real, 2 as real * s, 8);
    let d = at.width.minus(both);
    lemma_amounts_in_order(d, zero);
    let width = d.max(zero);
    assert(stands_for(width, w - 14 as real, four, 16));
    lemma_offset(at.x, x, s, radius);
    let left = at.x.plus(radius);
    lemma_stands_more(width, w - 14 as real, four, 16, eight, 38);
    lemma_stands_sum(left, x + 7 as real, eight, width, w - 14 as real, eight, 38);
    lemma_exactly_stands(frac, 1 as real);
    assert(four * 1 as real == four);
    lemma_stands_product(width, w - 14 as real, four, 16, frac, f, 1 as real, 0);
    let part = (w - 14 as real) * f;
    lemma_stands_more(width.times(frac), part, four, 24, eight, 38);
    lemma_stands_sum(left, x + 7 as real, eight, width.times(frac), part, eight, 38);
    let sixteen = 16 as real * s;
    lemma_stands_more(left, x + 7 as real, eight, 38, sixteen, 46);
    lemma_stands_more(middle(at), midline(at), four, 30, sixteen, 46);
    lemma_stands_more(middle(at).minus(half), midline(at) - 2 as real, eight, 38, sixteen, 46);
    lemma_stands_more(middle(at).plus(half), midline(at) + 2 as real, eight, 38, sixteen, 46);
    lemma_about(left, x + 7 as real, sixteen, 46);
    lemma_about(left.plus(width), x + 7 as real + (w - 14 as real), sixteen, 46);
    lemma_about(left.plus(width.times(frac)), x + 7 as real + part, sixteen, 46);
    lemma_about(middle(at), midline(at), sixteen, 46);
    lemma_about(middle(at).minus(half), midline(at) - 2 as real, sixteen, 46);
    lemma_about(middle(at).plus(half), midline(at) + 2 as real, sixteen, 46);
}

/// A checkbox is a square of fourteen pixels about the middle line, four pixels
/// in, with its label behind it; its tick lies inside it and is there where the
/// box is checked.
pub proof fn a_checkbox_stands_on_its_middle_line(
    at: WidgetBox,
    checked: bool,
    label: Seq<char>,
    ink: ChartInk,
)
    requires
        is_moderate_box(at),
    ensures
        ({
            let ops = checkbox_ops(at, checked, label, ink);
            let size = 4 as real * box_size(at);
            let (left, mid) = (amount(at.x) + 4 as real, midline(at));
            let top = mid - 7 as real;
            &&& ops[0] matches Op::Fill(_, Outline::Rounded(r, _)) && is_rect(
                r,
                left,
                top,
                left + 14 as real,
                top + 14 as real,
                size,
            )
            &&& ops[1] matches Op::Stroke(_, _, outline) && outline == ops[0]->Fill_1
            &&& checked ==> (ops[2] matches Op::Stroke(_, _, Outline::Path(steps)) && steps.len()
                == 3 && {
                &&& is_at(reached(steps[0]), left + 3 as real, top + 15 as real / 2 as real, size)
                &&& is_at(reached(steps[1]), left + 6 as real, top + 21 as real / 2 as real, size)
                &&& is_at(reached(steps[2]), left + 11 as real, top + 7 as real / 2 as real, size)
            })
            &&& label.len() > 0 ==> is_label(
                ops.last(),
                label,
                left + 22 as real,
                mid + 4 as real,
                size,
            )
            &&& ops.len() == 2 + (if checked {
                1int
            } else {
                0
            }) + (if label.len() > 0 {
                1int
            } else {
                0
            })
        }),
{
    let s = box_size(at);
    let c = check_corner(at);
    let (left, mid) = (amount(at.x) + 4 as real, midline(at));
    let top = mid - 7 as real;
    lemma_lengths();
    lemma_edges(at);
    lemma_box(at);
    lemma_format();
    reveal(distance);
    lemma_offset(at.x, amount(at.x), s, Number::from_bits(FOUR));
    lemma_offset(middle(at), mid, s, Number::from_bits(SEVEN));
    lemma_offset(middle(at), mid, s, Number::from_bits(WIDGET_BASELINE_NUDGE));
    lemma_from_corner(c.x, left, s, Number::from_bits(FOURTEEN));
    lemma_from_corner(c.y, top, s, Number::from_bits(FOURTEEN));
    lemma_from_corner(c.x, left, s, Number::from_bits(THREE));
    lemma_from_corner(c.x, left, s, Number::from_bits(SIX));
    lemma_from_corner(c.x, left, s, Number::from_bits(ELEVEN));
    lemma_from_corner(c.x, left, s, Number::from_bits(TWENTY_TWO));
    lemma_from_corner(c.y, top, s, Number::from_bits(SEVEN_AND_A_HALF));
    lemma_from_corner(c.y, top, s, Number::from_bits(TEN_AND_A_HALF));
    lemma_from_corner(c.y, top, s, Number::from_bits(THREE_AND_A_HALF));
    lemma_wider(
        middle(at).plus(Number::from_bits(WIDGET_BASELINE_NUDGE)),
        mid + 4 as real,
        8 as real * s,
        32 as real * s,
    );
}

/// What is about a value by a size is so by a greater one.
proof fn lemma_wider(x: Number, value: real, size: real, more: real)
    requires
        is_about(x, value, size),
        size <= more,
    ensures
        is_about(x, value, more),
{
    let e = trip_roundoff();
    assert(e * size <= e * more) by (nonlinear_arith)
        requires
            size <= more,
            e > 0 as real,
    ;
}

/// A place beside the corner of a checkbox.
proof fn lemma_from_corner(a: Number, v: real, s: real, c: Number)
    requires
        stands_for(a, v, 8 as real * s, 38),
        is_ordinary(16 as real * s),
        is_ordinary(8 as real * s),
        c.is_finite(),
        distance(amount(c)) <= s,
        s >= 0 as real,
    ensures
        is_about(a, v, 32 as real * s),
        is_about(a.plus(c), v + amount(c), 32 as real * s),
{
    let size = 8 as real * s;
    lemma_exactly_stands(c, size);
    lemma_stands_more(c, amount(c), size, 0, size, 38);
    lemma_stands_sum(a, v, size, c, amount(c), size, 38);
    lemma_about(a.plus(c), v + amount(c), 16 as real * s, 46);
    lemma_about(a, v, size, 38);
    lemma_wider(a, v, size, 32 as real * s);
    lemma_wider(a.plus(c), v + amount(c), 16 as real * s, 32 as real * s);
}

/// The size of the numbers of an option in a list.
pub open spec fn option_size(x: Number, y: Number, pad: Number, i: int) -> real {
    distance(amount(x)) + distance(amount(y)) + distance(amount(pad)) + 64 as real + 64 as real
        * i as real
}

/// The options of a list stand one below the other, twenty-two pixels apart,
/// each with its ring ten pixels in, its dot in its ring where it is the
/// selected one, and its label behind the ring.
pub proof fn options_stand_one_below_the_other(
    x: Number,
    y: Number,
    pad: Number,
    label: Seq<char>,
    selected: bool,
    i: int,
    ink: ChartInk,
)
    requires
        within(x, 200),
        within(y, 200),
        within(pad, 200),
        0 <= i <= 1000000,
    ensures
        ({
            let ops = option_ops(x, y, pad, label, selected, i, ink);
            let size = option_size(x, y, pad, i);
            let (left, row) = (
                amount(x),
                amount(y) + amount(pad) / 2 as real + 22 as real * (i as real + 1 as real
                    / 2 as real),
            );
            &&& ops[0] matches Op::Fill(_, Outline::Circle(c, _)) && is_at(
                c,
                left + 10 as real,
                row,
                size,
            )
            &&& ops[1] matches Op::Stroke(_, _, outline) && outline == ops[0]->Fill_1
            &&& selected ==> (ops[2] matches Op::Fill(_, Outline::Circle(c, _)) && is_at(
                c,
                left + 10 as real,
                row,
                size,
            ))
            &&& label.len() > 0 ==> is_label(
                ops.last(),
                label,
                left + 24 as real,
                row + 4 as real,
                2 as real * size,
            )
            &&& ops.len() == 2 + (if selected {
                1int
            } else {
                0
            }) + (if label.len() > 0 {
                1int
            } else {
                0
            })
        }),
{
    let s = option_size(x, y, pad, i);
    let two = Number::from_bits(TWO);
    let half = Number::from_bits(HALF);
    let (a, b, p) = (amount(x), amount(y), amount(pad));
    let n = i as real;
    lemma_lengths();
    lemma_format();
    lemma_option_size(x, y, pad, i);
    reveal(distance);
    // How far down the row is in the list.
    let size = n + 2 as real;
    lemma_whole_stands(i, size / 2 as real + n / 2 as real);
    lemma_exactly_stands(half, 1 as real);
    let place = Number::spec_from_int(i);
    lemma_stands_more(half, 1 as real / 2 as real, 1 as real, 0, 1 as real, 2);
    lemma_stands_sum(
        place,
        n,
        n + 1 as real,
        half,
        1 as real / 2 as real,
        1 as real,
        2,
    );
    let below = place.plus(half);
    let row_height = Number::from_bits(RADIO_ROW_HEIGHT);
    lemma_exactly_stands(row_height, 22 as real);
    assert(22 as real * size == 22 as real * n + 44 as real);
    lemma_stands_product(
        row_height,
        22 as real,
        22 as real,
        0,
        below,
        n + 1 as real / 2 as real,
        size,
        10,
    );
    let down = 22 as real * (n + 1 as real / 2 as real);
    let list = row_height.times(below);
    lemma_stands_more(list, down, 22 as real * size, 18, 2 as real * s, 20);
    // And where the list starts.
    lemma_exactly_stands(pad, s);
    lemma_stands_half(pad, p, s, 0);
    let inset = pad.over(two);
    lemma_stands_more(inset, p / 2 as real, s / 2 as real, 12, s, 12);
    lemma_exactly_stands(y, s);
    lemma_stands_more(y, b, s, 0, s, 12);
    lemma_stands_sum(y, b, s, inset, p / 2 as real, s, 12);
    let top = y.plus(inset);
    let cy = top.plus(list);
    let row = b + p / 2 as real + down;
    lemma_stands_sum(top, b + p / 2 as real, 2 as real * s, list, down, 2 as real * s, 20);
    lemma_stands_more(cy, row, 4 as real * s, 28, 4 as real * s, 30);
    lemma_stands_more(cy, row, 4 as real * s, 28, 8 as real * s, 30);
    lemma_about(cy, row, 8 as real * s, 30);
    lemma_exactly_stands(x, s);
    lemma_stands_more(x, a, s, 0, 4 as real * s, 30);
    lemma_offset(x, a, s, Number::from_bits(TEN));
    lemma_offset(x, a, s, Number::from_bits(TWENTY_FOUR));
    lemma_offset(cy, row, s, Number::from_bits(WIDGET_BASELINE_NUDGE));
    lemma_wider(
        x.plus(Number::from_bits(TWENTY_FOUR)),
        a + 24 as real,
        8 as real * s,
        16 as real * s,
    );
    lemma_wider(
        cy.plus(Number::from_bits(WIDGET_BASELINE_NUDGE)),
        row + 4 as real,
        8 as real * s,
        16 as real * s,
    );
}

/// The size of an option's numbers is ordinary.
proof fn lemma_option_size(x: Number, y: Number, pad: Number, i: int)
    requires
        within(x, 200),
        within(y, 200),
        within(pad, 200),
        0 <= i <= 1000000,
    ensures
        ({
            let s = option_size(x, y, pad, i);
            &&& s >= 64 as real + 64 as real * i as real
            &&& is_ordinary(s / 2 as real) && is_ordinary(s) && is_ordinary(2 as real * s)
            &&& is_ordinary(4 as real * s) && is_ordinary(8 as real * s)
            &&& is_ordinary(1 as real) && is_ordinary(22 as real)
            &&& is_ordinary(i as real + 1 as real) && is_ordinary(i as real + 2 as real)
            &&& is_ordinary(22 as real * i as real + 44 as real)
            &&& distance(amount(x)) <= s && distance(amount(y)) <= s && distance(amount(pad)) <= s
        }),
{
    let s = option_size(x, y, pad, i);
    lemma_distances(amount(x), amount(y));
    lemma_distances(amount(pad), amount(y));
    lemma_pow2_adds(30, 170);
    lemma_pow2_pos(170);
    lemma2_to64();
    lemma_pow2_adds(200, 199);
    lemma_pow2_pos(199);
    assert(pow2(200) >= 1073741824) by (nonlinear_arith)
        requires
            pow2(200) == pow2(30) * pow2(170),
            pow2(30) == 1073741824,
            pow2(170) >= 1,
    ;
    assert(pow2(399) >= pow2(200)) by (nonlinear_arith)
        requires
            pow2(399) == pow2(200) * pow2(199),
            pow2(199) >= 1,
    ;
    lemma_ordinary_sizes(s);
    lemma_ordinary_size(1 as real);
    lemma_ordinary_size(22 as real);
    lemma_ordinary_size(i as real + 1 as real);
    lemma_ordinary_size(i as real + 2 as real);
    lemma_ordinary_size(22 as real * i as real + 44 as real);
}

} // verus!
