//! What a shade says: a greater value is drawn no fainter, and a ramp leads from
//! one colour to the next.
use vstd::arithmetic::mul::lemma_mul_basics;
use vstd::arithmetic::power2::{
    lemma2_to64, lemma2_to64_rest, lemma_pow2_adds, lemma_pow2_pos, lemma_pow2_unfold, pow2,
};
use vstd::prelude::*;

use crate::number;
use crate::bounds::{
    lemma_half_keeps_order, lemma_nothing_over, lemma_over_itself, lemma_over_keeps_order,
};
use crate::colour::{Rgba, OPAQUE};
use crate::density::dot_of_cell;
use crate::drawing::{Op, TextAnchor};
use crate::highlight::{deemphasised, plain_style, remainder, HighlightStyle, DEFAULT_DIMMED_ALPHA};
use crate::kde::GridModel;
use crate::line::{softened, AREA_FILL_ALPHA};
use crate::mirrors::lemma_over_turns;
use crate::number::{lemma_format, lemma_worth_of_power, worth, Number};
use crate::numerals::{ONE, TWO, ZERO};
use crate::ramp::ramp_of;
use crate::raster::{count_colour, density_colour, ramp_position, RASTER_MIN_T};
use crate::rounding::{
    lemma_rounding_at_least, lemma_rounding_at_most, lemma_rounding_keeps_order,
    lemma_rounding_of_nothing, lemma_units_increase, lemma_units_of_parts, nearest, size, units,
};
use crate::scale::{blended, blended_channel, ScaleModel};
use crate::scale_set::ScaleSet;
use crate::single::{singly_rounded, Single, DEEPER, DEPTH, INFINITE, WIDTH};
use crate::text::{pen_after, pen_start};

verus! {

/// Whether a single is a finite number.
pub open spec fn is_plain(x: Single) -> bool {
    x.magnitude() < INFINITE
}

/// The place of a single in the order of all that are numbers.
pub open spec fn place(x: Single) -> int {
    if x.negative() {
        -(x.magnitude() as int)
    } else {
        x.magnitude() as int
    }
}

/// Singles stand in the order of their values.
proof fn lemma_places(a: Single, b: Single)
    ensures
        a.value() <= b.value() <==> place(a) <= place(b),
        a.value() >= 0 <==> place(a) >= 0,
        a.value() <= 0 <==> place(a) <= 0,
{
    let (m, n) = (a.magnitude(), b.magnitude());
    lemma2_to64();
    lemma2_to64_rest();
    assert(units(WIDTH as nat, 0) == 0);
    if m < n {
        lemma_units_increase(WIDTH as nat, m, n);
    }
    if n < m {
        lemma_units_increase(WIDTH as nat, n, m);
    }
    if m > 0 {
        lemma_units_increase(WIDTH as nat, 0, m);
    }
    if n > 0 {
        lemma_units_increase(WIDTH as nat, 0, n);
    }
}

/// Rounding to single precision keeps order.
pub proof fn lemma_nearest_in_order(x: Number, y: Number)
    requires
        x.is_finite(),
        y.is_finite(),
        !x.negative(),
        x.le(y),
    ensures
        0 <= place(Single::nearest(x)) <= place(Single::nearest(y)) <= INFINITE,
{
    reveal(Single::spec_nearest);
    lemma_format();
    lemma_pow2_pos(DEEPER as nat);
    let p = pow2(DEEPER as nat);
    let (v, w) = (worth(x.magnitude()), worth(y.magnitude()));
    if x.magnitude() < y.magnitude() {
        lemma_units_increase(number::WIDTH as nat, x.magnitude(), y.magnitude());
    }
    assert(v <= w);
    assert(v * p <= w * p) by (nonlinear_arith)
        requires
            v <= w,
    ;
    lemma_rounding_keeps_order(WIDTH as nat, v, p, w, p);
    if y.negative() {
        lemma_rounding_of_nothing(WIDTH as nat, INFINITE as nat, p);
    }
}

/// A sum lies on the same side of every finite single as the exact sum does.
proof fn lemma_single_sum(a: Single, b: Single, u: Single)
    requires
        is_plain(a),
        is_plain(b),
        is_plain(u),
    ensures
        a.plus(b).magnitude() <= INFINITE,
        a.value() + b.value() <= u.value() ==> place(a.plus(b)) <= place(u),
        a.value() + b.value() >= u.value() ==> place(u) <= place(a.plus(b)),
{
    reveal(Single::spec_plus);
    let exact = a.value() + b.value();
    let m = singly_rounded(size(exact), 1);
    lemma_places(u, u);
    if exact != 0 {
        lemma_mul_basics(units(WIDTH as nat, u.magnitude()) as int);
        assert(units(WIDTH as nat, 1) == 1) by {
            lemma_pow2_pos(WIDTH as nat);
            lemma_pow2_unfold(WIDTH as nat);
        }
        lemma_mul_basics(1);
        lemma_rounding_at_least(WIDTH as nat, size(exact), 1, 1);
        if size(exact) <= u.extent() {
            lemma_rounding_at_most(WIDTH as nat, size(exact), 1, u.magnitude());
        }
        if size(exact) >= u.extent() {
            lemma_rounding_at_least(WIDTH as nat, size(exact), 1, u.magnitude());
        }
        assert(0 < m <= INFINITE);
    }
}

/// Whether a channel lies on the way from one value toward another.
pub open spec fn leads_toward(a: Single, b: Single, c: Single) -> bool {
    &&& place(a) <= place(b) ==> place(a) <= place(c)
    &&& place(b) <= place(a) ==> place(c) <= place(a)
}

/// A blended channel leads from the first value toward the second, and has not
/// left the first where the part is nothing.
proof fn lemma_blend(a: Single, b: Single, t: Single)
    requires
        is_plain(a),
        is_plain(b),
        is_plain(t),
        place(t) >= 0,
        is_plain(b.minus(a)),
        is_plain(b.minus(a).times(t)),
    ensures
        leads_toward(a, b, blended_channel(a, b, t)),
        t.magnitude() == 0 ==> place(blended_channel(a, b, t)) == place(a),
{
    let d = b.minus(a);
    let x = d.times(t);
    let nothing = Single { bits: 0 };
    lemma_places(a, b);
    lemma_places(b, a);
    lemma_single_sum(b, a.negated(), nothing);
    assert(a.negated().value() == -a.value());
    assert(nothing.value() == 0) by {
        lemma2_to64();
        lemma2_to64_rest();
    }
    lemma_places(d, nothing);
    lemma_places(x, nothing);
    assert((place(d) >= 0 ==> place(x) >= 0) && (place(d) <= 0 ==> place(x) <= 0) && (t.magnitude()
        == 0 ==> place(x) == 0)) by {
        reveal(Single::spec_times);
        lemma_pow2_pos(DEPTH as nat);
        lemma_mul_basics(d.extent() as int);
        lemma_mul_basics(t.extent() as int);
        lemma_rounding_of_nothing(WIDTH as nat, INFINITE as nat, pow2(DEPTH as nat));
        lemma2_to64();
        lemma2_to64_rest();
        assert(d.magnitude() == 0 ==> d.extent() == 0);
        assert(t.magnitude() == 0 ==> t.extent() == 0);
    }
    lemma_single_sum(a, x, a);
}

/// Whether a colour can be blended: no channel is beyond the finite numbers.
pub open spec fn is_blendable(a: Rgba, b: Rgba, t: Single) -> bool {
    &&& is_plain(t) && place(t) >= 0
    &&& can_blend(a.r, b.r, t) && can_blend(a.g, b.g, t)
    &&& can_blend(a.b, b.b, t) && can_blend(a.a, b.a, t)
}

/// Whether two channels and what lies between them are finite.
pub open spec fn can_blend(a: Single, b: Single, t: Single) -> bool {
    &&& is_plain(a) && is_plain(b)
    &&& is_plain(b.minus(a)) && is_plain(b.minus(a).times(t))
}

/// A blend leads from its first colour toward its second in every channel, and
/// is the first colour where the part is nothing.
pub proof fn a_blend_leads_from_one_colour_to_the_other(a: Rgba, b: Rgba, t: Single)
    requires
        is_blendable(a, b, t),
    ensures
        ({
            let c = blended(a, b, t);
            &&& leads_toward(a.r, b.r, c.r) && leads_toward(a.g, b.g, c.g)
            &&& leads_toward(a.b, b.b, c.b) && leads_toward(a.a, b.a, c.a)
            &&& t.magnitude() == 0 ==> {
                &&& place(c.r) == place(a.r) && place(c.g) == place(a.g)
                &&& place(c.b) == place(a.b) && place(c.a) == place(a.a)
            }
        }),
{
    lemma_blend(a.r, b.r, t);
    lemma_blend(a.g, b.g, t);
    lemma_blend(a.b, b.b, t);
    lemma_blend(a.a, b.a, t);
}

/// A part of a whole, held between nothing and one, grows with the value and is
/// one for the whole.
proof fn lemma_share(v: Number, w: Number, whole: Number)
    requires
        whole.is_finite(),
        Number::from_bits(ZERO).lt(whole),
        Number::from_bits(ZERO).le(v),
        v.le(w),
    ensures
        ({
            let (zero, one) = (Number::from_bits(ZERO), Number::from_bits(ONE));
            let (s, t) = (v.over(whole).clamp(zero, one), w.over(whole).clamp(zero, one));
            &&& zero.le(s) && s.le(t) && t.le(one)
            &&& whole.le(w) ==> t.same(one)
        }),
{
    let zero = Number::from_bits(ZERO);
    lemma_format();
    lemma_over_keeps_order(zero, v, whole);
    lemma_over_keeps_order(v, w, whole);
    lemma_nothing_over(zero, whole);
    if whole.le(w) {
        lemma_over_keeps_order(whole, w, whole);
        lemma_over_itself(whole);
    }
}

/// A greater count stands no lower on a ramp, and the whole stands at its far
/// end.
pub proof fn a_greater_count_stands_no_lower(c: Number, d: Number, whole: Number)
    requires
        whole.is_finite(),
        Number::from_bits(ZERO).lt(whole),
        Number::from_bits(ZERO).le(c),
        c.le(d),
    ensures
        ramp_position(c, whole).le(ramp_position(d, whole)),
        ramp_position(whole, whole) == Number::from_bits(ONE),
        whole.le(d) ==> ramp_position(d, whole).same(Number::from_bits(ONE)),
{
    lemma_format();
    lemma_share(c, d, whole);
    lemma_over_itself(whole);
}

/// Without a ramp a shade is the mark's own ink: a greater density is drawn no
/// fainter, and the greatest in full.
pub proof fn a_greater_density_is_no_fainter(
    scales: ScaleSet,
    v: Number,
    w: Number,
    max: Number,
)
    requires
        ramp_of(scales) is None,
        max.is_finite(),
        Number::from_bits(ZERO).lt(max),
        Number::from_bits(ZERO).le(v),
        v.le(w),
    ensures
        ({
            let ink = scales.ink.mark_default;
            let (s, t) = (density_colour(scales, v, max), density_colour(scales, w, max));
            let full = density_colour(scales, max, max);
            &&& (s.r, s.g, s.b) == (ink.r, ink.g, ink.b)
            &&& 0 <= place(s.a) <= place(t.a) <= place(full.a)
            &&& full.a == Single::nearest(Number::from_bits(ONE))
        }),
{
    let (zero, one) = (Number::from_bits(ZERO), Number::from_bits(ONE));
    lemma_format();
    lemma_share(v, w, max);
    lemma_over_itself(max);
    let (s, t) = (v.over(max).clamp(zero, one), w.over(max).clamp(zero, one));
    lemma_nearest_of_parts(s, t);
    lemma_nearest_of_parts(t, one);
}

/// Parts of a whole are rounded in order, whatever the sign of nothing.
proof fn lemma_nearest_of_parts(s: Number, t: Number)
    requires
        Number::from_bits(ZERO).le(s),
        s.le(t),
        t.le(Number::from_bits(ONE)),
    ensures
        0 <= place(Single::nearest(s)) <= place(Single::nearest(t)),
{
    lemma_format();
    if s.negative() {
        let zero = Number::from_bits(ZERO);
        lemma_nearest_in_order(zero, t);
        assert(place(Single::nearest(s)) == 0) by {
            reveal(Single::spec_nearest);
            lemma_pow2_pos(DEEPER as nat);
            lemma_rounding_of_nothing(WIDTH as nat, INFINITE as nat, pow2(DEEPER as nat));
        }
    } else {
        lemma_nearest_in_order(s, t);
    }
}

/// Without a ramp a greater count is drawn no fainter.
pub proof fn a_greater_count_is_no_fainter(scales: ScaleSet, c: Number, d: Number, most: Number)
    requires
        ramp_of(scales) is None,
        most.is_finite(),
        Number::from_bits(ZERO).lt(most),
        Number::from_bits(ZERO).le(c),
        c.le(d),
    ensures
        ({
            let ink = scales.ink.mark_default;
            let (s, t) = (count_colour(scales, c, most), count_colour(scales, d, most));
            let full = count_colour(scales, most, most);
            &&& (s.r, s.g, s.b) == (ink.r, ink.g, ink.b)
            &&& 0 < place(s.a) <= place(t.a) <= place(full.a)
            &&& full.a == Single::nearest(Number::from_bits(ONE))
        }),
{
    let least = Number::from_bits(RASTER_MIN_T);
    lemma_format();
    lemma_share(c, d, most);
    a_greater_count_stands_no_lower(c, d, most);
    let (s, t) = (ramp_position(c, most), ramp_position(d, most));
    lemma_nearest_of_parts(s, t);
    lemma_nearest_of_parts(t, Number::from_bits(ONE));
    lemma_nearest_of_parts(least, s);
    lemma_least_shade();
}

/// The least place on a ramp is seen.
proof fn lemma_least_shade()
    ensures
        place(Single::nearest(Number::from_bits(RASTER_MIN_T))) > 0,
{
    let least = Number::from_bits(RASTER_MIN_T);
    reveal(Single::spec_nearest);
    lemma_format();
    lemma_pow2_pos(DEEPER as nat);
    lemma2_to64();
    lemma2_to64_rest();
    let p = pow2(DEEPER as nat);
    lemma_mul_basics(p as int);
    assert(units(WIDTH as nat, 1) == 1);
    lemma_worth_of_least();
    lemma_rounding_at_least(WIDTH as nat, worth(least.magnitude()), p, 1);
}

/// The least place on a ramp is far above the smallest single.
proof fn lemma_worth_of_least()
    ensures
        worth(Number::from_bits(RASTER_MIN_T).magnitude()) >= pow2(DEEPER as nat),
{
    let least = Number::from_bits(RASTER_MIN_T);
    lemma_format();
    lemma_worth_of_power(874);
    lemma_units_increase(
        number::WIDTH as nat,
        (874 * number::FRACTIONS) as nat,
        least.magnitude(),
    );
}

/// In a density grid a denser cell is drawn no fainter, and is drawn wherever a
/// less dense one is.
pub proof fn a_denser_cell_is_no_fainter(
    grid: GridModel,
    x: ScaleModel,
    y: ScaleModel,
    ink: Rgba,
    j: int,
    k: int,
)
    requires
        grid.max_density.is_finite(),
        Number::from_bits(ZERO).lt(grid.max_density),
        Number::from_bits(ZERO).le(grid.at(j)),
        grid.at(j).le(grid.at(k)),
        grid.at(k).le(grid.max_density),
        dot_of_cell(grid, x, y, ink, j).len() == 1,
    ensures
        dot_of_cell(grid, x, y, ink, k).len() == 1,
        dot_of_cell(grid, x, y, ink, j)[0] matches Op::Fill(c, _) && (dot_of_cell(
            grid,
            x,
            y,
            ink,
            k,
        )[0] matches Op::Fill(d, _) && {
            &&& (c.r, c.g, c.b) == (ink.r, ink.g, ink.b)
            &&& (d.r, d.g, d.b) == (ink.r, ink.g, ink.b)
            &&& 0 <= place(c.a) <= place(d.a)
        }),
{
    let (zero, one) = (Number::from_bits(ZERO), Number::from_bits(ONE));
    let max = grid.max_density;
    lemma_format();
    lemma_over_keeps_order(zero, grid.at(j), max);
    lemma_over_keeps_order(grid.at(j), grid.at(k), max);
    lemma_over_keeps_order(grid.at(k), max, max);
    lemma_nothing_over(zero, max);
    lemma_over_itself(max);
    lemma_nearest_of_parts(grid.at(j).over(max), grid.at(k).over(max));
}

/// A byte of a colour is its part of 255: none is nothing, all is one, and more
/// is no less.
pub proof fn a_byte_is_its_part_of_the_whole(a: u8, b: u8)
    requires
        a <= b,
    ensures
        0 <= place(Single::of_byte(a)) <= place(Single::of_byte(b)) <= place(Single::of_byte(255)),
        Single::of_byte(0) == Single::from_bits(0),
        Single::of_byte(255) == Single::from_bits(OPAQUE),
{
    reveal(Single::spec_of_byte);
    let p = pow2(DEPTH as nat);
    lemma_pow2_pos(DEPTH as nat);
    assert(a * p * 255 <= b * p * 255 && b * p * 255 <= 255 * p * 255) by (nonlinear_arith)
        requires
            a <= b <= 255,
            p > 0,
    ;
    lemma_rounding_keeps_order(WIDTH as nat, (a * p) as nat, 255, (b * p) as nat, 255);
    lemma_rounding_keeps_order(WIDTH as nat, (b * p) as nat, 255, (255 * p) as nat, 255);
    assert(0 * p == 0);
    lemma_rounding_of_nothing(WIDTH as nat, INFINITE as nat, 255);
    // One is the magnitude of the exponent 127.
    lemma2_to64();
    lemma2_to64_rest();
    lemma_units_of_parts(WIDTH as nat, 126, 0x80_0000);
    lemma_pow2_adds(23, 126);
    assert(units(WIDTH as nat, OPAQUE as nat) == p);
    lemma_rounding_at_least(WIDTH as nat, (255 * p) as nat, 255, OPAQUE as nat);
    lemma_rounding_at_most(WIDTH as nat, (255 * p) as nat, 255, OPAQUE as nat);
}

/// Whether a single is a part of a whole: from nothing to one.
pub open spec fn is_share(t: Single) -> bool {
    0 <= place(t) <= OPAQUE
}

/// A part of an alpha is no more than the alpha.
proof fn lemma_share_of_alpha(a: Single, t: Single)
    requires
        is_plain(a),
        !a.negative(),
        is_share(t),
        !t.negative(),
    ensures
        0 <= place(a.times(t)) <= place(a),
        is_plain(a.times(t)),
        !a.times(t).negative(),
{
    reveal(Single::spec_times);
    let p = pow2(DEPTH as nat);
    let (x, y) = (a.extent(), t.extent());
    lemma_pow2_pos(DEPTH as nat);
    lemma2_to64();
    lemma2_to64_rest();
    lemma_units_of_parts(WIDTH as nat, 126, 0x80_0000);
    lemma_pow2_adds(23, 126);
    assert(units(WIDTH as nat, OPAQUE as nat) == p);
    if t.magnitude() < OPAQUE {
        lemma_units_increase(WIDTH as nat, t.magnitude(), OPAQUE as nat);
    }
    assert(x * y <= x * p) by (nonlinear_arith)
        requires
            y <= p,
    ;
    lemma_rounding_at_most(WIDTH as nat, (x * y) as nat, p, a.magnitude());
}

/// A dimmed colour is no less transparent than the colour: a style's opacities
/// are parts, and one that says nothing dims by itself. Its hue is the colour's
/// or the style's own.
pub proof fn a_dimmed_colour_is_no_stronger(colour: Rgba, style: HighlightStyle)
    requires
        is_plain(colour.a),
        !colour.a.negative(),
        style.opacity matches Some(x) ==> is_share(Single::nearest(x)) && !Single::nearest(
            x,
        ).negative(),
        style.fill_opacity matches Some(x) ==> is_share(Single::nearest(x)) && !Single::nearest(
            x,
        ).negative(),
    ensures
        ({
            let d = deemphasised(colour, style);
            let hue = match style.fill {
                Some(f) => f,
                None => colour,
            };
            &&& (d.r, d.g, d.b) == (hue.r, hue.g, hue.b)
            &&& 0 <= place(d.a) <= place(colour.a)
            &&& style.opacity is None && style.fill_opacity is None && style.fill is Some ==> d.a
                == colour.a
        }),
{
    let once = match style.opacity {
        Some(op) => colour.a.times(Single::nearest(op)),
        None => colour.a,
    };
    if let Some(op) = style.opacity {
        lemma_share_of_alpha(colour.a, Single::nearest(op));
    }
    if let Some(fo) = style.fill_opacity {
        lemma_share_of_alpha(once, Single::nearest(fo));
    } else {
        lemma_share_of_alpha(once, Single::from_bits(DEFAULT_DIMMED_ALPHA));
    }
}

/// The colour of an area is its mark's own, and no stronger.
pub proof fn an_area_is_no_stronger_than_its_mark(colour: Rgba)
    requires
        is_plain(colour.a),
        !colour.a.negative(),
    ensures
        ({
            let s = softened(colour);
            &&& (s.r, s.g, s.b) == (colour.r, colour.g, colour.b)
            &&& 0 <= place(s.a) <= place(colour.a)
        }),
{
    lemma_share_of_alpha(colour.a, Single::from_bits(AREA_FILL_ALPHA));
}

/// What the selection did not account for is drawn in the mark's own hue, and no
/// stronger.
pub proof fn a_remainder_is_no_stronger(colour: Rgba, row: int)
    requires
        is_plain(colour.a),
        !colour.a.negative(),
    ensures
        ({
            let d = remainder(colour, row, None);
            &&& (d.r, d.g, d.b) == (colour.r, colour.g, colour.b)
            &&& 0 <= place(d.a) <= place(colour.a)
        }),
{
    a_dimmed_colour_is_no_stronger(colour, plain_style());
}

/// Rounding to single precision turns with the sign.
proof fn lemma_nearest_turns(x: Number)
    requires
        x.is_finite(),
    ensures
        place(Single::nearest(x.negated())) == -place(Single::nearest(x)),
{
    reveal(Single::spec_nearest);
    lemma_format();
}

/// A text that is turned starts at its anchor, or half its width before, or all
/// of it: never past the anchor, and the farther back the later the anchor.
pub proof fn a_turned_text_starts_before_its_anchor(width: Number)
    requires
        width.is_finite(),
        !width.negative(),
    ensures
        place(pen_start(TextAnchor::Start, width)) == 0,
        place(pen_start(TextAnchor::Middle, width)) <= 0,
        place(pen_start(TextAnchor::End, width)) <= place(pen_start(TextAnchor::Middle, width)),
{
    let two = Number::from_bits(TWO);
    let half = width.over(two);
    lemma_format();
    lemma_half_keeps_order(width, width);
    lemma_half_keeps_order(width, Number::from_bits(ZERO));
    lemma_over_turns(width.negated(), width, two);
    assert(!half.negative()) by {
        reveal(Number::spec_over);
    }
    lemma_value_of_positive(width);
    lemma_nearest_in_order(half, width);
    lemma_nearest_turns(width);
    lemma_nearest_turns(half);
}

/// A number without a sign is worth nothing or more.
proof fn lemma_value_of_positive(x: Number)
    requires
        x.is_finite(),
        !x.negative(),
    ensures
        x.value() >= 0,
{
}

/// The glyphs of a text stand one behind the other.
pub proof fn glyphs_stand_one_behind_the_other(start: Single, advances: Seq<Single>, n: nat)
    requires
        n < advances.len(),
        is_plain(pen_after(start, advances, n)),
        is_plain(advances[n as int]),
        place(advances[n as int]) >= 0,
    ensures
        place(pen_after(start, advances, n)) <= place(pen_after(start, advances, n + 1)),
        place(advances[n as int]) == 0 ==> place(pen_after(start, advances, n)) == place(
            pen_after(start, advances, n + 1),
        ),
        pen_after(start, advances, 0) == start,
{
    let at = pen_after(start, advances, n);
    let step = advances[n as int];
    lemma_single_sum(at, step, at);
    lemma_places(step, step);
}

} // verus!
