//! Which colours a ramp blends: those of the two stops beside a value.
use vstd::arithmetic::power2::{lemma2_to64, lemma_pow2_adds, lemma_pow2_pos, pow2};
use vstd::prelude::*;

use crate::accuracy::{
    amount, distance, lemma_amount_of_sign, lemma_amounts_in_order, lemma_part, roundoff,
};
use crate::approximation::{
    is_ordinary, lemma_exactly_stands, lemma_ordinary_size, lemma_stands_more, lemma_stands_product,
    lemma_stands_sum, lemma_whole_stands,
};
use crate::bounds::lemma_times_nothing;
use crate::colour::Rgba;
use crate::mirrors::lemma_forward;
use crate::number::{lemma_format, Number};
use crate::numerals::ZERO;
use crate::proportions::is_part;
use crate::scale::{along_ramp, blended};
use crate::shading::{a_blend_leads_from_one_colour_to_the_other, is_blendable, leads_toward};
use crate::single::Single;
use crate::wholes::a_floor_is_the_whole_number_below;

verus! {

/// Whether a colour leads from one toward another in every channel.
pub open spec fn leads_from(a: Rgba, b: Rgba, c: Rgba) -> bool {
    &&& leads_toward(a.r, b.r, c.r) && leads_toward(a.g, b.g, c.g)
    &&& leads_toward(a.b, b.b, c.b) && leads_toward(a.a, b.a, c.a)
}

/// The stops of a ramp are evenly spaced along it, and a value's colour leads
/// from the stop before it toward the stop behind it, by the part of the way
/// between them.
pub proof fn a_ramp_blends_the_stops_beside_a_value(stops: Seq<Rgba>, t: Number) -> (r: (
    int,
    Number,
))
    requires
        2 <= stops.len() <= 1000000,
        is_part(t),
    ensures
        ({
            let (i, past) = r;
            let place = amount(t) * (stops.len() - 1) as real;
            let hair = 1 as real / 1000000 as real;
            let w = Single::nearest(past);
            &&& 0 <= i <= stops.len() - 2
            &&& i as real <= place + hair && place <= i as real + 1 as real + hair
            &&& past.is_finite() && distance(amount(past) - (place - i as real)) <= hair
            &&& is_blendable(stops[i], stops[i + 1], w) ==> leads_from(
                stops[i],
                stops[i + 1],
                along_ramp(stops, t),
            )
        }),
{
    let n = stops.len() - 1;
    let size = n as real + 1 as real;
    let last = Number::spec_from_int(n);
    let scaled = t.times(last);
    let f = amount(t);
    lemma_format();
    lemma_sizes(n);
    assert(distance(f) <= 1 as real) by {
        reveal(distance);
    }
    lemma_exactly_stands(t, 1 as real);
    lemma_whole_stands(n, size);
    assert(1 as real * size == size);
    lemma_stands_product(t, f, 1 as real, 0, last, n as real, size, 2);
    let place = f * n as real;
    lemma_part(size);
    assert(0 as real <= place && place <= n as real) by (nonlinear_arith)
        requires
            place == f * n as real,
            0 as real <= f <= 1 as real,
            n as real >= 0 as real,
    ;
    let e = 10 as real * (roundoff() * size);
    assert(e <= 1 as real / 100000000 as real);
    assert(amount(scaled) >= -e && amount(scaled) <= n as real + e && distance(
        amount(scaled),
    ) <= 2000000 as real) by {
        reveal(distance);
    }
    assert(!scaled.negative() || scaled.magnitude() == 0) by {
        lemma_amounts_in_order(Number::from_bits(ZERO), scaled);
        lemma_amount_of_sign(Number::from_bits(ZERO));
        lemma_product_of_parts(t, last);
    }
    lemma_amounts_in_order(Number::from_bits(ZERO), scaled);
    lemma_amount_of_sign(Number::from_bits(ZERO));
    let m = a_floor_is_the_whole_number_below(scaled);
    assert(m >= 0);
    let i: int = if m < stops.len() - 2 {
        m
    } else {
        stops.len() - 2
    };
    let past = scaled.minus(Number::spec_from_int(i));
    lemma_whole_stands(i, size);
    lemma_stands_more(scaled, place, size, 10, size, 10);
    lemma_stands_more(Number::spec_from_int(i), i as real, size, 2, size, 10);
    lemma_stands_sum(scaled, place, size, Number::spec_from_int(i), i as real, size, 10);
    lemma_part(size + size);
    assert(distance(amount(past) - (place - i as real)) <= 18 as real * (roundoff() * (size
        + size)));
    let w = Single::nearest(past);
    if is_blendable(stops[i], stops[i + 1], w) {
        a_blend_leads_from_one_colour_to_the_other(stops[i], stops[i + 1], w);
    }
    assert(scaled.floor().to_usize() == m);
    assert(along_ramp(stops, t) == blended(stops[i], stops[i + 1], w));
    reveal(distance);
    let hair = 1 as real / 1000000 as real;
    assert(i as real <= place + hair);
    assert(place <= i as real + 1 as real + hair);
    assert(distance(amount(past) - (place - i as real)) <= hair);
    (i, past)
}

/// A product of what is not negative is not negative.
proof fn lemma_product_of_parts(t: Number, last: Number)
    requires
        t.is_finite(),
        amount(t) >= 0 as real,
        last.is_finite(),
        !last.negative(),
    ensures
        !t.times(last).negative() || t.times(last).magnitude() == 0,
{
    let zero = Number::from_bits(ZERO);
    lemma_format();
    lemma_amounts_in_order(zero, t);
    lemma_amount_of_sign(zero);
    if t.negative() {
        lemma_times_nothing(last, t);
    } else {
        lemma_forward(t, last);
    }
}

/// The sizes of a ramp's places are ordinary.
proof fn lemma_sizes(n: int)
    requires
        0 <= n <= 1000000,
    ensures
        is_ordinary(1 as real),
        is_ordinary(n as real + 1 as real),
        is_ordinary(2 as real * (n as real + 1 as real)),
{
    lemma2_to64();
    lemma_pow2_adds(30, 369);
    lemma_pow2_pos(369);
    assert(pow2(399) >= 1073741824) by (nonlinear_arith)
        requires
            pow2(399) == pow2(30) * pow2(369),
            pow2(30) == 1073741824,
            pow2(369) >= 1,
    ;
    lemma_ordinary_size(1 as real);
    lemma_ordinary_size(n as real + 1 as real);
    lemma_ordinary_size(2 as real * (n as real + 1 as real));
}

} // verus!
