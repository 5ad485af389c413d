//! What a band scale is for: it divides its range into equal parts.
use vstd::arithmetic::power2::{lemma2_to64, lemma_pow2_adds, lemma_pow2_pos, pow2};
use vstd::prelude::*;

use crate::accuracy::{amount, distance, lemma_distances};
use crate::approximation::{
    is_about, is_ordinary, lemma_about, lemma_exactly_stands, lemma_ordinary_size,
    lemma_stands_half, lemma_stands_more, lemma_stands_product, lemma_stands_quotient,
    lemma_stands_sum, lemma_whole_stands, stands_for,
};
use crate::categories::{index_in, lemma_index_in};
use crate::fits::within;
use crate::number::Number;
use crate::numerals::{ONE, TWO};
use crate::residual::lemma_one;
use crate::scale::ScaleModel;

verus! {

impl ScaleModel {
    /// Whether a band scale has moderate ends, a padding that is a part of the
    /// whole, and at least one category.
    pub open spec fn is_banded(self) -> bool {
        match self {
            ScaleModel::Band { categories, range_start, range_end, padding } => {
                &&& within(range_start, 200)
                &&& within(range_end, 200)
                &&& padding.is_finite() && 0 as real <= amount(padding) <= 1 as real
                &&& 0 < categories.len() <= 1000000000
            },
            _ => false,
        }
    }

    /// The size of a range's ends, in pixels.
    pub open spec fn reach_of_range(self) -> real {
        distance(amount(self.range_start())) + distance(amount(self.range_end())) + 1 as real
    }

    /// The exact width of one of `n` equal parts of the range.
    pub open spec fn part_of_range(self, n: int) -> real {
        (amount(self.range_end()) - amount(self.range_start())) / n as real
    }
}

/// Whether a pixel is the middle of a category's band: of the part of the range
/// that is its own, the parts being equal and in the order of the categories.
pub open spec fn is_middle(scale: ScaleModel, category: Seq<char>, pixel: Number) -> bool {
    match scale {
        ScaleModel::Band { categories, range_start, .. } => exists|i: int|
            {
                &&& 0 <= i < categories.len()
                &&& #[trigger] categories[i] == category
                &&& forall|j: int| 0 <= j < i ==> categories[j] != category
                &&& scale.is_banded() ==> is_about(
                    pixel,
                    amount(range_start) + scale.part_of_range(categories.len() as int) * (i as real
                        + 1 as real / 2 as real),
                    8 as real * scale.reach_of_range(),
                )
            },
        _ => false,
    }
}

/// A band scale puts a category in the middle of its own part of the range, the
/// parts being equal; and the width of a band is such a part without its
/// padding.
pub proof fn a_band_is_one_of_equal_parts(scale: ScaleModel, category: Seq<char>)
    requires
        scale is Band,
    ensures
        scale.map_category(category) is Some <==> scale->Band_categories.contains(category),
        scale.map_category(category) matches Some(centre) ==> is_middle(scale, category, centre),
        scale.is_banded() ==> (scale.band_width() matches Some(width) && is_about(
            width,
            scale.part_of_range(scale->Band_categories.len() as int) * (1 as real - amount(
                scale->Band_padding,
            )),
            8 as real * scale.reach_of_range(),
        )),
{
    let categories = scale->Band_categories;
    lemma_index_in(categories, category);
    if let Some(i) = index_in(categories, category) {
        assert(categories[i as int] == category);
        if scale.is_banded() {
            lemma_middle(scale, i as int);
        }
        assert(categories.contains(category));
    }
    if scale.is_banded() {
        lemma_middle(scale, 0);
    }
}

/// The size of a range that is moderate is ordinary, and so are its parts.
proof fn lemma_sizes(s: real, n: real)
    requires
        1 as real <= s,
        s <= 4 as real * pow2(200) as real,
        1 as real <= n <= 1000000000 as real,
    ensures
        is_ordinary(s),
        is_ordinary(2 as real * s),
        is_ordinary(4 as real * s),
        is_ordinary(8 as real * s),
        is_ordinary(2 as real * s / n),
        is_ordinary(4 as real * s / n),
        is_ordinary(s / n),
        s / n <= s,
        2 as real * s / n * n == 2 as real * s,
        2 as real * s / n / 2 as real == s / n,
        4 as real * s / n / 2 as real == 2 as real * s / n,
        2 as real * s / n * 2 as real == 4 as real * s / n,
{
    lemma_pow2_adds(200, 199);
    lemma_pow2_adds(9, 190);
    lemma_pow2_pos(190);
    lemma2_to64();
    let (a, b) = (pow2(200) as real, pow2(199) as real);
    assert(pow2(199) >= 512) by (nonlinear_arith)
        requires
            pow2(199) == pow2(9) * pow2(190),
            pow2(9) == 512,
            pow2(190) >= 1,
    ;
    assert(pow2(399) as real == a * b) by (nonlinear_arith)
        requires
            pow2(399) == pow2(200) * pow2(199),
            a == pow2(200) as real,
            b == pow2(199) as real,
    ;
    assert(8 as real * s <= a * b) by (nonlinear_arith)
        requires
            s <= 4 as real * a,
            b >= 512 as real,
            a >= 0 as real,
    ;
    let k = s / n;
    assert(k * n == s && k <= s && k >= 1 as real / 1000000000 as real && 2 as real * s / n == 2
        as real * k && 4 as real * s / n == 4 as real * k) by (nonlinear_arith)
        requires
            k == s / n,
            1 as real <= n <= 1000000000 as real,
            s >= 1 as real,
    ;
    assert(2 as real * s / n * n == 2 as real * s) by (nonlinear_arith)
        requires
            2 as real * s / n == 2 as real * k,
            k * n == s,
    ;
    lemma_ordinary_size(s);
    lemma_ordinary_size(2 as real * s);
    lemma_ordinary_size(4 as real * s);
    lemma_ordinary_size(8 as real * s);
    lemma_ordinary_size(k);
    lemma_ordinary_size(2 as real * k);
    lemma_ordinary_size(4 as real * k);
}

proof fn lemma_middle(scale: ScaleModel, i: int)
    requires
        scale.is_banded(),
        0 <= i < scale->Band_categories.len(),
    ensures
        ({
            let n = scale->Band_categories.len() as int;
            let start = scale->Band_range_start;
            let padding = scale->Band_padding;
            let two = Number::from_bits(TWO);
            let band = scale->Band_range_end.minus(start).over(Number::spec_from_int(n));
            let open = band.times(Number::from_bits(ONE).minus(padding));
            &&& is_about(
                start.plus(band.times(padding).over(two)).plus(
                    band.times(Number::spec_from_int(i)),
                ).plus(open.over(two)),
                amount(start) + scale.part_of_range(n) * (i as real + 1 as real / 2 as real),
                8 as real * scale.reach_of_range(),
            )
            &&& is_about(
                open,
                scale.part_of_range(n) * (1 as real - amount(padding)),
                8 as real * scale.reach_of_range(),
            )
        }),
{
    let n = scale->Band_categories.len() as int;
    let (start, end, padding) = (
        scale->Band_range_start,
        scale->Band_range_end,
        scale->Band_padding,
    );
    let two = Number::from_bits(TWO);
    let one = Number::from_bits(ONE);
    let (a, b, p) = (amount(start), amount(end), amount(padding));
    let (rn, ri) = (n as real, i as real);
    let s = scale.reach_of_range();
    lemma_distances(a, b);
    lemma_distances(b, a);
    lemma_pow2_pos(200);
    lemma_sizes(s, rn);
    lemma_sizes(1 as real, 1 as real);
    lemma_sizes(2 as real, 1 as real);
    lemma_pow2_adds(30, 170);
    lemma_pow2_pos(170);
    lemma2_to64();
    assert(pow2(200) >= 1073741824) by (nonlinear_arith)
        requires
            pow2(200) == pow2(30) * pow2(170),
            pow2(30) == 1073741824,
            pow2(170) >= 1,
    ;
    lemma_sizes(rn, 1 as real);
    // The width of one part.
    lemma_exactly_stands(start, s);
    lemma_exactly_stands(end, s);
    lemma_stands_sum(end, b, s, start, a, s, 0);
    let way = end.minus(start);
    let count = Number::spec_from_int(n);
    lemma_whole_stands(n, rn);
    assert(distance(rn) == rn && distance(p) == p && distance(1 as real) == 1 as real) by {
        reveal(distance);
    }
    assert(s + s == 2 as real * s);
    lemma_stands_quotient(way, b - a, 2 as real * s, 8, count, rn, 2);
    let band = way.over(count);
    let w = (b - a) / rn;
    let k = 2 as real * s / rn;
    assert(stands_for(band, w, k, 22));
    // The padding before it.
    lemma_exactly_stands(padding, 1 as real);
    assert(k * 1 as real == k);
    lemma_stands_product(band, w, k, 22, padding, p, 1 as real, 0);
    let edge = band.times(padding);
    lemma_stands_half(edge, w * p, k, 30);
    let half = edge.over(two);
    lemma_stands_more(half, w * p / 2 as real, s / rn, 42, s, 42);
    lemma_stands_more(start, a, s, 0, s, 42);
    lemma_stands_sum(start, a, s, half, w * p / 2 as real, s, 42);
    let first = start.plus(half);
    // The parts before it.
    lemma_whole_stands(i, rn);
    lemma_stands_product(band, w, k, 22, Number::spec_from_int(i), ri, rn, 2);
    let before = band.times(Number::spec_from_int(i));
    assert(stands_for(before, w * ri, 2 as real * s, 32));
    lemma_stands_more(before, w * ri, 2 as real * s, 32, 2 as real * s, 50);
    lemma_stands_sum(
        first,
        a + w * p / 2 as real,
        2 as real * s,
        before,
        w * ri,
        2 as real * s,
        50,
    );
    let second = first.plus(before);
    // The open part.
    lemma_one();
    lemma_exactly_stands(one, 1 as real);
    lemma_stands_sum(one, 1 as real, 1 as real, padding, p, 1 as real, 0);
    let rest = one.minus(padding);
    lemma_stands_product(band, w, k, 22, rest, 1 as real - p, 2 as real, 8);
    let open = band.times(rest);
    let o = w * (1 as real - p);
    assert(stands_for(open, o, 4 as real * s / rn, 38));
    lemma_stands_half(open, o, 4 as real * s / rn, 38);
    let tail = open.over(two);
    assert(2 as real * s / rn <= 4 as real * s && 4 as real * s / rn <= 8 as real * s);
    lemma_stands_more(tail, o / 2 as real, 2 as real * s / rn, 50, 4 as real * s, 58);
    lemma_stands_sum(
        second,
        a + w * p / 2 as real + w * ri,
        4 as real * s,
        tail,
        o / 2 as real,
        4 as real * s,
        58,
    );
    let value = a + w * p / 2 as real + w * ri + o / 2 as real;
    assert(value == a + w * (ri + 1 as real / 2 as real)) by (nonlinear_arith)
        requires
            value == a + w * p / 2 as real + w * ri + o / 2 as real,
            o == w * (1 as real - p),
    ;
    lemma_about(second.plus(tail), value, 8 as real * s, 66);
    lemma_stands_more(open, o, 4 as real * s / rn, 38, 8 as real * s, 38);
    lemma_about(open, o, 8 as real * s, 38);
}

} // verus!
