//! How far lattices reach, and what their cells are read from.
use vstd::arithmetic::div_mod::{lemma_mod_sub_multiples_vanish, lemma_small_mod};
use vstd::arithmetic::power2::{lemma2_to64, lemma2_to64_rest, pow2};
use vstd::prelude::*;

use crate::accuracy::{
    amount, distance, least, lemma_amounts_in_order, lemma_least_is_small, lemma_minus_accuracy,
    lemma_over_accuracy, lemma_part, roundoff,
};
use crate::batch::{cell_of, Batch};
use crate::categories::{index_in, lemma_index_in};
use crate::density::weighted;
use crate::fits::{beyond, lemma_quotient_fits, lemma_sum_fits, within};
use crate::hexgrid::side_count;
use crate::kde::{lattice_size, row_bin, DENSITY_COUNT_COL};
use crate::number::{lemma_format, Number};
use crate::numerals::ZERO;
use crate::scale::ScaleModel;
use crate::wholes::{a_ceiling_is_the_whole_number_above, a_rounded_number_is_the_nearest_whole_one};

verus! {

/// What rounding may add or take: far less than a pixel.
pub open spec fn hair() -> real {
    1 as real / 100000 as real
}

/// How many steps lie between two bounds.
proof fn lemma_steps_between(low: Number, high: Number, step: Number)
    requires
        within(low, 30),
        within(high, 30),
        within(step, 30),
        amount(step) >= 1 as real / 1024 as real,
    ensures
        ({
            let q = high.minus(low).over(step);
            let way = amount(high) - amount(low);
            &&& q.is_finite()
            &&& distance(amount(q)) <= 5000000000000 as real
            &&& amount(q) * amount(step) >= way - hair()
            &&& amount(q) * amount(step) <= way + hair()
        }),
{
    let d = high.minus(low);
    let q = d.over(step);
    let (u, h) = (roundoff(), least());
    let (way, s, v, w) = (amount(high) - amount(low), amount(step), amount(d), amount(q));
    lemma2_to64();
    lemma2_to64_rest();
    assert(pow2(10) == 1024 && pow2(30) == 1073741824 && pow2(31) == 2147483648 && pow2(41)
        == 2199023255552);
    assert(distance(s) == s) by {
        reveal(distance);
    }
    assert(beyond(step, 10));
    lemma_sum_fits(high, low, 30);
    lemma_quotient_fits(d, step, 31, 10);
    lemma_minus_accuracy(high, low);
    lemma_over_accuracy(d, step);
    lemma_least_is_small();
    lemma_part(distance(v));
    lemma_part(distance(w));
    reveal(distance);
    let g = v / s;
    assert(g * s == v) by (nonlinear_arith)
        requires
            g == v / s,
            s > 0 as real,
    ;
    let e = u * distance(w) + h;
    let ws = w * s;
    assert(ws - v <= e * s && v - ws <= e * s) by (nonlinear_arith)
        requires
            ws == w * s,
            g * s == v,
            w - g <= e,
            g - w <= e,
            s > 0 as real,
    ;
    // The error is a tiny part of the product, and the product is moderate.
    let aw = distance(w) * s;
    assert(e * s == u * aw + h * s) by (nonlinear_arith)
        requires
            e == u * distance(w) + h,
            aw == distance(w) * s,
    ;
    assert(aw == ws || aw == -ws) by (nonlinear_arith)
        requires
            aw == distance(w) * s,
            ws == w * s,
            distance(w) == w || distance(w) == -w,
    ;
    assert(aw >= 0 as real) by (nonlinear_arith)
        requires
            aw == distance(w) * s,
            distance(w) >= 0 as real,
            s > 0 as real,
    ;
    assert(h * s <= u) by (nonlinear_arith)
        requires
            h * 324518553658426726783156020576256 as real <= u,
            h > 0 as real,
            s <= 1073741824 as real,
            s > 0 as real,
    ;
    lemma_part(aw);
    assert(aw <= 4294967296 as real);
}

/// A mesh covers its side with a cell to spare: its centres start one step
/// before the side, the last but one is past its end, and no more are needed.
pub proof fn a_mesh_covers_its_side(low: Number, high: Number, step: Number)
    requires
        within(low, 30),
        within(high, 30),
        within(step, 30),
        amount(step) >= 1 as real / 1024 as real,
        amount(low) <= amount(high),
    ensures
        ({
            let count = side_count(low, high, step) as int;
            let way = amount(high) - amount(low);
            &&& count >= 3
            &&& (count - 3) as real * amount(step) >= way - hair()
            &&& (count - 4) as real * amount(step) < way + hair()
        }),
{
    let q = high.minus(low).over(step);
    let (s, w) = (amount(step), amount(q));
    let way = amount(high) - amount(low);
    lemma_steps_between(low, high, step);
    let n = a_ceiling_is_the_whole_number_above(q);
    let r = n as real;
    assert(n >= 0) by {
        assert(w > -1 as real) by (nonlinear_arith)
            requires
                w * s >= -hair(),
                hair() == 1 as real / 100000 as real,
                s >= 1 as real / 1024 as real,
        ;
    }
    reveal(distance);
    assert(r * s >= way - hair() && (r - 1 as real) * s < way + hair()) by (nonlinear_arith)
        requires
            r >= w,
            w > r - 1 as real,
            w * s >= way - hair(),
            w * s <= way + hair(),
            s > 0 as real,
    ;
}

/// A lattice from a first to a last centre reaches the last: its last centre is
/// within half a step of it.
pub proof fn a_lattice_reaches_its_last_centre(first: Number, last: Number, step: Number)
    requires
        within(first, 30),
        within(last, 30),
        within(step, 30),
        amount(step) >= 1 as real / 1024 as real,
        first.le(last),
        lattice_size(first, last, step) <= usize::MAX,
    ensures
        ({
            let size = lattice_size(first, last, step);
            let reach = amount(first) + (size - 1) as real * amount(step);
            distance(reach - amount(last)) <= amount(step) / 2 as real + 2 as real * hair()
        }),
{
    let q = last.minus(first).over(step);
    let (s, w) = (amount(step), amount(q));
    let way = amount(last) - amount(first);
    lemma_amounts_in_order(first, last);
    lemma_steps_between(first, last, step);
    let n = a_rounded_number_is_the_nearest_whole_one(q);
    let r = n as real;
    reveal(distance);
    assert(n >= 0) by {
        assert(w > -(1 as real / 2 as real)) by (nonlinear_arith)
            requires
                w * s >= -hair(),
                hair() == 1 as real / 100000 as real,
                s >= 1 as real / 1024 as real,
        ;
    }
    assert(r * s - way <= s / 2 as real + hair() && way - r * s <= s / 2 as real + hair())
        by (nonlinear_arith)
        requires
            r - w <= 1 as real / 2 as real,
            w - r <= 1 as real / 2 as real,
            w * s >= way - hair(),
            w * s <= way + hair(),
            s > 0 as real,
    ;
    assert(lattice_size(first, last, step) == n + 1);
}

/// A bin is read from its own row: its centre from the two columns of the axes,
/// and its count from the column of counts.
pub proof fn a_bin_is_read_from_its_row(
    batch: Batch,
    x_col: Seq<char>,
    y_col: Seq<char>,
    row: int,
)
    ensures
        row_bin(batch, x_col, y_col, row) is Some <==> cell_of(batch.numbers(x_col), row) is Some
            && cell_of(batch.numbers(y_col), row) is Some && cell_of(
            batch.numbers(DENSITY_COUNT_COL@),
            row,
        ) is Some,
        row_bin(batch, x_col, y_col, row) matches Some(bin) ==> cell_of(batch.numbers(x_col), row)
            == Some(bin.x) && cell_of(batch.numbers(y_col), row) == Some(bin.y),
        weighted(batch, x_col, row) is Some <==> cell_of(batch.numbers(x_col), row) is Some
            && cell_of(batch.numbers(DENSITY_COUNT_COL@), row) is Some,
        weighted(batch, x_col, row) matches Some(p) ==> {
            &&& cell_of(batch.numbers(x_col), row) == Some(p.x)
            &&& cell_of(batch.numbers(DENSITY_COUNT_COL@), row) matches Some(c) && {
                &&& Number::from_bits(ZERO).le(c) ==> p.y.same(c)
                &&& c.le(Number::from_bits(ZERO)) ==> p.y.magnitude() == 0
            }
        },
{
    lemma_format();
}

/// The colours of a palette are taken in turn: the first categories have the
/// colours in order, and categories a whole palette apart have the same one.
pub proof fn a_palette_is_taken_in_turn(scale: ScaleModel, i: int)
    requires
        scale is Colour,
        scale->Colour_categories.no_duplicates(),
        scale->palette.len() > 0,
        0 <= i < scale->Colour_categories.len(),
    ensures
        ({
            let (names, palette) = (scale->Colour_categories, scale->palette);
            &&& i < palette.len() ==> scale.map_colour(names[i]) == Some(palette[i])
            &&& i >= palette.len() ==> scale.map_colour(names[i]) == scale.map_colour(
                names[i - palette.len()],
            )
        }),
{
    let (names, palette) = (scale->Colour_categories, scale->palette);
    let n = palette.len() as int;
    lemma_index_in(names, names[i]);
    assert(index_in(names, names[i]) is Some);
    assert(index_in(names, names[i])->0 == i);
    if i >= n {
        lemma_index_in(names, names[i - n]);
        assert(index_in(names, names[i - n])->0 == i - n);
        lemma_mod_sub_multiples_vanish(i, n);
        assert((i - n) % n == i % n);
        assert(((i - n) as nat) % palette.len() == (i as nat) % palette.len());
    } else {
        lemma_small_mod(i as nat, palette.len());
    }
}

} // verus!
