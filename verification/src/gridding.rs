//! Where the cells of a grid stand: so many steps from its first, across and up.
use vstd::arithmetic::div_mod::lemma_fundamental_div_mod_converse;
use vstd::arithmetic::power2::{
    lemma2_to64, lemma2_to64_rest, lemma_pow2_adds, lemma_pow2_pos, pow2,
};
use vstd::prelude::*;

use crate::accuracy::{
    amount, distance, least, lemma_amount_of_sign, lemma_amount_of_whole, lemma_amounts_in_order,
    lemma_close, lemma_distances, lemma_least_is_small, lemma_minus_accuracy, lemma_over_accuracy,
    lemma_part, roundoff,
};
use crate::approximation::{
    is_about, is_ordinary, lemma_about, lemma_exactly_stands, lemma_ordinary_size,
    lemma_stands_half, lemma_stands_more, lemma_stands_product, lemma_stands_sum, stands_for,
};
use crate::drawing::Point;
use crate::fits::{beyond, lemma_quotient_fits, lemma_sum_fits, within};
use crate::hexgrid::centre_at;
use crate::kde::{bin_place, dense, samples_of, whole_count, Bin, HistogramModel};
use crate::number::{lemma_format, lemma_from_int_is_finite, Number};
use crate::numerals::{TWO, ZERO};
use crate::wholes::{a_rounded_number_is_the_nearest_whole_one, is_whole};

verus! {

/// A whole number stands for itself.
proof fn lemma_any_whole_stands(n: int, size: real)
    requires
        -0x1_0000_0000_0000_0000 <= n <= 0x1_0000_0000_0000_0000,
        is_ordinary(size),
        distance(n as real) <= size,
    ensures
        stands_for(Number::spec_from_int(n), n as real, size, 2),
{
    let x = amount(Number::spec_from_int(n));
    let u = roundoff();
    lemma_from_int_is_finite(n);
    lemma_amount_of_whole(n);
    lemma_close(x, n as real, 0 as real);
    lemma_distances(n as real, x);
    let d = distance(n as real);
    assert(2 as real * (u * d) <= 2 as real * (u * size)) by (nonlinear_arith)
        requires
            d <= size,
            u > 0 as real,
    ;
}

/// The size of a place so many steps from a base.
pub open spec fn reach_of(base: Number, step: Number, n: int) -> real {
    (distance(n as real) + 1 as real) * (distance(amount(step)) + 1 as real) + distance(
        amount(base),
    )
}

/// The size of such a place is ordinary.
proof fn lemma_reach(base: Number, step: Number, n: int)
    requires
        within(base, 200),
        within(step, 200),
        -1000000000 <= n <= 1000000000,
    ensures
        ({
            let s = reach_of(base, step, n);
            let (c, d) = (distance(n as real) + 1 as real, distance(amount(step)) + 1 as real);
            &&& is_ordinary(c) && is_ordinary(d) && is_ordinary(c * d)
            &&& is_ordinary(s) && is_ordinary(2 as real * s) && is_ordinary(4 as real * s)
            &&& distance(amount(base)) <= s && distance(amount(step)) <= s
            &&& c * d <= s && s >= 1 as real
        }),
{
    let (c, d) = (distance(n as real) + 1 as real, distance(amount(step)) + 1 as real);
    let s = reach_of(base, step, n);
    lemma_distances(amount(step), amount(base));
    lemma_distances(n as real, amount(base));
    assert(c <= 1000000001 as real) by {
        reveal(distance);
    }
    lemma2_to64();
    lemma_pow2_pos(200);
    lemma_pow2_pos(160);
    lemma_pow2_adds(200, 39);
    lemma_pow2_adds(239, 160);
    assert(pow2(39) == 549755813888) by {
        lemma2_to64_rest();
    }
    let p = pow2(200) as real;
    assert(c * d <= 1000000001 as real * (p + 1 as real) && c * d >= d && c * d >= c)
        by (nonlinear_arith)
        requires
            1 as real <= c,
            c <= 1000000001 as real,
            1 as real <= d,
            d <= p + 1 as real,
    ;
    assert(pow2(399) as real >= 549755813888 as real * p) by (nonlinear_arith)
        requires
            pow2(399) == pow2(239) * pow2(160),
            pow2(239) == pow2(200) * pow2(39),
            pow2(39) == 549755813888,
            pow2(160) >= 1,
            p == pow2(200) as real,
            p >= 1 as real,
    ;
    lemma_ordinary_size(c);
    lemma_ordinary_size(d);
    lemma_ordinary_size(c * d);
    lemma_ordinary_size(s);
    lemma_ordinary_size(2 as real * s);
    lemma_ordinary_size(4 as real * s);
}

/// So many steps from a base.
proof fn lemma_steps_from(base: Number, step: Number, n: int)
    requires
        within(base, 200),
        within(step, 200),
        -1000000000 <= n <= 1000000000,
    ensures
        ({
            let s = reach_of(base, step, n);
            let place = base.plus(Number::spec_from_int(n).times(step));
            &&& stands_for(place, amount(base) + n as real * amount(step), 2 as real * s, 18)
            &&& stands_for(
                Number::spec_from_int(n).times(step),
                n as real * amount(step),
                s,
                10,
            )
        }),
{
    let s = reach_of(base, step, n);
    let (c, d) = (distance(n as real) + 1 as real, distance(amount(step)) + 1 as real);
    let x = Number::spec_from_int(n);
    lemma_reach(base, step, n);
    lemma_any_whole_stands(n, c);
    lemma_exactly_stands(step, d);
    lemma_stands_product(x, n as real, c, 2, step, amount(step), d, 0);
    let way = n as real * amount(step);
    lemma_stands_more(x.times(step), way, c * d, 10, s, 10);
    lemma_exactly_stands(base, s);
    lemma_stands_more(base, amount(base), s, 0, s, 10);
    lemma_stands_sum(base, amount(base), s, x.times(step), way, s, 10);
}

/// A whole number of steps.
pub proof fn lemma_whole_steps(x: Number, step: Number, n: int)
    requires
        within(step, 200),
        -1000000000 <= n <= 1000000000,
        is_whole(x, n) || x == Number::spec_from_int(n),
    ensures
        is_about(
            x.times(step),
            n as real * amount(step),
            2 as real * reach_of(Number::from_bits(ZERO), step, n),
        ),
{
    let zero = Number::from_bits(ZERO);
    let s = reach_of(zero, step, n);
    let (c, d) = (distance(n as real) + 1 as real, distance(amount(step)) + 1 as real);
    lemma_format();
    lemma_amount_of_sign(zero);
    lemma_pow2_pos(200);
    assert(distance(0 as real) == 0 as real) by {
        reveal(distance);
    }
    lemma_reach(zero, step, n);
    if x == Number::spec_from_int(n) {
        lemma_any_whole_stands(n, c);
    } else {
        lemma_exactly_stands(x, c);
        lemma_stands_more(x, n as real, c, 0, c, 2);
    }
    lemma_exactly_stands(step, d);
    lemma_stands_product(x, n as real, c, 2, step, amount(step), d, 0);
    let way = n as real * amount(step);
    lemma_stands_more(x.times(step), way, c * d, 10, 2 as real * s, 10);
    lemma_about(x.times(step), way, 2 as real * s, 10);
}

/// The centres of a lattice stand a step apart, from the first of them on.
pub proof fn centres_stand_a_step_apart(centres: Seq<Number>, step: Number, i: int)
    requires
        centres.len() > 0,
        within(centres[0], 200),
        within(step, 200),
        0 <= i < dense(centres, step).len(),
        i <= 1000000000,
    ensures
        is_about(
            dense(centres, step)[i],
            amount(centres[0]) + i as real * amount(step),
            2 as real * reach_of(centres[0], step, i),
        ),
{
    lemma_steps_from(centres[0], step, i);
    lemma_about(
        dense(centres, step)[i],
        amount(centres[0]) + i as real * amount(step),
        2 as real * reach_of(centres[0], step, i),
        18,
    );
}

/// The centres of a mesh stand in rows: a step apart across, half a step to the
/// right in every second row, and the rows a step apart.
pub proof fn a_mesh_stands_in_shifted_rows(
    low_x: Number,
    low_y: Number,
    dx: Number,
    dy: Number,
    j: int,
    i: int,
)
    requires
        within(low_x, 200),
        within(low_y, 200),
        within(dx, 200),
        within(dy, 200),
        0 <= i <= 1000000000,
        0 <= j <= 1000000000,
    ensures
        ({
            let c = centre_at(low_x, low_y, dx, dy, j, i);
            let shift = if j % 2 == 0 {
                amount(dx) / 2 as real
            } else {
                0 as real
            };
            &&& is_about(
                c.x,
                amount(low_x) + shift + (i - 1) as real * amount(dx),
                4 as real * reach_of(low_x, dx, i - 1),
            )
            &&& is_about(
                c.y,
                amount(low_y) + (j - 1) as real * amount(dy),
                2 as real * reach_of(low_y, dy, j - 1),
            )
        }),
{
    let c = centre_at(low_x, low_y, dx, dy, j, i);
    lemma_steps_from(low_y, dy, j - 1);
    lemma_about(
        c.y,
        amount(low_y) + (j - 1) as real * amount(dy),
        2 as real * reach_of(low_y, dy, j - 1),
        18,
    );
    let s = reach_of(low_x, dx, i - 1);
    let n = i - 1;
    lemma_steps_from(low_x, dx, n);
    lemma_reach(low_x, dx, n);
    lemma_format();
    let odd = (j - 1) % 2 == 1;
    let offset = if odd {
        dx.over(Number::from_bits(TWO))
    } else {
        Number::from_bits(ZERO)
    };
    let shift = if odd {
        amount(dx) / 2 as real
    } else {
        0 as real
    };
    lemma_exactly_stands(dx, 2 as real * s);
    lemma_stands_half(dx, amount(dx), 2 as real * s, 0);
    lemma_amount_of_sign(Number::from_bits(ZERO));
    assert(distance(0 as real) == 0 as real) by {
        reveal(distance);
    }
    lemma_exactly_stands(Number::from_bits(ZERO), s);
    lemma_stands_more(Number::from_bits(ZERO), 0 as real, s, 0, s, 12);
    assert(2 as real * s / 2 as real == s);
    assert(stands_for(offset, shift, s, 12));
    lemma_exactly_stands(low_x, s);
    lemma_stands_more(low_x, amount(low_x), s, 0, s, 12);
    lemma_stands_sum(low_x, amount(low_x), s, offset, shift, s, 12);
    let start = low_x.plus(offset);
    let way = n as real * amount(dx);
    let steps = Number::spec_from_int(n).times(dx);
    lemma_stands_more(steps, way, s, 10, 2 as real * s, 20);
    lemma_stands_sum(
        start,
        amount(low_x) + shift,
        2 as real * s,
        steps,
        way,
        2 as real * s,
        20,
    );
    lemma_about(c.x, amount(low_x) + shift + way, 4 as real * s, 28);
}

/// Whether a value stands at a step of a lattice: nearer than a quarter of a
/// step.
pub open spec fn is_at_step(value: Number, first: Number, step: Number, n: int) -> bool {
    distance(amount(value) - (amount(first) + n as real * amount(step))) <= amount(step)
        / 4 as real
}

/// The step that a value stands at.
proof fn lemma_step_of(value: Number, first: Number, step: Number, n: int)
    requires
        within(value, 200),
        within(first, 200),
        beyond(step, 800),
        amount(step) > 0 as real,
        0 <= n <= 1000000000,
        is_at_step(value, first, step, n),
    ensures
        value.minus(first).over(step).round().to_u64() == n,
{
    let d = value.minus(first);
    let q = d.over(step);
    let (u, h) = (roundoff(), least());
    let (exact, s, c) = (amount(value) - amount(first), amount(step), n as real);
    lemma_sum_fits(value, first, 200);
    lemma_quotient_fits(d, step, 201, 800);
    lemma_minus_accuracy(value, first);
    lemma_over_accuracy(d, step);
    lemma_least_is_small();
    reveal(distance);
    let g = exact / s;
    assert(g * s == exact) by (nonlinear_arith)
        requires
            g == exact / s,
            s > 0 as real,
    ;
    assert(c - 1 as real / 4 as real <= g && g <= c + 1 as real / 4 as real) by (nonlinear_arith)
        requires
            g * s == exact,
            exact - c * s <= s / 4 as real,
            c * s - exact <= s / 4 as real,
            s > 0 as real,
    ;
    let v = amount(d);
    let w = v / s;
    assert(w * s == v) by (nonlinear_arith)
        requires
            w == v / s,
            s > 0 as real,
    ;
    lemma_close(v, exact, 0 as real);
    assert(distance(v - exact) <= 2 as real * (u * distance(exact)));
    let e = u * distance(exact);
    assert(e * 9007199254740992 as real == distance(exact)) by {
        lemma_part(distance(exact));
    }
    assert(distance(exact) <= 1000000001 as real * s) by (nonlinear_arith)
        requires
            g * s == exact,
            -1 as real <= g,
            g <= 1000000001 as real,
            s > 0 as real,
            distance(exact) == exact || distance(exact) == -exact,
    ;
    assert(distance(w - g) <= 1 as real / 1000 as real) by (nonlinear_arith)
        requires
            w * s == v,
            g * s == exact,
            v - exact <= 2 as real * e,
            exact - v <= 2 as real * e,
            e * 9007199254740992 as real <= 1000000001 as real * s,
            s > 0 as real,
            distance(w - g) == w - g || distance(w - g) == g - w,
    ;
    lemma_part(distance(amount(q)));
    assert(distance(amount(q) - w) <= u * distance(amount(q)) + h);
    assert(distance(amount(q)) <= 2000000000 as real);
    assert(distance(amount(q) - c) < 1 as real / 2 as real);
    let k = a_rounded_number_is_the_nearest_whole_one(q);
    assert(k == n);
}

/// A bin stands in the cell whose column is its steps across and whose row is
/// its steps up, the cells counted row by row.
pub proof fn a_bin_stands_in_its_cell(
    bin: Bin,
    x0: Number,
    y0: Number,
    dx: Number,
    dy: Number,
    cols: int,
    rows: int,
    col: int,
    row: int,
)
    requires
        within(bin.x, 200),
        within(bin.y, 200),
        within(x0, 200),
        within(y0, 200),
        beyond(dx, 800),
        beyond(dy, 800),
        amount(dx) > 0 as real,
        amount(dy) > 0 as real,
        0 <= col < cols <= usize::MAX,
        0 <= row < rows <= usize::MAX,
        col <= 1000000000,
        row <= 1000000000,
        is_at_step(bin.x, x0, dx, col),
        is_at_step(bin.y, y0, dy, row),
    ensures
        bin_place(bin, x0, y0, dx, dy, cols, rows) == Some(row * cols + col),
{
    lemma_step_of(bin.x, x0, dx, col);
    lemma_step_of(bin.y, y0, dy, row);
}

/// A count is the nearest whole number, and none where there is less than none.
pub proof fn a_count_is_the_nearest_whole_number(c: Number)
    requires
        c.is_finite(),
        amount(c) <= 4000000000 as real,
    ensures
        amount(c) <= 0 as real ==> whole_count(c) == 0,
        amount(c) >= 0 as real ==> distance(whole_count(c) as real - amount(c)) <= 1 as real
            / 2 as real,
{
    let zero = Number::from_bits(ZERO);
    lemma_format();
    lemma_amount_of_sign(zero);
    lemma_amounts_in_order(c, zero);
    reveal(distance);
    let x = c.max(zero);
    let n = a_rounded_number_is_the_nearest_whole_one(x);
}

/// The points that a histogram stands for: as many at the centre of a cell as
/// the cell counts, one cell after the other, row by row.
pub proof fn a_histogram_stands_for_its_points(
    h: HistogramModel,
    row: int,
    col: int,
    n: nat,
) -> (from: int)
    requires
        0 <= row,
        0 <= col < h.x_centres.len(),
        row * h.x_centres.len() + col < n,
    ensures
        ({
            let k = row * h.x_centres.len() + col;
            let all = samples_of(h, n);
            &&& 0 <= from && from + h.bins[k] <= all.len()
            &&& forall|i: int|
                from <= i < from + h.bins[k] ==> #[trigger] all[i] == (Point {
                    x: h.x_centres[col],
                    y: h.y_centres[row],
                })
        }),
    decreases n,
{
    let cols = h.x_centres.len() as int;
    let k = row * cols + col;
    let before = samples_of(h, (n - 1) as nat);
    lemma_fundamental_div_mod_converse(k, cols, row, col);
    if k == n - 1 {
        before.len() as int
    } else {
        let from = a_histogram_stands_for_its_points(h, row, col, (n - 1) as nat);
        assert forall|i: int| from <= i < from + h.bins[k] implies #[trigger] samples_of(h, n)[i]
            == (Point { x: h.x_centres[col], y: h.y_centres[row] }) by {
            assert(before[i] == (Point { x: h.x_centres[col], y: h.y_centres[row] }));
        }
        from
    }
}

} // verus!
