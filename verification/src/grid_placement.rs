//! Where cells are drawn: bins, hexagons and bands about their own centres.
use vstd::arithmetic::div_mod::lemma_fundamental_div_mod_converse;
use vstd::arithmetic::power2::{lemma2_to64, pow2};
use vstd::prelude::*;

use crate::accuracy::{amount, distance, lemma_distances, trip_roundoff};
use crate::approximation::{is_about, lemma_beside, size_of};
use crate::bands::a_band_is_one_of_equal_parts;
use crate::batch::{cell_of, value_at, Batch};
use crate::cell::{around, cell_box};
use crate::colour::Rgba;
use crate::density::dot_of_cell;
use crate::drawing::{polygon, Op, Outline, Point};
use crate::fits::{beyond, lemma_quotient_fits, lemma_sum_fits, lemma_within_more, within};
use crate::fitting::lemma_two;
use crate::hexbin::{hex_ops, hexagon, in_pixels, HexColumns};
use crate::kde::GridModel;
use crate::mark_placement::{lemma_ordered_ends, placed_by, spans};
use crate::number::Number;
use crate::numerals::{TWO, ZERO};
use crate::placement::drawn_at;
use crate::ramp::bin_box;
use crate::raster::{draw_pitch, heat_ops, raster_ops};
use crate::scale::ScaleModel;
use crate::scale_set::ScaleSet;
use crate::standing::{a_polygon_goes_through_its_corners, is_outline, reached};
use crate::straight::a_scale_draws_a_straight_line;

verus! {

/// Whether two pixels, in order, are the ends of a bin of a width about a
/// centre, on one axis.
pub open spec fn is_bin(
    scale: ScaleModel,
    centre: Number,
    width: Number,
    low: Number,
    high: Number,
) -> bool {
    exists|a: Number, b: Number|
        {
            &&& #[trigger] spans(scale, a, b, low, high)
            &&& is_about(
                a,
                amount(centre) - amount(width) / 2 as real,
                2 as real * size_of(centre, width),
            )
            &&& is_about(
                b,
                amount(centre) + amount(width) / 2 as real,
                2 as real * size_of(centre, width),
            )
        } && low.le(high)
}

/// Whether the axes and the bin are moderate, so that the bin has a finite box.
pub open spec fn is_boxable(scale: ScaleModel, centre: Number, width: Number) -> bool {
    &&& scale.regular() && scale.moderate()
    &&& within(centre, 190)
    &&& within(width, 190)
}

/// A bin is drawn about its centre: half its width to either side across, and
/// half its height up and down.
pub proof fn a_bin_is_drawn_about_its_centre(
    x: ScaleModel,
    y: ScaleModel,
    cx: Number,
    cy: Number,
    dx: Number,
    dy: Number,
)
    requires
        is_boxable(x, cx, dx),
        is_boxable(y, cy, dy),
    ensures
        bin_box(x, y, cx, cy, dx, dy) matches Some(r) && is_bin(x, cx, dx, r.x0, r.x1) && is_bin(
            y,
            cy,
            dy,
            r.y0,
            r.y1,
        ),
{
    lemma_bin_ends(x, cx, dx);
    lemma_bin_ends(y, cy, dy);
    let two = Number::from_bits(TWO);
    let r = bin_box(x, y, cx, cy, dx, dy)->0;
    assert(spans(x, cx.minus(dx.over(two)), cx.plus(dx.over(two)), r.x0, r.x1));
    assert(spans(y, cy.minus(dy.over(two)), cy.plus(dy.over(two)), r.y0, r.y1));
}

proof fn lemma_bin_ends(scale: ScaleModel, c: Number, d: Number)
    requires
        is_boxable(scale, c, d),
    ensures
        ({
            let two = Number::from_bits(TWO);
            let (a, b) = (c.minus(d.over(two)), c.plus(d.over(two)));
            let (p, q) = (scale.map_f64(a), scale.map_f64(b));
            &&& p.is_finite() && q.is_finite()
            &&& spans(scale, a, b, p.min(q), p.max(q))
            &&& p.min(q).le(p.max(q))
            &&& is_about(a, amount(c) - amount(d) / 2 as real, 2 as real * size_of(c, d))
            &&& is_about(b, amount(c) + amount(d) / 2 as real, 2 as real * size_of(c, d))
        }),
{
    let two = Number::from_bits(TWO);
    let half = d.over(two);
    let (a, b) = (c.minus(half), c.plus(half));
    lemma_within_more(c, 190, 200);
    lemma_within_more(d, 190, 200);
    lemma_beside(c, d);
    lemma_two_is_far();
    lemma_quotient_fits(d, two, 190, 1);
    lemma_within_more(c, 190, 191);
    lemma_sum_fits(c, half, 191);
    lemma_within_more(a, 192, 200);
    lemma_within_more(b, 192, 200);
    a_scale_draws_a_straight_line(scale, a);
    a_scale_draws_a_straight_line(scale, b);
    lemma_ordered_ends(scale, a, b);
}

proof fn lemma_two_is_far()
    ensures
        beyond(Number::from_bits(TWO), 1),
{
    lemma_two();
    lemma2_to64();
    reveal(distance);
    assert(2 as real * pow2(1) as real >= 1 as real) by (nonlinear_arith)
        requires
            pow2(1) as real == 2 as real,
    ;
}

/// A raster draws every row with a positive count as a bin about its two
/// centres, across by the x column and up by the y column.
pub proof fn a_raster_draws_its_bins(
    scales: ScaleSet,
    x: ScaleModel,
    y: ScaleModel,
    xs: Seq<Option<Number>>,
    ys: Seq<Option<Number>>,
    counts: Seq<Option<Number>>,
    dx: Number,
    dy: Number,
    row: int,
)
    ensures
        ({
            let ops = raster_ops(scales, x, y, xs, ys, counts, dx, dy, row);
            match (value_at(xs, row), value_at(ys, row), value_at(counts, row)) {
                (Some(cx), Some(cy), Some(count)) => {
                    &&& count.le(Number::from_bits(ZERO)) ==> ops.len() == 0
                    &&& Number::from_bits(ZERO).lt(count) && is_boxable(x, cx, dx) && is_boxable(
                        y,
                        cy,
                        dy,
                    ) ==> ops.len() == 1 && (ops[0] matches Op::Fill(_, Outline::Rect(r))
                        && is_bin(x, cx, dx, r.x0, r.x1) && is_bin(y, cy, dy, r.y0, r.y1))
                },
                _ => ops.len() == 0,
            }
        }),
{
    if let (Some(cx), Some(cy), Some(count)) = (
        value_at(xs, row),
        value_at(ys, row),
        value_at(counts, row),
    ) {
        if is_boxable(x, cx, dx) && is_boxable(y, cy, dy) {
            a_bin_is_drawn_about_its_centre(x, y, cx, cy, dx, dy);
        }
    }
}

/// A heatmap draws each cell of its grid about its centre: the column of the
/// cell places it across, and its row up.
pub proof fn a_heatmap_draws_its_cells(
    grid: GridModel,
    scales: ScaleSet,
    x: ScaleModel,
    y: ScaleModel,
    row: int,
    col: int,
)
    requires
        0 <= row < grid.y_centres.len(),
        0 <= col < grid.x_centres.len(),
        is_boxable(x, grid.x_centres[col], draw_pitch(grid.x_centres, grid.dx)),
        is_boxable(y, grid.y_centres[row], draw_pitch(grid.y_centres, grid.dy)),
    ensures
        ({
            let ops = heat_ops(grid, scales, x, y, row * grid.x_centres.len() + col);
            ops.len() == 1 && (ops[0] matches Op::Fill(_, Outline::Rect(r)) && is_bin(
                x,
                grid.x_centres[col],
                draw_pitch(grid.x_centres, grid.dx),
                r.x0,
                r.x1,
            ) && is_bin(
                y,
                grid.y_centres[row],
                draw_pitch(grid.y_centres, grid.dy),
                r.y0,
                r.y1,
            ))
        }),
{
    let cols = grid.x_centres.len() as int;
    lemma_fundamental_div_mod_converse(row * cols + col, cols, row, col);
    a_bin_is_drawn_about_its_centre(
        x,
        y,
        grid.x_centres[col],
        grid.y_centres[row],
        draw_pitch(grid.x_centres, grid.dx),
        draw_pitch(grid.y_centres, grid.dy),
    );
}

/// A density grid draws a dot at the centre of each cell that is not faint.
pub proof fn a_density_grid_draws_its_cells(
    grid: GridModel,
    x: ScaleModel,
    y: ScaleModel,
    ink: Rgba,
    row: int,
    col: int,
)
    requires
        0 <= row < grid.y_centres.len(),
        0 <= col < grid.x_centres.len(),
    ensures
        ({
            let ops = dot_of_cell(grid, x, y, ink, row * grid.x_centres.len() + col);
            &&& ops.len() <= 1
            &&& ops.len() == 1 ==> (ops[0] matches Op::Fill(_, Outline::Circle(c, _)) && drawn_at(
                x,
                y,
                Point { x: grid.x_centres[col], y: grid.y_centres[row] },
                c,
            ))
        }),
{
    let cols = grid.x_centres.len() as int;
    lemma_fundamental_div_mod_converse(row * cols + col, cols, row, col);
    a_scale_draws_a_straight_line(x, grid.x_centres[col]);
    a_scale_draws_a_straight_line(y, grid.y_centres[row]);
}

/// A rectangle about a centre: half its width to either side, and half its
/// height up and down.
pub proof fn a_cell_lies_about_its_middle(cx: Number, cy: Number, w: Number, h: Number)
    requires
        within(cx, 200),
        within(cy, 200),
        within(w, 200),
        within(h, 200),
    ensures
        ({
            let r = around(cx, cy, w, h);
            let (p, q) = (2 as real * size_of(cx, w), 2 as real * size_of(cy, h));
            &&& is_about(r.x0, amount(cx) - amount(w) / 2 as real, p)
            &&& is_about(r.x1, amount(cx) + amount(w) / 2 as real, p)
            &&& is_about(r.y0, amount(cy) - amount(h) / 2 as real, q)
            &&& is_about(r.y1, amount(cy) + amount(h) / 2 as real, q)
        }),
{
    lemma_beside(cx, w);
    lemma_beside(cy, h);
}

/// A cell mark draws a row about the middles of its two categories' bands, as
/// wide and as high as the bands.
pub proof fn a_cell_stands_in_its_bands(
    batch: Batch,
    x: (Seq<char>, ScaleModel),
    y: (Seq<char>, ScaleModel),
    row: int,
)
    ensures
        cell_box(batch, x, y, row) matches Some(r) ==> exists|cx: Number, cy: Number|
            {
                &&& x.1.band_width() is Some && y.1.band_width() is Some
                &&& #[trigger] placed_by(batch, x.0, x.1, row, cx)
                &&& #[trigger] placed_by(batch, y.0, y.1, row, cy)
                &&& r == around(cx, cy, x.1.band_width()->0, y.1.band_width()->0)
            },
{
    if let Some(r) = cell_box(batch, x, y, row) {
        let (a, b) = (
            cell_of(batch.texts(x.0), row)->0,
            cell_of(batch.texts(y.0), row)->0,
        );
        a_band_is_one_of_equal_parts(x.1, a);
        a_band_is_one_of_equal_parts(y.1, b);
        let (cx, cy) = (x.1.map_category(a)->0, y.1.map_category(b)->0);
        assert(placed_by(batch, x.0, x.1, row, cx) && placed_by(batch, y.0, y.1, row, cy));
    }
}

/// Whether a point is off a centre by given ways, up to rounding.
pub open spec fn is_off(
    p: Point,
    cx: Number,
    cy: Number,
    across: real,
    up: real,
    dx: Number,
    dy: Number,
) -> bool {
    &&& is_about(p.x, amount(cx) + across, 2 as real * size_of(cx, dx))
    &&& is_about(p.y, amount(cy) + up, 2 as real * size_of(cy, dy))
}

/// A hexagon stands on a corner: its top is the half-height above its centre
/// and its bottom as far below, and its four other corners are the half-width
/// to either side, half the half-height above and below. The corners go round.
pub proof fn a_hexagon_stands_on_a_corner(cx: Number, cy: Number, dx: Number, dy: Number)
    requires
        within(cx, 200),
        within(cy, 200),
        within(dx, 200),
        within(dy, 200),
    ensures
        ({
            let v = hexagon(cx, cy, dx, dy);
            let (w, h) = (amount(dx), amount(dy));
            let half = h / 2 as real;
            &&& v.len() == 6
            &&& is_off(v[0], cx, cy, 0 as real, h, dx, dy)
            &&& is_off(v[1], cx, cy, w, half, dx, dy)
            &&& is_off(v[2], cx, cy, w, -half, dx, dy)
            &&& is_off(v[3], cx, cy, 0 as real, -h, dx, dy)
            &&& is_off(v[4], cx, cy, -w, -half, dx, dy)
            &&& is_off(v[5], cx, cy, -w, half, dx, dy)
        }),
{
    lemma_beside(cx, dx);
    lemma_beside(cy, dy);
    let s = size_of(cx, dx);
    lemma_distances(amount(cx), amount(dx));
    assert(is_about(cx, amount(cx) + 0 as real, 2 as real * s)) by {
        reveal(distance);
        assert(trip_roundoff() * (2 as real * s) >= 0 as real) by (nonlinear_arith)
            requires
                s >= 0 as real,
                trip_roundoff() == 1 as real / 17592186044416 as real,
        ;
    }
}

/// A hexagon is drawn at its corners: the outline goes through the pixels of
/// all six, in order.
pub proof fn a_hexagon_is_drawn_at_its_corners(
    scales: ScaleSet,
    x: ScaleModel,
    y: ScaleModel,
    columns: HexColumns,
    counted: bool,
    values: Option<Seq<Option<Number>>>,
    row: int,
)
    ensures
        ({
            let ops = hex_ops(scales, x, y, columns, counted, values, row);
            ops.len() > 0 ==> (ops[0] matches Op::Fill(_, Outline::Path(steps)) && is_outline(
                steps,
                6,
            ) && match (
                value_at(columns.x, row),
                value_at(columns.y, row),
                value_at(columns.dx, row),
                value_at(columns.dy, row),
            ) {
                (Some(cx), Some(cy), Some(dx), Some(dy)) => forall|k: int|
                    0 <= k < 6 ==> drawn_at(
                        x,
                        y,
                        hexagon(cx, cy, dx, dy)[k],
                        reached(#[trigger] steps[k]),
                    ),
                _ => false,
            })
        }),
{
    let ops = hex_ops(scales, x, y, columns, counted, values, row);
    if ops.len() > 0 {
        let (cx, cy) = (value_at(columns.x, row)->0, value_at(columns.y, row)->0);
        let (dx, dy) = (value_at(columns.dx, row)->0, value_at(columns.dy, row)->0);
        let v = hexagon(cx, cy, dx, dy);
        let outline = in_pixels(v, x, y);
        a_polygon_goes_through_its_corners(outline);
        let steps = polygon(outline);
        assert forall|k: int| 0 <= k < 6 implies drawn_at(
            x,
            y,
            v[k],
            reached(#[trigger] steps[k]),
        ) by {
            assert(reached(steps[k]) == outline[k]);
            a_scale_draws_a_straight_line(x, v[k].x);
            a_scale_draws_a_straight_line(y, v[k].y);
        }
    }
}

} // verus!
