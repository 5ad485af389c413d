//! Binned densities: the grid that density, heatmap and contour marks share.
//!
//! A density query gives one row per occupied bin. The dense histogram is put
//! together here; the smoothing itself is computed elsewhere, and its result
//! is taken as given.
use vstd::prelude::*;
use vstd::arithmetic::div_mod::lemma_fundamental_div_mod;

use crate::batch::{cell_of, number_of, Batch};
use crate::drawing::Point;
use crate::folds::{highest_from, present};
use crate::highlight::numbers_view;
use crate::lattice::{
    add_centre, bin_step, centres_of, distinct, pitch, sorted_numbers,
};
use crate::number::Number;
use crate::numerals::ZERO;

verus! {

/// The reserved column that holds the count of each occupied bin.
pub const DENSITY_COUNT_COL: &'static str = "__bf_count";

/// An occupied bin.
#[derive(Debug, Clone, Copy, PartialEq, Eq, Structural)]
pub struct Bin {
    pub x: Number,
    pub y: Number,
    pub count: u32,
}

/// A count as a whole number: never negative, rounded, at most the largest
/// 32-bit number.
pub open spec fn whole_count(c: Number) -> u32 {
    let n = c.max(Number::from_bits(ZERO)).round().to_u64();
    if n > u32::MAX {
        u32::MAX
    } else {
        n as u32
    }
}

fn count_of(c: Number) -> (r: u32)
    ensures
        r == whole_count(c),
{
    let n: u64 = c.max(Number::from_bits(ZERO)).round().to_u64();
    if n > 0xffff_ffff {
        u32::MAX
    } else {
        n as u32
    }
}

/// The bin of a row that has both centres and a count.
pub open spec fn row_bin(batch: Batch, x_col: Seq<char>, y_col: Seq<char>, row: int) -> Option<Bin> {
    match (
        cell_of(batch.numbers(x_col), row),
        cell_of(batch.numbers(y_col), row),
        cell_of(batch.numbers(DENSITY_COUNT_COL@), row),
    ) {
        (Some(x), Some(y), Some(c)) => Some(Bin { x, y, count: whole_count(c) }),
        _ => None,
    }
}

/// The occupied bins of a batch.
pub open spec fn occupied(batch: Batch, x_col: Seq<char>, y_col: Seq<char>) -> Seq<Bin> {
    present(Seq::new(batch.rows as nat, |row: int| row_bin(batch, x_col, y_col, row)))
}

/// The occupied bins of a batch, and their centres on each axis in ascending
/// order.
struct Occupied {
    bins: Vec<Bin>,
    x: Vec<Number>,
    y: Vec<Number>,
}

fn read_bins(batch: &Batch, x_col: &str, y_col: &str) -> (r: Occupied)
    ensures
        ({
            let bins = occupied(*batch, x_col@, y_col@);
            &&& r.bins@ == bins
            &&& r.x@ == centres_of(bins.map_values(|b: Bin| b.x))
            &&& r.y@ == centres_of(bins.map_values(|b: Bin| b.y))
        }),
{
    let xs = batch.column_as_f64(x_col);
    let ys = batch.column_as_f64(y_col);
    let counts = batch.column_as_f64(DENSITY_COUNT_COL);
    let ghost all = Seq::new(
        batch.rows as nat,
        |row: int| row_bin(*batch, x_col@, y_col@, row),
    );
    let mut bins: Vec<Bin> = Vec::new();
    let mut x: Vec<Number> = Vec::new();
    let mut y: Vec<Number> = Vec::new();
    let mut row: usize = 0;
    proof {
        assert(all.take(0) =~= Seq::<Option<Bin>>::empty());
        assert(bins@.map_values(|b: Bin| b.x) =~= Seq::<Number>::empty());
        assert(bins@.map_values(|b: Bin| b.y) =~= Seq::<Number>::empty());
    }
    while row < batch.rows
        invariant
            row <= batch.rows,
            numbers_view(xs) == batch.numbers(x_col@),
            numbers_view(ys) == batch.numbers(y_col@),
            numbers_view(counts) == batch.numbers(DENSITY_COUNT_COL@),
            all == Seq::new(
                batch.rows as nat,
                |row: int| row_bin(*batch, x_col@, y_col@, row),
            ),
            bins@ == present(all.take(row as int)),
            x@ == distinct(bins@.map_values(|b: Bin| b.x)),
            y@ == distinct(bins@.map_values(|b: Bin| b.y)),
        decreases batch.rows - row,
    {
        assert(all.take(row + 1).drop_last() =~= all.take(row as int));
        if let (Some(xv), Some(yv), Some(c)) = (
            number_of(&xs, row),
            number_of(&ys, row),
            number_of(&counts, row),
        ) {
            let bin = Bin { x: xv, y: yv, count: count_of(c) };
            let ghost before = bins@;
            bins.push(bin);
            add_centre(&mut x, xv);
            add_centre(&mut y, yv);
            proof {
                assert(bins@.map_values(|b: Bin| b.x).drop_last() =~= before.map_values(
                    |b: Bin| b.x,
                ));
                assert(bins@.map_values(|b: Bin| b.y).drop_last() =~= before.map_values(
                    |b: Bin| b.y,
                ));
            }
        }
        row = row + 1;
    }
    assert(all.take(row as int) =~= all);
    let x = sorted_numbers(&x);
    let y = sorted_numbers(&y);
    Occupied { bins, x, y }
}

/// How many centres a lattice has from `low` to `high` at a pitch.
pub open spec fn lattice_size(low: Number, high: Number, step: Number) -> int {
    high.minus(low).over(step).round().to_usize() + 1
}

/// The centres of a lattice from the first to the last of some, at a pitch,
/// none left out between.
pub open spec fn dense(centres: Seq<Number>, step: Number) -> Seq<Number> {
    Seq::new(
        lattice_size(centres[0], centres.last(), step) as nat,
        |i: int| centres[0].plus(Number::spec_from_int(i).times(step)),
    )
}

fn dense_lattice(centres: &Vec<Number>, step: Number, n: usize) -> (out: Vec<Number>)
    requires
        centres.len() > 0,
        n == lattice_size(centres@[0], centres@.last(), step),
    ensures
        out@ == dense(centres@, step),
{
    let low = centres[0];
    let mut out: Vec<Number> = Vec::new();
    let mut i: usize = 0;
    while i < n
        invariant
            i <= n,
            low == centres@[0],
            n == lattice_size(centres@[0], centres@.last(), step),
            out@ == dense(centres@, step).take(i as int),
        decreases n - i,
    {
        out.push(low.plus(Number::from_usize(i).times(step)));
        i = i + 1;
        assert(out@ =~= dense(centres@, step).take(i as int));
    }
    assert(out@ =~= dense(centres@, step));
    out
}

/// The place of a bin in a lattice of `cols` by `rows`, row by row.
pub open spec fn bin_place(
    bin: Bin,
    x0: Number,
    y0: Number,
    dx: Number,
    dy: Number,
    cols: int,
    rows: int,
) -> Option<int> {
    let cx = bin.x.minus(x0).over(dx).round().to_usize();
    let cy = bin.y.minus(y0).over(dy).round().to_usize();
    if cx < cols && cy < rows {
        Some(cy * cols + cx)
    } else {
        None
    }
}

/// The counts of a lattice after the first `n` bins have been put in place: a
/// later bin of the same place replaces an earlier one, and a place without a
/// bin counts zero.
pub open spec fn counts_after(
    bins: Seq<Bin>,
    x0: Number,
    y0: Number,
    dx: Number,
    dy: Number,
    cols: int,
    rows: int,
    n: nat,
) -> Seq<u32>
    decreases n,
{
    if n == 0 {
        Seq::new((rows * cols) as nat, |i: int| 0u32)
    } else {
        let before = counts_after(bins, x0, y0, dx, dy, cols, rows, (n - 1) as nat);
        match bin_place(bins[n - 1], x0, y0, dx, dy, cols, rows) {
            Some(k) => before.update(k, bins[n - 1].count),
            None => before,
        }
    }
}

/// A dense histogram: the centres of its lattice, its pitches, and the count
/// of each cell, row by row.
#[derive(Debug)]
pub struct Histogram {
    pub x_centres: Vec<Number>,
    pub y_centres: Vec<Number>,
    pub dx: Number,
    pub dy: Number,
    pub bins: Vec<u32>,
}

/// A dense histogram as a mathematical value.
pub struct HistogramModel {
    pub x_centres: Seq<Number>,
    pub y_centres: Seq<Number>,
    pub dx: Number,
    pub dy: Number,
    pub bins: Seq<u32>,
}

impl View for Histogram {
    type V = HistogramModel;

    open spec fn view(&self) -> HistogramModel {
        HistogramModel {
            x_centres: self.x_centres@,
            y_centres: self.y_centres@,
            dx: self.dx,
            dy: self.dy,
            bins: self.bins@,
        }
    }
}

/// The dense histogram of a batch of occupied bins. None without the three
/// columns, with fewer than two centres on an axis, without a positive pitch,
/// or where the lattice has more cells than can be counted.
pub open spec fn histogram_of(batch: Batch, x_col: Seq<char>, y_col: Seq<char>) -> Option<
    HistogramModel,
> {
    let zero = Number::from_bits(ZERO);
    let bins = occupied(batch, x_col, y_col);
    let x = centres_of(bins.map_values(|b: Bin| b.x));
    let y = centres_of(bins.map_values(|b: Bin| b.y));
    if batch.numbers(x_col) is None || batch.numbers(y_col) is None || batch.numbers(
        DENSITY_COUNT_COL@,
    ) is None || x.len() < 2 || y.len() < 2 {
        None
    } else {
        match (pitch(x), pitch(y)) {
            (Some(dx), Some(dy)) => {
                let cols = lattice_size(x[0], x.last(), dx);
                let rows = lattice_size(y[0], y.last(), dy);
                if dx.le(zero) || dy.le(zero) || cols > usize::MAX || rows > usize::MAX || rows
                    * cols > usize::MAX {
                    None
                } else {
                    Some(
                        HistogramModel {
                            x_centres: dense(x, dx),
                            y_centres: dense(y, dy),
                            dx,
                            dy,
                            bins: counts_after(
                                bins,
                                dense(x, dx)[0],
                                dense(y, dy)[0],
                                dx,
                                dy,
                                cols,
                                rows,
                                bins.len(),
                            ),
                        },
                    )
                }
            },
            _ => None,
        }
    }
}

fn whole_size(low: Number, high: Number, step: Number) -> (r: Option<usize>)
    ensures
        match r {
            Some(n) => n == lattice_size(low, high, step) && n > 0,
            None => lattice_size(low, high, step) > usize::MAX,
        },
{
    let n: usize = high.minus(low).over(step).round().to_usize();
    if n < usize::MAX {
        Some(n + 1)
    } else {
        None
    }
}

fn empty_counts(n: usize) -> (out: Vec<u32>)
    ensures
        out@ == Seq::new(n as nat, |i: int| 0u32),
{
    let mut out: Vec<u32> = Vec::new();
    let mut i: usize = 0;
    while i < n
        invariant
            i <= n,
            out@ == Seq::new(i as nat, |i: int| 0u32),
        decreases n - i,
    {
        out.push(0);
        i = i + 1;
        assert(out@ =~= Seq::new(i as nat, |i: int| 0u32));
    }
    out
}

proof fn lemma_place_fits(cx: int, cy: int, cols: int, rows: int)
    requires
        0 <= cx < cols,
        0 <= cy < rows,
    ensures
        0 <= cy * cols + cx < rows * cols,
        0 <= cy * cols <= rows * cols,
{
    assert(0 <= cy * cols && cy * cols + cols <= rows * cols) by (nonlinear_arith)
        requires
            0 <= cy < rows,
            cols > 0,
    ;
}

proof fn lemma_counts_length(
    bins: Seq<Bin>,
    x0: Number,
    y0: Number,
    dx: Number,
    dy: Number,
    cols: int,
    rows: int,
    n: nat,
)
    requires
        rows * cols >= 0,
    ensures
        counts_after(bins, x0, y0, dx, dy, cols, rows, n).len() == rows * cols,
    decreases n,
{
    if n > 0 {
        lemma_counts_length(bins, x0, y0, dx, dy, cols, rows, (n - 1) as nat);
        if let Some(_) = bin_place(bins[n - 1], x0, y0, dx, dy, cols, rows) {
            lemma_place_fits(
                bins[n - 1].x.minus(x0).over(dx).round().to_usize() as int,
                bins[n - 1].y.minus(y0).over(dy).round().to_usize() as int,
                cols,
                rows,
            );
        }
    }
}

fn put_counts(
    bins: &Vec<Bin>,
    x0: Number,
    y0: Number,
    dx: Number,
    dy: Number,
    cols: usize,
    rows: usize,
    cells: usize,
) -> (out: Vec<u32>)
    requires
        cells == rows * cols,
    ensures
        out@ == counts_after(
            bins@,
            x0,
            y0,
            dx,
            dy,
            cols as int,
            rows as int,
            bins@.len(),
        ),
{
    let mut out = empty_counts(cells);
    let mut i: usize = 0;
    while i < bins.len()
        invariant
            i <= bins.len(),
            cells == rows * cols,
            out@ == counts_after(bins@, x0, y0, dx, dy, cols as int, rows as int, i as nat),
        decreases bins.len() - i,
    {
        let bin = bins[i];
        let cx: usize = bin.x.minus(x0).over(dx).round().to_usize();
        let cy: usize = bin.y.minus(y0).over(dy).round().to_usize();
        if cx < cols && cy < rows {
            proof {
                lemma_place_fits(cx as int, cy as int, cols as int, rows as int);
                lemma_counts_length(
                    bins@,
                    x0,
                    y0,
                    dx,
                    dy,
                    cols as int,
                    rows as int,
                    i as nat,
                );
            }
            out.set(cy * cols + cx, bin.count);
        }
        i = i + 1;
    }
    out
}

/// A histogram that may not be there, as a mathematical value.
pub open spec fn histogram_view(h: Option<Histogram>) -> Option<HistogramModel> {
    match h {
        Some(h) => Some(h@),
        None => None,
    }
}

/// Reconstructs the dense histogram from a batch of occupied bins. The lattice
/// runs from the first centre to the last at the recovered pitch, and bins
/// that are not occupied are there with a count of zero.
pub fn histogram(batch: &Batch, x_col: &str, y_col: &str) -> (r: Option<Histogram>)
    ensures
        histogram_view(r) == histogram_of(*batch, x_col@, y_col@),
        r matches Some(h) ==> h.well_formed(),
{
    let zero = Number::from_bits(ZERO);
    if batch.column_as_f64(x_col).is_none() || batch.column_as_f64(y_col).is_none()
        || batch.column_as_f64(DENSITY_COUNT_COL).is_none() {
        return None;
    }
    let found = read_bins(batch, x_col, y_col);
    if found.x.len() < 2 || found.y.len() < 2 {
        return None;
    }
    let (dx, dy) = match (bin_step(&found.x), bin_step(&found.y)) {
        (Some(dx), Some(dy)) => (dx, dy),
        _ => {
            return None;
        },
    };
    if dx.le(zero) || dy.le(zero) {
        return None;
    }
    let (cols, rows) = match (
        whole_size(found.x[0], found.x[found.x.len() - 1], dx),
        whole_size(found.y[0], found.y[found.y.len() - 1], dy),
    ) {
        (Some(c), Some(r)) => (c, r),
        _ => {
            return None;
        },
    };
    let cells = match rows.checked_mul(cols) {
        Some(n) => n,
        None => {
            return None;
        },
    };
    let x_centres = dense_lattice(&found.x, dx, cols);
    let y_centres = dense_lattice(&found.y, dy, rows);
    let bins = put_counts(
        &found.bins,
        x_centres[0],
        y_centres[0],
        dx,
        dy,
        cols,
        rows,
        cells,
    );
    proof {
        lemma_counts_length(
            found.bins@,
            x_centres@[0],
            y_centres@[0],
            dx,
            dy,
            cols as int,
            rows as int,
            found.bins@.len(),
        );
    }
    Some(Histogram { x_centres, y_centres, dx, dy, bins })
}

/// One point for each count of the first `n` cells of a histogram, at the
/// cell's centre.
pub open spec fn samples_of(h: HistogramModel, n: nat) -> Seq<Point>
    decreases n,
{
    if n == 0 {
        Seq::empty()
    } else {
        let k = n - 1;
        let cols = h.x_centres.len() as int;
        samples_of(h, k as nat) + Seq::new(
            h.bins[k] as nat,
            |i: int| Point { x: h.x_centres[k % cols], y: h.y_centres[k / cols] },
        )
    }
}

impl Histogram {
    /// Whether there is one count for each cell of the lattice.
    pub open spec fn well_formed(self) -> bool {
        self.bins.len() == self.y_centres.len() * self.x_centres.len()
    }

    /// The counted points, each at the centre of its cell: what a bandwidth is
    /// estimated from.
    pub fn samples(&self) -> (out: Vec<Point>)
        requires
            self.well_formed(),
        ensures
            out@ == samples_of(self@, self.bins@.len()),
    {
        let cols = self.x_centres.len();
        let mut out: Vec<Point> = Vec::new();
        let mut k: usize = 0;
        while k < self.bins.len()
            invariant
                k <= self.bins.len(),
                cols == self.x_centres.len(),
                self.bins.len() == self.y_centres.len() * cols,
                out@ == samples_of(self@, k as nat),
            decreases self.bins.len() - k,
        {
            proof {
                lemma_cell_of(k as int, cols as int, self.y_centres.len() as int);
            }
            let at = Point { x: self.x_centres[k % cols], y: self.y_centres[k / cols] };
            let n = self.bins[k];
            let ghost before = out@;
            let mut i: u32 = 0;
            assert(out@ =~= before + Seq::new(i as nat, |i: int| at));
            while i < n
                invariant
                    i <= n,
                    out@ == before + Seq::new(i as nat, |i: int| at),
                decreases n - i,
            {
                out.push(at);
                i = i + 1;
                assert(out@ =~= before + Seq::new(i as nat, |i: int| at));
            }
            assert(out@ =~= samples_of(self@, (k + 1) as nat));
            k = k + 1;
        }
        out
    }
}

/// A cell of a grid has a row and a column.
pub proof fn lemma_cell_of(k: int, cols: int, rows: int)
    requires
        0 <= k < rows * cols,
        cols >= 0,
        rows >= 0,
    ensures
        cols > 0,
        0 <= k % cols < cols,
        0 <= k / cols < rows,
{
    assert(cols > 0) by (nonlinear_arith)
        requires
            0 <= k < rows * cols,
            cols >= 0,
            rows >= 0,
    ;
    lemma_fundamental_div_mod(k, cols);
    assert(0 <= k / cols < rows) by (nonlinear_arith)
        requires
            k == cols * (k / cols) + k % cols,
            0 <= k % cols < cols,
            0 <= k < rows * cols,
    ;
}

/// What smoothing a histogram gives: the bandwidth on each axis, as estimated
/// from the samples, and the smoothed density of each cell, row by row.
#[derive(Debug)]
pub struct Smoothing {
    pub h_x: Number,
    pub h_y: Number,
    pub density: Vec<Number>,
}

/// A smoothed grid.
#[derive(Debug)]
pub struct KdeGrid {
    /// Dense x bin centres, the columns of the grid.
    pub x_centres: Vec<Number>,
    /// Dense y bin centres, the rows of the grid.
    pub y_centres: Vec<Number>,
    /// Column pitch.
    pub dx: Number,
    /// Row pitch.
    pub dy: Number,
    /// The smoothed density, row by row.
    pub density: Vec<Number>,
    /// The greatest density.
    pub max_density: Number,
}

/// A smoothed grid as a mathematical value.
pub struct GridModel {
    pub x_centres: Seq<Number>,
    pub y_centres: Seq<Number>,
    pub dx: Number,
    pub dy: Number,
    pub density: Seq<Number>,
    pub max_density: Number,
}

impl View for KdeGrid {
    type V = GridModel;

    open spec fn view(&self) -> GridModel {
        GridModel {
            x_centres: self.x_centres@,
            y_centres: self.y_centres@,
            dx: self.dx,
            dy: self.dy,
            density: self.density@,
            max_density: self.max_density,
        }
    }
}

impl GridModel {
    /// The density of a cell; zero where none is given.
    pub open spec fn at(self, k: int) -> Number {
        if 0 <= k < self.density.len() {
            self.density[k]
        } else {
            Number::from_bits(ZERO)
        }
    }
}

impl KdeGrid {
    /// How many rows the grid has.
    pub fn rows(&self) -> (r: usize)
        ensures
            r == self@.y_centres.len(),
    {
        self.y_centres.len()
    }

    /// How many columns the grid has.
    pub fn cols(&self) -> (r: usize)
        ensures
            r == self@.x_centres.len(),
    {
        self.x_centres.len()
    }

    /// How many cells the grid has.
    pub fn cells(&self) -> (r: usize)
        requires
            self@.y_centres.len() * self@.x_centres.len() <= usize::MAX,
        ensures
            r == self@.y_centres.len() * self@.x_centres.len(),
    {
        self.y_centres.len() * self.x_centres.len()
    }

    /// The density of a cell; zero where none is given.
    pub fn at(&self, k: usize) -> (r: Number)
        ensures
            r == self@.at(k as int),
    {
        if k < self.density.len() {
            self.density[k]
        } else {
            Number::from_bits(ZERO)
        }
    }
}

/// The smoothed grid of a batch. An explicit bandwidth stands on both axes in
/// place of the estimated ones. None without a histogram, without positive
/// bandwidths, or where no density is positive.
pub open spec fn kde_grid_of(
    batch: Batch,
    x_col: Seq<char>,
    y_col: Seq<char>,
    bandwidth: Option<Number>,
    smoothing: Smoothing,
) -> Option<GridModel> {
    let zero = Number::from_bits(ZERO);
    let h_x = match bandwidth {
        Some(h) => h,
        None => smoothing.h_x,
    };
    let h_y = match bandwidth {
        Some(h) => h,
        None => smoothing.h_y,
    };
    let max_density = highest_from(zero, smoothing.density@);
    match histogram_of(batch, x_col, y_col) {
        Some(h) => if h_x.le(zero) || h_y.le(zero) || max_density.le(zero) {
            None
        } else {
            Some(
                GridModel {
                    x_centres: h.x_centres,
                    y_centres: h.y_centres,
                    dx: h.dx,
                    dy: h.dy,
                    density: smoothing.density@,
                    max_density,
                },
            )
        },
        None => None,
    }
}

/// The greatest of zero and some numbers, with a copy of them.
fn copied_with_greatest(v: &Vec<Number>) -> (r: (Vec<Number>, Number))
    ensures
        r.0@ == v@,
        r.1 == highest_from(Number::from_bits(ZERO), v@),
{
    let mut out: Vec<Number> = Vec::new();
    let mut max = Number::from_bits(ZERO);
    let mut i: usize = 0;
    while i < v.len()
        invariant
            i <= v.len(),
            out@ == v@.take(i as int),
            max == highest_from(Number::from_bits(ZERO), v@.take(i as int)),
        decreases v.len() - i,
    {
        assert(v@.take(i + 1).drop_last() =~= v@.take(i as int));
        out.push(v[i]);
        if max.lt(v[i]) {
            max = v[i];
        }
        i = i + 1;
        assert(out@ =~= v@.take(i as int));
    }
    assert(v@.take(i as int) =~= v@);
    (out, max)
}

/// A grid that may not be there, as a mathematical value.
pub open spec fn grid_view(g: Option<KdeGrid>) -> Option<GridModel> {
    match g {
        Some(g) => Some(g@),
        None => None,
    }
}

/// Reconstructs the histogram of a batch of occupied bins and lays the given
/// smoothing over it.
pub fn build_kde_grid(
    batch: &Batch,
    x_col: &str,
    y_col: &str,
    bandwidth: Option<Number>,
    smoothing: &Smoothing,
) -> (r: Option<KdeGrid>)
    ensures
        grid_view(r) == kde_grid_of(*batch, x_col@, y_col@, bandwidth, *smoothing),
        r matches Some(g) ==> g@.y_centres.len() * g@.x_centres.len() <= usize::MAX,
{
    let zero = Number::from_bits(ZERO);
    let h = match histogram(batch, x_col, y_col) {
        Some(h) => h,
        None => {
            return None;
        },
    };
    let (h_x, h_y) = match bandwidth {
        Some(b) => (b, b),
        None => (smoothing.h_x, smoothing.h_y),
    };
    if h_x.le(zero) || h_y.le(zero) {
        return None;
    }
    let (density, max_density) = copied_with_greatest(&smoothing.density);
    if max_density.le(zero) {
        return None;
    }
    Some(
        KdeGrid {
            x_centres: h.x_centres,
            y_centres: h.y_centres,
            dx: h.dx,
            dy: h.dy,
            density,
            max_density,
        },
    )
}

/// A cell that no occupied bin falls on counts zero.
pub proof fn an_empty_bin_counts_zero(
    bins: Seq<Bin>,
    x0: Number,
    y0: Number,
    dx: Number,
    dy: Number,
    cols: int,
    rows: int,
    cell: int,
)
    requires
        0 <= cell < rows * cols,
        forall|i: int|
            0 <= i < bins.len() ==> bin_place(#[trigger] bins[i], x0, y0, dx, dy, cols, rows)
                != Some(cell),
    ensures
        counts_after(bins, x0, y0, dx, dy, cols, rows, bins.len())[cell] == 0,
{
    lemma_empty_bin(bins, x0, y0, dx, dy, cols, rows, cell, bins.len());
}

proof fn lemma_empty_bin(
    bins: Seq<Bin>,
    x0: Number,
    y0: Number,
    dx: Number,
    dy: Number,
    cols: int,
    rows: int,
    cell: int,
    n: nat,
)
    requires
        0 <= cell < rows * cols,
        n <= bins.len(),
        forall|i: int|
            0 <= i < bins.len() ==> bin_place(#[trigger] bins[i], x0, y0, dx, dy, cols, rows)
                != Some(cell),
    ensures
        counts_after(bins, x0, y0, dx, dy, cols, rows, n)[cell] == 0,
    decreases n,
{
    if n > 0 {
        lemma_empty_bin(bins, x0, y0, dx, dy, cols, rows, cell, (n - 1) as nat);
        lemma_counts_length(bins, x0, y0, dx, dy, cols, rows, (n - 1) as nat);
        if let Some(k) = bin_place(bins[n - 1], x0, y0, dx, dy, cols, rows) {
            lemma_place_fits(
                bins[n - 1].x.minus(x0).over(dx).round().to_usize() as int,
                bins[n - 1].y.minus(y0).over(dy).round().to_usize() as int,
                cols,
                rows,
            );
            assert(k != cell);
        }
    }
}

/// A cell that an occupied bin falls on, and no later one, counts what the bin
/// counts.
pub proof fn an_occupied_bin_keeps_its_count(
    bins: Seq<Bin>,
    x0: Number,
    y0: Number,
    dx: Number,
    dy: Number,
    cols: int,
    rows: int,
    at: int,
    cell: int,
)
    requires
        0 <= at < bins.len(),
        rows * cols >= 0,
        bin_place(bins[at], x0, y0, dx, dy, cols, rows) == Some(cell),
        forall|i: int|
            at < i < bins.len() ==> bin_place(#[trigger] bins[i], x0, y0, dx, dy, cols, rows)
                != Some(cell),
    ensures
        counts_after(bins, x0, y0, dx, dy, cols, rows, bins.len())[cell] == bins[at].count,
{
    lemma_kept_bin(bins, x0, y0, dx, dy, cols, rows, at, cell, bins.len());
}

proof fn lemma_kept_bin(
    bins: Seq<Bin>,
    x0: Number,
    y0: Number,
    dx: Number,
    dy: Number,
    cols: int,
    rows: int,
    at: int,
    cell: int,
    n: nat,
)
    requires
        0 <= at < n <= bins.len(),
        rows * cols >= 0,
        bin_place(bins[at], x0, y0, dx, dy, cols, rows) == Some(cell),
        forall|i: int|
            at < i < bins.len() ==> bin_place(#[trigger] bins[i], x0, y0, dx, dy, cols, rows)
                != Some(cell),
    ensures
        counts_after(bins, x0, y0, dx, dy, cols, rows, n)[cell] == bins[at].count,
    decreases n,
{
    lemma_counts_length(bins, x0, y0, dx, dy, cols, rows, (n - 1) as nat);
    lemma_place_fits(
        bins[at].x.minus(x0).over(dx).round().to_usize() as int,
        bins[at].y.minus(y0).over(dy).round().to_usize() as int,
        cols,
        rows,
    );
    if at < n - 1 {
        lemma_kept_bin(bins, x0, y0, dx, dy, cols, rows, at, cell, (n - 1) as nat);
        if let Some(k) = bin_place(bins[n - 1], x0, y0, dx, dy, cols, rows) {
            lemma_place_fits(
                bins[n - 1].x.minus(x0).over(dx).round().to_usize() as int,
                bins[n - 1].y.minus(y0).over(dy).round().to_usize() as int,
                cols,
                rows,
            );
            assert(k != cell);
        }
    }
}

} // verus!
