//! Nearest-point resolution for hover interactions and point selection.
use vstd::prelude::*;

use crate::batch::{cell_of, number_at, value_at, Batch, CellSeq, Cells};
use crate::bounds::lemma_difference_keeps_order;
use crate::channel::{Channel, ChannelMap};
use crate::decimal::{push_decimal, push_signed, signed_decimal};
use crate::drawing::Point;
use crate::number::Number;
use crate::numerals::INFINITY;
use crate::scale::{Scale, ScaleModel};
use crate::scale_set::ScaleSet;
use crate::shortest::{push_shortest, written};
use crate::words::{characters, optional_text, texts};

verus! {

/// Which axes to consider when finding the nearest point.
#[derive(Debug, Clone, Copy, PartialEq, Eq, Structural)]
pub enum NearestMode {
    /// Distance measured along the x-axis only.
    X,
    /// Distance measured along the y-axis only.
    Y,
    /// Euclidean distance in both axes.
    XY,
}

/// Result of a nearest-point search.
#[derive(Debug, Clone, Copy, PartialEq, Eq, Structural)]
pub struct NearestHit {
    /// Row index in the table.
    pub row: usize,
    /// Pixel position of the nearest mark.
    pub point: Point,
    /// Distance from the cursor to the nearest mark, in pixels.
    pub distance: Number,
}

/// Default maximum pixel distance for a hit: 50.
pub const DEFAULT_MAX_DISTANCE: u64 = 0x4049_0000_0000_0000;

/// How far a point is from the cursor.
pub open spec fn distance_to(cursor: Point, p: Point, mode: NearestMode) -> Number {
    let dx = p.x.minus(cursor.x);
    let dy = p.y.minus(cursor.y);
    match mode {
        NearestMode::X => dx.abs(),
        NearestMode::Y => dy.abs(),
        NearestMode::XY => dx.times(dx).plus(dy.times(dy)).sqrt(),
    }
}

fn distance(cursor: Point, p: Point, mode: NearestMode) -> (r: Number)
    ensures
        r == distance_to(cursor, p, mode),
{
    let dx = p.x.minus(cursor.x);
    let dy = p.y.minus(cursor.y);
    match mode {
        NearestMode::X => dx.abs(),
        NearestMode::Y => dy.abs(),
        NearestMode::XY => dx.times(dx).plus(dy.times(dy)).sqrt(),
    }
}

/// Where a row is drawn, where it has both coordinates.
pub open spec fn row_point(
    xs: Seq<Option<Number>>,
    ys: Seq<Option<Number>>,
    x_scale: ScaleModel,
    y_scale: ScaleModel,
    row: int,
) -> Option<Point> {
    match (value_at(xs, row), value_at(ys, row)) {
        (Some(x), Some(y)) => Some(Point { x: x_scale.map_f64(x), y: y_scale.map_f64(y) }),
        _ => None,
    }
}

/// The rows of a table as points on a plot.
pub open spec fn plotted(
    batch: Batch,
    channel_map: ChannelMap,
    scales: ScaleSet,
) -> Option<spec_fn(int) -> Option<Point>> {
    match (
        channel_map.column(Channel::X),
        channel_map.column(Channel::Y),
        scales.at(Channel::X),
        scales.at(Channel::Y),
    ) {
        (Some(x), Some(y), Some(xs), Some(ys)) => match (batch.numbers(x), batch.numbers(y)) {
            (Some(xv), Some(yv)) => Some(|row: int| row_point(xv, yv, xs, ys, row)),
            _ => None,
        },
        _ => None,
    }
}

/// Whether a row is drawn within reach of the cursor.
pub open spec fn in_reach(
    point: spec_fn(int) -> Option<Point>,
    cursor: Point,
    mode: NearestMode,
    max: Number,
    row: int,
) -> bool {
    point(row) matches Some(p) && distance_to(cursor, p, mode).le(max)
}

/// Whether a hit is the nearest of the first `rows` rows: in reach, nearer
/// than every row before it in reach, and no farther than any after it.
pub open spec fn is_nearest(
    point: spec_fn(int) -> Option<Point>,
    cursor: Point,
    mode: NearestMode,
    max: Number,
    rows: int,
    hit: NearestHit,
) -> bool {
    &&& hit.row < rows
    &&& in_reach(point, cursor, mode, max, hit.row as int)
    &&& point(hit.row as int) == Some(hit.point)
    &&& hit.distance == distance_to(cursor, hit.point, mode)
    &&& forall|row: int|
        0 <= row < rows && #[trigger] in_reach(point, cursor, mode, max, row) ==> {
            let d = distance_to(cursor, point(row)->0, mode);
            &&& hit.distance.le(d)
            &&& row < hit.row ==> hit.distance.lt(d)
        }
}

/// How far a hit may be from the cursor.
pub open spec fn reach_of(max_distance: Option<Number>) -> Number {
    match max_distance {
        Some(d) => d,
        None => Number::from_bits(DEFAULT_MAX_DISTANCE),
    }
}

/// Whether none of the first `rows` rows is drawn within reach of the cursor.
pub open spec fn none_in_reach(
    point: spec_fn(int) -> Option<Point>,
    cursor: Point,
    mode: NearestMode,
    max: Number,
    rows: int,
) -> bool {
    forall|row: int|
        0 <= row < rows ==> !#[trigger] in_reach(point, cursor, mode, max, row)
}

/// Find the nearest data point to the cursor.
///
/// Returns the closest row within `max_distance` pixels, the first of equals;
/// `None` if no row is within range or if required channels, columns or scales
/// are missing.
pub fn find_nearest(
    cursor: Point,
    batch: &Batch,
    channel_map: &ChannelMap,
    scales: &ScaleSet,
    mode: NearestMode,
    max_distance: Option<Number>,
) -> (r: Option<NearestHit>)
    ensures
        match plotted(*batch, *channel_map, *scales) {
            None => r is None,
            Some(point) => match r {
                Some(hit) => is_nearest(
                    point,
                    cursor,
                    mode,
                    reach_of(max_distance),
                    batch.rows as int,
                    hit,
                ),
                None => none_in_reach(
                    point,
                    cursor,
                    mode,
                    reach_of(max_distance),
                    batch.rows as int,
                ),
            },
        },
{
    let max = match max_distance {
        Some(d) => d,
        None => Number::from_bits(DEFAULT_MAX_DISTANCE),
    };
    let x_col = match channel_map.get(Channel::X) {
        Some(c) => c,
        None => {
            return None;
        },
    };
    let y_col = match channel_map.get(Channel::Y) {
        Some(c) => c,
        None => {
            return None;
        },
    };
    let x_scale = match scales.get(Channel::X) {
        Some(s) => s,
        None => {
            return None;
        },
    };
    let y_scale = match scales.get(Channel::Y) {
        Some(s) => s,
        None => {
            return None;
        },
    };
    let xs = match batch.column_as_f64(x_col) {
        Some(v) => v,
        None => {
            return None;
        },
    };
    let ys = match batch.column_as_f64(y_col) {
        Some(v) => v,
        None => {
            return None;
        },
    };
    let ghost point = plotted(*batch, *channel_map, *scales)->0;
    let mut best: Option<NearestHit> = None;
    let mut i: usize = 0;
    while i < batch.rows
        invariant
            i <= batch.rows,
            point == (|row: int| row_point(xs@, ys@, x_scale@, y_scale@, row)),
            match best {
                Some(hit) => is_nearest(point, cursor, mode, max, i as int, hit),
                None => none_in_reach(point, cursor, mode, max, i as int),
            },
        decreases batch.rows - i,
    {
        if let (Some(x), Some(y)) = (number_at(&xs, i), number_at(&ys, i)) {
            let p = Point { x: x_scale.map_f64(x), y: y_scale.map_f64(y) };
            let d = distance(cursor, p, mode);
            assert(point(i as int) == Some(p));
            let improves = match best {
                Some(hit) => d.lt(hit.distance),
                None => true,
            };
            if d.le(max) && improves {
                let hit = NearestHit { row: i, point: p, distance: d };
                proof {
                    assert forall|row: int|
                        0 <= row < i + 1 && #[trigger] in_reach(
                            point,
                            cursor,
                            mode,
                            max,
                            row,
                        ) implies ({
                        let e = distance_to(cursor, point(row)->0, mode);
                        &&& d.le(e)
                        &&& row < i ==> d.lt(e)
                    }) by {
                        if row < i {
                            assert(best is Some);
                        }
                    }
                }
                best = Some(hit);
            }
        }
        i = i + 1;
    }
    best
}

/// The numeric value of a single cell, whatever numeric type it is stored in.
/// `None` for a null, an out-of-range row, or a non-numeric column.
pub fn column_value_at(batch: &Batch, col_name: &str, row: usize) -> (r: Option<Number>)
    ensures
        r == cell_of(batch.numbers(col_name@), row as int),
{
    match batch.column_as_f64(col_name) {
        Some(v) => number_at(&v, row),
        None => None,
    }
}

/// Whether a column is a continuous numeric type whose value a point predicate
/// can equate as a bare literal: integers and floats. Timestamps and texts are
/// not, and neither is a missing column.
pub fn is_numeric_point_column(batch: &Batch, col_name: &str) -> (r: bool)
    ensures
        r == match batch.cells(col_name@) {
            Some(c) => c is Float64 || c is Float32 || c is Int || c is UInt,
            None => false,
        },
{
    match batch.column(col_name) {
        Some(Cells::Float64(_)) => true,
        Some(Cells::Float32(_)) => true,
        Some(Cells::Int(_, _)) => true,
        Some(Cells::UInt(_, _)) => true,
        _ => false,
    }
}

/// A resolved point-selection value, with enough type to format a correct SQL
/// literal.
#[derive(Debug, PartialEq, Eq)]
pub enum SelectionValue {
    /// A floating-point value (bare literal).
    Number(Number),
    /// An exact integer value (bare literal).
    Int(i128),
    /// A text (quoted and escaped).
    Text(String),
    /// A timestamp without a time zone, in microseconds.
    Timestamp(i64),
    /// A timestamp with a time zone, in UTC microseconds.
    TimestampTz(i64),
}

/// A text with every quote doubled.
pub open spec fn quotes_doubled(s: Seq<char>) -> Seq<char>
    decreases s.len(),
{
    if s.len() == 0 {
        s
    } else if s.last() == '\'' {
        quotes_doubled(s.drop_last()).push('\'').push('\'')
    } else {
        quotes_doubled(s.drop_last()).push(s.last())
    }
}

/// The SQL literal of a value.
pub open spec fn literal_text(v: SelectionValue) -> Seq<char> {
    match v {
        SelectionValue::Number(n) => written(n),
        SelectionValue::Int(i) => signed_decimal(i as int),
        SelectionValue::Text(s) => seq!['\''] + quotes_doubled(s@) + seq!['\''],
        SelectionValue::Timestamp(us) => "make_timestamp("@ + signed_decimal(us as int) + ")"@,
        SelectionValue::TimestampTz(us) => "make_timestamp("@ + signed_decimal(us as int)
            + ") AT TIME ZONE 'UTC'"@,
    }
}

fn push_escaped(out: &mut String, s: &str)
    ensures
        final(out)@ == old(out)@ + quotes_doubled(s@),
{
    let all = characters(s);
    let mut i: usize = 0;
    assert(s@.take(0) =~= Seq::<char>::empty());
    assert(out@ =~= old(out)@ + quotes_doubled(s@.take(0)));
    while i < all.len()
        invariant
            i <= all.len(),
            all@ == s@,
            out@ == old(out)@ + quotes_doubled(s@.take(i as int)),
        decreases all.len() - i,
    {
        assert(s@.take(i + 1).drop_last() =~= s@.take(i as int));
        if all[i] == '\'' {
            out.push('\'');
        }
        out.push(all[i]);
        i = i + 1;
        assert(out@ =~= old(out)@ + quotes_doubled(s@.take(i as int)));
    }
    assert(s@.take(i as int) =~= s@);
}

impl SelectionValue {
    /// Format as a SQL literal for the right-hand side of `col = <literal>`.
    #[must_use]
    pub fn literal(&self) -> (r: String)
        ensures
            r@ == literal_text(*self),
    {
        let mut out = String::new();
        match self {
            SelectionValue::Number(n) => {
                push_shortest(&mut out, *n);
            },
            SelectionValue::Int(i) => {
                if *i < 0 {
                    out.push('-');
                    push_decimal(&mut out, (-(*i + 1)) as u128 + 1);
                } else {
                    push_decimal(&mut out, *i as u128);
                }
            },
            SelectionValue::Text(s) => {
                out.push('\'');
                push_escaped(&mut out, s.as_str());
                out.push('\'');
            },
            SelectionValue::Timestamp(us) => {
                out.append("make_timestamp(");
                push_signed(&mut out, *us);
                out.append(")");
            },
            SelectionValue::TimestampTz(us) => {
                out.append("make_timestamp(");
                push_signed(&mut out, *us);
                out.append(") AT TIME ZONE 'UTC'");
            },
        }
        assert(out@ =~= literal_text(*self));
        out
    }
}

/// A selection value as a mathematical value: kind and content.
pub enum SelectionModel {
    Number(Number),
    Int(int),
    Text(Seq<char>),
    Timestamp(i64),
    TimestampTz(i64),
}

impl View for SelectionValue {
    type V = SelectionModel;

    open spec fn view(&self) -> SelectionModel {
        match *self {
            SelectionValue::Number(n) => SelectionModel::Number(n),
            SelectionValue::Int(i) => SelectionModel::Int(i as int),
            SelectionValue::Text(s) => SelectionModel::Text(s@),
            SelectionValue::Timestamp(us) => SelectionModel::Timestamp(us),
            SelectionValue::TimestampTz(us) => SelectionModel::TimestampTz(us),
        }
    }
}

/// A finite number as a selection value.
pub open spec fn finite_value(n: Number) -> Option<SelectionModel> {
    if n.is_finite() {
        Some(SelectionModel::Number(n))
    } else {
        None
    }
}

/// A cell's own value with its type, where it has one that can stand in a
/// predicate.
pub open spec fn typed_cell(cells: CellSeq, row: int) -> Option<SelectionModel> {
    match cells {
        CellSeq::Float64(v) => match value_at(v, row) {
            Some(x) => finite_value(x),
            None => None,
        },
        CellSeq::Float32(v) => match value_at(v, row) {
            Some(x) => finite_value(x.widened()),
            None => None,
        },
        CellSeq::Int(_, v) => match value_at(v, row) {
            Some(x) => Some(SelectionModel::Int(x as int)),
            None => None,
        },
        CellSeq::UInt(_, v) => match value_at(v, row) {
            Some(x) => Some(SelectionModel::Int(x as int)),
            None => None,
        },
        CellSeq::Utf8(v) => match value_at(v, row) {
            Some(t) => Some(SelectionModel::Text(t)),
            None => None,
        },
        CellSeq::LargeUtf8(v) => match value_at(v, row) {
            Some(t) => Some(SelectionModel::Text(t)),
            None => None,
        },
        CellSeq::Timestamp(zoned, v) => match value_at(v, row) {
            Some(us) => if zoned {
                Some(SelectionModel::TimestampTz(us))
            } else {
                Some(SelectionModel::Timestamp(us))
            },
            None => None,
        },
        _ => None,
    }
}

fn finite(n: Number) -> (r: Option<SelectionValue>)
    ensures
        selection_view(r) == finite_value(n),
{
    if n.is_finite() {
        Some(SelectionValue::Number(n))
    } else {
        None
    }
}

/// A selection value that may not be there, as a mathematical value.
pub open spec fn selection_view(v: Option<SelectionValue>) -> Option<SelectionModel> {
    match v {
        Some(x) => Some(x@),
        None => None,
    }
}

/// Read a datum's exact stored value, preserving its type so that a
/// `col = value` predicate is well formed for the column.
///
/// `None` for a null, an out-of-range row, an unsupported column type, or a
/// float that is not finite.
pub fn column_typed_value_at(batch: &Batch, col_name: &str, row: usize) -> (r: Option<
    SelectionValue,
>)
    ensures
        selection_view(r) == match batch.cells(col_name@) {
            Some(cells) => typed_cell(cells, row as int),
            None => None,
        },
{
    match batch.column(col_name) {
        Some(Cells::Float64(v)) => {
            if row < v.len() {
                match v[row] {
                    Some(x) => finite(x),
                    None => None,
                }
            } else {
                None
            }
        },
        Some(Cells::Float32(v)) => {
            if row < v.len() {
                match v[row] {
                    Some(x) => finite(x.widened()),
                    None => None,
                }
            } else {
                None
            }
        },
        Some(Cells::Int(_, v)) => {
            if row < v.len() {
                match v[row] {
                    Some(x) => Some(SelectionValue::Int(x as i128)),
                    None => None,
                }
            } else {
                None
            }
        },
        Some(Cells::UInt(_, v)) => {
            if row < v.len() {
                match v[row] {
                    Some(x) => Some(SelectionValue::Int(x as i128)),
                    None => None,
                }
            } else {
                None
            }
        },
        Some(Cells::Utf8(v)) => typed_text(v, row),
        Some(Cells::LargeUtf8(v)) => typed_text(v, row),
        Some(Cells::Timestamp(zoned, v)) => {
            if row < v.len() {
                match v[row] {
                    Some(us) => {
                        if *zoned {
                            Some(SelectionValue::TimestampTz(us))
                        } else {
                            Some(SelectionValue::Timestamp(us))
                        }
                    },
                    None => None,
                }
            } else {
                None
            }
        },
        _ => None,
    }
}

fn typed_text(v: &Vec<Option<String>>, row: usize) -> (r: Option<SelectionValue>)
    ensures
        selection_view(r) == match value_at(crate::words::optional_texts(v@), row as int) {
            Some(t) => Some(SelectionModel::Text(t)),
            None => None,
        },
{
    if row < v.len() {
        match &v[row] {
            Some(t) => Some(SelectionValue::Text(t.clone())),
            None => None,
        }
    } else {
        None
    }
}

/// How far the centre of each category's band is from a pixel.
pub open spec fn band_distance(scale: ScaleModel, category: Seq<char>, pixel: Number) -> Number {
    let centre = match scale.map_category(category) {
        Some(c) => c,
        None => Number::from_bits(INFINITY),
    };
    centre.minus(pixel).abs()
}

/// Which of the first `n` categories is closest to a pixel, the first of
/// equals.
pub open spec fn closest(
    scale: ScaleModel,
    categories: Seq<Seq<char>>,
    pixel: Number,
    n: nat,
) -> nat
    decreases n,
{
    if n <= 1 {
        0
    } else {
        let best = closest(scale, categories, pixel, (n - 1) as nat);
        if band_distance(scale, categories[n - 1], pixel).lt(
            band_distance(scale, categories[best as int], pixel),
        ) {
            (n - 1) as nat
        } else {
            best
        }
    }
}

fn distance_to_band(scale: &Scale, category: &str, pixel: Number) -> (r: Number)
    ensures
        r == band_distance(scale@, category@, pixel),
{
    let centre = match scale.map_category(category) {
        Some(c) => c,
        None => Number::from_bits(INFINITY),
    };
    centre.minus(pixel).abs()
}

/// The category whose band centre is nearest `pixel` on a band axis. `None`
/// for a scale that is not a band, or an empty domain.
#[must_use]
pub fn band_category_at(scale: &Scale, pixel: Number) -> (r: Option<String>)
    ensures
        optional_text(r) == match scale@ {
            ScaleModel::Band { categories, .. } => if categories.len() == 0 {
                None
            } else {
                Some(
                    categories[closest(scale@, categories, pixel, categories.len()) as int],
                )
            },
            _ => None,
        },
{
    match scale {
        Scale::Band { categories, .. } => {
            let ghost all = texts(categories@);
            if categories.len() == 0 {
                return None;
            }
            let mut best: usize = 0;
            let mut i: usize = 1;
            while i < categories.len()
                invariant
                    1 <= i <= categories.len(),
                    best < i,
                    all == texts(categories@),
                    best == closest(scale@, all, pixel, i as nat),
                decreases categories.len() - i,
            {
                assert(all[i as int] == categories@[i as int]@);
                assert(all[best as int] == categories@[best as int]@);
                let d = distance_to_band(scale, categories[i].as_str(), pixel);
                let b = distance_to_band(scale, categories[best].as_str(), pixel);
                if d.lt(b) {
                    best = i;
                }
                i = i + 1;
            }
            Some(categories[best].clone())
        },
        _ => None,
    }
}

/// No category's band is nearer to the pixel than the closest one's.
pub proof fn the_closest_band_is_nearest(
    scale: ScaleModel,
    categories: Seq<Seq<char>>,
    pixel: Number,
    n: nat,
    i: int,
)
    requires
        0 <= i < n <= categories.len(),
        forall|k: int|
            0 <= k < n ==> !(#[trigger] band_distance(scale, categories[k], pixel)).is_nan(),
    ensures
        closest(scale, categories, pixel, n) < n,
        band_distance(
            scale,
            categories[closest(scale, categories, pixel, n) as int],
            pixel,
        ).le(band_distance(scale, categories[i], pixel)),
    decreases n,
{
    if n > 1 {
        let m = (n - 1) as nat;
        if i < m {
            the_closest_band_is_nearest(scale, categories, pixel, m, i);
        } else {
            the_closest_band_is_nearest(scale, categories, pixel, m, 0);
        }
    }
    let last = band_distance(scale, categories[n - 1], pixel);
    let here = band_distance(scale, categories[i], pixel);
    assert(!last.is_nan() && !here.is_nan());
}

/// The centre of a category's band gives that category back, where the centres
/// are finite and no two are the same.
pub proof fn a_band_gives_its_category_back(scale: ScaleModel, i: int)
    requires
        scale is Band,
        0 <= i < scale->Band_categories.len(),
        forall|k: int|
            0 <= k < scale->Band_categories.len() ==> (scale.map_category(
                #[trigger] scale->Band_categories[k],
            ) matches Some(c) && c.is_finite()),
        forall|k: int|
            0 <= k < scale->Band_categories.len() && k != i ==> !scale.map_category(
                #[trigger] scale->Band_categories[k],
            )->0.same(scale.map_category(scale->Band_categories[i])->0),
    ensures
        ({
            let categories = scale->Band_categories;
            let pixel = scale.map_category(categories[i])->0;
            closest(scale, categories, pixel, categories.len()) == i
        }),
{
    let categories = scale->Band_categories;
    let pixel = scale.map_category(categories[i])->0;
    let n = categories.len();
    assert(scale.map_category(categories[i]) matches Some(c) && c.is_finite());
    assert forall|k: int| 0 <= k < n implies !(#[trigger] band_distance(
        scale,
        categories[k],
        pixel,
    )).is_nan() && (band_distance(scale, categories[k], pixel).magnitude() == 0 <==> k == i) by {
        let c = scale.map_category(categories[k])->0;
        assert(c.is_finite());
        lemma_difference_keeps_order(c, pixel, pixel);
    }
    the_closest_band_is_nearest(scale, categories, pixel, n, i);
    let k = closest(scale, categories, pixel, n) as int;
    let here = band_distance(scale, categories[i], pixel);
    assert(band_distance(scale, categories[k], pixel).le(here));
}

/// A text with every doubled quote made single.
pub open spec fn quotes_halved(s: Seq<char>) -> Seq<char>
    decreases s.len(),
{
    if s.len() == 0 {
        s
    } else if s.len() >= 2 && s.last() == '\'' && s[s.len() - 2] == '\'' {
        quotes_halved(s.drop_last().drop_last()).push('\'')
    } else {
        quotes_halved(s.drop_last()).push(s.last())
    }
}

/// Doubling the quotes of a text loses nothing: the text can be read back.
pub proof fn a_quoted_text_reads_back(s: Seq<char>)
    ensures
        quotes_halved(quotes_doubled(s)) == s,
    decreases s.len(),
{
    if s.len() > 0 {
        let before = quotes_doubled(s.drop_last());
        a_quoted_text_reads_back(s.drop_last());
        if s.last() == '\'' {
            assert(quotes_doubled(s).drop_last().drop_last() =~= before);
        } else {
            assert(quotes_doubled(s).drop_last() =~= before);
        }
        assert(s.drop_last().push(s.last()) =~= s);
    }
}

} // verus!
