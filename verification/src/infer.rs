//! Scale inference: which scale a column gives a channel.
use vstd::prelude::*;

use crate::batch::{
    cell_numbers, cell_of, cell_texts, integer_number, numeric, textual, Batch, CellSeq, Cells,
};
use crate::bounds::{lemma_difference_keeps_order, lemma_sum_keeps_order};
use crate::channel::{all_channels, channels_are_all_listed, Channel, ChannelMap};
use crate::colour::Rgba;
use crate::folds::{
    column_extremes, distinct_texts, gathered, greatest_from, highest_from, integer_extremes,
    least_from, lemma_gathered, lemma_highest, lemma_integer_extremes, lemma_lowest,
    lemma_nothing_present, lemma_ordered_of_distinct, lemma_present_comes, lemma_present_holds,
    lowest_from, ordered, present, put_in_order,
};
use crate::ink::Theme;
use crate::number::{
    lemma_format, lemma_from_int_is_finite, lemma_rank_is_value_order, Number,
};
use crate::numerals::{EPSILON, INFINITY, NEG_INFINITY, ONE, TENTH, ZERO};
use crate::scale::{copied_colours, degenerate, Scale, ScaleModel};
use crate::scale_set::ScaleSet;

verus! {

/// A pixel range, from its start to its end.
#[derive(Debug, Clone, Copy, PartialEq, Eq, Structural)]
pub struct Range {
    pub start: Number,
    pub end: Number,
}

/// The pixel range of a channel: that of its axis, and nothing off the axes.
pub open spec fn channel_range(c: Channel, x_range: Range, y_range: Range) -> Range {
    if c.along_x() {
        x_range
    } else if c.along_y() {
        y_range
    } else {
        Range { start: Number::from_bits(ZERO), end: Number::from_bits(ZERO) }
    }
}

pub(crate) fn range_of(c: Channel, x_range: Range, y_range: Range) -> (r: Range)
    ensures
        r == channel_range(c, x_range, y_range),
{
    match c {
        Channel::X | Channel::X1 | Channel::X2 => x_range,
        Channel::Y | Channel::Y1 | Channel::Y2 => y_range,
        _ => Range { start: Number::from_bits(ZERO), end: Number::from_bits(ZERO) },
    }
}

/// A linear scale over the extent of some numbers, where they have one.
pub open spec fn linear_over(v: Seq<Number>, range: Range) -> Option<ScaleModel> {
    let low = lowest_from(Number::from_bits(INFINITY), v);
    let high = highest_from(Number::from_bits(NEG_INFINITY), v);
    if low.is_infinite() {
        None
    } else {
        Some(
            ScaleModel::Linear {
                domain_min: low,
                domain_max: high,
                range_start: range.start,
                range_end: range.end,
            },
        )
    }
}

/// The scale a column gives a channel: linear over numbers, time over
/// timestamps, and over texts and dates a band, or a colour where the channel
/// is one.
pub open spec fn column_scale(
    cells: CellSeq,
    range: Range,
    c: Channel,
    palette: Seq<Rgba>,
) -> Option<ScaleModel> {
    match cells {
        CellSeq::Float64(_) | CellSeq::Float32(_) | CellSeq::Int(_, _) | CellSeq::UInt(_, _) => {
            linear_over(present(numeric(cells)->0), range)
        },
        CellSeq::Utf8(_) | CellSeq::Date32(_) => {
            let names = gathered(Seq::empty(), present(textual(cells)->0));
            if c == Channel::Fill || c == Channel::Stroke {
                Some(ScaleModel::Colour { categories: ordered(names), palette })
            } else {
                Some(
                    ScaleModel::Band {
                        categories: names,
                        range_start: range.start,
                        range_end: range.end,
                        padding: Number::from_bits(TENTH),
                    },
                )
            }
        },
        CellSeq::Timestamp(_, v) => {
            if present(v).len() == 0 {
                None
            } else {
                Some(
                    ScaleModel::Time {
                        domain_min_us: least_from(i64::MAX, present(v)),
                        domain_max_us: greatest_from(i64::MIN, present(v)),
                        range_start: range.start,
                        range_end: range.end,
                    },
                )
            }
        },
        _ => None,
    }
}

/// A scale that may not be there, as a mathematical value.
pub open spec fn scale_view(s: Option<Scale>) -> Option<ScaleModel> {
    match s {
        Some(s) => Some(s@),
        None => None,
    }
}

/// The scale a column gives a channel.
pub fn infer_column_scale(cells: &Cells, range: Range, channel: Channel, palette: &Vec<Rgba>) -> (r:
    Option<Scale>)
    ensures
        scale_view(r) == column_scale(cells@, range, channel, palette@),
{
    match cells {
        Cells::Float64(_) | Cells::Float32(_) | Cells::Int(_, _) | Cells::UInt(_, _) => {
            let numbers = match cell_numbers(cells) {
                Some(v) => v,
                None => Vec::new(),
            };
            let (low, high) = column_extremes(
                &numbers,
                Number::from_bits(INFINITY),
                Number::from_bits(NEG_INFINITY),
            );
            if low.is_infinite() {
                return None;
            }
            Some(
                Scale::Linear {
                    domain_min: low,
                    domain_max: high,
                    range_start: range.start,
                    range_end: range.end,
                },
            )
        },
        Cells::Utf8(_) | Cells::Date32(_) => {
            let mut categories = match cell_texts(cells) {
                Some(v) => distinct_texts(&v),
                None => Vec::new(),
            };
            if channel == Channel::Fill || channel == Channel::Stroke {
                put_in_order(&mut categories);
                Some(Scale::Colour { categories, palette: copied_colours(palette) })
            } else {
                Some(
                    Scale::Band {
                        categories,
                        range_start: range.start,
                        range_end: range.end,
                        padding: Number::from_bits(TENTH),
                    },
                )
            }
        },
        Cells::Timestamp(_, v) => {
            let (low, high) = integer_extremes(v, i64::MAX, i64::MIN);
            proof {
                lemma_integer_extremes(i64::MAX, i64::MIN, present(v@));
            }
            if high < low {
                return None;
            }
            Some(
                Scale::Time {
                    domain_min_us: low,
                    domain_max_us: high,
                    range_start: range.start,
                    range_end: range.end,
                },
            )
        },
        _ => None,
    }
}

/// What a constant on an axis makes of the axis's scale: a linear domain
/// widens to hold it, and an axis without a scale gets one from zero to it, or
/// one unit either side of zero. Constants off the axes, and scales that are
/// not linear, change nothing.
pub open spec fn with_literal(
    slot: Option<ScaleModel>,
    literal: Option<Number>,
    c: Channel,
    x_range: Range,
    y_range: Range,
) -> Option<ScaleModel> {
    let range = channel_range(c, x_range, y_range);
    match literal {
        None => slot,
        Some(value) => {
            if !c.along_x() && !c.along_y() {
                slot
            } else {
                match slot {
                    Some(ScaleModel::Linear { domain_min, domain_max, .. }) => Some(
                        ScaleModel::Linear {
                            domain_min: domain_min.min(value),
                            domain_max: domain_max.max(value),
                            range_start: range.start,
                            range_end: range.end,
                        },
                    ),
                    Some(other) => Some(other),
                    None => {
                        let zero = Number::from_bits(ZERO);
                        let one = Number::from_bits(ONE);
                        let low = value.min(zero);
                        let high = value.max(zero);
                        if degenerate(high.minus(low)) {
                            Some(
                                ScaleModel::Linear {
                                    domain_min: value.minus(one),
                                    domain_max: value.plus(one),
                                    range_start: range.start,
                                    range_end: range.end,
                                },
                            )
                        } else {
                            Some(
                                ScaleModel::Linear {
                                    domain_min: low,
                                    domain_max: high,
                                    range_start: range.start,
                                    range_end: range.end,
                                },
                            )
                        }
                    },
                }
            }
        },
    }
}

/// Folds one constant into the scale set.
fn extend_with_literal(
    set: &mut ScaleSet,
    channel: Channel,
    value: Number,
    x_range: Range,
    y_range: Range,
)
    ensures
        final(set).at(channel) == with_literal(
            old(set).at(channel),
            Some(value),
            channel,
            x_range,
            y_range,
        ),
        forall|c: Channel| c != channel ==> #[trigger] final(set).at(c) == old(set).at(c),
        final(set).ink == old(set).ink,
        final(set).geo_extent == old(set).geo_extent,
{
    match channel {
        Channel::Fill | Channel::Stroke | Channel::Text => {
            return ;
        },
        _ => {},
    }
    let range = range_of(channel, x_range, y_range);
    let replacement = match set.get(channel) {
        Some(Scale::Linear { domain_min, domain_max, .. }) => Some(
            Scale::Linear {
                domain_min: domain_min.min(value),
                domain_max: domain_max.max(value),
                range_start: range.start,
                range_end: range.end,
            },
        ),
        Some(_) => None,
        None => {
            let zero = Number::from_bits(ZERO);
            let one = Number::from_bits(ONE);
            let low = value.min(zero);
            let high = value.max(zero);
            if high.minus(low).abs().lt(Number::from_bits(EPSILON)) {
                Some(
                    Scale::Linear {
                        domain_min: value.minus(one),
                        domain_max: value.plus(one),
                        range_start: range.start,
                        range_end: range.end,
                    },
                )
            } else {
                Some(
                    Scale::Linear {
                        domain_min: low,
                        domain_max: high,
                        range_start: range.start,
                        range_end: range.end,
                    },
                )
            }
        },
    };
    if let Some(s) = replacement {
        set.insert(channel, s);
    }
}

/// Fold every constant of a channel map into the scale set, so that a mark at
/// a constant position is placed correctly.
pub(crate) fn extend_scales_with_literals(
    set: &mut ScaleSet,
    channel_map: &ChannelMap,
    x_range: Range,
    y_range: Range,
)
    ensures
        forall|c: Channel|
            #[trigger] final(set).at(c) == with_literal(
                old(set).at(c),
                channel_map.literals.at(c),
                c,
                x_range,
                y_range,
            ),
        final(set).ink == old(set).ink,
        final(set).geo_extent == old(set).geo_extent,
{
    let all = Channel::all();
    let mut i: usize = 0;
    while i < all.len()
        invariant
            i <= all.len(),
            all@ == all_channels(),
            set.ink == old(set).ink,
            set.geo_extent == old(set).geo_extent,
            forall|j: int|
                0 <= j < i ==> set.at(#[trigger] all@[j]) == with_literal(
                    old(set).at(all@[j]),
                    channel_map.literals.at(all@[j]),
                    all@[j],
                    x_range,
                    y_range,
                ),
            forall|j: int|
                i <= j < all.len() ==> set.at(#[trigger] all@[j]) == old(set).at(all@[j]),
        decreases all.len() - i,
    {
        let ch = all[i];
        proof {
            channels_are_all_listed(ch);
        }
        if let Some(value) = channel_map.literal(ch) {
            extend_with_literal(set, ch, value, x_range, y_range);
        }
        i = i + 1;
    }
    assert forall|c: Channel|
        #[trigger] set.at(c) == with_literal(
            old(set).at(c),
            channel_map.literals.at(c),
            c,
            x_range,
            y_range,
        ) by {
        channels_are_all_listed(c);
        let j = choose|j: int| 0 <= j < all_channels().len() && all_channels()[j] == c;
        assert(all@[j] == c);
    }
}

/// A linear domain widened to hold `min` to `max`, or made of them; a scale
/// that is not linear stays.
pub open spec fn merged_linear(
    slot: Option<ScaleModel>,
    min: Number,
    max: Number,
    range: Range,
) -> Option<ScaleModel> {
    match slot {
        Some(ScaleModel::Linear { domain_min, domain_max, .. }) => Some(
            ScaleModel::Linear {
                domain_min: domain_min.min(min),
                domain_max: domain_max.max(max),
                range_start: range.start,
                range_end: range.end,
            },
        ),
        Some(other) => Some(other),
        None => Some(
            ScaleModel::Linear {
                domain_min: min,
                domain_max: max,
                range_start: range.start,
                range_end: range.end,
            },
        ),
    }
}

/// Insert or widen a linear scale on `channel` so its domain spans `min` to
/// `max` over the given pixel range. A sibling mark's linear domain is
/// widened; a scale that is not linear is left untouched.
pub fn merge_linear_scale(
    set: &mut ScaleSet,
    channel: Channel,
    min: Number,
    max: Number,
    range: Range,
)
    ensures
        final(set).at(channel) == merged_linear(old(set).at(channel), min, max, range),
        forall|c: Channel| c != channel ==> #[trigger] final(set).at(c) == old(set).at(c),
        final(set).ink == old(set).ink,
        final(set).geo_extent == old(set).geo_extent,
{
    let (low, high) = match set.get(channel) {
        Some(Scale::Linear { domain_min, domain_max, .. }) => (
            domain_min.min(min),
            domain_max.max(max),
        ),
        Some(_) => {
            return ;
        },
        None => (min, max),
    };
    set.insert(
        channel,
        Scale::Linear {
            domain_min: low,
            domain_max: high,
            range_start: range.start,
            range_end: range.end,
        },
    );
}

/// The scale that a mark's column gives a channel, before constants.
pub open spec fn inferred_slot(
    batch: Batch,
    channel_map: ChannelMap,
    c: Channel,
    x_range: Range,
    y_range: Range,
    palette: Seq<Rgba>,
) -> Option<ScaleModel> {
    match channel_map.column(c) {
        Some(name) => match batch.cells(name) {
            Some(cells) => column_scale(cells, channel_range(c, x_range, y_range), c, palette),
            None => None,
        },
        None => None,
    }
}

pub(crate) fn infer_slot(
    batch: &Batch,
    channel_map: &ChannelMap,
    channel: Channel,
    x_range: Range,
    y_range: Range,
    palette: &Vec<Rgba>,
) -> (r: Option<Scale>)
    ensures
        scale_view(r) == inferred_slot(
            *batch,
            *channel_map,
            channel,
            x_range,
            y_range,
            palette@,
        ),
{
    match channel_map.get(channel) {
        Some(name) => match batch.column(name) {
            Some(cells) => infer_column_scale(
                cells,
                range_of(channel, x_range, y_range),
                channel,
                palette,
            ),
            None => None,
        },
        None => None,
    }
}

/// Infer scales from a table and a channel map. Each channel bound to a column
/// gets the scale of the column's type, and constants are folded in.
pub fn infer_scales(
    batch: &Batch,
    channel_map: &ChannelMap,
    x_range: Range,
    y_range: Range,
    theme: &Theme,
) -> (r: ScaleSet)
    ensures
        forall|c: Channel|
            #[trigger] r.at(c) == with_literal(
                inferred_slot(
                    *batch,
                    *channel_map,
                    c,
                    x_range,
                    y_range,
                    theme.categorical@,
                ),
                channel_map.literals.at(c),
                c,
                x_range,
                y_range,
            ),
        r.ink == theme.ink,
        r.geo_extent is None,
{
    let mut set = ScaleSet::new(theme.ink);
    let all = Channel::all();
    let mut i: usize = 0;
    while i < all.len()
        invariant
            i <= all.len(),
            all@ == all_channels(),
            set.ink == theme.ink,
            set.geo_extent is None,
            forall|j: int|
                0 <= j < i ==> set.at(#[trigger] all@[j]) == inferred_slot(
                    *batch,
                    *channel_map,
                    all@[j],
                    x_range,
                    y_range,
                    theme.categorical@,
                ),
            forall|j: int| i <= j < all.len() ==> set.at(#[trigger] all@[j]) is None,
        decreases all.len() - i,
    {
        let ch = all[i];
        proof {
            channels_are_all_listed(ch);
        }
        if let Some(s) = infer_slot(batch, channel_map, ch, x_range, y_range, &theme.categorical) {
            set.insert(ch, s);
        }
        i = i + 1;
    }
    assert forall|c: Channel|
        #[trigger] set.at(c) == inferred_slot(
            *batch,
            *channel_map,
            c,
            x_range,
            y_range,
            theme.categorical@,
        ) by {
        channels_are_all_listed(c);
        let j = choose|j: int| 0 <= j < all_channels().len() && all_channels()[j] == c;
        assert(all@[j] == c);
    }
    extend_scales_with_literals(&mut set, channel_map, x_range, y_range);
    set
}

/// A scale inferred from a column covers it: every number lies within the
/// domain, every instant between the two ends, and every text or date has its
/// category.
pub proof fn an_inferred_scale_covers_its_column(
    cells: CellSeq,
    range: Range,
    c: Channel,
    palette: Seq<Rgba>,
    i: int,
)
    ensures
        column_scale(cells, range, c, palette) matches Some(s) ==> match (cells, s) {
            (_, ScaleModel::Linear { domain_min, domain_max, .. }) => cell_of(
                numeric(cells),
                i,
            ) matches Some(x) ==> x.is_nan() || domain_min.le(x) && x.le(domain_max),
            (CellSeq::Timestamp(_, v), ScaleModel::Time { domain_min_us, domain_max_us, .. }) => 0
                <= i < v.len() ==> (v[i] matches Some(x) ==> domain_min_us <= x <= domain_max_us),
            (_, ScaleModel::Band { categories, .. }) => cell_of(textual(cells), i) matches Some(t)
                ==> categories.contains(t),
            (_, ScaleModel::Colour { categories, .. }) => cell_of(textual(cells), i) matches Some(
                t,
            ) ==> categories.contains(t),
            _ => false,
        },
{
    match cells {
        CellSeq::Float64(_) | CellSeq::Float32(_) | CellSeq::Int(_, _) | CellSeq::UInt(_, _) => {
            let v = numeric(cells)->0;
            lemma_lowest(Number::from_bits(INFINITY), present(v));
            lemma_highest(Number::from_bits(NEG_INFINITY), present(v));
            if 0 <= i < v.len() {
                lemma_present_holds(v, i);
            }
        },
        CellSeq::Timestamp(_, v) => {
            lemma_integer_extremes(i64::MAX, i64::MIN, present(v));
            if 0 <= i < v.len() {
                lemma_present_holds(v, i);
            }
        },
        CellSeq::Utf8(_) | CellSeq::Date32(_) => {
            let v = textual(cells)->0;
            let names = gathered(Seq::empty(), present(v));
            lemma_gathered(Seq::empty(), present(v));
            lemma_ordered_of_distinct(names);
            if 0 <= i < v.len() {
                lemma_present_holds(v, i);
            }
        },
        _ => {},
    }
}

/// A merged linear scale spans the extent it was given and the domain it had.
pub proof fn a_merged_scale_spans_both(
    slot: Option<ScaleModel>,
    min: Number,
    max: Number,
    range: Range,
)
    requires
        !min.is_nan(),
        !max.is_nan(),
        slot matches Some(s) ==> s is Linear,
    ensures
        ({
            let merged = merged_linear(slot, min, max, range)->0;
            &&& merged is Linear
            &&& merged->Linear_domain_min.le(min)
            &&& max.le(merged->Linear_domain_max)
            &&& slot matches Some(s) ==> {
                &&& !s->Linear_domain_min.is_nan() ==> merged->Linear_domain_min.le(
                    s->Linear_domain_min,
                )
                &&& !s->Linear_domain_max.is_nan() ==> s->Linear_domain_max.le(
                    merged->Linear_domain_max,
                )
            }
        }),
{
}

/// A constant on an axis lies on it, unless the axis is not linear.
pub proof fn a_constant_is_on_its_axis(
    slot: Option<ScaleModel>,
    value: Number,
    c: Channel,
    x_range: Range,
    y_range: Range,
)
    requires
        c.along_x() || c.along_y(),
        value.is_finite(),
        slot matches Some(s) ==> s is Linear,
    ensures
        ({
            let scale = with_literal(slot, Some(value), c, x_range, y_range)->0;
            &&& scale is Linear
            &&& scale->Linear_domain_min.le(value)
            &&& value.le(scale->Linear_domain_max)
        }),
{
    let zero = Number::from_bits(ZERO);
    let one = Number::from_bits(ONE);
    lemma_format();
    lemma_rank_is_value_order(zero, one);
    lemma_difference_keeps_order(value, one, value);
    lemma_sum_keeps_order(value, one, value);
}

/// Integers and instants are finite numbers.
proof fn lemma_whole_cells(cells: CellSeq, i: int)
    requires
        cells is Int || cells is UInt || cells is Timestamp,
    ensures
        cell_of(numeric(cells), i) matches Some(x) ==> x.is_finite(),
{
    if cell_of(numeric(cells), i) is Some {
        match cells {
            CellSeq::Int(_, w) => {
                lemma_from_int_is_finite(w[i]->0 as int);
            },
            CellSeq::UInt(_, w) => {
                lemma_from_int_is_finite(w[i]->0 as int);
            },
            CellSeq::Timestamp(_, w) => {
                lemma_from_int_is_finite(w[i]->0 as int);
            },
            _ => {},
        }
    }
}

/// A column of integers or instants gives a scale exactly where some value is
/// there, whatever the value.
pub proof fn a_column_with_a_value_has_a_scale(
    cells: CellSeq,
    range: Range,
    c: Channel,
    palette: Seq<Rgba>,
)
    requires
        cells is Int || cells is UInt || cells is Timestamp,
    ensures
        column_scale(cells, range, c, palette) is Some <==> exists|i: int|
            #[trigger] cell_of(numeric(cells), i) is Some,
{
    let v = numeric(cells)->0;
    if exists|i: int| #[trigger] cell_of(numeric(cells), i) is Some {
        let i = choose|i: int| #[trigger] cell_of(numeric(cells), i) is Some;
        let low = lowest_from(Number::from_bits(INFINITY), present(v));
        lemma_present_holds(v, i);
        lemma_lowest(Number::from_bits(INFINITY), present(v));
        lemma_whole_cells(cells, i);
        if let CellSeq::Timestamp(_, w) = cells {
            lemma_present_holds(w, i);
        }
        if present(v).contains(low) {
            lemma_present_comes(v, low);
            lemma_whole_cells(cells, choose|k: int| 0 <= k < v.len() && #[trigger] v[k] == Some(low));
        }
    } else {
        assert forall|i: int| 0 <= i < v.len() implies v[i] is None by {
            assert(cell_of(numeric(cells), i) == v[i]);
        }
        lemma_nothing_present(v);
        if let CellSeq::Timestamp(_, w) = cells {
            assert forall|i: int| 0 <= i < w.len() implies w[i] is None by {
                assert(v[i] == integer_number(w[i]));
            }
            lemma_nothing_present(w);
        }
    }
}

} // verus!
