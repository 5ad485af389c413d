//! Scales shared by several marks.
use vstd::prelude::*;

use crate::batch::{numeric, textual, Batch, CellSeq, Cells};
use crate::channel::{all_channels, channels_are_all_listed, Channel, ChannelMap};
use crate::colour::Rgba;
use crate::folds::{
    add_once, gathered, greatest_from, highest_from, least_from, lemma_gathered,
    lemma_gathered_of_distinct, lemma_highest, lemma_integer_extremes, lemma_lowest,
    lemma_ordered_of_distinct, lemma_ordered_stays, lemma_present_comes, lemma_present_holds, lowest_from, ordered,
    present, put_in_order,
};
use crate::infer::{
    channel_range, column_scale, extend_scales_with_literals, infer_slot, inferred_slot, range_of,
    scale_view, with_literal, Range,
};
use crate::ink::Theme;
use crate::number::Number;
use crate::numerals::{INFINITY, NEG_INFINITY};
use crate::scale::{copied_colours, Scale, ScaleModel};
use crate::scale_set::{same_kind, within, ScaleSet};
use crate::words::texts;

verus! {

/// Scales as mathematical values.
pub open spec fn scale_views(v: Seq<Scale>) -> Seq<ScaleModel> {
    v.map_values(|s: Scale| s@)
}

/// The low ends of the numeric domains of one kind.
pub open spec fn low_ends(v: Seq<ScaleModel>, ramps: bool) -> Seq<Option<Number>> {
    v.map_values(
        |s: ScaleModel|
            match s {
                ScaleModel::Linear { domain_min, .. } => if ramps {
                    None
                } else {
                    Some(domain_min)
                },
                ScaleModel::Sequential { domain_min, .. } => if ramps {
                    Some(domain_min)
                } else {
                    None
                },
                _ => None,
            },
    )
}

/// The high ends of the numeric domains of one kind.
pub open spec fn high_ends(v: Seq<ScaleModel>, ramps: bool) -> Seq<Option<Number>> {
    v.map_values(
        |s: ScaleModel|
            match s {
                ScaleModel::Linear { domain_max, .. } => if ramps {
                    None
                } else {
                    Some(domain_max)
                },
                ScaleModel::Sequential { domain_max, .. } => if ramps {
                    Some(domain_max)
                } else {
                    None
                },
                _ => None,
            },
    )
}

/// The first instants of the time domains.
pub open spec fn first_instants(v: Seq<ScaleModel>) -> Seq<Option<i64>> {
    v.map_values(
        |s: ScaleModel|
            match s {
                ScaleModel::Time { domain_min_us, .. } => Some(domain_min_us),
                _ => None,
            },
    )
}

/// The last instants of the time domains.
pub open spec fn last_instants(v: Seq<ScaleModel>) -> Seq<Option<i64>> {
    v.map_values(
        |s: ScaleModel|
            match s {
                ScaleModel::Time { domain_max_us, .. } => Some(domain_max_us),
                _ => None,
            },
    )
}

/// The categories of a scale of one kind.
pub open spec fn categories_of(s: ScaleModel, colours: bool) -> Seq<Seq<char>> {
    match s {
        ScaleModel::Band { categories, .. } => if colours {
            Seq::empty()
        } else {
            categories
        },
        ScaleModel::Colour { categories, .. } => if colours {
            categories
        } else {
            Seq::empty()
        },
        _ => Seq::empty(),
    }
}

/// The categories of the scales of one kind, each once, in order of first
/// appearance.
pub open spec fn all_categories(v: Seq<ScaleModel>, colours: bool) -> Seq<Seq<char>>
    decreases v.len(),
{
    if v.len() == 0 {
        Seq::empty()
    } else {
        gathered(all_categories(v.drop_last(), colours), categories_of(v.last(), colours))
    }
}

/// One scale over the domains of several. The first scale decides the kind,
/// and the padding, palette or stops; scales of another kind do not count. The
/// union of colour scales is put in order again.
pub open spec fn union_of(v: Seq<ScaleModel>, range: Range) -> Option<ScaleModel> {
    if v.len() == 0 {
        None
    } else {
        match v[0] {
            ScaleModel::Linear { .. } => {
                let low = lowest_from(Number::from_bits(INFINITY), present(low_ends(v, false)));
                let high = highest_from(
                    Number::from_bits(NEG_INFINITY),
                    present(high_ends(v, false)),
                );
                if low.is_infinite() {
                    None
                } else {
                    Some(
                        ScaleModel::Linear {
                            domain_min: low,
                            domain_max: high,
                            range_start: range.start,
                            range_end: range.end,
                        },
                    )
                }
            },
            ScaleModel::Band { padding, .. } => Some(
                ScaleModel::Band {
                    categories: all_categories(v, false),
                    range_start: range.start,
                    range_end: range.end,
                    padding,
                },
            ),
            ScaleModel::Colour { palette, .. } => Some(
                ScaleModel::Colour { categories: ordered(all_categories(v, true)), palette },
            ),
            ScaleModel::Time { .. } => Some(
                ScaleModel::Time {
                    domain_min_us: least_from(i64::MAX, present(first_instants(v))),
                    domain_max_us: greatest_from(i64::MIN, present(last_instants(v))),
                    range_start: range.start,
                    range_end: range.end,
                },
            ),
            ScaleModel::Sequential { stops, .. } => {
                let low = lowest_from(Number::from_bits(INFINITY), present(low_ends(v, true)));
                let high = highest_from(
                    Number::from_bits(NEG_INFINITY),
                    present(high_ends(v, true)),
                );
                if low.is_infinite() {
                    None
                } else {
                    Some(ScaleModel::Sequential { domain_min: low, domain_max: high, stops })
                }
            },
        }
    }
}

proof fn lemma_present_push<T>(v: Seq<Option<T>>, i: int)
    requires
        0 <= i < v.len(),
    ensures
        present(v.take(i + 1)) == match v[i] {
            Some(x) => present(v.take(i)).push(x),
            None => present(v.take(i)),
        },
        v[i] matches Some(x) ==> present(v.take(i)).push(x).drop_last() == present(v.take(i)),
{
    assert(v.take(i + 1).drop_last() =~= v.take(i));
    if let Some(x) = v[i] {
        assert(present(v.take(i)).push(x).drop_last() =~= present(v.take(i)));
    }
}

/// The least low end and greatest high end of the domains of one kind.
fn numeric_union(scales: &Vec<Scale>, ramps: bool) -> (r: (Number, Number))
    ensures
        r.0 == lowest_from(
            Number::from_bits(INFINITY),
            present(low_ends(scale_views(scales@), ramps)),
        ),
        r.1 == highest_from(
            Number::from_bits(NEG_INFINITY),
            present(high_ends(scale_views(scales@), ramps)),
        ),
{
    let mut min = Number::from_bits(INFINITY);
    let mut max = Number::from_bits(NEG_INFINITY);
    let mut i: usize = 0;
    let ghost lows = low_ends(scale_views(scales@), ramps);
    let ghost highs = high_ends(scale_views(scales@), ramps);
    assert(lows.take(0) =~= Seq::<Option<Number>>::empty());
    assert(highs.take(0) =~= Seq::<Option<Number>>::empty());
    while i < scales.len()
        invariant
            i <= scales.len(),
            lows == low_ends(scale_views(scales@), ramps),
            highs == high_ends(scale_views(scales@), ramps),
            min == lowest_from(Number::from_bits(INFINITY), present(lows.take(i as int))),
            max == highest_from(Number::from_bits(NEG_INFINITY), present(highs.take(i as int))),
        decreases scales.len() - i,
    {
        proof {
            lemma_present_push(lows, i as int);
            lemma_present_push(highs, i as int);
            assert(scale_views(scales@)[i as int] == scales@[i as int]@);
        }
        let ends = match &scales[i] {
            Scale::Linear { domain_min, domain_max, .. } => if ramps {
                None
            } else {
                Some((*domain_min, *domain_max))
            },
            Scale::Sequential { domain_min, domain_max, .. } => if ramps {
                Some((*domain_min, *domain_max))
            } else {
                None
            },
            _ => None,
        };
        if let Some((low, high)) = ends {
            if low.lt(min) {
                min = low;
            }
            if max.lt(high) {
                max = high;
            }
        }
        i = i + 1;
    }
    assert(lows.take(i as int) =~= lows);
    assert(highs.take(i as int) =~= highs);
    (min, max)
}

fn time_union(scales: &Vec<Scale>) -> (r: (i64, i64))
    ensures
        r.0 == least_from(i64::MAX, present(first_instants(scale_views(scales@)))),
        r.1 == greatest_from(i64::MIN, present(last_instants(scale_views(scales@)))),
{
    let mut min: i64 = i64::MAX;
    let mut max: i64 = i64::MIN;
    let mut i: usize = 0;
    let ghost lows = first_instants(scale_views(scales@));
    let ghost highs = last_instants(scale_views(scales@));
    assert(lows.take(0) =~= Seq::<Option<i64>>::empty());
    assert(highs.take(0) =~= Seq::<Option<i64>>::empty());
    while i < scales.len()
        invariant
            i <= scales.len(),
            lows == first_instants(scale_views(scales@)),
            highs == last_instants(scale_views(scales@)),
            min == least_from(i64::MAX, present(lows.take(i as int))),
            max == greatest_from(i64::MIN, present(highs.take(i as int))),
        decreases scales.len() - i,
    {
        proof {
            lemma_present_push(lows, i as int);
            lemma_present_push(highs, i as int);
            assert(scale_views(scales@)[i as int] == scales@[i as int]@);
        }
        if let Scale::Time { domain_min_us, domain_max_us, .. } = &scales[i] {
            if *domain_min_us < min {
                min = *domain_min_us;
            }
            if *domain_max_us > max {
                max = *domain_max_us;
            }
        }
        i = i + 1;
    }
    assert(lows.take(i as int) =~= lows);
    assert(highs.take(i as int) =~= highs);
    (min, max)
}

fn gather(list: &mut Vec<String>, more: &Vec<String>)
    ensures
        texts(final(list)@) == gathered(texts(old(list)@), texts(more@)),
{
    let mut i: usize = 0;
    let ghost all = texts(more@);
    assert(all.take(0) =~= Seq::<Seq<char>>::empty());
    while i < more.len()
        invariant
            i <= more.len(),
            all == texts(more@),
            texts(list@) == gathered(texts(old(list)@), all.take(i as int)),
        decreases more.len() - i,
    {
        assert(all.take(i + 1).drop_last() =~= all.take(i as int));
        assert(all.take(i + 1).last() == more@[i as int]@);
        add_once(list, more[i].as_str());
        i = i + 1;
    }
    assert(all.take(i as int) =~= all);
}

fn category_union(scales: &Vec<Scale>, colours: bool) -> (r: Vec<String>)
    ensures
        texts(r@) == all_categories(scale_views(scales@), colours),
{
    let mut out: Vec<String> = Vec::new();
    let mut i: usize = 0;
    let ghost all = scale_views(scales@);
    assert(all.take(0) =~= Seq::<ScaleModel>::empty());
    assert(texts(out@) =~= Seq::<Seq<char>>::empty());
    while i < scales.len()
        invariant
            i <= scales.len(),
            all == scale_views(scales@),
            texts(out@) == all_categories(all.take(i as int), colours),
        decreases scales.len() - i,
    {
        assert(all.take(i + 1).drop_last() =~= all.take(i as int));
        assert(all.take(i + 1).last() == scales@[i as int]@);
        match &scales[i] {
            Scale::Band { categories, .. } => {
                if !colours {
                    gather(&mut out, categories);
                }
            },
            Scale::Colour { categories, .. } => {
                if colours {
                    gather(&mut out, categories);
                }
            },
            _ => {},
        }
        i = i + 1;
    }
    assert(all.take(i as int) =~= all);
    out
}

/// Union a list of scales into a single scale.
pub fn union_scales(scales: &Vec<Scale>, range: Range) -> (r: Option<Scale>)
    ensures
        scale_view(r) == union_of(scale_views(scales@), range),
{
    if scales.len() == 0 {
        return None;
    }
    assert(scale_views(scales@)[0] == scales@[0]@);
    match &scales[0] {
        Scale::Linear { .. } => {
            let (min, max) = numeric_union(scales, false);
            if min.is_infinite() {
                None
            } else {
                Some(
                    Scale::Linear {
                        domain_min: min,
                        domain_max: max,
                        range_start: range.start,
                        range_end: range.end,
                    },
                )
            }
        },
        Scale::Band { padding, .. } => Some(
            Scale::Band {
                categories: category_union(scales, false),
                range_start: range.start,
                range_end: range.end,
                padding: *padding,
            },
        ),
        Scale::Colour { palette, .. } => {
            let mut categories = category_union(scales, true);
            put_in_order(&mut categories);
            Some(Scale::Colour { categories, palette: copied_colours(palette) })
        },
        Scale::Time { .. } => {
            let (min, max) = time_union(scales);
            Some(
                Scale::Time {
                    domain_min_us: min,
                    domain_max_us: max,
                    range_start: range.start,
                    range_end: range.end,
                },
            )
        },
        Scale::Sequential { stops, .. } => {
            let (min, max) = numeric_union(scales, true);
            if min.is_infinite() {
                None
            } else {
                Some(
                    Scale::Sequential {
                        domain_min: min,
                        domain_max: max,
                        stops: copied_colours(stops),
                    },
                )
            }
        },
    }
}

/// One mark's table and what it binds.
#[derive(Clone, Copy)]
pub struct Entry<'a> {
    pub batch: &'a Batch,
    pub channel_map: &'a ChannelMap,
}

/// The scales that several marks' columns give a channel, where they give one.
pub open spec fn slots_of(
    entries: Seq<Entry<'_>>,
    c: Channel,
    x_range: Range,
    y_range: Range,
    palette: Seq<Rgba>,
) -> Seq<Option<ScaleModel>> {
    entries.map_values(
        |e: Entry<'_>|
            inferred_slot(*e.batch, *e.channel_map, c, x_range, y_range, palette),
    )
}

/// What several marks' constants make of a channel's scale, one after another.
pub open spec fn with_literals(
    slot: Option<ScaleModel>,
    entries: Seq<Entry<'_>>,
    c: Channel,
    x_range: Range,
    y_range: Range,
) -> Option<ScaleModel>
    decreases entries.len(),
{
    if entries.len() == 0 {
        slot
    } else {
        with_literal(
            with_literals(slot, entries.drop_last(), c, x_range, y_range),
            entries.last().channel_map.literals.at(c),
            c,
            x_range,
            y_range,
        )
    }
}

/// The scale several marks share on a channel.
pub open spec fn shared_slot(
    entries: Seq<Entry<'_>>,
    c: Channel,
    x_range: Range,
    y_range: Range,
    palette: Seq<Rgba>,
) -> Option<ScaleModel> {
    with_literals(
        union_of(
            present(slots_of(entries, c, x_range, y_range, palette)),
            channel_range(c, x_range, y_range),
        ),
        entries,
        c,
        x_range,
        y_range,
    )
}

fn shared_scale(
    entries: &Vec<Entry<'_>>,
    channel: Channel,
    x_range: Range,
    y_range: Range,
    palette: &Vec<Rgba>,
) -> (r: Option<Scale>)
    ensures
        scale_view(r) == union_of(
            present(slots_of(entries@, channel, x_range, y_range, palette@)),
            channel_range(channel, x_range, y_range),
        ),
{
    let mut found: Vec<Scale> = Vec::new();
    let mut i: usize = 0;
    let ghost all = slots_of(entries@, channel, x_range, y_range, palette@);
    assert(all.take(0) =~= Seq::<Option<ScaleModel>>::empty());
    assert(scale_views(found@) =~= Seq::<ScaleModel>::empty());
    while i < entries.len()
        invariant
            i <= entries.len(),
            all == slots_of(entries@, channel, x_range, y_range, palette@),
            scale_views(found@) == present(all.take(i as int)),
        decreases entries.len() - i,
    {
        proof {
            lemma_present_push(all, i as int);
        }
        let e = entries[i];
        if let Some(s) = infer_slot(e.batch, e.channel_map, channel, x_range, y_range, palette) {
            let ghost before = found@;
            found.push(s);
            assert(scale_views(found@) =~= scale_views(before).push(s@));
        }
        i = i + 1;
    }
    assert(all.take(i as int) =~= all);
    union_scales(&found, range_of(channel, x_range, y_range))
}

/// Infer scales from several marks with unioned domains. Each channel that any
/// mark binds gets one scale that spans what all of them give it.
pub fn infer_scales_multi(
    entries: &Vec<Entry<'_>>,
    x_range: Range,
    y_range: Range,
    theme: &Theme,
) -> (r: ScaleSet)
    ensures
        forall|c: Channel|
            #[trigger] r.at(c) == shared_slot(
                entries@,
                c,
                x_range,
                y_range,
                theme.categorical@,
            ),
        r.ink == theme.ink,
        r.geo_extent is None,
{
    let mut set = ScaleSet::new(theme.ink);
    let all = Channel::all();
    let mut i: usize = 0;
    while i < all.len()
        invariant
            i <= all.len(),
            all@ == all_channels(),
            set.ink == theme.ink,
            set.geo_extent is None,
            forall|j: int|
                0 <= j < i ==> set.at(#[trigger] all@[j]) == union_of(
                    present(
                        slots_of(entries@, all@[j], x_range, y_range, theme.categorical@),
                    ),
                    channel_range(all@[j], x_range, y_range),
                ),
            forall|j: int| i <= j < all.len() ==> set.at(#[trigger] all@[j]) is None,
        decreases all.len() - i,
    {
        let ch = all[i];
        proof {
            channels_are_all_listed(ch);
        }
        if let Some(s) = shared_scale(entries, ch, x_range, y_range, &theme.categorical) {
            set.insert(ch, s);
        }
        i = i + 1;
    }
    let ghost unions = set;
    assert forall|c: Channel|
        #[trigger] unions.at(c) == union_of(
            present(slots_of(entries@, c, x_range, y_range, theme.categorical@)),
            channel_range(c, x_range, y_range),
        ) by {
        channels_are_all_listed(c);
        let j = choose|j: int| 0 <= j < all_channels().len() && all_channels()[j] == c;
        assert(all@[j] == c);
    }
    let mut k: usize = 0;
    assert(entries@.take(0) =~= Seq::<Entry<'_>>::empty());
    while k < entries.len()
        invariant
            k <= entries.len(),
            set.ink == theme.ink,
            set.geo_extent is None,
            forall|c: Channel|
                #[trigger] set.at(c) == with_literals(
                    unions.at(c),
                    entries@.take(k as int),
                    c,
                    x_range,
                    y_range,
                ),
        decreases entries.len() - k,
    {
        assert(entries@.take(k + 1).drop_last() =~= entries@.take(k as int));
        let ghost before = set;
        extend_scales_with_literals(&mut set, entries[k].channel_map, x_range, y_range);
        assert forall|c: Channel|
            #[trigger] set.at(c) == with_literals(
                unions.at(c),
                entries@.take(k + 1),
                c,
                x_range,
                y_range,
            ) by {
            assert(before.at(c) == with_literals(
                unions.at(c),
                entries@.take(k as int),
                c,
                x_range,
                y_range,
            ));
        }
        k = k + 1;
    }
    assert(entries@.take(k as int) =~= entries@);
    set
}

/// The kind of a positional axis, told from its columns' types alone.
#[derive(Debug, Clone, Copy, PartialEq, Eq, Structural)]
pub enum AxisClass {
    /// Numbers or timestamps.
    Continuous,
    /// Texts or dates.
    Band,
}

/// What a column's type makes of an axis.
pub open spec fn class_of(cells: CellSeq) -> Option<AxisClass> {
    match cells {
        CellSeq::Utf8(_) | CellSeq::Date32(_) => Some(AxisClass::Band),
        CellSeq::Float64(_) | CellSeq::Float32(_) => Some(AxisClass::Continuous),
        CellSeq::Int(_, _) | CellSeq::UInt(_, _) => Some(AxisClass::Continuous),
        CellSeq::Timestamp(_, _) => Some(AxisClass::Continuous),
        _ => None,
    }
}

/// What the column bound to a channel makes of its axis.
pub open spec fn bound_class(e: Entry<'_>, c: Channel) -> Option<AxisClass> {
    match e.channel_map.column(c) {
        Some(name) => match e.batch.cells(name) {
            Some(cells) => class_of(cells),
            None => None,
        },
        None => None,
    }
}

/// Whether a channel is of an axis's family.
pub open spec fn in_family(c: Channel, axis: Channel) -> bool {
    (axis == Channel::X && c.along_x()) || (axis == Channel::Y && c.along_y())
}

/// Whether some mark binds a column of that class to the axis.
pub open spec fn some_column_is(entries: Seq<Entry<'_>>, axis: Channel, class: AxisClass) -> bool {
    exists|i: int, c: Channel|
        0 <= i < entries.len() && in_family(c, axis) && #[trigger] bound_class(entries[i], c)
            == Some(class)
}

fn peek(e: Entry<'_>, c: Channel) -> (r: Option<AxisClass>)
    ensures
        r == bound_class(e, c),
{
    match e.channel_map.get(c) {
        Some(name) => match e.batch.column(name) {
            Some(Cells::Utf8(_)) | Some(Cells::Date32(_)) => Some(AxisClass::Band),
            Some(Cells::Float64(_)) | Some(Cells::Float32(_)) => Some(AxisClass::Continuous),
            Some(Cells::Int(_, _)) | Some(Cells::UInt(_, _)) => Some(AxisClass::Continuous),
            Some(Cells::Timestamp(_, _)) => Some(AxisClass::Continuous),
            _ => None,
        },
        None => None,
    }
}

/// Classify a positional axis by the types of the columns bound to it, without
/// reading a value. A mixed axis is continuous; an axis no column is bound to
/// has no class, and neither has a channel that is no axis.
pub fn positional_axis_class(entries: &Vec<Entry<'_>>, axis: Channel) -> (r: Option<AxisClass>)
    ensures
        r == if some_column_is(entries@, axis, AxisClass::Continuous) {
            Some(AxisClass::Continuous)
        } else if some_column_is(entries@, axis, AxisClass::Band) {
            Some(AxisClass::Band)
        } else {
            None
        },
{
    let (a, b, c) = match axis {
        Channel::X => (Channel::X, Channel::X1, Channel::X2),
        Channel::Y => (Channel::Y, Channel::Y1, Channel::Y2),
        _ => {
            return None;
        },
    };
    let mut continuous = false;
    let mut band = false;
    let mut i: usize = 0;
    while i < entries.len()
        invariant
            i <= entries.len(),
            axis == Channel::X || axis == Channel::Y,
            forall|ch: Channel| in_family(ch, axis) <==> ch == a || ch == b || ch == c,
            continuous == some_column_is(entries@.take(i as int), axis, AxisClass::Continuous),
            band == some_column_is(entries@.take(i as int), axis, AxisClass::Band),
        decreases entries.len() - i,
    {
        let e = entries[i];
        let one = peek(e, a);
        let two = peek(e, b);
        let three = peek(e, c);
        let continuous_here = is_class(one, AxisClass::Continuous) || is_class(
            two,
            AxisClass::Continuous,
        ) || is_class(three, AxisClass::Continuous);
        let band_here = is_class(one, AxisClass::Band) || is_class(two, AxisClass::Band)
            || is_class(three, AxisClass::Band);
        proof {
            lemma_one_more(entries@, i as int, axis, AxisClass::Continuous, a, b, c);
            lemma_one_more(entries@, i as int, axis, AxisClass::Band, a, b, c);
        }
        continuous = continuous || continuous_here;
        band = band || band_here;
        i = i + 1;
    }
    assert(entries@.take(i as int) =~= entries@);
    if continuous {
        Some(AxisClass::Continuous)
    } else if band {
        Some(AxisClass::Band)
    } else {
        None
    }
}

fn is_class(class: Option<AxisClass>, wanted: AxisClass) -> (r: bool)
    ensures
        r == (class == Some(wanted)),
{
    match class {
        Some(c) => c == wanted,
        None => false,
    }
}

proof fn lemma_one_more(
    entries: Seq<Entry<'_>>,
    i: int,
    axis: Channel,
    class: AxisClass,
    a: Channel,
    b: Channel,
    c: Channel,
)
    requires
        0 <= i < entries.len(),
        forall|ch: Channel| in_family(ch, axis) <==> ch == a || ch == b || ch == c,
    ensures
        some_column_is(entries.take(i + 1), axis, class) == (some_column_is(
            entries.take(i),
            axis,
            class,
        ) || bound_class(entries[i], a) == Some(class) || bound_class(entries[i], b) == Some(class)
            || bound_class(entries[i], c) == Some(class)),
{
    let now = entries.take(i + 1);
    let before = entries.take(i);
    if some_column_is(now, axis, class) {
        let (k, ch) = choose|k: int, ch: Channel|
            0 <= k < now.len() && in_family(ch, axis) && #[trigger] bound_class(now[k], ch)
                == Some(class);
        if k < i {
            assert(bound_class(before[k], ch) == Some(class));
        }
    }
    if some_column_is(before, axis, class) {
        let (k, ch) = choose|k: int, ch: Channel|
            0 <= k < before.len() && in_family(ch, axis) && #[trigger] bound_class(before[k], ch)
                == Some(class);
        assert(bound_class(now[k], ch) == Some(class));
    }
    assert(now[i] == entries[i]);
    if bound_class(entries[i], a) == Some(class) {
        assert(bound_class(now[i], a) == Some(class));
    }
    if bound_class(entries[i], b) == Some(class) {
        assert(bound_class(now[i], b) == Some(class));
    }
    if bound_class(entries[i], c) == Some(class) {
        assert(bound_class(now[i], c) == Some(class));
    }
}

/// The union of several domains holds each domain of its kind whose bounds are
/// numbers.
pub proof fn a_union_holds_every_domain(v: Seq<ScaleModel>, range: Range, i: int)
    requires
        0 <= i < v.len(),
        same_kind(v[0], v[i]),
        within(v[i], v[i]),
    ensures
        union_of(v, range) matches Some(u) ==> within(v[i], u),
{
    let inf = Number::from_bits(INFINITY);
    let neg = Number::from_bits(NEG_INFINITY);
    let ramps = v[0] is Sequential;
    lemma_present_holds(low_ends(v, ramps), i);
    lemma_present_holds(high_ends(v, ramps), i);
    lemma_present_holds(first_instants(v), i);
    lemma_present_holds(last_instants(v), i);
    lemma_lowest(inf, present(low_ends(v, ramps)));
    lemma_highest(neg, present(high_ends(v, ramps)));
    lemma_integer_extremes(i64::MAX, i64::MIN, present(first_instants(v)));
    lemma_integer_extremes(i64::MAX, i64::MIN, present(last_instants(v)));
}

/// The union of categorical scales leaves no category out and has none twice.
pub proof fn a_union_holds_every_category(v: Seq<ScaleModel>, colours: bool, i: int, t: Seq<char>)
    requires
        0 <= i < v.len(),
    ensures
        all_categories(v, colours).no_duplicates(),
        categories_of(v[i], colours).contains(t) ==> all_categories(v, colours).contains(t),
    decreases v.len(),
{
    let rest = v.drop_last();
    lemma_union_is_distinct(rest, colours);
    lemma_gathered(all_categories(rest, colours), categories_of(v.last(), colours));
    if i < rest.len() {
        a_union_holds_every_category(rest, colours, i, t);
    }
}

proof fn lemma_union_is_distinct(v: Seq<ScaleModel>, colours: bool)
    ensures
        all_categories(v, colours).no_duplicates(),
    decreases v.len(),
{
    if v.len() > 0 {
        lemma_union_is_distinct(v.drop_last(), colours);
        lemma_gathered(all_categories(v.drop_last(), colours), categories_of(v.last(), colours));
    }
}

/// A scale inferred from a column is its own union.
proof fn lemma_union_of_one(cells: CellSeq, range: Range, c: Channel, palette: Seq<Rgba>)
    ensures
        column_scale(cells, range, c, palette) matches Some(s) ==> union_of(seq![s], range)
            == Some(s),
{
    if let Some(s) = column_scale(cells, range, c, palette) {
        let v = seq![s];
        let inf = Number::from_bits(INFINITY);
        let neg = Number::from_bits(NEG_INFINITY);
        reveal_with_fuel(present, 2);
        reveal_with_fuel(lowest_from, 2);
        reveal_with_fuel(highest_from, 2);
        reveal_with_fuel(least_from, 2);
        reveal_with_fuel(greatest_from, 2);
        reveal_with_fuel(all_categories, 2);
        assert(v.drop_last() =~= Seq::<ScaleModel>::empty());
        match s {
            ScaleModel::Linear { domain_min, domain_max, .. } => {
                assert(low_ends(v, false) =~= seq![Some(domain_min)]);
                assert(high_ends(v, false) =~= seq![Some(domain_max)]);
                assert(low_ends(v, false).drop_last() =~= Seq::<Option<Number>>::empty());
                assert(high_ends(v, false).drop_last() =~= Seq::<Option<Number>>::empty());
                assert(present(low_ends(v, false)) =~= seq![domain_min]);
                assert(present(high_ends(v, false)) =~= seq![domain_max]);
                assert(seq![domain_min].drop_last() =~= Seq::<Number>::empty());
                assert(seq![domain_max].drop_last() =~= Seq::<Number>::empty());
                lemma_lowest(inf, present(numeric(cells)->0));
                lemma_highest(neg, present(numeric(cells)->0));
                assert(domain_min.lt(inf));
                assert(neg.lt(domain_max) || domain_max == neg);
            },
            ScaleModel::Band { categories, .. } => {
                lemma_gathered(Seq::empty(), present(textual(cells)->0));
                lemma_gathered_of_distinct(categories);
            },
            ScaleModel::Colour { categories, .. } => {
                let w = textual(cells)->0;
                lemma_gathered(Seq::empty(), present(w));
                lemma_ordered_of_distinct(gathered(Seq::empty(), present(w)));
                lemma_gathered_of_distinct(categories);
                lemma_ordered_stays(categories);
            },
            ScaleModel::Time { domain_min_us, domain_max_us, .. } => {
                assert(first_instants(v) =~= seq![Some(domain_min_us)]);
                assert(last_instants(v) =~= seq![Some(domain_max_us)]);
                assert(first_instants(v).drop_last() =~= Seq::<Option<i64>>::empty());
                assert(last_instants(v).drop_last() =~= Seq::<Option<i64>>::empty());
                assert(present(first_instants(v)) =~= seq![domain_min_us]);
                assert(present(last_instants(v)) =~= seq![domain_max_us]);
                assert(seq![domain_min_us].drop_last() =~= Seq::<i64>::empty());
                assert(seq![domain_max_us].drop_last() =~= Seq::<i64>::empty());
                if let CellSeq::Timestamp(_, w) = cells {
                    lemma_integer_extremes(i64::MAX, i64::MIN, present(w));
                }
            },
            ScaleModel::Sequential { .. } => {},
        }
    }
}

/// A plot of one mark shares the mark's own scales: inferring for several
/// marks of which there is one is inferring for the one.
pub proof fn one_mark_shares_its_own_scales(
    e: Entry<'_>,
    c: Channel,
    x_range: Range,
    y_range: Range,
    palette: Seq<Rgba>,
)
    ensures
        shared_slot(seq![e], c, x_range, y_range, palette) == with_literal(
            inferred_slot(*e.batch, *e.channel_map, c, x_range, y_range, palette),
            e.channel_map.literals.at(c),
            c,
            x_range,
            y_range,
        ),
{
    let s = inferred_slot(*e.batch, *e.channel_map, c, x_range, y_range, palette);
    let slots = slots_of(seq![e], c, x_range, y_range, palette);
    let range = channel_range(c, x_range, y_range);
    reveal_with_fuel(present, 2);
    reveal_with_fuel(with_literals, 2);
    assert(slots =~= seq![s]);
    assert(slots.drop_last() =~= Seq::<Option<ScaleModel>>::empty());
    assert(seq![e].drop_last() =~= Seq::<Entry<'_>>::empty());
    if let Some(name) = e.channel_map.column(c) {
        if let Some(cells) = e.batch.cells(name) {
            lemma_union_of_one(cells, range, c, palette);
        }
    }
    if let Some(model) = s {
        assert(present(slots) =~= seq![model]);
    } else {
        assert(present(slots) =~= Seq::<ScaleModel>::empty());
    }
}

/// Whether two lists of scales are linear and have the same members.
pub open spec fn same_linear_members(v: Seq<ScaleModel>, w: Seq<ScaleModel>) -> bool {
    &&& forall|i: int| 0 <= i < v.len() ==> (#[trigger] v[i]) is Linear && w.contains(v[i])
    &&& forall|i: int| 0 <= i < w.len() ==> (#[trigger] w[i]) is Linear && v.contains(w[i])
}

/// The union of linear scales does not ask which came first: lists with the
/// same members have unions with the same ends, or none.
pub proof fn a_linear_union_has_no_order(v: Seq<ScaleModel>, w: Seq<ScaleModel>, range: Range)
    requires
        same_linear_members(v, w),
    ensures
        union_of(v, range) is Some <==> union_of(w, range) is Some,
        union_of(v, range) is Some ==> {
            let (a, b) = (union_of(v, range)->0, union_of(w, range)->0);
            &&& a is Linear && b is Linear
            &&& a->Linear_domain_min.same(b->Linear_domain_min)
            &&& a->Linear_domain_max.same(b->Linear_domain_max)
            &&& a.range_start() == b.range_start() && a.range_end() == b.range_end()
        },
{
    if v.len() > 0 {
        assert(w.contains(v[0]));
    }
    if w.len() > 0 {
        assert(v.contains(w[0]));
    }
    lemma_no_farther(v, w);
    lemma_no_farther(w, v);
}

/// Where all members of one list are in another, the other's ends are no
/// nearer.
proof fn lemma_no_farther(v: Seq<ScaleModel>, w: Seq<ScaleModel>)
    requires
        forall|i: int| 0 <= i < v.len() ==> (#[trigger] v[i]) is Linear && w.contains(v[i]),
    ensures
        ({
            let (inf, neg) = (Number::from_bits(INFINITY), Number::from_bits(NEG_INFINITY));
            let low = lowest_from(inf, present(low_ends(v, false)));
            let high = highest_from(neg, present(high_ends(v, false)));
            &&& !low.is_nan() && !high.is_nan()
            &&& lowest_from(inf, present(low_ends(w, false))).le(low)
            &&& high.le(highest_from(neg, present(high_ends(w, false))))
        }),
{
    let (inf, neg) = (Number::from_bits(INFINITY), Number::from_bits(NEG_INFINITY));
    let (lows, highs) = (low_ends(v, false), high_ends(v, false));
    let low = lowest_from(inf, present(lows));
    let high = highest_from(neg, present(highs));
    lemma_lowest(inf, present(lows));
    lemma_highest(neg, present(highs));
    lemma_lowest(inf, present(low_ends(w, false)));
    lemma_highest(neg, present(high_ends(w, false)));
    if low != inf {
        lemma_present_comes(lows, low);
        let i = choose|i: int| 0 <= i < lows.len() && #[trigger] lows[i] == Some(low);
        assert(w.contains(v[i]));
        let k = choose|k: int| 0 <= k < w.len() && w[k] == v[i];
        lemma_present_holds(low_ends(w, false), k);
    }
    if high != neg {
        lemma_present_comes(highs, high);
        let i = choose|i: int| 0 <= i < highs.len() && #[trigger] highs[i] == Some(high);
        assert(w.contains(v[i]));
        let k = choose|k: int| 0 <= k < w.len() && w[k] == v[i];
        lemma_present_holds(high_ends(w, false), k);
    }
}

} // verus!
