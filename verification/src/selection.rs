//! Saying, in the plot's own ink, which range the reader has selected.
//!
//! A committed selection is drawn as a low-alpha wash over the selected region
//! plus a rule at each constrained edge. Only the constrained edges are ruled.
use vstd::prelude::*;

use crate::channel::Channel;
use crate::drawing::{drawn_for, DrawOp, Op, Outline, Point, Rect, Scene, Shape};
use crate::folds::present;
use crate::ink::ChartInk;
use crate::layout::ChartLayout;
use crate::number::Number;
use crate::numerals::TWO;
use crate::scale::{Scale, ScaleModel};
use crate::scale_set::ScaleSet;
use crate::words::texts;

verus! {

/// What a plot's own gesture is holding, per positional channel, in the data
/// units the channel's scale reads.
#[derive(Debug)]
pub struct CommittedSelection {
    /// What the x channel is constrained to, if anything.
    pub x: Option<Selected>,
    /// What the y channel is constrained to, if anything.
    pub y: Option<Selected>,
}

impl Default for CommittedSelection {
    fn default() -> (r: Self)
        ensures
            r.x is None,
            r.y is None,
    {
        CommittedSelection { x: None, y: None }
    }
}

impl CommittedSelection {
    pub open spec fn spec_is_empty(&self) -> bool {
        self.x is None && self.y is None
    }

    /// Whether this holds no constraint at all.
    #[must_use]
    #[verifier::when_used_as_spec(spec_is_empty)]
    pub fn is_empty(&self) -> (r: bool)
        ensures
            r == self.spec_is_empty(),
    {
        self.x.is_none() && self.y.is_none()
    }
}

/// One channel's constraint.
#[derive(Debug)]
pub enum Selected {
    /// Inclusive numeric bounds in the channel's own data units.
    Interval(Number, Number),
    /// Categories picked off a band scale.
    Categories(Vec<String>),
}

/// A stretch of one axis, in pixels.
#[derive(Debug, Clone, Copy, PartialEq, Eq, Structural)]
pub struct Span {
    pub from: Number,
    pub to: Number,
}

/// The stretch between two values of a scale, in order.
pub open spec fn interval_span(scale: ScaleModel, lo: Number, hi: Number) -> Span {
    let a = scale.map_f64(lo);
    let b = scale.map_f64(hi);
    Span { from: a.min(b), to: a.max(b) }
}

/// The slot of a category, where the scale carries it.
pub open spec fn category_span(scale: ScaleModel, width: Number, name: Seq<char>) -> Option<Span> {
    match scale.map_category(name) {
        Some(centre) => {
            let half = width.over(Number::from_bits(TWO));
            Some(Span { from: centre.minus(half), to: centre.plus(half) })
        },
        None => None,
    }
}

/// One channel's constraint as stretches of its axis. Empty when it cannot be
/// placed on the scale.
pub open spec fn placed(scale: ScaleModel, selected: Selected) -> Seq<Span> {
    match selected {
        Selected::Interval(lo, hi) => match scale {
            ScaleModel::Linear { .. } => seq![interval_span(scale, lo, hi)],
            ScaleModel::Time { .. } => seq![interval_span(scale, lo, hi)],
            _ => Seq::empty(),
        },
        Selected::Categories(names) => match scale.band_width() {
            Some(width) => present(
                texts(names@).map_values(|n: Seq<char>| category_span(scale, width, n)),
            ),
            None => Seq::empty(),
        },
    }
}

/// One channel's constraint as pixel spans on that axis, resolved through the
/// plot's displayed scale.
pub fn spans(scale: &Scale, selected: &Selected) -> (r: Vec<Span>)
    ensures
        r@ == placed(scale@, *selected),
{
    let mut out: Vec<Span> = Vec::new();
    match selected {
        Selected::Interval(lo, hi) => {
            let continuous = match scale {
                Scale::Linear { .. } => true,
                Scale::Time { .. } => true,
                _ => false,
            };
            if continuous {
                let a = scale.map_f64(*lo);
                let b = scale.map_f64(*hi);
                out.push(Span { from: a.min(b), to: a.max(b) });
            }
            assert(out@ =~= placed(scale@, *selected));
        },
        Selected::Categories(names) => {
            let width = match scale.band_width() {
                Some(w) => w,
                None => {
                    return out;
                },
            };
            let half = width.over(Number::from_bits(TWO));
            let ghost all = texts(names@).map_values(
                |n: Seq<char>| category_span(scale@, width, n),
            );
            let mut i: usize = 0;
            assert(all.take(0) =~= Seq::<Option<Span>>::empty());
            while i < names.len()
                invariant
                    i <= names.len(),
                    half == width.over(Number::from_bits(TWO)),
                    all == texts(names@).map_values(
                        |n: Seq<char>| category_span(scale@, width, n),
                    ),
                    out@ == present(all.take(i as int)),
                decreases names.len() - i,
            {
                assert(all.take(i + 1).drop_last() =~= all.take(i as int));
                assert(all[i as int] == category_span(scale@, width, names@[i as int]@));
                if let Some(centre) = scale.map_category(names[i].as_str()) {
                    out.push(Span { from: centre.minus(half), to: centre.plus(half) });
                }
                i = i + 1;
            }
            assert(all.take(i as int) =~= all);
        },
    }
    out
}

/// One axis of the selection's rectangle: the whole axis where the channel is
/// not constrained, and nothing where it is by categories or by an interval
/// that the scale cannot place.
pub open spec fn axis_span(
    scale: Option<ScaleModel>,
    selected: Option<Selected>,
    whole: Span,
) -> Option<Span> {
    match selected {
        None => Some(whole),
        Some(Selected::Interval(lo, hi)) => match scale {
            Some(s) => if s is Linear || s is Time {
                Some(interval_span(s, lo, hi))
            } else {
                None
            },
            None => None,
        },
        Some(Selected::Categories(_)) => None,
    }
}

fn axis_stretch(scale: Option<&Scale>, selected: &Option<Selected>, whole: Span) -> (r: Option<
    Span,
>)
    ensures
        r == axis_span(
            match scale {
                Some(s) => Some(s@),
                None => None,
            },
            *selected,
            whole,
        ),
{
    match selected {
        None => Some(whole),
        Some(Selected::Interval(lo, hi)) => match scale {
            Some(s) => match s {
                Scale::Linear { .. } | Scale::Time { .. } => {
                    let a = s.map_f64(*lo);
                    let b = s.map_f64(*hi);
                    Some(Span { from: a.min(b), to: a.max(b) })
                },
                _ => None,
            },
            None => None,
        },
        Some(Selected::Categories(_)) => None,
    }
}

/// The plot's two axes as stretches.
pub open spec fn whole_x(layout: ChartLayout) -> Span {
    Span { from: layout.plot_area().x0, to: layout.plot_area().x1 }
}

pub open spec fn whole_y(layout: ChartLayout) -> Span {
    Span { from: layout.plot_area().y0, to: layout.plot_area().y1 }
}

/// Whether a plot has no room to draw in.
pub open spec fn no_room(layout: ChartLayout) -> bool {
    let area = layout.plot_area();
    area.x1.le(area.x0) || area.y1.le(area.y0)
}

/// The committed selection's own rectangle on this plot.
///
/// `None` when the selection is empty, when a constrained channel has no
/// scale or one that cannot place the constraint, when a channel is constrained
/// by categories, or when the plot has no room.
#[must_use]
pub fn committed_selection_rect(
    layout: &ChartLayout,
    scales: &ScaleSet,
    selection: &CommittedSelection,
) -> (r: Option<Rect>)
    ensures
        r == if selection.is_empty() || no_room(*layout) {
            None
        } else {
            match (
                axis_span(scales.at(Channel::X), selection.x, whole_x(*layout)),
                axis_span(scales.at(Channel::Y), selection.y, whole_y(*layout)),
            ) {
                (Some(x), Some(y)) => Some(Rect { x0: x.from, y0: y.from, x1: x.to, y1: y.to }),
                _ => None,
            }
        },
{
    if selection.is_empty() {
        return None;
    }
    let area = layout.plot_area();
    if area.x1.le(area.x0) || area.y1.le(area.y0) {
        return None;
    }
    let x = axis_stretch(
        scales.get(Channel::X),
        &selection.x,
        Span { from: area.x0, to: area.x1 },
    );
    let y = axis_stretch(
        scales.get(Channel::Y),
        &selection.y,
        Span { from: area.y0, to: area.y1 },
    );
    match (x, y) {
        (Some(x), Some(y)) => Some(Rect { x0: x.from, y0: y.from, x1: x.to, y1: y.to }),
        _ => None,
    }
}

/// The stretches one axis of the selection is drawn over, where it can be
/// placed.
pub open spec fn axis_spans(
    scale: Option<ScaleModel>,
    selected: Option<Selected>,
    whole: Span,
) -> Option<Seq<Span>> {
    match selected {
        None => Some(seq![whole]),
        Some(sel) => match scale {
            Some(s) => if placed(s, sel).len() == 0 {
                None
            } else {
                Some(placed(s, sel))
            },
            None => None,
        },
    }
}

fn axis_stretches(scale: Option<&Scale>, selected: &Option<Selected>, whole: Span) -> (r: Option<
    Vec<Span>,
>)
    ensures
        match r {
            Some(v) => axis_spans(
                match scale {
                    Some(s) => Some(s@),
                    None => None,
                },
                *selected,
                whole,
            ) == Some(v@),
            None => axis_spans(
                match scale {
                    Some(s) => Some(s@),
                    None => None,
                },
                *selected,
                whole,
            ) is None,
        },
{
    match selected {
        None => {
            let mut v: Vec<Span> = Vec::new();
            v.push(whole);
            assert(v@ =~= seq![whole]);
            Some(v)
        },
        Some(sel) => match scale {
            Some(s) => {
                let v = spans(s, sel);
                if v.len() == 0 {
                    None
                } else {
                    Some(v)
                }
            },
            None => None,
        },
    }
}

/// An upright rule.
pub open spec fn upright(x: Number, y: Span) -> Outline {
    Outline::Line(Point { x, y: y.from }, Point { x, y: y.to })
}

/// A level rule.
pub open spec fn level(x: Span, y: Number) -> Outline {
    Outline::Line(Point { x: x.from, y }, Point { x: x.to, y })
}

/// What is drawn over one region of the selection: the wash, and a rule at
/// each edge that the selection constrains.
pub open spec fn region_ops(x: Span, y: Span, rule_x: bool, rule_y: bool, ink: ChartInk) -> Seq<
    Op,
> {
    let bound = ink.selection_bound;
    let width = Number::from_bits(TWO);
    seq![
        Op::Fill(
            ink.selection_wash,
            Outline::Rect(Rect { x0: x.from, y0: y.from, x1: x.to, y1: y.to }),
        ),
    ] + (if rule_x {
        seq![
            Op::Stroke(width, bound, upright(x.from, y)),
            Op::Stroke(width, bound, upright(x.to, y)),
        ]
    } else {
        Seq::empty()
    }) + (if rule_y {
        seq![
            Op::Stroke(width, bound, level(x, y.from)),
            Op::Stroke(width, bound, level(x, y.to)),
        ]
    } else {
        Seq::empty()
    })
}

fn draw_region(scene: &mut Scene, x: Span, y: Span, rule_x: bool, rule_y: bool, ink: ChartInk)
    ensures
        final(scene)@ == old(scene)@ + region_ops(x, y, rule_x, rule_y, ink),
{
    let width = Number::from_bits(TWO);
    let bound = ink.selection_bound;
    scene.fill(
        ink.selection_wash,
        Shape::Rect(Rect { x0: x.from, y0: y.from, x1: x.to, y1: y.to }),
    );
    if rule_x {
        scene.stroke(
            width,
            bound,
            Shape::Line(Point { x: x.from, y: y.from }, Point { x: x.from, y: y.to }),
        );
        scene.stroke(
            width,
            bound,
            Shape::Line(Point { x: x.to, y: y.from }, Point { x: x.to, y: y.to }),
        );
    }
    if rule_y {
        scene.stroke(
            width,
            bound,
            Shape::Line(Point { x: x.from, y: y.from }, Point { x: x.to, y: y.from }),
        );
        scene.stroke(
            width,
            bound,
            Shape::Line(Point { x: x.from, y: y.to }, Point { x: x.to, y: y.to }),
        );
    }
    assert(scene@ =~= old(scene)@ + region_ops(x, y, rule_x, rule_y, ink));
}

/// What is drawn over one stretch of x and all stretches of y.
pub open spec fn column_ops(
    x: Span,
    ys: Seq<Span>,
    rule_x: bool,
    rule_y: bool,
    ink: ChartInk,
) -> Seq<Op> {
    drawn_for(ys.len(), |j: int| region_ops(x, ys[j], rule_x, rule_y, ink))
}

/// What a committed selection draws: nothing where nothing is held or a
/// constraint cannot be placed, and otherwise its regions, held to the plot.
pub open spec fn selection_ops(
    layout: ChartLayout,
    scales: ScaleSet,
    selection: CommittedSelection,
) -> Seq<Op> {
    if selection.is_empty() || no_room(layout) {
        Seq::empty()
    } else {
        match (
            axis_spans(scales.at(Channel::X), selection.x, whole_x(layout)),
            axis_spans(scales.at(Channel::Y), selection.y, whole_y(layout)),
        ) {
            (Some(xs), Some(ys)) => seq![Op::PushClip(layout.plot_area())] + drawn_for(
                xs.len(),
                |i: int|
                    column_ops(xs[i], ys, selection.x is Some, selection.y is Some, scales.ink),
            ) + seq![Op::Pop],
            _ => Seq::empty(),
        }
    }
}

/// Draw the committed selection `selection` holds on this plot.
///
/// A no-op when nothing is held, when the constrained channel has no scale, or
/// when the constraint cannot be placed on the scale it names.
pub fn render_committed_selection(
    scene: &mut Scene,
    layout: &ChartLayout,
    scales: &ScaleSet,
    selection: &CommittedSelection,
)
    ensures
        final(scene)@ == old(scene)@ + selection_ops(*layout, *scales, *selection),
{
    let ghost before = scene@;
    assert(before + Seq::<Op>::empty() =~= before);
    if selection.is_empty() {
        return ;
    }
    let area = layout.plot_area();
    if area.x1.le(area.x0) || area.y1.le(area.y0) {
        return ;
    }
    let xs = match axis_stretches(
        scales.get(Channel::X),
        &selection.x,
        Span { from: area.x0, to: area.x1 },
    ) {
        Some(v) => v,
        None => {
            return ;
        },
    };
    let ys = match axis_stretches(
        scales.get(Channel::Y),
        &selection.y,
        Span { from: area.y0, to: area.y1 },
    ) {
        Some(v) => v,
        None => {
            return ;
        },
    };
    let rule_x = selection.x.is_some();
    let rule_y = selection.y.is_some();
    let ink = scales.ink;
    scene.push(DrawOp::PushClip(area));
    let ghost start = scene@;
    let ghost f = |i: int| column_ops(xs@[i], ys@, rule_x, rule_y, ink);
    assert(start + drawn_for(0, f) =~= start);
    let mut i: usize = 0;
    while i < xs.len()
        invariant
            i <= xs.len(),
            f == (|i: int| column_ops(xs@[i], ys@, rule_x, rule_y, ink)),
            scene@ == start + drawn_for(i as nat, f),
        decreases xs.len() - i,
    {
        let ghost here = scene@;
        let ghost g = |j: int| region_ops(xs@[i as int], ys@[j], rule_x, rule_y, ink);
        assert(here + drawn_for(0, g) =~= here);
        let mut j: usize = 0;
        while j < ys.len()
            invariant
                i < xs.len(),
                j <= ys.len(),
                g == (|j: int| region_ops(xs@[i as int], ys@[j], rule_x, rule_y, ink)),
                scene@ == here + drawn_for(j as nat, g),
            decreases ys.len() - j,
        {
            let ghost now = scene@;
            draw_region(scene, xs[i], ys[j], rule_x, rule_y, ink);
            assert(now + g(j as int) =~= here + drawn_for((j + 1) as nat, g));
            j = j + 1;
        }
        assert(here + f(i as int) =~= start + drawn_for((i + 1) as nat, f));
        i = i + 1;
    }
    scene.push(DrawOp::Pop);
    assert(scene@ =~= before + selection_ops(*layout, *scales, *selection));
}

/// An unconstrained channel spans the plot.
pub proof fn an_unconstrained_axis_is_whole(scale: Option<ScaleModel>, whole: Span)
    ensures
        axis_span(scale, None, whole) == Some(whole),
        axis_spans(scale, None, whole) == Some(seq![whole]),
{
}

/// An axis of the selection's rectangle is the one stretch of that axis that is
/// drawn.
pub proof fn the_rectangle_is_what_is_drawn(
    scale: Option<ScaleModel>,
    selected: Option<Selected>,
    whole: Span,
)
    ensures
        axis_span(scale, selected, whole) matches Some(span) ==> axis_spans(scale, selected, whole)
            == Some(seq![span]),
{
}

} // verus!
