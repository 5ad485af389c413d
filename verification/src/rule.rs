//! Rules: straight lines across the plot.
use vstd::prelude::*;

use crate::batch::Batch;
use crate::channel::{Channel, ChannelMap};
use crate::dash::{segment_ops, stroke_segments, Segment};
use crate::drawing::{Op, Point, Scene};
use crate::folds::present;
use crate::highlight::HighlightState;
use crate::number::Number;
use crate::paint::{constant_ink, single_ink};
use crate::regression::LINE_STROKE_WIDTH;
use crate::scale_set::ScaleSet;

verus! {

/// Which axis a rule is positioned on.
#[derive(Debug, Clone, Copy, PartialEq, Eq, Structural)]
pub enum RuleAxis {
    /// Vertical lines at each x position, spanning the full y-extent.
    X,
    /// Horizontal lines at each y position, spanning the full x-extent.
    Y,
}

impl RuleAxis {
    pub open spec fn spec_position(self) -> Channel {
        match self {
            RuleAxis::X => Channel::X,
            RuleAxis::Y => Channel::Y,
        }
    }

    /// The channel that places the rules.
    #[verifier::when_used_as_spec(spec_position)]
    pub fn position(self) -> (r: Channel)
        ensures
            r == self.spec_position(),
    {
        match self {
            RuleAxis::X => Channel::X,
            RuleAxis::Y => Channel::Y,
        }
    }

    pub open spec fn spec_span(self) -> Channel {
        match self {
            RuleAxis::X => Channel::Y,
            RuleAxis::Y => Channel::X,
        }
    }

    /// The channel that the rules run along.
    #[verifier::when_used_as_spec(spec_span)]
    pub fn span(self) -> (r: Channel)
        ensures
            r == self.spec_span(),
    {
        match self {
            RuleAxis::X => Channel::Y,
            RuleAxis::Y => Channel::X,
        }
    }
}

/// Renders rule marks: straight lines across the plot, placed by a column (one
/// rule per row) or by a constant (one rule). A rule spans the other axis, so
/// that axis has to have a scale.
#[derive(Debug, Clone, Copy)]
pub struct RuleRenderer {
    /// Orientation.
    pub axis: RuleAxis,
}

/// The values that place rules: a constant before a column.
pub open spec fn rule_values(batch: Batch, channel_map: ChannelMap, c: Channel) -> Seq<Number> {
    match channel_map.literals.at(c) {
        Some(v) => seq![v],
        None => match channel_map.column(c) {
            Some(column) => match batch.numbers(column) {
                Some(v) => present(v),
                None => Seq::empty(),
            },
            None => Seq::empty(),
        },
    }
}

/// A rule at a pixel, between two others on the axis it runs along.
pub open spec fn rule_at(axis: RuleAxis, p: Number, from: Number, to: Number) -> Segment {
    match axis {
        RuleAxis::X => Segment { from: Point { x: p, y: from }, to: Point { x: p, y: to } },
        RuleAxis::Y => Segment { from: Point { x: from, y: p }, to: Point { x: to, y: p } },
    }
}

fn lay_rule(axis: RuleAxis, p: Number, from: Number, to: Number) -> (r: Segment)
    ensures
        r == rule_at(axis, p, from, to),
{
    match axis {
        RuleAxis::X => Segment { from: Point { x: p, y: from }, to: Point { x: p, y: to } },
        RuleAxis::Y => Segment { from: Point { x: from, y: p }, to: Point { x: to, y: p } },
    }
}

/// The values of a column that are there.
pub fn present_values(v: &Vec<Option<Number>>) -> (out: Vec<Number>)
    ensures
        out@ == present(v@),
{
    let mut out: Vec<Number> = Vec::new();
    let mut i: usize = 0;
    assert(v@.take(0) =~= Seq::<Option<Number>>::empty());
    while i < v.len()
        invariant
            i <= v.len(),
            out@ == present(v@.take(i as int)),
        decreases v.len() - i,
    {
        assert(v@.take(i + 1).drop_last() =~= v@.take(i as int));
        if let Some(x) = v[i] {
            out.push(x);
        }
        i = i + 1;
    }
    assert(v@.take(i as int) =~= v@);
    out
}

fn values(batch: &Batch, channel_map: &ChannelMap, c: Channel) -> (out: Vec<Number>)
    ensures
        out@ == rule_values(*batch, *channel_map, c),
{
    let mut out: Vec<Number> = Vec::new();
    if let Some(v) = channel_map.literal(c) {
        out.push(v);
        assert(out@ =~= seq![v]);
    } else if let Some(column) = channel_map.get(c) {
        if let Some(v) = batch.column_as_f64(column) {
            return present_values(&v);
        }
    }
    out
}

impl RuleRenderer {
    /// The rules that the mark draws.
    pub open spec fn rules(self, batch: Batch, channel_map: ChannelMap, scales: ScaleSet) -> Seq<
        Segment,
    > {
        match (scales.at(self.axis.position()), scales.at(self.axis.span())) {
            (Some(position), Some(span)) => rule_values(
                batch,
                channel_map,
                self.axis.position(),
            ).map_values(
                |v: Number|
                    rule_at(self.axis, position.map_f64(v), span.range_start(), span.range_end()),
            ),
            _ => Seq::empty(),
        }
    }

    /// What the mark draws.
    pub open spec fn drawn(self, batch: Batch, channel_map: ChannelMap, scales: ScaleSet) -> Seq<
        Op,
    > {
        segment_ops(
            self.rules(batch, channel_map, scales),
            Number::from_bits(LINE_STROKE_WIDTH),
            single_ink(channel_map, scales.ink),
        )
    }

    /// Render the mark. A highlight leaves it as it is.
    pub fn render(
        &self,
        scene: &mut Scene,
        batch: &Batch,
        channel_map: &ChannelMap,
        scales: &ScaleSet,
        _highlight: Option<&HighlightState>,
    )
        ensures
            final(scene)@ == old(scene)@ + self.drawn(*batch, *channel_map, *scales),
    {
        let axis = self.axis;
        let mut segments: Vec<Segment> = Vec::new();
        if let (Some(position), Some(span)) = (
            scales.get(axis.position()),
            scales.get(axis.span()),
        ) {
            let from = span.range_start();
            let to = span.range_end();
            let places = values(batch, channel_map, axis.position());
            let ghost all = self.rules(*batch, *channel_map, *scales);
            let mut i: usize = 0;
            while i < places.len()
                invariant
                    i <= places.len(),
                    axis == self.axis,
                    from == span@.range_start(),
                    to == span@.range_end(),
                    places@ == rule_values(*batch, *channel_map, axis.position()),
                    scales.at(axis.position()) == Some(position@),
                    scales.at(axis.span()) == Some(span@),
                    all == self.rules(*batch, *channel_map, *scales),
                    segments@ == all.take(i as int),
                decreases places.len() - i,
            {
                segments.push(lay_rule(axis, position.map_f64(places[i]), from, to));
                i = i + 1;
                assert(segments@ =~= all.take(i as int));
            }
            assert(segments@ =~= all);
        }
        assert(segments@ =~= self.rules(*batch, *channel_map, *scales));
        let colour = constant_ink(channel_map, scales.ink);
        stroke_segments(scene, &segments, Number::from_bits(LINE_STROKE_WIDTH), colour);
    }
}

} // verus!
