//! Pinned positional domains: the frame a plot keeps while filters move the
//! rows underneath it.
use vstd::prelude::*;

use crate::categories::copied_strings;
use crate::channel::Channel;
use crate::number::Number;
use crate::scale::{Scale, ScaleModel};
use crate::scale_set::ScaleSet;
use crate::words::texts;

verus! {

/// One positional axis's pinned domain. The pixel range is not carried: it
/// belongs to the layout.
#[derive(Debug, PartialEq, Eq)]
pub enum PinnedDomain {
    /// A continuous numeric extent.
    Linear(Number, Number),
    /// A microsecond-timestamp extent.
    Time(i64, i64),
    /// A categorical order, whose index assigns each category its slot.
    Band(Vec<String>),
}

/// A pin as a mathematical value.
pub enum PinModel {
    Linear(Number, Number),
    Time(i64, i64),
    Band(Seq<Seq<char>>),
}

impl View for PinnedDomain {
    type V = PinModel;

    open spec fn view(&self) -> PinModel {
        match *self {
            PinnedDomain::Linear(lo, hi) => PinModel::Linear(lo, hi),
            PinnedDomain::Time(lo, hi) => PinModel::Time(lo, hi),
            PinnedDomain::Band(categories) => PinModel::Band(texts(categories@)),
        }
    }
}

/// A pin that may not be there, as a mathematical value.
pub open spec fn pin_view(pin: Option<PinnedDomain>) -> Option<PinModel> {
    match pin {
        Some(p) => Some(p@),
        None => None,
    }
}

/// The pin a scale hands back. The colour channels' scales have none.
pub open spec fn pin_of(scale: ScaleModel) -> Option<PinModel> {
    match scale {
        ScaleModel::Linear { domain_min, domain_max, .. } => Some(
            PinModel::Linear(domain_min, domain_max),
        ),
        ScaleModel::Time { domain_min_us, domain_max_us, .. } => Some(
            PinModel::Time(domain_min_us, domain_max_us),
        ),
        ScaleModel::Band { categories, .. } => Some(PinModel::Band(categories)),
        _ => None,
    }
}

/// A scale on a pin's domain and its own range, where the two are of one kind.
pub open spec fn pinned(pin: PinModel, scale: ScaleModel) -> Option<ScaleModel> {
    match (pin, scale) {
        (PinModel::Linear(lo, hi), ScaleModel::Linear { range_start, range_end, .. }) => Some(
            ScaleModel::Linear { domain_min: lo, domain_max: hi, range_start, range_end },
        ),
        (PinModel::Time(lo, hi), ScaleModel::Time { range_start, range_end, .. }) => Some(
            ScaleModel::Time { domain_min_us: lo, domain_max_us: hi, range_start, range_end },
        ),
        (
            PinModel::Band(categories),
            ScaleModel::Band { range_start, range_end, padding, .. },
        ) => Some(ScaleModel::Band { categories, range_start, range_end, padding }),
        _ => None,
    }
}

impl PinnedDomain {
    /// The pin `scale` hands back, or `None` for a scale that carries no
    /// positional domain.
    #[must_use]
    pub fn of(scale: &Scale) -> (r: Option<Self>)
        ensures
            pin_view(r) == pin_of(scale@),
    {
        match scale {
            Scale::Linear { domain_min, domain_max, .. } => Some(
                PinnedDomain::Linear(*domain_min, *domain_max),
            ),
            Scale::Time { domain_min_us, domain_max_us, .. } => Some(
                PinnedDomain::Time(*domain_min_us, *domain_max_us),
            ),
            Scale::Band { categories, .. } => Some(PinnedDomain::Band(copied_strings(categories))),
            _ => None,
        }
    }

    /// `scale` on this pin's domain, keeping its own pixel range and padding.
    /// `None` when the pin and the scale are different kinds.
    #[must_use]
    pub fn applied_to(&self, scale: &Scale) -> (r: Option<Scale>)
        ensures
            r is Some <==> pinned(self@, scale@) is Some,
            r matches Some(s) ==> pinned(self@, scale@) == Some(s@),
    {
        match (self, scale) {
            (PinnedDomain::Linear(lo, hi), Scale::Linear { range_start, range_end, .. }) => Some(
                Scale::Linear {
                    domain_min: *lo,
                    domain_max: *hi,
                    range_start: *range_start,
                    range_end: *range_end,
                },
            ),
            (PinnedDomain::Time(lo, hi), Scale::Time { range_start, range_end, .. }) => Some(
                Scale::Time {
                    domain_min_us: *lo,
                    domain_max_us: *hi,
                    range_start: *range_start,
                    range_end: *range_end,
                },
            ),
            (
                PinnedDomain::Band(categories),
                Scale::Band { range_start, range_end, padding, .. },
            ) => Some(
                Scale::Band {
                    categories: copied_strings(categories),
                    range_start: *range_start,
                    range_end: *range_end,
                    padding: *padding,
                },
            ),
            _ => None,
        }
    }
}

/// Which axes a plot asks to pin.
#[derive(Debug, Clone, Copy, PartialEq, Eq, Structural)]
pub struct FixedDomains {
    pub x: bool,
    pub y: bool,
}

/// One plot's pinned positional domains, captured from the scales its first
/// composition drew against and re-applied to every later one.
#[derive(Debug)]
pub struct PinnedDomains {
    /// The x axis's pin, once captured.
    pub x: Option<PinnedDomain>,
    /// The y axis's pin, once captured.
    pub y: Option<PinnedDomain>,
}

impl Default for PinnedDomains {
    fn default() -> (r: Self)
        ensures
            r.x is None,
            r.y is None,
    {
        PinnedDomains { x: None, y: None }
    }
}

/// What one axis's pin becomes when it is offered a scale.
pub open spec fn captured(
    pin: Option<PinModel>,
    wanted: bool,
    scale: Option<ScaleModel>,
) -> Option<PinModel> {
    if !wanted || pin is Some {
        pin
    } else {
        match scale {
            Some(s) => pin_of(s),
            None => None,
        }
    }
}

/// What one axis's scale becomes under a pin.
pub open spec fn under_pin(pin: Option<PinModel>, scale: Option<ScaleModel>) -> Option<ScaleModel> {
    match (pin, scale) {
        (Some(p), Some(s)) => match pinned(p, s) {
            Some(t) => Some(t),
            None => Some(s),
        },
        _ => scale,
    }
}

impl PinnedDomains {
    /// Whether nothing is pinned.
    #[must_use]
    pub fn is_empty(&self) -> (r: bool)
        ensures
            r == (self.x is None && self.y is None),
    {
        self.x.is_none() && self.y.is_none()
    }

    /// Capture, from `scales`, each axis `request` asks to pin and this does
    /// not hold yet. An axis already pinned is left alone, and an axis without
    /// a scale captures nothing yet.
    pub fn capture(&mut self, scales: &ScaleSet, request: FixedDomains)
        ensures
            pin_view(final(self).x) == captured(
                pin_view(old(self).x),
                request.x,
                scales.at(Channel::X),
            ),
            pin_view(final(self).y) == captured(
                pin_view(old(self).y),
                request.y,
                scales.at(Channel::Y),
            ),
    {
        if request.x && self.x.is_none() {
            self.x = match scales.get(Channel::X) {
                Some(s) => PinnedDomain::of(s),
                None => None,
            };
        }
        if request.y && self.y.is_none() {
            self.y = match scales.get(Channel::Y) {
                Some(s) => PinnedDomain::of(s),
                None => None,
            };
        }
    }
}

fn pin_channel(scales: &mut ScaleSet, pin: &Option<PinnedDomain>, channel: Channel)
    ensures
        final(scales).at(channel) == under_pin(pin_view(*pin), old(scales).at(channel)),
        forall|c: Channel| c != channel ==> #[trigger] final(scales).at(c) == old(scales).at(c),
        final(scales).ink == old(scales).ink,
        final(scales).geo_extent == old(scales).geo_extent,
{
    if let Some(p) = pin {
        let replacement = match scales.get(channel) {
            Some(s) => p.applied_to(s),
            None => None,
        };
        if let Some(t) = replacement {
            scales.insert(channel, t);
        }
    }
}

/// Re-domain `scales`' positional channels onto `pins`, in place. A channel
/// with no pin, or whose scale is of another kind than its pin, is left as it
/// is.
pub fn apply_pinned_domains(scales: &mut ScaleSet, pins: &PinnedDomains)
    ensures
        forall|c: Channel|
            #[trigger] final(scales).at(c) == under_pin(
                if c == Channel::X {
                    pin_view(pins.x)
                } else if c == Channel::Y {
                    pin_view(pins.y)
                } else {
                    None
                },
                old(scales).at(c),
            ),
        final(scales).ink == old(scales).ink,
        final(scales).geo_extent == old(scales).geo_extent,
{
    pin_channel(scales, &pins.x, Channel::X);
    pin_channel(scales, &pins.y, Channel::Y);
}

/// A pin changes a scale's domain and neither its range nor its padding.
pub proof fn a_pin_keeps_the_range(pin: PinModel, scale: ScaleModel)
    ensures
        pinned(pin, scale) matches Some(s) ==> {
            &&& s.range_start() == scale.range_start()
            &&& s.range_end() == scale.range_end()
            &&& pin_of(s) == Some(pin)
            &&& scale matches ScaleModel::Band { padding: before, .. } ==> {
                s matches ScaleModel::Band { padding: after, .. } && after == before
            }
        },
{
}

/// A scale's own pin leaves the scale as it is.
pub proof fn a_scales_own_pin_changes_nothing(scale: ScaleModel)
    ensures
        pin_of(scale) matches Some(p) ==> pinned(p, scale) == Some(scale),
{
}

/// Capturing twice is capturing once: the first answer is kept, whatever the
/// later scale.
pub proof fn capture_keeps_the_first_answer(
    pin: Option<PinModel>,
    wanted: bool,
    first: Option<ScaleModel>,
    later: Option<ScaleModel>,
)
    ensures
        captured(pin, wanted, first) is Some ==> captured(
            captured(pin, wanted, first),
            wanted,
            later,
        ) == captured(pin, wanted, first),
        !wanted ==> captured(pin, wanted, first) == pin,
{
}

/// Nothing pinned leaves every scale as it is.
pub proof fn an_empty_pin_set_changes_nothing(pins: PinnedDomains, scale: Option<ScaleModel>)
    requires
        pins.x is None && pins.y is None,
    ensures
        under_pin(pin_view(pins.x), scale) == scale,
        under_pin(pin_view(pins.y), scale) == scale,
{
}

} // verus!
