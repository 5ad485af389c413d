//! A plot's explicit colour domain and range.
use vstd::prelude::*;

use crate::categories::copied_strings;
use crate::channel::Channel;
use crate::colour::Rgba;
use crate::number::Number;
use crate::scale::{copied_colours, Scale, ScaleModel};
use crate::scale_set::ScaleSet;
use crate::words::texts;

verus! {

/// A plot-level explicit colour-scale override, applied after inference so
/// that the author's own domain and range win.
#[derive(Debug)]
pub struct ColourOverride {
    /// Explicit category order, which fixes each category's palette slot.
    pub categories: Option<Vec<String>>,
    /// Explicit continuous domain.
    pub domain: Option<(Number, Number)>,
    /// Explicit colours: the categorical palette, or a ramp's stops.
    pub range: Option<Vec<Rgba>>,
}

impl Default for ColourOverride {
    fn default() -> (r: Self)
        ensures
            r.categories is None,
            r.domain is None,
            r.range is None,
    {
        ColourOverride { categories: None, domain: None, range: None }
    }
}

impl ColourOverride {
    /// Whether the override carries nothing to apply.
    #[must_use]
    pub fn is_empty(&self) -> (r: bool)
        ensures
            r == (self.categories is None && self.domain is None && self.range is None),
    {
        self.categories.is_none() && self.domain.is_none() && self.range.is_none()
    }

    /// A scale under the override. A facet that does not fit the scale's kind
    /// is ignored, as are an empty palette, an empty category list, and a ramp
    /// of fewer than two stops.
    pub open spec fn overridden(self, scale: ScaleModel) -> ScaleModel {
        match scale {
            ScaleModel::Colour { categories, palette } => {
                let cats = match self.categories {
                    Some(c) => texts(c@),
                    None => categories,
                };
                let colours = match self.range {
                    Some(r) => r@,
                    None => palette,
                };
                if cats.len() == 0 || colours.len() == 0 {
                    scale
                } else {
                    ScaleModel::Colour { categories: cats, palette: colours }
                }
            },
            ScaleModel::Sequential { domain_min, domain_max, stops } => {
                let domain = match self.domain {
                    Some(d) => d,
                    None => (domain_min, domain_max),
                };
                let colours = match self.range {
                    Some(r) => if r.len() >= 2 {
                        r@
                    } else {
                        stops
                    },
                    None => stops,
                };
                ScaleModel::Sequential {
                    domain_min: domain.0,
                    domain_max: domain.1,
                    stops: colours,
                }
            },
            _ => scale,
        }
    }

    fn applied_to(&self, scale: &Scale) -> (r: Scale)
        ensures
            r@ == self.overridden(scale@),
    {
        match scale {
            Scale::Colour { categories, palette } => {
                let cats = match &self.categories {
                    Some(c) => copied_strings(c),
                    None => copied_strings(categories),
                };
                let colours = match &self.range {
                    Some(r) => copied_colours(r),
                    None => copied_colours(palette),
                };
                assert(texts(cats@).len() == cats.len());
                if cats.len() == 0 || colours.len() == 0 {
                    return scale.clone();
                }
                Scale::Colour { categories: cats, palette: colours }
            },
            Scale::Sequential { domain_min, domain_max, stops } => {
                let domain = match self.domain {
                    Some(d) => d,
                    None => (*domain_min, *domain_max),
                };
                let colours = match &self.range {
                    Some(r) => if r.len() >= 2 {
                        copied_colours(r)
                    } else {
                        copied_colours(stops)
                    },
                    None => copied_colours(stops),
                };
                Scale::Sequential { domain_min: domain.0, domain_max: domain.1, stops: colours }
            },
            _ => scale.clone(),
        }
    }
}

fn override_channel(set: &mut ScaleSet, ov: &ColourOverride, channel: Channel)
    ensures
        final(set).at(channel) == match old(set).at(channel) {
            Some(s) => Some(ov.overridden(s)),
            None => None,
        },
        forall|c: Channel| c != channel ==> #[trigger] final(set).at(c) == old(set).at(c),
        final(set).ink == old(set).ink,
        final(set).geo_extent == old(set).geo_extent,
{
    let replacement = match set.get(channel) {
        Some(s) => Some(ov.applied_to(s)),
        None => None,
    };
    if let Some(s) = replacement {
        set.insert(channel, s);
    }
}

/// Apply an explicit override to the colour-bearing channels of `set`, in
/// place. Positional scales and absent channels are untouched.
pub fn apply_colour_override(set: &mut ScaleSet, ov: &ColourOverride)
    ensures
        forall|c: Channel|
            #[trigger] final(set).at(c) == match old(set).at(c) {
                Some(s) => if c == Channel::Fill || c == Channel::Stroke {
                    Some(ov.overridden(s))
                } else {
                    Some(s)
                },
                None => None,
            },
        final(set).ink == old(set).ink,
        final(set).geo_extent == old(set).geo_extent,
{
    override_channel(set, ov, Channel::Fill);
    override_channel(set, ov, Channel::Stroke);
}

/// An override that carries nothing changes nothing.
pub proof fn an_empty_override_changes_nothing(ov: ColourOverride, scale: ScaleModel)
    requires
        ov.categories is None,
        ov.domain is None,
        ov.range is None,
    ensures
        ov.overridden(scale) == scale,
{
}

/// Applying an override twice is applying it once.
pub proof fn an_override_settles(ov: ColourOverride, scale: ScaleModel)
    ensures
        ov.overridden(ov.overridden(scale)) == ov.overridden(scale),
{
}

/// An explicit domain and range pin each category to its own colour: the
/// colour of a category depends only on where the override lists it.
pub proof fn an_override_pins_colours(ov: ColourOverride, a: ScaleModel, b: ScaleModel, cat: Seq<char>)
    requires
        ov.categories matches Some(c) && c.len() > 0,
        ov.range matches Some(r) && r.len() > 0,
        a is Colour,
        b is Colour,
    ensures
        ov.overridden(a).map_colour(cat) == ov.overridden(b).map_colour(cat),
{
}

} // verus!
