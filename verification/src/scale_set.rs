//! The scales of a chart, by channel, and what is done to them as a whole.
use vstd::prelude::*;

use crate::channel::{all_channels, channels_are_all_listed, Channel, Slots};
use crate::geo::GeoExtent;
use crate::ink::ChartInk;
use crate::number::Number;
use crate::scale::{copied_colours, Scale, ScaleModel};

verus! {

/// Optional override of data-inferred scale domains per axis, used by pan and
/// zoom navigation.
#[derive(Debug, Clone, Copy, PartialEq, Eq)]
pub struct ViewExtent {
    /// Overridden x-axis domain, or `None` for the full extent.
    pub x: Option<(Number, Number)>,
    /// Overridden y-axis domain, or `None` for the full extent.
    pub y: Option<(Number, Number)>,
}

impl Default for ViewExtent {
    fn default() -> (r: Self)
        ensures
            r.x is None,
            r.y is None,
    {
        ViewExtent { x: None, y: None }
    }
}

/// Collection of inferred scales for a chart, keyed by channel, with the
/// paints of the mode they were resolved in.
#[derive(Debug)]
pub struct ScaleSet {
    pub scales: Slots<Scale>,
    /// The paints.
    pub ink: ChartInk,
    /// The geographic rectangle a projected plot shows, if it is one.
    pub geo_extent: Option<GeoExtent>,
}

impl ScaleSet {
    /// The scale of a channel.
    pub open spec fn at(self, c: Channel) -> Option<ScaleModel> {
        match self.scales.at(c) {
            Some(s) => Some(s@),
            None => None,
        }
    }

    /// The scale of each channel.
    pub open spec fn slots(self) -> spec_fn(Channel) -> Option<ScaleModel> {
        |c: Channel| self.at(c)
    }

    /// Create an empty scale set.
    pub fn new(ink: ChartInk) -> (r: Self)
        ensures
            forall|c: Channel| #[trigger] r.at(c) is None,
            r.ink == ink,
            r.geo_extent is None,
    {
        let r = ScaleSet { scales: Slots::empty(), ink, geo_extent: None };
        assert forall|c: Channel| #[trigger] r.at(c) is None by {
            assert(r.scales.at(c) is None);
        }
        r
    }

    /// Insert a scale for a channel.
    pub fn insert(&mut self, channel: Channel, scale: Scale)
        ensures
            final(self).at(channel) == Some(scale@),
            forall|c: Channel| c != channel ==> #[trigger] final(self).at(c) == old(self).at(c),
            final(self).ink == old(self).ink,
            final(self).geo_extent == old(self).geo_extent,
    {
        self.scales.put(channel, scale);
        assert forall|c: Channel| c != channel implies #[trigger] self.at(c) == old(self).at(c) by {
            assert(self.scales.at(c) == old(self).scales.at(c));
        }
    }

    /// Get the scale for a channel.
    pub fn get(&self, channel: Channel) -> (r: Option<&Scale>)
        ensures
            r is Some <==> self.at(channel) is Some,
            r matches Some(s) ==> self.at(channel) == Some(s@),
    {
        self.scales.get(channel)
    }
}

impl Clone for ScaleSet {
    fn clone(&self) -> (r: Self)
        ensures
            forall|c: Channel| #[trigger] r.at(c) == self.at(c),
            r.ink == self.ink,
            r.geo_extent == self.geo_extent,
    {
        let mut out = ScaleSet {
            scales: Slots::empty(),
            ink: self.ink,
            geo_extent: self.geo_extent,
        };
        let all = Channel::all();
        let mut i: usize = 0;
        assert forall|c: Channel| #[trigger] out.at(c) is None by {
            assert(out.scales.at(c) is None);
        }
        while i < all.len()
            invariant
                i <= all.len(),
                all@ == all_channels(),
                out.ink == self.ink,
                out.geo_extent == self.geo_extent,
                forall|j: int| 0 <= j < i ==> out.at(#[trigger] all@[j]) == self.at(all@[j]),
                forall|j: int| i <= j < all.len() ==> out.at(#[trigger] all@[j]) is None,
            decreases all.len() - i,
        {
            let ch = all[i];
            proof {
                channels_are_all_listed(ch);
            }
            if let Some(s) = self.get(ch) {
                out.insert(ch, s.clone());
            }
            i = i + 1;
        }
        assert forall|c: Channel| #[trigger] out.at(c) == self.at(c) by {
            channels_are_all_listed(c);
            let j = choose|j: int| 0 <= j < all_channels().len() && all_channels()[j] == c;
            assert(all@[j] == c);
        }
        out
    }
}

/// One channel's fresh scale folded into its launch scale: a continuous scale
/// widens the launch domain to hold the fresh one, on the launch range and
/// stops; a categorical scale, and a scale of another kind, keeps launch.
pub open spec fn anchored(launch: ScaleModel, fresh: ScaleModel) -> ScaleModel {
    match (launch, fresh) {
        (
            ScaleModel::Linear { domain_min: l0, domain_max: l1, range_start, range_end },
            ScaleModel::Linear { domain_min: f0, domain_max: f1, .. },
        ) => ScaleModel::Linear {
            domain_min: l0.min(f0),
            domain_max: l1.max(f1),
            range_start,
            range_end,
        },
        (
            ScaleModel::Time { domain_min_us: l0, domain_max_us: l1, range_start, range_end },
            ScaleModel::Time { domain_min_us: f0, domain_max_us: f1, .. },
        ) => ScaleModel::Time {
            domain_min_us: if f0 < l0 {
                f0
            } else {
                l0
            },
            domain_max_us: if f1 > l1 {
                f1
            } else {
                l1
            },
            range_start,
            range_end,
        },
        (
            ScaleModel::Sequential { domain_min: l0, domain_max: l1, stops },
            ScaleModel::Sequential { domain_min: f0, domain_max: f1, .. },
        ) => ScaleModel::Sequential { domain_min: l0.min(f0), domain_max: l1.max(f1), stops },
        _ => launch,
    }
}

/// One channel's anchored scale, where it has one.
pub open spec fn anchored_slot(
    launch: Option<ScaleModel>,
    fresh: Option<ScaleModel>,
) -> Option<ScaleModel> {
    match (launch, fresh) {
        (Some(l), Some(f)) => Some(anchored(l, f)),
        (Some(l), None) => Some(l),
        (None, f) => f,
    }
}

fn anchor_scale(launch: &Scale, fresh: &Scale) -> (r: Scale)
    ensures
        r@ == anchored(launch@, fresh@),
{
    match (launch, fresh) {
        (
            Scale::Linear { domain_min: l0, domain_max: l1, range_start, range_end },
            Scale::Linear { domain_min: f0, domain_max: f1, .. },
        ) => Scale::Linear {
            domain_min: l0.min(*f0),
            domain_max: l1.max(*f1),
            range_start: *range_start,
            range_end: *range_end,
        },
        (
            Scale::Time { domain_min_us: l0, domain_max_us: l1, range_start, range_end },
            Scale::Time { domain_min_us: f0, domain_max_us: f1, .. },
        ) => Scale::Time {
            domain_min_us: if *f0 < *l0 {
                *f0
            } else {
                *l0
            },
            domain_max_us: if *f1 > *l1 {
                *f1
            } else {
                *l1
            },
            range_start: *range_start,
            range_end: *range_end,
        },
        (
            Scale::Sequential { domain_min: l0, domain_max: l1, stops },
            Scale::Sequential { domain_min: f0, domain_max: f1, .. },
        ) => Scale::Sequential {
            domain_min: l0.min(*f0),
            domain_max: l1.max(*f1),
            stops: copied_colours(stops),
        },
        _ => launch.clone(),
    }
}

/// Anchor a freshly inferred scale set to a launch reference, widening only.
///
/// The frame of reference holds still while the data moves under a filter,
/// and widens where a rewritten query surfaces rows outside the launch domain.
#[must_use]
pub fn anchor_scales(launch: &ScaleSet, fresh: ScaleSet) -> (r: ScaleSet)
    ensures
        forall|c: Channel| #[trigger] r.at(c) == anchored_slot(launch.at(c), fresh.at(c)),
        r.ink == launch.ink,
        r.geo_extent == launch.geo_extent,
{
    let mut out = ScaleSet {
        scales: Slots::empty(),
        ink: launch.ink,
        geo_extent: launch.geo_extent,
    };
    let all = Channel::all();
    let mut i: usize = 0;
    assert forall|c: Channel| #[trigger] out.at(c) is None by {
        assert(out.scales.at(c) is None);
    }
    while i < all.len()
        invariant
            i <= all.len(),
            all@ == all_channels(),
            out.ink == launch.ink,
            out.geo_extent == launch.geo_extent,
            forall|j: int|
                0 <= j < i ==> out.at(#[trigger] all@[j]) == anchored_slot(
                    launch.at(all@[j]),
                    fresh.at(all@[j]),
                ),
            forall|j: int| i <= j < all.len() ==> out.at(#[trigger] all@[j]) is None,
        decreases all.len() - i,
    {
        let ch = all[i];
        proof {
            channels_are_all_listed(ch);
        }
        match (launch.get(ch), fresh.get(ch)) {
            (Some(l), Some(f)) => {
                out.insert(ch, anchor_scale(l, f));
            },
            (Some(l), None) => {
                out.insert(ch, l.clone());
            },
            (None, Some(f)) => {
                out.insert(ch, f.clone());
            },
            (None, None) => {},
        }
        i = i + 1;
    }
    assert forall|c: Channel| #[trigger] out.at(c) == anchored_slot(launch.at(c), fresh.at(c)) by {
        channels_are_all_listed(c);
        let j = choose|j: int| 0 <= j < all_channels().len() && all_channels()[j] == c;
        assert(all@[j] == c);
    }
    out
}

/// Whether one domain lies inside another of the same kind.
pub open spec fn within(inner: ScaleModel, outer: ScaleModel) -> bool {
    match (inner, outer) {
        (
            ScaleModel::Linear { domain_min: i0, domain_max: i1, .. },
            ScaleModel::Linear { domain_min: o0, domain_max: o1, .. },
        ) => o0.le(i0) && i1.le(o1),
        (
            ScaleModel::Time { domain_min_us: i0, domain_max_us: i1, .. },
            ScaleModel::Time { domain_min_us: o0, domain_max_us: o1, .. },
        ) => o0 <= i0 && i1 <= o1,
        (
            ScaleModel::Sequential { domain_min: i0, domain_max: i1, .. },
            ScaleModel::Sequential { domain_min: o0, domain_max: o1, .. },
        ) => o0.le(i0) && i1.le(o1),
        _ => false,
    }
}

/// Whether two scales are of one continuous kind.
pub open spec fn same_kind(a: ScaleModel, b: ScaleModel) -> bool {
    ||| a is Linear && b is Linear
    ||| a is Time && b is Time
    ||| a is Sequential && b is Sequential
}

/// A filter leaves the frame alone: a fresh domain inside the launch domain
/// gives exactly the launch scale.
pub proof fn a_subset_anchors_to_launch(launch: ScaleModel, fresh: ScaleModel)
    requires
        within(fresh, launch),
    ensures
        anchored(launch, fresh) == launch,
{
}

/// The anchor widens and never narrows: both the launch domain and the fresh
/// one lie inside the anchored domain, where their bounds are numbers.
pub proof fn anchoring_widens(launch: ScaleModel, fresh: ScaleModel)
    requires
        within(launch, launch),
        within(fresh, fresh),
        same_kind(launch, fresh),
    ensures
        within(launch, anchored(launch, fresh)),
        within(fresh, anchored(launch, fresh)),
{
}

/// Anchoring what is already anchored changes nothing, where the bounds are
/// numbers.
pub proof fn anchoring_is_idempotent(launch: ScaleModel, fresh: ScaleModel)
    requires
        within(launch, launch),
        within(fresh, fresh),
    ensures
        anchored(launch, anchored(launch, fresh)) == anchored(launch, fresh),
        anchored(anchored(launch, fresh), fresh) == anchored(launch, fresh),
{
}

/// Categories and colours never churn under a gesture, and neither does a
/// scale whose kind changed.
pub proof fn categorical_scales_hold_still(launch: ScaleModel, fresh: ScaleModel)
    requires
        launch is Band || launch is Colour,
    ensures
        anchored(launch, fresh) == launch,
{
}

} // verus!
