//! Encoding channels, and what a mark binds to them.
use vstd::prelude::*;

use crate::colour::Rgba;
use crate::number::Number;
use crate::projection::Projection;

verus! {

/// An encoding channel.
#[derive(Clone, Copy, Debug, PartialEq, Eq, Structural)]
pub enum Channel {
    X,
    Y,
    X1,
    X2,
    Y1,
    Y2,
    Fill,
    Stroke,
    Text,
}

impl Channel {
    /// Every channel, once.
    pub fn all() -> (r: Vec<Channel>)
        ensures
            r@ == all_channels(),
    {
        let mut v: Vec<Channel> = Vec::new();
        v.push(Channel::X);
        v.push(Channel::Y);
        v.push(Channel::X1);
        v.push(Channel::X2);
        v.push(Channel::Y1);
        v.push(Channel::Y2);
        v.push(Channel::Fill);
        v.push(Channel::Stroke);
        v.push(Channel::Text);
        assert(v@ =~= all_channels());
        v
    }

    /// Whether the channel positions along x.
    pub open spec fn along_x(self) -> bool {
        self == Channel::X || self == Channel::X1 || self == Channel::X2
    }

    /// Whether the channel positions along y.
    pub open spec fn along_y(self) -> bool {
        self == Channel::Y || self == Channel::Y1 || self == Channel::Y2
    }
}

/// Every channel, in order.
pub open spec fn all_channels() -> Seq<Channel> {
    seq![
        Channel::X,
        Channel::Y,
        Channel::X1,
        Channel::X2,
        Channel::Y1,
        Channel::Y2,
        Channel::Fill,
        Channel::Stroke,
        Channel::Text,
    ]
}

/// The list of channels leaves none out and has none twice.
pub proof fn channels_are_all_listed(c: Channel)
    ensures
        exists|i: int| 0 <= i < all_channels().len() && all_channels()[i] == c,
        forall|i: int, j: int|
            0 <= i < j < all_channels().len() ==> all_channels()[i] != all_channels()[j],
{
    let s = all_channels();
    assert(s[0] == Channel::X && s[1] == Channel::Y && s[2] == Channel::X1 && s[3] == Channel::X2
        && s[4] == Channel::Y1 && s[5] == Channel::Y2 && s[6] == Channel::Fill && s[7]
        == Channel::Stroke && s[8] == Channel::Text);
}

/// The form a bar's label takes.
#[derive(Clone, Copy, Debug, PartialEq, Eq, Structural)]
pub enum LabelForm {
    /// The value itself.
    Count,
    /// The value's share of what the mark drew.
    Percent,
}

/// One value per channel, or none.
#[derive(Debug)]
pub struct Slots<T> {
    pub x: Option<T>,
    pub y: Option<T>,
    pub x1: Option<T>,
    pub x2: Option<T>,
    pub y1: Option<T>,
    pub y2: Option<T>,
    pub fill: Option<T>,
    pub stroke: Option<T>,
    pub text: Option<T>,
}

impl<T> Slots<T> {
    /// What the slots hold for a channel.
    pub open spec fn at(self, c: Channel) -> Option<T> {
        match c {
            Channel::X => self.x,
            Channel::Y => self.y,
            Channel::X1 => self.x1,
            Channel::X2 => self.x2,
            Channel::Y1 => self.y1,
            Channel::Y2 => self.y2,
            Channel::Fill => self.fill,
            Channel::Stroke => self.stroke,
            Channel::Text => self.text,
        }
    }

    /// Slots that hold nothing.
    pub fn empty() -> (r: Self)
        ensures
            forall|c: Channel| #[trigger] r.at(c) is None,
    {
        Slots {
            x: None,
            y: None,
            x1: None,
            x2: None,
            y1: None,
            y2: None,
            fill: None,
            stroke: None,
            text: None,
        }
    }

    /// What the slots hold for a channel.
    pub fn get(&self, c: Channel) -> (r: Option<&T>)
        ensures
            r is Some <==> self.at(c) is Some,
            r matches Some(v) ==> self.at(c) == Some(*v),
    {
        match c {
            Channel::X => self.x.as_ref(),
            Channel::Y => self.y.as_ref(),
            Channel::X1 => self.x1.as_ref(),
            Channel::X2 => self.x2.as_ref(),
            Channel::Y1 => self.y1.as_ref(),
            Channel::Y2 => self.y2.as_ref(),
            Channel::Fill => self.fill.as_ref(),
            Channel::Stroke => self.stroke.as_ref(),
            Channel::Text => self.text.as_ref(),
        }
    }

    /// Puts a value into a channel's slot.
    pub fn put(&mut self, c: Channel, value: T)
        ensures
            final(self).at(c) == Some(value),
            forall|other: Channel|
                other != c ==> #[trigger] final(self).at(other) == old(self).at(other),
    {
        match c {
            Channel::X => self.x = Some(value),
            Channel::Y => self.y = Some(value),
            Channel::X1 => self.x1 = Some(value),
            Channel::X2 => self.x2 = Some(value),
            Channel::Y1 => self.y1 = Some(value),
            Channel::Y2 => self.y2 = Some(value),
            Channel::Fill => self.fill = Some(value),
            Channel::Stroke => self.stroke = Some(value),
            Channel::Text => self.text = Some(value),
        }
    }
}

/// What a mark binds to its channels: columns, constants, or nothing.
#[derive(Debug)]
pub struct ChannelMap {
    /// Channels bound to a column, by the column's name.
    pub columns: Slots<String>,
    /// Channels bound to a constant number.
    pub literals: Slots<Number>,
    /// Channels bound to a constant colour.
    pub colours: Slots<Rgba>,
    /// The label a bar carries, if any.
    pub label: Option<LabelForm>,
    /// The map projection the mark draws through, if any.
    pub projection: Option<Projection>,
    /// Whether the mark asked for equal pixels per unit on both axes.
    pub square: bool,
}

impl ChannelMap {
    /// A mark that binds nothing.
    pub fn new() -> (r: Self)
        ensures
            forall|c: Channel|
                #![trigger r.columns.at(c)]
                #![trigger r.literals.at(c)]
                #![trigger r.colours.at(c)]
                r.columns.at(c) is None && r.literals.at(c) is None && r.colours.at(c) is None,
            r.label is None,
            r.projection is None,
            !r.square,
    {
        ChannelMap {
            columns: Slots::empty(),
            literals: Slots::empty(),
            colours: Slots::empty(),
            label: None,
            projection: None,
            square: false,
        }
    }

    /// Bind a channel to a constant number.
    pub fn insert_literal(&mut self, c: Channel, value: Number)
        ensures
            final(self).literals.at(c) == Some(value),
            forall|other: Channel|
                other != c ==> #[trigger] final(self).literals.at(other) == old(self).literals.at(
                    other,
                ),
            final(self).columns == old(self).columns,
            final(self).colours == old(self).colours,
            final(self).label == old(self).label,
            final(self).projection == old(self).projection,
            final(self).square == old(self).square,
    {
        self.literals.put(c, value);
    }

    /// Bind a channel to a constant colour.
    pub fn insert_colour(&mut self, c: Channel, colour: Rgba)
        ensures
            final(self).colours.at(c) == Some(colour),
            forall|other: Channel|
                other != c ==> #[trigger] final(self).colours.at(other) == old(self).colours.at(
                    other,
                ),
            final(self).columns == old(self).columns,
            final(self).literals == old(self).literals,
            final(self).label == old(self).label,
            final(self).projection == old(self).projection,
            final(self).square == old(self).square,
    {
        self.colours.put(c, colour);
    }

    /// The name of the column bound to a channel.
    pub open spec fn column(self, c: Channel) -> Option<Seq<char>> {
        match self.columns.at(c) {
            Some(name) => Some(name@),
            None => None,
        }
    }

    /// Binds a channel to a column.
    pub fn insert(&mut self, c: Channel, name: String)
        ensures
            final(self).column(c) == Some(name@),
            forall|other: Channel|
                other != c ==> #[trigger] final(self).column(other) == old(self).column(other),
            final(self).literals == old(self).literals,
            final(self).colours == old(self).colours,
            final(self).label == old(self).label,
            final(self).projection == old(self).projection,
            final(self).square == old(self).square,
    {
        self.columns.put(c, name);
        assert forall|other: Channel| other != c implies #[trigger] self.column(other) == old(
            self,
        ).column(other) by {
            assert(self.columns.at(other) == old(self).columns.at(other));
        }
    }

    /// The name of the column bound to a channel.
    pub fn get(&self, c: Channel) -> (r: Option<&str>)
        ensures
            r is Some <==> self.column(c) is Some,
            r matches Some(name) ==> self.column(c) == Some(name@),
    {
        match self.columns.get(c) {
            Some(name) => Some(name.as_str()),
            None => None,
        }
    }

    /// The constant number bound to a channel.
    pub fn literal(&self, c: Channel) -> (r: Option<Number>)
        ensures
            r == self.literals.at(c),
    {
        match self.literals.get(c) {
            Some(v) => Some(*v),
            None => None,
        }
    }

    /// The constant colour bound to a channel.
    pub fn colour(&self, c: Channel) -> (r: Option<Rgba>)
        ensures
            r == self.colours.at(c),
    {
        match self.colours.get(c) {
            Some(v) => Some(*v),
            None => None,
        }
    }

    pub open spec fn spec_equal_aspect(&self) -> bool {
        self.square && self.projection is None
    }

    /// Whether the mark's axes are to have equal pixels per unit. A projected
    /// mark's units are the projection's own, so it answers no.
    #[verifier::when_used_as_spec(spec_equal_aspect)]
    pub fn equal_aspect(&self) -> (r: bool)
        ensures
            r == self.spec_equal_aspect(),
    {
        self.square && self.projection.is_none()
    }
}

} // verus!
