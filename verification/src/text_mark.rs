//! Text marks.
use vstd::prelude::*;

use crate::batch::{cell_of, Batch};
use crate::channel::{Channel, ChannelMap};
use crate::drawing::{
    draw_text, drawn_for, lemma_nothing_drawn, lemma_paths_drawn, path_count, text_ops, Op, Scene,
    TextAnchor,
};
use crate::highlight::{apply_highlight, highlighted, numbers_view, HighlightState};
use crate::paint::{resolve_colour, row_colour};
use crate::plot::{bound, bound_to, place_row, row_place};
use crate::scale_set::ScaleSet;
use crate::single::Single;

verus! {

/// Font size for text-mark labels: 11.
pub const TEXT_MARK_SIZE: u32 = 0x4130_0000;

/// Renders a text mark: a label centred at each data position. A row without a
/// label or without a position is skipped.
#[derive(Debug, Clone, Copy)]
pub struct TextRenderer;

/// The label of a row, if it has one.
pub open spec fn text_label(batch: Batch, channel_map: ChannelMap, row: int) -> Option<Seq<char>> {
    match channel_map.column(Channel::Text) {
        Some(column) => cell_of(batch.texts(column), row),
        None => None,
    }
}

/// What one row draws.
pub open spec fn text_row_ops(
    batch: Batch,
    channel_map: ChannelMap,
    scales: ScaleSet,
    highlight: Option<&HighlightState>,
    row: int,
) -> Seq<Op> {
    match (
        bound_to(channel_map, scales, Channel::X),
        bound_to(channel_map, scales, Channel::Y),
        text_label(batch, channel_map, row),
    ) {
        (Some(x), Some(y), Some(label)) => match row_place(batch, x, y, row) {
            Some(at) => text_ops(
                label,
                at,
                Single::from_bits(TEXT_MARK_SIZE),
                highlighted(row_colour(scales, channel_map, batch, row), row, highlight),
                TextAnchor::Middle,
            ),
            None => Seq::empty(),
        },
        _ => Seq::empty(),
    }
}

impl TextRenderer {
    /// What the mark draws.
    pub open spec fn drawn(
        self,
        batch: Batch,
        channel_map: ChannelMap,
        scales: ScaleSet,
        highlight: Option<&HighlightState>,
    ) -> Seq<Op> {
        drawn_for(
            batch.rows as nat,
            |row: int| text_row_ops(batch, channel_map, scales, highlight, row),
        )
    }

    /// Render the mark.
    pub fn render(
        &self,
        scene: &mut Scene,
        batch: &Batch,
        channel_map: &ChannelMap,
        scales: &ScaleSet,
        highlight: Option<&HighlightState>,
    )
        ensures
            final(scene)@ == old(scene)@ + self.drawn(*batch, *channel_map, *scales, highlight),
    {
        let ghost f = |row: int| text_row_ops(*batch, *channel_map, *scales, highlight, row);
        let ghost start = scene@;
        let (x, y, column) = match (
            bound(channel_map, scales, Channel::X),
            bound(channel_map, scales, Channel::Y),
            channel_map.get(Channel::Text),
        ) {
            (Some(x), Some(y), Some(t)) => (x, y, t),
            _ => {
                proof {
                    lemma_nothing_drawn(batch.rows as nat, f);
                    assert(start + Seq::<Op>::empty() =~= start);
                }
                return ;
            },
        };
        let xs = batch.column_as_f64(x.column);
        let ys = batch.column_as_f64(y.column);
        assert(start + drawn_for(0, f) =~= start);
        let mut row: usize = 0;
        while row < batch.rows
            invariant
                row <= batch.rows,
                bound_to(*channel_map, *scales, Channel::X) == Some((x.column@, x.scale@)),
                bound_to(*channel_map, *scales, Channel::Y) == Some((y.column@, y.scale@)),
                channel_map.column(Channel::Text) == Some(column@),
                numbers_view(xs) == batch.numbers(x.column@),
                numbers_view(ys) == batch.numbers(y.column@),
                f == (|row: int| text_row_ops(*batch, *channel_map, *scales, highlight, row)),
                scene@ == start + drawn_for(row as nat, f),
            decreases batch.rows - row,
        {
            let ghost here = scene@;
            if let Some(label) = batch.text_at(column, row) {
                if let Some(at) = place_row(batch, &x, &y, &xs, &ys, row) {
                    let colour = resolve_colour(scales, channel_map, batch, row);
                    let colour = apply_highlight(colour, row, highlight);
                    let size = Single::from_bits(TEXT_MARK_SIZE);
                    draw_text(
                        scene,
                        label.as_str(),
                        at.x,
                        at.y,
                        size,
                        colour,
                        TextAnchor::Middle,
                    );
                }
            }
            assert(scene@ =~= here + f(row as int));
            assert(here + f(row as int) =~= start + drawn_for((row + 1) as nat, f));
            row = row + 1;
        }
    }
}

/// A text mark draws words and no shapes.
pub proof fn a_text_mark_draws_no_shape(
    batch: Batch,
    channel_map: ChannelMap,
    scales: ScaleSet,
    highlight: Option<&HighlightState>,
)
    ensures
        path_count(TextRenderer.drawn(batch, channel_map, scales, highlight)) == 0,
{
    let f = |row: int| text_row_ops(batch, channel_map, scales, highlight, row);
    assert forall|i: int| 0 <= i < batch.rows implies path_count(#[trigger] f(i)) <= 0 by {
        reveal_with_fuel(path_count, 2);
        assert(f(i).len() == 0 || f(i).last() is Text);
    }
    lemma_paths_drawn(batch.rows as nat, f, 0);
}

} // verus!
