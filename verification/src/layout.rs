//! The box a chart is drawn in.
use vstd::prelude::*;

use crate::drawing::Rect;
use crate::infer::Range;
use crate::number::Number;

verus! {

/// The space kept free on each side of a plot, in logical pixels.
#[derive(Clone, Copy, Debug, PartialEq, Eq, Structural)]
pub struct Margins {
    pub top: Number,
    pub right: Number,
    pub bottom: Number,
    pub left: Number,
}

/// A chart's outer size and the margins round its plot.
#[derive(Clone, Copy, Debug, PartialEq, Eq, Structural)]
pub struct ChartLayout {
    pub width: Number,
    pub height: Number,
    pub margins: Margins,
}

impl ChartLayout {
    /// A layout of the given size with the given margins.
    pub fn with_margins(width: Number, height: Number, margins: Margins) -> (r: ChartLayout)
        ensures
            r == (ChartLayout { width, height, margins }),
    {
        ChartLayout { width, height, margins }
    }

    pub open spec fn spec_plot_area(self) -> Rect {
        Rect {
            x0: self.margins.left,
            y0: self.margins.top,
            x1: self.width.minus(self.margins.right),
            y1: self.height.minus(self.margins.bottom),
        }
    }

    /// The rectangle inside the margins.
    #[verifier::when_used_as_spec(spec_plot_area)]
    pub fn plot_area(self) -> (r: Rect)
        ensures
            r == self.spec_plot_area(),
    {
        Rect {
            x0: self.margins.left,
            y0: self.margins.top,
            x1: self.width.minus(self.margins.right),
            y1: self.height.minus(self.margins.bottom),
        }
    }

    pub open spec fn spec_x_range(self) -> Range {
        Range { start: self.plot_area().x0, end: self.plot_area().x1 }
    }

    /// The pixel range of the x axis, left to right.
    #[verifier::when_used_as_spec(spec_x_range)]
    pub fn x_range(self) -> (r: Range)
        ensures
            r == self.spec_x_range(),
    {
        let area = self.plot_area();
        Range { start: area.x0, end: area.x1 }
    }

    pub open spec fn spec_y_range(self) -> Range {
        Range { start: self.plot_area().y1, end: self.plot_area().y0 }
    }

    /// The pixel range of the y axis, bottom to top.
    #[verifier::when_used_as_spec(spec_y_range)]
    pub fn y_range(self) -> (r: Range)
        ensures
            r == self.spec_y_range(),
    {
        let area = self.plot_area();
        Range { start: area.y1, end: area.y0 }
    }
}

} // verus!
