//! Resting widgets: sliders, menus, radio buttons and checkboxes.
use vstd::prelude::*;

use crate::bounds::{
    lemma_plus_keeps_order, lemma_plus_nothing, lemma_times_keeps_order, lemma_times_nothing,
    lemma_times_one,
};
use crate::drawing::{
    draw_text, drawn_for, line_through, polygon, polygon_through, polyline, text_ops, Op, Outline,
    Point, Rect, Scene, Shape, TextAnchor,
};
use crate::ink::ChartInk;
use crate::number::{lemma_format, Number};
use crate::numerals::{FOUR, HALF, ONE, SEVEN, SIX, TEN, THREE, TWO, ZERO};
use crate::single::Single;
use crate::words::texts;

verus! {

/// Widget label size in pixels: 12.
pub const WIDGET_TEXT_SIZE: u32 = 0x4140_0000;

/// The radius of a slider's thumb in pixels: 7.
pub const SLIDER_THUMB_RADIUS: u64 = 0x401c_0000_0000_0000;

/// The thickness of a slider's track in pixels: 4.
pub const SLIDER_TRACK_THICKNESS: u64 = 0x4010_0000_0000_0000;

/// How far a label's baseline lies below its row's centre: 4.
pub const WIDGET_BASELINE_NUDGE: u64 = 0x4010_0000_0000_0000;

/// The height of one option of a radio widget in pixels: 22.
pub const RADIO_ROW_HEIGHT: u64 = 0x4036_0000_0000_0000;

/// The number 8.
pub const EIGHT: u64 = 0x4020_0000_0000_0000;

/// The number 14.
pub const FOURTEEN: u64 = 0x402c_0000_0000_0000;

/// The number 18.
pub const EIGHTEEN: u64 = 0x4032_0000_0000_0000;

/// The number 22.
pub const TWENTY_TWO: u64 = 0x4036_0000_0000_0000;

/// The number 24.
pub const TWENTY_FOUR: u64 = 0x4038_0000_0000_0000;

/// The number 11.
pub const ELEVEN: u64 = 0x4026_0000_0000_0000;

/// The number 2.5.
pub const TWO_AND_A_HALF: u64 = 0x4004_0000_0000_0000;

/// The number 3.5.
pub const THREE_AND_A_HALF: u64 = 0x400c_0000_0000_0000;

/// The number 7.5.
pub const SEVEN_AND_A_HALF: u64 = 0x401e_0000_0000_0000;

/// The number 10.5.
pub const TEN_AND_A_HALF: u64 = 0x4025_0000_0000_0000;

/// The box a widget is drawn in.
#[derive(Debug, Clone, Copy, PartialEq, Eq, Structural)]
pub struct WidgetBox {
    pub x: Number,
    pub y: Number,
    pub width: Number,
    pub height: Number,
}

/// The height at which a widget's middle lies.
pub open spec fn middle(at: WidgetBox) -> Number {
    at.y.plus(at.height.over(Number::from_bits(TWO)))
}

/// What a slider draws: a rounded track and a thumb a fraction of the way
/// along it.
pub open spec fn slider_ops(at: WidgetBox, frac: Number, ink: ChartInk) -> Seq<Op> {
    let zero = Number::from_bits(ZERO);
    let one = Number::from_bits(ONE);
    let two = Number::from_bits(TWO);
    let radius = Number::from_bits(SLIDER_THUMB_RADIUS);
    let half = Number::from_bits(SLIDER_TRACK_THICKNESS).over(two);
    let left = at.x.plus(radius);
    let width = at.width.minus(radius.times(two)).max(zero);
    let cy = middle(at);
    seq![
        Op::Fill(
            ink.widget_border,
            Outline::Rounded(
                Rect { x0: left, y0: cy.minus(half), x1: left.plus(width), y1: cy.plus(half) },
                half,
            ),
        ),
        Op::Fill(
            ink.widget_active,
            Outline::Circle(
                Point { x: left.plus(width.times(frac.clamp(zero, one))), y: cy },
                radius,
            ),
        ),
    ]
}

/// Draw a slider at rest. `frac` is the value's normalised position, and a
/// value outside 0 to 1 stands at the end it is nearest to.
pub fn render_slider(
    scene: &mut Scene,
    x: Number,
    y: Number,
    width: Number,
    height: Number,
    frac: Number,
    ink: ChartInk,
)
    ensures
        final(scene)@ == old(scene)@ + slider_ops(
            (WidgetBox { x, y, width, height }),
            frac,
            ink,
        ),
{
    let at = WidgetBox { x, y, width, height };
    let ghost start = scene@;
    let zero = Number::from_bits(ZERO);
    let one = Number::from_bits(ONE);
    let two = Number::from_bits(TWO);
    let radius = Number::from_bits(SLIDER_THUMB_RADIUS);
    let half = Number::from_bits(SLIDER_TRACK_THICKNESS).over(two);
    let left = at.x.plus(radius);
    let width = at.width.minus(radius.times(two)).max(zero);
    let cy = at.y.plus(at.height.over(two));
    let track = Rect { x0: left, y0: cy.minus(half), x1: left.plus(width), y1: cy.plus(half) };
    scene.fill(ink.widget_border, Shape::Rounded(track, half));
    let thumb = Point { x: left.plus(width.times(frac.clamp(zero, one))), y: cy };
    scene.fill(ink.widget_active, Shape::Circle(thumb, radius));
    assert(scene@ =~= start + slider_ops(at, frac, ink));
}

/// A widget's label: left-anchored text a little below a height.
pub open spec fn label_at(label: Seq<char>, x: Number, cy: Number, ink: ChartInk) -> Seq<Op> {
    text_ops(
        label,
        Point { x, y: cy.plus(Number::from_bits(WIDGET_BASELINE_NUDGE)) },
        Single::from_bits(WIDGET_TEXT_SIZE),
        ink.widget_label,
        TextAnchor::Start,
    )
}

fn draw_label(scene: &mut Scene, label: &str, x: Number, cy: Number, ink: ChartInk)
    ensures
        final(scene)@ == old(scene)@ + label_at(label@, x, cy, ink),
{
    draw_text(
        scene,
        label,
        x,
        cy.plus(Number::from_bits(WIDGET_BASELINE_NUDGE)),
        Single::from_bits(WIDGET_TEXT_SIZE),
        ink.widget_label,
        TextAnchor::Start,
    );
}

/// A shape filled and outlined as a widget's body.
pub open spec fn body_ops(shape: Outline, ink: ChartInk) -> Seq<Op> {
    seq![
        Op::Fill(ink.widget_fill, shape),
        Op::Stroke(Number::from_bits(ONE), ink.widget_border, shape),
    ]
}

/// The chevron of a menu: a small downward triangle at its right edge.
pub open spec fn chevron(at: WidgetBox) -> Seq<Point> {
    let left = at.x.plus(at.width).minus(Number::from_bits(EIGHTEEN));
    let right = at.x.plus(at.width).minus(Number::from_bits(EIGHT));
    let top = middle(at).minus(Number::from_bits(TWO_AND_A_HALF));
    seq![
        Point { x: left, y: top },
        Point { x: right, y: top },
        Point {
            x: left.plus(right).over(Number::from_bits(TWO)),
            y: middle(at).plus(Number::from_bits(THREE_AND_A_HALF)),
        },
    ]
}

/// The box of a menu, set in by half a pixel on each side.
pub open spec fn menu_box(at: WidgetBox) -> Rect {
    let half = Number::from_bits(HALF);
    Rect {
        x0: at.x.plus(half),
        y0: at.y.plus(half),
        x1: at.x.plus(at.width).minus(half),
        y1: at.y.plus(at.height).minus(half),
    }
}

/// What a closed menu draws: its box, the label of its value, and a chevron.
pub open spec fn menu_ops(at: WidgetBox, label: Seq<char>, ink: ChartInk) -> Seq<Op> {
    body_ops(Outline::Rounded(menu_box(at), Number::from_bits(FOUR)), ink) + label_at(
        label,
        at.x.plus(Number::from_bits(TEN)),
        middle(at),
        ink,
    ) + seq![Op::Fill(ink.widget_affordance, Outline::Path(polygon(chevron(at))))]
}

/// Draw a menu at rest: a rounded box with the label of the current value and
/// a downward chevron.
pub fn render_menu(
    scene: &mut Scene,
    x: Number,
    y: Number,
    width: Number,
    height: Number,
    label: &str,
    ink: ChartInk,
)
    ensures
        final(scene)@ == old(scene)@ + menu_ops(
            (WidgetBox { x, y, width, height }),
            label@,
            ink,
        ),
{
    let at = WidgetBox { x, y, width, height };
    let ghost start = scene@;
    let half = Number::from_bits(HALF);
    let corner = Number::from_bits(FOUR);
    let body = Rect {
        x0: at.x.plus(half),
        y0: at.y.plus(half),
        x1: at.x.plus(at.width).minus(half),
        y1: at.y.plus(at.height).minus(half),
    };
    scene.fill(ink.widget_fill, Shape::Rounded(body, corner));
    scene.stroke(Number::from_bits(ONE), ink.widget_border, Shape::Rounded(body, corner));
    let cy = at.y.plus(at.height.over(Number::from_bits(TWO)));
    draw_label(scene, label, at.x.plus(Number::from_bits(TEN)), cy, ink);
    let left = at.x.plus(at.width).minus(Number::from_bits(EIGHTEEN));
    let right = at.x.plus(at.width).minus(Number::from_bits(EIGHT));
    let top = cy.minus(Number::from_bits(TWO_AND_A_HALF));
    let mut points: Vec<Point> = Vec::new();
    points.push(Point { x: left, y: top });
    points.push(Point { x: right, y: top });
    points.push(
        Point {
            x: left.plus(right).over(Number::from_bits(TWO)),
            y: cy.plus(Number::from_bits(THREE_AND_A_HALF)),
        },
    );
    assert(points@ =~= chevron(at));
    let steps = polygon_through(&points);
    scene.fill(ink.widget_affordance, Shape::Path(steps));
    assert(scene@ =~= start + menu_ops(at, label@, ink));
}

/// What one option of a radio widget draws: a ring, a dot where it is
/// selected, and its label.
pub open spec fn option_ops(
    x: Number,
    y: Number,
    chrome_pad: Number,
    label: Seq<char>,
    selected: bool,
    i: int,
    ink: ChartInk,
) -> Seq<Op> {
    let cy = y.plus(chrome_pad.over(Number::from_bits(TWO))).plus(
        Number::from_bits(RADIO_ROW_HEIGHT).times(
            Number::spec_from_int(i).plus(Number::from_bits(HALF)),
        ),
    );
    let at = Point { x: x.plus(Number::from_bits(TEN)), y: cy };
    let ring = Outline::Circle(at, Number::from_bits(SIX));
    seq![
        Op::Fill(ink.widget_fill, ring),
        Op::Stroke(Number::from_bits(ONE), ink.widget_affordance, ring),
    ] + (if selected {
        seq![Op::Fill(ink.widget_active, Outline::Circle(at, Number::from_bits(THREE)))]
    } else {
        Seq::empty()
    }) + label_at(label, x.plus(Number::from_bits(TWENTY_FOUR)), cy, ink)
}

/// What a radio widget draws, option by option.
pub open spec fn radio_ops(
    x: Number,
    y: Number,
    chrome_pad: Number,
    labels: Seq<Seq<char>>,
    selected: Option<usize>,
    ink: ChartInk,
) -> Seq<Op> {
    drawn_for(
        labels.len(),
        |i: int| option_ops(x, y, chrome_pad, labels[i], selected == Some(i as usize), i, ink),
    )
}

/// Draw a radio widget at rest: one row per option, with half of `chrome_pad`
/// above the first.
pub fn render_radio(
    scene: &mut Scene,
    x: Number,
    y: Number,
    _width: Number,
    labels: &Vec<String>,
    selected: Option<usize>,
    chrome_pad: Number,
    ink: ChartInk,
)
    ensures
        final(scene)@ == old(scene)@ + radio_ops(
            x,
            y,
            chrome_pad,
            texts(labels@),
            selected,
            ink,
        ),
{
    let ghost start = scene@;
    let ghost f = |i: int|
        option_ops(x, y, chrome_pad, texts(labels@)[i], selected == Some(i as usize), i, ink);
    assert(start + drawn_for(0, f) =~= start);
    let mut i: usize = 0;
    while i < labels.len()
        invariant
            i <= labels.len(),
            f == (|i: int|
                option_ops(
                    x,
                    y,
                    chrome_pad,
                    texts(labels@)[i],
                    selected == Some(i as usize),
                    i,
                    ink,
                )),
            scene@ == start + drawn_for(i as nat, f),
        decreases labels.len() - i,
    {
        let ghost here = scene@;
        assert(texts(labels@)[i as int] == labels@[i as int]@);
        let cy = y.plus(chrome_pad.over(Number::from_bits(TWO))).plus(
            Number::from_bits(RADIO_ROW_HEIGHT).times(
                Number::from_usize(i).plus(Number::from_bits(HALF)),
            ),
        );
        let at = Point { x: x.plus(Number::from_bits(TEN)), y: cy };
        scene.fill(ink.widget_fill, Shape::Circle(at, Number::from_bits(SIX)));
        scene.stroke(
            Number::from_bits(ONE),
            ink.widget_affordance,
            Shape::Circle(at, Number::from_bits(SIX)),
        );
        let is_selected = match selected {
            Some(s) => s == i,
            None => false,
        };
        if is_selected {
            scene.fill(ink.widget_active, Shape::Circle(at, Number::from_bits(THREE)));
        }
        draw_label(scene, labels[i].as_str(), x.plus(Number::from_bits(TWENTY_FOUR)), cy, ink);
        assert(scene@ =~= here + f(i as int));
        assert(here + f(i as int) =~= start + drawn_for((i + 1) as nat, f));
        i = i + 1;
    }
    assert(texts(labels@).len() == labels@.len());
}

/// The top left corner of a checkbox.
pub open spec fn check_corner(at: WidgetBox) -> Point {
    Point {
        x: at.x.plus(Number::from_bits(FOUR)),
        y: middle(at).minus(Number::from_bits(SEVEN)),
    }
}

/// The check of a checkbox.
pub open spec fn check_mark(c: Point) -> Seq<Point> {
    seq![
        Point {
            x: c.x.plus(Number::from_bits(THREE)),
            y: c.y.plus(Number::from_bits(SEVEN_AND_A_HALF)),
        },
        Point {
            x: c.x.plus(Number::from_bits(SIX)),
            y: c.y.plus(Number::from_bits(TEN_AND_A_HALF)),
        },
        Point {
            x: c.x.plus(Number::from_bits(ELEVEN)),
            y: c.y.plus(Number::from_bits(THREE_AND_A_HALF)),
        },
    ]
}

/// What a checkbox draws: its box, the check where it is checked, and its
/// label.
pub open spec fn checkbox_ops(at: WidgetBox, checked: bool, label: Seq<char>, ink: ChartInk) -> Seq<
    Op,
> {
    let c = check_corner(at);
    let side = Number::from_bits(FOURTEEN);
    body_ops(
        Outline::Rounded(
            Rect { x0: c.x, y0: c.y, x1: c.x.plus(side), y1: c.y.plus(side) },
            Number::from_bits(THREE),
        ),
        ink,
    ) + (if checked {
        seq![
            Op::Stroke(
                Number::from_bits(TWO),
                ink.widget_active,
                Outline::Path(polyline(check_mark(c))),
            ),
        ]
    } else {
        Seq::empty()
    }) + label_at(label, c.x.plus(Number::from_bits(TWENTY_TWO)), middle(at), ink)
}

/// Draw a checkbox at rest: a rounded box, with a check where it is checked,
/// and a label.
pub fn render_checkbox(
    scene: &mut Scene,
    x: Number,
    y: Number,
    width: Number,
    height: Number,
    checked: bool,
    label: &str,
    ink: ChartInk,
)
    ensures
        final(scene)@ == old(scene)@ + checkbox_ops(
            (WidgetBox { x, y, width, height }),
            checked,
            label@,
            ink,
        ),
{
    let at = WidgetBox { x, y, width, height };
    let ghost start = scene@;
    let cy = at.y.plus(at.height.over(Number::from_bits(TWO)));
    let c = Point {
        x: at.x.plus(Number::from_bits(FOUR)),
        y: cy.minus(Number::from_bits(SEVEN)),
    };
    let side = Number::from_bits(FOURTEEN);
    let corner = Number::from_bits(THREE);
    let body = Rect { x0: c.x, y0: c.y, x1: c.x.plus(side), y1: c.y.plus(side) };
    scene.fill(ink.widget_fill, Shape::Rounded(body, corner));
    scene.stroke(Number::from_bits(ONE), ink.widget_border, Shape::Rounded(body, corner));
    if checked {
        let mut points: Vec<Point> = Vec::new();
        points.push(
            Point {
                x: c.x.plus(Number::from_bits(THREE)),
                y: c.y.plus(Number::from_bits(SEVEN_AND_A_HALF)),
            },
        );
        points.push(
            Point {
                x: c.x.plus(Number::from_bits(SIX)),
                y: c.y.plus(Number::from_bits(TEN_AND_A_HALF)),
            },
        );
        points.push(
            Point {
                x: c.x.plus(Number::from_bits(ELEVEN)),
                y: c.y.plus(Number::from_bits(THREE_AND_A_HALF)),
            },
        );
        assert(points@ =~= check_mark(c));
        let steps = line_through(&points);
        scene.stroke(Number::from_bits(TWO), ink.widget_active, Shape::Path(steps));
    }
    draw_label(scene, label, c.x.plus(Number::from_bits(TWENTY_TWO)), cy, ink);
    assert(scene@ =~= start + checkbox_ops(at, checked, label@, ink));
}

/// A slider's thumb stays on its track, wherever the value is.
pub proof fn a_thumb_stays_on_its_track(at: WidgetBox, frac: Number, ink: ChartInk)
    requires
        at.x.plus(Number::from_bits(SLIDER_THUMB_RADIUS)).is_finite(),
        at.width.minus(
            Number::from_bits(SLIDER_THUMB_RADIUS).times(Number::from_bits(TWO)),
        ).is_finite(),
        !frac.is_nan(),
    ensures
        ({
            let ops = slider_ops(at, frac, ink);
            &&& ops[0] matches Op::Fill(_, Outline::Rounded(track, _))
            &&& ops[1] matches Op::Fill(_, Outline::Circle(thumb, _))
            &&& ops[0]->Fill_1->Rounded_0.x0.le(ops[1]->Fill_1->Circle_0.x)
            &&& ops[1]->Fill_1->Circle_0.x.le(ops[0]->Fill_1->Rounded_0.x1)
        }),
{
    let zero = Number::from_bits(ZERO);
    let one = Number::from_bits(ONE);
    let two = Number::from_bits(TWO);
    let radius = Number::from_bits(SLIDER_THUMB_RADIUS);
    let left = at.x.plus(radius);
    let width = at.width.minus(radius.times(two)).max(zero);
    let part = frac.clamp(zero, one);
    lemma_format();
    if width.magnitude() == 0 {
        lemma_times_nothing(part, width);
    } else {
        lemma_times_keeps_order(zero, part, width);
        lemma_times_keeps_order(part, one, width);
    }
    lemma_times_nothing(width, zero);
    lemma_times_one(width);
    lemma_plus_nothing(left, zero);
    lemma_plus_keeps_order(zero, width.times(part), left);
    lemma_plus_keeps_order(width.times(part), width, left);
}

} // verus!
