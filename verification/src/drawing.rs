//! Display lists.
//!
//! A [`Scene`] is the list of what is to be drawn, in order: filled and
//! stroked shapes, texts, and the clips and offsets that hold for a stretch of
//! the list.
use vstd::prelude::*;

use crate::colour::Rgba;
use crate::number::Number;
use crate::single::Single;

verus! {

/// Horizontal placement of a label relative to its anchor.
#[derive(Debug, Clone, Copy, PartialEq, Eq, Structural)]
pub enum TextAnchor {
    /// Anchor is the left edge of the text.
    Start,
    /// Anchor is the horizontal centre of the text.
    Middle,
    /// Anchor is the right edge of the text.
    End,
}

/// A point in pixels.
#[derive(Debug, Clone, Copy, PartialEq, Eq, Structural)]
pub struct Point {
    pub x: Number,
    pub y: Number,
}

/// A rectangle by two corners. The second need not lie below and to the right
/// of the first.
#[derive(Debug, Clone, Copy, PartialEq, Eq, Structural)]
pub struct Rect {
    pub x0: Number,
    pub y0: Number,
    pub x1: Number,
    pub y1: Number,
}

/// One step of a path.
#[derive(Debug, Clone, Copy, PartialEq, Eq, Structural)]
pub enum Step {
    MoveTo(Number, Number),
    LineTo(Number, Number),
    Close,
}

/// What is filled or stroked.
#[derive(Debug)]
pub enum Shape {
    Rect(Rect),
    /// A rectangle with rounded corners of the given radius.
    Rounded(Rect, Number),
    /// A circle by its centre and radius.
    Circle(Point, Number),
    /// A straight line.
    Line(Point, Point),
    Path(Vec<Step>),
}

/// One entry of a display list.
#[derive(Debug)]
pub enum DrawOp {
    Fill(Rgba, Shape),
    /// A stroke of the given width.
    Stroke(Number, Rgba, Shape),
    /// A text with its baseline at a point, in a size and a colour.
    Text(String, Point, Single, Rgba, TextAnchor),
    /// A text turned a quarter turn anticlockwise about a point, so that it
    /// reads from the bottom to the top.
    Upward(String, Point, Single, Rgba, TextAnchor),
    /// From here on, only what lies inside the rectangle is drawn.
    PushClip(Rect),
    /// From here on, everything is moved by the given amounts.
    PushOffset(Number, Number),
    /// Ends the latest clip or offset.
    Pop,
}

/// A shape as a mathematical value.
pub enum Outline {
    Rect(Rect),
    Rounded(Rect, Number),
    Circle(Point, Number),
    Line(Point, Point),
    Path(Seq<Step>),
}

/// An entry of a display list as a mathematical value.
pub enum Op {
    Fill(Rgba, Outline),
    Stroke(Number, Rgba, Outline),
    Text(Seq<char>, Point, Single, Rgba, TextAnchor),
    Upward(Seq<char>, Point, Single, Rgba, TextAnchor),
    PushClip(Rect),
    PushOffset(Number, Number),
    Pop,
}

impl View for Shape {
    type V = Outline;

    open spec fn view(&self) -> Outline {
        match self {
            Shape::Rect(r) => Outline::Rect(*r),
            Shape::Rounded(r, radius) => Outline::Rounded(*r, *radius),
            Shape::Circle(c, radius) => Outline::Circle(*c, *radius),
            Shape::Line(a, b) => Outline::Line(*a, *b),
            Shape::Path(steps) => Outline::Path(steps@),
        }
    }
}

impl View for DrawOp {
    type V = Op;

    open spec fn view(&self) -> Op {
        match self {
            DrawOp::Fill(c, s) => Op::Fill(*c, s@),
            DrawOp::Stroke(w, c, s) => Op::Stroke(*w, *c, s@),
            DrawOp::Text(t, p, size, c, anchor) => Op::Text(t@, *p, *size, *c, *anchor),
            DrawOp::Upward(t, p, size, c, anchor) => Op::Upward(t@, *p, *size, *c, *anchor),
            DrawOp::PushClip(r) => Op::PushClip(*r),
            DrawOp::PushOffset(x, y) => Op::PushOffset(*x, *y),
            DrawOp::Pop => Op::Pop,
        }
    }
}

/// A display list.
#[derive(Debug)]
pub struct Scene {
    pub ops: Vec<DrawOp>,
}

/// Display-list entries as mathematical values.
pub open spec fn op_views(ops: Seq<DrawOp>) -> Seq<Op> {
    ops.map_values(|o: DrawOp| o@)
}

impl View for Scene {
    type V = Seq<Op>;

    open spec fn view(&self) -> Seq<Op> {
        op_views(self.ops@)
    }
}

impl DrawOp {
    /// A copy of an entry.
    pub fn copied(&self) -> (r: DrawOp)
        ensures
            r@ == self@,
    {
        match self {
            DrawOp::Fill(c, s) => DrawOp::Fill(*c, s.copied()),
            DrawOp::Stroke(w, c, s) => DrawOp::Stroke(*w, *c, s.copied()),
            DrawOp::Text(t, p, size, c, anchor) => DrawOp::Text(
                t.clone(),
                *p,
                *size,
                *c,
                *anchor,
            ),
            DrawOp::Upward(t, p, size, c, anchor) => DrawOp::Upward(
                t.clone(),
                *p,
                *size,
                *c,
                *anchor,
            ),
            DrawOp::PushClip(r) => DrawOp::PushClip(*r),
            DrawOp::PushOffset(x, y) => DrawOp::PushOffset(*x, *y),
            DrawOp::Pop => DrawOp::Pop,
        }
    }
}

impl Shape {
    /// A copy of a shape.
    pub fn copied(&self) -> (r: Shape)
        ensures
            r@ == self@,
    {
        match self {
            Shape::Rect(r) => Shape::Rect(*r),
            Shape::Rounded(r, radius) => Shape::Rounded(*r, *radius),
            Shape::Circle(c, radius) => Shape::Circle(*c, *radius),
            Shape::Line(a, b) => Shape::Line(*a, *b),
            Shape::Path(steps) => {
                let copy = steps.clone();
                assert(copy@ =~= steps@);
                Shape::Path(copy)
            },
        }
    }
}

impl Scene {
    /// An empty list.
    pub fn new() -> (r: Scene)
        ensures
            r@ == Seq::<Op>::empty(),
    {
        let r = Scene { ops: Vec::new() };
        assert(r@ =~= Seq::<Op>::empty());
        r
    }

    /// Appends an entry.
    pub fn push(&mut self, op: DrawOp)
        ensures
            final(self)@ == old(self)@.push(op@),
    {
        self.ops.push(op);
        assert(self@ =~= old(self)@.push(op@));
    }

    /// Appends a filled shape.
    pub fn fill(&mut self, colour: Rgba, shape: Shape)
        ensures
            final(self)@ == old(self)@.push(Op::Fill(colour, shape@)),
    {
        self.push(DrawOp::Fill(colour, shape));
    }

    /// Appends a stroked shape.
    pub fn stroke(&mut self, width: Number, colour: Rgba, shape: Shape)
        ensures
            final(self)@ == old(self)@.push(Op::Stroke(width, colour, shape@)),
    {
        self.push(DrawOp::Stroke(width, colour, shape));
    }

    /// Appends copies of all the entries of a list.
    pub fn append(&mut self, ops: &Vec<DrawOp>)
        ensures
            final(self)@ == old(self)@ + op_views(ops@),
    {
        let mut i: usize = 0;
        assert(self@ =~= old(self)@ + op_views(ops@).take(0));
        while i < ops.len()
            invariant
                i <= ops.len(),
                self@ == old(self)@ + op_views(ops@).take(i as int),
            decreases ops.len() - i,
        {
            self.push(ops[i].copied());
            i = i + 1;
            assert(self@ =~= old(self)@ + op_views(ops@).take(i as int));
        }
        assert(op_views(ops@).take(i as int) =~= op_views(ops@));
    }
}

/// What drawing a text appends: nothing for an empty one.
pub open spec fn text_ops(
    text: Seq<char>,
    at: Point,
    size: Single,
    colour: Rgba,
    anchor: TextAnchor,
) -> Seq<Op> {
    if text.len() == 0 {
        Seq::empty()
    } else {
        seq![Op::Text(text, at, size, colour, anchor)]
    }
}

/// Draw `text` with its baseline at a point, horizontally placed per `anchor`.
/// An empty text draws nothing.
pub fn draw_text(
    scene: &mut Scene,
    text: &str,
    x: Number,
    y: Number,
    size: Single,
    colour: Rgba,
    anchor: TextAnchor,
)
    ensures
        final(scene)@ == old(scene)@ + text_ops(text@, (Point { x, y }), size, colour, anchor),
{
    if !text.is_empty() {
        scene.push(DrawOp::Text(text.to_owned(), Point { x, y }, size, colour, anchor));
    }
    assert(scene@ =~= old(scene)@ + text_ops(text@, Point { x, y }, size, colour, anchor));
}

/// What drawing a text upwards appends: nothing for an empty one.
pub open spec fn upward_ops(
    text: Seq<char>,
    at: Point,
    size: Single,
    colour: Rgba,
    anchor: TextAnchor,
) -> Seq<Op> {
    if text.len() == 0 {
        Seq::empty()
    } else {
        seq![Op::Upward(text, at, size, colour, anchor)]
    }
}

/// Draw `text` turned a quarter turn anticlockwise about a point, placed per
/// `anchor` along its own baseline. An empty text draws nothing.
pub fn draw_text_rotated(
    scene: &mut Scene,
    text: &str,
    x: Number,
    y: Number,
    size: Single,
    colour: Rgba,
    anchor: TextAnchor,
)
    ensures
        final(scene)@ == old(scene)@ + upward_ops(text@, (Point { x, y }), size, colour, anchor),
{
    if !text.is_empty() {
        scene.push(DrawOp::Upward(text.to_owned(), Point { x, y }, size, colour, anchor));
    }
    assert(scene@ =~= old(scene)@ + upward_ops(text@, Point { x, y }, size, colour, anchor));
}

/// The steps of a line through points.
pub open spec fn polyline(points: Seq<Point>) -> Seq<Step> {
    Seq::new(
        points.len(),
        |i: int|
            if i == 0 {
                Step::MoveTo(points[0].x, points[0].y)
            } else {
                Step::LineTo(points[i].x, points[i].y)
            },
    )
}

/// The steps of a polygon through points.
pub open spec fn polygon(points: Seq<Point>) -> Seq<Step> {
    polyline(points).push(Step::Close)
}

/// Builds a line through points.
pub fn line_through(points: &Vec<Point>) -> (r: Vec<Step>)
    ensures
        r@ == polyline(points@),
{
    let mut out: Vec<Step> = Vec::new();
    let mut i: usize = 0;
    while i < points.len()
        invariant
            i <= points.len(),
            out@ == polyline(points@).take(i as int),
        decreases points.len() - i,
    {
        let p = points[i];
        if i == 0 {
            out.push(Step::MoveTo(p.x, p.y));
        } else {
            out.push(Step::LineTo(p.x, p.y));
        }
        i = i + 1;
        assert(out@ =~= polyline(points@).take(i as int));
    }
    assert(polyline(points@).take(i as int) =~= polyline(points@));
    out
}

/// Builds a polygon through points.
pub fn polygon_through(points: &Vec<Point>) -> (r: Vec<Step>)
    ensures
        r@ == polygon(points@),
{
    let mut out = line_through(points);
    out.push(Step::Close);
    out
}

/// What `f` draws for each of the first `n` items, in order.
pub open spec fn drawn_for(n: nat, f: spec_fn(int) -> Seq<Op>) -> Seq<Op>
    decreases n,
{
    if n == 0 {
        Seq::empty()
    } else {
        drawn_for((n - 1) as nat, f) + f(n - 1)
    }
}

/// Rows that each draw nothing draw nothing.
pub proof fn lemma_nothing_drawn(n: nat, f: spec_fn(int) -> Seq<Op>)
    requires
        forall|i: int| 0 <= i < n ==> #[trigger] f(i) == Seq::<Op>::empty(),
    ensures
        drawn_for(n, f) == Seq::<Op>::empty(),
    decreases n,
{
    if n > 0 {
        lemma_nothing_drawn((n - 1) as nat, f);
        assert(f(n - 1) == Seq::<Op>::empty());
        assert(drawn_for(n, f) =~= Seq::<Op>::empty());
    }
}

/// How many filled or stroked shapes a list draws.
pub open spec fn path_count(ops: Seq<Op>) -> nat
    decreases ops.len(),
{
    if ops.len() == 0 {
        0
    } else {
        path_count(ops.drop_last()) + match ops.last() {
            Op::Fill(..) => 1nat,
            Op::Stroke(..) => 1nat,
            _ => 0nat,
        }
    }
}

/// The shapes of two lists one after the other.
pub proof fn lemma_paths_add(a: Seq<Op>, b: Seq<Op>)
    ensures
        path_count(a + b) == path_count(a) + path_count(b),
    decreases b.len(),
{
    if b.len() == 0 {
        assert(a + b =~= a);
    } else {
        lemma_paths_add(a, b.drop_last());
        assert((a + b).drop_last() =~= a + b.drop_last());
    }
}

/// A list draws no more shapes than it has entries.
pub proof fn lemma_few_paths(ops: Seq<Op>)
    ensures
        path_count(ops) <= ops.len(),
    decreases ops.len(),
{
    if ops.len() > 0 {
        lemma_few_paths(ops.drop_last());
    }
}

/// Items that each draw at most `most` shapes draw at most that many times
/// their number.
pub proof fn lemma_paths_drawn(n: nat, f: spec_fn(int) -> Seq<Op>, most: nat)
    requires
        forall|i: int| 0 <= i < n ==> path_count(#[trigger] f(i)) <= most,
    ensures
        path_count(drawn_for(n, f)) <= n * most,
    decreases n,
{
    if n > 0 {
        lemma_paths_drawn((n - 1) as nat, f, most);
        lemma_paths_add(drawn_for((n - 1) as nat, f), f(n - 1));
        assert(path_count(f(n - 1)) <= most);
        assert((n - 1) * most + most == n * most) by (nonlinear_arith);
    }
}

/// How many characters of text a list draws.
pub open spec fn glyph_count(ops: Seq<Op>) -> nat
    decreases ops.len(),
{
    if ops.len() == 0 {
        0
    } else {
        glyph_count(ops.drop_last()) + match ops.last() {
            Op::Text(t, ..) => t.len(),
            Op::Upward(t, ..) => t.len(),
            _ => 0nat,
        }
    }
}

/// The number of filled or stroked shapes in a scene.
pub fn count_scene_paths(scene: &Scene) -> (n: usize)
    ensures
        n == path_count(scene@),
{
    let mut n: usize = 0;
    let mut i: usize = 0;
    assert(scene@.take(0) =~= Seq::<Op>::empty());
    while i < scene.ops.len()
        invariant
            i <= scene.ops.len(),
            n <= i,
            n == path_count(scene@.take(i as int)),
        decreases scene.ops.len() - i,
    {
        assert(scene@.take(i + 1).drop_last() =~= scene@.take(i as int));
        assert(scene@.take(i + 1).last() == scene.ops@[i as int]@);
        match &scene.ops[i] {
            DrawOp::Fill(_, _) => {
                n = n + 1;
            },
            DrawOp::Stroke(_, _, _) => {
                n = n + 1;
            },
            _ => {},
        }
        i = i + 1;
    }
    assert(scene@.take(i as int) =~= scene@);
    n
}

/// The number of filled or stroked shapes in a scene: another name for
/// [`count_scene_paths`].
pub fn count_scene_fills(scene: &Scene) -> (n: usize)
    ensures
        n == path_count(scene@),
{
    count_scene_paths(scene)
}

/// The number of characters of text in a scene. A text counts its glyphs here
/// and nothing among the shapes.
pub fn count_scene_glyphs(scene: &Scene) -> (n: u64)
    requires
        glyph_count(scene@) <= u64::MAX,
    ensures
        n == glyph_count(scene@),
{
    let mut n: u64 = 0;
    let mut i: usize = 0;
    assert(scene@.take(0) =~= Seq::<Op>::empty());
    assert(scene@.take(scene.ops.len() as int) =~= scene@);
    while i < scene.ops.len()
        invariant
            i <= scene.ops.len(),
            n == glyph_count(scene@.take(i as int)),
            glyph_count(scene@.take(scene.ops.len() as int)) <= u64::MAX,
        decreases scene.ops.len() - i,
    {
        assert(scene@.take(i + 1).drop_last() =~= scene@.take(i as int));
        assert(scene@.take(i + 1).last() == scene.ops@[i as int]@);
        proof {
            lemma_glyphs_grow(scene@, i + 1, scene.ops.len() as int);
        }
        match &scene.ops[i] {
            DrawOp::Text(t, _, _, _, _) => {
                let glyphs = t.as_str().unicode_len();
                n = n + glyphs as u64;
            },
            DrawOp::Upward(t, _, _, _, _) => {
                let glyphs = t.as_str().unicode_len();
                n = n + glyphs as u64;
            },
            _ => {},
        }
        i = i + 1;
    }
    n
}

proof fn lemma_glyphs_grow(ops: Seq<Op>, a: int, b: int)
    requires
        0 <= a <= b <= ops.len(),
    ensures
        glyph_count(ops.take(a)) <= glyph_count(ops.take(b)),
    decreases b - a,
{
    if a < b {
        assert(ops.take(b).drop_last() =~= ops.take(b - 1));
        lemma_glyphs_grow(ops, a, b - 1);
    }
}

} // verus!
