//! Broken lines.
//!
//! A mark whose query could not be narrowed to the plot's frame says so by
//! texture: its lines are drawn as dashes.
use vstd::prelude::*;

use crate::drawing::{Op, Outline, Point, Scene, Shape};
use crate::colour::Rgba;
use crate::number::Number;
use crate::numerals::ZERO;

verus! {

/// The length of a dash in pixels: 6.
pub const BEYOND_FRAME_DASH: u64 = 0x4018_0000_0000_0000;

/// The length of the gap between dashes in pixels: 4.
pub const BEYOND_FRAME_GAP: u64 = 0x4010_0000_0000_0000;

/// The shortest step of the walk along a segment: a millionth of a pixel.
pub const SHORTEST_STEP: u64 = 0x3eb0_c6f7_a0b5_ed8d;

/// A straight piece of a line.
#[derive(Debug, Clone, Copy, PartialEq, Eq, Structural)]
pub struct Segment {
    pub from: Point,
    pub to: Point,
}

/// A dash pattern.
#[derive(Debug, Clone, Copy, PartialEq, Eq, Structural)]
pub struct Rhythm {
    /// The length of a dash.
    pub on: Number,
    /// The length of a gap.
    pub off: Number,
}

/// The point a part of the way from `a` to `b`.
pub open spec fn point_along(a: Point, b: Point, t: Number) -> Point {
    Point {
        x: a.x.plus(b.x.minus(a.x).times(t)),
        y: a.y.plus(b.y.minus(a.y).times(t)),
    }
}

fn along(a: Point, b: Point, t: Number) -> (r: Point)
    ensures
        r == point_along(a, b, t),
{
    Point { x: a.x.plus(b.x.minus(a.x).times(t)), y: a.y.plus(b.y.minus(a.y).times(t)) }
}

/// How far into the pattern the walk is after `travelled` and `s` more.
pub open spec fn phase_at(rhythm: Rhythm, travelled: Number, s: Number) -> Number {
    travelled.plus(s).remainder(rhythm.on.plus(rhythm.off))
}

/// The next step of the walk: to the end of the dash or gap, or of the
/// segment, whichever comes first.
pub open spec fn step_at(rhythm: Rhythm, travelled: Number, s: Number, len: Number) -> Number {
    let phase = phase_at(rhythm, travelled, s);
    let end = if phase.lt(rhythm.on) {
        rhythm.on
    } else {
        rhythm.on.plus(rhythm.off)
    };
    end.minus(phase).min(len.minus(s)).max(Number::from_bits(SHORTEST_STEP))
}

/// How far a walk has to go, counted in representable numbers.
pub open spec fn left_to_go(s: Number, len: Number) -> nat {
    if s.lt(len) {
        (len.rank() - s.rank()) as nat
    } else {
        0
    }
}

/// The dashes on one segment of length `len`, from `s` along it to its end.
/// A walk whose steps are too short to be counted ends where it stands.
pub open spec fn dashes_on(
    a: Point,
    b: Point,
    len: Number,
    rhythm: Rhythm,
    travelled: Number,
    s: Number,
) -> Seq<Segment>
    decreases left_to_go(s, len),
{
    if s.lt(len) {
        let step = step_at(rhythm, travelled, s, len);
        let next = s.plus(step);
        let here = if phase_at(rhythm, travelled, s).lt(rhythm.on) {
            seq![
                Segment {
                    from: point_along(a, b, s.over(len)),
                    to: point_along(a, b, next.min(len).over(len)),
                },
            ]
        } else {
            Seq::empty()
        };
        if s.lt(next) {
            here + dashes_on(a, b, len, rhythm, travelled, next)
        } else {
            here
        }
    } else {
        Seq::empty()
    }
}

/// The length of a segment among lengths given; zero where none is given.
pub open spec fn length_at(lengths: Seq<Number>, i: int) -> Number {
    if 0 <= i < lengths.len() {
        lengths[i]
    } else {
        Number::from_bits(ZERO)
    }
}

/// Whether a length can be walked.
pub open spec fn walkable(len: Number) -> bool {
    len.is_finite() && Number::from_bits(ZERO).lt(len)
}

/// How far the walk has come after the first `n` segments.
pub open spec fn travelled_after(lengths: Seq<Number>, n: nat) -> Number
    decreases n,
{
    if n == 0 {
        Number::from_bits(ZERO)
    } else {
        let before = travelled_after(lengths, (n - 1) as nat);
        let len = length_at(lengths, n - 1);
        if walkable(len) {
            before.plus(len)
        } else {
            before
        }
    }
}

/// The dashes on the first `n` segments of a line through points.
pub open spec fn dashes_after(
    points: Seq<Point>,
    lengths: Seq<Number>,
    rhythm: Rhythm,
    n: nat,
) -> Seq<Segment>
    decreases n,
{
    if n == 0 {
        Seq::empty()
    } else {
        let before = dashes_after(points, lengths, rhythm, (n - 1) as nat);
        let len = length_at(lengths, n - 1);
        if walkable(len) {
            before + dashes_on(
                points[n - 1],
                points[n as int],
                len,
                rhythm,
                travelled_after(lengths, (n - 1) as nat),
                Number::from_bits(ZERO),
            )
        } else {
            before
        }
    }
}

/// The drawn runs of a dash pattern on a line through points, given the length
/// of each of its segments. The pattern runs on over the joins.
pub open spec fn dashed(points: Seq<Point>, lengths: Seq<Number>, rhythm: Rhythm) -> Seq<Segment> {
    let zero = Number::from_bits(ZERO);
    if rhythm.on.le(zero) || rhythm.off.le(zero) || points.len() == 0 {
        Seq::empty()
    } else {
        dashes_after(points, lengths, rhythm, (points.len() - 1) as nat)
    }
}

fn dash_segment(
    out: &mut Vec<Segment>,
    a: Point,
    b: Point,
    len: Number,
    rhythm: Rhythm,
    travelled: Number,
)
    ensures
        final(out)@ == old(out)@ + dashes_on(
            a,
            b,
            len,
            rhythm,
            travelled,
            Number::from_bits(ZERO),
        ),
{
    let shortest = Number::from_bits(SHORTEST_STEP);
    let period = rhythm.on.plus(rhythm.off);
    let mut s = Number::from_bits(ZERO);
    let ghost start = out@;
    let ghost all = dashes_on(a, b, len, rhythm, travelled, s);
    assert(start + all =~= out@ + dashes_on(a, b, len, rhythm, travelled, s));
    while s.lt(len)
        invariant
            shortest == Number::from_bits(SHORTEST_STEP),
            period == rhythm.on.plus(rhythm.off),
            start == old(out)@,
            all == dashes_on(a, b, len, rhythm, travelled, Number::from_bits(ZERO)),
            start + all == out@ + dashes_on(a, b, len, rhythm, travelled, s),
        decreases left_to_go(s, len),
    {
        let ghost before = out@;
        let ghost was = dashes_on(a, b, len, rhythm, travelled, s);
        let phase = travelled.plus(s).remainder(period);
        let drawn = phase.lt(rhythm.on);
        let end = if drawn {
            rhythm.on
        } else {
            period
        };
        let step = end.minus(phase).min(len.minus(s)).max(shortest);
        let next = s.plus(step);
        if drawn {
            let from = along(a, b, s.over(len));
            let to = along(a, b, next.min(len).over(len));
            out.push(Segment { from, to });
        }
        if !s.lt(next) {
            assert(out@ =~= before + was);
            return ;
        }
        assert(before + was =~= out@ + dashes_on(a, b, len, rhythm, travelled, next));
        s = next;
    }
    assert(out@ + Seq::<Segment>::empty() =~= out@);
}

/// Cut a pixel-space polyline into the drawn runs of a dash pattern. The
/// length of each segment is the caller's to measure; a segment whose length
/// is not a positive number contributes nothing.
pub fn dash_polyline(points: &Vec<Point>, lengths: &Vec<Number>, rhythm: Rhythm) -> (out: Vec<
    Segment,
>)
    ensures
        out@ == dashed(points@, lengths@, rhythm),
{
    let zero = Number::from_bits(ZERO);
    let mut out: Vec<Segment> = Vec::new();
    if rhythm.on.le(zero) || rhythm.off.le(zero) || points.len() == 0 {
        return out;
    }
    let mut travelled = zero;
    let mut i: usize = 0;
    while i < points.len() - 1
        invariant
            i <= points.len() - 1,
            zero == Number::from_bits(ZERO),
            travelled == travelled_after(lengths@, i as nat),
            out@ == dashes_after(points@, lengths@, rhythm, i as nat),
        decreases points.len() - i,
    {
        let len = if i < lengths.len() {
            lengths[i]
        } else {
            zero
        };
        if len.is_finite() && zero.lt(len) {
            dash_segment(&mut out, points[i], points[i + 1], len, rhythm, travelled);
            travelled = travelled.plus(len);
        }
        i = i + 1;
    }
    out
}

/// The straight pieces of a line through points.
pub open spec fn pieces(points: Seq<Point>) -> Seq<Segment> {
    Seq::new(
        if points.len() == 0 {
            0
        } else {
            (points.len() - 1) as nat
        },
        |i: int| Segment { from: points[i], to: points[i + 1] },
    )
}

/// The straight pieces of a line through points.
pub fn line_pieces(points: &Vec<Point>) -> (out: Vec<Segment>)
    ensures
        out@ == pieces(points@),
{
    let mut out: Vec<Segment> = Vec::new();
    if points.len() == 0 {
        assert(out@ =~= pieces(points@));
        return out;
    }
    let mut i: usize = 0;
    while i < points.len() - 1
        invariant
            i <= points.len() - 1,
            out@ == pieces(points@).take(i as int),
        decreases points.len() - i,
    {
        out.push(Segment { from: points[i], to: points[i + 1] });
        i = i + 1;
        assert(out@ =~= pieces(points@).take(i as int));
    }
    assert(pieces(points@).take(i as int) =~= pieces(points@));
    out
}

/// What stroking segments draws.
pub open spec fn segment_ops(segments: Seq<Segment>, width: Number, colour: Rgba) -> Seq<Op> {
    segments.map_values(|s: Segment| Op::Stroke(width, colour, Outline::Line(s.from, s.to)))
}

/// Strokes segments one by one.
pub fn stroke_segments(scene: &mut Scene, segments: &Vec<Segment>, width: Number, colour: Rgba)
    ensures
        final(scene)@ == old(scene)@ + segment_ops(segments@, width, colour),
{
    let ghost start = scene@;
    let ghost all = segment_ops(segments@, width, colour);
    let mut i: usize = 0;
    assert(start + all.take(0) =~= start);
    while i < segments.len()
        invariant
            i <= segments.len(),
            all == segment_ops(segments@, width, colour),
            scene@ == start + all.take(i as int),
        decreases segments.len() - i,
    {
        scene.stroke(width, colour, Shape::Line(segments[i].from, segments[i].to));
        i = i + 1;
        assert(scene@ =~= start + all.take(i as int));
    }
    assert(all.take(i as int) =~= all);
}

} // verus!
