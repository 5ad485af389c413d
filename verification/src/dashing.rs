//! What a broken line is: dashes that lie on the line, none longer than the
//! pattern's, one behind the other.
use vstd::arithmetic::div_mod::lemma_small_mod;
use vstd::prelude::*;

use crate::accuracy::{amount, lemma_amount_of_sign, lemma_amounts_in_order};
use crate::bounds::{lemma_difference_keeps_order, lemma_plus_keeps_order, lemma_plus_nothing};
use crate::dash::{
    dashes_on, left_to_go, phase_at, point_along, step_at, walkable, Rhythm, Segment, SHORTEST_STEP,
};
use crate::drawing::Point;
use crate::euclid::lemma_plus_turns;
use crate::number::{correctly_rounded, lemma_format, worth, Number, INFINITE, WIDTH};
use crate::numerals::ZERO;
use crate::proportions::{a_point_along_a_piece_lies_on_it, is_along, lemma_walked};
use crate::rounding::{lemma_rounding_of_nothing, lemma_units_increase};

verus! {

/// Whether a pattern has a dash and a gap.
pub open spec fn is_pattern(rhythm: Rhythm) -> bool {
    let zero = Number::from_bits(ZERO);
    rhythm.on.is_finite() && zero.lt(rhythm.on) && zero.lt(rhythm.off)
}

/// Whether a segment is a dash from one distance along a piece to another: both
/// ends lie on the piece, in order, and no farther apart than a dash is long.
pub open spec fn is_dash(
    a: Point,
    b: Point,
    len: Number,
    rhythm: Rhythm,
    dash: Segment,
    from: Number,
    to: Number,
) -> bool {
    &&& from.is_finite() && to.is_finite()
    &&& Number::from_bits(ZERO).le(from) && from.le(to) && to.le(len)
    &&& is_along(a, b, amount(from.over(len)), dash.from)
    &&& is_along(a, b, amount(to.over(len)), dash.to)
    &&& to.le(from.plus(rhythm.on.max(Number::from_bits(SHORTEST_STEP))))
}

/// The walk is never before the start of its pattern.
proof fn lemma_phase(rhythm: Rhythm, travelled: Number, s: Number)
    requires
        travelled.is_finite(),
        Number::from_bits(ZERO).le(travelled),
        Number::from_bits(ZERO).le(s),
    ensures
        ({
            let phase = phase_at(rhythm, travelled, s);
            phase.is_nan() || Number::from_bits(ZERO).le(phase)
        }),
{
    let zero = Number::from_bits(ZERO);
    lemma_format();
    lemma_plus_keeps_order(zero, s, travelled);
    lemma_plus_nothing(travelled, zero);
    lemma_rounding_of_nothing(WIDTH as nat, INFINITE as nat, 1);
    let x = travelled.plus(s);
    let period = rhythm.on.plus(rhythm.off);
    assert(zero.le(x));
    reveal(Number::spec_remainder);
    if x.is_finite() && period.is_finite() && period.magnitude() != 0 {
        lemma_units_increase(WIDTH as nat, 0, period.magnitude());
        let (w, p) = (worth(x.magnitude()), worth(period.magnitude()));
        let left = correctly_rounded(w % p, 1);
        assert(left <= INFINITE);
        if x.negative() {
            assert(w == 0);
            lemma_small_mod(w, p);
            assert(left == 0);
        }
    }
}

/// One step of the walk on a dash.
proof fn lemma_step(a: Point, b: Point, len: Number, rhythm: Rhythm, travelled: Number, s: Number)
    requires
        walkable(len),
        is_pattern(rhythm),
        travelled.is_finite(),
        Number::from_bits(ZERO).le(travelled),
        s.is_finite(),
        Number::from_bits(ZERO).le(s),
        s.lt(len),
    ensures
        ({
            let next = s.plus(step_at(rhythm, travelled, s, len));
            &&& s.le(next)
            &&& phase_at(rhythm, travelled, s).lt(rhythm.on) ==> next.min(len).is_finite()
            &&& phase_at(rhythm, travelled, s).lt(rhythm.on) ==> is_dash(
                a,
                b,
                len,
                rhythm,
                (Segment {
                    from: point_along(a, b, s.over(len)),
                    to: point_along(a, b, next.min(len).over(len)),
                }),
                s,
                next.min(len),
            )
        }),
{
    let zero = Number::from_bits(ZERO);
    let shortest = Number::from_bits(SHORTEST_STEP);
    let phase = phase_at(rhythm, travelled, s);
    let step = step_at(rhythm, travelled, s, len);
    let next = s.plus(step);
    lemma_format();
    lemma_phase(rhythm, travelled, s);
    assert(shortest.le(step) && zero.le(step));
    lemma_plus_keeps_order(zero, step, s);
    lemma_plus_nothing(s, zero);
    if phase.lt(rhythm.on) {
        lemma_difference_keeps_order(rhythm.on, phase, rhythm.on);
        lemma_difference_keeps_order(len, s, len);
        lemma_amounts_in_order(zero, phase);
        assert(rhythm.on.minus(phase).le(rhythm.on));
        assert(step.le(rhythm.on.max(shortest)));
        lemma_plus_keeps_order(step, rhythm.on.max(shortest), s);
        let to = next.min(len);
        lemma_amount_of_sign(zero);
        lemma_amounts_in_order(zero, s);
        lemma_amounts_in_order(s, len);
        lemma_amounts_in_order(s, to);
        lemma_amounts_in_order(to, len);
        lemma_walked(s, len);
        lemma_walked(to, len);
        a_point_along_a_piece_lies_on_it(a, b, s.over(len));
        a_point_along_a_piece_lies_on_it(a, b, to.over(len));
    }
}

/// Every dash lies on its piece, from one distance to another, and no dash is
/// longer than the pattern's.
pub proof fn a_dash_lies_on_its_piece(
    a: Point,
    b: Point,
    len: Number,
    rhythm: Rhythm,
    travelled: Number,
    s: Number,
    k: int,
) -> (ends: (Number, Number))
    requires
        walkable(len),
        is_pattern(rhythm),
        travelled.is_finite(),
        Number::from_bits(ZERO).le(travelled),
        s.is_finite(),
        Number::from_bits(ZERO).le(s),
        0 <= k < dashes_on(a, b, len, rhythm, travelled, s).len(),
    ensures
        s.le(ends.0),
        is_dash(
            a,
            b,
            len,
            rhythm,
            dashes_on(a, b, len, rhythm, travelled, s)[k],
            ends.0,
            ends.1,
        ),
    decreases left_to_go(s, len),
{
    let next = s.plus(step_at(rhythm, travelled, s, len));
    let drawn = phase_at(rhythm, travelled, s).lt(rhythm.on);
    lemma_format();
    lemma_step(a, b, len, rhythm, travelled, s);
    reveal_with_fuel(dashes_on, 2);
    if drawn && k == 0 {
        (s, next.min(len))
    } else {
        let rest: int = if drawn {
            k - 1
        } else {
            k
        };
        assert(next.lt(len));
        a_dash_lies_on_its_piece(a, b, len, rhythm, travelled, next, rest)
    }
}

/// Dashes follow one another: each ends before the next one starts.
pub proof fn dashes_follow_one_another(
    a: Point,
    b: Point,
    len: Number,
    rhythm: Rhythm,
    travelled: Number,
    s: Number,
    j: int,
    k: int,
) -> (ends: ((Number, Number), (Number, Number)))
    requires
        walkable(len),
        is_pattern(rhythm),
        travelled.is_finite(),
        Number::from_bits(ZERO).le(travelled),
        s.is_finite(),
        Number::from_bits(ZERO).le(s),
        0 <= j < k < dashes_on(a, b, len, rhythm, travelled, s).len(),
    ensures
        ({
            let all = dashes_on(a, b, len, rhythm, travelled, s);
            &&& is_dash(a, b, len, rhythm, all[j], ends.0.0, ends.0.1)
            &&& is_dash(a, b, len, rhythm, all[k], ends.1.0, ends.1.1)
            &&& ends.0.1.le(ends.1.0)
        }),
    decreases left_to_go(s, len),
{
    let next = s.plus(step_at(rhythm, travelled, s, len));
    let drawn = phase_at(rhythm, travelled, s).lt(rhythm.on);
    lemma_format();
    lemma_step(a, b, len, rhythm, travelled, s);
    reveal_with_fuel(dashes_on, 2);
    if drawn && j == 0 {
        assert(next.lt(len));
        let later = a_dash_lies_on_its_piece(a, b, len, rhythm, travelled, next, k - 1);
        ((s, next.min(len)), later)
    } else {
        let less: int = if drawn {
            1
        } else {
            0
        };
        assert(next.lt(len));
        dashes_follow_one_another(a, b, len, rhythm, travelled, next, j - less, k - less)
    }
}

/// A broken line begins with a dash: one as long as the pattern's, or as the
/// piece where that is shorter.
pub proof fn a_broken_line_begins_with_a_dash(
    a: Point,
    b: Point,
    len: Number,
    rhythm: Rhythm,
) -> (to: Number)
    requires
        walkable(len),
        is_pattern(rhythm),
        rhythm.off.is_finite(),
        rhythm.on.plus(rhythm.off).is_finite(),
        Number::from_bits(SHORTEST_STEP).le(len),
        Number::from_bits(SHORTEST_STEP).le(rhythm.on),
    ensures
        ({
            let zero = Number::from_bits(ZERO);
            let all = dashes_on(a, b, len, rhythm, zero, zero);
            &&& all.len() > 0
            &&& is_dash(a, b, len, rhythm, all[0], zero, to)
            &&& amount(to) == if amount(rhythm.on) < amount(len) {
                amount(rhythm.on)
            } else {
                amount(len)
            }
        }),
{
    let zero = Number::from_bits(ZERO);
    let phase = phase_at(rhythm, zero, zero);
    let step = step_at(rhythm, zero, zero, len);
    let next = zero.plus(step);
    let period = rhythm.on.plus(rhythm.off);
    lemma_format();
    lemma_plus_nothing(zero, zero);
    lemma_plus_keeps_order(zero, rhythm.off, rhythm.on);
    lemma_plus_nothing(rhythm.on, zero);
    assert(phase.magnitude() == 0 && phase.is_finite()) by {
        reveal(Number::spec_remainder);
        lemma_rounding_of_nothing(WIDTH as nat, INFINITE as nat, 1);
        lemma_units_increase(WIDTH as nat, 0, period.magnitude());
        assert(0nat % worth(period.magnitude()) == 0);
    }
    lemma_step(a, b, len, rhythm, zero, zero);
    lemma_difference_keeps_order(rhythm.on, phase, rhythm.on);
    lemma_difference_keeps_order(len, zero, len);
    let to = next.min(len);
    lemma_amount_of_sign(zero);
    lemma_amounts_in_order(rhythm.on.minus(phase), rhythm.on);
    lemma_amounts_in_order(len.minus(zero), len);
    lemma_amounts_in_order(rhythm.on.minus(phase), len.minus(zero));
    lemma_amounts_in_order(len.minus(zero), rhythm.on.minus(phase));
    lemma_plus_turns(zero, step);
    lemma_plus_nothing(step, zero);
    lemma_amounts_in_order(next, step);
    lemma_amounts_in_order(next, len);
    lemma_amounts_in_order(len, next);
    to
}

} // verus!
