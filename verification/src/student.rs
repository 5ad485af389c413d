//! Student's t quantiles.
use vstd::arithmetic::power2::{
    lemma2_to64, lemma2_to64_rest, lemma_pow2_adds, lemma_pow2_pos, lemma_pow2_unfold, pow2,
};
use vstd::prelude::*;

use crate::accuracy::{
    amount, distance, least, lemma_amount_of_parts, lemma_amount_of_sign, lemma_amounts_in_order,
    lemma_close, lemma_distance_of_product, lemma_distances, lemma_finite_parts,
    lemma_least_is_small, lemma_minus_accuracy, lemma_part, lemma_plus_accuracy,
    lemma_times_accuracy, lemma_triangle, roundoff,
};
use crate::bounds::{
    lemma_difference_keeps_order, lemma_exact_difference, lemma_next_exponent, lemma_nothing_over,
    lemma_over_itself, lemma_over_keeps_order, lemma_over_one, lemma_plus_keeps_order,
    lemma_plus_nothing, lemma_sum_keeps_order, lemma_times_keeps_order, lemma_times_nothing,
    lemma_times_one,
};
use crate::number::{
    lemma_format, lemma_rank_is_value_order, lemma_worth_of_power, worth, Number, DEPTH, FRACTIONS,
    INFINITE, WIDTH,
};
use crate::numerals::{ONE, THREE, TWO, ZERO};
use crate::rounding::{
    lemma_rounding_at_least, lemma_rounding_at_most, lemma_rounding_exists,
    lemma_rounding_is_unique, lemma_units_increase, lemma_units_of_parts, nearest, rounds_to,
    size, units,
};

verus! {

/// The number 0.9.
pub const LEVEL_90: u64 = 0x3fec_cccc_cccc_cccd;

/// The number 0.95.
pub const LEVEL_95: u64 = 0x3fee_6666_6666_6666;

/// The number 0.99.
pub const LEVEL_99: u64 = 0x3fef_ae14_7ae1_47ae;

/// The degrees of freedom from which the normal quantile stands in: 60.
pub const MANY_DEGREES: u64 = 0x404e_0000_0000_0000;

/// The sample size that leaves that many: 62.
pub const SIXTY_TWO: u64 = 0x404f_0000_0000_0000;

/// The confidence levels that quantiles are tabulated for.
#[derive(Debug, Clone, Copy, PartialEq, Eq, Structural)]
pub enum Confidence {
    /// 90 in a hundred.
    Ninety,
    /// 95 in a hundred.
    NinetyFive,
    /// 99 in a hundred.
    NinetyNine,
}

/// A row of the table: the two-tailed quantiles at some degrees of freedom.
#[derive(Debug, Clone, Copy, PartialEq, Eq, Structural)]
pub struct Quantiles {
    pub degrees: Number,
    pub ninety: Number,
    pub ninety_five: Number,
    pub ninety_nine: Number,
}

impl Quantiles {
    pub open spec fn spec_at(self, level: Confidence) -> Number {
        match level {
            Confidence::Ninety => self.ninety,
            Confidence::NinetyFive => self.ninety_five,
            Confidence::NinetyNine => self.ninety_nine,
        }
    }

    /// The quantile at a confidence level.
    #[verifier::when_used_as_spec(spec_at)]
    pub fn at(self, level: Confidence) -> (r: Number)
        ensures
            r == self.spec_at(level),
    {
        match level {
            Confidence::Ninety => self.ninety,
            Confidence::NinetyFive => self.ninety_five,
            Confidence::NinetyNine => self.ninety_nine,
        }
    }
}

pub open spec fn row_of(degrees: u64, ninety: u64, ninety_five: u64, ninety_nine: u64) -> Quantiles {
    Quantiles {
        degrees: Number::from_bits(degrees),
        ninety: Number::from_bits(ninety),
        ninety_five: Number::from_bits(ninety_five),
        ninety_nine: Number::from_bits(ninety_nine),
    }
}

fn row(degrees: u64, ninety: u64, ninety_five: u64, ninety_nine: u64) -> (r: Quantiles)
    ensures
        r == row_of(degrees, ninety, ninety_five, ninety_nine),
{
    Quantiles {
        degrees: Number::from_bits(degrees),
        ninety: Number::from_bits(ninety),
        ninety_five: Number::from_bits(ninety_five),
        ninety_nine: Number::from_bits(ninety_nine),
    }
}

/// The quantiles for 1 to 10, 12, 15, 20, 25, 30 and 60 degrees of freedom,
/// to three decimal places.
pub open spec fn table() -> Seq<Quantiles> {
    seq![
        row_of(
            0x3ff0_0000_0000_0000,
            0x4019_4189_374b_c6a8,
            0x4029_6978_d4fd_f3b6,
            0x404f_d418_9374_bc6a,
        ),
        row_of(
            0x4000_0000_0000_0000,
            0x4007_5c28_f5c2_8f5c,
            0x4011_3645_a1ca_c083,
            0x4023_d999_9999_999a,
        ),
        row_of(
            0x4008_0000_0000_0000,
            0x4002_d2f1_a9fb_e76d,
            0x4009_74bc_6a7e_f9db,
            0x4017_5d2f_1a9f_be77,
        ),
        row_of(
            0x4010_0000_0000_0000,
            0x4001_0e56_0418_9375,
            0x4006_353f_7ced_9168,
            0x4012_6a7e_f9db_22d1,
        ),
        row_of(
            0x4014_0000_0000_0000,
            0x4000_1eb8_51eb_851f,
            0x4004_9168_72b0_20c5,
            0x4010_20c4_9ba5_e354,
        ),
        row_of(
            0x4018_0000_0000_0000,
            0x3fff_1687_2b02_0c4a,
            0x4003_9374_bc6a_7efa,
            0x400d_a7ef_9db2_2d0e,
        ),
        row_of(
            0x401c_0000_0000_0000,
            0x3ffe_51eb_851e_b852,
            0x4002_eb85_1eb8_51ec,
            0x400b_fdf3_b645_a1cb,
        ),
        row_of(
            0x4020_0000_0000_0000,
            0x3ffd_c28f_5c28_f5c3,
            0x4002_72b0_20c4_9ba6,
            0x400a_d70a_3d70_a3d7,
        ),
        row_of(
            0x4022_0000_0000_0000,
            0x3ffd_53f7_ced9_1687,
            0x4002_1893_74bc_6a7f,
            0x400a_0000_0000_0000,
        ),
        row_of(
            0x4024_0000_0000_0000,
            0x3ffc_fdf3_b645_a1cb,
            0x4001_d2f1_a9fb_e76d,
            0x4009_5a1c_ac08_3127,
        ),
        row_of(
            0x4028_0000_0000_0000,
            0x3ffc_8312_6e97_8d50,
            0x4001_6e97_8d4f_df3b,
            0x4008_70a3_d70a_3d71,
        ),
        row_of(
            0x402e_0000_0000_0000,
            0x3ffc_0c49_ba5e_353f,
            0x4001_0c49_ba5e_353f,
            0x4007_9374_bc6a_7efa,
        ),
        row_of(
            0x4034_0000_0000_0000,
            0x3ffb_9999_9999_999a,
            0x4000_b020_c49b_a5e3,
            0x4006_c28f_5c28_f5c3,
        ),
        row_of(
            0x4039_0000_0000_0000,
            0x3ffb_53f7_ced9_1687,
            0x4000_7ae1_47ae_147b,
            0x4006_4bc6_a7ef_9db2,
        ),
        row_of(
            0x403e_0000_0000_0000,
            0x3ffb_26e9_78d4_fdf4,
            0x4000_5604_1893_74bc,
            0x4006_0000_0000_0000,
        ),
        row_of(
            0x404e_0000_0000_0000,
            0x3ffa_bc6a_7ef9_db23,
            0x4000_0000_0000_0000,
            0x4005_47ae_147a_e148,
        ),
    ]
}

/// The quantiles of the normal distribution.
pub open spec fn normal() -> Quantiles {
    row_of(MANY_DEGREES, 0x3ffa_51eb_851e_b852, 0x3fff_5c28_f5c2_8f5c, 0x4004_9ba5_e353_f7cf)
}

fn rows() -> (r: Vec<Quantiles>)
    ensures
        r@ == table(),
{
    let mut v: Vec<Quantiles> = Vec::new();
    v.push(
        row(0x3ff0_0000_0000_0000, 0x4019_4189_374b_c6a8, 0x4029_6978_d4fd_f3b6, 0x404f_d418_9374_bc6a),
    );
    v.push(
        row(0x4000_0000_0000_0000, 0x4007_5c28_f5c2_8f5c, 0x4011_3645_a1ca_c083, 0x4023_d999_9999_999a),
    );
    v.push(
        row(0x4008_0000_0000_0000, 0x4002_d2f1_a9fb_e76d, 0x4009_74bc_6a7e_f9db, 0x4017_5d2f_1a9f_be77),
    );
    v.push(
        row(0x4010_0000_0000_0000, 0x4001_0e56_0418_9375, 0x4006_353f_7ced_9168, 0x4012_6a7e_f9db_22d1),
    );
    v.push(
        row(0x4014_0000_0000_0000, 0x4000_1eb8_51eb_851f, 0x4004_9168_72b0_20c5, 0x4010_20c4_9ba5_e354),
    );
    v.push(
        row(0x4018_0000_0000_0000, 0x3fff_1687_2b02_0c4a, 0x4003_9374_bc6a_7efa, 0x400d_a7ef_9db2_2d0e),
    );
    v.push(
        row(0x401c_0000_0000_0000, 0x3ffe_51eb_851e_b852, 0x4002_eb85_1eb8_51ec, 0x400b_fdf3_b645_a1cb),
    );
    v.push(
        row(0x4020_0000_0000_0000, 0x3ffd_c28f_5c28_f5c3, 0x4002_72b0_20c4_9ba6, 0x400a_d70a_3d70_a3d7),
    );
    v.push(
        row(0x4022_0000_0000_0000, 0x3ffd_53f7_ced9_1687, 0x4002_1893_74bc_6a7f, 0x400a_0000_0000_0000),
    );
    v.push(
        row(0x4024_0000_0000_0000, 0x3ffc_fdf3_b645_a1cb, 0x4001_d2f1_a9fb_e76d, 0x4009_5a1c_ac08_3127),
    );
    v.push(
        row(0x4028_0000_0000_0000, 0x3ffc_8312_6e97_8d50, 0x4001_6e97_8d4f_df3b, 0x4008_70a3_d70a_3d71),
    );
    v.push(
        row(0x402e_0000_0000_0000, 0x3ffc_0c49_ba5e_353f, 0x4001_0c49_ba5e_353f, 0x4007_9374_bc6a_7efa),
    );
    v.push(
        row(0x4034_0000_0000_0000, 0x3ffb_9999_9999_999a, 0x4000_b020_c49b_a5e3, 0x4006_c28f_5c28_f5c3),
    );
    v.push(
        row(0x4039_0000_0000_0000, 0x3ffb_53f7_ced9_1687, 0x4000_7ae1_47ae_147b, 0x4006_4bc6_a7ef_9db2),
    );
    v.push(
        row(0x403e_0000_0000_0000, 0x3ffb_26e9_78d4_fdf4, 0x4000_5604_1893_74bc, 0x4006_0000_0000_0000),
    );
    v.push(
        row(0x404e_0000_0000_0000, 0x3ffa_bc6a_7ef9_db23, 0x4000_0000_0000_0000, 0x4005_47ae_147a_e148),
    );
    assert(v@ =~= table());
    v
}

/// The tabulated level for a confidence: the highest that it reaches, and 95
/// in a hundred where it reaches none.
pub open spec fn level_of(ci: Number) -> Confidence {
    if Number::from_bits(LEVEL_99).le(ci) {
        Confidence::NinetyNine
    } else if Number::from_bits(LEVEL_95).le(ci) {
        Confidence::NinetyFive
    } else if Number::from_bits(LEVEL_90).le(ci) {
        Confidence::Ninety
    } else {
        Confidence::NinetyFive
    }
}

/// The quantile on the straight line between two rows.
pub open spec fn between(low: Quantiles, high: Quantiles, level: Confidence, degrees: Number) -> Number {
    let t = degrees.minus(low.degrees).over(high.degrees.minus(low.degrees));
    low.at(level).plus(t.times(high.at(level).minus(low.at(level))))
}

/// The quantile between the first two neighbouring rows, from row `i` on, that
/// the degrees of freedom lie between.
pub open spec fn tabulated(level: Confidence, degrees: Number, i: int) -> Number
    decreases table().len() - i,
{
    if i + 1 >= table().len() {
        normal().at(level)
    } else if table()[i].degrees.le(degrees) && degrees.le(table()[i + 1].degrees) {
        between(table()[i], table()[i + 1], level, degrees)
    } else {
        tabulated(level, degrees, i + 1)
    }
}

/// The degrees of freedom that a sample leaves to a straight fit.
pub open spec fn degrees_of(n: Number) -> Number {
    n.minus(Number::from_bits(TWO)).max(Number::from_bits(ZERO))
}

/// The two-tailed quantile for a confidence and a sample size.
pub open spec fn critical(ci: Number, n: Number) -> Number {
    let degrees = degrees_of(n);
    if degrees.lt(Number::from_bits(ONE)) {
        Number::from_bits(ZERO)
    } else if Number::from_bits(MANY_DEGREES).le(degrees) {
        normal().at(level_of(ci))
    } else {
        tabulated(level_of(ci), degrees, 0)
    }
}

/// Two-tailed Student-t critical value for confidence level `ci` and sample
/// size `n`, with `n - 2` degrees of freedom. Between tabulated rows the value
/// is interpolated, from 60 degrees of freedom on it is the normal quantile,
/// and below one degree it is zero.
pub fn t_critical(ci: Number, n: Number) -> (r: Number)
    ensures
        r == critical(ci, n),
{
    let degrees = n.minus(Number::from_bits(TWO)).max(Number::from_bits(ZERO));
    let level = if Number::from_bits(LEVEL_99).le(ci) {
        Confidence::NinetyNine
    } else if Number::from_bits(LEVEL_95).le(ci) {
        Confidence::NinetyFive
    } else if Number::from_bits(LEVEL_90).le(ci) {
        Confidence::Ninety
    } else {
        Confidence::NinetyFive
    };
    let limit = row(MANY_DEGREES, 0x3ffa_51eb_851e_b852, 0x3fff_5c28_f5c2_8f5c, 0x4004_9ba5_e353_f7cf);
    if degrees.lt(Number::from_bits(ONE)) {
        return Number::from_bits(ZERO);
    }
    if Number::from_bits(MANY_DEGREES).le(degrees) {
        return limit.at(level);
    }
    let rows = rows();
    let mut i: usize = 0;
    while i + 1 < rows.len()
        invariant
            i < rows.len(),
            rows@ == table(),
            tabulated(level, degrees, 0) == tabulated(level, degrees, i as int),
            critical(ci, n) == tabulated(level, degrees, 0),
        decreases rows.len() - i,
    {
        let low = rows[i];
        let high = rows[i + 1];
        if low.degrees.le(degrees) && degrees.le(high.degrees) {
            let t = degrees.minus(low.degrees).over(high.degrees.minus(low.degrees));
            return low.at(level).plus(t.times(high.at(level).minus(low.at(level))));
        }
        i = i + 1;
    }
    limit.at(level)
}

/// The rows of the table hold ordinary positive numbers; from row to row the
/// degrees of freedom grow and the quantiles fall, and along a row they rise.
proof fn lemma_rows(i: int, level: Confidence)
    requires
        0 <= i < table().len(),
    ensures
        ({
            let r = table()[i];
            &&& FRACTIONS <= r.degrees.bits <= MANY_DEGREES
            &&& normal().at(level).bits < r.at(level).bits < 0x4050_0000_0000_0000
            &&& FRACTIONS < normal().at(level).bits
            &&& i + 1 < table().len() ==> {
                let next = table()[i + 1];
                &&& r.degrees.bits < next.degrees.bits
                &&& next.at(level).bits < r.at(level).bits
                &&& i > 0 ==> r.at(level).bits <= next.at(level).bits + FRACTIONS
            }
        }),
        table().len() == 16,
        table()[0].degrees == Number::from_bits(ONE),
        table()[15].degrees == Number::from_bits(MANY_DEGREES),
{
}

/// The difference between the degrees of two rows.
proof fn lemma_span(i: int)
    requires
        0 <= i < table().len() - 1,
    ensures
        ({
            let span = table()[i + 1].degrees.minus(table()[i].degrees);
            span.is_finite() && span.magnitude() != 0 && !span.negative()
        }),
{
    let zero = Number::from_bits(ZERO);
    let (a, b) = (table()[i].degrees, table()[i + 1].degrees);
    lemma_format();
    lemma_rows(i, Confidence::Ninety);
    lemma_rows(i + 1, Confidence::Ninety);
    lemma_rank_is_value_order(a, b);
    lemma_rank_is_value_order(zero, a);
    lemma_difference_keeps_order(b, a, zero);
    lemma_difference_keeps_order(b, a, b);
}

/// The difference between the quantiles of two rows.
proof fn lemma_drop(i: int, level: Confidence)
    requires
        0 <= i < table().len() - 1,
    ensures
        ({
            let drop = table()[i + 1].at(level).minus(table()[i].at(level));
            drop.is_finite() && drop.magnitude() != 0 && drop.negative()
        }),
{
    let zero = Number::from_bits(ZERO);
    let (a, b) = (table()[i].at(level), table()[i + 1].at(level));
    lemma_format();
    lemma_rows(i, level);
    lemma_rows(i + 1, level);
    lemma_rank_is_value_order(b, a);
    lemma_rank_is_value_order(zero, b);
    lemma_difference_keeps_order(b, a, zero);
    lemma_difference_keeps_order(b, a, a.negated());
    assert(a.negated().value() == -a.value());
}

/// Between two rows the quantile falls.
proof fn lemma_falls(i: int, level: Confidence, a: Number, b: Number)
    requires
        0 <= i < table().len() - 1,
        a.le(b),
    ensures
        between(table()[i], table()[i + 1], level, b).le(
            between(table()[i], table()[i + 1], level, a),
        ),
{
    let (low, high) = (table()[i], table()[i + 1]);
    let span = high.degrees.minus(low.degrees);
    let drop = high.at(level).minus(low.at(level));
    lemma_format();
    lemma_rows(i, level);
    lemma_span(i);
    lemma_drop(i, level);
    lemma_plus_keeps_order(a, b, low.degrees.negated());
    let (x, y) = (a.minus(low.degrees), b.minus(low.degrees));
    lemma_over_keeps_order(x, y, span);
    lemma_times_keeps_order(x.over(span), y.over(span), drop);
    lemma_plus_keeps_order(y.over(span).times(drop), x.over(span).times(drop), low.at(level));
}

/// At its lower row the quantile between two rows is that row's.
proof fn lemma_starts(i: int, level: Confidence)
    requires
        0 <= i < table().len() - 1,
    ensures
        between(table()[i], table()[i + 1], level, table()[i].degrees).same(table()[i].at(level)),
{
    let (low, high) = (table()[i], table()[i + 1]);
    let span = high.degrees.minus(low.degrees);
    let drop = high.at(level).minus(low.at(level));
    lemma_format();
    lemma_rows(i, level);
    lemma_span(i);
    lemma_drop(i, level);
    let nothing = low.degrees.minus(low.degrees);
    lemma_difference_keeps_order(low.degrees, low.degrees, low.degrees);
    lemma_nothing_over(nothing, span);
    lemma_times_nothing(drop, nothing.over(span));
    lemma_plus_nothing(low.at(level), nothing.over(span).times(drop));
}

/// At its upper row the quantile between two rows is the sum of the lower
/// row's and the difference.
proof fn lemma_ends(i: int, level: Confidence, u: Number)
    requires
        0 <= i < table().len() - 1,
        u.is_finite(),
        u.value() <= table()[i].at(level).value() + table()[i + 1].at(level).minus(
            table()[i].at(level),
        ).value(),
    ensures
        u.le(between(table()[i], table()[i + 1], level, table()[i + 1].degrees)),
{
    let (low, high) = (table()[i], table()[i + 1]);
    let span = high.degrees.minus(low.degrees);
    let drop = high.at(level).minus(low.at(level));
    lemma_format();
    lemma_rows(i, level);
    lemma_span(i);
    lemma_drop(i, level);
    lemma_over_itself(span);
    lemma_times_one(drop);
    let whole = Number::from_bits(ONE).times(drop);
    assert(whole.is_finite());
    lemma_rank_is_value_order(whole, drop);
    lemma_sum_keeps_order(low.at(level), whole, u);
}

/// What a magnitude is worth, by its parts.
proof fn lemma_parts(mag: nat, t: nat, sig: nat)
    requires
        mag == t * FRACTIONS + sig,
        FRACTIONS <= sig <= 2 * FRACTIONS,
    ensures
        units(WIDTH as nat, mag) == sig * pow2(t),
{
    lemma_format();
    lemma_units_of_parts(WIDTH as nat, t, sig);
}

/// The first two rows are far apart, and at 90 in a hundred the difference is
/// exact all the same.
proof fn lemma_first_rows_at_90()
    ensures
        table()[1].ninety.minus(table()[0].ninety).value() == table()[1].ninety.value()
            - table()[0].ninety.value(),
{
    let (a, b) = (table()[0].ninety, table()[1].ninety);
    let p = pow2(1023);
    lemma_format();
    lemma_rows(0, Confidence::Ninety);
    lemma_pow2_unfold(1024);
    lemma_pow2_pos(1023);
    lemma_parts(0x4019_4189_374b_c6a8, 1024, 0x19_4189_374b_c6a8);
    lemma_parts(0x4007_5c28_f5c2_8f5c, 1023, 0x17_5c28_f5c2_8f5c);
    assert(a.value() == 0x19_4189_374b_c6a8 * pow2(1024));
    assert(b.value() == 0x17_5c28_f5c2_8f5c * p);
    assert(b.magnitude() / FRACTIONS as nat == 1024);
    assert(2 * FRACTIONS * p == 0x20_0000_0000_0000 * p) by (nonlinear_arith);
    lemma_exact_difference(a, b);
}

/// The first two rows are far apart, and at 95 in a hundred the difference is
/// rounded toward zero.
proof fn lemma_first_rows_at_95()
    ensures
        table()[1].ninety_five.value() <= table()[0].ninety_five.value()
            + table()[1].ninety_five.minus(table()[0].ninety_five).value(),
{
    let (a, b) = (table()[0].ninety_five, table()[1].ninety_five);
    let k = WIDTH as nat;
    let mag: nat = 0x4020_ce56_0418_9374;
    let p = pow2(1024);
    reveal(Number::spec_plus);
    lemma_format();
    lemma_rows(0, Confidence::NinetyFive);
    lemma_pow2_unfold(1025);
    lemma_pow2_pos(1024);
    lemma_parts(0x4029_6978_d4fd_f3b6, 1025, 0x19_6978_d4fd_f3b6);
    lemma_parts(0x4011_3645_a1ca_c083, 1024, 0x11_3645_a1ca_c083);
    lemma_parts(0x4020_ce56_0418_9373, 1025, 0x10_ce56_0418_9373);
    lemma_parts(0x4020_ce56_0418_9374, 1025, 0x10_ce56_0418_9374);
    lemma_parts(0x4020_ce56_0418_9375, 1025, 0x10_ce56_0418_9375);
    assert(a.value() == 0x19_6978_d4fd_f3b6 * (2 * p));
    assert(b.value() == 0x11_3645_a1ca_c083 * p);
    let n = size(b.value() - a.value());
    assert(n == 0x21_9cac_0831_26e9 * p);
    assert(units(k, (mag - 1) as nat) == 0x10_ce56_0418_9373 * (2 * p));
    assert(units(k, mag) == 0x10_ce56_0418_9374 * (2 * p));
    assert(units(k, mag + 1) == 0x10_ce56_0418_9375 * (2 * p));
    let d: nat = 1;
    let below = units(k, (mag - 1) as nat) + units(k, mag);
    let above = units(k, mag) + units(k, mag + 1);
    assert(below * d == below && above * d == above) by (nonlinear_arith)
        requires
            d == 1,
    ;
    assert(below < 2 * n);
    assert(above == 2 * n);
    assert(mag % 2 == 0);
    lemma_rounding_exists(k, n, d);
    assert(rounds_to(k, n, d, mag));
    lemma_rounding_is_unique(k, n, d, mag, nearest(k, n, d));
    assert(b.minus(a).value() == -(0x10_ce56_0418_9374 * (2 * p)));
}

/// The first two rows are far apart, and the second one's quantile is met.
proof fn lemma_first_rows(level: Confidence)
    requires
        level != Confidence::NinetyNine,
    ensures
        table()[1].at(level).value() <= table()[0].at(level).value() + table()[1].at(level).minus(
            table()[0].at(level),
        ).value(),
{
    match level {
        Confidence::Ninety => lemma_first_rows_at_90(),
        _ => lemma_first_rows_at_95(),
    }
}

/// Past the first two rows a row's quantile is met at the row from below, but
/// for the second row at 99 in a hundred.
proof fn lemma_meets(i: int, level: Confidence)
    requires
        0 <= i < table().len() - 1,
        i > 0 || level != Confidence::NinetyNine,
    ensures
        table()[i + 1].at(level).le(
            between(table()[i], table()[i + 1], level, table()[i + 1].degrees),
        ),
{
    let (a, b) = (table()[i].at(level), table()[i + 1].at(level));
    lemma_format();
    lemma_rows(i, level);
    lemma_rows(i + 1, level);
    if i == 0 {
        lemma_first_rows(level);
    } else {
        lemma_half_apart(a, b);
        lemma_exact_difference(a, b);
    }
    lemma_ends(i, level, b);
}

/// The difference of two positive numbers, of which one is at most twice the
/// other, is at most the other's next power of two.
proof fn lemma_half_apart(a: Number, b: Number)
    requires
        FRACTIONS <= b.bits < a.bits <= b.bits + FRACTIONS,
        a.bits < INFINITE,
    ensures
        a.value() - b.value() <= 2 * FRACTIONS * pow2(
            (b.magnitude() / FRACTIONS as nat - 1) as nat,
        ),
{
    lemma_format();
    let f = FRACTIONS as nat;
    let (m, e) = (b.magnitude() % f, (b.magnitude() / f - 1) as nat);
    let p = pow2(e);
    lemma_next_exponent(b.magnitude());
    if a.magnitude() < b.magnitude() + f {
        lemma_units_increase(WIDTH as nat, a.magnitude(), b.magnitude() + f);
    }
    assert(b.value() == (f + m) * p);
    lemma_pow2_pos(e);
    assert((f + m) * p <= 2 * f * p) by (nonlinear_arith)
        requires
            m <= f,
            p > 0,
    ;
}

/// Just below the second row's quantile at 99 in a hundred: what is met there.
spec fn second_met() -> Number {
    Number::from_bits(0x4023_d999_9999_9998)
}

/// The quantile at 99 in a hundred meets the second row just below it.
proof fn lemma_meets_second()
    ensures
        second_met().le(
            between(table()[0], table()[1], Confidence::NinetyNine, table()[1].degrees),
        ),
{
    let level = Confidence::NinetyNine;
    let (a, b) = (table()[0].at(level), table()[1].at(level));
    let u = Number::from_bits(0xc04a_ddb2_2d0e_5604);
    let p = pow2(1025);
    lemma_format();
    lemma_rows(0, level);
    lemma_drop(0, level);
    lemma_pow2_unfold(1026);
    lemma_pow2_unfold(1027);
    lemma_pow2_pos(1025);
    lemma_parts(0x404f_d418_9374_bc6a, 1027, 0x1f_d418_9374_bc6a);
    lemma_parts(0x4023_d999_9999_999a, 1025, 0x13_d999_9999_999a);
    lemma_parts(0x4023_d999_9999_9998, 1025, 0x13_d999_9999_9998);
    lemma_parts(0x404a_ddb2_2d0e_5604, 1027, 0x1a_ddb2_2d0e_5604);
    assert(a.value() == 0x1f_d418_9374_bc6a * (4 * p));
    assert(b.value() == 0x13_d999_9999_999a * p);
    assert(second_met().value() == 0x13_d999_9999_9998 * p);
    assert(u.value() == -(0x1a_ddb2_2d0e_5604 * (4 * p)));
    lemma_difference_keeps_order(b, a, u);
    lemma_rank_is_value_order(b.minus(a), u);
    lemma_rank_is_value_order(u, b.minus(a));
    assert(u.value() <= b.minus(a).value());
    assert(second_met().value() <= a.value() + u.value());
    lemma_ends(0, level, second_met());
}

/// More than two degrees of freedom are left by a sample of more than four, and
/// then the quantile at 99 in a hundred is below what is met at the second row.
proof fn lemma_leaves_second(n: Number)
    requires
        !n.is_nan(),
        table()[1].degrees.lt(degrees_of(n)),
    ensures
        between(table()[1], table()[2], Confidence::NinetyNine, degrees_of(n)).le(second_met()),
{
    let level = Confidence::NinetyNine;
    let two = Number::from_bits(TWO);
    let four = Number::from_bits(0x4010_0000_0000_0000);
    let more = Number::from_bits(0x4010_0000_0000_0001);
    let past = Number::from_bits(0x4000_0000_0000_0002);
    let k = WIDTH as nat;
    lemma_format();
    lemma_pow2_unfold(1024);
    lemma_pow2_pos(1023);
    lemma_units_of_parts(k, 1023, 0x10_0000_0000_0000);
    lemma_units_of_parts(k, 1024, 0x10_0000_0000_0000);
    lemma_units_of_parts(k, 1024, 0x10_0000_0000_0001);
    lemma_units_of_parts(k, 1023, 0x10_0000_0000_0002);
    let p = pow2(1023);
    assert(two.value() == 0x10_0000_0000_0000 * p);
    assert(four.value() == 0x20_0000_0000_0000 * p);
    assert(more.value() == 0x20_0000_0000_0002 * p);
    assert(past.value() == 0x10_0000_0000_0002 * p);
    assert(table()[1].degrees == two);
    if n.le(four) {
        lemma_plus_keeps_order(n, four, two.negated());
        lemma_difference_keeps_order(four, two, two);
    }
    assert(more.le(n));
    lemma_plus_keeps_order(more, n, two.negated());
    lemma_difference_keeps_order(more, two, past);
    assert(past.le(degrees_of(n)));
    lemma_falls(1, level, past, degrees_of(n));
    lemma_just_past_second();
}

/// The quantile at 99 in a hundred just past two degrees of freedom.
proof fn lemma_just_past_second()
    ensures
        between(
            table()[1],
            table()[2],
            Confidence::NinetyNine,
            Number::from_bits(0x4000_0000_0000_0002),
        ).le(second_met()),
{
    let level = Confidence::NinetyNine;
    let (low, high) = (table()[1], table()[2]);
    let past = Number::from_bits(0x4000_0000_0000_0002);
    let one = Number::from_bits(ONE);
    let step = Number::from_bits(0x3cd0_0000_0000_0000);
    let four = Number::from_bits(0xc010_0000_0000_0000);
    let down = Number::from_bits(0xbcf0_0000_0000_0000);
    let k = WIDTH as nat;
    lemma_format();
    lemma_rows(1, level);
    lemma_rows(2, level);
    lemma_drop(1, level);
    let drop = high.at(level).minus(low.at(level));
    let x = past.minus(low.degrees);
    let span = high.degrees.minus(low.degrees);
    let t = x.over(span);
    lemma_pow2_unfold(1023);
    lemma_pow2_unfold(1024);
    lemma_pow2_unfold(1025);
    lemma_pow2_unfold(1026);
    lemma_pow2_pos(1022);
    lemma_units_of_parts(k, 1022, 0x10_0000_0000_0000);
    lemma_units_of_parts(k, 1023, 0x10_0000_0000_0000);
    lemma_units_of_parts(k, 1023, 0x18_0000_0000_0000);
    lemma_units_of_parts(k, 1023, 0x10_0000_0000_0002);
    lemma_units_of_parts(k, 1024, 0x10_0000_0000_0000);
    lemma_units_of_parts(k, 1024, 0x17_5d2f_1a9f_be77);
    lemma_units_of_parts(k, 1025, 0x13_d999_9999_999a);
    lemma_units_of_parts(k, 1025, 0x13_d999_9999_9998);
    let p = pow2(1023);
    assert(past.value() == 0x10_0000_0000_0002 * p);
    assert(low.degrees.value() == 0x10_0000_0000_0000 * p);
    assert(high.degrees.value() == 0x18_0000_0000_0000 * p);
    assert(one.value() == 0x10_0000_0000_0000 * pow2(1022));
    assert(four.value() == -(0x10_0000_0000_0000 * pow2(1024)));
    assert(high.at(level).value() == 0x17_5d2f_1a9f_be77 * pow2(1024));
    assert(low.at(level).value() == 0x13_d999_9999_999a * pow2(1025));
    assert(second_met().value() == 0x13_d999_9999_9998 * pow2(1025));
    lemma_worth_of_power(973);
    lemma_worth_of_power(975);
    lemma_worth_of_power(1025);
    assert(step.value() == pow2(1024));
    assert(down.value() == -(pow2(1026) as int));
    // One step of the span, which is one.
    lemma_difference_keeps_order(past, low.degrees, step);
    assert(x == step);
    lemma_difference_keeps_order(high.degrees, low.degrees, one);
    assert(span == one);
    lemma_over_one(step);
    assert(t == step);
    // The drop is more than four.
    lemma_difference_keeps_order(high.at(level), low.at(level), four);
    lemma_times_keeps_order(drop, four, step);
    assert(step.times(four) == down) by {
        reveal(Number::spec_times);
        lemma_pow2_adds(1024, 1076);
        lemma_pow2_adds(1026, DEPTH as nat);
        lemma_pow2_pos(DEPTH as nat);
        let n = worth(step.magnitude()) * worth(four.magnitude());
        assert(n == worth(down.magnitude()) * pow2(DEPTH as nat));
        lemma_rounding_at_least(k, n, pow2(DEPTH as nat), down.magnitude());
        lemma_rounding_at_most(k, n, pow2(DEPTH as nat), down.magnitude());
    }
    lemma_plus_keeps_order(step.times(drop), down, low.at(level));
    lemma_sum_keeps_order(low.at(level), down, second_met());
}

/// The pair of rows that degrees of freedom lie between.
proof fn lemma_tabulated(level: Confidence, degrees: Number, i: int) -> (j: int)
    requires
        0 <= i < table().len() - 1,
        if i == 0 {
            table()[0].degrees.le(degrees)
        } else {
            table()[i].degrees.lt(degrees)
        },
        degrees.le(table()[15].degrees),
    ensures
        i <= j < table().len() - 1,
        table()[j].degrees.le(degrees),
        degrees.le(table()[j + 1].degrees),
        j > 0 ==> table()[j].degrees.lt(degrees),
        forall|l: Confidence| #[trigger]
            tabulated(l, degrees, i) == between(table()[j], table()[j + 1], l, degrees),
    decreases table().len() - i,
{
    lemma_format();
    lemma_rows(i, level);
    lemma_rows(i + 1, level);
    if table()[i].degrees.le(degrees) && degrees.le(table()[i + 1].degrees) {
        i
    } else {
        let j = lemma_tabulated(level, degrees, i + 1);
        assert forall|l: Confidence| #[trigger] tabulated(l, degrees, i) == between(
            table()[j],
            table()[j + 1],
            l,
            degrees,
        ) by {
            assert(tabulated(l, degrees, i) == tabulated(l, degrees, i + 1));
        }
        j
    }
}

/// Later rows have lower quantiles.
proof fn lemma_later_rows(level: Confidence, i: int, j: int)
    requires
        0 <= i <= j < table().len(),
    ensures
        table()[j].at(level).le(table()[i].at(level)),
        table()[i].degrees.le(table()[j].degrees),
        i < j ==> table()[i].degrees.lt(table()[j].degrees),
    decreases j - i,
{
    lemma_format();
    lemma_rows(i, level);
    lemma_rows(j, level);
    if i < j {
        lemma_rows(j - 1, level);
        lemma_later_rows(level, i, j - 1);
    }
}

/// Tabulated quantiles fall, and stay above the normal one.
proof fn lemma_tabulated_falls(level: Confidence, n: Number, a: Number, b: Number)
    requires
        !n.is_nan(),
        b == degrees_of(n),
        a.le(b),
        Number::from_bits(ONE).le(a),
        b.le(Number::from_bits(MANY_DEGREES)),
    ensures
        tabulated(level, b, 0).le(tabulated(level, a, 0)),
        normal().at(level).le(tabulated(level, b, 0)),
{
    lemma_format();
    lemma_rows(0, level);
    let i = lemma_tabulated(level, a, 0);
    let j = lemma_tabulated(level, b, 0);
    let rj = table()[j];
    if j < i {
        lemma_later_rows(level, j + 1, i);
    }
    // The last row that is passed is above the normal quantile.
    lemma_rows(j + 1, level);
    lemma_falls(j, level, b, table()[j + 1].degrees);
    if j == 0 && level == Confidence::NinetyNine {
        lemma_meets_second();
        assert(normal().at(level).le(second_met()));
    } else {
        lemma_meets(j, level);
    }
    if i == j {
        lemma_falls(i, level, a, b);
    } else {
        lemma_rows(i, level);
        lemma_rows(j, level);
        lemma_rows(i + 1, level);
        lemma_later_rows(level, i + 1, j);
        lemma_falls(i, level, a, table()[i + 1].degrees);
        if i == 0 && level == Confidence::NinetyNine {
            lemma_meets_second();
            if j == 1 {
                lemma_leaves_second(n);
            } else {
                lemma_later_rows(level, 2, j);
                lemma_rows(2, level);
                lemma_starts(j, level);
                lemma_falls(j, level, rj.degrees, b);
                assert(table()[2].at(level).le(second_met()));
            }
        } else {
            lemma_meets(i, level);
            lemma_starts(j, level);
            lemma_falls(j, level, rj.degrees, b);
        }
    }
}

/// The critical value never grows with the sample, and is positive from three
/// rows on.
pub proof fn quantiles_fall_with_the_sample(ci: Number, fewer: Number, more: Number)
    requires
        Number::from_bits(THREE).le(fewer),
        fewer.le(more),
    ensures
        critical(ci, more).le(critical(ci, fewer)),
        Number::from_bits(ZERO).lt(critical(ci, more)),
{
    let level = level_of(ci);
    let two = Number::from_bits(TWO);
    let (a, b) = (degrees_of(fewer), degrees_of(more));
    lemma_format();
    lemma_rows(15, level);
    lemma_rows(0, level);
    lemma_plus_keeps_order(Number::from_bits(THREE), fewer, two.negated());
    lemma_plus_keeps_order(fewer, more, two.negated());
    lemma_three_leaves_one();
    assert(Number::from_bits(ONE).le(a) && a.le(b));
    if b.le(Number::from_bits(MANY_DEGREES)) {
        lemma_tabulated_falls(level, more, a, b);
    }
    if a.le(Number::from_bits(MANY_DEGREES)) {
        lemma_tabulated_falls(level, fewer, a, a);
    }
}

/// Three rows leave one degree of freedom.
proof fn lemma_three_leaves_one()
    ensures
        Number::from_bits(THREE).minus(Number::from_bits(TWO)).same(Number::from_bits(ONE)),
{
    let k = WIDTH as nat;
    lemma_format();
    lemma_pow2_unfold(1023);
    lemma_units_of_parts(k, 1022, 0x10_0000_0000_0000);
    lemma_units_of_parts(k, 1023, 0x10_0000_0000_0000);
    lemma_units_of_parts(k, 1023, 0x18_0000_0000_0000);
    assert(Number::from_bits(ONE).value() == 0x10_0000_0000_0000 * pow2(1022));
    assert(Number::from_bits(TWO).value() == 0x10_0000_0000_0000 * pow2(1023));
    assert(Number::from_bits(THREE).value() == 0x18_0000_0000_0000 * pow2(1023));
    lemma_difference_keeps_order(
        Number::from_bits(THREE),
        Number::from_bits(TWO),
        Number::from_bits(ONE),
    );
}

/// How high a confidence level is among those tabulated.
pub open spec fn height(level: Confidence) -> int {
    match level {
        Confidence::Ninety => 0,
        Confidence::NinetyFive => 1,
        Confidence::NinetyNine => 2,
    }
}

/// The exact value of a number between one and 64, by its significant digits;
/// `m` is the power of two at or below it.
proof fn lemma_sized(bits: u64, m: int)
    requires
        m == 1 || m == 2 || m == 4 || m == 8 || m == 16 || m == 32,
        m == 1 ==> 0x3ff0_0000_0000_0000 <= bits < 0x4000_0000_0000_0000,
        m == 2 ==> 0x4000_0000_0000_0000 <= bits < 0x4010_0000_0000_0000,
        m == 4 ==> 0x4010_0000_0000_0000 <= bits < 0x4020_0000_0000_0000,
        m == 8 ==> 0x4020_0000_0000_0000 <= bits < 0x4030_0000_0000_0000,
        m == 16 ==> 0x4030_0000_0000_0000 <= bits < 0x4040_0000_0000_0000,
        m == 32 ==> 0x4040_0000_0000_0000 <= bits < 0x4050_0000_0000_0000,
    ensures
        amount(Number::from_bits(bits)) * 4503599627370496 as real == ((0x10_0000_0000_0000
            + bits % 0x10_0000_0000_0000) * m) as real,
{
    let x = Number::from_bits(bits);
    lemma_format();
    lemma2_to64_rest();
    assert(x.magnitude() == bits);
    let sig = 0x10_0000_0000_0000 + bits % 0x10_0000_0000_0000;
    if m == 1 {
        lemma_amount_of_parts(x, 52);
        assert(pow2(52) == 4503599627370496);
        assert(amount(x) * 4503599627370496 as real == sig as real);
    } else if m == 2 {
        lemma_amount_of_parts(x, 51);
        assert(pow2(51) == 2251799813685248);
        assert(amount(x) * 2251799813685248 as real == sig as real);
    } else if m == 4 {
        lemma_amount_of_parts(x, 50);
        assert(pow2(50) == 1125899906842624);
        assert(amount(x) * 1125899906842624 as real == sig as real);
    } else if m == 8 {
        lemma_amount_of_parts(x, 49);
        assert(pow2(49) == 562949953421312);
        assert(amount(x) * 562949953421312 as real == sig as real);
    } else if m == 16 {
        lemma_amount_of_parts(x, 48);
        assert(pow2(48) == 281474976710656);
        assert(amount(x) * 281474976710656 as real == sig as real);
    } else {
        lemma_amount_of_parts(x, 47);
        assert(pow2(47) == 140737488355328);
        assert(amount(x) * 140737488355328 as real == sig as real);
    }
}

/// Along a row the quantiles are apart by more than an eighth, and they lie
/// between one and 64.
proof fn lemma_gaps(i: int, lower: Confidence, higher: Confidence)
    requires
        0 <= i < table().len(),
        height(lower) < height(higher),
    ensures
        amount(table()[i].at(lower)) >= 1 as real,
        amount(table()[i].at(higher)) - amount(table()[i].at(lower)) >= 1 as real / 8 as real,
        amount(table()[i].at(higher)) <= 64 as real,
{
    if i == 0 {
        lemma_sized(0x4019_4189_374b_c6a8, 4);
        lemma_sized(0x4029_6978_d4fd_f3b6, 8);
        lemma_sized(0x404f_d418_9374_bc6a, 32);
    } else if i == 1 {
        lemma_sized(0x4007_5c28_f5c2_8f5c, 2);
        lemma_sized(0x4011_3645_a1ca_c083, 4);
        lemma_sized(0x4023_d999_9999_999a, 8);
    } else if i == 2 {
        lemma_sized(0x4002_d2f1_a9fb_e76d, 2);
        lemma_sized(0x4009_74bc_6a7e_f9db, 2);
        lemma_sized(0x4017_5d2f_1a9f_be77, 4);
    } else if i == 3 {
        lemma_sized(0x4001_0e56_0418_9375, 2);
        lemma_sized(0x4006_353f_7ced_9168, 2);
        lemma_sized(0x4012_6a7e_f9db_22d1, 4);
    } else if i == 4 {
        lemma_sized(0x4000_1eb8_51eb_851f, 2);
        lemma_sized(0x4004_9168_72b0_20c5, 2);
        lemma_sized(0x4010_20c4_9ba5_e354, 4);
    } else if i == 5 {
        lemma_sized(0x3fff_1687_2b02_0c4a, 1);
        lemma_sized(0x4003_9374_bc6a_7efa, 2);
        lemma_sized(0x400d_a7ef_9db2_2d0e, 2);
    } else if i == 6 {
        lemma_sized(0x3ffe_51eb_851e_b852, 1);
        lemma_sized(0x4002_eb85_1eb8_51ec, 2);
        lemma_sized(0x400b_fdf3_b645_a1cb, 2);
    } else if i == 7 {
        lemma_sized(0x3ffd_c28f_5c28_f5c3, 1);
        lemma_sized(0x4002_72b0_20c4_9ba6, 2);
        lemma_sized(0x400a_d70a_3d70_a3d7, 2);
    } else if i == 8 {
        lemma_sized(0x3ffd_53f7_ced9_1687, 1);
        lemma_sized(0x4002_1893_74bc_6a7f, 2);
        lemma_sized(0x400a_0000_0000_0000, 2);
    } else if i == 9 {
        lemma_sized(0x3ffc_fdf3_b645_a1cb, 1);
        lemma_sized(0x4001_d2f1_a9fb_e76d, 2);
        lemma_sized(0x4009_5a1c_ac08_3127, 2);
    } else if i == 10 {
        lemma_sized(0x3ffc_8312_6e97_8d50, 1);
        lemma_sized(0x4001_6e97_8d4f_df3b, 2);
        lemma_sized(0x4008_70a3_d70a_3d71, 2);
    } else if i == 11 {
        lemma_sized(0x3ffc_0c49_ba5e_353f, 1);
        lemma_sized(0x4001_0c49_ba5e_353f, 2);
        lemma_sized(0x4007_9374_bc6a_7efa, 2);
    } else if i == 12 {
        lemma_sized(0x3ffb_9999_9999_999a, 1);
        lemma_sized(0x4000_b020_c49b_a5e3, 2);
        lemma_sized(0x4006_c28f_5c28_f5c3, 2);
    } else if i == 13 {
        lemma_sized(0x3ffb_53f7_ced9_1687, 1);
        lemma_sized(0x4000_7ae1_47ae_147b, 2);
        lemma_sized(0x4006_4bc6_a7ef_9db2, 2);
    } else if i == 14 {
        lemma_sized(0x3ffb_26e9_78d4_fdf4, 1);
        lemma_sized(0x4000_5604_1893_74bc, 2);
        lemma_sized(0x4006_0000_0000_0000, 2);
    } else if i == 15 {
        lemma_sized(0x3ffa_bc6a_7ef9_db23, 1);
        lemma_sized(0x4000_0000_0000_0000, 2);
        lemma_sized(0x4005_47ae_147a_e148, 2);
    }
}

/// Degrees of freedom between two rows are a part of the span between them.
proof fn lemma_part_of_span(i: int, degrees: Number)
    requires
        0 <= i < table().len() - 1,
        table()[i].degrees.le(degrees),
        degrees.le(table()[i + 1].degrees),
    ensures
        ({
            let t = degrees.minus(table()[i].degrees).over(
                table()[i + 1].degrees.minus(table()[i].degrees),
            );
            t.is_finite() && 0 as real <= amount(t) && amount(t) <= 1 as real
        }),
{
    let (a, b) = (table()[i].degrees, table()[i + 1].degrees);
    let (zero, one) = (Number::from_bits(ZERO), Number::from_bits(ONE));
    let span = b.minus(a);
    let t = degrees.minus(a).over(span);
    lemma_format();
    lemma_rows(i, Confidence::Ninety);
    lemma_rows(i + 1, Confidence::Ninety);
    lemma_span(i);
    lemma_difference_keeps_order(a, a, a);
    lemma_nothing_over(a.minus(a), span);
    lemma_over_itself(span);
    lemma_plus_keeps_order(a, degrees, a.negated());
    lemma_plus_keeps_order(degrees, b, a.negated());
    lemma_over_keeps_order(a.minus(a), degrees.minus(a), span);
    lemma_over_keeps_order(degrees.minus(a), span, span);
    assert(zero.le(t) && t.le(one));
    lemma_amounts_in_order(zero, t);
    lemma_amounts_in_order(t, one);
    lemma_amount_of_sign(zero);
    lemma_sized(ONE, 1);
}

/// A quantile between two rows is near the exact one.
proof fn lemma_near_the_line(i: int, level: Confidence, degrees: Number)
    requires
        0 <= i < table().len() - 1,
        table()[i].degrees.le(degrees),
        degrees.le(table()[i + 1].degrees),
        1 as real <= amount(table()[i].at(level)) <= 64 as real,
        1 as real <= amount(table()[i + 1].at(level)) <= 64 as real,
    ensures
        ({
            let (low, high) = (table()[i], table()[i + 1]);
            let t = amount(
                degrees.minus(low.degrees).over(high.degrees.minus(low.degrees)),
            );
            let v = between(low, high, level, degrees);
            let exact = amount(low.at(level)) + t * (amount(high.at(level)) - amount(
                low.at(level),
            ));
            v.is_finite() && distance(amount(v) - exact) <= 1 as real / 1024 as real
        }),
{
    let (low, high) = (table()[i], table()[i + 1]);
    let t = degrees.minus(low.degrees).over(high.degrees.minus(low.degrees));
    let drop = high.at(level).minus(low.at(level));
    let q = t.times(drop);
    let v = between(low, high, level, degrees);
    lemma_format();
    lemma_rows(i, level);
    lemma_rows(i + 1, level);
    lemma_drop(i, level);
    lemma_part_of_span(i, degrees);
    // The result lies between its ends, so it is finite.
    lemma_falls(i, level, low.degrees, degrees);
    lemma_falls(i, level, degrees, high.degrees);
    lemma_starts(i, level);
    if i == 0 && level == Confidence::NinetyNine {
        lemma_meets_second();
    } else {
        lemma_meets(i, level);
    }
    lemma_finite_parts(q, low.at(level));
    lemma_minus_accuracy(high.at(level), low.at(level));
    lemma_times_accuracy(t, drop);
    lemma_plus_accuracy(low.at(level), q);
    lemma_least_is_small();
    lemma_line_error(
        amount(low.at(level)),
        amount(high.at(level)),
        amount(t),
        amount(drop),
        amount(q),
        amount(v),
    );
}

/// The errors of a point on the line from `x` to `y`, added up.
proof fn lemma_line_error(x: real, y: real, s: real, d: real, e: real, w: real)
    requires
        1 as real <= x <= 64 as real,
        1 as real <= y <= 64 as real,
        0 as real <= s <= 1 as real,
        distance(d - (y - x)) <= roundoff() * distance(d),
        distance(e - s * d) <= roundoff() * distance(e) + least(),
        distance(w - (x + e)) <= roundoff() * distance(w),
    ensures
        distance(w - (x + s * (y - x))) <= 1 as real / 1024 as real,
{
    lemma_least_is_small();
    lemma_close(d, y - x, 0 as real);
    lemma_close(e, s * d, least());
    lemma_close(w, x + e, 0 as real);
    lemma_part(distance(y - x));
    lemma_part(distance(s * d));
    lemma_part(distance(x + e));
    lemma_part(1 as real);
    lemma_distance_of_product(s, d);
    lemma_distance_of_product(s, d - (y - x));
    let gap = y - x;
    let (line, sum, exact) = (s * d, x + e, s * gap);
    assert(s * (d - gap) == line - exact) by (nonlinear_arith)
        requires
            line == s * d,
            exact == s * gap,
    ;
    let (m, n) = (distance(d), distance(d - gap));
    lemma_distances(d, d - gap);
    lemma_distances(s, x);
    lemma_distances(x, e);
    lemma_distances(y, x);
    assert(distance(s) == s && distance(x) == x && distance(y) == y) by {
        reveal(distance);
    }
    assert(s * m <= m && s * n <= n) by (nonlinear_arith)
        requires
            0 as real <= s <= 1 as real,
            m >= 0 as real,
            n >= 0 as real,
    ;
    lemma_triangle(w, sum, x + exact);
    lemma_triangle(sum, x + line, x + exact);
    assert(sum - (x + line) == e - line);
    assert((x + line) - (x + exact) == line - exact);
}

/// Between two rows the quantile rises with the level.
proof fn lemma_rises(i: int, lower: Confidence, higher: Confidence, degrees: Number)
    requires
        0 <= i < table().len() - 1,
        table()[i].degrees.le(degrees),
        degrees.le(table()[i + 1].degrees),
        height(lower) < height(higher),
    ensures
        between(table()[i], table()[i + 1], lower, degrees).le(
            between(table()[i], table()[i + 1], higher, degrees),
        ),
{
    let (low, high) = (table()[i], table()[i + 1]);
    let t = amount(degrees.minus(low.degrees).over(high.degrees.minus(low.degrees)));
    lemma_gaps(i, lower, higher);
    lemma_gaps(i + 1, lower, higher);
    lemma_part_of_span(i, degrees);
    lemma_near_the_line(i, lower, degrees);
    lemma_near_the_line(i, higher, degrees);
    let (a, b) = (amount(low.at(lower)), amount(high.at(lower)));
    let (c, d) = (amount(low.at(higher)), amount(high.at(higher)));
    assert(c + t * (d - c) - (a + t * (b - a)) >= 1 as real / 8 as real) by (nonlinear_arith)
        requires
            0 as real <= t <= 1 as real,
            c - a >= 1 as real / 8 as real,
            d - b >= 1 as real / 8 as real,
    ;
    reveal(distance);
    lemma_amounts_in_order(
        between(low, high, lower, degrees),
        between(low, high, higher, degrees),
    );
}

/// The critical value never falls with the confidence, from the lowest level
/// that is tabulated on.
pub proof fn quantiles_rise_with_the_level(lower: Number, higher: Number, n: Number)
    requires
        Number::from_bits(LEVEL_90).le(lower),
        lower.le(higher),
    ensures
        critical(lower, n).le(critical(higher, n)),
{
    let (a, b) = (level_of(lower), level_of(higher));
    let degrees = degrees_of(n);
    lemma_format();
    lemma_rows(0, a);
    lemma_rows(15, a);
    lemma_rows(15, b);
    if Number::from_bits(ONE).le(degrees) && !Number::from_bits(MANY_DEGREES).le(degrees) {
        let j = lemma_tabulated(a, degrees, 0);
        assert(tabulated(b, degrees, 0) == between(table()[j], table()[j + 1], b, degrees));
        if height(a) < height(b) {
            lemma_rises(j, a, b, degrees);
        } else {
            lemma_falls(j, a, degrees, degrees);
        }
    }
}

/// From three rows on the critical value is at most 64.
pub proof fn quantiles_are_moderate(ci: Number, n: Number)
    requires
        Number::from_bits(THREE).le(n),
    ensures
        critical(ci, n).is_finite(),
        critical(ci, n).le(Number::from_bits(0x4050_0000_0000_0000)),
        Number::from_bits(ZERO).lt(critical(ci, n)),
{
    let level = level_of(ci);
    let three = Number::from_bits(THREE);
    let degrees = degrees_of(three);
    lemma_format();
    lemma_rows(0, level);
    lemma_starts(0, level);
    lemma_three_leaves_one();
    assert(degrees == Number::from_bits(ONE));
    assert(critical(ci, three) == between(table()[0], table()[1], level, degrees));
    quantiles_fall_with_the_sample(ci, three, n);
}

/// From 62 rows on the critical value is the normal quantile, which at 95 in a
/// hundred is 1.96, and below three rows it is zero.
pub proof fn quantiles_at_the_ends(ci: Number, n: Number)
    ensures
        Number::from_bits(SIXTY_TWO).le(n) ==> critical(ci, n) == normal().at(level_of(ci)),
        Number::from_bits(SIXTY_TWO).le(n) && level_of(ci) == Confidence::NinetyFive ==> critical(
            ci,
            n,
        ) == Number::from_bits(0x3fff_5c28_f5c2_8f5c),
        n.lt(Number::from_bits(THREE)) ==> critical(ci, n) == Number::from_bits(ZERO),
{
    let two = Number::from_bits(TWO);
    let many = Number::from_bits(MANY_DEGREES);
    let fewer = Number::from_bits(0x4007_ffff_ffff_ffff);
    let below = Number::from_bits(0x3fef_ffff_ffff_fffc);
    let k = WIDTH as nat;
    lemma_format();
    if Number::from_bits(SIXTY_TWO).le(n) {
        lemma_pow2_adds(4, 1023);
        lemma2_to64();
        lemma_units_of_parts(k, 1023, 0x10_0000_0000_0000);
        lemma_units_of_parts(k, 1027, 0x1e_0000_0000_0000);
        lemma_units_of_parts(k, 1027, 0x1f_0000_0000_0000);
        assert(two.value() == 0x10_0000_0000_0000 * pow2(1023));
        assert(many.value() == 0x1e_0000_0000_0000 * pow2(1027));
        assert(Number::from_bits(SIXTY_TWO).value() == 0x1f_0000_0000_0000 * pow2(1027));
        lemma_plus_keeps_order(Number::from_bits(SIXTY_TWO), n, two.negated());
        lemma_difference_keeps_order(Number::from_bits(SIXTY_TWO), two, many);
    }
    if n.lt(Number::from_bits(THREE)) {
        lemma_pow2_unfold(1022);
        lemma_pow2_unfold(1023);
        lemma_units_of_parts(k, 1023, 0x10_0000_0000_0000);
        lemma_units_of_parts(k, 1023, 0x17_ffff_ffff_ffff);
        lemma_units_of_parts(k, 1021, 0x1f_ffff_ffff_fffc);
        assert(two.value() == 0x10_0000_0000_0000 * pow2(1023));
        assert(fewer.value() == 0x17_ffff_ffff_ffff * pow2(1023));
        assert(below.value() == 0x1f_ffff_ffff_fffc * pow2(1021));
        lemma_plus_keeps_order(n, fewer, two.negated());
        lemma_difference_keeps_order(fewer, two, below);
    }
}

} // verus!
