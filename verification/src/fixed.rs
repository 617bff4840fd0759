//! A fixed-point scalar: a signed 64-bit integer that counts steps of
//! `2^-32`.
//!
//! Every operation saturates at the ends of the range and rounds toward zero,
//! so a result is the same on every machine. The exponential and the power are
//! approximations: `exp` raises `1 + x / 4096` to the 4096th power by twelve
//! squarings, and `powf` finds the logarithm of its base by bisection on
//! `exp`.
use vstd::prelude::*;
use crate::ec::evolutionary_computation::{cost_ordered, spec_scaled_cost, COST_SCALER};
use crate::nn::matrix::{identity, lemma_identity_product, product, Grid};
use crate::scalar::{neutral_units, one, ranked, zero, Scalar};

verus! {

/// The number of steps in one unit: `2^32`.
pub const FRACTION: i64 = 4294967296;

/// At and below this many steps (`-23`), `exp` is zero.
pub const EXP_FLOOR: i64 = -98784247808;

/// At and above this many steps (`22`), `exp` is the largest value.
pub const EXP_CEILING: i64 = 94489280512;

/// The divisor that `exp` applies before it squares: `2^12`.
pub const EXP_DIVISOR: i64 = 4096;

/// The number of times `exp` squares.
pub const EXP_SQUARINGS: u32 = 12;

/// The number of halvings in the search for a logarithm.
pub const LOG_STEPS: u32 = 40;

#[derive(Clone, Copy, Debug, PartialEq, Eq, Structural)]
pub struct Fixed {
    pub bits: i64,
}

/// `value` limited to the range of `i64`.
pub open spec fn limit(value: int) -> i64 {
    if value > i64::MAX {
        i64::MAX
    } else if value < i64::MIN {
        i64::MIN
    } else {
        value as i64
    }
}

/// The quotient of `n` by `d`, rounded toward zero; for `d == 0` the
/// quotient has the sign of `n` and is past every bound.
pub open spec fn quotient(n: int, d: int) -> int {
    if d == 0 {
        if n > 0 {
            i64::MAX + 1
        } else if n < 0 {
            i64::MIN - 1
        } else {
            0
        }
    } else if n >= 0 {
        if d > 0 {
            n / d
        } else {
            -(n / (-d))
        }
    } else {
        if d > 0 {
            -((-n) / d)
        } else {
            (-n) / (-d)
        }
    }
}

/// `base` squared `steps` times.
pub open spec fn spec_squarings(base: Fixed, steps: nat) -> Fixed
    decreases steps,
{
    if steps == 0 {
        base
    } else {
        let root = spec_squarings(base, (steps - 1) as nat);
        root.spec_mul(root)
    }
}

/// Where `steps` halvings of the interval from `low` to `high` end, each
/// keeping the half in which `exp` passes `x`.
pub open spec fn spec_log_search(x: Fixed, low: int, high: int, steps: nat) -> int
    decreases steps,
{
    if steps == 0 {
        low
    } else {
        let middle = low + (high - low) / 2;
        if (Fixed { bits: middle as i64 }).spec_exp().bits < x.bits {
            spec_log_search(x, middle, high, (steps - 1) as nat)
        } else {
            spec_log_search(x, low, middle, (steps - 1) as nat)
        }
    }
}

/// The logarithm of a positive `x`, to the precision of the search.
pub open spec fn spec_ln(x: Fixed) -> Fixed {
    Fixed { bits: spec_log_search(x, EXP_FLOOR as int, EXP_CEILING as int, LOG_STEPS as nat) as i64 }
}

/// Zero and one are neutral for the fixed-point scalar: its products with
/// them and its sums with zero are exact.
pub proof fn lemma_fixed_units()
    ensures
        neutral_units::<Fixed>(),
{
    assert(zero::<Fixed>().bits == 0);
    assert(one::<Fixed>().bits == FRACTION);
    assert forall|x: Fixed| #[trigger] x.spec_mul(one::<Fixed>()) == x by {
        lemma_scaled_back(x.bits as int);
    }
    assert forall|x: Fixed| #[trigger] one::<Fixed>().spec_mul(x) == x by {
        lemma_scaled_back(x.bits as int);
        assert(FRACTION * x.bits == x.bits * FRACTION);
    }
    assert forall|x: Fixed| #[trigger] x.spec_mul(zero::<Fixed>()) == zero::<Fixed>() by {
        assert(x.bits * 0 == 0);
    }
    assert forall|x: Fixed| #[trigger] zero::<Fixed>().spec_mul(x) == zero::<Fixed>() by {
        assert(0 * x.bits == 0);
    }
}

/// The order of the fixed-point scalar ranks its values.
pub proof fn lemma_fixed_ranked()
    ensures
        ranked::<Fixed>(),
{
}

/// The product of a fixed-point matrix with an identity matrix of the
/// fitting size, on either side, is the matrix itself.
pub proof fn lemma_fixed_identity_product(a: Grid<Fixed>)
    requires
        a.wf(),
    ensures
        product(a, identity::<Fixed>(a.cols)) == a,
        product(identity::<Fixed>(a.rows), a) == a,
{
    lemma_fixed_units();
    lemma_identity_product(a);
}

/// A larger dividend gives no smaller quotient, for a divisor above zero.
pub proof fn lemma_quotient_monotone(n: int, m: int, d: int)
    requires
        n <= m,
        d > 0,
    ensures
        quotient(n, d) <= quotient(m, d),
        n >= 0 ==> quotient(n, d) >= 0,
{
    if n >= 0 {
        vstd::arithmetic::div_mod::lemma_div_is_ordered(n, m, d);
        vstd::arithmetic::div_mod::lemma_div_pos_is_pos(n, d);
    } else if m >= 0 {
        vstd::arithmetic::div_mod::lemma_div_pos_is_pos(-n, d);
        vstd::arithmetic::div_mod::lemma_div_pos_is_pos(m, d);
    } else {
        vstd::arithmetic::div_mod::lemma_div_is_ordered(-m, -n, d);
    }
}

/// A larger factor gives no smaller product, where the other factor is not
/// below zero.
pub proof fn lemma_mul_monotone(a: Fixed, b: Fixed, p: Fixed)
    requires
        a.bits <= b.bits,
        p.bits >= 0,
    ensures
        a.spec_mul(p).bits <= b.spec_mul(p).bits,
{
    assert(a.bits * p.bits <= b.bits * p.bits) by (nonlinear_arith)
        requires
            a.bits <= b.bits,
            p.bits >= 0,
    ;
    lemma_quotient_monotone(a.bits * p.bits, b.bits * p.bits, FRACTION as int);
}

/// Of two values not below zero the larger has no smaller square, and no
/// square is below zero.
proof fn lemma_square_monotone(a: Fixed, b: Fixed)
    requires
        0 <= a.bits <= b.bits,
    ensures
        0 <= a.spec_mul(a).bits <= b.spec_mul(b).bits,
{
    assert(0 <= a.bits * a.bits <= b.bits * b.bits) by (nonlinear_arith)
        requires
            0 <= a.bits <= b.bits,
    ;
    lemma_quotient_monotone(a.bits * a.bits, b.bits * b.bits, FRACTION as int);
}

proof fn lemma_squarings_monotone(a: Fixed, b: Fixed, steps: nat)
    requires
        0 <= a.bits <= b.bits,
    ensures
        0 <= spec_squarings(a, steps).bits <= spec_squarings(b, steps).bits,
    decreases steps,
{
    if steps > 0 {
        lemma_squarings_monotone(a, b, (steps - 1) as nat);
        lemma_square_monotone(
            spec_squarings(a, (steps - 1) as nat),
            spec_squarings(b, (steps - 1) as nat),
        );
    }
}

/// The exponential is never below zero.
pub proof fn lemma_exp_not_negative(x: Fixed)
    ensures
        0 <= x.spec_exp().bits,
{
    if x.bits > EXP_FLOOR && x.bits < EXP_CEILING {
        lemma_quotient_monotone(EXP_FLOOR as int, x.bits as int, EXP_DIVISOR as int);
        lemma_quotient_monotone(x.bits as int, EXP_CEILING as int, EXP_DIVISOR as int);
        assert(quotient(EXP_FLOOR as int, EXP_DIVISOR as int) == -24117248);
        assert(quotient(EXP_CEILING as int, EXP_DIVISOR as int) == 23068672);
        let base = Fixed { bits: (FRACTION + quotient(x.bits as int, EXP_DIVISOR as int)) as i64 };
        lemma_squarings_monotone(base, base, EXP_SQUARINGS as nat);
    }
}

/// For a larger value the exponential is not smaller.
pub proof fn lemma_exp_monotone(x: Fixed, y: Fixed)
    requires
        x.bits <= y.bits,
    ensures
        0 <= x.spec_exp().bits <= y.spec_exp().bits,
{
    lemma_exp_not_negative(x);
    lemma_exp_not_negative(y);
    if x.bits > EXP_FLOOR && y.bits < EXP_CEILING {
        lemma_quotient_monotone(EXP_FLOOR as int, x.bits as int, EXP_DIVISOR as int);
        lemma_quotient_monotone(x.bits as int, y.bits as int, EXP_DIVISOR as int);
        lemma_quotient_monotone(y.bits as int, EXP_CEILING as int, EXP_DIVISOR as int);
        assert(quotient(EXP_FLOOR as int, EXP_DIVISOR as int) == -24117248);
        assert(quotient(EXP_CEILING as int, EXP_DIVISOR as int) == 23068672);
        let base_x = Fixed { bits: (FRACTION + quotient(x.bits as int, EXP_DIVISOR as int)) as i64 };
        let base_y = Fixed { bits: (FRACTION + quotient(y.bits as int, EXP_DIVISOR as int)) as i64 };
        lemma_squarings_monotone(base_x, base_y, EXP_SQUARINGS as nat);
    }
}

/// A search for a logarithm ends within its interval.
proof fn lemma_log_search_bounds(x: Fixed, low: int, high: int, steps: nat)
    requires
        low <= high,
    ensures
        low <= spec_log_search(x, low, high, steps) <= high,
    decreases steps,
{
    if steps > 0 {
        let middle = low + (high - low) / 2;
        if (Fixed { bits: middle as i64 }).spec_exp().bits < x.bits {
            lemma_log_search_bounds(x, middle, high, (steps - 1) as nat);
        } else {
            lemma_log_search_bounds(x, low, middle, (steps - 1) as nat);
        }
    }
}

/// A search for the logarithm of a larger value ends no lower.
proof fn lemma_log_search_monotone(x: Fixed, y: Fixed, low: int, high: int, steps: nat)
    requires
        x.bits <= y.bits,
        low <= high,
    ensures
        spec_log_search(x, low, high, steps) <= spec_log_search(y, low, high, steps),
    decreases steps,
{
    if steps > 0 {
        let middle = low + (high - low) / 2;
        let value = (Fixed { bits: middle as i64 }).spec_exp();
        if value.bits < x.bits {
            lemma_log_search_monotone(x, y, middle, high, (steps - 1) as nat);
        } else if value.bits < y.bits {
            lemma_log_search_bounds(x, low, middle, (steps - 1) as nat);
            lemma_log_search_bounds(y, middle, high, (steps - 1) as nat);
        } else {
            lemma_log_search_monotone(x, y, low, middle, (steps - 1) as nat);
        }
    }
}

/// The power is never below zero, and for a larger base it is not smaller,
/// where the exponent is not below zero.
pub proof fn lemma_powf_monotone(x: Fixed, y: Fixed, exponent: Fixed)
    requires
        x.bits <= y.bits,
        exponent.bits >= 0,
    ensures
        0 <= x.spec_powf(exponent).bits <= y.spec_powf(exponent).bits,
{
    if y.bits > 0 {
        let high = spec_ln(y).spec_mul(exponent);
        lemma_exp_not_negative(high);
        if x.bits > 0 {
            lemma_log_search_monotone(x, y, EXP_FLOOR as int, EXP_CEILING as int, LOG_STEPS as nat);
            lemma_log_search_bounds(x, EXP_FLOOR as int, EXP_CEILING as int, LOG_STEPS as nat);
            lemma_log_search_bounds(y, EXP_FLOOR as int, EXP_CEILING as int, LOG_STEPS as nat);
            lemma_mul_monotone(spec_ln(x), spec_ln(y), exponent);
            lemma_exp_monotone(spec_ln(x).spec_mul(exponent), high);
        }
    }
}

/// A larger divisor gives no larger quotient, where dividend and divisors
/// are not below zero.
pub proof fn lemma_div_antitone(r: Fixed, x: Fixed, y: Fixed)
    requires
        r.bits >= 0,
        0 <= x.bits <= y.bits,
    ensures
        r.spec_div(y).bits <= r.spec_div(x).bits,
{
    let dividend = r.bits * FRACTION;
    assert(dividend >= 0);
    if x.bits > 0 {
        vstd::arithmetic::div_mod::lemma_div_is_ordered_by_denominator(
            dividend,
            x.bits as int,
            y.bits as int,
        );
    } else if y.bits > 0 {
        vstd::arithmetic::div_mod::lemma_div_pos_is_pos(dividend, y.bits as int);
        if dividend == 0 {
            assert(0int / (y.bits as int) == 0) by (nonlinear_arith)
                requires
                    y.bits > 0,
            ;
        }
    }
}

/// For the fixed-point scalar, scaling a cost and dividing by it keep the
/// order.
pub proof fn lemma_fixed_cost_ordered()
    ensures
        cost_ordered::<Fixed>(),
{
    let exponent = Fixed::spec_from_ratio(COST_SCALER, 10);
    assert(quotient(COST_SCALER * FRACTION, 10) == 5153960755);
    assert(exponent.bits == 5153960755);
    assert(zero::<Fixed>().bits == 0);
    assert forall|a: Fixed, b: Fixed|
        #![trigger spec_scaled_cost(a), spec_scaled_cost(b)]
        !b.spec_lt(a) implies !spec_scaled_cost(b).spec_lt(spec_scaled_cost(a)) by {
        lemma_powf_monotone(a, b, exponent);
    }
    assert forall|a: Fixed| !(#[trigger] spec_scaled_cost(a)).spec_lt(zero::<Fixed>()) by {
        lemma_powf_monotone(a, a, exponent);
    }
    assert forall|r: Fixed, x: Fixed, y: Fixed|
        #![trigger r.spec_div(x), r.spec_div(y)]
        !r.spec_lt(zero::<Fixed>()) && !x.spec_lt(zero::<Fixed>()) && !y.spec_lt(x) implies !r.spec_div(
            x,
        ).spec_lt(r.spec_div(y)) by {
        lemma_div_antitone(r, x, y);
    }
}

/// A whole number of units, divided by the unit, is the number.
proof fn lemma_scaled_back(n: int)
    ensures
        quotient(n * FRACTION, FRACTION as int) == n,
{
    if n >= 0 {
        assert((n * 4294967296) / 4294967296 == n);
    } else {
        assert((-(n * 4294967296)) / 4294967296 == -n);
    }
}

fn saturate(value: i128) -> (r: i64)
    ensures
        r == limit(value as int),
{
    if value > i64::MAX as i128 {
        i64::MAX
    } else if value < i64::MIN as i128 {
        i64::MIN
    } else {
        value as i64
    }
}

fn divide(n: i128, d: i128) -> (r: i64)
    requires
        -0x8000_0000_0000_0000_0000_0000 <= n <= 0x8000_0000_0000_0000_0000_0000,
        i64::MIN <= d <= i64::MAX,
    ensures
        r == limit(quotient(n as int, d as int)),
{
    if d == 0 {
        if n > 0 {
            i64::MAX
        } else if n < 0 {
            i64::MIN
        } else {
            0
        }
    } else if d < 0 {
        saturate((-n) / (-d))
    } else {
        saturate(n / d)
    }
}

fn scaled(value: i64) -> (r: i128)
    ensures
        r == value * FRACTION,
        -0x8000_0000_0000_0000_0000_0000 <= r <= 0x8000_0000_0000_0000_0000_0000,
{
    value as i128 * 4294967296
}

fn ln(x: Fixed) -> (r: Fixed)
    ensures
        r == spec_ln(x),
{
    let mut low: i64 = EXP_FLOOR;
    let mut high: i64 = EXP_CEILING;
    let mut step: u32 = 0;
    while step < LOG_STEPS
        invariant
            step <= LOG_STEPS,
            EXP_FLOOR <= low <= high <= EXP_CEILING,
            spec_log_search(x, low as int, high as int, (LOG_STEPS - step) as nat)
                == spec_log_search(x, EXP_FLOOR as int, EXP_CEILING as int, LOG_STEPS as nat),
        decreases LOG_STEPS - step,
    {
        let middle: i64 = low + (high - low) / 2;
        let value = (Fixed { bits: middle }).exp();
        if value.bits < x.bits {
            low = middle;
        } else {
            high = middle;
        }
        step = step + 1;
    }
    Fixed { bits: low }
}

impl Scalar for Fixed {
    open spec fn spec_from_ratio(numerator: i64, denominator: i64) -> Fixed {
        Fixed { bits: limit(quotient(numerator * FRACTION, denominator as int)) }
    }

    open spec fn spec_add(self, rhs: Fixed) -> Fixed {
        Fixed { bits: limit(self.bits + rhs.bits) }
    }

    open spec fn spec_sub(self, rhs: Fixed) -> Fixed {
        Fixed { bits: limit(self.bits - rhs.bits) }
    }

    open spec fn spec_mul(self, rhs: Fixed) -> Fixed {
        Fixed { bits: limit(quotient(self.bits * rhs.bits, FRACTION as int)) }
    }

    open spec fn spec_div(self, rhs: Fixed) -> Fixed {
        Fixed { bits: limit(quotient(self.bits * FRACTION, rhs.bits as int)) }
    }

    open spec fn spec_exp(self) -> Fixed {
        if self.bits <= EXP_FLOOR {
            Fixed { bits: 0 }
        } else if self.bits >= EXP_CEILING {
            Fixed { bits: i64::MAX }
        } else {
            spec_squarings(
                Fixed { bits: (FRACTION + quotient(self.bits as int, EXP_DIVISOR as int)) as i64 },
                EXP_SQUARINGS as nat,
            )
        }
    }

    open spec fn spec_powf(self, exponent: Fixed) -> Fixed {
        if self.bits <= 0 {
            Fixed { bits: 0 }
        } else {
            spec_ln(self).spec_mul(exponent).spec_exp()
        }
    }

    open spec fn spec_lt(self, rhs: Fixed) -> bool {
        self.bits < rhs.bits
    }

    open spec fn spec_truncate(self) -> i32 {
        quotient(self.bits as int, FRACTION as int) as i32
    }

    fn from_ratio(numerator: i64, denominator: i64) -> (r: Fixed) {
        Fixed { bits: divide(scaled(numerator), denominator as i128) }
    }

    fn add(self, rhs: Fixed) -> (r: Fixed) {
        Fixed { bits: saturate(self.bits as i128 + rhs.bits as i128) }
    }

    fn sub(self, rhs: Fixed) -> (r: Fixed) {
        Fixed { bits: saturate(self.bits as i128 - rhs.bits as i128) }
    }

    fn mul(self, rhs: Fixed) -> (r: Fixed) {
        proof {
            assert(-0x8000_0000_0000_0000 <= self.bits <= 0x8000_0000_0000_0000);
            assert(-0x8000_0000_0000_0000 <= rhs.bits <= 0x8000_0000_0000_0000);
            assert(-0x4000_0000_0000_0000_0000_0000_0000_0000 <= self.bits * rhs.bits
                <= 0x4000_0000_0000_0000_0000_0000_0000_0000) by (nonlinear_arith)
                requires
                    -0x8000_0000_0000_0000 <= self.bits <= 0x8000_0000_0000_0000,
                    -0x8000_0000_0000_0000 <= rhs.bits <= 0x8000_0000_0000_0000,
            ;
        }
        Fixed { bits: saturate((self.bits as i128 * rhs.bits as i128) / (FRACTION as i128)) }
    }

    fn div(self, rhs: Fixed) -> (r: Fixed) {
        Fixed { bits: divide(scaled(self.bits), rhs.bits as i128) }
    }

    fn exp(self) -> (r: Fixed) {
        if self.bits <= EXP_FLOOR {
            Fixed { bits: 0 }
        } else if self.bits >= EXP_CEILING {
            Fixed { bits: i64::MAX }
        } else {
            let base = Fixed { bits: FRACTION + self.bits / EXP_DIVISOR };
            let mut power = base;
            let mut step: u32 = 0;
            while step < EXP_SQUARINGS
                invariant
                    step <= EXP_SQUARINGS,
                    power == spec_squarings(base, step as nat),
                decreases EXP_SQUARINGS - step,
            {
                power = power.mul(power);
                step = step + 1;
            }
            power
        }
    }

    fn powf(self, exponent: Fixed) -> (r: Fixed) {
        if self.bits <= 0 {
            Fixed { bits: 0 }
        } else {
            ln(self).mul(exponent).exp()
        }
    }

    fn less_than(self, rhs: Fixed) -> (r: bool) {
        self.bits < rhs.bits
    }

    fn truncate(self) -> (r: i32) {
        (self.bits / FRACTION) as i32
    }
}

} // verus!
