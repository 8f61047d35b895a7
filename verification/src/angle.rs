//! Wraparound angular arithmetic on a fixed period.
//!
//! An [`AngularScalar`] is an angle held in millidegrees, always normalized
//! into `[0, PERIOD)`. The operations here are the exact integer counterparts
//! of wraparound arithmetic on a circle: normalizing constructors, shortest
//! signed delta, direction, circular distance, and a wraparound betweenness
//! predicate used by the collision and navigation layers.

use vstd::prelude::*;
use vstd::arithmetic::div_mod::{
    lemma_div_nonincreasing, lemma_div_pos_is_pos, lemma_fundamental_div_mod,
    lemma_fundamental_div_mod_converse_mod, lemma_mod_bound, lemma_mod_multiples_vanish,
    lemma_small_mod,
};

verus! {

/// Millidegree units in one full turn.
pub const PERIOD: u32 = 360_000;

/// Millidegree units in half a turn.
pub const HALF_PERIOD: u32 = 180_000;

/// Euclidean remainder of `x` by the period: the normal form of an angle.
pub open spec fn wrap(x: int) -> int {
    x % (PERIOD as int)
}

/// The signed shortest delta from `a` to `b` on the circle, in
/// `(-HALF_PERIOD, HALF_PERIOD]`; when both ways round are equally long the
/// positive delta is returned.
pub open spec fn diff_spec(a: int, b: int) -> int {
    if wrap(b - a) <= HALF_PERIOD as int {
        wrap(b - a)
    } else {
        wrap(b - a) - PERIOD as int
    }
}

/// Circular distance between `a` and `b`: the magnitude of the shortest delta.
pub open spec fn dist_spec(a: int, b: int) -> int {
    if diff_spec(a, b) >= 0 {
        diff_spec(a, b)
    } else {
        -diff_spec(a, b)
    }
}

/// Sign of the shortest delta from `a` to `b`.
pub open spec fn dir_spec(a: int, b: int) -> int {
    if diff_spec(a, b) > 0 {
        1
    } else if diff_spec(a, b) < 0 {
        -1
    } else {
        0
    }
}

/// Quotient truncated toward zero, for a nonnegative dividend.
pub open spec fn div_toward_zero(a: int, d: int) -> int {
    if d > 0 {
        a / d
    } else {
        -(a / -d)
    }
}

/// Whether walking from `lo` to `hi` in rotational direction `forward`
/// (`true` meaning increasing angle) passes through `x`.
pub open spec fn between_spec(x: int, lo: int, hi: int, forward: bool) -> bool {
    if forward {
        wrap(x - lo) <= wrap(hi - lo)
    } else {
        wrap(lo - x) <= wrap(lo - hi)
    }
}

/// The remainder by the period lies in `[0, PERIOD)`.
pub proof fn lemma_wrap_range(x: int)
    ensures
        0 <= wrap(x) < PERIOD,
{
    lemma_mod_bound(x, PERIOD as int);
}

/// Shifting by any whole number of periods does not change the normal form.
pub proof fn lemma_wrap_multiples_vanish(k: int, x: int)
    ensures
        wrap(k * (PERIOD as int) + x) == wrap(x),
{
    lemma_mod_multiples_vanish(k, x, PERIOD as int);
}

/// A value already in `[0, PERIOD)` is its own normal form.
pub proof fn lemma_wrap_small(x: int)
    requires
        0 <= x < PERIOD,
    ensures
        wrap(x) == x,
{
    lemma_small_mod(x as nat, PERIOD as nat);
}

/// Wrapping an argument of a sum before wrapping the sum changes nothing.
pub proof fn lemma_wrap_add_wrapped(a: int, b: int)
    ensures
        wrap(wrap(a) + b) == wrap(a + b),
{
    let p = PERIOD as int;
    lemma_fundamental_div_mod(a, p);
    let q = a / p;
    assert(a == p * q + wrap(a));
    assert(a + b == q * p + (wrap(a) + b)) by (nonlinear_arith)
        requires
            a == p * q + wrap(a),
    ;
    lemma_mod_multiples_vanish(q, wrap(a) + b, p);
}

/// Wrapping the subtrahend before wrapping the difference changes nothing.
pub proof fn lemma_wrap_sub_wrapped(a: int, b: int)
    ensures
        wrap(a - wrap(b)) == wrap(a - b),
{
    let p = PERIOD as int;
    lemma_fundamental_div_mod(b, p);
    let q = b / p;
    assert(a - b == (-q) * p + (a - wrap(b))) by (nonlinear_arith)
        requires
            b == p * q + wrap(b),
    ;
    lemma_mod_multiples_vanish(-q, a - wrap(b), p);
}

/// The two normal forms of opposite differences are both zero or sum to one
/// period.
pub proof fn lemma_wrap_opposite(a: int, b: int)
    ensures
        (wrap(b - a) == 0) == (wrap(a - b) == 0),
        wrap(b - a) != 0 ==> wrap(b - a) + wrap(a - b) == PERIOD,
{
    let p = PERIOD as int;
    let w1 = wrap(b - a);
    let w2 = wrap(a - b);
    lemma_wrap_range(b - a);
    lemma_wrap_range(a - b);
    lemma_fundamental_div_mod(b - a, p);
    lemma_fundamental_div_mod(a - b, p);
    let q1 = (b - a) / p;
    let q2 = (a - b) / p;
    assert(w1 + w2 == (-(q1 + q2)) * p) by (nonlinear_arith)
        requires
            b - a == p * q1 + w1,
            a - b == p * q2 + w2,
    ;
    assert(w1 == 0 ==> w2 == 0 && w2 == 0 ==> w1 == 0 && (w1 != 0 ==> w1 + w2 == p))
        by (nonlinear_arith)
        requires
            w1 + w2 == (-(q1 + q2)) * p,
            0 <= w1 < p,
            0 <= w2 < p,
            p > 0,
    ;
}

/// The circular distance is the smaller of the two normal-form differences.
pub proof fn lemma_dist_min(a: int, b: int)
    ensures
        dist_spec(a, b) == if wrap(b - a) <= wrap(a - b) {
            wrap(b - a)
        } else {
            wrap(a - b)
        },
{
    lemma_wrap_range(b - a);
    lemma_wrap_range(a - b);
    lemma_wrap_opposite(a, b);
}

/// Walking from `a` to `c` via `b`: the two normal-form legs sum either to
/// the normal-form whole or to the whole plus one period.
pub proof fn lemma_wrap_split(a: int, b: int, c: int)
    ensures
        wrap(a - b) + wrap(b - c) == wrap(a - c) || wrap(a - b) + wrap(b - c) == wrap(a - c)
            + PERIOD,
{
    let p = PERIOD as int;
    lemma_mod_bound(a - b, p);
    lemma_mod_bound(b - c, p);
    lemma_mod_bound(a - c, p);
    lemma_fundamental_div_mod(a - b, p);
    lemma_fundamental_div_mod(b - c, p);
    let q1 = (a - b) / p;
    let q2 = (b - c) / p;
    let w = wrap(a - b) + wrap(b - c);
    assert(a - c == (q1 + q2) * p + w) by (nonlinear_arith)
        requires
            a - b == p * q1 + wrap(a - b),
            b - c == p * q2 + wrap(b - c),
            w == wrap(a - b) + wrap(b - c),
    ;
    assert((q1 + q2) * p + w == p * (q1 + q2) + w) by (nonlinear_arith);
    lemma_mod_multiples_vanish(q1 + q2, w, p);
    if w < p {
        lemma_small_mod(w as nat, p as nat);
    } else {
        lemma_fundamental_div_mod_converse_mod(w, p, 1, w - p);
        lemma_small_mod((w - p) as nat, p as nat);
    }
}

/// A wraparound angle: a millidegree value normalized into `[0, PERIOD)`.
#[derive(Clone, Copy, PartialEq, Eq, Structural, Debug)]
pub struct AngularScalar {
    mdeg: u32,
}

impl AngularScalar {
    /// The angle as a mathematical integer, always in `[0, PERIOD)`.
    pub closed spec fn value(self) -> int {
        self.mdeg as int
    }

    #[verifier::type_invariant]
    spec fn type_inv(self) -> bool {
        self.mdeg < PERIOD
    }

    /// Wraps a raw millidegree count into `[0, PERIOD)`.
    pub fn new(raw: i64) -> (result: Self)
        ensures
            result.value() == wrap(raw as int),
            0 <= result.value() < PERIOD,
    {
        AngularScalar { mdeg: wrap_raw(raw as i128) }
    }

    /// The normalized millidegree value.
    pub fn get(&self) -> (r: u32)
        ensures
            r == self.value(),
            r < PERIOD,
    {
        proof {
            use_type_invariant(self);
        }
        self.mdeg
    }

    /// Adds a raw millidegree amount, then re-normalizes.
    pub fn add(self, amount: i64) -> (result: Self)
        ensures
            result.value() == wrap(self.value() + amount),
    {
        AngularScalar { mdeg: wrap_raw(self.mdeg as i128 + amount as i128) }
    }

    /// Subtracts a raw millidegree amount, then re-normalizes.
    pub fn sub(self, amount: i64) -> (result: Self)
        ensures
            result.value() == wrap(self.value() - amount),
    {
        AngularScalar { mdeg: wrap_raw(self.mdeg as i128 - amount as i128) }
    }

    /// Multiplies by an integer factor, then re-normalizes.
    pub fn mul(self, factor: i64) -> (result: Self)
        ensures
            result.value() == wrap(self.value() * factor),
    {
        proof {
            use_type_invariant(self);
            assert((self.mdeg as i128) * (factor as i128) <= (PERIOD as i128) * (i64::MAX as i128)
                && (self.mdeg as i128) * (factor as i128) >= (PERIOD as i128) * (i64::MIN
                as i128)) by (nonlinear_arith)
                requires
                    0 <= self.mdeg < PERIOD,
                    i64::MIN <= factor <= i64::MAX,
            ;
        }
        AngularScalar { mdeg: wrap_raw((self.mdeg as i128) * (factor as i128)) }
    }

    /// Divides by a nonzero integer, then re-normalizes. The stored value is
    /// nonnegative, so the quotient truncates toward zero as machine division
    /// does.
    pub fn div(self, divisor: i64) -> (result: Self)
        requires
            divisor != 0,
        ensures
            result.value() == wrap(div_toward_zero(self.value(), divisor as int)),
    {
        proof {
            use_type_invariant(self);
        }
        if divisor > 0 {
            let q = (self.mdeg as u64) / (divisor as u64);
            proof {
                lemma_div_nonincreasing(self.mdeg as int, divisor as int);
                lemma_div_pos_is_pos(self.mdeg as int, divisor as int);
            }
            AngularScalar { mdeg: wrap_raw(q as i128) }
        } else {
            let mag = (-(divisor as i128)) as u64;
            let m = (self.mdeg as u64) / mag;
            proof {
                lemma_div_nonincreasing(self.mdeg as int, mag as int);
                lemma_div_pos_is_pos(self.mdeg as int, mag as int);
            }
            AngularScalar { mdeg: wrap_raw(-(m as i128)) }
        }
    }

    /// Adds another angle, then re-normalizes.
    pub fn add_angle(self, other: Self) -> (result: Self)
        ensures
            result.value() == wrap(self.value() + other.value()),
    {
        AngularScalar { mdeg: wrap_raw(self.mdeg as i128 + other.mdeg as i128) }
    }

    /// Subtracts another angle, then re-normalizes.
    pub fn sub_angle(self, other: Self) -> (result: Self)
        ensures
            result.value() == wrap(self.value() - other.value()),
    {
        AngularScalar { mdeg: wrap_raw(self.mdeg as i128 - other.mdeg as i128) }
    }

    /// Multiplies by another angle's millidegree value, then re-normalizes.
    pub fn mul_angle(self, other: Self) -> (result: Self)
        ensures
            result.value() == wrap(self.value() * other.value()),
    {
        proof {
            use_type_invariant(self);
            use_type_invariant(other);
            assert((self.mdeg as i128) * (other.mdeg as i128) >= 0 && (self.mdeg as i128) * (
            other.mdeg as i128) <= 360_000i128 * 360_000i128) by (nonlinear_arith)
                requires
                    0 <= self.mdeg < PERIOD,
                    0 <= other.mdeg < PERIOD,
            ;
        }
        AngularScalar { mdeg: wrap_raw((self.mdeg as i128) * (other.mdeg as i128)) }
    }

    /// Divides by another angle's millidegree value, then re-normalizes.
    pub fn div_angle(self, other: Self) -> (result: Self)
        requires
            other.value() != 0,
        ensures
            result.value() == wrap(self.value() / other.value()),
    {
        proof {
            use_type_invariant(self);
            use_type_invariant(other);
        }
        let q = (self.mdeg as u64) / (other.mdeg as u64);
        proof {
            lemma_div_nonincreasing(self.mdeg as int, other.mdeg as int);
            lemma_div_pos_is_pos(self.mdeg as int, other.mdeg as int);
        }
        AngularScalar { mdeg: wrap_raw(q as i128) }
    }

    /// The signed shortest delta from `self` to `other`, in millidegrees.
    /// Lies in `(-HALF_PERIOD, HALF_PERIOD]`; when the two ways round are
    /// equally long the positive delta is returned.
    pub fn difference(&self, other: Self) -> (d: i64)
        ensures
            d == diff_spec(self.value(), other.value()),
    {
        proof {
            use_type_invariant(self);
            use_type_invariant(other);
        }
        let w: i64 = wrap_diff(self.mdeg, other.mdeg) as i64;
        if w <= HALF_PERIOD as i64 {
            w
        } else {
            w - PERIOD as i64
        }
    }

    /// The direction of the shortest way from `self` to `other`: `1` for
    /// increasing angle, `-1` for decreasing, `0` when already equal.
    pub fn direction(&self, other: Self) -> (r: i32)
        ensures
            r == dir_spec(self.value(), other.value()),
    {
        let d = self.difference(other);
        if d > 0 {
            1
        } else if d < 0 {
            -1
        } else {
            0
        }
    }

    /// Circular distance from `self` to `other`, in millidegrees; at most
    /// `HALF_PERIOD`.
    pub fn distance(&self, other: Self) -> (r: u32)
        ensures
            r == dist_spec(self.value(), other.value()),
            r <= HALF_PERIOD,
    {
        let d = self.difference(other);
        if d < 0 {
            (-d) as u32
        } else {
            d as u32
        }
    }

    /// Whether walking from `lo` to `hi` in rotational direction `forward`
    /// passes through `x`.
    pub fn is_between(x: Self, lo: Self, hi: Self, forward: bool) -> (r: bool)
        ensures
            r == between_spec(x.value(), lo.value(), hi.value(), forward),
    {
        proof {
            use_type_invariant(x);
            use_type_invariant(lo);
            use_type_invariant(hi);
        }
        if forward {
            wrap_diff(lo.mdeg, x.mdeg) <= wrap_diff(lo.mdeg, hi.mdeg)
        } else {
            wrap_diff(x.mdeg, lo.mdeg) <= wrap_diff(hi.mdeg, lo.mdeg)
        }
    }
}

/// Wraps an arbitrary raw count into `[0, PERIOD)`.
fn wrap_raw(x: i128) -> (r: u32)
    requires
        x > i128::MIN,
    ensures
        r == wrap(x as int),
        r < PERIOD,
{
    let p: u128 = PERIOD as u128;
    if x >= 0 {
        let m = (x as u128) % p;
        proof {
            lemma_wrap_range(x as int);
        }
        m as u32
    } else {
        let neg = (-x) as u128;
        let m = neg % p;
        proof {
            let pi = PERIOD as int;
            lemma_fundamental_div_mod(neg as int, pi);
            let q = (neg as int) / pi;
            assert(x as int == (-q) * pi + (-((m as int)))) by (nonlinear_arith)
                requires
                    neg as int == pi * q + m,
                    x as int == -(neg as int),
            ;
            if m == 0 {
                lemma_mod_multiples_vanish(-q, 0, pi);
                lemma_small_mod(0nat, PERIOD as nat);
            } else {
                assert(x as int == (-q - 1) * pi + (pi - m)) by (nonlinear_arith)
                    requires
                        x as int == (-q) * pi + (-((m as int))),
                ;
                lemma_mod_multiples_vanish(-q - 1, pi - m, pi);
                lemma_mod_bound(neg as int, pi);
                lemma_small_mod((pi - m) as nat, PERIOD as nat);
            }
        }
        if m == 0 {
            0
        } else {
            (p - m) as u32
        }
    }
}

/// For normalized inputs, the normal form of `b - a`.
fn wrap_diff(a: u32, b: u32) -> (r: u32)
    requires
        a < PERIOD,
        b < PERIOD,
    ensures
        r == wrap(b as int - a as int),
        r < PERIOD,
{
    proof {
        if b >= a {
            lemma_wrap_small(b as int - a as int);
        } else {
            lemma_wrap_multiples_vanish(1, b as int - a as int);
            lemma_wrap_small(b as int - a as int + PERIOD as int);
        }
    }
    if b >= a {
        b - a
    } else {
        b + (PERIOD - a)
    }
}

/// Law: for any start angle `a` and any normalized target `b`, the shortest
/// signed delta from `a` to `b` never exceeds half the period in magnitude,
/// and adding it to `a` lands exactly on `b`.
pub proof fn lemma_difference_round_trip(a: int, b: int)
    requires
        0 <= b < PERIOD,
    ensures
        -(HALF_PERIOD as int) < diff_spec(a, b) <= HALF_PERIOD as int,
        wrap(a + diff_spec(a, b)) == b,
{
    let w = wrap(b - a);
    lemma_wrap_range(b - a);
    lemma_wrap_add_wrapped(b - a, a);
    assert(wrap(a + w) == wrap(b)) by {
        assert(a + wrap(b - a) == wrap(b - a) + a);
    }
    lemma_wrap_small(b);
    if w <= HALF_PERIOD as int {
        assert(wrap(a + diff_spec(a, b)) == b);
    } else {
        lemma_wrap_multiples_vanish(1, a + (w - PERIOD as int));
        assert(wrap(a + (w - PERIOD as int)) == wrap(a + w));
    }
}

/// Law: circular distance is symmetric and bounded by half the period.
pub proof fn lemma_distance_symmetric(a: int, b: int)
    ensures
        dist_spec(a, b) == dist_spec(b, a),
        0 <= dist_spec(a, b) <= HALF_PERIOD as int,
{
    let w1 = wrap(b - a);
    let w2 = wrap(a - b);
    lemma_wrap_range(b - a);
    lemma_wrap_range(a - b);
    lemma_fundamental_div_mod(b - a, PERIOD as int);
    let q1 = (b - a) / (PERIOD as int);
    if w1 == 0 {
        assert(a - b == (PERIOD as int) * (-q1) + 0) by (nonlinear_arith)
            requires
                b - a == (PERIOD as int) * q1 + 0,
        ;
        lemma_mod_multiples_vanish(-q1, 0, PERIOD as int);
        lemma_small_mod(0nat, PERIOD as nat);
    } else {
        lemma_fundamental_div_mod(a - b, PERIOD as int);
        let q2 = (a - b) / (PERIOD as int);
        assert(w1 + w2 == (-(q1 + q2)) * (PERIOD as int)) by (nonlinear_arith)
            requires
                b - a == (PERIOD as int) * q1 + w1,
                a - b == (PERIOD as int) * q2 + w2,
        ;
        assert(w2 != 0) by (nonlinear_arith)
            requires
                b - a == (PERIOD as int) * q1 + w1,
                a - b == (PERIOD as int) * q2 + w2,
                0 < w1 < PERIOD,
                0 <= w2 < PERIOD,
        ;
        assert(w1 + w2 == PERIOD as int) by (nonlinear_arith)
            requires
                w1 + w2 == (-(q1 + q2)) * (PERIOD as int),
                0 < w1 < PERIOD,
                0 < w2 < PERIOD,
        ;
    }
}

} // verus!
