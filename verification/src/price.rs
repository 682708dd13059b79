//! Exact decimal prices.
//!
//! A price is a decimal number `mantissa / 10^scale`. Every [`Price`] is held in
//! its shortest form, so that two prices are the same number exactly when they
//! are the same pair of mantissa and scale: field equality and the derived hash
//! are then equality and hash of the number.

use rust_decimal::Decimal;
use std::cmp::Ordering;
use vstd::arithmetic::power::{lemma_pow0, lemma_pow1, lemma_pow_adds, lemma_pow_positive, pow};
use vstd::prelude::*;

verus! {

/// The largest number of decimal places a price can have.
pub const MAX_SCALE: u32 = 28;

/// The largest magnitude of a mantissa: `2^96 - 1`.
pub const MAX_MANTISSA: i128 = 79_228_162_514_264_337_593_543_950_335;

/// A decimal number as a pair: it stands for `mantissa / 10^scale`.
pub struct PriceView {
    pub mantissa: int,
    pub scale: nat,
}

impl PriceView {
    /// The pair fits the 96-bit mantissa and the 28 decimal places of a decimal.
    pub open spec fn in_range(self) -> bool {
        &&& self.scale <= MAX_SCALE
        &&& -MAX_MANTISSA <= self.mantissa <= MAX_MANTISSA
    }

    /// The pair has no trailing zero that could be dropped from the fraction.
    pub open spec fn shortest(self) -> bool {
        self.scale == 0 || self.mantissa % 10 != 0
    }

    /// The pair is the one form in which a [`Price`] holds its number.
    pub open spec fn wf(self) -> bool {
        self.in_range() && self.shortest()
    }

    /// The shortest pair of the same value: trailing zeros of the fraction are
    /// dropped one by one.
    pub open spec fn shortened(self) -> PriceView
        decreases self.scale,
    {
        if self.scale > 0 && self.mantissa % 10 == 0 {
            PriceView { mantissa: self.mantissa / 10, scale: (self.scale - 1) as nat }.shortened()
        } else {
            self
        }
    }

    /// Both pairs stand for the same number.
    pub open spec fn same_value(self, other: PriceView) -> bool {
        self.mantissa * pow(10, other.scale) == other.mantissa * pow(10, self.scale)
    }

    /// The number of `self` is strictly less than that of `other`.
    pub open spec fn below(self, other: PriceView) -> bool {
        self.mantissa * pow(10, other.scale) < other.mantissa * pow(10, self.scale)
    }
}

/// The pair that a mantissa and a scale denote.
pub open spec fn decimal(mantissa: int, scale: nat) -> PriceView {
    PriceView { mantissa, scale }
}

/// A magnitude with its sign.
pub open spec fn signed(negative: bool, magnitude: int) -> int {
    if negative {
        -magnitude
    } else {
        magnitude
    }
}

/// The number of fractional parts in one whole, for prices given in parts.
pub const SCALAR: u64 = 1_000_000;

/// The number of decimal places that [`SCALAR`] stands for.
pub const SCALAR_DIGITS: u32 = 6;

/// The price of `integral` wholes and `fractional` parts of [`SCALAR`] to the
/// whole, in shortest form.
pub open spec fn fixed_point(integral: u64, fractional: u64) -> PriceView {
    decimal(integral * SCALAR + fractional, SCALAR_DIGITS as nat).shortened()
}

/// An exact decimal price, usable as a key and ordered by its numeric value.
#[derive(Clone, Copy, Debug, PartialEq, Eq, Hash, Structural)]
pub struct Price {
    mantissa: i128,
    scale: u32,
}

impl View for Price {
    type V = PriceView;

    closed spec fn view(&self) -> PriceView {
        PriceView { mantissa: self.mantissa as int, scale: self.scale as nat }
    }
}

/// Orders two decimals by `rust_decimal::Decimal::cmp`, each built from its
/// mantissa and scale with `Decimal::from_i128_with_scale`.
///
/// Trusted: the result is `Less` exactly when the first number is smaller and
/// `Greater` exactly when it is larger, by numeric value whatever the scales.
/// Both pairs must be in range, outside of which the construction panics.
#[verifier::external_body]
fn decimal_order(a: &Price, b: &Price) -> (order: Ordering)
    requires
        a@.in_range(),
        b@.in_range(),
    ensures
        order == Ordering::Less <==> a@.below(b@),
        order == Ordering::Greater <==> b@.below(a@),
{
    let left = Decimal::from_i128_with_scale(a.mantissa, a.scale);
    let right = Decimal::from_i128_with_scale(b.mantissa, b.scale);
    left.cmp(&right)
}

impl Price {
    /// Every price is in range and in shortest form.
    #[verifier::type_invariant]
    pub open spec fn inv(&self) -> bool {
        self@.wf()
    }

    /// The price `mantissa / 10^scale`, or `None` when the pair is out of range.
    ///
    /// Trailing zeros of the fraction are dropped, so numerically equal inputs
    /// give identical prices.
    pub fn new(mantissa: i128, scale: u32) -> (price: Option<Price>)
        ensures
            price is Some <==> decimal(mantissa as int, scale as nat).in_range(),
            price matches Some(p) ==> {
                &&& p@ == decimal(mantissa as int, scale as nat).shortened()
                &&& p@.wf()
                &&& p@.same_value(decimal(mantissa as int, scale as nat))
            },
    {
        if scale > MAX_SCALE || mantissa > MAX_MANTISSA || mantissa < -MAX_MANTISSA {
            return None;
        }
        let negative = mantissa < 0;
        let mut magnitude: u128 = if negative {
            (-mantissa) as u128
        } else {
            mantissa as u128
        };
        let ghost whole = magnitude as int;
        let mut digits: u32 = scale;
        proof {
            lemma_pow0(10);
        }
        while digits > 0 && magnitude % 10 == 0
            invariant
                digits <= scale,
                magnitude * pow(10, (scale - digits) as nat) == whole,
                decimal(signed(negative, magnitude as int), digits as nat).shortened() == decimal(
                    mantissa as int,
                    scale as nat,
                ).shortened(),
            decreases digits,
        {
            proof {
                assert(signed(negative, magnitude as int) % 10 == 0);
                assert(signed(negative, magnitude as int) / 10 == signed(
                    negative,
                    (magnitude / 10) as int,
                ));
                let dropped = (scale - digits) as nat;
                let rest = (magnitude / 10) as int;
                lemma_pow_adds(10, 1, dropped);
                lemma_pow1(10);
                assert(rest * pow(10, dropped + 1) == magnitude * pow(10, dropped)) by {
                    assert(rest * (10 * pow(10, dropped)) == (rest * 10) * pow(10, dropped))
                        by (nonlinear_arith);
                }
            }
            magnitude = magnitude / 10;
            digits = digits - 1;
        }
        proof {
            let dropped = (scale - digits) as nat;
            lemma_pow_positive(10, dropped);
            assert(magnitude <= whole) by (nonlinear_arith)
                requires
                    magnitude * pow(10, dropped) == whole,
                    pow(10, dropped) >= 1,
                    magnitude >= 0,
            ;
        }
        let shortened: i128 = if negative {
            -(magnitude as i128)
        } else {
            magnitude as i128
        };
        proof {
            assert(shortened == signed(negative, magnitude as int));
            assert(shortened % 10 == 0 <==> magnitude % 10 == 0);
            let dropped = (scale - digits) as nat;
            lemma_pow_adds(10, dropped, digits as nat);
            assert(shortened * pow(10, dropped) == mantissa) by (nonlinear_arith)
                requires
                    magnitude * pow(10, dropped) == whole,
                    negative ==> shortened == -magnitude && mantissa == -whole,
                    !negative ==> shortened == magnitude && mantissa == whole,
            ;
            assert(shortened * pow(10, scale as nat) == mantissa * pow(10, digits as nat))
                by (nonlinear_arith)
                requires
                    shortened * pow(10, dropped) == mantissa,
                    pow(10, scale as nat) == pow(10, dropped) * pow(10, digits as nat),
            ;
        }
        Some(Price { mantissa: shortened, scale: digits })
    }

    /// The mantissa of the shortest form.
    pub fn mantissa(&self) -> (mantissa: i128)
        ensures
            mantissa == self@.mantissa,
    {
        self.mantissa
    }

    /// The number of decimal places of the shortest form.
    pub fn scale(&self) -> (scale: u32)
        ensures
            scale == self@.scale,
    {
        self.scale
    }

    /// The price of `integral` wholes and `fractional` parts, of which
    /// [`SCALAR`] make a whole.
    pub fn from_parts(integral: u64, fractional: u64) -> (price: Price)
        ensures
            price@ == fixed_point(integral, fractional),
            price@.wf(),
    {
        assert(0 <= integral * SCALAR <= u64::MAX * SCALAR) by (nonlinear_arith)
            requires
                0 <= integral <= u64::MAX,
                SCALAR > 0,
        ;
        let wholes: i128 = integral as i128 * SCALAR as i128;
        let mantissa: i128 = wholes + fractional as i128;
        Price::new(mantissa, SCALAR_DIGITS).unwrap()
    }

}

impl PartialOrd for Price {
    /// Prices are ordered by numeric value; any two are comparable.
    fn partial_cmp(&self, other: &Price) -> (order: Option<Ordering>) {
        proof {
            use_type_invariant(self);
            use_type_invariant(other);
        }
        Some(decimal_order(self, other))
    }
}

impl vstd::std_specs::cmp::PartialOrdSpecImpl for Price {
    open spec fn obeys_partial_cmp_spec() -> bool {
        true
    }

    open spec fn partial_cmp_spec(&self, other: &Price) -> Option<Ordering> {
        if self@.below(other@) {
            Some(Ordering::Less)
        } else if other@.below(self@) {
            Some(Ordering::Greater)
        } else {
            Some(Ordering::Equal)
        }
    }
}

/// Two prices are the same value of the type exactly when their views agree.
pub proof fn lemma_view_injective(a: Price, b: Price)
    ensures
        a@ == b@ <==> a == b,
{
}

/// Cancelling a positive factor from both sides of a strict inequality chain:
/// from `x/p < y/q` and `y/q < z/r`, written without division, `x/p < z/r`.
proof fn lemma_cross_less(x: int, p: int, y: int, q: int, z: int, r: int)
    requires
        p > 0,
        q > 0,
        r > 0,
        x * q < y * p,
        y * r < z * q,
    ensures
        x * r < z * p,
{
    assert((x * q) * r < (y * p) * r) by (nonlinear_arith)
        requires
            x * q < y * p,
            r > 0,
    ;
    assert((y * r) * p < (z * q) * p) by (nonlinear_arith)
        requires
            y * r < z * q,
            p > 0,
    ;
    assert((x * q) * r == (x * r) * q) by (nonlinear_arith);
    assert((y * p) * r == (y * r) * p) by (nonlinear_arith);
    assert((z * q) * p == (z * p) * q) by (nonlinear_arith);
    assert(x * r < z * p) by (nonlinear_arith)
        requires
            (x * r) * q < (z * p) * q,
            q > 0,
    ;
}

/// The same for equalities: from `x/p == y/q` and `y/q == z/r`, `x/p == z/r`.
proof fn lemma_cross_equal(x: int, p: int, y: int, q: int, z: int, r: int)
    requires
        p > 0,
        q > 0,
        r > 0,
        x * q == y * p,
        y * r == z * q,
    ensures
        x * r == z * p,
{
    assert((x * q) * r == (y * p) * r) by (nonlinear_arith)
        requires
            x * q == y * p,
    ;
    assert((y * r) * p == (z * q) * p) by (nonlinear_arith)
        requires
            y * r == z * q,
    ;
    assert((x * q) * r == (x * r) * q) by (nonlinear_arith);
    assert((y * p) * r == (y * r) * p) by (nonlinear_arith);
    assert((z * q) * p == (z * p) * q) by (nonlinear_arith);
    assert(x * r == z * p) by (nonlinear_arith)
        requires
            (x * r) * q == (z * p) * q,
            q > 0,
    ;
}

/// Having the same value is an equivalence on pairs.
pub proof fn lemma_same_value_is_equivalence(a: PriceView, b: PriceView, c: PriceView)
    ensures
        a.same_value(a),
        a.same_value(b) ==> b.same_value(a),
        a.same_value(b) && b.same_value(c) ==> a.same_value(c),
{
    lemma_pow_positive(10, a.scale);
    lemma_pow_positive(10, b.scale);
    lemma_pow_positive(10, c.scale);
    if a.same_value(b) && b.same_value(c) {
        lemma_cross_equal(
            a.mantissa,
            pow(10, a.scale),
            b.mantissa,
            pow(10, b.scale),
            c.mantissa,
            pow(10, c.scale),
        );
    }
}

/// A pair in shortest form whose scale is no larger than that of another
/// shortest pair of the same value is that other pair.
proof fn lemma_shortest_unique_ordered(a: PriceView, b: PriceView)
    requires
        a.shortest(),
        b.shortest(),
        a.same_value(b),
        a.scale <= b.scale,
    ensures
        a == b,
{
    let extra = (b.scale - a.scale) as nat;
    lemma_pow_adds(10, a.scale, extra);
    lemma_pow_positive(10, a.scale);
    assert(a.mantissa * pow(10, extra) == b.mantissa) by (nonlinear_arith)
        requires
            a.mantissa * (pow(10, a.scale) * pow(10, extra)) == b.mantissa * pow(10, a.scale),
            pow(10, a.scale) > 0,
    ;
    if extra > 0 {
        let fewer = (extra - 1) as nat;
        lemma_pow_adds(10, 1, fewer);
        lemma_pow1(10);
        let k = a.mantissa * pow(10, fewer);
        assert(b.mantissa == 10 * k) by (nonlinear_arith)
            requires
                a.mantissa * (10 * pow(10, fewer)) == b.mantissa,
                k == a.mantissa * pow(10, fewer),
        ;
        assert(b.mantissa % 10 == 0);
    } else {
        lemma_pow0(10);
    }
}

/// Each number has one shortest form: two shortest pairs of the same value are
/// the same pair.
pub proof fn lemma_shortest_unique(a: PriceView, b: PriceView)
    requires
        a.shortest(),
        b.shortest(),
        a.same_value(b),
    ensures
        a == b,
{
    if a.scale <= b.scale {
        lemma_shortest_unique_ordered(a, b);
    } else {
        lemma_shortest_unique_ordered(b, a);
    }
}

/// The shortest form of a pair is in shortest form, has the value of the pair,
/// and stays in range where the pair is.
pub proof fn lemma_shortened(v: PriceView)
    ensures
        v.shortened().shortest(),
        v.shortened().same_value(v),
        v.shortened().scale <= v.scale,
        v.in_range() ==> v.shortened().wf(),
    decreases v.scale,
{
    if v.scale > 0 && v.mantissa % 10 == 0 {
        let next = PriceView { mantissa: v.mantissa / 10, scale: (v.scale - 1) as nat };
        let short = next.shortened();
        lemma_shortened(next);
        lemma_pow_adds(10, 1, next.scale);
        lemma_pow1(10);
        assert(next.same_value(v)) by (nonlinear_arith)
            requires
                v.mantissa == 10 * next.mantissa,
                pow(10, v.scale) == 10 * pow(10, next.scale),
        ;
        lemma_same_value_is_equivalence(short, next, v);
    } else {
        lemma_same_value_is_equivalence(v, v, v);
    }
}

/// Exactness: the prices made from two pairs are identical exactly when the two
/// pairs stand for the same number, whatever their written form.
pub proof fn lemma_price_exact(a: PriceView, b: PriceView)
    ensures
        a.shortened() == b.shortened() <==> a.same_value(b),
{
    let pa = a.shortened();
    let pb = b.shortened();
    lemma_shortened(a);
    lemma_shortened(b);
    lemma_same_value_is_equivalence(pa, a, b);
    lemma_same_value_is_equivalence(pb, b, pa);
    if pa == pb {
        lemma_same_value_is_equivalence(a, pa, b);
    }
    if a.same_value(b) {
        lemma_same_value_is_equivalence(pa, b, pb);
        lemma_shortest_unique(pa, pb);
    }
}

/// Numeric order is a strict total order on shortest pairs: nothing is below
/// itself, the order is transitive, and of two distinct pairs exactly one is
/// below the other.
pub proof fn lemma_below_is_strict_total_order(a: PriceView, b: PriceView, c: PriceView)
    requires
        a.shortest(),
        b.shortest(),
    ensures
        !a.below(a),
        a.below(b) ==> !b.below(a),
        a.below(b) && b.below(c) ==> a.below(c),
        a == b || a.below(b) || b.below(a),
{
    lemma_pow_positive(10, a.scale);
    lemma_pow_positive(10, b.scale);
    lemma_pow_positive(10, c.scale);
    if a.below(b) && b.below(c) {
        lemma_cross_less(
            a.mantissa,
            pow(10, a.scale),
            b.mantissa,
            pow(10, b.scale),
            c.mantissa,
            pow(10, c.scale),
        );
    }
    if !a.below(b) && !b.below(a) {
        lemma_shortest_unique(a, b);
    }
}

} // verus!
