//! Decimal numbers as JSON writes them, and their exact order.
//!
//! A number is a sign, a mantissa and a power of ten. Two numbers are
//! compared by their exact values: no rounding takes place, so the order is
//! total and every pair of numbers can be compared.

use vstd::arithmetic::power::{lemma_pow_adds, lemma_pow_increases, lemma_pow_positive, pow};
use vstd::prelude::*;

verus! {

/// The number `mantissa * 10^exponent`, negated when `positive` is false.
#[derive(Clone, Copy, Debug, PartialEq, Eq)]
pub struct Decimal {
    pub positive: bool,
    pub mantissa: u64,
    pub exponent: i16,
}

/// How a first number stands to a second.
#[derive(Clone, Copy, Debug, PartialEq, Eq, Structural)]
pub enum Relation {
    Less,
    Same,
    Greater,
}

/// How the integer `a` stands to the integer `b`.
pub open spec fn relation_of(a: int, b: int) -> Relation {
    if a < b {
        Relation::Less
    } else if a == b {
        Relation::Same
    } else {
        Relation::Greater
    }
}

/// The relation `r` seen from the other side.
pub open spec fn reversed(r: Relation) -> Relation {
    match r {
        Relation::Less => Relation::Greater,
        Relation::Same => Relation::Same,
        Relation::Greater => Relation::Less,
    }
}

/// The least exponent that a number can have, negated: adding it to an
/// exponent gives a natural number.
pub const EXPONENT_SHIFT: i32 = 32768;

proof fn lemma_scaling_keeps_relation(x: int, y: int, unit: int)
    requires
        unit > 0,
    ensures
        relation_of(x * unit, y * unit) == relation_of(x, y),
{
    assert(x < y ==> x * unit < y * unit) by (nonlinear_arith)
        requires
            unit > 0,
    ;
    assert(x > y ==> x * unit > y * unit) by (nonlinear_arith)
        requires
            unit > 0,
    ;
}

proof fn lemma_pow10_values()
    ensures
        pow(10, 19) == 10_000_000_000_000_000_000int,
        pow(10, 20) == 100_000_000_000_000_000_000int,
{
    reveal_with_fuel(pow, 21);
}

/// Ten to the power `d`.
fn power_of_ten(d: u32) -> (p: u128)
    requires
        d < 20,
    ensures
        p == pow(10, d as nat),
        0 < p <= 10_000_000_000_000_000_000u128,
{
    let mut p: u128 = 1;
    let mut k: u32 = 0;
    proof {
        reveal_with_fuel(pow, 1);
    }
    while k < d
        invariant
            k <= d < 20,
            p == pow(10, k as nat),
            0 < p,
        decreases d - k,
    {
        proof {
            lemma_pow10_values();
            lemma_pow_increases(10, (k + 1) as nat, 19);
            reveal_with_fuel(pow, 2);
        }
        p = p * 10;
        k += 1;
    }
    proof {
        lemma_pow10_values();
        lemma_pow_increases(10, d as nat, 19);
    }
    p
}

/// How `x * 10^up` stands to `y`, for `x` and `y` that are not zero.
fn scaled_relation(x: u64, up: u32, y: u64) -> (r: Relation)
    requires
        x > 0,
        y > 0,
    ensures
        r == relation_of(x * pow(10, up as nat), y as int),
{
    if up >= 20 {
        proof {
            lemma_pow10_values();
            lemma_pow_increases(10, 20, up as nat);
            assert(x * pow(10, up as nat) >= pow(10, up as nat)) by (nonlinear_arith)
                requires
                    x >= 1,
                    pow(10, up as nat) >= 0,
            ;
        }
        Relation::Greater
    } else {
        let unit = power_of_ten(up);
        assert(x * unit <= 0xffff_ffff_ffff_ffff * 10_000_000_000_000_000_000) by (nonlinear_arith)
            requires
                0 <= x <= 0xffff_ffff_ffff_ffff,
                0 <= unit <= 10_000_000_000_000_000_000,
        ;
        let left: u128 = (x as u128) * unit;
        let right: u128 = y as u128;
        if left < right {
            Relation::Less
        } else if left == right {
            Relation::Same
        } else {
            Relation::Greater
        }
    }
}

impl Decimal {
    /// The absolute value, counted in units of ten to the least exponent: a
    /// natural number.
    pub open spec fn magnitude(self) -> int {
        self.mantissa * pow(10, (self.exponent + EXPONENT_SHIFT) as nat)
    }

    /// The value, counted in units of ten to the least exponent: an integer.
    /// Two numbers stand to each other as these integers do.
    pub open spec fn scaled(self) -> int {
        if self.positive {
            self.magnitude()
        } else {
            -self.magnitude()
        }
    }

    /// The absolute value is not negative, and is zero exactly where the
    /// mantissa is.
    pub proof fn lemma_magnitude_sign(self)
        ensures
            self.magnitude() >= 0,
            self.magnitude() == 0 <==> self.mantissa == 0,
    {
        let unit = pow(10, (self.exponent + EXPONENT_SHIFT) as nat);
        lemma_pow_positive(10, (self.exponent + EXPONENT_SHIFT) as nat);
        assert(self.mantissa > 0 ==> self.mantissa * unit > 0) by (nonlinear_arith)
            requires
                unit > 0,
        ;
        assert(self.mantissa == 0 ==> self.mantissa * unit == 0) by (nonlinear_arith);
    }

    /// How the absolute value of `self` stands to that of `other`.
    pub fn magnitude_relation(&self, other: &Decimal) -> (r: Relation)
        ensures
            r == relation_of(self.magnitude(), other.magnitude()),
    {
        let ghost low = if self.exponent <= other.exponent {
            (self.exponent + EXPONENT_SHIFT) as nat
        } else {
            (other.exponent + EXPONENT_SHIFT) as nat
        };
        proof {
            self.lemma_magnitude_sign();
            other.lemma_magnitude_sign();
        }
        if self.mantissa == 0 || other.mantissa == 0 {
            if self.mantissa == other.mantissa {
                Relation::Same
            } else if self.mantissa == 0 {
                Relation::Less
            } else {
                Relation::Greater
            }
        } else if self.exponent >= other.exponent {
            let up: u32 = (self.exponent as i32 - other.exponent as i32) as u32;
            let r = scaled_relation(self.mantissa, up, other.mantissa);
            proof {
                let unit = pow(10, low);
                lemma_pow_positive(10, low);
                lemma_pow_adds(10, up as nat, low);
                assert(self.magnitude() == (self.mantissa * pow(10, up as nat)) * unit)
                    by (nonlinear_arith)
                    requires
                        self.magnitude() == self.mantissa * (pow(10, up as nat) * unit),
                ;
                lemma_scaling_keeps_relation(
                    self.mantissa * pow(10, up as nat),
                    other.mantissa as int,
                    unit,
                );
            }
            r
        } else {
            let up: u32 = (other.exponent as i32 - self.exponent as i32) as u32;
            let r = scaled_relation(other.mantissa, up, self.mantissa);
            proof {
                let unit = pow(10, low);
                lemma_pow_positive(10, low);
                lemma_pow_adds(10, up as nat, low);
                assert(other.magnitude() == (other.mantissa * pow(10, up as nat)) * unit)
                    by (nonlinear_arith)
                    requires
                        other.magnitude() == other.mantissa * (pow(10, up as nat) * unit),
                ;
                lemma_scaling_keeps_relation(
                    other.mantissa * pow(10, up as nat),
                    self.mantissa as int,
                    unit,
                );
            }
            opposite(r)
        }
    }

    /// How `self` stands to `other`.
    pub fn relation(&self, other: &Decimal) -> (r: Relation)
        ensures
            r == relation_of(self.scaled(), other.scaled()),
    {
        proof {
            self.lemma_magnitude_sign();
            other.lemma_magnitude_sign();
        }
        if self.positive && other.positive {
            self.magnitude_relation(other)
        } else if !self.positive && !other.positive {
            opposite(self.magnitude_relation(other))
        } else if self.mantissa == 0 && other.mantissa == 0 {
            Relation::Same
        } else if self.positive {
            Relation::Greater
        } else {
            Relation::Less
        }
    }
}

/// The relation `r` seen from the other side.
pub fn opposite(r: Relation) -> (o: Relation)
    ensures
        o == reversed(r),
{
    match r {
        Relation::Less => Relation::Greater,
        Relation::Same => Relation::Same,
        Relation::Greater => Relation::Less,
    }
}

} // verus!
