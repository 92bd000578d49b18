//! Exact musical time. The notation engine counts time in fractions of a whole
//! note; positions are compared and durations added without rounding.

use vstd::arithmetic::div_mod::{lemma_fundamental_div_mod, lemma_mod_bound};
use vstd::prelude::*;

verus! {

/// A rational number: `num / den`, with `den` above zero.
pub struct Ratio {
    pub num: int,
    pub den: int,
}

impl Ratio {
    /// Whether this number is below the other.
    pub open spec fn lt(self, other: Ratio) -> bool {
        self.num * other.den < other.num * self.den
    }

    /// Whether the two are the same number.
    pub open spec fn same(self, other: Ratio) -> bool {
        self.num * other.den == other.num * self.den
    }

    /// The sum of the two.
    pub open spec fn plus(self, other: Ratio) -> Ratio {
        Ratio { num: self.num * other.den + other.num * self.den, den: self.den * other.den }
    }
}

/// A fraction as the notation engine holds it: a whole number and a part of the
/// next, `whole_value + numerator / denominator`.
#[derive(Clone, Copy, Debug, PartialEq, Eq, Structural)]
pub struct Fraction {
    pub numerator: u32,
    pub denominator: u32,
    pub whole_value: u32,
}

impl Fraction {
    /// Whether the fraction stands for a number: its denominator is not zero.
    pub open spec fn has_value(&self) -> bool {
        self.denominator > 0
    }

    /// The number the fraction stands for.
    pub open spec fn ratio(&self) -> Ratio {
        Ratio {
            num: self.whole_value * self.denominator + self.numerator,
            den: self.denominator as int,
        }
    }
}

/// A point in time or a duration, at or above zero, held exactly.
#[derive(Clone, Copy, Debug)]
pub struct Time {
    whole: u64,
    num: u64,
    den: u64,
}

impl View for Time {
    type V = Ratio;

    /// The number held: `whole + num / den`.
    closed spec fn view(&self) -> Ratio {
        Ratio { num: self.whole * self.den + self.num, den: self.den as int }
    }
}

impl Time {
    /// The part beside the whole number is below one.
    #[verifier::type_invariant]
    spec fn proper(self) -> bool {
        self.num < self.den
    }

    /// Whether the sum with `other` can be held: both denominators and both whole
    /// parts are below 2^32, which holds of every time made from one `Fraction`.
    pub closed spec fn small(&self) -> bool {
        self.den <= 0xffff_ffff && self.whole <= 0x1_ffff_fffe
    }

    /// Whether this time is before the other.
    pub fn is_before(&self, other: &Time) -> (r: bool)
        ensures
            r == self@.lt(other@),
    {
        proof {
            use_type_invariant(self);
            use_type_invariant(other);
            lemma_mixed_order(
                self.whole as int,
                self.num as int,
                self.den as int,
                other.whole as int,
                other.num as int,
                other.den as int,
            );
        }
        if self.whole != other.whole {
            self.whole < other.whole
        } else {
            assert(self.num * other.den <= 0xffff_ffff_ffff_ffff * 0xffff_ffff_ffff_ffff)
                by (nonlinear_arith)
                requires
                    self.num <= 0xffff_ffff_ffff_ffff,
                    other.den <= 0xffff_ffff_ffff_ffff,
            ;
            assert(other.num * self.den <= 0xffff_ffff_ffff_ffff * 0xffff_ffff_ffff_ffff)
                by (nonlinear_arith)
                requires
                    other.num <= 0xffff_ffff_ffff_ffff,
                    self.den <= 0xffff_ffff_ffff_ffff,
            ;
            (self.num as u128) * (other.den as u128) < (other.num as u128) * (self.den as u128)
        }
    }

    /// Whether this time and the other are the same.
    pub fn is_same(&self, other: &Time) -> (r: bool)
        ensures
            r == self@.same(other@),
    {
        proof {
            use_type_invariant(self);
            use_type_invariant(other);
            lemma_mixed_order(
                self.whole as int,
                self.num as int,
                self.den as int,
                other.whole as int,
                other.num as int,
                other.den as int,
            );
        }
        if self.whole != other.whole {
            false
        } else {
            assert(self.num * other.den <= 0xffff_ffff_ffff_ffff * 0xffff_ffff_ffff_ffff)
                by (nonlinear_arith)
                requires
                    self.num <= 0xffff_ffff_ffff_ffff,
                    other.den <= 0xffff_ffff_ffff_ffff,
            ;
            assert(other.num * self.den <= 0xffff_ffff_ffff_ffff * 0xffff_ffff_ffff_ffff)
                by (nonlinear_arith)
                requires
                    other.num <= 0xffff_ffff_ffff_ffff,
                    self.den <= 0xffff_ffff_ffff_ffff,
            ;
            (self.num as u128) * (other.den as u128) == (other.num as u128) * (self.den as u128)
        }
    }

    /// The sum of two times.
    pub fn plus(&self, other: &Time) -> (r: Time)
        requires
            self.small(),
            other.small(),
        ensures
            r@ == self@.plus(other@),
    {
        proof {
            use_type_invariant(self);
            use_type_invariant(other);
        }
        let den_a = self.den as u128;
        let den_b = other.den as u128;
        assert(0 < den_a * den_b <= 0xffff_ffff * 0xffff_ffff) by (nonlinear_arith)
            requires
                0 < den_a <= 0xffff_ffff,
                0 < den_b <= 0xffff_ffff,
        ;
        assert(self.num * den_b <= 0xffff_ffff * 0xffff_ffff) by (nonlinear_arith)
            requires
                self.num <= 0xffff_ffff,
                den_b <= 0xffff_ffff,
        ;
        assert(other.num * den_a <= 0xffff_ffff * 0xffff_ffff) by (nonlinear_arith)
            requires
                other.num <= 0xffff_ffff,
                den_a <= 0xffff_ffff,
        ;
        let den = den_a * den_b;
        let parts = (self.num as u128) * den_b + (other.num as u128) * den_a;
        assert(parts < 2 * den) by (nonlinear_arith)
            requires
                parts == self.num * den_b + other.num * den_a,
                den == den_a * den_b,
                self.num < den_a,
                other.num < den_b,
        ;
        let whole = self.whole + other.whole;
        let r = if parts >= den {
            Time { whole: whole + 1, num: (parts - den) as u64, den: den as u64 }
        } else {
            Time { whole, num: parts as u64, den: den as u64 }
        };
        assert((whole + 1) * den + (parts - den) == whole * den + parts) by (nonlinear_arith);
        assert(r@.num == whole * den + parts);
        assert(r@ == self@.plus(other@)) by (nonlinear_arith)
            requires
                r@.num == whole * den + parts,
                r@.den == den,
                whole == self.whole + other.whole,
                den == den_a * den_b,
                parts == self.num * den_b + other.num * den_a,
                self@.num == self.whole * den_a + self.num,
                self@.den == den_a,
                other@.num == other.whole * den_b + other.num,
                other@.den == den_b,
                self@.plus(other@).num == self@.num * other@.den + other@.num * self@.den,
                self@.plus(other@).den == self@.den * other@.den,
        {
            assert(r@.num == self@.plus(other@).num);
            assert(r@.den == self@.plus(other@).den);
        }
        r
    }
}

/// Numbers written as a whole and a part below one compare by their wholes, and
/// by their parts where the wholes are the same.
proof fn lemma_mixed_order(wa: int, na: int, da: int, wb: int, nb: int, db: int)
    requires
        0 <= wa,
        0 <= wb,
        0 <= na < da,
        0 <= nb < db,
    ensures
        wa < wb ==> (wa * da + na) * db < (wb * db + nb) * da,
        wa > wb ==> (wa * da + na) * db > (wb * db + nb) * da,
        wa == wb ==> ((wa * da + na) * db < (wb * db + nb) * da <==> na * db < nb * da),
        wa == wb ==> ((wa * da + na) * db == (wb * db + nb) * da <==> na * db == nb * da),
{
    assert((wa * da + na) * db == wa * (da * db) + na * db) by (nonlinear_arith);
    assert((wb * db + nb) * da == wb * (da * db) + nb * da) by (nonlinear_arith);
    assert(na * db < da * db) by (nonlinear_arith)
        requires
            0 <= na < da,
            0 < db,
    ;
    assert(nb * da < da * db) by (nonlinear_arith)
        requires
            0 <= nb < db,
            0 < da,
    ;
    assert(0 <= na * db && 0 <= nb * da) by (nonlinear_arith)
        requires
            0 <= na,
            0 <= nb,
            0 < da,
            0 < db,
    ;
    if wa < wb {
        assert(wa * (da * db) + da * db <= wb * (da * db)) by (nonlinear_arith)
            requires
                wa + 1 <= wb,
                0 < da * db,
        ;
    }
    if wa > wb {
        assert(wb * (da * db) + da * db <= wa * (da * db)) by (nonlinear_arith)
            requires
                wb + 1 <= wa,
                0 < da * db,
        ;
    }
}

impl Fraction {
    /// The time the fraction stands for, or `None` where its denominator is zero.
    pub fn to_rust_fraction(&self) -> (r: Option<Time>)
        ensures
            r is Some <==> self.has_value(),
            r matches Some(t) ==> t@ == self.ratio() && t.small(),
    {
        if self.denominator == 0 {
            return None;
        }
        let den = self.denominator as u64;
        let carried = self.numerator as u64 / den;
        let num = self.numerator as u64 % den;
        let whole = self.whole_value as u64 + carried;
        proof {
            lemma_fundamental_div_mod(self.numerator as int, den as int);
            lemma_mod_bound(self.numerator as int, den as int);
            assert(whole * den + num == self.whole_value * den + self.numerator) by (nonlinear_arith)
                requires
                    whole == self.whole_value + carried,
                    self.numerator == den * carried + num,
            ;
            assert(carried <= self.numerator) by (nonlinear_arith)
                requires
                    self.numerator == den * carried + num,
                    den >= 1,
                    num >= 0,
                    carried >= 0,
            ;
        }
        Some(Time { whole, num, den })
    }

    /// The sum of two fractions that stand for numbers.
    pub fn plus(&self, other: &Fraction) -> (r: Time)
        requires
            self.has_value(),
            other.has_value(),
        ensures
            r@ == self.ratio().plus(other.ratio()),
    {
        let a = self.to_rust_fraction().unwrap();
        let b = other.to_rust_fraction().unwrap();
        a.plus(&b)
    }
}

/// Being the same number is an equivalence among ratios with denominators above
/// zero, and the order of ratios does not tell the same number apart.
pub proof fn lemma_same_number(a: Ratio, b: Ratio, c: Ratio)
    requires
        a.den > 0,
        b.den > 0,
        c.den > 0,
    ensures
        a.same(a),
        a.same(b) ==> b.same(a),
        a.same(b) && b.same(c) ==> a.same(c),
        a.same(b) ==> (a.lt(c) <==> b.lt(c)),
        a.same(b) ==> (c.lt(a) <==> c.lt(b)),
{
    if a.same(b) {
        assert(a.num * c.den * b.den == b.num * c.den * a.den) by (nonlinear_arith)
            requires
                a.num * b.den == b.num * a.den,
        ;
        assert(c.num * a.den * b.den == c.num * b.den * a.den) by (nonlinear_arith);
        assert(a.lt(c) <==> b.lt(c)) by (nonlinear_arith)
            requires
                a.num * c.den * b.den == b.num * c.den * a.den,
                c.num * a.den * b.den == c.num * b.den * a.den,
                a.den > 0,
                b.den > 0,
                a.lt(c) <==> a.num * c.den < c.num * a.den,
                b.lt(c) <==> b.num * c.den < c.num * b.den,
        ;
        assert(c.lt(a) <==> c.lt(b)) by (nonlinear_arith)
            requires
                a.num * c.den * b.den == b.num * c.den * a.den,
                c.num * a.den * b.den == c.num * b.den * a.den,
                a.den > 0,
                b.den > 0,
                c.lt(a) <==> c.num * a.den < a.num * c.den,
                c.lt(b) <==> c.num * b.den < b.num * c.den,
        ;
        if b.same(c) {
            assert(a.same(c)) by (nonlinear_arith)
                requires
                    a.num * b.den == b.num * a.den,
                    b.num * c.den == c.num * b.den,
                    b.den > 0,
                    a.same(c) <==> a.num * c.den == c.num * a.den,
            ;
        }
    }
}

} // verus!
