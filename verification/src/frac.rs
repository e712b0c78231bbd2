//! Exact non-negative rational numbers.
//!
//! Scores in this library are quotients of machine integers (point totals
//! divided by a denominator such as `max(n - 1, 4)`), so they are kept as
//! exact fractions and compared by cross-multiplication.  The cross products
//! of two `u128` components need 256 bits, so comparison goes through a
//! verified wide multiplication.

use vstd::arithmetic::div_mod::lemma_fundamental_div_mod;
use vstd::arithmetic::mul::lemma_mul_inequality;
use vstd::arithmetic::mul::lemma_mul_upper_bound;
use vstd::prelude::*;

verus! {

/// One past the largest value of a 64-bit half of a `u128`.
pub const LIMB: u128 = 0x1_0000_0000_0000_0000;

/// An exact non-negative rational number `num / den`, meaningful only
/// when `den >= 1`.  Two fractions may be equal in value without being
/// equal as structures (`1/2` and `2/4`).
#[derive(Clone, Copy, Debug, PartialEq, Eq, Structural)]
pub struct Frac {
    pub num: u128,
    pub den: u128,
}

impl Frac {
    /// The denominator is positive, so the value is defined.
    pub open spec fn valid(self) -> bool {
        self.den >= 1
    }

    /// `self <= other` as rational values, by cross-multiplication.
    pub open spec fn spec_le(self, other: Frac) -> bool {
        self.num * other.den <= other.num * self.den
    }

    /// `self < other` as rational values.
    pub open spec fn spec_lt(self, other: Frac) -> bool {
        self.num * other.den < other.num * self.den
    }

    /// `self == other` as rational values.
    pub open spec fn same_value(self, other: Frac) -> bool {
        self.num * other.den == other.num * self.den
    }

    pub fn new(num: u128, den: u128) -> (r: Frac)
        requires
            den >= 1,
        ensures
            r == (Frac { num, den }),
    {
        Frac { num, den }
    }

    /// Exact value comparison of two fractions.
    pub fn le(&self, other: &Frac) -> (r: bool)
        ensures
            r == self.spec_le(*other),
    {
        let (h1, l1) = mul_wide(self.num, other.den);
        let (h2, l2) = mul_wide(other.num, self.den);
        proof {
            lemma_wide_le(h1, l1, h2, l2);
        }
        h1 < h2 || (h1 == h2 && l1 <= l2)
    }

    /// Exact value equality of two fractions.
    pub fn same(&self, other: &Frac) -> (r: bool)
        ensures
            r == self.same_value(*other),
    {
        let (h1, l1) = mul_wide(self.num, other.den);
        let (h2, l2) = mul_wide(other.num, self.den);
        proof {
            lemma_wide_le(h1, l1, h2, l2);
            lemma_wide_le(h2, l2, h1, l1);
        }
        h1 == h2 && l1 == l2
    }



    /// Value equality of valid fractions is transitive.
    pub proof fn lemma_same_value_trans(a: Frac, b: Frac, c: Frac)
        requires
            a.valid(),
            b.valid(),
            c.valid(),
            a.same_value(b),
            b.same_value(c),
        ensures
            a.same_value(c),
    {
        assert(a.num * c.den == c.num * a.den) by (nonlinear_arith)
            requires
                a.den >= 1,
                b.den >= 1,
                c.den >= 1,
                a.num * b.den == b.num * a.den,
                b.num * c.den == c.num * b.den,
        ;
    }

    /// Strict value order of valid fractions is transitive.
    pub proof fn lemma_lt_trans(a: Frac, b: Frac, c: Frac)
        requires
            a.valid(),
            b.valid(),
            c.valid(),
            a.spec_lt(b),
            b.spec_lt(c),
        ensures
            a.spec_lt(c),
    {
        assert(a.num * c.den < c.num * a.den) by (nonlinear_arith)
            requires
                a.den >= 1,
                b.den >= 1,
                c.den >= 1,
                a.num * b.den < b.num * a.den,
                b.num * c.den < c.num * b.den,
        ;
    }

    /// A fraction equal in value to one below `c` is itself below `c`.
    pub proof fn lemma_same_then_lt(a: Frac, b: Frac, c: Frac)
        requires
            a.valid(),
            b.valid(),
            c.valid(),
            a.same_value(b),
            b.spec_lt(c),
        ensures
            a.spec_lt(c),
    {
        assert(a.num * c.den < c.num * a.den) by (nonlinear_arith)
            requires
                a.den >= 1,
                b.den >= 1,
                c.den >= 1,
                a.num * b.den == b.num * a.den,
                b.num * c.den < c.num * b.den,
        ;
    }

    /// A fraction below `b` is below anything equal in value to `b`.
    pub proof fn lemma_lt_then_same(a: Frac, b: Frac, c: Frac)
        requires
            a.valid(),
            b.valid(),
            c.valid(),
            a.spec_lt(b),
            b.same_value(c),
        ensures
            a.spec_lt(c),
    {
        assert(a.num * c.den < c.num * a.den) by (nonlinear_arith)
            requires
                a.den >= 1,
                b.den >= 1,
                c.den >= 1,
                a.num * b.den < b.num * a.den,
                b.num * c.den == c.num * b.den,
        ;
    }

}

/// `hi * 2^128 + lo` ordering agrees with lexicographic ordering of the pair.
proof fn lemma_wide_le(h1: u128, l1: u128, h2: u128, l2: u128)
    ensures
        (h1 as int) * (LIMB as int) * (LIMB as int) + (l1 as int) <= (h2 as int) * (LIMB as int)
            * (LIMB as int) + (l2 as int) <==> (h1 < h2 || (h1 == h2 && l1 <= l2)),
{
    let p: int = (LIMB as int) * (LIMB as int);
    if h1 < h2 {
        lemma_mul_inequality(h1 as int + 1, h2 as int, p);
    } else if h2 < h1 {
        lemma_mul_inequality(h2 as int + 1, h1 as int, p);
    }
}

/// The full 256-bit product of two `u128` values, returned as
/// `(hi, lo)` with `hi * 2^128 + lo == a * b`.
pub fn mul_wide(a: u128, b: u128) -> (r: (u128, u128))
    ensures
        (r.0 as int) * (LIMB as int) * (LIMB as int) + (r.1 as int) == (a as int) * (b as int),
{
    let a1 = a / LIMB;
    let a0 = a % LIMB;
    let b1 = b / LIMB;
    let b0 = b % LIMB;
    proof {
        lemma_fundamental_div_mod(a as int, LIMB as int);
        lemma_fundamental_div_mod(b as int, LIMB as int);
        assert(a1 < LIMB) by (nonlinear_arith)
            requires
                a1 == a / LIMB,
                a <= u128::MAX,
        ;
        assert(b1 < LIMB) by (nonlinear_arith)
            requires
                b1 == b / LIMB,
                b <= u128::MAX,
        ;
        lemma_mul_upper_bound(a0 as int, LIMB as int - 1, b0 as int, LIMB as int - 1);
        lemma_mul_upper_bound(a0 as int, LIMB as int - 1, b1 as int, LIMB as int - 1);
        lemma_mul_upper_bound(a1 as int, LIMB as int - 1, b0 as int, LIMB as int - 1);
        lemma_mul_upper_bound(a1 as int, LIMB as int - 1, b1 as int, LIMB as int - 1);
    }
    let ll = a0 * b0;
    let lh = a0 * b1;
    let hl = a1 * b0;
    let hh = a1 * b1;
    proof {
        lemma_fundamental_div_mod(ll as int, LIMB as int);
        lemma_fundamental_div_mod(lh as int, LIMB as int);
        lemma_fundamental_div_mod(hl as int, LIMB as int);
        assert(ll / LIMB < LIMB && lh / LIMB < LIMB - 1 && hl / LIMB < LIMB - 1)
            by (nonlinear_arith)
            requires
                ll <= (LIMB - 1) * (LIMB - 1),
                lh <= (LIMB - 1) * (LIMB - 1),
                hl <= (LIMB - 1) * (LIMB - 1),
        ;
    }
    let t = ll / LIMB + lh % LIMB + hl % LIMB;
    proof {
        lemma_fundamental_div_mod(t as int, LIMB as int);
        assert(t / LIMB <= 2) by (nonlinear_arith)
            requires
                t < 3 * LIMB,
        ;
        lemma_mul_inequality(t as int % LIMB as int, LIMB as int - 1, LIMB as int);
    }
    let lo = ll % LIMB + (t % LIMB) * LIMB;
    let hi = hh + lh / LIMB + hl / LIMB + t / LIMB;
    proof {
        let li = LIMB as int;
        let ai = a as int;
        let bi = b as int;
        assert(ai * bi == (a1 as int * b1 as int) * li * li + (a0 as int * b1 as int + a1 as int
            * b0 as int) * li + a0 as int * b0 as int) by (nonlinear_arith)
            requires
                ai == a1 as int * li + a0 as int,
                bi == b1 as int * li + b0 as int,
        ;
        assert((lh as int % li + hl as int % li + ll as int / li) * li == (lh as int % li) * li + (
        hl as int % li) * li + (ll as int / li) * li) by (nonlinear_arith);
        assert((lh as int / li + hl as int / li) * li * li == (lh as int / li) * li * li + (
        hl as int / li) * li * li) by (nonlinear_arith);
        assert((lh as int) * li == (lh as int / li) * li * li + (lh as int % li) * li)
            by (nonlinear_arith)
            requires
                lh as int == li * (lh as int / li) + lh as int % li,
        ;
        assert((hl as int) * li == (hl as int / li) * li * li + (hl as int % li) * li)
            by (nonlinear_arith)
            requires
                hl as int == li * (hl as int / li) + hl as int % li,
        ;
        assert((ll as int) == (ll as int / li) * li + ll as int % li) by (nonlinear_arith)
            requires
                ll as int == li * (ll as int / li) + ll as int % li,
        ;
        assert((t as int) * li == (t as int / li) * li * li + (t as int % li) * li)
            by (nonlinear_arith)
            requires
                t as int == li * (t as int / li) + t as int % li,
        ;
        assert((hh as int + lh as int / li + hl as int / li + t as int / li) * li * li == (
        hh as int) * li * li + (lh as int / li) * li * li + (hl as int / li) * li * li + (t as int
            / li) * li * li) by (nonlinear_arith);
    }
    (hi, lo)
}

} // verus!
