//! Exact rational numbers: the library's numeric model for axis values.
//!
//! Every coordinate the chart works with is a `Frac`, a fraction of two
//! 128-bit integers with a positive denominator. Arithmetic on fractions is
//! exact, so the scale mapping and the auto-ranging logic below admit exact
//! contracts instead of floating-point approximation.

use vstd::prelude::*;

verus! {

/// A rational number at the specification level: numerator over denominator.
pub struct Rat {
    pub n: int,
    pub d: int,
}

/// A valid specification rational has a positive denominator.
pub open spec fn rat_wf(a: Rat) -> bool {
    a.d > 0
}

/// Value equality of rationals (valid when both denominators are positive).
pub open spec fn rat_eq(a: Rat, b: Rat) -> bool {
    a.n * b.d == b.n * a.d
}

/// `a <= b` as rational values (valid when both denominators are positive).
pub open spec fn rat_le(a: Rat, b: Rat) -> bool {
    a.n * b.d <= b.n * a.d
}

/// `a < b` as rational values (valid when both denominators are positive).
pub open spec fn rat_lt(a: Rat, b: Rat) -> bool {
    a.n * b.d < b.n * a.d
}

pub open spec fn rat_add(a: Rat, b: Rat) -> Rat {
    Rat { n: a.n * b.d + b.n * a.d, d: a.d * b.d }
}

pub open spec fn rat_sub(a: Rat, b: Rat) -> Rat {
    Rat { n: a.n * b.d - b.n * a.d, d: a.d * b.d }
}

pub open spec fn rat_mul(a: Rat, b: Rat) -> Rat {
    Rat { n: a.n * b.n, d: a.d * b.d }
}

/// Division keeps the divisor's numerator in the denominator; it is the
/// inverse of `rat_mul` only when that numerator is positive.
pub open spec fn rat_div(a: Rat, b: Rat) -> Rat {
    Rat { n: a.n * b.d, d: a.d * b.n }
}

pub open spec fn rat_of_int(i: int) -> Rat {
    Rat { n: i, d: 1 }
}

/// Rounding to the nearest integer, halves away from zero.
pub open spec fn rat_round(a: Rat) -> int {
    if a.n >= 0 {
        (2 * a.n + a.d) / (2 * a.d)
    } else {
        -((2 * (-a.n) + a.d) / (2 * a.d))
    }
}

/// Rounding toward negative infinity.
pub open spec fn rat_floor(a: Rat) -> int {
    if a.n >= 0 {
        a.n / a.d
    } else {
        -(((-a.n) + a.d - 1) / a.d)
    }
}

/// The magnitude bound on fractions the chart accepts as data: axis values
/// live within +-65535 with denominators up to 65535. The bound keeps all
/// intermediate products of the exact scale arithmetic inside `i128`, and
/// every canvas coordinate within what the dot-matrix surface addresses
/// exactly.
pub const SMALL_BOUND: i128 = 65_535;

/// The magnitude bound under which a cross multiplication of two fractions
/// stays free of `i128` overflow.
pub const CMP_BOUND: i128 = 10_000_000_000_000_000_000;

/// The magnitude bound under which rounding a fraction stays free of `i128`
/// overflow.
pub const ROUND_BOUND: i128 = 10_000_000_000_000_000_000_000_000_000_000_000_000;

/// An exact fraction of two machine integers, the executable axis value.
#[derive(Clone, Copy, Debug)]
pub struct Frac {
    num: i128,
    den: i128,
}

impl View for Frac {
    type V = Rat;

    closed spec fn view(&self) -> Rat {
        Rat { n: self.num as int, d: self.den as int }
    }
}

impl Frac {
    /// A structurally valid fraction: positive denominator.
    pub open spec fn wf(self) -> bool {
        self@.d > 0
    }

    /// A fraction small enough to enter the chart pipeline.
    pub open spec fn small(self) -> bool {
        &&& -(SMALL_BOUND as int) <= self@.n <= SMALL_BOUND as int
        &&& 0 < self@.d <= SMALL_BOUND as int
    }

    /// A fraction comparisons on which cannot overflow.
    pub open spec fn cmp_bounded(self) -> bool {
        &&& -(CMP_BOUND as int) <= self@.n <= CMP_BOUND as int
        &&& 0 < self@.d <= CMP_BOUND as int
    }

    /// A fraction rounding of which cannot overflow.
    pub open spec fn round_bounded(self) -> bool {
        &&& -(ROUND_BOUND as int) <= self@.n <= ROUND_BOUND as int
        &&& 0 < self@.d <= ROUND_BOUND as int
    }

    pub fn new(num: i128, den: i128) -> (r: Frac)
        requires
            den > 0,
        ensures
            r@ == (Rat { n: num as int, d: den as int }),
    {
        Frac { num, den }
    }

    pub fn from_int(i: i128) -> (r: Frac)
        ensures
            r@ == rat_of_int(i as int),
    {
        Frac { num: i, den: 1 }
    }

    pub fn numerator(&self) -> (r: i128)
        ensures
            r as int == self@.n,
    {
        self.num
    }

    pub fn denominator(&self) -> (r: i128)
        ensures
            r as int == self@.d,
    {
        self.den
    }

    /// Value equality, by cross multiplication.
    pub fn eq_value(&self, other: &Frac) -> (r: bool)
        requires
            self.cmp_bounded(),
            other.cmp_bounded(),
        ensures
            r == rat_eq(self@, other@),
    {
        proof {
            lemma_mul_bound(self@.n, other@.d, CMP_BOUND as int, CMP_BOUND as int);
            lemma_mul_bound(other@.n, self@.d, CMP_BOUND as int, CMP_BOUND as int);
        }
        self.num * other.den == other.num * self.den
    }

    /// Value order, by cross multiplication.
    pub fn le(&self, other: &Frac) -> (r: bool)
        requires
            self.cmp_bounded(),
            other.cmp_bounded(),
        ensures
            r == rat_le(self@, other@),
    {
        proof {
            lemma_mul_bound(self@.n, other@.d, CMP_BOUND as int, CMP_BOUND as int);
            lemma_mul_bound(other@.n, self@.d, CMP_BOUND as int, CMP_BOUND as int);
        }
        self.num * other.den <= other.num * self.den
    }

    /// Strict value order, by cross multiplication.
    pub fn lt(&self, other: &Frac) -> (r: bool)
        requires
            self.cmp_bounded(),
            other.cmp_bounded(),
        ensures
            r == rat_lt(self@, other@),
    {
        proof {
            lemma_mul_bound(self@.n, other@.d, CMP_BOUND as int, CMP_BOUND as int);
            lemma_mul_bound(other@.n, self@.d, CMP_BOUND as int, CMP_BOUND as int);
        }
        self.num * other.den < other.num * self.den
    }

    /// Nearest integer, halves away from zero.
    pub fn round_val(&self) -> (r: i128)
        requires
            self.round_bounded(),
        ensures
            r as int == rat_round(self@),
    {
        if self.num >= 0 {
            let q = ((2 * self.num + self.den) as u128) / ((2 * self.den) as u128);
            q as i128
        } else {
            let q = ((2 * (-self.num) + self.den) as u128) / ((2 * self.den) as u128);
            -(q as i128)
        }
    }

    /// Integer part, rounded toward negative infinity.
    pub fn floor_val(&self) -> (r: i128)
        requires
            self.round_bounded(),
        ensures
            r as int == rat_floor(self@),
    {
        if self.num >= 0 {
            let q = (self.num as u128) / (self.den as u128);
            q as i128
        } else {
            let q = (((-self.num) + self.den - 1) as u128) / (self.den as u128);
            -(q as i128)
        }
    }
}

/// The smaller of two fractions by value; on a tie the first.
pub fn frac_min(a: Frac, b: Frac) -> (r: Frac)
    requires
        a.cmp_bounded(),
        b.cmp_bounded(),
    ensures
        r == (if rat_le(a@, b@) { a } else { b }),
{
    if a.le(&b) {
        a
    } else {
        b
    }
}

/// The larger of two fractions by value; on a tie the first.
pub fn frac_max(a: Frac, b: Frac) -> (r: Frac)
    requires
        a.cmp_bounded(),
        b.cmp_bounded(),
    ensures
        r == (if rat_le(b@, a@) { a } else { b }),
{
    if b.le(&a) {
        a
    } else {
        b
    }
}

/// Smallness at the specification level, see [`Frac::small`].
pub open spec fn rat_small(a: Rat) -> bool {
    &&& -(SMALL_BOUND as int) <= a.n <= SMALL_BOUND as int
    &&& 0 < a.d <= SMALL_BOUND as int
}

/// The product of two positive values is positive.
pub proof fn lemma_mul_pos(a: int, b: int)
    requires
        a > 0,
        b > 0,
    ensures
        a * b > 0,
{
    assert(a * b > 0) by (nonlinear_arith)
        requires
            a > 0,
            b > 0,
    ;
}

/// The product of values bounded in magnitude is bounded by the product of
/// the bounds.
pub proof fn lemma_mul_bound(a: int, b: int, ba: int, bb: int)
    requires
        -ba <= a <= ba,
        -bb <= b <= bb,
        0 <= ba,
        0 <= bb,
    ensures
        -(ba * bb) <= a * b <= ba * bb,
{
    assert(-(ba * bb) <= a * b <= ba * bb) by (nonlinear_arith)
        requires
            -ba <= a <= ba,
            -bb <= b <= bb,
            0 <= ba,
            0 <= bb,
    ;
}

} // verus!

use vstd::prelude::*;

verus! {

/// Order on rationals with positive denominators carries over sums of steps:
/// transitivity.
pub proof fn lemma_rat_le_trans(a: Rat, b: Rat, c: Rat)
    requires
        a.d > 0,
        b.d > 0,
        c.d > 0,
        rat_le(a, b),
        rat_le(b, c),
    ensures
        rat_le(a, c),
{
    assert(a.n * c.d <= c.n * a.d) by (nonlinear_arith)
        requires
            a.d > 0,
            b.d > 0,
            c.d > 0,
            a.n * b.d <= b.n * a.d,
            b.n * c.d <= c.n * b.d,
    ;
}

/// A value between two integers rounds to an integer between them.
pub proof fn lemma_round_bounds(v: Rat, lo: int, hi: int)
    requires
        v.d > 0,
        rat_le(rat_of_int(lo), v),
        rat_le(v, rat_of_int(hi)),
    ensures
        lo <= rat_round(v) <= hi,
        lo <= rat_floor(v) <= hi,
{
    if v.n >= 0 {
        let q = (2 * v.n + v.d) / (2 * v.d);
        vstd::arithmetic::div_mod::lemma_fundamental_div_mod(2 * v.n + v.d, 2 * v.d);
        assert(lo <= q <= hi) by (nonlinear_arith)
            requires
                q == (2 * v.n + v.d) / (2 * v.d),
                2 * v.n + v.d == 2 * v.d * ((2 * v.n + v.d) / (2 * v.d)) + (2 * v.n + v.d) % (2
                    * v.d),
                0 <= (2 * v.n + v.d) % (2 * v.d) < 2 * v.d,
                v.d > 0,
                v.n >= 0,
                lo * v.d <= v.n,
                v.n <= hi * v.d,
        ;
        let f = v.n / v.d;
        vstd::arithmetic::div_mod::lemma_fundamental_div_mod(v.n, v.d);
        assert(lo <= f <= hi) by (nonlinear_arith)
            requires
                f == v.n / v.d,
                v.n == v.d * (v.n / v.d) + v.n % v.d,
                0 <= v.n % v.d < v.d,
                v.d > 0,
                v.n >= 0,
                lo * v.d <= v.n,
                v.n <= hi * v.d,
        ;
    } else {
        let q = (2 * (-v.n) + v.d) / (2 * v.d);
        vstd::arithmetic::div_mod::lemma_fundamental_div_mod(2 * (-v.n) + v.d, 2 * v.d);
        assert(lo <= -q <= hi) by (nonlinear_arith)
            requires
                q == (2 * (-v.n) + v.d) / (2 * v.d),
                2 * (-v.n) + v.d == 2 * v.d * ((2 * (-v.n) + v.d) / (2 * v.d)) + (2 * (-v.n)
                    + v.d) % (2 * v.d),
                0 <= (2 * (-v.n) + v.d) % (2 * v.d) < 2 * v.d,
                v.d > 0,
                v.n < 0,
                lo * v.d <= v.n,
                v.n <= hi * v.d,
        ;
        let f = ((-v.n) + v.d - 1) / v.d;
        vstd::arithmetic::div_mod::lemma_fundamental_div_mod((-v.n) + v.d - 1, v.d);
        assert(lo <= -f <= hi) by (nonlinear_arith)
            requires
                f == ((-v.n) + v.d - 1) / v.d,
                (-v.n) + v.d - 1 == v.d * (((-v.n) + v.d - 1) / v.d) + ((-v.n) + v.d - 1) % v.d,
                0 <= ((-v.n) + v.d - 1) % v.d < v.d,
                v.d > 0,
                v.n < 0,
                lo * v.d <= v.n,
                v.n <= hi * v.d,
        ;
    }
}

} // verus!

verus! {

/// A strict step followed by a non-strict one stays strict.
pub proof fn lemma_rat_lt_le_trans(a: Rat, b: Rat, c: Rat)
    requires
        a.d > 0,
        b.d > 0,
        c.d > 0,
        rat_le(a, b),
        rat_lt(b, c),
    ensures
        rat_lt(a, c),
{
    assert(a.n * c.d < c.n * a.d) by (nonlinear_arith)
        requires
            a.d > 0,
            b.d > 0,
            c.d > 0,
            a.n * b.d <= b.n * a.d,
            b.n * c.d < c.n * b.d,
    ;
}

/// A non-strict step followed by a strict one stays strict.
pub proof fn lemma_rat_le_trans_lt(a: Rat, b: Rat, c: Rat)
    requires
        a.d > 0,
        b.d > 0,
        c.d > 0,
        rat_lt(a, b),
        rat_le(b, c),
    ensures
        rat_lt(a, c),
{
    assert(a.n * c.d < c.n * a.d) by (nonlinear_arith)
        requires
            a.d > 0,
            b.d > 0,
            c.d > 0,
            a.n * b.d < b.n * a.d,
            b.n * c.d <= c.n * b.d,
    ;
}

} // verus!

verus! {

/// Rounding to the nearest integer, ties to the even neighbour: the tie rule
/// of decimal formatting.
pub open spec fn rat_round_even(a: Rat) -> int {
    let f = rat_floor(a);
    let r2 = 2 * (a.n - f * a.d);
    if r2 > a.d {
        f + 1
    } else if r2 < a.d {
        f
    } else if f % 2 == 0 {
        f
    } else {
        f + 1
    }
}

/// The floor sits within one denominator below the value.
pub proof fn lemma_floor_prod(a: Rat)
    requires
        a.d > 0,
    ensures
        rat_floor(a) * a.d <= a.n < rat_floor(a) * a.d + a.d,
{
    if a.n >= 0 {
        let q = a.n / a.d;
        vstd::arithmetic::div_mod::lemma_fundamental_div_mod(a.n, a.d);
        assert(q * a.d <= a.n < q * a.d + a.d) by (nonlinear_arith)
            requires
                q == a.n / a.d,
                a.n == a.d * (a.n / a.d) + a.n % a.d,
                0 <= a.n % a.d < a.d,
        ;
    } else {
        let m = (-a.n) + a.d - 1;
        let q = m / a.d;
        vstd::arithmetic::div_mod::lemma_fundamental_div_mod(m, a.d);
        assert((-q) * a.d <= a.n < (-q) * a.d + a.d) by (nonlinear_arith)
            requires
                q == m / a.d,
                m == (-a.n) + a.d - 1,
                m == a.d * (m / a.d) + m % a.d,
                0 <= m % a.d < a.d,
                a.d > 0,
        ;
    }
}

/// A value between two integers rounds, ties to even, to an integer between
/// them; and its floor stays within the representation range.
pub proof fn lemma_round_even_bounds(v: Rat, lo: int, hi: int)
    requires
        v.d > 0,
        rat_le(rat_of_int(lo), v),
        rat_le(v, rat_of_int(hi)),
    ensures
        lo <= rat_round_even(v) <= hi,
        lo <= rat_floor(v) <= hi,
{
    lemma_floor_prod(v);
    let f = rat_floor(v);
    assert(lo <= f) by (nonlinear_arith)
        requires
            f * v.d <= v.n < f * v.d + v.d,
            v.d > 0,
            lo * v.d <= v.n,
    ;
    assert(f <= hi) by (nonlinear_arith)
        requires
            f * v.d <= v.n < f * v.d + v.d,
            v.d > 0,
            v.n <= hi * v.d,
    ;
    let r2 = 2 * (v.n - f * v.d);
    if r2 >= v.d {
        assert(f + 1 <= hi) by (nonlinear_arith)
            requires
                f * v.d <= v.n < f * v.d + v.d,
                2 * (v.n - f * v.d) >= v.d,
                v.d > 0,
                v.n <= hi * v.d,
        ;
    }
}

/// A number and its negation share parity.
proof fn lemma_parity_neg(f: int)
    ensures
        (f % 2 == 0) <==> ((-f) % 2 == 0),
{
    vstd::arithmetic::div_mod::lemma_fundamental_div_mod(f, 2);
    vstd::arithmetic::div_mod::lemma_fundamental_div_mod(-f, 2);
    assert((f % 2 == 0) <==> ((-f) % 2 == 0)) by (nonlinear_arith)
        requires
            f == 2 * (f / 2) + f % 2,
            0 <= f % 2 < 2,
            -f == 2 * ((-f) / 2) + (-f) % 2,
            0 <= (-f) % 2 < 2,
    ;
}

impl Frac {
    /// Nearest integer, ties to the even neighbour.
    pub fn round_even_val(&self) -> (r: i128)
        requires
            self.round_bounded(),
        ensures
            r as int == rat_round_even(self@),
    {
        proof {
            lemma_floor_prod(self@);
        }
        let f = self.floor_val();
        proof {
            assert(-(2 * ROUND_BOUND as int) <= f as int <= ROUND_BOUND as int) by (nonlinear_arith)
                requires
                    f as int * self@.d <= self@.n < f as int * self@.d + self@.d,
                    0 < self@.d <= ROUND_BOUND as int,
                    -(ROUND_BOUND as int) <= self@.n <= ROUND_BOUND as int,
            ;
        }
        let rem = self.num - f * self.den;
        let r2 = 2 * rem;
        if r2 > self.den {
            f + 1
        } else if r2 < self.den {
            f
        } else {
            let even = if f >= 0 {
                (f as u128) % 2 == 0
            } else {
                proof {
                    lemma_parity_neg(f as int);
                }
                ((-f) as u128) % 2 == 0
            };
            if even {
                f
            } else {
                f + 1
            }
        }
    }
}

} // verus!
