//! Exact rational arithmetic.
//!
//! `Ratio` is an executable rational number: a numerator and a positive
//! denominator, each bounded so that every cross product of two well-formed
//! values fits comfortably in `i128`.  Results are reduced by a common
//! divisor after every operation; an operation returns `None` when the
//! reduced result still falls outside the component bound.
//!
//! `Rat` is the mathematical counterpart used in specifications: a pair of
//! unbounded integers compared, added and multiplied by the usual
//! cross-product rules.  Two `Rat` values denote the same rational number
//! when `rat_eqv` holds; operations on `Rat` are structural, so contracts
//! state that an executable result is `rat_eqv` to the specified formula.

use vstd::prelude::*;
use vstd::arithmetic::div_mod::{lemma_fundamental_div_mod, lemma_div_multiples_vanish};

verus! {

/// Largest numerator magnitude and denominator of a well-formed `Ratio`
/// (2^62, so that products of two components stay far below `i128::MAX`).
pub const COMPONENT_BOUND: i64 = 4611686018427387904;

/// Operand bound (2^30) under which a single arithmetic operation is
/// guaranteed to succeed: the unreduced result of one addition,
/// subtraction, multiplication or division of two values within this
/// bound stays within `COMPONENT_BOUND`.
pub const SMALL_BOUND: i64 = 1073741824;

/// Operand bound (2^15) under which two chained operations are guaranteed
/// to succeed: a product of two values within this bound stays within
/// `SMALL_BOUND`, so one further operation on it cannot fail.
pub const MODEST_BOUND: i64 = 32768;

/// A rational number in specifications: numerator `n` over denominator `d`.
pub struct Rat {
    pub n: int,
    pub d: int,
}

/// A `Rat` is well formed when its denominator is positive.
pub open spec fn rat_wf(a: Rat) -> bool {
    a.d >= 1
}

/// The rational `n / 1`.
pub open spec fn int_rat(n: int) -> Rat {
    Rat { n, d: 1 }
}

/// `a` and `b` denote the same rational number.
pub open spec fn rat_eqv(a: Rat, b: Rat) -> bool {
    a.n * b.d == b.n * a.d
}

/// `a <= b` as rational numbers (for positive denominators).
pub open spec fn rat_le(a: Rat, b: Rat) -> bool {
    a.n * b.d <= b.n * a.d
}

/// `a < b` as rational numbers (for positive denominators).
pub open spec fn rat_lt(a: Rat, b: Rat) -> bool {
    a.n * b.d < b.n * a.d
}

pub open spec fn rat_add(a: Rat, b: Rat) -> Rat {
    Rat { n: a.n * b.d + b.n * a.d, d: a.d * b.d }
}

pub open spec fn rat_neg(a: Rat) -> Rat {
    Rat { n: -a.n, d: a.d }
}

pub open spec fn rat_sub(a: Rat, b: Rat) -> Rat {
    rat_add(a, rat_neg(b))
}

pub open spec fn rat_mul(a: Rat, b: Rat) -> Rat {
    Rat { n: a.n * b.n, d: a.d * b.d }
}

/// The reciprocal, with the sign moved to the numerator.
pub open spec fn rat_inv(a: Rat) -> Rat {
    if a.n >= 0 {
        Rat { n: a.d, d: a.n }
    } else {
        Rat { n: -a.d, d: -a.n }
    }
}

pub open spec fn rat_div(a: Rat, b: Rat) -> Rat {
    rat_mul(a, rat_inv(b))
}

/// `a / k` for an integer `k >= 1`.
pub open spec fn rat_div_int(a: Rat, k: int) -> Rat {
    Rat { n: a.n, d: a.d * k }
}

pub open spec fn rat_abs(a: Rat) -> Rat {
    Rat { n: if a.n >= 0 { a.n } else { -a.n }, d: a.d }
}

pub open spec fn rat_sq(a: Rat) -> Rat {
    rat_mul(a, a)
}

/// `a * |a|`: the square of `a` carrying the sign of `a`.  A test statistic
/// `t` that involves a square root is recorded exactly as `t * |t|`.
pub open spec fn rat_signed_sq(a: Rat) -> Rat {
    rat_mul(a, rat_abs(a))
}

pub open spec fn rat_min(a: Rat, b: Rat) -> Rat {
    if rat_le(a, b) {
        a
    } else {
        b
    }
}

/// Absolute value of an integer.
pub open spec fn int_abs(x: int) -> int {
    if x >= 0 {
        x
    } else {
        -x
    }
}

/// `d` divides `x`.
pub open spec fn divides(d: int, x: int) -> bool {
    exists|k: int| x == #[trigger] (d * k)
}

/// Executable rational number; see the module comment.
#[derive(Clone, Copy, Debug)]
pub struct Ratio {
    num: i64,
    den: i64,
}

impl View for Ratio {
    type V = Rat;

    closed spec fn view(&self) -> Rat {
        Rat { n: self.num as int, d: self.den as int }
    }
}

impl Ratio {
    /// Well-formedness: positive denominator, components within the bound.
    pub open spec fn wf(self) -> bool {
        1 <= self@.d <= COMPONENT_BOUND as int
        && -(COMPONENT_BOUND as int) <= self@.n <= COMPONENT_BOUND as int
    }

    /// The components lie within `SMALL_BOUND`, so one further operation
    /// on this value cannot fail.
    pub open spec fn small(self) -> bool {
        1 <= self@.d <= SMALL_BOUND as int
        && -(SMALL_BOUND as int) <= self@.n <= SMALL_BOUND as int
    }

    /// The components lie within `MODEST_BOUND`, so two chained
    /// operations on such values cannot fail.
    pub open spec fn modest(self) -> bool {
        1 <= self@.d <= MODEST_BOUND as int
        && -(MODEST_BOUND as int) <= self@.n <= MODEST_BOUND as int
    }

    /// The components lie within `b`: the premise of the success
    /// guarantees of longer operation chains, whose bounds depend on the
    /// chain's length.
    pub open spec fn bounded(self, b: int) -> bool {
        1 <= self@.d <= b && -b <= self@.n <= b
    }

    pub fn num(&self) -> (r: i64)
        ensures
            r as int == self@.n,
    {
        self.num
    }

    pub fn den(&self) -> (r: i64)
        ensures
            r as int == self@.d,
    {
        self.den
    }

    /// The rational `n / 1`.
    pub fn from_i32(n: i32) -> (r: Ratio)
        ensures
            r.wf(),
            r@ == int_rat(n as int),
    {
        Ratio { num: n as i64, den: 1 }
    }

    /// The rational `n / 1`, for `n` within the component bound.
    pub fn from_u64(n: u64) -> (r: Ratio)
        requires
            n <= COMPONENT_BOUND as u64,
        ensures
            r.wf(),
            r@ == int_rat(n as int),
    {
        Ratio { num: n as i64, den: 1 }
    }

    /// The reduced rational `num / den`; `None` when `den` is zero or the
    /// reduced value exceeds the component bound.
    pub fn new(num: i64, den: i64) -> (r: Option<Ratio>)
        ensures
            den == 0 ==> r is None,
            r matches Some(v) ==> v.wf() && v@.n * (den as int) == (num as int) * v@.d && int_abs(
                v@.n,
            ) <= int_abs(num as int) && v@.d <= int_abs(den as int),
            1 <= den <= COMPONENT_BOUND && -COMPONENT_BOUND <= num <= COMPONENT_BOUND
                ==> r is Some,
    {
        if den == 0 {
            return None;
        }
        let mut p: i128 = num as i128;
        let mut q: i128 = den as i128;
        if q < 0 {
            p = -p;
            q = -q;
        }
        let r = reduce_parts(p, q);
        proof {
            if den < 0 {
                if let Some(v) = r {
                    assert(v@.n * (den as int) == (num as int) * v@.d) by (nonlinear_arith)
                        requires
                            v@.n * (q as int) == (p as int) * v@.d,
                            q as int == -(den as int),
                            p as int == -(num as int),
                    ;
                }
            }
        }
        r
    }

    pub fn add(self, other: Ratio) -> (r: Option<Ratio>)
        requires
            self.wf(),
            other.wf(),
        ensures
            r matches Some(v) ==> v.wf() && rat_eqv(v@, rat_add(self@, other@)) && int_abs(v@.n) <= int_abs(
                rat_add(self@, other@).n,
            ) && v@.d <= rat_add(self@, other@).d,
            self.small() && other.small() ==> r is Some,
            int_abs(rat_add(self@, other@).n) <= COMPONENT_BOUND as int && rat_add(self@, other@).d <= COMPONENT_BOUND as int
                ==> r is Some,
    {
        proof {
            lemma_product_in_component_range(self@.n, other@.d);
            lemma_product_in_component_range(other@.n, self@.d);
            lemma_product_in_component_range(self@.d, other@.d);
        }
        let p: i128 = self.num as i128 * other.den as i128 + other.num as i128 * self.den as i128;
        let q: i128 = self.den as i128 * other.den as i128;
        proof {
            if self.small() && other.small() {
                lemma_small_products(self@.n, other@.d);
                lemma_small_products(other@.n, self@.d);
                lemma_small_products(self@.d, other@.d);
            }
        }
        reduce_parts(p, q)
    }

    pub fn sub(self, other: Ratio) -> (r: Option<Ratio>)
        requires
            self.wf(),
            other.wf(),
        ensures
            r matches Some(v) ==> v.wf() && rat_eqv(v@, rat_sub(self@, other@)) && int_abs(v@.n) <= int_abs(
                rat_sub(self@, other@).n,
            ) && v@.d <= rat_sub(self@, other@).d,
            r matches Some(v) ==> int_abs(v@.n) <= int_abs(self@.n) * other@.d + int_abs(other@.n)
                * self@.d && v@.d <= self@.d * other@.d,
            self.small() && other.small() ==> r is Some,
            int_abs(rat_sub(self@, other@).n) <= COMPONENT_BOUND as int && rat_sub(self@, other@).d <= COMPONENT_BOUND as int
                ==> r is Some,
            int_abs(self@.n) * other@.d + int_abs(other@.n) * self@.d <= COMPONENT_BOUND as int
                && self@.d * other@.d <= COMPONENT_BOUND as int ==> r is Some,
    {
        proof {
            lemma_product_in_component_range(self@.n, other@.d);
            lemma_product_in_component_range(other@.n, self@.d);
            lemma_product_in_component_range(self@.d, other@.d);
        }
        let p: i128 = self.num as i128 * other.den as i128 - other.num as i128 * self.den as i128;
        let q: i128 = self.den as i128 * other.den as i128;
        proof {
            assert((-other@.n) * self@.d == -(other@.n * self@.d)) by (nonlinear_arith);
            assert(int_abs(p as int) <= int_abs(self@.n) * other@.d + int_abs(other@.n) * self@.d)
                by (nonlinear_arith)
                requires
                    p as int == self@.n * other@.d - other@.n * self@.d,
                    self@.d >= 1,
                    other@.d >= 1,
            ;
            if self.small() && other.small() {
                lemma_small_products(self@.n, other@.d);
                lemma_small_products(other@.n, self@.d);
                lemma_small_products(self@.d, other@.d);
            }
        }
        reduce_parts(p, q)
    }

    pub fn mul(self, other: Ratio) -> (r: Option<Ratio>)
        requires
            self.wf(),
            other.wf(),
        ensures
            r matches Some(v) ==> v.wf() && rat_eqv(v@, rat_mul(self@, other@)) && int_abs(v@.n) <= int_abs(
                rat_mul(self@, other@).n,
            ) && v@.d <= rat_mul(self@, other@).d,
            r matches Some(v) ==> int_abs(v@.n) <= int_abs(self@.n) * int_abs(other@.n) && v@.d
                <= self@.d * other@.d,
            self.small() && other.small() ==> r is Some,
            int_abs(rat_mul(self@, other@).n) <= COMPONENT_BOUND as int && rat_mul(self@, other@).d <= COMPONENT_BOUND as int
                ==> r is Some,
            int_abs(self@.n) * int_abs(other@.n) <= COMPONENT_BOUND as int && self@.d * other@.d
                <= COMPONENT_BOUND as int ==> r is Some,
            self.modest() && other.modest() ==> (r matches Some(v) && v.small()),
    {
        proof {
            lemma_product_in_component_range(self@.n, other@.n);
            lemma_product_in_component_range(self@.d, other@.d);
        }
        let p: i128 = self.num as i128 * other.num as i128;
        let q: i128 = self.den as i128 * other.den as i128;
        proof {
            if self.small() && other.small() {
                lemma_small_products(self@.n, other@.n);
                lemma_small_products(self@.d, other@.d);
            }
            if self.modest() && other.modest() {
                lemma_modest_products(self@.n, other@.n);
                lemma_modest_products(self@.d, other@.d);
            }
            assert(int_abs(p as int) == int_abs(self@.n) * int_abs(other@.n))
                by (nonlinear_arith)
                requires
                    p as int == self@.n * other@.n,
            ;
        }
        reduce_parts(p, q)
    }

    pub fn div(self, other: Ratio) -> (r: Option<Ratio>)
        requires
            self.wf(),
            other.wf(),
        ensures
            other@.n == 0 ==> r is None,
            r matches Some(v) ==> v.wf() && rat_eqv(v@, rat_div(self@, other@)) && int_abs(v@.n)
                <= int_abs(rat_div(self@, other@).n) && v@.d <= int_abs(rat_div(self@, other@).d),
            r matches Some(v) ==> int_abs(v@.n) <= int_abs(self@.n) * other@.d && v@.d <= self@.d
                * int_abs(other@.n),
            self.small() && other.small() && other@.n != 0 ==> r is Some,
            int_abs(rat_div(self@, other@).n) <= COMPONENT_BOUND as int && int_abs(
                rat_div(self@, other@).d,
            ) <= COMPONENT_BOUND as int && other@.n != 0 ==> r is Some,
            int_abs(self@.n) * other@.d <= COMPONENT_BOUND as int && self@.d * int_abs(other@.n)
                <= COMPONENT_BOUND as int && other@.n != 0 ==> r is Some,
    {
        if other.num == 0 {
            return None;
        }
        proof {
            lemma_product_in_component_range(self@.n, other@.d);
            lemma_product_in_component_range(self@.d, other@.n);
            lemma_product_in_component_range(self@.d, -other@.n);
        }
        let p: i128;
        let q: i128;
        if other.num > 0 {
            p = self.num as i128 * other.den as i128;
            q = self.den as i128 * other.num as i128;
        } else {
            p = -(self.num as i128 * other.den as i128);
            q = self.den as i128 * (-(other.num as i128));
        }
        proof {
            assert(q as int >= 1) by (nonlinear_arith)
                requires
                    self@.d >= 1,
                    other@.n > 0 ==> q as int == self@.d * other@.n,
                    other@.n < 0 ==> q as int == self@.d * (-other@.n),
                    other@.n != 0,
            ;
            if self.small() && other.small() {
                lemma_small_products(self@.n, other@.d);
                lemma_small_products(self@.d, other@.n);
                lemma_small_products(self@.d, -other@.n);
            }
            assert(int_abs(p as int) == int_abs(self@.n) * other@.d && q as int == self@.d
                * int_abs(other@.n)) by (nonlinear_arith)
                requires
                    self@.d >= 1,
                    other@.d >= 1,
                    other@.n != 0,
                    other@.n > 0 ==> p as int == self@.n * other@.d && q as int == self@.d
                        * other@.n,
                    other@.n < 0 ==> p as int == -(self@.n * other@.d) && q as int == self@.d
                        * (-other@.n),
            ;
            assert(int_abs(p as int) == int_abs(rat_div(self@, other@).n) && q as int == int_abs(
                rat_div(self@, other@).d,
            )) by (nonlinear_arith)
                requires
                    self@.d >= 1,
                    other@.d >= 1,
                    other@.n != 0,
                    other@.n > 0 ==> p as int == self@.n * other@.d && q as int == self@.d
                        * other@.n,
                    other@.n < 0 ==> p as int == -(self@.n * other@.d) && q as int == self@.d
                        * (-other@.n),
                    rat_div(self@, other@) == rat_mul(self@, rat_inv(other@)),
                    rat_inv(other@) == (if other@.n >= 0 {
                        Rat { n: other@.d, d: other@.n }
                    } else {
                        Rat { n: -other@.d, d: -other@.n }
                    }),
                    rat_mul(self@, rat_inv(other@)) == (Rat {
                        n: self@.n * rat_inv(other@).n,
                        d: self@.d * rat_inv(other@).d,
                    }),
            ;
        }
        let r = reduce_parts(p, q);
        proof {
            if let Some(v) = r {
                let dv = rat_div(self@, other@);
                assert(v@.n * dv.d == dv.n * v@.d) by (nonlinear_arith)
                    requires
                        v@.n * (q as int) == (p as int) * v@.d,
                        other@.n > 0 ==> p as int == self@.n * other@.d && q as int == self@.d
                            * other@.n,
                        other@.n < 0 ==> p as int == -(self@.n * other@.d) && q as int == self@.d
                            * (-other@.n),
                        other@.n != 0,
                        dv.n == self@.n * rat_inv(other@).n && dv.d == self@.d * rat_inv(other@).d,
                        rat_inv(other@) == (if other@.n >= 0 {
                            Rat { n: other@.d, d: other@.n }
                        } else {
                            Rat { n: -other@.d, d: -other@.n }
                        }),
                ;
            }
        }
        r
    }

    /// `self / k` for a positive integer `k`.
    pub fn div_u32(self, k: u32) -> (r: Option<Ratio>)
        requires
            self.wf(),
            k >= 1,
        ensures
            r matches Some(v) ==> v.wf() && rat_eqv(v@, rat_div_int(self@, k as int)) && int_abs(
                v@.n,
            ) <= int_abs(self@.n) && v@.d <= self@.d * (k as int),
            self.small() ==> r is Some,
            int_abs(self@.n) <= COMPONENT_BOUND as int && self@.d * (k as int)
                <= COMPONENT_BOUND as int ==> r is Some,
    {
        proof {
            lemma_product_in_component_range(self@.d, k as int);
            if self.small() {
                assert(self@.d * (k as int) <= COMPONENT_BOUND as int) by (nonlinear_arith)
                    requires
                        1 <= self@.d <= SMALL_BOUND as int,
                        1 <= k as int && (k as int) < 4294967296,
                ;
            }
        }
        let p: i128 = self.num as i128;
        let q: i128 = self.den as i128 * k as i128;
        reduce_parts(p, q)
    }

    pub fn neg(self) -> (r: Ratio)
        requires
            self.wf(),
        ensures
            r.wf(),
            r@ == rat_neg(self@),
    {
        Ratio { num: -self.num, den: self.den }
    }

    pub fn abs(self) -> (r: Ratio)
        requires
            self.wf(),
        ensures
            r.wf(),
            r@ == rat_abs(self@),
    {
        if self.num < 0 {
            Ratio { num: -self.num, den: self.den }
        } else {
            self
        }
    }

    pub fn le(self, other: Ratio) -> (r: bool)
        requires
            self.wf(),
            other.wf(),
        ensures
            r == rat_le(self@, other@),
    {
        proof {
            lemma_product_in_component_range(self@.n, other@.d);
            lemma_product_in_component_range(other@.n, self@.d);
        }
        self.num as i128 * other.den as i128 <= other.num as i128 * self.den as i128
    }

    pub fn lt(self, other: Ratio) -> (r: bool)
        requires
            self.wf(),
            other.wf(),
        ensures
            r == rat_lt(self@, other@),
    {
        proof {
            lemma_product_in_component_range(self@.n, other@.d);
            lemma_product_in_component_range(other@.n, self@.d);
        }
        (self.num as i128 * other.den as i128) < other.num as i128 * self.den as i128
    }

    pub fn eqv(self, other: Ratio) -> (r: bool)
        requires
            self.wf(),
            other.wf(),
        ensures
            r == rat_eqv(self@, other@),
    {
        proof {
            lemma_product_in_component_range(self@.n, other@.d);
            lemma_product_in_component_range(other@.n, self@.d);
        }
        self.num as i128 * other.den as i128 == other.num as i128 * self.den as i128
    }

    /// Whether `self` denotes zero.
    pub fn is_zero(self) -> (r: bool)
        requires
            self.wf(),
        ensures
            r == rat_eqv(self@, int_rat(0)),
    {
        self.num == 0
    }

    pub fn min(self, other: Ratio) -> (r: Ratio)
        requires
            self.wf(),
            other.wf(),
        ensures
            r.wf(),
            r@ == rat_min(self@, other@),
    {
        if self.le(other) {
            self
        } else {
            other
        }
    }
}

/// A product of two integers within `MODEST_BOUND` stays within
/// `SMALL_BOUND`.
pub proof fn lemma_modest_products(x: int, y: int)
    by (nonlinear_arith)
    requires
        -(MODEST_BOUND as int) <= x <= MODEST_BOUND as int,
        -(MODEST_BOUND as int) <= y <= MODEST_BOUND as int,
    ensures
        -(SMALL_BOUND as int) <= x * y <= SMALL_BOUND as int,
{
}

/// A product of two integers within `SMALL_BOUND` stays within the
/// component bound.
pub proof fn lemma_small_products(x: int, y: int)
    by (nonlinear_arith)
    requires
        -(SMALL_BOUND as int) <= x <= SMALL_BOUND as int,
        -(SMALL_BOUND as int) <= y <= SMALL_BOUND as int,
    ensures
        -(COMPONENT_BOUND as int) <= x * y <= COMPONENT_BOUND as int,
        -(COMPONENT_BOUND as int) <= 2 * (x * y) <= COMPONENT_BOUND as int,
{
}

/// Bounds the product of two integers that lie within the component bound,
/// and keeps products of positive factors positive.
pub proof fn lemma_product_in_component_range(x: int, y: int)
    by (nonlinear_arith)
    requires
        -(COMPONENT_BOUND as int) <= x <= COMPONENT_BOUND as int,
        -(COMPONENT_BOUND as int) <= y <= COMPONENT_BOUND as int,
    ensures
        -(COMPONENT_BOUND as int) * (COMPONENT_BOUND as int) <= x * y <= (COMPONENT_BOUND as int)
            * (COMPONENT_BOUND as int),
        x >= 1 && y >= 1 ==> x * y >= 1,
{
}

/// A common divisor of `a` and `b` by Euclid's algorithm (positive when
/// either argument is).
fn gcd_u128(a: u128, b: u128) -> (g: u128)
    ensures
        a > 0 || b > 0 ==> g > 0,
        divides(g as int, a as int),
        divides(g as int, b as int),
    decreases b,
{
    if b == 0 {
        proof {
            assert(a as int == (a as int) * 1);
            assert(0int == (a as int) * 0);
        }
        a
    } else {
        let m = a % b;
        let g = gcd_u128(b, m);
        proof {
            lemma_fundamental_div_mod(a as int, b as int);
            let k1 = choose|k: int| b as int == #[trigger] ((g as int) * k);
            let k2 = choose|k: int| m as int == #[trigger] ((g as int) * k);
            let q = a as int / b as int;
            assert(a as int == (g as int) * (k1 * q + k2)) by (nonlinear_arith)
                requires
                    a as int == (b as int) * q + (m as int),
                    b as int == (g as int) * k1,
                    m as int == (g as int) * k2,
            ;
        }
        g
    }
}

/// Reduces `p / q` (with `q >= 1`) by a common divisor and narrows it into a
/// well-formed `Ratio`; `None` when the reduced components are still out of
/// range.  The resulting value equals `p / q` exactly.
fn reduce_parts(p: i128, q: i128) -> (r: Option<Ratio>)
    requires
        1 <= q,
        i128::MIN < p,
    ensures
        r matches Some(v) ==> v.wf() && v@.n * (q as int) == (p as int) * v@.d && int_abs(v@.n)
            <= int_abs(p as int) && v@.d <= q as int,
        -(COMPONENT_BOUND as int) <= p <= COMPONENT_BOUND as int && q <= COMPONENT_BOUND as int
            ==> r is Some,
{
    let neg = p < 0;
    let m: u128 = if neg {
        (-p) as u128
    } else {
        p as u128
    };
    let qq: u128 = q as u128;
    let g = gcd_u128(qq, m);
    let ghost km = choose|k: int| m as int == #[trigger] ((g as int) * k);
    let ghost kq = choose|k: int| qq as int == #[trigger] ((g as int) * k);
    proof {
        lemma_div_multiples_vanish(km, g as int);
        lemma_div_multiples_vanish(kq, g as int);
        assert(km >= 0 && kq >= 1 && km <= m as int && kq <= qq as int) by (nonlinear_arith)
            requires
                m as int == (g as int) * km,
                qq as int == (g as int) * kq,
                g >= 1,
                m >= 0,
                qq >= 1,
        ;
    }
    let mr = m / g;
    let qr = qq / g;
    proof {
        assert(mr as int == km && qr as int == kq) by {
            assert(((g as int) * km) / (g as int) == km);
            assert(((g as int) * kq) / (g as int) == kq);
        }
    }
    if mr > COMPONENT_BOUND as u128 || qr > COMPONENT_BOUND as u128 {
        return None;
    }
    let num: i64 = if neg {
        -(mr as i64)
    } else {
        mr as i64
    };
    let v = Ratio { num, den: qr as i64 };
    proof {
        assert(v@.n * (q as int) == (p as int) * v@.d) by (nonlinear_arith)
            requires
                m as int == (g as int) * km,
                qq as int == (g as int) * kq,
                qq as int == q as int,
                v@.d == kq,
                neg ==> m as int == -(p as int) && v@.n == -km,
                !neg ==> m as int == p as int && v@.n == km,
        ;
    }
    Some(v)
}

/// The reciprocal respects rational equivalence (for nonzero numerators).
pub proof fn lemma_inv_eqv(b: Rat, b2: Rat)
    by (nonlinear_arith)
    requires
        rat_wf(b),
        rat_wf(b2),
        rat_eqv(b, b2),
        b.n != 0,
        b2.n != 0,
    ensures
        rat_eqv(rat_inv(b), rat_inv(b2)),
        rat_wf(rat_inv(b)),
        rat_wf(rat_inv(b2)),
{
}

/// Division respects rational equivalence (for nonzero divisors).
pub proof fn lemma_div_eqv(a: Rat, b: Rat, a2: Rat, b2: Rat)
    requires
        rat_wf(a),
        rat_wf(b),
        rat_wf(a2),
        rat_wf(b2),
        rat_eqv(a, a2),
        rat_eqv(b, b2),
        b.n != 0,
        b2.n != 0,
    ensures
        rat_eqv(rat_div(a, b), rat_div(a2, b2)),
        rat_wf(rat_div(a, b)),
        rat_wf(rat_div(a2, b2)),
{
    lemma_inv_eqv(b, b2);
    lemma_mul_eqv(a, rat_inv(b), a2, rat_inv(b2));
    lemma_mul_eqv(a2, rat_inv(b2), a2, rat_inv(b2));
}

/// A value equivalent to zero has a zero numerator, and conversely.
pub proof fn lemma_zero_eqv(a: Rat, a2: Rat)
    by (nonlinear_arith)
    requires
        rat_wf(a),
        rat_wf(a2),
        rat_eqv(a, a2),
    ensures
        (a.n == 0) == (a2.n == 0),
        rat_eqv(a, int_rat(0)) == (a.n == 0),
        rat_eqv(a2, int_rat(0)) == (a2.n == 0),
{
}

/// Addition of executable rationals tracked against specification values:
/// the result is equivalent to `rat_add(sa, sb)`.
pub(crate) fn radd(a: Ratio, b: Ratio, Ghost(sa): Ghost<Rat>, Ghost(sb): Ghost<Rat>) -> (r: Option<
    Ratio,
>)
    requires
        a.wf(),
        b.wf(),
        rat_wf(sa),
        rat_wf(sb),
        rat_eqv(a@, sa),
        rat_eqv(b@, sb),
    ensures
        r matches Some(v) ==> v.wf() && rat_eqv(v@, rat_add(sa, sb)) && rat_wf(rat_add(sa, sb))
            && int_abs(v@.n) <= int_abs(a@.n) * b@.d + int_abs(b@.n) * a@.d && v@.d <= a@.d
            * b@.d,
        int_abs(a@.n) * b@.d + int_abs(b@.n) * a@.d <= COMPONENT_BOUND as int && a@.d * b@.d
            <= COMPONENT_BOUND as int ==> r is Some,
{
    proof {
        lemma_product_in_component_range(a@.n, b@.d);
        lemma_product_in_component_range(b@.n, a@.d);
        assert(int_abs(rat_add(a@, b@).n) <= int_abs(a@.n) * b@.d + int_abs(b@.n) * a@.d)
            by (nonlinear_arith)
            requires
                a@.d >= 1,
                b@.d >= 1,
                rat_add(a@, b@).n == a@.n * b@.d + b@.n * a@.d,
        ;
    }
    let r = a.add(b);
    proof {
        if let Some(v) = r {
            lemma_add_eqv(a@, b@, sa, sb);
            lemma_add_eqv(sa, sb, sa, sb);
            lemma_eqv_trans(v@, rat_add(a@, b@), rat_add(sa, sb));
        }
    }
    r
}

/// Subtraction tracked against specification values.
pub(crate) fn rsub(a: Ratio, b: Ratio, Ghost(sa): Ghost<Rat>, Ghost(sb): Ghost<Rat>) -> (r: Option<
    Ratio,
>)
    requires
        a.wf(),
        b.wf(),
        rat_wf(sa),
        rat_wf(sb),
        rat_eqv(a@, sa),
        rat_eqv(b@, sb),
    ensures
        r matches Some(v) ==> v.wf() && rat_eqv(v@, rat_sub(sa, sb)) && rat_wf(rat_sub(sa, sb))
            && int_abs(v@.n) <= int_abs(a@.n) * b@.d + int_abs(b@.n) * a@.d && v@.d <= a@.d
            * b@.d,
        int_abs(a@.n) * b@.d + int_abs(b@.n) * a@.d <= COMPONENT_BOUND as int && a@.d * b@.d
            <= COMPONENT_BOUND as int ==> r is Some,
{
    let r = a.sub(b);
    proof {
        if let Some(v) = r {
            lemma_sub_eqv(a@, b@, sa, sb);
            lemma_sub_eqv(sa, sb, sa, sb);
            lemma_eqv_trans(v@, rat_sub(a@, b@), rat_sub(sa, sb));
        }
    }
    r
}

/// Multiplication tracked against specification values.
pub(crate) fn rmul(a: Ratio, b: Ratio, Ghost(sa): Ghost<Rat>, Ghost(sb): Ghost<Rat>) -> (r: Option<
    Ratio,
>)
    requires
        a.wf(),
        b.wf(),
        rat_wf(sa),
        rat_wf(sb),
        rat_eqv(a@, sa),
        rat_eqv(b@, sb),
    ensures
        r matches Some(v) ==> v.wf() && rat_eqv(v@, rat_mul(sa, sb)) && rat_wf(rat_mul(sa, sb))
            && int_abs(v@.n) <= int_abs(a@.n) * int_abs(b@.n) && v@.d <= a@.d * b@.d,
        int_abs(a@.n) * int_abs(b@.n) <= COMPONENT_BOUND as int && a@.d * b@.d
            <= COMPONENT_BOUND as int ==> r is Some,
{
    let r = a.mul(b);
    proof {
        if let Some(v) = r {
            lemma_mul_eqv(a@, b@, sa, sb);
            lemma_mul_eqv(sa, sb, sa, sb);
            lemma_eqv_trans(v@, rat_mul(a@, b@), rat_mul(sa, sb));
        }
    }
    r
}

/// Division tracked against specification values; `None` when the divisor
/// denotes zero.
pub(crate) fn rdiv(a: Ratio, b: Ratio, Ghost(sa): Ghost<Rat>, Ghost(sb): Ghost<Rat>) -> (r: Option<
    Ratio,
>)
    requires
        a.wf(),
        b.wf(),
        rat_wf(sa),
        rat_wf(sb),
        rat_eqv(a@, sa),
        rat_eqv(b@, sb),
    ensures
        sb.n == 0 ==> r is None,
        r matches Some(v) ==> v.wf() && sb.n != 0 && rat_eqv(v@, rat_div(sa, sb)) && rat_wf(
            rat_div(sa, sb),
        ) && int_abs(v@.n) <= int_abs(a@.n) * b@.d && v@.d <= a@.d * int_abs(b@.n),
        int_abs(a@.n) * b@.d <= COMPONENT_BOUND as int && a@.d * int_abs(b@.n)
            <= COMPONENT_BOUND as int && b@.n != 0 ==> r is Some,
{
    proof {
        lemma_zero_eqv(b@, sb);
    }
    let r = a.div(b);
    proof {
        if let Some(v) = r {
            lemma_div_eqv(a@, b@, sa, sb);
            lemma_eqv_trans(v@, rat_div(a@, b@), rat_div(sa, sb));
        }
    }
    r
}

/// Division by a positive integer tracked against a specification value.
pub(crate) fn rdiv_u32(a: Ratio, k: u32, Ghost(sa): Ghost<Rat>) -> (r: Option<Ratio>)
    requires
        a.wf(),
        rat_wf(sa),
        rat_eqv(a@, sa),
        k >= 1,
    ensures
        r matches Some(v) ==> v.wf() && rat_eqv(v@, rat_div_int(sa, k as int)) && rat_wf(
            rat_div_int(sa, k as int),
        ) && int_abs(v@.n) <= int_abs(a@.n) && v@.d <= a@.d * (k as int),
        int_abs(a@.n) <= COMPONENT_BOUND as int && a@.d * (k as int) <= COMPONENT_BOUND as int
            ==> r is Some,
{
    let r = a.div_u32(k);
    proof {
        if let Some(v) = r {
            lemma_div_int_congruence(a@, sa, k as int);
            lemma_eqv_trans(v@, rat_div_int(a@, k as int), rat_div_int(sa, k as int));
        }
    }
    r
}

/// `rat_div_int` respects rational equivalence (for a positive divisor).
pub proof fn lemma_div_int_congruence(a: Rat, a2: Rat, k: int)
    by (nonlinear_arith)
    requires
        rat_wf(a),
        rat_wf(a2),
        rat_eqv(a, a2),
        k >= 1,
    ensures
        rat_eqv(rat_div_int(a, k), rat_div_int(a2, k)),
        rat_wf(rat_div_int(a, k)),
        rat_wf(rat_div_int(a2, k)),
{
}

/// The absolute value respects rational equivalence.
pub proof fn lemma_abs_eqv(a: Rat, a2: Rat)
    by (nonlinear_arith)
    requires
        rat_wf(a),
        rat_wf(a2),
        rat_eqv(a, a2),
    ensures
        rat_eqv(rat_abs(a), rat_abs(a2)),
        rat_wf(rat_abs(a)),
{
}

/// Addition of rationals is commutative up to equivalence.
pub proof fn lemma_add_comm(a: Rat, b: Rat)
    by (nonlinear_arith)
    requires
        rat_wf(a),
        rat_wf(b),
    ensures
        rat_eqv(rat_add(a, b), rat_add(b, a)),
{
}

/// Multiplication of rationals is commutative up to equivalence.
pub proof fn lemma_mul_comm(a: Rat, b: Rat)
    by (nonlinear_arith)
    requires
        rat_wf(a),
        rat_wf(b),
    ensures
        rat_eqv(rat_mul(a, b), rat_mul(b, a)),
{
}

/// `a - b` is the negation of `b - a`.
pub proof fn lemma_sub_antisym(a: Rat, b: Rat)
    by (nonlinear_arith)
    requires
        rat_wf(a),
        rat_wf(b),
    ensures
        rat_eqv(rat_sub(a, b), rat_neg(rat_sub(b, a))),
        rat_wf(rat_sub(a, b)),
{
}

/// The signed square of a negation is the negated signed square.
pub proof fn lemma_signed_sq_neg(x: Rat)
    by (nonlinear_arith)
    requires
        rat_wf(x),
    ensures
        rat_eqv(rat_signed_sq(rat_neg(x)), rat_neg(rat_signed_sq(x))),
        rat_wf(rat_signed_sq(x)),
        rat_wf(rat_signed_sq(rat_neg(x))),
{
}

/// Negating the dividend negates the quotient.
pub proof fn lemma_div_neg_left(a: Rat, b: Rat)
    by (nonlinear_arith)
    requires
        rat_wf(a),
        rat_wf(b),
        b.n != 0,
    ensures
        rat_eqv(rat_div(rat_neg(a), b), rat_neg(rat_div(a, b))),
{
}

/// The absolute value of a negation equals the absolute value.
pub proof fn lemma_abs_neg(x: Rat)
    ensures
        rat_abs(rat_neg(x)) == rat_abs(x),
{
}

impl Ratio {
    /// Smallest integer at least `self`, for a non-negative value.
    pub fn ceil_to_u64(self) -> (r: u64)
        requires
            self.wf(),
            self@.n >= 0,
        ensures
            rat_le(self@, int_rat(r as int)),
            rat_lt(int_rat(r as int - 1), self@),
    {
        let n = self.num() as u64;
        let d = self.den() as u64;
        let q = n / d;
        let rem = n % d;
        let c = if rem > 0 {
            q + 1
        } else {
            q
        };
        proof {
            lemma_fundamental_div_mod(n as int, d as int);
            assert(rat_le(self@, int_rat(c as int)) && rat_lt(int_rat(c as int - 1), self@))
                by (nonlinear_arith)
                requires
                    n as int == (d as int) * (q as int) + (rem as int),
                    0 <= rem as int && (rem as int) < d as int,
                    1 <= d as int,
                    self@.n == n as int,
                    self@.d == d as int,
                    rem > 0 ==> c as int == q as int + 1,
                    rem == 0 ==> c == q,
                    q < 0x8000_0000_0000_0000u64,
            ;
        }
        c
    }
}

/// A product of a rational with itself is non-negative.
pub proof fn lemma_self_mul_nonneg(x: Rat)
    by (nonlinear_arith)
    requires
        rat_wf(x),
    ensures
        rat_le(int_rat(0), rat_mul(x, x)),
        x.n != 0 ==> rat_lt(int_rat(0), rat_mul(x, x)),
{
}

/// Sums of non-negative rationals are non-negative.
pub proof fn lemma_add_nonneg(a: Rat, b: Rat)
    by (nonlinear_arith)
    requires
        rat_wf(a),
        rat_wf(b),
        rat_le(int_rat(0), a),
        rat_le(int_rat(0), b),
    ensures
        rat_le(int_rat(0), rat_add(a, b)),
{
}

/// Dividing a non-negative rational by a positive integer keeps it
/// non-negative.
pub proof fn lemma_div_int_nonneg(a: Rat, k: int)
    by (nonlinear_arith)
    requires
        rat_wf(a),
        rat_le(int_rat(0), a),
        k >= 1,
    ensures
        rat_le(int_rat(0), rat_div_int(a, k)),
{
}

/// A quotient of positive rationals is positive.
pub proof fn lemma_div_pos(a: Rat, b: Rat)
    by (nonlinear_arith)
    requires
        rat_wf(a),
        rat_wf(b),
        rat_lt(int_rat(0), a),
        rat_lt(int_rat(0), b),
    ensures
        rat_lt(int_rat(0), rat_div(a, b)),
{
}

/// Sums of positive rationals are positive.
pub proof fn lemma_add_pos(a: Rat, b: Rat)
    by (nonlinear_arith)
    requires
        rat_wf(a),
        rat_wf(b),
        rat_lt(int_rat(0), a),
        rat_lt(int_rat(0), b),
    ensures
        rat_lt(int_rat(0), rat_add(a, b)),
        rat_add(a, b).n != 0,
{
}

/// A quotient of a non-negative rational by a positive one is
/// non-negative.
pub proof fn lemma_div_nonneg(a: Rat, b: Rat)
    by (nonlinear_arith)
    requires
        rat_wf(a),
        rat_wf(b),
        rat_le(int_rat(0), a),
        rat_lt(int_rat(0), b),
    ensures
        rat_le(int_rat(0), rat_div(a, b)),
{
}

/// A non-negative rational with a nonzero numerator is positive.
pub proof fn lemma_nonneg_nonzero_pos(a: Rat)
    requires
        rat_wf(a),
        rat_le(int_rat(0), a),
        a.n != 0,
    ensures
        rat_lt(int_rat(0), a),
{
}

/// Negating the difference at the head of a standardized statistic
/// negates the statistic and preserves its absolute value.
pub proof fn lemma_signed_ratio_swap(d1: Rat, d2: Rat, e1: Rat, e2: Rat)
    requires
        rat_wf(d1),
        rat_wf(d2),
        rat_wf(e1),
        rat_wf(e2),
        rat_eqv(d2, rat_neg(d1)),
        rat_eqv(e1, e2),
        e1.n != 0,
        e2.n != 0,
    ensures
        rat_eqv(rat_div(rat_signed_sq(d2), e2), rat_neg(rat_div(rat_signed_sq(d1), e1))),
        rat_eqv(
            rat_abs(rat_div(rat_signed_sq(d2), e2)),
            rat_abs(rat_div(rat_signed_sq(d1), e1)),
        ),
{
    lemma_abs_eqv(d2, rat_neg(d1));
    lemma_abs_eqv(rat_neg(d1), rat_neg(d1));
    lemma_mul_eqv(d2, rat_abs(d2), rat_neg(d1), rat_abs(rat_neg(d1)));
    lemma_mul_eqv(rat_neg(d1), rat_abs(rat_neg(d1)), rat_neg(d1), rat_abs(rat_neg(d1)));
    lemma_signed_sq_neg(d1);
    lemma_eqv_trans(rat_signed_sq(d2), rat_signed_sq(rat_neg(d1)), rat_neg(rat_signed_sq(d1)));
    assert(rat_wf(rat_neg(rat_signed_sq(d1))));
    lemma_div_eqv(rat_signed_sq(d2), e2, rat_neg(rat_signed_sq(d1)), e1);
    lemma_div_neg_left(rat_signed_sq(d1), e1);
    lemma_div_eqv(rat_signed_sq(d1), e1, rat_signed_sq(d1), e1);
    assert(rat_wf(rat_neg(rat_div(rat_signed_sq(d1), e1))));
    lemma_eqv_trans(
        rat_div(rat_signed_sq(d2), e2),
        rat_div(rat_neg(rat_signed_sq(d1)), e1),
        rat_neg(rat_div(rat_signed_sq(d1), e1)),
    );
    let l = rat_div(rat_signed_sq(d2), e2);
    let m = rat_neg(rat_div(rat_signed_sq(d1), e1));
    lemma_abs_eqv(l, m);
    lemma_abs_neg(rat_div(rat_signed_sq(d1), e1));
    lemma_eqv_trans(rat_abs(l), rat_abs(m), rat_abs(rat_div(rat_signed_sq(d1), e1)));
}

/// Rational equivalence is transitive.
pub proof fn lemma_eqv_trans(a: Rat, b: Rat, c: Rat)
    by (nonlinear_arith)
    requires
        rat_wf(a),
        rat_wf(b),
        rat_wf(c),
        rat_eqv(a, b),
        rat_eqv(b, c),
    ensures
        rat_eqv(a, c),
{
}

/// Addition respects rational equivalence.
pub proof fn lemma_add_eqv(a: Rat, b: Rat, a2: Rat, b2: Rat)
    requires
        rat_wf(a),
        rat_wf(b),
        rat_wf(a2),
        rat_wf(b2),
        rat_eqv(a, a2),
        rat_eqv(b, b2),
    ensures
        rat_eqv(rat_add(a, b), rat_add(a2, b2)),
        rat_wf(rat_add(a, b)),
{
    lemma_sum_product_rearranged(a.n, b.n, a.d, b.d, a2.d, b2.d);
    lemma_sum_product_rearranged(a2.n, b2.n, a2.d, b2.d, a.d, b.d);
    assert((a2.n * a.d) * (b.d * b2.d) == (a.n * a2.d) * (b.d * b2.d)
        && (b2.n * b.d) * (a.d * a2.d) == (b.n * b2.d) * (a.d * a2.d)
        && (b.d * b2.d) == (b2.d * b.d) && (a.d * a2.d) == (a2.d * a.d)) by (nonlinear_arith)
        requires
            a.n * a2.d == a2.n * a.d,
            b.n * b2.d == b2.n * b.d,
    ;
    assert(a.d * b.d >= 1) by (nonlinear_arith)
        requires
            a.d >= 1,
            b.d >= 1,
    ;
}

/// `(x * yd + y * xd) * (u * v)` regrouped into products of pairs.
proof fn lemma_sum_product_rearranged(x: int, y: int, xd: int, yd: int, u: int, v: int)
    ensures
        (x * yd + y * xd) * (u * v) == (x * u) * (yd * v) + (y * v) * (xd * u),
{
    lemma_distribute(x * yd, y * xd, u * v);
    lemma_regroup_product(x, yd, u, v);
    lemma_regroup_product(y, xd, v, u);
    assert(u * v == v * u) by (nonlinear_arith);
}

proof fn lemma_distribute(s: int, t: int, w: int)
    by (nonlinear_arith)
    ensures
        (s + t) * w == s * w + t * w,
{
}

proof fn lemma_regroup_product(x: int, yd: int, u: int, v: int)
    by (nonlinear_arith)
    ensures
        (x * yd) * (u * v) == (x * u) * (yd * v),
{
}

/// Multiplication respects rational equivalence.
pub proof fn lemma_mul_eqv(a: Rat, b: Rat, a2: Rat, b2: Rat)
    requires
        rat_wf(a),
        rat_wf(b),
        rat_wf(a2),
        rat_wf(b2),
        rat_eqv(a, a2),
        rat_eqv(b, b2),
    ensures
        rat_eqv(rat_mul(a, b), rat_mul(a2, b2)),
        rat_wf(rat_mul(a, b)),
{
    assert((a.n * b.n) * (a2.d * b2.d) == (a.n * a2.d) * (b.n * b2.d)) by (nonlinear_arith);
    assert((a2.n * b2.n) * (a.d * b.d) == (a2.n * a.d) * (b2.n * b.d)) by (nonlinear_arith);
    assert((a.n * a2.d) * (b.n * b2.d) == (a2.n * a.d) * (b2.n * b.d)) by (nonlinear_arith)
        requires
            a.n * a2.d == a2.n * a.d,
            b.n * b2.d == b2.n * b.d,
    ;
    assert(a.d * b.d >= 1) by (nonlinear_arith)
        requires
            a.d >= 1,
            b.d >= 1,
    ;
}

/// Negation respects rational equivalence.
pub proof fn lemma_neg_eqv(a: Rat, a2: Rat)
    by (nonlinear_arith)
    requires
        rat_wf(a),
        rat_wf(a2),
        rat_eqv(a, a2),
    ensures
        rat_eqv(rat_neg(a), rat_neg(a2)),
{
}

/// Subtraction respects rational equivalence.
pub proof fn lemma_sub_eqv(a: Rat, b: Rat, a2: Rat, b2: Rat)
    requires
        rat_wf(a),
        rat_wf(b),
        rat_wf(a2),
        rat_wf(b2),
        rat_eqv(a, a2),
        rat_eqv(b, b2),
    ensures
        rat_eqv(rat_sub(a, b), rat_sub(a2, b2)),
        rat_wf(rat_sub(a, b)),
{
    lemma_neg_eqv(b, b2);
    lemma_add_eqv(a, rat_neg(b), a2, rat_neg(b2));
}

/// The order relation respects rational equivalence.
pub proof fn lemma_le_eqv(a: Rat, b: Rat, a2: Rat, b2: Rat)
    by (nonlinear_arith)
    requires
        rat_wf(a),
        rat_wf(b),
        rat_wf(a2),
        rat_wf(b2),
        rat_eqv(a, a2),
        rat_eqv(b, b2),
    ensures
        rat_le(a, b) == rat_le(a2, b2),
        rat_lt(a, b) == rat_lt(a2, b2),
{
}

} // verus!
