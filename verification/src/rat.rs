//! Exact rational scalars.
//!
//! Every coefficient of the solver is built from these: a numerator over a
//! positive denominator, both machine integers. Arithmetic is exact; an
//! operation whose result does not fit the machine representation reports
//! that by returning `None` instead of rounding.

use vstd::prelude::*;

verus! {

/// Mathematical value of a rational: a numerator over a positive denominator.
pub struct Frac {
    pub n: int,
    pub d: int,
}

/// The zero rational.
pub open spec fn frac_zero() -> Frac {
    Frac { n: 0, d: 1 }
}

/// Value equality of two fractions, by cross multiplication.
pub open spec fn frac_eq(a: Frac, b: Frac) -> bool {
    a.n * b.d == b.n * a.d
}

/// `a <= b` as rational values (denominators positive).
pub open spec fn frac_le(a: Frac, b: Frac) -> bool {
    a.n * b.d <= b.n * a.d
}

/// `a < b` as rational values (denominators positive).
pub open spec fn frac_lt(a: Frac, b: Frac) -> bool {
    a.n * b.d < b.n * a.d
}

/// Exact sum, as the cross-multiplied raw pair.
pub open spec fn frac_add(a: Frac, b: Frac) -> Frac {
    Frac { n: a.n * b.d + b.n * a.d, d: a.d * b.d }
}

/// Exact difference, as the cross-multiplied raw pair.
pub open spec fn frac_sub(a: Frac, b: Frac) -> Frac {
    Frac { n: a.n * b.d - b.n * a.d, d: a.d * b.d }
}

/// Exact product.
pub open spec fn frac_mul(a: Frac, b: Frac) -> Frac {
    Frac { n: a.n * b.n, d: a.d * b.d }
}

/// Negation.
pub open spec fn frac_neg(a: Frac) -> Frac {
    Frac { n: -a.n, d: a.d }
}

/// Exact quotient `a / b`, meaningful when `b.n != 0`; the sign of `b.n`
/// moves to the numerator so the denominator stays positive.
pub open spec fn frac_div(a: Frac, b: Frac) -> Frac {
    if b.n < 0 {
        Frac { n: -(a.n * b.d), d: -(a.d * b.n) }
    } else {
        Frac { n: a.n * b.d, d: a.d * b.n }
    }
}

/// The same rational with numerator and denominator divided by their
/// greatest common divisor (left untouched when they are already coprime).
pub open spec fn frac_reduced(f: Frac) -> Frac {
    let mag = if f.n < 0 {
        -f.n
    } else {
        f.n
    };
    let g = gcd_n(mag as nat, f.d as nat) as int;
    if g > 1 {
        Frac {
            n: if f.n < 0 {
                -(mag / g)
            } else {
                mag / g
            },
            d: f.d / g,
        }
    } else {
        f
    }
}

/// Whether a fraction fits the machine representation below.
pub open spec fn frac_fits(f: Frac) -> bool {
    &&& -(i64::MAX as int) <= f.n <= i64::MAX as int
    &&& 1 <= f.d <= i64::MAX as int
}

/// An exact rational held in machine integers. The denominator is positive;
/// the numerator stays strictly above `i64::MIN` so negation is total.
#[derive(Clone, Copy, Debug, PartialEq, Eq, Structural)]
pub struct Rat {
    pub n: i64,
    pub d: i64,
}

impl View for Rat {
    type V = Frac;

    open spec fn view(&self) -> Frac {
        Frac { n: self.n as int, d: self.d as int }
    }
}

pub(crate) proof fn lemma_mul_range(a: int, b: int, m: int)
    by (nonlinear_arith)
    requires
        0 <= m,
        -m <= a <= m,
        -m <= b <= m,
    ensures
        -(m * m) <= a * b <= m * m,
{
}

pub(crate) proof fn lemma_mul_neg_lower(a: int, b: int)
    by (nonlinear_arith)
    requires
        1 <= a,
        b <= -1,
    ensures
        1 <= -(a * b),
{
}

/// Euclid's greatest common divisor.
pub open spec fn gcd_n(a: nat, b: nat) -> nat
    decreases b,
{
    if b == 0 {
        a
    } else {
        gcd_n(b, a % b)
    }
}

/// The greatest common divisor divides both arguments, and is positive as
/// soon as one of them is.
pub proof fn lemma_gcd_divides(a: nat, b: nat)
    ensures
        a > 0 || b > 0 ==> gcd_n(a, b) > 0,
        gcd_n(a, b) > 0 ==> a as int % (gcd_n(a, b) as int) == 0 && b as int % (gcd_n(a, b)
            as int) == 0,
    decreases b,
{
    if b == 0 {
        if a > 0 {
            vstd::arithmetic::div_mod::lemma_mod_multiples_basic(1, a as int);
            vstd::arithmetic::div_mod::lemma_mod_multiples_basic(0, a as int);
        }
    } else {
        lemma_gcd_divides(b, a % b);
        let g = gcd_n(b, a % b) as int;
        assert(g > 0);
        vstd::arithmetic::div_mod::lemma_fundamental_div_mod(a as int, b as int);
        vstd::arithmetic::div_mod::lemma_fundamental_div_mod(b as int, g);
        vstd::arithmetic::div_mod::lemma_fundamental_div_mod((a % b) as int, g);
        let k: int = (b as int / g) * (a as int / b as int) + ((a % b) as int / g);
        assert(a as int == k * g) by (nonlinear_arith)
            requires
                a as int == (b as int) * (a as int / b as int) + (a % b) as int,
                b as int == g * (b as int / g) + (b as int % g),
                (a % b) as int == g * ((a % b) as int / g) + ((a % b) as int % g),
                b as int % g == 0,
                (a % b) as int % g == 0,
                k == (b as int / g) * (a as int / b as int) + ((a % b) as int / g),
        ;
        vstd::arithmetic::div_mod::lemma_mod_multiples_basic(k, g);
    }
}

/// Euclid's algorithm on machine words.
fn gcd_u64(a: u64, b: u64) -> (r: u64)
    ensures
        r as nat == gcd_n(a as nat, b as nat),
    decreases b,
{
    if b == 0 {
        a
    } else {
        gcd_u64(b, a % b)
    }
}

pub(crate) proof fn lemma_square_pos(n: int)
    by (nonlinear_arith)
    requires
        n != 0,
    ensures
        1 <= n * n,
{
}

pub(crate) proof fn lemma_mul_pos(a: int, b: int)
    by (nonlinear_arith)
    requires
        1 <= a,
        1 <= b,
    ensures
        1 <= a * b,
{
}

impl Rat {
    /// Well-formedness: positive denominator, numerator safely negatable.
    pub open spec fn inv(self) -> bool {
        &&& 1 <= self.d
        &&& -(i64::MAX as int) <= self.n as int
    }

    /// The rational zero.
    pub fn zero() -> (r: Rat)
        ensures
            r.inv(),
            r@ == frac_zero(),
    {
        Rat { n: 0, d: 1 }
    }

    /// A rational from a numerator and a positive denominator.
    pub fn new(n: i64, d: i64) -> (r: Rat)
        requires
            1 <= d,
            n != i64::MIN,
        ensures
            r.inv(),
            r@ == (Frac { n: n as int, d: d as int }),
    {
        Rat { n, d }
    }

    /// A rational from an integer.
    pub fn from_int(x: i64) -> (r: Rat)
        requires
            x != i64::MIN,
        ensures
            r.inv(),
            r@ == (Frac { n: x as int, d: 1 }),
    {
        Rat { n: x, d: 1 }
    }

    /// Whether this value is exactly zero.
    pub fn is_zero(self) -> (r: bool)
        requires
            self.inv(),
        ensures
            r == frac_eq(self@, frac_zero()),
    {
        self.n == 0
    }

    /// Exact sum; `None` exactly when the raw result leaves the machine range.
    pub fn add(self, other: Rat) -> (r: Option<Rat>)
        requires
            self.inv(),
            other.inv(),
        ensures
            r is Some <==> frac_fits(frac_add(self@, other@)),
            r matches Some(v) ==> v.inv() && v@ == frac_add(self@, other@),
    {
        proof {
            lemma_mul_range(self.n as int, other.d as int, i64::MAX as int);
            lemma_mul_range(other.n as int, self.d as int, i64::MAX as int);
            lemma_mul_range(self.d as int, other.d as int, i64::MAX as int);
            lemma_mul_pos(self.d as int, other.d as int);
        }
        let n: i128 = (self.n as i128) * (other.d as i128) + (other.n as i128) * (self.d as i128);
        let d: i128 = (self.d as i128) * (other.d as i128);
        Self::pack(n, d)
    }

    /// Exact difference; `None` exactly when the raw result leaves the range.
    pub fn sub(self, other: Rat) -> (r: Option<Rat>)
        requires
            self.inv(),
            other.inv(),
        ensures
            r is Some <==> frac_fits(frac_sub(self@, other@)),
            r matches Some(v) ==> v.inv() && v@ == frac_sub(self@, other@),
    {
        proof {
            lemma_mul_range(self.n as int, other.d as int, i64::MAX as int);
            lemma_mul_range(other.n as int, self.d as int, i64::MAX as int);
            lemma_mul_range(self.d as int, other.d as int, i64::MAX as int);
            lemma_mul_pos(self.d as int, other.d as int);
        }
        let n: i128 = (self.n as i128) * (other.d as i128) - (other.n as i128) * (self.d as i128);
        let d: i128 = (self.d as i128) * (other.d as i128);
        Self::pack(n, d)
    }

    /// Exact product; `None` exactly when the raw result leaves the range.
    pub fn mul(self, other: Rat) -> (r: Option<Rat>)
        requires
            self.inv(),
            other.inv(),
        ensures
            r is Some <==> frac_fits(frac_mul(self@, other@)),
            r matches Some(v) ==> v.inv() && v@ == frac_mul(self@, other@),
    {
        proof {
            lemma_mul_range(self.n as int, other.n as int, i64::MAX as int);
            lemma_mul_range(self.d as int, other.d as int, i64::MAX as int);
            lemma_mul_pos(self.d as int, other.d as int);
        }
        let n: i128 = (self.n as i128) * (other.n as i128);
        let d: i128 = (self.d as i128) * (other.d as i128);
        Self::pack(n, d)
    }

    /// Exact quotient by a rational with nonzero numerator; `None` exactly
    /// when the raw result leaves the range.
    pub fn div(self, other: Rat) -> (r: Option<Rat>)
        requires
            self.inv(),
            other.inv(),
            other@.n != 0,
        ensures
            r is Some <==> frac_fits(frac_div(self@, other@)),
            r matches Some(v) ==> v.inv() && v@ == frac_div(self@, other@),
    {
        proof {
            lemma_mul_range(self.n as int, other.d as int, i64::MAX as int);
            lemma_mul_range(self.d as int, other.n as int, i64::MAX as int);
        }
        let n: i128 = (self.n as i128) * (other.d as i128);
        let d: i128 = (self.d as i128) * (other.n as i128);
        if other.n < 0 {
            proof {
                lemma_mul_neg_lower(self.d as int, other.n as int);
            }
            Self::pack(-n, -d)
        } else {
            proof {
                lemma_mul_pos(self.d as int, other.n as int);
            }
            Self::pack(n, d)
        }
    }

    /// Exact negation; always representable.
    pub fn neg(self) -> (r: Rat)
        requires
            self.inv(),
        ensures
            r.inv(),
            r@ == frac_neg(self@),
    {
        Rat { n: -self.n, d: self.d }
    }

    /// Exact `<=` on values, by cross multiplication.
    pub fn le(self, other: Rat) -> (r: bool)
        requires
            self.inv(),
            other.inv(),
        ensures
            r == frac_le(self@, other@),
    {
        proof {
            lemma_mul_range(self.n as int, other.d as int, i64::MAX as int);
            lemma_mul_range(other.n as int, self.d as int, i64::MAX as int);
        }
        (self.n as i128) * (other.d as i128) <= (other.n as i128) * (self.d as i128)
    }

    /// Exact `<` on values, by cross multiplication.
    pub fn lt(self, other: Rat) -> (r: bool)
        requires
            self.inv(),
            other.inv(),
        ensures
            r == frac_lt(self@, other@),
    {
        proof {
            lemma_mul_range(self.n as int, other.d as int, i64::MAX as int);
            lemma_mul_range(other.n as int, self.d as int, i64::MAX as int);
        }
        (self.n as i128) * (other.d as i128) < (other.n as i128) * (self.d as i128)
    }

    /// Exact value equality, by cross multiplication.
    pub fn eq_val(self, other: Rat) -> (r: bool)
        requires
            self.inv(),
            other.inv(),
        ensures
            r == frac_eq(self@, other@),
    {
        proof {
            lemma_mul_range(self.n as int, other.d as int, i64::MAX as int);
            lemma_mul_range(other.n as int, self.d as int, i64::MAX as int);
        }
        (self.n as i128) * (other.d as i128) == (other.n as i128) * (self.d as i128)
    }

    /// The same rational value with numerator and denominator divided by
    /// their greatest common divisor, so that later cross products stay in
    /// range. Only the representation changes, never the value.
    pub fn reduce(self) -> (r: Rat)
        requires
            self.inv(),
        ensures
            r.inv(),
            frac_eq(r@, self@),
            r@ == frac_reduced(self@),
    {
        let neg = self.n < 0;
        let mag: u64 = if neg {
            (-self.n) as u64
        } else {
            self.n as u64
        };
        let dm: u64 = self.d as u64;
        let g = gcd_u64(mag, dm);
        proof {
            lemma_gcd_divides(mag as nat, dm as nat);
            assert(mag as int == (if self@.n < 0 {
                -self@.n
            } else {
                self@.n
            }));
        }
        if g > 1 && mag % g == 0 && dm % g == 0 {
            let q: u64 = mag / g;
            let p: u64 = dm / g;
            proof {
                assert(mag as int == (g as int) * (q as int)) by (nonlinear_arith)
                    requires
                        g as int >= 1,
                        q as int == mag as int / g as int,
                        mag as int % g as int == 0,
                ;
                assert(dm as int == (g as int) * (p as int)) by (nonlinear_arith)
                    requires
                        g as int >= 1,
                        p as int == dm as int / g as int,
                        dm as int % g as int == 0,
                ;
                assert(p as int >= 1 && p as int <= dm as int && q as int <= mag as int)
                    by (nonlinear_arith)
                    requires
                        mag as int == (g as int) * (q as int),
                        dm as int == (g as int) * (p as int),
                        g as int >= 2,
                        dm as int >= 1,
                        q as int >= 0,
                ;
                assert((q as int) * (dm as int) == (mag as int) * (p as int))
                    by (nonlinear_arith)
                    requires
                        mag as int == (g as int) * (q as int),
                        dm as int == (g as int) * (p as int),
                ;
                assert((-(q as int)) * (dm as int) == (-(mag as int)) * (p as int))
                    by (nonlinear_arith)
                    requires
                        (q as int) * (dm as int) == (mag as int) * (p as int),
                ;
            }
            let n2: i64 = if neg {
                -(q as i64)
            } else {
                q as i64
            };
            Rat { n: n2, d: p as i64 }
        } else {
            self
        }
    }

    /// Checks the raw pair into the machine range; shared tail of the
    /// arithmetic operations above.
    fn pack(n: i128, d: i128) -> (r: Option<Rat>)
        requires
            1 <= d,
        ensures
            r is Some <==> frac_fits(Frac { n: n as int, d: d as int }),
            r matches Some(v) ==> v.inv() && v@ == (Frac { n: n as int, d: d as int }),
    {
        if -(i64::MAX as i128) <= n && n <= i64::MAX as i128 && d <= i64::MAX as i128 {
            Some(Rat { n: n as i64, d: d as i64 })
        } else {
            None
        }
    }
}

} // verus!
