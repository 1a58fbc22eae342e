//! The extended-number scalar: `m*M + x + e*eps`, where `M` is an infinite
//! unit and `eps` an infinitesimal one, both nilpotent (`M*M == eps*eps ==
//! M*eps == 0`). The tableau carries one of these in every slot, so strict
//! inequalities and tie-breaking stay exact.

use vstd::prelude::*;

use crate::rat::Frac;
use crate::rat::Rat;
use crate::rat::frac_add;
use crate::rat::frac_div;
use crate::rat::frac_eq;
use crate::rat::frac_fits;
use crate::rat::frac_le;
use crate::rat::frac_lt;
use crate::rat::frac_mul;
use crate::rat::frac_neg;
use crate::rat::frac_sub;
use crate::rat::frac_reduced;
use crate::rat::frac_zero;

verus! {

/// Mathematical value of an extended number: the coefficient of the infinite
/// unit, the real part, and the coefficient of the infinitesimal unit.
pub struct SrVal {
    pub m: Frac,
    pub x: Frac,
    pub e: Frac,
}

/// Positive denominators in all three components.
pub open spec fn sr_wf(a: SrVal) -> bool {
    &&& 1 <= a.m.d
    &&& 1 <= a.x.d
    &&& 1 <= a.e.d
}

/// The zero extended number.
pub open spec fn sr_zero() -> SrVal {
    SrVal { m: frac_zero(), x: frac_zero(), e: frac_zero() }
}

/// Componentwise value equality.
pub open spec fn sr_eq(a: SrVal, b: SrVal) -> bool {
    &&& frac_eq(a.m, b.m)
    &&& frac_eq(a.x, b.x)
    &&& frac_eq(a.e, b.e)
}

/// Lexicographic order on `(m, x, e)`: infinite magnitude dominates, then the
/// real part, then the infinitesimal part.
pub open spec fn sr_lt(a: SrVal, b: SrVal) -> bool {
    ||| frac_lt(a.m, b.m)
    ||| (frac_eq(a.m, b.m) && frac_lt(a.x, b.x))
    ||| (frac_eq(a.m, b.m) && frac_eq(a.x, b.x) && frac_lt(a.e, b.e))
}

/// Lexicographic `<=` on `(m, x, e)`.
pub open spec fn sr_le(a: SrVal, b: SrVal) -> bool {
    ||| frac_lt(a.m, b.m)
    ||| (frac_eq(a.m, b.m) && frac_lt(a.x, b.x))
    ||| (frac_eq(a.m, b.m) && frac_eq(a.x, b.x) && frac_le(a.e, b.e))
}

/// Componentwise representation reduction; values are unchanged.
pub open spec fn sr_reduced(a: SrVal) -> SrVal {
    SrVal { m: frac_reduced(a.m), x: frac_reduced(a.x), e: frac_reduced(a.e) }
}

/// Componentwise sum.
pub open spec fn sr_add(a: SrVal, b: SrVal) -> SrVal {
    SrVal { m: frac_add(a.m, b.m), x: frac_add(a.x, b.x), e: frac_add(a.e, b.e) }
}

/// Whether the componentwise sum stays representable.
pub open spec fn sr_add_ok(a: SrVal, b: SrVal) -> bool {
    &&& frac_fits(frac_add(a.m, b.m))
    &&& frac_fits(frac_add(a.x, b.x))
    &&& frac_fits(frac_add(a.e, b.e))
}

/// Componentwise difference.
pub open spec fn sr_sub(a: SrVal, b: SrVal) -> SrVal {
    SrVal { m: frac_sub(a.m, b.m), x: frac_sub(a.x, b.x), e: frac_sub(a.e, b.e) }
}

/// Whether the componentwise difference stays representable.
pub open spec fn sr_sub_ok(a: SrVal, b: SrVal) -> bool {
    &&& frac_fits(frac_sub(a.m, b.m))
    &&& frac_fits(frac_sub(a.x, b.x))
    &&& frac_fits(frac_sub(a.e, b.e))
}

/// Componentwise negation.
pub open spec fn sr_neg(a: SrVal) -> SrVal {
    SrVal { m: frac_neg(a.m), x: frac_neg(a.x), e: frac_neg(a.e) }
}

/// Conjugate: negate the two unit coefficients, keep the real part. Chosen so
/// that `a * conj(a)` collapses to a pure real.
pub open spec fn sr_conj(a: SrVal) -> SrVal {
    SrVal { m: frac_neg(a.m), x: a.x, e: frac_neg(a.e) }
}

/// Product under the nilpotent unit algebra: cross terms in `M*M`, `eps*eps`
/// and `M*eps` are dropped.
pub open spec fn sr_mul(a: SrVal, b: SrVal) -> SrVal {
    SrVal {
        m: frac_add(frac_mul(a.x, b.m), frac_mul(a.m, b.x)),
        x: frac_mul(a.x, b.x),
        e: frac_add(frac_mul(a.x, b.e), frac_mul(a.e, b.x)),
    }
}

/// Whether every intermediate of the product stays representable.
pub open spec fn sr_mul_ok(a: SrVal, b: SrVal) -> bool {
    &&& frac_fits(frac_mul(a.x, b.m))
    &&& frac_fits(frac_mul(a.m, b.x))
    &&& frac_fits(frac_add(frac_mul(a.x, b.m), frac_mul(a.m, b.x)))
    &&& frac_fits(frac_mul(a.x, b.x))
    &&& frac_fits(frac_mul(a.x, b.e))
    &&& frac_fits(frac_mul(a.e, b.x))
    &&& frac_fits(frac_add(frac_mul(a.x, b.e), frac_mul(a.e, b.x)))
}

/// Componentwise division by a rational scalar.
pub open spec fn sr_div_frac(a: SrVal, c: Frac) -> SrVal {
    SrVal { m: frac_div(a.m, c), x: frac_div(a.x, c), e: frac_div(a.e, c) }
}

/// Whether the componentwise division stays representable.
pub open spec fn sr_div_frac_ok(a: SrVal, c: Frac) -> bool {
    &&& frac_fits(frac_div(a.m, c))
    &&& frac_fits(frac_div(a.x, c))
    &&& frac_fits(frac_div(a.e, c))
}

/// Division of extended numbers: multiply by the divisor's conjugate and
/// scale by the real part of `divisor * conj(divisor)`. When that real part
/// is zero the result is the zero triple, a deliberate fallback that marks a
/// degenerate divisor rather than a fault.
pub open spec fn sr_div(a: SrVal, b: SrVal) -> SrVal {
    let cp = sr_mul(b, sr_conj(b));
    if frac_eq(cp.x, frac_zero()) {
        sr_zero()
    } else {
        sr_div_frac(sr_mul(a, sr_conj(b)), cp.x)
    }
}

/// Whether every intermediate of the division stays representable.
pub open spec fn sr_div_ok(a: SrVal, b: SrVal) -> bool {
    let cp = sr_mul(b, sr_conj(b));
    &&& sr_mul_ok(b, sr_conj(b))
    &&& (frac_eq(cp.x, frac_zero()) || (sr_mul_ok(a, sr_conj(b)) && sr_div_frac_ok(
        sr_mul(a, sr_conj(b)),
        cp.x,
    )))
}

/// An extended number held in machine rationals.
#[derive(Clone, Copy, Debug, PartialEq, Eq, Structural)]
pub struct SuperReal {
    pub m: Rat,
    pub x: Rat,
    pub e: Rat,
}

impl View for SuperReal {
    type V = SrVal;

    open spec fn view(&self) -> SrVal {
        SrVal { m: self.m@, x: self.x@, e: self.e@ }
    }
}

impl SuperReal {
    /// Well-formedness of all three components.
    pub open spec fn inv(self) -> bool {
        &&& self.m.inv()
        &&& self.x.inv()
        &&& self.e.inv()
    }

    /// An extended number from its three components.
    pub fn new(m: Rat, x: Rat, e: Rat) -> (r: SuperReal)
        requires
            m.inv(),
            x.inv(),
            e.inv(),
        ensures
            r.inv(),
            r@ == (SrVal { m: m@, x: x@, e: e@ }),
    {
        SuperReal { m, x, e }
    }

    /// The zero extended number.
    pub fn zero() -> (r: SuperReal)
        ensures
            r.inv(),
            r@ == sr_zero(),
    {
        SuperReal { m: Rat::zero(), x: Rat::zero(), e: Rat::zero() }
    }

    /// A pure real from an integer.
    pub fn from_int(x: i64) -> (r: SuperReal)
        requires
            x != i64::MIN,
        ensures
            r.inv(),
            r@ == (SrVal { m: frac_zero(), x: Frac { n: x as int, d: 1 }, e: frac_zero() }),
    {
        SuperReal { m: Rat::zero(), x: Rat::from_int(x), e: Rat::zero() }
    }

    /// An extended number from three integers `(m, x, e)`.
    pub fn from_triple(m: i64, x: i64, e: i64) -> (r: SuperReal)
        requires
            m != i64::MIN,
            x != i64::MIN,
            e != i64::MIN,
        ensures
            r.inv(),
            r@ == (SrVal {
                m: Frac { n: m as int, d: 1 },
                x: Frac { n: x as int, d: 1 },
                e: Frac { n: e as int, d: 1 },
            }),
    {
        SuperReal { m: Rat::from_int(m), x: Rat::from_int(x), e: Rat::from_int(e) }
    }

    /// The three components.
    pub fn into_inner(self) -> (r: (Rat, Rat, Rat))
        ensures
            r == (self.m, self.x, self.e),
    {
        (self.m, self.x, self.e)
    }

    /// The real part.
    pub fn real_part(&self) -> (r: Rat)
        ensures
            r == self.x,
    {
        self.x
    }

    /// The coefficient of the infinitesimal unit.
    pub fn epsilon(&self) -> (r: Rat)
        ensures
            r == self.e,
    {
        self.e
    }

    /// The coefficient of the infinite unit.
    pub fn em(&self) -> (r: Rat)
        ensures
            r == self.m,
    {
        self.m
    }

    /// The same extended number with each component's representation
    /// reduced; values are unchanged.
    pub fn reduce(self) -> (r: SuperReal)
        requires
            self.inv(),
        ensures
            r.inv(),
            sr_eq(r@, self@),
            r@ == sr_reduced(self@),
    {
        SuperReal { m: self.m.reduce(), x: self.x.reduce(), e: self.e.reduce() }
    }

    /// The conjugate.
    pub fn conj(&self) -> (r: SuperReal)
        requires
            self.inv(),
        ensures
            r.inv(),
            r@ == sr_conj(self@),
    {
        SuperReal { m: self.m.neg(), x: self.x, e: self.e.neg() }
    }

    /// Componentwise negation.
    pub fn neg(self) -> (r: SuperReal)
        requires
            self.inv(),
        ensures
            r.inv(),
            r@ == sr_neg(self@),
    {
        SuperReal { m: self.m.neg(), x: self.x.neg(), e: self.e.neg() }
    }

    /// Componentwise sum; `None` exactly when a component overflows.
    pub fn add(self, other: SuperReal) -> (r: Option<SuperReal>)
        requires
            self.inv(),
            other.inv(),
        ensures
            r is Some <==> sr_add_ok(self@, other@),
            r matches Some(v) ==> v.inv() && v@ == sr_add(self@, other@),
    {
        let m = match self.m.add(other.m) {
            Some(t) => t,
            None => { return None; },
        };
        let x = match self.x.add(other.x) {
            Some(t) => t,
            None => { return None; },
        };
        let e = match self.e.add(other.e) {
            Some(t) => t,
            None => { return None; },
        };
        Some(SuperReal { m, x, e })
    }

    /// Componentwise difference; `None` exactly when a component overflows.
    pub fn sub(self, other: SuperReal) -> (r: Option<SuperReal>)
        requires
            self.inv(),
            other.inv(),
        ensures
            r is Some <==> sr_sub_ok(self@, other@),
            r matches Some(v) ==> v.inv() && v@ == sr_sub(self@, other@),
    {
        let m = match self.m.sub(other.m) {
            Some(t) => t,
            None => { return None; },
        };
        let x = match self.x.sub(other.x) {
            Some(t) => t,
            None => { return None; },
        };
        let e = match self.e.sub(other.e) {
            Some(t) => t,
            None => { return None; },
        };
        Some(SuperReal { m, x, e })
    }

    /// Product under the nilpotent unit algebra; `None` exactly when an
    /// intermediate overflows.
    pub fn mul(self, other: SuperReal) -> (r: Option<SuperReal>)
        requires
            self.inv(),
            other.inv(),
        ensures
            r is Some <==> sr_mul_ok(self@, other@),
            r matches Some(v) ==> v.inv() && v@ == sr_mul(self@, other@),
    {
        let t1 = match self.x.mul(other.m) {
            Some(t) => t,
            None => { return None; },
        };
        let t2 = match self.m.mul(other.x) {
            Some(t) => t,
            None => { return None; },
        };
        let m = match t1.add(t2) {
            Some(t) => t,
            None => { return None; },
        };
        let x = match self.x.mul(other.x) {
            Some(t) => t,
            None => { return None; },
        };
        let t3 = match self.x.mul(other.e) {
            Some(t) => t,
            None => { return None; },
        };
        let t4 = match self.e.mul(other.x) {
            Some(t) => t,
            None => { return None; },
        };
        let e = match t3.add(t4) {
            Some(t) => t,
            None => { return None; },
        };
        Some(SuperReal { m, x, e })
    }

    /// Componentwise division by a rational with nonzero numerator; `None`
    /// exactly when a component overflows.
    pub fn div_rat(self, by: Rat) -> (r: Option<SuperReal>)
        requires
            self.inv(),
            by.inv(),
            by@.n != 0,
        ensures
            r is Some <==> sr_div_frac_ok(self@, by@),
            r matches Some(v) ==> v.inv() && v@ == sr_div_frac(self@, by@),
    {
        let m = match self.m.div(by) {
            Some(t) => t,
            None => { return None; },
        };
        let x = match self.x.div(by) {
            Some(t) => t,
            None => { return None; },
        };
        let e = match self.e.div(by) {
            Some(t) => t,
            None => { return None; },
        };
        Some(SuperReal { m, x, e })
    }

    /// Division of extended numbers, with the zero fallback for a degenerate
    /// divisor; `None` exactly when an intermediate overflows.
    pub fn div(self, other: SuperReal) -> (r: Option<SuperReal>)
        requires
            self.inv(),
            other.inv(),
        ensures
            r is Some <==> sr_div_ok(self@, other@),
            r matches Some(v) ==> v.inv() && v@ == sr_div(self@, other@),
    {
        let cp = match other.mul(other.conj()) {
            Some(t) => t,
            None => { return None; },
        };
        proof {
            lemma_conj_product_real(other@);
        }
        if cp.x.is_zero() {
            Some(SuperReal::zero())
        } else {
            let w = match self.mul(other.conj()) {
                Some(t) => t,
                None => { return None; },
            };
            w.div_rat(cp.x)
        }
    }

    /// Lexicographic `<` on values.
    pub fn lt(&self, other: &SuperReal) -> (r: bool)
        requires
            self.inv(),
            other.inv(),
        ensures
            r == sr_lt(self@, other@),
    {
        if self.m.lt(other.m) {
            true
        } else if !self.m.eq_val(other.m) {
            false
        } else if self.x.lt(other.x) {
            true
        } else if !self.x.eq_val(other.x) {
            false
        } else {
            self.e.lt(other.e)
        }
    }

    /// Lexicographic `<=` on values.
    pub fn le(&self, other: &SuperReal) -> (r: bool)
        requires
            self.inv(),
            other.inv(),
        ensures
            r == sr_le(self@, other@),
    {
        if self.m.lt(other.m) {
            true
        } else if !self.m.eq_val(other.m) {
            false
        } else if self.x.lt(other.x) {
            true
        } else if !self.x.eq_val(other.x) {
            false
        } else {
            self.e.le(other.e)
        }
    }

    /// Componentwise value equality.
    pub fn eq_val(&self, other: &SuperReal) -> (r: bool)
        requires
            self.inv(),
            other.inv(),
        ensures
            r == sr_eq(self@, other@),
    {
        self.m.eq_val(other.m) && self.x.eq_val(other.x) && self.e.eq_val(other.e)
    }

    /// Whether this value is exactly zero.
    pub fn is_zero(&self) -> (r: bool)
        requires
            self.inv(),
        ensures
            r == sr_eq(self@, sr_zero()),
    {
        self.m.is_zero() && self.x.is_zero() && self.e.is_zero()
    }
}

proof fn nl_conj_zero(xn: int, xd: int, mn: int, md: int)
    by (nonlinear_arith)
    ensures
        (xn * -mn) * (md * xd) + (mn * xn) * (xd * md) == 0,
{
}

/// Law: `a * conj(a)` is a pure real; its `M` and `eps` components are zero
/// and its real part is the square of the real part of `a`.
pub proof fn lemma_conj_product_real(a: SrVal)
    ensures
        frac_eq(sr_mul(a, sr_conj(a)).m, frac_zero()),
        frac_eq(sr_mul(a, sr_conj(a)).e, frac_zero()),
        sr_mul(a, sr_conj(a)).x == frac_mul(a.x, a.x),
{
    nl_conj_zero(a.x.n, a.x.d, a.m.n, a.m.d);
    nl_conj_zero(a.x.n, a.x.d, a.e.n, a.e.d);
}

} // verus!
