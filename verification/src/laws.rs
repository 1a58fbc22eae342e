//! The arithmetic laws of the extended numbers, stated and proved once over
//! the mathematical values that the executable operations are pinned to.

use vstd::prelude::*;

use crate::rat::frac_eq;
use crate::rat::frac_mul;
use crate::rat::frac_neg;
use crate::rat::frac_zero;
use crate::superreal::SrVal;
use crate::superreal::sr_add;
use crate::superreal::sr_conj;
use crate::superreal::sr_div;
use crate::superreal::sr_div_frac;
use crate::superreal::sr_eq;
use crate::superreal::sr_mul;
use crate::superreal::sr_wf;

verus! {

#[verifier::rlimit(100)]
proof fn nl_add_assoc(an: int, ad: int, bn: int, bd: int, cn: int, cd: int)
    by (nonlinear_arith)
    ensures
        an * (bd * cd) + (bn * cd + cn * bd) * ad == (an * bd + bn * ad) * cd + cn * (ad * bd),
        ad * (bd * cd) == (ad * bd) * cd,
{
}

proof fn nl_mul_zero_left(z: int, q: int)
    by (nonlinear_arith)
    requires
        z == 0,
    ensures
        z * q == 0,
{
}

proof fn nl_mul_zero_right(p: int, z: int)
    by (nonlinear_arith)
    requires
        z == 0,
    ensures
        p * z == 0,
{
}

proof fn nl_scale_eq(s: int, xn: int, xd: int, pn: int, pd: int)
    by (nonlinear_arith)
    requires
        xn * pd == pn * xd,
    ensures
        (xn * s) * pd == pn * (s * xd),
{
}

proof fn nl_div_square_cancel(wn: int, wd: int, pn: int, pd: int, sn: int, sd: int)
    requires
        wn * (pd * sd) == (pn * sn) * wd,
    ensures
        ((wn * (sd * sd)) * sn) * pd == pn * ((wd * (sn * sn)) * sd),
{
    assert(((wn * (sd * sd)) * sn) * pd == (wn * (pd * sd)) * (sd * sn)) by (nonlinear_arith);
    assert(((pn * sn) * wd) * (sd * sn) == pn * ((wd * (sn * sn)) * sd)) by (nonlinear_arith);
}

/// Law: addition of extended numbers is associative; the two groupings agree
/// component by component, even as raw numerator/denominator pairs.
pub proof fn lemma_add_assoc(a: SrVal, b: SrVal, c: SrVal)
    ensures
        sr_add(a, sr_add(b, c)) == sr_add(sr_add(a, b), c),
{
    nl_add_assoc(a.m.n, a.m.d, b.m.n, b.m.d, c.m.n, c.m.d);
    nl_add_assoc(a.x.n, a.x.d, b.x.n, b.x.d, c.x.n, c.x.d);
    nl_add_assoc(a.e.n, a.e.d, b.e.n, b.e.d, c.e.n, c.e.d);
}

/// Law: dividing by a nonzero real and multiplying back returns the value
/// exactly, through the reciprocal-via-conjugate identity.
pub proof fn lemma_div_mul_roundtrip(a: SrVal, b: SrVal)
    requires
        sr_wf(a),
        sr_wf(b),
        frac_eq(b.m, frac_zero()),
        frac_eq(b.e, frac_zero()),
        !frac_eq(b.x, frac_zero()),
    ensures
        sr_eq(sr_mul(sr_div(a, b), b), a),
{
    let cp = sr_mul(b, sr_conj(b));
    assert(b.x.n != 0);
    assert(b.m.n == 0);
    assert(b.e.n == 0);
    crate::rat::lemma_square_pos(b.x.n);
    assert(cp.x == frac_mul(b.x, b.x));
    assert(!frac_eq(cp.x, frac_zero()));
    let w = sr_mul(a, sr_conj(b));
    let q = sr_div_frac(w, cp.x);
    assert(sr_div(a, b) == q);
    let r = sr_mul(q, b);

    // Real component: divide by the square of the real part, multiply back.
    nl_div_square_cancel(w.x.n, w.x.d, a.x.n, a.x.d, b.x.n, b.x.d);
    assert(frac_eq(r.x, a.x));

    // Infinite component: the divisor's own `M` coefficient vanishes, so the
    // cross terms through it drop away and the same cancellation applies.
    nl_mul_zero_right(a.x.n, -b.m.n);
    nl_mul_zero_left(a.x.n * -b.m.n, frac_mul(a.m, b.x).d);
    assert(w.m.n == frac_mul(a.m, b.x).n * frac_mul(a.x, frac_neg(b.m)).d);
    nl_scale_eq(
        frac_mul(a.x, frac_neg(b.m)).d,
        frac_mul(a.m, b.x).n,
        frac_mul(a.m, b.x).d,
        a.m.n * b.x.n,
        a.m.d * b.x.d,
    );
    assert(w.m.n * (a.m.d * b.x.d) == (a.m.n * b.x.n) * w.m.d);
    nl_div_square_cancel(w.m.n, w.m.d, a.m.n, a.m.d, b.x.n, b.x.d);
    let t6m = frac_mul(q.m, b.x);
    assert(frac_eq(t6m, a.m));
    nl_mul_zero_right(q.x.n, b.m.n);
    nl_mul_zero_left(q.x.n * b.m.n, t6m.d);
    nl_scale_eq(frac_mul(q.x, b.m).d, t6m.n, t6m.d, a.m.n, a.m.d);
    assert(frac_eq(r.m, a.m));

    // Infinitesimal component: same shape as the infinite one.
    nl_mul_zero_right(a.x.n, -b.e.n);
    nl_mul_zero_left(a.x.n * -b.e.n, frac_mul(a.e, b.x).d);
    assert(w.e.n == frac_mul(a.e, b.x).n * frac_mul(a.x, frac_neg(b.e)).d);
    nl_scale_eq(
        frac_mul(a.x, frac_neg(b.e)).d,
        frac_mul(a.e, b.x).n,
        frac_mul(a.e, b.x).d,
        a.e.n * b.x.n,
        a.e.d * b.x.d,
    );
    assert(w.e.n * (a.e.d * b.x.d) == (a.e.n * b.x.n) * w.e.d);
    nl_div_square_cancel(w.e.n, w.e.d, a.e.n, a.e.d, b.x.n, b.x.d);
    let t6e = frac_mul(q.e, b.x);
    assert(frac_eq(t6e, a.e));
    nl_mul_zero_right(q.x.n, b.e.n);
    nl_mul_zero_left(q.x.n * b.e.n, t6e.d);
    nl_scale_eq(frac_mul(q.x, b.e).d, t6e.n, t6e.d, a.e.n, a.e.d);
    assert(frac_eq(r.e, a.e));
}

} // verus!
