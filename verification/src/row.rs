//! A tableau row: a vector of extended-number coefficients plus one
//! distinguished constant term (`minus_z`, a right-hand side or the
//! objective's constant). Pivoting mutates rows in place through the
//! operations here; an operation whose arithmetic overflows reports `false`
//! and leaves the row unchanged.

use vstd::prelude::*;

use crate::rat::frac_fits;
use crate::rat::frac_mul;
use crate::superreal::SrVal;
use crate::superreal::SuperReal;
use crate::superreal::sr_add;
use crate::superreal::sr_add_ok;
use crate::superreal::sr_conj;
use crate::superreal::sr_div_frac;
use crate::superreal::sr_div_frac_ok;
use crate::superreal::sr_eq;
use crate::superreal::sr_mul;
use crate::superreal::sr_mul_ok;
use crate::superreal::sr_sub;
use crate::superreal::sr_sub_ok;

verus! {

/// Mathematical value of a row.
pub struct RowVal {
    pub cs: Seq<SrVal>,
    pub mz: SrVal,
}

/// Componentwise sum of two rows of equal width.
pub open spec fn row_add(a: RowVal, b: RowVal) -> RowVal {
    RowVal { cs: Seq::new(a.cs.len(), |i: int| sr_add(a.cs[i], b.cs[i])), mz: sr_add(a.mz, b.mz) }
}

/// Whether the componentwise sum stays representable.
pub open spec fn row_add_ok(a: RowVal, b: RowVal) -> bool {
    &&& forall|i: int| 0 <= i < a.cs.len() ==> #[trigger] sr_add_ok(a.cs[i], b.cs[i])
    &&& sr_add_ok(a.mz, b.mz)
}

/// Componentwise difference of two rows of equal width.
pub open spec fn row_sub(a: RowVal, b: RowVal) -> RowVal {
    RowVal { cs: Seq::new(a.cs.len(), |i: int| sr_sub(a.cs[i], b.cs[i])), mz: sr_sub(a.mz, b.mz) }
}

/// Whether the componentwise difference stays representable.
pub open spec fn row_sub_ok(a: RowVal, b: RowVal) -> bool {
    &&& forall|i: int| 0 <= i < a.cs.len() ==> #[trigger] sr_sub_ok(a.cs[i], b.cs[i])
    &&& sr_sub_ok(a.mz, b.mz)
}

/// `a - b*by`, componentwise: the pivot-elimination primitive.
pub open spec fn row_sub_mul(a: RowVal, b: RowVal, by: SrVal) -> RowVal {
    RowVal {
        cs: Seq::new(a.cs.len(), |i: int| sr_sub(a.cs[i], sr_mul(b.cs[i], by))),
        mz: sr_sub(a.mz, sr_mul(b.mz, by)),
    }
}

/// Whether `a - b*by` stays representable at every step.
pub open spec fn row_sub_mul_ok(a: RowVal, b: RowVal, by: SrVal) -> bool {
    &&& forall|i: int| 0 <= i < a.cs.len() ==> #[trigger] sr_mul_ok(b.cs[i], by)
    &&& forall|i: int| 0 <= i < a.cs.len() ==> #[trigger] sr_sub_ok(a.cs[i], sr_mul(b.cs[i], by))
    &&& sr_mul_ok(b.mz, by)
    &&& sr_sub_ok(a.mz, sr_mul(b.mz, by))
}

/// Every slot of the row multiplied by `by`.
pub open spec fn row_scale(a: RowVal, by: SrVal) -> RowVal {
    RowVal { cs: Seq::new(a.cs.len(), |i: int| sr_mul(a.cs[i], by)), mz: sr_mul(a.mz, by) }
}

/// Whether the scaling stays representable at every step.
pub open spec fn row_scale_ok(a: RowVal, by: SrVal) -> bool {
    &&& forall|i: int| 0 <= i < a.cs.len() ==> #[trigger] sr_mul_ok(a.cs[i], by)
    &&& sr_mul_ok(a.mz, by)
}

/// Componentwise representation reduction of a whole row; values are
/// unchanged.
pub open spec fn row_reduced(a: RowVal) -> RowVal {
    RowVal {
        cs: Seq::new(a.cs.len(), |i: int| crate::superreal::sr_reduced(a.cs[i])),
        mz: crate::superreal::sr_reduced(a.mz),
    }
}

/// The reciprocal of `by` through the conjugate: `conj(by) / real(by)^2`.
/// Meaningful only when the real part of `by` is nonzero.
pub open spec fn sr_recip(by: SrVal) -> SrVal {
    sr_div_frac(sr_conj(by), frac_mul(by.x, by.x))
}

/// Whether the reciprocal and the scaling by it stay representable.
pub open spec fn row_div_ok(a: RowVal, by: SrVal) -> bool {
    &&& frac_fits(frac_mul(by.x, by.x))
    &&& sr_div_frac_ok(sr_conj(by), frac_mul(by.x, by.x))
    &&& row_scale_ok(a, sr_recip(by))
}

/// A tableau row.
#[derive(Clone, Debug)]
pub struct Row {
    pub coefficients: Vec<SuperReal>,
    pub minus_z: SuperReal,
}

impl View for Row {
    type V = RowVal;

    open spec fn view(&self) -> RowVal {
        RowVal {
            cs: Seq::new(self.coefficients.len() as nat, |i: int| self.coefficients[i]@),
            mz: self.minus_z@,
        }
    }
}

impl PartialEq for Row {
    fn eq(&self, other: &Row) -> (r: bool) {
        if self.coefficients.len() != other.coefficients.len() {
            return false;
        }
        if !(self.minus_z == other.minus_z) {
            return false;
        }
        let n = self.coefficients.len();
        let mut i: usize = 0;
        while i < n
            invariant
                i <= n,
                n == self.coefficients.len(),
                n == other.coefficients.len(),
                forall|j: int| 0 <= j < i ==> self.coefficients[j] == other.coefficients[j],
            decreases n - i,
        {
            if !(self.coefficients[i] == other.coefficients[i]) {
                return false;
            }
            i += 1;
        }
        proof {
            assert(self.coefficients@ =~= other.coefficients@);
        }
        true
    }
}

impl vstd::std_specs::cmp::PartialEqSpecImpl for Row {
    open spec fn obeys_eq_spec() -> bool {
        true
    }

    open spec fn eq_spec(&self, other: &Row) -> bool {
        self.coefficients@ == other.coefficients@ && self.minus_z == other.minus_z
    }
}

impl Row {
    /// Every slot well-formed.
    pub open spec fn inv(self) -> bool {
        &&& forall|i: int|
            0 <= i < self.coefficients.len() ==> (#[trigger] self.coefficients[i]).inv()
        &&& self.minus_z.inv()
    }

    /// A row from its coefficients and constant term.
    pub fn new(coefficients: Vec<SuperReal>, minus_z: SuperReal) -> (r: Row)
        ensures
            r.coefficients == coefficients,
            r.minus_z == minus_z,
    {
        Row { coefficients, minus_z }
    }

    /// The number of slots: the coefficients plus the constant term.
    pub fn len(&self) -> (r: usize)
        requires
            self.coefficients.len() < usize::MAX,
        ensures
            r == self.coefficients.len() + 1,
    {
        self.coefficients.len() + 1
    }

    /// A row from plain integers: the last becomes the constant term, the
    /// rest the coefficients, all lifted to pure reals.
    pub fn from_ints(vec: &Vec<i64>) -> (r: Row)
        requires
            vec.len() >= 1,
            forall|i: int| 0 <= i < vec.len() ==> (#[trigger] vec[i]) != i64::MIN,
        ensures
            r.inv(),
            r@.cs.len() == vec.len() - 1,
            forall|i: int|
                0 <= i < vec.len() - 1 ==> (#[trigger] r@.cs[i]) == (SrVal {
                    m: crate::rat::frac_zero(),
                    x: crate::rat::Frac { n: vec[i] as int, d: 1 },
                    e: crate::rat::frac_zero(),
                }),
            r@.mz == (SrVal {
                m: crate::rat::frac_zero(),
                x: crate::rat::Frac { n: vec[vec.len() - 1] as int, d: 1 },
                e: crate::rat::frac_zero(),
            }),
    {
        let n = vec.len() - 1;
        let mut coefficients: Vec<SuperReal> = Vec::new();
        let mut i: usize = 0;
        while i < n
            invariant
                i <= n,
                n == vec.len() - 1,
                forall|j: int| 0 <= j < vec.len() ==> (#[trigger] vec[j]) != i64::MIN,
                coefficients@.len() == i,
                forall|j: int| 0 <= j < i ==> (#[trigger] coefficients[j]).inv(),
                forall|j: int|
                    0 <= j < i ==> (#[trigger] coefficients[j]@) == (SrVal {
                        m: crate::rat::frac_zero(),
                        x: crate::rat::Frac { n: vec[j] as int, d: 1 },
                        e: crate::rat::frac_zero(),
                    }),
            decreases n - i,
        {
            coefficients.push(SuperReal::from_int(vec[i]));
            i += 1;
        }
        Row { coefficients, minus_z: SuperReal::from_int(vec[n]) }
    }

    /// Reduces every slot's representation, so the next pivot's cross
    /// products stay in range; values are unchanged.
    pub fn reduce(&mut self)
        requires
            old(self).inv(),
        ensures
            final(self).inv(),
            final(self)@.cs.len() == old(self)@.cs.len(),
            forall|i: int|
                0 <= i < old(self)@.cs.len() ==> sr_eq(
                    #[trigger] final(self)@.cs[i],
                    old(self)@.cs[i],
                ),
            sr_eq(final(self)@.mz, old(self)@.mz),
            final(self)@ == row_reduced(old(self)@),
    {
        let n = self.coefficients.len();
        let mut cs: Vec<SuperReal> = Vec::new();
        let mut i: usize = 0;
        while i < n
            invariant
                i <= n,
                *self == *old(self),
                self.inv(),
                n == self.coefficients.len(),
                cs@.len() == i,
                forall|j: int| 0 <= j < i ==> (#[trigger] cs[j]).inv(),
                forall|j: int| 0 <= j < i ==> sr_eq(#[trigger] cs[j]@, self@.cs[j]),
                forall|j: int|
                    0 <= j < i ==> (#[trigger] cs[j]@) == crate::superreal::sr_reduced(
                        self@.cs[j],
                    ),
            decreases n - i,
        {
            cs.push(self.coefficients[i].reduce());
            i += 1;
        }
        self.coefficients = cs;
        self.minus_z = self.minus_z.reduce();
        proof {
            assert(self@.cs =~= row_reduced(old(self)@).cs);
        }
    }

    /// Componentwise sum with a row of the same width. Reports `false` and
    /// leaves the row unchanged exactly when the arithmetic overflows.
    pub fn add(&mut self, row: &Row) -> (r: bool)
        requires
            old(self).inv(),
            row.inv(),
            old(self).coefficients.len() == row.coefficients.len(),
        ensures
            r == row_add_ok(old(self)@, row@),
            r ==> final(self).inv() && final(self)@ == row_add(old(self)@, row@),
            !r ==> *final(self) == *old(self),
    {
        let n = self.coefficients.len();
        let mut cs: Vec<SuperReal> = Vec::new();
        let mut i: usize = 0;
        while i < n
            invariant
                i <= n,
                *self == *old(self),
                self.inv(),
                row.inv(),
                n == self.coefficients.len(),
                n == row.coefficients.len(),
                cs@.len() == i,
                forall|j: int| 0 <= j < i ==> #[trigger] sr_add_ok(self@.cs[j], row@.cs[j]),
                forall|j: int| 0 <= j < i ==> (#[trigger] cs[j]).inv(),
                forall|j: int| 0 <= j < i ==> (#[trigger] cs[j]@) == sr_add(self@.cs[j], row@.cs[j]),
            decreases n - i,
        {
            match self.coefficients[i].add(row.coefficients[i]) {
                Some(v) => cs.push(v),
                None => {
                    proof {
                        assert(!sr_add_ok(old(self)@.cs[i as int], row@.cs[i as int]));
                    }
                    return false;
                },
            }
            i += 1;
        }
        match self.minus_z.add(row.minus_z) {
            Some(mz) => {
                self.coefficients = cs;
                self.minus_z = mz;
                proof {
                    assert(self@.cs =~= row_add(old(self)@, row@).cs);
                }
                true
            },
            None => false,
        }
    }

    /// Componentwise difference with a row of the same width. Reports `false`
    /// and leaves the row unchanged exactly when the arithmetic overflows.
    pub fn sub(&mut self, row: &Row) -> (r: bool)
        requires
            old(self).inv(),
            row.inv(),
            old(self).coefficients.len() == row.coefficients.len(),
        ensures
            r == row_sub_ok(old(self)@, row@),
            r ==> final(self).inv() && final(self)@ == row_sub(old(self)@, row@),
            !r ==> *final(self) == *old(self),
    {
        let n = self.coefficients.len();
        let mut cs: Vec<SuperReal> = Vec::new();
        let mut i: usize = 0;
        while i < n
            invariant
                i <= n,
                *self == *old(self),
                self.inv(),
                row.inv(),
                n == self.coefficients.len(),
                n == row.coefficients.len(),
                cs@.len() == i,
                forall|j: int| 0 <= j < i ==> #[trigger] sr_sub_ok(self@.cs[j], row@.cs[j]),
                forall|j: int| 0 <= j < i ==> (#[trigger] cs[j]).inv(),
                forall|j: int| 0 <= j < i ==> (#[trigger] cs[j]@) == sr_sub(self@.cs[j], row@.cs[j]),
            decreases n - i,
        {
            match self.coefficients[i].sub(row.coefficients[i]) {
                Some(v) => cs.push(v),
                None => {
                    proof {
                        assert(!sr_sub_ok(old(self)@.cs[i as int], row@.cs[i as int]));
                    }
                    return false;
                },
            }
            i += 1;
        }
        match self.minus_z.sub(row.minus_z) {
            Some(mz) => {
                self.coefficients = cs;
                self.minus_z = mz;
                proof {
                    assert(self@.cs =~= row_sub(old(self)@, row@).cs);
                }
                true
            },
            None => false,
        }
    }

    /// Subtracts `row * by` componentwise: the pivot-elimination primitive.
    /// Reports `false` and leaves the row unchanged exactly when the
    /// arithmetic overflows.
    pub fn sub_mul(&mut self, row: &Row, by: SuperReal) -> (r: bool)
        requires
            old(self).inv(),
            row.inv(),
            by.inv(),
            old(self).coefficients.len() == row.coefficients.len(),
        ensures
            r == row_sub_mul_ok(old(self)@, row@, by@),
            r ==> final(self).inv() && final(self)@ == row_sub_mul(old(self)@, row@, by@),
            !r ==> *final(self) == *old(self),
    {
        let n = self.coefficients.len();
        let mut cs: Vec<SuperReal> = Vec::new();
        let mut i: usize = 0;
        while i < n
            invariant
                i <= n,
                *self == *old(self),
                self.inv(),
                row.inv(),
                by.inv(),
                n == self.coefficients.len(),
                n == row.coefficients.len(),
                cs@.len() == i,
                forall|j: int| 0 <= j < i ==> #[trigger] sr_mul_ok(row@.cs[j], by@),
                forall|j: int|
                    0 <= j < i ==> #[trigger] sr_sub_ok(self@.cs[j], sr_mul(row@.cs[j], by@)),
                forall|j: int| 0 <= j < i ==> (#[trigger] cs[j]).inv(),
                forall|j: int|
                    0 <= j < i ==> (#[trigger] cs[j]@) == sr_sub(
                        self@.cs[j],
                        sr_mul(row@.cs[j], by@),
                    ),
            decreases n - i,
        {
            let t = match row.coefficients[i].mul(by) {
                Some(v) => v,
                None => {
                    proof {
                        assert(!sr_mul_ok(row@.cs[i as int], by@));
                    }
                    return false;
                },
            };
            match self.coefficients[i].sub(t) {
                Some(v) => cs.push(v),
                None => {
                    proof {
                        assert(!sr_sub_ok(old(self)@.cs[i as int], sr_mul(row@.cs[i as int], by@)));
                    }
                    return false;
                },
            }
            i += 1;
        }
        let t = match row.minus_z.mul(by) {
            Some(v) => v,
            None => { return false; },
        };
        match self.minus_z.sub(t) {
            Some(mz) => {
                self.coefficients = cs;
                self.minus_z = mz;
                proof {
                    assert(self@.cs =~= row_sub_mul(old(self)@, row@, by@).cs);
                }
                true
            },
            None => false,
        }
    }

    /// Multiplies every slot by an extended number. Reports `false` and
    /// leaves the row unchanged exactly when the arithmetic overflows.
    pub fn mul(&mut self, by: SuperReal) -> (r: bool)
        requires
            old(self).inv(),
            by.inv(),
        ensures
            r == row_scale_ok(old(self)@, by@),
            r ==> final(self).inv() && final(self)@ == row_scale(old(self)@, by@),
            !r ==> *final(self) == *old(self),
    {
        let n = self.coefficients.len();
        let mut cs: Vec<SuperReal> = Vec::new();
        let mut i: usize = 0;
        while i < n
            invariant
                i <= n,
                *self == *old(self),
                self.inv(),
                by.inv(),
                n == self.coefficients.len(),
                cs@.len() == i,
                forall|j: int| 0 <= j < i ==> #[trigger] sr_mul_ok(self@.cs[j], by@),
                forall|j: int| 0 <= j < i ==> (#[trigger] cs[j]).inv(),
                forall|j: int| 0 <= j < i ==> (#[trigger] cs[j]@) == sr_mul(self@.cs[j], by@),
            decreases n - i,
        {
            match self.coefficients[i].mul(by) {
                Some(v) => cs.push(v),
                None => {
                    proof {
                        assert(!sr_mul_ok(old(self)@.cs[i as int], by@));
                    }
                    return false;
                },
            }
            i += 1;
        }
        match self.minus_z.mul(by) {
            Some(mz) => {
                self.coefficients = cs;
                self.minus_z = mz;
                proof {
                    assert(self@.cs =~= row_scale(old(self)@, by@).cs);
                }
                true
            },
            None => false,
        }
    }

    /// Divides every slot by `by` through the reciprocal-via-conjugate trick:
    /// only extended numbers with a nonzero real part are invertible.
    /// Reports `false` and leaves the row unchanged exactly when the
    /// arithmetic overflows.
    pub fn div(&mut self, by: SuperReal) -> (r: bool)
        requires
            old(self).inv(),
            by.inv(),
            by@.x.n != 0,
        ensures
            r == row_div_ok(old(self)@, by@),
            r ==> final(self).inv() && final(self)@ == row_scale(old(self)@, sr_recip(by@)),
            !r ==> *final(self) == *old(self),
    {
        proof {
            crate::rat::lemma_square_pos(by@.x.n);
        }
        let sq = match by.x.mul(by.x) {
            Some(v) => v,
            None => { return false; },
        };
        let inverted = match by.conj().div_rat(sq) {
            Some(v) => v,
            None => { return false; },
        };
        self.mul(inverted)
    }
}

} // verus!
