//! The constraint builder: accumulates relational constraints and an
//! objective row, standardizes them into a slack/surplus tableau with an
//! initial basis, and can transpose a problem into its dual.

use vstd::prelude::*;

use crate::rat::Frac;
use crate::superreal::SrVal;
use crate::superreal::SuperReal;
use crate::superreal::sr_add;
use crate::superreal::sr_add_ok;
use crate::superreal::sr_mul;
use crate::superreal::sr_neg;
use crate::superreal::sr_sub;
use crate::superreal::sr_sub_ok;
use crate::row::Row;
use crate::row::RowVal;

verus! {

/// The relation tagging a constraint row.
#[derive(Debug, Clone, Copy, PartialEq, Eq, Structural)]
pub enum Cond {
    Lt,
    Lte,
    Gt,
    Gte,
    Eq,
}

/// Why a build or a dual transformation was refused.
#[derive(Debug, Clone, Copy, PartialEq, Eq, Structural)]
pub enum BuildError {
    /// No objective row was set.
    MissingObjective,
    /// The constraint rows and the objective do not share one width.
    UnevenRows,
    /// More equality constraints than decision variables: the low-index
    /// basis assignment would repeat a column.
    DuplicateBasis,
    /// The exact arithmetic of an epsilon adjustment or a row negation left
    /// the machine range.
    Overflow,
}

/// An extended number made of three integers.
pub open spec fn sr_trip(m: int, x: int, e: int) -> SrVal {
    SrVal { m: Frac { n: m, d: 1 }, x: Frac { n: x, d: 1 }, e: Frac { n: e, d: 1 } }
}

/// A row of pure reals from plain integers.
pub open spec fn ints_row(cs: Seq<i64>, mz: i64) -> RowVal {
    RowVal { cs: Seq::new(cs.len(), |i: int| sr_trip(0, cs[i] as int, 0)), mz: sr_trip(0, mz as int, 0) }
}

/// The values of a sequence of rows.
pub open spec fn rows_view(s: Seq<Row>) -> Seq<RowVal> {
    Seq::new(s.len(), |i: int| s[i]@)
}

/// A sequence of indices as mathematical integers.
pub open spec fn idxs_view(s: Seq<usize>) -> Seq<int> {
    Seq::new(s.len(), |i: int| s[i] as int)
}

/// How many of the first `k` conditions receive a slack/surplus column
/// (equalities receive none).
pub open spec fn slack_count(conds: Seq<Cond>, k: int) -> int
    decreases k,
{
    if k <= 0 {
        0
    } else {
        slack_count(conds, k - 1) + if conds[k - 1] is Eq {
            0int
        } else {
            1int
        }
    }
}

proof fn lemma_slack_count_bounds(conds: Seq<Cond>, k: int)
    requires
        0 <= k,
    ensures
        0 <= slack_count(conds, k) <= k,
    decreases k,
{
    if k > 0 {
        lemma_slack_count_bounds(conds, k - 1);
    }
}

proof fn lemma_slack_count_mono(conds: Seq<Cond>, i: int, j: int)
    requires
        0 <= i <= j,
    ensures
        slack_count(conds, i) <= slack_count(conds, j),
    decreases j - i,
{
    if i < j {
        lemma_slack_count_mono(conds, i, j - 1);
    }
}

/// The coefficient written into a fresh slack/surplus column.
pub open spec fn slack_val(c: Cond) -> SrVal {
    if c is Lte || c is Lt {
        sr_trip(0, 1, 0)
    } else {
        sr_trip(0, -1, 0)
    }
}

/// One standardized constraint row: the original coefficients, the appended
/// slack columns (all zero but this row's own), and the strict-relation
/// epsilon adjustment of the constant term.
pub open spec fn std_row(r: RowVal, c: Cond, si: int, offset: int, n: int) -> RowVal {
    RowVal {
        cs: Seq::new(
            (offset + n) as nat,
            |j: int|
                if j < offset {
                    r.cs[j]
                } else if !(c is Eq) && j == offset + si {
                    slack_val(c)
                } else {
                    sr_trip(0, 0, 0)
                },
        ),
        mz: if c is Lt {
            sr_sub(r.mz, sr_trip(0, 0, -1))
        } else if c is Gt {
            sr_add(r.mz, sr_trip(0, 0, -1))
        } else {
            r.mz
        },
    }
}

/// The objective row extended with one zero column per assigned slack.
pub open spec fn std_target(t: RowVal, n: int) -> RowVal {
    RowVal {
        cs: Seq::new(
            (t.cs.len() + n) as nat,
            |j: int|
                if j < t.cs.len() {
                    t.cs[j]
                } else {
                    sr_trip(0, 0, 0)
                },
        ),
        mz: t.mz,
    }
}

/// All constraint rows and the objective share the first row's width.
pub open spec fn uniform_width(rows: Seq<RowVal>, tgt: RowVal) -> bool {
    rows.len() == 0 || ((forall|i: int| 0 <= i < rows.len() ==> (#[trigger] rows[i]).cs.len()
        == rows[0].cs.len()) && tgt.cs.len() == rows[0].cs.len())
}

/// Every strict-relation epsilon adjustment stays representable.
pub open spec fn eps_ok(rows: Seq<RowVal>, conds: Seq<Cond>) -> bool {
    forall|i: int|
        0 <= i < rows.len() ==> (((#[trigger] conds[i]) is Lt ==> sr_sub_ok(
            rows[i].mz,
            sr_trip(0, 0, -1),
        )) && (conds[i] is Gt ==> sr_add_ok(rows[i].mz, sr_trip(0, 0, -1))))
}

/// The values of a sequence of extended numbers.
pub open spec fn srs_view(s: Seq<SuperReal>) -> Seq<SrVal> {
    Seq::new(s.len(), |i: int| s[i]@)
}

/// Every constraint row is wide enough for a transpose over `tw` columns.
pub open spec fn wide_enough(rows: Seq<RowVal>, tw: int) -> bool {
    forall|y: int| 0 <= y < rows.len() ==> (#[trigger] rows[y]).cs.len() >= tw
}

/// The dual objective's coefficients: one negated right-hand side per primal
/// row after sign normalization, with strict rows tightened by one
/// infinitesimal and each equality row split in two.
pub open spec fn dual_obj(rows: Seq<RowVal>, conds: Seq<Cond>, k: int) -> Seq<SrVal>
    decreases k,
{
    if k <= 0 {
        Seq::empty()
    } else {
        let pre = dual_obj(rows, conds, k - 1);
        let mz = rows[k - 1].mz;
        match conds[k - 1] {
            Cond::Lte => pre.push(sr_neg(mz)),
            Cond::Lt => pre.push(sr_neg(sr_sub(mz, sr_trip(0, 0, 1)))),
            Cond::Gte => pre.push(sr_neg(sr_mul(mz, sr_trip(0, -1, 0)))),
            Cond::Gt => pre.push(sr_neg(sr_sub(sr_mul(mz, sr_trip(0, -1, 0)), sr_trip(0, 0, 1)))),
            Cond::Eq => pre.push(sr_neg(mz)).push(sr_neg(sr_mul(mz, sr_trip(0, -1, 0)))),
        }
    }
}

/// Whether the arithmetic of the first `k` dual-objective entries stays
/// representable.
pub open spec fn dual_obj_ok(rows: Seq<RowVal>, conds: Seq<Cond>, k: int) -> bool
    decreases k,
{
    if k <= 0 {
        true
    } else {
        let mz = rows[k - 1].mz;
        dual_obj_ok(rows, conds, k - 1) && match conds[k - 1] {
            Cond::Lte => true,
            Cond::Lt => sr_sub_ok(mz, sr_trip(0, 0, 1)),
            Cond::Gte => crate::superreal::sr_mul_ok(mz, sr_trip(0, -1, 0)),
            Cond::Gt => crate::superreal::sr_mul_ok(mz, sr_trip(0, -1, 0)) && sr_sub_ok(
                sr_mul(mz, sr_trip(0, -1, 0)),
                sr_trip(0, 0, 1),
            ),
            Cond::Eq => crate::superreal::sr_mul_ok(mz, sr_trip(0, -1, 0)),
        }
    }
}

proof fn lemma_dual_obj_ok_prefix(rows: Seq<RowVal>, conds: Seq<Cond>, i: int, j: int)
    requires
        0 <= i <= j,
        dual_obj_ok(rows, conds, j),
    ensures
        dual_obj_ok(rows, conds, i),
    decreases j - i,
{
    if i < j {
        lemma_dual_obj_ok_prefix(rows, conds, i, j - 1);
    }
}

/// The standardized tableau that `build` must produce from a builder state:
/// rows of uniform width `offset + n`, the extended objective, and the basis
/// of slack columns first, then low-index decision columns for the equality
/// rows.
pub open spec fn is_standardization(
    rows: Seq<RowVal>,
    conds: Seq<Cond>,
    tgt: RowVal,
    out_rows: Seq<RowVal>,
    out_tgt: RowVal,
    out_basis: Seq<int>,
) -> bool {
    let offset: int = if rows.len() == 0 {
        0
    } else {
        rows[0].cs.len() as int
    };
    let n = slack_count(conds, rows.len() as int);
    &&& out_rows.len() == rows.len()
    &&& forall|i: int|
        0 <= i < rows.len() ==> (#[trigger] out_rows[i]) == std_row(
            rows[i],
            conds[i],
            slack_count(conds, i),
            offset,
            n,
        )
    &&& out_tgt == std_target(tgt, n)
    &&& out_basis.len() == rows.len()
    &&& forall|i: int|
        0 <= i < rows.len() ==> (#[trigger] out_basis[i]) == (if i < n {
            offset + i
        } else {
            i - n
        })
}

/// Law: standardization is a function of the builder state alone; two
/// standardized tableaus of one state are identical, bit for bit.
pub proof fn lemma_standardize_deterministic(
    rows: Seq<RowVal>,
    conds: Seq<Cond>,
    tgt: RowVal,
    r1: Seq<RowVal>,
    t1: RowVal,
    b1: Seq<int>,
    r2: Seq<RowVal>,
    t2: RowVal,
    b2: Seq<int>,
)
    requires
        is_standardization(rows, conds, tgt, r1, t1, b1),
        is_standardization(rows, conds, tgt, r2, t2, b2),
    ensures
        r1 == r2,
        t1 == t2,
        b1 == b2,
{
    assert(r1 =~= r2);
    assert(b1 =~= b2);
}

/// Accumulates relational constraints and an objective, then standardizes.
#[derive(Debug)]
pub struct ConstraintBuilder {
    pub constraints: Vec<Row>,
    pub conditions: Vec<Cond>,
    pub target: Option<Row>,
}

impl ConstraintBuilder {
    /// Well-formedness: one condition per row, every slot well-formed.
    pub open spec fn inv(self) -> bool {
        &&& self.constraints.len() == self.conditions.len()
        &&& forall|i: int|
            0 <= i < self.constraints.len() ==> (#[trigger] self.constraints[i]).inv()
        &&& match self.target {
            Some(t) => t.inv(),
            None => true,
        }
    }

    /// An empty builder.
    pub fn new() -> (r: ConstraintBuilder)
        ensures
            r.inv(),
            r.constraints@.len() == 0,
            r.conditions@.len() == 0,
            r.target is None,
    {
        ConstraintBuilder { constraints: Vec::new(), conditions: Vec::new(), target: None }
    }

    /// Appends a constraint given as plain integer coefficients, a right-hand
    /// side and a relation.
    pub fn push(&mut self, coefficients: Vec<i64>, minus_z: i64, condition: Cond)
        requires
            old(self).inv(),
            forall|i: int| 0 <= i < coefficients.len() ==> (#[trigger] coefficients[i]) != i64::MIN,
            minus_z != i64::MIN,
        ensures
            final(self).inv(),
            final(self).constraints@.len() == old(self).constraints@.len() + 1,
            final(self).constraints@.subrange(0, old(self).constraints@.len() as int) == old(
                self,
            ).constraints@,
            final(self).constraints@.last()@ == ints_row(coefficients@, minus_z),
            final(self).conditions@ == old(self).conditions@.push(condition),
            final(self).target == old(self).target,
    {
        let mut vec = coefficients;
        vec.push(minus_z);
        let row = Row::from_ints(&vec);
        self.constraints.push(row);
        self.conditions.push(condition);
        proof {
            assert(self.constraints@.subrange(0, old(self).constraints@.len() as int) =~= old(
                self,
            ).constraints@);
            assert(self.constraints@.last()@.cs =~= ints_row(coefficients@, minus_z).cs);
        }
    }

    /// Appends an already-built row with its relation.
    pub fn push_row(&mut self, row: Row, condition: Cond)
        requires
            old(self).inv(),
            row.inv(),
        ensures
            final(self).inv(),
            final(self).constraints@ == old(self).constraints@.push(row),
            final(self).conditions@ == old(self).conditions@.push(condition),
            final(self).target == old(self).target,
    {
        self.constraints.push(row);
        self.conditions.push(condition);
    }

    /// Records the objective row; required before building.
    pub fn target(&mut self, target: Row)
        requires
            old(self).inv(),
            target.inv(),
        ensures
            final(self).inv(),
            final(self).constraints == old(self).constraints,
            final(self).conditions == old(self).conditions,
            final(self).target == Some(target),
    {
        self.target = Some(target);
    }

    /// Standardizes the accumulated constraints: assigns one slack/surplus
    /// column to each non-equality row, extends every row and the objective
    /// to the common width, writes `+1`/`-1` into the slack columns, shifts
    /// strict relations by one unit of infinitesimal, and assigns the initial
    /// basis. Fails, rather than building a malformed tableau, exactly as the
    /// error conditions state.
    pub fn build(&self) -> (r: Result<(Vec<Row>, Row, Vec<usize>), BuildError>)
        requires
            self.inv(),
            self.constraints.len() == 0 || self.constraints[0]@.cs.len()
                + self.constraints@.len() <= usize::MAX,
        ensures
            ({
                let rows = rows_view(self.constraints@);
                let conds = self.conditions@;
                let offset: int = if rows.len() == 0 {
                    0
                } else {
                    rows[0].cs.len() as int
                };
                let n = slack_count(conds, rows.len() as int);
                &&& (r is Ok <==> self.target is Some && uniform_width(rows, self.target->Some_0@)
                    && rows.len() - n <= offset && eps_ok(rows, conds))
                &&& (r == Err::<(Vec<Row>, Row, Vec<usize>), BuildError>(
                    BuildError::MissingObjective,
                ) <==> self.target is None)
                &&& (r == Err::<(Vec<Row>, Row, Vec<usize>), BuildError>(BuildError::UnevenRows)
                    <==> self.target is Some && !uniform_width(rows, self.target->Some_0@))
                &&& (r == Err::<(Vec<Row>, Row, Vec<usize>), BuildError>(
                    BuildError::DuplicateBasis,
                ) <==> self.target is Some && uniform_width(rows, self.target->Some_0@) && rows.len()
                    - n > offset)
                &&& (r matches Ok(v) ==> {
                    &&& is_standardization(
                        rows,
                        conds,
                        self.target->Some_0@,
                        rows_view(v.0@),
                        v.1@,
                        idxs_view(v.2@),
                    )
                    &&& forall|i: int| 0 <= i < v.0@.len() ==> (#[trigger] v.0[i]).inv()
                    &&& v.1.inv()
                    &&& forall|i: int|
                        0 <= i < v.0@.len() ==> (#[trigger] v.0[i])@.cs.len() == offset + n
                    &&& v.1@.cs.len() == self.target->Some_0@.cs.len() + n
                    &&& v.2@.len() == rows.len()
                    &&& forall|i: int, j: int|
                        #![trigger v.2@[i], v.2@[j]]
                        0 <= i < j < v.2@.len() ==> v.2@[i] != v.2@[j]
                    &&& forall|i: int| 0 <= i < v.2@.len() ==> (#[trigger] v.2@[i]) < offset + n
                })
            }),
    {
        let len = self.constraints.len();
        let target = match &self.target {
            None => {
                return Err(BuildError::MissingObjective);
            },
            Some(t) => t,
        };
        let offset: usize = if len == 0 {
            0
        } else {
            self.constraints[0].coefficients.len()
        };

        // One width for every row and the objective.
        let mut i: usize = 0;
        while i < len
            invariant
                i <= len,
                len == self.constraints.len(),
                offset as int == (if len == 0 {
                    0int
                } else {
                    self.constraints[0]@.cs.len() as int
                }),
                self.target is Some,
                forall|j: int|
                    0 <= j < i ==> (#[trigger] self.constraints[j])@.cs.len() == offset,
            decreases len - i,
        {
            if self.constraints[i].coefficients.len() != offset {
                proof {
                    let rows = rows_view(self.constraints@);
                    assert(rows[i as int].cs.len() != rows[0].cs.len());
                }
                return Err(BuildError::UnevenRows);
            }
            i += 1;
        }
        if len > 0 && target.coefficients.len() != offset {
            return Err(BuildError::UnevenRows);
        }

        // Count the slack columns.
        let mut n: usize = 0;
        let mut i: usize = 0;
        while i < len
            invariant
                i <= len,
                len == self.conditions.len(),
                n == slack_count(self.conditions@, i as int),
                n <= i,
            decreases len - i,
        {
            match self.conditions[i] {
                Cond::Eq => {},
                _ => {
                    n += 1;
                },
            }
            i += 1;
        }

        if len - n > offset {
            return Err(BuildError::DuplicateBasis);
        }

        let width = offset + n;
        let ghost rows = rows_view(self.constraints@);
        let ghost conds = self.conditions@;

        // Standardize each row.
        let mut out_rows: Vec<Row> = Vec::new();
        let mut si: usize = 0;
        let mut i: usize = 0;
        while i < len
            invariant
                i <= len,
                len == self.constraints.len(),
                len == self.conditions.len(),
                self.inv(),
                rows == rows_view(self.constraints@),
                conds == self.conditions@,
                offset as int == (if len == 0 {
                    0int
                } else {
                    self.constraints[0]@.cs.len() as int
                }),
                forall|j: int|
                    0 <= j < len ==> (#[trigger] self.constraints[j])@.cs.len() == offset,
                width == offset + n,
                n == slack_count(conds, len as int),
                self.target is Some,
                uniform_width(rows, self.target->Some_0@),
                len as int - n as int <= offset as int,
                si == slack_count(conds, i as int),
                si <= n,
                out_rows@.len() == i,
                forall|j: int| 0 <= j < i ==> (#[trigger] out_rows[j]).inv(),
                forall|j: int|
                    0 <= j < i ==> (#[trigger] out_rows[j])@ == std_row(
                        rows[j],
                        conds[j],
                        slack_count(conds, j),
                        offset as int,
                        n as int,
                    ),
                forall|j: int|
                    0 <= j < i ==> (((#[trigger] conds[j]) is Lt ==> sr_sub_ok(
                        rows[j].mz,
                        sr_trip(0, 0, -1),
                    )) && (conds[j] is Gt ==> sr_add_ok(rows[j].mz, sr_trip(0, 0, -1)))),
            decreases len - i,
        {
            proof {
                lemma_slack_count_mono(conds, (i + 1) as int, len as int);
            }
            let cond = self.conditions[i];
            let is_eq = match cond {
                Cond::Eq => true,
                _ => false,
            };
            let mut cs: Vec<SuperReal> = Vec::new();
            let mut j: usize = 0;
            while j < width
                invariant
                    j <= width,
                    i < len,
                    len == self.constraints.len(),
                    self.inv(),
                    offset == self.constraints[i as int]@.cs.len(),
                    width == offset + n,
                    si < n || is_eq,
                    cond == self.conditions[i as int],
                    is_eq == (cond is Eq),
                    cs@.len() == j,
                    forall|l: int| 0 <= l < j ==> (#[trigger] cs[l]).inv(),
                    forall|l: int|
                        0 <= l < j ==> (#[trigger] cs[l])@ == (if l < offset {
                            self.constraints[i as int]@.cs[l]
                        } else if !is_eq && l == offset + si {
                            slack_val(cond)
                        } else {
                            sr_trip(0, 0, 0)
                        }),
                decreases width - j,
            {
                if j < offset {
                    cs.push(self.constraints[i].coefficients[j]);
                } else if !is_eq && j == offset + si {
                    match cond {
                        Cond::Lte | Cond::Lt => cs.push(SuperReal::from_int(1)),
                        _ => cs.push(SuperReal::from_int(-1)),
                    }
                } else {
                    cs.push(SuperReal::from_int(0));
                }
                j += 1;
            }
            let mz = match cond {
                Cond::Lt => {
                    match self.constraints[i].minus_z.sub(SuperReal::from_triple(0, 0, -1)) {
                        Some(v) => v,
                        None => {
                            proof {
                                assert(conds[i as int] is Lt);
                                assert(!sr_sub_ok(rows[i as int].mz, sr_trip(0, 0, -1)));
                            }
                            return Err(BuildError::Overflow);
                        },
                    }
                },
                Cond::Gt => {
                    match self.constraints[i].minus_z.add(SuperReal::from_triple(0, 0, -1)) {
                        Some(v) => v,
                        None => {
                            proof {
                                assert(conds[i as int] is Gt);
                                assert(!sr_add_ok(rows[i as int].mz, sr_trip(0, 0, -1)));
                            }
                            return Err(BuildError::Overflow);
                        },
                    }
                },
                _ => self.constraints[i].minus_z,
            };
            let row = Row::new(cs, mz);
            proof {
                assert(row@.cs =~= std_row(
                    rows[i as int],
                    conds[i as int],
                    slack_count(conds, i as int),
                    offset as int,
                    n as int,
                ).cs);
            }
            out_rows.push(row);
            if !is_eq {
                si += 1;
            }
            i += 1;
        }

        // Extend the objective with zero slack columns.
        let twidth = target.coefficients.len() + n;
        let mut tcs: Vec<SuperReal> = Vec::new();
        let mut j: usize = 0;
        while j < twidth
            invariant
                j <= twidth,
                twidth == target@.cs.len() + n,
                target.inv(),
                tcs@.len() == j,
                forall|l: int| 0 <= l < j ==> (#[trigger] tcs[l]).inv(),
                forall|l: int|
                    0 <= l < j ==> (#[trigger] tcs[l])@ == (if l < target@.cs.len() {
                        target@.cs[l]
                    } else {
                        sr_trip(0, 0, 0)
                    }),
            decreases twidth - j,
        {
            if j < target.coefficients.len() {
                tcs.push(target.coefficients[j]);
            } else {
                tcs.push(SuperReal::from_int(0));
            }
            j += 1;
        }
        let out_target = Row::new(tcs, target.minus_z);

        // The initial basis: slack columns first, then low-index decision
        // columns for the equality rows.
        let mut basis: Vec<usize> = Vec::new();
        let mut k: usize = 0;
        while k < n
            invariant
                k <= n,
                width == offset + n,
                basis@.len() == k,
                forall|l: int| 0 <= l < k ==> (#[trigger] basis[l]) == offset + l,
            decreases n - k,
        {
            basis.push(offset + k);
            k += 1;
        }
        let mut k: usize = n;
        while k < len
            invariant
                n <= k <= len,
                width == offset + n,
                basis@.len() == k,
                forall|l: int| 0 <= l < n ==> (#[trigger] basis[l]) == offset + l,
                forall|l: int| n <= l < k ==> (#[trigger] basis[l]) == l - n,
            decreases len - k,
        {
            basis.push(k - n);
            k += 1;
        }

        proof {
            lemma_slack_count_bounds(conds, len as int);
            assert(out_target@.cs =~= std_target(target@, n as int).cs);
        }
        Ok((out_rows, out_target, basis))
    }

    /// The dual problem: transpose the original constraint columns into rows
    /// whose right-hand sides are the objective's coefficients, tag every
    /// dual constraint `>=`, and take as dual objective the negated
    /// right-hand sides of the sign-normalized, epsilon-adjusted primal rows
    /// (each equality row split in two), with the negated objective constant.
    pub fn transform(&self) -> (r: Result<ConstraintBuilder, BuildError>)
        requires
            self.inv(),
        ensures
            ({
                let rows = rows_view(self.constraints@);
                let conds = self.conditions@;
                let len = rows.len() as int;
                &&& (r == Err::<ConstraintBuilder, BuildError>(BuildError::MissingObjective)
                    <==> self.target is None)
                &&& (r == Err::<ConstraintBuilder, BuildError>(BuildError::UnevenRows)
                    <==> self.target is Some && !wide_enough(
                    rows,
                    self.target->Some_0@.cs.len() as int,
                ))
                &&& (r is Ok <==> self.target is Some && wide_enough(
                    rows,
                    self.target->Some_0@.cs.len() as int,
                ) && dual_obj_ok(rows, conds, len))
                &&& (r == Err::<ConstraintBuilder, BuildError>(BuildError::Overflow)
                    <==> self.target is Some && wide_enough(
                    rows,
                    self.target->Some_0@.cs.len() as int,
                ) && !dual_obj_ok(rows, conds, len))
                &&& (r matches Ok(b) ==> {
                    let tgt = self.target->Some_0@;
                    let tw = tgt.cs.len() as int;
                    &&& b.inv()
                    &&& b.constraints@.len() == tw
                    &&& forall|x: int|
                        0 <= x < tw ==> (#[trigger] b.constraints[x])@.cs.len() == len
                    &&& forall|x: int, y: int|
                        #![trigger b.constraints[x]@.cs[y]]
                        0 <= x < tw && 0 <= y < len ==> b.constraints[x]@.cs[y] == rows[y].cs[x]
                    &&& forall|x: int| 0 <= x < tw ==> (#[trigger] b.constraints[x])@.mz
                        == tgt.cs[x]
                    &&& b.conditions@.len() == tw
                    &&& forall|x: int| 0 <= x < tw ==> (#[trigger] b.conditions[x]) == Cond::Gte
                    &&& b.target is Some
                    &&& srs_view(b.target->Some_0.coefficients@) == dual_obj(rows, conds, len)
                    &&& b.target->Some_0@.mz == sr_neg(tgt.mz)
                })
            }),
    {
        let len = self.constraints.len();
        let ghost rows = rows_view(self.constraints@);
        let ghost conds = self.conditions@;
        let target = match &self.target {
            None => {
                return Err(BuildError::MissingObjective);
            },
            Some(t) => t,
        };
        let tw = target.coefficients.len();

        // Every constraint row must reach across the transposed columns.
        let mut y: usize = 0;
        while y < len
            invariant
                y <= len,
                len == self.constraints.len(),
                rows == rows_view(self.constraints@),
                self.target is Some,
                tw == self.target->Some_0@.cs.len(),
                forall|j: int| 0 <= j < y ==> (#[trigger] rows[j]).cs.len() >= tw,
            decreases len - y,
        {
            if self.constraints[y].coefficients.len() < tw {
                proof {
                    assert(rows[y as int].cs.len() < tw);
                }
                return Err(BuildError::UnevenRows);
            }
            y += 1;
        }

        // Transpose: dual constraint `x` holds column `x` of the original
        // rows, with the objective's coefficient `x` as right-hand side.
        let mut dual_rows: Vec<Row> = Vec::new();
        let mut conditions: Vec<Cond> = Vec::new();
        let mut x: usize = 0;
        while x < tw
            invariant
                x <= tw,
                len == self.constraints.len(),
                self.inv(),
                rows == rows_view(self.constraints@),
                self.target is Some,
                tw == self.target->Some_0@.cs.len(),
                self.target->Some_0 == *target,
                wide_enough(rows, tw as int),
                dual_rows@.len() == x,
                conditions@.len() == x,
                forall|j: int| 0 <= j < x ==> (#[trigger] dual_rows[j]).inv(),
                forall|j: int| 0 <= j < x ==> (#[trigger] dual_rows[j])@.cs.len() == len,
                forall|j: int, k: int|
                    #![trigger dual_rows[j]@.cs[k]]
                    0 <= j < x && 0 <= k < len ==> dual_rows[j]@.cs[k] == rows[k].cs[j],
                forall|j: int| 0 <= j < x ==> (#[trigger] dual_rows[j])@.mz
                    == self.target->Some_0@.cs[j],
                forall|j: int| 0 <= j < x ==> (#[trigger] conditions[j]) == Cond::Gte,
            decreases tw - x,
        {
            let mut cs: Vec<SuperReal> = Vec::new();
            let mut y: usize = 0;
            while y < len
                invariant
                    y <= len,
                    x < tw,
                    len == self.constraints.len(),
                    self.inv(),
                    rows == rows_view(self.constraints@),
                    wide_enough(rows, tw as int),
                    cs@.len() == y,
                    forall|k: int| 0 <= k < y ==> (#[trigger] cs[k]).inv(),
                    forall|k: int| 0 <= k < y ==> (#[trigger] cs[k])@ == rows[k].cs[x as int],
                decreases len - y,
            {
                proof {
                    assert(rows[y as int].cs.len() >= tw);
                }
                cs.push(self.constraints[y].coefficients[x]);
                y += 1;
            }
            dual_rows.push(Row::new(cs, target.coefficients[x]));
            conditions.push(Cond::Gte);
            x += 1;
        }

        // The dual objective.
        let mut obj: Vec<SuperReal> = Vec::new();
        let mut i: usize = 0;
        while i < len
            invariant
                i <= len,
                len == self.constraints.len(),
                len == self.conditions.len(),
                self.inv(),
                rows == rows_view(self.constraints@),
                conds == self.conditions@,
                self.target is Some,
                tw == self.target->Some_0@.cs.len(),
                wide_enough(rows, tw as int),
                dual_obj_ok(rows, conds, i as int),
                srs_view(obj@) == dual_obj(rows, conds, i as int),
                forall|k: int| 0 <= k < obj@.len() ==> (#[trigger] obj[k]).inv(),
            decreases len - i,
        {
            let mz = self.constraints[i].minus_z;
            match self.conditions[i] {
                Cond::Lte => {
                    obj.push(mz.neg());
                },
                Cond::Lt => {
                    let t = match mz.sub(SuperReal::from_triple(0, 0, 1)) {
                        Some(v) => v,
                        None => {
                            proof {
                                lemma_dual_obj_ok_prefix_refute(rows, conds, (i + 1) as int, len as int);
                            }
                            return Err(BuildError::Overflow);
                        },
                    };
                    obj.push(t.neg());
                },
                Cond::Gte => {
                    let t = match mz.mul(SuperReal::from_triple(0, -1, 0)) {
                        Some(v) => v,
                        None => {
                            proof {
                                lemma_dual_obj_ok_prefix_refute(rows, conds, (i + 1) as int, len as int);
                            }
                            return Err(BuildError::Overflow);
                        },
                    };
                    obj.push(t.neg());
                },
                Cond::Gt => {
                    let t = match mz.mul(SuperReal::from_triple(0, -1, 0)) {
                        Some(v) => v,
                        None => {
                            proof {
                                lemma_dual_obj_ok_prefix_refute(rows, conds, (i + 1) as int, len as int);
                            }
                            return Err(BuildError::Overflow);
                        },
                    };
                    let t2 = match t.sub(SuperReal::from_triple(0, 0, 1)) {
                        Some(v) => v,
                        None => {
                            proof {
                                lemma_dual_obj_ok_prefix_refute(rows, conds, (i + 1) as int, len as int);
                            }
                            return Err(BuildError::Overflow);
                        },
                    };
                    obj.push(t2.neg());
                },
                Cond::Eq => {
                    obj.push(mz.neg());
                    let t = match mz.mul(SuperReal::from_triple(0, -1, 0)) {
                        Some(v) => v,
                        None => {
                            proof {
                                lemma_dual_obj_ok_prefix_refute(rows, conds, (i + 1) as int, len as int);
                            }
                            return Err(BuildError::Overflow);
                        },
                    };
                    obj.push(t.neg());
                },
            }
            proof {
                assert(srs_view(obj@) =~= dual_obj(rows, conds, (i + 1) as int));
            }
            i += 1;
        }

        let dual_target = Row::new(obj, target.minus_z.neg());
        let out = ConstraintBuilder {
            constraints: dual_rows,
            conditions,
            target: Some(dual_target),
        };
        proof {
            assert(srs_view(out.target->Some_0.coefficients@) =~= dual_obj(rows, conds, len as int));
        }
        Ok(out)
    }
}

/// At an overflow the whole dual objective is unrepresentable: the failing
/// prefix refutes every longer one.
proof fn lemma_dual_obj_ok_prefix_refute(rows: Seq<RowVal>, conds: Seq<Cond>, i: int, j: int)
    requires
        0 <= i <= j,
        !dual_obj_ok(rows, conds, i),
    ensures
        !dual_obj_ok(rows, conds, j),
{
    if dual_obj_ok(rows, conds, j) {
        lemma_dual_obj_ok_prefix(rows, conds, i, j);
    }
}

} // verus!
