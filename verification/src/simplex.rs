//! The simplex engine: iterates primal or dual pivots on a standardized
//! tableau, bounded by a step budget, guarded against revisiting a basis.
//! The whole run is pinned to a specification-level transition system
//! (`spec_select`, `spec_pivot`, `spec_run`): candidate selection, the pivot
//! algebra, the cycle guard and every stop reason are stated there exactly,
//! and the executable loop is proved to return precisely what the
//! specification run computes.

use vstd::prelude::*;

use crate::rat::frac_eq;
use crate::rat::frac_zero;
use crate::row::Row;
use crate::row::RowVal;
use crate::row::row_div_ok;
use crate::row::row_reduced;
use crate::row::row_scale;
use crate::row::row_sub_mul;
use crate::row::row_sub_mul_ok;
use crate::row::sr_recip;
use crate::superreal::SrVal;
use crate::superreal::SuperReal;
use crate::superreal::sr_div;
use crate::superreal::sr_div_ok;
use crate::superreal::sr_eq;
use crate::superreal::sr_le;
use crate::superreal::sr_lt;
use crate::superreal::sr_neg;
use crate::superreal::sr_zero;
use crate::constraint::rows_view;

verus! {

/// Why the engine stopped.
#[derive(Debug, Clone, Copy, PartialEq, Eq, Structural)]
pub enum SimplexEnd {
    /// Primal step: no non-basic column with a nonnegative objective
    /// coefficient; no improving direction exists.
    NoEntrant,
    /// Primal step: no row passed the minimum-ratio test; the problem is
    /// unbounded in the chosen direction.
    NoLeavingRow,
    /// Dual step: no infeasible row was found.
    NoDualLeavingRow,
    /// Dual step: no candidate column in the leaving row.
    NoDualEntrant,
    /// The updated basis was seen before; stopped without applying that
    /// step's pivot, to avoid cycling.
    Cycle,
    /// The step budget ran out.
    Budget,
    /// The chosen pivot coefficient has a zero real part and cannot be
    /// inverted.
    DegeneratePivot,
    /// No current basis column has a nonzero coefficient in the leaving row:
    /// the tableau's basis is corrupt.
    MissingBasisCoefficient,
    /// The exact arithmetic of a ratio or a pivot left the machine range.
    Overflow,
}

/// The tableau as the engine leaves it, and why it stopped.
pub struct SimplexResult {
    pub rows: Vec<Row>,
    pub target: Row,
    pub basis: Vec<usize>,
    pub end: SimplexEnd,
}

/// A tableau between pivots: constraint rows, objective, basis.
pub struct TabVal {
    pub rows: Seq<RowVal>,
    pub tgt: RowVal,
    pub bas: Seq<usize>,
}

/// What one round of the engine selects: a leaving row and an entering
/// column, or a reason to stop.
pub enum SelVal {
    Stopped(SimplexEnd),
    Picked(int, int),
}

/// What one full round does to the tableau: a pivoted successor, or a final
/// tableau with its stop reason.
pub enum StepVal {
    Halt(TabVal, SimplexEnd),
    Step(TabVal),
}

/// Primal feasibility: every constraint's constant term is nonnegative.
pub open spec fn primal_feasible(rows: Seq<RowVal>) -> bool {
    forall|i: int| 0 <= i < rows.len() ==> sr_le(sr_zero(), (#[trigger] rows[i]).mz)
}

/// Dual feasibility: every objective coefficient is nonpositive.
pub open spec fn dual_feasible(tgt: RowVal) -> bool {
    forall|i: int| 0 <= i < tgt.cs.len() ==> sr_le(#[trigger] tgt.cs[i], sr_zero())
}

/// Column `i` may enter on a primal step: nonnegative objective coefficient
/// and not already basic.
pub open spec fn primal_entrant_eligible(tgt: RowVal, basis: Seq<usize>, i: int) -> bool {
    sr_le(sr_zero(), tgt.cs[i]) && !basis.contains(i as usize)
}

/// No column may enter on a primal step: the tableau is primally optimal or
/// without an improving direction.
pub open spec fn no_primal_entrant(tgt: RowVal, basis: Seq<usize>) -> bool {
    forall|i: int| 0 <= i < tgt.cs.len() ==> !(#[trigger] primal_entrant_eligible(tgt, basis, i))
}

/// Pairwise-distinct column indices.
pub open spec fn distinct_idxs(s: Seq<usize>) -> bool {
    forall|i: int, j: int| #![trigger s[i], s[j]] 0 <= i < j < s.len() ==> s[i] != s[j]
}

/// Law: an objective with every coefficient nonpositive admits no entering
/// column, provided no non-basic coefficient is exactly zero (a zero
/// coefficient still passes the engine's nonnegativity filter); together
/// with the engine's contract, such a tableau comes back with zero pivots
/// and its initial basis unchanged.
pub proof fn lemma_nonpositive_objective_no_entrant(tgt: RowVal, basis: Seq<usize>)
    requires
        dual_feasible(tgt),
        forall|i: int|
            0 <= i < tgt.cs.len() && !basis.contains(i as usize) ==> !sr_eq(
                #[trigger] tgt.cs[i],
                sr_zero(),
            ),
    ensures
        no_primal_entrant(tgt, basis),
{
    assert forall|i: int| 0 <= i < tgt.cs.len() implies !primal_entrant_eligible(
        tgt,
        basis,
        i,
    ) by {
        if primal_entrant_eligible(tgt, basis, i) {
            assert(sr_le(sr_zero(), tgt.cs[i]));
            assert(sr_le(tgt.cs[i], sr_zero()));
            assert(!sr_eq(tgt.cs[i], sr_zero()));
        }
    }
}

/// The values of a candidate list: each index with its comparison value.
pub open spec fn cands_view(s: Seq<(usize, SuperReal)>) -> Seq<(int, SrVal)> {
    Seq::new(s.len(), |i: int| (s[i].0 as int, s[i].1@))
}

/// The bases a list of visited basis vectors holds.
pub open spec fn visited_view(s: Seq<Vec<usize>>) -> Seq<Seq<usize>> {
    Seq::new(s.len(), |i: int| s[i]@)
}

/// The first-encountered maximum of a candidate prefix: a later candidate
/// replaces the best only when strictly greater.
pub open spec fn sel_best_max(s: Seq<(int, SrVal)>, k: int) -> (int, SrVal)
    decreases k,
{
    if k <= 1 {
        s[0]
    } else {
        let b = sel_best_max(s, k - 1);
        if sr_lt(b.1, s[k - 1].1) {
            s[k - 1]
        } else {
            b
        }
    }
}

/// The first-encountered minimum of a candidate prefix.
pub open spec fn sel_best_min(s: Seq<(int, SrVal)>, k: int) -> (int, SrVal)
    decreases k,
{
    if k <= 1 {
        s[0]
    } else {
        let b = sel_best_min(s, k - 1);
        if sr_lt(s[k - 1].1, b.1) {
            s[k - 1]
        } else {
            b
        }
    }
}

/// Dual step, leaving-row candidates: each row with a negative constant
/// term, carrying that constant.
pub open spec fn dual_exit_cands(rows: Seq<RowVal>, k: int) -> Seq<(int, SrVal)>
    decreases k,
{
    if k <= 0 {
        Seq::empty()
    } else {
        let pre = dual_exit_cands(rows, k - 1);
        if sr_lt(rows[k - 1].mz, sr_zero()) {
            pre.push((k - 1, rows[k - 1].mz))
        } else {
            pre
        }
    }
}

/// Dual step, entering-column candidates of the leaving row: each non-basic
/// column with a negative coefficient, carrying the dual ratio
/// `-objective / coefficient`.
pub open spec fn dual_entrant_cands(row: RowVal, tgt: RowVal, bas: Seq<usize>, k: int) -> Seq<
    (int, SrVal),
>
    decreases k,
{
    if k <= 0 {
        Seq::empty()
    } else {
        let pre = dual_entrant_cands(row, tgt, bas, k - 1);
        if sr_lt(row.cs[k - 1], sr_zero()) && !bas.contains((k - 1) as usize) {
            pre.push((k - 1, sr_div(sr_neg(tgt.cs[k - 1]), row.cs[k - 1])))
        } else {
            pre
        }
    }
}

/// Whether every dual ratio of the leaving row stays representable.
pub open spec fn dual_entrant_ok(row: RowVal, tgt: RowVal, bas: Seq<usize>, k: int) -> bool
    decreases k,
{
    if k <= 0 {
        true
    } else {
        dual_entrant_ok(row, tgt, bas, k - 1) && (sr_lt(row.cs[k - 1], sr_zero()) && !bas.contains(
            (k - 1) as usize,
        ) ==> sr_div_ok(sr_neg(tgt.cs[k - 1]), row.cs[k - 1]))
    }
}

proof fn lemma_dual_entrant_ok_refute(row: RowVal, tgt: RowVal, bas: Seq<usize>, i: int, j: int)
    requires
        0 <= i <= j,
        !dual_entrant_ok(row, tgt, bas, i),
    ensures
        !dual_entrant_ok(row, tgt, bas, j),
    decreases j - i,
{
    if i < j {
        lemma_dual_entrant_ok_refute(row, tgt, bas, i, j - 1);
    }
}

/// Primal step, entering-column candidates: each non-basic column with a
/// nonnegative objective coefficient, carrying that coefficient.
pub open spec fn primal_entrant_cands(tgt: RowVal, bas: Seq<usize>, k: int) -> Seq<(int, SrVal)>
    decreases k,
{
    if k <= 0 {
        Seq::empty()
    } else {
        let pre = primal_entrant_cands(tgt, bas, k - 1);
        if sr_le(sr_zero(), tgt.cs[k - 1]) && !bas.contains((k - 1) as usize) {
            pre.push((k - 1, tgt.cs[k - 1]))
        } else {
            pre
        }
    }
}

/// Primal step, leaving-row candidates for entering column `c`: each row
/// whose ratio `minus_z / coefficient[c]` is nonnegative, carrying that
/// ratio.
pub open spec fn primal_ratio_cands(rows: Seq<RowVal>, c: int, k: int) -> Seq<(int, SrVal)>
    decreases k,
{
    if k <= 0 {
        Seq::empty()
    } else {
        let pre = primal_ratio_cands(rows, c, k - 1);
        let ratio = sr_div(rows[k - 1].mz, rows[k - 1].cs[c]);
        if sr_le(sr_zero(), ratio) {
            pre.push((k - 1, ratio))
        } else {
            pre
        }
    }
}

/// Whether every primal ratio for entering column `c` stays representable.
pub open spec fn primal_ratio_ok(rows: Seq<RowVal>, c: int, k: int) -> bool
    decreases k,
{
    if k <= 0 {
        true
    } else {
        primal_ratio_ok(rows, c, k - 1) && sr_div_ok(rows[k - 1].mz, rows[k - 1].cs[c])
    }
}

proof fn lemma_primal_ratio_ok_refute(rows: Seq<RowVal>, c: int, i: int, j: int)
    requires
        0 <= i <= j,
        !primal_ratio_ok(rows, c, i),
    ensures
        !primal_ratio_ok(rows, c, j),
    decreases j - i,
{
    if i < j {
        lemma_primal_ratio_ok_refute(rows, c, i, j - 1);
    }
}

/// The first basis slot (from `j` on) whose column has a nonzero coefficient
/// in the leaving row; `-1` when none has.
pub open spec fn basis_slot_from(row: RowVal, bas: Seq<usize>, j: int) -> int
    decreases bas.len() - j,
{
    if j < 0 || j >= bas.len() {
        -1
    } else if !sr_eq(row.cs[bas[j] as int], sr_zero()) {
        j
    } else {
        basis_slot_from(row, bas, j + 1)
    }
}

/// One round's selection, exactly as the engine makes it: a dual step when
/// the tableau is primal infeasible but dual feasible, else a primal step;
/// each missing candidate set, and a ratio whose exact arithmetic leaves the
/// machine range, stops the run with its own reason.
pub open spec fn spec_select(t: TabVal) -> SelVal {
    let w = t.tgt.cs.len() as int;
    if !primal_feasible(t.rows) && dual_feasible(t.tgt) {
        let ec = dual_exit_cands(t.rows, t.rows.len() as int);
        if ec.len() == 0 {
            SelVal::Stopped(SimplexEnd::NoDualLeavingRow)
        } else {
            let ar = sel_best_min(ec, ec.len() as int).0;
            if !dual_entrant_ok(t.rows[ar], t.tgt, t.bas, w) {
                SelVal::Stopped(SimplexEnd::Overflow)
            } else {
                let cc = dual_entrant_cands(t.rows[ar], t.tgt, t.bas, w);
                if cc.len() == 0 {
                    SelVal::Stopped(SimplexEnd::NoDualEntrant)
                } else {
                    SelVal::Picked(ar, sel_best_max(cc, cc.len() as int).0)
                }
            }
        }
    } else {
        let pc = primal_entrant_cands(t.tgt, t.bas, w);
        if pc.len() == 0 {
            SelVal::Stopped(SimplexEnd::NoEntrant)
        } else {
            let e = sel_best_max(pc, pc.len() as int).0;
            if !primal_ratio_ok(t.rows, e, t.rows.len() as int) {
                SelVal::Stopped(SimplexEnd::Overflow)
            } else {
                let rc = primal_ratio_cands(t.rows, e, t.rows.len() as int);
                if rc.len() == 0 {
                    SelVal::Stopped(SimplexEnd::NoLeavingRow)
                } else {
                    SelVal::Picked(sel_best_min(rc, rc.len() as int).0, e)
                }
            }
        }
    }
}

/// Whether eliminating the entering column from every row but the leaving
/// one stays representable.
pub open spec fn pivot_elims_ok(rows: Seq<RowVal>, arow: RowVal, e: int, ar: int, k: int) -> bool
    decreases k,
{
    if k <= 0 {
        true
    } else {
        pivot_elims_ok(rows, arow, e, ar, k - 1) && (k - 1 != ar ==> row_sub_mul_ok(
            rows[k - 1],
            arow,
            rows[k - 1].cs[e],
        ))
    }
}

proof fn lemma_pivot_elims_ok_refute(rows: Seq<RowVal>, arow: RowVal, e: int, ar: int, i: int, j: int)
    requires
        0 <= i <= j,
        !pivot_elims_ok(rows, arow, e, ar, i),
    ensures
        !pivot_elims_ok(rows, arow, e, ar, j),
    decreases j - i,
{
    if i < j {
        lemma_pivot_elims_ok_refute(rows, arow, e, ar, i, j - 1);
    }
}

/// One round's basis update and pivot, exactly as the engine performs it:
/// the first basis slot with a nonzero coefficient in the leaving row leaves
/// (its absence is the corrupt-basis stop); the updated basis is checked
/// against the visited set before any arithmetic (the cycle stop returns the
/// not-yet-pivoted tableau with the repeated basis); then the leaving row is
/// scaled by the reciprocal of the pivot coefficient — refused when its real
/// part is zero — the entering column is eliminated from every other row and
/// the objective, and every result is representation-reduced.
pub open spec fn spec_pivot(t: TabVal, visited: Seq<Seq<usize>>, ar: int, e: int) -> StepVal {
    let slot = basis_slot_from(t.rows[ar], t.bas, 0);
    if slot == -1 {
        StepVal::Halt(t, SimplexEnd::MissingBasisCoefficient)
    } else {
        let b2 = t.bas.update(slot, e as usize);
        let t2 = TabVal { rows: t.rows, tgt: t.tgt, bas: b2 };
        if visited.contains(b2) {
            StepVal::Halt(t2, SimplexEnd::Cycle)
        } else {
            let dv = t.rows[ar].cs[e];
            if frac_eq(dv.x, frac_zero()) {
                StepVal::Halt(t2, SimplexEnd::DegeneratePivot)
            } else if !row_div_ok(t.rows[ar], dv) {
                StepVal::Halt(t2, SimplexEnd::Overflow)
            } else {
                let arow = row_reduced(row_scale(t.rows[ar], sr_recip(dv)));
                if !pivot_elims_ok(t.rows, arow, e, ar, t.rows.len() as int) || !row_sub_mul_ok(
                    t.tgt,
                    arow,
                    t.tgt.cs[e],
                ) {
                    StepVal::Halt(t2, SimplexEnd::Overflow)
                } else {
                    StepVal::Step(
                        TabVal {
                            rows: Seq::new(
                                t.rows.len(),
                                |y: int|
                                    if y == ar {
                                        arow
                                    } else {
                                        row_reduced(row_sub_mul(t.rows[y], arow, t.rows[y].cs[e]))
                                    },
                            ),
                            tgt: row_reduced(row_sub_mul(t.tgt, arow, t.tgt.cs[e])),
                            bas: b2,
                        },
                    )
                }
            }
        }
    }
}

/// The whole run: rounds of selection and pivot until a stop reason or the
/// step budget, each visited basis recorded for the cycle guard.
pub open spec fn spec_run(t: TabVal, visited: Seq<Seq<usize>>, fuel: nat) -> (TabVal, SimplexEnd)
    decreases fuel,
{
    if fuel == 0 {
        (t, SimplexEnd::Budget)
    } else {
        match spec_select(t) {
            SelVal::Stopped(end) => (t, end),
            SelVal::Picked(ar, e) => match spec_pivot(t, visited, ar, e) {
                StepVal::Halt(t2, end) => (t2, end),
                StepVal::Step(t2) => spec_run(t2, visited.push(t2.bas), (fuel - 1) as nat),
            },
        }
    }
}

/// Law: when a round's basis update reproduces an already-visited basis,
/// the run stops at exactly that round, however much budget is left: the
/// pivot arithmetic is not applied, the rows and objective come back as they
/// stood before the round, and the returned basis is the revisited vector.
pub proof fn lemma_cycle_guard_stops(
    t: TabVal,
    visited: Seq<Seq<usize>>,
    ar: int,
    e: int,
    fuel: nat,
)
    requires
        fuel > 0,
        spec_select(t) == SelVal::Picked(ar, e),
        basis_slot_from(t.rows[ar], t.bas, 0) >= 0,
        visited.contains(t.bas.update(basis_slot_from(t.rows[ar], t.bas, 0), e as usize)),
    ensures
        spec_run(t, visited, fuel) == (
            TabVal {
                rows: t.rows,
                tgt: t.tgt,
                bas: t.bas.update(basis_slot_from(t.rows[ar], t.bas, 0), e as usize),
            },
            SimplexEnd::Cycle,
        ),
{
}

/// The index whose value is the maximum of the candidates, earliest on ties;
/// `None` exactly when there are no candidates.
pub fn argmax(items: &Vec<(usize, SuperReal)>) -> (r: Option<usize>)
    requires
        forall|i: int| 0 <= i < items.len() ==> (#[trigger] items[i]).1.inv(),
    ensures
        r is Some <==> items@.len() > 0,
        r matches Some(x) ==> x as int == sel_best_max(cands_view(items@), items@.len() as int).0,
        r matches Some(x) ==> exists|k: int|
            0 <= k < items@.len() && (#[trigger] cands_view(items@)[k]) == sel_best_max(
                cands_view(items@),
                items@.len() as int,
            ),
{
    if items.len() == 0 {
        return None;
    }
    let mut best: (usize, SuperReal) = items[0];
    proof {
        assert(cands_view(items@)[0] == (best.0 as int, best.1@));
    }
    let mut i: usize = 1;
    while i < items.len()
        invariant
            1 <= i <= items@.len(),
            forall|j: int| 0 <= j < items.len() ==> (#[trigger] items[j]).1.inv(),
            best.1.inv(),
            (best.0 as int, best.1@) == sel_best_max(cands_view(items@), i as int),
            exists|k: int|
                0 <= k < i && (#[trigger] cands_view(items@)[k]) == (best.0 as int, best.1@),
        decreases items@.len() - i,
    {
        if best.1.lt(&items[i].1) {
            best = items[i];
            proof {
                assert(cands_view(items@)[i as int] == (best.0 as int, best.1@));
            }
        }
        i += 1;
    }
    Some(best.0)
}

/// The index whose value is the minimum of the candidates, earliest on ties;
/// `None` exactly when there are no candidates.
pub fn argmin(items: &Vec<(usize, SuperReal)>) -> (r: Option<usize>)
    requires
        forall|i: int| 0 <= i < items.len() ==> (#[trigger] items[i]).1.inv(),
    ensures
        r is Some <==> items@.len() > 0,
        r matches Some(x) ==> x as int == sel_best_min(cands_view(items@), items@.len() as int).0,
        r matches Some(x) ==> exists|k: int|
            0 <= k < items@.len() && (#[trigger] cands_view(items@)[k]) == sel_best_min(
                cands_view(items@),
                items@.len() as int,
            ),
{
    if items.len() == 0 {
        return None;
    }
    let mut best: (usize, SuperReal) = items[0];
    proof {
        assert(cands_view(items@)[0] == (best.0 as int, best.1@));
    }
    let mut i: usize = 1;
    while i < items.len()
        invariant
            1 <= i <= items@.len(),
            forall|j: int| 0 <= j < items.len() ==> (#[trigger] items[j]).1.inv(),
            best.1.inv(),
            (best.0 as int, best.1@) == sel_best_min(cands_view(items@), i as int),
            exists|k: int|
                0 <= k < i && (#[trigger] cands_view(items@)[k]) == (best.0 as int, best.1@),
        decreases items@.len() - i,
    {
        if items[i].1.lt(&best.1) {
            best = items[i];
            proof {
                assert(cands_view(items@)[i as int] == (best.0 as int, best.1@));
            }
        }
        i += 1;
    }
    Some(best.0)
}

/// Every constraint row's constant term is nonnegative.
pub fn is_primal_realisable(rows: &Vec<Row>) -> (r: bool)
    requires
        forall|i: int| 0 <= i < rows.len() ==> (#[trigger] rows[i]).inv(),
    ensures
        r == primal_feasible(rows_view(rows@)),
{
    let z = SuperReal::zero();
    let mut i: usize = 0;
    while i < rows.len()
        invariant
            i <= rows@.len(),
            z.inv(),
            z@ == sr_zero(),
            forall|j: int| 0 <= j < rows.len() ==> (#[trigger] rows[j]).inv(),
            forall|j: int| 0 <= j < i ==> sr_le(sr_zero(), (#[trigger] rows_view(rows@)[j]).mz),
        decreases rows@.len() - i,
    {
        if !z.le(&rows[i].minus_z) {
            proof {
                assert(!sr_le(sr_zero(), rows_view(rows@)[i as int].mz));
            }
            return false;
        }
        i += 1;
    }
    true
}

/// Every objective coefficient is nonpositive.
pub fn is_dual_realisable(target: &Row) -> (r: bool)
    requires
        target.inv(),
    ensures
        r == dual_feasible(target@),
{
    let z = SuperReal::zero();
    let mut i: usize = 0;
    while i < target.coefficients.len()
        invariant
            i <= target.coefficients@.len(),
            z.inv(),
            z@ == sr_zero(),
            target.inv(),
            forall|j: int| 0 <= j < i ==> sr_le((#[trigger] target@.cs[j]), sr_zero()),
        decreases target.coefficients@.len() - i,
    {
        if !target.coefficients[i].le(&z) {
            proof {
                assert(!sr_le(target@.cs[i as int], sr_zero()));
            }
            return false;
        }
        i += 1;
    }
    true
}

/// Whether `x` is one of the current basis columns.
fn contains_idx(v: &Vec<usize>, x: usize) -> (r: bool)
    ensures
        r == v@.contains(x),
{
    let mut i: usize = 0;
    while i < v.len()
        invariant
            i <= v@.len(),
            forall|j: int| 0 <= j < i ==> (#[trigger] v[j]) != x,
        decreases v@.len() - i,
    {
        if v[i] == x {
            return true;
        }
        i += 1;
    }
    false
}

/// Whether two index vectors hold the same indices in the same order.
fn eq_idxs(a: &Vec<usize>, b: &Vec<usize>) -> (r: bool)
    ensures
        r == (a@ == b@),
{
    if a.len() != b.len() {
        return false;
    }
    let mut i: usize = 0;
    while i < a.len()
        invariant
            i <= a@.len(),
            a@.len() == b@.len(),
            forall|j: int| 0 <= j < i ==> (#[trigger] a[j]) == b[j],
        decreases a@.len() - i,
    {
        if a[i] != b[i] {
            return false;
        }
        i += 1;
    }
    proof {
        assert(a@ =~= b@);
    }
    true
}

/// Whether this basis vector was visited before.
fn seen(visited: &Vec<Vec<usize>>, b: &Vec<usize>) -> (r: bool)
    ensures
        r == visited_view(visited@).contains(b@),
{
    let mut i: usize = 0;
    while i < visited.len()
        invariant
            i <= visited@.len(),
            forall|j: int| 0 <= j < i ==> (#[trigger] visited@[j])@ != b@,
        decreases visited@.len() - i,
    {
        if eq_idxs(&visited[i], b) {
            proof {
                assert(visited_view(visited@)[i as int] == b@);
            }
            return true;
        }
        i += 1;
    }
    proof {
        assert forall|k: int| 0 <= k < visited_view(visited@).len() implies visited_view(
            visited@,
        )[k] != b@ by {
            assert(visited@[k]@ != b@);
        }
    }
    false
}

/// A fresh vector with the same indices.
fn copy_idxs(v: &Vec<usize>) -> (r: Vec<usize>)
    ensures
        r@ == v@,
{
    let mut out: Vec<usize> = Vec::new();
    let mut i: usize = 0;
    while i < v.len()
        invariant
            i <= v@.len(),
            out@.len() == i,
            forall|j: int| 0 <= j < i ==> (#[trigger] out[j]) == v[j],
        decreases v@.len() - i,
    {
        out.push(v[i]);
        i += 1;
    }
    proof {
        assert(out@ =~= v@);
    }
    out
}

/// A fresh row with the same slots.
fn dup_row(r: &Row) -> (out: Row)
    requires
        r.inv(),
    ensures
        out.inv(),
        out@ == r@,
        out.coefficients@ == r.coefficients@,
        out.minus_z == r.minus_z,
{
    let mut cs: Vec<SuperReal> = Vec::new();
    let mut i: usize = 0;
    while i < r.coefficients.len()
        invariant
            i <= r.coefficients@.len(),
            cs@.len() == i,
            forall|j: int| 0 <= j < i ==> (#[trigger] cs[j]) == r.coefficients[j],
        decreases r.coefficients@.len() - i,
    {
        cs.push(r.coefficients[i]);
        i += 1;
    }
    proof {
        assert(cs@ =~= r.coefficients@);
    }
    Row { coefficients: cs, minus_z: r.minus_z }
}

/// The leaving basis slot: the first current basis column with a nonzero
/// coefficient in the leaving row.
fn find_basis_slot(row: &Row, bas: &Vec<usize>) -> (r: Option<usize>)
    requires
        row.inv(),
        forall|j: int| 0 <= j < bas.len() ==> (#[trigger] bas[j]) < row.coefficients.len(),
    ensures
        r matches Some(j) ==> 0 <= j < bas@.len() && j as int == basis_slot_from(row@, bas@, 0),
        r is None ==> basis_slot_from(row@, bas@, 0) == -1,
{
    let mut j: usize = 0;
    while j < bas.len()
        invariant
            j <= bas@.len(),
            row.inv(),
            forall|k: int| 0 <= k < bas.len() ==> (#[trigger] bas[k]) < row.coefficients.len(),
            basis_slot_from(row@, bas@, 0) == basis_slot_from(row@, bas@, j as int),
        decreases bas@.len() - j,
    {
        if !row.coefficients[bas[j]].is_zero() {
            return Some(j);
        }
        j += 1;
    }
    None
}

/// Runs the pivot loop. The result is exactly what `spec_run` computes from
/// the input tableau, the input basis as the first visited one, and the step
/// budget as fuel: per round a dual step when the tableau is primal
/// infeasible but dual feasible, else a primal step; stops, with the stop
/// reason `spec_select`/`spec_pivot` assign, on a missing candidate, a
/// revisited basis (before applying that pivot), a degenerate pivot, an
/// arithmetic overflow, or the exhausted budget. A zero budget, and a primal
/// feasible tableau with no eligible entering column, return the tableau
/// untouched; a pairwise-distinct basis stays pairwise distinct, since every
/// entering column is chosen among non-basic ones.
#[verifier::rlimit(100)]
pub fn simplex(constraints: Vec<Row>, target: Row, basis: Vec<usize>, max_steps: usize) -> (r:
    SimplexResult)
    requires
        forall|i: int| 0 <= i < constraints.len() ==> (#[trigger] constraints[i]).inv(),
        forall|i: int|
            0 <= i < constraints.len() ==> (#[trigger] constraints[i])@.cs.len()
                == target@.cs.len(),
        target.inv(),
        basis.len() == constraints.len(),
        forall|i: int| 0 <= i < basis.len() ==> (#[trigger] basis[i]) < target@.cs.len(),
    ensures
        ({
            let out = spec_run(
                TabVal { rows: rows_view(constraints@), tgt: target@, bas: basis@ },
                seq![basis@],
                max_steps as nat,
            );
            &&& rows_view(r.rows@) == out.0.rows
            &&& r.target@ == out.0.tgt
            &&& r.basis@ == out.0.bas
            &&& r.end == out.1
        }),
        r.rows@.len() == constraints@.len(),
        forall|i: int| 0 <= i < r.rows@.len() ==> (#[trigger] r.rows[i]).inv(),
        forall|i: int|
            0 <= i < r.rows@.len() ==> (#[trigger] r.rows[i])@.cs.len() == target@.cs.len(),
        r.target.inv(),
        r.target@.cs.len() == target@.cs.len(),
        r.basis@.len() == basis@.len(),
        forall|i: int| 0 <= i < r.basis@.len() ==> (#[trigger] r.basis[i]) < target@.cs.len(),
        distinct_idxs(basis@) ==> distinct_idxs(r.basis@),
        max_steps == 0 ==> r.rows == constraints && r.target == target && r.basis == basis
            && r.end == SimplexEnd::Budget,
        r.end == SimplexEnd::NoEntrant ==> no_primal_entrant(r.target@, r.basis@),
        primal_feasible(rows_view(constraints@)) && no_primal_entrant(target@, basis@)
            && max_steps > 0 ==> (r.rows == constraints && r.target == target && r.basis == basis
            && r.end == SimplexEnd::NoEntrant),
{
    let ghost w = target@.cs.len();
    let ghost cond0 = primal_feasible(rows_view(constraints@)) && no_primal_entrant(
        target@,
        basis@,
    );
    let ghost dist0 = distinct_idxs(basis@);
    let ghost tab0 = TabVal { rows: rows_view(constraints@), tgt: target@, bas: basis@ };
    let mut rows = constraints;
    let mut tgt = target;
    let mut bas = basis;

    let mut visited: Vec<Vec<usize>> = Vec::new();
    visited.push(copy_idxs(&bas));
    proof {
        assert(visited_view(visited@) =~= seq![basis@]);
    }

    let mut step: usize = 0;
    while step < max_steps
        invariant
            rows@.len() == constraints@.len(),
            forall|i: int| 0 <= i < rows@.len() ==> (#[trigger] rows[i]).inv(),
            forall|i: int| 0 <= i < rows@.len() ==> (#[trigger] rows[i])@.cs.len() == w,
            tgt.inv(),
            tgt@.cs.len() == w,
            w == target@.cs.len(),
            bas@.len() == basis@.len(),
            bas@.len() == rows@.len(),
            forall|i: int| 0 <= i < bas@.len() ==> (#[trigger] bas[i]) < w,
            tab0 == (TabVal { rows: rows_view(constraints@), tgt: target@, bas: basis@ }),
            spec_run(tab0, seq![basis@], max_steps as nat) == spec_run(
                TabVal { rows: rows_view(rows@), tgt: tgt@, bas: bas@ },
                visited_view(visited@),
                (max_steps - step) as nat,
            ),
            cond0 == (primal_feasible(rows_view(constraints@)) && no_primal_entrant(
                target@,
                basis@,
            )),
            cond0 ==> rows == constraints && tgt == target && bas == basis,
            cond0 && max_steps > 0 ==> step == 0,
            step == 0 ==> rows == constraints && tgt == target && bas == basis,
            dist0 == distinct_idxs(basis@),
            dist0 ==> distinct_idxs(bas@),
            step <= max_steps,
        decreases max_steps - step,
    {
        let ghost cur_tab = TabVal { rows: rows_view(rows@), tgt: tgt@, bas: bas@ };
        let ghost cur_vis = visited_view(visited@);
        let ghost fuel = (max_steps - step) as nat;
        let dual_step = !is_primal_realisable(&rows) && is_dual_realisable(&tgt);

        let (active_row, entrant_var): (usize, usize) = if dual_step {
            // Dual step: leaving row = most negative constant term.
            let z = SuperReal::zero();
            let mut dcands: Vec<(usize, SuperReal)> = Vec::new();
            let mut y: usize = 0;
            while y < rows.len()
                invariant
                    y <= rows@.len(),
                    z.inv(),
                    z@ == sr_zero(),
                    forall|i: int| 0 <= i < rows@.len() ==> (#[trigger] rows[i]).inv(),
                    forall|k: int| 0 <= k < dcands@.len() ==> (#[trigger] dcands[k]).1.inv(),
                    forall|k: int| 0 <= k < dcands@.len() ==> (#[trigger] dcands[k]).0
                        < rows@.len(),
                    cands_view(dcands@) == dual_exit_cands(rows_view(rows@), y as int),
                decreases rows@.len() - y,
            {
                if rows[y].minus_z.lt(&z) {
                    dcands.push((y, rows[y].minus_z));
                }
                y += 1;
                proof {
                    assert(cands_view(dcands@) =~= dual_exit_cands(rows_view(rows@), y as int));
                }
            }
            let exit_row = match argmin(&dcands) {
                None => {
                    proof {
                        assert(spec_select(cur_tab) == SelVal::Stopped(
                            SimplexEnd::NoDualLeavingRow,
                        ));
                    }
                    return SimplexResult {
                        rows,
                        target: tgt,
                        basis: bas,
                        end: SimplexEnd::NoDualLeavingRow,
                    };
                },
                Some(x) => x,
            };
            proof {
                assert(exit_row < rows@.len());
            }

            // Entering column: among negative coefficients of non-basic
            // columns, the one maximizing -objective / coefficient.
            let mut ccands: Vec<(usize, SuperReal)> = Vec::new();
            let mut i: usize = 0;
            while i < tgt.coefficients.len()
                invariant
                    i <= tgt.coefficients@.len(),
                    z.inv(),
                    z@ == sr_zero(),
                    exit_row < rows@.len(),
                    tgt.inv(),
                    tgt@.cs.len() == w,
                    rows@.len() == constraints@.len(),
                    w == target@.cs.len(),
                    bas@.len() == basis@.len(),
                    bas@.len() == rows@.len(),
                    forall|k2: int| 0 <= k2 < bas@.len() ==> (#[trigger] bas[k2]) < w,
                    dist0 == distinct_idxs(basis@),
                    dist0 ==> distinct_idxs(bas@),
                    !(primal_feasible(rows_view(constraints@)) && no_primal_entrant(
                        target@,
                        basis@,
                    )),
                    step < max_steps,
                    tab0 == (TabVal { rows: rows_view(constraints@), tgt: target@, bas: basis@ }),
                    cur_tab == (TabVal { rows: rows_view(rows@), tgt: tgt@, bas: bas@ }),
                    cur_vis == visited_view(visited@),
                    fuel == (max_steps - step) as nat,
                    spec_run(tab0, seq![basis@], max_steps as nat) == spec_run(
                        cur_tab,
                        cur_vis,
                        fuel,
                    ),
                    !primal_feasible(rows_view(rows@)),
                    dual_feasible(tgt@),
                    dual_exit_cands(rows_view(rows@), rows@.len() as int).len() > 0,
                    exit_row as int == sel_best_min(
                        dual_exit_cands(rows_view(rows@), rows@.len() as int),
                        dual_exit_cands(rows_view(rows@), rows@.len() as int).len() as int,
                    ).0,
                    forall|k: int| 0 <= k < rows@.len() ==> (#[trigger] rows[k]).inv(),
                    forall|k: int| 0 <= k < rows@.len() ==> (#[trigger] rows[k])@.cs.len() == w,
                    forall|k: int| 0 <= k < ccands@.len() ==> (#[trigger] ccands[k]).1.inv(),
                    forall|k: int| 0 <= k < ccands@.len() ==> (#[trigger] ccands[k]).0 < w,
                    forall|k: int|
                        0 <= k < ccands@.len() ==> !bas@.contains((#[trigger] ccands[k]).0),
                    dual_entrant_ok(rows_view(rows@)[exit_row as int], tgt@, bas@, i as int),
                    cands_view(ccands@) == dual_entrant_cands(
                        rows_view(rows@)[exit_row as int],
                        tgt@,
                        bas@,
                        i as int,
                    ),
                decreases tgt.coefficients@.len() - i,
            {
                let coef = rows[exit_row].coefficients[i];
                if coef.lt(&z) && !contains_idx(&bas, i) {
                    let ratio = match tgt.coefficients[i].neg().div(coef) {
                        Some(v) => v,
                        None => {
                            proof {
                                assert(!dual_entrant_ok(
                                    rows_view(rows@)[exit_row as int],
                                    tgt@,
                                    bas@,
                                    i + 1,
                                ));
                                lemma_dual_entrant_ok_refute(
                                    rows_view(rows@)[exit_row as int],
                                    tgt@,
                                    bas@,
                                    i + 1,
                                    w as int,
                                );
                                assert(spec_select(cur_tab) == SelVal::Stopped(
                                    SimplexEnd::Overflow,
                                ));
                            }
                            return SimplexResult {
                                rows,
                                target: tgt,
                                basis: bas,
                                end: SimplexEnd::Overflow,
                            };
                        },
                    };
                    ccands.push((i, ratio));
                }
                i += 1;
                proof {
                    assert(cands_view(ccands@) =~= dual_entrant_cands(
                        rows_view(rows@)[exit_row as int],
                        tgt@,
                        bas@,
                        i as int,
                    ));
                }
            }
            let entrant = match argmax(&ccands) {
                None => {
                    proof {
                        assert(spec_select(cur_tab) == SelVal::Stopped(SimplexEnd::NoDualEntrant));
                    }
                    return SimplexResult {
                        rows,
                        target: tgt,
                        basis: bas,
                        end: SimplexEnd::NoDualEntrant,
                    };
                },
                Some(x) => x,
            };
            proof {
                assert(entrant < w);
                assert(!bas@.contains(entrant));
                assert(spec_select(cur_tab) == SelVal::Picked(exit_row as int, entrant as int));
            }
            (exit_row, entrant)
        } else {
            // Primal step: entering column = the non-basic column with the
            // greatest nonnegative objective coefficient.
            let z = SuperReal::zero();
            let mut ecands: Vec<(usize, SuperReal)> = Vec::new();
            let mut i: usize = 0;
            while i < tgt.coefficients.len()
                invariant
                    i <= tgt.coefficients@.len(),
                    z.inv(),
                    z@ == sr_zero(),
                    tgt.inv(),
                    tgt@.cs.len() == w,
                    forall|k: int| 0 <= k < ecands@.len() ==> (#[trigger] ecands[k]).1.inv(),
                    forall|k: int| 0 <= k < ecands@.len() ==> (#[trigger] ecands[k]).0 < w,
                    forall|k: int|
                        0 <= k < ecands@.len() ==> !bas@.contains((#[trigger] ecands[k]).0),
                    no_primal_entrant(tgt@, bas@) ==> ecands@.len() == 0,
                    forall|j: int|
                        0 <= j < i ==> (#[trigger] primal_entrant_eligible(tgt@, bas@, j)
                            ==> ecands@.len() > 0),
                    cands_view(ecands@) == primal_entrant_cands(tgt@, bas@, i as int),
                decreases tgt.coefficients@.len() - i,
            {
                if z.le(&tgt.coefficients[i]) && !contains_idx(&bas, i) {
                    proof {
                        assert(primal_entrant_eligible(tgt@, bas@, i as int));
                    }
                    ecands.push((i, tgt.coefficients[i]));
                }
                i += 1;
                proof {
                    assert(cands_view(ecands@) =~= primal_entrant_cands(tgt@, bas@, i as int));
                }
            }
            let entrant = match argmax(&ecands) {
                None => {
                    proof {
                        assert(no_primal_entrant(tgt@, bas@));
                        assert(spec_select(cur_tab) == SelVal::Stopped(SimplexEnd::NoEntrant));
                    }
                    return SimplexResult {
                        rows,
                        target: tgt,
                        basis: bas,
                        end: SimplexEnd::NoEntrant,
                    };
                },
                Some(x) => x,
            };
            proof {
                assert(entrant < w);
                assert(!bas@.contains(entrant));
            }

            // Leaving row: the minimum nonnegative ratio of constant term to
            // entering-column coefficient.
            let mut rcands: Vec<(usize, SuperReal)> = Vec::new();
            let mut y: usize = 0;
            while y < rows.len()
                invariant
                    y <= rows@.len(),
                    z.inv(),
                    z@ == sr_zero(),
                    entrant < w,
                    tgt.inv(),
                    tgt@.cs.len() == w,
                    rows@.len() == constraints@.len(),
                    w == target@.cs.len(),
                    bas@.len() == basis@.len(),
                    bas@.len() == rows@.len(),
                    forall|k2: int| 0 <= k2 < bas@.len() ==> (#[trigger] bas[k2]) < w,
                    dist0 == distinct_idxs(basis@),
                    dist0 ==> distinct_idxs(bas@),
                    !(primal_feasible(rows_view(constraints@)) && no_primal_entrant(
                        target@,
                        basis@,
                    )),
                    step < max_steps,
                    tab0 == (TabVal { rows: rows_view(constraints@), tgt: target@, bas: basis@ }),
                    cur_tab == (TabVal { rows: rows_view(rows@), tgt: tgt@, bas: bas@ }),
                    cur_vis == visited_view(visited@),
                    fuel == (max_steps - step) as nat,
                    spec_run(tab0, seq![basis@], max_steps as nat) == spec_run(
                        cur_tab,
                        cur_vis,
                        fuel,
                    ),
                    primal_feasible(rows_view(rows@)) || !dual_feasible(tgt@),
                    primal_entrant_cands(tgt@, bas@, w as int).len() > 0,
                    entrant as int == sel_best_max(
                        primal_entrant_cands(tgt@, bas@, w as int),
                        primal_entrant_cands(tgt@, bas@, w as int).len() as int,
                    ).0,
                    forall|k: int| 0 <= k < rows@.len() ==> (#[trigger] rows[k]).inv(),
                    forall|k: int| 0 <= k < rows@.len() ==> (#[trigger] rows[k])@.cs.len() == w,
                    forall|k: int| 0 <= k < rcands@.len() ==> (#[trigger] rcands[k]).1.inv(),
                    forall|k: int| 0 <= k < rcands@.len() ==> (#[trigger] rcands[k]).0
                        < rows@.len(),
                    primal_ratio_ok(rows_view(rows@), entrant as int, y as int),
                    cands_view(rcands@) == primal_ratio_cands(
                        rows_view(rows@),
                        entrant as int,
                        y as int,
                    ),
                decreases rows@.len() - y,
            {
                let ratio = match rows[y].minus_z.div(rows[y].coefficients[entrant]) {
                    Some(v) => v,
                    None => {
                        proof {
                            assert(!primal_ratio_ok(rows_view(rows@), entrant as int, y + 1));
                            lemma_primal_ratio_ok_refute(
                                rows_view(rows@),
                                entrant as int,
                                y + 1,
                                rows@.len() as int,
                            );
                            assert(spec_select(cur_tab) == SelVal::Stopped(SimplexEnd::Overflow));
                        }
                        return SimplexResult {
                            rows,
                            target: tgt,
                            basis: bas,
                            end: SimplexEnd::Overflow,
                        };
                    },
                };
                if z.le(&ratio) {
                    rcands.push((y, ratio));
                }
                y += 1;
                proof {
                    assert(cands_view(rcands@) =~= primal_ratio_cands(
                        rows_view(rows@),
                        entrant as int,
                        y as int,
                    ));
                }
            }
            let exit_row = match argmin(&rcands) {
                None => {
                    proof {
                        assert(spec_select(cur_tab) == SelVal::Stopped(SimplexEnd::NoLeavingRow));
                    }
                    return SimplexResult {
                        rows,
                        target: tgt,
                        basis: bas,
                        end: SimplexEnd::NoLeavingRow,
                    };
                },
                Some(x) => x,
            };
            proof {
                assert(exit_row < rows@.len());
                assert(spec_select(cur_tab) == SelVal::Picked(exit_row as int, entrant as int));
            }
            (exit_row, entrant)
        };
        proof {
            assert(spec_select(cur_tab) == SelVal::Picked(active_row as int, entrant_var as int));
        }

        // The leaving basis slot must carry a nonzero coefficient in the
        // leaving row; its absence marks a corrupt basis.
        let exit_index = match find_basis_slot(&rows[active_row], &bas) {
            Some(j) => j,
            None => {
                proof {
                    assert(spec_pivot(cur_tab, cur_vis, active_row as int, entrant_var as int)
                        == StepVal::Halt(cur_tab, SimplexEnd::MissingBasisCoefficient));
                }
                return SimplexResult {
                    rows,
                    target: tgt,
                    basis: bas,
                    end: SimplexEnd::MissingBasisCoefficient,
                };
            },
        };
        let ghost pre_bas = bas@;
        bas.set(exit_index, entrant_var);
        let ghost tab2 = TabVal { rows: rows_view(rows@), tgt: tgt@, bas: bas@ };
        proof {
            assert(bas@ == pre_bas.update(exit_index as int, entrant_var));
            if dist0 {
                assert forall|i: int, j: int| 0 <= i < j < bas@.len() implies bas@[i]
                    != bas@[j] by {
                    if i == exit_index {
                        assert(bas@[j] == pre_bas[j]);
                        assert(!pre_bas.contains(entrant_var));
                    } else if j == exit_index {
                        assert(bas@[i] == pre_bas[i]);
                        assert(!pre_bas.contains(entrant_var));
                    } else {
                        assert(bas@[i] == pre_bas[i] && bas@[j] == pre_bas[j]);
                    }
                }
            }
        }

        // The cycle guard: stop the moment a basis repeats, before applying
        // that step's pivot.
        if seen(&visited, &bas) {
            proof {
                assert(spec_pivot(cur_tab, cur_vis, active_row as int, entrant_var as int)
                    == StepVal::Halt(tab2, SimplexEnd::Cycle));
            }
            return SimplexResult { rows, target: tgt, basis: bas, end: SimplexEnd::Cycle };
        }
        visited.push(copy_idxs(&bas));
        proof {
            assert(visited_view(visited@) =~= cur_vis.push(bas@));
        }

        // Pivot: scale the leaving row to a unit entering coefficient, then
        // eliminate that column from every other row and the objective.
        let div_by = rows[active_row].coefficients[entrant_var];
        if div_by.x.is_zero() {
            proof {
                assert(spec_pivot(cur_tab, cur_vis, active_row as int, entrant_var as int)
                    == StepVal::Halt(tab2, SimplexEnd::DegeneratePivot));
            }
            return SimplexResult {
                rows,
                target: tgt,
                basis: bas,
                end: SimplexEnd::DegeneratePivot,
            };
        }
        let mut arow = dup_row(&rows[active_row]);
        proof {
            assert(!frac_eq(div_by@.x, frac_zero()));
            assert(div_by@.x.n != 0);
        }
        if !arow.div(div_by) {
            proof {
                assert(spec_pivot(cur_tab, cur_vis, active_row as int, entrant_var as int)
                    == StepVal::Halt(tab2, SimplexEnd::Overflow));
            }
            return SimplexResult { rows, target: tgt, basis: bas, end: SimplexEnd::Overflow };
        }
        arow.reduce();
        proof {
            assert(arow@ == row_reduced(
                row_scale(
                    rows_view(rows@)[active_row as int],
                    sr_recip(rows_view(rows@)[active_row as int].cs[entrant_var as int]),
                ),
            ));
        }
        let mut new_rows: Vec<Row> = Vec::new();
        let mut y: usize = 0;
        while y < rows.len()
            invariant
                y <= rows@.len(),
                active_row < rows@.len(),
                entrant_var < w,
                arow.inv(),
                arow@.cs.len() == w,
                tgt.inv(),
                tgt@.cs.len() == w,
                rows@.len() == constraints@.len(),
                w == target@.cs.len(),
                bas@.len() == basis@.len(),
                bas@.len() == rows@.len(),
                forall|k2: int| 0 <= k2 < bas@.len() ==> (#[trigger] bas[k2]) < w,
                dist0 == distinct_idxs(basis@),
                dist0 ==> distinct_idxs(bas@),
                !(primal_feasible(rows_view(constraints@)) && no_primal_entrant(
                    target@,
                    basis@,
                )),
                step < max_steps,
                tab0 == (TabVal { rows: rows_view(constraints@), tgt: target@, bas: basis@ }),
                cur_tab == (TabVal { rows: rows_view(rows@), tgt: tgt@, bas: pre_bas }),
                tab2 == (TabVal { rows: rows_view(rows@), tgt: tgt@, bas: bas@ }),
                fuel == (max_steps - step) as nat,
                spec_run(tab0, seq![basis@], max_steps as nat) == spec_run(cur_tab, cur_vis, fuel),
                spec_select(cur_tab) == SelVal::Picked(active_row as int, entrant_var as int),
                basis_slot_from(
                    rows_view(rows@)[active_row as int],
                    pre_bas,
                    0,
                ) == exit_index as int,
                exit_index < pre_bas.len(),
                bas@ == pre_bas.update(exit_index as int, entrant_var),
                !cur_vis.contains(bas@),
                visited_view(visited@) == cur_vis.push(bas@),
                !frac_eq(rows_view(rows@)[active_row as int].cs[entrant_var as int].x, frac_zero()),
                row_div_ok(
                    rows_view(rows@)[active_row as int],
                    rows_view(rows@)[active_row as int].cs[entrant_var as int],
                ),
                arow@ == row_reduced(
                    row_scale(
                        rows_view(rows@)[active_row as int],
                        sr_recip(rows_view(rows@)[active_row as int].cs[entrant_var as int]),
                    ),
                ),
                forall|k: int| 0 <= k < rows@.len() ==> (#[trigger] rows[k]).inv(),
                forall|k: int| 0 <= k < rows@.len() ==> (#[trigger] rows[k])@.cs.len() == w,
                new_rows@.len() == y,
                forall|k: int| 0 <= k < y ==> (#[trigger] new_rows[k]).inv(),
                forall|k: int| 0 <= k < y ==> (#[trigger] new_rows[k])@.cs.len() == w,
                pivot_elims_ok(rows_view(rows@), arow@, entrant_var as int, active_row as int, y as int),
                forall|k: int|
                    0 <= k < y ==> (#[trigger] new_rows[k])@ == (if k == active_row as int {
                        arow@
                    } else {
                        row_reduced(
                            row_sub_mul(
                                rows_view(rows@)[k],
                                arow@,
                                rows_view(rows@)[k].cs[entrant_var as int],
                            ),
                        )
                    }),
            decreases rows@.len() - y,
        {
            if y == active_row {
                new_rows.push(dup_row(&arow));
            } else {
                let mut nr = dup_row(&rows[y]);
                let c = rows[y].coefficients[entrant_var];
                if !nr.sub_mul(&arow, c) {
                    proof {
                        assert(!pivot_elims_ok(
                            rows_view(rows@),
                            arow@,
                            entrant_var as int,
                            active_row as int,
                            y + 1,
                        ));
                        lemma_pivot_elims_ok_refute(
                            rows_view(rows@),
                            arow@,
                            entrant_var as int,
                            active_row as int,
                            y + 1,
                            rows@.len() as int,
                        );
                        assert(spec_pivot(cur_tab, cur_vis, active_row as int, entrant_var as int)
                            == StepVal::Halt(tab2, SimplexEnd::Overflow));
                    }
                    return SimplexResult {
                        rows,
                        target: tgt,
                        basis: bas,
                        end: SimplexEnd::Overflow,
                    };
                }
                nr.reduce();
                new_rows.push(nr);
            }
            y += 1;
        }
        let ghost pre_tgt = tgt@;
        let c = tgt.coefficients[entrant_var];
        if !tgt.sub_mul(&arow, c) {
            proof {
                assert(spec_pivot(cur_tab, cur_vis, active_row as int, entrant_var as int)
                    == StepVal::Halt(tab2, SimplexEnd::Overflow));
            }
            return SimplexResult { rows, target: tgt, basis: bas, end: SimplexEnd::Overflow };
        }
        tgt.reduce();
        proof {
            let t_next = match spec_pivot(cur_tab, cur_vis, active_row as int, entrant_var as int) {
                StepVal::Step(t2) => t2,
                StepVal::Halt(t2, _) => t2,
            };
            assert(tgt@ == row_reduced(row_sub_mul(pre_tgt, arow@, pre_tgt.cs[entrant_var as int])));
            assert(rows_view(new_rows@) =~= t_next.rows);
            assert(spec_pivot(cur_tab, cur_vis, active_row as int, entrant_var as int)
                == StepVal::Step(
                TabVal { rows: rows_view(new_rows@), tgt: tgt@, bas: bas@ },
            ));
        }
        rows = new_rows;
        step += 1;
    }
    SimplexResult { rows, target: tgt, basis: bas, end: SimplexEnd::Budget }
}

} // verus!
