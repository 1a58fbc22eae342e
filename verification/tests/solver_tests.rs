use exact_simplex::constraint::BuildError;
use exact_simplex::constraint::Cond;
use exact_simplex::constraint::ConstraintBuilder;
use exact_simplex::rat::Rat;
use exact_simplex::row::Row;
use exact_simplex::simplex::argmax;
use exact_simplex::simplex::argmin;
use exact_simplex::simplex::is_dual_realisable;
use exact_simplex::simplex::is_primal_realisable;
use exact_simplex::simplex::simplex;
use exact_simplex::simplex::SimplexEnd;
use exact_simplex::superreal::SuperReal;

fn sr(m: i64, x: i64, e: i64) -> SuperReal {
    SuperReal::from_triple(m, x, e)
}

#[test]
fn test_build() {
    let mut builder = ConstraintBuilder::new();
    builder.push(vec![-2, 1], 2, Cond::Lte);
    builder.push(vec![-1, 2], 5, Cond::Lte);
    builder.push(vec![1, -4], 5, Cond::Lte);
    builder.target(Row::from_ints(&vec![1, 2, 0]));

    let constraints = vec![
        Row::from_ints(&vec![-2, 1, 1, 0, 0, 2]),
        Row::from_ints(&vec![-1, 2, 0, 1, 0, 5]),
        Row::from_ints(&vec![1, -4, 0, 0, 1, 5]),
    ];
    let target = Row::from_ints(&vec![1, 2, 0, 0, 0, 0]);
    let basis = vec![2, 3, 4];

    assert_eq!(builder.build().unwrap(), (constraints, target, basis));
}

#[test]
fn rat_arithmetic_exact_values() {
    let half = Rat::new(1, 2);
    let third = Rat::new(1, 3);
    // Results are kept as raw cross-multiplied pairs, not reduced.
    assert_eq!(half.add(third).unwrap(), Rat::new(5, 6));
    assert_eq!(half.sub(third).unwrap(), Rat::new(1, 6));
    assert_eq!(half.mul(third).unwrap(), Rat::new(1, 6));
    assert_eq!(half.div(Rat::new(-2, 3)).unwrap(), Rat::new(-3, 4));
    assert_eq!(half.neg(), Rat::new(-1, 2));
    assert!(Rat::new(2, 4).eq_val(half));
    assert!(third.lt(half));
    assert!(third.le(half));
    assert!(!half.le(third));
    assert!(Rat::zero().is_zero());
}

#[test]
fn rat_overflow_reports_none() {
    let big = Rat::new(i64::MAX, 1);
    assert_eq!(big.add(Rat::new(1, 1)), None);
    assert_eq!(big.mul(big), None);
}

#[test]
fn superreal_mul_follows_unit_table() {
    // (m + x + e*eps) * (m' + x' + e'*eps): nilpotent cross terms drop.
    let a = sr(1, 2, 3);
    let b = sr(5, 7, 11);
    let p = a.mul(b).unwrap();
    // m' = x1*m2 + m1*x2 = 2*5 + 1*7 = 17; x' = 14; e' = 2*11 + 3*7 = 43.
    assert!(p.eq_val(&sr(17, 14, 43)));
}

#[test]
fn superreal_add_is_associative() {
    let a = sr(1, -2, 3);
    let b = sr(-4, 5, -6);
    let c = sr(7, -8, 9);
    let left = a.add(b.add(c).unwrap()).unwrap();
    let right = a.add(b).unwrap().add(c).unwrap();
    assert!(left.eq_val(&right));
}

#[test]
fn superreal_conjugate_product_is_pure_real() {
    let a = sr(3, 4, 5);
    let p = a.mul(a.conj()).unwrap();
    assert!(p.em().is_zero());
    assert!(p.epsilon().is_zero());
    assert!(p.real_part().eq_val(Rat::new(16, 1)));
}

#[test]
fn superreal_div_mul_roundtrip() {
    // (a / b) * b == a for b with a nonzero real part.
    let a = sr(3, -7, 2);
    let b = sr(0, 4, 0);
    let q = a.div(b).unwrap();
    let back = q.mul(b).unwrap();
    assert!(back.eq_val(&a));
}

#[test]
fn superreal_div_degenerate_divisor_yields_zero() {
    // A divisor with zero real part is not invertible; the quotient is the
    // deliberate zero fallback.
    let a = sr(1, 2, 3);
    let b = sr(0, 0, 1);
    let q = a.div(b).unwrap();
    assert!(q.is_zero());
}

#[test]
fn standardize_uniform_width_and_distinct_basis() {
    let mut builder = ConstraintBuilder::new();
    builder.push(vec![1, 2], 3, Cond::Lte);
    builder.push(vec![4, 5], 6, Cond::Gte);
    builder.push(vec![7, 8], 9, Cond::Eq);
    builder.push(vec![1, 1], 1, Cond::Lt);
    builder.target(Row::from_ints(&vec![1, 1, 0]));
    let (rows, target, basis) = builder.build().unwrap();
    // Width: two variables plus three non-equality constraints.
    for row in rows.iter() {
        assert_eq!(row.coefficients.len(), 5);
    }
    assert_eq!(target.coefficients.len(), 5);
    assert_eq!(basis.len(), 4);
    for i in 0..basis.len() {
        for j in 0..i {
            assert_ne!(basis[i], basis[j]);
        }
    }
    assert_eq!(basis, vec![2, 3, 4, 0]);
}

#[test]
fn standardize_is_idempotent() {
    let mut builder = ConstraintBuilder::new();
    builder.push(vec![-2, 1], 2, Cond::Lt);
    builder.push(vec![1, 3], 7, Cond::Gte);
    builder.push(vec![1, -1], 4, Cond::Eq);
    builder.target(Row::from_ints(&vec![2, 1, 0]));
    let first = builder.build().unwrap();
    let second = builder.build().unwrap();
    assert_eq!(first, second);
}

#[test]
fn surplus_column_carries_minus_one() {
    // x >= 3: the surplus column gets -1 and the constant stays untouched.
    let mut builder = ConstraintBuilder::new();
    builder.push(vec![1], 3, Cond::Gte);
    builder.target(Row::from_ints(&vec![1, 0]));
    let (rows, _, basis) = builder.build().unwrap();
    assert_eq!(rows, vec![Row::from_ints(&vec![1, -1, 3])]);
    assert_eq!(basis, vec![1]);
}

#[test]
fn strict_constraint_shifts_by_one_epsilon() {
    let mut strict = ConstraintBuilder::new();
    strict.push(vec![1], 5, Cond::Lt);
    strict.target(Row::from_ints(&vec![1, 0]));
    let (srows, _, _) = strict.build().unwrap();

    let mut lax = ConstraintBuilder::new();
    lax.push(vec![1], 5, Cond::Lte);
    lax.target(Row::from_ints(&vec![1, 0]));
    let (lrows, _, _) = lax.build().unwrap();

    let s_mz = srows[0].minus_z;
    let l_mz = lrows[0].minus_z;
    assert!(s_mz.em().eq_val(l_mz.em()));
    assert!(s_mz.real_part().eq_val(l_mz.real_part()));
    // Exactly one unit of infinitesimal apart.
    assert!(s_mz.epsilon().eq_val(l_mz.epsilon().add(Rat::new(1, 1)).unwrap()));
}

#[test]
fn build_without_objective_is_refused() {
    let mut builder = ConstraintBuilder::new();
    builder.push(vec![1], 1, Cond::Lte);
    assert_eq!(builder.build().unwrap_err(), BuildError::MissingObjective);
}

#[test]
fn build_with_uneven_rows_is_refused() {
    let mut builder = ConstraintBuilder::new();
    builder.push(vec![1, 2], 1, Cond::Lte);
    builder.push(vec![1], 1, Cond::Lte);
    builder.target(Row::from_ints(&vec![1, 1, 0]));
    assert_eq!(builder.build().unwrap_err(), BuildError::UnevenRows);
}

#[test]
fn build_with_too_many_equalities_is_refused() {
    let mut builder = ConstraintBuilder::new();
    builder.push(vec![1], 1, Cond::Eq);
    builder.push(vec![2], 2, Cond::Eq);
    builder.target(Row::from_ints(&vec![1, 0]));
    assert_eq!(builder.build().unwrap_err(), BuildError::DuplicateBasis);
}

#[test]
fn build_overflow_is_refused() {
    let mut builder = ConstraintBuilder::new();
    let huge = SuperReal::new(Rat::zero(), Rat::zero(), Rat::new(i64::MAX, 1));
    builder.push_row(Row::new(vec![SuperReal::from_int(1)], huge), Cond::Lt);
    builder.target(Row::from_ints(&vec![1, 0]));
    assert_eq!(builder.build().unwrap_err(), BuildError::Overflow);
}

#[test]
fn transform_transposes_and_negates() {
    let mut builder = ConstraintBuilder::new();
    builder.push(vec![-2, -2, -1], -3, Cond::Lte);
    builder.push(vec![-3, -1, -3], -4, Cond::Lte);
    builder.target(Row::from_ints(&vec![-180, -120, -150, 0]));
    let dual = builder.transform().unwrap();
    assert_eq!(
        dual.constraints,
        vec![
            Row::from_ints(&vec![-2, -3, -180]),
            Row::from_ints(&vec![-2, -1, -120]),
            Row::from_ints(&vec![-1, -3, -150]),
        ]
    );
    assert_eq!(dual.conditions, vec![Cond::Gte, Cond::Gte, Cond::Gte]);
    assert_eq!(dual.target, Some(Row::from_ints(&vec![3, 4, 0])));
}

#[test]
fn argmax_takes_earliest_greatest() {
    let items = vec![(0, sr(0, 1, 0)), (1, sr(0, 3, 0)), (2, sr(0, 3, 0)), (3, sr(0, 2, 0))];
    assert_eq!(argmax(&items), Some(1));
    let empty: Vec<(usize, SuperReal)> = Vec::new();
    assert_eq!(argmax(&empty), None);
}

#[test]
fn argmin_takes_earliest_least() {
    let items = vec![(5, sr(0, 4, 0)), (6, sr(0, 2, 0)), (7, sr(0, 2, 0))];
    assert_eq!(argmin(&items), Some(6));
    let empty: Vec<(usize, SuperReal)> = Vec::new();
    assert_eq!(argmin(&empty), None);
}

#[test]
fn epsilon_orders_below_every_positive_real() {
    let eps = sr(0, 0, 1);
    let tiny = SuperReal::new(Rat::zero(), Rat::new(1, 1000000), Rat::zero());
    assert!(eps.lt(&tiny));
    assert!(SuperReal::zero().lt(&eps));
    assert!(tiny.lt(&sr(1, 0, 0)));
}

#[test]
fn primal_run_on_unbounded_scenario() {
    // Scenario: -2x+y <= 2, -x+2y <= 5, x-4y <= 5, maximize x+2y. The
    // feasible ray x = 4t, y = t makes the objective unbounded, so the run
    // must end at the ratio test, not at an optimum.
    let mut builder = ConstraintBuilder::new();
    builder.push(vec![-2, 1], 2, Cond::Lte);
    builder.push(vec![-1, 2], 5, Cond::Lte);
    builder.push(vec![1, -4], 5, Cond::Lte);
    builder.target(Row::from_ints(&vec![1, 2, 0]));
    let (rows, target, basis) = builder.build().unwrap();
    assert_eq!(basis, vec![2, 3, 4]);

    let result = simplex(rows, target, basis, 10);
    assert_eq!(result.end, SimplexEnd::NoLeavingRow);
    assert_eq!(result.basis, vec![1, 0, 4]);
}

#[test]
fn primal_run_reaches_optimal_certificate() {
    // A bounded problem: x+y <= 4, 2x+y <= 6, maximize x+2y. The run must
    // end in a state where no objective coefficient on a non-basic column is
    // positive.
    let mut builder = ConstraintBuilder::new();
    builder.push(vec![1, 1], 4, Cond::Lte);
    builder.push(vec![2, 1], 6, Cond::Lte);
    builder.target(Row::from_ints(&vec![1, 2, 0]));
    let (rows, target, basis) = builder.build().unwrap();
    assert_eq!(basis, vec![2, 3]);

    let result = simplex(rows, target, basis, 10);
    assert_eq!(result.end, SimplexEnd::NoEntrant);
    // Optimum: y = 4, x = 0, objective 8; the corner slot accumulates its
    // negation.
    assert!(result.target.minus_z.eq_val(&sr(0, -8, 0)));
    let zero = SuperReal::zero();
    for i in 0..result.target.coefficients.len() {
        if !result.basis.contains(&i) {
            assert!(!zero.lt(&result.target.coefficients[i]));
        }
    }
}

#[test]
fn dual_then_primal_agree_with_feasibility_checks() {
    let mut builder = ConstraintBuilder::new();
    builder.push(vec![-2, -2, -1], -3, Cond::Lte);
    builder.push(vec![-3, -1, -3], -4, Cond::Lte);
    builder.target(Row::from_ints(&vec![-180, -120, -150, 0]));

    let (rows, target, basis) = builder.transform().unwrap().build().unwrap();
    assert!(!is_primal_realisable(&rows));
    assert!(!is_dual_realisable(&target));
    let dual_result = simplex(rows, target, basis, 10);
    assert_eq!(dual_result.end, SimplexEnd::NoEntrant);
    assert!(is_primal_realisable(&dual_result.rows));
    assert!(dual_result.target.minus_z.eq_val(&sr(0, -255, 0)));

    let (rows, target, basis) = builder.build().unwrap();
    assert!(!is_primal_realisable(&rows));
    assert!(is_dual_realisable(&target));
    let primal_result = simplex(rows, target, basis, 10);
    assert_eq!(primal_result.end, SimplexEnd::NoEntrant);
    assert!(is_primal_realisable(&primal_result.rows));
    assert!(primal_result.target.minus_z.eq_val(&sr(0, 255, 0)));
}

#[test]
fn nonpositive_objective_causes_zero_pivots() {
    // Primal feasible, strictly negative objective coefficient on the only
    // non-basic column: the engine must return the tableau untouched.
    let mut builder = ConstraintBuilder::new();
    builder.push(vec![1], 4, Cond::Lte);
    builder.target(Row::from_ints(&vec![-1, 0]));
    let (rows, target, basis) = builder.build().unwrap();
    let expected_rows = rows.clone();
    let expected_target = target.clone();
    let result = simplex(rows, target, basis, 10);
    assert_eq!(result.end, SimplexEnd::NoEntrant);
    assert_eq!(result.rows, expected_rows);
    assert_eq!(result.target, expected_target);
    assert_eq!(result.basis, vec![1]);
}

#[test]
fn cycle_guard_stops_on_revisited_basis() {
    // A degenerate tableau whose second pivot returns to the initial basis:
    // the engine must stop right there, well inside the budget.
    let rows = vec![Row::from_ints(&vec![1, 1, 0])];
    let target = Row::from_ints(&vec![1, 1, 0]);
    let basis = vec![1];
    let result = simplex(rows, target, basis, 1000000);
    assert_eq!(result.end, SimplexEnd::Cycle);
    assert_eq!(result.basis, vec![1]);
}

#[test]
fn budget_exhaustion_reports_budget() {
    let rows = vec![Row::from_ints(&vec![1, 1, 0])];
    let target = Row::from_ints(&vec![1, 1, 0]);
    let basis = vec![1];
    let result = simplex(rows, target, basis, 0);
    assert_eq!(result.end, SimplexEnd::Budget);
    assert_eq!(result.basis, vec![1]);
}

#[test]
fn transform_without_objective_is_refused() {
    let mut builder = ConstraintBuilder::new();
    builder.push(vec![1], 1, Cond::Lte);
    assert_eq!(builder.transform().unwrap_err(), BuildError::MissingObjective);
}

#[test]
fn transform_with_narrow_rows_is_refused() {
    let mut builder = ConstraintBuilder::new();
    builder.push(vec![1], 1, Cond::Lte);
    builder.target(Row::from_ints(&vec![1, 1, 0]));
    assert_eq!(builder.transform().unwrap_err(), BuildError::UnevenRows);
}

#[test]
fn degenerate_pivot_is_reported() {
    // The entering column's pivot slot is a pure infinitesimal: its ratio
    // falls back to zero and gets selected, but the pivot cannot invert it.
    let rows = vec![Row::new(vec![sr(0, 0, 1), sr(0, 1, 0)], SuperReal::zero())];
    let target = Row::from_ints(&vec![1, 0, 0]);
    let basis = vec![1];
    let result = simplex(rows, target, basis, 10);
    assert_eq!(result.end, SimplexEnd::DegeneratePivot);
}

#[test]
fn missing_basis_coefficient_is_reported() {
    // The basis names a column whose coefficient in the leaving row is zero.
    let rows = vec![Row::from_ints(&vec![1, 0, 2])];
    let target = Row::from_ints(&vec![1, 0, 0]);
    let basis = vec![1];
    let result = simplex(rows, target, basis, 10);
    assert_eq!(result.end, SimplexEnd::MissingBasisCoefficient);
}

#[test]
fn dual_step_without_candidate_column_is_reported() {
    // Primal infeasible, dual feasible, and the leaving row has no negative
    // coefficient outside the basis.
    let rows = vec![Row::from_ints(&vec![1, 1, -1])];
    let target = Row::from_ints(&vec![-1, 0, 0]);
    let basis = vec![1];
    let result = simplex(rows, target, basis, 10);
    assert_eq!(result.end, SimplexEnd::NoDualEntrant);
}
