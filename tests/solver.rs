use simplex::errors::SimplexMethodError;
use simplex::problem::{Goal, Relation, Restriction, TargetFn, Task, Term};
use simplex::rational::Rational;
use simplex::simplex::{Aim, SimplexSolver, Solution};
use simplex::task::{DoublePhase, Method, Simple, SimplexTask, Taxes};
use simplex::tax::Tax;

fn whole(n: i64) -> Rational {
    Rational::from_integer(n)
}

fn term(coef: i64, index: u64) -> Term {
    Term { coef: whole(coef), index }
}

fn restriction(terms: Vec<Term>, relation: Relation, value: i64) -> Restriction {
    Restriction { relation, terms, value: whole(value) }
}

fn task(restrictions: Vec<Restriction>, terms: Vec<Term>, goal: Goal) -> Task {
    Task { restrictions, target_fn: TargetFn { goal, terms, value: whole(0) } }
}

fn solve_with<M: Method>(t: Task) -> Result<Solution, SimplexMethodError> {
    let canon = SimplexTask::from_task(t).canonize::<M>()?;
    SimplexSolver::from_canonic(canon)?.solve()
}

fn value_of(sol: &Solution) -> (i64, i64, i64, i64) {
    let v = sol.optimal_value().expect("no overflow");
    let re = Rational::new(v.re.numer, v.re.denom);
    let im = Rational::new(v.im.numer, v.im.denom);
    (re.numer, re.denom, im.numer, im.denom)
}

fn scenario_a() -> Task {
    task(
        vec![restriction(vec![term(1, 1), term(1, 2)], Relation::Less, 4)],
        vec![term(3, 1), term(2, 2)],
        Goal::Maximize,
    )
}

#[test]
fn scenario_a_optimum_is_twelve() {
    let sol = solve_with::<Simple>(scenario_a()).unwrap();
    assert_eq!(value_of(&sol), (12, 1, 0, 1));
}

#[test]
fn scenario_a_basis_satisfies_restriction() {
    let sol = solve_with::<Simple>(scenario_a()).unwrap();
    // x1 = 4 is basic; x1 + x2 + s = 4 holds with x2 = s = 0
    assert_eq!(sol.basis_coeffs.len(), 1);
    let (col, v) = sol.basis_coeffs[0];
    assert_eq!(col, 0);
    assert_eq!((v.re.numer, v.re.denom, v.im.numer), (4, 1, 0));
}

#[test]
fn scenario_a_final_row_has_no_improving_entry() {
    let sol = solve_with::<Simple>(scenario_a()).unwrap();
    let n = sol.coefficients.len() - 1;
    for j in 0..n {
        assert!(!sol.coefficients[j].is_negative());
    }
}

#[test]
fn scenario_a_same_under_every_method() {
    let a = solve_with::<Simple>(scenario_a()).unwrap();
    let b = solve_with::<Taxes>(scenario_a()).unwrap();
    let c = solve_with::<DoublePhase>(scenario_a()).unwrap();
    assert_eq!(value_of(&a), (12, 1, 0, 1));
    assert_eq!(value_of(&b), (12, 1, 0, 1));
    assert_eq!(value_of(&c), (12, 1, 0, 1));
}

#[test]
fn scenario_b_unbounded_is_no_limit() {
    let t = task(
        vec![restriction(vec![term(1, 1), term(-1, 2)], Relation::Less, 5)],
        vec![term(1, 2)],
        Goal::Maximize,
    );
    assert!(matches!(solve_with::<Simple>(t), Err(SimplexMethodError::NoLimit)));
}

fn scenario_c(goal: Goal, objective: Vec<Term>) -> Task {
    task(
        vec![
            restriction(vec![term(1, 1), term(1, 2)], Relation::Equal, 4),
            restriction(vec![term(1, 1)], Relation::Less, 3),
        ],
        objective,
        goal,
    )
}

#[test]
fn scenario_c_big_m_and_two_phase_agree_on_max() {
    let objective = || vec![term(2, 1), term(1, 2)];
    let big_m = solve_with::<Taxes>(scenario_c(Goal::Maximize, objective())).unwrap();
    let two_phase = solve_with::<DoublePhase>(scenario_c(Goal::Maximize, objective())).unwrap();
    assert_eq!(value_of(&big_m), (7, 1, 0, 1));
    assert_eq!(value_of(&two_phase), (7, 1, 0, 1));
}

#[test]
fn scenario_c_big_m_and_two_phase_agree_on_min() {
    let objective = || vec![term(1, 1), term(2, 2)];
    let big_m = solve_with::<Taxes>(scenario_c(Goal::Minimize, objective())).unwrap();
    let two_phase = solve_with::<DoublePhase>(scenario_c(Goal::Minimize, objective())).unwrap();
    assert_eq!(value_of(&two_phase), (5, 1, 0, 1));
    assert_eq!(value_of(&big_m), (5, 1, 0, 1));
}

#[test]
fn two_phase_reports_infeasible_task() {
    let t = task(
        vec![
            restriction(vec![term(1, 1)], Relation::Equal, 5),
            restriction(vec![term(1, 1)], Relation::Less, 2),
        ],
        vec![term(1, 1)],
        Goal::Maximize,
    );
    assert!(matches!(solve_with::<DoublePhase>(t), Err(SimplexMethodError::NoSolutions)));
}

#[test]
fn simple_method_without_slack_basis_is_refused() {
    let t = task(
        vec![restriction(vec![term(1, 1)], Relation::Greater, 2)],
        vec![term(1, 1)],
        Goal::Minimize,
    );
    let canon = SimplexTask::from_task(t).canonize::<Simple>().unwrap();
    assert!(matches!(
        SimplexSolver::from_canonic(canon),
        Err(SimplexMethodError::NoInitialBasis)
    ));
}

#[test]
fn from_canonical_matrix_finds_slack_basis() {
    let row = vec![Tax::from_real(whole(1)), Tax::from_real(whole(1)), Tax::one(), Tax::from_real(whole(4))];
    let z = vec![
        Tax::from_real(whole(-3)),
        Tax::from_real(whole(-2)),
        Tax::zero(),
        Tax::zero(),
    ];
    let solver = SimplexSolver::from_canonical_matrix(vec![row], z, Aim::Maximize).unwrap();
    assert_eq!(solver.basis, vec![2]);
    let sol = solver.solve().unwrap();
    assert_eq!(value_of(&sol), (12, 1, 0, 1));
}

#[test]
fn from_contents_without_rows_is_empty_problem() {
    let z = vec![Tax::zero(), Tax::zero()];
    assert!(matches!(
        SimplexSolver::from_contents(vec![z], Aim::Maximize),
        Err(SimplexMethodError::EmptyProblem)
    ));
}

#[test]
fn from_contents_with_ragged_rows_is_shape_mismatch() {
    let rows = vec![vec![Tax::one(), Tax::zero(), Tax::one()], vec![Tax::zero(), Tax::zero()]];
    assert!(matches!(
        SimplexSolver::from_contents(rows, Aim::Maximize),
        Err(SimplexMethodError::ShapeMismatch)
    ));
}

#[test]
fn huge_numbers_overflow() {
    let big = i64::MAX / 2;
    let t = task(
        vec![
            restriction(vec![term(big, 1), term(3, 2)], Relation::Less, big),
            restriction(vec![term(7, 1), term(big - 1, 2)], Relation::Less, big - 2),
        ],
        vec![term(big, 1), term(big, 2)],
        Goal::Maximize,
    );
    assert!(matches!(solve_with::<Simple>(t), Err(SimplexMethodError::Overflow)));
}
