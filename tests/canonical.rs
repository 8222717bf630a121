use simplex::errors::SimplexMethodError;
use simplex::problem::{Goal, Relation, Restriction, TargetFn, Task, Term};
use simplex::rational::Rational;
use simplex::task::{MethodKind, SimplexTask, Taxes};

fn whole(n: i64) -> Rational {
    Rational::from_integer(n)
}

fn term(coef: i64, index: u64) -> Term {
    Term { coef: whole(coef), index }
}

fn target(terms: Vec<Term>) -> TargetFn {
    TargetFn { goal: Goal::Maximize, terms, value: whole(0) }
}

#[test]
fn canonical_restrictions_are_equalities_with_nonnegative_rhs() {
    let t = Task {
        restrictions: vec![
            Restriction { relation: Relation::Less, terms: vec![term(1, 1), term(2, 2)], value: whole(4) },
            Restriction { relation: Relation::Greater, terms: vec![term(1, 1), term(-1, 2)], value: whole(-3) },
            Restriction { relation: Relation::Equal, terms: vec![term(1, 2)], value: whole(-1) },
        ],
        target_fn: target(vec![term(1, 1)]),
    };
    let c = SimplexTask::from_task(t).canonize::<Taxes>().unwrap();
    assert_eq!(c.max_index, 4);
    assert_eq!(c.method, MethodKind::Taxes);
    for r in &c.task.restrictions {
        assert_eq!(r.relation, Relation::Equal);
        assert!(!r.free.is_negative());
    }
    // x1 + 2x2 + x3 == 4
    let r0 = &c.task.restrictions[0];
    let coefs: Vec<(i64, u64)> = r0.terms.iter().map(|t| (t.coef.re.numer, t.index)).collect();
    assert_eq!(coefs, vec![(1, 1), (2, 2), (1, 3)]);
    // x1 - x2 - x4 >= ... flipped: -x1 + x2 + x4 == 3
    let r1 = &c.task.restrictions[1];
    let coefs: Vec<(i64, u64)> = r1.terms.iter().map(|t| (t.coef.re.numer, t.index)).collect();
    assert_eq!(coefs, vec![(-1, 1), (1, 2), (1, 4)]);
    assert_eq!((r1.free.re.numer, r1.free.re.denom), (3, 1));
    // x2 == -1 flipped: -x2 == 1
    let r2 = &c.task.restrictions[2];
    let coefs: Vec<(i64, u64)> = r2.terms.iter().map(|t| (t.coef.re.numer, t.index)).collect();
    assert_eq!(coefs, vec![(-1, 2)]);
    assert_eq!(r2.free.re.numer, 1);
}

#[test]
fn canonical_form_keeps_a_feasible_point() {
    // x1 - x2 >= -3 at (x1, x2) = (1, 2): surplus x3 = x1 - x2 + 3 = 2,
    // and the canonical row -x1 + x2 + x3 == 3 holds: -1 + 2 + 2 = 3.
    let t = Task {
        restrictions: vec![Restriction {
            relation: Relation::Greater,
            terms: vec![term(1, 1), term(-1, 2)],
            value: whole(-3),
        }],
        target_fn: target(vec![term(1, 1)]),
    };
    let c = SimplexTask::from_task(t).canonize::<Taxes>().unwrap();
    let point = [1i64, 2, 2];
    let r = &c.task.restrictions[0];
    let lhs: i64 = r.terms.iter().map(|t| t.coef.re.numer * point[(t.index - 1) as usize]).sum();
    assert_eq!(lhs, r.free.re.numer);
}

#[test]
fn canonize_without_restrictions_is_empty_problem() {
    let t = Task { restrictions: vec![], target_fn: target(vec![term(1, 1)]) };
    assert!(matches!(
        SimplexTask::from_task(t).canonize::<Taxes>(),
        Err(SimplexMethodError::EmptyProblem)
    ));
}

#[test]
fn canonize_with_index_zero_is_shape_mismatch() {
    let t = Task {
        restrictions: vec![Restriction {
            relation: Relation::Less,
            terms: vec![term(1, 0), term(1, 1)],
            value: whole(1),
        }],
        target_fn: target(vec![term(1, 1)]),
    };
    assert!(matches!(
        SimplexTask::from_task(t).canonize::<Taxes>(),
        Err(SimplexMethodError::ShapeMismatch)
    ));
}

#[test]
fn canonize_with_unknown_objective_variable_is_shape_mismatch() {
    let t = Task {
        restrictions: vec![Restriction { relation: Relation::Less, terms: vec![term(1, 1)], value: whole(1) }],
        target_fn: target(vec![term(1, 5)]),
    };
    assert!(matches!(
        SimplexTask::from_task(t).canonize::<Taxes>(),
        Err(SimplexMethodError::ShapeMismatch)
    ));
}
