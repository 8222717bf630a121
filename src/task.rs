use vstd::prelude::*;
use crate::errors::SimplexMethodError;
use crate::problem::{Goal, Relation, Task, Term};
use crate::rational::Rational;
use crate::tax::Tax;

verus! {

/// `coef * x<index>` over Big-M numbers.
#[derive(Debug, Clone, Copy)]
pub struct SimplexTerm {
    pub coef: Tax,
    pub index: u64,
}

/// A restriction `terms relation free` over Big-M numbers.
#[derive(Debug)]
pub struct SimplexRestriction {
    pub terms: Vec<SimplexTerm>,
    pub relation: Relation,
    pub free: Tax,
}

/// The objective `z = terms + free -> goal` over Big-M numbers.
#[derive(Debug)]
pub struct SimplexTarget {
    pub terms: Vec<SimplexTerm>,
    pub free: Tax,
    pub goal: Goal,
}

/// A task whose numbers are Big-M numbers, before it is brought to standard form.
#[derive(Debug)]
pub struct SimplexTask {
    pub restrictions: Vec<SimplexRestriction>,
    pub target_fn: SimplexTarget,
}

/// The way the tableau gets its starting basis.
#[derive(Debug, Clone, Copy, PartialEq, Eq, Structural)]
pub enum MethodKind {
    /// The slack columns already form a basis.
    Simple,
    /// Artificial columns, with penalty `M` in the objective.
    Taxes,
    /// Artificial columns, driven out by a first phase of their own.
    DoublePhase,
}

/// Selects the method by type: `task.canonize::<Taxes>()`.
pub trait Method {
    spec fn kind_spec() -> MethodKind;

    fn kind() -> (k: MethodKind)
        ensures
            k == Self::kind_spec(),
    ;
}

/// The slack columns already form a basis.
pub struct Simple;

/// The Big-M penalty method.
pub struct Taxes;

/// The two-phase method.
pub struct DoublePhase;

impl Method for Simple {
    open spec fn kind_spec() -> MethodKind {
        MethodKind::Simple
    }

    fn kind() -> (k: MethodKind) {
        MethodKind::Simple
    }
}

impl Method for Taxes {
    open spec fn kind_spec() -> MethodKind {
        MethodKind::Taxes
    }

    fn kind() -> (k: MethodKind) {
        MethodKind::Taxes
    }
}

impl Method for DoublePhase {
    open spec fn kind_spec() -> MethodKind {
        MethodKind::DoublePhase
    }

    fn kind() -> (k: MethodKind) {
        MethodKind::DoublePhase
    }
}

/// A task in standard form: every restriction an equality with a right-hand
/// side that is not negative, the slack and surplus columns numbered after the
/// task's own variables up to `max_index`.
#[derive(Debug)]
pub struct CanonicSimplexTask {
    pub task: SimplexTask,
    pub max_index: u64,
    pub method: MethodKind,
}

pub open spec fn tax_of(v: Rational) -> Tax {
    Tax { re: v, im: Rational::zero_spec() }
}

pub open spec fn tax_neg(t: Tax) -> Tax {
    Tax {
        re: Rational { numer: (-t.re.numer) as i64, denom: t.re.denom },
        im: Rational { numer: (-t.im.numer) as i64, denom: t.im.denom },
    }
}

pub open spec fn term_neg(t: SimplexTerm) -> SimplexTerm {
    SimplexTerm { coef: tax_neg(t.coef), index: t.index }
}

pub open spec fn term_of(t: Term) -> SimplexTerm {
    SimplexTerm { coef: tax_of(t.coef), index: t.index }
}

pub open spec fn simplex_terms_wf(terms: Seq<SimplexTerm>) -> bool {
    forall|k: int| 0 <= k < terms.len() ==> (#[trigger] terms[k]).coef.wf()
}

/// The largest index among the terms, zero for none.
pub open spec fn terms_max(terms: Seq<SimplexTerm>) -> u64
    decreases terms.len(),
{
    if terms.len() == 0 {
        0
    } else {
        let rest = terms_max(terms.drop_last());
        if terms.last().index > rest {
            terms.last().index
        } else {
            rest
        }
    }
}

/// The largest variable index in the first `i` restrictions, zero for none.
pub open spec fn restrictions_max(rs: Seq<SimplexRestriction>, i: int) -> u64
    decreases i,
{
    if i <= 0 {
        0
    } else {
        let rest = restrictions_max(rs, i - 1);
        let here = terms_max(rs[i - 1].terms@);
        if here > rest {
            here
        } else {
            rest
        }
    }
}

/// How many of the first `i` restrictions are inequalities, each of which gets
/// a slack or surplus column.
pub open spec fn added_before(rs: Seq<SimplexRestriction>, i: int) -> int
    decreases i,
{
    if i <= 0 {
        0
    } else {
        added_before(rs, i - 1) + if rs[i - 1].relation == Relation::Equal {
            0int
        } else {
            1int
        }
    }
}

pub open spec fn minus_one() -> Tax {
    Tax { re: Rational { numer: -1i64, denom: 1 }, im: Rational::zero_spec() }
}

pub open spec fn plus_one() -> Tax {
    Tax { re: Rational { numer: 1, denom: 1 }, im: Rational::zero_spec() }
}

/// The terms of a restriction with its slack (`<=`, coefficient 1) or surplus
/// (`>=`, coefficient -1) column `index` appended.
pub open spec fn augmented_terms(r: SimplexRestriction, index: u64) -> Seq<SimplexTerm> {
    match r.relation {
        Relation::Less => r.terms@.push(SimplexTerm { coef: plus_one(), index }),
        Relation::Greater => r.terms@.push(SimplexTerm { coef: minus_one(), index }),
        Relation::Equal => r.terms@,
    }
}

/// The terms of the standard form of `r`: augmented, then negated as a whole
/// where the right-hand side is negative.
pub open spec fn canonical_terms(r: SimplexRestriction, index: u64) -> Seq<SimplexTerm> {
    if r.free.is_negative_value() {
        augmented_terms(r, index).map_values(|t: SimplexTerm| term_neg(t))
    } else {
        augmented_terms(r, index)
    }
}

/// The right-hand side of the standard form of `r`.
pub open spec fn canonical_free(r: SimplexRestriction) -> Tax {
    if r.free.is_negative_value() {
        tax_neg(r.free)
    } else {
        r.free
    }
}

/// Whether an index of the task cannot stand for a column: zero, or an
/// objective variable that no restriction names.
pub open spec fn bad_index(task: &SimplexTask) -> bool {
    let max = restrictions_max(task.restrictions@, task.restrictions@.len() as int);
    ||| exists|i: int, k: int|
        0 <= i < task.restrictions@.len() && 0 <= k < task.restrictions@[i].terms@.len()
            && #[trigger] task.restrictions@[i].terms@[k].index == 0
    ||| exists|k: int|
        0 <= k < task.target_fn.terms@.len() && (#[trigger] task.target_fn.terms@[k].index == 0
            || task.target_fn.terms@[k].index > max)
}

impl SimplexTask {
    pub open spec fn wf(&self) -> bool {
        &&& forall|i: int|
            0 <= i < self.restrictions@.len() ==> {
                &&& simplex_terms_wf((#[trigger] self.restrictions@[i]).terms@)
                &&& self.restrictions@[i].free.wf()
            }
        &&& simplex_terms_wf(self.target_fn.terms@)
        &&& self.target_fn.free.wf()
    }

    /// Turns the task's fractions into finite Big-M numbers.
    pub fn from_task(value: Task) -> (r: SimplexTask)
        requires
            value.wf(),
        ensures
            r.wf(),
            r.restrictions@.len() == value.restrictions@.len(),
            forall|i: int|
                0 <= i < r.restrictions@.len() ==> {
                    &&& (#[trigger] r.restrictions@[i]).terms@ == value.restrictions@[i].terms@.map_values(
                        |t: Term| term_of(t),
                    )
                    &&& r.restrictions@[i].relation == value.restrictions@[i].relation
                    &&& r.restrictions@[i].free == tax_of(value.restrictions@[i].value)
                },
            r.target_fn.terms@ == value.target_fn.terms@.map_values(|t: Term| term_of(t)),
            r.target_fn.free == tax_of(value.target_fn.value),
            r.target_fn.goal == value.target_fn.goal,
    {
        let mut restrictions: Vec<SimplexRestriction> = Vec::new();
        let mut i: usize = 0;
        while i < value.restrictions.len()
            invariant
                value.wf(),
                i <= value.restrictions@.len(),
                restrictions@.len() == i,
                forall|j: int|
                    0 <= j < i ==> {
                        &&& simplex_terms_wf((#[trigger] restrictions@[j]).terms@)
                        &&& restrictions@[j].free.wf()
                        &&& restrictions@[j].terms@ == value.restrictions@[j].terms@.map_values(
                            |t: Term| term_of(t),
                        )
                        &&& restrictions@[j].relation == value.restrictions@[j].relation
                        &&& restrictions@[j].free == tax_of(value.restrictions@[j].value)
                    },
            decreases value.restrictions@.len() - i,
        {
            let r = &value.restrictions[i];
            let terms = convert_terms(&r.terms);
            restrictions.push(
                SimplexRestriction { terms, relation: r.relation, free: Tax::from_real(r.value) },
            );
            i = i + 1;
        }
        let target_fn = SimplexTarget {
            terms: convert_terms(&value.target_fn.terms),
            free: Tax::from_real(value.target_fn.value),
            goal: value.target_fn.goal,
        };
        SimplexTask { restrictions, target_fn }
    }

    /// Brings the task to standard form (see `CanonicSimplexTask`) for method `M`.
    ///
    /// Each `<=` restriction gets a slack column with coefficient 1 and each
    /// `>=` restriction a surplus column with coefficient -1, numbered in order
    /// after the largest index of the restrictions; a restriction whose
    /// right-hand side is negative is then negated as a whole.
    pub fn canonize<M: Method>(self) -> (r: Result<CanonicSimplexTask, SimplexMethodError>)
        requires
            self.wf(),
        ensures
            ({
                let rs = self.restrictions@;
                let max = restrictions_max(rs, rs.len() as int);
                match r {
                    Err(e) => {
                        &&& (rs.len() == 0 || max == 0) ==> e == SimplexMethodError::EmptyProblem
                        &&& e == SimplexMethodError::EmptyProblem ==> (rs.len() == 0 || max == 0)
                        &&& e == SimplexMethodError::ShapeMismatch ==> (bad_index(&self)
                            || max + rs.len() > u64::MAX)
                        &&& (e == SimplexMethodError::EmptyProblem || e
                            == SimplexMethodError::ShapeMismatch)
                    },
                    Ok(c) => {
                        &&& rs.len() > 0 && max > 0
                        &&& !bad_index(&self)
                        &&& c.task.wf()
                        &&& c.method == M::kind_spec()
                        &&& c.max_index == max + added_before(rs, rs.len() as int)
                        &&& c.task.restrictions@.len() == rs.len()
                        &&& forall|i: int|
                            0 <= i < rs.len() ==> {
                                let ci = #[trigger] c.task.restrictions@[i];
                                &&& ci.relation == Relation::Equal
                                &&& !ci.free.is_negative_value()
                                &&& ci.terms@ == canonical_terms(
                                    rs[i],
                                    (max + added_before(rs, i) + 1) as u64,
                                )
                                &&& ci.free == canonical_free(rs[i])
                            }
                        &&& c.task.target_fn.terms@ == self.target_fn.terms@
                        &&& c.task.target_fn.free == self.target_fn.free
                        &&& c.task.target_fn.goal == self.target_fn.goal
                    },
                }
            }),
    {
        let m = self.restrictions.len();
        if m == 0 {
            return Err(SimplexMethodError::EmptyProblem);
        }
        let max0 = largest_index(&self.restrictions);
        if max0 == 0 {
            return Err(SimplexMethodError::EmptyProblem);
        }
        if has_bad_index(&self, max0) {
            return Err(SimplexMethodError::ShapeMismatch);
        }
        if max0 > u64::MAX - (m as u64) {
            return Err(SimplexMethodError::ShapeMismatch);
        }
        let ghost rs = self.restrictions@;
        let SimplexTask { restrictions, target_fn } = self;
        let mut out: Vec<SimplexRestriction> = Vec::new();
        let mut max_index: u64 = max0;
        let mut i: usize = 0;
        while i < m
            invariant
                m == rs.len(),
                restrictions@ == rs,
                i <= m,
                out@.len() == i,
                max0 == restrictions_max(rs, rs.len() as int),
                max0 + m <= u64::MAX,
                max_index == max0 + added_before(rs, i as int),
                forall|j: int|
                    0 <= j < rs.len() ==> {
                        &&& simplex_terms_wf((#[trigger] rs[j]).terms@)
                        &&& rs[j].free.wf()
                    },
                forall|j: int|
                    0 <= j < i ==> {
                        let cj = #[trigger] out@[j];
                        &&& cj.relation == Relation::Equal
                        &&& !cj.free.is_negative_value()
                        &&& cj.free.wf()
                        &&& simplex_terms_wf(cj.terms@)
                        &&& cj.terms@ == canonical_terms(
                            rs[j],
                            (max0 + added_before(rs, j) + 1) as u64,
                        )
                        &&& cj.free == canonical_free(rs[j])
                    },
            decreases m - i,
        {
            proof {
                lemma_added_bounded(rs, i as int);
            }
            let r = &restrictions[i];
            let slack_index = max_index + 1;
            let (terms, next) = canonical_row(r, slack_index);
            assert(next == max0 + added_before(rs, i + 1));
            max_index = next;
            let flip = r.free.is_negative();
            let free = if flip {
                r.free.neg()
            } else {
                r.free
            };
            proof {
                if flip {
                    lemma_neg_not_negative(r.free);
                }
            }
            out.push(SimplexRestriction { terms, relation: Relation::Equal, free });
            i = i + 1;
        }
        Ok(
            CanonicSimplexTask {
                task: SimplexTask { restrictions: out, target_fn },
                max_index,
                method: M::kind(),
            },
        )
    }
}

/// A negative number negated is no longer negative.
proof fn lemma_neg_not_negative(t: Tax)
    requires
        t.wf(),
        t.is_negative_value(),
    ensures
        !tax_neg(t).is_negative_value(),
{
}

proof fn lemma_added_bounded(rs: Seq<SimplexRestriction>, i: int)
    requires
        0 <= i <= rs.len(),
    ensures
        0 <= added_before(rs, i) <= i,
    decreases i,
{
    if i > 0 {
        lemma_added_bounded(rs, i - 1);
    }
}

fn convert_terms(terms: &Vec<Term>) -> (r: Vec<SimplexTerm>)
    requires
        crate::problem::terms_wf(terms@),
    ensures
        simplex_terms_wf(r@),
        r@ == terms@.map_values(|t: Term| term_of(t)),
{
    let mut out: Vec<SimplexTerm> = Vec::new();
    let mut k: usize = 0;
    while k < terms.len()
        invariant
            crate::problem::terms_wf(terms@),
            k <= terms@.len(),
            out@ == terms@.subrange(0, k as int).map_values(|t: Term| term_of(t)),
            simplex_terms_wf(out@),
        decreases terms@.len() - k,
    {
        let t = terms[k];
        out.push(SimplexTerm { coef: Tax::from_real(t.coef), index: t.index });
        assert(terms@.subrange(0, k + 1) == terms@.subrange(0, k as int).push(t));
        k = k + 1;
    }
    assert(terms@.subrange(0, terms@.len() as int) == terms@);
    out
}

/// The standard-form terms of one restriction and the largest index after it.
fn canonical_row(r: &SimplexRestriction, slack_index: u64) -> (out: (Vec<SimplexTerm>, u64))
    requires
        simplex_terms_wf(r.terms@),
        r.free.wf(),
        slack_index >= 1,
    ensures
        simplex_terms_wf(out.0@),
        out.0@ == canonical_terms(*r, slack_index),
        out.1 == slack_index - 1 + if r.relation == Relation::Equal {
            0int
        } else {
            1int
        },
{
    let mut terms: Vec<SimplexTerm> = Vec::new();
    let mut k: usize = 0;
    while k < r.terms.len()
        invariant
            k <= r.terms@.len(),
            terms@ == r.terms@.subrange(0, k as int),
        decreases r.terms@.len() - k,
    {
        terms.push(r.terms[k]);
        k = k + 1;
    }
    assert(r.terms@.subrange(0, r.terms@.len() as int) == r.terms@);
    let next = match r.relation {
        Relation::Less => {
            terms.push(SimplexTerm { coef: Tax::one(), index: slack_index });
            slack_index
        },
        Relation::Greater => {
            terms.push(
                SimplexTerm { coef: Tax::from_real(Rational::from_integer(-1)), index: slack_index },
            );
            slack_index
        },
        Relation::Equal => slack_index - 1,
    };
    assert(terms@ == augmented_terms(*r, slack_index));
    assert(simplex_terms_wf(terms@)) by {
        assert forall|j: int| 0 <= j < terms@.len() implies (#[trigger] terms@[j]).coef.wf() by {
            if j < r.terms@.len() {
                assert(terms@[j] == r.terms@[j]);
            }
        }
    }
    if r.free.is_negative() {
        let ghost before = terms@;
        let mut k: usize = 0;
        while k < terms.len()
            invariant
                simplex_terms_wf(before),
                simplex_terms_wf(terms@),
                k <= before.len(),
                terms@.len() == before.len(),
                forall|j: int| 0 <= j < k ==> terms@[j] == term_neg(#[trigger] before[j]),
                forall|j: int| k <= j < before.len() ==> terms@[j] == before[j],
            decreases before.len() - k,
        {
            let t = terms[k];
            assert(before[k as int].coef.wf());
            terms.set(k, SimplexTerm { coef: t.coef.neg(), index: t.index });
            k = k + 1;
        }
        assert(terms@ == before.map_values(|t: SimplexTerm| term_neg(t)));
    }
    (terms, next)
}

/// Whether an index is zero, or an objective index lies above `max`.
fn has_bad_index(task: &SimplexTask, max: u64) -> (r: bool)
    requires
        max == restrictions_max(task.restrictions@, task.restrictions@.len() as int),
    ensures
        r == bad_index(task),
{
    let mut i: usize = 0;
    while i < task.restrictions.len()
        invariant
            i <= task.restrictions@.len(),
            forall|a: int, k: int|
                0 <= a < i && 0 <= k < task.restrictions@[a].terms@.len()
                    ==> #[trigger] task.restrictions@[a].terms@[k].index != 0,
        decreases task.restrictions@.len() - i,
    {
        let terms = &task.restrictions[i].terms;
        let mut k: usize = 0;
        while k < terms.len()
            invariant
                i < task.restrictions@.len(),
                k <= terms@.len(),
                terms@ == task.restrictions@[i as int].terms@,
                forall|j: int| 0 <= j < k ==> #[trigger] terms@[j].index != 0,
            decreases terms@.len() - k,
        {
            if terms[k].index == 0 {
                assert(task.restrictions@[i as int].terms@[k as int].index == 0);
                return true;
            }
            k = k + 1;
        }
        i = i + 1;
    }
    let terms = &task.target_fn.terms;
    let mut k: usize = 0;
    while k < terms.len()
        invariant
            k <= terms@.len(),
            terms@ == task.target_fn.terms@,
            max == restrictions_max(task.restrictions@, task.restrictions@.len() as int),
            forall|j: int| 0 <= j < k ==> #[trigger] terms@[j].index != 0 && terms@[j].index <= max,
        decreases terms@.len() - k,
    {
        if terms[k].index == 0 || terms[k].index > max {
            assert(task.target_fn.terms@[k as int].index == 0 || task.target_fn.terms@[k as int].index > max);
            return true;
        }
        k = k + 1;
    }
    false
}

/// The largest variable index over all restrictions.
fn largest_index(rs: &Vec<SimplexRestriction>) -> (r: u64)
    ensures
        r == restrictions_max(rs@, rs@.len() as int),
{
    let mut best: u64 = 0;
    let mut i: usize = 0;
    while i < rs.len()
        invariant
            i <= rs@.len(),
            best == restrictions_max(rs@, i as int),
        decreases rs@.len() - i,
    {
        let terms = &rs[i].terms;
        let mut here: u64 = 0;
        let mut k: usize = 0;
        while k < terms.len()
            invariant
                k <= terms@.len(),
                here == terms_max(terms@.subrange(0, k as int)),
            decreases terms@.len() - k,
        {
            assert(terms@.subrange(0, k + 1).drop_last() == terms@.subrange(0, k as int));
            if terms[k].index > here {
                here = terms[k].index;
            }
            k = k + 1;
        }
        assert(terms@.subrange(0, terms@.len() as int) == terms@);
        if here > best {
            best = here;
        }
        i = i + 1;
    }
    best
}

} // verus!

verus! {

/// The value of variable `index` at point `x`, as numerator and denominator;
/// zero outside `x`.
pub open spec fn point_at(x: Seq<(int, int)>, index: int) -> (int, int) {
    if 0 <= index < x.len() {
        x[index]
    } else {
        (0, 1)
    }
}

/// Every value of the point has a positive denominator.
pub open spec fn point_ok(x: Seq<(int, int)>) -> bool {
    forall|i: int| 0 <= i < x.len() ==> (#[trigger] x[i]).1 > 0
}

/// `sum(coef * x[index])` over the terms' finite parts, as numerator and denominator.
pub open spec fn lin(terms: Seq<SimplexTerm>, x: Seq<(int, int)>) -> (int, int)
    decreases terms.len(),
{
    if terms.len() == 0 {
        (0, 1)
    } else {
        let (p, q) = lin(terms.drop_last(), x);
        let c = terms.last().coef.re;
        let v = point_at(x, terms.last().index as int);
        (p * (c.denom * v.1) + (c.numer * v.0) * q, q * (c.denom * v.1))
    }
}

/// Point `x` satisfies restriction `r` (finite parts).
pub open spec fn satisfies(r: SimplexRestriction, x: Seq<(int, int)>) -> bool {
    let (p, q) = lin(r.terms@, x);
    let f = r.free.re;
    match r.relation {
        Relation::Less => p * f.denom <= f.numer * q,
        Relation::Greater => p * f.denom >= f.numer * q,
        Relation::Equal => p * f.denom == f.numer * q,
    }
}

/// The value that the slack or surplus column of `r` takes at `x`: what
/// separates the two sides of the inequality.
pub open spec fn slack_value(r: SimplexRestriction, x: Seq<(int, int)>) -> (int, int) {
    let (p, q) = lin(r.terms@, x);
    let f = r.free.re;
    match r.relation {
        Relation::Less => (f.numer * q - p * f.denom, f.denom * q),
        Relation::Greater => (p * f.denom - f.numer * q, f.denom * q),
        Relation::Equal => (0, 1),
    }
}

/// Standard form keeps every feasible point: a point that satisfies a finite
/// restriction, extended with the slack or surplus value at the new column
/// `index`, satisfies the standard-form equality exactly, and that value is
/// not negative.
pub proof fn lemma_canonical_keeps_feasible(r: SimplexRestriction, index: u64, x: Seq<(int, int)>)
    requires
        simplex_terms_wf(r.terms@),
        r.free.wf(),
        r.free.im.numer == 0,
        point_ok(x),
        (index as int) < x.len(),
        forall|k: int| 0 <= k < r.terms@.len() ==> (#[trigger] r.terms@[k]).index != index,
        satisfies(r, x),
    ensures
        ({
            let s = slack_value(r, x);
            let x2 = x.update(index as int, s);
            let (p, q) = lin(canonical_terms(r, index), x2);
            let f = canonical_free(r).re;
            &&& s.0 >= 0
            &&& s.1 > 0
            &&& p * f.denom == f.numer * q
        }),
{
    let s = slack_value(r, x);
    let (p, q) = lin(r.terms@, x);
    let f = r.free.re;
    lemma_lin_denominator(r.terms@, x);
    assert(f.denom * q > 0) by (nonlinear_arith)
        requires
            f.denom > 0,
            q > 0,
    ;
    let x2 = x.update(index as int, s);
    assert(point_ok(x2)) by {
        assert forall|i: int| 0 <= i < x2.len() implies (#[trigger] x2[i]).1 > 0 by {
            if i != index as int {
                assert(x2[i] == x[i]);
            }
        }
    }
    lemma_lin_fresh(r.terms@, x, index as int, s);
    let aug = augmented_terms(r, index);
    let (ap, aq) = lin(aug, x2);
    match r.relation {
        Relation::Equal => {},
        Relation::Less => {
            assert(aug.drop_last() == r.terms@);
            assert(point_at(x2, index as int) == s);
            let sn = f.numer * q - p * f.denom;
            let sd = f.denom * q;
            assert(ap == p * (1 * sd) + (1 * sn) * q);
            assert(aq == q * (1 * sd));
            assert(ap * f.denom == f.numer * aq) by (nonlinear_arith)
                requires
                    ap == p * (1 * sd) + (1 * sn) * q,
                    aq == q * (1 * sd),
                    sn == f.numer * q - p * f.denom,
                    sd == f.denom * q,
            ;
        },
        Relation::Greater => {
            assert(aug.drop_last() == r.terms@);
            assert(point_at(x2, index as int) == s);
            let sn = p * f.denom - f.numer * q;
            let sd = f.denom * q;
            assert(ap == p * (1 * sd) + (-1 * sn) * q);
            assert(aq == q * (1 * sd));
            assert(ap * f.denom == f.numer * aq) by (nonlinear_arith)
                requires
                    ap == p * (1 * sd) + (-1 * sn) * q,
                    aq == q * (1 * sd),
                    sn == p * f.denom - f.numer * q,
                    sd == f.denom * q,
            ;
        },
    }
    if r.free.is_negative_value() {
        assert(simplex_terms_wf(aug)) by {
            assert forall|k: int| 0 <= k < aug.len() implies (#[trigger] aug[k]).coef.wf() by {
                if k < r.terms@.len() {
                    assert(aug[k] == r.terms@[k]);
                }
            }
        }
        lemma_lin_neg(aug, x2);
        assert(f.numer < 0);
        assert((-ap) * f.denom == (-f.numer) * aq) by (nonlinear_arith)
            requires
                ap * f.denom == f.numer * aq,
        ;
    }
}

proof fn lemma_lin_denominator(terms: Seq<SimplexTerm>, x: Seq<(int, int)>)
    requires
        simplex_terms_wf(terms),
        point_ok(x),
    ensures
        lin(terms, x).1 > 0,
    decreases terms.len(),
{
    if terms.len() > 0 {
        let rest = terms.drop_last();
        assert(simplex_terms_wf(rest)) by {
            assert forall|k: int| 0 <= k < rest.len() implies (#[trigger] rest[k]).coef.wf() by {
                assert(rest[k] == terms[k]);
            }
        }
        lemma_lin_denominator(rest, x);
        let c = terms.last().coef.re;
        assert(terms[terms.len() - 1].coef.wf());
        let v = point_at(x, terms.last().index as int);
        assert(v.1 > 0);
        let q = lin(rest, x).1;
        assert(q * (c.denom * v.1) > 0) by (nonlinear_arith)
            requires
                q > 0,
                c.denom > 0,
                v.1 > 0,
        ;
    }
}

/// Changing the point at an index that no term names keeps the sum.
proof fn lemma_lin_fresh(terms: Seq<SimplexTerm>, x: Seq<(int, int)>, index: int, v: (int, int))
    requires
        0 <= index < x.len(),
        forall|k: int| 0 <= k < terms.len() ==> (#[trigger] terms[k]).index != index,
    ensures
        lin(terms, x.update(index, v)) == lin(terms, x),
    decreases terms.len(),
{
    if terms.len() > 0 {
        let rest = terms.drop_last();
        assert forall|k: int| 0 <= k < rest.len() implies (#[trigger] rest[k]).index != index by {
            assert(rest[k] == terms[k]);
        }
        lemma_lin_fresh(rest, x, index, v);
        assert(terms[terms.len() - 1].index != index);
    }
}

/// Negating every coefficient negates the sum.
proof fn lemma_lin_neg(terms: Seq<SimplexTerm>, x: Seq<(int, int)>)
    requires
        simplex_terms_wf(terms),
    ensures
        lin(terms.map_values(|t: SimplexTerm| term_neg(t)), x) == ((-lin(terms, x).0), lin(terms, x).1),
    decreases terms.len(),
{
    let negated = terms.map_values(|t: SimplexTerm| term_neg(t));
    if terms.len() > 0 {
        let rest = terms.drop_last();
        assert(simplex_terms_wf(rest)) by {
            assert forall|k: int| 0 <= k < rest.len() implies (#[trigger] rest[k]).coef.wf() by {
                assert(rest[k] == terms[k]);
            }
        }
        assert(terms[terms.len() - 1].coef.wf());
        lemma_lin_neg(rest, x);
        assert(negated.drop_last() =~= rest.map_values(|t: SimplexTerm| term_neg(t)));
        let (p, q) = lin(rest, x);
        let c = terms.last().coef.re;
        let v = point_at(x, terms.last().index as int);
        assert(negated.last() == term_neg(terms.last()));
        assert((-p) * (c.denom * v.1) + ((-c.numer) * v.0) * q == -(p * (c.denom * v.1) + (c.numer
            * v.0) * q)) by (nonlinear_arith);
    }
}

} // verus!
