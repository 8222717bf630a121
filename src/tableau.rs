use vstd::prelude::*;
use crate::errors::SimplexMethodError;
use crate::problem::Goal;
use crate::rational::{all_wf, is_total, lemma_total_push, Rational};
use crate::matrix::rows_view;
use crate::simplex::{has_unit_column, table_ok, unit_column, Aim, SecondPhase, SimplexSolver};
use crate::task::{
    plus_one, simplex_terms_wf, tax_neg, CanonicSimplexTask, MethodKind, SimplexRestriction,
    SimplexTerm,
};
use crate::tax::Tax;

verus! {

/// The coefficient of variable `index` in `terms`: that of the last term with
/// this index, zero where there is none.
pub open spec fn coef_at(terms: Seq<SimplexTerm>, index: int) -> Tax
    decreases terms.len(),
{
    if terms.len() == 0 {
        Tax::zero_spec()
    } else if terms.last().index == index {
        terms.last().coef
    } else {
        coef_at(terms.drop_last(), index)
    }
}

pub open spec fn aim_of(goal: Goal) -> Aim {
    match goal {
        Goal::Maximize => Aim::Maximize,
        Goal::Minimize => Aim::Minimize,
    }
}

/// The finite parts of column `j` of the first `m` rows.
pub open spec fn column_of(rows: Seq<Seq<Tax>>, j: int, m: int) -> Seq<Rational> {
    Seq::new(m as nat, |i: int| rows[i][j].re)
}

/// Restriction row `i` of the tableau: the coefficients of variables `1..=width`,
/// with `basis` the unit row of an `m`-column artificial block, then the
/// right-hand side.
pub open spec fn restriction_row(
    row: Seq<Tax>,
    r: SimplexRestriction,
    i: int,
    width: int,
    m: int,
    basis: bool,
) -> bool {
    &&& row.len() == width + (if basis {
        m
    } else {
        0
    }) + 1
    &&& forall|j: int| 0 <= j < width ==> #[trigger] row[j] == coef_at(r.terms@, j + 1)
    &&& basis ==> forall|k: int|
        0 <= k < m ==> #[trigger] row[width + k] == if k == i {
            plus_one()
        } else {
            Tax::zero_spec()
        }
    &&& row[row.len() - 1] == r.free
}

impl SimplexSolver {
    /// Assembles the tableau of a task in standard form with `width` (the
    /// task's `max_index`) variable columns, `m` restrictions, and objective
    /// row `z[j] = -c[j]` (the negated coefficient of variable `j + 1`) with
    /// the negated constant last.
    ///
    /// - `Simple`: the restriction rows and that objective row.
    /// - `Taxes`: an `m`-column artificial identity block after the variable
    ///   columns; each variable column's objective entry gets the penalty part
    ///   `-s` for `Maximize` and `s` for `Minimize`, `s` the column's sum over
    ///   the restrictions, and the right-hand side likewise with the sum of the
    ///   right-hand sides; the artificial entries are zero.
    /// - `DoublePhase`: the same block, and the first phase's objective row
    ///   (the column sums, zero for the artificial columns, the sum of the
    ///   right-hand sides), to be minimised; the objective row of the task
    ///   is kept for the second phase.
    ///
    /// Two choices differ from a literal "add the penalty row, then negate the
    /// objective row": for `Minimize` that would give the artificial columns a
    /// reward rather than a penalty, so the penalty part keeps the sign that
    /// drives them out under either aim; and the two-phase method runs a true
    /// first phase instead of leaving the artificial columns without cost.
    /// Both keep the optimum of Big-M and of two-phase the same.
    ///
    /// The starting basis is then found as `from_contents` does.
    #[verifier::loop_isolation(false)]
    pub fn from_canonic(task: CanonicSimplexTask) -> (r: Result<SimplexSolver, SimplexMethodError>)
        requires
            task.task.wf(),
        ensures
            ({
                let rs = task.task.restrictions@;
                let target = task.task.target_fn;
                let m = rs.len() as int;
                let width = task.max_index as int;
                let basis = task.method != MethodKind::Simple;
                let n = width + if basis {
                    m
                } else {
                    0
                };
                match r {
                    Ok(s) => {
                        &&& s.wf()
                        &&& s.second_phase_ok()
                        &&& s.m() == m
                        &&& s.n() == n
                        &&& forall|i: int|
                            0 <= i < m ==> restriction_row(
                                #[trigger] s.contents@[i],
                                rs[i],
                                i,
                                width,
                                m,
                                basis,
                            )
                        &&& forall|k: int| width <= k < n ==> (#[trigger] s.z_at(k)).is_zero_value()
                        &&& match task.method {
                            MethodKind::Simple => {
                                &&& s.aim == aim_of(target.goal)
                                &&& s.second_phase is None
                                &&& forall|j: int|
                                    0 <= j < width ==> #[trigger] s.z_at(j) == tax_neg(
                                        coef_at(target.terms@, j + 1),
                                    )
                                &&& s.z_at(n) == tax_neg(target.free)
                            },
                            MethodKind::Taxes => {
                                &&& s.aim == aim_of(target.goal)
                                &&& s.second_phase is None
                                &&& forall|j: int|
                                    0 <= j < width ==> {
                                        &&& (#[trigger] s.z_at(j)).re == tax_neg(
                                            coef_at(target.terms@, j + 1),
                                        ).re
                                        &&& penalty_of(
                                            s.z_at(j).im,
                                            column_of(s.contents@, j, m),
                                            target.goal,
                                        )
                                    }
                                &&& s.z_at(n).re == tax_neg(target.free).re
                                &&& penalty_of(s.z_at(n).im, column_of(s.contents@, n, m), target.goal)
                            },
                            MethodKind::DoublePhase => {
                                &&& s.aim == Aim::Minimize
                                &&& forall|j: int|
                                    0 <= j < width ==> {
                                        &&& (#[trigger] s.z_at(j)).im.numer == 0
                                        &&& is_total(s.z_at(j).re, column_of(s.contents@, j, m))
                                    }
                                &&& s.z_at(n).im.numer == 0
                                &&& is_total(s.z_at(n).re, column_of(s.contents@, n, m))
                                &&& s.second_phase matches Some(p) && p.aim == aim_of(target.goal)
                                    && p.columns == width && p.objective@.len() == n + 1 && (forall|
                                    j: int,
                                | 0 <= j < width ==> #[trigger] p.objective@[j] == tax_neg(
                                    coef_at(target.terms@, j + 1),
                                )) && (forall|k: int|
                                    width <= k < n ==> (#[trigger] p.objective@[k]).is_zero_value())
                                    && p.objective@[n] == tax_neg(target.free)
                            },
                        }
                    },
                    Err(e) => {
                        &&& (m == 0 || width == 0) <==> e == SimplexMethodError::EmptyProblem
                        &&& (m > 0 && width > 0 && width + m + 1 > usize::MAX) ==> e
                            == SimplexMethodError::ShapeMismatch
                        &&& e == SimplexMethodError::ShapeMismatch ==> width + m + 1 > usize::MAX
                            || !restrictions_finite(rs)
                        &&& e == SimplexMethodError::NoInitialBasis ==> task.method
                            == MethodKind::Simple
                        &&& e == SimplexMethodError::Overflow ==> task.method != MethodKind::Simple
                        &&& e == SimplexMethodError::EmptyProblem || e
                            == SimplexMethodError::ShapeMismatch || e
                            == SimplexMethodError::NoInitialBasis || e
                            == SimplexMethodError::Overflow
                    },
                }
            }),
    {
        let CanonicSimplexTask { task, max_index, method } = task;
        let ghost rs = task.restrictions@;
        let m = task.restrictions.len();
        if m == 0 || max_index == 0 {
            return Err(SimplexMethodError::EmptyProblem);
        }
        if (max_index as u128) + (m as u128) + 1 > (usize::MAX as u128) {
            return Err(SimplexMethodError::ShapeMismatch);
        }
        let width = max_index as usize;
        let basis = match method {
            MethodKind::Simple => false,
            _ => true,
        };
        let n = if basis {
            width + m
        } else {
            width
        };
        let mut contents: Vec<Vec<Tax>> = Vec::new();
        let mut i: usize = 0;
        while i < m
            invariant
                task.wf(),
                rs == task.restrictions@,
                m == rs.len(),
                width == max_index,
                width + m + 1 <= usize::MAX,
                n == width + if basis {
                    m as int
                } else {
                    0
                },
                i <= m,
                contents@.len() == i,
                forall|k: int|
                    0 <= k < i ==> restriction_row(
                        #[trigger] contents@[k]@,
                        rs[k],
                        k,
                        width as int,
                        m as int,
                        basis,
                    ),
                forall|k: int, j: int|
                    0 <= k < i && 0 <= j <= n ==> (#[trigger] contents@[k]@[j]).wf(),
            decreases m - i,
        {
            let r = &task.restrictions[i];
            let mut row = dense_row(&r.terms, width);
            if basis {
                let mut k: usize = 0;
                while k < m
                    invariant
                        row@.len() == width + k,
                        forall|j: int| 0 <= j < width + k ==> (#[trigger] row@[j]).wf(),
                        forall|j: int| 0 <= j < width ==> #[trigger] row@[j] == coef_at(r.terms@, j + 1),
                        forall|q: int|
                            0 <= q < k ==> #[trigger] row@[width + q] == if q == i {
                                plus_one()
                            } else {
                                Tax::zero_spec()
                            },
                        k <= m,
                        i < m,
                        width + m + 1 <= usize::MAX,
                    decreases m - k,
                {
                    if k == i {
                        row.push(Tax::one());
                    } else {
                        row.push(Tax::zero());
                    }
                    k = k + 1;
                }
            }
            assert(r.free.wf());
            row.push(r.free);
            contents.push(row);
            i = i + 1;
        }
        let target = &task.target_fn;
        let mut z = dense_row(&target.terms, width);
        negate_all(&mut z);
        let mut objective: Vec<Tax> = Vec::new();
        let aim = match target.goal {
            Goal::Maximize => Aim::Maximize,
            Goal::Minimize => Aim::Minimize,
        };
        if basis {
            let mut k: usize = 0;
            while k < m
                invariant
                    z@.len() == width + k,
                    k <= m,
                    width + m + 1 <= usize::MAX,
                    forall|j: int| 0 <= j < width + k ==> (#[trigger] z@[j]).wf(),
                    forall|j: int| width <= j < width + k ==> (#[trigger] z@[j]).is_zero_value(),
                    forall|j: int| 0 <= j < width ==> #[trigger] z@[j] == negated_coef(
                        &target.terms,
                        j,
                    ),
                decreases m - k,
            {
                z.push(Tax::zero());
                k = k + 1;
            }
        }
        assert(target.free.wf());
        z.push(target.free.neg());
        let ghost z0 = z@;
        let ghost rows0 = contents@;
        assert(z0.len() == n + 1);
        assert(forall|j: int| 0 <= j < width ==> #[trigger] z0[j] == tax_neg(coef_at(target.terms@, j + 1)));
        assert(forall|j: int| width <= j < n ==> (#[trigger] z0[j]).is_zero_value());
        assert(z0[n as int] == tax_neg(target.free));
        match method {
            MethodKind::Simple => {
                contents.push(z);
                proof {
                    if restrictions_finite(rs) {
                        lemma_table_ok(contents@, rs, width as int, m as int, basis);
                    }
                }
                let r = SimplexSolver::from_contents(contents, aim);
                proof {
                    if r is Ok {
                        let s = r->Ok_0;
                        assert(s.contents@ == rows_view(rows0.push(z)));
                        assert(s.contents@[m as int] == z0);
                        assert(forall|i: int| 0 <= i < m ==> #[trigger] s.contents@[i] == rows0[i]@);
                    }
                }
                r
            },
            MethodKind::Taxes => {
                let mut j: usize = 0;
                while j < n + 1
                    invariant
                        contents@.len() == m,
                        forall|k: int|
                            0 <= k < m ==> (#[trigger] contents@[k])@.len() == n + 1,
                        forall|k: int, q: int|
                            0 <= k < m && 0 <= q <= n ==> (#[trigger] contents@[k]@[q]).wf(),
                        width <= n,
                        n + 1 <= usize::MAX,
                        z@.len() == n + 1,
                        z0.len() == n + 1,
                        j <= n + 1,
                        forall|q: int| 0 <= q <= n ==> (#[trigger] z@[q]).wf(),
                        forall|q: int|
                            0 <= q < j && (q < width || q == n) ==> {
                                &&& (#[trigger] z@[q]).re == z0[q].re
                                &&& penalty_of(z@[q].im, column_of(rows_view(contents@), q, m as int), target.goal)
                            },
                        forall|q: int| j <= q <= n || (width <= q < n) ==> #[trigger] z@[q] == z0[q],
                    decreases n + 1 - j,
                {
                    if j < width || j == n {
                        let total = match column_total(&contents, j, m) {
                            Some(t) => t,
                            None => {
                                return Err(SimplexMethodError::Overflow);
                            },
                        };
                        let pen = match target.goal {
                            Goal::Maximize => total.neg(),
                            Goal::Minimize => total,
                        };
                        let e = z[j];
                        z.set(j, Tax { re: e.re, im: pen });
                    }
                    j = j + 1;
                }
                let ghost zt = z@;
                contents.push(z);
                proof {
                    if restrictions_finite(rs) {
                        lemma_table_ok(contents@, rs, width as int, m as int, basis);
                    }
                    lemma_artificial_units(contents@, rs, width as int, m as int);
                }
                let r = SimplexSolver::from_contents(contents, aim);
                proof {
                    if r is Ok {
                        let s = r->Ok_0;
                        assert(s.contents@ == rows_view(rows0.push(z)));
                        assert(s.contents@[m as int] == zt);
                        assert(forall|i: int| 0 <= i < m ==> #[trigger] s.contents@[i] == rows0[i]@);
                        assert forall|q: int| 0 <= q < width implies {
                            &&& (#[trigger] s.z_at(q)).re == tax_neg(
                                coef_at(target.terms@, q + 1),
                            ).re
                            &&& penalty_of(
                                s.z_at(q).im,
                                column_of(s.contents@, q, m as int),
                                target.goal,
                            )
                        } by {
                            assert(column_of(s.contents@, q, m as int) =~= column_of(
                                rows_view(rows0),
                                q,
                                m as int,
                            ));
                        }
                        assert(column_of(s.contents@, n as int, m as int) =~= column_of(
                            rows_view(rows0),
                            n as int,
                            m as int,
                        ));
                    }
                }
                r
            },
            MethodKind::DoublePhase => {
                let mut first: Vec<Tax> = Vec::new();
                let mut j: usize = 0;
                while j < n + 1
                    invariant
                        contents@.len() == m,
                        forall|k: int|
                            0 <= k < m ==> (#[trigger] contents@[k])@.len() == n + 1,
                        forall|k: int, q: int|
                            0 <= k < m && 0 <= q <= n ==> (#[trigger] contents@[k]@[q]).wf(),
                        width <= n,
                        n + 1 <= usize::MAX,
                        j <= n + 1,
                        first@.len() == j,
                        forall|q: int| 0 <= q < j ==> (#[trigger] first@[q]).wf(),
                        forall|q: int|
                            0 <= q < j && (q < width || q == n) ==> {
                                &&& (#[trigger] first@[q]).im.numer == 0
                                &&& is_total(first@[q].re, column_of(rows_view(contents@), q, m as int))
                            },
                        forall|q: int|
                            0 <= q < j && width <= q < n ==> (#[trigger] first@[q]).is_zero_value(),
                    decreases n + 1 - j,
                {
                    if j < width || j == n {
                        let total = match column_total(&contents, j, m) {
                            Some(t) => t,
                            None => {
                                return Err(SimplexMethodError::Overflow);
                            },
                        };
                        first.push(Tax::from_real(total));
                    } else {
                        first.push(Tax::zero());
                    }
                    j = j + 1;
                }
                let ghost before = contents@;
                let ghost ft = first@;
                contents.push(first);
                proof {
                    if restrictions_finite(rs) {
                        lemma_table_ok(contents@, rs, width as int, m as int, basis);
                    }
                    lemma_artificial_units(contents@, rs, width as int, m as int);
                }
                let s = SimplexSolver::from_contents(contents, Aim::Minimize)?;
                proof {
                    assert(s.contents@[m as int] == ft);
                    assert(forall|i: int| 0 <= i < m ==> #[trigger] s.contents@[i] == rows0[i]@);
                    assert forall|q: int| 0 <= q < width || q == n implies is_total(
                        (#[trigger] s.z_at(q)).re,
                        column_of(s.contents@, q, m as int),
                    ) by {
                        assert(column_of(s.contents@, q, m as int) =~= column_of(
                            rows_view(before),
                            q,
                            m as int,
                        ));
                    }
                }
                let ghost sg = s;
                let SimplexSolver { contents, basis, aim: first_aim, second_phase: _ } = s;
                let res = SimplexSolver {
                    contents,
                    basis,
                    aim: first_aim,
                    second_phase: Some(SecondPhase { objective: z, aim, columns: width }),
                };
                proof {
                    assert(res.contents@ == sg.contents@);
                    assert forall|q: int| 0 <= q < width || q == n implies is_total(
                        (#[trigger] res.z_at(q)).re,
                        column_of(res.contents@, q, m as int),
                    ) by {
                        assert(res.z_at(q) == sg.z_at(q));
                    }
                }
                Ok(res)
            },
        }
    }
}

/// No restriction has a penalty part in a coefficient or its right-hand side.
pub open spec fn restrictions_finite(rs: Seq<SimplexRestriction>) -> bool {
    forall|i: int|
        0 <= i < rs.len() ==> {
            &&& forall|k: int|
                0 <= k < rs[i].terms@.len() ==> (#[trigger] rs[i].terms@[k]).coef.im.numer == 0
            &&& (#[trigger] rs[i]).free.im.numer == 0
        }
}

proof fn lemma_coef_at_finite(terms: Seq<SimplexTerm>, index: int)
    requires
        forall|k: int| 0 <= k < terms.len() ==> (#[trigger] terms[k]).coef.im.numer == 0,
    ensures
        coef_at(terms, index).im.numer == 0,
    decreases terms.len(),
{
    if terms.len() > 0 {
        let rest = terms.drop_last();
        assert forall|k: int| 0 <= k < rest.len() implies (#[trigger] rest[k]).coef.im.numer
            == 0 by {
            assert(rest[k] == terms[k]);
        }
        lemma_coef_at_finite(rest, index);
        assert(terms[terms.len() - 1].coef.im.numer == 0);
    }
}

/// A tableau assembled from finite restrictions is a table (`table_ok`).
proof fn lemma_table_ok(c: Seq<Vec<Tax>>, rs: Seq<SimplexRestriction>, width: int, m: int, basis: bool)
    requires
        m >= 1,
        width >= 1,
        rs.len() == m,
        c.len() == m + 1,
        restrictions_finite(rs),
        forall|i: int| 0 <= i < m ==> restriction_row(#[trigger] c[i]@, rs[i], i, width, m, basis),
        c[m]@.len() == width + (if basis {
            m
        } else {
            0
        }) + 1,
        forall|i: int, j: int|
            0 <= i <= m && 0 <= j <= width + (if basis {
                m
            } else {
                0
            }) ==> (#[trigger] c[i]@[j]).wf(),
    ensures
        table_ok(c),
{
    let n = width + if basis {
        m
    } else {
        0
    };
    assert(restriction_row(c[0]@, rs[0], 0, width, m, basis));
    assert forall|i: int| 0 <= i < c.len() implies (#[trigger] c[i])@.len() == c[0]@.len() by {
        if i < m {
            assert(restriction_row(c[i]@, rs[i], i, width, m, basis));
        }
    }
    assert forall|i: int, j: int| 0 <= i < c.len() && 0 <= j < c[0]@.len() implies {
        &&& (#[trigger] c[i]@[j]).wf()
        &&& i < c.len() - 1 ==> c[i]@[j].is_finite()
    } by {
        if i < m {
            assert(restriction_row(c[i]@, rs[i], i, width, m, basis));
            assert(rs[i].free.im.numer == 0);
            if j < width {
                assert forall|k: int| 0 <= k < rs[i].terms@.len() implies (
                #[trigger] rs[i].terms@[k]).coef.im.numer == 0 by {}
                lemma_coef_at_finite(rs[i].terms@, j + 1);
            } else if j < n {
                assert(c[i]@[width + (j - width)] == c[i]@[j]);
            }
        }
    }
}

/// With the artificial block, column `width + r` is the unit column of row `r`.
proof fn lemma_artificial_units(c: Seq<Vec<Tax>>, rs: Seq<SimplexRestriction>, width: int, m: int)
    requires
        m >= 1,
        width >= 0,
        rs.len() == m,
        c.len() == m + 1,
        forall|i: int| 0 <= i < m ==> restriction_row(#[trigger] c[i]@, rs[i], i, width, m, true),
        c[m]@.len() == width + m + 1,
        forall|k: int| width <= k < width + m ==> (#[trigger] c[m]@[k]).is_zero_value(),
    ensures
        forall|r: int| 0 <= r < m ==> #[trigger] has_unit_column(c, r),
{
    assert(restriction_row(c[0]@, rs[0], 0, width, m, true));
    assert forall|r: int| 0 <= r < m implies #[trigger] has_unit_column(c, r) by {
        assert forall|s: int| 0 <= s < c.len() implies {
            &&& s == r ==> (#[trigger] c[s]@[width + r]).is_one_value()
            &&& s != r ==> c[s]@[width + r].is_zero_value()
        } by {
            if s < m {
                assert(restriction_row(c[s]@, rs[s], s, width, m, true));
                assert(c[s]@[width + r] == if r == s {
                    plus_one()
                } else {
                    Tax::zero_spec()
                });
            }
        }
        assert(unit_column(c, r, width + r));
    }
}

/// Variable `j + 1`'s objective entry before the penalty is added: its coefficient, negated.
pub open spec fn negated_coef(terms: &Vec<SimplexTerm>, j: int) -> Tax {
    tax_neg(coef_at(terms@, j + 1))
}

/// `p` is the penalty part that a column of sum `xs` gets: `-sum` for
/// `Maximize`, `sum` for `Minimize`.
pub open spec fn penalty_of(p: Rational, xs: Seq<Rational>, goal: Goal) -> bool {
    match goal {
        Goal::Maximize => is_total(Rational { numer: (-p.numer) as i64, denom: p.denom }, xs),
        Goal::Minimize => is_total(p, xs),
    }
}

/// The sum of the finite parts of column `j` over the first `m` rows.
fn column_total(rows: &Vec<Vec<Tax>>, j: usize, m: usize) -> (r: Option<Rational>)
    requires
        m <= rows@.len(),
        forall|k: int| 0 <= k < m ==> j < (#[trigger] rows@[k])@.len(),
        forall|k: int| 0 <= k < m ==> (#[trigger] rows@[k]@[j as int]).wf(),
    ensures
        r matches Some(s) ==> s.wf() && is_total(s, column_of(rows_view(rows@), j as int, m as int)),
{
    let mut acc = Rational::zero();
    let mut k: usize = 0;
    while k < m
        invariant
            m <= rows@.len(),
            forall|q: int| 0 <= q < m ==> j < (#[trigger] rows@[q])@.len(),
            forall|q: int| 0 <= q < m ==> (#[trigger] rows@[q]@[j as int]).wf(),
            k <= m,
            acc.wf(),
            is_total(acc, column_of(rows_view(rows@), j as int, k as int)),
        decreases m - k,
    {
        assert(j < rows@[k as int]@.len());
        let x = rows[k][j].re;
        let next = acc.add(&x)?;
        proof {
            let xs = column_of(rows_view(rows@), j as int, k as int);
            assert(all_wf(xs)) by {
                assert forall|q: int| 0 <= q < xs.len() implies (#[trigger] xs[q]).wf() by {
                    assert(rows@[q]@[j as int].wf());
                }
            }
            assert(rows@[k as int]@[j as int].wf());
            lemma_total_push(acc, xs, x, next);
            assert(column_of(rows_view(rows@), j as int, k + 1) =~= xs.push(x));
        }
        acc = next;
        k = k + 1;
    }
    Some(acc)
}

/// The coefficients of variables `1..=width` in `terms`.
fn dense_row(terms: &Vec<SimplexTerm>, width: usize) -> (r: Vec<Tax>)
    requires
        simplex_terms_wf(terms@),
    ensures
        r@.len() == width,
        forall|j: int| 0 <= j < width ==> #[trigger] r@[j] == coef_at(terms@, j + 1),
        forall|j: int| 0 <= j < width ==> (#[trigger] r@[j]).wf(),
{
    let mut row: Vec<Tax> = Vec::new();
    let mut j: usize = 0;
    while j < width
        invariant
            j <= width,
            row@.len() == j,
            forall|q: int| 0 <= q < j ==> #[trigger] row@[q] == Tax::zero_spec(),
        decreases width - j,
    {
        row.push(Tax::zero());
        j = j + 1;
    }
    let mut k: usize = 0;
    while k < terms.len()
        invariant
            simplex_terms_wf(terms@),
            k <= terms@.len(),
            row@.len() == width,
            forall|q: int|
                0 <= q < width ==> #[trigger] row@[q] == coef_at(terms@.subrange(0, k as int), q + 1),
            forall|q: int| 0 <= q < width ==> (#[trigger] row@[q]).wf(),
        decreases terms@.len() - k,
    {
        let t = terms[k];
        assert(terms@[k as int].coef.wf());
        assert(terms@.subrange(0, k + 1).drop_last() == terms@.subrange(0, k as int));
        if t.index >= 1 && t.index <= width as u64 {
            row.set((t.index - 1) as usize, t.coef);
        }
        k = k + 1;
    }
    assert(terms@.subrange(0, terms@.len() as int) == terms@);
    row
}

/// Negates every entry.
fn negate_all(v: &mut Vec<Tax>)
    requires
        forall|j: int| 0 <= j < old(v)@.len() ==> (#[trigger] old(v)@[j]).wf(),
    ensures
        final(v)@.len() == old(v)@.len(),
        forall|j: int| 0 <= j < old(v)@.len() ==> #[trigger] final(v)@[j] == tax_neg(old(v)@[j]),
        forall|j: int| 0 <= j < old(v)@.len() ==> (#[trigger] final(v)@[j]).wf(),
{
    let ghost before = v@;
    let mut j: usize = 0;
    while j < v.len()
        invariant
            v@.len() == before.len(),
            forall|q: int| 0 <= q < before.len() ==> (#[trigger] before[q]).wf(),
            j <= v@.len(),
            forall|q: int| 0 <= q < j ==> #[trigger] v@[q] == tax_neg(before[q]),
            forall|q: int| j <= q < v@.len() ==> #[trigger] v@[q] == before[q],
            forall|q: int| 0 <= q < j ==> (#[trigger] v@[q]).wf(),
        decreases v@.len() - j,
    {
        let t = v[j];
        v.set(j, t.neg());
        j = j + 1;
    }
}

} // verus!
