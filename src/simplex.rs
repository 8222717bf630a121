use vstd::prelude::*;
use crate::errors::SimplexMethodError;
use crate::rational::{
    is_quotient, is_sub_product, lemma_quotient_order, lemma_quotient_values, lemma_sub_product,
    lemma_sub_self_product, lemma_sub_zero_product, quotient_less, quotient_positive,
};
use crate::matrix::{rows_view, Matrix};
use crate::rational::{rat_div, Rational};
use crate::tax::{lemma_tax_order_trans, tax_cmp, tax_div, tax_mul, tax_sub, Tax};

verus! {

/// The direction of optimisation.
#[derive(Debug, Clone, Copy, PartialEq, Eq, Structural)]
pub enum Aim {
    Minimize,
    Maximize,
}

/// The simplex tableau and its basis.
///
/// `contents` holds `m + 1` rows of `n + 1` numbers: rows `0..m` are the
/// restrictions, row `m` the objective with its coefficients negated; column
/// `n` is the right-hand side. `basis[r]` is the column that is basic in row `r`.
pub struct SimplexSolver {
    pub contents: Matrix,
    pub basis: Vec<usize>,
    pub aim: Aim,
    pub second_phase: Option<SecondPhase>,
}

/// What the two-phase method keeps for its second phase while the first one
/// drives the artificial columns out: the objective row over all columns, the
/// aim, and how many columns come before the artificial ones.
pub struct SecondPhase {
    pub objective: Vec<Tax>,
    pub aim: Aim,
    pub columns: usize,
}

/// The result of a solve: the value of each basic variable, by row, as
/// `(column, value)`, and the final objective row with its right-hand side last.
pub struct Solution {
    pub basis_coeffs: Vec<(usize, Tax)>,
    pub coefficients: Vec<Tax>,
}

/// One pivot step of the simplex method leads from `a` to `b`.
pub open spec fn pivot_step(a: SimplexSolver, b: SimplexSolver) -> bool {
    exists|row: int, col: int|
        a.is_pivot_column(col) && a.is_pivot_row(col, row) && #[trigger] a.pivoted(&b, row, col)
}

/// Each tableau of `run` leads to the next by one pivot step.
pub open spec fn pivot_run(run: Seq<SimplexSolver>) -> bool {
    &&& run.len() >= 1
    &&& forall|i: int| 0 <= i < run.len() - 1 ==> #[trigger] pivot_step(run[i], run[i + 1])
}

/// An objective entry has the improving sign for `aim`.
pub open spec fn improving_entry(aim: Aim, e: Tax) -> bool {
    match aim {
        Aim::Minimize => e.is_positive_value(),
        Aim::Maximize => e.is_negative_value(),
    }
}

impl Solution {
    /// The solution reads the basis, right-hand side and objective row of `t`.
    pub open spec fn read_from(&self, t: SimplexSolver) -> bool {
        &&& self.basis_coeffs@.len() == t.m()
        &&& forall|r: int|
            0 <= r < t.m() ==> #[trigger] self.basis_coeffs@[r] == (t.basis@[r], t.b_at(r))
        &&& self.coefficients@ == t.contents@[t.m()]
    }
}

/// A table that can hold a tableau: at least one restriction row and the
/// objective row, at least one variable column and the right-hand side, all
/// rows of one length, well-formed entries and finite restriction rows.
pub open spec fn table_ok(c: Seq<Vec<Tax>>) -> bool {
    &&& c.len() >= 2
    &&& c[0]@.len() >= 2
    &&& forall|i: int| 0 <= i < c.len() ==> (#[trigger] c[i])@.len() == c[0]@.len()
    &&& forall|i: int, j: int|
        0 <= i < c.len() && 0 <= j < c[0]@.len() ==> {
            &&& (#[trigger] c[i]@[j]).wf()
            &&& i < c.len() - 1 ==> c[i]@[j].is_finite()
        }
}

/// Column `j` is the unit column of row `r`: one there, zero in every other
/// row, the objective row included.
pub open spec fn unit_column(c: Seq<Vec<Tax>>, r: int, j: int) -> bool {
    forall|s: int|
        0 <= s < c.len() ==> {
            &&& s == r ==> (#[trigger] c[s]@[j]).is_one_value()
            &&& s != r ==> c[s]@[j].is_zero_value()
        }
}

/// Row `r` has a unit column among the variable columns.
pub open spec fn has_unit_column(c: Seq<Vec<Tax>>, r: int) -> bool {
    exists|j: int| 0 <= j < c[0]@.len() - 1 && #[trigger] unit_column(c, r, j)
}

/// The finite (`im == false`) or penalty part of `c[n] + sum(c[col_i] * v_i)`
/// over the first `k` basis entries, as numerator and positive denominator.
pub open spec fn value_pair(sol: &Solution, k: int, im: bool) -> (int, int)
    decreases k,
{
    if k <= 0 {
        let c = sol.coefficients@[sol.coefficients@.len() - 1];
        let part = if im {
            c.im
        } else {
            c.re
        };
        (part.numer as int, part.denom as int)
    } else {
        let (p, q) = value_pair(sol, k - 1, im);
        let entry = sol.basis_coeffs@[k - 1];
        let c = sol.coefficients@[entry.0 as int];
        let part = if im {
            c.im
        } else {
            c.re
        };
        let tn = part.numer * entry.1.re.numer;
        let td = part.denom * entry.1.re.denom;
        (p * td + tn * q, q * td)
    }
}

impl Solution {
    /// The coefficients are well-formed, and each basis entry names one of
    /// them and holds a finite value.
    pub open spec fn wf(&self) -> bool {
        &&& self.coefficients@.len() >= 1
        &&& forall|j: int|
            0 <= j < self.coefficients@.len() ==> (#[trigger] self.coefficients@[j]).wf()
        &&& forall|i: int|
            0 <= i < self.basis_coeffs@.len() ==> {
                &&& (#[trigger] self.basis_coeffs@[i]).0 < self.coefficients@.len()
                &&& self.basis_coeffs@[i].1.wf()
                &&& self.basis_coeffs@[i].1.is_finite()
            }
    }

    /// Every basis entry names a column whose objective entry is zero, as
    /// every solution that `solve` returns does.
    pub open spec fn basis_columns_zero(&self) -> bool {
        forall|i: int|
            0 <= i < self.basis_coeffs@.len() ==> (#[trigger] self.coefficients@[self.basis_coeffs@[
                i
            ].0 as int]).is_zero_value()
    }

    /// The optimal objective value: the objective row's right-hand side plus,
    /// for each basis entry `(col, v)`, the row's entry at `col` times `v`.
    /// `None` on overflow, which cannot come where the basis columns' entries
    /// are zero.
    pub fn optimal_value(&self) -> (r: Option<Tax>)
        requires
            self.wf(),
        ensures
            self.basis_columns_zero() ==> r is Some,
            r matches Some(v) ==> {
                let k = self.basis_coeffs@.len() as int;
                let (rn, rd) = value_pair(self, k, false);
                let (pn, pd) = value_pair(self, k, true);
                &&& v.wf()
                &&& v.re.numer * rd == rn * v.re.denom
                &&& v.im.numer * pd == pn * v.im.denom
            },
    {
        let mut acc = self.coefficients[self.coefficients.len() - 1];
        let mut i: usize = 0;
        while i < self.basis_coeffs.len()
            invariant
                self.wf(),
                i <= self.basis_coeffs@.len(),
                acc.wf(),
                value_pair(self, i as int, false).1 > 0,
                value_pair(self, i as int, true).1 > 0,
                acc.re.numer * value_pair(self, i as int, false).1 == value_pair(
                    self,
                    i as int,
                    false,
                ).0 * acc.re.denom,
                acc.im.numer * value_pair(self, i as int, true).1 == value_pair(
                    self,
                    i as int,
                    true,
                ).0 * acc.im.denom,
            decreases self.basis_coeffs@.len() - i,
        {
            let (col, v) = self.basis_coeffs[i];
            let c = self.coefficients[col];
            proof {
                if self.basis_columns_zero() {
                    assert(self.coefficients@[self.basis_coeffs@[i as int].0 as int].is_zero_value());
                    crate::rational::lemma_zero_product_kept(c.re, v.re);
                    crate::rational::lemma_zero_product_kept(c.im, v.re);
                }
            }
            let t = c.mul(&v)?;
            proof {
                if self.basis_columns_zero() {
                    crate::rational::lemma_add_zero_kept(acc.re, t.re);
                    crate::rational::lemma_add_zero_kept(acc.im, t.im);
                }
            }
            let next = acc.add(&t)?;
            proof {
                let (p, q) = value_pair(self, i as int, false);
                let (pi, qi) = value_pair(self, i as int, true);
                let tdr: int = c.re.denom * v.re.denom;
                let tdi: int = c.im.denom * v.re.denom;
                assert(tdr > 0) by (nonlinear_arith)
                    requires
                        tdr == c.re.denom * v.re.denom,
                        c.re.denom > 0,
                        v.re.denom > 0,
                ;
                assert(tdi > 0) by (nonlinear_arith)
                    requires
                        tdi == c.im.denom * v.re.denom,
                        c.im.denom > 0,
                        v.re.denom > 0,
                ;
                crate::rational::lemma_add_pairs(
                    acc.re,
                    t.re,
                    next.re,
                    p,
                    q,
                    c.re.numer * v.re.numer,
                    tdr,
                );
                crate::rational::lemma_add_pairs(
                    acc.im,
                    t.im,
                    next.im,
                    pi,
                    qi,
                    c.im.numer * v.re.numer,
                    tdi,
                );
                assert(q * tdr > 0) by (nonlinear_arith)
                    requires
                        q > 0,
                        tdr > 0,
                ;
                assert(qi * tdi > 0) by (nonlinear_arith)
                    requires
                        qi > 0,
                        tdi > 0,
                ;
            }
            acc = next;
            i = i + 1;
        }
        Some(acc)
    }
}

impl SimplexSolver {
    /// The number of restriction rows.
    pub open spec fn m(&self) -> int {
        self.basis@.len() as int
    }

    /// The number of variable columns.
    pub open spec fn n(&self) -> int {
        self.contents@[0].len() - 1
    }

    pub open spec fn at(&self, i: int, j: int) -> Tax {
        self.contents@[i][j]
    }

    /// Entry `j` of the objective row.
    pub open spec fn z_at(&self, j: int) -> Tax {
        self.at(self.m(), j)
    }

    /// Entry `i` of the right-hand side.
    pub open spec fn b_at(&self, i: int) -> Tax {
        self.at(i, self.n())
    }

    pub open spec fn shape_ok(&self) -> bool {
        &&& self.m() >= 1
        &&& self.contents@.len() == self.m() + 1
        &&& self.n() >= 1
        &&& forall|i: int|
            0 <= i < self.contents@.len() ==> (#[trigger] self.contents@[i]).len() == self.n() + 1
    }

    /// Every entry is a well-formed number, and the restriction rows are finite.
    pub open spec fn entries_ok(&self) -> bool {
        forall|i: int, j: int|
            0 <= i <= self.m() && 0 <= j <= self.n() ==> {
                &&& (#[trigger] self.contents@[i][j]).wf()
                &&& i < self.m() ==> self.contents@[i][j].is_finite()
            }
    }

    /// The basis columns form the identity in the restriction rows and are
    /// zero in the objective row.
    pub open spec fn basis_ok(&self) -> bool {
        &&& forall|r: int| 0 <= r < self.m() ==> 0 <= #[trigger] self.basis@[r] < self.n()
        &&& forall|r: int, s: int|
            0 <= r < self.m() && 0 <= s <= self.m() ==> {
                let e = #[trigger] self.contents@[s][self.basis@[r] as int];
                &&& s == r ==> e.is_one_value()
                &&& s != r ==> e.is_zero_value()
            }
    }

    pub open spec fn wf(&self) -> bool {
        self.shape_ok() && self.entries_ok() && self.basis_ok()
    }

    /// Column `j` of the objective row has the improving sign for the aim.
    pub open spec fn improving(&self, j: int) -> bool {
        match self.aim {
            Aim::Minimize => self.z_at(j).is_positive_value(),
            Aim::Maximize => self.z_at(j).is_negative_value(),
        }
    }

    /// No column has the improving sign.
    pub open spec fn is_optimal_spec(&self) -> bool {
        forall|j: int| 0 <= j < self.n() ==> !#[trigger] self.improving(j)
    }

    /// Column `c` enters the basis: for `Minimize` the last of the largest
    /// positive objective entries, for `Maximize` the first of the smallest
    /// negative ones.
    pub open spec fn is_pivot_column(&self, c: int) -> bool {
        &&& 0 <= c < self.n()
        &&& self.improving(c)
        &&& forall|j: int|
            0 <= j < self.n() && #[trigger] self.improving(j) ==> match self.aim {
                Aim::Minimize => {
                    &&& tax_cmp(self.z_at(j), self.z_at(c)) != std::cmp::Ordering::Greater
                    &&& j > c ==> tax_cmp(self.z_at(j), self.z_at(c)) == std::cmp::Ordering::Less
                },
                Aim::Maximize => {
                    &&& tax_cmp(self.z_at(j), self.z_at(c)) != std::cmp::Ordering::Less
                    &&& j < c ==> tax_cmp(self.z_at(j), self.z_at(c))
                        == std::cmp::Ordering::Greater
                },
            }
    }

    /// Row `s` takes part in the ratio test for column `c`: its entry there is
    /// not zero and `b[s] / A[s][c]` is positive.
    pub open spec fn row_candidate(&self, c: int, s: int) -> bool {
        &&& 0 <= s < self.m()
        &&& self.at(s, c).re.numer != 0
        &&& quotient_positive(self.b_at(s).re, self.at(s, c).re)
    }

    /// Row `r` leaves the basis for column `c`: the first row of smallest
    /// positive ratio.
    pub open spec fn is_pivot_row(&self, c: int, r: int) -> bool {
        &&& self.row_candidate(c, r)
        &&& forall|s: int|
            #[trigger] self.row_candidate(c, s) ==> {
                &&& !quotient_less(
                    self.b_at(s).re,
                    self.at(s, c).re,
                    self.b_at(r).re,
                    self.at(r, c).re,
                )
                &&& s < r ==> quotient_less(
                    self.b_at(r).re,
                    self.at(r, c).re,
                    self.b_at(s).re,
                    self.at(s, c).re,
                )
            }
    }

    /// The kept second phase, if any, fits the tableau.
    pub open spec fn second_phase_ok(&self) -> bool {
        match self.second_phase {
            None => true,
            Some(p) => {
                &&& p.objective@.len() == self.n() + 1
                &&& 0 < p.columns <= self.n()
                &&& forall|j: int| 0 <= j < p.objective@.len() ==> (#[trigger] p.objective@[j]).wf()
            },
        }
    }

    /// `next` is this tableau after a pivot on (`row`, `col`): the pivot row is
    /// divided by the pivot, every other row has the multiple of the new pivot
    /// row subtracted that clears column `col`, and `col` becomes basic in `row`.
    pub open spec fn pivoted(&self, next: &SimplexSolver, row: int, col: int) -> bool {
        &&& next.aim == self.aim
        &&& next.second_phase == self.second_phase
        &&& next.basis@ == self.basis@.update(row, col as usize)
        &&& next.contents@.len() == self.contents@.len()
        &&& forall|i: int|
            0 <= i <= self.m() ==> (#[trigger] next.contents@[i]).len() == self.n() + 1
        &&& forall|j: int|
            0 <= j <= self.n() ==> {
                &&& (#[trigger] next.contents@[row][j]).wf()
                &&& is_quotient(self.at(row, j).re, self.at(row, col).re, next.at(row, j).re)
                &&& is_quotient(self.at(row, j).im, self.at(row, col).re, next.at(row, j).im)
            }
        &&& forall|i: int, j: int|
            0 <= i <= self.m() && i != row && 0 <= j <= self.n() ==> {
                &&& (#[trigger] next.contents@[i][j]).wf()
                &&& is_sub_product(
                    self.at(i, j).re,
                    self.at(i, col).re,
                    next.at(row, j).re,
                    next.at(i, j).re,
                )
                &&& is_sub_product(
                    self.at(i, j).im,
                    self.at(i, col).im,
                    next.at(row, j).re,
                    next.at(i, j).im,
                )
            }
    }

    /// Every row in the ratio test for column `c` divides without overflow.
    pub open spec fn ratios_fit(&self, c: int) -> bool {
        forall|s: int|
            #[trigger] self.row_candidate(c, s) ==> rat_div(self.b_at(s).re, self.at(s, c).re) is Some
    }

    /// The pivot on (`row`, `col`) computes without overflow: the pivot row
    /// divides by the pivot, and every other row takes away its multiple of
    /// the divided pivot row.
    pub open spec fn step_fits(&self, row: int, col: int) -> bool {
        let p = self.at(row, col);
        &&& row_divides(self.contents@[row], p)
        &&& forall|i: int|
            0 <= i <= self.m() && i != row ==> #[trigger] row_eliminates(
                self.contents@[i],
                col,
                divided_row(self.contents@[row], p),
            )
    }

    /// The next pivot step leaves `i64`: in the ratio test or in the elimination.
    pub open spec fn step_overflows(&self) -> bool {
        exists|c: int|
            #[trigger] self.is_pivot_column(c) && (!self.ratios_fit(c) || exists|r: int|
                #[trigger] self.is_pivot_row(c, r) && !self.step_fits(r, c))
    }

    /// Whether no improving column has a row with a positive ratio.
    pub open spec fn unbounded_column(&self) -> bool {
        exists|c: int|
            #[trigger] self.is_pivot_column(c) && forall|s: int| !#[trigger] self.row_candidate(c, s)
    }

    /// A tableau from its restriction rows and its objective row, each with
    /// the right-hand side last; the starting basis is found as
    /// `from_contents` does.
    pub fn from_canonical_matrix(input: Vec<Vec<Tax>>, z: Vec<Tax>, aim: Aim) -> (r: Result<
        SimplexSolver,
        SimplexMethodError,
    >)
        ensures
            r matches Ok(s) ==> s.wf() && s.contents@ == rows_view(input@.push(z)) && s.aim == aim,
            input@.len() == 0 ==> r == Err::<SimplexSolver, SimplexMethodError>(
                SimplexMethodError::EmptyProblem,
            ),
            r matches Err(e) ==> e == SimplexMethodError::EmptyProblem || e
                == SimplexMethodError::ShapeMismatch || e == SimplexMethodError::NoInitialBasis,
            r matches Err(e) ==> {
                let c = input@.push(z);
                &&& (c.len() < 2 || c[0]@.len() < 2) <==> e == SimplexMethodError::EmptyProblem
                &&& e == SimplexMethodError::ShapeMismatch ==> !table_ok(c)
                &&& e == SimplexMethodError::NoInitialBasis ==> table_ok(c) && exists|row: int|
                    0 <= row < c.len() - 1 && !#[trigger] has_unit_column(c, row)
                &&& table_ok(c) ==> e == SimplexMethodError::NoInitialBasis
            },
    {
        let mut contents = input;
        contents.push(z);
        SimplexSolver::from_contents(contents, aim)
    }

    /// Takes a tableau as it stands and finds its starting basis: for each
    /// restriction row the first unit column (see `unit_column`).
    ///
    /// `EmptyProblem` where there is no restriction row or no variable column,
    /// `ShapeMismatch` where the rows differ in length, an entry is not
    /// well-formed or a restriction row has a penalty part, and
    /// `NoInitialBasis` where some row has no unit column.
    pub fn from_contents(contents: Vec<Vec<Tax>>, aim: Aim) -> (r: Result<
        SimplexSolver,
        SimplexMethodError,
    >)
        ensures
            match r {
                Ok(s) => {
                    &&& s.wf()
                    &&& s.contents@ == rows_view(contents@)
                    &&& s.aim == aim
                    &&& s.second_phase is None
                    &&& forall|row: int, j: int|
                        0 <= row < s.m() && 0 <= j < s.basis@[row] ==> !#[trigger] unit_column(
                            contents@,
                            row,
                            j,
                        )
                },
                Err(e) => {
                    &&& (contents@.len() < 2 || contents@[0]@.len() < 2) <==> e
                        == SimplexMethodError::EmptyProblem
                    &&& e == SimplexMethodError::ShapeMismatch ==> !table_ok(contents@)
                    &&& e == SimplexMethodError::NoInitialBasis ==> table_ok(contents@) && exists|
                        row: int,
                    | 0 <= row < contents@.len() - 1 && !#[trigger] has_unit_column(contents@, row)
                    &&& (e == SimplexMethodError::EmptyProblem || e
                        == SimplexMethodError::ShapeMismatch || e
                        == SimplexMethodError::NoInitialBasis)
                    &&& table_ok(contents@) ==> e == SimplexMethodError::NoInitialBasis
                },
            },
    {
        if contents.len() < 2 || contents[0].len() < 2 {
            return Err(SimplexMethodError::EmptyProblem);
        }
        if !check_table(&contents) {
            return Err(SimplexMethodError::ShapeMismatch);
        }
        let m = contents.len() - 1;
        let n = contents[0].len() - 1;
        let mut basis: Vec<usize> = Vec::new();
        let mut r: usize = 0;
        while r < m
            invariant
                table_ok(contents@),
                m == contents@.len() - 1,
                n == contents@[0]@.len() - 1,
                r <= m,
                basis@.len() == r,
                forall|k: int|
                    0 <= k < r ==> {
                        &&& 0 <= #[trigger] basis@[k] < n
                        &&& unit_column(contents@, k, basis@[k] as int)
                        &&& forall|j: int|
                            0 <= j < basis@[k] ==> !#[trigger] unit_column(contents@, k, j)
                    },
            decreases m - r,
        {
            let mut j: usize = 0;
            let mut found = false;
            while j < n && !found
                invariant
                    table_ok(contents@),
                    m == contents@.len() - 1,
                    n == contents@[0]@.len() - 1,
                    r < m,
                    j <= n,
                    found ==> j < n && unit_column(contents@, r as int, j as int),
                    forall|k: int| 0 <= k < j ==> !#[trigger] unit_column(contents@, r as int, k),
                decreases n - j + if found {
                    0int
                } else {
                    1int
                },
            {
                if is_unit_column(&contents, r, j) {
                    found = true;
                } else {
                    j = j + 1;
                }
            }
            if !found {
                proof {
                    assert(!has_unit_column(contents@, r as int));
                }
                return Err(SimplexMethodError::NoInitialBasis);
            }
            basis.push(j);
            r = r + 1;
        }
        let s = SimplexSolver {
            contents: Matrix::from_rows(contents, n + 1),
            basis,
            aim,
            second_phase: None,
        };
        proof {
            assert forall|i: int| 0 <= i < s.contents@.len() implies (#[trigger] s.contents@[i]).len()
                == s.n() + 1 by {}
            assert forall|rr: int, ss: int| 0 <= rr < s.m() && 0 <= ss <= s.m() implies {
                let e = #[trigger] s.contents@[ss][s.basis@[rr] as int];
                &&& ss == rr ==> e.is_one_value()
                &&& ss != rr ==> e.is_zero_value()
            } by {
                assert(unit_column(contents@, rr, s.basis@[rr] as int));
            }
        }
        Ok(s)
    }

    /// Whether no column has the improving sign for the aim.
    pub fn is_optimal(&self) -> (r: bool)
        requires
            self.wf(),
        ensures
            r == self.is_optimal_spec(),
    {
        let n = self.basis.len();
        let z = self.contents.row(n);
        let cols = z.len() - 1;
        let mut j: usize = 0;
        while j < cols
            invariant
                self.wf(),
                n == self.m(),
                z@ == self.contents@[n as int],
                cols == self.n(),
                j <= cols,
                forall|k: int| 0 <= k < j ==> !#[trigger] self.improving(k),
            decreases cols - j,
        {
            assert(self.contents@[n as int][j as int].wf());
            let bad = match self.aim {
                Aim::Minimize => z[j].is_positive(),
                Aim::Maximize => z[j].is_negative(),
            };
            if bad {
                assert(self.improving(j as int));
                return false;
            }
            j = j + 1;
        }
        true
    }

    /// The entering column; `NoSolutions` where no column has the improving sign.
    fn pivot_column(&self) -> (r: Result<usize, SimplexMethodError>)
        requires
            self.wf(),
        ensures
            match r {
                Ok(c) => self.is_pivot_column(c as int),
                Err(e) => e == SimplexMethodError::NoSolutions && self.is_optimal_spec(),
            },
            self.is_optimal_spec() ==> r is Err,
    {
        let m = self.basis.len();
        let z = self.contents.row(m);
        let cols = z.len() - 1;
        let mut found = false;
        let mut best: usize = 0;
        let mut j: usize = 0;
        while j < cols
            invariant
                self.wf(),
                m == self.m(),
                z@ == self.contents@[m as int],
                cols == self.n(),
                j <= cols,
                best <= j,
                found ==> best < j,
                found ==> self.improving(best as int),
                !found ==> forall|k: int| 0 <= k < j ==> !#[trigger] self.improving(k),
                found ==> forall|k: int|
                    0 <= k < j && #[trigger] self.improving(k) ==> match self.aim {
                        Aim::Minimize => {
                            &&& tax_cmp(self.z_at(k), self.z_at(best as int))
                                != std::cmp::Ordering::Greater
                            &&& k > best ==> tax_cmp(self.z_at(k), self.z_at(best as int))
                                == std::cmp::Ordering::Less
                        },
                        Aim::Maximize => {
                            &&& tax_cmp(self.z_at(k), self.z_at(best as int))
                                != std::cmp::Ordering::Less
                            &&& k < best ==> tax_cmp(self.z_at(k), self.z_at(best as int))
                                == std::cmp::Ordering::Greater
                        },
                    },
            decreases cols - j,
        {
            assert(self.contents@[m as int][j as int].wf());
            assert(self.contents@[m as int][best as int].wf());
            let take = match self.aim {
                Aim::Minimize => z[j].is_positive() && (!found || match z[j].compare(&z[best]) {
                    std::cmp::Ordering::Less => false,
                    _ => true,
                }),
                Aim::Maximize => z[j].is_negative() && (!found || match z[j].compare(&z[best]) {
                    std::cmp::Ordering::Less => true,
                    _ => false,
                }),
            };
            proof {
                if take && found {
                    let zj = self.z_at(j as int);
                    let zb = self.z_at(best as int);
                    assert forall|k: int|
                        0 <= k < j && #[trigger] self.improving(k) implies match self.aim {
                            Aim::Minimize => {
                                &&& tax_cmp(self.z_at(k), zj) != std::cmp::Ordering::Greater
                                &&& k > j ==> tax_cmp(self.z_at(k), zj)
                                    == std::cmp::Ordering::Less
                            },
                            Aim::Maximize => {
                                &&& tax_cmp(self.z_at(k), zj) != std::cmp::Ordering::Less
                                &&& k < j ==> tax_cmp(self.z_at(k), zj)
                                    == std::cmp::Ordering::Greater
                            },
                        } by {
                        assert(self.contents@[m as int][k].wf());
                        lemma_tax_order_trans(self.z_at(k), zb, zj);
                        lemma_tax_order_trans(zj, zb, self.z_at(k));
                    }
                }
            }
            if take {
                best = j;
                found = true;
            }
            j = j + 1;
        }
        if found {
            Ok(best)
        } else {
            Err(SimplexMethodError::NoSolutions)
        }
    }

    /// The leaving row for column `c`: the first row of smallest positive
    /// ratio `b[s] / A[s][c]`. `NoLimit` where no row has a positive ratio.
    fn pivot_row(&self, c: usize) -> (r: Result<usize, SimplexMethodError>)
        requires
            self.wf(),
            c < self.n(),
        ensures
            match r {
                Ok(row) => self.is_pivot_row(c as int, row as int),
                Err(e) => e == SimplexMethodError::Overflow || (e == SimplexMethodError::NoLimit
                    && forall|s: int| !#[trigger] self.row_candidate(c as int, s)),
            },
            (forall|s: int| !#[trigger] self.row_candidate(c as int, s)) ==> r
                == Err::<usize, SimplexMethodError>(SimplexMethodError::NoLimit),
            (r == Err::<usize, SimplexMethodError>(SimplexMethodError::Overflow)) == !self.ratios_fit(
                c as int,
            ),
    {
        let m = self.basis.len();
        let n = self.contents.ncols() - 1;
        let mut found = false;
        let mut best: usize = 0;
        let mut best_q = crate::rational::Rational::zero();
        let ghost mut quots: Map<int, crate::rational::Rational> = Map::empty();
        let mut i: usize = 0;
        while i < m
            invariant
                self.wf(),
                m == self.m(),
                n == self.n(),
                c < n,
                i <= m,
                best_q.wf(),
                found ==> best < i && self.row_candidate(c as int, best as int),
                found ==> crate::rational::is_quotient(
                    self.b_at(best as int).re,
                    self.at(best as int, c as int).re,
                    best_q,
                ),
                !found ==> forall|s: int| 0 <= s < i ==> !#[trigger] self.row_candidate(c as int, s),
                forall|s: int|
                    0 <= s < i && #[trigger] self.row_candidate(c as int, s) ==> {
                        &&& quots.contains_key(s)
                        &&& quots[s].wf()
                        &&& crate::rational::is_quotient(
                            self.b_at(s).re,
                            self.at(s, c as int).re,
                            quots[s],
                        )
                        &&& !crate::rational::less_value(quots[s], best_q)
                        &&& s < best ==> crate::rational::less_value(best_q, quots[s])
                        &&& rat_div(self.b_at(s).re, self.at(s, c as int).re) is Some
                    },
            decreases m - i,
        {
            assert(self.contents@[i as int].len() == n + 1);
            assert(self.contents@[i as int][c as int].wf());
            assert(self.contents@[i as int][n as int].wf());
            let a = self.contents.get(i, c).re;
            let bv = self.contents.get(i, n).re;
            let candidate = a.numer != 0 && ((bv.numer > 0 && a.numer > 0) || (bv.numer < 0
                && a.numer < 0));
            if candidate {
                let q = match bv.div(&a) {
                    Some(q) => q,
                    None => {
                        assert(self.row_candidate(c as int, i as int));
                        return Err(SimplexMethodError::Overflow);
                    },
                };
                let take = !found || match q.compare(&best_q) {
                    std::cmp::Ordering::Less => true,
                    _ => false,
                };
                proof {
                    let old_best = best_q;
                    quots = quots.insert(i as int, q);
                    if take && found {
                        assert forall|s: int|
                            0 <= s < i && #[trigger] self.row_candidate(c as int, s) implies {
                                &&& !crate::rational::less_value(quots[s], q)
                                &&& s < i ==> crate::rational::less_value(q, quots[s])
                            } by {
                            crate::rational::lemma_order_trans(q, old_best, quots[s]);
                            crate::rational::lemma_order_trans(quots[s], old_best, q);
                        }
                    }
                }
                if take {
                    best = i;
                    best_q = q;
                    found = true;
                }
            }
            i = i + 1;
        }
        if !found {
            return Err(SimplexMethodError::NoLimit);
        }
        proof {
            assert forall|s: int| #[trigger] self.row_candidate(c as int, s) implies {
                &&& !quotient_less(
                    self.b_at(s).re,
                    self.at(s, c as int).re,
                    self.b_at(best as int).re,
                    self.at(best as int, c as int).re,
                )
                &&& s < best ==> quotient_less(
                    self.b_at(best as int).re,
                    self.at(best as int, c as int).re,
                    self.b_at(s).re,
                    self.at(s, c as int).re,
                )
            } by {
                assert(self.contents@[s][c as int].wf());
                assert(self.contents@[s][n as int].wf());
                assert(self.contents@[best as int][c as int].wf());
                assert(self.contents@[best as int][n as int].wf());
                lemma_quotient_order(
                    self.b_at(s).re,
                    self.at(s, c as int).re,
                    quots[s],
                    self.b_at(best as int).re,
                    self.at(best as int, c as int).re,
                    best_q,
                );
                lemma_quotient_order(
                    self.b_at(best as int).re,
                    self.at(best as int, c as int).re,
                    best_q,
                    self.b_at(s).re,
                    self.at(s, c as int).re,
                    quots[s],
                );
            }
        }
        Ok(best)
    }

    /// One pivot step: picks the entering column and the leaving row, and
    /// performs Gauss-Jordan elimination on that pivot. On failure the tableau
    /// is left as it was.
    #[verifier::rlimit(100)]
    fn make_iteration(&mut self) -> (r: Result<(usize, usize), SimplexMethodError>)
        requires
            old(self).wf(),
        ensures
            match r {
                Ok((row, col)) => {
                    let p = old(self).at(row as int, col as int);
                    let prow = divided_row(old(self).contents@[row as int], p);
                    &&& old(self).is_pivot_column(col as int)
                    &&& old(self).is_pivot_row(col as int, row as int)
                    &&& old(self).pivoted(final(self), row as int, col as int)
                    &&& final(self).wf()
                    &&& !old(self).step_overflows()
                    &&& !old(self).unbounded_column()
                    &&& final(self).contents@[row as int] == prow
                    &&& forall|i: int|
                        0 <= i <= old(self).m() && i != row ==> #[trigger] final(self).contents@[i]
                            == eliminated_row(old(self).contents@[i], col as int, prow)
                },
                Err(e) => {
                    &&& *final(self) == *old(self)
                    &&& (e == SimplexMethodError::NoSolutions) == old(self).is_optimal_spec()
                    &&& (e == SimplexMethodError::NoLimit) == old(self).unbounded_column()
                    &&& (e == SimplexMethodError::Overflow) == old(self).step_overflows()
                    &&& (e == SimplexMethodError::NoSolutions || e == SimplexMethodError::NoLimit
                        || e == SimplexMethodError::Overflow)
                },
            },
    {
        proof {
            lemma_pivot_unique(*self);
        }
        let col = match self.pivot_column() {
            Ok(c) => c,
            Err(e) => {
                return Err(e);
            },
        };
        let row = match self.pivot_row(col) {
            Ok(r) => r,
            Err(e) => {
                proof {
                    if e == SimplexMethodError::Overflow {
                        assert(self.is_pivot_column(col as int) && !self.ratios_fit(col as int));
                    } else {
                        assert(self.is_pivot_column(col as int));
                    }
                }
                return Err(e);
            },
        };
        proof {
            assert(self.row_candidate(col as int, row as int));
        }
        let m = self.basis.len();
        let n = self.contents.ncols() - 1;
        assert(self.contents@[row as int].len() == n + 1);
        let pivot = self.contents.get(row, col);
        let prow = match divide_row(&self.contents.row(row), pivot) {
            Some(v) => v,
            None => {
                assert(!self.step_fits(row as int, col as int));
                return Err(SimplexMethodError::Overflow);
            },
        };
        assert(prow@ =~= divided_row(self.contents@[row as int], pivot));
        proof {
            assert forall|j: int| 0 <= j < prow@.len() implies (#[trigger] prow@[j]).is_finite() by {
                assert(self.contents@[row as int][j].is_finite());
                lemma_quotient_values(self.at(row as int, j).im, pivot.re, prow@[j].im);
            }
        }
        let rows_len = self.contents.nrows();
        let mut rows: Vec<Vec<Tax>> = Vec::new();
        let mut i: usize = 0;
        while i < rows_len
            invariant
                self.wf(),
                rows_len == m + 1,
                self.is_pivot_column(col as int),
                self.is_pivot_row(col as int, row as int),
                !self.is_optimal_spec(),
                *self == *old(self),
                m == self.m(),
                n == self.n(),
                row < m,
                col < n,
                prow@.len() == n + 1,
                prow@ == divided_row(self.contents@[row as int], pivot),
                pivot == self.at(row as int, col as int),
                row_divides(self.contents@[row as int], pivot),
                self.ratios_fit(col as int),
                forall|j: int|
                    0 <= j < prow@.len() ==> (#[trigger] prow@[j]).wf() && prow@[j].is_finite(),
                forall|k: int|
                    0 <= k < i && k != row ==> #[trigger] row_eliminates(
                        self.contents@[k],
                        col as int,
                        prow@,
                    ),
                forall|k: int|
                    0 <= k < i && k != row ==> (#[trigger] rows@[k])@ == eliminated_row(
                        self.contents@[k],
                        col as int,
                        prow@,
                    ),
                i <= m + 1,
                rows@.len() == i,
                forall|k: int| 0 <= k < i && k != row ==> (#[trigger] rows@[k])@.len() == n + 1,
                forall|k: int, j: int|
                    0 <= k < i && k != row && 0 <= j <= n ==> {
                        &&& (#[trigger] rows@[k]@[j]).wf()
                        &&& is_sub_product(
                            self.at(k, j).re,
                            self.at(k, col as int).re,
                            prow@[j].re,
                            rows@[k]@[j].re,
                        )
                        &&& is_sub_product(
                            self.at(k, j).im,
                            self.at(k, col as int).im,
                            prow@[j].re,
                            rows@[k]@[j].im,
                        )
                    },
            decreases rows_len - i,
        {
            let ghost pre = rows@;
            if i == row {
                rows.push(Vec::new());
            } else {
                assert(self.contents@[i as int].len() == n + 1);
                let current = self.contents.row(i);
                match eliminate_row(&current, col, &prow) {
                    Some(v) => {
                        assert(v@ =~= eliminated_row(self.contents@[i as int], col as int, prow@));
                        assert(row_eliminates(current@, col as int, prow@));
                        rows.push(v);
                        assert(rows@[i as int]@ == eliminated_row(
                            self.contents@[i as int],
                            col as int,
                            prow@,
                        ));
                        assert(row_eliminates(self.contents@[i as int], col as int, prow@));
                    },
                    None => {
                        assert(!self.step_fits(row as int, col as int));
                        return Err(SimplexMethodError::Overflow);
                    },
                }
            }
            assert forall|k: int| 0 <= k < i + 1 && k != row implies (#[trigger] rows@[k])@
                == eliminated_row(self.contents@[k], col as int, prow@) by {
                if k < i {
                    assert(rows@[k] == pre[k]);
                    assert(pre[k]@ == eliminated_row(self.contents@[k], col as int, prow@));
                }
            }
            i = i + 1;
        }
        let ghost pre_set = rows@;
        rows.set(row, prow);
        let ghost final_rows = rows@;
        let ghost before = *self;
        self.contents = Matrix::from_rows(rows, n + 1);
        self.basis.set(row, col);
        proof {
            lemma_pivot_keeps_wf(before, *self, row as int, col as int);
            assert(before.step_fits(row as int, col as int));
            assert(self.contents@[row as int] == divided_row(before.contents@[row as int], pivot));
            assert forall|k: int| 0 <= k <= m && k != row implies #[trigger] self.contents@[k]
                == eliminated_row(before.contents@[k], col as int, prow@) by {
                assert(self.contents@[k] == final_rows[k]@);
                assert(final_rows[k] == pre_set[k]);
                assert(row_eliminates(before.contents@[k], col as int, prow@));
            }
        }
        Ok((row, col))
    }

    /// Pivots until no column has the improving sign for the aim.
    fn run(self) -> (r: Result<SimplexSolver, SimplexMethodError>)
        requires
            self.wf(),
        ensures
            match r {
                Ok(last) => {
                    &&& last.wf()
                    &&& last.is_optimal_spec()
                    &&& last.aim == self.aim
                    &&& last.second_phase == self.second_phase
                    &&& last.m() == self.m()
                    &&& last.n() == self.n()
                    &&& exists|run: Seq<SimplexSolver>|
                        #[trigger] pivot_run(run) && run[0] == self && run.last() == last
                },
                Err(e) => {
                    &&& !self.is_optimal_spec()
                    &&& e == SimplexMethodError::NoLimit ==> exists|run: Seq<SimplexSolver>|
                        #[trigger] pivot_run(run) && run[0] == self && run.last().wf()
                            && run.last().unbounded_column()
                    &&& e == SimplexMethodError::Overflow ==> exists|run: Seq<SimplexSolver>|
                        #[trigger] pivot_run(run) && run[0] == self && run.last().wf()
                            && run.last().step_overflows()
                    &&& e == SimplexMethodError::IterationLimit ==> exists|run: Seq<SimplexSolver>|
                        #[trigger] pivot_run(run) && run[0] == self && run.len() > usize::MAX
                    &&& (e == SimplexMethodError::NoLimit || e == SimplexMethodError::Overflow || e
                        == SimplexMethodError::IterationLimit)
                },
            },
    {
        let ghost start = self;
        let mut t = self;
        let ghost mut run: Seq<SimplexSolver> = seq![self];
        let mut steps: usize = 0;
        while !t.is_optimal()
            invariant
                t.wf(),
                pivot_run(run),
                start == self,
                run[0] == start,
                run.last() == t,
                t.aim == start.aim,
                t.second_phase == start.second_phase,
                t.m() == start.m(),
                t.n() == start.n(),
                run.len() == steps + 1,
                steps > 0 ==> !start.is_optimal_spec(),
            decreases usize::MAX - steps,
        {
            if steps == usize::MAX {
                proof {
                    assert(pivot_run(run) && run[0] == start && run.len() > usize::MAX);
                }
                return Err(SimplexMethodError::IterationLimit);
            }
            let ghost before = t;
            match t.make_iteration() {
                Ok((row, col)) => {
                    proof {
                        assert(pivot_step(before, t));
                        let next = run.push(t);
                        assert forall|i: int| 0 <= i < next.len() - 1 implies #[trigger] pivot_step(
                            next[i],
                            next[i + 1],
                        ) by {
                            if i < run.len() - 1 {
                                assert(next[i] == run[i] && next[i + 1] == run[i + 1]);
                            }
                        }
                        run = next;
                    }
                },
                Err(e) => {
                    proof {
                        if e == SimplexMethodError::NoLimit {
                            assert(pivot_run(run) && run[0] == start && run.last().wf()
                                && run.last().unbounded_column());
                        }
                        if e == SimplexMethodError::Overflow {
                            assert(pivot_run(run) && run[0] == start && run.last().wf()
                                && run.last().step_overflows());
                        }
                    }
                    return Err(e);
                },
            }
            steps = steps + 1;
        }
        proof {
            assert(pivot_run(run) && run[0] == start && run.last() == t);
        }
        Ok(t)
    }

    /// Reads the basis values and the objective row of the tableau.
    fn read_solution(self) -> (sol: Solution)
        requires
            self.wf(),
        ensures
            sol.read_from(self),
            sol.coefficients@.len() == self.n() + 1,
            sol.wf(),
            sol.basis_columns_zero(),
    {
        let ghost last = self;
        let mut t = self;
        let m = t.basis.len();
        let n = t.contents.ncols() - 1;
        let mut basis_coeffs: Vec<(usize, Tax)> = Vec::new();
        let mut i: usize = 0;
        while i < m
            invariant
                t.wf(),
                t == last,
                m == t.m(),
                n == t.n(),
                i <= m,
                basis_coeffs@.len() == i,
                forall|r: int|
                    0 <= r < i ==> #[trigger] basis_coeffs@[r] == (t.basis@[r], t.b_at(r)),
            decreases m - i,
        {
            assert(t.contents@[i as int].len() == n + 1);
            basis_coeffs.push((t.basis[i], t.contents.get(i, n)));
            i = i + 1;
        }
        let coefficients = t.contents.row(m);
        let sol = Solution { basis_coeffs, coefficients };
        proof {
            assert(sol.read_from(last));
            assert forall|j: int| 0 <= j < sol.coefficients@.len() implies (
            #[trigger] sol.coefficients@[j]).wf() by {
                assert(last.contents@[m as int][j].wf());
            }
            assert forall|i: int| 0 <= i < sol.basis_coeffs@.len() implies {
                &&& (#[trigger] sol.basis_coeffs@[i]).0 < sol.coefficients@.len()
                &&& sol.basis_coeffs@[i].1.wf()
                &&& sol.basis_coeffs@[i].1.is_finite()
            } by {
                assert(last.contents@[i][n as int].wf());
            }
            assert forall|i: int| 0 <= i < sol.basis_coeffs@.len() implies (
            #[trigger] sol.coefficients@[sol.basis_coeffs@[i].0 as int]).is_zero_value() by {
                assert(last.contents@[m as int][last.basis@[i] as int].is_zero_value());
            }
        }
        sol
    }

    /// Ends the first phase of the two-phase method: where the artificial
    /// columns could not all be brought to zero the task has no feasible point
    /// (`NoSolutions`); where one of them is still basic the tableau cannot go
    /// on without it (`NoInitialBasis`). Otherwise the artificial columns are
    /// dropped and the kept objective is written over the basis.
    #[verifier::loop_isolation(false)]
    fn start_second_phase(self) -> (r: Result<SimplexSolver, SimplexMethodError>)
        requires
            self.wf(),
            self.second_phase_ok(),
            self.second_phase is Some,
        ensures
            r matches Ok(s) ==> s.wf() && s.second_phase is None && s.aim
                == self.second_phase->0.aim,
            (r == Err::<SimplexSolver, SimplexMethodError>(SimplexMethodError::NoSolutions))
                == !self.z_at(self.n()).is_zero_value(),
    {
        let ghost old_self = self;
        let m = self.basis.len();
        let n = self.contents.ncols() - 1;
        assert(self.contents@[m as int].len() == n + 1);
        if !self.contents.get(m, n).is_zero() {
            return Err(SimplexMethodError::NoSolutions);
        }
        let SimplexSolver { contents, basis, aim: _, second_phase } = self;
        let phase = match second_phase {
            Some(p) => p,
            None => {
                return Err(SimplexMethodError::ShapeMismatch);
            },
        };
        let cols = phase.columns;
        let mut r: usize = 0;
        while r < m
            invariant
                basis@ == old_self.basis@,
                m == basis@.len(),
                r <= m,
                forall|k: int| 0 <= k < r ==> #[trigger] basis@[k] < cols,
            decreases m - r,
        {
            if basis[r] >= cols {
                return Err(SimplexMethodError::NoInitialBasis);
            }
            r = r + 1;
        }
        let mut rows: Vec<Vec<Tax>> = Vec::new();
        let mut i: usize = 0;
        while i < m
            invariant
                old_self.wf(),
                contents@ == old_self.contents@,
                m == old_self.m(),
                n == old_self.n(),
                0 < cols <= n,
                i <= m,
                rows@.len() == i,
                forall|k: int|
                    0 <= k < i ==> (#[trigger] rows@[k])@.len() == cols + 1 && forall|j: int|
                        0 <= j <= cols ==> (#[trigger] rows@[k]@[j]).wf() && rows@[k]@[j].is_finite(),
            decreases m - i,
        {
            assert(contents@[i as int].len() == n + 1);
            let row = kept_columns(&contents.row(i), cols);
            proof {
                assert forall|j: int| 0 <= j <= cols implies (#[trigger] row@[j]).wf()
                    && row@[j].is_finite() by {
                    if j < cols {
                        assert(old_self.contents@[i as int][j].wf());
                    } else {
                        assert(old_self.contents@[i as int][n as int].wf());
                    }
                }
            }
            rows.push(row);
            i = i + 1;
        }
        let mut z = kept_columns(&phase.objective, cols);
        let mut r: usize = 0;
        while r < m
            invariant
                m == basis@.len(),
                rows@.len() == m,
                forall|k: int| 0 <= k < m ==> #[trigger] basis@[k] < cols,
                forall|k: int|
                    0 <= k < m ==> (#[trigger] rows@[k])@.len() == cols + 1 && forall|j: int|
                        0 <= j <= cols ==> (#[trigger] rows@[k]@[j]).wf() && rows@[k]@[j].is_finite(),
                z@.len() == cols + 1,
                forall|j: int| 0 <= j <= cols ==> (#[trigger] z@[j]).wf(),
                r <= m,
            decreases m - r,
        {
            assert(rows@[r as int]@.len() == cols + 1);
            z = match eliminate_row(&z, basis[r], &rows[r]) {
                Some(v) => v,
                None => {
                    return Err(SimplexMethodError::Overflow);
                },
            };
            r = r + 1;
        }
        rows.push(z);
        SimplexSolver::from_contents(rows, phase.aim)
    }

    /// Pivots until no column has the improving sign for the aim and reads
    /// the solution from the final tableau. Under the two-phase method the
    /// first phase drives the artificial columns out, and the second then
    /// optimises the task's own objective.
    pub fn solve(self) -> (r: Result<Solution, SimplexMethodError>)
        requires
            self.wf(),
            self.second_phase_ok(),
        ensures
            match r {
                Ok(sol) => {
                    let aim = match self.second_phase {
                        Some(p) => p.aim,
                        None => self.aim,
                    };
                    &&& sol.wf()
                    &&& sol.basis_columns_zero()
                    &&& sol.coefficients@.len() >= 1
                    &&& forall|j: int|
                        0 <= j < sol.coefficients@.len() - 1 ==> !improving_entry(
                            aim,
                            #[trigger] sol.coefficients@[j],
                        )
                    &&& self.second_phase is None ==> exists|run: Seq<SimplexSolver>|
                        #[trigger] pivot_run(run) && run[0] == self && run.last().wf()
                            && run.last().is_optimal_spec() && sol.read_from(run.last())
                },
                Err(e) => {
                    &&& self.second_phase is None && e == SimplexMethodError::NoLimit ==> exists|
                        run: Seq<SimplexSolver>,
                    |
                        #[trigger] pivot_run(run) && run[0] == self && run.last().wf()
                            && run.last().unbounded_column()
                    &&& self.second_phase is None && e == SimplexMethodError::Overflow ==> exists|
                        run: Seq<SimplexSolver>,
                    |
                        #[trigger] pivot_run(run) && run[0] == self && run.last().wf()
                            && run.last().step_overflows()
                    &&& self.second_phase is None && e == SimplexMethodError::IterationLimit
                        ==> exists|run: Seq<SimplexSolver>|
                        #[trigger] pivot_run(run) && run[0] == self && run.len() > usize::MAX
                    &&& self.second_phase is None ==> !self.is_optimal_spec()
                    &&& self.second_phase is None ==> (e == SimplexMethodError::NoLimit || e
                        == SimplexMethodError::Overflow || e == SimplexMethodError::IterationLimit)
                    &&& e == SimplexMethodError::NoSolutions ==> self.second_phase is Some && exists|
                        run: Seq<SimplexSolver>,
                    |
                        #[trigger] pivot_run(run) && run[0] == self && run.last().wf()
                            && run.last().is_optimal_spec() && !run.last().z_at(
                            run.last().n(),
                        ).is_zero_value()
                },
            },
    {
        let ghost start = self;
        let first = self.run()?;
        let ghost first_g = first;
        let last = match first.second_phase {
            None => first,
            Some(_) => {
                let second = match first.start_second_phase() {
                    Ok(t) => t,
                    Err(e) => {
                        proof {
                            if e == SimplexMethodError::NoSolutions {
                                let run = choose|run: Seq<SimplexSolver>|
                                    #[trigger] pivot_run(run) && run[0] == start && run.last()
                                        == first_g;
                                assert(pivot_run(run) && run[0] == start && run.last().wf()
                                    && run.last().is_optimal_spec() && !run.last().z_at(
                                    run.last().n(),
                                ).is_zero_value());
                            }
                        }
                        return Err(e);
                    },
                };
                second.run()?
            },
        };
        let ghost fin = last;
        let sol = last.read_solution();
        proof {
            assert forall|j: int| 0 <= j < sol.coefficients@.len() - 1 implies !improving_entry(
                fin.aim,
                #[trigger] sol.coefficients@[j],
            ) by {
                assert(!fin.improving(j));
            }
            if start.second_phase is None {
                let run = choose|run: Seq<SimplexSolver>|
                    #[trigger] pivot_run(run) && run[0] == start && run.last() == first;
                assert(pivot_run(run) && run[0] == start && run.last().wf()
                    && run.last().is_optimal_spec() && sol.read_from(run.last()));
            }
        }
        Ok(sol)
    }
}

/// The first `cols` entries of `row`, then its last entry.
fn kept_columns(row: &Vec<Tax>, cols: usize) -> (r: Vec<Tax>)
    requires
        0 < cols < row@.len(),
    ensures
        r@ == row@.subrange(0, cols as int).push(row@[row@.len() - 1]),
{
    let mut out: Vec<Tax> = Vec::new();
    let mut j: usize = 0;
    while j < cols
        invariant
            cols < row@.len(),
            j <= cols,
            out@ == row@.subrange(0, j as int),
        decreases cols - j,
    {
        out.push(row[j]);
        j = j + 1;
    }
    out.push(row[row.len() - 1]);
    out
}

/// Whether the table satisfies `table_ok`, given at least two rows of at least two entries.
fn check_table(c: &Vec<Vec<Tax>>) -> (r: bool)
    requires
        c@.len() >= 2,
        c@[0]@.len() >= 2,
    ensures
        r == table_ok(c@),
{
    let width = c[0].len();
    let rows = c.len();
    let mut i: usize = 0;
    while i < rows
        invariant
            rows == c@.len(),
            width == c@[0]@.len(),
            rows >= 2,
            width >= 2,
            i <= rows,
            forall|k: int| 0 <= k < i ==> (#[trigger] c@[k])@.len() == width,
            forall|k: int, j: int|
                0 <= k < i && 0 <= j < width ==> {
                    &&& (#[trigger] c@[k]@[j]).wf()
                    &&& k < rows - 1 ==> c@[k]@[j].is_finite()
                },
        decreases rows - i,
    {
        let row = &c[i];
        if row.len() != width {
            return false;
        }
        let mut j: usize = 0;
        while j < width
            invariant
                rows == c@.len(),
                width == c@[0]@.len(),
                i < rows,
                row@ == c@[i as int]@,
                row@.len() == width,
                j <= width,
                forall|k: int|
                    0 <= k < j ==> {
                        &&& (#[trigger] row@[k]).wf()
                        &&& i < rows - 1 ==> row@[k].is_finite()
                    },
            decreases width - j,
        {
            let e = row[j];
            let ok = e.re.denom > 0 && e.re.numer > i64::MIN && e.im.denom > 0 && e.im.numer
                > i64::MIN && (i == rows - 1 || e.im.numer == 0);
            if !ok {
                proof {
                    assert(!(c@[i as int]@[j as int].wf() && (i < rows - 1 ==> c@[i as int]@[j as int].is_finite())));
                }
                return false;
            }
            j = j + 1;
        }
        i = i + 1;
    }
    true
}

/// Whether column `j` is the unit column of row `r`.
fn is_unit_column(c: &Vec<Vec<Tax>>, r: usize, j: usize) -> (b: bool)
    requires
        table_ok(c@),
        r < c@.len(),
        j < c@[0]@.len(),
    ensures
        b == unit_column(c@, r as int, j as int),
{
    let mut s: usize = 0;
    while s < c.len()
        invariant
            table_ok(c@),
            r < c@.len(),
            j < c@[0]@.len(),
            s <= c@.len(),
            forall|k: int|
                0 <= k < s ==> {
                    &&& k == r ==> (#[trigger] c@[k]@[j as int]).is_one_value()
                    &&& k != r ==> c@[k]@[j as int].is_zero_value()
                },
        decreases c@.len() - s,
    {
        assert(c@[s as int]@.len() == c@[0]@.len());
        let e = c[s][j];
        let ok = if s == r {
            e.re.numer == e.re.denom && e.im.numer == 0
        } else {
            e.re.numer == 0 && e.im.numer == 0
        };
        if !ok {
            return false;
        }
        s = s + 1;
    }
    true
}

/// A pivot on a positive-ratio row keeps the tableau well-formed: the new
/// basis columns again form the identity with zeros in the objective row.
proof fn lemma_pivot_keeps_wf(t: SimplexSolver, next: SimplexSolver, row: int, col: int)
    requires
        t.wf(),
        0 <= col < t.n(),
        col <= usize::MAX,
        t.row_candidate(col, row),
        t.pivoted(&next, row, col),
    ensures
        next.wf(),
        next.m() == t.m(),
        next.n() == t.n(),
{
    let m = t.m();
    let n = t.n();
    assert(next.contents@[0].len() == n + 1);
    let p = t.at(row, col);
    assert(t.contents@[row][col].wf());
    assert forall|i: int, j: int| 0 <= i <= m && 0 <= j <= n implies {
        &&& (#[trigger] next.contents@[i][j]).wf()
        &&& i < m ==> next.contents@[i][j].is_finite()
    } by {
        assert(t.contents@[i][j].wf());
        assert(t.contents@[row][j].wf());
        assert(t.contents@[i][col].wf());
        assert(next.contents@[row][j].wf());
        if i < m {
            if i == row {
                lemma_quotient_values(t.at(row, j).im, p.re, next.at(row, j).im);
            } else {
                lemma_sub_zero_product(
                    t.at(i, j).im,
                    t.at(i, col).im,
                    next.at(row, j).re,
                    next.at(i, j).im,
                );
            }
        }
    }
    assert forall|r: int| 0 <= r < m implies 0 <= #[trigger] next.basis@[r] < n by {
        if r != row {
            assert(t.basis@[r] == next.basis@[r]);
        }
    }
    assert forall|r: int, s: int| 0 <= r < m && 0 <= s <= m implies {
        let e = #[trigger] next.contents@[s][next.basis@[r] as int];
        &&& s == r ==> e.is_one_value()
        &&& s != r ==> e.is_zero_value()
    } by {
        let c = next.basis@[r] as int;
        assert(t.contents@[s][c].wf());
        assert(t.contents@[row][c].wf());
        assert(t.contents@[s][col].wf());
        assert(next.contents@[row][c].wf());
        assert(next.contents@[s][c].wf());
        if r == row {
            assert(c == col);
            lemma_quotient_values(t.at(row, col).re, p.re, next.at(row, col).re);
            lemma_quotient_values(t.at(row, col).im, p.re, next.at(row, col).im);
            if s != row {
                lemma_sub_self_product(t.at(s, col).re, next.at(row, col).re, next.at(s, col).re);
                lemma_sub_self_product(t.at(s, col).im, next.at(row, col).re, next.at(s, col).im);
            }
        } else {
            assert(c == t.basis@[r] as int);
            assert(t.contents@[row][t.basis@[r] as int].is_zero_value());
            assert(t.contents@[s][t.basis@[r] as int].wf());
            lemma_quotient_values(t.at(row, c).re, p.re, next.at(row, c).re);
            lemma_quotient_values(t.at(row, c).im, p.re, next.at(row, c).im);
            if s != row {
                lemma_sub_zero_product(
                    t.at(s, c).re,
                    t.at(s, col).re,
                    next.at(row, c).re,
                    next.at(s, c).re,
                );
                lemma_sub_zero_product(
                    t.at(s, c).im,
                    t.at(s, col).im,
                    next.at(row, c).re,
                    next.at(s, c).im,
                );
            }
        }
    }
}

/// `row - row[col] * prow`, entry by entry.
pub open spec fn eliminated_row(row: Seq<Tax>, col: int, prow: Seq<Tax>) -> Seq<Tax> {
    Seq::new(row.len(), |j: int| tax_sub(row[j], tax_mul(row[col], prow[j])->Some_0)->Some_0)
}

/// `row` divided by `p`, entry by entry.
pub open spec fn divided_row(row: Seq<Tax>, p: Tax) -> Seq<Tax> {
    Seq::new(row.len(), |j: int| tax_div(row[j], p)->Some_0)
}

/// Every entry of `row` divides by `p` without overflow.
pub open spec fn row_divides(row: Seq<Tax>, p: Tax) -> bool {
    forall|j: int| 0 <= j < row.len() ==> (#[trigger] tax_div(row[j], p)) is Some
}

/// `x - f * q` computes without overflow.
pub open spec fn entry_eliminates(x: Tax, f: Tax, q: Tax) -> bool {
    tax_mul(f, q) is Some && tax_sub(x, tax_mul(f, q)->Some_0) is Some
}

/// `row - row[col] * prow` computes without overflow.
pub open spec fn row_eliminates(row: Seq<Tax>, col: int, prow: Seq<Tax>) -> bool {
    forall|j: int| 0 <= j < row.len() ==> #[trigger] entry_eliminates(row[j], row[col], prow[j])
}

/// Each entry of `row` divided by the finite, non-zero `p`.
fn divide_row(row: &Vec<Tax>, p: Tax) -> (r: Option<Vec<Tax>>)
    requires
        forall|j: int| 0 <= j < row@.len() ==> (#[trigger] row@[j]).wf(),
        p.wf(),
        p.is_finite(),
        p.re.numer != 0,
    ensures
        r matches Some(v) ==> {
            &&& v@.len() == row@.len()
            &&& forall|j: int|
                0 <= j < row@.len() ==> {
                    &&& (#[trigger] v@[j]).wf()
                    &&& is_quotient(row@[j].re, p.re, v@[j].re)
                    &&& is_quotient(row@[j].im, p.re, v@[j].im)
                    &&& v@[j] == tax_div(row@[j], p)->Some_0
                }
        },
        r is Some <==> row_divides(row@, p),
{
    let mut out: Vec<Tax> = Vec::new();
    let mut j: usize = 0;
    while j < row.len()
        invariant
            forall|k: int| 0 <= k < row@.len() ==> (#[trigger] row@[k]).wf(),
            p.wf(),
            p.is_finite(),
            p.re.numer != 0,
            j <= row@.len(),
            out@.len() == j,
            forall|k: int|
                0 <= k < j ==> {
                    &&& (#[trigger] out@[k]).wf()
                    &&& is_quotient(row@[k].re, p.re, out@[k].re)
                    &&& is_quotient(row@[k].im, p.re, out@[k].im)
                    &&& out@[k] == tax_div(row@[k], p)->Some_0
                    &&& tax_div(row@[k], p) is Some
                },
        decreases row@.len() - j,
    {
        let q = match row[j].div(&p) {
            Some(q) => q,
            None => {
                assert(!(tax_div(row@[j as int], p) is Some));
                return None;
            },
        };
        out.push(q);
        j = j + 1;
    }
    assert forall|k: int| 0 <= k < row@.len() implies (#[trigger] tax_div(row@[k], p)) is Some by {
        assert(out@[k] == tax_div(row@[k], p)->Some_0);
    }
    Some(out)
}

/// `row - row[col] * prow`, entry by entry, for a finite `prow`.
fn eliminate_row(row: &Vec<Tax>, col: usize, prow: &Vec<Tax>) -> (r: Option<Vec<Tax>>)
    requires
        row@.len() == prow@.len(),
        col < row@.len(),
        forall|j: int| 0 <= j < row@.len() ==> (#[trigger] row@[j]).wf(),
        forall|j: int|
            0 <= j < prow@.len() ==> (#[trigger] prow@[j]).wf() && prow@[j].is_finite(),
    ensures
        r matches Some(v) ==> {
            &&& v@.len() == row@.len()
            &&& forall|j: int|
                0 <= j < row@.len() ==> {
                    &&& (#[trigger] v@[j]).wf()
                    &&& is_sub_product(row@[j].re, row@[col as int].re, prow@[j].re, v@[j].re)
                    &&& is_sub_product(row@[j].im, row@[col as int].im, prow@[j].re, v@[j].im)
                    &&& v@[j] == tax_sub(row@[j], tax_mul(row@[col as int], prow@[j])->Some_0)->Some_0
                }
        },
        r is Some <==> row_eliminates(row@, col as int, prow@),
{
    let f = row[col];
    let mut out: Vec<Tax> = Vec::new();
    let mut j: usize = 0;
    while j < row.len()
        invariant
            row@.len() == prow@.len(),
            col < row@.len(),
            f == row@[col as int],
            forall|k: int| 0 <= k < row@.len() ==> (#[trigger] row@[k]).wf(),
            forall|k: int|
                0 <= k < prow@.len() ==> (#[trigger] prow@[k]).wf() && prow@[k].is_finite(),
            j <= row@.len(),
            out@.len() == j,
            forall|k: int|
                0 <= k < j ==> {
                    &&& (#[trigger] out@[k]).wf()
                    &&& is_sub_product(row@[k].re, f.re, prow@[k].re, out@[k].re)
                    &&& is_sub_product(row@[k].im, f.im, prow@[k].re, out@[k].im)
                    &&& entry_eliminates(row@[k], f, prow@[k])
                    &&& out@[k] == tax_sub(row@[k], tax_mul(f, prow@[k])->Some_0)->Some_0
                },
        decreases row@.len() - j,
    {
        let p = prow[j];
        let t = match f.mul(&p) {
            Some(t) => t,
            None => {
                assert(!entry_eliminates(row@[j as int], row@[col as int], prow@[j as int]));
                return None;
            },
        };
        let v = match row[j].sub(&t) {
            Some(v) => v,
            None => {
                assert(!entry_eliminates(row@[j as int], row@[col as int], prow@[j as int]));
                return None;
            },
        };
        proof {
            lemma_sub_product(row@[j as int].re, f.re, p.re, t.re, v.re);
            lemma_sub_product(row@[j as int].im, f.im, p.re, t.im, v.im);
        }
        out.push(v);
        j = j + 1;
    }
    assert forall|q: int| 0 <= q < row@.len() implies #[trigger] entry_eliminates(
        row@[q],
        row@[col as int],
        prow@[q],
    ) by {
        assert(out@[q].wf());
        assert(entry_eliminates(row@[q], f, prow@[q]));
    }
    Some(out)
}

} // verus!

verus! {

/// The value of column `j` in the basic solution of `t`: `b[r]` where `j` is
/// basic in row `r`, zero where it is not basic.
pub open spec fn basic_value(t: SimplexSolver, j: int) -> Rational {
    if exists|r: int| 0 <= r < t.m() && #[trigger] t.basis@[r] == j {
        t.b_at(choose|r: int| 0 <= r < t.m() && #[trigger] t.basis@[r] == j).re
    } else {
        Rational::zero_spec()
    }
}

/// `sum(A[s][j] * x[j] for j < k)` over finite parts, `x` the basic solution,
/// as numerator and positive denominator.
pub open spec fn row_dot(t: SimplexSolver, s: int, k: int) -> (int, int)
    decreases k,
{
    if k <= 0 {
        (0, 1)
    } else {
        let (p, q) = row_dot(t, s, k - 1);
        let a = t.at(s, k - 1).re;
        let x = basic_value(t, k - 1);
        (p * (a.denom * x.denom) + (a.numer * x.numer) * q, q * (a.denom * x.denom))
    }
}

/// In a well-formed tableau, as every pivot step leaves it, the basic solution
/// satisfies each restriction row exactly: `A[s] . x == b[s]`.
pub proof fn lemma_basic_solution_solves_rows(t: SimplexSolver)
    requires
        t.wf(),
    ensures
        forall|s: int|
            0 <= s < t.m() ==> {
                let (p, q) = #[trigger] row_dot(t, s, t.n());
                &&& q > 0
                &&& p * t.b_at(s).re.denom == t.b_at(s).re.numer * q
            },
{
    lemma_basis_distinct(t);
    assert forall|s: int| 0 <= s < t.m() implies {
        let (p, q) = #[trigger] row_dot(t, s, t.n());
        &&& q > 0
        &&& p * t.b_at(s).re.denom == t.b_at(s).re.numer * q
    } by {
        lemma_row_dot_prefix(t, s, t.n());
    }
}

/// No column is basic in two rows.
proof fn lemma_basis_distinct(t: SimplexSolver)
    requires
        t.wf(),
    ensures
        forall|r1: int, r2: int|
            0 <= r1 < t.m() && 0 <= r2 < t.m() && #[trigger] t.basis@[r1] == #[trigger] t.basis@[r2]
                ==> r1 == r2,
{
    assert forall|r1: int, r2: int|
        0 <= r1 < t.m() && 0 <= r2 < t.m() && #[trigger] t.basis@[r1] == #[trigger] t.basis@[r2]
            implies r1 == r2 by {
        if r1 != r2 {
            let c = t.basis@[r1] as int;
            assert(t.contents@[r1][t.basis@[r1] as int].is_one_value());
            assert(t.contents@[r1][t.basis@[r2] as int].is_zero_value());
            assert(t.contents@[r1][c].wf());
        }
    }
}

/// Over the first `k` columns the row sum is `b[s]` once the basic column of
/// row `s` is among them, and zero before.
proof fn lemma_row_dot_prefix(t: SimplexSolver, s: int, k: int)
    requires
        t.wf(),
        0 <= s < t.m(),
        0 <= k <= t.n(),
        forall|r1: int, r2: int|
            0 <= r1 < t.m() && 0 <= r2 < t.m() && #[trigger] t.basis@[r1] == #[trigger] t.basis@[r2]
                ==> r1 == r2,
    ensures
        row_dot(t, s, k).1 > 0,
        t.basis@[s] < k ==> row_dot(t, s, k).0 * t.b_at(s).re.denom == t.b_at(s).re.numer
            * row_dot(t, s, k).1,
        t.basis@[s] >= k ==> row_dot(t, s, k).0 == 0,
    decreases k,
{
    if k > 0 {
        lemma_row_dot_prefix(t, s, k - 1);
        let j = k - 1;
        let (p, q) = row_dot(t, s, k - 1);
        let a = t.at(s, j).re;
        let x = basic_value(t, j);
        let b = t.b_at(s).re;
        assert(t.contents@[s][j].wf());
        assert(t.contents@[s][t.n()].wf());
        let is_basic = exists|r: int| 0 <= r < t.m() && #[trigger] t.basis@[r] == j;
        if is_basic {
            let r = choose|r: int| 0 <= r < t.m() && #[trigger] t.basis@[r] == j;
            assert(x == t.b_at(r).re);
            assert(t.contents@[r][t.n()].wf());
            assert(t.contents@[s][t.basis@[r] as int].wf());
            if r == s {
                assert(t.contents@[s][t.basis@[s] as int].is_one_value());
                assert(a.numer == a.denom);
                assert(p == 0);
                let d: int = a.denom * x.denom;
                assert(d > 0) by (nonlinear_arith)
                    requires
                        d == a.denom * x.denom,
                        a.denom > 0,
                        x.denom > 0,
                ;
                assert(q * d > 0) by (nonlinear_arith)
                    requires
                        q > 0,
                        d > 0,
                ;
                assert((p * d + (a.numer * x.numer) * q) * b.denom == b.numer * (q * d))
                    by (nonlinear_arith)
                    requires
                        p == 0,
                        a.numer == a.denom,
                        x == b,
                        d == a.denom * x.denom,
                ;
            } else {
                assert(t.contents@[s][t.basis@[r] as int].is_zero_value());
                assert(a.numer == 0);
                assert(t.basis@[s] != j);
                lemma_zero_term(p, q, a, x, b);
            }
        } else {
            assert(x == Rational::zero_spec());
            assert(t.basis@[s] != j);
            lemma_zero_term(p, q, a, x, b);
        }
    }
}

/// Adding a zero term to a row sum keeps its value.
proof fn lemma_zero_term(p: int, q: int, a: Rational, x: Rational, b: Rational)
    requires
        q > 0,
        a.denom > 0,
        x.denom > 0,
        a.numer == 0 || x.numer == 0,
    ensures
        q * (a.denom * x.denom) > 0,
        p * b.denom == b.numer * q ==> (p * (a.denom * x.denom) + (a.numer * x.numer) * q) * b.denom
            == b.numer * (q * (a.denom * x.denom)),
        p == 0 ==> p * (a.denom * x.denom) + (a.numer * x.numer) * q == 0,
{
    let d: int = a.denom * x.denom;
    assert(d > 0) by (nonlinear_arith)
        requires
            d == a.denom * x.denom,
            a.denom > 0,
            x.denom > 0,
    ;
    assert(a.numer * x.numer == 0) by (nonlinear_arith)
        requires
            a.numer == 0 || x.numer == 0,
    ;
    assert(q * d > 0) by (nonlinear_arith)
        requires
            q > 0,
            d > 0,
    ;
    assert(p * b.denom == b.numer * q ==> (p * d) * b.denom == b.numer * (q * d)) by (nonlinear_arith);
}

} // verus!

verus! {

/// The entering column and, for it, the leaving row are unique.
pub proof fn lemma_pivot_unique(t: SimplexSolver)
    requires
        t.wf(),
    ensures
        forall|c1: int, c2: int|
            #[trigger] t.is_pivot_column(c1) && #[trigger] t.is_pivot_column(c2) ==> c1 == c2,
        forall|c: int, r1: int, r2: int|
            #[trigger] t.is_pivot_row(c, r1) && #[trigger] t.is_pivot_row(c, r2) ==> r1 == r2,
{
    assert forall|c1: int, c2: int|
        #[trigger] t.is_pivot_column(c1) && #[trigger] t.is_pivot_column(c2) implies c1 == c2 by {
        if c1 != c2 {
            let (lo, hi) = if c1 < c2 {
                (c1, c2)
            } else {
                (c2, c1)
            };
            assert(t.improving(lo) && t.improving(hi));
        }
    }
    assert forall|c: int, r1: int, r2: int|
        #[trigger] t.is_pivot_row(c, r1) && #[trigger] t.is_pivot_row(c, r2) implies r1 == r2 by {
        if r1 != r2 {
            assert(t.row_candidate(c, r1) && t.row_candidate(c, r2));
        }
    }
}

} // verus!
