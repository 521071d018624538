//! The sparse matrices of the constraints of one cycle.

use crate::field;
use crate::field::Field;
use crate::framework::poly;
use crate::framework::sums;
use vstd::arithmetic::power2::pow2;
use vstd::prelude::*;

verus! {

/// A sparse row: pairs of a variable and its coefficient.
pub type Row<F> = Seq<(usize, F)>;

/// The matrices `A`, `B`, `C` of the constraints `(A z) (B z) = C z` of one cycle.
#[derive(Debug)]
pub struct ConstraintMatrices<F> {
    pub num_constraints: usize,
    pub num_vars: usize,
    pub a: Vec<Vec<(usize, F)>>,
    pub b: Vec<Vec<(usize, F)>>,
    pub c: Vec<Vec<(usize, F)>>,
}

/// The rows of a sparse matrix.
pub open spec fn rows<F>(m: Seq<Vec<(usize, F)>>) -> Seq<Row<F>> {
    Seq::new(m.len(), |i: int| m[i]@)
}

/// Every row mentions only variables below a bound.
pub open spec fn rows_read<F>(m: Seq<Row<F>>, vars: nat) -> bool {
    forall|i: int, j: int|
        0 <= i < m.len() && 0 <= j < m[i].len() ==> (#[trigger] m[i][j]).0 < vars
}

/// The inner product of a sparse row with an assignment.
pub open spec fn row_value<F: Field>(row: Row<F>, z: Seq<F>) -> F {
    sums::sum(row.len() as int, |j: int| row[j].1.times(z[row[j].0 as int]))
}

/// The value of a constraint's row; the rows after the last constraint are empty.
pub open spec fn value_at<F: Field>(m: Seq<Row<F>>, con: int, z: Seq<F>) -> F {
    if con < m.len() {
        row_value(m[con], z)
    } else {
        F::of_int(0)
    }
}

/// The entry of a sparse row at a variable: the sum of its coefficients there.
pub open spec fn entry<F: Field>(row: Row<F>, var: int) -> F {
    sums::sum(row.len() as int, |j: int| coefficient_at(row, var, j))
}

/// What the pair at a position adds to the entry of a variable.
pub open spec fn coefficient_at<F: Field>(row: Row<F>, var: int, j: int) -> F {
    if row[j].0 == var {
        row[j].1
    } else {
        F::of_int(0)
    }
}

/// The entry of a matrix column, folded over the constraints with the weights of a point.
pub open spec fn column_at<F: Field>(m: Seq<Row<F>>, r_con: Seq<F>, var: int) -> F {
    sums::sum(m.len() as int, |con: int| poly::eq_weight(r_con, con).times(entry(m[con], var)))
}

/// All folded columns.
pub open spec fn columns_at<F: Field>(m: Seq<Row<F>>, r_con: Seq<F>, vars: nat) -> Seq<F> {
    Seq::new(vars, |var: int| column_at(m, r_con, var))
}

/// The matrix-vector product, folded over the constraints with the weights of a point.
pub open spec fn product_at<F: Field>(m: Seq<Row<F>>, r_con: Seq<F>, z: Seq<F>) -> F {
    sums::sum(m.len() as int, |con: int| poly::eq_weight(r_con, con).times(row_value(m[con], z)))
}

impl<F: Field> ConstraintMatrices<F> {
    /// The rows of `A`.
    pub open spec fn a_rows(self) -> Seq<Row<F>> {
        rows(self.a@)
    }

    /// The rows of `B`.
    pub open spec fn b_rows(self) -> Seq<Row<F>> {
        rows(self.b@)
    }

    /// The rows of `C`.
    pub open spec fn c_rows(self) -> Seq<Row<F>> {
        rows(self.c@)
    }

    /// The matrices have one row per constraint and mention only the variables.
    pub open spec fn wf(self) -> bool {
        &&& self.a@.len() == self.num_constraints
        &&& self.b@.len() == self.num_constraints
        &&& self.c@.len() == self.num_constraints
        &&& rows_read(self.a_rows(), self.num_vars as nat)
        &&& rows_read(self.b_rows(), self.num_vars as nat)
        &&& rows_read(self.c_rows(), self.num_vars as nat)
    }

    /// An assignment satisfies every constraint.
    pub open spec fn satisfied_by(self, z: Seq<F>) -> bool {
        forall|con: int|
            0 <= con < self.num_constraints ==> row_value(#[trigger] self.a_rows()[con], z).times(
                row_value(self.b_rows()[con], z),
            ) == row_value(self.c_rows()[con], z)
    }

    /// The matrices with the given rows.
    pub fn new(
        num_constraints: usize,
        num_vars: usize,
        a: Vec<Vec<(usize, F)>>,
        b: Vec<Vec<(usize, F)>>,
        c: Vec<Vec<(usize, F)>>,
    ) -> (r: Self)
        ensures
            r == (ConstraintMatrices { num_constraints, num_vars, a, b, c }),
    {
        ConstraintMatrices { num_constraints, num_vars, a, b, c }
    }
}

/// The inner product of a sparse row with an assignment.
pub fn row_dot<F: Field>(row: &Vec<(usize, F)>, z: &[F]) -> (r: F)
    requires
        forall|j: int| 0 <= j < row@.len() ==> (#[trigger] row@[j]).0 < z@.len(),
    ensures
        r == row_value(row@, z@),
{
    let mut acc: F = field::zero();
    let ghost f = |j: int| row@[j].1.times(z@[row@[j].0 as int]);
    for j in 0..row.len()
        invariant
            f == (|j: int| row@[j].1.times(z@[row@[j].0 as int])),
            forall|j: int| 0 <= j < row@.len() ==> (#[trigger] row@[j]).0 < z@.len(),
            acc == sums::sum(j as int, f),
    {
        let (var, coeff) = row[j];
        assert(row@[j as int].0 < z@.len());
        acc = acc.add(coeff.mul(z[var]));
    }
    acc
}

/// Add a weighted sparse row into a dense one.
fn scatter_row<F: Field>(dense: &mut Vec<F>, row: &Vec<(usize, F)>, weight: F)
    requires
        forall|j: int| 0 <= j < row@.len() ==> (#[trigger] row@[j]).0 < old(dense)@.len(),
        field::all_valid(old(dense)@),
    ensures
        final(dense)@ == Seq::new(
            old(dense)@.len(),
            |var: int| old(dense)@[var].plus(weight.times(entry(row@, var))),
        ),
        field::all_valid(final(dense)@),
{
    let ghost before = dense@;
    let ghost part = |var: int, j: int| sums::sum(j, |i: int| coefficient_at(row@, var, i));
    assert forall|var: int| 0 <= var < before.len() implies before[var] == (#[trigger] before[var]).plus(
        weight.times(part(var, 0)),
    ) by {
        F::law_times_zero(weight);
        F::law_plus_zero(before[var]);
    }
    for j in 0..row.len()
        invariant
            part == (|var: int, j: int| sums::sum(j, |i: int| coefficient_at(row@, var, i))),
            dense@.len() == before.len(),
            forall|j: int| 0 <= j < row@.len() ==> (#[trigger] row@[j]).0 < before.len(),
            forall|var: int|
                0 <= var < before.len() ==> #[trigger] dense@[var] == before[var].plus(
                    weight.times(part(var, j as int)),
                ),
            field::all_valid(dense@),
    {
        let (var, coeff) = row[j];
        assert(row@[j as int].0 < before.len());
        let ghost now = dense@;
        let term: F = weight.mul(coeff);
        let updated: F = dense[var].add(term);
        dense.set(var, updated);
        proof {
            F::law_valid(now[var as int], term);
            assert forall|k: int| 0 <= k < before.len() implies #[trigger] dense@[k]
                == before[k].plus(weight.times(part(k, j + 1))) by {
                let p = part(k, j as int);
                assert(now[k] == before[k].plus(weight.times(p)));
                assert(part(k, j + 1) == p.plus(coefficient_at(row@, k, j as int)));
                if k == var {
                    F::law_distrib(weight, p, coeff);
                    F::law_plus_assoc(before[k], weight.times(p), term);
                } else {
                    sums::lemma_sum_valid(j as int, |i: int| coefficient_at(row@, k, i));
                    F::law_plus_zero(p);
                }
            }
        }
    }
    assert(dense@ =~= Seq::new(
        before.len(),
        |var: int| before[var].plus(weight.times(entry(row@, var))),
    ));
}

/// Fold the columns of a matrix over the constraints with the weights of a point.
pub(crate) fn fold_columns<F: Field>(m: &Vec<Vec<(usize, F)>>, eq_con: &[F], vars: usize, Ghost(r_con): Ghost<
    Seq<F>,
>) -> (r: Vec<F>)
    requires
        eq_con@ == poly::eq_table(r_con),
        m@.len() <= eq_con@.len(),
        rows_read(rows(m@), vars as nat),
    ensures
        r@ == columns_at(rows(m@), r_con, vars as nat),
        field::all_valid(r@),
{
    let mut dense: Vec<F> = poly::zeros(vars);
    let ghost ms = rows(m@);
    let ghost part = |var: int, con: int|
        sums::sum(con, |i: int| poly::eq_weight(r_con, i).times(entry(ms[i], var)));
    proof {
        F::law_of_int_valid(0);
    }
    for con in 0..m.len()
        invariant
            ms == rows(m@),
            part == (|var: int, con: int|
                sums::sum(con, |i: int| poly::eq_weight(r_con, i).times(entry(ms[i], var)))),
            eq_con@ == poly::eq_table(r_con),
            m@.len() <= eq_con@.len(),
            rows_read(ms, vars as nat),
            dense@.len() == vars,
            field::all_valid(dense@),
            forall|var: int|
                0 <= var < vars ==> #[trigger] dense@[var] == part(var, con as int),
    {
        let ghost now = dense@;
        assert(ms[con as int] == m@[con as int]@);
        assert forall|j: int| 0 <= j < m@[con as int]@.len() implies (#[trigger] m@[con as int]@[j]).0
            < now.len() by {
            assert(ms[con as int][j].0 < vars);
        }
        scatter_row(&mut dense, &m[con], eq_con[con]);
        assert forall|var: int| 0 <= var < vars implies #[trigger] dense@[var] == part(
            var,
            con + 1,
        ) by {
            assert(now[var] == part(var, con as int));
        }
    }
    assert(dense@ =~= columns_at(ms, r_con, vars as nat));
    dense
}

/// The matrix-vector product, folded over the constraints with the weights of a point.
pub(crate) fn fold_product<F: Field>(m: &Vec<Vec<(usize, F)>>, eq_con: &[F], z: &[F], Ghost(r_con): Ghost<
    Seq<F>,
>) -> (r: F)
    requires
        eq_con@ == poly::eq_table(r_con),
        m@.len() <= eq_con@.len(),
        rows_read(rows(m@), z@.len()),
    ensures
        r == product_at(rows(m@), r_con, z@),
{
    let mut acc: F = field::zero();
    let ghost ms = rows(m@);
    let ghost f = |con: int| poly::eq_weight(r_con, con).times(row_value(ms[con], z@));
    for con in 0..m.len()
        invariant
            ms == rows(m@),
            f == (|con: int| poly::eq_weight(r_con, con).times(row_value(ms[con], z@))),
            eq_con@ == poly::eq_table(r_con),
            m@.len() <= eq_con@.len(),
            rows_read(ms, z@.len()),
            acc == sums::sum(con as int, f),
    {
        assert(ms[con as int] == m@[con as int]@);
        assert forall|j: int| 0 <= j < m@[con as int]@.len() implies (#[trigger] m@[con as int]@[j]).0
            < z@.len() by {
            assert(ms[con as int][j].0 < z@.len());
        }
        acc = acc.add(eq_con[con].mul(row_dot(&m[con], z)));
    }
    acc
}

/// A sparse row's value is the inner product of its dense entries with the assignment.
pub proof fn lemma_row_dense<F: Field>(row: Row<F>, z: Seq<F>)
    requires
        forall|j: int| 0 <= j < row.len() ==> (#[trigger] row[j]).0 < z.len(),
    ensures
        row_value(row, z) == sums::sum(z.len() as int, |var: int| entry(row, var).times(z[var])),
{
    let n = row.len() as int;
    let v = z.len() as int;
    let cell = |j: int, var: int| coefficient_at(row, var, j).times(z[var]);
    let by_row = |j: int| sums::sum(v, |var: int| cell(j, var));
    let by_var = |var: int| sums::sum(n, |j: int| cell(j, var));
    let value = |j: int| row[j].1.times(z[row[j].0 as int]);
    let dense = |var: int| entry(row, var).times(z[var]);
    assert forall|j: int| 0 <= j < n implies #[trigger] value(j) == by_row(j) by {
        let g = |var: int| cell(j, var);
        let k = row[j].0 as int;
        assert(row[j].0 < z.len());
        F::law_valid(row[j].1, z[k]);
        assert forall|var: int| 0 <= var < v && var != k implies #[trigger] g(var) == F::of_int(
            0,
        ) by {
            field::lemma_zero_times(z[var]);
        }
        sums::lemma_sum_single(v, k, g);
    }
    sums::lemma_sum_ext(n, value, by_row);
    sums::lemma_sum_swap(n, v, cell);
    sums::lemma_sum_ext(n, by_row, |i: int| sums::sum(v, |j: int| cell(i, j)));
    sums::lemma_sum_ext(v, by_var, |j: int| sums::sum(n, |i: int| cell(i, j)));
    assert forall|var: int| 0 <= var < v implies #[trigger] by_var(var) == dense(var) by {
        let c = |j: int| coefficient_at(row, var, j);
        sums::lemma_sum_scale_right(n, c, z[var]);
        sums::lemma_sum_ext(n, |j: int| cell(j, var), |j: int| c(j).times(z[var]));
    }
    sums::lemma_sum_ext(v, by_var, dense);
}

/// Folding the product over the constraints is the inner product of the folded columns with the
/// assignment.
pub proof fn law_fold<F: Field>(m: Seq<Row<F>>, r_con: Seq<F>, z: Seq<F>)
    requires
        rows_read(m, z.len()),
    ensures
        product_at(m, r_con, z) == sums::sum(
            z.len() as int,
            |var: int| column_at(m, r_con, var).times(z[var]),
        ),
{
    let n = m.len() as int;
    let v = z.len() as int;
    let cell = |con: int, var: int|
        poly::eq_weight(r_con, con).times(entry(m[con], var)).times(z[var]);
    let value = |con: int| poly::eq_weight(r_con, con).times(row_value(m[con], z));
    let by_con = |con: int| sums::sum(v, |var: int| cell(con, var));
    let by_var = |var: int| sums::sum(n, |con: int| cell(con, var));
    let dense = |var: int| column_at(m, r_con, var).times(z[var]);
    assert forall|con: int| 0 <= con < n implies #[trigger] value(con) == by_con(con) by {
        let row = m[con];
        let w = poly::eq_weight(r_con, con);
        assert forall|j: int| 0 <= j < row.len() implies (#[trigger] row[j]).0 < z.len() by {
            assert(m[con][j].0 < z.len());
        }
        lemma_row_dense(row, z);
        let e = |var: int| entry(row, var).times(z[var]);
        sums::lemma_sum_scale(v, w, e);
        let lhs = |var: int| w.times(e(var));
        let rhs = |var: int| cell(con, var);
        assert forall|var: int| 0 <= var < v implies #[trigger] lhs(var) == rhs(var) by {
            F::law_times_assoc(w, entry(row, var), z[var]);
        }
        sums::lemma_sum_ext(v, lhs, rhs);
    }
    sums::lemma_sum_ext(n, value, by_con);
    sums::lemma_sum_swap(n, v, cell);
    sums::lemma_sum_ext(n, by_con, |i: int| sums::sum(v, |j: int| cell(i, j)));
    sums::lemma_sum_ext(v, by_var, |j: int| sums::sum(n, |i: int| cell(i, j)));
    assert forall|var: int| 0 <= var < v implies #[trigger] by_var(var) == dense(var) by {
        let c = |con: int| poly::eq_weight(r_con, con).times(entry(m[con], var));
        sums::lemma_sum_scale_right(n, c, z[var]);
        sums::lemma_sum_ext(n, |con: int| cell(con, var), |con: int| c(con).times(z[var]));
    }
    sums::lemma_sum_ext(v, by_var, dense);
}

/// Folding the product is the multilinear extension of the padded column of row values.
pub proof fn lemma_fold_is_mle<F: Field>(m: Seq<Row<F>>, r_con: Seq<F>, z: Seq<F>)
    requires
        m.len() <= pow2(r_con.len()),
    ensures
        product_at(m, r_con, z) == sums::sum(
            pow2(r_con.len()) as int,
            |con: int| value_at(m, con, z).times(poly::eq_weight(r_con, con)),
        ),
{
    let n = m.len() as int;
    let rest = pow2(r_con.len()) - n;
    let f = |con: int| value_at(m, con, z).times(poly::eq_weight(r_con, con));
    let value = |con: int| poly::eq_weight(r_con, con).times(row_value(m[con], z));
    sums::lemma_sum_split(n, rest, f);
    let tail = |i: int| f(n + i);
    assert forall|i: int| 0 <= i < rest implies #[trigger] tail(i) == F::of_int(0) by {
        field::lemma_zero_times(poly::eq_weight(r_con, n + i));
    }
    sums::lemma_sum_zero(rest, tail);
    sums::lemma_sum_ext(rest, tail, |i: int| f(n + i));
    assert forall|con: int| 0 <= con < n implies #[trigger] f(con) == value(con) by {
        F::law_times_comm(poly::eq_weight(r_con, con), row_value(m[con], z));
    }
    sums::lemma_sum_ext(n, f, value);
    sums::lemma_sum_valid(n, f);
    F::law_plus_zero(sums::sum(n, f));
}

} // verus!
