//! The constraint system of a whole trace: every cycle has the same constraints on its own block of
//! variables.
//!
//! A row is `(cycle, constraint)` and a column is `(cycle, variable)`, both cycle-major and padded to
//! powers of two.

use crate::field;
use crate::field::Field;
use crate::framework::bits;
use crate::framework::poly;
use crate::framework::sums;
use crate::r1cs::matrices;
use crate::r1cs::matrices::{ConstraintMatrices, Row};
use vstd::arithmetic::power2::pow2;
use vstd::prelude::*;

verus! {

/// The constraints of one cycle and the padded sizes of the whole system.
#[derive(Debug)]
pub struct R1csKey<F> {
    pub matrices: ConstraintMatrices<F>,
    pub num_cycles: usize,
    pub log_cycles: usize,
    pub num_vars_padded: usize,
    pub log_vars: usize,
    pub num_constraints_padded: usize,
    pub log_constraints: usize,
}

/// The weights of the three matrices in a combination.
#[verifier::ext_equal]
pub struct Weights<F> {
    pub a: F,
    pub b: F,
    pub c: F,
}

impl<F: Field> Weights<F> {
    /// The weighted sum of three values.
    pub open spec fn combine(self, x: F, y: F, z: F) -> F {
        self.a.times(x).plus(self.b.times(y)).plus(self.c.times(z))
    }
}

/// The variables of one cycle in a cycle-major assignment.
pub open spec fn block<F>(z: Seq<F>, cycle: int, vars: int) -> Seq<F> {
    Seq::new(vars as nat, |var: int| z[cycle * vars + var])
}

/// The cycle-major column of row values of one matrix.
pub open spec fn matrix_column<F: Field>(
    m: Seq<Row<F>>,
    z: Seq<F>,
    cycles: nat,
    cons: nat,
    vars: nat,
) -> Seq<F> {
    Seq::new(
        cycles * cons,
        |x: int| matrices::value_at(m, x % (cons as int), block(z, x / (cons as int), vars as int)),
    )
}

/// The evaluation of the extension of one matrix of the whole system.
pub open spec fn matrix_mle<F: Field>(
    m: Seq<Row<F>>,
    rx_cycle: Seq<F>,
    rx_con: Seq<F>,
    ry_cycle: Seq<F>,
    ry_var: Seq<F>,
) -> F {
    poly::eq_mle(rx_cycle, ry_cycle).times(
        poly::mle(matrices::columns_at(m, rx_con, pow2(ry_var.len())), ry_var),
    )
}

impl<F: Field> R1csKey<F> {
    /// The sizes fit together.
    pub open spec fn wf(self) -> bool {
        &&& self.matrices.wf()
        &&& self.num_cycles == pow2(self.log_cycles as nat)
        &&& self.num_vars_padded == pow2(self.log_vars as nat)
        &&& self.num_constraints_padded == pow2(self.log_constraints as nat)
        &&& self.matrices.num_vars <= self.num_vars_padded
        &&& self.matrices.num_constraints <= self.num_constraints_padded
        &&& self.num_cycles * self.num_vars_padded <= usize::MAX
        &&& self.num_cycles * self.num_constraints_padded <= usize::MAX
        &&& self.log_cycles + self.log_vars <= usize::MAX
        &&& self.log_cycles + self.log_constraints <= usize::MAX
    }

    /// The number of row variables.
    pub open spec fn row_vars(self) -> nat {
        self.log_cycles as nat + self.log_constraints as nat
    }

    /// The number of column variables.
    pub open spec fn col_vars(self) -> nat {
        self.log_cycles as nat + self.log_vars as nat
    }

    /// The folded columns of the three matrices, combined.
    pub open spec fn combined_columns(self, r_con: Seq<F>, rho: Weights<F>) -> Seq<F> {
        Seq::new(
            self.num_vars_padded as nat,
            |var: int|
                rho.combine(
                    matrices::column_at(self.matrices.a_rows(), r_con, var),
                    matrices::column_at(self.matrices.b_rows(), r_con, var),
                    matrices::column_at(self.matrices.c_rows(), r_con, var),
                ),
        )
    }

    /// The row of the combined matrix at a row point.
    pub open spec fn combined(self, r_x: Seq<F>, rho: Weights<F>) -> Seq<F> {
        poly::tensor(
            poly::eq_table(r_x.take(self.log_cycles as int)),
            self.combined_columns(r_x.skip(self.log_cycles as int), rho),
        )
    }

    /// The evaluation of the extension of one matrix at a row point and a column point.
    pub open spec fn evaluation(self, m: Seq<Row<F>>, r_x: Seq<F>, r_y: Seq<F>) -> F {
        let n = self.log_cycles as int;
        matrix_mle(m, r_x.take(n), r_x.skip(n), r_y.take(n), r_y.skip(n))
    }

    /// The column of row values of one matrix under an assignment.
    pub open spec fn column_of(self, m: Seq<Row<F>>, z: Seq<F>) -> Seq<F> {
        matrix_column(
            m,
            z,
            self.num_cycles as nat,
            self.num_constraints_padded as nat,
            self.num_vars_padded as nat,
        )
    }

    /// The system of a number of cycles, each size padded to a power of two.
    pub fn new(matrices: ConstraintMatrices<F>, num_cycles: usize) -> (r: Self)
        requires
            matrices.wf(),
            bits::cover(num_cycles as nat) * bits::cover(matrices.num_vars as nat) <= usize::MAX,
            bits::cover(num_cycles as nat) * bits::cover(matrices.num_constraints as nat)
                <= usize::MAX,
        ensures
            r.wf(),
            r.matrices == matrices,
            r.log_cycles == bits::ceil_log2(num_cycles as nat),
            r.log_vars == bits::ceil_log2(matrices.num_vars as nat),
            r.log_constraints == bits::ceil_log2(matrices.num_constraints as nat),
    {
        let log_cycles: usize = bits::log2_ceil(num_cycles);
        let log_vars: usize = bits::log2_ceil(matrices.num_vars);
        let log_constraints: usize = bits::log2_ceil(matrices.num_constraints);
        proof {
            vstd::arithmetic::power2::lemma_pow2_pos(log_cycles as nat);
            vstd::arithmetic::power2::lemma_pow2_pos(log_vars as nat);
            vstd::arithmetic::power2::lemma_pow2_pos(log_constraints as nat);
            poly::lemma_factors(pow2(log_cycles as nat), pow2(log_vars as nat));
            poly::lemma_factors(pow2(log_cycles as nat), pow2(log_constraints as nat));
            poly::lemma_pow2_concat(log_cycles as nat, log_vars as nat);
            poly::lemma_pow2_concat(log_cycles as nat, log_constraints as nat);
            poly::lemma_pow2_exceeds(log_cycles as nat + log_vars as nat);
            poly::lemma_pow2_exceeds(log_cycles as nat + log_constraints as nat);
            bits::law_cover(matrices.num_vars as nat);
            bits::law_cover(matrices.num_constraints as nat);
        }
        R1csKey {
            matrices,
            num_cycles: poly::power_of_two(log_cycles),
            log_cycles,
            num_vars_padded: poly::power_of_two(log_vars),
            log_vars,
            num_constraints_padded: poly::power_of_two(log_constraints),
            log_constraints,
        }
    }

    /// The number of cycle variables.
    pub fn num_cycle_vars(&self) -> (r: usize)
        ensures
            r == self.log_cycles,
    {
        self.log_cycles
    }

    /// The number of row variables.
    pub fn num_row_vars(&self) -> (r: usize)
        requires
            self.wf(),
        ensures
            r == self.row_vars(),
    {
        self.log_cycles + self.log_constraints
    }

    /// The number of column variables.
    pub fn num_col_vars(&self) -> (r: usize)
        requires
            self.wf(),
        ensures
            r == self.col_vars(),
    {
        self.log_cycles + self.log_vars
    }

    /// The number of columns.
    pub fn total_cols(&self) -> (r: usize)
        requires
            self.wf(),
        ensures
            r == self.num_cycles * self.num_vars_padded,
            r == pow2(self.col_vars()),
    {
        proof {
            poly::lemma_pow2_concat(self.log_cycles as nat, self.log_vars as nat);
        }
        self.num_cycles * self.num_vars_padded
    }

    /// The dense row of `rho_a A + rho_b B + rho_c C` at a row point.
    pub fn combined_row(&self, r_x: &[F], rho_a: F, rho_b: F, rho_c: F) -> (r: Vec<F>)
        requires
            self.wf(),
            r_x@.len() == self.row_vars(),
        ensures
            r@ == self.combined(r_x@, (Weights { a: rho_a, b: rho_b, c: rho_c })),
    {
        let ghost rho = Weights { a: rho_a, b: rho_b, c: rho_c };
        let (rx_cycle, rx_con) = self.split(r_x);
        let eq_cycle: Vec<F> = poly::eq_evals(&rx_cycle);
        let eq_con: Vec<F> = poly::eq_evals(&rx_con);
        let vars: usize = self.num_vars_padded;
        let ghost g_con = rx_con@;
        let a: Vec<F> = matrices::fold_columns(&self.matrices.a, &eq_con, vars, Ghost(g_con));
        let b: Vec<F> = matrices::fold_columns(&self.matrices.b, &eq_con, vars, Ghost(g_con));
        let c: Vec<F> = matrices::fold_columns(&self.matrices.c, &eq_con, vars, Ghost(g_con));
        let mut columns: Vec<F> = Vec::new();
        for var in 0..vars
            invariant
                self.wf(),
                vars == self.num_vars_padded,
                rho == (Weights { a: rho_a, b: rho_b, c: rho_c }),
                a@ == matrices::columns_at(self.matrices.a_rows(), g_con, vars as nat),
                b@ == matrices::columns_at(self.matrices.b_rows(), g_con, vars as nat),
                c@ == matrices::columns_at(self.matrices.c_rows(), g_con, vars as nat),
                columns@ == self.combined_columns(g_con, rho).take(var as int),
        {
            columns.push(rho_a.mul(a[var]).add(rho_b.mul(b[var])).add(rho_c.mul(c[var])));
            assert(columns@ =~= self.combined_columns(g_con, rho).take(var + 1));
        }
        assert(columns@ =~= self.combined_columns(g_con, rho));
        tensor_product(&eq_cycle, &columns)
    }

    /// Split a point into its cycle part and the rest.
    fn split(&self, r: &[F]) -> (s: (Vec<F>, Vec<F>))
        requires
            self.log_cycles <= r@.len(),
        ensures
            s.0@ == r@.take(self.log_cycles as int),
            s.1@ == r@.skip(self.log_cycles as int),
    {
        let n: usize = r.len();
        let head: Vec<F> = poly::range(r, 0, self.log_cycles);
        let tail: Vec<F> = poly::range(r, self.log_cycles, n);
        assert(head@ =~= r@.take(self.log_cycles as int));
        assert(tail@ =~= r@.skip(self.log_cycles as int));
        (head, tail)
    }

    /// The extensions of the three matrices at a row point and a column point.
    pub fn evaluate_matrix_mles(&self, r_x: &[F], r_y: &[F]) -> (r: (F, F, F))
        requires
            self.wf(),
            r_x@.len() == self.row_vars(),
            r_y@.len() == self.col_vars(),
        ensures
            r.0 == self.evaluation(self.matrices.a_rows(), r_x@, r_y@),
            r.1 == self.evaluation(self.matrices.b_rows(), r_x@, r_y@),
            r.2 == self.evaluation(self.matrices.c_rows(), r_x@, r_y@),
    {
        let (rx_cycle, rx_con) = self.split(r_x);
        let (ry_cycle, ry_var) = self.split(r_y);
        let eq_con: Vec<F> = poly::eq_evals(&rx_con);
        let vars: usize = self.num_vars_padded;
        let ghost g_con = rx_con@;
        let a: Vec<F> = matrices::fold_columns(&self.matrices.a, &eq_con, vars, Ghost(g_con));
        let b: Vec<F> = matrices::fold_columns(&self.matrices.b, &eq_con, vars, Ghost(g_con));
        let c: Vec<F> = matrices::fold_columns(&self.matrices.c, &eq_con, vars, Ghost(g_con));
        let eq_cycle: F = poly::eq_at(&rx_cycle, &ry_cycle);
        (
            eq_cycle.mul(poly::evaluate(&a, &ry_var)),
            eq_cycle.mul(poly::evaluate(&b, &ry_var)),
            eq_cycle.mul(poly::evaluate(&c, &ry_var)),
        )
    }

    /// The three matrix-vector products of one cycle's constraints, folded at a constraint point.
    pub fn evaluate_sparse_matvec(&self, r_con: &[F], z: &[F]) -> (r: (F, F, F))
        requires
            self.wf(),
            r_con@.len() == self.log_constraints,
            z@.len() == self.num_vars_padded,
        ensures
            r.0 == matrices::product_at(self.matrices.a_rows(), r_con@, z@),
            r.1 == matrices::product_at(self.matrices.b_rows(), r_con@, z@),
            r.2 == matrices::product_at(self.matrices.c_rows(), r_con@, z@),
    {
        let eq_con: Vec<F> = poly::eq_evals(r_con);
        let ghost g_con = r_con@;
        (
            matrices::fold_product(&self.matrices.a, &eq_con, z, Ghost(g_con)),
            matrices::fold_product(&self.matrices.b, &eq_con, z, Ghost(g_con)),
            matrices::fold_product(&self.matrices.c, &eq_con, z, Ghost(g_con)),
        )
    }
}

/// The tensor product of two columns, first-major.
fn tensor_product<F: Field>(a: &[F], b: &[F]) -> (r: Vec<F>)
    requires
        a@.len() * b@.len() <= usize::MAX,
    ensures
        r@ == poly::tensor(a@, b@),
{
    let n: usize = a.len();
    let m: usize = b.len();
    let mut out: Vec<F> = Vec::new();
    let ghost whole = poly::tensor(a@, b@);
    assert(0 * m == 0) by (nonlinear_arith);
    assert(out@ =~= whole.take(0));
    for i in 0..n
        invariant
            n == a@.len(),
            m == b@.len(),
            whole == poly::tensor(a@, b@),
            out@.len() == i * m,
            out@ == whole.take(i * m),
    {
        proof {
            poly::lemma_row_bound(i as int, n as int, m as int);
        }
        for j in 0..m
            invariant
                n == a@.len(),
                m == b@.len(),
                i < n,
                whole == poly::tensor(a@, b@),
                0 <= i * m,
                i * m + m <= whole.len(),
                out@ == whole.take(i * m + j),
        {
            proof {
                poly::lemma_block_index(i as int, m as int, j as int);
            }
            out.push(a[i].mul(b[j]));
            assert(out@ =~= whole.take(i * m + j + 1));
        }
        assert((i + 1) * m == i * m + m) by (nonlinear_arith);
    }
    assert(out@ =~= whole);
    out
}

/// The combined row evaluates to the combination of the matrix evaluations.
pub proof fn law_combined_mle<F: Field>(key: R1csKey<F>, r_x: Seq<F>, rho: Weights<F>, r_y: Seq<F>)
    requires
        key.wf(),
        r_x.len() == key.row_vars(),
        r_y.len() == key.col_vars(),
    ensures
        poly::mle(key.combined(r_x, rho), r_y) == rho.combine(
            key.evaluation(key.matrices.a_rows(), r_x, r_y),
            key.evaluation(key.matrices.b_rows(), r_x, r_y),
            key.evaluation(key.matrices.c_rows(), r_x, r_y),
        ),
{
    let n = key.log_cycles as int;
    let rx_cycle = r_x.take(n);
    let rx_con = r_x.skip(n);
    let ry_cycle = r_y.take(n);
    let ry_var = r_y.skip(n);
    let vars = pow2(ry_var.len());
    let a = matrices::columns_at(key.matrices.a_rows(), rx_con, vars);
    let b = matrices::columns_at(key.matrices.b_rows(), rx_con, vars);
    let c = matrices::columns_at(key.matrices.c_rows(), rx_con, vars);
    let columns = key.combined_columns(rx_con, rho);
    assert(ry_cycle + ry_var =~= r_y);
    poly::lemma_mle_tensor(poly::eq_table(rx_cycle), columns, ry_cycle, ry_var);
    poly::lemma_mle_eq_table(rx_cycle, ry_cycle);
    let sa = Seq::new(vars, |i: int| rho.a.times(a[i]));
    let sb = Seq::new(vars, |i: int| rho.b.times(b[i]));
    let sc = Seq::new(vars, |i: int| rho.c.times(c[i]));
    let sab = Seq::new(vars, |i: int| sa[i].plus(sb[i]));
    poly::lemma_mle_scale(rho.a, a, sa, ry_var);
    poly::lemma_mle_scale(rho.b, b, sb, ry_var);
    poly::lemma_mle_scale(rho.c, c, sc, ry_var);
    poly::lemma_mle_plus(sa, sb, sab, ry_var);
    poly::lemma_mle_plus(sab, sc, columns, ry_var);
    let e = poly::eq_mle(rx_cycle, ry_cycle);
    lemma_weigh(e, rho, poly::mle(a, ry_var), poly::mle(b, ry_var), poly::mle(c, ry_var));
}

/// A factor moves inside a weighted sum.
proof fn lemma_weigh<F: Field>(e: F, rho: Weights<F>, x: F, y: F, z: F)
    ensures
        e.times(rho.combine(x, y, z)) == rho.combine(e.times(x), e.times(y), e.times(z)),
{
    F::law_distrib(e, rho.a.times(x).plus(rho.b.times(y)), rho.c.times(z));
    F::law_distrib(e, rho.a.times(x), rho.b.times(y));
    field::lemma_times_swap(e, rho.a, x);
    field::lemma_times_swap(e, rho.b, y);
    field::lemma_times_swap(e, rho.c, z);
}

/// A factor on the right moves inside a weighted sum.
proof fn lemma_weigh_right<F: Field>(rho: Weights<F>, x: F, y: F, z: F, e: F)
    ensures
        rho.combine(x, y, z).times(e) == rho.combine(x.times(e), y.times(e), z.times(e)),
{
    lemma_weigh(e, rho, x, y, z);
    F::law_times_comm(e, rho.combine(x, y, z));
    F::law_times_comm(e, x);
    F::law_times_comm(e, y);
    F::law_times_comm(e, z);
}

/// The inner product of one matrix row at a row point with the assignment is the extension of the
/// matrix-vector product at that point.
proof fn lemma_matrix_row<F: Field>(
    m: Seq<Row<F>>,
    rx_cycle: Seq<F>,
    rx_con: Seq<F>,
    z: Seq<F>,
    vars: nat,
)
    requires
        matrices::rows_read(m, vars),
        m.len() <= pow2(rx_con.len()),
        vars > 0,
        z.len() == pow2(rx_cycle.len()) * vars,
    ensures
        poly::mle(
            matrix_column(m, z, pow2(rx_cycle.len()), pow2(rx_con.len()), vars),
            rx_cycle + rx_con,
        ) == sums::sum(
            z.len() as int,
            |y: int|
                poly::tensor(
                    poly::eq_table(rx_cycle),
                    matrices::columns_at(m, rx_con, vars),
                )[y].times(z[y]),
        ),
{
    let cycles = pow2(rx_cycle.len());
    let cons = pow2(rx_con.len());
    vstd::arithmetic::power2::lemma_pow2_pos(rx_con.len());
    let col = matrix_column(m, z, cycles, cons, vars);
    let cols = matrices::columns_at(m, rx_con, vars);
    let row = poly::tensor(poly::eq_table(rx_cycle), cols);
    poly::lemma_mle_matrix(col, rx_cycle, rx_con);
    let f = |y: int| row[y].times(z[y]);
    sums::lemma_sum_blocks(cycles as int, vars as int, f);
    let lhs = |k: int|
        poly::eq_weight(rx_cycle, k).times(
            sums::sum(cons as int, |j: int| col[k * cons + j].times(poly::eq_weight(rx_con, j))),
        );
    let rhs = |k: int| sums::sum(vars as int, |j: int| f(k * vars + j));
    assert forall|k: int| 0 <= k < cycles implies #[trigger] lhs(k) == rhs(k) by {
        let zk = block(z, k, vars as int);
        let w = poly::eq_weight(rx_cycle, k);
        let column = |j: int| col[k * cons + j].times(poly::eq_weight(rx_con, j));
        let padded = |con: int| matrices::value_at(m, con, zk).times(poly::eq_weight(rx_con, con));
        assert forall|j: int| 0 <= j < cons implies #[trigger] column(j) == padded(j) by {
            poly::lemma_block_index(k, cons as int, j);
            poly::lemma_row_bound(k, cycles as int, cons as int);
        }
        sums::lemma_sum_ext(cons as int, column, padded);
        matrices::lemma_fold_is_mle(m, rx_con, zk);
        matrices::law_fold(m, rx_con, zk);
        let dense = |var: int| matrices::column_at(m, rx_con, var).times(zk[var]);
        sums::lemma_sum_scale(vars as int, w, dense);
        let scaled = |var: int| w.times(dense(var));
        let cells = |j: int| f(k * vars + j);
        assert forall|j: int| 0 <= j < vars implies #[trigger] scaled(j) == cells(j) by {
            poly::lemma_block_index(k, vars as int, j);
            poly::lemma_row_bound(k, cycles as int, vars as int);
            F::law_times_assoc(w, cols[j], zk[j]);
        }
        sums::lemma_sum_ext(vars as int, scaled, cells);
    }
    sums::lemma_sum_ext(cycles as int, lhs, rhs);
}

/// The inner product of the combined row with an assignment is the combination of the three
/// matrix-vector products at the row point.
pub proof fn law_combined_row<F: Field>(key: R1csKey<F>, r_x: Seq<F>, rho: Weights<F>, z: Seq<F>)
    requires
        key.wf(),
        r_x.len() == key.row_vars(),
        z.len() == pow2(key.col_vars()),
    ensures
        sums::dot(key.combined(r_x, rho), z) == rho.combine(
            poly::mle(key.column_of(key.matrices.a_rows(), z), r_x),
            poly::mle(key.column_of(key.matrices.b_rows(), z), r_x),
            poly::mle(key.column_of(key.matrices.c_rows(), z), r_x),
        ),
{
    let n = key.log_cycles as int;
    let rx_cycle = r_x.take(n);
    let rx_con = r_x.skip(n);
    let vars = key.num_vars_padded as nat;
    let len = z.len() as int;
    poly::lemma_pow2_concat(key.log_cycles as nat, key.log_vars as nat);
    vstd::arithmetic::power2::lemma_pow2_pos(key.log_vars as nat);
    assert(rx_cycle + rx_con =~= r_x);
    lemma_matrix_row(key.matrices.a_rows(), rx_cycle, rx_con, z, vars);
    lemma_matrix_row(key.matrices.b_rows(), rx_cycle, rx_con, z, vars);
    lemma_matrix_row(key.matrices.c_rows(), rx_cycle, rx_con, z, vars);
    let eq = poly::eq_table(rx_cycle);
    let a = poly::tensor(eq, matrices::columns_at(key.matrices.a_rows(), rx_con, vars));
    let b = poly::tensor(eq, matrices::columns_at(key.matrices.b_rows(), rx_con, vars));
    let c = poly::tensor(eq, matrices::columns_at(key.matrices.c_rows(), rx_con, vars));
    let row = key.combined(r_x, rho);
    let fa = |y: int| a[y].times(z[y]);
    let fb = |y: int| b[y].times(z[y]);
    let fc = |y: int| c[y].times(z[y]);
    let wa = |y: int| rho.a.times(fa(y));
    let wb = |y: int| rho.b.times(fb(y));
    let wc = |y: int| rho.c.times(fc(y));
    let wab = |y: int| wa(y).plus(wb(y));
    let whole = |y: int| wab(y).plus(wc(y));
    let f = |y: int| row[y].times(z[y]);
    assert forall|y: int| 0 <= y < len implies #[trigger] f(y) == whole(y) by {
        let k = y / (vars as int);
        let var = y % (vars as int);
        assert(0 <= var < vars);
        poly::lemma_quotient_in_range(y, key.num_cycles as int, vars as int);
        let x = matrices::column_at(key.matrices.a_rows(), rx_con, var);
        let yy = matrices::column_at(key.matrices.b_rows(), rx_con, var);
        let zz = matrices::column_at(key.matrices.c_rows(), rx_con, var);
        lemma_weigh(eq[k], rho, x, yy, zz);
        lemma_weigh_right(rho, eq[k].times(x), eq[k].times(yy), eq[k].times(zz), z[y]);
    }
    sums::lemma_sum_ext(len, f, whole);
    sums::lemma_sum_plus(len, wab, wc);
    sums::lemma_sum_plus(len, wa, wb);
    sums::lemma_sum_scale(len, rho.a, fa);
    sums::lemma_sum_scale(len, rho.b, fb);
    sums::lemma_sum_scale(len, rho.c, fc);
    assert(row.len() == len);
    sums::lemma_sum_ext(len, wa, |y: int| rho.a.times(fa(y)));
    sums::lemma_sum_ext(len, wab, |y: int| wa(y).plus(wb(y)));
}

/// A matrix-vector product is canonical.
pub proof fn lemma_column_valid<F: Field>(key: R1csKey<F>, m: Seq<Row<F>>, z: Seq<F>)
    ensures
        field::all_valid(key.column_of(m, z)),
{
    let column = key.column_of(m, z);
    let cons = key.num_constraints_padded as int;
    let vars = key.num_vars_padded as int;
    assert forall|x: int| 0 <= x < column.len() implies (#[trigger] column[x]).valid() by {
        let row = m[x % cons];
        let zc = block(z, x / cons, vars);
        F::law_of_int_valid(0);
        sums::lemma_sum_valid(
            row.len() as int,
            |j: int| row[j].1.times(zc[row[j].0 as int]),
        );
    }
}

} // verus!
