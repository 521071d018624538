//! Batched sumchecks.
//!
//! Several sumchecks are run as one over the largest number of variables. A smaller table is
//! stretched: its own variables are the last ones bound, so the sumchecks share the challenges of
//! their last rounds. The sums are combined with random coefficients, each scaled by the number of
//! times its table was stretched.

use crate::field;
use crate::field::Field;
use crate::framework::formula;
use crate::framework::formula::Formula;
use crate::framework::poly;
use crate::framework::poly::MultilinearPolynomial;
use crate::framework::sumcheck;
use crate::framework::sumcheck::{
    EvaluationClaim, SumTable, SumcheckClaim, SumcheckError, VirtualSum,
};
use crate::framework::sums;
use crate::framework::transcript;
use crate::framework::transcript::{FsState, ProverFs, VerifierFs};
use vstd::arithmetic::power2::pow2;
use vstd::prelude::*;

verus! {

/// A table of a batch, with its number of variables.
#[verifier::reject_recursive_types(F)]
pub struct Part<F> {
    pub table: SumTable<F>,
    pub vars: nat,
}

/// The number of columns of the first `i` parts.
pub open spec fn base<F: Field>(parts: Seq<Part<F>>, i: int) -> nat
    decreases i,
{
    if i <= 0 {
        0
    } else {
        base(parts, i - 1) + parts[i - 1].table.columns.len()
    }
}

/// The columns of a part, stretched to `n` variables.
pub open spec fn stretched_columns<F: Field>(part: Part<F>, n: nat) -> Seq<Seq<F>> {
    part.table.columns.map_values(|p: Seq<F>| poly::stretch(p, pow2((n - part.vars) as nat)))
}

/// The stretched columns of the first `i` parts.
pub open spec fn columns<F: Field>(parts: Seq<Part<F>>, n: nat, i: int) -> Seq<Seq<F>>
    decreases i,
{
    if i <= 0 {
        Seq::empty()
    } else {
        columns(parts, n, i - 1) + stretched_columns(parts[i - 1], n)
    }
}

/// The scaled formula of part `i`.
pub open spec fn term<F: Field>(parts: Seq<Part<F>>, coeffs: Seq<F>, i: int) -> Formula<F> {
    formula::times(formula::con(coeffs[i]), parts[i].table.formula.shift(base(parts, i)))
}

/// The table of a batch of `n` variables with the given coefficients.
pub open spec fn combined<F: Field>(parts: Seq<Part<F>>, n: nat, coeffs: Seq<F>) -> SumTable<F> {
    SumTable {
        columns: columns(parts, n, parts.len() as int),
        formula: formula::sum_of(parts.len() as int, |i: int| term(parts, coeffs, i)),
    }
}

/// Every part is a table of at most `n` variables.
pub open spec fn parts_shaped<F: Field>(parts: Seq<Part<F>>, n: nat) -> bool {
    &&& parts.len() > 0
    &&& base(parts, parts.len() as int) <= usize::MAX
    &&& forall|i: int|
        0 <= i < parts.len() ==> (#[trigger] parts[i]).vars <= n && parts[i].table.shaped(
            parts[i].vars,
        )
}

proof fn lemma_base_monotone<F: Field>(parts: Seq<Part<F>>, i: int, j: int)
    requires
        0 <= i <= j,
    ensures
        base(parts, i) <= base(parts, j),
    decreases j,
{
    if i < j {
        lemma_base_monotone(parts, i, j - 1);
    }
}

/// Where the columns of part `i` stand.
proof fn lemma_columns<F: Field>(parts: Seq<Part<F>>, n: nat, count: int, i: int, c: int)
    requires
        0 <= i < count <= parts.len(),
        0 <= c < parts[i].table.columns.len(),
    ensures
        columns(parts, n, count).len() == base(parts, count),
        base(parts, i) + c < base(parts, count),
        columns(parts, n, count)[base(parts, i) + c] == poly::stretch(
            parts[i].table.columns[c],
            pow2((n - parts[i].vars) as nat),
        ),
    decreases count,
{
    lemma_columns_len(parts, n, count);
    lemma_columns_len(parts, n, count - 1);
    if i == count - 1 {
    } else {
        lemma_columns(parts, n, count - 1, i, c);
    }
}

proof fn lemma_columns_len<F: Field>(parts: Seq<Part<F>>, n: nat, count: int)
    ensures
        columns(parts, n, count).len() == base(parts, count),
    decreases count,
{
    if count > 0 {
        lemma_columns_len(parts, n, count - 1);
    }
}

/// Every column of the first parts is a stretched column.
proof fn lemma_columns_all<F: Field>(parts: Seq<Part<F>>, n: nat, count: int)
    requires
        0 <= count <= parts.len(),
        forall|i: int|
            0 <= i < parts.len() ==> (#[trigger] parts[i]).vars <= n && parts[i].table.shaped(
                parts[i].vars,
            ),
    ensures
        forall|x: int|
            0 <= x < columns(parts, n, count).len() ==> (#[trigger] columns(
                parts,
                n,
                count,
            )[x]).len() == pow2(n),
        (forall|i: int| 0 <= i < parts.len() ==> (#[trigger] parts[i]).table.canonical()) ==> (
        forall|x: int|
            0 <= x < columns(parts, n, count).len() ==> field::all_valid(
                #[trigger] columns(parts, n, count)[x],
            )),
    decreases count,
{
    if count > 0 {
        lemma_columns_all(parts, n, count - 1);
        let part = parts[count - 1];
        let m = pow2((n - part.vars) as nat);
        poly::lemma_pow2_concat(part.vars, (n - part.vars) as nat);
        vstd::arithmetic::power2::lemma_pow2_pos((n - part.vars) as nat);
        let prev = columns(parts, n, count - 1);
        let cur = columns(parts, n, count);
        assert forall|x: int| 0 <= x < cur.len() implies (#[trigger] cur[x]).len() == pow2(n) by {
            if x < prev.len() {
                assert(cur[x] == prev[x]);
            } else {
                let c = x - prev.len();
                assert(cur[x] == poly::stretch(part.table.columns[c], m));
                assert(part.table.columns[c].len() == pow2(part.vars));
            }
        }
        if forall|i: int| 0 <= i < parts.len() ==> (#[trigger] parts[i]).table.canonical() {
            assert forall|x: int| 0 <= x < cur.len() implies field::all_valid(
                #[trigger] cur[x],
            ) by {
                if x < prev.len() {
                    assert(cur[x] == prev[x]);
                } else {
                    let c = x - prev.len();
                    let p = part.table.columns[c];
                    assert(part.table.canonical());
                    assert(field::all_valid(p));
                    assert(cur[x] == poly::stretch(p, m));
                    assert forall|j: int| 0 <= j < cur[x].len() implies (
                    #[trigger] cur[x][j]).valid() by {
                        poly::lemma_quotient_in_range(j, p.len() as int, m as int);
                        assert(p[j / (m as int)].valid());
                    }
                }
            }
        }
    }
}

/// The terms of a batch read its columns, keep the degrees, and are canonical when their parts
/// and coefficients are.
proof fn lemma_terms<F: Field>(parts: Seq<Part<F>>, n: nat, coeffs: Seq<F>, row: Seq<F>)
    requires
        parts_shaped(parts, n),
        row.len() == base(parts, parts.len() as int),
    ensures
        forall|i: int|
            0 <= i < parts.len() ==> (#[trigger] term(parts, coeffs, i)).reads(row.len()) && term(
                parts,
                coeffs,
                i,
            ).degree() == parts[i].table.formula.degree() && term(parts, coeffs, i).value(row)
                == coeffs[i].times(
                parts[i].table.formula.value(
                    row.subrange(
                        base(parts, i) as int,
                        (base(parts, i) + parts[i].table.columns.len()) as int,
                    ),
                ),
            ) && (coeffs[i].valid() && parts[i].table.canonical() ==> term(
                parts,
                coeffs,
                i,
            ).canonical()),
{
    assert forall|i: int| 0 <= i < parts.len() implies (#[trigger] term(parts, coeffs, i)).reads(
        row.len(),
    ) && term(parts, coeffs, i).degree() == parts[i].table.formula.degree() && term(
        parts,
        coeffs,
        i,
    ).value(row) == coeffs[i].times(
        parts[i].table.formula.value(
            row.subrange(
                base(parts, i) as int,
                (base(parts, i) + parts[i].table.columns.len()) as int,
            ),
        ),
    ) && (coeffs[i].valid() && parts[i].table.canonical() ==> term(
        parts,
        coeffs,
        i,
    ).canonical()) by {
        let part = parts[i];
        assert(part.table.shaped(part.vars));
        lemma_base_monotone(parts, i + 1, parts.len() as int);
        assert(base(parts, i + 1) == base(parts, i) + part.table.columns.len());
        formula::lemma_shift(part.table.formula, base(parts, i), part.table.columns.len(), row);
        let shifted = part.table.formula.shift(base(parts, i));
        reveal_with_fuel(Formula::reads, 2);
        reveal_with_fuel(Formula::degree, 2);
        reveal_with_fuel(Formula::value, 2);
        reveal_with_fuel(Formula::canonical, 2);
        assert(term(parts, coeffs, i) == formula::times(formula::con(coeffs[i]), shifted));
    }
}

/// The largest degree of a batch.
pub open spec fn batch_degree<F: Field>(parts: Seq<Part<F>>, i: int) -> nat
    decreases i,
{
    if i <= 0 {
        0
    } else {
        crate::framework::univariate::longer(
            batch_degree(parts, i - 1),
            parts[i - 1].table.formula.degree(),
        )
    }
}

proof fn lemma_batch_degree<F: Field>(parts: Seq<Part<F>>, coeffs: Seq<F>, i: int)
    requires
        0 <= i <= parts.len(),
        forall|j: int|
            0 <= j < parts.len() ==> (#[trigger] term(parts, coeffs, j)).degree()
                == parts[j].table.formula.degree(),
    ensures
        formula::max_degree(i, |j: int| term(parts, coeffs, j)) == batch_degree(parts, i),
    decreases i,
{
    if i > 0 {
        lemma_batch_degree(parts, coeffs, i - 1);
        assert(term(parts, coeffs, i - 1).degree() == parts[i - 1].table.formula.degree());
    }
}

pub proof fn lemma_combined_shaped<F: Field>(parts: Seq<Part<F>>, n: nat, coeffs: Seq<F>)
    requires
        parts_shaped(parts, n),
        coeffs.len() == parts.len(),
    ensures
        combined(parts, n, coeffs).shaped(n),
        combined(parts, n, coeffs).formula.degree() == batch_degree(parts, parts.len() as int),
        field::all_valid(coeffs) && (forall|i: int|
            0 <= i < parts.len() ==> (#[trigger] parts[i]).table.canonical()) ==> combined(
            parts,
            n,
            coeffs,
        ).canonical(),
{
    let count = parts.len() as int;
    let t = combined(parts, n, coeffs);
    let f = |i: int| term(parts, coeffs, i);
    let row = Seq::new(base(parts, count), |i: int| F::of_int(0));
    lemma_columns_len(parts, n, count);
    lemma_columns_all(parts, n, count);
    lemma_terms(parts, n, coeffs, row);
    assert forall|i: int| 0 <= i < count implies (#[trigger] f(i)).reads(row.len()) by {
        assert(term(parts, coeffs, i).reads(row.len()));
    }
    formula::lemma_sum_of(count, f, row.len(), row);
    lemma_batch_degree(parts, coeffs, count);
    assert(parts[0].table.shaped(parts[0].vars));
    lemma_base_monotone(parts, 1, count);
    assert(base(parts, 1) == base(parts, 0) + parts[0].table.columns.len());
    assert(t.columns.len() > 0);
    if field::all_valid(coeffs) && (forall|i: int|
        0 <= i < parts.len() ==> (#[trigger] parts[i]).table.canonical()) {
        assert forall|i: int| 0 <= i < count implies (#[trigger] f(i)).canonical() by {
            assert(coeffs[i].valid());
            assert(parts[i].table.canonical());
            assert(term(parts, coeffs, i).canonical());
        }
    }
}

/// `m` times `c`.
proof fn lemma_sum_constant<F: Field>(m: nat, c: F)
    requires
        c.valid(),
    ensures
        sums::sum(m as int, |i: int| c) == F::of_int(m as int).times(c),
    decreases m,
{
    if m > 0 {
        lemma_sum_constant((m - 1) as nat, c);
        field::lemma_distrib_right(c, F::of_int(m - 1), F::of_int(1));
        field::lemma_one_times(c);
        F::law_of_int_plus(m - 1, 1);
    } else {
        field::lemma_zero_times(c);
    }
}

/// How often a part is counted in a batch of `n` variables.
pub open spec fn weight<F: Field>(n: nat, vars: nat) -> F {
    F::of_int(pow2((n - vars) as nat) as int)
}

/// The sum of a batch is the combination of the sums of its parts.
pub proof fn law_batch_total<F: Field>(parts: Seq<Part<F>>, n: nat, coeffs: Seq<F>)
    requires
        parts_shaped(parts, n),
        coeffs.len() == parts.len(),
        forall|i: int| 0 <= i < parts.len() ==> (#[trigger] parts[i]).table.canonical(),
    ensures
        combined(parts, n, coeffs).total() == sums::sum(
            parts.len() as int,
            |i: int|
                coeffs[i].times(
                    weight::<F>(n, parts[i].vars).times(parts[i].table.total()),
                ),
        ),
{
    let count = parts.len() as int;
    let t = combined(parts, n, coeffs);
    let size = pow2(n) as int;
    lemma_combined_shaped(parts, n, coeffs);
    lemma_columns_len(parts, n, count);
    assert(t.columns[0].len() == pow2(n));
    let f = |i: int| term(parts, coeffs, i);
    let val = |x: int| t.formula.value(t.row(x));
    let cell = |x: int, i: int|
        coeffs[i].times(
            parts[i].table.formula.value(
                parts[i].table.row(x / (pow2((n - parts[i].vars) as nat) as int)),
            ),
        );
    let rows = |x: int| sums::sum(count, |i: int| cell(x, i));
    assert forall|x: int| 0 <= x < size implies #[trigger] val(x) == rows(x) by {
        let row = t.row(x);
        lemma_terms(parts, n, coeffs, row);
        assert forall|i: int| 0 <= i < count implies (#[trigger] f(i)).reads(row.len()) by {
            assert(term(parts, coeffs, i).reads(row.len()));
        }
        formula::lemma_sum_of(count, f, row.len(), row);
        let lhs = |i: int| f(i).value(row);
        let rhs = |i: int| cell(x, i);
        assert forall|i: int| 0 <= i < count implies #[trigger] lhs(i) == rhs(i) by {
            assert(term(parts, coeffs, i).reads(row.len()));
            let part = parts[i];
            let m = pow2((n - part.vars) as nat) as int;
            let b = base(parts, i) as int;
            let len = part.table.columns.len() as int;
            lemma_base_monotone(parts, i + 1, count);
            assert(base(parts, i + 1) == base(parts, i) + part.table.columns.len());
            poly::lemma_pow2_concat(part.vars, (n - part.vars) as nat);
            vstd::arithmetic::power2::lemma_pow2_pos((n - part.vars) as nat);
            let sub = row.subrange(b, b + len);
            let own = part.table.row(x / m);
            assert(sub =~= own) by {
                assert forall|c: int| 0 <= c < len implies #[trigger] sub[c] == own[c] by {
                    lemma_columns(parts, n, count, i, c);
                    assert(part.table.shaped(part.vars));
                    assert(part.table.columns[c].len() == pow2(part.vars));
                }
            }
        }
        sums::lemma_sum_ext(count, lhs, rhs);
    }
    sums::lemma_sum_ext(size, val, rows);
    sums::lemma_sum_swap(size, count, cell);
    let per_part = |i: int| sums::sum(size, |x: int| cell(x, i));
    let target = |i: int|
        coeffs[i].times(weight::<F>(n, parts[i].vars).times(parts[i].table.total()));
    assert forall|i: int| 0 <= i < count implies #[trigger] per_part(i) == target(i) by {
        let part = parts[i];
        let m = pow2((n - part.vars) as nat);
        let own = |j: int| part.table.formula.value(part.table.row(j));
        let g = |x: int| own(x / (m as int));
        vstd::arithmetic::power2::lemma_pow2_pos((n - part.vars) as nat);
        poly::lemma_pow2_concat(part.vars, (n - part.vars) as nat);
        assert(part.table.shaped(part.vars));
        assert(part.table.canonical());
        assert(part.table.columns[0].len() == pow2(part.vars));
        let k = pow2(part.vars) as int;
        sums::lemma_sum_scale(size, coeffs[i], g);
        sums::lemma_sum_ext(size, |x: int| cell(x, i), |x: int| coeffs[i].times(g(x)));
        sums::lemma_sum_blocks(k, m as int, g);
        let blocks = |a: int| sums::sum(m as int, |j: int| g(a * m + j));
        let scaled = |a: int| F::of_int(m as int).times(own(a));
        assert forall|a: int| 0 <= a < k implies #[trigger] blocks(a) == scaled(a) by {
            let c = own(a);
            let row = part.table.row(a);
            assert(field::all_valid(row)) by {
                assert forall|q: int| 0 <= q < row.len() implies (#[trigger] row[q]).valid() by {
                    assert(field::all_valid(part.table.columns[q]));
                    assert(part.table.columns[q].len() == pow2(part.vars));
                }
            }
            formula::lemma_formula_valid(part.table.formula, row);
            let inner = |j: int| g(a * m + j);
            let flat = |j: int| c;
            assert forall|j: int| 0 <= j < m implies #[trigger] inner(j) == flat(j) by {
                poly::lemma_block_index(a, m as int, j);
            }
            sums::lemma_sum_ext(m as int, inner, flat);
            lemma_sum_constant(m, c);
        }
        sums::lemma_sum_ext(k, blocks, scaled);
        sums::lemma_sum_scale(k, F::of_int(m as int), own);
    }
    sums::lemma_sum_ext(count, per_part, target);
}

/// A batch reduces to the combination of what its parts reduce to at the challenges of their own
/// rounds.
pub proof fn law_batch_output<F: Field>(parts: Seq<Part<F>>, n: nat, coeffs: Seq<F>, xs: Seq<F>)
    requires
        parts_shaped(parts, n),
        coeffs.len() == parts.len(),
        xs.len() == n,
        forall|i: int| 0 <= i < parts.len() ==> (#[trigger] parts[i]).table.canonical(),
    ensures
        combined(parts, n, coeffs).formula.value(
            sumcheck::final_row(combined(parts, n, coeffs).columns, xs),
        ) == sums::sum(
            parts.len() as int,
            |i: int|
                coeffs[i].times(
                    parts[i].table.formula.value(
                        sumcheck::final_row(
                            parts[i].table.columns,
                            xs.skip(n - parts[i].vars),
                        ),
                    ),
                ),
        ),
{
    let count = parts.len() as int;
    let t = combined(parts, n, coeffs);
    let row = sumcheck::final_row(t.columns, xs);
    let f = |i: int| term(parts, coeffs, i);
    lemma_columns_len(parts, n, count);
    lemma_terms(parts, n, coeffs, row);
    assert forall|i: int| 0 <= i < count implies (#[trigger] f(i)).reads(row.len()) by {
        assert(term(parts, coeffs, i).reads(row.len()));
    }
    formula::lemma_sum_of(count, f, row.len(), row);
    let lhs = |i: int| f(i).value(row);
    let rhs = |i: int|
        coeffs[i].times(
            parts[i].table.formula.value(
                sumcheck::final_row(parts[i].table.columns, xs.skip(n - parts[i].vars)),
            ),
        );
    assert forall|i: int| 0 <= i < count implies #[trigger] lhs(i) == rhs(i) by {
        assert(term(parts, coeffs, i).reads(row.len()));
        let part = parts[i];
        assert(part.table.shaped(part.vars));
        assert(part.table.canonical());
        let k = n - part.vars;
        let own = xs.skip(k);
        let b = base(parts, i) as int;
        let len = part.table.columns.len() as int;
        let y = xs.reverse();
        let ya = own.reverse();
        let yb = xs.take(k).reverse();
        assert(y =~= ya + yb);
        lemma_base_monotone(parts, i + 1, count);
        assert(base(parts, i + 1) == base(parts, i) + part.table.columns.len());
        let sub = row.subrange(b, b + len);
        let last = sumcheck::final_row(part.table.columns, own);
        assert(sub =~= last) by {
            assert forall|c: int| 0 <= c < len implies #[trigger] sub[c] == last[c] by {
                lemma_columns(parts, n, count, i, c);
                let p = part.table.columns[c];
                assert(field::all_valid(p));
                assert(p.len() == pow2(part.vars));
                poly::lemma_mle_stretch(p, ya, yb);
            }
        }
    }
    sums::lemma_sum_ext(count, lhs, rhs);
}

/// Sumchecks collected into one batch.
#[verifier::reject_recursive_types(F)]
pub struct Batch<F: Field> {
    num_vars: usize,
    columns: Vec<MultilinearPolynomial<F>>,
    formulas: Vec<Formula<F>>,
    claims: Vec<F>,
    parts: Ghost<Seq<Part<F>>>,
}

impl<F: Field> Batch<F> {
    /// The largest number of variables.
    pub closed spec fn vars(self) -> nat {
        self.num_vars as nat
    }

    /// The tables of the batch.
    pub closed spec fn parts(self) -> Seq<Part<F>> {
        self.parts@
    }

    /// The claims of the batch.
    pub closed spec fn claims(self) -> Seq<F> {
        self.claims@
    }

    /// The stored columns and formulas are those of the tables.
    pub closed spec fn wf(self) -> bool {
        let parts = self.parts@;
        &&& self.columns@.map_values(|p: MultilinearPolynomial<F>| p@) == columns(
            parts,
            self.num_vars as nat,
            parts.len() as int,
        )
        &&& self.formulas@.len() == parts.len()
        &&& self.claims@.len() == parts.len()
        &&& forall|i: int|
            0 <= i < parts.len() ==> (#[trigger] self.formulas@[i])
                == parts[i].table.formula.shift(base(parts, i))
        &&& forall|i: int|
            0 <= i < parts.len() ==> (#[trigger] parts[i]).vars <= self.num_vars
                && parts[i].table.shaped(parts[i].vars)
        &&& base(parts, parts.len() as int) <= usize::MAX
        &&& pow2(self.num_vars as nat) <= usize::MAX
    }

    /// An empty batch of `num_vars` variables.
    pub fn new(num_vars: usize) -> (r: Self)
        requires
            pow2(num_vars as nat) <= usize::MAX,
        ensures
            r.wf(),
            r.vars() == num_vars,
            r.parts() == Seq::<Part<F>>::empty(),
            r.claims() == Seq::<F>::empty(),
    {
        let r: Batch<F> = Batch {
            num_vars,
            columns: Vec::new(),
            formulas: Vec::new(),
            claims: Vec::new(),
            parts: Ghost(Seq::empty()),
        };
        assert(r.columns@.map_values(|p: MultilinearPolynomial<F>| p@) =~= Seq::<Seq<F>>::empty());
        assert(r.claims@ =~= Seq::<F>::empty());
        r
    }

    /// Add a table of `vars` variables with its claim.
    pub fn push(&mut self, sum: &VirtualSum<F>, vars: usize, claim: F)
        requires
            old(self).wf(),
            vars <= old(self).vars(),
            sum@.shaped(vars as nat),
            base(old(self).parts(), old(self).parts().len() as int) + sum@.columns.len()
                <= usize::MAX,
        ensures
            final(self).wf(),
            final(self).vars() == old(self).vars(),
            final(self).parts() == old(self).parts().push(Part { table: sum@, vars: vars as nat }),
            final(self).claims() == old(self).claims().push(claim),
    {
        let ghost parts0 = self.parts@;
        let ghost n = self.num_vars as nat;
        let ghost count = parts0.len() as int;
        let ghost part = Part { table: sum@, vars: vars as nat };
        let ghost parts1 = parts0.push(part);
        let ghost old_cols = columns(parts0, n, count);
        let ghost target = columns(parts1, n, count + 1);
        let offset: usize = self.columns.len();
        let k: usize = sum.columns.len();
        proof {
            lemma_columns_len(parts0, n, count);
            lemma_prefix(parts0, part, n, count);
            lemma_columns_len(parts1, n, count + 1);
            poly::lemma_pow2_monotone((n - vars) as nat, n);
            poly::lemma_pow2_concat(vars as nat, (n - vars) as nat);
            vstd::arithmetic::power2::lemma_pow2_pos((n - vars) as nat);
            assert(old_cols =~= target.take(offset as int));
            assert(self.columns@.map_values(|p: MultilinearPolynomial<F>| p@).len() == offset);
        }
        let m: usize = poly::power_of_two(self.num_vars - vars);
        for c in 0..k
            invariant
                k == sum@.columns.len(),
                sum@.shaped(vars as nat),
                m == pow2((n - vars) as nat),
                m > 0,
                pow2(n) == pow2(vars as nat) * m,
                pow2(n) <= usize::MAX,
                part == (Part { table: sum@, vars: vars as nat }),
                parts1 == parts0.push(part),
                count == parts0.len(),
                offset == columns(parts1, n, count).len(),
                target == columns(parts1, n, count + 1),
                target.len() == offset + k,
                self.num_vars == old(self).num_vars,
                self.formulas == old(self).formulas,
                self.claims == old(self).claims,
                self.parts == old(self).parts,
                self.columns@.map_values(|p: MultilinearPolynomial<F>| p@) == target.take(
                    offset + c,
                ),
        {
            let ghost before = self.columns@.map_values(|p: MultilinearPolynomial<F>| p@);
            assert(sum@.columns[c as int].len() == pow2(vars as nat));
            assert(sum@.columns[c as int] == sum.columns@[c as int]@);
            let wide: Vec<F> = poly::stretched(&sum.columns[c].evals, m);
            self.columns.push(MultilinearPolynomial::new(wide));
            assert(self.columns@.map_values(|p: MultilinearPolynomial<F>| p@) =~= before.push(
                wide@,
            ));
            assert(target[offset + c] == stretched_columns(parts1[count], n)[c as int]);
            assert(before.push(target[offset + c]) =~= target.take(offset + c + 1));
        }
        assert(target.take(offset + k) =~= target);
        assert(sum.formula.reads(sum@.columns.len()));
        let shifted: Formula<F> = sum.formula.shifted(offset);
        self.formulas.push(shifted);
        self.claims.push(claim);
        self.parts = Ghost(parts1);
        proof {
            assert forall|i: int| 0 <= i < parts1.len() implies (#[trigger] self.formulas@[i])
                == parts1[i].table.formula.shift(base(parts1, i)) by {
                lemma_prefix(parts0, part, n, i);
                if i < count {
                    assert(self.formulas@[i] == old(self).formulas@[i]);
                }
            }
            assert forall|i: int| 0 <= i < parts1.len() implies (#[trigger] parts1[i]).vars
                <= self.num_vars && parts1[i].table.shaped(parts1[i].vars) by {
                if i < count {
                    assert(parts1[i] == parts0[i]);
                }
            }
        }
    }
}

/// Adding a part does not move the parts before it.
proof fn lemma_prefix<F: Field>(parts: Seq<Part<F>>, part: Part<F>, n: nat, i: int)
    requires
        i <= parts.len(),
    ensures
        base(parts.push(part), i) == base(parts, i),
        columns(parts.push(part), n, i) == columns(parts, n, i),
    decreases i,
{
    if i > 0 {
        lemma_prefix(parts, part, n, i - 1);
        assert(parts.push(part)[i - 1] == parts[i - 1]);
    }
}

/// The coefficients of a batch and the transcript after they are drawn.
pub open spec fn coefficients<F: Field>(claims: Seq<F>, s: FsState<F>) -> (Seq<F>, FsState<F>) {
    let absorbed = s.absorb(claims);
    (absorbed.coins(claims.len()), absorbed.squeeze_n(claims.len()))
}

/// Absorb the claims of a batch and draw its coefficients.
pub fn draw_coefficients<F: Field, T: transcript::Challenge<F>>(
    claims: &Vec<F>,
    t: &mut T,
) -> (r: Vec<F>)
    ensures
        r@ == coefficients(claims@, old(t).state()).0,
        final(t).state() == coefficients(claims@, old(t).state()).1,
        r@.len() == claims@.len(),
{
    transcript::absorb_all(t, claims);
    proof {
        transcript::lemma_coins_len(t.state(), claims@.len());
    }
    transcript::challenge_vector(t, claims.len())
}

/// The coefficients, the challenges and the transcript of a batched proof.
pub open spec fn prove_batch_run<F: Field>(
    parts: Seq<Part<F>>,
    n: nat,
    claims: Seq<F>,
    s: FsState<F>,
) -> (Seq<F>, FsState<F>) {
    let (coeffs, s1) = coefficients(claims, s);
    sumcheck::prove_run(combined(parts, n, coeffs), n, s1)
}

/// Run the prover's rounds on a batch, and return the challenges.
pub fn prove_batched<F: Field, T: ProverFs<F>>(batch: Batch<F>, t: &mut T) -> (r: Vec<F>)
    requires
        batch.wf(),
        batch.parts().len() > 0,
    ensures
        r@ == prove_batch_run(
            batch.parts(),
            batch.vars(),
            batch.claims(),
            old(t).state(),
        ).0,
        final(t).state() == prove_batch_run(
            batch.parts(),
            batch.vars(),
            batch.claims(),
            old(t).state(),
        ).1,
        r@.len() == batch.vars(),
{
    let ghost parts = batch.parts@;
    let n: usize = batch.num_vars;
    let count: usize = batch.formulas.len();
    let coeffs: Vec<F> = draw_coefficients(&batch.claims, t);
    let ghost f = |i: int| term(parts, coeffs@, i);
    let mut whole: Formula<F> = Formula::constant(field::zero());
    for i in 0..count
        invariant
            batch.wf(),
            parts == batch.parts@,
            count == parts.len(),
            coeffs@.len() == count,
            count == batch.formulas@.len(),
            f == (|i: int| term(parts, coeffs@, i)),
            whole == formula::sum_of(i as int, f),
    {
        let shifted: Formula<F> = batch.formulas[i].copied();
        whole = whole.sum(Formula::constant(coeffs[i]).product(shifted));
    }
    let mut sum: VirtualSum<F> = VirtualSum::new(batch.columns, whole);
    proof {
        lemma_combined_shaped(parts, n as nat, coeffs@);
        assert(sum@ == combined(parts, n as nat, coeffs@));
    }
    sumcheck::prove(&mut sum, n, t)
}

/// The largest of the first `i` values.
pub open spec fn largest(f: spec_fn(int) -> nat, i: int) -> nat
    decreases i,
{
    if i <= 0 {
        0
    } else {
        crate::framework::univariate::longer(largest(f, i - 1), f(i - 1))
    }
}

/// The claims of a batch in terms of the model: the numbers of variables, the degrees and the sums.
#[verifier::reject_recursive_types(F)]
pub struct ClaimView<F> {
    pub vars: nat,
    pub degree: nat,
    pub sum: F,
}

impl<F: Field> View for SumcheckClaim<F> {
    type V = ClaimView<F>;

    open spec fn view(&self) -> ClaimView<F> {
        ClaimView {
            vars: self.num_vars as nat,
            degree: self.degree as nat,
            sum: self.claimed_sum,
        }
    }
}

/// The largest number of variables of a batch.
pub open spec fn batch_vars<F: Field>(claims: Seq<ClaimView<F>>) -> nat {
    largest(|i: int| claims[i].vars, claims.len() as int)
}

/// The largest degree of a batch.
pub open spec fn claims_degree<F: Field>(claims: Seq<ClaimView<F>>) -> nat {
    largest(|i: int| claims[i].degree, claims.len() as int)
}

/// The combined claim of a batch.
pub open spec fn combined_claim<F: Field>(claims: Seq<ClaimView<F>>, coeffs: Seq<F>) -> F {
    sums::sum(
        claims.len() as int,
        |i: int|
            coeffs[i].times(weight::<F>(batch_vars(claims), claims[i].vars).times(claims[i].sum)),
    )
}

/// The verdict on a batched proof with its coefficients, and the transcript after it.
pub open spec fn verify_batch_run<F: Field>(claims: Seq<ClaimView<F>>, s: FsState<F>) -> (
    Result<(Seq<F>, F, Seq<F>), SumcheckError>,
    FsState<F>,
) {
    let (coeffs, s1) = coefficients(claims.map_values(|c: ClaimView<F>| c.sum), s);
    let (r, s2) = sumcheck::verify_run(
        combined_claim(claims, coeffs),
        batch_vars(claims),
        claims_degree(claims),
        s1,
    );
    match r {
        Err(e) => (Err(e), s2),
        Ok((xs, value)) => (Ok((xs, value, coeffs)), s2),
    }
}

/// A batched verdict in terms of the model.
pub open spec fn batch_verdict_view<F: Field>(
    r: Result<(EvaluationClaim<F>, Vec<F>), SumcheckError>,
) -> Result<(Seq<F>, F, Seq<F>), SumcheckError> {
    match r {
        Ok((e, coeffs)) => Ok((e.point@, e.value, coeffs@)),
        Err(x) => Err(x),
    }
}

proof fn lemma_largest(f: spec_fn(int) -> nat, i: int, j: int)
    requires
        0 <= j < i,
    ensures
        f(j) <= largest(f, i),
    decreases i,
{
    if j < i - 1 {
        lemma_largest(f, i - 1, j);
    }
}

/// `2^n` as a field element.
fn two_to<F: Field>(n: usize) -> (r: F)
    ensures
        r == F::of_int(pow2(n as nat) as int),
{
    let two: F = F::from_u64(2);
    let mut out: F = field::one();
    proof {
        poly::lemma_pow2_zero();
    }
    for i in 0..n
        invariant
            two == F::of_int(2),
            out == F::of_int(pow2(i as nat) as int),
    {
        proof {
            F::law_of_int_times(pow2(i as nat) as int, 2);
            poly::lemma_pow2_step((i + 1) as nat);
        }
        out = out.mul(two);
    }
    out
}

/// Run the verifier's rounds on a batch of claims, and return the reduced claim and the
/// coefficients.
pub fn verify_batched<F: Field, T: VerifierFs<F>>(
    claims: &Vec<SumcheckClaim<F>>,
    t: &mut T,
) -> (r: Result<
    (EvaluationClaim<F>, Vec<F>),
    SumcheckError,
>)
    requires
        claims_degree(claims@.map_values(|c: SumcheckClaim<F>| c@)) < usize::MAX,
    ensures
        batch_verdict_view(r) == verify_batch_run(
            claims@.map_values(|c: SumcheckClaim<F>| c@),
            old(t).state(),
        ).0,
        final(t).state() == verify_batch_run(
            claims@.map_values(|c: SumcheckClaim<F>| c@),
            old(t).state(),
        ).1,
        r is Ok ==> r->Ok_0.0.point@.len() == batch_vars(
            claims@.map_values(|c: SumcheckClaim<F>| c@),
        ) && r->Ok_0.1@.len() == claims@.len(),
{
    let ghost cs = claims@.map_values(|c: SumcheckClaim<F>| c@);
    let ghost fv = |i: int| cs[i].vars;
    let ghost fd = |i: int| cs[i].degree;
    let count: usize = claims.len();
    let mut n: usize = 0;
    let mut degree: usize = 0;
    let mut sums: Vec<F> = Vec::new();
    let ghost target = cs.map_values(|c: ClaimView<F>| c.sum);
    for i in 0..count
        invariant
            count == claims@.len(),
            cs == claims@.map_values(|c: SumcheckClaim<F>| c@),
            fv == (|i: int| cs[i].vars),
            fd == (|i: int| cs[i].degree),
            target == cs.map_values(|c: ClaimView<F>| c.sum),
            n == largest(fv, i as int),
            degree == largest(fd, i as int),
            sums@ == target.take(i as int),
    {
        assert(cs[i as int] == claims@[i as int]@);
        if claims[i].num_vars > n {
            n = claims[i].num_vars;
        }
        if claims[i].degree > degree {
            degree = claims[i].degree;
        }
        sums.push(claims[i].claimed_sum);
        assert(sums@ =~= target.take(i + 1));
    }
    assert(sums@ =~= target);
    let coeffs: Vec<F> = draw_coefficients(&sums, t);
    let ghost f = |i: int| coeffs@[i].times(weight::<F>(n as nat, cs[i].vars).times(cs[i].sum));
    let mut claimed_sum: F = field::zero();
    for i in 0..count
        invariant
            count == claims@.len(),
            cs == claims@.map_values(|c: SumcheckClaim<F>| c@),
            fv == (|i: int| cs[i].vars),
            n == largest(fv, count as int),
            coeffs@.len() == count,
            f == (|i: int| coeffs@[i].times(weight::<F>(n as nat, cs[i].vars).times(cs[i].sum))),
            claimed_sum == sums::sum(i as int, f),
    {
        proof {
            lemma_largest(fv, count as int, i as int);
        }
        assert(cs[i as int] == claims@[i as int]@);
        let scale: F = two_to(n - claims[i].num_vars);
        claimed_sum = claimed_sum.add(coeffs[i].mul(scale.mul(claims[i].claimed_sum)));
    }
    let claim: SumcheckClaim<F> = SumcheckClaim { num_vars: n, degree, claimed_sum };
    match sumcheck::verify(&claim, t) {
        Err(e) => Err(e),
        Ok(eval) => Ok((eval, coeffs)),
    }
}

/// The claims of the parts of a batch.
pub open spec fn true_claims<F: Field>(parts: Seq<Part<F>>) -> Seq<ClaimView<F>> {
    parts.map_values(
        |p: Part<F>|
            ClaimView { vars: p.vars, degree: p.table.formula.degree(), sum: p.table.total() },
    )
}

proof fn lemma_degrees<F: Field>(parts: Seq<Part<F>>, i: int)
    requires
        0 <= i <= parts.len(),
    ensures
        batch_degree(parts, i) == largest(|j: int| true_claims(parts)[j].degree, i),
    decreases i,
{
    if i > 0 {
        lemma_degrees(parts, i - 1);
    }
}

/// Completeness: a batch of true claims is accepted, and it reduces to the combination of what its
/// parts reduce to at the challenges of their own rounds.
pub proof fn law_batch_complete<F: Field>(
    parts: Seq<Part<F>>,
    n: nat,
    p: FsState<F>,
    v: FsState<F>,
    whole: Seq<F>,
    later: Seq<F>,
)
    requires
        parts_shaped(parts, n),
        forall|i: int| 0 <= i < parts.len() ==> (#[trigger] parts[i]).table.canonical(),
        n == batch_vars(true_claims(parts)),
        p.canonical(),
        transcript::synced(p, v, whole),
        prove_batch_run(
            parts,
            n,
            true_claims(parts).map_values(|c: ClaimView<F>| c.sum),
            p,
        ).1.tape.is_prefix_of(later),
        later.is_prefix_of(whole),
    ensures
        ({
            let claims = true_claims(parts);
            let sums = claims.map_values(|c: ClaimView<F>| c.sum);
            let (xs, p1) = prove_batch_run(parts, n, sums, p);
            let (r, v1) = verify_batch_run(claims, v);
            let coeffs = coefficients(sums, p).0;
            &&& r matches Ok((ys, value, cs)) && ys == xs && cs == coeffs && value == sums::sum(
                parts.len() as int,
                |i: int|
                    coeffs[i].times(
                        parts[i].table.formula.value(
                            sumcheck::final_row(
                                parts[i].table.columns,
                                xs.skip(n - parts[i].vars),
                            ),
                        ),
                    ),
            )
            &&& transcript::synced(p1, v1, whole)
            &&& xs.len() == n
            &&& coeffs.len() == parts.len()
            &&& p1.canonical()
            &&& p.tape.is_prefix_of(p1.tape)
        }),
{
    let claims = true_claims(parts);
    let sums = claims.map_values(|c: ClaimView<F>| c.sum);
    let count = parts.len() as int;
    let pa = p.absorb(sums);
    let va = v.absorb(sums);
    assert(transcript::synced(pa, va, whole));
    transcript::lemma_synced_squeeze_n(pa, va, whole, sums.len());
    transcript::lemma_coins_len(pa, sums.len());
    let coeffs = pa.coins(sums.len());
    let ps = pa.squeeze_n(sums.len());
    let vs = va.squeeze_n(sums.len());
    let tab = combined(parts, n, coeffs);
    assert(pa.canonical());
    lemma_combined_shaped(parts, n, coeffs);
    law_batch_total(parts, n, coeffs);
    let f = |i: int|
        coeffs[i].times(weight::<F>(n, parts[i].vars).times(parts[i].table.total()));
    let g = |i: int| coeffs[i].times(weight::<F>(n, claims[i].vars).times(claims[i].sum));
    sums::lemma_sum_ext(count, f, g);
    lemma_degrees(parts, count);
    sumcheck::lemma_step_complete(tab, n, ps, vs, whole, later);
    sumcheck::lemma_run_extends(tab, n, ps);
    let xs = sumcheck::prove_run(tab, n, ps).0;
    law_batch_output(parts, n, coeffs, xs);
}

/// How many elements the rounds of a batch have.
pub open spec fn batch_read<F: Field>(claims: Seq<ClaimView<F>>) -> nat {
    batch_vars(claims) * (claims_degree(claims) + 1)
}

/// A change of the tape leaves the coefficients as they are.
proof fn lemma_changed_coefficients<F: Field>(sums: Seq<F>, s: FsState<F>, j: int, delta: F)
    ensures
        coefficients(sums, sumcheck::changed(s, j, delta)) == (
            coefficients(sums, s).0,
            sumcheck::changed(coefficients(sums, s).1, j, delta),
        ),
        coefficients(sums, s).1.tape == s.tape,
{
    let absorbed = s.absorb(sums);
    assert(sumcheck::changed(s, j, delta).absorb(sums) == sumcheck::changed(absorbed, j, delta));
    sumcheck::lemma_changed_coins(absorbed, j, delta, sums.len());
    transcript::lemma_coins_len(absorbed, sums.len());
}

/// A change behind the rounds of an accepted batch leaves its verdict as it is.
pub proof fn lemma_batch_changed_later<F: Field>(
    claims: Seq<ClaimView<F>>,
    s: FsState<F>,
    j: int,
    delta: F,
)
    requires
        verify_batch_run(claims, s).0 is Ok,
        batch_read(claims) <= j < s.tape.len(),
    ensures
        ({
            let (r, s1) = verify_batch_run(claims, s);
            &&& verify_batch_run(claims, sumcheck::changed(s, j, delta)) == (
                r,
                sumcheck::changed(s1, j - batch_read(claims), delta),
            )
            &&& s1.tape.len() == s.tape.len() - batch_read(claims)
        }),
{
    let sums = claims.map_values(|c: ClaimView<F>| c.sum);
    let (coeffs, s1) = coefficients(sums, s);
    lemma_changed_coefficients(sums, s, j, delta);
    sumcheck::lemma_changed_later(
        combined_claim(claims, coeffs),
        Seq::empty(),
        batch_vars(claims),
        claims_degree(claims),
        s1,
        j,
        delta,
    );
}

/// An accepted batched proof is refused when any one element of its rounds is changed.
pub proof fn law_changed_round_refused<F: Field>(
    claims: Seq<ClaimView<F>>,
    s: FsState<F>,
    j: int,
    delta: F,
)
    requires
        verify_batch_run(claims, s).0 is Ok,
        0 <= j < batch_read(claims),
        delta.valid(),
        delta != F::of_int(0),
    ensures
        verify_batch_run(claims, sumcheck::changed(s, j, delta)).0 == Err::<
            (Seq<F>, F, Seq<F>),
            SumcheckError,
        >(SumcheckError::RoundMismatch),
{
    let sums = claims.map_values(|c: ClaimView<F>| c.sum);
    let (coeffs, s1) = coefficients(sums, s);
    lemma_changed_coefficients(sums, s, j, delta);
    sumcheck::law_changed_round_refused(
        combined_claim(claims, coeffs),
        Seq::empty(),
        batch_vars(claims),
        claims_degree(claims),
        s1,
        j,
        delta,
    );
}

} // verus!
