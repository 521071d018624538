//! Booleanity check.
//!
//! A batch of committed columns holds only zeros and ones: the sum over all `x` of `eq(r, x)` times
//! the sum over all columns `i` of `g^(2i) (b_i(x)^2 - b_i(x))` is zero.

use crate::field;
use crate::field::Field;
use crate::framework::accumulator;
use crate::framework::accumulator::{Claims, CommittedPolynomial, OpeningId, Openings, SumcheckId};
use crate::framework::formula;
use crate::framework::formula::Formula;
use crate::framework::gruen;
use crate::framework::poly;
use crate::framework::poly::MultilinearPolynomial;
use crate::framework::sumcheck;
use crate::framework::sumcheck::{SumTable, SumcheckError, VirtualSum};
use crate::framework::sums;
use crate::framework::transcript;
use crate::framework::transcript::{Challenge, FsState};
use vstd::arithmetic::power2::pow2;
use vstd::prelude::*;

verus! {

/// The degree of the summed formula.
pub const DEGREE: usize = 3;

/// The point of the zero check and the even powers of the batching challenge.
#[derive(Debug)]
pub struct BooleanityParams<F> {
    pub r: Vec<F>,
    /// The even powers of the challenge, one per column.
    pub gamma_sq_powers: Vec<F>,
}

/// The name of the reduced claim about column `i`.
pub open spec fn reduced_id(i: int) -> OpeningId {
    accumulator::comm(CommittedPolynomial::R1csAux(i as usize), SumcheckId::Booleanity)
}

/// The summand of column `i`; the columns are numbered from one, after `eq`.
pub open spec fn column_term<F: Field>(gp: Seq<F>, i: int) -> Formula<F> {
    let b = formula::col((i + 1) as usize);
    formula::times(formula::con(gp[i]), formula::minus(formula::times(b, b), b))
}

/// The summed formula over `eq` and the columns.
pub open spec fn summand<F: Field>(gp: Seq<F>) -> Formula<F> {
    formula::times(
        formula::col(0),
        formula::sum_of(gp.len() as int, |i: int| column_term(gp, i)),
    )
}

/// The table the prover sums.
pub open spec fn table<F: Field>(gp: Seq<F>, r: Seq<F>, cols: Seq<Seq<F>>) -> SumTable<F> {
    SumTable { columns: seq![poly::eq_table(r)] + cols, formula: summand(gp) }
}

/// The claims after the first `n` reduced openings are recorded at the reversed challenges.
pub open spec fn cached<F: Field>(acc: Claims<F>, xs: Seq<F>, v: Seq<F>, n: int) -> Claims<F>
    decreases n,
{
    if n <= 0 {
        acc
    } else {
        cached(acc, xs, v, n - 1).insert(reduced_id(n - 1), (xs.reverse(), v[n - 1]))
    }
}

/// The batch of `b^2 - b` over the given values.
pub open spec fn batch<F: Field>(gp: Seq<F>, v: Seq<F>) -> F {
    sums::sum(gp.len() as int, |i: int| gp[i].times(v[i].times(v[i]).minus(v[i])))
}

/// The even powers of a challenge.
pub open spec fn even_powers<F: Field>(g: F, n: nat) -> Seq<F> {
    Seq::new(n, |i: int| sums::power(g.times(g), i))
}

/// The values of the first `n` reduced openings.
pub open spec fn reduced<F: Field>(acc: Claims<F>, n: nat) -> Seq<F> {
    Seq::new(n, |i: int| acc[reduced_id(i)].1)
}

/// The claim the reduced openings must satisfy.
pub open spec fn output<F: Field>(gp: Seq<F>, r: Seq<F>, acc: Claims<F>, xs: Seq<F>) -> F {
    poly::eq_mle(r, xs.reverse()).times(batch(gp, reduced(acc, gp.len())))
}

impl<F: Field> BooleanityParams<F> {
    /// Draw the batching challenge and form one even power per column.
    pub fn new<T: Challenge<F>>(r: Vec<F>, num_cols: usize, transcript: &mut T) -> (p: Self)
        ensures
            p.r@ == r@,
            p.gamma_sq_powers@ == even_powers(old(transcript).state().next(), num_cols as nat),
            final(transcript).state() == old(transcript).state().squeeze(),
    {
        let gamma: F = transcript.challenge();
        let gamma_sq: F = gamma.mul(gamma);
        let mut powers: Vec<F> = Vec::new();
        let mut p: F = field::one();
        for i in 0..num_cols
            invariant
                p == sums::power(gamma_sq, i as int),
                powers@ == Seq::new(i as nat, |j: int| sums::power(gamma_sq, j)),
        {
            powers.push(p);
            assert(powers@ =~= Seq::new((i + 1) as nat, |j: int| sums::power(gamma_sq, j)));
            p = p.mul(gamma_sq);
        }
        BooleanityParams { r, gamma_sq_powers: powers }
    }
}

/// The Booleanity instance.
pub struct Booleanity<F> {
    pub params: BooleanityParams<F>,
    pub sum: VirtualSum<F>,
}

impl<F: Field> Booleanity<F> {
    /// The prover's instance over the columns, one per power.
    pub fn new_prover(params: BooleanityParams<F>, cols: Vec<Vec<F>>) -> (r: Self)
        requires
            cols@.len() == params.gamma_sq_powers@.len(),
            cols@.len() < usize::MAX,
            pow2(params.r@.len()) <= usize::MAX,
        ensures
            r.params == params,
            r.sum@ == table(
                params.gamma_sq_powers@,
                params.r@,
                cols@.map_values(|c: Vec<F>| c@),
            ),
    {
        let n: usize = cols.len();
        let ghost gp = params.gamma_sq_powers@;
        let ghost target = table(gp, params.r@, cols@.map_values(|c: Vec<F>| c@));
        let ghost term = |i: int| column_term(gp, i);
        let mut columns: Vec<MultilinearPolynomial<F>> = Vec::new();
        columns.push(MultilinearPolynomial::new(poly::eq_evals(&params.r)));
        let mut terms: Formula<F> = Formula::constant(field::zero());
        assert(columns@.map_values(|p: MultilinearPolynomial<F>| p@) =~= target.columns.take(1));
        for i in 0..n
            invariant
                n == cols@.len(),
                n == gp.len(),
                n < usize::MAX,
                gp == params.gamma_sq_powers@,
                target == table(gp, params.r@, cols@.map_values(|c: Vec<F>| c@)),
                term == (|i: int| column_term(gp, i)),
                terms == formula::sum_of(i as int, term),
                columns@.map_values(|p: MultilinearPolynomial<F>| p@) == target.columns.take(
                    i + 1,
                ),
        {
            let ghost before = columns@.map_values(|p: MultilinearPolynomial<F>| p@);
            columns.push(MultilinearPolynomial::new(poly::copied(&cols[i])));
            let square: Formula<F> = Formula::column(i + 1).product(Formula::column(i + 1));
            let zero_on_bits: Formula<F> = square.difference(Formula::column(i + 1));
            terms = terms.sum(Formula::constant(params.gamma_sq_powers[i]).product(zero_on_bits));
            assert(columns@.map_values(|p: MultilinearPolynomial<F>| p@) =~= before.push(
                cols@[i as int]@,
            ));
            assert(before.push(target.columns[i + 1]) =~= target.columns.take(i + 2));
        }
        let sum: VirtualSum<F> = VirtualSum::new(columns, Formula::column(0).product(terms));
        assert(sum@.columns =~= target.columns);
        Booleanity { params, sum }
    }

    /// The verifier's instance, which holds no columns to sum.
    pub fn new_verifier(params: BooleanityParams<F>) -> (r: Self)
        ensures
            r.params == params,
    {
        Self { params, sum: VirtualSum::empty() }
    }

    /// One round per variable of the columns.
    pub fn num_rounds(&self) -> (r: usize)
        ensures
            r == self.params.r@.len(),
    {
        self.params.r.len()
    }

    /// The check starts from the claim that the sum is zero.
    pub fn input_claim(&self) -> (r: F)
        ensures
            r == F::of_int(0),
    {
        field::zero()
    }

    /// Record the reduced openings of the fully bound columns.
    pub fn cache_openings(&self, accumulator: &mut Openings<F>, challenges: &[F])
        requires
            self.sum@.columns.len() > 0,
            forall|c: int|
                0 <= c < self.sum@.columns.len() ==> (#[trigger] self.sum@.columns[c]).len() > 0,
        ensures
            final(accumulator)@ == cached(
                old(accumulator)@,
                challenges@,
                self.sum@.columns.skip(1).map_values(|p: Seq<F>| p[0]),
                self.sum@.columns.len() - 1,
            ),
    {
        let n: usize = self.sum.columns.len() - 1;
        for i in 0..n
            invariant
                n == self.sum@.columns.len() - 1,
                forall|c: int|
                    0 <= c < self.sum@.columns.len() ==> (#[trigger] self.sum@.columns[c]).len()
                        > 0,
                accumulator@ == cached(
                    old(accumulator)@,
                    challenges@,
                    self.sum@.columns.skip(1).map_values(|p: Seq<F>| p[0]),
                    i as int,
                ),
        {
            assert(self.sum@.columns[i + 1].len() > 0);
            accumulator.append_dense(
                CommittedPolynomial::R1csAux(i),
                SumcheckId::Booleanity,
                poly::reversed(challenges),
                self.sum.bound_value(i + 1),
            );
        }
    }

    /// The claim the reduced openings must satisfy.
    pub fn expected_output_claim(&self, accumulator: &Openings<F>, challenges: &[F]) -> (r: F)
        requires
            forall|i: int|
                0 <= i < self.params.gamma_sq_powers@.len() ==> accumulator@.contains_key(
                    #[trigger] reduced_id(i),
                ),
            challenges@.len() == self.params.r@.len(),
        ensures
            r == output(self.params.gamma_sq_powers@, self.params.r@, accumulator@, challenges@),
    {
        let ghost gp = self.params.gamma_sq_powers@;
        let ghost v = reduced(accumulator@, gp.len());
        let ghost f = |i: int| gp[i].times(v[i].times(v[i]).minus(v[i]));
        let point: Vec<F> = poly::reversed(challenges);
        let eq_eval: F = poly::eq_at(&self.params.r, &point);
        let mut q: F = field::zero();
        let n: usize = self.params.gamma_sq_powers.len();
        for i in 0..n
            invariant
                n == gp.len(),
                gp == self.params.gamma_sq_powers@,
                v == reduced(accumulator@, gp.len()),
                f == (|i: int| gp[i].times(v[i].times(v[i]).minus(v[i]))),
                forall|i: int|
                    0 <= i < gp.len() ==> accumulator@.contains_key(#[trigger] reduced_id(i)),
                q == sums::sum(i as int, f),
        {
            assert(accumulator@.contains_key(reduced_id(i as int)));
            let b: F = accumulator.committed_claim(
                CommittedPolynomial::R1csAux(i),
                SumcheckId::Booleanity,
            );
            q = q.add(self.params.gamma_sq_powers[i].mul(b.mul(b).sub(b)));
        }
        eq_eval.mul(q)
    }
}

/// The value of the summed formula on one row of `eq` and column values.
proof fn lemma_summand<F: Field>(gp: Seq<F>, row: Seq<F>)
    requires
        row.len() == gp.len() + 1,
        gp.len() < usize::MAX,
    ensures
        summand(gp).value(row) == row[0].times(batch(gp, row.skip(1))),
        summand(gp).reads(row.len()),
        gp.len() > 0 ==> summand(gp).degree() == DEGREE,
        field::all_valid(gp) ==> summand(gp).canonical(),
{
    reveal_with_fuel(Formula::value, 5);
    reveal_with_fuel(Formula::reads, 5);
    reveal_with_fuel(Formula::degree, 5);
    reveal_with_fuel(Formula::canonical, 5);
    let n = gp.len() as int;
    let term = |i: int| column_term(gp, i);
    formula::lemma_sum_of(n, term, row.len(), row);
    if n > 0 {
        formula::lemma_max_degree(n, term, 2);
    }
    let v = row.skip(1);
    let f = |i: int| term(i).value(row);
    let g = |i: int| gp[i].times(v[i].times(v[i]).minus(v[i]));
    assert forall|i: int| 0 <= i < n implies #[trigger] f(i) == g(i) by {
        assert(v[i] == row[i + 1]);
    }
    sums::lemma_sum_ext(n, f, g);
    if field::all_valid(gp) {
        assert forall|i: int| 0 <= i < n implies (#[trigger] term(i)).canonical() by {
            assert(gp[i].valid());
        }
    }
}

/// The table is shaped: its columns have one entry for every point, and the degree of its formula is
/// the one that the verifier allows.
pub proof fn law_table_shaped<F: Field>(gp: Seq<F>, r: Seq<F>, cols: Seq<Seq<F>>)
    requires
        cols.len() == gp.len(),
        gp.len() < usize::MAX,
        forall|c: int| 0 <= c < cols.len() ==> (#[trigger] cols[c]).len() == pow2(r.len()),
    ensures
        table(gp, r, cols).shaped(r.len()),
        gp.len() > 0 ==> table(gp, r, cols).formula.degree() == DEGREE,
        field::all_valid(gp) && (forall|c: int|
            0 <= c < cols.len() ==> field::all_valid(#[trigger] cols[c])) ==> table(
            gp,
            r,
            cols,
        ).canonical(),
{
    let t = table(gp, r, cols);
    lemma_summand(gp, Seq::new((gp.len() + 1) as nat, |i: int| F::of_int(0)));
    poly::lemma_eq_table_valid(r);
    assert forall|c: int| 0 <= c < t.columns.len() implies (#[trigger] t.columns[c]).len() == pow2(
        r.len(),
    ) by {
        if c > 0 {
            assert(t.columns[c] == cols[c - 1]);
        }
    }
    if field::all_valid(gp) && (forall|c: int|
        0 <= c < cols.len() ==> field::all_valid(#[trigger] cols[c])) {
        assert forall|c: int| 0 <= c < t.columns.len() implies field::all_valid(
            #[trigger] t.columns[c],
        ) by {
            if c > 0 {
                assert(t.columns[c] == cols[c - 1]);
            }
        }
    }
}

/// Columns of zeros and ones make the check a zero check.
pub proof fn law_total<F: Field>(gp: Seq<F>, r: Seq<F>, cols: Seq<Seq<F>>)
    requires
        cols.len() == gp.len(),
        gp.len() < usize::MAX,
        forall|c: int, x: int|
            0 <= c < cols.len() && 0 <= x < pow2(r.len()) ==> #[trigger] cols[c][x] == F::of_int(0)
                || cols[c][x] == F::of_int(1),
    ensures
        table(gp, r, cols).total() == F::of_int(0),
{
    let t = table(gp, r, cols);
    let f = |i: int| t.formula.value(t.row(i));
    assert forall|x: int| 0 <= x < pow2(r.len()) implies #[trigger] f(x) == F::of_int(0) by {
        let row = t.row(x);
        lemma_summand(gp, row);
        let v = row.skip(1);
        let g = |i: int| gp[i].times(v[i].times(v[i]).minus(v[i]));
        assert forall|i: int| 0 <= i < gp.len() implies #[trigger] g(i) == F::of_int(0) by {
            assert(v[i] == cols[i][x]);
            F::law_of_int_times(0, 0);
            F::law_of_int_times(1, 1);
            field::lemma_minus_self(v[i]);
            F::law_times_zero(gp[i]);
        }
        sums::lemma_sum_zero(gp.len() as int, g);
        F::law_times_zero(row[0]);
    }
    sums::lemma_sum_zero(pow2(r.len()) as int, f);
    assert(t.columns[0] == poly::eq_table(r));
}

pub proof fn lemma_cached<F: Field>(acc: Claims<F>, xs: Seq<F>, v: Seq<F>, n: int, i: int)
    requires
        0 <= i < n <= usize::MAX,
    ensures
        cached(acc, xs, v, n).contains_key(reduced_id(i)),
        cached(acc, xs, v, n)[reduced_id(i)] == (xs.reverse(), v[i]),
    decreases n,
{
    if i < n - 1 {
        lemma_cached(acc, xs, v, n - 1, i);
    }
}

/// The openings cached by the prover satisfy the output claim: it is the value to which the
/// sumcheck reduces.
pub proof fn law_output<F: Field>(
    gp: Seq<F>,
    r: Seq<F>,
    cols: Seq<Seq<F>>,
    acc: Claims<F>,
    xs: Seq<F>,
)
    requires
        cols.len() == gp.len(),
        gp.len() < usize::MAX,
        xs.len() == r.len(),
    ensures
        ({
            let acc1 = cached(
                acc,
                xs,
                cols.map_values(|c: Seq<F>| poly::mle(c, xs.reverse())),
                gp.len() as int,
            );
            &&& forall|i: int| 0 <= i < gp.len() ==> acc1.contains_key(#[trigger] reduced_id(i))
            &&& output(gp, r, acc1, xs) == summand(gp).value(
                sumcheck::final_row(table(gp, r, cols).columns, xs),
            )
        }),
{
    let v = cols.map_values(|c: Seq<F>| poly::mle(c, xs.reverse()));
    let acc1 = cached(acc, xs, v, gp.len() as int);
    let row = sumcheck::final_row(table(gp, r, cols).columns, xs);
    lemma_summand(gp, row);
    poly::lemma_mle_eq_table(r, xs.reverse());
    assert forall|i: int| 0 <= i < gp.len() implies acc1.contains_key(#[trigger] reduced_id(i))
        && acc1[reduced_id(i)].1 == v[i] by {
        lemma_cached(acc, xs, v, gp.len() as int, i);
    }
    assert(reduced(acc1, gp.len()) =~= v);
    assert(row.skip(1) =~= v) by {
        assert forall|i: int| 0 <= i < v.len() implies row.skip(1)[i] == v[i] by {
            assert(table(gp, r, cols).columns[i + 1] == cols[i]);
        }
    }
}

/// Columns that are not all bits show in the output: the rounds are accepted under the zero claim,
/// and the output claim of the recorded openings is missed by what the sum should not have been,
/// times the factor it was carried by.
pub proof fn law_mismatch<F: Field>(
    gp: Seq<F>,
    r: Seq<F>,
    cols: Seq<Seq<F>>,
    acc: Claims<F>,
    p: FsState<F>,
    v: FsState<F>,
    whole: Seq<F>,
)
    requires
        0 < gp.len() < usize::MAX,
        cols.len() == gp.len(),
        forall|c: int| 0 <= c < cols.len() ==> (#[trigger] cols[c]).len() == pow2(r.len()),
        forall|c: int| 0 <= c < cols.len() ==> field::all_valid(#[trigger] cols[c]),
        field::all_valid(gp),
        field::all_valid(r),
        gruen::invertible(r),
        transcript::synced(p, v, whole),
        gruen::claimed_run(table(gp, r, cols), r, F::of_int(0), p).1.tape.is_prefix_of(whole),
    ensures
        ({
            let t = table(gp, r, cols);
            let xs = gruen::claimed_run(t, r, F::of_int(0), p).0;
            let acc1 = cached(
                acc,
                xs,
                cols.map_values(|c: Seq<F>| poly::mle(c, xs.reverse())),
                gp.len() as int,
            );
            sumcheck::verify_run(F::of_int(0), r.len(), DEGREE as nat, v).0 == Ok::<
                (Seq<F>, F),
                SumcheckError,
            >(
                (
                    xs,
                    output(gp, r, acc1, xs).plus(
                        F::of_int(0).minus(t.total()).times(gruen::carried(r, xs)),
                    ),
                ),
            )
        }),
{
    let t = table(gp, r, cols);
    law_table_shaped(gp, r, cols);
    F::law_of_int_valid(0);
    gruen::law_claim_carried(t, r, F::of_int(0), p, v, whole);
    gruen::lemma_run_extends(t, r, F::of_int(0), p);
    law_output(gp, r, cols, acc, gruen::claimed_run(t, r, F::of_int(0), p).0);
}

/// The recorded openings are the sent ones.
pub proof fn lemma_reduced<F: Field>(acc: Claims<F>, xs: Seq<F>, v: Seq<F>)
    requires
        v.len() <= usize::MAX,
    ensures
        reduced(cached(acc, xs, v, v.len() as int), v.len()) == v,
{
    let n = v.len() as int;
    assert forall|i: int| 0 <= i < n implies reduced(cached(acc, xs, v, n), v.len())[i] == v[i] by {
        lemma_cached(acc, xs, v, n, i);
    }
    assert(reduced(cached(acc, xs, v, n), v.len()) =~= v);
}

} // verus!
