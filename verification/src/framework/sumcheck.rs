//! The sumcheck protocol: a claim about the sum of a formula over the hypercube is reduced, one
//! variable per round, to a claim about the formula at a random point.

use crate::field;
use crate::field::Field;
use crate::framework::formula;
use crate::framework::formula::Formula;
use crate::framework::poly;
use crate::framework::poly::MultilinearPolynomial;
use crate::framework::sums;
use crate::framework::transcript;
use crate::framework::transcript::{FsState, ProverFs, VerifierFs};
use crate::framework::univariate;
use crate::framework::univariate::UnivariatePoly;
use vstd::arithmetic::power2::pow2;
use vstd::prelude::*;

verus! {

/// Columns over the hypercube and the formula whose values are summed.
#[verifier::reject_recursive_types(F)]
pub struct SumTable<F> {
    pub columns: Seq<Seq<F>>,
    pub formula: Formula<F>,
}

impl<F: Field> SumTable<F> {
    /// Every column has `2^n` evaluations, and the formula reads only these columns.
    pub open spec fn shaped(self, n: nat) -> bool {
        &&& self.columns.len() > 0
        &&& forall|c: int|
            0 <= c < self.columns.len() ==> (#[trigger] self.columns[c]).len() == pow2(n)
        &&& self.formula.reads(self.columns.len())
    }

    /// Every evaluation and every constant is canonical.
    pub open spec fn canonical(self) -> bool {
        &&& forall|c: int|
            0 <= c < self.columns.len() ==> field::all_valid(#[trigger] self.columns[c])
        &&& self.formula.canonical()
    }

    /// The number of evaluations of a column.
    pub open spec fn size(self) -> int {
        self.columns[0].len() as int
    }

    /// The column values at one point of the hypercube.
    pub open spec fn row(self, i: int) -> Seq<F> {
        Seq::new(self.columns.len(), |c: int| self.columns[c][i])
    }

    /// The sum of the formula over the hypercube.
    pub open spec fn total(self) -> F {
        sums::sum(self.size(), |i: int| self.formula.value(self.row(i)))
    }

    /// The table after the least significant variable is set to `x`.
    pub open spec fn bind(self, x: F) -> SumTable<F> {
        SumTable { columns: self.columns.map_values(|p: Seq<F>| poly::bind(p, x)), ..self }
    }

    /// The table after the variables are set one after the other.
    pub open spec fn bind_all(self, xs: Seq<F>) -> SumTable<F>
        decreases xs.len(),
    {
        if xs.len() == 0 {
            self
        } else {
            self.bind(xs[0]).bind_all(xs.skip(1))
        }
    }

    /// The columns on one edge of the hypercube, as lines in the bound variable.
    pub open spec fn lines(self, j: int) -> Seq<Seq<F>> {
        Seq::new(
            self.columns.len(),
            |c: int|
                seq![
                    self.columns[c][2 * j],
                    self.columns[c][2 * j + 1].minus(self.columns[c][2 * j]),
                ],
        )
    }

    /// The round polynomial: the sum of the formula with the least significant variable left free.
    pub open spec fn message(self) -> Seq<F> {
        univariate::poly_sum(self.size() / 2, |j: int| self.formula.polynomial(self.lines(j)))
    }
}

/// The columns left when a table is fully bound are the multilinear extensions at the reversed
/// challenges.
pub open spec fn final_row<F: Field>(columns: Seq<Seq<F>>, xs: Seq<F>) -> Seq<F> {
    columns.map_values(|p: Seq<F>| poly::mle(p, xs.reverse()))
}

pub proof fn lemma_bind_shaped<F: Field>(t: SumTable<F>, n: nat, x: F)
    requires
        t.shaped(n),
        n > 0,
    ensures
        t.bind(x).shaped((n - 1) as nat),
        t.canonical() ==> t.bind(x).canonical(),
{
    poly::lemma_pow2_step(n);
    let b = t.bind(x);
    assert forall|c: int| 0 <= c < b.columns.len() implies (#[trigger] b.columns[c]).len() == pow2(
        (n - 1) as nat,
    ) by {
        assert(t.columns[c].len() == pow2(n));
    }
    assert forall|c: int| 0 <= c < b.columns.len() implies field::all_valid(
        #[trigger] b.columns[c],
    ) by {
        poly::lemma_bind_valid(t.columns[c], x);
    }
}

/// The round polynomial at `x` is the sum over the hypercube bound at `x`.
pub proof fn lemma_message_eval<F: Field>(t: SumTable<F>, n: nat, x: F)
    requires
        t.shaped(n),
        n > 0,
        t.formula.canonical(),
    ensures
        univariate::eval(t.message(), x) == t.bind(x).total(),
{
    let half = t.size() / 2;
    let b = t.bind(x);
    let f = |j: int| t.formula.polynomial(t.lines(j));
    let g = |j: int| univariate::eval(f(j), x);
    let h = |j: int| b.formula.value(b.row(j));
    univariate::lemma_eval_sum(half, f, x);
    assert(t.columns[0].len() == pow2(n));
    poly::lemma_pow2_step(n);
    assert forall|j: int| 0 <= j < half implies #[trigger] g(j) == h(j) by {
        let ls = t.lines(j);
        formula::lemma_formula_eval(t.formula, ls, x);
        let ev = ls.map_values(|p: Seq<F>| univariate::eval(p, x));
        assert(ev =~= b.row(j)) by {
            assert forall|c: int| 0 <= c < ev.len() implies ev[c] == b.row(j)[c] by {
                assert(t.columns[c].len() == pow2(n));
                let lo = t.columns[c][2 * j];
                let hi = t.columns[c][2 * j + 1];
                F::law_valid(hi, lo);
                univariate::lemma_eval_line(lo, hi.minus(lo), x);
            }
        }
    }
    sums::lemma_sum_ext(half, g, h);
    assert(b.size() == half);
}

/// The round polynomial has one more coefficient than the degree of the formula.
pub proof fn lemma_message_len<F: Field>(t: SumTable<F>, n: nat)
    requires
        t.shaped(n),
        n > 0,
    ensures
        t.message().len() == t.formula.degree() + 1,
{
    let half = t.size() / 2;
    let f = |j: int| t.formula.polynomial(t.lines(j));
    assert(t.columns[0].len() == pow2(n));
    poly::lemma_pow2_step(n);
    assert forall|j: int| 0 <= j < half implies (#[trigger] f(j)).len() == t.formula.degree()
        + 1 by {
        formula::lemma_formula_len(t.formula, t.lines(j));
    }
    univariate::lemma_sum_len(half, f, (t.formula.degree() + 1) as nat);
}

/// The round polynomial at `0` and at `1` adds up to the claimed sum.
pub proof fn lemma_message_consistent<F: Field>(t: SumTable<F>, n: nat)
    requires
        t.shaped(n),
        n > 0,
        t.canonical(),
    ensures
        univariate::eval(t.message(), F::of_int(0)).plus(
            univariate::eval(t.message(), F::of_int(1)),
        ) == t.total(),
{
    let zero = F::of_int(0);
    let one = F::of_int(1);
    let half = t.size() / 2;
    assert(t.columns[0].len() == pow2(n));
    poly::lemma_pow2_step(n);
    lemma_message_eval(t, n, zero);
    lemma_message_eval(t, n, one);
    let f = |i: int| t.formula.value(t.row(i));
    let b0 = t.bind(zero);
    let b1 = t.bind(one);
    let f0 = |j: int| b0.formula.value(b0.row(j));
    let f1 = |j: int| b1.formula.value(b1.row(j));
    let pairs = |j: int| f(2 * j).plus(f(2 * j + 1));
    let both = |j: int| f0(j).plus(f1(j));
    sums::lemma_sum_pairs(half, f);
    assert forall|j: int| 0 <= j < half implies #[trigger] pairs(j) == both(j) by {
        assert(b0.row(j) =~= t.row(2 * j)) by {
            assert forall|c: int| 0 <= c < t.columns.len() implies b0.row(j)[c] == t.row(
                2 * j,
            )[c] by {
                assert(field::all_valid(t.columns[c]) && t.columns[c].len() == pow2(n));
                field::lemma_line_ends(t.columns[c][2 * j], t.columns[c][2 * j + 1]);
            }
        }
        assert(b1.row(j) =~= t.row(2 * j + 1)) by {
            assert forall|c: int| 0 <= c < t.columns.len() implies b1.row(j)[c] == t.row(
                2 * j + 1,
            )[c] by {
                assert(field::all_valid(t.columns[c]) && t.columns[c].len() == pow2(n));
                field::lemma_line_ends(t.columns[c][2 * j], t.columns[c][2 * j + 1]);
            }
        }
    }
    sums::lemma_sum_ext(half, pairs, both);
    sums::lemma_sum_plus(half, f0, f1);
}

pub proof fn lemma_bind_all_columns<F: Field>(t: SumTable<F>, xs: Seq<F>)
    ensures
        t.bind_all(xs).columns == t.columns.map_values(|p: Seq<F>| poly::bind_all(p, xs)),
        t.bind_all(xs).formula == t.formula,
    decreases xs.len(),
{
    if xs.len() == 0 {
        assert(t.columns =~= t.columns.map_values(|p: Seq<F>| poly::bind_all(p, xs)));
    } else {
        lemma_bind_all_columns(t.bind(xs[0]), xs.skip(1));
        assert(t.bind(xs[0]).columns.map_values(|p: Seq<F>| poly::bind_all(p, xs.skip(1)))
            =~= t.columns.map_values(|p: Seq<F>| poly::bind_all(p, xs)));
    }
}

/// A fully bound table sums to the formula at the multilinear extensions of its columns.
pub proof fn lemma_final_total<F: Field>(t: SumTable<F>, xs: Seq<F>)
    requires
        t.shaped(xs.len()),
        t.canonical(),
    ensures
        t.bind_all(xs).total() == t.formula.value(final_row(t.columns, xs)),
        forall|c: int|
            0 <= c < t.columns.len() ==> (#[trigger] t.bind_all(xs).columns[c]) == seq![
                final_row(t.columns, xs)[c],
            ],
        t.bind_all(xs).columns.len() == t.columns.len(),
{
    let b = t.bind_all(xs);
    lemma_bind_all_columns(t, xs);
    let fr = final_row(t.columns, xs);
    assert forall|c: int| 0 <= c < t.columns.len() implies (#[trigger] b.columns[c]) == seq![
        fr[c],
    ] by {
        assert(t.columns[c].len() == pow2(xs.len()));
        poly::lemma_bind_all_is_mle(t.columns[c], xs);
        assert(b.columns[c] =~= seq![fr[c]]);
    }
    assert(b.columns[0] == seq![fr[0]]);
    assert(b.size() == 1);
    let f = |i: int| b.formula.value(b.row(i));
    assert(b.row(0) =~= fr) by {
        assert forall|c: int| 0 <= c < t.columns.len() implies b.row(0)[c] == fr[c] by {
            assert(b.columns[c] == seq![fr[c]]);
        }
    }
    assert(field::all_valid(fr)) by {
        assert forall|c: int| 0 <= c < fr.len() implies (#[trigger] fr[c]).valid() by {
            poly::lemma_mle_valid(t.columns[c], xs.reverse());
        }
    }
    formula::lemma_formula_valid(t.formula, fr);
    assert(sums::sum(0, f) == F::of_int(0));
    assert(sums::sum(1, f) == sums::sum(0, f).plus(f(0)));
    field::lemma_zero_plus(f(0));
}

/// The only evaluations left of the columns when every variable is bound.
pub open spec fn bound_row<F: Field>(columns: Seq<Seq<F>>, xs: Seq<F>) -> Seq<F> {
    columns.map_values(|p: Seq<F>| poly::bind_all(p, xs)[0])
}

/// A fully bound table holds one evaluation per column.
pub proof fn lemma_bound_columns<F: Field>(t: SumTable<F>, xs: Seq<F>)
    requires
        t.shaped(xs.len()),
    ensures
        t.bind_all(xs).columns.len() == t.columns.len(),
        forall|c: int|
            0 <= c < t.columns.len() ==> (#[trigger] t.bind_all(xs).columns[c]) == seq![
                bound_row(t.columns, xs)[c],
            ],
        t.canonical() ==> bound_row(t.columns, xs) == final_row(t.columns, xs),
{
    lemma_bind_all_columns(t, xs);
    poly::lemma_pow2_zero();
    assert forall|c: int| 0 <= c < t.columns.len() implies (#[trigger] t.bind_all(xs).columns[c])
        == seq![bound_row(t.columns, xs)[c]] by {
        assert(t.columns[c].len() == pow2(xs.len()));
        poly::lemma_bind_all_len(t.columns[c], xs, xs.len());
        assert(t.bind_all(xs).columns[c] =~= seq![bound_row(t.columns, xs)[c]]);
    }
    if t.canonical() {
        assert forall|c: int| 0 <= c < t.columns.len() implies bound_row(t.columns, xs)[c]
            == final_row(t.columns, xs)[c] by {
            assert(t.columns[c].len() == pow2(xs.len()));
            poly::lemma_bind_all_is_mle(t.columns[c], xs);
        }
        assert(bound_row(t.columns, xs) =~= final_row(t.columns, xs));
    }
}

/// The challenges and the transcript after the prover's remaining `n` rounds, `xs` being the
/// challenges already drawn.
pub open spec fn prove_rounds<F: Field>(t: SumTable<F>, xs: Seq<F>, n: nat, s: FsState<F>) -> (
    Seq<F>,
    FsState<F>,
)
    decreases n,
{
    if n == 0 {
        (xs, s)
    } else {
        let sent = s.send(t.message());
        let c = sent.next();
        prove_rounds(t.bind(c), xs.push(c), (n - 1) as nat, sent.squeeze())
    }
}

/// The challenges and the transcript after an `n`-round proof.
pub open spec fn prove_run<F: Field>(
    t: SumTable<F>,
    n: nat,
    s: FsState<F>,
) -> (Seq<F>, FsState<F>) {
    prove_rounds(t, Seq::empty(), n, s)
}

/// Why a sumcheck is rejected.
#[derive(Clone, Copy, Debug, PartialEq, Eq, Structural)]
pub enum SumcheckError {
    /// The proof ends before the last round.
    MissingRound,
    /// A round polynomial does not add up to the running claim.
    RoundMismatch,
}

/// The verdict and the transcript after the verifier's remaining `n` rounds on a running claim,
/// `xs` being the challenges already drawn.
pub open spec fn verify_rounds<F: Field>(
    claim: F,
    xs: Seq<F>,
    n: nat,
    degree: nat,
    s: FsState<F>,
) -> (Result<(Seq<F>, F), SumcheckError>, FsState<F>)
    decreases n,
{
    if n == 0 {
        (Ok((xs, claim)), s)
    } else if s.tape.len() < degree + 1 {
        (Err(SumcheckError::MissingRound), s)
    } else {
        let m = s.tape.take((degree + 1) as int);
        let received = s.receive((degree + 1) as nat);
        if univariate::eval(m, F::of_int(0)).plus(univariate::eval(m, F::of_int(1))) != claim {
            (Err(SumcheckError::RoundMismatch), received)
        } else {
            let c = received.next();
            verify_rounds(
                univariate::eval(m, c),
                xs.push(c),
                (n - 1) as nat,
                degree,
                received.squeeze(),
            )
        }
    }
}

/// The verdict and the transcript after an `n`-round verification.
pub open spec fn verify_run<F: Field>(claim: F, n: nat, degree: nat, s: FsState<F>) -> (
    Result<(Seq<F>, F), SumcheckError>,
    FsState<F>,
) {
    verify_rounds(claim, Seq::empty(), n, degree, s)
}

/// An accepted sumcheck has one challenge per round.
pub proof fn lemma_verify_len<F: Field>(claim: F, xs: Seq<F>, n: nat, degree: nat, s: FsState<F>)
    ensures
        verify_rounds(claim, xs, n, degree, s).0 matches Ok((ys, _)) ==> ys.len() == xs.len() + n,
    decreases n,
{
    if n > 0 && s.tape.len() >= degree + 1 {
        let m = s.tape.take((degree + 1) as int);
        let received = s.receive((degree + 1) as nat);
        let c = received.next();
        lemma_verify_len(
            univariate::eval(m, c),
            xs.push(c),
            (n - 1) as nat,
            degree,
            received.squeeze(),
        );
    }
}

/// The prover only appends to the tape, and draws one challenge per round.
pub proof fn lemma_prove_extends<F: Field>(t: SumTable<F>, xs: Seq<F>, n: nat, s: FsState<F>)
    ensures
        s.tape.is_prefix_of(prove_rounds(t, xs, n, s).1.tape),
        prove_rounds(t, xs, n, s).1.coin == s.coin,
        prove_rounds(t, xs, n, s).0.len() == xs.len() + n,
        xs.is_prefix_of(prove_rounds(t, xs, n, s).0),
        s.canonical() && field::all_valid(xs) ==> field::all_valid(prove_rounds(t, xs, n, s).0),
    decreases n,
{
    if n > 0 {
        let sent = s.send(t.message());
        let c = sent.next();
        lemma_prove_extends(t.bind(c), xs.push(c), (n - 1) as nat, sent.squeeze());
        assert(s.tape.is_prefix_of(sent.tape));
        assert(xs.is_prefix_of(xs.push(c)));
        if s.canonical() && field::all_valid(xs) {
            assert(sent.canonical());
            assert(field::all_valid(xs.push(c)));
        }
    }
}

/// The final challenges are those already drawn followed by those of the remaining rounds, and
/// the remaining ones bind the table.
proof fn lemma_complete_rounds<F: Field>(
    t: SumTable<F>,
    xs: Seq<F>,
    n: nat,
    p: FsState<F>,
    v: FsState<F>,
    whole: Seq<F>,
)
    requires
        t.shaped(n),
        t.canonical(),
        transcript::synced(p, v, whole),
        prove_rounds(t, xs, n, p).1.tape.is_prefix_of(whole),
    ensures
        ({
            let (cs, p1) = prove_rounds(t, xs, n, p);
            let (verdict, v1) = verify_rounds(t.total(), xs, n, t.formula.degree(), v);
            &&& verdict == Ok::<(Seq<F>, F), SumcheckError>(
                (cs, t.bind_all(cs.skip(xs.len() as int)).total()),
            )
            &&& transcript::synced(p1, v1, whole)
        }),
    decreases n,
{
    if n == 0 {
        assert(xs.skip(xs.len() as int) =~= Seq::<F>::empty());
    } else {
        let m = t.message();
        let sent = p.send(m);
        let c = sent.next();
        let t1 = t.bind(c);
        let xs1 = xs.push(c);
        let n1 = (n - 1) as nat;
        lemma_prove_extends(t1, xs1, n1, sent.squeeze());
        let (cs, p1) = prove_rounds(t1, xs1, n1, sent.squeeze());
        assert(sent.tape.is_prefix_of(p1.tape));
        assert(sent.tape.is_prefix_of(whole)) by {
            assert forall|i: int| 0 <= i < sent.tape.len() implies sent.tape[i] == whole[i] by {
                assert(sent.tape[i] == p1.tape[i]);
                assert(p1.tape[i] == whole[i]);
            }
        }
        transcript::lemma_synced_send(p, v, whole, m);
        lemma_message_len(t, n);
        lemma_message_consistent(t, n);
        lemma_message_eval(t, n, c);
        lemma_bind_shaped(t, n, c);
        let received = v.receive(m.len());
        assert(received.history == sent.history);
        assert(transcript::synced(sent.squeeze(), received.squeeze(), whole));
        lemma_complete_rounds(t1, xs1, n1, sent.squeeze(), received.squeeze(), whole);
        let tail = cs.skip(xs.len() as int);
        assert(tail[0] == c) by {
            assert(xs1.is_prefix_of(cs));
            assert(cs[xs.len() as int] == xs1[xs.len() as int]);
        }
        assert(tail.skip(1) =~= cs.skip(xs1.len() as int));
    }
}

/// Completeness: an honest proof of the true sum is accepted, and the reduced claim is the formula
/// at the multilinear extensions of the columns at the reversed challenges.
pub proof fn law_sumcheck_complete<F: Field>(
    t: SumTable<F>,
    n: nat,
    p: FsState<F>,
    v: FsState<F>,
    whole: Seq<F>,
)
    requires
        t.shaped(n),
        t.canonical(),
        transcript::synced(p, v, whole),
        prove_run(t, n, p).1.tape.is_prefix_of(whole),
    ensures
        ({
            let (cs, p1) = prove_run(t, n, p);
            let (verdict, v1) = verify_run(t.total(), n, t.formula.degree(), v);
            &&& verdict == Ok::<(Seq<F>, F), SumcheckError>(
                (cs, t.formula.value(final_row(t.columns, cs))),
            )
            &&& transcript::synced(p1, v1, whole)
            &&& cs.len() == n
            &&& p.canonical() ==> field::all_valid(cs)
        }),
{
    lemma_complete_rounds(t, Seq::empty(), n, p, v, whole);
    lemma_prove_extends(t, Seq::empty(), n, p);
    let cs = prove_run(t, n, p).0;
    assert(cs.skip(0) =~= cs);
    lemma_final_total(t, cs);
}

/// A sum other than the true one is refused in the first round of an honest proof.
pub proof fn law_wrong_sum_refused<F: Field>(
    t: SumTable<F>,
    n: nat,
    claim: F,
    p: FsState<F>,
    v: FsState<F>,
    whole: Seq<F>,
)
    requires
        t.shaped(n),
        n > 0,
        t.canonical(),
        claim != t.total(),
        transcript::synced(p, v, whole),
        prove_run(t, n, p).1.tape.is_prefix_of(whole),
    ensures
        verify_run(claim, n, t.formula.degree(), v).0 == Err::<(Seq<F>, F), SumcheckError>(
            SumcheckError::RoundMismatch,
        ),
{
    let m = t.message();
    let sent = p.send(m);
    let c = sent.next();
    lemma_prove_extends(t.bind(c), seq![c], (n - 1) as nat, sent.squeeze());
    assert(Seq::<F>::empty().push(c) =~= seq![c]);
    transcript::lemma_prefix_trans(sent.tape, prove_run(t, n, p).1.tape, whole);
    transcript::lemma_synced_send(p, v, whole, m);
    lemma_message_len(t, n);
    lemma_message_consistent(t, n);
}

/// A proof with fewer elements than its rounds need is refused.
pub proof fn law_short_proof_refused<F: Field>(
    claim: F,
    xs: Seq<F>,
    n: nat,
    degree: nat,
    s: FsState<F>,
)
    requires
        s.tape.len() < n * (degree + 1),
    ensures
        verify_rounds(claim, xs, n, degree, s).0 is Err,
    decreases n,
{
    assert(n == 0 ==> n * (degree + 1) == 0) by (nonlinear_arith);
    if s.tape.len() >= degree + 1 {
        let m = s.tape.take((degree + 1) as int);
        let received = s.receive((degree + 1) as nat);
        let c = received.next();
        assert(n * (degree + 1) == (n - 1) * (degree + 1) + (degree + 1)) by (nonlinear_arith);
        law_short_proof_refused(
            univariate::eval(m, c),
            xs.push(c),
            (n - 1) as nat,
            degree,
            received.squeeze(),
        );
    }
}

/// A proof that is accepted under one claim is refused under any other.
pub proof fn law_changed_claim_refused<F: Field>(
    claim: F,
    other: F,
    n: nat,
    degree: nat,
    s: FsState<F>,
)
    requires
        n > 0,
        verify_run(claim, n, degree, s).0 is Ok,
        other != claim,
    ensures
        verify_run(other, n, degree, s).0 == Err::<(Seq<F>, F), SumcheckError>(
            SumcheckError::RoundMismatch,
        ),
{
}

/// The state in which element `j` of the tape is greater by `delta`.
pub open spec fn changed<F: Field>(s: FsState<F>, j: int, delta: F) -> FsState<F> {
    FsState { tape: s.tape.update(j, s.tape[j].plus(delta)), ..s }
}

/// A change of the tape leaves the challenges as they are.
pub proof fn lemma_changed_coins<F: Field>(s: FsState<F>, j: int, delta: F, n: nat)
    ensures
        changed(s, j, delta).coins(n) == s.coins(n),
        changed(s, j, delta).squeeze_n(n) == changed(s.squeeze_n(n), j, delta),
    decreases n,
{
    if n > 0 {
        lemma_changed_coins(s, j, delta, (n - 1) as nat);
    }
}

/// A change behind the elements that are received next is a change of what is left.
pub proof fn lemma_changed_behind<F: Field>(s: FsState<F>, j: int, delta: F, n: nat)
    requires
        n <= j < s.tape.len(),
    ensures
        changed(s, j, delta).tape.take(n as int) == s.tape.take(n as int),
        changed(s, j, delta).receive(n) == changed(s.receive(n), j - n, delta),
{
    let t = changed(s, j, delta);
    assert(t.tape.take(n as int) =~= s.tape.take(n as int));
    assert(t.receive(n).tape =~= changed(s.receive(n), j - n, delta).tape);
}

/// A change behind the rounds of an accepted proof leaves its verdict as it is.
pub proof fn lemma_changed_later<F: Field>(
    claim: F,
    xs: Seq<F>,
    n: nat,
    degree: nat,
    s: FsState<F>,
    j: int,
    delta: F,
)
    requires
        verify_rounds(claim, xs, n, degree, s).0 is Ok,
        n * (degree + 1) <= j < s.tape.len(),
    ensures
        ({
            let (r, s1) = verify_rounds(claim, xs, n, degree, s);
            verify_rounds(claim, xs, n, degree, changed(s, j, delta)) == (
                r,
                changed(s1, j - n * (degree + 1), delta),
            )
        }),
        verify_rounds(claim, xs, n, degree, s).1.tape.len() == s.tape.len() - n * (degree + 1),
    decreases n,
{
    assert(n == 0 ==> n * (degree + 1) == 0) by (nonlinear_arith);
    if n > 0 {
        let size = (degree + 1) as nat;
        assert(n * size == (n - 1) * size + size) by (nonlinear_arith);
        assert((n - 1) * size >= 0) by (nonlinear_arith)
            requires
                n > 0,
        ;
        lemma_changed_behind(s, j, delta, size);
        let m = s.tape.take(size as int);
        let received = s.receive(size);
        let c = received.next();
        lemma_changed_later(
            univariate::eval(m, c),
            xs.push(c),
            (n - 1) as nat,
            degree,
            received.squeeze(),
            j - size,
            delta,
        );
    }
}

/// An accepted proof is refused when any one element of its rounds is changed.
pub proof fn law_changed_round_refused<F: Field>(
    claim: F,
    xs: Seq<F>,
    n: nat,
    degree: nat,
    s: FsState<F>,
    j: int,
    delta: F,
)
    requires
        verify_rounds(claim, xs, n, degree, s).0 is Ok,
        0 <= j < n * (degree + 1),
        delta.valid(),
        delta != F::of_int(0),
    ensures
        verify_rounds(claim, xs, n, degree, changed(s, j, delta)).0 == Err::<
            (Seq<F>, F),
            SumcheckError,
        >(SumcheckError::RoundMismatch),
    decreases n,
{
    assert(n == 0 ==> n * (degree + 1) == 0) by (nonlinear_arith);
    if s.tape.len() < n * (degree + 1) {
        law_short_proof_refused(claim, xs, n, degree, s);
    }
    let size = (degree + 1) as nat;
    let m = s.tape.take(size as int);
    let t = changed(s, j, delta);
    if j < size {
        let q = t.tape.take(size as int);
        assert(q =~= m.update(j, m[j].plus(delta)));
        univariate::lemma_eval_changed(m, j, delta);
        let m0 = univariate::eval(m, F::of_int(0));
        let m1 = univariate::eval(m, F::of_int(1));
        if j == 0 {
            field::lemma_plus_exchange(m0, delta, m1, delta);
            F::law_valid(delta, delta);
            field::lemma_double_moves(delta);
            field::lemma_sum_moves(m0.plus(m1), delta.plus(delta));
        } else {
            F::law_plus_assoc(m0, m1, delta);
            field::lemma_sum_moves(m0.plus(m1), delta);
        }
    } else {
        let received = s.receive(size);
        let c = received.next();
        lemma_changed_behind(s, j, delta, size);
        assert(n * size == (n - 1) * size + size) by (nonlinear_arith);
        law_changed_round_refused(
            univariate::eval(m, c),
            xs.push(c),
            (n - 1) as nat,
            degree,
            received.squeeze(),
            j - size,
            delta,
        );
    }
}

/// Completeness of one sumcheck inside a longer proof: what the prover appends later does not
/// change how its rounds are read.
pub proof fn lemma_step_complete<F: Field>(
    t: SumTable<F>,
    n: nat,
    p: FsState<F>,
    v: FsState<F>,
    whole: Seq<F>,
    later: Seq<F>,
)
    requires
        t.shaped(n),
        t.canonical(),
        p.canonical(),
        transcript::synced(p, v, whole),
        prove_run(t, n, p).1.tape.is_prefix_of(later),
        later.is_prefix_of(whole),
    ensures
        ({
            let (cs, p1) = prove_run(t, n, p);
            let (verdict, v1) = verify_run(t.total(), n, t.formula.degree(), v);
            &&& verdict == Ok::<(Seq<F>, F), SumcheckError>(
                (cs, t.formula.value(final_row(t.columns, cs))),
            )
            &&& transcript::synced(p1, v1, whole)
            &&& cs.len() == n
            &&& field::all_valid(cs)
            &&& p1.canonical()
            &&& bound_row(t.columns, cs) == final_row(t.columns, cs)
            &&& bound_row(t.columns, cs).len() == t.columns.len()
        }),
{
    let p1 = prove_run(t, n, p).1;
    assert(p1.tape.is_prefix_of(whole)) by {
        assert forall|i: int| 0 <= i < p1.tape.len() implies p1.tape[i] == whole[i] by {
            assert(p1.tape[i] == later[i]);
        }
    }
    law_sumcheck_complete(t, n, p, v, whole);
    lemma_prove_extends(t, Seq::empty(), n, p);
    lemma_bound_columns(t, prove_run(t, n, p).0);
}

/// A run of the prover only appends to the tape.
pub proof fn lemma_run_extends<F: Field>(t: SumTable<F>, n: nat, s: FsState<F>)
    ensures
        s.tape.is_prefix_of(prove_run(t, n, s).1.tape),
        prove_run(t, n, s).1.coin == s.coin,
        prove_run(t, n, s).0.len() == n,
{
    lemma_prove_extends(t, Seq::empty(), n, s);
}

/// An executable table of columns and the formula summed over them.
pub struct VirtualSum<F> {
    pub columns: Vec<MultilinearPolynomial<F>>,
    pub formula: Formula<F>,
}

impl<F: Field> View for VirtualSum<F> {
    type V = SumTable<F>;

    open spec fn view(&self) -> SumTable<F> {
        SumTable {
            columns: self.columns@.map_values(|p: MultilinearPolynomial<F>| p@),
            formula: self.formula,
        }
    }
}

impl<F: Field> VirtualSum<F> {
    /// A table with the given columns and formula.
    pub fn new(columns: Vec<MultilinearPolynomial<F>>, formula: Formula<F>) -> (r: Self)
        ensures
            r@.columns == columns@.map_values(|p: MultilinearPolynomial<F>| p@),
            r@.formula == formula,
    {
        VirtualSum { columns, formula }
    }

    /// A table that carries no polynomials.
    pub fn empty() -> (r: Self)
        ensures
            r@.columns == Seq::<Seq<F>>::empty(),
    {
        let r: VirtualSum<F> = VirtualSum {
            columns: Vec::new(),
            formula: Formula::Constant(field::zero()),
        };
        assert(r@.columns =~= Seq::<Seq<F>>::empty());
        r
    }

    /// The only evaluation left of a fully bound column.
    pub fn bound_value(&self, c: usize) -> (r: F)
        requires
            c < self@.columns.len(),
            self@.columns[c as int].len() > 0,
        ensures
            r == self@.columns[c as int][0],
    {
        self.columns[c].evals[0]
    }

    /// The columns on one edge of the hypercube, as lines.
    fn edge(&self, j: usize) -> (r: Vec<UnivariatePoly<F>>)
        requires
            forall|c: int|
                0 <= c < self@.columns.len() ==> 2 * j + 1 < (#[trigger] self@.columns[c]).len(),
            2 * j + 1 <= usize::MAX,
        ensures
            r@.map_values(|p: UnivariatePoly<F>| p@) == self@.lines(j as int),
            r@.len() == self@.columns.len(),
    {
        let k: usize = self.columns.len();
        let mut out: Vec<UnivariatePoly<F>> = Vec::new();
        for c in 0..k
            invariant
                k == self.columns@.len(),
                2 * j + 1 <= usize::MAX,
                forall|c: int|
                    0 <= c < self@.columns.len() ==> 2 * j + 1 < (
                    #[trigger] self@.columns[c]).len(),
                out@.len() == c,
                forall|i: int| 0 <= i < c ==> (#[trigger] out@[i])@ == self@.lines(j as int)[i],
        {
            assert(self@.columns[c as int].len() > 2 * j + 1);
            let lo: F = self.columns[c].evals[2 * j];
            let hi: F = self.columns[c].evals[2 * j + 1];
            let mut line: Vec<F> = Vec::new();
            line.push(lo);
            line.push(hi.sub(lo));
            assert(line@ =~= self@.lines(j as int)[c as int]);
            out.push(UnivariatePoly::new(line));
        }
        assert(out@.map_values(|p: UnivariatePoly<F>| p@) =~= self@.lines(j as int));
        out
    }

    /// The round polynomial of the least significant of `num_vars` variables.
    pub fn compute_message(&self, num_vars: usize) -> (r: UnivariatePoly<F>)
        requires
            self@.shaped(num_vars as nat),
            num_vars > 0,
        ensures
            r@ == self@.message(),
    {
        let ghost n = num_vars as nat;
        proof {
            poly::lemma_pow2_step(n);
            assert(self@.columns[0].len() == pow2(n));
        }
        let half: usize = self.columns[0].evals.len() / 2;
        let mut acc: UnivariatePoly<F> = UnivariatePoly::new(Vec::new());
        let ghost f = |j: int| self@.formula.polynomial(self@.lines(j));
        assert(acc@ =~= Seq::<F>::empty());
        for j in 0..half
            invariant
                self@.shaped(n),
                half == self@.size() / 2,
                2 * half <= self.columns@[0].evals.len(),
                self@.size() == pow2(n),
                f == (|j: int| self@.formula.polynomial(self@.lines(j))),
                acc@ == univariate::poly_sum(j as int, f),
        {
            assert forall|c: int| 0 <= c < self@.columns.len() implies 2 * j + 1 < (
            #[trigger] self@.columns[c]).len() by {
                assert(self@.columns[c].len() == pow2(n));
            }
            let lines: Vec<UnivariatePoly<F>> = self.edge(j);
            let term: UnivariatePoly<F> = self.formula.compose(&lines);
            acc = acc.plus(&term);
        }
        acc
    }

    /// Set the least significant variable of every column.
    pub fn bind(&mut self, x: F)
        ensures
            final(self)@ == old(self)@.bind(x),
    {
        let k: usize = self.columns.len();
        for c in 0..k
            invariant
                k == self.columns@.len(),
                self.columns@.len() == old(self).columns@.len(),
                self.formula == old(self).formula,
                forall|i: int|
                    0 <= i < c ==> (#[trigger] self.columns@[i])@ == poly::bind(
                        old(self).columns@[i]@,
                        x,
                    ),
                forall|i: int|
                    c <= i < k ==> (#[trigger] self.columns@[i]) == old(self).columns@[i],
        {
            self.columns[c].bind_low(x);
        }
        assert(self@.columns =~= old(self)@.bind(x).columns);
    }
}

/// Set the least significant variables of a table one after the other.
pub fn bind_points<F: Field>(sum: &mut VirtualSum<F>, xs: &[F])
    ensures
        final(sum)@ == old(sum)@.bind_all(xs@),
{
    let n: usize = xs.len();
    let ghost tab = sum@;
    assert(xs@.take(0) =~= Seq::<F>::empty());
    for i in 0..n
        invariant
            n == xs@.len(),
            tab == old(sum)@,
            sum@ == tab.bind_all(xs@.take(i as int)),
    {
        proof {
            lemma_bind_all_push(tab, xs@.take(i as int), xs@[i as int]);
            assert(xs@.take(i as int).push(xs@[i as int]) =~= xs@.take(i + 1));
        }
        sum.bind(xs[i]);
    }
    assert(xs@.take(n as int) =~= xs@);
}

/// A fully bound table holds the opened row.
pub proof fn lemma_opened<F: Field>(t: SumTable<F>, xs: Seq<F>, bound: SumTable<F>)
    requires
        t.shaped(xs.len()),
        bound == t.bind_all(xs),
    ensures
        bound.columns.len() == t.columns.len(),
        bound_row(t.columns, xs).len() == t.columns.len(),
        forall|c: int| 0 <= c < t.columns.len() ==> (#[trigger] bound.columns[c]).len() > 0,
        forall|c: int|
            0 <= c < t.columns.len() ==> (#[trigger] bound.columns[c])[0] == bound_row(
                t.columns,
                xs,
            )[c],
{
    lemma_bound_columns(t, xs);
    assert forall|c: int| 0 <= c < t.columns.len() implies (#[trigger] bound.columns[c]).len() > 0
        && bound.columns[c][0] == bound_row(t.columns, xs)[c] by {
        assert(t.bind_all(xs).columns[c] == seq![bound_row(t.columns, xs)[c]]);
    }
}

/// Run the prover's rounds on a table of `n` variables.
pub fn prove<F: Field, T: ProverFs<F>>(sum: &mut VirtualSum<F>, n: usize, t: &mut T) -> (r: Vec<F>)
    requires
        old(sum)@.shaped(n as nat),
    ensures
        r@ == prove_run(old(sum)@, n as nat, old(t).state()).0,
        final(t).state() == prove_run(old(sum)@, n as nat, old(t).state()).1,
        final(sum)@ == old(sum)@.bind_all(r@),
        r@.len() == n,
{
    let mut xs: Vec<F> = Vec::new();
    let ghost tab = sum@;
    let ghost start = t.state();
    proof {
        lemma_bind_all_push_start(tab);
    }
    for i in 0..n
        invariant
            xs@.len() == i,
            sum@.shaped((n - i) as nat),
            sum@ == tab.bind_all(xs@),
            prove_run(tab, n as nat, start) == prove_rounds(
                sum@,
                xs@,
                (n - i) as nat,
                t.state(),
            ),
    {
        let m: UnivariatePoly<F> = sum.compute_message(n - i);
        t.send(&m.coefficients);
        let c: F = t.challenge();
        proof {
            lemma_bind_shaped(sum@, (n - i) as nat, c);
            lemma_bind_all_push(tab, xs@, c);
        }
        sum.bind(c);
        xs.push(c);
    }
    xs
}

proof fn lemma_bind_all_push_start<F: Field>(t: SumTable<F>)
    ensures
        t.bind_all(Seq::empty()) == t,
{
}

/// Binding one more variable after the others.
pub proof fn lemma_bind_all_push<F: Field>(t: SumTable<F>, xs: Seq<F>, c: F)
    ensures
        t.bind_all(xs.push(c)) == t.bind_all(xs).bind(c),
    decreases xs.len(),
{
    if xs.len() == 0 {
        assert(xs.push(c).skip(1) =~= Seq::<F>::empty());
        assert(t.bind(c).bind_all(xs.push(c).skip(1)) == t.bind(c));
    } else {
        lemma_bind_all_push(t.bind(xs[0]), xs.skip(1), c);
        assert(xs.push(c).skip(1) =~= xs.skip(1).push(c));
    }
}

/// The reduced claim of an accepted sumcheck.
#[derive(Debug)]
pub struct EvaluationClaim<F> {
    pub point: Vec<F>,
    pub value: F,
}

/// The claim a sumcheck starts from.
#[derive(Debug)]
pub struct SumcheckClaim<F> {
    pub num_vars: usize,
    pub degree: usize,
    pub claimed_sum: F,
}

/// A verdict in terms of the model.
pub open spec fn verdict_view<F: Field>(r: Result<EvaluationClaim<F>, SumcheckError>) -> Result<
    (Seq<F>, F),
    SumcheckError,
> {
    match r {
        Ok(e) => Ok((e.point@, e.value)),
        Err(x) => Err(x),
    }
}

/// Run the verifier's rounds on a claim.
pub fn verify<F: Field, T: VerifierFs<F>>(claim: &SumcheckClaim<F>, t: &mut T) -> (r: Result<
    EvaluationClaim<F>,
    SumcheckError,
>)
    requires
        claim.degree < usize::MAX,
    ensures
        verdict_view(r) == verify_run(
            claim.claimed_sum,
            claim.num_vars as nat,
            claim.degree as nat,
            old(t).state(),
        ).0,
        final(t).state() == verify_run(
            claim.claimed_sum,
            claim.num_vars as nat,
            claim.degree as nat,
            old(t).state(),
        ).1,
        r is Ok ==> r->Ok_0.point@.len() == claim.num_vars,
{
    let mut value: F = claim.claimed_sum;
    let mut xs: Vec<F> = Vec::new();
    let zero: F = field::zero();
    let one: F = field::one();
    let n: usize = claim.num_vars;
    let degree: usize = claim.degree;
    let ghost start = t.state();
    assert(xs@ =~= Seq::<F>::empty());
    for i in 0..n
        invariant
            n == claim.num_vars,
            degree == claim.degree,
            degree < usize::MAX,
            start == old(t).state(),
            zero == F::of_int(0),
            one == F::of_int(1),
            xs@.len() == i,
            verify_run(claim.claimed_sum, n as nat, degree as nat, start) == verify_rounds(
                value,
                xs@,
                (n - i) as nat,
                degree as nat,
                t.state(),
            ),
    {
        match t.receive(degree + 1) {
            None => {
                return Err(SumcheckError::MissingRound);
            },
            Some(coefficients) => {
                let m: UnivariatePoly<F> = UnivariatePoly::new(coefficients);
                let total: F = m.evaluate(zero).add(m.evaluate(one));
                if !total.same(value) {
                    return Err(SumcheckError::RoundMismatch);
                }
                let c: F = t.challenge();
                value = m.evaluate(c);
                xs.push(c);
            },
        }
    }
    Ok(EvaluationClaim { point: xs, value })
}

/// An accepted proof has taken one message of `degree + 1` elements and drawn one challenge in every
/// round, and its first message adds up to the claim.
pub proof fn law_accepted<F: Field>(claim: F, n: nat, degree: nat, s: FsState<F>)
    requires
        verify_run(claim, n, degree, s).0 is Ok,
    ensures
        ({
            let (r, s1) = verify_run(claim, n, degree, s);
            let m = s.tape.take((degree + 1) as int);
            &&& (r->Ok_0).0.len() == n
            &&& s1.history.len() == s.history.len() + n * (degree + 2)
            &&& s.tape.len() == s1.tape.len() + n * (degree + 1)
            &&& n > 0 ==> univariate::eval(m, F::of_int(0)).plus(
                univariate::eval(m, F::of_int(1)),
            ) == claim
        }),
{
    lemma_accepted_rounds(claim, Seq::empty(), n, degree, s);
    lemma_verify_len(claim, Seq::empty(), n, degree, s);
}

/// The challenges stay a function of the history.
pub proof fn lemma_verify_coin<F: Field>(claim: F, xs: Seq<F>, n: nat, degree: nat, s: FsState<F>)
    ensures
        verify_rounds(claim, xs, n, degree, s).1.coin == s.coin,
    decreases n,
{
    if n > 0 && s.tape.len() >= degree + 1 {
        let m = s.tape.take((degree + 1) as int);
        let received = s.receive((degree + 1) as nat);
        let c = received.next();
        lemma_verify_coin(
            univariate::eval(m, c),
            xs.push(c),
            (n - 1) as nat,
            degree,
            received.squeeze(),
        );
    }
}

proof fn lemma_accepted_rounds<F: Field>(
    claim: F,
    xs: Seq<F>,
    n: nat,
    degree: nat,
    s: FsState<F>,
)
    requires
        verify_rounds(claim, xs, n, degree, s).0 is Ok,
    ensures
        ({
            let s1 = verify_rounds(claim, xs, n, degree, s).1;
            &&& s1.history.len() == s.history.len() + n * (degree + 2)
            &&& s.tape.len() == s1.tape.len() + n * (degree + 1)
        }),
    decreases n,
{
    if n > 0 {
        let m = s.tape.take((degree + 1) as int);
        let received = s.receive((degree + 1) as nat);
        let c = received.next();
        let k = (n - 1) as nat;
        lemma_accepted_rounds(univariate::eval(m, c), xs.push(c), k, degree, received.squeeze());
        assert(n * (degree + 2) == k * (degree + 2) + degree + 2) by (nonlinear_arith)
            requires
                n == k + 1,
        ;
        assert(n * (degree + 1) == k * (degree + 1) + degree + 1) by (nonlinear_arith)
            requires
                n == k + 1,
        ;
    }
}

} // verus!
