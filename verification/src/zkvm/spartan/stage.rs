//! The Spartan stage: the outer zero check and the inner reduction on one transcript.

use crate::field;
use crate::field::Field;
use crate::framework::accumulator::{
    Claims, OpeningId, Openings, SumcheckId, VirtualPolynomial,
};
use crate::framework::bits;
use crate::framework::poly;
use crate::framework::sumcheck;
use crate::framework::sumcheck::{SumTable, SumcheckClaim, SumcheckError};
use crate::framework::transcript;
use crate::framework::transcript::{FsState, ProverFs, VerifierFs};
use crate::r1cs::key;
use crate::r1cs::key::{R1csKey, Weights};
use crate::zkvm::r1cs_witness::R1csWitness;
use crate::zkvm::spartan::inner;
use crate::zkvm::spartan::inner::{SpartanInner, SpartanInnerParams};
use crate::zkvm::spartan::outer;
use crate::zkvm::spartan::outer::{SpartanOuter, SpartanOuterParams};
use vstd::prelude::*;

verus! {

/// Why a Spartan proof is rejected.
#[derive(Clone, Copy, Debug, PartialEq, Eq, Structural)]
pub enum SpartanStageError {
    /// A sumcheck was rejected.
    Sumcheck,
    /// The outer claim does not hold of the three sent openings.
    OuterClaim,
    /// The inner claim does not hold of the sent opening of the assignment.
    InnerClaim,
}

/// The openings the prover hands to the verifier.
#[derive(Debug)]
pub struct SpartanProof<F> {
    pub az_rx: F,
    pub bz_rx: F,
    pub cz_rx: F,
    pub z_ry: F,
}

/// The weights given by three challenges.
pub open spec fn weights<F: Field>(coins: Seq<F>) -> Weights<F> {
    Weights { a: coins[0], b: coins[1], c: coins[2] }
}

/// The table of the outer zero check.
pub open spec fn outer_table<F: Field>(w: R1csWitness<F>, tau: Seq<F>) -> SumTable<F> {
    outer::table(tau, w.az@, w.bz@, w.cz@)
}

/// The openings, the records and the transcript of an honest stage.
pub open spec fn honest<F: Field>(
    w: R1csWitness<F>,
    key: R1csKey<F>,
    acc: Claims<F>,
    s: FsState<F>,
) -> (SpartanProof<F>, Claims<F>, FsState<F>) {
    let n = key.row_vars();
    let t1 = outer_table(w, s.coins(n));
    let (xs, s1) = sumcheck::prove_run(t1, n, s.squeeze_n(n));
    let row = sumcheck::bound_row(t1.columns, xs);
    let acc1 = outer::cached(acc, xs.reverse(), row[1], row[2], row[3]);
    let t2 = inner::table(key, xs.reverse(), weights(s1.coins(3)), w.z@);
    let (ys, s2) = sumcheck::prove_run(t2, key.col_vars(), s1.squeeze_n(3));
    let z = sumcheck::bound_row(t2.columns, ys)[1];
    (
        SpartanProof { az_rx: row[1], bz_rx: row[2], cz_rx: row[3], z_ry: z },
        inner::cached(acc1, ys, z),
        s2,
    )
}

/// Prove the Spartan stage.
pub fn prove_spartan<F: Field, T: ProverFs<F>>(
    witness: &R1csWitness<F>,
    key: &R1csKey<F>,
    accumulator: &mut Openings<F>,
    transcript: &mut T,
) -> (proof: SpartanProof<F>)
    requires
        witness.fits(*key),
    ensures
        (proof, final(accumulator)@, final(transcript).state()) == honest(
            *witness,
            *key,
            old(accumulator)@,
            old(transcript).state(),
        ),
{
    let ghost s = transcript.state();
    proof {
        bits::lemma_low_zeros_power(key.log_constraints as nat);
        transcript::lemma_coins_len(s, key.row_vars());
        poly::lemma_pow2_concat(key.log_cycles as nat, key.log_constraints as nat);
    }
    let num_row_vars: usize = witness.num_row_vars();
    let tau: Vec<F> = transcript::challenge_vector(transcript, num_row_vars);
    let mut outer: SpartanOuter<F> = SpartanOuter::new_prover(
        SpartanOuterParams::new(tau),
        poly::copied(&witness.az),
        poly::copied(&witness.bz),
        poly::copied(&witness.cz),
    );
    let ghost t1 = outer.sum@;
    proof {
        outer::law_table_shaped(s.coins(key.row_vars()), witness.az@, witness.bz@, witness.cz@);
    }
    let xs: Vec<F> = sumcheck::prove(&mut outer.sum, num_row_vars, transcript);
    proof {
        sumcheck::lemma_opened(t1, xs@, outer.sum@);
        transcript::lemma_coins_len(transcript.state(), 3);
    }
    outer.cache_openings(accumulator, &xs);
    let id: SumcheckId = SumcheckId::SpartanOuter;
    let az_rx: F = accumulator.virtual_claim(VirtualPolynomial::SpartanAz, id);
    let bz_rx: F = accumulator.virtual_claim(VirtualPolynomial::SpartanBz, id);
    let cz_rx: F = accumulator.virtual_claim(VirtualPolynomial::SpartanCz, id);

    let rho: Vec<F> = transcript::challenge_vector(transcript, 3);
    let params: SpartanInnerParams<F> = SpartanInnerParams {
        key,
        r_x: poly::reversed(&xs),
        rho: [rho[0], rho[1], rho[2]],
    };
    let num_col_vars: usize = key.num_col_vars();
    let mut inner: SpartanInner<F> = SpartanInner::new_prover(params, poly::copied(&witness.z));
    let ghost t2 = inner.sum@;
    proof {
        assert(params.weights() == weights(rho@));
        inner::law_table_shaped(*key, params.r_x@, params.weights(), witness.z@);
    }
    let ys: Vec<F> = sumcheck::prove(&mut inner.sum, num_col_vars, transcript);
    proof {
        sumcheck::lemma_opened(t2, ys@, inner.sum@);
    }
    inner.cache_openings(accumulator, &ys);
    let z_ry: F = accumulator.virtual_claim(
        VirtualPolynomial::SpartanWitnessZ,
        SumcheckId::SpartanInner,
    );
    SpartanProof { az_rx, bz_rx, cz_rx, z_ry }
}

/// The verdict on a Spartan proof, the recorded claims, and the transcript after it.
pub open spec fn verdict<F: Field>(
    proof: SpartanProof<F>,
    key: R1csKey<F>,
    acc: Claims<F>,
    s: FsState<F>,
) -> (Result<(), SpartanStageError>, Claims<F>, FsState<F>) {
    let n = key.row_vars();
    let tau = s.coins(n);
    let (first, s1) = sumcheck::verify_run(
        F::of_int(0),
        n,
        outer::DEGREE as nat,
        s.squeeze_n(n),
    );
    match first {
        Err(_) => (Err(SpartanStageError::Sumcheck), acc, s1),
        Ok((xs, value)) => {
            let acc1 = outer::cached(acc, xs.reverse(), proof.az_rx, proof.bz_rx, proof.cz_rx);
            if value != outer::output(tau, acc1, xs) {
                (Err(SpartanStageError::OuterClaim), acc1, s1)
            } else {
                verdict_inner(proof, key, xs.reverse(), acc1, s1)
            }
        },
    }
}

/// The verdict from the inner reduction on.
pub open spec fn verdict_inner<F: Field>(
    proof: SpartanProof<F>,
    key: R1csKey<F>,
    r_x: Seq<F>,
    acc: Claims<F>,
    s: FsState<F>,
) -> (Result<(), SpartanStageError>, Claims<F>, FsState<F>) {
    let rho = weights(s.coins(3));
    let (second, s1) = sumcheck::verify_run(
        rho.combine(proof.az_rx, proof.bz_rx, proof.cz_rx),
        key.col_vars(),
        inner::DEGREE as nat,
        s.squeeze_n(3),
    );
    match second {
        Err(_) => (Err(SpartanStageError::Sumcheck), acc, s1),
        Ok((ys, value)) => {
            let acc1 = inner::cached(acc, ys, proof.z_ry);
            if value != inner::output(key, r_x, rho, acc1, ys) {
                (Err(SpartanStageError::InnerClaim), acc1, s1)
            } else {
                (Ok(()), acc1, s1)
            }
        },
    }
}

/// Verify the Spartan stage.
pub fn verify_spartan<F: Field, T: VerifierFs<F>>(
    proof: &SpartanProof<F>,
    key: &R1csKey<F>,
    num_row_vars: usize,
    accumulator: &mut Openings<F>,
    transcript: &mut T,
) -> (r: Result<(), SpartanStageError>)
    requires
        key.wf(),
        num_row_vars == key.row_vars(),
    ensures
        (r, final(accumulator)@, final(transcript).state()) == verdict(
            *proof,
            *key,
            old(accumulator)@,
            old(transcript).state(),
        ),
{
    let ghost s = transcript.state();
    proof {
        transcript::lemma_coins_len(s, key.row_vars());
    }
    let tau: Vec<F> = transcript::challenge_vector(transcript, num_row_vars);
    let outer: SpartanOuter<F> = SpartanOuter::new_verifier(SpartanOuterParams::new(tau));
    let outer_claim: SumcheckClaim<F> = SumcheckClaim {
        num_vars: num_row_vars,
        degree: outer::DEGREE,
        claimed_sum: outer.input_claim(),
    };
    let outer_eval = match sumcheck::verify(&outer_claim, transcript) {
        Err(_) => {
            return Err(SpartanStageError::Sumcheck);
        },
        Ok(e) => e,
    };
    let r_x: Vec<F> = poly::reversed(&outer_eval.point);
    outer::record_outer(accumulator, &r_x, proof.az_rx, proof.bz_rx, proof.cz_rx);
    let outer_expected: F = outer.expected_output_claim(accumulator, &outer_eval.point);
    if !outer_eval.value.same(outer_expected) {
        return Err(SpartanStageError::OuterClaim);
    }
    proof {
        transcript::lemma_coins_len(transcript.state(), 3);
    }
    let rho: Vec<F> = transcript::challenge_vector(transcript, 3);
    let params: SpartanInnerParams<F> = SpartanInnerParams {
        key,
        r_x,
        rho: [rho[0], rho[1], rho[2]],
    };
    assert(params.weights() == weights(rho@));
    let inner: SpartanInner<F> = SpartanInner::new_verifier(params);
    let inner_claim: SumcheckClaim<F> = SumcheckClaim {
        num_vars: inner.num_rounds(),
        degree: inner::DEGREE,
        claimed_sum: inner.input_claim(accumulator),
    };
    let inner_eval = match sumcheck::verify(&inner_claim, transcript) {
        Err(_) => {
            return Err(SpartanStageError::Sumcheck);
        },
        Ok(e) => e,
    };
    accumulator.append_virtual(
        VirtualPolynomial::SpartanWitnessZ,
        SumcheckId::SpartanInner,
        poly::reversed(&inner_eval.point),
        proof.z_ry,
    );
    let inner_expected: F = inner.expected_output_claim(accumulator, &inner_eval.point);
    if !inner_eval.value.same(inner_expected) {
        return Err(SpartanStageError::InnerClaim);
    }
    Ok(())
}

/// The honest stage only appends to the tape.
pub proof fn lemma_honest_extends<F: Field>(
    w: R1csWitness<F>,
    key: R1csKey<F>,
    acc: Claims<F>,
    p: FsState<F>,
)
    ensures
        p.tape.is_prefix_of(honest(w, key, acc, p).2.tape),
        honest(w, key, acc, p).2.coin == p.coin,
{
    let n = key.row_vars();
    transcript::lemma_coins_len(p, n);
    let t1 = outer_table(w, p.coins(n));
    sumcheck::lemma_run_extends(t1, n, p.squeeze_n(n));
    let (xs, p1) = sumcheck::prove_run(t1, n, p.squeeze_n(n));
    transcript::lemma_coins_len(p1, 3);
    let t2 = inner::table(key, xs.reverse(), weights(p1.coins(3)), w.z@);
    sumcheck::lemma_run_extends(t2, key.col_vars(), p1.squeeze_n(3));
    transcript::lemma_prefix_trans(p.tape, p1.tape, honest(w, key, acc, p).2.tape);
}

/// Completeness: the honest proof of a satisfied constraint system is accepted, both parties record
/// the same claims, and they stay synchronised.
pub proof fn law_complete<F: Field>(
    w: R1csWitness<F>,
    key: R1csKey<F>,
    acc: Claims<F>,
    p: FsState<F>,
    v: FsState<F>,
    whole: Seq<F>,
)
    requires
        w.belongs_to(key),
        w.satisfied(),
        field::all_valid(w.z@),
        p.canonical(),
        transcript::synced(p, v, whole),
        honest(w, key, acc, p).2.tape.is_prefix_of(whole),
    ensures
        ({
            let (proof, acc1, p1) = honest(w, key, acc, p);
            let (r, acc2, v1) = verdict(proof, key, acc, v);
            &&& r is Ok
            &&& acc2 == acc1
            &&& transcript::synced(p1, v1, whole)
            &&& p1.canonical()
        }),
{
    let n = key.row_vars();
    let later = honest(w, key, acc, p).2.tape;
    let tau = p.coins(n);
    transcript::lemma_coins_len(p, n);
    transcript::lemma_synced_squeeze_n(p, v, whole, n);
    let t1 = outer_table(w, tau);
    let (xs, p1) = sumcheck::prove_run(t1, n, p.squeeze_n(n));
    let row = sumcheck::bound_row(t1.columns, xs);
    let r_x = xs.reverse();
    let acc1 = outer::cached(acc, r_x, row[1], row[2], row[3]);
    sumcheck::lemma_run_extends(t1, n, p.squeeze_n(n));
    transcript::lemma_coins_len(p1, 3);
    let rho = weights(p1.coins(3));
    let t2 = inner::table(key, r_x, rho, w.z@);
    sumcheck::lemma_run_extends(t2, key.col_vars(), p1.squeeze_n(3));
    // the outer zero check
    lemma_columns_valid(w, key);
    outer::law_table_shaped(tau, w.az@, w.bz@, w.cz@);
    outer::law_total(tau, w.az@, w.bz@, w.cz@);
    sumcheck::lemma_step_complete(t1, n, p.squeeze_n(n), v.squeeze_n(n), whole, later);
    outer::law_output(tau, w.az@, w.bz@, w.cz@, acc, xs);
    let v1 = sumcheck::verify_run(F::of_int(0), n, outer::DEGREE as nat, v.squeeze_n(n)).1;
    // the inner reduction
    transcript::lemma_synced_squeeze_n(p1, v1, whole, 3);
    inner::law_table_shaped(key, r_x, rho, w.z@);
    inner::law_total(key, r_x, rho, w.z@);
    sumcheck::lemma_step_complete(
        t2,
        key.col_vars(),
        p1.squeeze_n(3),
        v1.squeeze_n(3),
        whole,
        later,
    );
    let ys = sumcheck::prove_run(t2, key.col_vars(), p1.squeeze_n(3)).0;
    inner::law_output(key, r_x, rho, w.z@, acc1, ys);
}

/// What three openings say of the row they were taken at.
pub open spec fn said<F: Field>(proof: SpartanProof<F>) -> F {
    proof.az_rx.times(proof.bz_rx).minus(proof.cz_rx)
}

/// The run of the outer zero check: its challenges with the last claim, and the transcript after.
pub open spec fn outer_run<F: Field>(key: R1csKey<F>, s: FsState<F>) -> (
    Result<(Seq<F>, F), SumcheckError>,
    FsState<F>,
) {
    let n = key.row_vars();
    sumcheck::verify_run(F::of_int(0), n, outer::DEGREE as nat, s.squeeze_n(n))
}

/// The weight of the row openings in the outer check.
pub open spec fn row_weight<F: Field>(key: R1csKey<F>, s: FsState<F>) -> F {
    poly::eq_mle(s.coins(key.row_vars()), outer_run(key, s).0->Ok_0.0.reverse())
}

/// The weight of the assignment's opening in the inner check.
pub open spec fn assignment_weight<F: Field>(
    proof: SpartanProof<F>,
    key: R1csKey<F>,
    s: FsState<F>,
) -> F {
    let r_x = outer_run(key, s).0->Ok_0.0.reverse();
    let s1 = outer_run(key, s).1;
    let rho = weights(s1.coins(3));
    let r_y = sumcheck::verify_run(
        rho.combine(proof.az_rx, proof.bz_rx, proof.cz_rx),
        key.col_vars(),
        inner::DEGREE as nat,
        s1.squeeze_n(3),
    ).0->Ok_0.0.reverse();
    rho.combine(
        key.evaluation(key.matrices.a_rows(), r_x, r_y),
        key.evaluation(key.matrices.b_rows(), r_x, r_y),
        key.evaluation(key.matrices.c_rows(), r_x, r_y),
    )
}

/// Where one proof is accepted, another whose row openings say something else of the row is refused
/// by the outer check, unless their weight cancels the difference.
pub proof fn law_changed_rows_refused<F: Field>(
    accepted: SpartanProof<F>,
    proof: SpartanProof<F>,
    key: R1csKey<F>,
    acc: Claims<F>,
    s: FsState<F>,
)
    requires
        verdict(accepted, key, acc, s).0 is Ok,
        row_weight(key, s).times(said(proof).minus(said(accepted))) != F::of_int(0),
    ensures
        verdict(proof, key, acc, s).0 == Err::<(), SpartanStageError>(SpartanStageError::OuterClaim),
{
    field::lemma_weighted_apart(row_weight(key, s), said(accepted), said(proof));
}

/// Where one proof is accepted, another whose row openings say the same of the row but have another
/// combination is refused by the inner sumcheck.
pub proof fn law_changed_combination_refused<F: Field>(
    accepted: SpartanProof<F>,
    proof: SpartanProof<F>,
    key: R1csKey<F>,
    acc: Claims<F>,
    s: FsState<F>,
)
    requires
        verdict(accepted, key, acc, s).0 is Ok,
        key.col_vars() > 0,
        said(proof) == said(accepted),
        ({
            let rho = weights(outer_run(key, s).1.coins(3));
            rho.combine(proof.az_rx, proof.bz_rx, proof.cz_rx) != rho.combine(
                accepted.az_rx,
                accepted.bz_rx,
                accepted.cz_rx,
            )
        }),
    ensures
        verdict(proof, key, acc, s).0 == Err::<(), SpartanStageError>(SpartanStageError::Sumcheck),
{
    let s1 = outer_run(key, s).1;
    let rho = weights(s1.coins(3));
    sumcheck::law_changed_claim_refused(
        rho.combine(accepted.az_rx, accepted.bz_rx, accepted.cz_rx),
        rho.combine(proof.az_rx, proof.bz_rx, proof.cz_rx),
        key.col_vars(),
        inner::DEGREE as nat,
        s1.squeeze_n(3),
    );
}

/// Where one proof is accepted, another with the same row openings and a different opening of the
/// assignment is refused by the inner check, unless its weight cancels the difference.
pub proof fn law_changed_assignment_refused<F: Field>(
    accepted: SpartanProof<F>,
    proof: SpartanProof<F>,
    key: R1csKey<F>,
    acc: Claims<F>,
    s: FsState<F>,
)
    requires
        verdict(accepted, key, acc, s).0 is Ok,
        proof.az_rx == accepted.az_rx,
        proof.bz_rx == accepted.bz_rx,
        proof.cz_rx == accepted.cz_rx,
        assignment_weight(accepted, key, s).times(proof.z_ry.minus(accepted.z_ry)) != F::of_int(0),
    ensures
        verdict(proof, key, acc, s).0 == Err::<(), SpartanStageError>(SpartanStageError::InnerClaim),
{
    field::lemma_weighted_apart(assignment_weight(accepted, key, s), accepted.z_ry, proof.z_ry);
}

/// The honest proof with changed row openings is refused by the outer check, unless their weight
/// cancels the difference.
pub proof fn law_dishonest_rows_refused<F: Field>(
    proof: SpartanProof<F>,
    w: R1csWitness<F>,
    key: R1csKey<F>,
    acc: Claims<F>,
    p: FsState<F>,
    v: FsState<F>,
    whole: Seq<F>,
)
    requires
        w.belongs_to(key),
        w.satisfied(),
        field::all_valid(w.z@),
        p.canonical(),
        transcript::synced(p, v, whole),
        honest(w, key, acc, p).2.tape.is_prefix_of(whole),
        row_weight(key, v).times(said(proof).minus(said(honest(w, key, acc, p).0))) != F::of_int(0),
    ensures
        verdict(proof, key, acc, v).0 == Err::<(), SpartanStageError>(SpartanStageError::OuterClaim),
{
    law_complete(w, key, acc, p, v, whole);
    law_changed_rows_refused(honest(w, key, acc, p).0, proof, key, acc, v);
}

/// The honest proof with a changed opening of the assignment is refused by the inner check, unless
/// its weight cancels the difference.
pub proof fn law_dishonest_assignment_refused<F: Field>(
    z: F,
    w: R1csWitness<F>,
    key: R1csKey<F>,
    acc: Claims<F>,
    p: FsState<F>,
    v: FsState<F>,
    whole: Seq<F>,
)
    requires
        w.belongs_to(key),
        w.satisfied(),
        field::all_valid(w.z@),
        p.canonical(),
        transcript::synced(p, v, whole),
        honest(w, key, acc, p).2.tape.is_prefix_of(whole),
        assignment_weight(honest(w, key, acc, p).0, key, v).times(
            z.minus(honest(w, key, acc, p).0.z_ry),
        ) != F::of_int(0),
    ensures
        verdict((SpartanProof { z_ry: z, ..honest(w, key, acc, p).0 }), key, acc, v).0 == Err::<
            (),
            SpartanStageError,
        >(SpartanStageError::InnerClaim),
{
    let truth = honest(w, key, acc, p).0;
    law_complete(w, key, acc, p, v, whole);
    law_changed_assignment_refused(truth, SpartanProof { z_ry: z, ..truth }, key, acc, v);
}

/// The matrix-vector products are canonical.
proof fn lemma_columns_valid<F: Field>(w: R1csWitness<F>, key: R1csKey<F>)
    requires
        w.belongs_to(key),
    ensures
        field::all_valid(w.az@),
        field::all_valid(w.bz@),
        field::all_valid(w.cz@),
{
    key::lemma_column_valid(key, key.matrices.a_rows(), w.z@);
    key::lemma_column_valid(key, key.matrices.b_rows(), w.z@);
    key::lemma_column_valid(key, key.matrices.c_rows(), w.z@);
}

/// How many elements the rounds of the outer check have.
pub open spec fn outer_read<F: Field>(key: R1csKey<F>) -> nat {
    key.row_vars() * (outer::DEGREE as nat + 1)
}

/// How many elements the rounds of both checks have.
pub open spec fn stage_read<F: Field>(key: R1csKey<F>) -> nat {
    outer_read(key) + key.col_vars() * (inner::DEGREE as nat + 1)
}

/// A change behind an accepted proof leaves its verdict as it is.
pub proof fn lemma_changed_later<F: Field>(
    proof: SpartanProof<F>,
    key: R1csKey<F>,
    acc: Claims<F>,
    s: FsState<F>,
    j: int,
    delta: F,
)
    requires
        verdict(proof, key, acc, s).0 is Ok,
        stage_read(key) <= j < s.tape.len(),
    ensures
        ({
            let (r, acc1, s1) = verdict(proof, key, acc, s);
            &&& verdict(proof, key, acc, sumcheck::changed(s, j, delta)) == (
                r,
                acc1,
                sumcheck::changed(s1, j - stage_read(key), delta),
            )
            &&& s1.tape.len() == s.tape.len() - stage_read(key)
        }),
{
    lemma_outer_later(key, s, j, delta);
    let s1 = outer_run(key, s).1;
    let k = j - outer_read(key);
    let rho = weights(s1.coins(3));
    sumcheck::lemma_changed_coins(s1, k, delta, 3);
    transcript::lemma_coins_len(s1, 3);
    sumcheck::lemma_changed_later(
        rho.combine(proof.az_rx, proof.bz_rx, proof.cz_rx),
        Seq::empty(),
        key.col_vars(),
        inner::DEGREE as nat,
        s1.squeeze_n(3),
        k,
        delta,
    );
}

/// A change behind the rounds of the outer check.
proof fn lemma_outer_later<F: Field>(key: R1csKey<F>, s: FsState<F>, j: int, delta: F)
    requires
        outer_run(key, s).0 is Ok,
        outer_read(key) <= j < s.tape.len(),
    ensures
        outer_run(key, sumcheck::changed(s, j, delta)) == (
            outer_run(key, s).0,
            sumcheck::changed(outer_run(key, s).1, j - outer_read(key), delta),
        ),
        outer_run(key, s).1.tape.len() == s.tape.len() - outer_read(key),
        sumcheck::changed(s, j, delta).coins(key.row_vars()) == s.coins(key.row_vars()),
{
    let n = key.row_vars();
    sumcheck::lemma_changed_coins(s, j, delta, n);
    transcript::lemma_coins_len(s, n);
    sumcheck::lemma_changed_later(
        F::of_int(0),
        Seq::empty(),
        n,
        outer::DEGREE as nat,
        s.squeeze_n(n),
        j,
        delta,
    );
}

/// An accepted proof is refused when any one element of its rounds is changed.
pub proof fn law_changed_round_refused<F: Field>(
    proof: SpartanProof<F>,
    key: R1csKey<F>,
    acc: Claims<F>,
    s: FsState<F>,
    j: int,
    delta: F,
)
    requires
        verdict(proof, key, acc, s).0 is Ok,
        0 <= j < stage_read(key),
        j < s.tape.len(),
        delta.valid(),
        delta != F::of_int(0),
    ensures
        verdict(proof, key, acc, sumcheck::changed(s, j, delta)).0 == Err::<(), SpartanStageError>(
            SpartanStageError::Sumcheck,
        ),
{
    let n = key.row_vars();
    if j < outer_read(key) {
        sumcheck::lemma_changed_coins(s, j, delta, n);
        sumcheck::law_changed_round_refused(
            F::of_int(0),
            Seq::empty(),
            n,
            outer::DEGREE as nat,
            s.squeeze_n(n),
            j,
            delta,
        );
    } else {
        lemma_outer_later(key, s, j, delta);
        let s1 = outer_run(key, s).1;
        let k = j - outer_read(key);
        let rho = weights(s1.coins(3));
        sumcheck::lemma_changed_coins(s1, k, delta, 3);
        sumcheck::law_changed_round_refused(
            rho.combine(proof.az_rx, proof.bz_rx, proof.cz_rx),
            Seq::empty(),
            key.col_vars(),
            inner::DEGREE as nat,
            s1.squeeze_n(3),
            k,
            delta,
        );
    }
}

/// The whole run between fresh parties with one label: the proof of a satisfied constraint system is
/// accepted, the verifier reads all of it, and both parties record the same claims.
pub proof fn law_round_trip<F: Field>(w: R1csWitness<F>, key: R1csKey<F>, label: Seq<u8>)
    requires
        w.belongs_to(key),
        w.satisfied(),
        field::all_valid(w.z@),
    ensures
        ({
            let none = Claims::<F>::empty();
            let p0 = transcript::fresh(label, Seq::empty());
            let (proof, recorded, p) = honest(w, key, none, p0);
            let (r, acc, v) = verdict(proof, key, none, transcript::fresh(label, p.tape));
            &&& r is Ok
            &&& acc == recorded
            &&& v.tape.len() == 0
        }),
{
    let none = Claims::<F>::empty();
    let p0 = transcript::fresh::<F>(label, Seq::empty());
    let p = honest(w, key, none, p0).2;
    transcript::law_fresh(label, p.tape);
    law_complete(w, key, none, p0, transcript::fresh(label, p.tape), p.tape);
}

/// Every claim that an honest Spartan stage leaves under a name is true of the column that the name
/// says: the value is the extension of that column at the recorded point. The three row claims are at
/// one point. The claims it hands over are the recorded ones.
pub proof fn law_named_claims<F: Field>(
    w: R1csWitness<F>,
    key: R1csKey<F>,
    acc: Claims<F>,
    p: FsState<F>,
)
    requires
        w.belongs_to(key),
        field::all_valid(w.z@),
        p.canonical(),
    ensures
        ({
            let (proof, acc1, p1) = honest(w, key, acc, p);
            let rows = key.log_cycles as nat + key.log_constraints as nat;
            let columns = key.log_cycles as nat + key.log_vars as nat;
            let told = |id: OpeningId, column: Seq<F>, vars: nat|
                acc1.contains_key(id) && acc1[id].0.len() == vars && acc1[id].1 == poly::mle(
                    column,
                    acc1[id].0,
                );
            let az = OpeningId::Virtual(VirtualPolynomial::SpartanAz, SumcheckId::SpartanOuter);
            let bz = OpeningId::Virtual(VirtualPolynomial::SpartanBz, SumcheckId::SpartanOuter);
            let cz = OpeningId::Virtual(VirtualPolynomial::SpartanCz, SumcheckId::SpartanOuter);
            let z = OpeningId::Virtual(
                VirtualPolynomial::SpartanWitnessZ,
                SumcheckId::SpartanInner,
            );
            &&& told(az, w.az@, rows)
            &&& told(bz, w.bz@, rows)
            &&& told(cz, w.cz@, rows)
            &&& told(z, w.z@, columns)
            &&& acc1[az].0 == acc1[bz].0
            &&& acc1[az].0 == acc1[cz].0
            &&& proof.az_rx == acc1[az].1
            &&& proof.bz_rx == acc1[bz].1
            &&& proof.cz_rx == acc1[cz].1
            &&& proof.z_ry == acc1[z].1
        }),
{
    let n = key.row_vars();
    let tau = p.coins(n);
    transcript::lemma_coins_len(p, n);
    let t1 = outer_table(w, tau);
    let (xs, p1) = sumcheck::prove_run(t1, n, p.squeeze_n(n));
    sumcheck::lemma_run_extends(t1, n, p.squeeze_n(n));
    transcript::lemma_coins_len(p1, 3);
    let rho = weights(p1.coins(3));
    let t2 = inner::table(key, xs.reverse(), rho, w.z@);
    let (ys, p2) = sumcheck::prove_run(t2, key.col_vars(), p1.squeeze_n(3));
    sumcheck::lemma_run_extends(t2, key.col_vars(), p1.squeeze_n(3));
    lemma_columns_valid(w, key);
    outer::law_table_shaped(tau, w.az@, w.bz@, w.cz@);
    sumcheck::lemma_bound_columns(t1, xs);
    inner::law_table_shaped(key, xs.reverse(), rho, w.z@);
    sumcheck::lemma_bound_columns(t2, ys);
    let row = sumcheck::final_row(t1.columns, xs);
    assert(row[1] == poly::mle(w.az@, xs.reverse()) && row[2] == poly::mle(w.bz@, xs.reverse()));
    assert(row[3] == poly::mle(w.cz@, xs.reverse()));
    assert(sumcheck::final_row(t2.columns, ys)[1] == poly::mle(w.z@, ys.reverse()));
}

} // verus!
