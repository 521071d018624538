use jolt_goldilocks::field::Field;
use jolt_goldilocks::framework::accumulator::{CommittedPolynomial, Openings, SumcheckId};
use jolt_goldilocks::framework::gruen::prove_claimed;
use jolt_goldilocks::framework::poly;
use jolt_goldilocks::framework::sumcheck::{verify, SumcheckClaim};
use jolt_goldilocks::framework::transcript::{ProverTranscript, VerifierTranscript};
use jolt_goldilocks::goldilocks::Goldilocks;
use jolt_goldilocks::zkvm::booleanity::{Booleanity, BooleanityParams, DEGREE};

type F = Goldilocks;

struct Rng(u64);
impl Rng {
    fn next(&mut self) -> u64 {
        self.0 = self.0.wrapping_add(0x9E37_79B9_7F4A_7C15);
        let mut z = self.0;
        z = (z ^ (z >> 30)).wrapping_mul(0xBF58_476D_1CE4_E5B9);
        z = (z ^ (z >> 27)).wrapping_mul(0x94D0_49BB_1331_11EB);
        z ^ (z >> 31)
    }
}

fn rand_vec(rng: &mut Rng, n: usize) -> Vec<F> {
    (0..n).map(|_| F::from_u64(rng.next())).collect()
}

fn dot(poly: &[F], eq: &[F]) -> F {
    poly.iter()
        .zip(eq.iter())
        .fold(F::from_u64(0), |a, (p, e)| a.add(p.mul(*e)))
}

fn reversed(xs: &[F]) -> Vec<F> {
    xs.iter().rev().copied().collect()
}

fn bool_cols(rng: &mut Rng, n_cols: usize, len: usize) -> Vec<Vec<F>> {
    (0..n_cols)
        .map(|_| (0..len).map(|_| F::from_u64(rng.next() & 1)).collect())
        .collect()
}

fn prove_zero(check: &mut Booleanity<F>, transcript: &mut ProverTranscript<F>) -> Vec<F> {
    let claim = check.input_claim();
    prove_claimed(&mut check.sum, &check.params.r, claim, transcript)
}

fn claim_of(num_vars: usize, claimed_sum: F) -> SumcheckClaim<F> {
    SumcheckClaim {
        num_vars,
        degree: DEGREE,
        claimed_sum,
    }
}

fn round_trip(seed: u64, log_k: usize, n_cols: usize) {
    let mut rng = Rng(seed);
    let k = 1usize << log_k;
    let r = rand_vec(&mut rng, log_k);
    let cols = bool_cols(&mut rng, n_cols, k);

    let mut prover_acc = Openings::<F>::new(log_k);
    let mut prover_t = ProverTranscript::<F>::new(b"booleanity");
    let params = BooleanityParams::new(r.clone(), n_cols, &mut prover_t);
    let mut prover = Booleanity::new_prover(params, cols.clone());
    let input_claim = prover.input_claim();
    assert_eq!(input_claim, F::from_u64(0), "booleanity is a zero-check");
    let challenges = prove_zero(&mut prover, &mut prover_t);
    prover.cache_openings(&mut prover_acc, &challenges);
    let narg = prover_t.into_proof();

    let mut verifier_acc = Openings::<F>::new(log_k);
    let mut verifier_t = VerifierTranscript::<F>::new(b"booleanity", narg);
    let vparams = BooleanityParams::new(r, n_cols, &mut verifier_t);
    let verifier = Booleanity::new_verifier(vparams);
    let eval =
        verify(&claim_of(log_k, input_claim), &mut verifier_t).expect("booleanity must verify");
    assert_eq!(eval.point, challenges);

    for i in 0..n_cols {
        let (pt, c) = prover_acc.get_committed_polynomial_opening(
            CommittedPolynomial::R1csAux(i),
            SumcheckId::Booleanity,
        );
        verifier_acc.append_dense(
            CommittedPolynomial::R1csAux(i),
            SumcheckId::Booleanity,
            pt,
            c,
        );
    }
    let expected = verifier.expected_output_claim(&verifier_acc, &challenges);
    assert_eq!(eval.value, expected);

    let eq_rho = poly::eq_evals(&reversed(&eval.point));
    let (_, b0) = prover_acc.get_committed_polynomial_opening(
        CommittedPolynomial::R1csAux(0),
        SumcheckId::Booleanity,
    );
    assert_eq!(b0, dot(&cols[0], &eq_rho));
}

#[test]
fn booleanity_round_trip() {
    for log_k in 1..=8 {
        round_trip(0xB001 + log_k as u64, log_k, 3);
    }
    round_trip(0xB0FF, 6, 1);
    round_trip(0xB0FE, 5, 5);
}

#[test]
fn non_boolean_column_mismatch() {
    let log_k = 4;
    let mut rng = Rng(0xBAD0);
    let k = 1usize << log_k;
    let r = rand_vec(&mut rng, log_k);
    let mut cols = bool_cols(&mut rng, 1, k);
    cols[0][3] = F::from_u64(7);
    let excess = F::from_u64(42).mul(poly::eq_evals(&r)[3]);

    let mut acc = Openings::<F>::new(log_k);
    let mut prover_t = ProverTranscript::<F>::new(b"booleanity");
    let params = BooleanityParams::new(r.clone(), 1, &mut prover_t);
    let mut prover = Booleanity::new_prover(params, cols);
    let challenges = prove_zero(&mut prover, &mut prover_t);
    prover.cache_openings(&mut acc, &challenges);
    let narg = prover_t.into_proof();

    let mut verifier_t = VerifierTranscript::<F>::new(b"booleanity", narg);
    let vparams = BooleanityParams::new(r.clone(), 1, &mut verifier_t);
    let verifier = Booleanity::new_verifier(vparams);
    let eval = verify(&claim_of(log_k, F::from_u64(0)), &mut verifier_t)
        .expect("rounds are internally consistent");
    let expected = verifier.expected_output_claim(&acc, &challenges);
    assert_ne!(eval.value, expected);

    // The error of the zero claim is carried by one factor per round.
    let one = F::from_u64(1);
    let carried = challenges
        .iter()
        .zip(r.iter().rev())
        .fold(one, |acc, (x, w)| {
            let weight = one.sub(*w).mul(one.sub(*x)).add(w.mul(*x));
            acc.mul(x.mul(weight).mul(w.invert()))
        });
    assert_eq!(
        eval.value,
        expected.add(F::from_u64(0).sub(excess).mul(carried))
    );
}

#[test]
fn booleanity_tampered_proof_rejected() {
    let log_k = 4;
    let mut rng = Rng(0xB0AA);
    let k = 1usize << log_k;
    let r = rand_vec(&mut rng, log_k);
    let cols = bool_cols(&mut rng, 2, k);
    let mut prover_t = ProverTranscript::<F>::new(b"t");
    let params = BooleanityParams::new(r.clone(), 2, &mut prover_t);
    let mut prover = Booleanity::new_prover(params, cols);
    let _ = prove_zero(&mut prover, &mut prover_t);
    let mut narg = prover_t.into_proof();
    narg[0] = narg[0].add(F::from_u64(1));
    let mut verifier_t = VerifierTranscript::<F>::new(b"t", narg);
    let _ = BooleanityParams::new(r, 2, &mut verifier_t);
    assert!(verify(&claim_of(log_k, F::from_u64(0)), &mut verifier_t).is_err());
}
