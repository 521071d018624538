use jolt_goldilocks::field::Field;
use jolt_goldilocks::framework::accumulator::{CommittedPolynomial, Openings, SumcheckId};
use jolt_goldilocks::framework::transcript::{ProverTranscript, VerifierTranscript};
use jolt_goldilocks::goldilocks::Goldilocks;
use jolt_goldilocks::zkvm::logup::GkrError;
use jolt_goldilocks::zkvm::range_check::{
    prove_range_check, verify_range_check, RangeCheckError, RangeCheckProof,
};

type F = Goldilocks;

struct Rng(u64);
impl Rng {
    fn next(&mut self) -> u64 {
        self.0 = self.0.wrapping_add(0x9E37_79B9_7F4A_7C15);
        let mut z = self.0;
        z = (z ^ (z >> 30)).wrapping_mul(0xBF58_476D_1CE4_E5B9);
        z = (z ^ (z >> 27)).wrapping_mul(0x94D0_49BB_1331_11EB);
        z ^ (z >> 31)
    }
}

fn in_range_columns(rng: &mut Rng, n_cols: usize, t: usize, m_pad: u32) -> Vec<Vec<u32>> {
    (0..n_cols)
        .map(|_| (0..t).map(|_| (rng.next() as u32) % m_pad).collect())
        .collect()
}

fn round_trip(seed: u64, log_t: usize, log_m: usize, n_cols: usize) {
    let t = 1usize << log_t;
    let mut rng = Rng(seed);
    let columns = in_range_columns(&mut rng, n_cols, t, 1u32 << log_m);

    let mut prover_acc = Openings::<F>::new(log_t);
    let mut prover_t = ProverTranscript::<F>::new(b"range-check");
    let proof = prove_range_check(&columns, log_t, log_m, 0, &mut prover_acc, &mut prover_t)
        .expect("in-range columns must prove");
    let narg = prover_t.into_proof();

    let mut verifier_acc = Openings::<F>::new(log_t);
    let mut verifier_t = VerifierTranscript::<F>::new(b"range-check", narg);
    verify_range_check(
        &proof,
        log_t,
        log_m,
        n_cols,
        0,
        &mut verifier_acc,
        &mut verifier_t,
    )
    .expect("range check must verify");

    for (poly, sc) in [
        (CommittedPolynomial::RaDense(0), SumcheckId::PushforwardGkr),
        (
            CommittedPolynomial::Pushforward(0),
            SumcheckId::PushforwardGkr,
        ),
        (
            CommittedPolynomial::Pushforward(0),
            SumcheckId::PushforwardReduction,
        ),
    ] {
        let (pp, pc) = prover_acc.get_committed_polynomial_opening(poly, sc);
        let (vp, vc) = verifier_acc.get_committed_polynomial_opening(poly, sc);
        assert_eq!(pp, vp, "opening point agrees for {poly:?}/{sc:?}");
        assert_eq!(pc, vc, "opening claim agrees for {poly:?}/{sc:?}");
    }
}

#[test]
fn range_check_round_trip() {
    round_trip(0x9001, 4, 4, 1);
    round_trip(0x9002, 5, 4, 3);
    round_trip(0x9003, 4, 5, 2);
    round_trip(0x9004, 6, 3, 4);
}

#[test]
fn out_of_range_rejected() {
    let (log_t, log_m) = (4usize, 4usize);
    let mut rng = Rng(0x90FE);
    let mut columns = in_range_columns(&mut rng, 1, 1usize << log_t, 1u32 << log_m);
    columns[0][3] = (1u32 << log_m) + 5;
    let mut acc = Openings::<F>::new(log_t);
    let mut transcript = ProverTranscript::<F>::new(b"range-check");
    assert!(matches!(
        prove_range_check(&columns, log_t, log_m, 0, &mut acc, &mut transcript),
        Err(RangeCheckError::OutOfRange),
    ));
    // The bound itself is out of range, and the value below it is not.
    columns[0][3] = 1u32 << log_m;
    assert!(matches!(
        prove_range_check(&columns, log_t, log_m, 0, &mut acc, &mut transcript),
        Err(RangeCheckError::OutOfRange),
    ));
    columns[0][3] = (1u32 << log_m) - 1;
    assert!(prove_range_check(&columns, log_t, log_m, 0, &mut acc, &mut transcript).is_ok());
}

#[test]
fn range_check_tampered_proof_rejected() {
    let (log_t, log_m, n_cols) = (4usize, 4usize, 2usize);
    let mut rng = Rng(0x90AB);
    let columns = in_range_columns(&mut rng, n_cols, 1usize << log_t, 1u32 << log_m);
    let mut prover_acc = Openings::<F>::new(log_t);
    let mut prover_t = ProverTranscript::<F>::new(b"range-check");
    let proof = prove_range_check(&columns, log_t, log_m, 0, &mut prover_acc, &mut prover_t)
        .expect("prove");
    let mut narg = prover_t.into_proof();
    let verdict = |proof: &RangeCheckProof<F>, narg: Vec<F>| {
        let mut verifier_acc = Openings::<F>::new(log_t);
        let mut verifier_t = VerifierTranscript::<F>::new(b"range-check", narg);
        verify_range_check(
            proof,
            log_t,
            log_m,
            n_cols,
            0,
            &mut verifier_acc,
            &mut verifier_t,
        )
    };
    assert_eq!(verdict(&proof, narg.clone()), Ok(()));
    assert_eq!(
        verdict(&proof, Vec::new()),
        Err(RangeCheckError::Gkr(GkrError::Sumcheck))
    );
    narg[0] = narg[0].add(F::from_u64(1));
    assert!(verdict(&proof, narg).is_err());
}
