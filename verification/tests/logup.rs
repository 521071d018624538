use jolt_goldilocks::field::Field;
use jolt_goldilocks::framework::accumulator::{
    CommittedPolynomial, Openings, SumcheckId, VirtualPolynomial,
};
use jolt_goldilocks::framework::gruen::prove_claimed;
use jolt_goldilocks::framework::poly;
use jolt_goldilocks::framework::sumcheck::{prove, verify, SumcheckClaim};
use jolt_goldilocks::framework::transcript::{ProverTranscript, VerifierTranscript};
use jolt_goldilocks::goldilocks::Goldilocks;
use jolt_goldilocks::zkvm::logup::circuit::Circuit;
use jolt_goldilocks::zkvm::logup::driver::{
    prove_family, prove_family_per_chunk, prove_read_raf_pushforward, verify_family,
    verify_family_per_chunk, verify_read_raf_pushforward, ChunkPushforward, ChunkVerifierInput,
    FamilyVerifierParams, ReadRafPushforward,
};
use jolt_goldilocks::zkvm::logup::gkr::{
    prove_family_gkr, verify_circuit, verify_family_gkr,
};
use jolt_goldilocks::zkvm::logup::layer::{f_combine, GkrLayer};
use jolt_goldilocks::zkvm::logup::pushforward::{
    claim_eval, prepare_family, prepare_family_verifier, Family,
};
use jolt_goldilocks::zkvm::logup::{
    idx_mle_lsb, lsb_eq_table, mle_eval_lsb, CircuitTag, GkrError,
};
use jolt_goldilocks::zkvm::read_raf_stage::{
    prove_read_raf, verify_read_raf, ReadRafInputs, ReadRafStageError,
};
use jolt_goldilocks::zkvm::shout_read_raf::{
    OneHotReadRaf, OneHotReadRafParams, RaFamily, ReadRafStage,
};

type F = Goldilocks;

struct Rng(u64);
impl Rng {
    fn next(&mut self) -> u64 {
        self.0 = self.0.wrapping_add(0x9E37_79B9_7F4A_7C15);
        let mut z = self.0;
        z = (z ^ (z >> 30)).wrapping_mul(0xBF58_476D_1CE4_E5B9);
        z = (z ^ (z >> 27)).wrapping_mul(0x94D0_49BB_1331_11EB);
        z ^ (z >> 31)
    }
}

fn rand_vec(rng: &mut Rng, n: usize) -> Vec<F> {
    (0..n).map(|_| F::from_u64(rng.next())).collect()
}

fn dot(poly: &[F], eq: &[F]) -> F {
    poly.iter()
        .zip(eq.iter())
        .fold(F::from_u64(0), |a, (p, e)| a.add(p.mul(*e)))
}

fn reversed(xs: &[F]) -> Vec<F> {
    xs.iter().rev().copied().collect()
}


fn total(xs: &[F]) -> F {
    xs.iter().fold(F::from_u64(0), |a, x| a.add(*x))
}

// The fraction tree.

#[test]
fn root_is_fractional_sum() {
    let mut rng = Rng(0xC1);
    for log_size in 0..=6 {
        let n = 1usize << log_size;
        let num: Vec<F> = (0..n).map(|_| F::from_u64(rng.next())).collect();
        let denom: Vec<F> = (0..n).map(|_| F::from_u64(rng.next() | 1)).collect();
        let direct = num
            .iter()
            .zip(denom.iter())
            .fold(F::from_u64(0), |acc, (nu, de)| {
                acc.add(nu.mul(de.invert()))
            });
        let circuit = Circuit::build(num, denom, log_size);
        let (rn, rd) = circuit.root();
        assert_eq!(rn.mul(rd.invert()), direct, "log_size={log_size}");
        assert_eq!(circuit.log_size(), log_size);
        assert_eq!(circuit.level(log_size).len(), n);
    }
}

#[test]
fn equal_sums_satisfy_histogram_identity() {
    let a = Circuit::build(
        vec![F::from_u64(1), F::from_u64(1)],
        vec![F::from_u64(2), F::from_u64(3)],
        1,
    );
    let b = Circuit::build(vec![F::from_u64(5)], vec![F::from_u64(6)], 0);
    let (na, da) = a.root();
    let (nb, db) = b.root();
    assert_eq!(na.mul(db), nb.mul(da));
    assert_eq!((na, da), (F::from_u64(5), F::from_u64(6)));
}

// The tables, least significant variable first.

#[test]
fn index_column_is_its_own_table() {
    let mut rng = Rng(0x1D);
    let point = rand_vec(&mut rng, 5);
    let column: Vec<F> = (0..32).map(F::from_u64).collect();
    assert_eq!(idx_mle_lsb(&point), mle_eval_lsb(&column, &point));
    assert_eq!(lsb_eq_table(&point), poly::eq_evals(&reversed(&point)));
    assert_eq!(
        mle_eval_lsb(&column, &[1, 0, 1, 0, 1].map(F::from_u64)),
        F::from_u64(21)
    );
}

// One layer.

fn layer_case(rng: &mut Rng, k: usize) -> (F, F, Vec<F>, Vec<(F, F)>, F) {
    let half = 1usize << k;
    let alpha = F::from_u64(rng.next());
    let beta = F::from_u64(rng.next());
    let point = rand_vec(rng, k);
    let level: Vec<(F, F)> = (0..(2 * half))
        .map(|_| (F::from_u64(rng.next()), F::from_u64(rng.next())))
        .collect();
    let f_vals: Vec<F> = (0..half)
        .map(|i| {
            let (n0, d0) = level[2 * i];
            let (n1, d1) = level[2 * i + 1];
            f_combine(alpha, beta, n0, n1, d0, d1)
        })
        .collect();
    let input_claim = mle_eval_lsb(&f_vals, &point);
    assert_eq!(input_claim, dot(&f_vals, &lsb_eq_table(&point)));
    (alpha, beta, point, level, input_claim)
}

fn layer_round_trip(seed: u64, k: usize) {
    let mut rng = Rng(seed);
    let (alpha, beta, point, level, input_claim) = layer_case(&mut rng, k);
    let mut instance = GkrLayer::new(&level, point.clone(), alpha, beta, input_claim);
    let mut prover_t = ProverTranscript::<F>::new(b"gkr-layer");
    let weights = reversed(&point);
    let challenges = prove_claimed(&mut instance.sum, &weights, input_claim, &mut prover_t);
    assert_eq!(challenges.len(), k);
    let narg = prover_t.into_proof();

    let claim = SumcheckClaim {
        num_vars: k,
        degree: 3,
        claimed_sum: input_claim,
    };
    let mut verifier_t = VerifierTranscript::<F>::new(b"gkr-layer", narg);
    let eval = verify(&claim, &mut verifier_t).expect("layer must verify");
    assert_eq!(eval.point, challenges);

    let (nl, nr, dl, dr) = instance.leaf_values();
    let eq_bound = poly::eq_at(&point, &eval.point);
    assert_eq!(
        eval.value,
        eq_bound.mul(f_combine(alpha, beta, nl, nr, dl, dr))
    );
    assert_eq!(eval.value, instance.expected_output_claim());
    assert_eq!(eq_bound, instance.bound_eq_scalar());
}

#[test]
fn gkr_layer_round_trip() {
    for k in 0..=8 {
        layer_round_trip(0x1A00 + k as u64, k);
    }
}

#[test]
fn tampered_layer_rejected() {
    let mut rng = Rng(0x1AFE);
    let k = 4;
    let (alpha, beta, point, level, input_claim) = layer_case(&mut rng, k);
    let weights = reversed(&point);
    let mut instance = GkrLayer::new(&level, point, alpha, beta, input_claim);
    let mut prover_t = ProverTranscript::<F>::new(b"t");
    let _ = prove_claimed(&mut instance.sum, &weights, input_claim, &mut prover_t);
    let mut narg = prover_t.into_proof();
    for (i, value) in (1u64..=4).enumerate() {
        narg[i] = F::from_u64(value);
    }
    let claim = SumcheckClaim {
        num_vars: k,
        degree: 3,
        claimed_sum: input_claim,
    };
    let mut verifier_t = VerifierTranscript::<F>::new(b"t", narg);
    assert!(verify(&claim, &mut verifier_t).is_err());
}

// The pushforward of a family.

fn synth_family(rng: &mut Rng, log_t: usize, log_d: usize, log_m: usize) -> Family<F> {
    let t = 1usize << log_t;
    let d = 1usize << log_d;
    let k_logical = 1u32 << log_m.min(4);
    let indices: Vec<Vec<u32>> = (0..d)
        .map(|_| (0..t).map(|_| (rng.next() as u32) % k_logical).collect())
        .collect();
    Family {
        name: "synth",
        log_t,
        log_d,
        log_m,
        r_row: rand_vec(rng, log_t),
        r_col: rand_vec(rng, log_m),
        indices,
    }
}

fn main_identity_holds(seed: u64, log_t: usize, log_d: usize, log_m: usize) {
    let mut rng = Rng(seed);
    let family = synth_family(&mut rng, log_t, log_d, log_m);
    let claims = claim_eval(&family);
    assert_eq!(claims.len(), 1 << log_d);

    let mut transcript = ProverTranscript::<F>::new(b"logup-prep");
    let data = prepare_family(&family, &claims, &mut transcript).unwrap();
    assert_eq!(data.eq_m_row.len(), (1 << log_t) * (1 << log_d));
    assert_eq!(data.leaf_denom_a.len(), (1 << log_t) * (1 << log_d));
    assert_eq!(data.pushforward.len(), 1 << log_m);
    assert_eq!(data.leaf_denom_b.len(), 1 << log_m);
    assert_eq!(data.r_m_row.len(), log_t + log_d);
    assert_eq!(
        data.combined_claim,
        mle_eval_lsb(&data.pushforward, &family.r_col)
    );
    assert_eq!(total(&data.pushforward), total(&data.eq_m_row));
}

#[test]
fn pushforward_main_identity() {
    main_identity_holds(0xF001, 6, 2, 4);
    main_identity_holds(0xF002, 5, 1, 4);
    main_identity_holds(0xF003, 4, 3, 5);
    main_identity_holds(0xF004, 7, 2, 3);
}

#[test]
fn corrupted_claim_trips_main_identity() {
    let mut rng = Rng(0xFEED);
    let family = synth_family(&mut rng, 5, 2, 4);
    let mut claims = claim_eval(&family);
    claims[0] = claims[0].add(F::from_u64(1));
    let mut transcript = ProverTranscript::<F>::new(b"logup-prep");
    assert!(matches!(
        prepare_family(&family, &claims, &mut transcript),
        Err(GkrError::MainIdentity),
    ));
}

// The argument of a family.

fn leaf_keys(i: usize) -> [(CommittedPolynomial, SumcheckId); 3] {
    [
        (CommittedPolynomial::RaDense(i), SumcheckId::PushforwardGkr),
        (
            CommittedPolynomial::Pushforward(i),
            SumcheckId::PushforwardGkr,
        ),
        (
            CommittedPolynomial::Pushforward(i),
            SumcheckId::PushforwardReduction,
        ),
    ]
}

fn assert_openings_agree(prover: &Openings<F>, verifier: &Openings<F>, i: usize) {
    for (poly, sc) in leaf_keys(i) {
        let (pp, pc) = prover.get_committed_polynomial_opening(poly, sc);
        let (vp, vc) = verifier.get_committed_polynomial_opening(poly, sc);
        assert_eq!(pp, vp, "opening point agrees for {poly:?}/{sc:?}");
        assert_eq!(pc, vc, "opening claim agrees for {poly:?}/{sc:?}");
    }
}

fn family_round_trip(seed: u64, log_t: usize, log_d: usize, log_m: usize) {
    let mut rng = Rng(seed);
    let family = synth_family(&mut rng, log_t, log_d, log_m);
    let claims = claim_eval(&family);

    let mut prover_acc = Openings::<F>::new(log_t);
    let mut prover_t = ProverTranscript::<F>::new(b"logup-gkr");
    let data = prepare_family(&family, &claims, &mut prover_t).expect("prep");
    let proof = prove_family_gkr(&data, 0, &mut prover_acc, &mut prover_t);
    let narg = prover_t.into_proof();

    let mut verifier_acc = Openings::<F>::new(log_t);
    let mut verifier_t = VerifierTranscript::<F>::new(b"logup-gkr", narg);
    let view = prepare_family_verifier(
        log_t,
        log_d,
        log_m,
        &family.r_row,
        &family.r_col,
        &claims,
        &mut verifier_t,
    );
    verify_family_gkr(&view, &proof, 0, &mut verifier_acc, &mut verifier_t)
        .expect("gkr must verify");
    assert_openings_agree(&prover_acc, &verifier_acc, 0);
    let (_, red) = verifier_acc.get_committed_polynomial_opening(
        CommittedPolynomial::Pushforward(0),
        SumcheckId::PushforwardReduction,
    );
    assert_eq!(red, data.combined_claim);
}

#[test]
fn pushforward_gkr_round_trip() {
    family_round_trip(0x6001, 6, 2, 4);
    family_round_trip(0x6002, 5, 1, 4);
    family_round_trip(0x6003, 4, 3, 5);
    family_round_trip(0x6004, 7, 2, 3);
    family_round_trip(0x6005, 3, 2, 5);
}

/// The verdict on an honest proof of a family with one element of its transcript changed.
fn tampered_verdict(seed: u64, position: fn(usize) -> usize) -> Result<(), GkrError> {
    verdict_with(seed, &position)
}

fn changed_verdict(seed: u64, off: usize) -> Result<(), GkrError> {
    verdict_with(seed, &|_| off)
}

fn verdict_with(seed: u64, position: &dyn Fn(usize) -> usize) -> Result<(), GkrError> {
    let mut rng = Rng(seed);
    let (log_t, log_d, log_m) = (5, 2, 4);
    let family = synth_family(&mut rng, log_t, log_d, log_m);
    let claims = claim_eval(&family);
    let mut prover_acc = Openings::<F>::new(log_t);
    let mut prover_t = ProverTranscript::<F>::new(b"logup-gkr");
    let data = prepare_family(&family, &claims, &mut prover_t).expect("prep");
    let proof = prove_family_gkr(&data, 0, &mut prover_acc, &mut prover_t);
    let mut narg = prover_t.into_proof();
    let off = position(narg.len());
    narg[off] = narg[off].add(F::from_u64(1));

    let mut verifier_acc = Openings::<F>::new(log_t);
    let mut verifier_t = VerifierTranscript::<F>::new(b"logup-gkr", narg);
    let view = prepare_family_verifier(
        log_t,
        log_d,
        log_m,
        &family.r_row,
        &family.r_col,
        &claims,
        &mut verifier_t,
    );
    verify_family_gkr(&view, &proof, 0, &mut verifier_acc, &mut verifier_t)
}

#[test]
fn tampered_layer_proof_rejected() {
    assert!(tampered_verdict(0x6FEE, |len| len / 3).is_err());
}

#[test]
fn tampered_root_rejected() {
    assert!(tampered_verdict(0x6FAB, |_| 0).is_err());
    assert!(tampered_verdict(0x6FAB, |len| len - 1).is_err());
}

#[test]
fn every_changed_layer_element_is_refused() {
    // Behind the two roots, layer zero sends four values, and layer one a round and four values.
    let layer = |k| Err(GkrError::LayerConsistency { circuit: CircuitTag::A, layer: k });
    for off in 2..6 {
        assert_eq!(changed_verdict(0x6FCD, off), layer(0));
    }
    for off in 6..10 {
        assert_eq!(changed_verdict(0x6FCD, off), Err(GkrError::Sumcheck));
    }
    for off in 10..14 {
        assert_eq!(changed_verdict(0x6FCD, off), layer(1));
    }
}

#[test]
fn a_missing_layer_is_refused() {
    let mut verifier_t = VerifierTranscript::<F>::new(b"short", Vec::new());
    let verdict = verify_circuit(2, CircuitTag::A, &mut verifier_t);
    assert!(matches!(verdict, Err(GkrError::Sumcheck)));
}

#[test]
fn error_messages() {
    let layer = GkrError::LayerConsistency {
        circuit: CircuitTag::B,
        layer: 12,
    };
    assert_eq!(
        layer.message(),
        "per-layer sumcheck consistency failed (circuit B, layer 12)"
    );
    let leaf = GkrError::LeafStructural {
        circuit: CircuitTag::A,
    };
    assert_eq!(
        leaf.message(),
        "GKR leaf structural check failed (circuit A)"
    );
    assert_eq!(
        GkrError::MainIdentity.message(),
        "LogUp* main identity (eq. 5) failed"
    );
}

// The hand-over from the read argument.

fn one_hot(indices: &[u32], k: usize) -> Vec<F> {
    let t = indices.len();
    let mut column = vec![F::from_u64(0); k * t];
    for (j, &i) in indices.iter().enumerate() {
        column[i as usize * t + j] = F::from_u64(1);
    }
    column
}

struct ChunkOut {
    idx: Vec<u32>,
    log_k: usize,
    r_col: Vec<F>,
    r_cycle: Vec<F>,
    claim: F,
}

fn run_read_raf(seed: u64, log_k0: usize, log_k1: usize, log_t: usize) -> [ChunkOut; 2] {
    let mut rng = Rng(seed);
    let k0 = 1usize << log_k0;
    let k1 = 1usize << log_k1;
    let t = 1usize << log_t;
    let idx0: Vec<u32> = (0..t).map(|_| (rng.next() as u32) % (k0 as u32)).collect();
    let idx1: Vec<u32> = (0..t).map(|_| (rng.next() as u32) % (k1 as u32)).collect();
    let r_cycle = rand_vec(&mut rng, log_t);
    let val_addr = rand_vec(&mut rng, k0 * k1);
    let rv_key = (
        VirtualPolynomial::LookupOutput,
        SumcheckId::InstructionClaimReduction,
    );
    let eq_cycle = poly::eq_evals(&r_cycle);
    let rv = (0..t).fold(F::from_u64(0), |a, j| {
        let kk = (idx0[j] as usize) * k1 + (idx1[j] as usize);
        a.add(eq_cycle[j].mul(val_addr[kk]))
    });
    let stages = vec![ReadRafStage {
        r_cycle: r_cycle.clone(),
        val_addr,
        rv_key,
    }];

    let mut acc = Openings::<F>::new(log_t);
    acc.append_virtual(rv_key.0, rv_key.1, r_cycle, rv);
    let mut transcript = ProverTranscript::<F>::new(b"readraf");
    let params = OneHotReadRafParams::new(
        RaFamily::Instruction,
        SumcheckId::InstructionReadRaf,
        vec![log_k0, log_k1],
        log_t,
        stages,
        &mut transcript,
    );
    assert_eq!(params.input_claim(&acc), params.gamma_powers[0].mul(rv));
    let ra_chunks = vec![one_hot(&idx0, k0), one_hot(&idx1, k1)];
    let mut prover = OneHotReadRaf::new_prover(params, &ra_chunks);
    let challenges = prove(&mut prover.sum, log_k0 + log_k1 + log_t, &mut transcript);
    prover.cache_openings(&mut acc, &challenges);

    let id = SumcheckId::InstructionReadRaf;
    let (pt0, c0) = acc.get_committed_polynomial_opening(CommittedPolynomial::InstructionRa(0), id);
    let (pt1, c1) = acc.get_committed_polynomial_opening(CommittedPolynomial::InstructionRa(1), id);
    [
        ChunkOut {
            idx: idx0,
            log_k: log_k0,
            r_col: pt0[..log_k0].to_vec(),
            r_cycle: pt0[log_k0..].to_vec(),
            claim: c0,
        },
        ChunkOut {
            idx: idx1,
            log_k: log_k1,
            r_col: pt1[..log_k1].to_vec(),
            r_cycle: pt1[log_k1..].to_vec(),
            claim: c1,
        },
    ]
}

#[test]
fn readraf_handoff_round_trip() {
    let log_t = 4usize;
    let [c0, c1] = run_read_raf(0x7E51, 2, 2, log_t);
    assert_eq!(c0.r_cycle, c1.r_cycle);
    for chunk in [&c0, &c1] {
        let family = Family::<F> {
            name: "chunk",
            log_t,
            log_d: 0,
            log_m: chunk.log_k,
            r_row: reversed(&chunk.r_cycle),
            r_col: reversed(&chunk.r_col),
            indices: vec![chunk.idx.clone()],
        };
        assert_eq!(chunk.claim, claim_eval(&family)[0]);
    }

    let (log_d, log_m) = (1, c0.log_k);
    let r_row = reversed(&c0.r_cycle);
    let r_col = reversed(&c0.r_col);
    let family = Family::<F> {
        name: "InstructionRa",
        log_t,
        log_d,
        log_m,
        r_row: r_row.clone(),
        r_col: r_col.clone(),
        indices: vec![c0.idx.clone(), c1.idx.clone()],
    };
    let input_claims = claim_eval(&family);
    assert_eq!(input_claims[0], c0.claim);

    let mut prover_acc = Openings::<F>::new(log_t);
    let mut prover_t = ProverTranscript::<F>::new(b"logup-driver");
    let (proof, _) =
        prove_family(&family, &input_claims, 0, &mut prover_acc, &mut prover_t).expect("prove");
    let narg = prover_t.into_proof();
    let vparams = FamilyVerifierParams {
        log_t,
        log_d,
        log_m,
        r_row,
        r_col,
    };
    let mut verifier_acc = Openings::<F>::new(log_t);
    let mut verifier_t = VerifierTranscript::<F>::new(b"logup-driver", narg);
    verify_family(
        &vparams,
        &input_claims,
        &proof,
        0,
        &mut verifier_acc,
        &mut verifier_t,
    )
    .expect("verify");
    assert_openings_agree(&prover_acc, &verifier_acc, 0);
}

fn to_chunks(out: &[ChunkOut]) -> Vec<ChunkPushforward<F>> {
    out.iter()
        .map(|c| ChunkPushforward {
            log_m: c.log_k,
            r_col: c.r_col.clone(),
            indices: c.idx.clone(),
            claim: c.claim,
        })
        .collect()
}

#[test]
fn readraf_per_chunk_option_c_round_trip() {
    let log_t = 4usize;
    let out = run_read_raf(0xC0DE, 2, 2, log_t);
    assert_eq!(out[0].r_cycle, out[1].r_cycle);
    assert_ne!(out[0].r_col, out[1].r_col);
    let r_cycle = out[0].r_cycle.clone();
    let chunks = to_chunks(&out);

    let mut prover_acc = Openings::<F>::new(log_t);
    let mut prover_t = ProverTranscript::<F>::new(b"option-c");
    let (proofs, pushforwards) = prove_family_per_chunk(
        "InstructionRa",
        log_t,
        0,
        &r_cycle,
        &chunks,
        &mut prover_acc,
        &mut prover_t,
    )
    .expect("per-chunk prove");
    assert_eq!(proofs.len(), 2);
    assert_eq!(pushforwards.len(), 2);
    let narg = prover_t.into_proof();

    let vchunks: Vec<ChunkVerifierInput<F>> = out
        .iter()
        .map(|c| ChunkVerifierInput {
            log_m: c.log_k,
            r_col: c.r_col.clone(),
            claim: c.claim,
        })
        .collect();
    let mut verifier_acc = Openings::<F>::new(log_t);
    let mut verifier_t = VerifierTranscript::<F>::new(b"option-c", narg);
    verify_family_per_chunk(
        log_t,
        0,
        &r_cycle,
        &vchunks,
        &proofs,
        &mut verifier_acc,
        &mut verifier_t,
    )
    .expect("per-chunk verify");
    for idx in 0..2usize {
        assert_openings_agree(&prover_acc, &verifier_acc, idx);
    }
}

#[test]
fn corrupted_chunk_claim_trips_main_identity() {
    let log_t = 4usize;
    let out = run_read_raf(0x0BAD_C0DE, 2, 2, log_t);
    let r_cycle = out[0].r_cycle.clone();
    let mut chunks = to_chunks(&out);
    chunks[1].claim = chunks[1].claim.add(F::from_u64(1));
    let mut acc = Openings::<F>::new(log_t);
    let mut transcript = ProverTranscript::<F>::new(b"option-c");
    assert!(matches!(
        prove_family_per_chunk(
            "InstructionRa",
            log_t,
            0,
            &r_cycle,
            &chunks,
            &mut acc,
            &mut transcript,
        ),
        Err(GkrError::MainIdentity),
    ));
}

fn read_raf_pushforward_round_trip(
    seed: u64,
    log_m_chunks: Vec<usize>,
    log_t: usize,
    base_index: usize,
    ra_family: RaFamily,
    read_raf_id: SumcheckId,
    name: &'static str,
) {
    let d = log_m_chunks.len();
    let mut rng = Rng(seed);
    let k_dims: Vec<usize> = log_m_chunks.iter().map(|w| 1usize << w).collect();
    let mut suffix = vec![1usize; d];
    for i in (1..d).rev() {
        suffix[i - 1] = suffix[i] * k_dims[i];
    }
    let k_total: usize = k_dims.iter().product();
    let t = 1usize << log_t;
    let indices: Vec<Vec<u32>> = (0..d)
        .map(|i| {
            (0..t)
                .map(|_| (rng.next() as u32) % (k_dims[i] as u32))
                .collect()
        })
        .collect();

    let r_cycle = rand_vec(&mut rng, log_t);
    let val_addr = rand_vec(&mut rng, k_total);
    let rv_key = (
        VirtualPolynomial::LookupOutput,
        SumcheckId::InstructionClaimReduction,
    );
    let combined: Vec<usize> = (0..t)
        .map(|j| {
            indices
                .iter()
                .zip(suffix.iter())
                .fold(0usize, |a, (idx, &s)| a + (idx[j] as usize) * s)
        })
        .collect();
    let eq = poly::eq_evals(&r_cycle);
    let rv = (0..t).fold(F::from_u64(0), |a, j| a.add(eq[j].mul(val_addr[combined[j]])));

    let inputs = || ReadRafInputs::<F> {
        ra_family,
        sumcheck_id: read_raf_id,
        log_k_chunks: log_m_chunks.clone(),
        log_t,
        stages: vec![ReadRafStage {
            r_cycle: r_cycle.clone(),
            val_addr: val_addr.clone(),
            rv_key,
        }],
    };
    let fam = ReadRafPushforward {
        name,
        log_t,
        base_index,
        log_m_chunks: log_m_chunks.clone(),
        ra_family,
        read_raf_id,
    };

    let mut prover_acc = Openings::<F>::new(log_t);
    prover_acc.append_virtual(rv_key.0, rv_key.1, r_cycle.clone(), rv);
    let mut prover_t = ProverTranscript::<F>::new(b"p7");
    let mut rr_proof = prove_read_raf(&indices, inputs(), &mut prover_acc, &mut prover_t);
    let (pf_proofs, pushforwards) =
        prove_read_raf_pushforward(&fam, &indices, &mut prover_acc, &mut prover_t)
            .expect("pushforward prove");
    assert_eq!(pf_proofs.len(), d);
    assert_eq!(pushforwards.len(), d);
    let narg = prover_t.into_proof();

    let mut verifier_acc = Openings::<F>::new(log_t);
    verifier_acc.append_virtual(rv_key.0, rv_key.1, r_cycle.clone(), rv);
    let mut verifier_t = VerifierTranscript::<F>::new(b"p7", narg.clone());
    verify_read_raf(&rr_proof, inputs(), &mut verifier_acc, &mut verifier_t)
        .expect("read-raf stage verify");
    verify_read_raf_pushforward(&fam, &pf_proofs, &mut verifier_acc, &mut verifier_t)
        .expect("pushforward verify");
    for i in 0..d {
        assert_openings_agree(&prover_acc, &verifier_acc, base_index + i);
    }

    // A wrong opening is refused by the stage, and so is a transcript that is cut short.
    rr_proof.ra_openings[0] = rr_proof.ra_openings[0].add(F::from_u64(1));
    let mut verifier_acc = Openings::<F>::new(log_t);
    verifier_acc.append_virtual(rv_key.0, rv_key.1, r_cycle.clone(), rv);
    let mut verifier_t = VerifierTranscript::<F>::new(b"p7", narg);
    assert_eq!(
        verify_read_raf(&rr_proof, inputs(), &mut verifier_acc, &mut verifier_t),
        Err(ReadRafStageError::Claim)
    );
    let mut verifier_t = VerifierTranscript::<F>::new(b"p7", Vec::new());
    assert_eq!(
        verify_read_raf(&rr_proof, inputs(), &mut verifier_acc, &mut verifier_t),
        Err(ReadRafStageError::Sumcheck)
    );
}

#[test]
fn read_raf_then_pushforward_round_trip() {
    read_raf_pushforward_round_trip(
        0x9F50,
        vec![1, 1, 1, 1, 1],
        4,
        0,
        RaFamily::Instruction,
        SumcheckId::InstructionReadRaf,
        "InstructionRa",
    );
    read_raf_pushforward_round_trip(
        0x9F20,
        vec![2, 2],
        4,
        5,
        RaFamily::Bytecode,
        SumcheckId::BytecodeReadRaf,
        "BytecodeRa",
    );
}

#[test]
fn prepared_data_keeps_the_name_of_the_family() {
    let mut rng = Rng(0xF005);
    let family = synth_family(&mut rng, 3, 1, 3);
    let claims = claim_eval(&family);
    let mut transcript = ProverTranscript::<F>::new(b"logup-prep");
    let data = prepare_family(&family, &claims, &mut transcript).unwrap();
    assert_eq!(data.name, "synth");
}
