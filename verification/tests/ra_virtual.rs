use jolt_goldilocks::field::Field;
use jolt_goldilocks::framework::accumulator::{
    CommittedPolynomial, Openings, SumcheckId, VirtualPolynomial,
};
use jolt_goldilocks::framework::poly;
use jolt_goldilocks::framework::transcript::{ProverTranscript, VerifierTranscript};
use jolt_goldilocks::goldilocks::Goldilocks;
use jolt_goldilocks::zkvm::ram::ra_virtual::{
    prove_ram_ra_virtualization, r_address_chunks, verify_ram_ra_virtualization,
    RamRaVirtualizationError,
};

type F = Goldilocks;

fn f(v: u64) -> F {
    F::from_u64(v)
}

fn dense_claim(
    indices: &[Vec<u32>],
    r_address: &[F],
    r_cycle: &[F],
    chunk_bits: usize,
) -> F {
    let d = indices.len();
    let chunks = r_address_chunks(r_address, d, chunk_bits);
    let eq_cycle = poly::eq_evals(r_cycle);
    let eq_chunks: Vec<Vec<F>> = (0..d).map(|i| poly::eq_evals(&chunks[i])).collect();
    (0..eq_cycle.len()).fold(f(0), |acc, c| {
        let prod = (0..d).fold(f(1), |p, i| p.mul(eq_chunks[i][indices[i][c] as usize]));
        acc.add(eq_cycle[c].mul(prod))
    })
}

fn seeded(log_t: usize, r_address: &[F], r_cycle: &[F], claim: F) -> Openings<F> {
    let mut acc: Openings<F> = Openings::new(log_t);
    acc.append_virtual(
        VirtualPolynomial::RamRa,
        SumcheckId::RamRaClaimReduction,
        [r_address, r_cycle].concat(),
        claim,
    );
    acc
}

fn round_trip(d: usize, seed: u64, log_t: usize, log_k: usize) {
    let chunk_bits = 4;
    let t = 1usize << log_t;
    let kc = 1usize << chunk_bits;
    let mut state = seed;
    let mut next = || {
        state = state
            .wrapping_mul(6_364_136_223_846_793_005)
            .wrapping_add(1);
        state >> 33
    };
    let indices: Vec<Vec<u32>> = (0..d)
        .map(|_| (0..t).map(|_| (next() % kc as u64) as u32).collect())
        .collect();
    let r_address: Vec<F> = (0..log_k).map(|_| f(next())).collect();
    let r_cycle: Vec<F> = (0..log_t).map(|_| f(next())).collect();
    let ra_claim = dense_claim(&indices, &r_address, &r_cycle, chunk_bits);

    let mut prover_acc = seeded(log_t, &r_address, &r_cycle, ra_claim);
    let mut pt: ProverTranscript<F> = ProverTranscript::new(b"ram-ra-virt");
    let proof = prove_ram_ra_virtualization(
        &indices,
        log_k,
        log_t,
        chunk_bits,
        &mut prover_acc,
        &mut pt,
    );
    let narg = pt.into_proof();

    let mut verifier_acc = seeded(log_t, &r_address, &r_cycle, ra_claim);
    let mut vt: VerifierTranscript<F> = VerifierTranscript::new(b"ram-ra-virt", narg);
    verify_ram_ra_virtualization(
        &proof,
        d,
        log_k,
        log_t,
        chunk_bits,
        &mut verifier_acc,
        &mut vt,
    )
    .expect("RAM RA virtualization must verify");
    for i in 0..d {
        let (pp, pc) = prover_acc.get_committed_polynomial_opening(
            CommittedPolynomial::RamRa(i),
            SumcheckId::RamRaVirtualization,
        );
        let (vp, vc) = verifier_acc.get_committed_polynomial_opening(
            CommittedPolynomial::RamRa(i),
            SumcheckId::RamRaVirtualization,
        );
        assert_eq!(pp, vp);
        assert_eq!(pc, vc);
    }
}

#[test]
fn ram_ra_virtualization_round_trip_aligned() {
    round_trip(2, 0x4A41, 4, 8);
}

#[test]
fn ram_ra_virtualization_round_trip_unaligned() {
    round_trip(4, 0x5151, 5, 13);
}

fn tampered_setup() -> (Vec<Vec<u32>>, Vec<F>, Vec<F>, F) {
    let chunk_bits = 4;
    let (log_t, log_k) = (4usize, 8usize);
    let t = 1usize << log_t;
    let indices: Vec<Vec<u32>> = (0..2)
        .map(|i| {
            (0..t)
                .map(|c| ((c + i) % (1 << chunk_bits)) as u32)
                .collect()
        })
        .collect();
    let r_address: Vec<F> = (0..log_k).map(|i| f(i as u64 + 3)).collect();
    let r_cycle: Vec<F> = (0..log_t).map(|i| f(i as u64 + 7)).collect();
    let ra_claim = dense_claim(&indices, &r_address, &r_cycle, chunk_bits);
    (indices, r_address, r_cycle, ra_claim)
}

#[test]
fn ram_ra_virtualization_tampered_rejected() {
    let (indices, r_address, r_cycle, ra_claim) = tampered_setup();
    let mut prover_acc = seeded(4, &r_address, &r_cycle, ra_claim);
    let mut pt: ProverTranscript<F> = ProverTranscript::new(b"ram-ra-virt");
    let mut proof =
        prove_ram_ra_virtualization(&indices, 8, 4, 4, &mut prover_acc, &mut pt);
    let narg = pt.into_proof();
    proof.ra_openings[0] = proof.ra_openings[0].add(f(1));

    let mut verifier_acc = seeded(4, &r_address, &r_cycle, ra_claim);
    let mut vt: VerifierTranscript<F> = VerifierTranscript::new(b"ram-ra-virt", narg);
    let res = verify_ram_ra_virtualization(&proof, 2, 8, 4, 4, &mut verifier_acc, &mut vt);
    assert_eq!(res, Err(RamRaVirtualizationError::OutputClaim));
}

#[test]
fn ram_ra_virtualization_false_claim_fails_the_sumcheck() {
    let (indices, r_address, r_cycle, ra_claim) = tampered_setup();
    let mut prover_acc = seeded(4, &r_address, &r_cycle, ra_claim);
    let mut pt: ProverTranscript<F> = ProverTranscript::new(b"ram-ra-virt");
    let proof = prove_ram_ra_virtualization(&indices, 8, 4, 4, &mut prover_acc, &mut pt);
    let narg = pt.into_proof();
    let mut verifier_acc = seeded(4, &r_address, &r_cycle, ra_claim.add(f(1)));
    let mut vt: VerifierTranscript<F> = VerifierTranscript::new(b"ram-ra-virt", narg);
    let res = verify_ram_ra_virtualization(&proof, 2, 8, 4, 4, &mut verifier_acc, &mut vt);
    assert_eq!(res, Err(RamRaVirtualizationError::Sumcheck));
}

#[test]
fn address_chunks_are_padded_with_leading_zeros() {
    let r: Vec<F> = (1..=5).map(f).collect();
    let chunks = r_address_chunks(&r, 2, 4);
    assert_eq!(chunks[0], vec![f(0), f(0), f(0), f(1)]);
    assert_eq!(chunks[1], vec![f(2), f(3), f(4), f(5)]);
}

#[test]
fn chunk_openings_are_recorded_at_their_chunks() {
    let (indices, r_address, r_cycle, ra_claim) = tampered_setup();
    let mut prover_acc = seeded(4, &r_address, &r_cycle, ra_claim);
    let mut pt: ProverTranscript<F> = ProverTranscript::new(b"ram-ra-virt");
    let proof = prove_ram_ra_virtualization(&indices, 8, 4, 4, &mut prover_acc, &mut pt);
    let narg = pt.into_proof();
    let mut verifier_acc = seeded(4, &r_address, &r_cycle, ra_claim);
    let mut vt: VerifierTranscript<F> = VerifierTranscript::new(b"ram-ra-virt", narg);
    let res = verify_ram_ra_virtualization(&proof, 2, 8, 4, 4, &mut verifier_acc, &mut vt);
    assert_eq!(res, Ok(()));
    let chunks = r_address_chunks(&r_address, 2, 4);
    let mut tails = Vec::new();
    for i in 0..2 {
        let (point, claim) = verifier_acc.get_committed_polynomial_opening(
            CommittedPolynomial::RamRa(i),
            SumcheckId::RamRaVirtualization,
        );
        assert_eq!(point[..4], chunks[i][..]);
        assert_eq!(claim, proof.ra_openings[i]);
        // The recorded claim is the opening of the chunk column at the recorded cycle point.
        let weights = poly::eq_evals(&chunks[i]);
        let eq = poly::eq_evals(&point[4..]);
        let opened = (0..eq.len()).fold(f(0), |acc, c| {
            acc.add(weights[indices[i][c] as usize].mul(eq[c]))
        });
        assert_eq!(claim, opened);
        tails.push(point[4..].to_vec());
    }
    assert_eq!(tails[0], tails[1]);
}
