use jolt_goldilocks::field::Field;
use jolt_goldilocks::framework::accumulator::{Openings, SumcheckId, VirtualPolynomial};
use jolt_goldilocks::framework::poly;
use jolt_goldilocks::framework::sumcheck::{prove, verify, SumcheckClaim};
use jolt_goldilocks::framework::transcript::{ProverTranscript, VerifierTranscript};
use jolt_goldilocks::goldilocks::Goldilocks;
use jolt_goldilocks::zkvm::shout_read_raf::{
    suffix_products, OneHotReadRaf, OneHotReadRafParams, RaFamily, ReadRafStage,
};

type F = Goldilocks;

struct Rng(u64);
impl Rng {
    fn next(&mut self) -> u64 {
        self.0 = self.0.wrapping_add(0x9E37_79B9_7F4A_7C15);
        let mut z = self.0;
        z = (z ^ (z >> 30)).wrapping_mul(0xBF58_476D_1CE4_E5B9);
        z = (z ^ (z >> 27)).wrapping_mul(0x94D0_49BB_1331_11EB);
        z ^ (z >> 31)
    }
}

fn rand_vec(rng: &mut Rng, n: usize) -> Vec<F> {
    (0..n).map(|_| F::from_u64(rng.next())).collect()
}

struct Config {
    family: RaFamily,
    sumcheck_id: SumcheckId,
    rv_keys: Vec<(VirtualPolynomial, SumcheckId)>,
    shared_cycle: bool,
}

fn bytecode_config() -> Config {
    Config {
        family: RaFamily::Bytecode,
        sumcheck_id: SumcheckId::BytecodeReadRaf,
        rv_keys: vec![
            (VirtualPolynomial::UnexpandedPC, SumcheckId::SpartanOuter),
            (VirtualPolynomial::Imm, SumcheckId::SpartanShift),
            (VirtualPolynomial::PC, SumcheckId::SpartanOuter),
        ],
        shared_cycle: false,
    }
}

fn instruction_config() -> Config {
    Config {
        family: RaFamily::Instruction,
        sumcheck_id: SumcheckId::InstructionReadRaf,
        rv_keys: vec![
            (
                VirtualPolynomial::LookupOutput,
                SumcheckId::InstructionClaimReduction,
            ),
            (
                VirtualPolynomial::LeftLookupOperand,
                SumcheckId::InstructionClaimReduction,
            ),
            (
                VirtualPolynomial::RightLookupOperand,
                SumcheckId::SpartanProductVirtualization,
            ),
        ],
        shared_cycle: true,
    }
}

fn chunk_index(addr: usize, i: usize, suffix: &[usize], k_dims: &[usize]) -> usize {
    (addr / suffix[i]) % k_dims[i]
}

fn copy_stages(stages: &[(Vec<F>, Vec<F>, (VirtualPolynomial, SumcheckId))]) -> Vec<ReadRafStage<F>> {
    stages
        .iter()
        .map(|(r, v, key)| ReadRafStage {
            r_cycle: r.clone(),
            val_addr: v.clone(),
            rv_key: *key,
        })
        .collect()
}

fn seed_acc(
    acc: &mut Openings<F>,
    stages: &[(Vec<F>, Vec<F>, (VirtualPolynomial, SumcheckId))],
    ra_chunks: &[Vec<F>],
    k_dims: &[usize],
    suffix: &[usize],
    t: usize,
) {
    let k_total: usize = k_dims.iter().product();
    for (r_cycle, val_addr, key) in stages {
        let eq_cycle = poly::eq_evals(r_cycle);
        let mut rv = F::from_u64(0);
        for addr in 0..k_total {
            for j in 0..t {
                let mut ra = F::from_u64(1);
                for (i, chunk) in ra_chunks.iter().enumerate() {
                    ra = ra.mul(chunk[chunk_index(addr, i, suffix, k_dims) * t + j]);
                }
                rv = rv.add(ra.mul(eq_cycle[j]).mul(val_addr[addr]));
            }
        }
        acc.append_virtual(key.0, key.1, r_cycle.clone(), rv);
    }
}

fn round_trip(cfg: &Config, seed: u64, log_k_chunks: Vec<usize>, log_t: usize, num_stages: usize) {
    let d = log_k_chunks.len();
    let mut rng = Rng(seed);
    let k_dims: Vec<usize> = log_k_chunks.iter().map(|&w| 1usize << w).collect();
    let suffix = suffix_products(&k_dims);
    let k_total: usize = k_dims.iter().product();
    let t = 1usize << log_t;
    let ra_chunks: Vec<Vec<F>> = (0..d).map(|i| rand_vec(&mut rng, k_dims[i] * t)).collect();
    let shared_r = rand_vec(&mut rng, log_t);
    let stages: Vec<(Vec<F>, Vec<F>, (VirtualPolynomial, SumcheckId))> = (0..num_stages)
        .map(|s| {
            let r = if cfg.shared_cycle {
                shared_r.clone()
            } else {
                rand_vec(&mut rng, log_t)
            };
            (r, rand_vec(&mut rng, k_total), cfg.rv_keys[s])
        })
        .collect();
    let log_k: usize = log_k_chunks.iter().sum();

    let mut prover_acc: Openings<F> = Openings::new(log_t);
    seed_acc(&mut prover_acc, &stages, &ra_chunks, &k_dims, &suffix, t);
    let mut prover_t: ProverTranscript<F> = ProverTranscript::new(b"shout-read-raf");
    let params = OneHotReadRafParams::new(
        cfg.family,
        cfg.sumcheck_id,
        log_k_chunks.clone(),
        log_t,
        copy_stages(&stages),
        &mut prover_t,
    );
    let input_claim = params.input_claim(&prover_acc);
    let mut prover = OneHotReadRaf::new_prover(params, &ra_chunks);
    assert_eq!(prover.degree(), d + 1);
    let rounds = prover.num_rounds();
    assert_eq!(rounds, log_k + log_t);
    let challenges = prove(&mut prover.sum, rounds, &mut prover_t);
    prover.cache_openings(&mut prover_acc, &challenges);
    let narg = prover_t.into_proof();

    let mut verifier_acc: Openings<F> = Openings::new(log_t);
    seed_acc(&mut verifier_acc, &stages, &ra_chunks, &k_dims, &suffix, t);
    let mut verifier_t: VerifierTranscript<F> = VerifierTranscript::new(b"shout-read-raf", narg);
    let vparams = OneHotReadRafParams::new(
        cfg.family,
        cfg.sumcheck_id,
        log_k_chunks,
        log_t,
        copy_stages(&stages),
        &mut verifier_t,
    );
    let verifier = OneHotReadRaf::new_verifier(vparams);
    let claim = SumcheckClaim {
        num_vars: log_k + log_t,
        degree: d + 1,
        claimed_sum: input_claim,
    };
    let eval = verify(&claim, &mut verifier_t).expect("shout read-raf must verify");
    assert_eq!(
        eval.point, challenges,
        "verifier point matches prover challenges"
    );
    for i in 0..d {
        let (pt, c) = prover_acc
            .get_committed_polynomial_opening(cfg.family.polynomial(i), cfg.sumcheck_id);
        verifier_acc.append_dense(cfg.family.polynomial(i), cfg.sumcheck_id, pt, c);
    }
    let expected = verifier.expected_output_claim(&verifier_acc, &challenges);
    assert_eq!(
        eval.value, expected,
        "reduced claim must match the product of the chunk openings and the batched values"
    );
}

#[test]
fn bytecode_read_raf_round_trip() {
    let cfg = bytecode_config();
    round_trip(&cfg, 0xB100, vec![1, 1], 2, 3);
    round_trip(&cfg, 0xB101, vec![2, 2], 3, 3);
    round_trip(&cfg, 0xB102, vec![1, 2], 4, 2);
    round_trip(&cfg, 0xB103, vec![2, 1], 3, 1);
}

#[test]
fn instruction_read_raf_round_trip_d2() {
    let cfg = instruction_config();
    round_trip(&cfg, 0x1100, vec![1, 1], 2, 3);
    round_trip(&cfg, 0x1101, vec![2, 2], 3, 3);
    round_trip(&cfg, 0x1102, vec![2, 2], 4, 2);
    round_trip(&cfg, 0x1103, vec![1, 2], 3, 1);
}

#[test]
fn instruction_read_raf_round_trip_d5() {
    let cfg = instruction_config();
    round_trip(&cfg, 0x1500, vec![1, 1, 1, 1, 1], 3, 3);
    round_trip(&cfg, 0x1501, vec![2, 1, 1, 2, 1], 2, 2);
    round_trip(&cfg, 0x1502, vec![1, 2, 1, 1, 1], 4, 1);
}

#[test]
fn bytecode_read_raf_round_trip_d3() {
    let cfg = bytecode_config();
    round_trip(&cfg, 0xB300, vec![1, 2, 1], 3, 2);
    round_trip(&cfg, 0xB301, vec![2, 1, 2], 2, 3);
}

#[test]
fn shout_read_raf_tampered_proof_rejected() {
    let cfg = instruction_config();
    let log_k_chunks = vec![2usize, 2usize];
    let log_t = 3usize;
    let mut rng = Rng(0x11FE);
    let k_dims: Vec<usize> = log_k_chunks.iter().map(|&w| 1usize << w).collect();
    let suffix = suffix_products(&k_dims);
    let k_total: usize = k_dims.iter().product();
    let t = 1usize << log_t;
    let ra_chunks: Vec<Vec<F>> = (0..2).map(|i| rand_vec(&mut rng, k_dims[i] * t)).collect();
    let r = rand_vec(&mut rng, log_t);
    let stages: Vec<(Vec<F>, Vec<F>, (VirtualPolynomial, SumcheckId))> = (0..2)
        .map(|s| (r.clone(), rand_vec(&mut rng, k_total), cfg.rv_keys[s]))
        .collect();
    let mut acc: Openings<F> = Openings::new(log_t);
    seed_acc(&mut acc, &stages, &ra_chunks, &k_dims, &suffix, t);
    let mut prover_t: ProverTranscript<F> = ProverTranscript::new(b"t");
    let params = OneHotReadRafParams::new(
        cfg.family,
        cfg.sumcheck_id,
        log_k_chunks.clone(),
        log_t,
        copy_stages(&stages),
        &mut prover_t,
    );
    let input_claim = params.input_claim(&acc);
    let mut prover = OneHotReadRaf::new_prover(params, &ra_chunks);
    let _ = prove(&mut prover.sum, 7, &mut prover_t);
    let mut narg = prover_t.into_proof();

    narg[0] = narg[0].add(F::from_u64(1));
    let claim = SumcheckClaim {
        num_vars: 7,
        degree: 3,
        claimed_sum: input_claim,
    };
    let mut verifier_t: VerifierTranscript<F> = VerifierTranscript::new(b"t", narg);
    let _ = OneHotReadRafParams::new(
        cfg.family,
        cfg.sumcheck_id,
        log_k_chunks,
        log_t,
        copy_stages(&stages),
        &mut verifier_t,
    );
    assert!(
        verify(&claim, &mut verifier_t).is_err(),
        "tampered proof must be rejected"
    );
}

#[test]
fn suffix_products_are_place_values() {
    assert_eq!(suffix_products(&vec![2, 4, 8]), vec![32, 8, 1]);
    assert_eq!(suffix_products(&vec![16]), vec![1]);
    assert_eq!(suffix_products(&Vec::new()), Vec::<usize>::new());
    assert_eq!(suffix_products(&vec![3, 0, 5]), vec![0, 5, 1]);
}

#[test]
fn mixed_radix_digits_spell_the_address() {
    let dims = vec![3usize, 4, 5];
    let suffix = suffix_products(&dims);
    assert_eq!(suffix, vec![20, 5, 1]);
    let mut seen = Vec::new();
    for addr in 0..60 {
        let digits: Vec<usize> = (0..3).map(|i| chunk_index(addr, i, &suffix, &dims)).collect();
        let spelled: usize = (0..3).map(|i| digits[i] * suffix[i]).sum();
        assert_eq!(spelled, addr);
        assert!((0..3).all(|i| digits[i] < dims[i]));
        assert!(!seen.contains(&digits));
        seen.push(digits);
    }
}

#[test]
fn address_rounds_have_quadratic_messages() {
    let cfg = bytecode_config();
    let (log_k_chunks, log_t) = (vec![1usize, 2, 1], 2usize);
    let mut rng = Rng(0xDE62);
    let ra_chunks: Vec<Vec<F>> = log_k_chunks
        .iter()
        .map(|w| rand_vec(&mut rng, (1 << w) << log_t))
        .collect();
    let stages: Vec<ReadRafStage<F>> = (0..2)
        .map(|s| ReadRafStage {
            r_cycle: rand_vec(&mut rng, log_t),
            val_addr: rand_vec(&mut rng, 1 << 4),
            rv_key: cfg.rv_keys[s],
        })
        .collect();
    let mut transcript: ProverTranscript<F> = ProverTranscript::new(b"shout-read-raf");
    let params = OneHotReadRafParams::new(
        cfg.family,
        cfg.sumcheck_id,
        log_k_chunks,
        log_t,
        stages,
        &mut transcript,
    );
    let mut prover = OneHotReadRaf::new_prover(params, &ra_chunks);
    let zero = F::from_u64(0);
    for round in 0..6 {
        let message = prover.sum.compute_message(6 - round);
        assert_eq!(message.coefficients.len(), 5);
        let quadratic = message.coefficients[3..].iter().all(|c| *c == zero);
        assert_eq!(quadratic, round >= log_t);
        prover.sum.bind(F::from_u64(rng.next()));
    }
}
