use jolt_goldilocks::field::Field;
use jolt_goldilocks::framework::accumulator::Openings;
use jolt_goldilocks::framework::poly;
use jolt_goldilocks::framework::transcript::{ProverTranscript, VerifierTranscript};
use jolt_goldilocks::goldilocks::Goldilocks;
use jolt_goldilocks::r1cs::key::R1csKey;
use jolt_goldilocks::r1cs::layout::{
    ADD_C0, CONST_ONE, F_ADD, F_DO_NOT_UPDATE_PC, F_JUMP, LEFT, LEFT_SIGN, LIMB, MUL_C0, MUL_C1,
    MUL_C2, NEXT_UNEXPANDED_PC, NUM_VARS, PRODUCT, PRODUCT_SIGN, Q, RIGHT_MAG, RIGHT_SIGN, RLO,
    SHOULD_BRANCH, SIGN_PROD, UNEXPANDED_PC,
};
use jolt_goldilocks::r1cs::matrices::ConstraintMatrices;
use jolt_goldilocks::zkvm::driver::{
    prove_binary, verify_binary, DriverError, RamPublicColumns,
};
use jolt_goldilocks::zkvm::memory::{prove_memory, verify_memory, MemoryStageError};
use jolt_goldilocks::zkvm::r1cs_witness::{
    build_limbed_z, cycle_to_z, fill_add_rlo, fill_product, fill_sub_rlo, R1csWitness,
};
use jolt_goldilocks::zkvm::ram::stage::RamStageError;
use jolt_goldilocks::zkvm::ram::witness::{ram_witness, RamWitness};
use jolt_goldilocks::zkvm::real_trace::{
    assemble_real_witness, ram_public_columns, remap_index, remap_trace,
};
use jolt_goldilocks::zkvm::registers::stage::RegistersStageError;
use jolt_goldilocks::zkvm::registers::witness::{register_witness, RegisterWitness};
use jolt_goldilocks::zkvm::spartan::stage::{prove_spartan, verify_spartan, SpartanStageError};
use jolt_goldilocks::zkvm::trace::{CircuitFlagSet, CycleRow, InstructionFlagSet};

type F = Goldilocks;

struct Rng(u64);
impl Rng {
    fn next(&mut self) -> u64 {
        self.0 = self.0.wrapping_add(0x9E37_79B9_7F4A_7C15);
        let mut z = self.0;
        z = (z ^ (z >> 30)).wrapping_mul(0xBF58_476D_1CE4_E5B9);
        z = (z ^ (z >> 27)).wrapping_mul(0x94D0_49BB_1331_11EB);
        z ^ (z >> 31)
    }
}

fn rand_vec(rng: &mut Rng, n: usize) -> Vec<F> {
    (0..n).map(|_| F::from_u64(rng.next())).collect()
}

fn dot(poly: &[F], eq: &[F]) -> F {
    poly.iter()
        .zip(eq.iter())
        .fold(F::from_u64(0), |a, (p, e)| a.add(p.mul(*e)))
}

/// The constraints of one cycle that the sample rows exercise.

fn limbed_constraints() -> ConstraintMatrices<F> {
    let one = F::from_u64(1);
    let neg = |x: u64| F::from_u64(0).sub(F::from_u64(x));
    let var = |v: usize| vec![(v, one)];
    let mut a = Vec::new();
    let mut b = Vec::new();
    let mut c = Vec::new();
    let mut push = |l: Vec<(usize, F)>, r: Vec<(usize, F)>, o: Vec<(usize, F)>| {
        a.push(l);
        b.push(r);
        c.push(o);
    };
    for k in 0..4 {
        push(var(LEFT + k / 2), var(RIGHT_MAG + k % 2), var(Q + k));
    }
    let unit = || vec![(CONST_ONE, one)];
    push(
        vec![(Q, one), (PRODUCT, neg(1)), (MUL_C0, neg(LIMB))],
        unit(),
        vec![],
    );
    push(
        vec![
            (Q + 1, one),
            (Q + 2, one),
            (MUL_C0, one),
            (PRODUCT + 1, neg(1)),
            (MUL_C1, neg(LIMB)),
        ],
        unit(),
        vec![],
    );
    push(
        vec![
            (Q + 3, one),
            (MUL_C1, one),
            (PRODUCT + 2, neg(1)),
            (MUL_C2, neg(LIMB)),
        ],
        unit(),
        vec![],
    );
    push(
        vec![(MUL_C2, one), (PRODUCT + 3, neg(1))],
        unit(),
        vec![],
    );
    push(var(LEFT_SIGN), var(RIGHT_SIGN), var(SIGN_PROD));
    push(
        vec![
            (LEFT_SIGN, one),
            (RIGHT_SIGN, one),
            (SIGN_PROD, neg(2)),
            (PRODUCT_SIGN, neg(1)),
        ],
        unit(),
        vec![],
    );
    push(
        var(F_ADD),
        vec![
            (LEFT, one),
            (RIGHT_MAG, one),
            (RLO, neg(1)),
            (ADD_C0, neg(LIMB)),
        ],
        vec![],
    );
    push(
        var(F_ADD),
        vec![
            (LEFT + 1, one),
            (RIGHT_MAG + 1, one),
            (ADD_C0, one),
            (RLO + 1, neg(1)),
            (RLO + 2, neg(LIMB)),
        ],
        vec![],
    );
    push(
        vec![
            (CONST_ONE, one),
            (SHOULD_BRANCH, neg(1)),
            (F_JUMP, neg(1)),
        ],
        vec![
            (UNEXPANDED_PC, one),
            (CONST_ONE, F::from_u64(4)),
            (F_DO_NOT_UPDATE_PC, neg(4)),
            (NEXT_UNEXPANDED_PC, neg(1)),
        ],
        vec![],
    );
    ConstraintMatrices::new(13, NUM_VARS, a, b, c)
}

fn add_row(unexpanded_pc: u64, left: u64, right: u64) -> CycleRow {
    let mut circuit_flags = CircuitFlagSet::none();
    circuit_flags.add_operands = true;
    let mut instruction_flags = InstructionFlagSet::none();
    instruction_flags.left_operand_is_rs1_value = true;
    instruction_flags.right_operand_is_rs2_value = true;
    CycleRow {
        is_noop: false,
        unexpanded_pc,
        rs1_read: Some((1, left)),
        rs2_read: Some((2, right)),
        rd_write: None,
        ram_access_address: None,
        ram_read_value: None,
        ram_write_value: None,
        imm: 0,
        circuit_flags,
        instruction_flags,
        lookup_index: 0,
        lookup_output: left.wrapping_add(right),
        lookup_table: None,
    }
}

fn with_rd(mut row: CycleRow, rd: u8, pre: u64, post: u64) -> CycleRow {
    row.rd_write = Some((rd, pre, post));
    row
}

fn with_ram(mut row: CycleRow, address: u64, read: u64, write: u64) -> CycleRow {
    row.ram_access_address = Some(address);
    row.ram_read_value = Some(read);
    row.ram_write_value = Some(write);
    row
}

fn with_reads(mut row: CycleRow, rs1: Option<u8>, rs2: Option<u8>) -> CycleRow {
    row.rs1_read = rs1.map(|r| (r, 0));
    row.rs2_read = rs2.map(|r| (r, 0));
    row
}

fn memory_trace() -> Vec<CycleRow> {
    vec![
        with_ram(with_rd(add_row(0, 0, 0), 3, 0, 5), 2, 0, 5),
        with_ram(
            with_rd(with_reads(add_row(4, 0, 0), Some(3), Some(0)), 4, 0, 9),
            2,
            5,
            5,
        ),
        with_ram(
            with_rd(with_reads(add_row(8, 0, 0), Some(3), Some(4)), 3, 5, 14),
            5,
            0,
            9,
        ),
        CycleRow::noop_at(12),
    ]
}

fn witness_and_key(trace: &[CycleRow]) -> (R1csWitness<F>, R1csKey<F>) {
    let pcs = vec![0u64; trace.len()];
    let per_cycle = build_limbed_z::<F>(trace, &pcs);
    let witness = R1csWitness::<F>::materialize(&limbed_constraints(), &per_cycle);
    let cycles_pad = 1usize << witness.log_num_cycles;
    let key = R1csKey::new(limbed_constraints(), cycles_pad);
    (witness, key)
}

// The assignments.

fn noop_cycle() -> Vec<F> {
    let mut w = vec![F::from_u64(0); NUM_VARS];
    w[CONST_ONE] = F::from_u64(1);
    w[NEXT_UNEXPANDED_PC] = F::from_u64(4);
    fill_product(&mut w, 0, 0, false);
    w
}

fn add_cycle(left: u64, right: u64) -> Vec<F> {
    let mut w = noop_cycle();
    w[F_ADD] = F::from_u64(1);
    fill_product(&mut w, left, right, false);
    fill_add_rlo(&mut w, left, right);
    w
}

#[test]
fn honest_multicycle_witness_satisfies_and_matches_r1cskey() {
    let per_cycle = vec![
        noop_cycle(),
        add_cycle(7, 11),
        add_cycle(0xFFFF_FFFF, 1),
        noop_cycle(),
    ];
    let w = R1csWitness::<F>::materialize(&limbed_constraints(), &per_cycle);
    assert!(w.is_satisfied());
    let cycles_pad = 1usize << w.log_num_cycles;
    assert_eq!(w.z.len(), cycles_pad * w.num_vars_padded);
    assert_eq!(w.az.len(), cycles_pad * w.num_cons_padded);

    let key = R1csKey::new(limbed_constraints(), cycles_pad);
    let mut rng = Rng(0x0005_1A7E);
    let r_x = rand_vec(&mut rng, key.num_row_vars());
    let (rx_cycle, rx_con) = r_x.split_at(key.num_cycle_vars());
    let az_mle = dot(&w.az, &poly::eq_evals(&r_x));

    let eq_cycle = poly::eq_evals(rx_cycle);
    let v_pad = w.num_vars_padded;
    let z_at_rx_cycle: Vec<F> = (0..v_pad)
        .map(|var| {
            (0..cycles_pad).fold(F::from_u64(0), |acc, cycle| {
                acc.add(eq_cycle[cycle].mul(w.z[cycle * v_pad + var]))
            })
        })
        .collect();
    let (a_eval, _, _) = key.evaluate_sparse_matvec(rx_con, &z_at_rx_cycle);
    assert_eq!(az_mle, a_eval);
}

#[test]
fn wrong_sum_is_not_satisfied() {
    let mut wrong = add_cycle(7, 11);
    wrong[RLO] = F::from_u64(19);
    let w = R1csWitness::<F>::materialize(&limbed_constraints(), &vec![wrong]);
    assert!(!w.is_satisfied());
}

#[test]
fn product_limbs_of_the_largest_words() {
    let mut w = vec![F::from_u64(0); NUM_VARS];
    fill_product(&mut w, u64::MAX, u64::MAX, true);
    let limbs = [1u64, 0, 0xFFFF_FFFE, 0xFFFF_FFFF];
    for (i, limb) in limbs.into_iter().enumerate() {
        assert_eq!(w[PRODUCT + i], F::from_u64(limb));
    }
    for k in 0..4 {
        assert_eq!(w[Q + k], F::from_u64(0xFFFF_FFFE_0000_0001));
    }
    assert_eq!(w[PRODUCT_SIGN], F::from_u64(1));
    assert_eq!(w[SIGN_PROD], F::from_u64(0));
}

#[test]
fn sum_and_difference_limbs() {
    let mut w = vec![F::from_u64(0); NUM_VARS];
    fill_add_rlo(&mut w, u64::MAX, 1);
    let sum: Vec<F> = [0u64, 0, 1, 0].into_iter().map(F::from_u64).collect();
    assert_eq!(w[RLO..RLO + 4].to_vec(), sum);
    assert_eq!(w[ADD_C0], F::from_u64(1));
    // 5 - 7 + 2^64
    fill_sub_rlo(&mut w, 5, 7);
    let difference: Vec<F> = [0xFFFF_FFFEu64, 0xFFFF_FFFF, 0, 0]
        .into_iter()
        .map(F::from_u64)
        .collect();
    assert_eq!(w[RLO..RLO + 4].to_vec(), difference);
}

#[test]
fn cycle_to_z_add_and_noop_satisfy() {
    let trace = [add_row(0, 7, 11), CycleRow::noop_at(4)];
    let pcs = [0u64, 0u64];
    let per_cycle = build_limbed_z::<F>(&trace, &pcs);
    assert_eq!(per_cycle[0], cycle_to_z::<F>(&trace, 0, &pcs));
    assert_eq!(per_cycle[1], cycle_to_z::<F>(&trace, 1, &pcs));
    let w = R1csWitness::<F>::materialize(&limbed_constraints(), &per_cycle);
    assert!(w.is_satisfied());
    assert_eq!(per_cycle[0][RLO], F::from_u64(18));
    assert_eq!(per_cycle[0][NEXT_UNEXPANDED_PC], F::from_u64(4));
    assert_eq!(per_cycle[1][F_DO_NOT_UPDATE_PC], F::from_u64(1));
}

#[test]
fn boolean_aux_columns_are_boolean() {
    let trace = [
        add_row(0, 0xFFFF_FFFF, 1),
        add_row(4, 7, 11),
        CycleRow::noop_at(8),
    ];
    let (w, _) = witness_and_key(&trace);
    let (zero, one) = (F::from_u64(0), F::from_u64(1));
    let columns = w.boolean_aux_columns();
    assert_eq!(columns.len(), 8);
    for (i, col) in columns.iter().enumerate() {
        for (c, &val) in col.iter().enumerate() {
            assert!(val == zero || val == one, "aux col {i} cycle {c}");
        }
    }
    assert_eq!(columns[4], vec![one, zero, zero, zero]);
}

// The two checks of the constraint system.

#[test]
fn spartan_stage_round_trip() {
    let trace = [
        add_row(0, 7, 11),
        add_row(4, 1_000_000, 2_000_000),
        add_row(8, 0xFFFF_FFFF, 1),
        CycleRow::noop_at(12),
    ];
    let (witness, key) = witness_and_key(&trace);
    assert!(witness.is_satisfied());

    let mut prover_acc = Openings::<F>::new(witness.log_num_cycles);
    let mut prover_t = ProverTranscript::<F>::new(b"spartan-stage");
    let proof = prove_spartan(&witness, &key, &mut prover_acc, &mut prover_t);
    let narg = prover_t.into_proof();

    let mut verifier_acc = Openings::<F>::new(witness.log_num_cycles);
    let mut verifier_t = VerifierTranscript::<F>::new(b"spartan-stage", narg);
    verify_spartan(
        &proof,
        &key,
        witness.num_row_vars(),
        &mut verifier_acc,
        &mut verifier_t,
    )
    .expect("Spartan stage must verify");
}

#[test]
fn tampered_az_rejected() {
    let trace = [add_row(0, 3, 5), CycleRow::noop_at(4)];
    let (witness, key) = witness_and_key(&trace);
    let mut prover_acc = Openings::<F>::new(witness.log_num_cycles);
    let mut prover_t = ProverTranscript::<F>::new(b"spartan-stage");
    let mut proof = prove_spartan(&witness, &key, &mut prover_acc, &mut prover_t);
    let narg = prover_t.into_proof();
    let honest_az = proof.az_rx;
    let verdict = |proof: &_, narg: Vec<F>| {
        let mut verifier_acc = Openings::<F>::new(witness.log_num_cycles);
        let mut verifier_t = VerifierTranscript::<F>::new(b"spartan-stage", narg);
        verify_spartan(
            proof,
            &key,
            witness.num_row_vars(),
            &mut verifier_acc,
            &mut verifier_t,
        )
    };
    proof.az_rx = honest_az.add(F::from_u64(1));
    assert_eq!(
        verdict(&proof, narg.clone()),
        Err(SpartanStageError::OuterClaim)
    );
    proof.az_rx = honest_az;
    assert_eq!(verdict(&proof, narg.clone()), Ok(()));
    proof.z_ry = proof.z_ry.add(F::from_u64(1));
    assert_eq!(
        verdict(&proof, narg.clone()),
        Err(SpartanStageError::InnerClaim)
    );
    assert_eq!(
        verdict(&proof, Vec::new()),
        Err(SpartanStageError::Sumcheck)
    );
}

// The memory stage.

fn public_columns(log_k: usize) -> (Vec<F>, Vec<F>, Vec<F>) {
    let k = 1usize << log_k;
    let unmap: Vec<F> = (0..k)
        .map(|i| F::from_u64(0x8000_0000 + i as u64))
        .collect();
    let zero = vec![F::from_u64(0); k];
    (unmap, zero.clone(), zero)
}

#[test]
fn memory_stage_round_trip() {
    let trace = memory_trace();
    let ram_w = ram_witness::<F>(&trace, 8);
    let reg_w = register_witness::<F>(&trace, 8);
    let (unmap, val_io, io_mask) = public_columns(ram_w.log_k);

    let mut prover_acc = Openings::<F>::new(ram_w.log_t);
    let mut prover_t = ProverTranscript::<F>::new(b"memory-stage");
    let proof = prove_memory(
        &ram_w,
        &reg_w,
        &unmap,
        &val_io,
        &io_mask,
        &mut prover_acc,
        &mut prover_t,
    );
    let narg = prover_t.into_proof();

    let mut verifier_acc = Openings::<F>::new(ram_w.log_t);
    let mut verifier_t = VerifierTranscript::<F>::new(b"memory-stage", narg);
    verify_memory(
        &proof,
        ram_w.log_t,
        ram_w.log_k,
        reg_w.log_k,
        &unmap,
        &val_io,
        &io_mask,
        &mut verifier_acc,
        &mut verifier_t,
    )
    .expect("memory stage must verify");
}

#[test]
fn tampered_inc_reduction_rejected() {
    let trace = memory_trace();
    let ram_w = ram_witness::<F>(&trace, 8);
    let reg_w = register_witness::<F>(&trace, 8);
    let (unmap, val_io, io_mask) = public_columns(ram_w.log_k);

    let mut prover_acc = Openings::<F>::new(ram_w.log_t);
    let mut prover_t = ProverTranscript::<F>::new(b"memory-stage");
    let mut proof = prove_memory(
        &ram_w,
        &reg_w,
        &unmap,
        &val_io,
        &io_mask,
        &mut prover_acc,
        &mut prover_t,
    );
    let narg = prover_t.into_proof();
    let one = F::from_u64(1);
    let verdict = |proof: &_, narg: Vec<F>| {
        let mut verifier_acc = Openings::<F>::new(ram_w.log_t);
        let mut verifier_t = VerifierTranscript::<F>::new(b"memory-stage", narg);
        verify_memory(
            proof,
            ram_w.log_t,
            ram_w.log_k,
            reg_w.log_k,
            &unmap,
            &val_io,
            &io_mask,
            &mut verifier_acc,
            &mut verifier_t,
        )
    };
    proof.inc_openings[1] = proof.inc_openings[1].add(one);
    assert_eq!(
        verdict(&proof, narg.clone()),
        Err(MemoryStageError::IncClaim)
    );
    proof.ram_ra_opening = proof.ram_ra_opening.add(one);
    assert_eq!(
        verdict(&proof, narg.clone()),
        Err(MemoryStageError::RamRaClaim)
    );
    let short = narg[..narg.len() - 1].to_vec();
    proof.ram_ra_opening = proof.ram_ra_opening.sub(one);
    assert_eq!(verdict(&proof, short), Err(MemoryStageError::Sumcheck));
    proof.registers.rw_openings[0] = proof.registers.rw_openings[0].add(one);
    assert!(matches!(
        verdict(&proof, narg.clone()),
        Err(MemoryStageError::Registers(RegistersStageError::ReadWriteClaim))
    ));
    assert_eq!(
        verdict(&proof, Vec::new()),
        Err(MemoryStageError::Ram(RamStageError::Sumcheck))
    );
}

// The driver.

fn memory_inputs(trace: &[CycleRow]) -> (RamWitness<F>, RegisterWitness<F>, RamPublicColumns<F>) {
    let ram_w = ram_witness::<F>(trace, 8);
    let reg_w = register_witness::<F>(trace, 8);
    let (unmap, val_io, io_mask) = public_columns(ram_w.log_k);
    let public = RamPublicColumns {
        unmap,
        val_io,
        io_mask,
    };
    (ram_w, reg_w, public)
}

#[test]
fn binary_driver_round_trip() {
    let trace = [
        add_row(0, 7, 11),
        add_row(4, 0xFFFF_FFFF, 1),
        add_row(8, 100, 40),
        CycleRow::noop_at(12),
    ];
    let (witness, key) = witness_and_key(&trace);
    assert!(witness.is_satisfied());
    let (ram_w, reg_w, public) = memory_inputs(&trace);

    let mut prover_t = ProverTranscript::<F>::new(b"binary-driver");
    let proof = prove_binary(&witness, &ram_w, &reg_w, &public, &key, &mut prover_t);
    let narg = prover_t.into_proof();

    let mut verifier_t = VerifierTranscript::<F>::new(b"binary-driver", narg);
    verify_binary(
        &proof,
        &key,
        witness.num_row_vars(),
        witness.log_num_cycles,
        ram_w.log_k,
        reg_w.log_k,
        &public,
        &mut verifier_t,
    )
    .expect("binary driver must verify");
}

#[test]
fn tampered_aux_rejected() {
    let trace = [add_row(0, 3, 5), CycleRow::noop_at(4)];
    let (witness, key) = witness_and_key(&trace);
    let (ram_w, reg_w, public) = memory_inputs(&trace);
    let mut prover_t = ProverTranscript::<F>::new(b"binary-driver");
    let mut proof = prove_binary(&witness, &ram_w, &reg_w, &public, &key, &mut prover_t);
    let narg = prover_t.into_proof();
    proof.aux_evals[0] = proof.aux_evals[0].add(F::from_u64(2));

    let verdict = |proof: &_, narg: Vec<F>| {
        let mut verifier_t = VerifierTranscript::<F>::new(b"binary-driver", narg);
        verify_binary(
            proof,
            &key,
            witness.num_row_vars(),
            witness.log_num_cycles,
            ram_w.log_k,
            reg_w.log_k,
            &public,
            &mut verifier_t,
        )
    };
    assert_eq!(verdict(&proof, narg.clone()), Err(DriverError::Booleanity));
    assert_eq!(
        verdict(&proof, narg[..narg.len() - 1].to_vec()),
        Err(DriverError::Booleanity)
    );
    assert_eq!(
        verdict(&proof, Vec::new()),
        Err(DriverError::Spartan(SpartanStageError::Sumcheck))
    );
    proof.memory.inc_openings[0] = proof.memory.inc_openings[0].add(F::from_u64(1));
    assert_eq!(
        verdict(&proof, narg),
        Err(DriverError::Memory(MemoryStageError::IncClaim))
    );
}

// The address space.

#[test]
fn remap_index_matches_remap_address_formula() {
    let lowest = 0x8000_0000u64;
    assert_eq!(remap_index(lowest, lowest), 0);
    assert_eq!(remap_index(lowest + 8, lowest), 1);
    assert_eq!(remap_index(lowest + 80, lowest), 10);
    for k in 0u64..16 {
        assert_eq!(remap_index(lowest + 8 * k, lowest), k);
    }
}

#[test]
fn remapped_rows_keep_everything_but_the_address() {
    let lowest = 0x8000_0000u64;
    let trace = [
        with_ram(add_row(0, 7, 11), lowest + 24, 1, 2),
        CycleRow::noop_at(4),
    ];
    let remapped = remap_trace(&trace, lowest);
    assert_eq!(remapped[0].ram_access_address(), Some(3));
    assert_eq!(remapped[1].ram_access_address(), None);
    let row = remapped[0].row();
    assert_eq!(row.ram_access_address, Some(3));
    assert_eq!(row.ram_write_value, Some(2));
    assert_eq!(row.rs2_read, Some((2, 11)));

    let public = ram_public_columns::<F>(2, lowest);
    for k in 0..4u64 {
        assert_eq!(
            public.unmap[k as usize],
            F::from_u64(lowest).add(F::from_u64(8 * k))
        );
    }
    assert_eq!(public.val_io, vec![F::from_u64(0); 4]);
    assert_eq!(public.io_mask, vec![F::from_u64(0); 4]);
}

#[test]
fn assembled_witness_proves_and_verifies() {
    let lowest = 0x8000_0000u64;
    let trace: Vec<CycleRow> = memory_trace()
        .into_iter()
        .map(|mut row| {
            row.ram_access_address = row.ram_access_address.map(|k| lowest + 8 * k);
            row
        })
        .collect();
    let pcs = [0u64; 4];
    let real = assemble_real_witness(limbed_constraints(), &trace, &pcs, lowest, 8, 8);
    assert!(real.r1cs.is_satisfied());
    let mut prover_t = ProverTranscript::<F>::new(b"real-trace");
    let proof = prove_binary(
        &real.r1cs,
        &real.ram,
        &real.registers,
        &real.ram_public,
        &real.key,
        &mut prover_t,
    );
    let narg = prover_t.into_proof();
    let mut verifier_t = VerifierTranscript::<F>::new(b"real-trace", narg);
    let verdict = verify_binary(
        &proof,
        &real.key,
        real.r1cs.num_row_vars(),
        real.r1cs.log_num_cycles,
        real.ram.log_k,
        real.registers.log_k,
        &real.ram_public,
        &mut verifier_t,
    );
    assert_eq!(verdict, Ok(()));
}

#[test]
fn every_changed_spartan_opening_is_refused() {
    let trace = [add_row(0, 3, 5), CycleRow::noop_at(4)];
    let (witness, key) = witness_and_key(&trace);
    let mut prover_acc = Openings::<F>::new(witness.log_num_cycles);
    let mut prover_t = ProverTranscript::<F>::new(b"spartan-stage");
    let mut proof = prove_spartan(&witness, &key, &mut prover_acc, &mut prover_t);
    let narg = prover_t.into_proof();
    let one = F::from_u64(1);
    let verdict = |proof: &_| {
        let mut verifier_acc = Openings::<F>::new(witness.log_num_cycles);
        let mut verifier_t = VerifierTranscript::<F>::new(b"spartan-stage", narg.clone());
        verify_spartan(
            proof,
            &key,
            witness.num_row_vars(),
            &mut verifier_acc,
            &mut verifier_t,
        )
    };
    proof.bz_rx = proof.bz_rx.add(one);
    assert_eq!(verdict(&proof), Err(SpartanStageError::OuterClaim));
    proof.bz_rx = proof.bz_rx.sub(one);
    proof.cz_rx = proof.cz_rx.add(one);
    assert_eq!(verdict(&proof), Err(SpartanStageError::OuterClaim));
    // Openings with the same product and another combination fail the inner sumcheck.
    proof.cz_rx = proof.cz_rx.sub(one);
    let two = F::from_u64(2);
    proof.az_rx = proof.az_rx.mul(two);
    proof.bz_rx = proof.bz_rx.mul(F::one_half());
    assert_eq!(verdict(&proof), Err(SpartanStageError::Sumcheck));
}

#[test]
fn satisfaction_is_judged_on_the_common_rows() {
    let mut w = R1csWitness::<F>::materialize(&limbed_constraints(), &vec![add_cycle(7, 11)]);
    assert_eq!(w.num_row_vars(), w.num_cons_padded.trailing_zeros() as usize);
    let rows = w.az.len();
    w.az[rows - 1] = F::from_u64(1);
    w.bz[rows - 1] = F::from_u64(1);
    assert!(!w.is_satisfied());
    w.cz.truncate(rows - 1);
    assert!(w.is_satisfied());
    w.num_cons_padded = 12;
    assert_eq!(w.num_row_vars(), 2);
}

#[test]
fn the_address_space_may_end_at_the_last_word() {
    let lowest = u64::MAX - 24;
    let public = ram_public_columns::<F>(2, lowest);
    assert_eq!(public.unmap[3], F::from_u64(u64::MAX));
    assert_eq!(public.unmap.len(), 4);
}

#[test]
fn changed_transcript_elements_are_refused() {
    let trace = [add_row(0, 3, 5), CycleRow::noop_at(4)];
    let (witness, key) = witness_and_key(&trace);
    let (ram_w, reg_w, public) = memory_inputs(&trace);
    let mut prover_t = ProverTranscript::<F>::new(b"binary-driver");
    let proof = prove_binary(&witness, &ram_w, &reg_w, &public, &key, &mut prover_t);
    let narg = prover_t.into_proof();
    let verdict = |narg: Vec<F>| {
        let mut verifier_t = VerifierTranscript::<F>::new(b"binary-driver", narg);
        verify_binary(
            &proof,
            &key,
            witness.num_row_vars(),
            witness.log_num_cycles,
            ram_w.log_k,
            reg_w.log_k,
            &public,
            &mut verifier_t,
        )
    };
    for j in (0..narg.len()).step_by(5) {
        let mut changed = narg.clone();
        changed[j] = changed[j].add(F::from_u64(1));
        assert!(verdict(changed).is_err());
    }
    assert_eq!(verdict(narg), Ok(()));
}
