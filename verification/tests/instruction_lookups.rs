use jolt_goldilocks::field::Field;
use jolt_goldilocks::framework::accumulator::Openings;
use jolt_goldilocks::framework::poly;
use jolt_goldilocks::goldilocks::Goldilocks;
use jolt_goldilocks::zkvm::instruction_lookups::address_phase::{
    eq_eval_at_bits, identity_prefix_poly, operand_prefix_poly, InstructionAddressPhase, PhaseReads,
    ReadTerm, TableShape,
};
use jolt_goldilocks::zkvm::instruction_lookups::index_bits::uninterleave_bits;
use jolt_goldilocks::zkvm::instruction_lookups::lookup_groups::{
    lookup_groups_from_trace, LookupGroup,
};
use jolt_goldilocks::zkvm::instruction_lookups::operand_poly::{OperandPolynomial, OperandSide};
use jolt_goldilocks::zkvm::instruction_lookups::read_raf_sumcheck::{
    identity_polynomial_eval, operand_polynomial_eval, InstructionReadRaf, InstructionTrace,
};
use jolt_goldilocks::zkvm::instruction_lookups::trace::instruction_lookup_columns;
use jolt_goldilocks::zkvm::trace::{CycleRow, NUM_LOOKUP_TABLES};

type F = Goldilocks;

const XLEN: usize = 8;
const LOG_K: usize = 2 * XLEN;
const AND: usize = 2;

fn f(v: u64) -> F {
    F::from_u64(v)
}

fn interleave_bits(left: u64, right: u64) -> u128 {
    (0..64).fold(0u128, |acc, i| {
        acc | (((left >> i) & 1) as u128) << (2 * i + 1) | (((right >> i) & 1) as u128) << (2 * i)
    })
}

fn binary_point(idx: u128) -> Vec<F> {
    (0..LOG_K)
        .map(|i| f(((idx >> (LOG_K - 1 - i)) & 1) as u64))
        .collect()
}

/// The bitwise conjunction of the two operands, as a multilinear polynomial in the index bits.
fn and_at(point: &[F]) -> F {
    let m = point.len() / 2;
    (0..m).fold(f(0), |acc, i| {
        acc.add(
            point[2 * i]
                .mul(point[2 * i + 1])
                .mul(f(1 << (m - 1 - i))),
        )
    })
}

fn conjunction(bits: u128) -> u64 {
    let (left, right) = uninterleave_bits(bits);
    left & right
}

/// The conjunction over a chunk is the prefix, times one, plus the conjunction of the low bits.
fn table_shapes() -> Vec<TableShape<F>> {
    (0..NUM_LOOKUP_TABLES)
        .map(|t| {
            if t == AND {
                TableShape {
                    suffix_count: 2,
                    terms: vec![
                        ReadTerm {
                            coefficient: f(1),
                            prefix: Some(0),
                            suffix: 1,
                        },
                        ReadTerm {
                            coefficient: f(1),
                            prefix: None,
                            suffix: 0,
                        },
                    ],
                }
            } else {
                TableShape {
                    suffix_count: 0,
                    terms: vec![],
                }
            }
        })
        .collect()
}

fn phase_reads(checkpoint: F, groups: &[LookupGroup<F>], below: usize) -> PhaseReads<F> {
    let prefix: Vec<F> = (0..256u128)
        .map(|b| checkpoint.add(f(conjunction(b) << (below / 2))))
        .collect();
    let suffix_values = groups
        .iter()
        .map(|g| match g.lookup_table_index {
            Some(_) => vec![conjunction(g.lookup_index & ((1u128 << below) - 1)), 1],
            None => vec![],
        })
        .collect();
    PhaseReads {
        prefix_polys: vec![prefix],
        suffix_values,
    }
}

fn read_at(table: Option<usize>, point: &[F]) -> F {
    match table {
        Some(_) => and_at(point),
        None => f(0),
    }
}

fn raf_at(interleaved: bool, gamma: F, point: &[F]) -> F {
    let gamma2 = gamma.mul(gamma);
    if interleaved {
        gamma
            .mul(operand_polynomial_eval(point, true))
            .add(gamma2.mul(operand_polynomial_eval(point, false)))
    } else {
        gamma2.mul(identity_polynomial_eval(point))
    }
}

#[test]
fn operand_and_identity_prefix_match_definition() {
    let checkpoint = f(3);
    let left = operand_prefix_poly::<F>(checkpoint, 4, true);
    let right = operand_prefix_poly::<F>(checkpoint, 4, false);
    let identity = identity_prefix_poly::<F>(checkpoint, 4);
    for bits in 0..16u128 {
        let (lo, ro) = uninterleave_bits(bits);
        assert_eq!(left[bits as usize], checkpoint.mul(f(1 << 2)).add(f(lo)));
        assert_eq!(right[bits as usize], checkpoint.mul(f(1 << 2)).add(f(ro)));
        assert_eq!(
            identity[bits as usize],
            checkpoint.mul(f(1 << 4)).add(f(bits as u64))
        );
    }
}

#[test]
fn operand_evaluate_matches_uninterleave() {
    const NUM_VARS: usize = 8;
    let right = OperandPolynomial::new(NUM_VARS, OperandSide::Right);
    let left = OperandPolynomial::new(NUM_VARS, OperandSide::Left);
    for i in 0u128..(1 << NUM_VARS) {
        let point: Vec<F> = (0..NUM_VARS)
            .rev()
            .map(|j| f(((i >> j) & 1) as u64))
            .collect();
        let (u0, u1) = uninterleave_bits(i);
        assert_eq!(right.evaluate(&point), f(u0), "offset 0 at index {i}");
        assert_eq!(left.evaluate(&point), f(u1), "offset 1 at index {i}");
    }
}

#[test]
fn interleaving_is_undone() {
    for (left, right) in [(0u64, 0u64), (u64::MAX, 0), (0x0123_4567_89AB_CDEF, 42)] {
        assert_eq!(
            uninterleave_bits(interleave_bits(left, right)),
            (left, right)
        );
    }
}

#[test]
fn weights_at_the_corners() {
    let point = [f(1), f(0), f(1)];
    for bits in 0..8u128 {
        let expected = f(if bits == 0b101 { 1 } else { 0 });
        assert_eq!(eq_eval_at_bits(&point, bits), expected);
    }
}

#[test]
fn groups_collect_equal_lookups() {
    let u = [f(2), f(3), f(5), f(7)];
    let (groups, by_cycle, by_table) = lookup_groups_from_trace(
        &[9, 9, 9, 4],
        &[Some(AND), Some(AND), None, None],
        &[true, true, false, false],
        &u,
    );
    assert_eq!(groups.len(), 3);
    assert_eq!(by_cycle, vec![0, 0, 1, 2]);
    assert_eq!(groups[0].u_eval_sum, f(5));
    assert_eq!(groups[1].u_eval_sum, f(5));
    assert_eq!(groups[2].u_eval_sum, f(7));
    assert_eq!(by_table.len(), NUM_LOOKUP_TABLES);
    assert_eq!(by_table[AND], vec![0]);
}

#[test]
fn columns_are_padded_with_idle_cycles() {
    let mut row = CycleRow::noop_at(0);
    row.lookup_index = 77;
    row.lookup_table = Some(AND);
    let mut sequential = row;
    sequential.circuit_flags.add_operands = true;
    let columns = instruction_lookup_columns(&[row, sequential], 4);
    assert_eq!(columns.lookup_indices, vec![77, 77, 0, 0]);
    assert_eq!(
        columns.lookup_table_indices,
        vec![Some(AND), Some(AND), None, None]
    );
    assert_eq!(columns.is_interleaved, vec![true, false, false, false]);
}

#[test]
fn address_phase_reduces_to_expected_mle() {
    let idx_a = interleave_bits(0b1011_0110u64, 0b0110_1001u64);
    let idx_b = interleave_bits(0b0011_1101u64, 0b1100_0011u64);
    let idx_c = 0b1010_0101_1001_0110u128;
    let u_evals = poly::eq_evals(&[f(5), f(9)]);
    assert_eq!(u_evals.len(), 4);
    let (groups, _, groups_by_table) = lookup_groups_from_trace(
        &[idx_a, idx_a, idx_b, idx_c],
        &[Some(AND), Some(AND), Some(AND), None],
        &[true, true, true, false],
        &u_evals,
    );
    assert_eq!(groups.len(), 3, "first two cycles dedup into one group");

    let gamma = f(17);
    let initial_claim = groups.iter().fold(f(0), |acc, g| {
        let bp = binary_point(g.lookup_index);
        let value = read_at(g.lookup_table_index, &bp).add(raf_at(
            g.is_interleaved_operands,
            gamma,
            &bp,
        ));
        acc.add(g.u_eval_sum.mul(value))
    });
    let plain: Vec<(u128, Option<usize>, bool, F)> = groups
        .iter()
        .map(|g| {
            (
                g.lookup_index,
                g.lookup_table_index,
                g.is_interleaved_operands,
                g.u_eval_sum,
            )
        })
        .collect();

    let mut state =
        InstructionAddressPhase::new(XLEN, groups, groups_by_table, gamma, f(1), vec![f(0)]);
    assert_eq!(state.num_address_rounds(), LOG_K);
    let tables = table_shapes();
    let mut claim = initial_claim;
    let mut r_addr = Vec::with_capacity(LOG_K);
    for round in 0..LOG_K {
        if round % 8 == 0 {
            let below = LOG_K - round - 8;
            let reads = phase_reads(state.read_prefix_checkpoints[0], &state.groups, below);
            state.begin_phase(reads, &tables);
        }
        let message = state.round_poly(claim);
        assert_eq!(
            message.evaluate(f(0)).add(message.evaluate(f(1))),
            claim,
            "round {round}"
        );
        let challenge = f((round as u64) * 7 + 3);
        r_addr.push(challenge);
        claim = message.evaluate(challenge);
        state.bind(challenge);
    }
    assert_eq!(*state.address_challenges(), r_addr);

    let expected = plain
        .iter()
        .fold(f(0), |acc, (index, table, interleaved, weight)| {
            let value = read_at(*table, &r_addr).add(raf_at(*interleaved, gamma, &r_addr));
            acc.add(weight.mul(eq_eval_at_bits(&r_addr, *index)).mul(value))
        });
    assert_eq!(claim, expected);
}

const D: usize = 4;

/// The chunk of an index, the first chunk holding its highest bits.
fn chunk_index(idx: u128, chunk: usize) -> u32 {
    let chunk_bits = LOG_K / D;
    let shift = LOG_K - (chunk + 1) * chunk_bits;
    ((idx >> shift) & ((1u128 << chunk_bits) - 1)) as u32
}

#[test]
fn instruction_read_raf_full_round_trip() {
    let idx_a = interleave_bits(0b1011_0110u64, 0b0110_1001u64);
    let idx_b = interleave_bits(0b0011_1101u64, 0b1100_0011u64);
    let idx_c = 0b1010_0101_1001_0110u128;
    let idx_d = interleave_bits(0b0101_0101u64, 0b1010_1010u64);
    let lookup_indices = vec![idx_a, idx_b, idx_c, idx_d];
    let lookup_table_indices = vec![Some(AND), Some(AND), None, Some(AND)];
    let is_interleaved = vec![true, true, false, true];
    let indices: Vec<Vec<u32>> = (0..D)
        .map(|i| {
            lookup_indices
                .iter()
                .map(|&idx| chunk_index(idx, i))
                .collect()
        })
        .collect();
    let trace = InstructionTrace {
        lookup_indices: &lookup_indices,
        lookup_table_indices: &lookup_table_indices,
        is_interleaved: &is_interleaved,
        indices: &indices,
    };

    let r_reduction = vec![f(5), f(9)];
    let gamma = f(17);
    let mut instance =
        InstructionReadRaf::new_prover(&trace, r_reduction, gamma, XLEN, LOG_K / D, vec![f(0)]);
    let entries: Vec<u64> = lookup_indices
        .iter()
        .zip(&lookup_table_indices)
        .map(|(index, table)| match table {
            Some(_) => conjunction(*index),
            None => 0,
        })
        .collect();
    let mut claim = instance.input_claim(&entries);
    let num_rounds = instance.num_rounds();
    assert_eq!(num_rounds, LOG_K + 2);
    let tables = table_shapes();
    let mut table_vals = Vec::new();
    let mut challenges = Vec::with_capacity(num_rounds);
    for round in 0..num_rounds {
        if round < LOG_K && round % 8 == 0 {
            let below = LOG_K - round - 8;
            let reads = phase_reads(
                instance.address.read_prefix_checkpoints[0],
                &instance.address.groups,
                below,
            );
            instance.begin_phase(reads, &tables);
        }
        if round == LOG_K {
            let r_addr = instance.r_addr();
            table_vals = (0..NUM_LOOKUP_TABLES)
                .map(|t| if t == AND { and_at(&r_addr) } else { f(0) })
                .collect();
            instance.materialize_cycle(&table_vals);
        }
        let message = instance.compute_message(round, claim);
        assert_eq!(
            message.evaluate(f(0)).add(message.evaluate(f(1))),
            claim,
            "round {round}"
        );
        let c = f((round as u64) * 7 + 3);
        challenges.push(c);
        claim = message.evaluate(c);
        instance.bind(c, round);
    }

    let columns = &instance.cycle.as_ref().expect("the cycle rounds ran").columns;
    assert_eq!(columns.len(), D + 1);
    let prover_reduced = columns
        .iter()
        .fold(f(1), |acc, column| acc.mul(column.evals[0]));
    assert_eq!(claim, prover_reduced);

    let mut acc = Openings::<F>::new(2);
    instance.cache_openings(&mut acc, &challenges);
    let expected = instance.expected_output_claim(&acc, &challenges, &table_vals);
    assert_eq!(claim, expected);
}

#[test]
fn an_idle_cycle_has_no_instruction_flag() {
    let flags = CycleRow::noop_at(8).instruction_flags;
    let set = [
        flags.left_operand_is_pc,
        flags.right_operand_is_imm,
        flags.left_operand_is_rs1_value,
        flags.right_operand_is_rs2_value,
        flags.branch,
        flags.is_noop,
    ];
    assert_eq!(set, [false; 6]);
}

#[test]
fn values_at_the_bits_of_an_index() {
    let gamma = f(17);
    for (left, right) in [(0u64, 0u64), (0b1011_0110, 0b0110_1001), (255, 255), (1, 254)] {
        let index = interleave_bits(left, right);
        let bits = binary_point(index);
        assert_eq!(and_at(&bits), f(left & right));
        assert_eq!(
            raf_at(true, gamma, &bits),
            gamma.mul(f(left)).add(gamma.mul(gamma).mul(f(right)))
        );
        assert_eq!(
            raf_at(false, gamma, &bits),
            gamma.mul(gamma).mul(f(index as u64))
        );
        // The weights at the bits select the index.
        let weights = poly::eq_evals(&bits);
        for (k, w) in weights.iter().enumerate() {
            assert_eq!(*w, f((k as u128 == index) as u64));
        }
    }
}
