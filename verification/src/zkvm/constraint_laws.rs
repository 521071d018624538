//! The equations that the variables of every executed cycle satisfy, and completeness for constraint
//! systems that demand no more than these equations.

use crate::field;
use crate::field::Field;
use crate::framework::accumulator::Claims;
use crate::framework::transcript;
use crate::framework::transcript::FsState;
use crate::r1cs::layout::{
    ADD_C0, BRANCH, CONST_ONE, F_ADD, F_JUMP, LEFT, LEFT_SIGN, LOOKUP_OUTPUT, MUL_C0, MUL_C1,
    MUL_C2, NEXT_IS_NOOP, NUM_VARS, PRODUCT, PRODUCT_SIGN, Q, RAM_ADDR_C0, RAM_READ, RAM_WRITE,
    RD_WRITE, RIGHT_MAG, RIGHT_SIGN, RS2, SHOULD_BRANCH, SHOULD_JUMP, SIGN_PROD, SUB_C0, SUB_C1,
};
use crate::r1cs::matrices::ConstraintMatrices;
use crate::zkvm::cycle_laws;
use crate::zkvm::driver;
use crate::zkvm::r1cs_witness;
use crate::zkvm::r1cs_witness::assignment;
use crate::zkvm::real_trace;
use crate::zkvm::real_trace::RealWitness;
use crate::zkvm::trace::CycleRow;
use vstd::prelude::*;

verus! {

/// A row moves words as its flags say: a lookup output that is to be written is what the destination
/// register holds after it, a load leaves the word it finds in the memory and in the destination
/// register, a store leaves the second source register in the memory, and an assertion looks up one.
pub open spec fn moves_words(row: CycleRow) -> bool {
    let flags = row.circuit_flags;
    let left = match row.rd_write {
        Some((_, _, v)) => Some(v),
        None => None,
    };
    &&& flags.write_lookup_output_to_rd ==> left == Some(row.lookup_output)
    &&& flags.load ==> left is Some && left == row.ram_read_value && row.ram_read_value
        == row.ram_write_value
    &&& flags.store ==> row.rs2_read is Some && row.ram_write_value is Some && (row.rs2_read->0).1
        == row.ram_write_value->0
    &&& flags.assert_flag ==> row.lookup_output == 1
}

/// The equations of the products: each limb product is that of its limbs, the limb products and the
/// carries recompose to the limbs of the product, and its sign is that of its factors.
pub open spec fn product_equations<F: Field>(z: Seq<F>) -> bool {
    let shift = F::of_int(0x1_0000_0000);
    &&& z[Q as int] == z[LEFT as int].times(z[RIGHT_MAG as int])
    &&& z[Q + 1] == z[LEFT as int].times(z[RIGHT_MAG + 1])
    &&& z[Q + 2] == z[LEFT + 1].times(z[RIGHT_MAG as int])
    &&& z[Q + 3] == z[LEFT + 1].times(z[RIGHT_MAG + 1])
    &&& z[Q as int] == z[PRODUCT as int].plus(shift.times(z[MUL_C0 as int]))
    &&& z[Q + 1].plus(z[Q + 2]).plus(z[MUL_C0 as int]) == z[PRODUCT + 1].plus(
        shift.times(z[MUL_C1 as int]),
    )
    &&& z[Q + 3].plus(z[MUL_C1 as int]) == z[PRODUCT + 2].plus(shift.times(z[MUL_C2 as int]))
    &&& z[MUL_C2 as int] == z[PRODUCT + 3]
    &&& z[SIGN_PROD as int] == z[LEFT_SIGN as int].times(z[RIGHT_SIGN as int])
    &&& z[PRODUCT_SIGN as int] == z[LEFT_SIGN as int].plus(z[RIGHT_SIGN as int])
}

/// The equations of the decisions: whether to branch and whether to jump.
pub open spec fn decision_equations<F: Field>(z: Seq<F>) -> bool {
    &&& z[CONST_ONE as int] == F::of_int(1)
    &&& z[SHOULD_BRANCH as int] == z[LOOKUP_OUTPUT as int].plus(
        F::of_int(0x1_0000_0000).times(z[LOOKUP_OUTPUT + 1]),
    ).times(z[BRANCH as int])
    &&& z[SHOULD_JUMP as int] == z[F_JUMP as int].times(
        F::of_int(1).minus(z[NEXT_IS_NOOP as int]),
    )
}

/// The equations of half `h` of the words that are moved, each switched on by its flag.
pub open spec fn transfer_equations<F: Field>(z: Seq<F>, h: int) -> bool {
    let zero = F::of_int(0);
    &&& z[F_ADD + 6].times(z[RD_WRITE + h].minus(z[LOOKUP_OUTPUT + h])) == zero
    &&& z[F_ADD + 3].times(z[RD_WRITE + h].minus(z[RAM_READ + h])) == zero
    &&& z[F_ADD + 3].times(z[RAM_READ + h].minus(z[RAM_WRITE + h])) == zero
    &&& z[F_ADD + 4].times(z[RAM_WRITE + h].minus(z[RS2 + h])) == zero
    &&& z[F_ADD + 8].times(z[LOOKUP_OUTPUT + h].minus(F::of_int(1 - h))) == zero
}

/// The variables that hold bits: the flags, the signs and the carries of sums and differences.
pub open spec fn holds_bit(x: int) -> bool {
    ||| F_ADD <= x <= BRANCH
    ||| x == LEFT_SIGN || x == RIGHT_SIGN || x == PRODUCT_SIGN || x == SIGN_PROD
    ||| x == ADD_C0 || x == SUB_C0 || x == SUB_C1 || x == RAM_ADDR_C0
}

/// The equations of the bits: each is its own square.
pub open spec fn bit_equations<F: Field>(z: Seq<F>) -> bool {
    forall|x: int| holds_bit(x) ==> (#[trigger] z[x]).times(z[x]) == z[x]
}

/// The equations of a cycle.
pub open spec fn cycle_equations<F: Field>(z: Seq<F>) -> bool {
    &&& bit_equations(z)
    &&& product_equations(z)
    &&& decision_equations(z)
    &&& transfer_equations(z, 0)
    &&& transfer_equations(z, 1)
}

/// The variables of every cycle that moves words as its flags say satisfy the equations.
pub proof fn law_cycle_equations<F: Field>(trace: Seq<CycleRow>, t: int, pcs: Seq<u64>)
    requires
        0 <= t < trace.len(),
        r1cs_witness::row_fits(trace[t]),
        !trace[t].is_noop ==> moves_words(trace[t]),
    ensures
        cycle_equations(assignment::<F>(trace, t, pcs)),
{
    let z = assignment::<F>(trace, t, pcs);
    assert forall|x: int| holds_bit(x) implies (#[trigger] z[x]).times(z[x]) == z[x] by {
        lemma_bit::<F>(trace, t, pcs, x);
    }
    cycle_laws::law_product_constraints::<F>(trace, t, pcs);
    if trace[t].is_noop {
        lemma_idle_equations::<F>(trace, t, pcs, 0);
        lemma_idle_equations::<F>(trace, t, pcs, 1);
    } else {
        cycle_laws::law_flag_variables::<F>(trace, t, pcs);
        cycle_laws::law_decision_variables::<F>(trace, t, pcs);
        cycle_laws::law_transfer_constraints::<F>(trace, t, pcs, 0);
        cycle_laws::law_transfer_constraints::<F>(trace, t, pcs, 1);
    }
}

/// A bit is its own square.
proof fn lemma_bit<F: Field>(trace: Seq<CycleRow>, t: int, pcs: Seq<u64>, x: int)
    requires
        0 <= t < trace.len(),
        r1cs_witness::row_fits(trace[t]),
        holds_bit(x),
    ensures
        ({
            let z = assignment::<F>(trace, t, pcs);
            z[x].times(z[x]) == z[x]
        }),
{
    let z = assignment::<F>(trace, t, pcs);
    F::law_of_int_times(0, 0);
    F::law_of_int_times(1, 1);
    if F_ADD <= x <= BRANCH {
        if trace[t].is_noop {
            cycle_laws::law_noop_variables::<F>(trace, t, pcs, x);
        } else {
            cycle_laws::law_flag_variables::<F>(trace, t, pcs);
        }
    } else {
        let k: int = if x == LEFT_SIGN {
            0
        } else if x == RIGHT_SIGN {
            1
        } else if x == PRODUCT_SIGN {
            2
        } else if x == SIGN_PROD {
            3
        } else if x == ADD_C0 {
            4
        } else if x == SUB_C0 {
            5
        } else if x == SUB_C1 {
            6
        } else {
            7
        };
        assert(r1cs_witness::aux_vars()[k] == x);
        r1cs_witness::law_aux_boolean(trace, t, pcs, k);
    }
}

/// A cycle that does nothing branches nowhere and moves nothing.
proof fn lemma_idle_equations<F: Field>(trace: Seq<CycleRow>, t: int, pcs: Seq<u64>, h: int)
    requires
        0 <= t < trace.len(),
        trace[t].is_noop,
        0 <= h < 2,
    ensures
        decision_equations(assignment::<F>(trace, t, pcs)),
        transfer_equations(assignment::<F>(trace, t, pcs), h),
{
    let z = assignment::<F>(trace, t, pcs);
    let zero = F::of_int(0);
    assert forall|i: int|
        #![trigger z[i]]
        BRANCH <= i <= SHOULD_BRANCH || i == SHOULD_JUMP || i == F_JUMP || F_ADD <= i <= F_ADD + 8
            || LOOKUP_OUTPUT <= i <= LOOKUP_OUTPUT + 1 implies z[i] == zero by {
        cycle_laws::law_noop_variables::<F>(trace, t, pcs, i);
    }
    cycle_laws::law_noop_variables::<F>(trace, t, pcs, 0);
    F::law_times_zero(z[LOOKUP_OUTPUT as int].plus(
        F::of_int(0x1_0000_0000).times(z[LOOKUP_OUTPUT + 1]),
    ));
    field::lemma_zero_times(F::of_int(1).minus(z[NEXT_IS_NOOP as int]));
    field::lemma_zero_times(z[RD_WRITE + h].minus(z[LOOKUP_OUTPUT + h]));
    field::lemma_zero_times(z[RD_WRITE + h].minus(z[RAM_READ + h]));
    field::lemma_zero_times(z[RAM_READ + h].minus(z[RAM_WRITE + h]));
    field::lemma_zero_times(z[RAM_WRITE + h].minus(z[RS2 + h]));
    field::lemma_zero_times(z[LOOKUP_OUTPUT + h].minus(F::of_int(1 - h)));
}

/// Every row satisfies a constraint system that demands no more than the equations.
pub proof fn law_rows_satisfied<F: Field>(
    m: ConstraintMatrices<F>,
    trace: Seq<CycleRow>,
    t: int,
    pcs: Seq<u64>,
)
    requires
        0 <= t < trace.len(),
        r1cs_witness::row_fits(trace[t]),
        !trace[t].is_noop ==> moves_words(trace[t]),
        forall|z: Seq<F>|
            z.len() == NUM_VARS && cycle_equations(z) ==> #[trigger] m.satisfied_by(z),
    ensures
        m.satisfied_by(assignment::<F>(trace, t, pcs)),
{
    law_cycle_equations::<F>(trace, t, pcs);
}

/// Completeness without a condition on the assignment: where the constraints demand no more than the
/// equations, the proof of every trace whose cycles move words as their flags say is accepted, and
/// both parties record the same claims.
pub proof fn law_moved_words_complete<F: Field>(
    w: RealWitness<F>,
    m: ConstraintMatrices<F>,
    trace: Seq<CycleRow>,
    pcs: Seq<u64>,
    lowest: int,
    ram_k: nat,
    register_count: nat,
    acc: Claims<F>,
    p: FsState<F>,
    v: FsState<F>,
    whole: Seq<F>,
)
    requires
        m.num_vars == NUM_VARS,
        w.assembles(m, trace, pcs, lowest, ram_k, register_count),
        real_trace::runs_on(trace, lowest, ram_k as int, register_count as int),
        forall|t: int|
            0 <= t < trace.len() && !(#[trigger] trace[t]).is_noop ==> moves_words(trace[t]),
        forall|z: Seq<F>|
            z.len() == NUM_VARS && cycle_equations(z) ==> #[trigger] m.satisfied_by(z),
        p.canonical(),
        transcript::synced(p, v, whole),
        driver::honest(
            w.r1cs,
            w.ram,
            w.registers,
            w.ram_public@,
            w.key,
            acc,
            p,
        ).2.tape.is_prefix_of(whole),
    ensures
        ({
            let (claims, acc1, p1) = driver::honest(
                w.r1cs,
                w.ram,
                w.registers,
                w.ram_public@,
                w.key,
                acc,
                p,
            );
            let (r, acc2, v1) = driver::verdict(
                claims,
                w.key,
                w.r1cs.log_num_cycles as nat,
                w.ram.log_k as nat,
                w.registers.log_k as nat,
                w.ram_public@,
                acc,
                v,
            );
            &&& r is Ok
            &&& acc2 == acc1
            &&& transcript::synced(p1, v1, whole)
        }),
{
    assert forall|t: int| 0 <= t < trace.len() implies m.satisfied_by(
        #[trigger] assignment::<F>(trace, t, pcs),
    ) by {
        assert(r1cs_witness::row_fits(trace[t]));
        law_rows_satisfied(m, trace, t, pcs);
    }
    real_trace::law_trace_complete(
        w,
        m,
        trace,
        pcs,
        lowest,
        ram_k,
        register_count,
        acc,
        p,
        v,
        whole,
    );
}

} // verus!
