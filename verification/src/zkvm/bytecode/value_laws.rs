//! What each decoded field of an instruction contributes to the value columns of a bytecode.

use crate::field;
use crate::field::Field;
use crate::framework::accumulator::{SumcheckId, VirtualPolynomial};
use crate::framework::poly;
use crate::framework::sums;
use crate::framework::transcript;
use crate::framework::transcript::FsState;
use crate::zkvm::bytecode::read_raf_checking;
use crate::zkvm::bytecode::read_raf_checking::value_column;
use crate::zkvm::shout_read_raf;
use crate::zkvm::trace::{Instruction, NUM_CIRCUIT_FLAGS, NUM_LOOKUP_TABLES};
use vstd::arithmetic::power2::pow2;
use vstd::prelude::*;

verus! {

proof fn lemma_absorb<F: Field>(a: F, b: F, d: F)
    ensures
        a.plus(b).plus(d) == a.plus(b.plus(d)),
        a.plus(d).plus(b) == a.plus(b).plus(d),
        a.plus(b).plus(F::of_int(0)) == a.plus(b),
{
    F::law_plus_assoc(a, b, d);
    F::law_plus_assoc(a, d, b);
    F::law_plus_comm(b, d);
    F::law_valid(a, b);
    F::law_plus_zero(a.plus(b));
}

/// A sum over flags grows by what is added to the weight of a set flag.
proof fn lemma_flags_raised<F: Field>(flags: Seq<bool>, g: Seq<F>, from: int, i: int, d: F, n: int)
    requires
        0 <= n <= flags.len(),
        0 <= from,
        from + flags.len() <= g.len(),
        0 <= i < g.len(),
        d.valid(),
    ensures
        ({
            let h = g.update(i, g[i].plus(d));
            let added = if 0 <= i - from < n && flags[i - from] {
                d
            } else {
                F::of_int(0)
            };
            sums::sum(n, |x: int| sums::flagged(flags[x], h[from + x])) == sums::sum(
                n,
                |x: int| sums::flagged(flags[x], g[from + x]),
            ).plus(added)
        }),
    decreases n,
{
    let h = g.update(i, g[i].plus(d));
    let fh = |x: int| sums::flagged(flags[x], h[from + x]);
    let fg = |x: int| sums::flagged(flags[x], g[from + x]);
    let zero = F::of_int(0);
    if n == 0 {
        F::law_of_int_valid(0);
        F::law_plus_zero(zero);
    } else {
        lemma_flags_raised(flags, g, from, i, d, n - 1);
        let below = sums::sum(n - 1, fg);
        sums::lemma_sum_valid(n - 1, fg);
        F::law_plus_zero(below);
        lemma_absorb(below, fg(n - 1), d);
        lemma_absorb(below, fg(n - 1), zero);
        if i - from == n - 1 {
            assert(fh(n - 1) == sums::flagged(flags[n - 1], g[i].plus(d)));
        } else {
            assert(fh(n - 1) == fg(n - 1));
        }
    }
}

/// The flag at each place of a value column, by the weights behind `from`.
proof fn lemma_flag_sum_raised<F: Field>(flags: Seq<bool>, g: Seq<F>, from: int, i: int, d: F)
    requires
        0 <= from,
        from + flags.len() <= g.len(),
        0 <= i < g.len(),
        d.valid(),
    ensures
        ({
            let h = g.update(i, g[i].plus(d));
            let added = if 0 <= i - from < flags.len() && flags[i - from] {
                d
            } else {
                F::of_int(0)
            };
            read_raf_checking::flag_sum(flags, h, from) == read_raf_checking::flag_sum(
                flags,
                g,
                from,
            ).plus(added)
        }),
{
    lemma_flags_raised(flags, g, from, i, d, flags.len() as int);
}

/// Without weights, the first value column holds the addresses, the third the immediates, the last
/// the indicators of the destination registers, and the others nothing.
pub proof fn law_unweighted<F: Field>(
    bytecode: Seq<Instruction>,
    k: int,
    s: int,
    g: Seq<F>,
    eq: Seq<F>,
    eq_last: Seq<F>,
)
    requires
        0 <= k < bytecode.len(),
        0 <= s < 5,
        read_raf_checking::row_fits(bytecode[k], eq.len()),
        bytecode[k].rd is Some ==> bytecode[k].rd->0 < eq_last.len(),
        g.len() >= 2 + NUM_LOOKUP_TABLES,
        forall|i: int| 0 <= i < g.len() ==> #[trigger] g[i] == F::of_int(0),
        field::all_valid(eq_last),
    ensures
        value_column(bytecode, s, g, eq, eq_last)[k] == (if s == 0 {
            F::of_int(bytecode[k].address as int)
        } else if s == 2 {
            F::of_int(bytecode[k].imm as int)
        } else if s == 4 && bytecode[k].rd is Some {
            eq_last[bytecode[k].rd->0 as int]
        } else {
            F::of_int(0)
        }),
{
    let row = bytecode[k];
    let zero = F::of_int(0);
    let addr = F::of_int(row.address as int);
    let imm = F::of_int(row.imm as int);
    F::law_of_int_valid(0);
    F::law_of_int_valid(row.address as int);
    F::law_of_int_valid(row.imm as int);
    F::law_plus_zero(zero);
    F::law_plus_zero(addr);
    F::law_plus_zero(imm);
    field::lemma_zero_times(imm);
    field::lemma_zero_times(addr);
    if s == 0 {
        let flags = row.circuit_flags.bits();
        sums::lemma_sum_zero(
            flags.len() as int,
            |i: int| sums::flagged(flags[i], g[2 + i]),
        );
    } else if s == 1 {
        let flags = read_raf_checking::product_flags(row);
        sums::lemma_sum_zero(
            flags.len() as int,
            |i: int| sums::flagged(flags[i], g[0 + i]),
        );
    } else if s == 2 {
        let flags = read_raf_checking::shift_flags(row);
        sums::lemma_sum_zero(
            flags.len() as int,
            |i: int| sums::flagged(flags[i], g[2 + i]),
        );
    } else if s == 3 {
        F::law_times_zero(read_raf_checking::register_weight(row.rd, eq));
        F::law_times_zero(read_raf_checking::register_weight(row.rs1, eq));
        F::law_times_zero(read_raf_checking::register_weight(row.rs2, eq));
    } else {
        F::law_plus_zero(read_raf_checking::register_weight(row.rd, eq_last));
    }
}

/// In the first value column the weights are those of the immediate and of the circuit flags: raising
/// one weight raises every entry by the same amount times that field of the row.
pub proof fn law_circuit_weights<F: Field>(
    bytecode: Seq<Instruction>,
    k: int,
    g: Seq<F>,
    i: int,
    d: F,
    eq: Seq<F>,
    eq_last: Seq<F>,
)
    requires
        0 <= k < bytecode.len(),
        g.len() >= 16,
        0 <= i < g.len(),
        d.valid(),
    ensures
        ({
            let flags = bytecode[k].circuit_flags;
            let share: int = if i == 1 {
                bytecode[k].imm as int
            } else if (i == 2 && flags.add_operands) || (i == 3 && flags.subtract_operands) || (i
                == 4 && flags.multiply_operands) || (i == 5 && flags.load) || (i == 6
                && flags.store) || (i == 7 && flags.jump) || (i == 8
                && flags.write_lookup_output_to_rd) || (i == 9 && flags.virtual_instruction) || (i
                == 10 && flags.assert_flag) || (i == 11 && flags.do_not_update_unexpanded_pc) || (i
                == 12 && flags.advice) || (i == 13 && flags.is_compressed) || (i == 14
                && flags.is_first_in_sequence) || (i == 15 && flags.is_last_in_sequence) {
                1
            } else {
                0
            };
            value_column(bytecode, 0, g.update(i, g[i].plus(d)), eq, eq_last)[k] == value_column(
                bytecode,
                0,
                g,
                eq,
                eq_last,
            )[k].plus(d.times(F::of_int(share)))
        }),
{
    let row = bytecode[k];
    let flags = row.circuit_flags.bits();
    let h = g.update(i, g[i].plus(d));
    let addr = F::of_int(row.address as int);
    let imm = F::of_int(row.imm as int);
    let sg = read_raf_checking::flag_sum(flags, g, 2);
    let base = addr.plus(g[1].times(imm));
    lemma_flag_sum_raised(flags, g, 2, i, d);
    F::law_times_one(d);
    F::law_times_zero(d);
    sums::lemma_sum_valid(flags.len() as int, |x: int| sums::flagged(flags[x], g[2 + x]));
    F::law_plus_zero(sg);
    lemma_absorb(base, sg, d);
    lemma_absorb(base, sg, F::of_int(0));
    if i == 1 {
        field::lemma_distrib_right(imm, g[1], d);
        lemma_absorb(addr, g[1].times(imm), d.times(imm));
        lemma_absorb(base, sg, d.times(imm));
    }
}

/// In the second value column the weights are those of the flags of a control transfer: raising one
/// weight raises every entry by the same amount times that flag of the row.
pub proof fn law_transfer_weights<F: Field>(
    bytecode: Seq<Instruction>,
    k: int,
    g: Seq<F>,
    i: int,
    d: F,
    eq: Seq<F>,
    eq_last: Seq<F>,
)
    requires
        0 <= k < bytecode.len(),
        g.len() >= 4,
        0 <= i < g.len(),
        d.valid(),
    ensures
        ({
            let row = bytecode[k];
            let share: int = if (i == 0 && row.circuit_flags.jump) || (i == 1
                && row.instruction_flags.branch) || (i == 2
                && row.circuit_flags.write_lookup_output_to_rd) || (i == 3
                && row.circuit_flags.virtual_instruction) {
                1
            } else {
                0
            };
            value_column(bytecode, 1, g.update(i, g[i].plus(d)), eq, eq_last)[k] == value_column(
                bytecode,
                1,
                g,
                eq,
                eq_last,
            )[k].plus(d.times(F::of_int(share)))
        }),
{
    let flags = read_raf_checking::product_flags(bytecode[k]);
    lemma_flag_sum_raised(flags, g, 0, i, d);
    F::law_times_one(d);
    F::law_times_zero(d);
}

/// In the third value column the weights are those of the address and of the flags of the operand
/// sources: raising one weight raises every entry by the same amount times that field of the row.
pub proof fn law_source_weights<F: Field>(
    bytecode: Seq<Instruction>,
    k: int,
    g: Seq<F>,
    i: int,
    d: F,
    eq: Seq<F>,
    eq_last: Seq<F>,
)
    requires
        0 <= k < bytecode.len(),
        g.len() >= 9,
        0 <= i < g.len(),
        d.valid(),
    ensures
        ({
            let row = bytecode[k];
            let share: int = if i == 1 {
                row.address as int
            } else if (i == 2 && row.instruction_flags.left_operand_is_rs1_value) || (i == 3
                && row.instruction_flags.left_operand_is_pc) || (i == 4
                && row.instruction_flags.right_operand_is_rs2_value) || (i == 5
                && row.instruction_flags.right_operand_is_imm) || (i == 6
                && row.instruction_flags.is_noop) || (i == 7
                && row.circuit_flags.virtual_instruction) || (i == 8
                && row.circuit_flags.is_first_in_sequence) {
                1
            } else {
                0
            };
            value_column(bytecode, 2, g.update(i, g[i].plus(d)), eq, eq_last)[k] == value_column(
                bytecode,
                2,
                g,
                eq,
                eq_last,
            )[k].plus(d.times(F::of_int(share)))
        }),
{
    let row = bytecode[k];
    let flags = read_raf_checking::shift_flags(row);
    let h = g.update(i, g[i].plus(d));
    let addr = F::of_int(row.address as int);
    let imm = F::of_int(row.imm as int);
    let sg = read_raf_checking::flag_sum(flags, g, 2);
    let base = imm.plus(g[1].times(addr));
    lemma_flag_sum_raised(flags, g, 2, i, d);
    F::law_times_one(d);
    F::law_times_zero(d);
    sums::lemma_sum_valid(flags.len() as int, |x: int| sums::flagged(flags[x], g[2 + x]));
    F::law_plus_zero(sg);
    lemma_absorb(base, sg, d);
    lemma_absorb(base, sg, F::of_int(0));
    if i == 1 {
        field::lemma_distrib_right(addr, g[1], d);
        lemma_absorb(imm, g[1].times(addr), d.times(addr));
        lemma_absorb(base, sg, d.times(addr));
    }
}

/// In the fourth value column the three weights are those of the destination register and of the two
/// source registers: raising one weight raises every entry by the same amount times the indicator of
/// that register.
pub proof fn law_register_weights<F: Field>(
    bytecode: Seq<Instruction>,
    k: int,
    g: Seq<F>,
    i: int,
    d: F,
    eq: Seq<F>,
    eq_last: Seq<F>,
)
    requires
        0 <= k < bytecode.len(),
        g.len() >= 3,
        0 <= i < g.len(),
    ensures
        ({
            let row = bytecode[k];
            let share: F = if i == 0 && row.rd is Some {
                eq[row.rd->0 as int]
            } else if i == 1 && row.rs1 is Some {
                eq[row.rs1->0 as int]
            } else if i == 2 && row.rs2 is Some {
                eq[row.rs2->0 as int]
            } else {
                F::of_int(0)
            };
            value_column(bytecode, 3, g.update(i, g[i].plus(d)), eq, eq_last)[k] == value_column(
                bytecode,
                3,
                g,
                eq,
                eq_last,
            )[k].plus(d.times(share))
        }),
{
    let row = bytecode[k];
    let e0 = read_raf_checking::register_weight(row.rd, eq);
    let e1 = read_raf_checking::register_weight(row.rs1, eq);
    let e2 = read_raf_checking::register_weight(row.rs2, eq);
    let (a, b, c) = (e0.times(g[0]), e1.times(g[1]), e2.times(g[2]));
    F::law_times_zero(d);
    lemma_absorb(a.plus(b), c, F::of_int(0));
    if i == 0 {
        F::law_distrib(e0, g[0], d);
        F::law_times_comm(e0, d);
        lemma_absorb(a, b, d.times(e0));
        lemma_absorb(a.plus(b), c, d.times(e0));
    } else if i == 1 {
        F::law_distrib(e1, g[1], d);
        F::law_times_comm(e1, d);
        lemma_absorb(a, b, d.times(e1));
        lemma_absorb(a.plus(b), c, d.times(e1));
    } else if i == 2 {
        F::law_distrib(e2, g[2], d);
        F::law_times_comm(e2, d);
        lemma_absorb(a.plus(b), c, d.times(e2));
    }
}

/// In the last value column the weights are those of the operand layout and of the lookup tables:
/// raising one weight raises every entry by the same amount if the row's operands are combined into
/// one number, or if the row reads that table.
pub proof fn law_lookup_weights<F: Field>(
    bytecode: Seq<Instruction>,
    k: int,
    g: Seq<F>,
    i: int,
    d: F,
    eq: Seq<F>,
    eq_last: Seq<F>,
)
    requires
        0 <= k < bytecode.len(),
        g.len() >= 2 + NUM_LOOKUP_TABLES,
        0 <= i < g.len(),
        bytecode[k].lookup_table is Some ==> bytecode[k].lookup_table->0 < NUM_LOOKUP_TABLES,
        d.valid(),
    ensures
        ({
            let row = bytecode[k];
            let flags = row.circuit_flags;
            let share: int = if (i == 1 && (flags.add_operands || flags.subtract_operands
                || flags.multiply_operands || flags.advice)) || (row.lookup_table is Some && i == 2
                + row.lookup_table->0) {
                1
            } else {
                0
            };
            value_column(bytecode, 4, g.update(i, g[i].plus(d)), eq, eq_last)[k] == value_column(
                bytecode,
                4,
                g,
                eq,
                eq_last,
            )[k].plus(d.times(F::of_int(share)))
        }),
{
    let row = bytecode[k];
    let e = read_raf_checking::register_weight(row.rd, eq_last);
    let a = sums::flagged(!row.circuit_flags.interleaved(), g[1]);
    let b = match row.lookup_table {
        Some(t) => g[2 + t],
        None => F::of_int(0),
    };
    F::law_times_one(d);
    F::law_times_zero(d);
    lemma_absorb(e.plus(a), b, d);
    lemma_absorb(e.plus(a), b, F::of_int(0));
    lemma_absorb(e, a, d);
}

/// The indicator of register `r` among `n`.
pub open spec fn indicator<F: Field>(n: nat, r: int) -> Seq<F> {
    Seq::new(
        n,
        |x: int|
            if x == r {
                F::of_int(1)
            } else {
                F::of_int(0)
            },
    )
}

/// The entry that a register leaves under its own weight and the indicator of a register.
proof fn lemma_lone_weight<F: Field>(
    bytecode: Seq<Instruction>,
    k: int,
    i: int,
    n: nat,
    r: int,
    eq_last: Seq<F>,
)
    requires
        0 <= k < bytecode.len(),
        read_raf_checking::row_fits(bytecode[k], n),
        0 <= i < 3,
        0 <= r < n,
    ensures
        ({
            let row = bytecode[k];
            let named = if i == 0 {
                row.rd
            } else if i == 1 {
                row.rs1
            } else {
                row.rs2
            };
            let g = Seq::new(3, |x: int| F::of_int(0)).update(i, F::of_int(1));
            value_column(bytecode, 3, g, indicator::<F>(n, r), eq_last)[k] == (if named is Some
                && named->0 == r {
                F::of_int(1)
            } else {
                F::of_int(0)
            })
        }),
{
    let row = bytecode[k];
    let eq = indicator::<F>(n, r);
    let (zero, one) = (F::of_int(0), F::of_int(1));
    F::law_of_int_valid(0);
    F::law_of_int_valid(1);
    F::law_plus_zero(zero);
    field::lemma_zero_plus(one);
    field::lemma_zero_times(one);
    F::law_times_zero(zero);
    F::law_times_one(one);
    field::lemma_one_times(zero);
}

/// The fourth value column determines the three registers of a row: two rows whose entries agree
/// under all weights and all indicators have the same destination and the same two sources.
pub proof fn law_registers_determined<F: Field>(
    bytecode: Seq<Instruction>,
    a: int,
    b: int,
    n: nat,
    eq_last: Seq<F>,
)
    requires
        0 <= a < bytecode.len(),
        0 <= b < bytecode.len(),
        read_raf_checking::row_fits(bytecode[a], n),
        read_raf_checking::row_fits(bytecode[b], n),
        forall|g: Seq<F>, r: int|
            g.len() == 3 && 0 <= r < n ==> {
                let column = #[trigger] value_column(
                    bytecode,
                    3,
                    g,
                    indicator::<F>(n, r),
                    eq_last,
                );
                column[a] == column[b]
            },
    ensures
        bytecode[a].rd == bytecode[b].rd,
        bytecode[a].rs1 == bytecode[b].rs1,
        bytecode[a].rs2 == bytecode[b].rs2,
{
    F::law_one_differs();
    assert forall|i: int, r: int| 0 <= i < 3 && 0 <= r < n implies #[trigger] names(
        bytecode[a],
        i,
        r,
    ) == names(bytecode[b], i, r) by {
        let g = Seq::new(3, |x: int| F::of_int(0)).update(i, F::of_int(1));
        let column = value_column(bytecode, 3, g, indicator::<F>(n, r), eq_last);
        assert(column[a] == column[b]);
        lemma_lone_weight(bytecode, a, i, n, r, eq_last);
        lemma_lone_weight(bytecode, b, i, n, r, eq_last);
    }
    lemma_same_names(bytecode[a], bytecode[b], n);
}

/// Operand `i` of a row is register `r`.
spec fn names(row: Instruction, i: int, r: int) -> bool {
    let named = if i == 0 {
        row.rd
    } else if i == 1 {
        row.rs1
    } else {
        row.rs2
    };
    named is Some && named->0 == r
}

proof fn lemma_same_names(a: Instruction, b: Instruction, n: nat)
    requires
        read_raf_checking::row_fits(a, n),
        read_raf_checking::row_fits(b, n),
        forall|i: int, r: int|
            0 <= i < 3 && 0 <= r < n ==> #[trigger] names(a, i, r) == names(b, i, r),
    ensures
        a.rd == b.rd,
        a.rs1 == b.rs1,
        a.rs2 == b.rs2,
{
    assert(a.rd is Some ==> names(a, 0, a.rd->0 as int) == names(b, 0, a.rd->0 as int));
    assert(b.rd is Some ==> names(a, 0, b.rd->0 as int) == names(b, 0, b.rd->0 as int));
    assert(a.rs1 is Some ==> names(a, 1, a.rs1->0 as int) == names(b, 1, a.rs1->0 as int));
    assert(b.rs1 is Some ==> names(a, 1, b.rs1->0 as int) == names(b, 1, b.rs1->0 as int));
    assert(a.rs2 is Some ==> names(a, 2, a.rs2->0 as int) == names(b, 2, a.rs2->0 as int));
    assert(b.rs2 is Some ==> names(a, 2, b.rs2->0 as int) == names(b, 2, b.rs2->0 as int));
}

/// The names, the points and the register columns of the five read claims that a transcript sets up.
/// The fourth column weighs the indicators of the destination and of the two sources at the first
/// register point with the powers of the fourth challenge. The last column holds the indicator of the
/// destination at the second register point, and, weighed with the powers of the fifth challenge, the
/// operand layout and the lookup table. Behind the bytecode every column is zero.
pub proof fn law_setup<F: Field>(
    bytecode: Seq<Instruction>,
    widths: Seq<usize>,
    log_t: nat,
    log_register: nat,
    s: FsState<F>,
    k: int,
)
    requires
        0 <= k < pow2(shout_read_raf::address_bits(widths)),
        k < bytecode.len() ==> read_raf_checking::row_fits(bytecode[k], pow2(log_register)),
    ensures
        ({
            let stages = read_raf_checking::setup(bytecode, widths, log_t, log_register, s);
            let first = s.squeeze_n(5).coins(log_register);
            let second = s.squeeze_n(5).squeeze_n(log_register).coins(log_register);
            let drawn = s.squeeze_n(5).squeeze_n(log_register).squeeze_n(log_register);
            let zero = F::of_int(0);
            let at = |r: Option<u8>, point: Seq<F>|
                if r is Some {
                    poly::eq_weight(point, r->0 as int)
                } else {
                    zero
                };
            let fourth = |i: int| sums::power(s.coins(5)[3], i);
            let fifth = |i: int| sums::power(s.coins(5)[4], i);
            &&& stages.len() == 5
            &&& stages[0].rv_key == (VirtualPolynomial::UnexpandedPC, SumcheckId::SpartanOuter)
            &&& stages[1].rv_key == (
                VirtualPolynomial::PC,
                SumcheckId::SpartanProductVirtualization,
            )
            &&& stages[2].rv_key == (VirtualPolynomial::Imm, SumcheckId::SpartanShift)
            &&& stages[3].rv_key == (VirtualPolynomial::PC, SumcheckId::SpartanOuter)
            &&& stages[4].rv_key == (
                VirtualPolynomial::RdWa,
                SumcheckId::SpartanProductVirtualization,
            )
            &&& stages[0].r_cycle == drawn.coins(log_t)
            &&& stages[1].r_cycle == drawn.squeeze_n(log_t).coins(log_t)
            &&& stages[2].r_cycle == drawn.squeeze_n(log_t).squeeze_n(log_t).coins(log_t)
            &&& forall|i: int|
                0 <= i < 5 ==> (#[trigger] stages[i]).val_addr.len() == pow2(
                    shout_read_raf::address_bits(widths),
                )
            &&& k >= bytecode.len() ==> forall|i: int|
                0 <= i < 5 ==> (#[trigger] stages[i]).val_addr[k] == zero
            &&& k < bytecode.len() ==> {
                let row = bytecode[k];
                let flags = row.circuit_flags;
                &&& stages[3].val_addr[k] == at(row.rd, first).times(fourth(0)).plus(
                    at(row.rs1, first).times(fourth(1)),
                ).plus(at(row.rs2, first).times(fourth(2)))
                &&& stages[4].val_addr[k] == at(row.rd, second).plus(
                    if flags.add_operands || flags.subtract_operands || flags.multiply_operands
                        || flags.advice {
                        fifth(1)
                    } else {
                        zero
                    },
                ).plus(
                    match row.lookup_table {
                        Some(t) => fifth(2 + t),
                        None => zero,
                    },
                )
            }
        }),
{
    reveal_with_fuel(read_raf_checking::after_points, 6);
    transcript::lemma_coins_len(s.squeeze_n(5), log_register);
    transcript::lemma_coins_len(s.squeeze_n(5).squeeze_n(log_register), log_register);
}

/// In the first three columns that a transcript sets up, the weights of a row's fields are the powers
/// of the column's own challenge: the column is the one of those weights.
pub proof fn law_setup_weights<F: Field>(
    bytecode: Seq<Instruction>,
    widths: Seq<usize>,
    log_t: nat,
    log_register: nat,
    s: FsState<F>,
    i: int,
    k: int,
    g: Seq<F>,
    eq: Seq<F>,
    eq_last: Seq<F>,
)
    requires
        0 <= i < 3,
        0 <= k < bytecode.len(),
        k < pow2(shout_read_raf::address_bits(widths)),
        g.len() == 2 + NUM_CIRCUIT_FLAGS,
        forall|j: int| 0 <= j < g.len() ==> #[trigger] g[j] == sums::power(s.coins(5)[i], j),
    ensures
        read_raf_checking::setup(bytecode, widths, log_t, log_register, s)[i].val_addr[k]
            == value_column(bytecode, i, g, eq, eq_last)[k],
{
    let row = bytecode[k];
    let h = read_raf_checking::drawn_gammas(s, i);
    let flags = if i == 0 {
        row.circuit_flags.bits()
    } else if i == 1 {
        read_raf_checking::product_flags(row)
    } else {
        read_raf_checking::shift_flags(row)
    };
    let from: int = if i == 1 {
        0
    } else {
        2
    };
    sums::lemma_sum_ext(
        flags.len() as int,
        |x: int| sums::flagged(flags[x], h[from + x]),
        |x: int| sums::flagged(flags[x], g[from + x]),
    );
}

} // verus!
