//! Which recorded claims every check reads, with which weights it batches them, and under which names
//! it records what it opens.

use crate::field::Field;
use crate::framework::accumulator::{
    Claims, CommittedPolynomial, OpeningId, SumcheckId, VirtualPolynomial,
};
use crate::framework::poly;
use crate::framework::sums;
use crate::r1cs::key::{R1csKey, Weights};
use crate::zkvm::booleanity;
use crate::zkvm::claim_reductions::hamming_weight;
use crate::zkvm::claim_reductions::hamming_weight::FamilyCounts;
use crate::zkvm::claim_reductions::increments;
use crate::zkvm::claim_reductions::instruction_lookups;
use crate::zkvm::claim_reductions::ram_ra;
use crate::zkvm::claim_reductions::registers;
use crate::zkvm::ram::output_check;
use crate::zkvm::ram::raf_evaluation;
use crate::zkvm::ram::read_write_checking as ram_checking;
use crate::zkvm::ram::val_check;
use crate::zkvm::registers::read_write_checking as register_checking;
use crate::zkvm::registers::val_evaluation;
use crate::zkvm::read_raf_stage;
use crate::zkvm::read_raf_stage::InputsModel;
use crate::zkvm::shout_read_raf;
use crate::zkvm::shout_read_raf::{RaFamily, ReadModel, StageModel};
use crate::zkvm::spartan::inner;
use crate::zkvm::spartan::instruction_input;
use crate::zkvm::spartan::outer;
use crate::zkvm::spartan::shift;
use vstd::arithmetic::power2::pow2;
use vstd::prelude::*;

verus! {

/// The register reduction batches the outer claims of the value written and of the two values read
/// with the powers of the challenge, and the reduced claims, recorded under the same names at the
/// reversed challenges, must make up the same batch at the new point.
pub proof fn law_register_reduction<F: Field>(
    g: F,
    r: Seq<F>,
    acc: Claims<F>,
    xs: Seq<F>,
    rd: F,
    rs1: F,
    rs2: F,
    id: OpeningId,
)
    ensures
        ({
            let outer = SumcheckId::SpartanOuter;
            let reduction = SumcheckId::RegistersClaimReduction;
            let claim = |p: VirtualPolynomial, s: SumcheckId| acc[OpeningId::Virtual(p, s)].1;
            let batch = |s: SumcheckId|
                claim(VirtualPolynomial::RdWriteValue, s).plus(
                    g.times(claim(VirtualPolynomial::Rs1Value, s)),
                ).plus(g.times(g).times(claim(VirtualPolynomial::Rs2Value, s)));
            let after = registers::cached(acc, xs, rd, rs1, rs2);
            let point = xs.reverse();
            let written = OpeningId::Virtual(VirtualPolynomial::RdWriteValue, reduction);
            let first = OpeningId::Virtual(VirtualPolynomial::Rs1Value, reduction);
            let second = OpeningId::Virtual(VirtualPolynomial::Rs2Value, reduction);
            &&& registers::input(g, g.times(g), acc) == batch(outer)
            &&& registers::output(g, g.times(g), r, acc, xs) == poly::eq_mle(point, r).times(
                batch(reduction),
            )
            &&& after[written] == (point, rd)
            &&& after[first] == (point, rs1)
            &&& after[second] == (point, rs2)
            &&& id != written && id != first && id != second ==> (after.contains_key(id)
                <==> acc.contains_key(id)) && after[id] == acc[id]
        }),
{
}

/// The increment reduction batches, with the powers of the challenge, the two memory increment claims
/// and then the two register increment claims. The reduced claims are recorded under the two increment
/// names at the reversed challenges.
pub proof fn law_increment_reduction<F: Field>(
    g: F,
    p: increments::Points<F>,
    acc: Claims<F>,
    xs: Seq<F>,
    words: F,
    rd: F,
    id: OpeningId,
)
    ensures
        ({
            let claim = |q: CommittedPolynomial, s: SumcheckId| acc[OpeningId::Committed(q, s)].1;
            let ram = CommittedPolynomial::RamInc;
            let reg = CommittedPolynomial::RdInc;
            let reduction = SumcheckId::IncClaimReduction;
            let after = increments::cached(acc, xs, words, rd);
            let y = xs.reverse();
            &&& increments::input(g, acc) == claim(ram, SumcheckId::RamReadWriteChecking).plus(
                g.times(claim(ram, SumcheckId::RamValCheck)),
            ).plus(g.times(g).times(claim(reg, SumcheckId::RegistersReadWriteChecking))).plus(
                g.times(g).times(g).times(claim(reg, SumcheckId::RegistersValEvaluation)),
            )
            &&& increments::output(g, p, acc, xs) == claim(ram, reduction).times(
                poly::eq_mle(y, p.r2).plus(g.times(poly::eq_mle(y, p.r4))),
            ).plus(
                g.times(g).times(claim(reg, reduction)).times(
                    poly::eq_mle(y, p.s4).plus(g.times(poly::eq_mle(y, p.s5))),
                ),
            )
            &&& after[OpeningId::Committed(ram, reduction)] == (y, words)
            &&& after[OpeningId::Committed(reg, reduction)] == (y, rd)
            &&& id != OpeningId::Committed(ram, reduction) && id != OpeningId::Committed(
                reg,
                reduction,
            ) ==> (after.contains_key(id) <==> acc.contains_key(id)) && after[id] == acc[id]
            &&& increments::ram_stage2() == OpeningId::Committed(
                ram,
                SumcheckId::RamReadWriteChecking,
            )
            &&& increments::ram_stage4() == OpeningId::Committed(ram, SumcheckId::RamValCheck)
            &&& increments::rd_stage4() == OpeningId::Committed(
                reg,
                SumcheckId::RegistersReadWriteChecking,
            )
            &&& increments::rd_stage5() == OpeningId::Committed(
                reg,
                SumcheckId::RegistersValEvaluation,
            )
        }),
{
}

/// The access reduction reads the access claims of the address check, of the read-write check and of
/// the value check, and weighs them with the powers of the challenge. The reduced claim is recorded at
/// the address point followed by the reversed challenges.
pub proof fn law_access_reduction<F: Field>(
    g: F,
    p: ram_ra::Points<F>,
    acc: Claims<F>,
    address: Seq<F>,
    xs: Seq<F>,
    ra: F,
    a: F,
    b: F,
    c: F,
    id: OpeningId,
)
    ensures
        ({
            let name = |s: SumcheckId| OpeningId::Virtual(VirtualPolynomial::RamRa, s);
            let reduced = name(SumcheckId::RamRaClaimReduction);
            let after = ram_ra::cached(acc, address, xs, ra);
            let y = xs.reverse();
            &&& ram_ra::raf_id() == name(SumcheckId::RamRafEvaluation)
            &&& ram_ra::rw_id() == name(SumcheckId::RamReadWriteChecking)
            &&& ram_ra::val_id() == name(SumcheckId::RamValCheck)
            &&& ram_ra::batch(g, g.times(g), a, b, c) == a.plus(g.times(b)).plus(
                g.times(g).times(c),
            )
            &&& ram_ra::output(g, g.times(g), p, acc, xs) == poly::eq_mle(p.raf, y).plus(
                g.times(poly::eq_mle(p.rw, y)),
            ).plus(g.times(g).times(poly::eq_mle(p.val, y))).times(acc[reduced].1)
            &&& after[reduced] == (address + y, ra)
            &&& id != reduced ==> (after.contains_key(id) <==> acc.contains_key(id)) && after[id]
                == acc[id]
        }),
{
}

/// The lookup reduction batches, with the powers of the challenge, the outer claims of the lookup
/// output, of the two lookup operands and of the two instruction inputs, and records the reduced
/// claims under the same names.
pub proof fn law_lookup_reduction<F: Field>(
    g: F,
    r: Seq<F>,
    acc: Claims<F>,
    xs: Seq<F>,
    v: Seq<F>,
    id: OpeningId,
)
    requires
        v.len() == 5,
    ensures
        ({
            let claim = |p: VirtualPolynomial, s: SumcheckId| acc[OpeningId::Virtual(p, s)].1;
            let g2 = g.times(g);
            let batch = |s: SumcheckId|
                F::of_int(1).times(claim(VirtualPolynomial::LookupOutput, s)).plus(
                    g.times(claim(VirtualPolynomial::LeftLookupOperand, s)),
                ).plus(g2.times(claim(VirtualPolynomial::RightLookupOperand, s))).plus(
                    g2.times(g).times(claim(VirtualPolynomial::LeftInstructionInput, s)),
                ).plus(
                    g2.times(g2).times(claim(VirtualPolynomial::RightInstructionInput, s)),
                );
            let reduction = SumcheckId::InstructionClaimReduction;
            let name = |p: VirtualPolynomial| OpeningId::Virtual(p, reduction);
            let after = instruction_lookups::cached(acc, xs, v, 5);
            let y = xs.reverse();
            let a = instruction_lookups::powers(g);
            &&& instruction_lookups::batch(
                a,
                instruction_lookups::values(acc, SumcheckId::SpartanOuter),
            ) == batch(SumcheckId::SpartanOuter)
            &&& instruction_lookups::output(a, r, acc, xs) == poly::eq_mle(y, r).times(
                batch(reduction),
            )
            &&& after[name(VirtualPolynomial::LookupOutput)] == (y, v[0])
            &&& after[name(VirtualPolynomial::LeftLookupOperand)] == (y, v[1])
            &&& after[name(VirtualPolynomial::RightLookupOperand)] == (y, v[2])
            &&& after[name(VirtualPolynomial::LeftInstructionInput)] == (y, v[3])
            &&& after[name(VirtualPolynomial::RightInstructionInput)] == (y, v[4])
            &&& (id matches OpeningId::Virtual(_, s) ==> s != reduction) ==> (after.contains_key(id)
                <==> acc.contains_key(id)) && after[id] == acc[id]
        }),
{
    reveal_with_fuel(instruction_lookups::cached, 6);
}

/// The shift check batches, with the powers of the challenge, the claims about the next cycle: its
/// program counter, its bytecode index, whether it is virtual, whether it is first in its sequence,
/// and, complemented, whether it does nothing. It records the opened columns under the names of the
/// cycle itself.
pub proof fn law_shift<F: Field>(
    g: F,
    r_outer: Seq<F>,
    r_product: Seq<F>,
    acc: Claims<F>,
    xs: Seq<F>,
    v: Seq<F>,
    id: OpeningId,
)
    requires
        v.len() == 5,
    ensures
        ({
            let claim = |p: VirtualPolynomial, s: SumcheckId| acc[OpeningId::Virtual(p, s)].1;
            let outer = SumcheckId::SpartanOuter;
            let own = SumcheckId::SpartanShift;
            let gp = shift::powers(g);
            let weight = |i: int| sums::power(g, i);
            let one = F::of_int(1);
            let name = |p: VirtualPolynomial| OpeningId::Virtual(p, own);
            let after = shift::cached(acc, xs, v, 5);
            let y = xs.reverse();
            &&& shift::input(gp, acc) == claim(VirtualPolynomial::NextUnexpandedPC, outer).plus(
                weight(1).times(claim(VirtualPolynomial::NextPC, outer)),
            ).plus(weight(2).times(claim(VirtualPolynomial::NextIsVirtual, outer))).plus(
                weight(3).times(claim(VirtualPolynomial::NextIsFirstInSequence, outer)),
            ).plus(
                weight(4).times(
                    one.minus(
                        claim(
                            VirtualPolynomial::NextIsNoop,
                            SumcheckId::SpartanProductVirtualization,
                        ),
                    ),
                ),
            )
            &&& shift::output(gp, r_outer, r_product, acc, xs) == poly::eq_plus_one_mle(
                r_outer,
                y,
            ).times(
                claim(VirtualPolynomial::UnexpandedPC, own).plus(
                    weight(1).times(claim(VirtualPolynomial::PC, own)),
                ).plus(weight(2).times(claim(VirtualPolynomial::NextIsVirtual, own))).plus(
                    weight(3).times(claim(VirtualPolynomial::NextIsFirstInSequence, own)),
                ),
            ).plus(
                weight(4).times(poly::eq_plus_one_mle(r_product, y)).times(
                    one.minus(claim(VirtualPolynomial::NextIsNoop, own)),
                ),
            )
            &&& shift::next_id(1) == OpeningId::Virtual(VirtualPolynomial::NextPC, outer)
            &&& shift::next_id(4) == OpeningId::Virtual(
                VirtualPolynomial::NextIsNoop,
                SumcheckId::SpartanProductVirtualization,
            )
            &&& after[name(VirtualPolynomial::UnexpandedPC)] == (y, v[0])
            &&& after[name(VirtualPolynomial::PC)] == (y, v[1])
            &&& after[name(VirtualPolynomial::NextIsVirtual)] == (y, v[2])
            &&& after[name(VirtualPolynomial::NextIsFirstInSequence)] == (y, v[3])
            &&& after[name(VirtualPolynomial::NextIsNoop)] == (y, v[4])
            &&& (id matches OpeningId::Virtual(_, s) ==> s != own) ==> (after.contains_key(id)
                <==> acc.contains_key(id)) && after[id] == acc[id]
        }),
{
    reveal_with_fuel(shift::cached, 6);
}

/// The input check batches the claims of the right and of the left instruction input. Each input is
/// made up of its two sources, every source with its own flag: the first register and the program
/// counter on the left, the second register and the immediate on the right.
pub proof fn law_instruction_input<F: Field>(
    g: F,
    r: Seq<F>,
    acc: Claims<F>,
    xs: Seq<F>,
    v: Seq<F>,
    id: OpeningId,
)
    requires
        v.len() == 8,
    ensures
        ({
            let claim = |p: VirtualPolynomial, s: SumcheckId| acc[OpeningId::Virtual(p, s)].1;
            let product = SumcheckId::SpartanProductVirtualization;
            let own = SumcheckId::InstructionInputVirtualization;
            let name = |p: VirtualPolynomial| OpeningId::Virtual(p, own);
            let after = instruction_input::cached(acc, xs, v, 8);
            let y = xs.reverse();
            let left = claim(VirtualPolynomial::LeftLookupOperand, own).times(
                claim(VirtualPolynomial::Rs1Value, own),
            ).plus(
                claim(VirtualPolynomial::RightLookupOperand, own).times(
                    claim(VirtualPolynomial::UnexpandedPC, own),
                ),
            );
            let right = claim(VirtualPolynomial::InstructionRaf, own).times(
                claim(VirtualPolynomial::Rs2Value, own),
            ).plus(
                claim(VirtualPolynomial::InstructionRafFlag, own).times(
                    claim(VirtualPolynomial::Imm, own),
                ),
            );
            &&& instruction_input::left_id() == OpeningId::Virtual(
                VirtualPolynomial::LeftInstructionInput,
                product,
            )
            &&& instruction_input::input(g, acc) == claim(
                VirtualPolynomial::RightInstructionInput,
                product,
            ).plus(g.times(claim(VirtualPolynomial::LeftInstructionInput, product)))
            &&& instruction_input::output(g, r, acc, xs) == poly::eq_mle(r, y).times(
                right.plus(g.times(left)),
            )
            &&& after[name(VirtualPolynomial::LeftLookupOperand)] == (y, v[0])
            &&& after[name(VirtualPolynomial::Rs1Value)] == (y, v[1])
            &&& after[name(VirtualPolynomial::RightLookupOperand)] == (y, v[2])
            &&& after[name(VirtualPolynomial::UnexpandedPC)] == (y, v[3])
            &&& after[name(VirtualPolynomial::InstructionRaf)] == (y, v[4])
            &&& after[name(VirtualPolynomial::Rs2Value)] == (y, v[5])
            &&& after[name(VirtualPolynomial::InstructionRafFlag)] == (y, v[6])
            &&& after[name(VirtualPolynomial::Imm)] == (y, v[7])
            &&& (id matches OpeningId::Virtual(_, s) ==> s != own) ==> (after.contains_key(id)
                <==> acc.contains_key(id)) && after[id] == acc[id]
        }),
{
    reveal_with_fuel(instruction_input::cached, 9);
}

/// The outer check asks of the three row claims that the product of the first two is the third, and
/// the inner check batches them with the three weights, in this order.
pub proof fn law_row_claims<F: Field>(
    tau: Seq<F>,
    rho: Weights<F>,
    key: R1csKey<F>,
    r_x: Seq<F>,
    acc: Claims<F>,
    xs: Seq<F>,
    az: F,
    bz: F,
    cz: F,
    z: F,
)
    ensures
        ({
            let outer = SumcheckId::SpartanOuter;
            let a = OpeningId::Virtual(VirtualPolynomial::SpartanAz, outer);
            let b = OpeningId::Virtual(VirtualPolynomial::SpartanBz, outer);
            let c = OpeningId::Virtual(VirtualPolynomial::SpartanCz, outer);
            let w = OpeningId::Virtual(
                VirtualPolynomial::SpartanWitnessZ,
                SumcheckId::SpartanInner,
            );
            let y = xs.reverse();
            let after = outer::cached(acc, y, az, bz, cz);
            &&& outer::output(tau, acc, xs) == poly::eq_mle(tau, y).times(
                acc[a].1.times(acc[b].1).minus(acc[c].1),
            )
            &&& after[a] == (y, az)
            &&& after[b] == (y, bz)
            &&& after[c] == (y, cz)
            &&& inner::input(rho, acc) == rho.a.times(acc[a].1).plus(
                rho.b.times(acc[b].1),
            ).plus(rho.c.times(acc[c].1))
            &&& inner::output(key, r_x, rho, acc, xs) == rho.a.times(
                key.evaluation(key.matrices.a_rows(), r_x, y),
            ).plus(rho.b.times(key.evaluation(key.matrices.b_rows(), r_x, y))).plus(
                rho.c.times(key.evaluation(key.matrices.c_rows(), r_x, y)),
            ).times(acc[w].1)
            &&& inner::cached(acc, xs, z)[w] == (y, z)
        }),
{
}

/// The output check compares the final memory with the announced output under the mask, and the
/// address check weighs the access claim with the physical addresses.
pub proof fn law_public_checks<F: Field>(
    r: Seq<F>,
    val_io: Seq<F>,
    io_mask: Seq<F>,
    unmap: Seq<F>,
    acc: Claims<F>,
    xs: Seq<F>,
    v: F,
)
    ensures
        ({
            let last = OpeningId::Virtual(
                VirtualPolynomial::RamValFinal,
                SumcheckId::RamOutputCheck,
            );
            let access = OpeningId::Virtual(
                VirtualPolynomial::RamRa,
                SumcheckId::RamRafEvaluation,
            );
            let y = xs.reverse();
            &&& output_check::output(r, val_io, io_mask, acc, xs) == poly::eq_mle(r, y).times(
                poly::mle(io_mask, y),
            ).times(acc[last].1.minus(poly::mle(val_io, y)))
            &&& output_check::cached(acc, xs, v)[last] == (y, v)
            &&& raf_evaluation::address_id() == OpeningId::Virtual(
                VirtualPolynomial::RamAddress,
                SumcheckId::SpartanOuter,
            )
            &&& raf_evaluation::output(unmap, acc, xs) == poly::mle(unmap, y).times(acc[access].1)
            &&& raf_evaluation::cached(acc, r, xs, v)[access] == (y + r, v)
        }),
{
}

/// The read-write check of the memory batches the read and the write claim. A read finds the value at
/// the accessed address, a write leaves the value with the increment. The value check compares the
/// value before the cycle and the final value, each less the initial one, with the increments.
pub proof fn law_memory_checks<F: Field>(
    g: F,
    init: F,
    r: Seq<F>,
    log_k: int,
    acc: Claims<F>,
    address: Seq<F>,
    xs: Seq<F>,
    val: F,
    ra: F,
    inc: F,
)
    ensures
        ({
            let checking = SumcheckId::RamReadWriteChecking;
            let check = SumcheckId::RamValCheck;
            let virt = |p: VirtualPolynomial, s: SumcheckId| OpeningId::Virtual(p, s);
            let value = virt(VirtualPolynomial::RamVal, checking);
            let access = virt(VirtualPolynomial::RamRa, checking);
            let change = OpeningId::Committed(CommittedPolynomial::RamInc, checking);
            let last = virt(VirtualPolynomial::RamValFinal, SumcheckId::RamOutputCheck);
            let later_access = virt(VirtualPolynomial::RamRa, check);
            let later_change = OpeningId::Committed(CommittedPolynomial::RamInc, check);
            let y = xs.reverse();
            let after = ram_checking::cached(acc, log_k, xs, val, ra, inc);
            let later = val_check::cached(acc, address, xs, ra, inc);
            &&& ram_checking::input(g, acc) == acc[virt(
                VirtualPolynomial::RamReadValue,
                SumcheckId::SpartanOuter,
            )].1.plus(
                g.times(
                    acc[virt(VirtualPolynomial::RamWriteValue, SumcheckId::SpartanOuter)].1,
                ),
            )
            &&& ram_checking::output(g, r, log_k, acc, xs) == poly::eq_mle(
                r,
                y.skip(log_k),
            ).times(acc[access].1).times(
                acc[value].1.plus(g.times(acc[value].1.plus(acc[change].1))),
            )
            &&& after[value] == (y, val)
            &&& after[access] == (y, ra)
            &&& after[change] == (y.skip(log_k), inc)
            &&& val_check::input(g, init, acc) == acc[value].1.minus(init).plus(
                g.times(acc[last].1.minus(init)),
            )
            &&& val_check::output(g, r, acc, xs) == acc[later_change].1.times(
                acc[later_access].1,
            ).times(poly::lt_mle(y, r).plus(g))
            &&& later[later_access] == (address + y, ra)
            &&& later[later_change] == (y, inc)
        }),
{
}

/// The read-write check of the registers batches the reduced claims of the value written and of the
/// two values read. A read returns the value of the register it marks, a write leaves the value with
/// the increment. The value evaluation compares the value with the increments of earlier cycles.
pub proof fn law_register_checks<F: Field>(
    g: F,
    r: Seq<F>,
    log_k: int,
    acc: Claims<F>,
    address: Seq<F>,
    xs: Seq<F>,
    v: register_checking::Reduced<F>,
    inc: F,
    wa: F,
)
    ensures
        ({
            let reduction = SumcheckId::RegistersClaimReduction;
            let checking = SumcheckId::RegistersReadWriteChecking;
            let evaluation = SumcheckId::RegistersValEvaluation;
            let virt = |p: VirtualPolynomial, s: SumcheckId| OpeningId::Virtual(p, s);
            let value = virt(VirtualPolynomial::RegistersVal, checking);
            let first = virt(VirtualPolynomial::Rs1Ra, checking);
            let second = virt(VirtualPolynomial::Rs2Ra, checking);
            let written = virt(VirtualPolynomial::RdWa, checking);
            let change = OpeningId::Committed(CommittedPolynomial::RdInc, checking);
            let later_written = virt(VirtualPolynomial::RdWa, evaluation);
            let later_change = OpeningId::Committed(CommittedPolynomial::RdInc, evaluation);
            let y = xs.reverse();
            let after = register_checking::cached(acc, log_k, xs, v);
            let later = val_evaluation::cached(acc, address, xs, inc, wa);
            &&& register_checking::input(g, acc) == acc[virt(
                VirtualPolynomial::RdWriteValue,
                reduction,
            )].1.plus(
                g.times(
                    acc[virt(VirtualPolynomial::Rs1Value, reduction)].1.plus(
                        g.times(acc[virt(VirtualPolynomial::Rs2Value, reduction)].1),
                    ),
                ),
            )
            &&& register_checking::output(g, r, log_k, acc, xs) == poly::eq_mle(
                y.skip(log_k),
                r,
            ).times(
                acc[written].1.times(acc[change].1.plus(acc[value].1)).plus(
                    g.times(
                        acc[first].1.times(acc[value].1).plus(
                            g.times(acc[second].1.times(acc[value].1)),
                        ),
                    ),
                ),
            )
            &&& after[value] == (y, v.val)
            &&& after[first] == (y, v.rs1_ra)
            &&& after[second] == (y, v.rs2_ra)
            &&& after[written] == (y, v.rd_wa)
            &&& after[change] == (y.skip(log_k), v.inc)
            &&& val_evaluation::val_id() == value
            &&& val_evaluation::output(r, acc, xs) == acc[later_change].1.times(
                acc[later_written].1,
            ).times(poly::lt_mle(y, r))
            &&& later[later_change] == (y, inc)
            &&& later[later_written] == (address + y, wa)
        }),
{
}

/// The booleanity check weighs every column with its own even power of the challenge, and asks of each
/// recorded claim that its square is the claim itself.
pub proof fn law_booleanity<F: Field>(
    g: F,
    n: nat,
    r: Seq<F>,
    acc: Claims<F>,
    xs: Seq<F>,
    v: Seq<F>,
    i: int,
)
    requires
        v.len() == n,
        0 <= i < n <= usize::MAX,
    ensures
        ({
            let name = |k: int|
                OpeningId::Committed(
                    CommittedPolynomial::R1csAux(k as usize),
                    SumcheckId::Booleanity,
                );
            &&& booleanity::output(booleanity::even_powers(g, n), r, acc, xs) == poly::eq_mle(
                r,
                xs.reverse(),
            ).times(
                sums::sum(
                    n as int,
                    |k: int|
                        sums::power(g.times(g), k).times(
                            acc[name(k)].1.times(acc[name(k)].1).minus(acc[name(k)].1),
                        ),
                ),
            )
            &&& booleanity::cached(acc, xs, v, n as int)[name(i)] == (xs.reverse(), v[i])
        }),
{
    booleanity::lemma_cached(acc, xs, v, n as int, i);
    let gp = booleanity::even_powers(g, n);
    let w = booleanity::reduced(acc, gp.len());
    let name = |k: int|
        OpeningId::Committed(CommittedPolynomial::R1csAux(k as usize), SumcheckId::Booleanity);
    sums::lemma_sum_ext(
        n as int,
        |k: int| gp[k].times(w[k].times(w[k]).minus(w[k])),
        |k: int|
            sums::power(g.times(g), k).times(
                acc[name(k)].1.times(acc[name(k)].1).minus(acc[name(k)].1),
            ),
    );
}

/// The chunks of the three families follow each other: those of the instructions, those of the
/// bytecode, those of the memory, each in the order of their numbers. Every chunk is opened by the
/// sumcheck of its family, and its expected weight is one, except in memory, where a cycle may access
/// nothing.
pub proof fn law_chunk_families<F: Field>(counts: FamilyCounts, acc: Claims<F>, i: int)
    requires
        0 <= i < counts.instruction_d + counts.bytecode_d + counts.ram_d,
    ensures
        ({
            let p = counts.types()[i];
            let one = F::of_int(1);
            let weight = OpeningId::Virtual(
                VirtualPolynomial::RamHammingWeight,
                SumcheckId::RamHammingBooleanity,
            );
            &&& counts.types().len() == counts.instruction_d + counts.bytecode_d + counts.ram_d
            &&& i < counts.instruction_d ==> {
                &&& p == CommittedPolynomial::InstructionRa(i as usize)
                &&& hamming_weight::virt_id(p) == SumcheckId::InstructionRaVirtualization
                &&& hamming_weight::weight(acc, p) == one
            }
            &&& counts.instruction_d <= i < counts.instruction_d + counts.bytecode_d ==> {
                &&& p == CommittedPolynomial::BytecodeRa((i - counts.instruction_d) as usize)
                &&& hamming_weight::virt_id(p) == SumcheckId::BytecodeReadRaf
                &&& hamming_weight::weight(acc, p) == one
            }
            &&& counts.instruction_d + counts.bytecode_d <= i ==> {
                &&& p == CommittedPolynomial::RamRa(
                    (i - counts.instruction_d - counts.bytecode_d) as usize,
                )
                &&& hamming_weight::virt_id(p) == SumcheckId::RamRaVirtualization
                &&& hamming_weight::weight(acc, p) == acc[weight].1
            }
            &&& hamming_weight::bool_id(p) == OpeningId::Committed(p, SumcheckId::Booleanity)
            &&& hamming_weight::chunk_virt_id(p) == OpeningId::Committed(
                p,
                hamming_weight::virt_id(p),
            )
            &&& hamming_weight::reduced_id(p) == OpeningId::Committed(
                p,
                SumcheckId::HammingWeightClaimReduction,
            )
        }),
{
}

/// The weight reduction batches three claims of every chunk, with three powers of the challenge of its
/// own: its expected weight, its booleanity claim and its virtualization claim.
pub proof fn law_weight_reduction<F: Field>(
    gp: Seq<F>,
    hw: Seq<F>,
    boolean: Seq<F>,
    virtual_: Seq<F>,
    types: Seq<CommittedPolynomial>,
    r_bool: Seq<F>,
    r_virt: Seq<Seq<F>>,
    acc: Claims<F>,
    xs: Seq<F>,
)
    ensures
        hamming_weight::batch(gp, hw, boolean, virtual_) == sums::sum(
            hw.len() as int,
            |i: int|
                gp[3 * i].times(hw[i]).plus(gp[3 * i + 1].times(boolean[i])).plus(
                    gp[3 * i + 2].times(virtual_[i]),
                ),
        ),
        hamming_weight::output(gp, types, r_bool, r_virt, acc, xs) == sums::sum(
            types.len() as int,
            |i: int|
                acc[OpeningId::Committed(
                    types[i],
                    SumcheckId::HammingWeightClaimReduction,
                )].1.times(
                    gp[3 * i].plus(
                        gp[3 * i + 1].times(poly::eq_mle(xs.reverse(), r_bool)),
                    ).plus(gp[3 * i + 2].times(poly::eq_mle(xs.reverse(), r_virt[i]))),
                ),
        ),
{
    sums::lemma_sum_ext(
        types.len() as int,
        |i: int|
            acc[hamming_weight::reduced_id(types[i])].1.times(
                hamming_weight::chunk_weight(
                    gp,
                    i,
                    poly::eq_mle(xs.reverse(), r_bool),
                    poly::eq_mle(xs.reverse(), r_virt[i]),
                ),
            ),
        |i: int|
            acc[OpeningId::Committed(
                types[i],
                SumcheckId::HammingWeightClaimReduction,
            )].1.times(
                gp[3 * i].plus(gp[3 * i + 1].times(poly::eq_mle(xs.reverse(), r_bool))).plus(
                    gp[3 * i + 2].times(poly::eq_mle(xs.reverse(), r_virt[i])),
                ),
            ),
    );
}

/// The chunk polynomials of a read check are those of its family, by number.
pub proof fn law_chunk_names<F: Field>(m: ReadModel<F>, i: int)
    requires
        0 <= i <= usize::MAX,
    ensures
        ({
            let index = i as usize;
            &&& m.family == RaFamily::Instruction ==> m.chunk_id(i) == OpeningId::Committed(
                CommittedPolynomial::InstructionRa(index),
                m.id,
            )
            &&& m.family == RaFamily::Bytecode ==> m.chunk_id(i) == OpeningId::Committed(
                CommittedPolynomial::BytecodeRa(index),
                m.id,
            )
            &&& m.family == RaFamily::Ram ==> m.chunk_id(i) == OpeningId::Committed(
                CommittedPolynomial::RamRa(index),
                m.id,
            )
        }),
{
}

/// A read check batches its read claims with the powers of the challenge, each read under the name of
/// its stage. The chunk openings must multiply to an access indicator which, weighed with the value
/// columns at the address and with equality at the cycle, gives the reduced claim.
pub proof fn law_read_check<F: Field>(inputs: InputsModel<F>, g: F, acc: Claims<F>, xs: Seq<F>)
    ensures
        ({
            let m = inputs.batched(g);
            let n = inputs.stages.len() as int;
            let key = |s: int|
                OpeningId::Virtual(inputs.stages[s].rv_key.0, inputs.stages[s].rv_key.1);
            let log_k = shout_read_raf::address_bits(inputs.widths) as int;
            let address = xs.reverse().take(log_k);
            let cycle = xs.reverse().skip(log_k);
            &&& shout_read_raf::input(m.gp, m.stages, acc) == sums::sum(
                n,
                |s: int| sums::power(g, s).times(acc[key(s)].1),
            )
            &&& shout_read_raf::output(m, acc, xs) == sums::product(
                inputs.widths.len() as int,
                |i: int| acc[m.chunk_id(i)].1,
            ).times(
                sums::sum(
                    n,
                    |s: int|
                        sums::power(g, s).times(
                            poly::eq_mle(inputs.stages[s].r_cycle, cycle),
                        ).times(poly::mle(inputs.stages[s].val_addr, address)),
                ),
            )
        }),
{
    let m = inputs.batched(g);
    let n = inputs.stages.len() as int;
    let key = |s: int| OpeningId::Virtual(inputs.stages[s].rv_key.0, inputs.stages[s].rv_key.1);
    let log_k = shout_read_raf::address_bits(inputs.widths) as int;
    let address = xs.reverse().take(log_k);
    let cycle = xs.reverse().skip(log_k);
    sums::lemma_sum_ext(
        n,
        |s: int| m.gp[s].times(acc[shout_read_raf::rv_id(m.stages[s])].1),
        |s: int| sums::power(g, s).times(acc[key(s)].1),
    );
    sums::lemma_sum_ext(
        n,
        |s: int|
            m.gp[s].times(poly::eq_mle(m.stages[s].r_cycle, cycle)).times(
                poly::mle(m.stages[s].val_addr, address),
            ),
        |s: int|
            sums::power(g, s).times(poly::eq_mle(inputs.stages[s].r_cycle, cycle)).times(
                poly::mle(inputs.stages[s].val_addr, address),
            ),
    );
}

/// A true read claim is the extension, at the cycle point, of the column of the values that the cycles
/// read: each the entry at the address that its chunk indices spell.
pub proof fn law_true_read<F: Field>(
    stage: StageModel<F>,
    indices: Seq<Seq<u32>>,
    widths: Seq<usize>,
    log_t: nat,
)
    requires
        stage.r_cycle.len() == log_t,
    ensures
        read_raf_stage::true_read(stage, indices, widths, log_t) == poly::mle(
            Seq::new(
                pow2(log_t),
                |j: int| stage.val_addr[read_raf_stage::address(indices, widths, j)],
            ),
            stage.r_cycle,
        ),
{
    let column = Seq::new(
        pow2(log_t),
        |j: int| stage.val_addr[read_raf_stage::address(indices, widths, j)],
    );
    poly::lemma_sum_eq_times(stage.r_cycle, column);
    sums::lemma_sum_ext(
        pow2(log_t) as int,
        |j: int|
            poly::eq_weight(stage.r_cycle, j).times(
                stage.val_addr[read_raf_stage::address(indices, widths, j)],
            ),
        |j: int| poly::eq_table(stage.r_cycle)[j].times(column[j]),
    );
}

} // verus!
