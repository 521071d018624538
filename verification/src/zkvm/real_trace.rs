//! All witnesses of the binary stages, assembled from one execution trace.
//!
//! A traced cycle reports the physical address it accesses. The memory checks index a dense array of
//! eight-byte words, so they run on a trace whose addresses are remapped to word indices; the
//! constraint system keeps the physical ones.

use crate::field;
use crate::field::Field;
use crate::framework::accumulator::Claims;
use crate::framework::bits;
use crate::framework::poly;
use crate::framework::transcript;
use crate::framework::transcript::FsState;
use crate::r1cs::key::R1csKey;
use crate::r1cs::layout::{NUM_VARS, RAM_WRITE, RD_WRITE};
use crate::r1cs::matrices::ConstraintMatrices;
use crate::zkvm::cycle_laws;
use crate::zkvm::driver;
use crate::zkvm::driver::RamPublicColumns;
use crate::zkvm::r1cs_witness;
use crate::zkvm::r1cs_witness::{build_limbed_z, R1csWitness};
use crate::zkvm::ram::stage::PublicColumns;
use crate::zkvm::ram::witness as ram_columns;
use crate::zkvm::ram::witness::{ram_witness, RamWitness};
use crate::zkvm::registers::witness as register_columns;
use crate::zkvm::registers::witness::{register_witness, RegisterWitness};
use crate::zkvm::trace::CycleRow;
use vstd::arithmetic::power2::pow2;
use vstd::prelude::*;

verus! {

/// The word index of a physical address.
pub open spec fn word_index(addr: int, lowest: int) -> int {
    (addr - lowest) / 8
}

/// The word index of a physical address.
pub fn remap_index(addr: u64, ram_lowest: u64) -> (r: u64)
    requires
        addr >= ram_lowest,
    ensures
        r == word_index(addr as int, ram_lowest as int),
{
    (addr - ram_lowest) / 8
}

/// A cycle whose accessed address is replaced by its word index.
pub open spec fn remapped_row(row: CycleRow, lowest: int) -> CycleRow {
    CycleRow {
        ram_access_address: match row.ram_access_address {
            Some(a) => Some(word_index(a as int, lowest) as u64),
            None => None,
        },
        ..row
    }
}

/// A trace whose accessed addresses are replaced by their word indices.
pub open spec fn remapped(trace: Seq<CycleRow>, lowest: int) -> Seq<CycleRow> {
    Seq::new(trace.len(), |t: int| remapped_row(trace[t], lowest))
}

/// A cycle together with the lowest address of the memory.
#[derive(Clone, Copy, Debug)]
pub struct RemappedCycle {
    pub inner: CycleRow,
    pub ram_lowest: u64,
}

/// The accessed address is not below the memory.
pub open spec fn address_above(row: CycleRow, lowest: int) -> bool {
    match row.ram_access_address {
        Some(a) => a >= lowest,
        None => true,
    }
}

impl RemappedCycle {
    /// The accessed word, if any.
    pub fn ram_access_address(&self) -> (r: Option<u64>)
        requires
            address_above(self.inner, self.ram_lowest as int),
        ensures
            r == remapped_row(self.inner, self.ram_lowest as int).ram_access_address,
    {
        match self.inner.ram_access_address {
            Some(a) => Some(remap_index(a, self.ram_lowest)),
            None => None,
        }
    }

    /// The cycle with the accessed address replaced by its word index.
    pub fn row(&self) -> (r: CycleRow)
        requires
            address_above(self.inner, self.ram_lowest as int),
        ensures
            r == remapped_row(self.inner, self.ram_lowest as int),
    {
        let mut row: CycleRow = self.inner;
        row.ram_access_address = self.ram_access_address();
        row
    }
}

/// Pair every cycle with the lowest address of the memory.
pub fn remap_trace(trace: &[CycleRow], ram_lowest: u64) -> (r: Vec<RemappedCycle>)
    ensures
        r@ == Seq::new(trace@.len(), |t: int| RemappedCycle { inner: trace@[t], ram_lowest }),
{
    let mut out: Vec<RemappedCycle> = Vec::new();
    let ghost whole = Seq::new(
        trace@.len(),
        |t: int| RemappedCycle { inner: trace@[t], ram_lowest },
    );
    for t in 0..trace.len()
        invariant
            whole == Seq::new(
                trace@.len(),
                |t: int| RemappedCycle { inner: trace@[t], ram_lowest },
            ),
            out@ == whole.take(t as int),
    {
        out.push(RemappedCycle { inner: trace[t], ram_lowest });
        assert(out@ =~= whole.take(t + 1));
    }
    assert(out@ =~= whole);
    out
}

/// The rows of a remapped trace.
fn remapped_rows(cycles: &Vec<RemappedCycle>) -> (r: Vec<CycleRow>)
    requires
        forall|t: int|
            0 <= t < cycles@.len() ==> address_above(
                (#[trigger] cycles@[t]).inner,
                cycles@[t].ram_lowest as int,
            ),
    ensures
        r@ == Seq::new(
            cycles@.len(),
            |t: int| remapped_row(cycles@[t].inner, cycles@[t].ram_lowest as int),
        ),
{
    let mut out: Vec<CycleRow> = Vec::new();
    let ghost whole = Seq::new(
        cycles@.len(),
        |t: int| remapped_row(cycles@[t].inner, cycles@[t].ram_lowest as int),
    );
    for t in 0..cycles.len()
        invariant
            whole == Seq::new(
                cycles@.len(),
                |t: int| remapped_row(cycles@[t].inner, cycles@[t].ram_lowest as int),
            ),
            forall|t: int|
                0 <= t < cycles@.len() ==> address_above(
                    (#[trigger] cycles@[t]).inner,
                    cycles@[t].ram_lowest as int,
                ),
            out@ == whole.take(t as int),
    {
        assert(address_above(cycles@[t as int].inner, cycles@[t as int].ram_lowest as int));
        out.push(cycles[t].row());
        assert(out@ =~= whole.take(t + 1));
    }
    assert(out@ =~= whole);
    out
}

/// The public columns of a memory without an output region: the physical address of every word.
pub open spec fn public_columns<F: Field>(log_k: nat, lowest: int) -> PublicColumns<F> {
    let zeros = Seq::new(pow2(log_k), |i: int| F::of_int(0));
    PublicColumns {
        unmap: Seq::new(pow2(log_k), |i: int| F::of_int(lowest + 8 * i)),
        val_io: zeros,
        io_mask: zeros,
    }
}

/// The public columns of a memory without an output region.
pub fn ram_public_columns<F: Field>(log_k: usize, ram_lowest: u64) -> (r: RamPublicColumns<F>)
    requires
        pow2(log_k as nat) <= usize::MAX,
        ram_lowest + 8 * (pow2(log_k as nat) - 1) <= u64::MAX,
    ensures
        r@ == public_columns::<F>(log_k as nat, ram_lowest as int),
{
    let k: usize = poly::power_of_two(log_k);
    let ghost whole = public_columns::<F>(log_k as nat, ram_lowest as int).unmap;
    let mut unmap: Vec<F> = Vec::new();
    for i in 0..k
        invariant
            k == pow2(log_k as nat),
            ram_lowest + 8 * (k - 1) <= u64::MAX,
            whole == public_columns::<F>(log_k as nat, ram_lowest as int).unmap,
            unmap@ == whole.take(i as int),
    {
        unmap.push(F::from_u64(ram_lowest + 8 * (i as u64)));
        assert(unmap@ =~= whole.take(i + 1));
    }
    assert(unmap@ =~= whole);
    RamPublicColumns { unmap, val_io: poly::zeros(k), io_mask: poly::zeros(k) }
}

/// Everything the binary stages consume.
#[derive(Debug)]
pub struct RealWitness<F> {
    pub r1cs: R1csWitness<F>,
    pub ram: RamWitness<F>,
    pub registers: RegisterWitness<F>,
    pub ram_public: RamPublicColumns<F>,
    pub key: R1csKey<F>,
}

/// The assignments of every cycle.
pub open spec fn assignments<F: Field>(trace: Seq<CycleRow>, pcs: Seq<u64>) -> Seq<Seq<F>> {
    Seq::new(trace.len(), |t: int| r1cs_witness::assignment::<F>(trace, t, pcs))
}

/// The trace runs on the given memory and register file.
pub open spec fn runs_on(
    trace: Seq<CycleRow>,
    lowest: int,
    ram_k: int,
    register_count: int,
) -> bool {
    &&& forall|t: int| 0 <= t < trace.len() ==> r1cs_witness::row_fits(#[trigger] trace[t])
    &&& forall|t: int| 0 <= t < trace.len() ==> address_above(#[trigger] trace[t], lowest)
    &&& ram_columns::addresses_fit(remapped(trace, lowest), ram_k)
    &&& register_columns::registers_fit(trace, register_count)
}

impl<F: Field> RealWitness<F> {
    /// The witnesses are those of the trace.
    pub open spec fn assembles(
        self,
        m: ConstraintMatrices<F>,
        trace: Seq<CycleRow>,
        pcs: Seq<u64>,
        lowest: int,
        ram_k: nat,
        register_count: nat,
    ) -> bool {
        &&& self.r1cs.materializes(m, assignments::<F>(trace, pcs))
        &&& self.ram.simulates(remapped(trace, lowest), ram_k)
        &&& self.registers.simulates(trace, register_count)
        &&& self.ram_public@ == public_columns::<F>(self.ram.log_k as nat, lowest)
        &&& self.key.wf()
        &&& self.key.matrices == m
        &&& self.key.log_cycles == bits::ceil_log2(trace.len())
        &&& self.key.log_vars == bits::ceil_log2(m.num_vars as nat)
        &&& self.key.log_constraints == bits::ceil_log2(m.num_constraints as nat)
    }
}

/// Build all witnesses from one trace. `pcs` holds the bytecode index of every cycle.
pub fn assemble_real_witness<F: Field>(
    matrices: ConstraintMatrices<F>,
    trace: &[CycleRow],
    pcs: &[u64],
    ram_lowest: u64,
    ram_k: usize,
    register_count: usize,
) -> (r: RealWitness<F>)
    requires
        matrices.wf(),
        matrices.num_vars == NUM_VARS,
        runs_on(trace@, ram_lowest as int, ram_k as int, register_count as int),
        ram_k == bits::cover(ram_k as nat),
        register_count == bits::cover(register_count as nat),
        ram_k * bits::cover(trace@.len()) <= usize::MAX,
        register_count * bits::cover(trace@.len()) <= usize::MAX,
        bits::cover(trace@.len()) * bits::cover(NUM_VARS as nat) <= usize::MAX,
        bits::cover(trace@.len()) * bits::cover(matrices.num_constraints as nat) <= usize::MAX,
        ram_lowest + 8 * (ram_k - 1) <= u64::MAX,
    ensures
        r.assembles(
            matrices,
            trace@,
            pcs@,
            ram_lowest as int,
            ram_k as nat,
            register_count as nat,
        ),
        driver::provable(r.r1cs, r.ram, r.registers, r.ram_public@, r.key),
{
    let per_cycle: Vec<Vec<F>> = build_limbed_z(trace, pcs);
    assert(poly::contents(per_cycle@) =~= assignments::<F>(trace@, pcs@));
    let r1cs: R1csWitness<F> = R1csWitness::materialize(&matrices, &per_cycle);
    let key: R1csKey<F> = R1csKey::new(matrices, trace.len());
    let cycles: Vec<RemappedCycle> = remap_trace(trace, ram_lowest);
    assert forall|t: int| 0 <= t < cycles@.len() implies address_above(
        (#[trigger] cycles@[t]).inner,
        cycles@[t].ram_lowest as int,
    ) by {
        assert(address_above(trace@[t], ram_lowest as int));
    }
    let rows: Vec<CycleRow> = remapped_rows(&cycles);
    assert(rows@ =~= remapped(trace@, ram_lowest as int));
    let ram: RamWitness<F> = ram_witness(&rows, ram_k);
    let registers: RegisterWitness<F> = register_witness(trace, register_count);
    let ram_public: RamPublicColumns<F> = ram_public_columns(ram.log_k, ram_lowest);
    let out: RealWitness<F> = RealWitness { r1cs, ram, registers, ram_public, key };
    proof {
        r1cs_witness::law_columns(out.r1cs, out.key, assignments::<F>(trace@, pcs@));
        bits::law_cover(NUM_VARS as nat);
        lemma_logs(out.ram.log_t as nat, trace@.len());
        lemma_logs(out.registers.log_t as nat, trace@.len());
        poly::lemma_pow2_concat(out.ram.log_k as nat, out.ram.log_t as nat);
        poly::lemma_pow2_exceeds(out.ram.log_k as nat + out.ram.log_t as nat);
        poly::lemma_pow2_concat(out.registers.log_k as nat, out.registers.log_t as nat);
        poly::lemma_pow2_exceeds(out.registers.log_k as nat + out.registers.log_t as nat);
    }
    out
}

proof fn lemma_logs(e: nat, n: nat)
    requires
        bits::cover(n) == pow2(e),
    ensures
        e == bits::ceil_log2(n),
{
    bits::lemma_cover_power(e);
    bits::lemma_cover_power(bits::ceil_log2(n));
}

/// Remapping inverts the public address column: the word at index `k` is the one at the address
/// that the column holds there.
pub proof fn law_remap_inverts(lowest: int, k: int)
    requires
        k >= 0,
    ensures
        word_index(lowest + 8 * k, lowest) == k,
{
}

/// The public address column gives back every aligned address that was remapped.
pub proof fn law_unmap<F: Field>(log_k: nat, lowest: int, addr: int)
    requires
        addr >= lowest,
        (addr - lowest) % 8 == 0,
        word_index(addr, lowest) < pow2(log_k),
    ensures
        public_columns::<F>(log_k, lowest).unmap[word_index(addr, lowest)] == F::of_int(addr),
{
    assert(8 * word_index(addr, lowest) == addr - lowest);
}

/// The witnesses of a trace belong together: the assignment columns are those of the constraint
/// system, every entry is canonical, the sign and carry columns hold bits, and all columns are over
/// the same cycles.
pub proof fn lemma_assembled<F: Field>(
    w: RealWitness<F>,
    m: ConstraintMatrices<F>,
    trace: Seq<CycleRow>,
    pcs: Seq<u64>,
    lowest: int,
    ram_k: nat,
    register_count: nat,
)
    requires
        m.num_vars == NUM_VARS,
        w.assembles(m, trace, pcs, lowest, ram_k, register_count),
        runs_on(trace, lowest, ram_k as int, register_count as int),
    ensures
        w.r1cs.belongs_to(w.key),
        field::all_valid(w.r1cs.z@),
        driver::aux_boolean(w.r1cs),
        w.ram_public@.sized(w.ram.log_k as nat),
        w.ram_public@.canonical(),
        w.ram.log_t == w.r1cs.log_num_cycles,
        w.registers.log_t == w.r1cs.log_num_cycles,
        ram_columns::addresses_fit(remapped(trace, lowest), ram_k as int),
        register_columns::registers_fit(trace, register_count as int),
{
    let per = assignments::<F>(trace, pcs);
    let public = public_columns::<F>(w.ram.log_k as nat, lowest);
    r1cs_witness::law_columns(w.r1cs, w.key, per);
    assert(driver::aux_boolean(w.r1cs)) by {
        assert forall|k: int, c: int|
            0 <= k < w.r1cs.aux_columns().len() && 0 <= c < pow2(w.r1cs.log_num_cycles as nat)
            implies #[trigger] w.r1cs.aux_columns()[k][c] == F::of_int(0)
            || w.r1cs.aux_columns()[k][c] == F::of_int(1) by {
            r1cs_witness::law_aux_columns(w.r1cs, m, trace, pcs, k, c);
        }
    }
    assert(field::all_valid(w.r1cs.z@)) by {
        let vars = w.r1cs.num_vars_padded as int;
        assert forall|y: int| 0 <= y < w.r1cs.z@.len() implies (#[trigger] w.r1cs.z@[y]).valid() by {
            F::law_of_int_valid(0);
            F::law_of_int_valid(r1cs_witness::cycle_cell(trace, y / vars, pcs, y % vars));
            vstd::arithmetic::power2::lemma_pow2_pos(bits::ceil_log2(NUM_VARS as nat));
            poly::lemma_quotient_in_range(
                y,
                bits::cover(trace.len()) as int,
                vars,
            );
        }
    }
    assert(public.canonical()) by {
        F::law_of_int_valid(0);
        assert forall|i: int| 0 <= i < public.unmap.len() implies (#[trigger] public.unmap[i]).valid() by {
            F::law_of_int_valid(lowest + 8 * i);
        }
    }
    lemma_logs(w.ram.log_t as nat, trace.len());
    lemma_logs(w.registers.log_t as nat, trace.len());
}

/// Completeness for a traced program: if every cycle satisfies the constraints, the honest proof
/// of the assembled witnesses is accepted.
pub proof fn law_trace_complete<F: Field>(
    w: RealWitness<F>,
    m: ConstraintMatrices<F>,
    trace: Seq<CycleRow>,
    pcs: Seq<u64>,
    lowest: int,
    ram_k: nat,
    register_count: nat,
    acc: Claims<F>,
    p: FsState<F>,
    v: FsState<F>,
    whole: Seq<F>,
)
    requires
        m.num_vars == NUM_VARS,
        w.assembles(m, trace, pcs, lowest, ram_k, register_count),
        runs_on(trace, lowest, ram_k as int, register_count as int),
        forall|t: int|
            0 <= t < trace.len() ==> m.satisfied_by(
                #[trigger] r1cs_witness::assignment::<F>(trace, t, pcs),
            ),
        p.canonical(),
        transcript::synced(p, v, whole),
        driver::honest(
            w.r1cs,
            w.ram,
            w.registers,
            w.ram_public@,
            w.key,
            acc,
            p,
        ).2.tape.is_prefix_of(whole),
    ensures
        ({
            let (claims, acc1, p1) = driver::honest(
                w.r1cs,
                w.ram,
                w.registers,
                w.ram_public@,
                w.key,
                acc,
                p,
            );
            let (r, acc2, v1) = driver::verdict(
                claims,
                w.key,
                w.r1cs.log_num_cycles as nat,
                w.ram.log_k as nat,
                w.registers.log_k as nat,
                w.ram_public@,
                acc,
                v,
            );
            &&& r is Ok
            &&& acc2 == acc1
            &&& transcript::synced(p1, v1, whole)
            &&& p1.canonical()
        }),
{
    let per = assignments::<F>(trace, pcs);
    let public = public_columns::<F>(w.ram.log_k as nat, lowest);
    lemma_assembled(w, m, trace, pcs, lowest, ram_k, register_count);
    assert forall|c: int| 0 <= c < per.len() implies m.satisfied_by(#[trigger] per[c]) by {
        assert(per[c] == r1cs_witness::assignment::<F>(trace, c, pcs));
    }
    r1cs_witness::law_satisfied(w.r1cs, m, per);
    ram_columns::lemma_witness_valid(w.ram, remapped(trace, lowest), ram_k);
    driver::law_complete(
        w.r1cs,
        w.ram,
        w.registers,
        trace,
        remapped(trace, lowest),
        ram_k,
        register_count,
        public,
        w.key,
        acc,
        p,
        v,
        whole,
    );
}

/// The word index of an address is the number of the eight-byte word that it lies in.
pub proof fn law_word(addr: int, lowest: int, i: int)
    requires
        addr >= lowest,
    ensures
        word_index(addr, lowest) == i <==> lowest + 8 * i <= addr < lowest + 8 * i + 8,
{
}

/// A remapped trace keeps every row but for the accessed address, which becomes the number of the
/// word it lies in.
pub proof fn law_remapped(trace: Seq<CycleRow>, lowest: int, t: int)
    requires
        0 <= t < trace.len(),
        0 <= lowest,
        address_above(trace[t], lowest),
    ensures
        ({
            let row = trace[t];
            let moved = remapped(trace, lowest)[t];
            &&& remapped(trace, lowest).len() == trace.len()
            &&& match row.ram_access_address {
                Some(a) => moved.ram_access_address is Some && lowest + 8
                    * moved.ram_access_address->0 <= a < lowest + 8 * moved.ram_access_address->0
                    + 8,
                None => moved.ram_access_address is None,
            }
            &&& moved.is_noop == row.is_noop
            &&& moved.unexpanded_pc == row.unexpanded_pc
            &&& moved.rs1_read == row.rs1_read
            &&& moved.rs2_read == row.rs2_read
            &&& moved.rd_write == row.rd_write
            &&& moved.ram_read_value == row.ram_read_value
            &&& moved.ram_write_value == row.ram_write_value
            &&& moved.imm == row.imm
            &&& moved.circuit_flags == row.circuit_flags
            &&& moved.instruction_flags == row.instruction_flags
            &&& moved.lookup_index == row.lookup_index
            &&& moved.lookup_output == row.lookup_output
            &&& moved.lookup_table == row.lookup_table
        }),
{
}

/// The public columns have one entry per word: its physical address, and no announced output.
pub proof fn law_public_columns<F: Field>(log_k: nat, lowest: int, i: int)
    requires
        0 <= i < pow2(log_k),
    ensures
        ({
            let public = public_columns::<F>(log_k, lowest);
            &&& public.unmap.len() == pow2(log_k)
            &&& public.val_io.len() == pow2(log_k)
            &&& public.io_mask.len() == pow2(log_k)
            &&& public.unmap[i] == F::of_int(lowest + 8 * i)
            &&& public.val_io[i] == F::of_int(0)
            &&& public.io_mask[i] == F::of_int(0)
        }),
{
}

/// The witnesses of a trace tell the same of a cycle that does something. The value that the register
/// columns say is written is the one that the assignment of the cycle holds in two halves. The value
/// that the memory columns say is left is the one that the assignment holds, where the cycle writes
/// one, and the marked word is the one that the accessed address lies in.
pub proof fn law_witnesses_agree<F: Field>(
    w: RealWitness<F>,
    m: ConstraintMatrices<F>,
    trace: Seq<CycleRow>,
    pcs: Seq<u64>,
    lowest: int,
    ram_k: nat,
    register_count: nat,
    t: int,
)
    requires
        m.wf(),
        m.num_vars == NUM_VARS,
        0 <= lowest,
        w.assembles(m, trace, pcs, lowest, ram_k, register_count),
        runs_on(trace, lowest, ram_k as int, register_count as int),
        0 <= t < trace.len(),
        !trace[t].is_noop,
    ensures
        ({
            let row = trace[t];
            let vars = w.r1cs.num_vars_padded as int;
            let cycles = pow2(w.ram.log_t as nat);
            let word = |i: int|
                w.r1cs.z@[t * vars + i].plus(
                    F::of_int(0x1_0000_0000).times(w.r1cs.z@[t * vars + (i + 1)]),
                );
            &&& w.registers.rd_write_value@[t] == word(RD_WRITE as int)
            &&& row.ram_access_address is Some && row.ram_write_value is Some
                ==> w.ram.ram_write_value@[t] == word(RAM_WRITE as int)
            &&& row.ram_access_address is Some ==> forall|a: int|
                0 <= a < ram_k ==> #[trigger] w.ram.ra@[a * cycles + t] == F::of_int(
                    if lowest + 8 * a <= row.ram_access_address->0 < lowest + 8 * a + 8 {
                        1
                    } else {
                        0
                    },
                )
        }),
{
    let row = trace[t];
    let per = assignments::<F>(trace, pcs);
    let moved = remapped(trace, lowest);
    let vars = w.r1cs.num_vars_padded as int;
    let cycles = pow2(w.ram.log_t as nat);
    lemma_assembled(w, m, trace, pcs, lowest, ram_k, register_count);
    bits::law_cover(trace.len());
    bits::law_cover(NUM_VARS as nat);
    vstd::arithmetic::power2::lemma_pow2_pos(bits::ceil_log2(m.num_constraints as nat));
    r1cs_witness::law_layout(w.r1cs, m, per, t, RD_WRITE as int, 0);
    r1cs_witness::law_layout(w.r1cs, m, per, t, RD_WRITE + 1, 0);
    r1cs_witness::law_layout(w.r1cs, m, per, t, RAM_WRITE as int, 0);
    r1cs_witness::law_layout(w.r1cs, m, per, t, RAM_WRITE + 1, 0);
    cycle_laws::law_word_variables::<F>(trace, t, pcs);
    if row.rd_write is Some {
        register_columns::law_register_written(w.registers, trace, register_count, t);
    } else {
        register_columns::law_register_kept(w.registers, trace, register_count, t);
    }
    if row.ram_access_address is Some {
        assert(address_above(row, lowest));
        law_remapped(trace, lowest, t);
        ram_columns::law_word_left(w.ram, moved, ram_k, t);
        let at = moved[t].ram_access_address->0 as int;
        assert forall|a: int| 0 <= a < ram_k implies #[trigger] w.ram.ra@[a * cycles + t]
            == F::of_int(
            if lowest + 8 * a <= row.ram_access_address->0 < lowest + 8 * a + 8 {
                1
            } else {
                0
            },
        ) by {
            law_word(row.ram_access_address->0 as int, lowest, a);
            law_word(row.ram_access_address->0 as int, lowest, at);
        }
    }
}

} // verus!
