//! The instruction read check: the address phase over the bits of the lookup index, followed by the
//! cycle phase over the one-hot chunk columns.
//!
//! The check is about the sum over the cycles `j` of `eq(r, j) (Val_j(idx_j) + raf(idx_j))`, where
//! `Val_j` is the lookup table of the cycle and `raf` combines its operands or its index. When the
//! address bits are bound, the chunk columns are evaluated at the bound point and multiplied with one
//! column that holds the weights and the values at that point.

use crate::field;
use crate::field::Field;
use crate::framework::accumulator;
use crate::framework::accumulator::{
    Claims, CommittedPolynomial, OpeningId, Openings, SumcheckId, VirtualPolynomial,
};
use crate::framework::formula;
use crate::framework::poly;
use crate::framework::poly::MultilinearPolynomial;
use crate::framework::sumcheck;
use crate::framework::sumcheck::{SumTable, VirtualSum};
use crate::framework::sums;
use crate::framework::univariate;
use crate::framework::univariate::UnivariatePoly;
use crate::zkvm::instruction_lookups::address_phase;
use crate::zkvm::instruction_lookups::address_phase::{
    Checkpoints, InstructionAddressPhase, PhaseReads, PhaseState, TableShape,
};
use crate::zkvm::instruction_lookups::address_reduction;
use crate::zkvm::instruction_lookups::index_bits;
use crate::zkvm::instruction_lookups::lookup_groups;
use crate::zkvm::instruction_lookups::operand_poly;
use crate::zkvm::instruction_lookups::table_values;
use crate::zkvm::trace::NUM_LOOKUP_TABLES;
use vstd::arithmetic::power2::pow2;
use vstd::prelude::*;

verus! {

/// The lookups of a trace: per cycle the index, the table if any, whether the operands are
/// interleaved, and the chunks of the index, the most significant chunk first.
#[derive(Debug)]
pub struct InstructionTrace<'a> {
    pub lookup_indices: &'a [u128],
    pub lookup_table_indices: &'a [Option<usize>],
    pub is_interleaved: &'a [bool],
    pub indices: &'a Vec<Vec<u32>>,
}

/// What the cycle phase is about, as mathematical values.
#[verifier::ext_equal]
pub struct CycleModel<F> {
    pub gamma: F,
    pub r_reduction: Seq<F>,
    pub lookups: Seq<u128>,
    pub tables: Seq<Option<usize>>,
    pub interleaved: Seq<bool>,
    pub indices: Seq<Seq<u32>>,
    /// The width of an index chunk in bits.
    pub chunk_bits: nat,
}

impl<F: Field> CycleModel<F> {
    /// The number of index bits.
    pub open spec fn log_k(self) -> nat {
        self.indices.len() * self.chunk_bits
    }

    /// The part of an address point that belongs to chunk `i`.
    pub open spec fn digit(self, r: Seq<F>, i: int) -> Seq<F> {
        r.subrange(i * self.chunk_bits, (i + 1) * self.chunk_bits)
    }

    /// What a cycle reads from its table.
    pub open spec fn read(self, values: Seq<F>, j: int) -> F {
        match self.tables[j] {
            Some(t) => values[t as int],
            None => F::of_int(0),
        }
    }

    /// The value of a cycle at an address point, given the values of the tables there.
    pub open spec fn value(self, r: Seq<F>, values: Seq<F>, j: int) -> F {
        self.read(values, j).plus(
            address_reduction::raf_at_point(self.gamma, r, self.interleaved[j]),
        )
    }

    /// The weighted values of the cycles.
    pub open spec fn value_column(self, r: Seq<F>, values: Seq<F>) -> Seq<F> {
        Seq::new(
            pow2(self.r_reduction.len()),
            |j: int| poly::eq_weight(self.r_reduction, j).times(self.value(r, values, j)),
        )
    }

    /// A chunk column evaluated at an address point.
    pub open spec fn chunk_column(self, r: Seq<F>, i: int) -> Seq<F> {
        Seq::new(
            pow2(self.r_reduction.len()),
            |j: int| poly::eq_weight(self.digit(r, i), self.indices[i][j] as int),
        )
    }

    /// The sum of the cycle phase.
    pub open spec fn cycle_table(self, r: Seq<F>, values: Seq<F>) -> SumTable<F> {
        SumTable {
            columns: Seq::new(self.indices.len(), |i: int| self.chunk_column(r, i)).push(
                self.value_column(r, values),
            ),
            formula: formula::column_product(self.indices.len()),
        }
    }

    /// The honest claim, given the table entry that every cycle reads.
    pub open spec fn input(self, entries: Seq<u64>) -> F {
        sums::sum(
            pow2(self.r_reduction.len()) as int,
            |j: int|
                poly::eq_weight(self.r_reduction, j).times(
                    flagged_entry::<F>(self.tables[j], entries[j]).plus(
                        address_reduction::raf_of_index(
                            self.gamma,
                            self.lookups[j] as int,
                            self.interleaved[j],
                            self.log_k(),
                        ),
                    ),
                ),
        )
    }

    /// The columns cover all cycles, and the chunks are in range.
    pub open spec fn sized(self) -> bool {
        let t = pow2(self.r_reduction.len());
        &&& t <= usize::MAX
        &&& self.lookups.len() == t
        &&& self.tables.len() == t
        &&& self.interleaved.len() == t
        &&& 0 < self.indices.len() < usize::MAX
        &&& pow2(self.chunk_bits) <= usize::MAX
        &&& self.log_k() % 8 == 0
        &&& self.log_k() <= 128
        &&& forall|j: int|
            0 <= j < t && #[trigger] self.tables[j] is Some ==> self.tables[j]->0
                < NUM_LOOKUP_TABLES
        &&& forall|i: int| 0 <= i < self.indices.len() ==> (#[trigger] self.indices[i]).len() == t
        &&& forall|i: int, j: int|
            0 <= i < self.indices.len() && 0 <= j < t ==> #[trigger] self.indices[i][j] < pow2(
                self.chunk_bits,
            )
    }
}

/// The entry a cycle reads, zero if it reads no table.
pub open spec fn flagged_entry<F: Field>(table: Option<usize>, entry: u64) -> F {
    sums::flagged(table is Some, F::of_int(entry as int))
}

impl<F: Field> CycleModel<F> {
    /// The weight of a cycle at a cycle point and at the reduction point.
    pub open spec fn double_weight(self, rc: Seq<F>, j: int) -> F {
        poly::eq_weight(rc, j).times(poly::eq_weight(self.r_reduction, j))
    }

    /// What a cycle adds to the flag of a table.
    pub open spec fn table_flag_term(self, rc: Seq<F>, t: int, j: int) -> F {
        sums::flagged(self.tables[j] == Some(t as usize), self.double_weight(rc, j))
    }

    /// What a cycle adds to the flag of the identity.
    pub open spec fn identity_flag_term(self, rc: Seq<F>, j: int) -> F {
        sums::flagged(!self.interleaved[j], self.double_weight(rc, j))
    }

    /// The weight of the cycles that read a table.
    pub open spec fn table_flag(self, rc: Seq<F>, t: int) -> F {
        sums::sum(
            pow2(self.r_reduction.len()) as int,
            |j: int| self.table_flag_term(rc, t, j),
        )
    }

    /// The weight of the cycles whose operands are not interleaved.
    pub open spec fn identity_flag(self, rc: Seq<F>) -> F {
        sums::sum(
            pow2(self.r_reduction.len()) as int,
            |j: int| self.identity_flag_term(rc, j),
        )
    }
}

/// The address point of the challenges, the most significant bit first.
pub open spec fn address_part<F: Field>(m: CycleModel<F>, xs: Seq<F>) -> Seq<F> {
    xs.take(m.log_k() as int)
}

/// The cycle point of the challenges.
pub open spec fn cycle_part<F: Field>(m: CycleModel<F>, xs: Seq<F>) -> Seq<F> {
    xs.skip(m.log_k() as int).reverse()
}

/// The name of the claim about a chunk column.
pub open spec fn ra_id(i: int) -> OpeningId {
    accumulator::comm(
        CommittedPolynomial::InstructionRa(i as usize),
        SumcheckId::InstructionReadRaf,
    )
}

/// The name of the claim about the flag of a table.
pub open spec fn flag_id(t: int) -> OpeningId {
    accumulator::virt(
        VirtualPolynomial::LookupTableFlag(t as usize),
        SumcheckId::InstructionReadRaf,
    )
}

/// The name of the claim about the flag of the identity.
pub open spec fn raf_flag_id() -> OpeningId {
    accumulator::virt(VirtualPolynomial::InstructionRafFlag, SumcheckId::InstructionReadRaf)
}

/// The claims after the first `n` chunk openings are recorded.
pub open spec fn cached_chunks<F: Field>(
    m: CycleModel<F>,
    acc: Claims<F>,
    xs: Seq<F>,
    v: Seq<F>,
    n: int,
) -> Claims<F>
    decreases n,
{
    if n <= 0 {
        acc
    } else {
        cached_chunks(m, acc, xs, v, n - 1).insert(
            ra_id(n - 1),
            (m.digit(address_part(m, xs), n - 1) + cycle_part(m, xs), v[n - 1]),
        )
    }
}

/// The claims after the flags of the first `n` tables are recorded.
pub open spec fn cached_flags<F: Field>(
    m: CycleModel<F>,
    acc: Claims<F>,
    xs: Seq<F>,
    n: int,
) -> Claims<F>
    decreases n,
{
    if n <= 0 {
        acc
    } else {
        cached_flags(m, acc, xs, n - 1).insert(
            flag_id(n - 1),
            (cycle_part(m, xs), m.table_flag(cycle_part(m, xs), n - 1)),
        )
    }
}

/// The claims after all openings are recorded.
pub open spec fn cached<F: Field>(
    m: CycleModel<F>,
    acc: Claims<F>,
    xs: Seq<F>,
    v: Seq<F>,
) -> Claims<F> {
    cached_flags(
        m,
        cached_chunks(m, acc, xs, v, m.indices.len() as int),
        xs,
        NUM_LOOKUP_TABLES as int,
    ).insert(raf_flag_id(), (cycle_part(m, xs), m.identity_flag(cycle_part(m, xs))))
}

/// The claim the recorded openings must satisfy, given the values of the tables at the address
/// point.
pub open spec fn output<F: Field>(
    m: CycleModel<F>,
    acc: Claims<F>,
    xs: Seq<F>,
    values: Seq<F>,
) -> F {
    let r = address_part(m, xs);
    let identity_flag = acc[raf_flag_id()].1;
    let read = sums::sum(
        NUM_LOOKUP_TABLES as int,
        |t: int| acc[flag_id(t)].1.times(values[t]),
    );
    let raf = poly::eq_mle(m.r_reduction, cycle_part(m, xs)).minus(identity_flag).times(
        address_reduction::raf_at_point(m.gamma, r, true),
    ).plus(identity_flag.times(address_reduction::raf_at_point(m.gamma, r, false)));
    sums::product(m.indices.len() as int, |i: int| acc[ra_id(i)].1).times(read.plus(raf))
}

/// A number of variables whose space fits the machine is small.
proof fn lemma_rounds_fit(n: nat)
    requires
        pow2(n) <= usize::MAX,
    ensures
        n + 128 <= usize::MAX,
{
    if n > 64 {
        poly::lemma_pow2_monotone(65, n);
        poly::lemma_pow2_step(65);
        vstd::arithmetic::power2::lemma2_to64();
    }
}

/// The instruction read check.
pub struct InstructionReadRaf<F> {
    pub address: InstructionAddressPhase<F>,
    pub gamma: F,
    pub r_reduction: Vec<F>,
    pub lookup_indices: Vec<u128>,
    pub lookup_table_indices: Vec<Option<usize>>,
    pub is_interleaved: Vec<bool>,
    pub indices: Vec<Vec<u32>>,
    pub chunk_bits: usize,
    /// The cycle phase, once the address bits are bound.
    pub cycle: Option<VirtualSum<F>>,
}

impl<F: Field> View for InstructionReadRaf<F> {
    type V = CycleModel<F>;

    open spec fn view(&self) -> CycleModel<F> {
        CycleModel {
            gamma: self.gamma,
            r_reduction: self.r_reduction@,
            lookups: self.lookup_indices@,
            tables: self.lookup_table_indices@,
            interleaved: self.is_interleaved@,
            indices: poly::contents(self.indices@),
            chunk_bits: self.chunk_bits as nat,
        }
    }
}

/// The operand on a side of an interleaved index, as a polynomial in its bits: the left operand
/// starts the point.
pub fn operand_polynomial_eval<F: Field>(point: &[F], left: bool) -> (r: F)
    requires
        point@.len() % 2 == 0,
    ensures
        r == operand_poly::strided_value(
            point@,
            if left {
                0
            } else {
                1
            },
            2,
            (point@.len() / 2) as int,
        ),
{
    let m: usize = point.len() / 2;
    let start: usize = if left {
        0
    } else {
        1
    };
    operand_poly::strided_eval(point, start, 2, m)
}

/// The index, as a polynomial in its bits.
pub fn identity_polynomial_eval<F: Field>(point: &[F]) -> (r: F)
    ensures
        r == operand_poly::strided_value(point@, 0, 1, point@.len() as int),
{
    let n: usize = point.len();
    operand_poly::strided_eval(point, 0, 1, n)
}

/// The element of a wide unsigned integer.
fn wide_element<F: Field>(n: u128) -> (r: F)
    ensures
        r == F::of_int(n as int),
{
    let place: u128 = 0x1_0000_0000_0000_0000;
    let high: u128 = n / place;
    let low: u128 = n % place;
    proof {
        F::law_of_int_times(high as int, place as int);
        F::law_of_int_plus(high * place, low as int);
    }
    F::from_u64(high as u64).mul(F::from_i128(0x1_0000_0000_0000_0000)).add(
        F::from_u64(low as u64),
    )
}

fn copy_list<T: Copy>(xs: &[T]) -> (r: Vec<T>)
    ensures
        r@ == xs@,
{
    let mut out: Vec<T> = Vec::new();
    for i in 0..xs.len()
        invariant
            out@ == xs@.take(i as int),
    {
        out.push(xs[i]);
        assert(out@ =~= xs@.take(i + 1));
    }
    assert(out@ =~= xs@);
    out
}

fn copy_lists(xs: &Vec<Vec<u32>>) -> (r: Vec<Vec<u32>>)
    ensures
        poly::contents(r@) == poly::contents(xs@),
{
    let mut out: Vec<Vec<u32>> = Vec::new();
    for i in 0..xs.len()
        invariant
            poly::contents(out@) == poly::contents(xs@).take(i as int),
    {
        let ghost before = out@;
        let list: Vec<u32> = copy_list(&xs[i]);
        out.push(list);
        assert(poly::contents(out@) =~= poly::contents(before).push(list@));
        assert(poly::contents(xs@).take(i + 1) =~= poly::contents(xs@).take(i as int).push(
            xs@[i as int]@,
        ));
    }
    assert(poly::contents(out@) =~= poly::contents(xs@));
    out
}

/// The trace as mathematical values.
pub open spec fn model_of<F: Field>(
    trace: InstructionTrace<'_>,
    r_reduction: Seq<F>,
    gamma: F,
    chunk_bits: nat,
) -> CycleModel<F> {
    CycleModel {
        gamma,
        r_reduction,
        lookups: trace.lookup_indices@,
        tables: trace.lookup_table_indices@,
        interleaved: trace.is_interleaved@,
        indices: poly::contents(trace.indices@),
        chunk_bits,
    }
}

/// The groups of the lookups of a trace.
pub open spec fn model_groups<F: Field>(m: CycleModel<F>) -> Seq<lookup_groups::LookupGroup<F>> {
    let ks = lookup_groups::keys(m.lookups, m.tables, m.interleaved);
    lookup_groups::groups(ks, poly::eq_table(m.r_reduction), ks.len() as int)
}

/// The phase machine of the lookups of a trace, before its first phase.
pub open spec fn machine<F: Field>(m: CycleModel<F>, prefix_checkpoints: Seq<F>) -> PhaseState<F> {
    PhaseState {
        gamma: m.gamma,
        scale: F::of_int(1),
        log_k: m.log_k(),
        challenges: Seq::empty(),
        groups: model_groups(m),
        checkpoints: Checkpoints {
            left: F::of_int(0),
            right: F::of_int(0),
            identity: F::of_int(0),
        },
        prefix_checkpoints,
        chunk: None,
    }
}

/// The check as mathematical values: what it is about, the address phase, and the cycle phase once
/// the address bits are bound.
#[verifier::reject_recursive_types(F)]
pub struct CheckState<F> {
    pub model: CycleModel<F>,
    pub address: PhaseState<F>,
    pub cycle: Option<SumTable<F>>,
}

impl<F: Field> CheckState<F> {
    /// The state of a round: in the address phase a chunk is open, in the cycle phase the columns
    /// have one variable per remaining round.
    pub open spec fn ready(self, round: int) -> bool {
        let log_k = self.model.log_k();
        let log_t = self.model.r_reduction.len();
        if round < log_k {
            self.address.chunk is Some && self.address.challenges.len() == round
        } else {
            &&& round < log_k + log_t
            &&& self.cycle is Some
            &&& self.cycle->0.shaped((log_t - (round - log_k)) as nat)
        }
    }

    /// The message of a round under a claim.
    pub open spec fn message(self, round: int, claim: F) -> Seq<F> {
        if round < self.model.log_k() {
            self.address.message(claim)
        } else {
            self.cycle->0.message()
        }
    }

    /// The check after the challenge of a round.
    pub open spec fn bind(self, x: F, round: int) -> CheckState<F> {
        if round < self.model.log_k() {
            CheckState { address: self.address.bind(x), ..self }
        } else {
            CheckState { cycle: Some(self.cycle->0.bind(x)), ..self }
        }
    }

    /// The check with the next chunk of the address phase open.
    pub open spec fn begun(
        self,
        prefixes: Seq<Seq<F>>,
        suffixes: Seq<Seq<u64>>,
        shapes: Seq<address_phase::ShapeModel<F>>,
    ) -> CheckState<F> {
        CheckState {
            address: self.address.opened(self.address.inputs(prefixes, suffixes, shapes).sum()),
            ..self
        }
    }

    /// The check with the cycle phase started, given the values of the tables at the address point.
    pub open spec fn materialized(self, values: Seq<F>) -> CheckState<F> {
        CheckState {
            cycle: Some(self.model.cycle_table(self.address.challenges, values)),
            ..self
        }
    }
}

/// The check of a trace before its first round.
pub open spec fn start<F: Field>(m: CycleModel<F>, prefix_checkpoints: Seq<F>) -> CheckState<F> {
    CheckState { model: m, address: machine(m, prefix_checkpoints), cycle: None }
}

impl<F: Field> InstructionReadRaf<F> {
    /// The state of the check.
    pub open spec fn state(self) -> CheckState<F> {
        CheckState {
            model: self@,
            address: self.address@,
            cycle: match self.cycle {
                Some(sum) => Some(sum@),
                None => None,
            },
        }
    }

    /// The check is well formed, and the address phase is that of its lookups.
    pub open spec fn wf(self) -> bool {
        &&& self@.sized()
        &&& self.address.wf()
        &&& self.address@.log_k == self@.log_k()
    }

    /// The prover's check over a trace, at a reduction point and with a batching challenge, over
    /// words of `xlen` bits.
    pub fn new_prover(
        trace: &InstructionTrace<'_>,
        r_reduction: Vec<F>,
        gamma: F,
        xlen: usize,
        chunk_bits: usize,
        read_prefix_checkpoints: Vec<F>,
    ) -> (r: Self)
        requires
            model_of(*trace, r_reduction@, gamma, chunk_bits as nat).sized(),
            model_of(*trace, r_reduction@, gamma, chunk_bits as nat).log_k() == 2 * xlen,
        ensures
            r.wf(),
            r.state() == start(
                model_of(*trace, r_reduction@, gamma, chunk_bits as nat),
                read_prefix_checkpoints@,
            ),
    {
        let ghost m = model_of(*trace, r_reduction@, gamma, chunk_bits as nat);
        let u_evals: Vec<F> = poly::eq_evals(&r_reduction);
        assert forall|j: int|
            0 <= j < trace.lookup_indices@.len() && #[trigger] trace.lookup_table_indices@[j] is Some
            implies trace.lookup_table_indices@[j]->0 < NUM_LOOKUP_TABLES by {
            assert(m.tables[j] is Some);
        }
        let (groups, _by_cycle, groups_by_table) = lookup_groups::lookup_groups_from_trace(
            trace.lookup_indices,
            trace.lookup_table_indices,
            trace.is_interleaved,
            &u_evals,
        );
        let address: InstructionAddressPhase<F> = InstructionAddressPhase::new(
            xlen,
            groups,
            groups_by_table,
            gamma,
            field::one(),
            read_prefix_checkpoints,
        );
        let r: InstructionReadRaf<F> = InstructionReadRaf {
            address,
            gamma,
            r_reduction,
            lookup_indices: copy_list(trace.lookup_indices),
            lookup_table_indices: copy_list(trace.lookup_table_indices),
            is_interleaved: copy_list(trace.is_interleaved),
            indices: copy_lists(trace.indices),
            chunk_bits,
            cycle: None,
        };
        assert(r@ =~= m);
        r
    }

    /// One round per index bit and cycle variable.
    pub fn num_rounds(&self) -> (r: usize)
        requires
            self.wf(),
        ensures
            r == self@.log_k() + self.r_reduction@.len(),
    {
        proof {
            lemma_rounds_fit(self.r_reduction@.len());
        }
        self.address.log_k + self.r_reduction.len()
    }

    /// One more than the number of chunks.
    pub fn degree(&self) -> (r: usize)
        requires
            self.wf(),
        ensures
            r == self@.indices.len() + 1,
    {
        self.indices.len() + 1
    }

    /// The address point, the most significant bit first.
    pub fn r_addr(&self) -> (r: Vec<F>)
        ensures
            r@ == self.address@.challenges,
    {
        poly::copied(self.address.address_challenges())
    }

    /// The value of a cycle, given the values of the tables and of the operands and the index.
    fn cycle_value(
        &self,
        table_vals: &Vec<F>,
        raf: (F, F),
        cycle: usize,
        Ghost(r): Ghost<Seq<F>>,
    ) -> (v: F)
        requires
            self@.sized(),
            table_vals@.len() == NUM_LOOKUP_TABLES,
            cycle < pow2(self.r_reduction@.len()),
            raf.0 == address_reduction::raf_at_point(self.gamma, r, true),
            raf.1 == address_reduction::raf_at_point(self.gamma, r, false),
        ensures
            v == self@.value(r, table_vals@, cycle as int),
    {
        assert(self@.tables[cycle as int] is Some ==> self@.tables[cycle as int]->0
            < NUM_LOOKUP_TABLES);
        let read: F = match self.lookup_table_indices[cycle] {
            Some(t) => table_vals[t],
            None => field::zero(),
        };
        let rest: F = if self.is_interleaved[cycle] {
            raf.0
        } else {
            raf.1
        };
        read.add(rest)
    }

    /// The combined operands and the index at an address point.
    fn raf_values_at(&self, r_addr: &Vec<F>) -> (v: (F, F))
        requires
            r_addr@.len() % 2 == 0,
        ensures
            v.0 == address_reduction::raf_at_point(self.gamma, r_addr@, true),
            v.1 == address_reduction::raf_at_point(self.gamma, r_addr@, false),
    {
        let g2: F = self.gamma.mul(self.gamma);
        let interleaved: F = self.gamma.mul(operand_polynomial_eval(r_addr, true)).add(
            g2.mul(operand_polynomial_eval(r_addr, false)),
        );
        let identity: F = g2.mul(identity_polynomial_eval(r_addr));
        (interleaved, identity)
    }

    /// A chunk column at an address point.
    fn chunk_evals(&self, r_addr: &Vec<F>, i: usize) -> (v: Vec<F>)
        requires
            self@.sized(),
            i < self.indices@.len(),
            r_addr@.len() == self@.log_k(),
        ensures
            v@ == self@.chunk_column(r_addr@, i as int),
    {
        let ghost m = self@;
        let cb: usize = self.chunk_bits;
        let d: usize = self.indices.len();
        proof {
            poly::lemma_row_bound(i as int, d as int, cb as int);
            vstd::arithmetic::power2::lemma2_to64();
            assert((i + 1) * cb == i * cb + cb) by (nonlinear_arith);
        }
        let from: usize = i * cb;
        let to: usize = from + cb;
        let digit: Vec<F> = poly::range(r_addr, from, to);
        assert(digit@ =~= m.digit(r_addr@, i as int));
        let eq: Vec<F> = poly::eq_evals(&digit);
        let ghost whole = m.chunk_column(r_addr@, i as int);
        assert(m.indices[i as int] == self.indices@[i as int]@);
        let len: usize = self.indices[i].len();
        let mut out: Vec<F> = Vec::new();
        for j in 0..len
            invariant
                m == self@,
                m.sized(),
                i < m.indices.len(),
                m.indices[i as int] == self.indices@[i as int]@,
                len == pow2(m.r_reduction.len()),
                len == self.indices@[i as int]@.len(),
                eq@ == poly::eq_table(digit@),
                digit@ == m.digit(r_addr@, i as int),
                digit@.len() == m.chunk_bits,
                whole == m.chunk_column(r_addr@, i as int),
                out@ == whole.take(j as int),
        {
            assert(m.indices[i as int][j as int] < pow2(m.chunk_bits));
            let index: usize = self.indices[i][j] as usize;
            out.push(eq[index]);
            assert(out@ =~= whole.take(j + 1));
        }
        assert(out@ =~= whole);
        out
    }

    /// Hand over from the address to the cycle phase, given the values of the tables at the address
    /// point.
    pub fn materialize_cycle(&mut self, table_vals: &Vec<F>)
        requires
            old(self).wf(),
            old(self).address@.challenges.len() == old(self)@.log_k(),
            table_vals@.len() == NUM_LOOKUP_TABLES,
        ensures
            final(self).wf(),
            final(self).state() == old(self).state().materialized(table_vals@),
    {
        let ghost m = self@;
        let r_addr: Vec<F> = self.r_addr();
        let ghost target = m.cycle_table(r_addr@, table_vals@);
        let d: usize = self.indices.len();
        let mut columns: Vec<MultilinearPolynomial<F>> = Vec::new();
        assert(columns@.map_values(|p: MultilinearPolynomial<F>| p@) =~= target.columns.take(0));
        for i in 0..d
            invariant
                m == self@,
                m.sized(),
                d == self.indices@.len(),
                r_addr@.len() == m.log_k(),
                target == m.cycle_table(r_addr@, table_vals@),
                columns@.map_values(|p: MultilinearPolynomial<F>| p@) == target.columns.take(
                    i as int,
                ),
        {
            let ghost before = columns@.map_values(|p: MultilinearPolynomial<F>| p@);
            let column: Vec<F> = self.chunk_evals(&r_addr, i);
            columns.push(MultilinearPolynomial::new(column));
            assert(columns@.map_values(|p: MultilinearPolynomial<F>| p@) =~= before.push(column@));
            assert(before.push(target.columns[i as int]) =~= target.columns.take(i + 1));
        }
        let raf: (F, F) = self.raf_values_at(&r_addr);
        let eq_red: Vec<F> = poly::eq_evals(&self.r_reduction);
        let t: usize = eq_red.len();
        let ghost whole = m.value_column(r_addr@, table_vals@);
        let mut values: Vec<F> = Vec::new();
        for j in 0..t
            invariant
                m == self@,
                m.sized(),
                t == pow2(m.r_reduction.len()),
                eq_red@ == poly::eq_table(m.r_reduction),
                table_vals@.len() == NUM_LOOKUP_TABLES,
                raf.0 == address_reduction::raf_at_point(self.gamma, r_addr@, true),
                raf.1 == address_reduction::raf_at_point(self.gamma, r_addr@, false),
                whole == m.value_column(r_addr@, table_vals@),
                values@ == whole.take(j as int),
        {
            let v: F = self.cycle_value(table_vals, raf, j, Ghost(r_addr@));
            values.push(eq_red[j].mul(v));
            assert(values@ =~= whole.take(j + 1));
        }
        assert(values@ =~= whole);
        let ghost before = columns@.map_values(|p: MultilinearPolynomial<F>| p@);
        columns.push(MultilinearPolynomial::new(values));
        assert(columns@.map_values(|p: MultilinearPolynomial<F>| p@) =~= before.push(values@));
        assert(before.push(values@) =~= target.columns);
        self.cycle = Some(VirtualSum::new(columns, formula::columns_product(d)));
    }

    /// The honest claim, given the table entry that every cycle reads.
    pub fn input_claim(&self, entries: &Vec<u64>) -> (r: F)
        requires
            self.wf(),
            entries@.len() == pow2(self.r_reduction@.len()),
            forall|j: int|
                0 <= j < self@.lookups.len() ==> #[trigger] self@.lookups[j] < pow2(self@.log_k()),
        ensures
            r == self@.input(entries@),
    {
        let ghost m = self@;
        let eq_red: Vec<F> = poly::eq_evals(&self.r_reduction);
        let t: usize = eq_red.len();
        let g2: F = self.gamma.mul(self.gamma);
        let ghost f = |j: int|
            poly::eq_weight(m.r_reduction, j).times(
                flagged_entry::<F>(m.tables[j], entries@[j]).plus(
                    address_reduction::raf_of_index(
                        m.gamma,
                        m.lookups[j] as int,
                        m.interleaved[j],
                        m.log_k(),
                    ),
                ),
            );
        let mut out: F = field::zero();
        for j in 0..t
            invariant
                m == self@,
                m.sized(),
                t == pow2(m.r_reduction.len()),
                t == entries@.len(),
                eq_red@ == poly::eq_table(m.r_reduction),
                g2 == m.gamma.times(m.gamma),
                forall|j: int|
                    0 <= j < m.lookups.len() ==> #[trigger] m.lookups[j] < pow2(m.log_k()),
                f == (|j: int|
                    poly::eq_weight(m.r_reduction, j).times(
                        flagged_entry::<F>(m.tables[j], entries@[j]).plus(
                            address_reduction::raf_of_index(
                                m.gamma,
                                m.lookups[j] as int,
                                m.interleaved[j],
                                m.log_k(),
                            ),
                        ),
                    )),
                out == sums::sum(j as int, f),
        {
            let index: u128 = self.lookup_indices[j];
            assert(m.lookups[j as int] == index);
            let read: F = match self.lookup_table_indices[j] {
                Some(_) => F::from_u64(entries[j]),
                None => field::zero(),
            };
            let raf: F = if self.is_interleaved[j] {
                let (left, right) = index_bits::uninterleave_bits(index);
                proof {
                    address_phase::lemma_operand_below(index as int, m.log_k());
                }
                self.gamma.mul(F::from_u64(left)).add(g2.mul(F::from_u64(right)))
            } else {
                g2.mul(wide_element(index))
            };
            out = out.add(eq_red[j].mul(read.add(raf)));
        }
        out
    }

    /// Open the next chunk of the address phase with the values of the lookup tables.
    pub fn begin_phase(&mut self, reads: PhaseReads<F>, tables: &Vec<TableShape<F>>)
        requires
            old(self).wf(),
            old(self).address@.chunk is None,
            old(self).address@.challenges.len() < old(self)@.log_k(),
            reads.prefix_polys@.len() == old(self).address@.prefix_checkpoints.len(),
            old(self).address@.inputs(
                poly::contents(reads.prefix_polys@),
                poly::contents(reads.suffix_values@),
                address_phase::shapes(tables@),
            ).wf(),
        ensures
            final(self).wf(),
            final(self).state() == old(self).state().begun(
                poly::contents(reads.prefix_polys@),
                poly::contents(reads.suffix_values@),
                address_phase::shapes(tables@),
            ),
    {
        self.address.begin_phase(reads, tables);
    }

    /// The message of a round.
    pub fn compute_message(&self, round: usize, previous_claim: F) -> (r: UnivariatePoly<F>)
        requires
            self.wf(),
            self.state().ready(round as int),
        ensures
            r@ == self.state().message(round as int, previous_claim),
    {
        if round < self.address.log_k {
            self.address.round_poly(previous_claim)
        } else {
            let left: usize = self.r_reduction.len() - (round - self.address.log_k);
            match &self.cycle {
                Some(sum) => sum.compute_message(left),
                None => UnivariatePoly::new(Vec::new()),
            }
        }
    }

    /// Bind the variable of a round.
    pub fn bind(&mut self, r: F, round: usize)
        requires
            old(self).wf(),
            old(self).state().ready(round as int),
        ensures
            final(self).wf(),
            final(self).state() == old(self).state().bind(r, round as int),
    {
        if round < self.address.log_k {
            self.address.bind(r);
        } else {
            let mut taken: Option<VirtualSum<F>> = None;
            std::mem::swap(&mut taken, &mut self.cycle);
            match taken {
                Some(mut sum) => {
                    proof {
                        let n = (self.r_reduction@.len() - (round - self@.log_k())) as nat;
                        poly::lemma_pow2_step(n);
                    }
                    sum.bind(r);
                    self.cycle = Some(sum);
                },
                None => {},
            }
        }
    }

    /// The flags of the tables and of the identity at a cycle point.
    fn flag_values(&self, r_cycle: &Vec<F>) -> (r: (Vec<F>, F))
        requires
            self@.sized(),
            r_cycle@.len() == self.r_reduction@.len(),
        ensures
            r.0@ == Seq::new(NUM_LOOKUP_TABLES as nat, |t: int| self@.table_flag(r_cycle@, t)),
            r.1 == self@.identity_flag(r_cycle@),
    {
        let ghost m = self@;
        let ghost rc = r_cycle@;
        let eq_cycle: Vec<F> = poly::eq_evals(r_cycle);
        let eq_red: Vec<F> = poly::eq_evals(&self.r_reduction);
        let n: usize = eq_red.len();
        let mut flags: Vec<F> = poly::zeros(NUM_LOOKUP_TABLES);
        let mut identity: F = field::zero();
        proof {
            assert forall|t: int| 0 <= t < NUM_LOOKUP_TABLES implies #[trigger] flags@[t]
                == sums::sum(0, |j: int| m.table_flag_term(rc, t, j)) by {}
        }
        for j in 0..n
            invariant
                m == self@,
                m.sized(),
                rc == r_cycle@,
                n == pow2(m.r_reduction.len()),
                rc.len() == m.r_reduction.len(),
                eq_cycle@ == poly::eq_table(rc),
                eq_red@ == poly::eq_table(m.r_reduction),
                flags@.len() == NUM_LOOKUP_TABLES,
                forall|t: int|
                    0 <= t < NUM_LOOKUP_TABLES ==> #[trigger] flags@[t] == sums::sum(
                        j as int,
                        |j: int| m.table_flag_term(rc, t, j),
                    ),
                identity == sums::sum(j as int, |j: int| m.identity_flag_term(rc, j)),
        {
            let weight: F = eq_cycle[j].mul(eq_red[j]);
            let ghost before = flags@;
            assert(m.tables[j as int] is Some ==> m.tables[j as int]->0 < NUM_LOOKUP_TABLES);
            match self.lookup_table_indices[j] {
                Some(t) => {
                    let next: F = flags[t].add(weight);
                    flags.set(t, next);
                },
                None => {},
            }
            proof {
                assert forall|t: int| 0 <= t < NUM_LOOKUP_TABLES implies #[trigger] flags@[t]
                    == sums::sum(j + 1, |j: int| m.table_flag_term(rc, t, j)) by {
                    let f = |j: int| m.table_flag_term(rc, t, j);
                    assert(before[t] == sums::sum(j as int, f));
                    sums::lemma_sum_valid(j as int, f);
                    F::law_plus_zero(sums::sum(j as int, f));
                }
                let h = |j: int| m.identity_flag_term(rc, j);
                sums::lemma_sum_valid(j as int, h);
                F::law_plus_zero(sums::sum(j as int, h));
            }
            if !self.is_interleaved[j] {
                identity = identity.add(weight);
            }
        }
        assert(flags@ =~= Seq::new(NUM_LOOKUP_TABLES as nat, |t: int| m.table_flag(rc, t)));
        (flags, identity)
    }

    /// Record the openings of the chunk columns, the flags of the tables and that of the identity.
    pub fn cache_openings(&self, accumulator: &mut Openings<F>, challenges: &[F])
        requires
            self.wf(),
            challenges@.len() == self@.log_k() + self.r_reduction@.len(),
            self.cycle is Some,
            self.cycle->0@.columns.len() > self@.indices.len(),
            forall|c: int|
                0 <= c < self@.indices.len() ==> (#[trigger] self.cycle->0@.columns[c]).len() > 0,
        ensures
            final(accumulator)@ == cached(
                self@,
                old(accumulator)@,
                challenges@,
                self.cycle->0@.columns.map_values(|p: Seq<F>| p[0]),
            ),
            final(accumulator).log_t == old(accumulator).log_t,
    {
        let ghost m = self@;
        let ghost acc0 = accumulator@;
        let ghost xs = challenges@;
        let d: usize = self.indices.len();
        let cb: usize = self.chunk_bits;
        let log_k: usize = self.address.log_k;
        let len: usize = challenges.len();
        let r_addr: Vec<F> = poly::range(challenges, 0, log_k);
        let tail: Vec<F> = poly::range(challenges, log_k, len);
        let r_cycle: Vec<F> = poly::reversed(&tail);
        assert(r_addr@ =~= address_part(m, xs));
        assert(tail@ =~= xs.skip(log_k as int));
        assert(r_cycle@ =~= cycle_part(m, xs));
        let ghost v = self.cycle->0@.columns.map_values(|p: Seq<F>| p[0]);
        for i in 0..d
            invariant
                m == self@,
                m.sized(),
                d == m.indices.len(),
                d == self.indices@.len(),
                cb == m.chunk_bits,
                log_k == m.log_k(),
                r_addr@ == address_part(m, xs),
                r_addr@.len() == log_k,
                r_cycle@ == cycle_part(m, xs),
                self.cycle is Some,
                self.cycle->0@.columns.len() > d,
                forall|c: int| 0 <= c < d ==> (#[trigger] self.cycle->0@.columns[c]).len() > 0,
                v == self.cycle->0@.columns.map_values(|p: Seq<F>| p[0]),
                accumulator.log_t == old(accumulator).log_t,
                accumulator@ == cached_chunks(m, acc0, xs, v, i as int),
        {
            proof {
                poly::lemma_row_bound(i as int, d as int, cb as int);
                assert((i + 1) * cb == i * cb + cb) by (nonlinear_arith);
                assert(self.cycle->0@.columns[i as int].len() > 0);
            }
            let from: usize = i * cb;
            let digit: Vec<F> = poly::range(&r_addr, from, from + cb);
            assert(digit@ =~= m.digit(r_addr@, i as int));
            let point: Vec<F> = poly::concat(&digit, &r_cycle);
            let claim: F = match &self.cycle {
                Some(sum) => sum.bound_value(i),
                None => field::zero(),
            };
            accumulator.append_dense(
                CommittedPolynomial::InstructionRa(i),
                SumcheckId::InstructionReadRaf,
                point,
                claim,
            );
        }
        let ghost acc1 = accumulator@;
        let (flags, identity) = self.flag_values(&r_cycle);
        for t in 0..NUM_LOOKUP_TABLES
            invariant
                m == self@,
                r_cycle@ == cycle_part(m, xs),
                flags@ == Seq::new(
                    NUM_LOOKUP_TABLES as nat,
                    |t: int| m.table_flag(cycle_part(m, xs), t),
                ),
                accumulator.log_t == old(accumulator).log_t,
                accumulator@ == cached_flags(m, acc1, xs, t as int),
        {
            accumulator.append_virtual(
                VirtualPolynomial::LookupTableFlag(t),
                SumcheckId::InstructionReadRaf,
                poly::copied(&r_cycle),
                flags[t],
            );
        }
        accumulator.append_virtual(
            VirtualPolynomial::InstructionRafFlag,
            SumcheckId::InstructionReadRaf,
            r_cycle,
            identity,
        );
    }

    /// The claim the recorded openings must satisfy, given the values of the tables at the address
    /// point.
    pub fn expected_output_claim(
        &self,
        accumulator: &Openings<F>,
        challenges: &[F],
        table_vals: &Vec<F>,
    ) -> (r: F)
        requires
            self.wf(),
            challenges@.len() == self@.log_k() + self.r_reduction@.len(),
            table_vals@.len() == NUM_LOOKUP_TABLES,
            forall|i: int|
                0 <= i < self@.indices.len() ==> accumulator@.contains_key(#[trigger] ra_id(i)),
            forall|t: int|
                0 <= t < NUM_LOOKUP_TABLES ==> accumulator@.contains_key(#[trigger] flag_id(t)),
            accumulator@.contains_key(raf_flag_id()),
        ensures
            r == output(self@, accumulator@, challenges@, table_vals@),
    {
        let ghost m = self@;
        let ghost xs = challenges@;
        let d: usize = self.indices.len();
        let log_k: usize = self.address.log_k;
        let len: usize = challenges.len();
        let r_addr: Vec<F> = poly::range(challenges, 0, log_k);
        let tail: Vec<F> = poly::range(challenges, log_k, len);
        let r_cycle: Vec<F> = poly::reversed(&tail);
        assert(r_addr@ =~= address_part(m, xs));
        assert(tail@ =~= xs.skip(log_k as int));
        assert(r_cycle@ =~= cycle_part(m, xs));
        let mut ra_prod: F = field::one();
        let ghost f = |i: int| accumulator@[ra_id(i)].1;
        for i in 0..d
            invariant
                d == m.indices.len(),
                f == (|i: int| accumulator@[ra_id(i)].1),
                forall|i: int| 0 <= i < d ==> accumulator@.contains_key(#[trigger] ra_id(i)),
                ra_prod == sums::product(i as int, f),
        {
            assert(accumulator@.contains_key(ra_id(i as int)));
            let ra: F = accumulator.committed_claim(
                CommittedPolynomial::InstructionRa(i),
                SumcheckId::InstructionReadRaf,
            );
            ra_prod = ra_prod.mul(ra);
        }
        let mut read: F = field::zero();
        let ghost h = |t: int| accumulator@[flag_id(t)].1.times(table_vals@[t]);
        for t in 0..NUM_LOOKUP_TABLES
            invariant
                table_vals@.len() == NUM_LOOKUP_TABLES,
                h == (|t: int| accumulator@[flag_id(t)].1.times(table_vals@[t])),
                forall|t: int|
                    0 <= t < NUM_LOOKUP_TABLES ==> accumulator@.contains_key(#[trigger] flag_id(t)),
                read == sums::sum(t as int, h),
        {
            assert(accumulator@.contains_key(flag_id(t as int)));
            let flag: F = accumulator.virtual_claim(
                VirtualPolynomial::LookupTableFlag(t),
                SumcheckId::InstructionReadRaf,
            );
            read = read.add(flag.mul(table_vals[t]));
        }
        let identity_flag: F = accumulator.virtual_claim(
            VirtualPolynomial::InstructionRafFlag,
            SumcheckId::InstructionReadRaf,
        );
        let total_flag: F = poly::eq_at(&self.r_reduction, &r_cycle);
        let (interleaved, identity) = self.raf_values_at(&r_addr);
        let raf: F = total_flag.sub(identity_flag).mul(interleaved).add(
            identity_flag.mul(identity),
        );
        ra_prod.mul(read.add(raf))
    }
}

/// The chunks of every cycle spell its lookup index.
pub open spec fn spelled<F: Field>(m: CycleModel<F>) -> bool {
    forall|i: int, j: int|
        0 <= i < m.indices.len() && 0 <= j < m.lookups.len() ==> #[trigger] m.indices[i][j] == (
        m.lookups[j] as int / (pow2((m.log_k() - (i + 1) * m.chunk_bits) as nat) as int)) % (pow2(
            m.chunk_bits,
        ) as int)
}

/// The leading chunks select the leading bits of the index.
proof fn lemma_selected<F: Field>(m: CycleModel<F>, r: Seq<F>, j: int, n: int)
    requires
        m.sized(),
        spelled(m),
        r.len() == m.log_k(),
        0 <= j < m.lookups.len(),
        m.lookups[j] < pow2(m.log_k()),
        0 <= n <= m.indices.len(),
    ensures
        0 <= n * m.chunk_bits <= m.log_k(),
        sums::product(
            n,
            |i: int| poly::eq_weight(m.digit(r, i), m.indices[i][j] as int),
        ) == poly::eq_weight(
            r.take(n * m.chunk_bits),
            m.lookups[j] as int / (pow2((m.log_k() - n * m.chunk_bits) as nat) as int),
        ),
    decreases n,
{
    let cb = m.chunk_bits as int;
    let d = m.indices.len() as int;
    let f = |i: int| poly::eq_weight(m.digit(r, i), m.indices[i][j] as int);
    let x = m.lookups[j] as int;
    assert(0 <= n * cb <= d * cb) by (nonlinear_arith)
        requires
            0 <= n <= d,
            cb >= 0,
    ;
    if n == 0 {
        assert(n * cb == 0) by (nonlinear_arith)
            requires
                n == 0,
        ;
        assert(r.take(n * cb).len() == 0);
        assert(sums::product(0, f) == F::of_int(1));
    } else {
        lemma_selected(m, r, j, n - 1);
        assert(n * cb == (n - 1) * cb + cb) by (nonlinear_arith);
        let before = r.take((n - 1) * cb);
        let digit = m.digit(r, n - 1);
        assert(before + digit =~= r.take(n * cb));
        let below = (m.log_k() - n * cb) as nat;
        let dim = pow2(m.chunk_bits) as int;
        vstd::arithmetic::power2::lemma_pow2_pos(below);
        vstd::arithmetic::power2::lemma_pow2_pos(m.chunk_bits);
        poly::lemma_pow2_concat(below, m.chunk_bits);
        vstd::arithmetic::div_mod::lemma_div_denominator(x, pow2(below) as int, dim);
        let y = x / (pow2(below) as int);
        let high = y / dim;
        assert(below + m.chunk_bits == (m.log_k() - (n - 1) * cb) as nat);
        assert(high == x / (pow2(below + m.chunk_bits) as int));
        vstd::arithmetic::div_mod::lemma_fundamental_div_mod(y, dim);
        vstd::arithmetic::div_mod::lemma_mod_bound(y, dim);
        assert(m.indices[n - 1][j] == y % dim);
        assert(high * dim == dim * high) by (nonlinear_arith);
        poly::lemma_eq_weight_concat(before, digit, high, y % dim);
        assert(high * dim + y % dim == y);
        assert(sums::product(n, f) == sums::product(n - 1, f).times(f(n - 1)));
    }
}

/// What a lookup reads, given the values of the tables.
pub open spec fn key_read<F: Field>(key: lookup_groups::LookupKey, values: Seq<F>) -> F {
    match key.1 {
        Some(t) => values[t as int],
        None => F::of_int(0),
    }
}

/// The cycle phase takes over where the address phase ends: the sum over the groups that the address
/// phase leaves is the sum of the cycle phase, if the chunks of every cycle spell its index.
pub proof fn law_hand_over<F: Field>(m: CycleModel<F>, r: Seq<F>, values: Seq<F>)
    requires
        m.sized(),
        spelled(m),
        r.len() == m.log_k(),
        forall|j: int|
            0 <= j < m.lookups.len() ==> #[trigger] m.lookups[j] < pow2(m.log_k()),
    ensures
        sums::sum(
            model_groups(m).len() as int,
            |g: int|
                model_groups(m)[g].u_eval_sum.times(
                    poly::eq_weight(r, model_groups(m)[g].lookup_index as int),
                ).times(
                    address_reduction::raf_at_point(
                        m.gamma,
                        r,
                        model_groups(m)[g].is_interleaved_operands,
                    ).plus(key_read(model_groups(m)[g].key(), values)),
                ),
        ) == m.cycle_table(r, values).total(),
{
    let gs = model_groups(m);
    let ks = lookup_groups::keys(m.lookups, m.tables, m.interleaved);
    let u = poly::eq_table(m.r_reduction);
    let n = ks.len() as int;
    let d = m.indices.len();
    let worth = |k: lookup_groups::LookupKey|
        poly::eq_weight(r, k.0 as int).times(
            address_reduction::raf_at_point(m.gamma, r, k.2).plus(key_read(k, values)),
        );
    lookup_groups::law_grouping(ks, u, worth);
    let left = |g: int|
        gs[g].u_eval_sum.times(poly::eq_weight(r, gs[g].lookup_index as int)).times(
            address_reduction::raf_at_point(m.gamma, r, gs[g].is_interleaved_operands).plus(
                key_read(gs[g].key(), values),
            ),
        );
    let grouped = |g: int| gs[g].u_eval_sum.times(worth(gs[g].key()));
    assert forall|g: int| 0 <= g < gs.len() implies #[trigger] left(g) == grouped(g) by {
        F::law_times_assoc(
            gs[g].u_eval_sum,
            poly::eq_weight(r, gs[g].lookup_index as int),
            address_reduction::raf_at_point(m.gamma, r, gs[g].is_interleaved_operands).plus(
                key_read(gs[g].key(), values),
            ),
        );
    }
    sums::lemma_sum_ext(gs.len() as int, left, grouped);
    let tab = m.cycle_table(r, values);
    let cycles = |j: int| u[j].times(worth(ks[j]));
    let rows = |j: int| tab.formula.value(tab.row(j));
    assert forall|j: int| 0 <= j < n implies #[trigger] cycles(j) == rows(j) by {
        let row = tab.row(j);
        formula::lemma_column_product::<F>(d, row);
        lemma_selected(m, r, j, d as int);
        assert(r.take(m.log_k() as int) =~= r);
        poly::lemma_pow2_zero();
        let x = m.lookups[j] as int;
        assert(x / 1 == x);
        let f = |i: int| row[i];
        let h = |i: int| poly::eq_weight(m.digit(r, i), m.indices[i][j] as int);
        assert forall|i: int| 0 <= i < d implies #[trigger] f(i) == h(i) by {
            assert(tab.columns[i] == m.chunk_column(r, i));
        }
        sums::lemma_product_ext(d as int, f, h);
        sums::lemma_product_ext(d as int, |i: int| row[i], f);
        let e = poly::eq_weight(r, x);
        assert(sums::product(d as int, |i: int| row[i]) == e);
        assert(row[d as int] == m.value_column(r, values)[j]);
        let raf = address_reduction::raf_at_point(m.gamma, r, m.interleaved[j]);
        let read = m.read(values, j);
        F::law_plus_comm(raf, read);
        field::lemma_times_swap(u[j], e, read.plus(raf));
    }
    sums::lemma_sum_ext(n, cycles, rows);
    assert(tab.size() == n) by {
        assert(tab.columns[0] == m.chunk_column(r, 0));
    }
}

/// The sum over the groups that the address phase starts from is the claim, if `entry` is what a
/// lookup reads.
pub proof fn law_claim<F: Field>(
    m: CycleModel<F>,
    entries: Seq<u64>,
    entry: spec_fn(lookup_groups::LookupKey) -> F,
)
    requires
        m.sized(),
        forall|j: int|
            0 <= j < m.lookups.len() ==> flagged_entry::<F>(
                #[trigger] m.tables[j],
                entries[j],
            ) == entry((m.lookups[j], m.tables[j], m.interleaved[j])),
    ensures
        sums::sum(
            model_groups(m).len() as int,
            |g: int|
                model_groups(m)[g].u_eval_sum.times(
                    address_reduction::raf_of_index(
                        m.gamma,
                        model_groups(m)[g].lookup_index as int,
                        model_groups(m)[g].is_interleaved_operands,
                        m.log_k(),
                    ).plus(entry(model_groups(m)[g].key())),
                ),
        ) == m.input(entries),
{
    let gs = model_groups(m);
    let ks = lookup_groups::keys(m.lookups, m.tables, m.interleaved);
    let u = poly::eq_table(m.r_reduction);
    let n = ks.len() as int;
    let worth = |k: lookup_groups::LookupKey|
        address_reduction::raf_of_index(m.gamma, k.0 as int, k.2, m.log_k()).plus(entry(k));
    lookup_groups::law_grouping(ks, u, worth);
    let left = |g: int|
        gs[g].u_eval_sum.times(
            address_reduction::raf_of_index(
                m.gamma,
                gs[g].lookup_index as int,
                gs[g].is_interleaved_operands,
                m.log_k(),
            ).plus(entry(gs[g].key())),
        );
    sums::lemma_sum_ext(
        gs.len() as int,
        left,
        |g: int| gs[g].u_eval_sum.times(worth(gs[g].key())),
    );
    let cycles = |j: int| u[j].times(worth(ks[j]));
    let target = |j: int|
        poly::eq_weight(m.r_reduction, j).times(
            flagged_entry::<F>(m.tables[j], entries[j]).plus(
                address_reduction::raf_of_index(
                    m.gamma,
                    m.lookups[j] as int,
                    m.interleaved[j],
                    m.log_k(),
                ),
            ),
        );
    assert forall|j: int| 0 <= j < n implies #[trigger] cycles(j) == target(j) by {
        assert(flagged_entry::<F>(m.tables[j], entries[j]) == entry(ks[j]));
        F::law_plus_comm(
            flagged_entry::<F>(m.tables[j], entries[j]),
            address_reduction::raf_of_index(
                m.gamma,
                m.lookups[j] as int,
                m.interleaved[j],
                m.log_k(),
            ),
        );
    }
    sums::lemma_sum_ext(n, cycles, target);
}

/// What the flags of the tables make of the values of the tables is what the cycles read.
proof fn lemma_read_flags<F: Field>(m: CycleModel<F>, rc: Seq<F>, values: Seq<F>)
    requires
        m.sized(),
    ensures
        sums::sum(
            NUM_LOOKUP_TABLES as int,
            |t: int| m.table_flag(rc, t).times(values[t]),
        ) == sums::sum(
            pow2(m.r_reduction.len()) as int,
            |j: int| m.double_weight(rc, j).times(m.read(values, j)),
        ),
{
    let n = pow2(m.r_reduction.len()) as int;
    let k = NUM_LOOKUP_TABLES as int;
    let cell = |t: int, j: int| m.table_flag_term(rc, t, j).times(values[t]);
    let left = |t: int| m.table_flag(rc, t).times(values[t]);
    assert forall|t: int| 0 <= t < k implies #[trigger] left(t) == sums::sum(
        n,
        |j: int| cell(t, j),
    ) by {
        let f = |j: int| m.table_flag_term(rc, t, j);
        sums::lemma_sum_scale_right(n, f, values[t]);
        sums::lemma_sum_ext(n, |j: int| f(j).times(values[t]), |j: int| cell(t, j));
    }
    sums::lemma_sum_ext(k, left, |t: int| sums::sum(n, |j: int| cell(t, j)));
    sums::lemma_sum_swap(k, n, cell);
    let right = |j: int| m.double_weight(rc, j).times(m.read(values, j));
    assert forall|j: int| 0 <= j < n implies #[trigger] right(j) == sums::sum(
        k,
        |t: int| cell(t, j),
    ) by {
        let f = |t: int| cell(t, j);
        match m.tables[j] {
            Some(t0) => {
                assert forall|t: int| 0 <= t < k && t != t0 implies #[trigger] f(t)
                    == F::of_int(0) by {
                    field::lemma_zero_times(values[t]);
                }
                F::law_valid(m.double_weight(rc, j), values[t0 as int]);
                sums::lemma_sum_single(k, t0 as int, f);
            },
            None => {
                assert forall|t: int| 0 <= t < k implies #[trigger] f(t) == F::of_int(0) by {
                    field::lemma_zero_times(values[t]);
                }
                sums::lemma_sum_zero(k, f);
                field::lemma_zero_times(m.double_weight(rc, j));
            },
        }
        sums::lemma_sum_ext(k, f, |t: int| cell(t, j));
    }
    sums::lemma_sum_ext(n, right, |j: int| sums::sum(k, |i: int| cell(i, j)));
}

/// The weights of the cycles, split by whether the operands are interleaved.
proof fn lemma_raf_flags<F: Field>(m: CycleModel<F>, rc: Seq<F>, a: F, b: F)
    requires
        m.sized(),
        rc.len() == m.r_reduction.len(),
    ensures
        poly::eq_mle(m.r_reduction, rc).minus(m.identity_flag(rc)).times(a).plus(
            m.identity_flag(rc).times(b),
        ) == sums::sum(
            pow2(m.r_reduction.len()) as int,
            |j: int|
                m.double_weight(rc, j).times(
                    if m.interleaved[j] {
                        a
                    } else {
                        b
                    },
                ),
        ),
{
    let n = pow2(m.r_reduction.len()) as int;
    let w = |j: int| m.double_weight(rc, j);
    let yes = |j: int| sums::flagged(m.interleaved[j], m.double_weight(rc, j));
    let no = |j: int| m.identity_flag_term(rc, j);
    let both = |j: int| yes(j).plus(no(j));
    assert forall|j: int| 0 <= j < n implies #[trigger] w(j) == both(j) by {
        F::law_valid(poly::eq_weight(rc, j), poly::eq_weight(m.r_reduction, j));
        field::lemma_zero_plus(m.double_weight(rc, j));
    }
    sums::lemma_sum_ext(n, w, both);
    sums::lemma_sum_plus(n, yes, no);
    let sy = sums::sum(n, yes);
    let sn = sums::sum(n, no);
    sums::lemma_sum_valid(n, yes);
    F::law_plus_comm(sy, sn);
    field::lemma_plus_minus(sn, sy);
    poly::lemma_mle_eq_table(m.r_reduction, rc);
    let eqs = |j: int| poly::eq_table(m.r_reduction)[j].times(poly::eq_weight(rc, j));
    assert forall|j: int| 0 <= j < n implies #[trigger] eqs(j) == w(j) by {
        F::law_times_comm(poly::eq_weight(m.r_reduction, j), poly::eq_weight(rc, j));
    }
    sums::lemma_sum_ext(n, eqs, w);
    assert(poly::eq_mle(m.r_reduction, rc) == sy.plus(sn));
    sums::lemma_sum_scale_right(n, yes, a);
    sums::lemma_sum_scale_right(n, no, b);
    let ya = |j: int| yes(j).times(a);
    let nb = |j: int| no(j).times(b);
    let sum = |j: int| ya(j).plus(nb(j));
    sums::lemma_sum_plus(n, ya, nb);
    let target = |j: int|
        m.double_weight(rc, j).times(
            if m.interleaved[j] {
                a
            } else {
                b
            },
        );
    assert forall|j: int| 0 <= j < n implies #[trigger] target(j) == sum(j) by {
        let v = m.double_weight(rc, j);
        field::lemma_zero_times(a);
        field::lemma_zero_times(b);
        F::law_valid(v, a);
        F::law_valid(v, b);
        field::lemma_zero_plus(v.times(a));
        field::lemma_zero_plus(v.times(b));
    }
    sums::lemma_sum_ext(n, target, sum);
    sums::lemma_sum_ext(n, sum, |j: int| ya(j).plus(nb(j)));
    sums::lemma_sum_ext(
        n,
        target,
        |j: int|
            m.double_weight(rc, j).times(
                if m.interleaved[j] {
                    a
                } else {
                    b
                },
            ),
    );
}

/// The extension of the value column, from the flags.
proof fn lemma_value_column<F: Field>(m: CycleModel<F>, r: Seq<F>, rc: Seq<F>, values: Seq<F>)
    requires
        m.sized(),
        rc.len() == m.r_reduction.len(),
    ensures
        poly::mle(m.value_column(r, values), rc) == sums::sum(
            NUM_LOOKUP_TABLES as int,
            |t: int| m.table_flag(rc, t).times(values[t]),
        ).plus(
            poly::eq_mle(m.r_reduction, rc).minus(m.identity_flag(rc)).times(
                address_reduction::raf_at_point(m.gamma, r, true),
            ).plus(
                m.identity_flag(rc).times(address_reduction::raf_at_point(m.gamma, r, false)),
            ),
        ),
{
    let n = pow2(m.r_reduction.len()) as int;
    let a = address_reduction::raf_at_point(m.gamma, r, true);
    let b = address_reduction::raf_at_point(m.gamma, r, false);
    let col = m.value_column(r, values);
    let f = |j: int| col[j].times(poly::eq_weight(rc, j));
    let read = |j: int| m.double_weight(rc, j).times(m.read(values, j));
    let raf = |j: int|
        m.double_weight(rc, j).times(
            if m.interleaved[j] {
                a
            } else {
                b
            },
        );
    let both = |j: int| read(j).plus(raf(j));
    assert forall|j: int| 0 <= j < n implies #[trigger] f(j) == both(j) by {
        let e = poly::eq_weight(m.r_reduction, j);
        let c = poly::eq_weight(rc, j);
        let v = m.value(r, values, j);
        F::law_times_comm(e.times(v), c);
        F::law_times_assoc(c, e, v);
        F::law_distrib(
            m.double_weight(rc, j),
            m.read(values, j),
            address_reduction::raf_at_point(m.gamma, r, m.interleaved[j]),
        );
    }
    sums::lemma_sum_ext(n, f, both);
    sums::lemma_sum_plus(n, read, raf);
    lemma_read_flags(m, rc, values);
    lemma_raf_flags(m, rc, a, b);
    sums::lemma_sum_ext(
        n,
        raf,
        |j: int|
            m.double_weight(rc, j).times(
                if m.interleaved[j] {
                    a
                } else {
                    b
                },
            ),
    );
}

proof fn lemma_cached_chunk<F: Field>(
    m: CycleModel<F>,
    acc: Claims<F>,
    xs: Seq<F>,
    v: Seq<F>,
    n: int,
    i: int,
)
    requires
        0 <= i < n <= usize::MAX,
    ensures
        cached_chunks(m, acc, xs, v, n).contains_key(ra_id(i)),
        cached_chunks(m, acc, xs, v, n)[ra_id(i)] == (
            m.digit(address_part(m, xs), i) + cycle_part(m, xs),
            v[i],
        ),
    decreases n,
{
    if i < n - 1 {
        lemma_cached_chunk(m, acc, xs, v, n - 1, i);
    }
}

proof fn lemma_cached_flag<F: Field>(m: CycleModel<F>, acc: Claims<F>, xs: Seq<F>, n: int)
    requires
        0 <= n <= NUM_LOOKUP_TABLES,
    ensures
        forall|t: int|
            0 <= t < n ==> cached_flags(m, acc, xs, n).contains_key(#[trigger] flag_id(t))
                && cached_flags(m, acc, xs, n)[flag_id(t)] == (
                cycle_part(m, xs),
                m.table_flag(cycle_part(m, xs), t),
            ),
        forall|i: int|
            cached_flags(m, acc, xs, n).contains_key(#[trigger] ra_id(i)) == acc.contains_key(
                ra_id(i),
            ) && cached_flags(m, acc, xs, n)[ra_id(i)] == acc[ra_id(i)],
    decreases n,
{
    if n > 0 {
        lemma_cached_flag(m, acc, xs, n - 1);
    }
}

/// The recorded openings: the chunk columns and the flags.
pub proof fn law_cached<F: Field>(m: CycleModel<F>, acc: Claims<F>, xs: Seq<F>, v: Seq<F>)
    requires
        m.sized(),
    ensures
        forall|i: int|
            0 <= i < m.indices.len() ==> cached(m, acc, xs, v).contains_key(#[trigger] ra_id(i))
                && cached(m, acc, xs, v)[ra_id(i)] == (
                m.digit(address_part(m, xs), i) + cycle_part(m, xs),
                v[i],
            ),
        forall|t: int|
            0 <= t < NUM_LOOKUP_TABLES ==> cached(m, acc, xs, v).contains_key(
                #[trigger] flag_id(t),
            ) && cached(m, acc, xs, v)[flag_id(t)] == (
                cycle_part(m, xs),
                m.table_flag(cycle_part(m, xs), t),
            ),
        cached(m, acc, xs, v).contains_key(raf_flag_id()),
        cached(m, acc, xs, v)[raf_flag_id()] == (
            cycle_part(m, xs),
            m.identity_flag(cycle_part(m, xs)),
        ),
{
    let d = m.indices.len() as int;
    let acc1 = cached_chunks(m, acc, xs, v, d);
    lemma_cached_flag(m, acc1, xs, NUM_LOOKUP_TABLES as int);
    assert forall|i: int| 0 <= i < d implies acc1.contains_key(#[trigger] ra_id(i))
        && acc1[ra_id(i)] == (m.digit(address_part(m, xs), i) + cycle_part(m, xs), v[i]) by {
        lemma_cached_chunk(m, acc, xs, v, d, i);
    }
}

/// The recorded openings satisfy the final claim: with the bound chunk columns recorded, the value of
/// the bound sum is the expected output.
pub proof fn law_output<F: Field>(m: CycleModel<F>, acc: Claims<F>, xs: Seq<F>, values: Seq<F>)
    requires
        m.sized(),
        xs.len() == m.log_k() + m.r_reduction.len(),
    ensures
        ({
            let tab = m.cycle_table(address_part(m, xs), values);
            let row = sumcheck::final_row(tab.columns, xs.skip(m.log_k() as int));
            tab.formula.value(row) == output(m, cached(m, acc, xs, row), xs, values)
        }),
{
    let r = address_part(m, xs);
    let rc = cycle_part(m, xs);
    let d = m.indices.len();
    let tab = m.cycle_table(r, values);
    let row = sumcheck::final_row(tab.columns, xs.skip(m.log_k() as int));
    let acc1 = cached(m, acc, xs, row);
    law_cached(m, acc, xs, row);
    formula::lemma_column_product::<F>(d, row);
    let f = |i: int| row[i];
    let h = |i: int| acc1[ra_id(i)].1;
    assert forall|i: int| 0 <= i < d implies #[trigger] f(i) == h(i) by {
        assert(acc1.contains_key(ra_id(i)));
    }
    sums::lemma_product_ext(d as int, f, h);
    sums::lemma_product_ext(d as int, |i: int| row[i], f);
    assert(tab.columns[d as int] == m.value_column(r, values));
    lemma_value_column(m, r, rc, values);
    let flags = |t: int| m.table_flag(rc, t).times(values[t]);
    let recorded = |t: int| acc1[flag_id(t)].1.times(values[t]);
    assert forall|t: int| 0 <= t < NUM_LOOKUP_TABLES implies #[trigger] flags(t) == recorded(t) by {
        assert(acc1.contains_key(flag_id(t)));
    }
    sums::lemma_sum_ext(NUM_LOOKUP_TABLES as int, flags, recorded);
}

/// The sum of the cycle phase has one variable per cycle bit.
proof fn lemma_cycle_shaped<F: Field>(m: CycleModel<F>, r: Seq<F>, values: Seq<F>)
    requires
        m.sized(),
    ensures
        m.cycle_table(r, values).shaped(m.r_reduction.len()),
        m.cycle_table(r, values).canonical(),
{
    let tab = m.cycle_table(r, values);
    let d = m.indices.len() as int;
    formula::lemma_column_product::<F>(m.indices.len(), tab.row(0));
    assert forall|c: int| 0 <= c < tab.columns.len() implies (#[trigger] tab.columns[c]).len()
        == pow2(m.r_reduction.len()) && field::all_valid(tab.columns[c]) by {
        if c < d {
            assert(tab.columns[c] == m.chunk_column(r, c));
            assert forall|j: int| 0 <= j < tab.columns[c].len() implies (
                #[trigger] tab.columns[c][j]
            ).valid() by {
                poly::lemma_eq_weight_valid(m.digit(r, c), m.indices[c][j] as int);
            }
        } else {
            assert(tab.columns[c] == m.value_column(r, values));
            assert forall|j: int| 0 <= j < tab.columns[c].len() implies (
                #[trigger] tab.columns[c][j]
            ).valid() by {
                F::law_valid(poly::eq_weight(m.r_reduction, j), m.value(r, values, j));
            }
        }
    }
}

/// The check has no seam: run from the honest claim, the address rounds leave the claim that the first
/// message of the cycle phase adds up to.
///
/// `entry` is what a lookup reads, `values` are the values of the tables at the address point.
pub proof fn law_no_seam<F: Field>(
    m: CycleModel<F>,
    prefix_checkpoints: Seq<F>,
    supplies: Seq<address_reduction::Supply<F>>,
    shapes: Seq<address_phase::ShapeModel<F>>,
    r: Seq<F>,
    entries: Seq<u64>,
    entry: spec_fn(lookup_groups::LookupKey) -> F,
    values: Seq<F>,
)
    requires
        m.sized(),
        spelled(m),
        m.r_reduction.len() > 0,
        address_reduction::supplied(machine(m, prefix_checkpoints), supplies, shapes, r),
        forall|j: int|
            0 <= j < m.lookups.len() ==> #[trigger] m.lookups[j] < pow2(m.log_k()),
        forall|j: int|
            0 <= j < m.lookups.len() ==> flagged_entry::<F>(
                #[trigger] m.tables[j],
                entries[j],
            ) == entry((m.lookups[j], m.tables[j], m.interleaved[j])),
        ({
            let s = machine(m, prefix_checkpoints);
            let last = supplies.len() - 1;
            &&& forall|g: int|
                0 <= g < s.groups.len() ==> address_reduction::read_value(
                    address_reduction::phase_inputs(s, supplies, shapes, r, 0),
                    None,
                    g,
                ) == entry((#[trigger] s.groups[g]).key())
            &&& forall|g: int|
                0 <= g < s.groups.len() ==> address_reduction::read_value(
                    address_reduction::phase_inputs(s, supplies, shapes, r, last),
                    Some(address_reduction::phase_point(r, last)),
                    g,
                ) == key_read((#[trigger] s.groups[g]).key(), values)
        }),
    ensures
        ({
            let claim = address_reduction::rounds(
                machine(m, prefix_checkpoints),
                supplies,
                shapes,
                r,
                m.input(entries),
                m.log_k() as int,
            ).1;
            let q = m.cycle_table(r, values).message();
            &&& claim == m.cycle_table(r, values).total()
            &&& univariate::eval(q, F::of_int(0)).plus(univariate::eval(q, F::of_int(1))) == claim
        }),
{
    let s = machine(m, prefix_checkpoints);
    let gs = s.groups;
    let n = gs.len() as int;
    lemma_fresh(m, prefix_checkpoints);
    let first = address_reduction::phase_inputs(s, supplies, shapes, r, 0);
    let last = address_reduction::phase_inputs(s, supplies, shapes, r, supplies.len() - 1);
    let point = address_reduction::phase_point(r, supplies.len() - 1);
    let start = |g: int|
        gs[g].u_eval_sum.times(
            address_reduction::raf_of_index(
                s.gamma,
                gs[g].lookup_index as int,
                gs[g].is_interleaved_operands,
                s.log_k,
            ).plus(address_reduction::read_value(first, None, g)),
        );
    let honest = |g: int|
        gs[g].u_eval_sum.times(
            address_reduction::raf_of_index(
                m.gamma,
                gs[g].lookup_index as int,
                gs[g].is_interleaved_operands,
                m.log_k(),
            ).plus(entry(gs[g].key())),
        );
    assert forall|g: int| 0 <= g < n implies #[trigger] start(g) == honest(g) by {
        assert(address_reduction::read_value(first, None, g) == entry(gs[g].key()));
    }
    sums::lemma_sum_ext(n, start, honest);
    law_claim(m, entries, entry);
    sums::lemma_sum_valid(n, start);
    F::law_times_one(sums::sum(n, start));
    address_reduction::law_rounds(s, supplies, shapes, r, m.input(entries));
    let end = |g: int|
        gs[g].u_eval_sum.times(poly::eq_weight(r, gs[g].lookup_index as int)).times(
            address_reduction::raf_at_point(s.gamma, r, gs[g].is_interleaved_operands).plus(
                address_reduction::read_value(last, Some(point), g),
            ),
        );
    let taken = |g: int|
        gs[g].u_eval_sum.times(poly::eq_weight(r, gs[g].lookup_index as int)).times(
            address_reduction::raf_at_point(m.gamma, r, gs[g].is_interleaved_operands).plus(
                key_read(gs[g].key(), values),
            ),
        );
    assert forall|g: int| 0 <= g < n implies #[trigger] end(g) == taken(g) by {
        assert(address_reduction::read_value(last, Some(point), g) == key_read(
            gs[g].key(),
            values,
        ));
    }
    sums::lemma_sum_ext(n, end, taken);
    sums::lemma_sum_valid(n, end);
    F::law_times_one(sums::sum(n, end));
    law_hand_over(m, r, values);
    lemma_cycle_shaped(m, r, values);
    sumcheck::lemma_message_consistent(m.cycle_table(r, values), m.r_reduction.len());
}

/// The phase machine of a trace starts fresh.
proof fn lemma_fresh<F: Field>(m: CycleModel<F>, prefix_checkpoints: Seq<F>)
    requires
        m.sized(),
        forall|j: int|
            0 <= j < m.lookups.len() ==> #[trigger] m.lookups[j] < pow2(m.log_k()),
    ensures
        address_reduction::fresh(machine(m, prefix_checkpoints)),
{
    let s = machine(m, prefix_checkpoints);
    let ks = lookup_groups::keys(m.lookups, m.tables, m.interleaved);
    let u = poly::eq_table(m.r_reduction);
    let n = ks.len() as int;
    assert forall|g: int| 0 <= g < s.groups.len() implies (
        #[trigger] s.groups[g]
    ).phase_u_eval_sum == s.groups[g].u_eval_sum && s.groups[g].u_eval_sum.valid()
        && s.groups[g].lookup_index < pow2(s.log_k) by {
        let key = lookup_groups::distinct(ks, n)[g];
        sums::lemma_sum_valid(n, |j: int| lookup_groups::share(ks, u, key, j));
        lookup_groups::lemma_distinct_from(ks, n, g);
        let j = choose|j: int| 0 <= j < n && #[trigger] ks[j] == key;
        assert(m.lookups[j] < pow2(m.log_k()));
    }
}

/// What the check is fed from outside: the prefixes and suffixes of every phase, how the tables
/// combine them, and the values of the tables at the address point.
#[verifier::ext_equal]
pub struct Feed<F> {
    pub supplies: Seq<address_reduction::Supply<F>>,
    pub shapes: Seq<address_phase::ShapeModel<F>>,
    pub values: Seq<F>,
}

/// The check in a round: at the first bit of a chunk the chunk is opened, and behind the address
/// bits the cycle phase is started.
pub open spec fn in_round<F: Field>(s: CheckState<F>, feed: Feed<F>, i: int) -> CheckState<F> {
    let log_k = s.model.log_k() as int;
    if i < log_k && i % 8 == 0 {
        s.begun(feed.supplies[i / 8].prefixes, feed.supplies[i / 8].suffixes, feed.shapes)
    } else if i == log_k {
        s.materialized(feed.values)
    } else {
        s
    }
}

/// The check and the claim after `i` rounds: in each round the message under the claim is evaluated
/// at the challenge, and the challenge is bound.
pub open spec fn run<F: Field>(s: CheckState<F>, feed: Feed<F>, xs: Seq<F>, claim: F, i: int) -> (
    CheckState<F>,
    F,
)
    decreases i,
{
    if i <= 0 {
        (s, claim)
    } else {
        let (before, c) = run(s, feed, xs, claim, i - 1);
        let now = in_round(before, feed, i - 1);
        (now.bind(xs[i - 1], i - 1), univariate::eval(now.message(i - 1, c), xs[i - 1]))
    }
}

/// The entry that every cycle reads is that of its table at its index.
pub open spec fn entries_read<F: Field>(
    m: CycleModel<F>,
    tables: spec_fn(usize, int) -> u64,
    entries: Seq<u64>,
) -> bool {
    &&& entries.len() == m.lookups.len()
    &&& forall|j: int|
        0 <= j < m.lookups.len() ==> (#[trigger] m.tables[j] is Some ==> entries[j] == tables(
            m.tables[j]->0,
            m.lookups[j] as int,
        ))
}

/// The values of all tables at an address point.
pub open spec fn values_at<F: Field>(tables: spec_fn(usize, int) -> u64, r: Seq<F>) -> Seq<F> {
    Seq::new(
        NUM_LOOKUP_TABLES as nat,
        |t: int| table_values::read_at(tables, Some(t as usize), r),
    )
}

/// The groups of a trace start from the honest claim: weighted with the values at the indices, they
/// sum to it.
pub proof fn law_start_claim<F: Field>(
    m: CycleModel<F>,
    prefix_checkpoints: Seq<F>,
    tables: spec_fn(usize, int) -> u64,
    entries: Seq<u64>,
)
    requires
        m.sized(),
        forall|j: int|
            0 <= j < m.lookups.len() ==> #[trigger] m.lookups[j] < pow2(m.log_k()),
        entries_read(m, tables, entries),
    ensures
        table_values::start_claim(machine(m, prefix_checkpoints), tables) == m.input(entries),
{
    let s = machine(m, prefix_checkpoints);
    let gs = s.groups;
    let n = gs.len() as int;
    let entry = |key: lookup_groups::LookupKey|
        table_values::read_at(
            tables,
            key.1,
            operand_poly::binary_point::<F>(key.0 as int, m.log_k()),
        );
    lemma_fresh(m, prefix_checkpoints);
    assert forall|j: int| 0 <= j < m.lookups.len() implies flagged_entry::<F>(
        #[trigger] m.tables[j],
        entries[j],
    ) == entry((m.lookups[j], m.tables[j], m.interleaved[j])) by {
        let x = m.lookups[j] as int;
        if m.tables[j] is Some {
            let t = m.tables[j]->0;
            table_values::law_table_at_index::<F>(|k: int| tables(t, k), x, m.log_k());
        }
    }
    law_claim(m, entries, entry);
    let at_index = |g: int|
        gs[g].u_eval_sum.times(
            address_reduction::raf_of_index(
                m.gamma,
                gs[g].lookup_index as int,
                gs[g].is_interleaved_operands,
                m.log_k(),
            ).plus(entry(gs[g].key())),
        );
    let at_bits = |g: int|
        gs[g].u_eval_sum.times(
            table_values::value_at(
                s.gamma,
                tables,
                gs[g],
                table_values::index_point(gs[g], s.log_k),
            ),
        );
    assert forall|g: int| 0 <= g < n implies #[trigger] at_bits(g) == at_index(g) by {
        let x = gs[g].lookup_index as int;
        let interleaved = gs[g].is_interleaved_operands;
        table_values::law_raf_at_index(m.gamma, x, interleaved, m.log_k());
        F::law_plus_comm(
            entry(gs[g].key()),
            address_reduction::raf_of_index(m.gamma, x, interleaved, m.log_k()),
        );
    }
    sums::lemma_sum_ext(n, at_bits, at_index);
}

/// The groups of a trace end in the sum of the cycle phase, if the chunks of every cycle spell its
/// index.
pub proof fn law_end_claim<F: Field>(
    m: CycleModel<F>,
    prefix_checkpoints: Seq<F>,
    tables: spec_fn(usize, int) -> u64,
    r: Seq<F>,
)
    requires
        m.sized(),
        spelled(m),
        r.len() == m.log_k(),
        forall|j: int|
            0 <= j < m.lookups.len() ==> #[trigger] m.lookups[j] < pow2(m.log_k()),
    ensures
        table_values::end_claim(machine(m, prefix_checkpoints), tables, r) == m.cycle_table(
            r,
            values_at(tables, r),
        ).total(),
{
    let s = machine(m, prefix_checkpoints);
    let gs = s.groups;
    let n = gs.len() as int;
    let values = values_at::<F>(tables, r);
    lemma_fresh(m, prefix_checkpoints);
    law_hand_over(m, r, values);
    let taken = |g: int|
        gs[g].u_eval_sum.times(poly::eq_weight(r, gs[g].lookup_index as int)).times(
            address_reduction::raf_at_point(m.gamma, r, gs[g].is_interleaved_operands).plus(
                key_read(gs[g].key(), values),
            ),
        );
    let end = |g: int|
        gs[g].u_eval_sum.times(
            poly::eq_mle(r, table_values::index_point(gs[g], s.log_k)),
        ).times(table_values::value_at(s.gamma, tables, gs[g], r));
    assert forall|g: int| 0 <= g < n implies #[trigger] end(g) == taken(g) by {
        operand_poly::law_eq_binary_point(r, gs[g].lookup_index as int);
        lemma_group_table(m, g);
        F::law_plus_comm(
            table_values::read_at(tables, gs[g].lookup_table_index, r),
            address_reduction::raf_at_point(m.gamma, r, gs[g].is_interleaved_operands),
        );
    }
    sums::lemma_sum_ext(n, end, taken);
}

/// The table of a group exists.
proof fn lemma_group_table<F: Field>(m: CycleModel<F>, g: int)
    requires
        m.sized(),
        0 <= g < model_groups(m).len(),
    ensures
        model_groups(m)[g].lookup_table_index is Some ==> model_groups(m)[g].lookup_table_index->0
            < NUM_LOOKUP_TABLES,
{
    let ks = lookup_groups::keys(m.lookups, m.tables, m.interleaved);
    let n = ks.len() as int;
    let key = lookup_groups::distinct(ks, n)[g];
    lookup_groups::lemma_distinct_from(ks, n, g);
    let j = choose|j: int| 0 <= j < n && #[trigger] ks[j] == key;
    assert(m.tables[j] is Some ==> m.tables[j]->0 < NUM_LOOKUP_TABLES);
}

/// The address rounds of the check are those of its machine.
proof fn lemma_address_run<F: Field>(
    m: CycleModel<F>,
    prefix_checkpoints: Seq<F>,
    feed: Feed<F>,
    xs: Seq<F>,
    claim: F,
    i: int,
)
    requires
        0 <= i <= m.log_k() <= xs.len(),
    ensures
        ({
            let r = xs.take(m.log_k() as int);
            let (address, c) = address_reduction::rounds(
                machine(m, prefix_checkpoints),
                feed.supplies,
                feed.shapes,
                r,
                claim,
                i,
            );
            run(start(m, prefix_checkpoints), feed, xs, claim, i) == (
                CheckState { model: m, address, cycle: None::<SumTable<F>> },
                c,
            )
        }),
    decreases i,
{
    if i > 0 {
        lemma_address_run(m, prefix_checkpoints, feed, xs, claim, i - 1);
    }
}

/// The first `j` rounds of the cycle phase bind its sum.
proof fn lemma_cycle_run<F: Field>(
    s: CheckState<F>,
    feed: Feed<F>,
    xs: Seq<F>,
    claim: F,
    r: Seq<F>,
    j: int,
)
    requires
        s.model.sized(),
        r.len() == s.model.log_k(),
        xs.len() == s.model.log_k() + s.model.r_reduction.len(),
        0 <= j <= s.model.r_reduction.len(),
        ({
            let (at, c) = run(s, feed, xs, claim, s.model.log_k() as int);
            &&& at.model == s.model
            &&& at.address.challenges == r
            &&& c == s.model.cycle_table(r, feed.values).total()
        }),
    ensures
        ({
            let log_k = s.model.log_k() as int;
            let log_t = s.model.r_reduction.len();
            let bound = s.model.cycle_table(r, feed.values).bind_all(
                xs.subrange(log_k, log_k + j),
            );
            let (at, c) = run(s, feed, xs, claim, log_k + j);
            &&& at.model == s.model
            &&& in_round(at, feed, log_k + j).model == s.model
            &&& in_round(at, feed, log_k + j).cycle == Some(bound)
            &&& bound.shaped((log_t - j) as nat)
            &&& bound.canonical()
            &&& c == bound.total()
        }),
    decreases j,
{
    let m = s.model;
    let log_k = m.log_k() as int;
    let tab = m.cycle_table(r, feed.values);
    let ys = xs.subrange(log_k, log_k + j);
    if j == 0 {
        lemma_cycle_shaped(m, r, feed.values);
        assert(ys =~= Seq::<F>::empty());
    } else {
        lemma_cycle_run(s, feed, xs, claim, r, j - 1);
        let before = xs.subrange(log_k, log_k + (j - 1));
        let x = xs[log_k + j - 1];
        assert(before.push(x) =~= ys);
        let bound = tab.bind_all(before);
        let left = (m.r_reduction.len() - (j - 1)) as nat;
        sumcheck::lemma_bind_all_push(tab, before, x);
        sumcheck::lemma_bind_shaped(bound, left, x);
        sumcheck::lemma_message_eval(bound, left, x);
        let (last, c) = run(s, feed, xs, claim, log_k + (j - 1));
        assert(log_k + j - 1 == log_k + (j - 1));
        assert(in_round(last, feed, log_k + (j - 1)).cycle == Some(bound));
    }
}

/// The whole check in one run from the honest claim, fed with a decomposition of the lookup tables
/// and with their values at the address point: every round can be made, every message adds up to the
/// claim it was made under, in particular the first message of the cycle phase to the last claim of
/// the address phase, and the last claim is the one that the recorded openings must satisfy. The
/// messages of the address phase are quadratic, those of the cycle phase have the degree of the check.
pub proof fn law_run<F: Field>(
    m: CycleModel<F>,
    prefix_checkpoints: Seq<F>,
    feed: Feed<F>,
    tables: spec_fn(usize, int) -> u64,
    entries: Seq<u64>,
    xs: Seq<F>,
    acc: Claims<F>,
)
    requires
        m.sized(),
        spelled(m),
        xs.len() == m.log_k() + m.r_reduction.len(),
        forall|j: int|
            0 <= j < m.lookups.len() ==> #[trigger] m.lookups[j] < pow2(m.log_k()),
        table_values::decomposed(
            machine(m, prefix_checkpoints),
            feed.supplies,
            feed.shapes,
            address_part(m, xs),
            tables,
        ),
        feed.values == values_at(tables, address_part(m, xs)),
        entries_read(m, tables, entries),
    ensures
        ({
            let s = start(m, prefix_checkpoints);
            let claim = m.input(entries);
            let n = (m.log_k() + m.r_reduction.len()) as int;
            let (last, end) = run(s, feed, xs, claim, n);
            let done = in_round(last, feed, n);
            let left = done.cycle->0.columns.map_values(|p: Seq<F>| p[0]);
            &&& claim == table_values::start_claim(s.address, tables)
            &&& run(s, feed, xs, claim, m.log_k() as int).1 == table_values::end_claim(
                s.address,
                tables,
                address_part(m, xs),
            )
            &&& forall|i: int|
                0 <= i < n ==> ({
                    let (before, c) = #[trigger] run(s, feed, xs, claim, i);
                    let now = in_round(before, feed, i);
                    let q = now.message(i, c);
                    &&& now.ready(i)
                    &&& univariate::eval(q, F::of_int(0)).plus(univariate::eval(q, F::of_int(1)))
                        == c
                    &&& q.len() == if i < m.log_k() {
                        3
                    } else {
                        m.indices.len() + 2
                    }
                })
            &&& end == output(m, cached(m, acc, xs, left), xs, feed.values)
        }),
{
    let s = start(m, prefix_checkpoints);
    let r = address_part(m, xs);
    let claim = m.input(entries);
    let log_k = m.log_k() as int;
    let log_t = m.r_reduction.len();
    let n = log_k + log_t;
    let tab = m.cycle_table(r, feed.values);
    lemma_fresh(m, prefix_checkpoints);
    law_start_claim(m, prefix_checkpoints, tables, entries);
    law_end_claim(m, prefix_checkpoints, tables, r);
    sums::lemma_sum_valid(
        s.address.groups.len() as int,
        |g: int|
            s.address.groups[g].u_eval_sum.times(
                table_values::value_at(
                    s.address.gamma,
                    tables,
                    s.address.groups[g],
                    table_values::index_point(s.address.groups[g], s.address.log_k),
                ),
            ),
    );
    F::law_times_one(claim);
    let end = table_values::end_claim(s.address, tables, r);
    sums::lemma_sum_valid(
        s.address.groups.len() as int,
        |g: int|
            s.address.groups[g].u_eval_sum.times(
                poly::eq_mle(
                    r,
                    table_values::index_point(s.address.groups[g], s.address.log_k),
                ),
            ).times(table_values::value_at(s.address.gamma, tables, s.address.groups[g], r)),
    );
    F::law_times_one(end);
    table_values::law_address_rounds(s.address, feed.supplies, feed.shapes, r, tables);
    lemma_address_run(m, prefix_checkpoints, feed, xs, claim, log_k);
    assert forall|i: int| 0 <= i < n implies ({
        let (before, c) = #[trigger] run(s, feed, xs, claim, i);
        let now = in_round(before, feed, i);
        let q = now.message(i, c);
        &&& now.ready(i)
        &&& univariate::eval(q, F::of_int(0)).plus(univariate::eval(q, F::of_int(1))) == c
        &&& q.len() == if i < m.log_k() {
            3
        } else {
            m.indices.len() + 2
        }
    }) by {
        if i < log_k {
            lemma_address_run(m, prefix_checkpoints, feed, xs, claim, i);
            let (before, c) = address_reduction::rounds(
                s.address,
                feed.supplies,
                feed.shapes,
                r,
                claim,
                i,
            );
            assert(in_round(run(s, feed, xs, claim, i).0, feed, i).address
                == address_reduction::in_round(before, feed.supplies, feed.shapes, i));
        } else {
            let j = i - log_k;
            lemma_cycle_run(s, feed, xs, claim, r, j);
            assert(log_k + j == i);
            let bound = tab.bind_all(xs.subrange(log_k, log_k + j));
            sumcheck::lemma_message_consistent(bound, (log_t - j) as nat);
            sumcheck::lemma_message_len(bound, (log_t - j) as nat);
            sumcheck::lemma_bind_all_columns(tab, xs.subrange(log_k, log_k + j));
            formula::lemma_column_product::<F>(m.indices.len(), tab.row(0));
        }
    }
    let ys = xs.skip(log_k);
    lemma_cycle_run(s, feed, xs, claim, r, log_t as int);
    assert(xs.subrange(log_k, log_k + log_t) =~= ys);
    lemma_cycle_shaped(m, r, feed.values);
    sumcheck::lemma_final_total(tab, ys);
    let row = sumcheck::final_row(tab.columns, ys);
    let left = tab.bind_all(ys).columns.map_values(|p: Seq<F>| p[0]);
    assert(left =~= row) by {
        assert forall|c: int| 0 <= c < row.len() implies left[c] == row[c] by {
            assert(tab.bind_all(ys).columns[c] == seq![row[c]]);
        }
    }
    law_output(m, acc, xs, feed.values);
}

} // verus!
