//! Hamming-weight and access-address claim reduction.
//!
//! Every access chunk `i` has a pushforward column `G_i` over the address chunk, and three claims
//! about it: its Hamming weight (the sum of `G_i`), its value at the shared Booleanity point and its
//! value at the chunk's own virtualization point. The batch of all claims with the powers of the
//! challenge `g` is the sum over all addresses `k` and chunks `i` of
//! `G_i(k) (g^(3i) + g^(3i+1) eq(r_bool, k) + g^(3i+2) eq(r_virt_i, k))`.

use crate::field;
use crate::field::Field;
use crate::framework::accumulator;
use crate::framework::accumulator::{
    Claims, CommittedPolynomial, OpeningId, Openings, SumcheckId, VirtualPolynomial,
};
use crate::framework::formula;
use crate::framework::formula::Formula;
use crate::framework::poly;
use crate::framework::poly::MultilinearPolynomial;
use crate::framework::sumcheck;
use crate::framework::sumcheck::{SumTable, VirtualSum};
use crate::framework::sums;
use crate::framework::transcript::Challenge;
use vstd::arithmetic::power2::pow2;
use vstd::prelude::*;

verus! {

/// The degree of the summed formula.
pub const DEGREE: usize = 2;

/// The number of access chunks of each family.
#[derive(Clone, Copy, Debug)]
pub struct FamilyCounts {
    pub instruction_d: usize,
    pub bytecode_d: usize,
    pub ram_d: usize,
}

impl FamilyCounts {
    /// The number of chunks of all families.
    pub open spec fn count(self) -> nat {
        (self.instruction_d + self.bytecode_d + self.ram_d) as nat
    }

    /// The committed polynomials of the chunks: instruction, bytecode, then RAM.
    pub open spec fn types(self) -> Seq<CommittedPolynomial> {
        Seq::new(
            self.count(),
            |x: int|
                if x < self.instruction_d {
                    CommittedPolynomial::InstructionRa(x as usize)
                } else if x < self.instruction_d + self.bytecode_d {
                    CommittedPolynomial::BytecodeRa((x - self.instruction_d) as usize)
                } else {
                    CommittedPolynomial::RamRa(
                        (x - self.instruction_d - self.bytecode_d) as usize,
                    )
                },
        )
    }

    /// The committed polynomials of the chunks: instruction, bytecode, then RAM.
    pub fn polynomial_types(&self) -> (r: Vec<CommittedPolynomial>)
        requires
            self.count() <= usize::MAX,
        ensures
            r@ == self.types(),
    {
        let mut out: Vec<CommittedPolynomial> = Vec::new();
        for i in 0..self.instruction_d
            invariant
                out@ == self.types().take(i as int),
        {
            out.push(CommittedPolynomial::InstructionRa(i));
            assert(out@ =~= self.types().take(i + 1));
        }
        for i in 0..self.bytecode_d
            invariant
                out@ == self.types().take(self.instruction_d + i),
        {
            out.push(CommittedPolynomial::BytecodeRa(i));
            assert(out@ =~= self.types().take(self.instruction_d + i + 1));
        }
        for i in 0..self.ram_d
            invariant
                out@ == self.types().take(self.instruction_d + self.bytecode_d + i),
        {
            out.push(CommittedPolynomial::RamRa(i));
            assert(out@ =~= self.types().take(self.instruction_d + self.bytecode_d + i + 1));
        }
        assert(out@ =~= self.types());
        out
    }
}

/// Whether a committed polynomial is an access chunk.
pub open spec fn is_access_chunk(p: CommittedPolynomial) -> bool {
    p is InstructionRa || p is BytecodeRa || p is RamRa
}

/// The sumcheck that opens a chunk at its own address point.
pub open spec fn virt_id(p: CommittedPolynomial) -> SumcheckId {
    match p {
        CommittedPolynomial::InstructionRa(_) => SumcheckId::InstructionRaVirtualization,
        CommittedPolynomial::BytecodeRa(_) => SumcheckId::BytecodeReadRaf,
        _ => SumcheckId::RamRaVirtualization,
    }
}

/// The sumcheck that opens a chunk at its own address point.
pub fn virt_sumcheck_id(poly: CommittedPolynomial) -> (r: SumcheckId)
    requires
        is_access_chunk(poly),
    ensures
        r == virt_id(poly),
{
    match poly {
        CommittedPolynomial::InstructionRa(_) => SumcheckId::InstructionRaVirtualization,
        CommittedPolynomial::BytecodeRa(_) => SumcheckId::BytecodeReadRaf,
        _ => SumcheckId::RamRaVirtualization,
    }
}

/// The name of the shared RAM Hamming-weight claim.
pub open spec fn ram_weight_id() -> OpeningId {
    accumulator::virt(VirtualPolynomial::RamHammingWeight, SumcheckId::RamHammingBooleanity)
}

/// The name of a chunk's Booleanity claim.
pub open spec fn bool_id(p: CommittedPolynomial) -> OpeningId {
    accumulator::comm(p, SumcheckId::Booleanity)
}

/// The name of a chunk's virtualization claim.
pub open spec fn chunk_virt_id(p: CommittedPolynomial) -> OpeningId {
    accumulator::comm(p, virt_id(p))
}

/// The name of a chunk's reduced claim.
pub open spec fn reduced_id(p: CommittedPolynomial) -> OpeningId {
    accumulator::comm(p, SumcheckId::HammingWeightClaimReduction)
}

/// The claims read for a chunk were recorded.
pub open spec fn has_chunk<F: Field>(
    acc: Claims<F>,
    p: CommittedPolynomial,
    log_k_chunk: nat,
) -> bool {
    &&& acc.contains_key(bool_id(p))
    &&& acc.contains_key(chunk_virt_id(p))
    &&& acc[chunk_virt_id(p)].0.len() >= log_k_chunk
}

/// All input claims were recorded.
pub open spec fn has_input<F: Field>(
    acc: Claims<F>,
    counts: FamilyCounts,
    log_k_chunk: nat,
) -> bool {
    let first = bool_id(CommittedPolynomial::InstructionRa(0));
    &&& acc.contains_key(first)
    &&& acc[first].0.len() >= log_k_chunk
    &&& acc.contains_key(ram_weight_id())
    &&& forall|i: int|
        0 <= i < counts.count() ==> has_chunk(acc, #[trigger] counts.types()[i], log_k_chunk)
}

/// The expected Hamming weight of a chunk: one access per cycle, except for RAM.
pub open spec fn weight<F: Field>(acc: Claims<F>, p: CommittedPolynomial) -> F {
    if p is RamRa {
        acc[ram_weight_id()].1
    } else {
        F::of_int(1)
    }
}

/// The batching weight of one address for one chunk.
pub open spec fn chunk_weight<F: Field>(gp: Seq<F>, i: int, eq_bool: F, eq_virt: F) -> F {
    gp[3 * i].plus(gp[3 * i + 1].times(eq_bool)).plus(gp[3 * i + 2].times(eq_virt))
}

/// The batch of the three claims of every chunk.
pub open spec fn batch<F: Field>(gp: Seq<F>, hw: Seq<F>, boolean: Seq<F>, virtual_: Seq<F>) -> F {
    sums::sum(
        hw.len() as int,
        |i: int|
            gp[3 * i].times(hw[i]).plus(gp[3 * i + 1].times(boolean[i])).plus(
                gp[3 * i + 2].times(virtual_[i]),
            ),
    )
}

/// The summand of chunk `i` of `n`, over the columns `G_0.., eq_bool, eq_virt_0..`.
pub open spec fn chunk_term<F: Field>(gp: Seq<F>, n: nat, i: int) -> Formula<F> {
    formula::times(
        formula::col(i as usize),
        formula::plus(
            formula::plus(
                formula::con(gp[3 * i]),
                formula::times(formula::con(gp[3 * i + 1]), formula::col(n as usize)),
            ),
            formula::times(formula::con(gp[3 * i + 2]), formula::col((n + 1 + i) as usize)),
        ),
    )
}

/// The sum of the first `k` chunk summands.
pub open spec fn summand<F: Field>(gp: Seq<F>, n: nat, k: int) -> Formula<F>
    decreases k,
{
    if k <= 0 {
        formula::con(F::of_int(0))
    } else {
        formula::plus(summand(gp, n, k - 1), chunk_term(gp, n, k - 1))
    }
}

/// The table the prover sums.
pub open spec fn table<F: Field>(
    gp: Seq<F>,
    g: Seq<Seq<F>>,
    r_bool: Seq<F>,
    r_virt: Seq<Seq<F>>,
) -> SumTable<F> {
    SumTable {
        columns: g.push(poly::eq_table(r_bool)) + r_virt.map_values(
            |r: Seq<F>| poly::eq_table(r),
        ),
        formula: summand(gp, g.len(), g.len() as int),
    }
}

/// The claims after the first `n` reduced openings are recorded.
pub open spec fn cached<F: Field>(
    acc: Claims<F>,
    types: Seq<CommittedPolynomial>,
    point: Seq<F>,
    v: Seq<F>,
    n: int,
) -> Claims<F>
    decreases n,
{
    if n <= 0 {
        acc
    } else {
        cached(acc, types, point, v, n - 1).insert(reduced_id(types[n - 1]), (point, v[n - 1]))
    }
}

/// The claim the reduced openings must satisfy.
pub open spec fn output<F: Field>(
    gp: Seq<F>,
    types: Seq<CommittedPolynomial>,
    r_bool: Seq<F>,
    r_virt: Seq<Seq<F>>,
    acc: Claims<F>,
    xs: Seq<F>,
) -> F {
    let y = xs.reverse();
    sums::sum(
        types.len() as int,
        |i: int|
            acc[reduced_id(types[i])].1.times(
                chunk_weight(gp, i, poly::eq_mle(y, r_bool), poly::eq_mle(y, r_virt[i])),
            ),
    )
}

/// The batching powers, the points and the claims of all chunks.
#[derive(Debug)]
pub struct HammingWeightClaimReductionParams<F> {
    /// The powers of the challenge, three per chunk.
    pub gamma_powers: Vec<F>,
    pub r_cycle: Vec<F>,
    pub r_addr_bool: Vec<F>,
    pub r_addr_virt: Vec<Vec<F>>,
    pub claims_hw: Vec<F>,
    pub claims_bool: Vec<F>,
    pub claims_virt: Vec<F>,
    pub log_k_chunk: usize,
    pub polynomial_types: Vec<CommittedPolynomial>,
}

impl<F: Field> HammingWeightClaimReductionParams<F> {
    /// The virtualization points of all chunks.
    pub open spec fn virt_points(self) -> Seq<Seq<F>> {
        self.r_addr_virt@.map_values(|r: Vec<F>| r@)
    }

    /// There are three powers, one point and three claims per chunk.
    pub open spec fn wf(self) -> bool {
        let n = self.polynomial_types@.len();
        &&& self.gamma_powers@.len() == 3 * n
        &&& 3 * n <= usize::MAX
        &&& self.r_addr_virt@.len() == n
        &&& self.claims_hw@.len() == n
        &&& self.claims_bool@.len() == n
        &&& self.claims_virt@.len() == n
    }

    /// Draw the batching challenge and read the points and claims of all chunks.
    pub fn new<T: Challenge<F>>(
        counts: FamilyCounts,
        log_k_chunk: usize,
        accumulator: &Openings<F>,
        transcript: &mut T,
    ) -> (r: Self)
        requires
            3 * counts.count() <= usize::MAX,
            has_input(accumulator@, counts, log_k_chunk as nat),
        ensures
            r.wf(),
            r.log_k_chunk == log_k_chunk,
            r.polynomial_types@ == counts.types(),
            r.gamma_powers@ == Seq::new(
                3 * counts.count(),
                |i: int| sums::power(old(transcript).state().next(), i),
            ),
            final(transcript).state() == old(transcript).state().squeeze(),
            ({
                let first = accumulator@[bool_id(CommittedPolynomial::InstructionRa(0))].0;
                &&& r.r_addr_bool@ == first.take(log_k_chunk as int)
                &&& r.r_cycle@ == first.skip(log_k_chunk as int)
            }),
            r.claims_hw@ == counts.types().map_values(
                |p: CommittedPolynomial| weight(accumulator@, p),
            ),
            r.claims_bool@ == counts.types().map_values(
                |p: CommittedPolynomial| accumulator@[bool_id(p)].1,
            ),
            r.claims_virt@ == counts.types().map_values(
                |p: CommittedPolynomial| accumulator@[chunk_virt_id(p)].1,
            ),
            r.virt_points() == counts.types().map_values(
                |p: CommittedPolynomial|
                    accumulator@[chunk_virt_id(p)].0.take(log_k_chunk as int),
            ),
    {
        let polynomial_types: Vec<CommittedPolynomial> = counts.polynomial_types();
        let n: usize = polynomial_types.len();
        let gamma: F = transcript.challenge();
        let mut gamma_powers: Vec<F> = Vec::new();
        let mut power: F = field::one();
        for i in 0..3 * n
            invariant
                power == sums::power(gamma, i as int),
                gamma_powers@ == Seq::new(i as nat, |j: int| sums::power(gamma, j)),
        {
            gamma_powers.push(power);
            assert(gamma_powers@ =~= Seq::new((i + 1) as nat, |j: int| sums::power(gamma, j)));
            power = power.mul(gamma);
        }
        let (bool_point, _) = accumulator.get_committed_polynomial_opening(
            CommittedPolynomial::InstructionRa(0),
            SumcheckId::Booleanity,
        );
        let r_addr_bool: Vec<F> = poly::range(&bool_point, 0, log_k_chunk);
        let r_cycle: Vec<F> = poly::range(&bool_point, log_k_chunk, bool_point.len());
        let ram_hw_factor: F = accumulator.virtual_claim(
            VirtualPolynomial::RamHammingWeight,
            SumcheckId::RamHammingBooleanity,
        );
        let mut r_addr_virt: Vec<Vec<F>> = Vec::new();
        let mut claims_hw: Vec<F> = Vec::new();
        let mut claims_bool: Vec<F> = Vec::new();
        let mut claims_virt: Vec<F> = Vec::new();
        for i in 0..n
            invariant
                n == counts.count(),
                polynomial_types@ == counts.types(),
                has_input(accumulator@, counts, log_k_chunk as nat),
                ram_hw_factor == accumulator@[ram_weight_id()].1,
                claims_hw@.len() == i,
                claims_bool@.len() == i,
                claims_virt@.len() == i,
                r_addr_virt@.len() == i,
                forall|j: int|
                    0 <= j < i ==> #[trigger] claims_hw@[j] == weight(
                        accumulator@,
                        counts.types()[j],
                    ),
                forall|j: int|
                    0 <= j < i ==> #[trigger] claims_bool@[j] == accumulator@[bool_id(
                        counts.types()[j],
                    )].1,
                forall|j: int|
                    0 <= j < i ==> #[trigger] claims_virt@[j] == accumulator@[chunk_virt_id(
                        counts.types()[j],
                    )].1,
                forall|j: int|
                    0 <= j < i ==> (#[trigger] r_addr_virt@[j])@ == accumulator@[chunk_virt_id(
                        counts.types()[j],
                    )].0.take(log_k_chunk as int),
        {
            let poly_type: CommittedPolynomial = polynomial_types[i];
            assert(has_chunk(accumulator@, counts.types()[i as int], log_k_chunk as nat));
            let hw: F = match poly_type {
                CommittedPolynomial::RamRa(_) => ram_hw_factor,
                _ => field::one(),
            };
            claims_hw.push(hw);
            let bool_claim: F = accumulator.committed_claim(poly_type, SumcheckId::Booleanity);
            claims_bool.push(bool_claim);
            let (virt_point, virt_claim) = accumulator.get_committed_polynomial_opening(
                poly_type,
                virt_sumcheck_id(poly_type),
            );
            r_addr_virt.push(poly::range(&virt_point, 0, log_k_chunk));
            claims_virt.push(virt_claim);
        }
        let r: HammingWeightClaimReductionParams<F> = HammingWeightClaimReductionParams {
            gamma_powers,
            r_cycle,
            r_addr_bool,
            r_addr_virt,
            claims_hw,
            claims_bool,
            claims_virt,
            log_k_chunk,
            polynomial_types,
        };
        assert(r.claims_hw@ =~= counts.types().map_values(
            |p: CommittedPolynomial| weight(accumulator@, p),
        ));
        assert(r.claims_bool@ =~= counts.types().map_values(
            |p: CommittedPolynomial| accumulator@[bool_id(p)].1,
        ));
        assert(r.claims_virt@ =~= counts.types().map_values(
            |p: CommittedPolynomial| accumulator@[chunk_virt_id(p)].1,
        ));
        assert(r.virt_points() =~= counts.types().map_values(
            |p: CommittedPolynomial| accumulator@[chunk_virt_id(p)].0.take(log_k_chunk as int),
        ));
        r
    }

    /// The batched input claim.
    pub fn input_claim(&self) -> (r: F)
        requires
            self.wf(),
        ensures
            r == batch(self.gamma_powers@, self.claims_hw@, self.claims_bool@, self.claims_virt@),
    {
        let n: usize = self.polynomial_types.len();
        let mut acc: F = field::zero();
        let ghost f = |i: int|
            self.gamma_powers@[3 * i].times(self.claims_hw@[i]).plus(
                self.gamma_powers@[3 * i + 1].times(self.claims_bool@[i]),
            ).plus(self.gamma_powers@[3 * i + 2].times(self.claims_virt@[i]));
        for i in 0..n
            invariant
                self.wf(),
                n == self.polynomial_types@.len(),
                f == (|i: int|
                    self.gamma_powers@[3 * i].times(self.claims_hw@[i]).plus(
                        self.gamma_powers@[3 * i + 1].times(self.claims_bool@[i]),
                    ).plus(self.gamma_powers@[3 * i + 2].times(self.claims_virt@[i]))),
                acc == sums::sum(i as int, f),
        {
            let hw: F = self.gamma_powers[3 * i].mul(self.claims_hw[i]);
            let bl: F = self.gamma_powers[3 * i + 1].mul(self.claims_bool[i]);
            let vt: F = self.gamma_powers[3 * i + 2].mul(self.claims_virt[i]);
            acc = acc.add(hw.add(bl).add(vt));
        }
        acc
    }

    /// The full opening point: the reversed challenges followed by the cycle point.
    pub fn opening_point(&self, challenges: &[F]) -> (r: Vec<F>)
        ensures
            r@ == challenges@.reverse() + self.r_cycle@,
    {
        let r_addr: Vec<F> = poly::reversed(challenges);
        poly::concat(&r_addr, &self.r_cycle)
    }
}

/// The reduction of all chunk claims to one address point.
pub struct HammingWeightClaimReduction<F> {
    pub params: HammingWeightClaimReductionParams<F>,
    pub sum: VirtualSum<F>,
}

impl<F: Field> HammingWeightClaimReduction<F> {
    /// The prover's instance over the pushforward columns, in the order of the chunks.
    pub fn new_prover(
        params: HammingWeightClaimReductionParams<F>,
        g: Vec<MultilinearPolynomial<F>>,
    ) -> (r: Self)
        requires
            params.wf(),
            g@.len() == params.polynomial_types@.len(),
            pow2(params.r_addr_bool@.len()) <= usize::MAX,
            forall|i: int|
                0 <= i < params.r_addr_virt@.len() ==> pow2(
                    (#[trigger] params.r_addr_virt@[i])@.len(),
                ) <= usize::MAX,
        ensures
            r.params == params,
            r.sum@ == table(
                params.gamma_powers@,
                g@.map_values(|p: MultilinearPolynomial<F>| p@),
                params.r_addr_bool@,
                params.virt_points(),
            ),
    {
        let n: usize = params.polynomial_types.len();
        let ghost gs = g@.map_values(|p: MultilinearPolynomial<F>| p@);
        let ghost tab = table(
            params.gamma_powers@,
            gs,
            params.r_addr_bool@,
            params.virt_points(),
        );
        let mut columns: Vec<MultilinearPolynomial<F>> = g;
        columns.push(MultilinearPolynomial::new(poly::eq_evals(&params.r_addr_bool)));
        let mut sum_formula: Formula<F> = Formula::constant(field::zero());
        assert(columns@.map_values(|p: MultilinearPolynomial<F>| p@) =~= tab.columns.take(
            (n + 1) as int,
        ));
        for i in 0..n
            invariant
                params.wf(),
                n == params.polynomial_types@.len(),
                gs.len() == n,
                tab == table(
                    params.gamma_powers@,
                    gs,
                    params.r_addr_bool@,
                    params.virt_points(),
                ),
                forall|i: int|
                    0 <= i < params.r_addr_virt@.len() ==> pow2(
                        (#[trigger] params.r_addr_virt@[i])@.len(),
                    ) <= usize::MAX,
                columns@.map_values(|p: MultilinearPolynomial<F>| p@) == tab.columns.take(
                    n + 1 + i,
                ),
                sum_formula == summand(params.gamma_powers@, n as nat, i as int),
        {
            let ghost before = columns@.map_values(|p: MultilinearPolynomial<F>| p@);
            columns.push(MultilinearPolynomial::new(poly::eq_evals(&params.r_addr_virt[i])));
            let weight: Formula<F> = Formula::constant(params.gamma_powers[3 * i]).sum(
                Formula::constant(params.gamma_powers[3 * i + 1]).product(Formula::column(n)),
            ).sum(
                Formula::constant(params.gamma_powers[3 * i + 2]).product(
                    Formula::column(n + 1 + i),
                ),
            );
            sum_formula = sum_formula.sum(Formula::column(i).product(weight));
            assert(columns@.map_values(|p: MultilinearPolynomial<F>| p@) =~= before.push(
                poly::eq_table(params.r_addr_virt@[i as int]@),
            ));
            assert(tab.columns[n + 1 + i] == poly::eq_table(params.r_addr_virt@[i as int]@));
            assert(before.push(tab.columns[n + 1 + i]) =~= tab.columns.take(n + 2 + i));
        }
        let sum: VirtualSum<F> = VirtualSum::new(columns, sum_formula);
        assert(sum@.columns =~= tab.columns);
        HammingWeightClaimReduction { params, sum }
    }

    /// The verifier's instance, which holds no columns.
    pub fn new_verifier(params: HammingWeightClaimReductionParams<F>) -> (r: Self)
        ensures
            r.params == params,
    {
        HammingWeightClaimReduction { params, sum: VirtualSum::empty() }
    }

    /// One round per address-chunk variable.
    pub fn num_rounds(&self) -> (r: usize)
        ensures
            r == self.params.log_k_chunk,
    {
        self.params.log_k_chunk
    }

    /// Record the reduced openings of the fully bound pushforward columns.
    pub fn cache_openings(&self, accumulator: &mut Openings<F>, challenges: &[F])
        requires
            self.sum@.columns.len() >= self.params.polynomial_types@.len(),
            forall|c: int|
                0 <= c < self.sum@.columns.len() ==> (#[trigger] self.sum@.columns[c]).len() > 0,
        ensures
            final(accumulator)@ == cached(
                old(accumulator)@,
                self.params.polynomial_types@,
                challenges@.reverse() + self.params.r_cycle@,
                self.sum@.columns.map_values(|p: Seq<F>| p[0]),
                self.params.polynomial_types@.len() as int,
            ),
    {
        let n: usize = self.params.polynomial_types.len();
        for i in 0..n
            invariant
                n == self.params.polynomial_types@.len(),
                self.sum@.columns.len() >= n,
                forall|c: int|
                    0 <= c < self.sum@.columns.len() ==> (#[trigger] self.sum@.columns[c]).len()
                        > 0,
                accumulator@ == cached(
                    old(accumulator)@,
                    self.params.polynomial_types@,
                    challenges@.reverse() + self.params.r_cycle@,
                    self.sum@.columns.map_values(|p: Seq<F>| p[0]),
                    i as int,
                ),
        {
            assert(self.sum@.columns[i as int].len() > 0);
            accumulator.append_dense(
                self.params.polynomial_types[i],
                SumcheckId::HammingWeightClaimReduction,
                self.params.opening_point(challenges),
                self.sum.bound_value(i),
            );
        }
    }

    /// The claim the reduced openings must satisfy.
    pub fn expected_output_claim(&self, accumulator: &Openings<F>, challenges: &[F]) -> (r: F)
        requires
            self.params.wf(),
            self.params.r_addr_bool@.len() == challenges@.len(),
            forall|i: int|
                0 <= i < self.params.r_addr_virt@.len() ==> (
                #[trigger] self.params.r_addr_virt@[i])@.len() == challenges@.len(),
            forall|i: int|
                0 <= i < self.params.polynomial_types@.len() ==> accumulator@.contains_key(
                    reduced_id(#[trigger] self.params.polynomial_types@[i]),
                ),
        ensures
            r == output(
                self.params.gamma_powers@,
                self.params.polynomial_types@,
                self.params.r_addr_bool@,
                self.params.virt_points(),
                accumulator@,
                challenges@,
            ),
    {
        let ghost y = challenges@.reverse();
        let ghost types = self.params.polynomial_types@;
        let ghost gp = self.params.gamma_powers@;
        let ghost r_virt = self.params.virt_points();
        let ghost f = |i: int|
            accumulator@[reduced_id(types[i])].1.times(
                chunk_weight(
                    gp,
                    i,
                    poly::eq_mle(y, self.params.r_addr_bool@),
                    poly::eq_mle(y, r_virt[i]),
                ),
            );
        let rho: Vec<F> = poly::reversed(challenges);
        let eq_bool: F = poly::eq_at(&rho, &self.params.r_addr_bool);
        let n: usize = self.params.polynomial_types.len();
        let mut acc: F = field::zero();
        for i in 0..n
            invariant
                self.params.wf(),
                n == types.len(),
                rho@ == y,
                y.len() == challenges@.len(),
                types == self.params.polynomial_types@,
                gp == self.params.gamma_powers@,
                r_virt == self.params.virt_points(),
                eq_bool == poly::eq_mle(y, self.params.r_addr_bool@),
                forall|i: int|
                    0 <= i < self.params.r_addr_virt@.len() ==> (
                    #[trigger] self.params.r_addr_virt@[i])@.len() == challenges@.len(),
                forall|i: int|
                    0 <= i < types.len() ==> accumulator@.contains_key(
                        reduced_id(#[trigger] types[i]),
                    ),
                f == (|i: int|
                    accumulator@[reduced_id(types[i])].1.times(
                        chunk_weight(
                            gp,
                            i,
                            poly::eq_mle(y, self.params.r_addr_bool@),
                            poly::eq_mle(y, r_virt[i]),
                        ),
                    )),
                acc == sums::sum(i as int, f),
        {
            assert(self.params.r_addr_virt@[i as int]@.len() == challenges@.len());
            assert(accumulator@.contains_key(reduced_id(types[i as int])));
            let eq_virt: F = poly::eq_at(&rho, &self.params.r_addr_virt[i]);
            let g_claim: F = accumulator.committed_claim(
                self.params.polynomial_types[i],
                SumcheckId::HammingWeightClaimReduction,
            );
            let weight: F = self.params.gamma_powers[3 * i].add(
                self.params.gamma_powers[3 * i + 1].mul(eq_bool),
            ).add(self.params.gamma_powers[3 * i + 2].mul(eq_virt));
            acc = acc.add(g_claim.mul(weight));
        }
        acc
    }
}

/// The value of the first `k` chunk summands on one row.
proof fn lemma_summand_value<F: Field>(gp: Seq<F>, n: nat, k: int, row: Seq<F>)
    requires
        0 <= k <= n,
        2 * n + 1 <= usize::MAX,
        row.len() == 2 * n + 1,
    ensures
        summand(gp, n, k).value(row) == sums::sum(
            k,
            |i: int| row[i].times(chunk_weight(gp, i, row[n as int], row[n + 1 + i])),
        ),
        summand(gp, n, k).reads(2 * n + 1),
        k > 0 ==> summand(gp, n, k).degree() == 2,
        k == 0 ==> summand(gp, n, k).degree() == 0,
        field::all_valid(gp) && gp.len() == 3 * n ==> summand(gp, n, k).canonical(),
    decreases k,
{
    reveal_with_fuel(Formula::value, 6);
    reveal_with_fuel(Formula::reads, 6);
    reveal_with_fuel(Formula::degree, 6);
    reveal_with_fuel(Formula::canonical, 6);
    if k > 0 {
        lemma_summand_value(gp, n, k - 1, row);
        if field::all_valid(gp) && gp.len() == 3 * n {
            assert(gp[3 * (k - 1)].valid());
            assert(gp[3 * (k - 1) + 1].valid());
            assert(gp[3 * (k - 1) + 2].valid());
        }
    } else {
        F::law_of_int_valid(0);
    }
}

/// The columns, the points and the powers fit together over `m` address variables.
pub open spec fn sized<F: Field>(
    gp: Seq<F>,
    g: Seq<Seq<F>>,
    r_bool: Seq<F>,
    r_virt: Seq<Seq<F>>,
    m: nat,
) -> bool {
    &&& 2 * g.len() + 1 <= usize::MAX
    &&& gp.len() == 3 * g.len()
    &&& r_virt.len() == g.len()
    &&& r_bool.len() == m
    &&& forall|i: int| 0 <= i < g.len() ==> (#[trigger] g[i]).len() == pow2(m)
    &&& forall|i: int| 0 <= i < g.len() ==> (#[trigger] r_virt[i]).len() == m
}

/// The table is shaped: its columns have one entry for every point, and the degree of its formula is
/// the one that the verifier allows.
pub proof fn law_table_shaped<F: Field>(
    gp: Seq<F>,
    g: Seq<Seq<F>>,
    r_bool: Seq<F>,
    r_virt: Seq<Seq<F>>,
    m: nat,
)
    requires
        sized(gp, g, r_bool, r_virt, m),
    ensures
        table(gp, g, r_bool, r_virt).shaped(m),
        g.len() > 0 ==> table(gp, g, r_bool, r_virt).formula.degree() == DEGREE,
        field::all_valid(gp) && (forall|i: int|
            0 <= i < g.len() ==> field::all_valid(#[trigger] g[i])) ==> table(
            gp,
            g,
            r_bool,
            r_virt,
        ).canonical(),
{
    let t = table(gp, g, r_bool, r_virt);
    let n = g.len();
    let row = Seq::new(2 * n + 1, |i: int| F::of_int(0));
    lemma_summand_value(gp, n, n as int, row);
    poly::lemma_eq_table_valid(r_bool);
    assert forall|c: int| 0 <= c < t.columns.len() implies (#[trigger] t.columns[c]).len() == pow2(
        m,
    ) by {
        if c < n {
            assert(t.columns[c] == g[c]);
        } else if c > n {
            assert(r_virt[c - n - 1].len() == m);
        }
    }
    if field::all_valid(gp) && (forall|i: int|
        0 <= i < g.len() ==> field::all_valid(#[trigger] g[i])) {
        assert forall|c: int| 0 <= c < t.columns.len() implies field::all_valid(
            #[trigger] t.columns[c],
        ) by {
            if c < n {
                assert(t.columns[c] == g[c]);
            } else if c > n {
                poly::lemma_eq_table_valid(r_virt[c - n - 1]);
            }
        }
    }
}

/// One chunk's column summed against its batching weights.
proof fn lemma_chunk_sum<F: Field>(a: F, b: F, c: F, g: Seq<F>, r_bool: Seq<F>, r_virt: Seq<F>)
    requires
        r_bool.len() == r_virt.len(),
        g.len() == pow2(r_bool.len()),
    ensures
        sums::sum(
            g.len() as int,
            |k: int|
                g[k].times(
                    a.plus(b.times(poly::eq_table(r_bool)[k])).plus(
                        c.times(poly::eq_table(r_virt)[k]),
                    ),
                ),
        ) == a.times(sums::sum(g.len() as int, |k: int| g[k])).plus(
            b.times(poly::mle(g, r_bool)),
        ).plus(c.times(poly::mle(g, r_virt))),
{
    let m = g.len() as int;
    let eb = poly::eq_table(r_bool);
    let ev = poly::eq_table(r_virt);
    let f = |k: int| g[k].times(a.plus(b.times(eb[k])).plus(c.times(ev[k])));
    let fg = |k: int| g[k];
    let fb = |k: int| g[k].times(poly::eq_weight(r_bool, k));
    let fv = |k: int| g[k].times(poly::eq_weight(r_virt, k));
    let ag = |k: int| a.times(fg(k));
    let bb = |k: int| b.times(fb(k));
    let cv = |k: int| c.times(fv(k));
    let ab = |k: int| ag(k).plus(bb(k));
    let h = |k: int| ab(k).plus(cv(k));
    assert forall|k: int| 0 <= k < m implies #[trigger] f(k) == h(k) by {
        F::law_distrib(g[k], a.plus(b.times(eb[k])), c.times(ev[k]));
        F::law_distrib(g[k], a, b.times(eb[k]));
        F::law_times_comm(g[k], a);
        field::lemma_times_swap(g[k], b, eb[k]);
        field::lemma_times_swap(g[k], c, ev[k]);
    }
    sums::lemma_sum_ext(m, f, h);
    sums::lemma_sum_plus(m, ab, cv);
    sums::lemma_sum_plus(m, ag, bb);
    sums::lemma_sum_scale(m, a, fg);
    sums::lemma_sum_scale(m, b, fb);
    sums::lemma_sum_scale(m, c, fv);
}

/// The sum over the addresses is the batch of the chunks' Hamming weights and values.
pub proof fn law_total<F: Field>(
    gp: Seq<F>,
    g: Seq<Seq<F>>,
    r_bool: Seq<F>,
    r_virt: Seq<Seq<F>>,
    m: nat,
)
    requires
        sized(gp, g, r_bool, r_virt, m),
    ensures
        table(gp, g, r_bool, r_virt).total() == batch(
            gp,
            g.map_values(|p: Seq<F>| sums::sum(p.len() as int, |k: int| p[k])),
            g.map_values(|p: Seq<F>| poly::mle(p, r_bool)),
            Seq::new(g.len(), |i: int| poly::mle(g[i], r_virt[i])),
        ),
{
    let t = table(gp, g, r_bool, r_virt);
    let n = g.len();
    let size = pow2(m) as int;
    law_table_shaped(gp, g, r_bool, r_virt, m);
    assert(t.columns[0].len() == pow2(m));
    let term = |k: int, i: int|
        g[i][k].times(
            chunk_weight(gp, i, poly::eq_table(r_bool)[k], poly::eq_table(r_virt[i])[k]),
        );
    let f = |k: int| t.formula.value(t.row(k));
    let rows = |k: int| sums::sum(n as int, |i: int| term(k, i));
    assert forall|k: int| 0 <= k < size implies #[trigger] f(k) == rows(k) by {
        let row = t.row(k);
        lemma_summand_value(gp, n, n as int, row);
        let a = |i: int| row[i].times(chunk_weight(gp, i, row[n as int], row[n + 1 + i]));
        let b = |i: int| term(k, i);
        assert forall|i: int| 0 <= i < n implies #[trigger] a(i) == b(i) by {
            assert(row[i] == g[i][k]);
            assert(row[n as int] == poly::eq_table(r_bool)[k]);
            assert(row[n + 1 + i] == poly::eq_table(r_virt[i])[k]);
        }
        sums::lemma_sum_ext(n as int, a, b);
    }
    sums::lemma_sum_ext(size, f, rows);
    sums::lemma_sum_swap(size, n as int, term);
    let cols = |i: int| sums::sum(size, |k: int| term(k, i));
    let hw = g.map_values(|p: Seq<F>| sums::sum(p.len() as int, |k: int| p[k]));
    let bl = g.map_values(|p: Seq<F>| poly::mle(p, r_bool));
    let vt = Seq::new(g.len(), |i: int| poly::mle(g[i], r_virt[i]));
    let target = |i: int|
        gp[3 * i].times(hw[i]).plus(gp[3 * i + 1].times(bl[i])).plus(gp[3 * i + 2].times(vt[i]));
    assert forall|i: int| 0 <= i < n implies #[trigger] cols(i) == target(i) by {
        assert(g[i].len() == pow2(m) && r_virt[i].len() == m);
        let (a, b, c) = (gp[3 * i], gp[3 * i + 1], gp[3 * i + 2]);
        lemma_chunk_sum(a, b, c, g[i], r_bool, r_virt[i]);
        let x = |k: int| term(k, i);
        let y = |k: int|
            g[i][k].times(
                a.plus(b.times(poly::eq_table(r_bool)[k])).plus(
                    c.times(poly::eq_table(r_virt[i])[k]),
                ),
            );
        sums::lemma_sum_ext(size, x, y);
    }
    sums::lemma_sum_ext(n as int, cols, target);
}

/// The chunk polynomials of the families are pairwise distinct.
pub proof fn law_types_distinct(counts: FamilyCounts)
    requires
        counts.count() <= usize::MAX,
    ensures
        counts.types().no_duplicates(),
        forall|i: int|
            0 <= i < counts.types().len() ==> is_access_chunk(#[trigger] counts.types()[i]),
{
}

proof fn lemma_cached_claims<F: Field>(
    acc: Claims<F>,
    types: Seq<CommittedPolynomial>,
    point: Seq<F>,
    v: Seq<F>,
    n: int,
    i: int,
)
    requires
        0 <= i < n <= types.len(),
        types.no_duplicates(),
    ensures
        cached(acc, types, point, v, n).contains_key(reduced_id(types[i])),
        cached(acc, types, point, v, n)[reduced_id(types[i])] == (point, v[i]),
    decreases n,
{
    if i < n - 1 {
        lemma_cached_claims(acc, types, point, v, n - 1, i);
    }
}

/// The openings cached by the prover satisfy the output claim: it is the value to which the
/// sumcheck reduces.
pub proof fn law_output<F: Field>(
    gp: Seq<F>,
    types: Seq<CommittedPolynomial>,
    g: Seq<Seq<F>>,
    r_bool: Seq<F>,
    r_virt: Seq<Seq<F>>,
    acc: Claims<F>,
    r_cycle: Seq<F>,
    xs: Seq<F>,
)
    requires
        sized(gp, g, r_bool, r_virt, xs.len()),
        types.len() == g.len(),
        types.no_duplicates(),
    ensures
        output(
            gp,
            types,
            r_bool,
            r_virt,
            cached(
                acc,
                types,
                xs.reverse() + r_cycle,
                g.map_values(|p: Seq<F>| poly::mle(p, xs.reverse())),
                types.len() as int,
            ),
            xs,
        ) == table(gp, g, r_bool, r_virt).formula.value(
            sumcheck::final_row(table(gp, g, r_bool, r_virt).columns, xs),
        ),
{
    let y = xs.reverse();
    let n = g.len();
    let v = g.map_values(|p: Seq<F>| poly::mle(p, y));
    let point = y + r_cycle;
    let acc1 = cached(acc, types, point, v, types.len() as int);
    let t = table(gp, g, r_bool, r_virt);
    let row = sumcheck::final_row(t.columns, xs);
    lemma_summand_value(gp, n, n as int, row);
    let a = |i: int| row[i].times(chunk_weight(gp, i, row[n as int], row[n + 1 + i]));
    let b = |i: int|
        acc1[reduced_id(types[i])].1.times(
            chunk_weight(gp, i, poly::eq_mle(y, r_bool), poly::eq_mle(y, r_virt[i])),
        );
    poly::lemma_mle_eq_table(r_bool, y);
    poly::lemma_eq_mle_comm(r_bool, y);
    assert forall|i: int| 0 <= i < n implies #[trigger] a(i) == b(i) by {
        lemma_cached_claims(acc, types, point, v, types.len() as int, i);
        assert(r_virt[i].len() == y.len());
        poly::lemma_mle_eq_table(r_virt[i], y);
        poly::lemma_eq_mle_comm(r_virt[i], y);
        assert(t.columns[i] == g[i]);
        assert(t.columns[n as int] == poly::eq_table(r_bool));
        assert(t.columns[n + 1 + i] == poly::eq_table(r_virt[i]));
    }
    sums::lemma_sum_ext(n as int, a, b);
}

} // verus!
