//! The whole proof on one transcript: the binary stages, the read check of the bytecode, and the
//! pushforwards of its chunks. What is left are openings of committed polynomials, which are handed
//! to the commitment scheme.

use crate::field;
use crate::field::Field;
use crate::framework::accumulator;
use crate::framework::accumulator::{
    Claims, CommittedPolynomial, OpeningId, Openings, SumcheckId,
};
use crate::framework::gruen;
use crate::framework::poly;
use crate::framework::stage8::{Stage8Inventory, Stage8Request};
use crate::framework::sumcheck;
use crate::framework::sums;
use crate::framework::transcript;
use crate::framework::transcript::{FsState, ProverFs, VerifierFs};
use crate::r1cs::key::R1csKey;
use crate::r1cs::layout::{
    ADD_C0, LEFT_SIGN, NUM_VARS, PRODUCT_SIGN, RAM_ADDR_C0, RIGHT_SIGN, SIGN_PROD, SUB_C0, SUB_C1,
};
use crate::r1cs::matrices::ConstraintMatrices;
use crate::zkvm::access;
use crate::zkvm::booleanity;
use crate::zkvm::bytecode::read_raf_checking as bytecode_check;
use crate::zkvm::bytecode::read_raf_checking::{
    prove_bytecode_read_raf, verify_bytecode_read_raf, BytecodeReadRafProof,
};
use crate::zkvm::claim_reductions::increments;
use crate::zkvm::driver;
use crate::zkvm::driver::{
    prove_binary_into, verify_binary_into, BinaryClaims, BinaryProof, DriverError,
    RamPublicColumns,
};
use crate::zkvm::logup::circuit;
use crate::zkvm::logup::driver as pushforwards;
use crate::zkvm::logup::driver::{
    prove_read_raf_pushforward, verify_read_raf_pushforward, HandOver, ReadRafPushforward,
};
use crate::zkvm::logup::gkr;
use crate::zkvm::logup::gkr::GkrProof;
use crate::zkvm::logup::pushforward;
use crate::zkvm::logup::{CircuitTag, GkrError};
use crate::zkvm::memory;
use crate::zkvm::r1cs_witness;
use crate::zkvm::r1cs_witness::R1csWitness;
use crate::zkvm::ram::stage::PublicColumns;
use crate::zkvm::read_raf_stage;
use crate::zkvm::read_raf_stage::ReadRafStageError;
use crate::zkvm::real_trace;
use crate::zkvm::real_trace::RealWitness;
use crate::zkvm::shout_read_raf;
use crate::zkvm::shout_read_raf::RaFamily;
use crate::zkvm::spartan::stage as spartan_stage;
use crate::zkvm::spartan::stage::SpartanStageError;
use crate::zkvm::trace::{CycleRow, Instruction};
use vstd::arithmetic::power2::pow2;
use vstd::prelude::*;

verus! {

/// Which opening of committed polynomials failed.
#[derive(Clone, Copy, Debug, PartialEq, Eq, Structural)]
pub enum Stage8OpenError {
    /// The sign, carry and chunk index columns.
    Inventory,
    /// The increments of the memory and of the registers.
    Increments,
    /// The pushforwards of the chunks.
    Pushforward,
}

/// Why a whole proof is rejected.
#[derive(Clone, Copy, Debug, PartialEq, Eq, Structural)]
pub enum E2eError {
    Driver(DriverError),
    BytecodeReadRaf(ReadRafStageError),
    Pushforward(GkrError),
    Stage8(Stage8OpenError),
}

/// The claims of the whole proof.
#[derive(Debug)]
pub struct E2eProof<F> {
    pub binary: BinaryProof<F>,
    pub bytecode_read_raf: BytecodeReadRafProof<F>,
    pub bytecode_pushforward_gkr: Vec<GkrProof>,
}

/// The bytecode and the chunk indices of the row of every cycle.
#[derive(Debug)]
pub struct BytecodeProverInputs<'a> {
    pub bytecode: &'a [Instruction],
    pub indices: Vec<Vec<u32>>,
    pub log_k_chunks: Vec<usize>,
    pub log_register: usize,
    /// The number of the first bytecode chunk among all chunks.
    pub base_index: usize,
}

/// The bytecode, without the rows of the cycles.
#[derive(Debug)]
pub struct BytecodeVerifierInputs<'a> {
    pub bytecode: &'a [Instruction],
    pub log_k_chunks: Vec<usize>,
    pub log_register: usize,
    pub base_index: usize,
}

/// The sizes, the constraint key and the public memory columns.
pub struct VerifierParams<'a, F> {
    pub key: &'a R1csKey<F>,
    pub ram_public: &'a RamPublicColumns<F>,
    pub num_row_vars: usize,
    pub log_num_cycles: usize,
    pub ram_log_k: usize,
    pub reg_log_k: usize,
    pub n_aux: usize,
}

impl<'a, F: Field> VerifierParams<'a, F> {
    /// The parameters of a witness.
    pub fn from_witness(witness: &'a RealWitness<F>) -> (r: Self)
        requires
            driver::provable(witness.r1cs, witness.ram, witness.registers, witness.ram_public@, witness.key),
        ensures
            *r.key == witness.key,
            *r.ram_public == witness.ram_public,
            r.num_row_vars == witness.key.row_vars(),
            r.log_num_cycles == witness.r1cs.log_num_cycles,
            r.ram_log_k == witness.ram.log_k,
            r.reg_log_k == witness.registers.log_k,
            r.n_aux == r1cs_witness::aux_vars().len(),
    {
        proof {
            poly::lemma_pow2_concat(
                witness.key.log_cycles as nat,
                witness.key.log_vars as nat,
            );
        }
        let columns: Vec<Vec<F>> = witness.r1cs.boolean_aux_columns();
        assert(poly::contents(columns@).len() == columns@.len());
        VerifierParams {
            key: &witness.key,
            ram_public: &witness.ram_public,
            num_row_vars: witness.key.num_row_vars(),
            log_num_cycles: witness.r1cs.log_num_cycles,
            ram_log_k: witness.ram.log_k,
            reg_log_k: witness.registers.log_k,
            n_aux: columns.len(),
        }
    }
}

/// The request for a sign or carry column.
pub open spec fn aux_request(i: int, log_t: usize) -> Stage8Request {
    Stage8Request {
        poly: CommittedPolynomial::R1csAux(i as usize),
        sumcheck: SumcheckId::Booleanity,
        committed_num_vars: log_t,
    }
}

/// The requests for those of the first `n` sign and carry columns whose claims are not zero.
pub open spec fn aux_requests<F: Field>(acc: Claims<F>, n: int, log_t: usize) -> Seq<Stage8Request>
    decreases n,
{
    if n <= 0 {
        Seq::empty()
    } else {
        let before = aux_requests(acc, n - 1, log_t);
        if acc[aux_request(n - 1, log_t).id()].1 == F::of_int(0) {
            before
        } else {
            before.push(aux_request(n - 1, log_t))
        }
    }
}

/// Request the sign and carry columns whose claims are not zero. A zero column cannot be opened, and
/// both parties see the same claims.
pub fn nonzero_r1cs_aux_requests<F: Field>(
    accumulator: &Openings<F>,
    n_aux: usize,
    log_t: usize,
) -> (r: Vec<
    Stage8Request,
>)
    requires
        forall|i: int|
            0 <= i < n_aux ==> accumulator@.contains_key(#[trigger] booleanity::reduced_id(i)),
    ensures
        r@ == aux_requests(accumulator@, n_aux as int, log_t),
{
    let zero: F = field::zero();
    let mut out: Vec<Stage8Request> = Vec::new();
    for i in 0..n_aux
        invariant
            zero == F::of_int(0),
            forall|i: int|
                0 <= i < n_aux ==> accumulator@.contains_key(#[trigger] booleanity::reduced_id(i)),
            out@ == aux_requests(accumulator@, i as int, log_t),
    {
        assert(accumulator@.contains_key(booleanity::reduced_id(i as int)));
        let claim: F = accumulator.committed_claim(
            CommittedPolynomial::R1csAux(i),
            SumcheckId::Booleanity,
        );
        if !claim.same(zero) {
            out.push(
                Stage8Request {
                    poly: CommittedPolynomial::R1csAux(i),
                    sumcheck: SumcheckId::Booleanity,
                    committed_num_vars: log_t,
                },
            );
        }
    }
    out
}

/// The hand-over from the read check of the bytecode to the pushforwards.
pub open spec fn bridge(log_t: nat, base: int, widths: Seq<usize>) -> HandOver {
    HandOver {
        log_t,
        base,
        widths,
        family: RaFamily::Bytecode,
        id: SumcheckId::BytecodeReadRaf,
    }
}

/// Where the chunk openings of the bytecode come from and where their pushforwards are recorded.
pub fn bytecode_pushforward_family(
    log_t: usize,
    base_index: usize,
    log_k_chunks: &Vec<usize>,
) -> (r:
    ReadRafPushforward)
    ensures
        r@ == bridge(log_t as nat, base_index as int, log_k_chunks@),
        r.name@ == "BytecodeRa"@,
{
    let mut log_m_chunks: Vec<usize> = Vec::new();
    for i in 0..log_k_chunks.len()
        invariant
            log_m_chunks@ == log_k_chunks@.take(i as int),
    {
        log_m_chunks.push(log_k_chunks[i]);
        assert(log_m_chunks@ =~= log_k_chunks@.take(i + 1));
    }
    assert(log_m_chunks@ =~= log_k_chunks@);
    ReadRafPushforward {
        name: "BytecodeRa",
        log_t,
        base_index,
        log_m_chunks,
        ra_family: RaFamily::Bytecode,
        read_raf_id: SumcheckId::BytecodeReadRaf,
    }
}

/// The request for a chunk index column.
pub open spec fn dense_request(i: int, log_t: usize) -> Stage8Request {
    Stage8Request {
        poly: CommittedPolynomial::RaDense(i as usize),
        sumcheck: SumcheckId::PushforwardGkr,
        committed_num_vars: log_t,
    }
}

/// The requests for those of the first `n` chunk index columns whose claims are not zero.
pub open spec fn dense_requests<F: Field>(acc: Claims<F>, base: int, n: int, log_t: usize) -> Seq<
    Stage8Request,
>
    decreases n,
{
    if n <= 0 {
        Seq::empty()
    } else {
        let before = dense_requests(acc, base, n - 1, log_t);
        if acc[dense_request(base + n - 1, log_t).id()].1 == F::of_int(0) {
            before
        } else {
            before.push(dense_request(base + n - 1, log_t))
        }
    }
}

/// Append the requests for the chunk index columns whose claims are not zero.
pub fn push_bytecode_radense_requests<F: Field>(
    requests: &mut Vec<Stage8Request>,
    accumulator: &Openings<F>,
    base_index: usize,
    d: usize,
    log_t: usize,
)
    requires
        base_index + d <= usize::MAX,
        forall|i: int|
            0 <= i < d ==> accumulator@.contains_key(#[trigger] gkr::dense_id(base_index + i)),
    ensures
        final(requests)@ == old(requests)@ + dense_requests(
            accumulator@,
            base_index as int,
            d as int,
            log_t,
        ),
{
    let zero: F = field::zero();
    assert(requests@ + Seq::<Stage8Request>::empty() =~= requests@);
    for i in 0..d
        invariant
            zero == F::of_int(0),
            base_index + d <= usize::MAX,
            forall|i: int|
                0 <= i < d ==> accumulator@.contains_key(#[trigger] gkr::dense_id(base_index + i)),
            requests@ == old(requests)@ + dense_requests(
                accumulator@,
                base_index as int,
                i as int,
                log_t,
            ),
    {
        let global: usize = base_index + i;
        assert(accumulator@.contains_key(gkr::dense_id(base_index + i)));
        let claim: F = accumulator.committed_claim(
            CommittedPolynomial::RaDense(global),
            SumcheckId::PushforwardGkr,
        );
        if !claim.same(zero) {
            requests.push(
                Stage8Request {
                    poly: CommittedPolynomial::RaDense(global),
                    sumcheck: SumcheckId::PushforwardGkr,
                    committed_num_vars: log_t,
                },
            );
        }
        assert(requests@ =~= old(requests)@ + dense_requests(
            accumulator@,
            base_index as int,
            i + 1,
            log_t,
        ));
    }
}

/// The points and values at which the pushforwards of the chunks are to be opened.
pub fn bytecode_pushforward_points_claims<F: Field>(
    accumulator: &Openings<F>,
    base_index: usize,
    d: usize,
) -> (r: (Vec<Vec<F>>, Vec<F>))
    requires
        base_index + d <= usize::MAX,
        forall|i: int|
            0 <= i < d ==> accumulator@.contains_key(#[trigger] gkr::reduction_id(base_index + i)),
    ensures
        r.0@.len() == d,
        r.1@.len() == d,
        forall|i: int|
            0 <= i < d ==> (#[trigger] r.0@[i])@ == accumulator@[gkr::reduction_id(
                base_index + i,
            )].0,
        forall|i: int|
            0 <= i < d ==> #[trigger] r.1@[i] == accumulator@[gkr::reduction_id(
                base_index + i,
            )].1,
{
    let mut points: Vec<Vec<F>> = Vec::new();
    let mut claims: Vec<F> = Vec::new();
    for i in 0..d
        invariant
            base_index + d <= usize::MAX,
            forall|i: int|
                0 <= i < d ==> accumulator@.contains_key(
                    #[trigger] gkr::reduction_id(base_index + i),
                ),
            points@.len() == i,
            claims@.len() == i,
            forall|k: int|
                0 <= k < i ==> (#[trigger] points@[k])@ == accumulator@[gkr::reduction_id(
                    base_index + k,
                )].0,
            forall|k: int|
                0 <= k < i ==> #[trigger] claims@[k] == accumulator@[gkr::reduction_id(
                    base_index + k,
                )].1,
    {
        assert(accumulator@.contains_key(gkr::reduction_id(base_index + i)));
        let (point, claim) = accumulator.get_committed_polynomial_opening(
            CommittedPolynomial::Pushforward(base_index + i),
            SumcheckId::PushforwardReduction,
        );
        points.push(point);
        claims.push(claim);
    }
    (points, claims)
}

/// What is left to the commitment scheme: the openings of the sign, carry and chunk index columns, of
/// the increments, and of the pushforwards.
#[derive(Debug)]
pub struct OpenObligations<F> {
    pub inventory: Stage8Inventory<F>,
    pub rd_point: Vec<F>,
    pub rd_claim: F,
    pub ram_point: Vec<F>,
    pub ram_claim: F,
    pub pushforward_points: Vec<Vec<F>>,
    pub pushforward_claims: Vec<F>,
}

impl<F: Field> OpenObligations<F> {
    /// The obligations are those of the recorded claims.
    pub open spec fn taken_from(
        self,
        acc: Claims<F>,
        n_aux: int,
        base: int,
        d: int,
        log_t: usize,
    ) -> bool {
        &&& self.inventory.taken_from(
            acc,
            aux_requests(acc, n_aux, log_t) + dense_requests(acc, base, d, log_t),
        )
        &&& (self.rd_point@, self.rd_claim) == acc[increments::rd_reduced()]
        &&& (self.ram_point@, self.ram_claim) == acc[increments::ram_reduced()]
        &&& self.pushforward_points@.len() == d
        &&& self.pushforward_claims@.len() == d
        &&& forall|i: int|
            0 <= i < d ==> (#[trigger] self.pushforward_points@[i])@ == acc[gkr::reduction_id(
                base + i,
            )].0
        &&& forall|i: int|
            0 <= i < d ==> #[trigger] self.pushforward_claims@[i] == acc[gkr::reduction_id(
                base + i,
            )].1
    }
}

/// All claims that are left to the commitment scheme are recorded.
pub open spec fn complete_records<F: Field>(acc: Claims<F>, n_aux: int, base: int, d: int) -> bool {
    &&& forall|i: int| 0 <= i < n_aux ==> acc.contains_key(#[trigger] booleanity::reduced_id(i))
    &&& forall|i: int| 0 <= i < d ==> acc.contains_key(#[trigger] gkr::dense_id(base + i))
    &&& forall|i: int| 0 <= i < d ==> acc.contains_key(#[trigger] gkr::reduction_id(base + i))
    &&& acc.contains_key(increments::rd_reduced())
    &&& acc.contains_key(increments::ram_reduced())
}

/// The requested claims are recorded.
proof fn lemma_requests_recorded<F: Field>(
    acc: Claims<F>,
    n_aux: int,
    base: int,
    d: int,
    log_t: usize,
)
    requires
        complete_records(acc, n_aux, base, d),
        n_aux >= 0,
        d >= 0,
        base >= 0,
    ensures
        forall|k: int|
            0 <= k < (aux_requests(acc, n_aux, log_t) + dense_requests(acc, base, d, log_t)).len()
                ==> acc.contains_key(
                (#[trigger] (aux_requests(acc, n_aux, log_t) + dense_requests(
                    acc,
                    base,
                    d,
                    log_t,
                ))[k]).id(),
            ),
{
    lemma_aux_recorded(acc, n_aux, log_t);
    lemma_dense_recorded(acc, base, d, log_t);
}

proof fn lemma_aux_recorded<F: Field>(acc: Claims<F>, n: int, log_t: usize)
    requires
        forall|i: int| 0 <= i < n ==> acc.contains_key(#[trigger] booleanity::reduced_id(i)),
    ensures
        forall|k: int|
            0 <= k < aux_requests(acc, n, log_t).len() ==> acc.contains_key(
                (#[trigger] aux_requests(acc, n, log_t)[k]).id(),
            ),
    decreases n,
{
    if n > 0 {
        lemma_aux_recorded(acc, n - 1, log_t);
        assert(acc.contains_key(booleanity::reduced_id(n - 1)));
    }
}

proof fn lemma_dense_recorded<F: Field>(acc: Claims<F>, base: int, n: int, log_t: usize)
    requires
        forall|i: int| 0 <= i < n ==> acc.contains_key(#[trigger] gkr::dense_id(base + i)),
    ensures
        forall|k: int|
            0 <= k < dense_requests(acc, base, n, log_t).len() ==> acc.contains_key(
                (#[trigger] dense_requests(acc, base, n, log_t)[k]).id(),
            ),
    decreases n,
{
    if n > 0 {
        lemma_dense_recorded(acc, base, n - 1, log_t);
        assert(acc.contains_key(gkr::dense_id(base + (n - 1))));
    }
}

/// Collect what is left to the commitment scheme.
pub fn open_obligations<F: Field>(
    accumulator: &Openings<F>,
    n_aux: usize,
    base_index: usize,
    d: usize,
    log_t: usize,
) -> (r: OpenObligations<F>)
    requires
        base_index + d <= usize::MAX,
        complete_records(accumulator@, n_aux as int, base_index as int, d as int),
    ensures
        r.taken_from(accumulator@, n_aux as int, base_index as int, d as int, log_t),
{
    let mut requests: Vec<Stage8Request> = nonzero_r1cs_aux_requests(accumulator, n_aux, log_t);
    push_bytecode_radense_requests(&mut requests, accumulator, base_index, d, log_t);
    proof {
        lemma_requests_recorded(accumulator@, n_aux as int, base_index as int, d as int, log_t);
    }
    let inventory: Stage8Inventory<F> = Stage8Inventory::from_accumulator(accumulator, requests);
    let (rd_point, rd_claim) = accumulator.get_committed_polynomial_opening(
        CommittedPolynomial::RdInc,
        SumcheckId::IncClaimReduction,
    );
    let (ram_point, ram_claim) = accumulator.get_committed_polynomial_opening(
        CommittedPolynomial::RamInc,
        SumcheckId::IncClaimReduction,
    );
    let (pushforward_points, pushforward_claims) = bytecode_pushforward_points_claims(
        accumulator,
        base_index,
        d,
    );
    OpenObligations {
        inventory,
        rd_point,
        rd_claim,
        ram_point,
        ram_claim,
        pushforward_points,
        pushforward_claims,
    }
}

/// The committed claims of the binary stages.
pub open spec fn binary_claim(id: OpeningId) -> bool {
    match id {
        OpeningId::Committed(_, s) => {
            &&& s != SumcheckId::BytecodeReadRaf
            &&& s != SumcheckId::PushforwardGkr
            &&& s != SumcheckId::PushforwardReduction
        },
        OpeningId::Virtual(_, _) => false,
    }
}

/// The pushforward proofs of `n` chunks leave their records and the claims of the binary stages.
pub open spec fn pushed<F: Field>(before: Claims<F>, after: Claims<F>, base: int, n: int) -> bool {
    &&& forall|i: int| 0 <= i < n ==> after.contains_key(#[trigger] gkr::dense_id(base + i))
    &&& forall|i: int| 0 <= i < n ==> after.contains_key(#[trigger] gkr::reduction_id(base + i))
    &&& forall|id: OpeningId|
        binary_claim(id) ==> #[trigger] accumulator::kept(before, after, id)
}

proof fn lemma_family_pushed<F: Field>(
    acc: Claims<F>,
    mid: Claims<F>,
    base: int,
    n: int,
    a: gkr::LevelClaim<F>,
    b: gkr::LevelClaim<F>,
    r_col: Seq<F>,
    alpha: F,
    combined: F,
)
    requires
        n >= 0,
        pushed(acc, mid, base, n),
    ensures
        pushed(
            acc,
            gkr::cached(mid, base + n, a, b, r_col, alpha, combined),
            base,
            n + 1,
        ),
{
    let after = gkr::cached(mid, base + n, a, b, r_col, alpha, combined);
    assert forall|i: int| 0 <= i < n + 1 implies after.contains_key(
        #[trigger] gkr::dense_id(base + i),
    ) by {
        if i < n {
            assert(mid.contains_key(gkr::dense_id(base + i)));
        }
    }
    assert forall|i: int| 0 <= i < n + 1 implies after.contains_key(
        #[trigger] gkr::reduction_id(base + i),
    ) by {
        if i < n {
            assert(mid.contains_key(gkr::reduction_id(base + i)));
        }
    }
    assert forall|id: OpeningId| binary_claim(id) implies #[trigger] accumulator::kept(
        acc,
        after,
        id,
    ) by {
        assert(accumulator::kept(acc, mid, id));
    }
}

proof fn lemma_honest_pushed<F: Field>(
    chunks: Seq<pushforwards::ChunkModel<F>>,
    n: int,
    log_t: nat,
    base: int,
    r_cycle: Seq<F>,
    acc: Claims<F>,
    s: FsState<F>,
)
    requires
        n >= 0,
        pushforwards::honest_chunks(chunks, n, log_t, base, r_cycle, acc, s).0 is Ok,
    ensures
        pushed(
            acc,
            pushforwards::honest_chunks(chunks, n, log_t, base, r_cycle, acc, s).1,
            base,
            n,
        ),
    decreases n,
{
    if n > 0 {
        lemma_honest_pushed(chunks, n - 1, log_t, base, r_cycle, acc, s);
        let (done, acc1, s1) = pushforwards::honest_chunks(
            chunks,
            n - 1,
            log_t,
            base,
            r_cycle,
            acc,
            s,
        );
        let chunk = chunks[n - 1];
        let family = chunk.family(log_t, r_cycle);
        let (drawn, s2) = pushforward::draw(
            seq![chunk.claim],
            family.log_d,
            s1,
        );
        let (a, s3) = gkr::prove_circuit_run(
            circuit::pyramid(
                family.row_leaves(drawn),
                family.log_t + family.log_d,
            ),
            s2,
        );
        let (b, s4) = gkr::prove_circuit_run(
            circuit::pyramid(family.column_leaves(drawn), family.log_m),
            s3,
        );
        lemma_family_pushed(
            acc,
            acc1,
            base,
            n - 1,
            a,
            b,
            family.r_col,
            drawn.alpha,
            drawn.combined,
        );
    }
}

proof fn lemma_verdict_pushed<F: Field>(
    chunks: Seq<pushforwards::ChunkShape<F>>,
    n: int,
    log_t: nat,
    base: int,
    r_cycle: Seq<F>,
    acc: Claims<F>,
    s: FsState<F>,
)
    requires
        n >= 0,
        pushforwards::verdict_chunks(chunks, n, log_t, base, r_cycle, acc, s).0 is Ok,
    ensures
        pushed(
            acc,
            pushforwards::verdict_chunks(chunks, n, log_t, base, r_cycle, acc, s).1,
            base,
            n,
        ),
    decreases n,
{
    if n > 0 {
        lemma_verdict_pushed(chunks, n - 1, log_t, base, r_cycle, acc, s);
        let (done, acc1, s1) = pushforwards::verdict_chunks(
            chunks,
            n - 1,
            log_t,
            base,
            r_cycle,
            acc,
            s,
        );
        let chunk = chunks[n - 1];
        let shape = chunk.family(log_t, r_cycle);
        let (drawn, s2) = pushforward::draw(
            seq![chunk.claim],
            shape.log_d,
            s1,
        );
        let (ra, s3) = gkr::verify_circuit_run(
            CircuitTag::A,
            shape.log_t + shape.log_d,
            s2,
        );
        let (rb, s4) = gkr::verify_circuit_run(
            CircuitTag::B,
            shape.log_m,
            s3,
        );
        lemma_family_pushed(
            acc,
            acc1,
            base,
            n - 1,
            ra->Ok_0.0,
            rb->Ok_0.0,
            shape.r_col,
            drawn.alpha,
            drawn.combined,
        );
    }
}

/// The binary stages leave the claims of the sign and carry columns and of the increments.
pub open spec fn binary_records<F: Field>(acc: Claims<F>, n_aux: int) -> bool {
    &&& forall|i: int| 0 <= i < n_aux ==> acc.contains_key(#[trigger] booleanity::reduced_id(i))
    &&& acc.contains_key(increments::rd_reduced())
    &&& acc.contains_key(increments::ram_reduced())
}

proof fn lemma_aux_keeps<F: Field>(acc: Claims<F>, xs: Seq<F>, v: Seq<F>, n: int)
    requires
        acc.contains_key(increments::rd_reduced()),
        acc.contains_key(increments::ram_reduced()),
        0 <= n <= usize::MAX,
    ensures
        binary_records(booleanity::cached(acc, xs, v, n), n),
    decreases n,
{
    if n > 0 {
        lemma_aux_keeps(acc, xs, v, n - 1);
        let after = booleanity::cached(acc, xs, v, n);
        assert forall|i: int| 0 <= i < n implies after.contains_key(
            #[trigger] booleanity::reduced_id(i),
        ) by {
            booleanity::lemma_cached(acc, xs, v, n, i);
        }
    }
}

proof fn lemma_binary_honest<F: Field>(
    w: RealWitness<F>,
    acc: Claims<F>,
    s: FsState<F>,
)
    ensures
        ({
            let (claims, acc1, s1) = driver::honest(
                w.r1cs,
                w.ram,
                w.registers,
                w.ram_public@,
                w.key,
                acc,
                s,
            );
            binary_records(acc1, claims.aux.len() as int) || claims.aux.len() > usize::MAX
        }),
{
    let (c1, acc1, s1) = spartan_stage::honest(w.r1cs, w.key, acc, s);
    let (c2, acc2, s2) = memory::honest(w.ram, w.registers, w.ram_public@, acc1, s1);
    assert(acc2.contains_key(increments::rd_reduced()));
    assert(acc2.contains_key(increments::ram_reduced()));
    let n = w.r1cs.log_num_cycles as nat;
    let s3 = s2.squeeze_n(n);
    let tab = driver::aux_table(w.r1cs, s2.coins(n), s3.next());
    let xs = gruen::claimed_run(tab, s2.coins(n), F::of_int(0), s3.squeeze()).0;
    let evals = sumcheck::bound_row(tab.columns, xs).skip(1);
    if evals.len() <= usize::MAX {
        lemma_aux_keeps(acc2, xs, evals, evals.len() as int);
    }
}

proof fn lemma_binary_verdict<F: Field>(
    proof: BinaryClaims<F>,
    key: R1csKey<F>,
    log_t: nat,
    ram_log_k: nat,
    reg_log_k: nat,
    public: PublicColumns<F>,
    acc: Claims<F>,
    s: FsState<F>,
)
    requires
        proof.aux.len() <= usize::MAX,
        driver::verdict(proof, key, log_t, ram_log_k, reg_log_k, public, acc, s).0 is Ok,
    ensures
        binary_records(
            driver::verdict(proof, key, log_t, ram_log_k, reg_log_k, public, acc, s).1,
            proof.aux.len() as int,
        ),
{
    let (r1, acc1, s1) = spartan_stage::verdict(proof.spartan, key, acc, s);
    let (r2, acc2, s2) = memory::verdict(
        proof.memory,
        log_t,
        ram_log_k,
        reg_log_k,
        public,
        acc1,
        s1,
    );
    assert(acc2.contains_key(increments::rd_reduced()));
    assert(acc2.contains_key(increments::ram_reduced()));
    let s3 = s2.squeeze_n(log_t);
    let (verdict, s4) = sumcheck::verify_run(
        F::of_int(0),
        log_t,
        booleanity::DEGREE as nat,
        s3.squeeze(),
    );
    match verdict {
        Ok((xs, value)) => {
            lemma_aux_keeps(acc2, xs, proof.aux, proof.aux.len() as int);
        },
        Err(_) => {},
    }
}

/// The read check hands its chunk openings over.
proof fn lemma_handed_over<F: Field>(
    log_t: nat,
    base: int,
    widths: Seq<usize>,
    acc: Claims<F>,
    xs: Seq<F>,
)
    requires
        widths.len() > 0,
        bytecode_check::records(widths, log_t, acc, xs),
    ensures
        bridge(log_t, base, widths).handed_over(acc),
        forall|i: int|
            0 <= i < widths.len() ==> (#[trigger] acc[bridge(
                log_t,
                base,
                widths,
            ).chunk_id(i)]).0.skip(widths[i] as int) == bridge(log_t, base, widths).cycle(acc),
{
    let inp = bytecode_check::inputs(
        widths,
        log_t,
        Seq::<shout_read_raf::StageModel<F>>::empty(),
    );
    assert(pushforwards::hand_over(inp, base) == bridge(log_t, base, widths));
    pushforwards::lemma_handed_over(inp, base, acc, xs);
}

/// Every record that is left to the commitment scheme is there.
proof fn lemma_complete<F: Field>(
    binary: Claims<F>,
    read: Claims<F>,
    last: Claims<F>,
    n_aux: int,
    base: int,
    d: int,
)
    requires
        binary_records(binary, n_aux),
        forall|id: OpeningId|
            bytecode_check::foreign(id) ==> #[trigger] accumulator::kept(binary, read, id),
        pushed(read, last, base, d),
    ensures
        complete_records(last, n_aux, base, d),
{
    assert forall|id: OpeningId| binary_claim(id) && binary.contains_key(id) implies
        #[trigger] last.contains_key(id) by {
        assert(bytecode_check::foreign(id));
        assert(accumulator::kept(binary, read, id));
        assert(accumulator::kept(read, last, id));
    }
    assert forall|i: int| 0 <= i < n_aux implies last.contains_key(
        #[trigger] booleanity::reduced_id(i),
    ) by {
        assert(binary.contains_key(booleanity::reduced_id(i)));
        assert(binary_claim(booleanity::reduced_id(i)));
    }
    assert(binary_claim(increments::rd_reduced()));
    assert(binary_claim(increments::ram_reduced()));
}

/// The sizes of the bytecode check and of its pushforwards fit the machine.
pub open spec fn bytecode_sized(
    widths: Seq<usize>,
    log_t: nat,
    log_register: nat,
    base: int,
) -> bool {
    &&& bytecode_check::sized(widths, log_t, log_register)
    &&& widths.len() > 0
    &&& base + widths.len() <= usize::MAX
}

/// Every chunk fits, with and without the cycles.
proof fn lemma_widths_fit(widths: Seq<usize>, log_t: nat, log_register: nat, base: int)
    requires
        bytecode_sized(widths, log_t, log_register, base),
    ensures
        pow2(log_t) <= usize::MAX,
        forall|i: int|
            0 <= i < widths.len() ==> #[trigger] widths[i] + log_t <= usize::MAX && pow2(
                widths[i] as nat,
            ) <= usize::MAX,
{
    let bits = shout_read_raf::address_bits(widths);
    poly::lemma_pow2_monotone(log_t, bits + log_t);
    assert forall|i: int| 0 <= i < widths.len() implies #[trigger] widths[i] + log_t <= usize::MAX
        && pow2(widths[i] as nat) <= usize::MAX by {
        shout_read_raf::lemma_offset_monotone(widths, i + 1, widths.len() as int);
        poly::lemma_pow2_monotone(widths[i] as nat, bits + log_t);
    }
}

/// The claims of a whole proof, the pushforwards or an error, the records and the transcript.
pub open spec fn honest<F: Field>(
    w: RealWitness<F>,
    bytecode: Seq<Instruction>,
    indices: Seq<Seq<u32>>,
    widths: Seq<usize>,
    log_register: nat,
    base: int,
    s: FsState<F>,
) -> (BinaryClaims<F>, (Seq<F>, Seq<F>), Result<Seq<Seq<F>>, GkrError>, Claims<F>, FsState<F>) {
    let log_t = w.r1cs.log_num_cycles as nat;
    let (claims, acc1, s1) = driver::honest(
        w.r1cs,
        w.ram,
        w.registers,
        w.ram_public@,
        w.key,
        Map::<OpeningId, (Seq<F>, F)>::empty(),
        s,
    );
    let (seeds, openings, acc2, s2) = bytecode_check::honest(
        bytecode,
        indices,
        widths,
        log_t,
        log_register,
        acc1,
        s1,
    );
    let fam = bridge(log_t, base, widths);
    let (made, acc3, s3) = pushforwards::honest_chunks(
        fam.chunks(acc2, indices),
        indices.len() as int,
        log_t,
        base,
        fam.cycle(acc2),
        acc2,
        s2,
    );
    (claims, (seeds, openings), made, acc3, s3)
}

/// What the prover hands on: the proof, what is left to the commitment scheme, and the pushforwards
/// to be committed.
#[derive(Debug)]
pub struct ProverOutput<F> {
    pub proof: E2eProof<F>,
    pub obligations: OpenObligations<F>,
    pub pushforward_columns: Vec<Vec<F>>,
}

/// Prove a traced program. Fails only if a chunk opening does not match its index column.
pub fn prove_e2e<F: Field, T: ProverFs<F>>(
    witness: &RealWitness<F>,
    bc: &BytecodeProverInputs<'_>,
    transcript: &mut T,
) -> (r: Result<ProverOutput<F>, E2eError>)
    requires
        driver::provable(
            witness.r1cs,
            witness.ram,
            witness.registers,
            witness.ram_public@,
            witness.key,
        ),
        bytecode_sized(
            bc.log_k_chunks@,
            witness.r1cs.log_num_cycles as nat,
            bc.log_register as nat,
            bc.base_index as int,
        ),
        bytecode_check::bytecode_fits(bc.bytecode@, pow2(bc.log_register as nat)),
        read_raf_stage::indices_fit(
            poly::contents(bc.indices@),
            bc.log_k_chunks@,
            witness.r1cs.log_num_cycles as nat,
        ),
    ensures
        ({
            let (claims, read, made, acc, s) = honest(
                *witness,
                bc.bytecode@,
                poly::contents(bc.indices@),
                bc.log_k_chunks@,
                bc.log_register as nat,
                bc.base_index as int,
                old(transcript).state(),
            );
            &&& final(transcript).state() == s
            &&& match r {
                Ok(out) => {
                    &&& made == Ok::<Seq<Seq<F>>, GkrError>(
                        poly::contents(out.pushforward_columns@),
                    )
                    &&& out.proof.binary@ == claims
                    &&& out.proof.bytecode_read_raf.rv_seeds@ == read.0
                    &&& out.proof.bytecode_read_raf.read_raf.ra_openings@ == read.1
                    &&& out.proof.bytecode_pushforward_gkr@.len() == bc.log_k_chunks@.len()
                    &&& out.obligations.taken_from(
                        acc,
                        claims.aux.len() as int,
                        bc.base_index as int,
                        bc.log_k_chunks@.len() as int,
                        witness.r1cs.log_num_cycles,
                    )
                },
                Err(e) => made is Err && e == E2eError::Pushforward(made->Err_0),
            }
        }),
{
    let log_t: usize = witness.r1cs.log_num_cycles;
    let ghost s0 = transcript.state();
    let ghost cols = poly::contents(bc.indices@);
    let ghost ws = bc.log_k_chunks@;
    let mut accumulator: Openings<F> = Openings::new(log_t);
    let binary: BinaryProof<F> = prove_binary_into(
        &witness.r1cs,
        &witness.ram,
        &witness.registers,
        &witness.ram_public,
        &witness.key,
        &mut accumulator,
        transcript,
    );
    let ghost acc1 = accumulator@;
    let ghost s1 = transcript.state();
    let n_aux: usize = binary.aux_evals.len();
    proof {
        lemma_binary_honest(*witness, Map::<OpeningId, (Seq<F>, F)>::empty(), s0);
        lemma_widths_fit(ws, log_t as nat, bc.log_register as nat, bc.base_index as int);
        bytecode_check::lemma_honest_leaves(
            bc.bytecode@,
            cols,
            ws,
            log_t as nat,
            bc.log_register as nat,
            acc1,
            s1,
        );
    }
    let fam: ReadRafPushforward = bytecode_pushforward_family(
        log_t,
        bc.base_index,
        &bc.log_k_chunks,
    );
    let widths: Vec<usize> = copied_widths(&bc.log_k_chunks);
    let bytecode_read_raf: BytecodeReadRafProof<F> = prove_bytecode_read_raf(
        bc.bytecode,
        &bc.indices,
        widths,
        log_t,
        bc.log_register,
        &mut accumulator,
        transcript,
    );
    let ghost acc2 = accumulator@;
    let ghost s2 = transcript.state();
    proof {
        let xs = choose|xs: Seq<F>| #[trigger] bytecode_check::records(ws, log_t as nat, acc2, xs);
        lemma_handed_over(log_t as nat, bc.base_index as int, ws, acc2, xs);
        assert forall|i: int| 0 <= i < bc.indices@.len() implies {
            &&& (#[trigger] bc.indices@[i])@.len() == pow2(log_t as nat)
            &&& pow2(ws[i] as nat) <= usize::MAX
            &&& forall|j: int|
                0 <= j < bc.indices@[i]@.len() ==> #[trigger] bc.indices@[i]@[j] < pow2(
                    ws[i] as nat,
                )
        } by {
            assert(cols[i] == bc.indices@[i]@);
            assert(ws[i] + log_t <= usize::MAX);
            assert forall|j: int| 0 <= j < bc.indices@[i]@.len() implies #[trigger] bc.indices@[i]@[j]
                < pow2(ws[i] as nat) by {
                assert(cols[i][j] < pow2(ws[i] as nat));
            }
        }
    }
    match prove_read_raf_pushforward(&fam, &bc.indices, &mut accumulator, transcript) {
        Err(e) => Err(E2eError::Pushforward(e)),
        Ok((bytecode_pushforward_gkr, pushforward_columns)) => {
            proof {
                lemma_honest_pushed(
                    fam@.chunks(acc2, cols),
                    cols.len() as int,
                    log_t as nat,
                    bc.base_index as int,
                    fam@.cycle(acc2),
                    acc2,
                    s2,
                );
                lemma_complete(
                    acc1,
                    acc2,
                    accumulator@,
                    n_aux as int,
                    bc.base_index as int,
                    ws.len() as int,
                );
            }
            let obligations: OpenObligations<F> = open_obligations(
                &accumulator,
                n_aux,
                bc.base_index,
                bc.log_k_chunks.len(),
                log_t,
            );
            Ok(
                ProverOutput {
                    proof: E2eProof { binary, bytecode_read_raf, bytecode_pushforward_gkr },
                    obligations,
                    pushforward_columns,
                },
            )
        },
    }
}

fn copied_widths(widths: &Vec<usize>) -> (r: Vec<usize>)
    ensures
        r@ == widths@,
{
    let mut out: Vec<usize> = Vec::new();
    for i in 0..widths.len()
        invariant
            out@ == widths@.take(i as int),
    {
        out.push(widths[i]);
        assert(out@ =~= widths@.take(i + 1));
    }
    assert(out@ =~= widths@);
    out
}

/// The verdict on a whole proof up to the openings, the recorded claims, and the transcript.
pub open spec fn verdict<F: Field>(
    binary: BinaryClaims<F>,
    seeds: Seq<F>,
    openings: Seq<F>,
    gkr_proofs: nat,
    key: R1csKey<F>,
    log_t: nat,
    ram_log_k: nat,
    reg_log_k: nat,
    public: PublicColumns<F>,
    bytecode: Seq<Instruction>,
    widths: Seq<usize>,
    log_register: nat,
    base: int,
    s: FsState<F>,
) -> (Result<(), E2eError>, Claims<F>, FsState<F>) {
    let (r1, acc1, s1) = driver::verdict(
        binary,
        key,
        log_t,
        ram_log_k,
        reg_log_k,
        public,
        Map::<OpeningId, (Seq<F>, F)>::empty(),
        s,
    );
    match r1 {
        Err(e) => (Err(E2eError::Driver(e)), acc1, s1),
        Ok(_) => {
            let (r2, acc2, s2) = bytecode_check::verdict(
                seeds,
                openings,
                bytecode,
                widths,
                log_t,
                log_register,
                acc1,
                s1,
            );
            match r2 {
                Err(e) => (Err(E2eError::BytecodeReadRaf(e)), acc2, s2),
                Ok(_) => if gkr_proofs != widths.len() {
                    (Err(E2eError::Pushforward(GkrError::Sumcheck)), acc2, s2)
                } else {
                    let fam = bridge(log_t, base, widths);
                    let (r3, acc3, s3) = pushforwards::verdict_chunks(
                        fam.shapes(acc2),
                        widths.len() as int,
                        log_t,
                        base,
                        fam.cycle(acc2),
                        acc2,
                        s2,
                    );
                    match r3 {
                        Err(e) => (Err(E2eError::Pushforward(e)), acc3, s3),
                        Ok(_) => (Ok(()), acc3, s3),
                    }
                },
            }
        },
    }
}

/// Verify a whole proof up to the openings of committed polynomials, which are returned: the proof
/// is accepted if the commitment scheme accepts them.
pub fn verify_e2e<F: Field, T: VerifierFs<F>>(
    proof: &E2eProof<F>,
    params: &VerifierParams<'_, F>,
    bc: &BytecodeVerifierInputs<'_>,
    transcript: &mut T,
) -> (r: Result<OpenObligations<F>, E2eError>)
    requires
        params.key.wf(),
        params.num_row_vars == params.key.row_vars(),
        params.ram_log_k + params.log_num_cycles <= usize::MAX,
        params.reg_log_k + params.log_num_cycles <= usize::MAX,
        params.ram_public@.sized(params.ram_log_k as nat),
        params.n_aux <= proof.binary.aux_evals@.len(),
        bytecode_sized(
            bc.log_k_chunks@,
            params.log_num_cycles as nat,
            bc.log_register as nat,
            bc.base_index as int,
        ),
        bytecode_check::bytecode_fits(bc.bytecode@, pow2(bc.log_register as nat)),
        proof.bytecode_read_raf.read_raf.ra_openings@.len() == bc.log_k_chunks@.len(),
    ensures
        ({
            let (verdict, acc, s) = verdict(
                proof.binary@,
                proof.bytecode_read_raf.rv_seeds@,
                proof.bytecode_read_raf.read_raf.ra_openings@,
                proof.bytecode_pushforward_gkr@.len(),
                *params.key,
                params.log_num_cycles as nat,
                params.ram_log_k as nat,
                params.reg_log_k as nat,
                params.ram_public@,
                bc.bytecode@,
                bc.log_k_chunks@,
                bc.log_register as nat,
                bc.base_index as int,
                old(transcript).state(),
            );
            &&& final(transcript).state() == s
            &&& match r {
                Ok(obligations) => verdict is Ok && obligations.taken_from(
                    acc,
                    params.n_aux as int,
                    bc.base_index as int,
                    bc.log_k_chunks@.len() as int,
                    params.log_num_cycles,
                ),
                Err(e) => verdict == Err::<(), E2eError>(e),
            }
        }),
{
    let log_t: usize = params.log_num_cycles;
    let sent: usize = proof.binary.aux_evals.len();
    let ghost s0 = transcript.state();
    let ghost ws = bc.log_k_chunks@;
    let ghost empty = Map::<OpeningId, (Seq<F>, F)>::empty();
    let mut accumulator: Openings<F> = Openings::new(log_t);
    match verify_binary_into(
        &proof.binary,
        params.key,
        params.num_row_vars,
        log_t,
        params.ram_log_k,
        params.reg_log_k,
        params.ram_public,
        &mut accumulator,
        transcript,
    ) {
        Err(e) => {
            return Err(E2eError::Driver(e));
        },
        Ok(_) => {},
    }
    let ghost acc1 = accumulator@;
    let ghost s1 = transcript.state();
    proof {
        assert(proof.binary@.aux.len() == sent);
        lemma_binary_verdict(
            proof.binary@,
            *params.key,
            log_t as nat,
            params.ram_log_k as nat,
            params.reg_log_k as nat,
            params.ram_public@,
            empty,
            s0,
        );
        lemma_widths_fit(ws, log_t as nat, bc.log_register as nat, bc.base_index as int);
    }
    let widths: Vec<usize> = copied_widths(&bc.log_k_chunks);
    match verify_bytecode_read_raf(
        &proof.bytecode_read_raf,
        bc.bytecode,
        widths,
        log_t,
        bc.log_register,
        &mut accumulator,
        transcript,
    ) {
        Err(e) => {
            return Err(E2eError::BytecodeReadRaf(e));
        },
        Ok(_) => {},
    }
    let ghost acc2 = accumulator@;
    let ghost s2 = transcript.state();
    proof {
        bytecode_check::lemma_verdict_leaves(
            proof.bytecode_read_raf.rv_seeds@,
            proof.bytecode_read_raf.read_raf.ra_openings@,
            bc.bytecode@,
            ws,
            log_t as nat,
            bc.log_register as nat,
            acc1,
            s1,
        );
        let xs = choose|xs: Seq<F>| #[trigger] bytecode_check::records(ws, log_t as nat, acc2, xs);
        lemma_handed_over(log_t as nat, bc.base_index as int, ws, acc2, xs);
    }
    let fam: ReadRafPushforward = bytecode_pushforward_family(
        log_t,
        bc.base_index,
        &bc.log_k_chunks,
    );
    match verify_read_raf_pushforward(
        &fam,
        &proof.bytecode_pushforward_gkr,
        &mut accumulator,
        transcript,
    ) {
        Err(e) => {
            return Err(E2eError::Pushforward(e));
        },
        Ok(_) => {},
    }
    proof {
        lemma_verdict_pushed(
            fam@.shapes(acc2),
            ws.len() as int,
            log_t as nat,
            bc.base_index as int,
            fam@.cycle(acc2),
            acc2,
            s2,
        );
        lemma_complete(
            acc1,
            acc2,
            accumulator@,
            params.n_aux as int,
            bc.base_index as int,
            ws.len() as int,
        );
    }
    Ok(
        open_obligations(
            &accumulator,
            params.n_aux,
            bc.base_index,
            bc.log_k_chunks.len(),
            log_t,
        ),
    )
}

/// The verdict on the openings, given the three answers of the commitment scheme: the first one that
/// fails decides.
pub fn settle_openings(
    inventory: bool,
    increments_opened: bool,
    pushforward_opened: bool,
) -> (r: Result<
    (),
    E2eError,
>)
    ensures
        r is Ok <==> inventory && increments_opened && pushforward_opened,
        !inventory ==> r == Err::<(), E2eError>(E2eError::Stage8(Stage8OpenError::Inventory)),
        inventory && !increments_opened ==> r == Err::<(), E2eError>(
            E2eError::Stage8(Stage8OpenError::Increments),
        ),
        inventory && increments_opened && !pushforward_opened ==> r == Err::<(), E2eError>(
            E2eError::Stage8(Stage8OpenError::Pushforward),
        ),
{
    if !inventory {
        return Err(E2eError::Stage8(Stage8OpenError::Inventory));
    }
    if !increments_opened {
        return Err(E2eError::Stage8(Stage8OpenError::Increments));
    }
    if !pushforward_opened {
        return Err(E2eError::Stage8(Stage8OpenError::Pushforward));
    }
    Ok(())
}

/// Completeness: if every cycle of a traced program satisfies the constraints, the honest proof is
/// made and accepted up to the openings, and both parties are left with the same claims to open.
#[verifier::rlimit(60)]
pub proof fn law_complete<F: Field>(
    w: RealWitness<F>,
    m: ConstraintMatrices<F>,
    trace: Seq<CycleRow>,
    pcs: Seq<u64>,
    lowest: int,
    ram_k: nat,
    register_count: nat,
    bytecode: Seq<Instruction>,
    indices: Seq<Seq<u32>>,
    widths: Seq<usize>,
    log_register: nat,
    base: int,
    p: FsState<F>,
    v: FsState<F>,
    whole: Seq<F>,
)
    requires
        m.num_vars == NUM_VARS,
        w.assembles(m, trace, pcs, lowest, ram_k, register_count),
        real_trace::runs_on(trace, lowest, ram_k as int, register_count as int),
        forall|t: int|
            0 <= t < trace.len() ==> m.satisfied_by(
                #[trigger] r1cs_witness::assignment::<F>(trace, t, pcs),
            ),
        bytecode_sized(widths, w.r1cs.log_num_cycles as nat, log_register, base),
        read_raf_stage::indices_fit(indices, widths, w.r1cs.log_num_cycles as nat),
        p.canonical(),
        transcript::synced(p, v, whole),
        honest(w, bytecode, indices, widths, log_register, base, p).4.tape.is_prefix_of(whole),
    ensures
        ({
            let (claims, read, made, acc1, p1) = honest(
                w,
                bytecode,
                indices,
                widths,
                log_register,
                base,
                p,
            );
            let (r, acc2, v1) = verdict(
                claims,
                read.0,
                read.1,
                widths.len(),
                w.key,
                w.r1cs.log_num_cycles as nat,
                w.ram.log_k as nat,
                w.registers.log_k as nat,
                w.ram_public@,
                bytecode,
                widths,
                log_register,
                base,
                v,
            );
            &&& made is Ok
            &&& r is Ok
            &&& acc2 == acc1
            &&& transcript::synced(p1, v1, whole)
        }),
{
    let log_t = w.r1cs.log_num_cycles as nat;
    let empty = Map::<OpeningId, (Seq<F>, F)>::empty();
    let (claims, acc1, p1) = driver::honest(
        w.r1cs,
        w.ram,
        w.registers,
        w.ram_public@,
        w.key,
        empty,
        p,
    );
    let (seeds, openings, acc2, p2) = bytecode_check::honest(
        bytecode,
        indices,
        widths,
        log_t,
        log_register,
        acc1,
        p1,
    );
    let fam = bridge(log_t, base, widths);
    let chunks = fam.chunks(acc2, indices);
    let (made, acc3, p3) = pushforwards::honest_chunks(
        chunks,
        indices.len() as int,
        log_t,
        base,
        fam.cycle(acc2),
        acc2,
        p2,
    );
    lemma_widths_fit(widths, log_t, log_register, base);
    bytecode_check::lemma_honest_leaves(
        bytecode,
        indices,
        widths,
        log_t,
        log_register,
        acc1,
        p1,
    );
    let xs = choose|xs: Seq<F>| #[trigger] bytecode_check::records(widths, log_t, acc2, xs);
    lemma_handed_over(log_t, base, widths, acc2, xs);
    assert(fam.cycle(acc2).len() == log_t) by {
        assert(accumulator::recorded(acc2, fam.chunk_id(0), widths[0] as nat + log_t));
    }
    assert forall|i: int| 0 <= i < chunks.len() implies (#[trigger] chunks[i]).sized(log_t) by {
        assert(accumulator::recorded(acc2, fam.chunk_id(i), widths[i] as nat + log_t));
        assert(indices[i].len() == pow2(log_t));
        assert(widths[i] + log_t <= usize::MAX);
        assert forall|j: int| 0 <= j < indices[i].len() implies #[trigger] indices[i][j] < pow2(
            widths[i] as nat,
        ) by {}
    }
    pushforwards::lemma_chunks_extend(
        chunks,
        0,
        indices.len() as int,
        log_t,
        base,
        fam.cycle(acc2),
        acc2,
        p2,
    );
    transcript::lemma_prefix_trans(p2.tape, p3.tape, whole);
    transcript::lemma_prefix_trans(p1.tape, p2.tape, whole);
    real_trace::law_trace_complete(
        w,
        m,
        trace,
        pcs,
        lowest,
        ram_k,
        register_count,
        empty,
        p,
        v,
        whole,
    );
    let v1 = driver::verdict(
        claims,
        w.key,
        log_t,
        w.ram.log_k as nat,
        w.registers.log_k as nat,
        w.ram_public@,
        empty,
        v,
    ).2;
    bytecode_check::law_complete(
        bytecode,
        indices,
        widths,
        log_t,
        log_register,
        acc1,
        p1,
        v1,
        whole,
    );
    let v2 = bytecode_check::verdict(
        seeds,
        openings,
        bytecode,
        widths,
        log_t,
        log_register,
        acc1,
        v1,
    ).2;
    let columns = read_raf_stage::chunk_columns::<F>(indices, widths);
    assert forall|i: int| 0 <= i < indices.len() implies {
        &&& (#[trigger] acc2[fam.chunk_id(i)]).0.skip(widths[i] as int) == fam.cycle(acc2)
        &&& acc2[fam.chunk_id(i)].1 == poly::mle(
            access::one_hot::<F>(access::marks(indices[i]), pow2(widths[i] as nat)),
            acc2[fam.chunk_id(i)].0,
        )
    } by {
        assert(fam.chunk_id(i) == bytecode_check::chunk_id(i));
        assert(columns[i] == access::one_hot::<F>(
            access::marks(indices[i]),
            pow2(widths[i] as nat),
        ));
    }
    pushforwards::law_hand_over_complete(fam, indices, acc2, p2, v2, whole);
}

/// An error of the binary proof is the error of the whole.
pub proof fn law_driver_error_carried<F: Field>(
    binary: BinaryClaims<F>,
    seeds: Seq<F>,
    openings: Seq<F>,
    gkr_proofs: nat,
    key: R1csKey<F>,
    log_t: nat,
    ram_log_k: nat,
    reg_log_k: nat,
    public: PublicColumns<F>,
    bytecode: Seq<Instruction>,
    widths: Seq<usize>,
    log_register: nat,
    base: int,
    s: FsState<F>,
    e: DriverError,
)
    requires
        driver::verdict(
            binary,
            key,
            log_t,
            ram_log_k,
            reg_log_k,
            public,
            Map::<OpeningId, (Seq<F>, F)>::empty(),
            s,
        ).0 == Err::<(), DriverError>(e),
    ensures
        verdict(
            binary,
            seeds,
            openings,
            gkr_proofs,
            key,
            log_t,
            ram_log_k,
            reg_log_k,
            public,
            bytecode,
            widths,
            log_register,
            base,
            s,
        ).0 == Err::<(), E2eError>(
            E2eError::Driver(e),
        ),
{
}

/// The claims and the transcript behind the binary proof.
pub open spec fn after_binary<F: Field>(
    binary: BinaryClaims<F>,
    key: R1csKey<F>,
    log_t: nat,
    ram_log_k: nat,
    reg_log_k: nat,
    public: PublicColumns<F>,
    s: FsState<F>,
) -> (Result<(), DriverError>, Claims<F>, FsState<F>) {
    driver::verdict(
        binary,
        key,
        log_t,
        ram_log_k,
        reg_log_k,
        public,
        Map::<OpeningId, (Seq<F>, F)>::empty(),
        s,
    )
}

/// Behind an accepted binary proof an error of the bytecode check is the error of the whole.
pub proof fn law_bytecode_error_carried<F: Field>(
    binary: BinaryClaims<F>,
    seeds: Seq<F>,
    openings: Seq<F>,
    gkr_proofs: nat,
    key: R1csKey<F>,
    log_t: nat,
    ram_log_k: nat,
    reg_log_k: nat,
    public: PublicColumns<F>,
    bytecode: Seq<Instruction>,
    widths: Seq<usize>,
    log_register: nat,
    base: int,
    s: FsState<F>,
    e: ReadRafStageError,
)
    requires
        ({
            let (r, acc, s1) = after_binary(binary, key, log_t, ram_log_k, reg_log_k, public, s);
            &&& r is Ok
            &&& bytecode_check::verdict(
                seeds,
                openings,
                bytecode,
                widths,
                log_t,
                log_register,
                acc,
                s1,
            ).0 == Err::<(), ReadRafStageError>(e)
        }),
    ensures
        verdict(
            binary,
            seeds,
            openings,
            gkr_proofs,
            key,
            log_t,
            ram_log_k,
            reg_log_k,
            public,
            bytecode,
            widths,
            log_register,
            base,
            s,
        ).0 == Err::<(), E2eError>(
            E2eError::BytecodeReadRaf(e),
        ),
{
}

/// Behind an accepted bytecode check an error of a pushforward is the error of the whole, and so is a
/// wrong number of pushforward proofs.
pub proof fn law_pushforward_error_carried<F: Field>(
    binary: BinaryClaims<F>,
    seeds: Seq<F>,
    openings: Seq<F>,
    gkr_proofs: nat,
    key: R1csKey<F>,
    log_t: nat,
    ram_log_k: nat,
    reg_log_k: nat,
    public: PublicColumns<F>,
    bytecode: Seq<Instruction>,
    widths: Seq<usize>,
    log_register: nat,
    base: int,
    s: FsState<F>,
    e: GkrError,
)
    requires
        ({
            let (r1, acc1, s1) = after_binary(binary, key, log_t, ram_log_k, reg_log_k, public, s);
            let (r2, acc2, s2) = bytecode_check::verdict(
                seeds,
                openings,
                bytecode,
                widths,
                log_t,
                log_register,
                acc1,
                s1,
            );
            let fam = bridge(log_t, base, widths);
            &&& r1 is Ok
            &&& r2 is Ok
            &&& if gkr_proofs == widths.len() {
                pushforwards::verdict_chunks(
                    fam.shapes(acc2),
                    widths.len() as int,
                    log_t,
                    base,
                    fam.cycle(acc2),
                    acc2,
                    s2,
                ).0 == Err::<(), GkrError>(e)
            } else {
                e == GkrError::Sumcheck
            }
        }),
    ensures
        verdict(
            binary,
            seeds,
            openings,
            gkr_proofs,
            key,
            log_t,
            ram_log_k,
            reg_log_k,
            public,
            bytecode,
            widths,
            log_register,
            base,
            s,
        ).0 == Err::<(), E2eError>(
            E2eError::Pushforward(e),
        ),
{
}

/// Where one proof is accepted, another whose row openings say something else of the row is refused,
/// unless their weight cancels the difference.
pub proof fn law_changed_rows_refused<F: Field>(
    accepted: BinaryClaims<F>,
    binary: BinaryClaims<F>,
    seeds: Seq<F>,
    openings: Seq<F>,
    gkr_proofs: nat,
    key: R1csKey<F>,
    log_t: nat,
    ram_log_k: nat,
    reg_log_k: nat,
    public: PublicColumns<F>,
    bytecode: Seq<Instruction>,
    widths: Seq<usize>,
    log_register: nat,
    base: int,
    s: FsState<F>,
)
    requires
        verdict(
            accepted,
            seeds,
            openings,
            gkr_proofs,
            key,
            log_t,
            ram_log_k,
            reg_log_k,
            public,
            bytecode,
            widths,
            log_register,
            base,
            s,
        ).0 is Ok,
        spartan_stage::row_weight(key, s).times(
            spartan_stage::said(binary.spartan).minus(spartan_stage::said(accepted.spartan)),
        ) != F::of_int(0),
    ensures
        verdict(
            binary,
            seeds,
            openings,
            gkr_proofs,
            key,
            log_t,
            ram_log_k,
            reg_log_k,
            public,
            bytecode,
            widths,
            log_register,
            base,
            s,
        ).0 == Err::<(), E2eError>(
            E2eError::Driver(DriverError::Spartan(SpartanStageError::OuterClaim)),
        ),
{
    spartan_stage::law_changed_rows_refused(
        accepted.spartan,
        binary.spartan,
        key,
        Map::<OpeningId, (Seq<F>, F)>::empty(),
        s,
    );
}

/// Where one proof is accepted, another that differs in the auxiliary openings is refused by the
/// booleanity check, unless their weight cancels the difference of the batches.
pub proof fn law_changed_aux_refused<F: Field>(
    accepted: BinaryClaims<F>,
    aux: Seq<F>,
    seeds: Seq<F>,
    openings: Seq<F>,
    gkr_proofs: nat,
    key: R1csKey<F>,
    log_t: nat,
    ram_log_k: nat,
    reg_log_k: nat,
    public: PublicColumns<F>,
    bytecode: Seq<Instruction>,
    widths: Seq<usize>,
    log_register: nat,
    base: int,
    s: FsState<F>,
)
    requires
        verdict(
            accepted,
            seeds,
            openings,
            gkr_proofs,
            key,
            log_t,
            ram_log_k,
            reg_log_k,
            public,
            bytecode,
            widths,
            log_register,
            base,
            s,
        ).0 is Ok,
        aux.len() == accepted.aux.len() <= usize::MAX,
        ({
            let (r1, acc1, s1) = spartan_stage::verdict(
                accepted.spartan,
                key,
                Map::<OpeningId, (Seq<F>, F)>::empty(),
                s,
            );
            let s2 = memory::verdict(
                accepted.memory,
                log_t,
                ram_log_k,
                reg_log_k,
                public,
                acc1,
                s1,
            ).2;
            let (g, w) = driver::aux_weight(log_t, s2);
            let powers = booleanity::even_powers(g, accepted.aux.len());
            w.times(
                booleanity::batch(powers, aux).minus(booleanity::batch(powers, accepted.aux)),
            ) != F::of_int(0)
        }),
    ensures
        verdict(
            (BinaryClaims { aux, ..accepted }),
            seeds,
            openings,
            gkr_proofs,
            key,
            log_t,
            ram_log_k,
            reg_log_k,
            public,
            bytecode,
            widths,
            log_register,
            base,
            s,
        ).0 == Err::<(), E2eError>(
            E2eError::Driver(DriverError::Booleanity),
        ),
{
    driver::law_changed_binary_aux_refused(
        accepted,
        BinaryClaims { aux, ..accepted },
        key,
        log_t,
        ram_log_k,
        reg_log_k,
        public,
        Map::<OpeningId, (Seq<F>, F)>::empty(),
        s,
    );
}

/// Where one proof is accepted, another whose chunk openings have a different product is refused by
/// the read check of the bytecode, unless its weight cancels the difference.
pub proof fn law_changed_openings_refused<F: Field>(
    binary: BinaryClaims<F>,
    seeds: Seq<F>,
    accepted: Seq<F>,
    openings: Seq<F>,
    gkr_proofs: nat,
    key: R1csKey<F>,
    log_t: nat,
    ram_log_k: nat,
    reg_log_k: nat,
    public: PublicColumns<F>,
    bytecode: Seq<Instruction>,
    widths: Seq<usize>,
    log_register: nat,
    base: int,
    s: FsState<F>,
)
    requires
        widths.len() <= usize::MAX,
        verdict(
            binary,
            seeds,
            accepted,
            gkr_proofs,
            key,
            log_t,
            ram_log_k,
            reg_log_k,
            public,
            bytecode,
            widths,
            log_register,
            base,
            s,
        ).0 is Ok,
        ({
            let (r, acc, s1) = after_binary(binary, key, log_t, ram_log_k, reg_log_k, public, s);
            let stages = bytecode_check::setup(bytecode, widths, log_t, log_register, s1);
            read_raf_stage::openings_weight(
                bytecode_check::inputs(widths, log_t, stages),
                bytecode_check::seeded(acc, stages, seeds, 5),
                bytecode_check::setup_state(s1, log_t, log_register),
            ).times(
                sums::product(widths.len() as int, |i: int| openings[i]).minus(
                    sums::product(widths.len() as int, |i: int| accepted[i]),
                ),
            ) != F::of_int(0)
        }),
    ensures
        verdict(
            binary,
            seeds,
            openings,
            gkr_proofs,
            key,
            log_t,
            ram_log_k,
            reg_log_k,
            public,
            bytecode,
            widths,
            log_register,
            base,
            s,
        ).0 == Err::<(), E2eError>(
            E2eError::BytecodeReadRaf(ReadRafStageError::Claim),
        ),
{
    let (r, acc, s1) = after_binary(binary, key, log_t, ram_log_k, reg_log_k, public, s);
    bytecode_check::law_changed_openings_refused(
        seeds,
        accepted,
        openings,
        bytecode,
        widths,
        log_t,
        log_register,
        acc,
        s1,
    );
}

/// A sign or carry column is requested exactly when its claim is not zero.
pub proof fn law_aux_requested<F: Field>(acc: Claims<F>, n: int, log_t: usize, i: int)
    requires
        0 <= i < n <= usize::MAX,
    ensures
        aux_requests(acc, n, log_t).contains(aux_request(i, log_t)) <==> acc[aux_request(
            i,
            log_t,
        ).id()].1 != F::of_int(0),
        aux_requests(acc, n, log_t).contains(
            (Stage8Request {
                poly: CommittedPolynomial::R1csAux(i as usize),
                sumcheck: SumcheckId::Booleanity,
                committed_num_vars: log_t,
            }),
        ) <==> acc[OpeningId::Committed(
            CommittedPolynomial::R1csAux(i as usize),
            SumcheckId::Booleanity,
        )].1 != F::of_int(0),
{
    lemma_aux_requested(acc, n, log_t, i);
}

/// The requests among the first `n` columns are those of columns with claims that are not zero.
proof fn lemma_aux_requested<F: Field>(acc: Claims<F>, n: int, log_t: usize, i: int)
    requires
        0 <= i <= usize::MAX,
        n <= usize::MAX,
    ensures
        aux_requests(acc, n, log_t).contains(aux_request(i, log_t)) <==> i < n && acc[aux_request(
            i,
            log_t,
        ).id()].1 != F::of_int(0),
    decreases n,
{
    if n > 0 {
        lemma_aux_requested(acc, n - 1, log_t, i);
        let before = aux_requests(acc, n - 1, log_t);
        let last = aux_request(n - 1, log_t);
        let wanted = aux_request(i, log_t);
        if acc[last.id()].1 != F::of_int(0) {
            let after = before.push(last);
            assert(after[before.len() as int] == last);
            if before.contains(wanted) {
                let k = choose|k: int| 0 <= k < before.len() && before[k] == wanted;
                assert(after[k] == wanted);
            }
            if after.contains(wanted) && !before.contains(wanted) {
                let k = choose|k: int| 0 <= k < after.len() && after[k] == wanted;
                assert(k == before.len());
                assert(wanted.poly == last.poly);
            }
        }
    }
}

/// A chunk index column is requested exactly when its claim is not zero.
pub proof fn law_dense_requested<F: Field>(
    acc: Claims<F>,
    base: int,
    n: int,
    log_t: usize,
    i: int,
)
    requires
        0 <= base,
        base + n <= usize::MAX,
        0 <= i < n,
    ensures
        dense_requests(acc, base, n, log_t).contains(dense_request(base + i, log_t))
            <==> acc[dense_request(base + i, log_t).id()].1 != F::of_int(0),
        dense_requests(acc, base, n, log_t).contains(
            (Stage8Request {
                poly: CommittedPolynomial::RaDense((base + i) as usize),
                sumcheck: SumcheckId::PushforwardGkr,
                committed_num_vars: log_t,
            }),
        ) <==> acc[OpeningId::Committed(
            CommittedPolynomial::RaDense((base + i) as usize),
            SumcheckId::PushforwardGkr,
        )].1 != F::of_int(0),
{
    lemma_dense_requested(acc, base, n, log_t, i);
}

/// The requests among the first `n` columns are those of columns with claims that are not zero.
proof fn lemma_dense_requested<F: Field>(
    acc: Claims<F>,
    base: int,
    n: int,
    log_t: usize,
    i: int,
)
    requires
        0 <= base,
        base + n <= usize::MAX,
        0 <= i,
        base + i <= usize::MAX,
    ensures
        dense_requests(acc, base, n, log_t).contains(dense_request(base + i, log_t)) <==> i < n
            && acc[dense_request(base + i, log_t).id()].1 != F::of_int(0),
    decreases n,
{
    if n > 0 {
        lemma_dense_requested(acc, base, n - 1, log_t, i);
        let before = dense_requests(acc, base, n - 1, log_t);
        let last = dense_request(base + n - 1, log_t);
        let wanted = dense_request(base + i, log_t);
        if acc[last.id()].1 != F::of_int(0) {
            let after = before.push(last);
            assert(after[before.len() as int] == last);
            if before.contains(wanted) {
                let k = choose|k: int| 0 <= k < before.len() && before[k] == wanted;
                assert(after[k] == wanted);
            }
            if after.contains(wanted) && !before.contains(wanted) {
                let k = choose|k: int| 0 <= k < after.len() && after[k] == wanted;
                assert(k == before.len());
                assert(wanted.poly == last.poly);
            }
        }
    }
}

/// An accepted whole proof is refused as a binary proof when any one element of the rounds of the
/// binary proof is changed.
pub proof fn law_changed_round_refused<F: Field>(
    binary: BinaryClaims<F>,
    seeds: Seq<F>,
    openings: Seq<F>,
    gkr_proofs: nat,
    key: R1csKey<F>,
    log_t: nat,
    ram_log_k: nat,
    reg_log_k: nat,
    public: PublicColumns<F>,
    bytecode: Seq<Instruction>,
    widths: Seq<usize>,
    log_register: nat,
    base: int,
    s: FsState<F>,
    j: int,
    delta: F,
)
    requires
        verdict(
            binary,
            seeds,
            openings,
            gkr_proofs,
            key,
            log_t,
            ram_log_k,
            reg_log_k,
            public,
            bytecode,
            widths,
            log_register,
            base,
            s,
        ).0 is Ok,
        0 <= j < driver::rounds_read(
            binary,
            key,
            log_t,
            ram_log_k,
            reg_log_k,
            Map::<OpeningId, (Seq<F>, F)>::empty(),
            s,
        ),
        j < s.tape.len(),
        delta.valid(),
        delta != F::of_int(0),
    ensures
        verdict(
            binary,
            seeds,
            openings,
            gkr_proofs,
            key,
            log_t,
            ram_log_k,
            reg_log_k,
            public,
            bytecode,
            widths,
            log_register,
            base,
            sumcheck::changed(s, j, delta),
        ).0 matches Err(E2eError::Driver(_)),
{
    driver::law_changed_round_refused(
        binary,
        key,
        log_t,
        ram_log_k,
        reg_log_k,
        public,
        Map::<OpeningId, (Seq<F>, F)>::empty(),
        s,
        j,
        delta,
    );
}

/// The whole run between fresh parties with one label: if every cycle of a traced program satisfies
/// the constraints, the proof is made and accepted up to the openings, the verifier reads all of it,
/// and both parties are left with the same claims to open.
pub proof fn law_round_trip<F: Field>(
    w: RealWitness<F>,
    m: ConstraintMatrices<F>,
    trace: Seq<CycleRow>,
    pcs: Seq<u64>,
    lowest: int,
    ram_k: nat,
    register_count: nat,
    bytecode: Seq<Instruction>,
    indices: Seq<Seq<u32>>,
    widths: Seq<usize>,
    log_register: nat,
    base: int,
    label: Seq<u8>,
)
    requires
        m.num_vars == NUM_VARS,
        w.assembles(m, trace, pcs, lowest, ram_k, register_count),
        real_trace::runs_on(trace, lowest, ram_k as int, register_count as int),
        forall|t: int|
            0 <= t < trace.len() ==> m.satisfied_by(
                #[trigger] r1cs_witness::assignment::<F>(trace, t, pcs),
            ),
        bytecode_sized(widths, w.r1cs.log_num_cycles as nat, log_register, base),
        read_raf_stage::indices_fit(indices, widths, w.r1cs.log_num_cycles as nat),
    ensures
        ({
            let p0 = transcript::fresh(label, Seq::empty());
            let (claims, read, made, recorded, p) = honest(
                w,
                bytecode,
                indices,
                widths,
                log_register,
                base,
                p0,
            );
            let (r, acc, v) = verdict(
                claims,
                read.0,
                read.1,
                widths.len(),
                w.key,
                w.r1cs.log_num_cycles as nat,
                w.ram.log_k as nat,
                w.registers.log_k as nat,
                w.ram_public@,
                bytecode,
                widths,
                log_register,
                base,
                transcript::fresh(label, p.tape),
            );
            &&& made is Ok
            &&& r is Ok
            &&& acc == recorded
            &&& v.tape.len() == 0
        }),
{
    let p0 = transcript::fresh::<F>(label, Seq::empty());
    let p = honest(w, bytecode, indices, widths, log_register, base, p0).4;
    transcript::law_fresh(label, p.tape);
    law_complete(
        w,
        m,
        trace,
        pcs,
        lowest,
        ram_k,
        register_count,
        bytecode,
        indices,
        widths,
        log_register,
        base,
        p0,
        transcript::fresh(label, p.tape),
        p.tape,
    );
}

/// Every request for a sign or carry column is that of one of the columns.
proof fn lemma_aux_request_named<F: Field>(acc: Claims<F>, n: int, log_t: usize, k: int)
    requires
        0 <= k < aux_requests(acc, n, log_t).len(),
    ensures
        exists|i: int|
            0 <= i < n && aux_requests(acc, n, log_t)[k] == #[trigger] aux_request(i, log_t),
    decreases n,
{
    if n > 0 {
        if k < aux_requests(acc, n - 1, log_t).len() {
            lemma_aux_request_named(acc, n - 1, log_t, k);
        } else {
            assert(aux_requests(acc, n, log_t)[k] == aux_request(n - 1, log_t));
        }
    }
}

/// Every request for a chunk index column is that of one of the chunks.
proof fn lemma_dense_request_named<F: Field>(acc: Claims<F>, base: int, n: int, log_t: usize, k: int)
    requires
        0 <= k < dense_requests(acc, base, n, log_t).len(),
    ensures
        exists|i: int|
            0 <= i < n && dense_requests(acc, base, n, log_t)[k] == #[trigger] dense_request(
                base + i,
                log_t,
            ),
    decreases n,
{
    if n > 0 {
        if k < dense_requests(acc, base, n - 1, log_t).len() {
            lemma_dense_request_named(acc, base, n - 1, log_t, k);
        } else {
            assert(dense_requests(acc, base, n, log_t)[k] == dense_request(base + (n - 1), log_t));
        }
    }
}

/// The chunk records that the read check and the pushforward proofs leave are true, and the claims of
/// the binary stages are kept.
proof fn lemma_chunk_records_true<F: Field>(
    bytecode: Seq<Instruction>,
    indices: Seq<Seq<u32>>,
    widths: Seq<usize>,
    log_t: nat,
    log_register: nat,
    base: int,
    acc1: Claims<F>,
    p1: FsState<F>,
)
    requires
        bytecode_sized(widths, log_t, log_register, base),
        0 <= base,
        read_raf_stage::indices_fit(indices, widths, log_t),
        p1.canonical(),
    ensures
        ({
            let (made, acc) = chunk_records(
                bytecode,
                indices,
                widths,
                log_t,
                log_register,
                base,
                acc1,
                p1,
            );
            &&& made is Ok
            &&& forall|i: int|
                0 <= i < widths.len() ==> (#[trigger] acc[gkr::dense_id(base + i)]).1 == poly::mle(
                    Seq::new(pow2(log_t), |j: int| F::of_int(indices[i][j] as int)),
                    acc[gkr::dense_id(base + i)].0,
                )
            &&& forall|i: int|
                0 <= i < widths.len() ==> (#[trigger] acc[gkr::reduction_id(base + i)]).1
                    == poly::mle(made->Ok_0[i], acc[gkr::reduction_id(base + i)].0)
            &&& forall|id: OpeningId|
                binary_claim(id) ==> #[trigger] accumulator::kept(acc1, acc, id)
        }),
{
    let (seeds, openings, acc2, p2) = bytecode_check::honest(
        bytecode,
        indices,
        widths,
        log_t,
        log_register,
        acc1,
        p1,
    );
    let fam = bridge(log_t, base, widths);
    let chunks = fam.chunks(acc2, indices);
    let n = indices.len() as int;
    let (made, acc3, p3) = pushforwards::honest_chunks(
        chunks,
        n,
        log_t,
        base,
        fam.cycle(acc2),
        acc2,
        p2,
    );
    lemma_widths_fit(widths, log_t, log_register, base);
    bytecode_check::lemma_honest_leaves(
        bytecode,
        indices,
        widths,
        log_t,
        log_register,
        acc1,
        p1,
    );
    let xs = choose|xs: Seq<F>| #[trigger] bytecode_check::records(widths, log_t, acc2, xs);
    lemma_handed_over(log_t, base, widths, acc2, xs);
    let r_cycle = fam.cycle(acc2);
    assert(r_cycle.len() == log_t) by {
        assert(accumulator::recorded(acc2, fam.chunk_id(0), widths[0] as nat + log_t));
    }
    assert forall|i: int| 0 <= i < chunks.len() implies (#[trigger] chunks[i]).sized(log_t) by {
        assert(accumulator::recorded(acc2, fam.chunk_id(i), widths[i] as nat + log_t));
        assert(indices[i].len() == pow2(log_t));
        assert(widths[i] + log_t <= usize::MAX);
        assert forall|j: int| 0 <= j < indices[i].len() implies #[trigger] indices[i][j] < pow2(
            widths[i] as nat,
        ) by {}
    }
    pushforwards::lemma_chunks_extend(chunks, 0, n, log_t, base, r_cycle, acc2, p2);
    let whole = p3.tape;
    transcript::lemma_prefix_trans(p1.tape, p2.tape, whole);
    let v1 = reader(p1, whole);
    assert(p1.tape + v1.tape =~= whole);
    bytecode_check::law_complete(
        bytecode,
        indices,
        widths,
        log_t,
        log_register,
        acc1,
        p1,
        v1,
        whole,
    );
    let v2 = reader(p2, whole);
    assert(p2.tape + v2.tape =~= whole);
    assert forall|i: int| 0 <= i < chunks.len() implies pushforwards::chunk_true(
        #[trigger] chunks[i],
        r_cycle,
    ) by {
        lemma_handed_chunk_true(indices, widths, log_t, base, acc2, i);
    }
    assert forall|i: int| 0 <= i < widths.len() implies (#[trigger] acc3[gkr::dense_id(base + i)]).1
        == poly::mle(
        Seq::new(pow2(log_t), |j: int| F::of_int(indices[i][j] as int)),
        acc3[gkr::dense_id(base + i)].0,
    ) by {
        pushforwards::law_named_claims(
            chunks,
            n,
            i,
            log_t,
            base,
            r_cycle,
            acc2,
            p2,
            v2,
            whole,
        );
        assert(Seq::new(pow2(log_t), |j: int| F::of_int(chunks[i].indices[j] as int)) =~= Seq::new(
            pow2(log_t),
            |j: int| F::of_int(indices[i][j] as int),
        ));
    }
    pushforwards::law_named_claims(chunks, n, 0, log_t, base, r_cycle, acc2, p2, v2, whole);
    lemma_honest_pushed(chunks, n, log_t, base, r_cycle, acc2, p2);
    assert forall|i: int| 0 <= i < widths.len() implies (#[trigger] acc3[gkr::reduction_id(
        base + i,
    )]).1 == poly::mle(made->Ok_0[i], acc3[gkr::reduction_id(base + i)].0) by {
        pushforwards::law_named_claims(
            chunks,
            n,
            i,
            log_t,
            base,
            r_cycle,
            acc2,
            p2,
            v2,
            whole,
        );
    }
    assert forall|id: OpeningId| binary_claim(id) implies #[trigger] accumulator::kept(
        acc1,
        acc3,
        id,
    ) by {
        assert(bytecode_check::foreign(id));
        assert(accumulator::kept(acc1, acc2, id));
        assert(accumulator::kept(acc2, acc3, id));
    }
}

/// A chunk opening that the read check records truly is true of the handed over chunk.
proof fn lemma_handed_chunk_true<F: Field>(
    indices: Seq<Seq<u32>>,
    widths: Seq<usize>,
    log_t: nat,
    base: int,
    acc: Claims<F>,
    i: int,
)
    requires
        0 <= i < widths.len(),
        indices.len() == widths.len(),
        bridge(log_t, base, widths).handed_over(acc),
        acc[bridge(log_t, base, widths).chunk_id(i)].0.skip(widths[i] as int) == bridge(
            log_t,
            base,
            widths,
        ).cycle(acc),
        bridge(log_t, base, widths).chunks(acc, indices)[i].sized(log_t),
        acc[bytecode_check::chunk_id(i)].1 == poly::mle(
            read_raf_stage::chunk_columns::<F>(indices, widths)[i],
            acc[bytecode_check::chunk_id(i)].0,
        ),
    ensures
        pushforwards::chunk_true(
            bridge(log_t, base, widths).chunks(acc, indices)[i],
            bridge(log_t, base, widths).cycle(acc),
        ),
{
    let fam = bridge(log_t, base, widths);
    let chunk = fam.chunks(acc, indices)[i];
    let point = acc[fam.chunk_id(i)].0;
    assert(fam.chunk_id(i) == bytecode_check::chunk_id(i));
    assert(accumulator::recorded(acc, fam.chunk_id(i), widths[i] as nat + log_t));
    assert(accumulator::recorded(acc, fam.chunk_id(0), widths[0] as nat + log_t));
    assert(point =~= chunk.r_col + fam.cycle(acc));
    pushforwards::law_hand_over(indices[i], chunk.r_col, fam.cycle(acc));
}

/// The pushforwards and the records behind the read check and the pushforward proofs.
spec fn chunk_records<F: Field>(
    bytecode: Seq<Instruction>,
    indices: Seq<Seq<u32>>,
    widths: Seq<usize>,
    log_t: nat,
    log_register: nat,
    base: int,
    acc: Claims<F>,
    s: FsState<F>,
) -> (Result<Seq<Seq<F>>, GkrError>, Claims<F>) {
    let (_, _, acc2, s2) = bytecode_check::honest(
        bytecode,
        indices,
        widths,
        log_t,
        log_register,
        acc,
        s,
    );
    let fam = bridge(log_t, base, widths);
    let (made, acc3, _) = pushforwards::honest_chunks(
        fam.chunks(acc2, indices),
        indices.len() as int,
        log_t,
        base,
        fam.cycle(acc2),
        acc2,
        s2,
    );
    (made, acc3)
}

/// A verifier at the place of the prover, with the rest of the messages to read.
spec fn reader<F: Field>(p: FsState<F>, whole: Seq<F>) -> FsState<F> {
    FsState { tape: whole.skip(p.tape.len() as int), ..p }
}

/// The records that an honest proof leaves to the commitment scheme are true: of the increments, of
/// the sign and carry columns, of the chunk index columns and of the pushforwards.
proof fn lemma_records_true<F: Field>(
    w: RealWitness<F>,
    m: ConstraintMatrices<F>,
    trace: Seq<CycleRow>,
    pcs: Seq<u64>,
    lowest: int,
    ram_k: nat,
    register_count: nat,
    bytecode: Seq<Instruction>,
    indices: Seq<Seq<u32>>,
    widths: Seq<usize>,
    log_register: nat,
    base: int,
    p: FsState<F>,
)
    requires
        m.num_vars == NUM_VARS,
        w.assembles(m, trace, pcs, lowest, ram_k, register_count),
        real_trace::runs_on(trace, lowest, ram_k as int, register_count as int),
        bytecode_sized(widths, w.r1cs.log_num_cycles as nat, log_register, base),
        0 <= base,
        read_raf_stage::indices_fit(indices, widths, w.r1cs.log_num_cycles as nat),
        p.canonical(),
    ensures
        ({
            let (claims, read, made, acc, _) = honest(
                w,
                bytecode,
                indices,
                widths,
                log_register,
                base,
                p,
            );
            let log_t = w.r1cs.log_num_cycles as nat;
            &&& claims.aux.len() == 8
            &&& made is Ok
            &&& accumulator::opens(acc, increments::rd_reduced(), w.registers.inc@, log_t)
            &&& accumulator::opens(acc, increments::ram_reduced(), w.ram.inc@, log_t)
            &&& forall|i: int|
                0 <= i < 8 ==> accumulator::opens(
                    acc,
                    booleanity::reduced_id(i),
                    #[trigger] aux_column(w.r1cs, i),
                    log_t,
                )
            &&& forall|i: int|
                0 <= i < widths.len() ==> (#[trigger] acc[gkr::dense_id(base + i)]).1 == poly::mle(
                    Seq::new(pow2(log_t), |j: int| F::of_int(indices[i][j] as int)),
                    acc[gkr::dense_id(base + i)].0,
                )
            &&& forall|i: int|
                0 <= i < widths.len() ==> (#[trigger] acc[gkr::reduction_id(base + i)]).1
                    == poly::mle(made->Ok_0[i], acc[gkr::reduction_id(base + i)].0)
        }),
{
    let log_t = w.r1cs.log_num_cycles as nat;
    let (claims, acc1, p1) = driver::honest(
        w.r1cs,
        w.ram,
        w.registers,
        w.ram_public@,
        w.key,
        Map::<OpeningId, (Seq<F>, F)>::empty(),
        p,
    );
    lemma_binary_records_true(w, m, trace, pcs, lowest, ram_k, register_count, p);
    lemma_chunk_records_true(
        bytecode,
        indices,
        widths,
        log_t,
        log_register,
        base,
        acc1,
        p1,
    );
    let acc3 = chunk_records(
        bytecode,
        indices,
        widths,
        log_t,
        log_register,
        base,
        acc1,
        p1,
    ).1;
    assert(accumulator::kept(acc1, acc3, increments::rd_reduced()));
    assert(accumulator::kept(acc1, acc3, increments::ram_reduced()));
    assert forall|i: int| 0 <= i < 8 implies accumulator::opens(
        acc3,
        booleanity::reduced_id(i),
        #[trigger] aux_column(w.r1cs, i),
        log_t,
    ) by {
        assert(accumulator::kept(acc1, acc3, booleanity::reduced_id(i)));
    }
}

/// The records that the honest binary stages leave to the commitment scheme are true.
proof fn lemma_binary_records_true<F: Field>(
    w: RealWitness<F>,
    m: ConstraintMatrices<F>,
    trace: Seq<CycleRow>,
    pcs: Seq<u64>,
    lowest: int,
    ram_k: nat,
    register_count: nat,
    p: FsState<F>,
)
    requires
        m.num_vars == NUM_VARS,
        w.assembles(m, trace, pcs, lowest, ram_k, register_count),
        real_trace::runs_on(trace, lowest, ram_k as int, register_count as int),
        p.canonical(),
    ensures
        ({
            let (claims, acc, p1) = driver::honest(
                w.r1cs,
                w.ram,
                w.registers,
                w.ram_public@,
                w.key,
                Map::<OpeningId, (Seq<F>, F)>::empty(),
                p,
            );
            let log_t = w.r1cs.log_num_cycles as nat;
            &&& claims.aux.len() == 8
            &&& accumulator::opens(acc, increments::rd_reduced(), w.registers.inc@, log_t)
            &&& accumulator::opens(acc, increments::ram_reduced(), w.ram.inc@, log_t)
            &&& forall|i: int|
                0 <= i < 8 ==> accumulator::opens(
                    acc,
                    booleanity::reduced_id(i),
                    #[trigger] aux_column(w.r1cs, i),
                    log_t,
                )
            &&& p1.canonical()
        }),
{
    let empty = Map::<OpeningId, (Seq<F>, F)>::empty();
    real_trace::lemma_assembled(w, m, trace, pcs, lowest, ram_k, register_count);
    driver::law_named_claims(
        w.r1cs,
        w.ram,
        w.registers,
        trace,
        real_trace::remapped(trace, lowest),
        ram_k,
        register_count,
        w.ram_public@,
        w.key,
        empty,
        p,
    );
    let acc = driver::honest(
        w.r1cs,
        w.ram,
        w.registers,
        w.ram_public@,
        w.key,
        empty,
        p,
    ).1;
    assert forall|i: int| 0 <= i < 8 implies accumulator::opens(
        acc,
        booleanity::reduced_id(i),
        #[trigger] aux_column(w.r1cs, i),
        w.r1cs.log_num_cycles as nat,
    ) by {
        assert(0 <= signs_and_carries()[i]);
    }
}

/// The variables that hold signs and carries, in the order of their columns.
spec fn signs_and_carries() -> Seq<int> {
    seq![
        LEFT_SIGN as int,
        RIGHT_SIGN as int,
        PRODUCT_SIGN as int,
        SIGN_PROD as int,
        ADD_C0 as int,
        SUB_C0 as int,
        SUB_C1 as int,
        RAM_ADDR_C0 as int,
    ]
}

/// A sign or carry column of the assignment.
spec fn aux_column<F: Field>(w: R1csWitness<F>, i: int) -> Seq<F> {
    Seq::new(
        pow2(w.log_num_cycles as nat),
        |c: int| w.z@[c * w.num_vars_padded + signs_and_carries()[i]],
    )
}

/// What an honest proof leaves to the commitment scheme is true of the columns that it is named after:
/// the register obligation is the extension of the register increments, the memory obligation that of
/// the memory increments, and each pushforward obligation that of its pushforward.
pub proof fn law_obligations_true<F: Field>(
    o: OpenObligations<F>,
    w: RealWitness<F>,
    m: ConstraintMatrices<F>,
    trace: Seq<CycleRow>,
    pcs: Seq<u64>,
    lowest: int,
    ram_k: nat,
    register_count: nat,
    bytecode: Seq<Instruction>,
    indices: Seq<Seq<u32>>,
    widths: Seq<usize>,
    log_register: nat,
    base: int,
    p: FsState<F>,
)
    requires
        m.num_vars == NUM_VARS,
        w.assembles(m, trace, pcs, lowest, ram_k, register_count),
        real_trace::runs_on(trace, lowest, ram_k as int, register_count as int),
        bytecode_sized(widths, w.r1cs.log_num_cycles as nat, log_register, base),
        0 <= base,
        read_raf_stage::indices_fit(indices, widths, w.r1cs.log_num_cycles as nat),
        p.canonical(),
        ({
            let (claims, read, made, acc, _) = honest(
                w,
                bytecode,
                indices,
                widths,
                log_register,
                base,
                p,
            );
            o.taken_from(
                acc,
                claims.aux.len() as int,
                base,
                widths.len() as int,
                w.r1cs.log_num_cycles,
            )
        }),
    ensures
        ({
            let log_t = w.r1cs.log_num_cycles as nat;
            let made = honest(w, bytecode, indices, widths, log_register, base, p).2;
            &&& o.rd_point@.len() == log_t
            &&& o.rd_claim == poly::mle(w.registers.inc@, o.rd_point@)
            &&& o.ram_point@.len() == log_t
            &&& o.ram_claim == poly::mle(w.ram.inc@, o.ram_point@)
            &&& made is Ok
            &&& o.pushforward_points@.len() == widths.len()
            &&& o.pushforward_claims@.len() == widths.len()
            &&& forall|i: int|
                0 <= i < widths.len() ==> #[trigger] o.pushforward_claims@[i] == poly::mle(
                    made->Ok_0[i],
                    o.pushforward_points@[i]@,
                )
        }),
{
    lemma_records_true(
        w,
        m,
        trace,
        pcs,
        lowest,
        ram_k,
        register_count,
        bytecode,
        indices,
        widths,
        log_register,
        base,
        p,
    );
    let (claims, read, made, acc, _) = honest(
        w,
        bytecode,
        indices,
        widths,
        log_register,
        base,
        p,
    );
    assert forall|i: int| 0 <= i < widths.len() implies #[trigger] o.pushforward_claims@[i]
        == poly::mle(made->Ok_0[i], o.pushforward_points@[i]@) by {
        assert(o.pushforward_points@[i]@ == acc[gkr::reduction_id(base + i)].0);
    }
}

/// Every entry of the inventory that an honest proof leaves to the commitment scheme is true of what
/// its request names: a sign or carry column is that of its variable of the assignment, and a chunk
/// index column is that of the indices. Nothing else is requested.
pub proof fn law_inventory_true<F: Field>(
    o: OpenObligations<F>,
    w: RealWitness<F>,
    m: ConstraintMatrices<F>,
    trace: Seq<CycleRow>,
    pcs: Seq<u64>,
    lowest: int,
    ram_k: nat,
    register_count: nat,
    bytecode: Seq<Instruction>,
    indices: Seq<Seq<u32>>,
    widths: Seq<usize>,
    log_register: nat,
    base: int,
    p: FsState<F>,
    k: int,
)
    requires
        m.num_vars == NUM_VARS,
        w.assembles(m, trace, pcs, lowest, ram_k, register_count),
        real_trace::runs_on(trace, lowest, ram_k as int, register_count as int),
        bytecode_sized(widths, w.r1cs.log_num_cycles as nat, log_register, base),
        0 <= base,
        read_raf_stage::indices_fit(indices, widths, w.r1cs.log_num_cycles as nat),
        p.canonical(),
        ({
            let (claims, read, made, acc, _) = honest(
                w,
                bytecode,
                indices,
                widths,
                log_register,
                base,
                p,
            );
            o.taken_from(
                acc,
                claims.aux.len() as int,
                base,
                widths.len() as int,
                w.r1cs.log_num_cycles,
            )
        }),
        0 <= k < o.inventory.claims@.len(),
    ensures
        ({
            let cycles = pow2(w.r1cs.log_num_cycles as nat);
            let signs_and_carries = seq![
                LEFT_SIGN as int,
                RIGHT_SIGN as int,
                PRODUCT_SIGN as int,
                SIGN_PROD as int,
                ADD_C0 as int,
                SUB_C0 as int,
                SUB_C1 as int,
                RAM_ADDR_C0 as int,
            ];
            match o.inventory.requests@[k].poly {
                CommittedPolynomial::R1csAux(i) => i < 8 && o.inventory.claims@[k] == poly::mle(
                    Seq::new(
                        cycles,
                        |c: int|
                            w.r1cs.z@[c * w.r1cs.num_vars_padded + signs_and_carries[i as int]],
                    ),
                    o.inventory.points@[k]@,
                ),
                CommittedPolynomial::RaDense(i) => base <= i < base + widths.len()
                    && o.inventory.claims@[k] == poly::mle(
                    Seq::new(cycles, |j: int| F::of_int(indices[i - base][j] as int)),
                    o.inventory.points@[k]@,
                ),
                _ => false,
            }
        }),
{
    lemma_records_true(
        w,
        m,
        trace,
        pcs,
        lowest,
        ram_k,
        register_count,
        bytecode,
        indices,
        widths,
        log_register,
        base,
        p,
    );
    let log_t = w.r1cs.log_num_cycles;
    let acc = honest(w, bytecode, indices, widths, log_register, base, p).3;
    let first = aux_requests(acc, 8, log_t);
    let second = dense_requests(acc, base, widths.len() as int, log_t);
    assert(o.inventory.points@[k]@ == acc[(first + second)[k].id()].0);
    if k < first.len() {
        lemma_aux_request_named(acc, 8, log_t, k);
        let i = choose|i: int| 0 <= i < 8 && first[k] == #[trigger] aux_request(i, log_t);
        assert(first[k].id() == booleanity::reduced_id(i));
        assert(accumulator::opens(
            acc,
            booleanity::reduced_id(i),
            aux_column(w.r1cs, i),
            log_t as nat,
        ));
    } else {
        let x = k - first.len();
        lemma_dense_request_named(acc, base, widths.len() as int, log_t, x);
        let i = choose|i: int|
            0 <= i < widths.len() && second[x] == #[trigger] dense_request(base + i, log_t);
        assert(second[x].id() == gkr::dense_id(base + i));
        assert(o.inventory.claims@[k] == acc[gkr::dense_id(base + i)].1);
    }
}

/// The requests stand in the order of their columns, and each is for a polynomial over the cycles.
pub proof fn law_requests_in_order<F: Field>(
    acc: Claims<F>,
    base: int,
    n: int,
    log_t: usize,
    x: int,
    y: int,
)
    requires
        0 <= base,
        base + n <= usize::MAX,
    ensures
        ({
            let r = aux_requests(acc, n, log_t);
            0 <= x < y < r.len() ==> r[x].poly is R1csAux && r[y].poly is R1csAux
                && r[x].poly->R1csAux_0 < r[y].poly->R1csAux_0 < n
        }),
        ({
            let r = dense_requests(acc, base, n, log_t);
            0 <= x < y < r.len() ==> r[x].poly is RaDense && r[y].poly is RaDense && base
                <= r[x].poly->RaDense_0 < r[y].poly->RaDense_0 < base + n
        }),
        0 <= x < aux_requests(acc, n, log_t).len() ==> aux_requests(
            acc,
            n,
            log_t,
        )[x].committed_num_vars == log_t,
        0 <= x < dense_requests(acc, base, n, log_t).len() ==> dense_requests(
            acc,
            base,
            n,
            log_t,
        )[x].committed_num_vars == log_t,
    decreases n,
{
    if n > 0 {
        law_requests_in_order(acc, base, n - 1, log_t, x, y);
        let aux = aux_requests(acc, n - 1, log_t);
        let dense = dense_requests(acc, base, n - 1, log_t);
        if 0 <= x < aux.len() {
            lemma_aux_request_named(acc, n - 1, log_t, x);
        }
        if 0 <= x < dense.len() {
            lemma_dense_request_named(acc, base, n - 1, log_t, x);
        }
    }
}

} // verus!
