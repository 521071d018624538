//! A read check over index columns: the chunk columns are one-hot, so a read claim is the value at
//! the address that the chunk indices spell.

use crate::field;
use crate::field::Field;
use crate::framework::accumulator;
use crate::framework::accumulator::{Claims, OpeningId, Openings, SumcheckId};
use crate::framework::poly;
use crate::framework::sumcheck;
use crate::framework::sumcheck::SumcheckClaim;
use crate::framework::sums;
use crate::framework::transcript;
use crate::framework::transcript::{FsState, ProverFs, VerifierFs};
use crate::zkvm::access;
use crate::zkvm::shout_read_raf;
use crate::zkvm::shout_read_raf::{
    OneHotReadRaf, OneHotReadRafParams, RaFamily, ReadModel, ReadRafStage, StageModel,
};
use vstd::arithmetic::power2::pow2;
use vstd::prelude::*;

verus! {

/// Why a read check is rejected.
#[derive(Clone, Copy, Debug, PartialEq, Eq, Structural)]
pub enum ReadRafStageError {
    /// The sumcheck was rejected.
    Sumcheck,
    /// The reduced claim does not hold of the sent chunk openings.
    Claim,
}

/// The chunk openings the prover hands to the verifier.
#[derive(Debug)]
pub struct ReadRafStageProof<F> {
    pub ra_openings: Vec<F>,
}

/// What a read check is about.
#[derive(Debug)]
pub struct ReadRafInputs<F> {
    pub ra_family: RaFamily,
    pub sumcheck_id: SumcheckId,
    pub log_k_chunks: Vec<usize>,
    pub log_t: usize,
    pub stages: Vec<ReadRafStage<F>>,
}

/// What a read check is about, as mathematical values.
#[verifier::ext_equal]
pub struct InputsModel<F> {
    pub family: RaFamily,
    pub id: SumcheckId,
    pub widths: Seq<usize>,
    pub log_t: nat,
    pub stages: Seq<StageModel<F>>,
}

impl<F: Field> View for ReadRafInputs<F> {
    type V = InputsModel<F>;

    open spec fn view(&self) -> InputsModel<F> {
        InputsModel {
            family: self.ra_family,
            id: self.sumcheck_id,
            widths: self.log_k_chunks@,
            log_t: self.log_t as nat,
            stages: shout_read_raf::models(self.stages@),
        }
    }
}

impl<F: Field> InputsModel<F> {
    /// The batch with a given challenge.
    pub open spec fn batched(self, g: F) -> ReadModel<F> {
        ReadModel {
            gp: Seq::new(self.stages.len(), |i: int| sums::power(g, i)),
            widths: self.widths,
            log_t: self.log_t,
            stages: self.stages,
            family: self.family,
            id: self.id,
        }
    }

    /// Every claim has a cycle point and one value per address, and the index space fits.
    pub open spec fn sized(self) -> bool {
        let vars = shout_read_raf::address_bits(self.widths) + self.log_t;
        &&& self.widths.len() + 1 < usize::MAX
        &&& vars <= usize::MAX
        &&& pow2(vars) <= usize::MAX
        &&& forall|s: int|
            0 <= s < self.stages.len() ==> (#[trigger] self.stages[s]).r_cycle.len() == self.log_t
                && self.stages[s].val_addr.len() == pow2(
                shout_read_raf::address_bits(self.widths),
            )
    }

    /// The name of the claim about a chunk.
    pub open spec fn chunk_id(self, i: int) -> OpeningId {
        accumulator::comm(self.family.member(i), self.id)
    }

    /// Every read claim is recorded.
    pub open spec fn seeded(self, acc: Claims<F>) -> bool {
        forall|s: int|
            0 <= s < self.stages.len() ==> acc.contains_key(
                #[trigger] shout_read_raf::rv_id(self.stages[s]),
            )
    }
}

/// Every index column has one index per cycle, and every index is in range of its chunk.
pub open spec fn indices_fit(indices: Seq<Seq<u32>>, widths: Seq<usize>, log_t: nat) -> bool {
    &&& indices.len() == widths.len()
    &&& forall|i: int| 0 <= i < indices.len() ==> (#[trigger] indices[i]).len() == pow2(log_t)
    &&& forall|i: int, j: int|
        0 <= i < indices.len() && 0 <= j < pow2(log_t) ==> #[trigger] indices[i][j] < pow2(
            widths[i] as nat,
        )
}

/// The chunk indices of a cycle are below the chunk sizes.
pub open spec fn cycle_fits(indices: Seq<Seq<u32>>, widths: Seq<usize>, j: int) -> bool {
    forall|i: int|
        0 <= i < widths.len() ==> #[trigger] indices[i][j] < pow2(widths[i] as nat)
}

/// The one-hot chunk columns of index columns.
pub open spec fn chunk_columns<F: Field>(
    indices: Seq<Seq<u32>>,
    widths: Seq<usize>,
) -> Seq<Seq<F>> {
    Seq::new(
        indices.len(),
        |i: int| access::one_hot::<F>(access::marks(indices[i]), pow2(widths[i] as nat)),
    )
}

/// The address that the first `n` chunk indices of a cycle spell, the first chunk most significant.
pub open spec fn spelled(indices: Seq<Seq<u32>>, widths: Seq<usize>, j: int, n: int) -> int
    decreases n,
{
    if n <= 0 {
        0
    } else {
        spelled(indices, widths, j, n - 1) * pow2(widths[n - 1] as nat) + indices[n - 1][j]
    }
}

/// The address read in a cycle.
pub open spec fn address(indices: Seq<Seq<u32>>, widths: Seq<usize>, j: int) -> int {
    spelled(indices, widths, j, widths.len() as int)
}

/// The true read claim: the values at the read addresses, at the cycle point.
pub open spec fn true_read<F: Field>(
    stage: StageModel<F>,
    indices: Seq<Seq<u32>>,
    widths: Seq<usize>,
    log_t: nat,
) -> F {
    sums::sum(
        pow2(log_t) as int,
        |j: int|
            poly::eq_weight(stage.r_cycle, j).times(
                stage.val_addr[address(indices, widths, j)],
            ),
    )
}

/// The one-hot column of an index column.
fn one_hot_column<F: Field>(indices: &Vec<u32>, dim: usize) -> (r: Vec<F>)
    requires
        dim * indices@.len() <= usize::MAX,
        indices@.len() > 0,
    ensures
        r@ == access::one_hot::<F>(access::marks(indices@), dim as nat),
{
    let t: usize = indices.len();
    let ghost whole = access::one_hot::<F>(access::marks(indices@), dim as nat);
    let mut out: Vec<F> = Vec::new();
    let size: usize = dim * t;
    for x in 0..size
        invariant
            t == indices@.len(),
            t > 0,
            size == whole.len(),
            whole == access::one_hot::<F>(access::marks(indices@), dim as nat),
            out@ == whole.take(x as int),
    {
        if indices[x % t] as usize == x / t {
            out.push(field::one());
        } else {
            out.push(field::zero());
        }
        assert(out@ =~= whole.take(x + 1));
    }
    assert(out@ =~= whole);
    out
}

/// The one-hot columns of all chunks.
fn one_hot_columns<F: Field>(
    indices: &Vec<Vec<u32>>,
    widths: &Vec<usize>,
    log_t: usize,
) -> (r: Vec<Vec<F>>)
    requires
        indices_fit(poly::contents(indices@), widths@, log_t as nat),
        shout_read_raf::address_bits(widths@) + log_t <= usize::MAX,
        pow2(shout_read_raf::address_bits(widths@) + log_t as nat) <= usize::MAX,
    ensures
        poly::contents(r@) == chunk_columns::<F>(poly::contents(indices@), widths@),
{
    let ghost cols = poly::contents(indices@);
    let ghost whole = chunk_columns::<F>(cols, widths@);
    let mut out: Vec<Vec<F>> = Vec::new();
    assert(poly::contents(out@) =~= whole.take(0));
    for i in 0..indices.len()
        invariant
            cols == poly::contents(indices@),
            indices_fit(cols, widths@, log_t as nat),
            pow2(shout_read_raf::address_bits(widths@) + log_t as nat) <= usize::MAX,
            whole == chunk_columns::<F>(cols, widths@),
            poly::contents(out@) == whole.take(i as int),
    {
        let ghost before = out@;
        let width: usize = widths[i];
        proof {
            assert(cols[i as int] == indices@[i as int]@);
            assert(cols[i as int].len() == pow2(log_t as nat));
            shout_read_raf::lemma_offset_monotone(widths@, i + 1, widths@.len() as int);
            poly::lemma_pow2_monotone(
                width as nat + log_t as nat,
                shout_read_raf::address_bits(widths@) + log_t as nat,
            );
            poly::lemma_pow2_monotone(width as nat, width as nat + log_t as nat);
            poly::lemma_pow2_concat(width as nat, log_t as nat);
            vstd::arithmetic::power2::lemma_pow2_pos(log_t as nat);
        }
        let dim: usize = poly::power_of_two(width);
        let column: Vec<F> = one_hot_column(&indices[i], dim);
        out.push(column);
        assert(poly::contents(out@) =~= poly::contents(before).push(whole[i as int]));
        assert(whole.take(i + 1) =~= whole.take(i as int).push(whole[i as int]));
    }
    assert(poly::contents(out@) =~= whole);
    out
}

/// The chunk openings, the records and the transcript of an honest read check.
pub open spec fn honest<F: Field>(
    inputs: InputsModel<F>,
    columns: Seq<Seq<F>>,
    acc: Claims<F>,
    s: FsState<F>,
) -> (Seq<F>, Claims<F>, FsState<F>) {
    let m = inputs.batched(s.next());
    let d = inputs.widths.len() as int;
    let tab = shout_read_raf::table(m.gp, m.stages, m.widths, m.log_t, columns);
    let (xs, s1) = sumcheck::prove_run(tab, m.vars(), s.squeeze());
    let openings = sumcheck::bound_row(tab.columns, xs).take(d);
    (openings, shout_read_raf::cached(m, acc, xs, openings, d), s1)
}

/// Prove a read check over index columns.
pub fn prove_read_raf<F: Field, T: ProverFs<F>>(
    indices: &Vec<Vec<u32>>,
    inputs: ReadRafInputs<F>,
    accumulator: &mut Openings<F>,
    transcript: &mut T,
) -> (proof: ReadRafStageProof<F>)
    requires
        inputs@.sized(),
        indices_fit(poly::contents(indices@), inputs@.widths, inputs@.log_t),
    ensures
        (proof.ra_openings@, final(accumulator)@, final(transcript).state()) == honest(
            inputs@,
            chunk_columns::<F>(poly::contents(indices@), inputs@.widths),
            old(accumulator)@,
            old(transcript).state(),
        ),
{
    let ghost im = inputs@;
    let ghost cols = poly::contents(indices@);
    let ghost columns = chunk_columns::<F>(cols, im.widths);
    let ghost acc0 = accumulator@;
    let ghost s = transcript.state();
    let chunks: Vec<Vec<F>> = one_hot_columns(indices, &inputs.log_k_chunks, inputs.log_t);
    let params: OneHotReadRafParams<F> = OneHotReadRafParams::new(
        inputs.ra_family,
        inputs.sumcheck_id,
        inputs.log_k_chunks,
        inputs.log_t,
        inputs.stages,
        transcript,
    );
    let ghost m = params@;
    proof {
        assert(m == im.batched(s.next()));
        lemma_chunks_sized::<F>(cols, im.widths, im.log_t);
        assert(chunks@.map_values(|c: Vec<F>| c@) =~= columns) by {
            assert forall|i: int| 0 <= i < columns.len() implies chunks@[i]@ == #[trigger] columns[i] by {
                assert(poly::contents(chunks@)[i] == chunks@[i]@);
            }
        }
    }
    let mut check: OneHotReadRaf<F> = OneHotReadRaf::new_prover(params, &chunks);
    let n: usize = check.num_rounds();
    let ghost tab = check.sum@;
    proof {
        shout_read_raf::law_table_shaped(m.gp, m.stages, m.widths, m.log_t, columns);
    }
    let xs: Vec<F> = sumcheck::prove(&mut check.sum, n, transcript);
    proof {
        sumcheck::lemma_opened(tab, xs@, check.sum@);
    }
    let d: usize = check.params.log_k_chunks.len();
    let ghost row = sumcheck::bound_row(tab.columns, xs@);
    let mut ra_openings: Vec<F> = Vec::new();
    for i in 0..d
        invariant
            d < tab.columns.len(),
            check.sum@.columns.len() == tab.columns.len(),
            row.len() == tab.columns.len(),
            forall|c: int|
                0 <= c < tab.columns.len() ==> (#[trigger] check.sum@.columns[c]).len() > 0,
            forall|c: int|
                0 <= c < tab.columns.len() ==> (#[trigger] check.sum@.columns[c])[0] == row[c],
            ra_openings@ == row.take(i as int),
    {
        assert(check.sum@.columns[i as int].len() > 0);
        ra_openings.push(check.sum.bound_value(i));
        assert(ra_openings@ =~= row.take(i + 1));
    }
    check.params.record(accumulator, &xs, &ra_openings);
    ReadRafStageProof { ra_openings }
}

/// The verdict on a read check, the recorded claims, and the transcript after it.
pub open spec fn verdict<F: Field>(
    openings: Seq<F>,
    inputs: InputsModel<F>,
    acc: Claims<F>,
    s: FsState<F>,
) -> (Result<(), ReadRafStageError>, Claims<F>, FsState<F>) {
    let m = inputs.batched(s.next());
    let d = inputs.widths.len();
    let (r, s1) = sumcheck::verify_run(
        shout_read_raf::input(m.gp, m.stages, acc),
        m.vars(),
        d + 1,
        s.squeeze(),
    );
    match r {
        Err(_) => (Err(ReadRafStageError::Sumcheck), acc, s1),
        Ok((xs, value)) => {
            let acc1 = shout_read_raf::cached(m, acc, xs, openings, d as int);
            if value != shout_read_raf::output(m, acc1, xs) {
                (Err(ReadRafStageError::Claim), acc1, s1)
            } else {
                (Ok(()), acc1, s1)
            }
        },
    }
}

/// Verify a read check.
pub fn verify_read_raf<F: Field, T: VerifierFs<F>>(
    proof: &ReadRafStageProof<F>,
    inputs: ReadRafInputs<F>,
    accumulator: &mut Openings<F>,
    transcript: &mut T,
) -> (r: Result<(), ReadRafStageError>)
    requires
        inputs@.sized(),
        inputs@.seeded(old(accumulator)@),
        proof.ra_openings@.len() == inputs@.widths.len(),
    ensures
        (r, final(accumulator)@, final(transcript).state()) == verdict(
            proof.ra_openings@,
            inputs@,
            old(accumulator)@,
            old(transcript).state(),
        ),
{
    let ghost im = inputs@;
    let ghost acc0 = accumulator@;
    let ghost s = transcript.state();
    let params: OneHotReadRafParams<F> = OneHotReadRafParams::new(
        inputs.ra_family,
        inputs.sumcheck_id,
        inputs.log_k_chunks,
        inputs.log_t,
        inputs.stages,
        transcript,
    );
    let ghost m = params@;
    assert(m == im.batched(s.next()));
    let check: OneHotReadRaf<F> = OneHotReadRaf::new_verifier(params);
    let claim: SumcheckClaim<F> = SumcheckClaim {
        num_vars: check.num_rounds(),
        degree: check.degree(),
        claimed_sum: check.params.input_claim(accumulator),
    };
    let eval = match sumcheck::verify(&claim, transcript) {
        Err(_) => {
            return Err(ReadRafStageError::Sumcheck);
        },
        Ok(e) => e,
    };
    check.params.record(accumulator, &eval.point, &proof.ra_openings);
    proof {
        let d = im.widths.len() as int;
        assert forall|i: int| 0 <= i < d implies accumulator@.contains_key(#[trigger] m.chunk_id(i)) by {
            shout_read_raf::lemma_cached(m, acc0, eval.point@, proof.ra_openings@, d, i);
        }
    }
    let expected: F = check.expected_output_claim(accumulator, &eval.point);
    if !eval.value.same(expected) {
        return Err(ReadRafStageError::Claim);
    }
    Ok(())
}

/// One-hot columns have one entry per index and cycle, and are canonical.
pub proof fn lemma_chunks_sized<F: Field>(indices: Seq<Seq<u32>>, widths: Seq<usize>, log_t: nat)
    requires
        indices_fit(indices, widths, log_t),
    ensures
        shout_read_raf::chunks_sized(chunk_columns::<F>(indices, widths), widths, log_t),
        forall|i: int|
            0 <= i < widths.len() ==> field::all_valid(
                #[trigger] chunk_columns::<F>(indices, widths)[i],
            ),
{
    let columns = chunk_columns::<F>(indices, widths);
    assert forall|i: int| 0 <= i < widths.len() implies (#[trigger] columns[i]).len() == pow2(
        widths[i] as nat,
    ) * pow2(log_t) && field::all_valid(columns[i]) by {
        assert(indices[i].len() == pow2(log_t));
        F::law_of_int_valid(0);
        F::law_of_int_valid(1);
    }
}

/// The digit of an address at a chunk.
pub open spec fn digit_at(widths: Seq<usize>, k: int, i: int) -> int {
    (k / (pow2(shout_read_raf::bits_below(widths, i)) as int)) % (pow2(widths[i] as nat) as int)
}

/// A truth value as a field element.
pub open spec fn truth<F: Field>(b: bool) -> F {
    if b {
        F::of_int(1)
    } else {
        F::of_int(0)
    }
}

/// The product of the first `n` digit tests tells whether the leading digits of an address are the
/// spelled ones.
proof fn lemma_digits<F: Field>(
    indices: Seq<Seq<u32>>,
    widths: Seq<usize>,
    log_t: nat,
    k: int,
    j: int,
    n: int,
)
    requires
        indices_fit(indices, widths, log_t),
        0 <= j < pow2(log_t),
        0 <= n <= widths.len(),
        0 <= k < pow2(shout_read_raf::address_bits(widths)),
    ensures
        ({
            let below = (shout_read_raf::address_bits(widths) - shout_read_raf::offset(widths, n)) as nat;
            sums::product(
                n,
                |i: int| truth::<F>(digit_at(widths, k, i) == indices[i][j]),
            ) == truth::<F>(k / (pow2(below) as int) == spelled(indices, widths, j, n))
        }),
    decreases n,
{
    let bits = shout_read_raf::address_bits(widths);
    let f = |i: int| truth::<F>(digit_at(widths, k, i) == indices[i][j]);
    shout_read_raf::lemma_offset_monotone(widths, n, widths.len() as int);
    let below = (bits - shout_read_raf::offset(widths, n)) as nat;
    vstd::arithmetic::power2::lemma_pow2_pos(below);
    if n == 0 {
        vstd::arithmetic::div_mod::lemma_basic_div(k, pow2(bits) as int);
        assert(shout_read_raf::offset(widths, 0) == 0);
        assert(sums::product(0, f) == F::of_int(1));
    } else {
        lemma_digits::<F>(indices, widths, log_t, k, j, n - 1);
        let w = widths[n - 1] as nat;
        let above = (bits - shout_read_raf::offset(widths, n - 1)) as nat;
        assert(above == below + w);
        assert(shout_read_raf::bits_below(widths, n - 1) == below);
        poly::lemma_pow2_concat(below, w);
        vstd::arithmetic::power2::lemma_pow2_pos(w);
        let q = k / (pow2(below) as int);
        let high = k / (pow2(above) as int);
        let dim = pow2(w) as int;
        vstd::arithmetic::div_mod::lemma_div_denominator(k, pow2(below) as int, dim);
        assert(high == q / dim);
        let digit = q % dim;
        assert(digit == digit_at(widths, k, n - 1));
        vstd::arithmetic::div_mod::lemma_fundamental_div_mod(q, dim);
        let before = spelled(indices, widths, j, n - 1);
        let a = indices[n - 1][j] as int;
        assert(indices[n - 1][j] < pow2(widths[n - 1] as nat));
        let here = before * dim + a;
        if q == here {
            vstd::arithmetic::div_mod::lemma_fundamental_div_mod_converse(q, dim, before, a);
        }
        assert((q == here) == (high == before && digit == a)) by {
            if high == before && digit == a {
                assert(dim * high == before * dim) by (nonlinear_arith)
                    requires
                        high == before,
                ;
            }
        }
        F::law_of_int_valid(1);
        F::law_of_int_valid(0);
        F::law_of_int_times(1, 1);
        F::law_of_int_times(1, 0);
        F::law_of_int_times(0, 1);
        F::law_of_int_times(0, 0);
    }
}

/// A spelled address is in range.
pub proof fn lemma_spelled_in_range(
    indices: Seq<Seq<u32>>,
    widths: Seq<usize>,
    j: int,
    n: int,
)
    requires
        cycle_fits(indices, widths, j),
        0 <= n <= widths.len(),
    ensures
        0 <= spelled(indices, widths, j, n) < pow2(shout_read_raf::offset(widths, n)),
    decreases n,
{
    poly::lemma_pow2_zero();
    if n > 0 {
        lemma_spelled_in_range(indices, widths, j, n - 1);
        let w = pow2(widths[n - 1] as nat) as int;
        let o = pow2(shout_read_raf::offset(widths, n - 1)) as int;
        let before = spelled(indices, widths, j, n - 1);
        assert(indices[n - 1][j] < pow2(widths[n - 1] as nat));
        poly::lemma_pow2_concat(shout_read_raf::offset(widths, n - 1), widths[n - 1] as nat);
        poly::lemma_row_bound(before, o, w);
    }
}

/// The sum of the first `n` chunk indices of a cycle, each shifted past the bits below its chunk.
pub open spec fn shifted(indices: Seq<Seq<u32>>, widths: Seq<usize>, j: int, n: int) -> int
    decreases n,
{
    if n <= 0 {
        0
    } else {
        shifted(indices, widths, j, n - 1) + indices[n - 1][j] * pow2(
            shout_read_raf::bits_below(widths, n - 1),
        )
    }
}

/// The combined index of a cycle is below the number of addresses, it is the sum of the shifted chunk
/// indices, and its digits are the chunk indices.
pub proof fn law_combined_index(indices: Seq<Seq<u32>>, widths: Seq<usize>, j: int)
    requires
        cycle_fits(indices, widths, j),
    ensures
        0 <= address(indices, widths, j) < pow2(shout_read_raf::address_bits(widths)),
        address(indices, widths, j) == shifted(indices, widths, j, widths.len() as int),
        forall|i: int|
            0 <= i < widths.len() ==> #[trigger] digit_at(widths, address(indices, widths, j), i)
                == indices[i][j],
{
    let d = widths.len() as int;
    let a = address(indices, widths, j);
    lemma_spelled_in_range(indices, widths, j, d);
    lemma_shifted(indices, widths, j, d);
    poly::lemma_pow2_zero();
    assert(pow2(shout_read_raf::bits_below(widths, d - 1)) == 1);
    assert(shifted(indices, widths, j, d) == a * 1);
    assert forall|i: int| 0 <= i < d implies #[trigger] digit_at(widths, a, i) == indices[i][j] by {
        let unit = pow2(shout_read_raf::bits_below(widths, i)) as int;
        let base = pow2(widths[i] as nat) as int;
        let head = spelled(indices, widths, j, i);
        let k = indices[i][j] as int;
        assert(indices[i][j] < pow2(widths[i] as nat));
        vstd::arithmetic::power2::lemma_pow2_pos(shout_read_raf::bits_below(widths, i));
        lemma_shifted(indices, widths, j, i + 1);
        lemma_shifted_rest(indices, widths, j, i + 1);
        let rest = shifted(indices, widths, j, d) - shifted(indices, widths, j, i + 1);
        vstd::arithmetic::div_mod::lemma_fundamental_div_mod_converse(
            a,
            unit,
            head * base + k,
            rest,
        );
        vstd::arithmetic::div_mod::lemma_fundamental_div_mod_converse(
            head * base + k,
            base,
            head,
            k,
        );
    }
}

/// Two cycles have the same combined index exactly when they have the same chunk indices.
pub proof fn law_combined_index_distinct(
    indices: Seq<Seq<u32>>,
    widths: Seq<usize>,
    a: int,
    b: int,
)
    requires
        cycle_fits(indices, widths, a),
        cycle_fits(indices, widths, b),
    ensures
        address(indices, widths, a) == address(indices, widths, b) <==> (forall|i: int|
            0 <= i < widths.len() ==> #[trigger] indices[i][a] == indices[i][b]),
{
    let d = widths.len() as int;
    law_combined_index(indices, widths, a);
    law_combined_index(indices, widths, b);
    if address(indices, widths, a) == address(indices, widths, b) {
        assert forall|i: int| 0 <= i < d implies #[trigger] indices[i][a] == indices[i][b] by {
            assert(digit_at(widths, address(indices, widths, a), i) == indices[i][a]);
            assert(digit_at(widths, address(indices, widths, b), i) == indices[i][b]);
        }
    } else if forall|i: int| 0 <= i < d ==> #[trigger] indices[i][a] == indices[i][b] {
        lemma_same_spelling(indices, widths, a, b, d);
    }
}

proof fn lemma_same_spelling(
    indices: Seq<Seq<u32>>,
    widths: Seq<usize>,
    a: int,
    b: int,
    n: int,
)
    requires
        n <= widths.len(),
        forall|i: int| 0 <= i < widths.len() ==> #[trigger] indices[i][a] == indices[i][b],
    ensures
        spelled(indices, widths, a, n) == spelled(indices, widths, b, n),
    decreases n,
{
    if n > 0 {
        lemma_same_spelling(indices, widths, a, b, n - 1);
        assert(indices[n - 1][a] == indices[n - 1][b]);
    }
}

/// The shifted chunk indices add up to what they spell, shifted past the bits below.
proof fn lemma_shifted(indices: Seq<Seq<u32>>, widths: Seq<usize>, j: int, n: int)
    requires
        0 <= n <= widths.len(),
    ensures
        shifted(indices, widths, j, n) == spelled(indices, widths, j, n) * pow2(
            shout_read_raf::bits_below(widths, n - 1),
        ),
    decreases n,
{
    if n > 0 {
        lemma_shifted(indices, widths, j, n - 1);
        lemma_bits_below(widths, n - 1);
        let before = spelled(indices, widths, j, n - 1);
        let base = pow2(widths[n - 1] as nat) as int;
        let unit = pow2(shout_read_raf::bits_below(widths, n - 1)) as int;
        let k = indices[n - 1][j] as int;
        assert((before * base + k) * unit == before * (base * unit) + k * unit) by (nonlinear_arith);
    }
}

/// The chunk indices from `n` on add up to less than one unit of the chunk before them.
proof fn lemma_shifted_rest(indices: Seq<Seq<u32>>, widths: Seq<usize>, j: int, n: int)
    requires
        cycle_fits(indices, widths, j),
        0 <= n <= widths.len(),
    ensures
        0 <= shifted(indices, widths, j, widths.len() as int) - shifted(indices, widths, j, n)
            < pow2(shout_read_raf::bits_below(widths, n - 1)),
    decreases widths.len() - n,
{
    vstd::arithmetic::power2::lemma_pow2_pos(shout_read_raf::bits_below(widths, n - 1));
    if n < widths.len() {
        lemma_shifted_rest(indices, widths, j, n + 1);
        lemma_bits_below(widths, n);
        let base = pow2(widths[n] as nat) as int;
        let unit = pow2(shout_read_raf::bits_below(widths, n)) as int;
        let k = indices[n][j] as int;
        assert(indices[n][j] < pow2(widths[n] as nat));
        assert(0 <= k * unit && k * unit + unit <= base * unit) by (nonlinear_arith)
            requires
                0 <= k < base,
                unit >= 0,
        ;
    }
}

proof fn lemma_bits_below(widths: Seq<usize>, i: int)
    requires
        0 <= i < widths.len(),
    ensures
        pow2(shout_read_raf::bits_below(widths, i - 1)) == pow2(widths[i] as nat) * pow2(
            shout_read_raf::bits_below(widths, i),
        ),
{
    shout_read_raf::lemma_offset_monotone(widths, i + 1, widths.len() as int);
    poly::lemma_pow2_concat(widths[i] as nat, shout_read_raf::bits_below(widths, i));
}

/// The read indicator of one-hot chunk columns marks exactly the spelled address of each cycle.
proof fn lemma_indicator<F: Field>(
    indices: Seq<Seq<u32>>,
    widths: Seq<usize>,
    log_t: nat,
    k: int,
    j: int,
)
    requires
        indices_fit(indices, widths, log_t),
        0 <= j < pow2(log_t),
        0 <= k < pow2(shout_read_raf::address_bits(widths)),
    ensures
        shout_read_raf::read_indicator(
            chunk_columns::<F>(indices, widths),
            widths,
            log_t,
            k * pow2(log_t) + j,
        ) == truth::<F>(k == address(indices, widths, j)),
{
    let d = widths.len() as int;
    let t = pow2(log_t) as int;
    let x = k * t + j;
    let columns = chunk_columns::<F>(indices, widths);
    let f = |i: int| shout_read_raf::ra_full(columns[i], widths, i, log_t)[x];
    let g = |i: int| truth::<F>(digit_at(widths, k, i) == indices[i][j]);
    poly::lemma_block_index(k, t, j);
    assert forall|i: int| 0 <= i < d implies #[trigger] f(i) == g(i) by {
        let dim = pow2(widths[i] as nat) as int;
        let inner = pow2(shout_read_raf::bits_below(widths, i)) as int;
        vstd::arithmetic::power2::lemma_pow2_pos(widths[i] as nat);
        vstd::arithmetic::power2::lemma_pow2_pos(shout_read_raf::bits_below(widths, i));
        shout_read_raf::lemma_index_space(widths, i, log_t);
        poly::lemma_pow2_concat(shout_read_raf::address_bits(widths), log_t);
        poly::lemma_row_bound(k, pow2(shout_read_raf::address_bits(widths)) as int, t);
        let digit = digit_at(widths, k, i);
        assert(0 <= digit < dim);
        assert(indices[i].len() == t);
        poly::lemma_block_index(digit, t, j);
        poly::lemma_row_bound(digit, dim, t);
        let sel = access::marks(indices[i]);
        assert(columns[i][digit * t + j] == truth::<F>(digit == indices[i][j]));
    }
    sums::lemma_product_ext(d, f, g);
    lemma_digits::<F>(indices, widths, log_t, k, j, d);
    poly::lemma_pow2_zero();
    assert(shout_read_raf::address_bits(widths) - shout_read_raf::offset(widths, d) == 0);
    vstd::arithmetic::div_mod::lemma_div_by_self(1);
    assert(k / 1 == k);
}

/// Reading through one-hot chunk columns reads the value at the spelled address of every cycle.
pub proof fn law_true_read<F: Field>(
    stage: StageModel<F>,
    indices: Seq<Seq<u32>>,
    widths: Seq<usize>,
    log_t: nat,
)
    requires
        indices_fit(indices, widths, log_t),
    ensures
        shout_read_raf::read_value(
            stage,
            chunk_columns::<F>(indices, widths),
            widths,
            log_t,
        ) == true_read(stage, indices, widths, log_t),
{
    let t = pow2(log_t) as int;
    let bits = shout_read_raf::address_bits(widths);
    let kk = pow2(bits) as int;
    let columns = chunk_columns::<F>(indices, widths);
    poly::lemma_pow2_concat(bits, log_t);
    vstd::arithmetic::power2::lemma_pow2_pos(log_t);
    let f = |x: int|
        shout_read_raf::read_indicator(columns, widths, log_t, x).times(
            poly::eq_weight(stage.r_cycle, x % (pow2(log_t) as int)),
        ).times(stage.val_addr[x / (pow2(log_t) as int)]);
    sums::lemma_sum_blocks(kk, t, f);
    let cell = |k: int, j: int| f(k * t + j);
    let by_address = |k: int| sums::sum(t, |j: int| f(k * t + j));
    sums::lemma_sum_swap(kk, t, cell);
    assert forall|k: int| 0 <= k < kk implies #[trigger] by_address(k) == sums::sum(
        t,
        |j: int| cell(k, j),
    ) by {
        sums::lemma_sum_ext(t, |j: int| f(k * t + j), |j: int| cell(k, j));
    }
    sums::lemma_sum_ext(kk, by_address, |k: int| sums::sum(t, |j: int| cell(k, j)));
    sums::lemma_sum_ext(kk, by_address, |a: int| sums::sum(t, |j: int| f(a * t + j)));
    let by_cycle = |j: int| sums::sum(kk, |k: int| cell(k, j));
    let target = |j: int|
        poly::eq_weight(stage.r_cycle, j).times(stage.val_addr[address(indices, widths, j)]);
    assert forall|j: int| 0 <= j < t implies #[trigger] by_cycle(j) == target(j) by {
        let a = address(indices, widths, j);
        let e = poly::eq_weight(stage.r_cycle, j);
        let g = |k: int| cell(k, j);
        lemma_spelled_in_range(indices, widths, j, widths.len() as int);
        poly::lemma_eq_weight_valid(stage.r_cycle, j);
        assert forall|k: int| 0 <= k < kk implies #[trigger] g(k) == truth::<F>(k == a).times(
            e,
        ).times(stage.val_addr[k]) by {
            lemma_indicator::<F>(indices, widths, log_t, k, j);
            poly::lemma_block_index(k, t, j);
        }
        assert forall|k: int| 0 <= k < kk && k != a implies #[trigger] g(k) == F::of_int(0) by {
            field::lemma_zero_times(e);
            field::lemma_zero_times(stage.val_addr[k]);
        }
        field::lemma_one_times(e);
        F::law_valid(e, stage.val_addr[a]);
        sums::lemma_sum_single(kk, a, g);
        sums::lemma_sum_ext(kk, |k: int| cell(k, j), g);
    }
    sums::lemma_sum_ext(t, by_cycle, target);
    sums::lemma_sum_ext(t, by_cycle, |j: int| sums::sum(kk, |i: int| cell(i, j)));
}

/// The recorded read claims are true.
pub open spec fn claims_true<F: Field>(
    inputs: InputsModel<F>,
    indices: Seq<Seq<u32>>,
    acc: Claims<F>,
) -> bool {
    forall|s: int|
        0 <= s < inputs.stages.len() ==> acc[#[trigger] shout_read_raf::rv_id(inputs.stages[s])].1
            == true_read(inputs.stages[s], indices, inputs.widths, inputs.log_t)
}

/// Completeness: the honest check of true read claims is accepted, both parties record the same
/// claims, and these are the true openings of the one-hot columns.
pub proof fn law_complete<F: Field>(
    inputs: InputsModel<F>,
    indices: Seq<Seq<u32>>,
    acc: Claims<F>,
    p: FsState<F>,
    v: FsState<F>,
    whole: Seq<F>,
)
    requires
        inputs.sized(),
        indices_fit(indices, inputs.widths, inputs.log_t),
        claims_true(inputs, indices, acc),
        p.canonical(),
        transcript::synced(p, v, whole),
        honest(
            inputs,
            chunk_columns::<F>(indices, inputs.widths),
            acc,
            p,
        ).2.tape.is_prefix_of(whole),
    ensures
        ({
            let columns = chunk_columns::<F>(indices, inputs.widths);
            let (openings, acc1, p1) = honest(inputs, columns, acc, p);
            let (r, acc2, v1) = verdict(openings, inputs, acc, v);
            let m = inputs.batched(p.next());
            &&& r is Ok
            &&& acc2 == acc1
            &&& transcript::synced(p1, v1, whole)
            &&& p1.canonical()
            &&& forall|i: int|
                0 <= i < inputs.widths.len() ==> (#[trigger] acc1[m.chunk_id(i)]).1 == poly::mle(
                    columns[i],
                    acc1[m.chunk_id(i)].0,
                )
        }),
{
    let m = inputs.batched(p.next());
    let ws = inputs.widths;
    let d = ws.len();
    let columns = chunk_columns::<F>(indices, ws);
    let tab = shout_read_raf::table(m.gp, m.stages, ws, m.log_t, columns);
    let later = honest(inputs, columns, acc, p).2.tape;
    transcript::lemma_synced_squeeze(p, v, whole);
    lemma_chunks_sized::<F>(indices, ws, m.log_t);
    shout_read_raf::law_table_shaped(m.gp, m.stages, ws, m.log_t, columns);
    shout_read_raf::law_total(m.gp, m.stages, ws, m.log_t, columns);
    let f = |s: int|
        m.gp[s].times(shout_read_raf::read_value(m.stages[s], columns, ws, m.log_t));
    let g = |s: int| m.gp[s].times(acc[shout_read_raf::rv_id(m.stages[s])].1);
    assert forall|s: int| 0 <= s < m.stages.len() implies #[trigger] f(s) == g(s) by {
        law_true_read(m.stages[s], indices, ws, m.log_t);
        assert(acc[shout_read_raf::rv_id(inputs.stages[s])].1 == true_read(
            inputs.stages[s],
            indices,
            ws,
            m.log_t,
        ));
    }
    sums::lemma_sum_ext(m.stages.len() as int, f, g);
    assert(tab.total() == shout_read_raf::input(m.gp, m.stages, acc));
    sumcheck::lemma_step_complete(tab, m.vars(), p.squeeze(), v.squeeze(), whole, later);
    let (xs, p1) = sumcheck::prove_run(tab, m.vars(), p.squeeze());
    let row = sumcheck::final_row(tab.columns, xs);
    shout_read_raf::law_output(m, columns, acc, xs);
    shout_read_raf::lemma_cached_ext(m, acc, xs, row.take(d as int), row, d as int);
}

/// The name belongs to another check.
pub open spec fn foreign(id: OpeningId, own: SumcheckId) -> bool {
    match id {
        OpeningId::Committed(_, s) => s != own,
        OpeningId::Virtual(_, _) => true,
    }
}

/// The chunk openings are recorded at the parts of one point.
pub open spec fn records<F: Field>(inputs: InputsModel<F>, acc: Claims<F>, xs: Seq<F>) -> bool {
    &&& xs.len() == shout_read_raf::address_bits(inputs.widths) + inputs.log_t
    &&& forall|i: int|
        0 <= i < inputs.widths.len() ==> acc.contains_key(#[trigger] inputs.chunk_id(i))
            && acc[inputs.chunk_id(i)].0 == shout_read_raf::chunk_point(
            inputs.widths,
            xs.reverse(),
            i,
        )
}

/// Recording chunk openings keeps the claims of other checks.
proof fn lemma_cached_keeps<F: Field>(
    m: ReadModel<F>,
    acc: Claims<F>,
    xs: Seq<F>,
    v: Seq<F>,
    n: int,
    id: OpeningId,
)
    requires
        foreign(id, m.id),
    ensures
        shout_read_raf::cached(m, acc, xs, v, n).contains_key(id) == acc.contains_key(id),
        shout_read_raf::cached(m, acc, xs, v, n)[id] == acc[id],
    decreases n,
{
    if n > 0 {
        lemma_cached_keeps(m, acc, xs, v, n - 1, id);
    }
}

proof fn lemma_records<F: Field>(
    inputs: InputsModel<F>,
    g: F,
    acc: Claims<F>,
    xs: Seq<F>,
    v: Seq<F>,
)
    requires
        xs.len() == shout_read_raf::address_bits(inputs.widths) + inputs.log_t,
        inputs.widths.len() <= usize::MAX,
    ensures
        records(
            inputs,
            shout_read_raf::cached(inputs.batched(g), acc, xs, v, inputs.widths.len() as int),
            xs,
        ),
        forall|id: OpeningId|
            foreign(id, inputs.id) ==> #[trigger] accumulator::kept(
                acc,
                shout_read_raf::cached(inputs.batched(g), acc, xs, v, inputs.widths.len() as int),
                id,
            ),
{
    let m = inputs.batched(g);
    let d = inputs.widths.len() as int;
    let acc1 = shout_read_raf::cached(m, acc, xs, v, d);
    assert forall|i: int| 0 <= i < d implies acc1.contains_key(#[trigger] inputs.chunk_id(i))
        && acc1[inputs.chunk_id(i)].0 == shout_read_raf::chunk_point(
        inputs.widths,
        xs.reverse(),
        i,
    ) by {
        shout_read_raf::lemma_cached(m, acc, xs, v, d, i);
        assert(m.chunk_id(i) == inputs.chunk_id(i));
    }
    assert forall|id: OpeningId| foreign(id, inputs.id) implies #[trigger] accumulator::kept(
        acc,
        acc1,
        id,
    ) by {
        lemma_cached_keeps(m, acc, xs, v, d, id);
    }
}

/// What an honest check leaves behind: its records, the claims of other checks, and a longer tape.
pub proof fn lemma_honest_leaves<F: Field>(
    inputs: InputsModel<F>,
    columns: Seq<Seq<F>>,
    acc: Claims<F>,
    s: FsState<F>,
)
    requires
        inputs.widths.len() <= usize::MAX,
    ensures
        exists|xs: Seq<F>| #[trigger] records(inputs, honest(inputs, columns, acc, s).1, xs),
        forall|id: OpeningId|
            foreign(id, inputs.id) ==> #[trigger] accumulator::kept(
                acc,
                honest(inputs, columns, acc, s).1,
                id,
            ),
        s.tape.is_prefix_of(honest(inputs, columns, acc, s).2.tape),
{
    let m = inputs.batched(s.next());
    let tab = shout_read_raf::table(m.gp, m.stages, m.widths, m.log_t, columns);
    sumcheck::lemma_run_extends(tab, m.vars(), s.squeeze());
    let xs = sumcheck::prove_run(tab, m.vars(), s.squeeze()).0;
    let v = sumcheck::bound_row(tab.columns, xs).take(inputs.widths.len() as int);
    lemma_records(inputs, s.next(), acc, xs, v);
    assert(records(inputs, honest(inputs, columns, acc, s).1, xs));
}

/// What an accepted check leaves behind.
pub proof fn lemma_verdict_leaves<F: Field>(
    openings: Seq<F>,
    inputs: InputsModel<F>,
    acc: Claims<F>,
    s: FsState<F>,
)
    requires
        inputs.widths.len() <= usize::MAX,
        verdict(openings, inputs, acc, s).0 is Ok,
    ensures
        exists|xs: Seq<F>| #[trigger] records(inputs, verdict(openings, inputs, acc, s).1, xs),
        forall|id: OpeningId|
            foreign(id, inputs.id) ==> #[trigger] accumulator::kept(
                acc,
                verdict(openings, inputs, acc, s).1,
                id,
            ),
{
    let m = inputs.batched(s.next());
    let d = inputs.widths.len();
    let claim = shout_read_raf::input(m.gp, m.stages, acc);
    sumcheck::lemma_verify_len(claim, Seq::empty(), m.vars(), d + 1, s.squeeze());
    let (r, s1) = sumcheck::verify_run(claim, m.vars(), d + 1, s.squeeze());
    match r {
        Ok((xs, _)) => {
            lemma_records(inputs, s.next(), acc, xs, openings);
            assert(records(inputs, verdict(openings, inputs, acc, s).1, xs));
        },
        Err(_) => {},
    }
}

/// The weight of the product of the openings in the read check: the value read at the bound point.
pub open spec fn openings_weight<F: Field>(
    inputs: InputsModel<F>,
    acc: Claims<F>,
    s: FsState<F>,
) -> F {
    let m = inputs.batched(s.next());
    let claim = shout_read_raf::input(m.gp, m.stages, acc);
    let point = sumcheck::verify_run(
        claim,
        m.vars(),
        inputs.widths.len() + 1,
        s.squeeze(),
    ).0->Ok_0.0.reverse();
    let log_k = shout_read_raf::address_bits(m.widths) as int;
    shout_read_raf::stage_value(m.gp, m.stages, point.take(log_k), point.skip(log_k))
}

/// Where some chunk openings are accepted, others with a different product are refused by the read
/// check, unless its weight cancels the difference.
pub proof fn law_changed_openings_refused<F: Field>(
    accepted: Seq<F>,
    openings: Seq<F>,
    inputs: InputsModel<F>,
    acc: Claims<F>,
    s: FsState<F>,
)
    requires
        inputs.widths.len() <= usize::MAX,
        verdict(accepted, inputs, acc, s).0 is Ok,
        openings_weight(inputs, acc, s).times(
            sums::product(inputs.widths.len() as int, |i: int| openings[i]).minus(
                sums::product(inputs.widths.len() as int, |i: int| accepted[i]),
            ),
        ) != F::of_int(0),
    ensures
        verdict(openings, inputs, acc, s).0 == Err::<(), ReadRafStageError>(
            ReadRafStageError::Claim,
        ),
{
    let m = inputs.batched(s.next());
    let d = inputs.widths.len();
    let w = openings_weight(inputs, acc, s);
    let a = sums::product(d as int, |i: int| accepted[i]);
    let b = sums::product(d as int, |i: int| openings[i]);
    let claim = shout_read_raf::input(m.gp, m.stages, acc);
    let xs = sumcheck::verify_run(claim, m.vars(), d + 1, s.squeeze()).0->Ok_0.0;
    lemma_cached_product(m, acc, xs, accepted);
    lemma_cached_product(m, acc, xs, openings);
    field::lemma_weighted_apart(w, a, b);
    F::law_times_comm(w, a);
    F::law_times_comm(w, b);
}

/// Where the recorded read claims are accepted, others with a different batch are refused by the
/// sumcheck.
pub proof fn law_changed_reads_refused<F: Field>(
    openings: Seq<F>,
    others: Seq<F>,
    inputs: InputsModel<F>,
    acc: Claims<F>,
    other: Claims<F>,
    s: FsState<F>,
)
    requires
        verdict(openings, inputs, acc, s).0 is Ok,
        ({
            let m = inputs.batched(s.next());
            &&& m.vars() > 0
            &&& shout_read_raf::input(m.gp, m.stages, other) != shout_read_raf::input(
                m.gp,
                m.stages,
                acc,
            )
        }),
    ensures
        verdict(others, inputs, other, s).0 == Err::<(), ReadRafStageError>(
            ReadRafStageError::Sumcheck,
        ),
{
    let m = inputs.batched(s.next());
    sumcheck::law_changed_claim_refused(
        shout_read_raf::input(m.gp, m.stages, acc),
        shout_read_raf::input(m.gp, m.stages, other),
        m.vars(),
        inputs.widths.len() + 1,
        s.squeeze(),
    );
}

/// The product of the recorded openings is that of the sent ones.
proof fn lemma_cached_product<F: Field>(m: ReadModel<F>, acc: Claims<F>, xs: Seq<F>, v: Seq<F>)
    requires
        m.widths.len() <= usize::MAX,
    ensures
        ({
            let d = m.widths.len() as int;
            let after = shout_read_raf::cached(m, acc, xs, v, d);
            sums::product(d, |i: int| after[m.chunk_id(i)].1) == sums::product(d, |i: int| v[i])
        }),
{
    let d = m.widths.len() as int;
    let after = shout_read_raf::cached(m, acc, xs, v, d);
    let f = |i: int| after[m.chunk_id(i)].1;
    let g = |i: int| v[i];
    assert forall|i: int| 0 <= i < d implies #[trigger] f(i) == g(i) by {
        shout_read_raf::lemma_cached(m, acc, xs, v, d, i);
    }
    sums::lemma_product_ext(d, f, g);
}

/// An accepted proof is refused when any one element of its rounds is changed.
pub proof fn law_changed_round_refused<F: Field>(
    openings: Seq<F>,
    inputs: InputsModel<F>,
    acc: Claims<F>,
    s: FsState<F>,
    j: int,
    delta: F,
)
    requires
        verdict(openings, inputs, acc, s).0 is Ok,
        0 <= j < inputs.batched(s.next()).vars() * (inputs.widths.len() + 2),
        delta.valid(),
        delta != F::of_int(0),
    ensures
        verdict(openings, inputs, acc, sumcheck::changed(s, j, delta)).0 == Err::<
            (),
            ReadRafStageError,
        >(ReadRafStageError::Sumcheck),
{
    let m = inputs.batched(s.next());
    let degree = inputs.widths.len() + 1;
    assert(degree + 1 == inputs.widths.len() + 2);
    assert(sumcheck::changed(s, j, delta).squeeze() == sumcheck::changed(s.squeeze(), j, delta));
    sumcheck::law_changed_round_refused(
        shout_read_raf::input(m.gp, m.stages, acc),
        Seq::empty(),
        m.vars(),
        degree,
        s.squeeze(),
        j,
        delta,
    );
}

} // verus!
