//! Batched one-hot read checking.
//!
//! Several read claims about one sequence of reads are checked together: the batch
//! `sum_s g^s rv_s` is the sum over all addresses `k` and cycles `j` of
//! `ra(k, j) sum_s g^s eq(r_s, j) Val_s(k)`, where the one-hot read indicator `ra` is the product of
//! its chunk columns `ra_i(k_i, j)`. Chunk `0` is the most significant digit of the address.

use crate::field;
use crate::field::Field;
use crate::framework::accumulator;
use crate::framework::accumulator::{
    Claims, CommittedPolynomial, OpeningId, Openings, SumcheckId, VirtualPolynomial,
};
use crate::framework::formula;
use crate::framework::poly;
use crate::framework::poly::MultilinearPolynomial;
use crate::framework::sumcheck;
use crate::framework::sumcheck::{SumTable, VirtualSum};
use crate::framework::sums;
use crate::framework::transcript::Challenge;
use crate::framework::univariate;
use vstd::arithmetic::power2::pow2;
use vstd::prelude::*;

verus! {

/// The committed read-address polynomials.
#[derive(Clone, Copy, Debug, PartialEq, Eq, Structural)]
pub enum RaFamily {
    Instruction,
    Bytecode,
    Ram,
}

impl RaFamily {
    /// The committed polynomial of a chunk.
    pub open spec fn member(self, i: int) -> CommittedPolynomial {
        match self {
            RaFamily::Instruction => CommittedPolynomial::InstructionRa(i as usize),
            RaFamily::Bytecode => CommittedPolynomial::BytecodeRa(i as usize),
            RaFamily::Ram => CommittedPolynomial::RamRa(i as usize),
        }
    }

    /// The committed polynomial of a chunk.
    pub fn polynomial(self, i: usize) -> (r: CommittedPolynomial)
        ensures
            r == self.member(i as int),
    {
        match self {
            RaFamily::Instruction => CommittedPolynomial::InstructionRa(i),
            RaFamily::Bytecode => CommittedPolynomial::BytecodeRa(i),
            RaFamily::Ram => CommittedPolynomial::RamRa(i),
        }
    }
}

/// One read claim of the batch: its cycle point, the values read at each address, and the name
/// under which the claim is recorded.
#[derive(Debug)]
pub struct ReadRafStage<F> {
    pub r_cycle: Vec<F>,
    pub val_addr: Vec<F>,
    pub rv_key: (VirtualPolynomial, SumcheckId),
}

/// A read claim as mathematical values.
#[verifier::ext_equal]
pub struct StageModel<F> {
    pub r_cycle: Seq<F>,
    pub val_addr: Seq<F>,
    pub rv_key: (VirtualPolynomial, SumcheckId),
}

impl<F: Field> View for ReadRafStage<F> {
    type V = StageModel<F>;

    open spec fn view(&self) -> StageModel<F> {
        StageModel { r_cycle: self.r_cycle@, val_addr: self.val_addr@, rv_key: self.rv_key }
    }
}

/// The read claims as mathematical values.
pub open spec fn models<F: Field>(stages: Seq<ReadRafStage<F>>) -> Seq<StageModel<F>> {
    Seq::new(stages.len(), |s: int| stages[s]@)
}

/// The sum of the first `i` chunk widths.
pub open spec fn offset(widths: Seq<usize>, i: int) -> nat
    decreases i,
{
    if i <= 0 {
        0
    } else {
        offset(widths, i - 1) + widths[i - 1] as nat
    }
}

/// The number of address bits.
pub open spec fn address_bits(widths: Seq<usize>) -> nat {
    offset(widths, widths.len() as int)
}

/// The number of address bits below chunk `i`.
pub open spec fn bits_below(widths: Seq<usize>, i: int) -> nat {
    (address_bits(widths) - offset(widths, i + 1)) as nat
}

/// The product of the dimensions behind position `i`.
pub open spec fn suffix_product(dims: Seq<usize>, i: int) -> int
    decreases dims.len() - i,
{
    if i + 1 >= dims.len() {
        1
    } else {
        suffix_product(dims, i + 1) * dims[i + 1]
    }
}

pub proof fn lemma_offset_monotone(widths: Seq<usize>, i: int, j: int)
    requires
        0 <= i <= j,
    ensures
        offset(widths, i) <= offset(widths, j),
    decreases j,
{
    if i < j {
        lemma_offset_monotone(widths, i, j - 1);
    }
}

/// The mixed-radix place values: for each position the product of the dimensions behind it.
pub fn suffix_products(dims: &Vec<usize>) -> (r: Vec<usize>)
    requires
        forall|i: int|
            0 <= i < dims@.len() ==> #[trigger] suffix_product(dims@, i) <= usize::MAX,
    ensures
        r@.len() == dims@.len(),
        forall|i: int| 0 <= i < dims@.len() ==> #[trigger] r@[i] == suffix_product(dims@, i),
{
    let d: usize = dims.len();
    let mut out: Vec<usize> = Vec::new();
    for i in 0..d
        invariant
            out@ == Seq::new(i as nat, |j: int| 1usize),
    {
        out.push(1);
        assert(out@ =~= Seq::new((i + 1) as nat, |j: int| 1usize));
    }
    if d == 0 {
        return out;
    }
    let mut i: usize = d - 1;
    while i > 0
        invariant
            d == dims@.len(),
            out@.len() == d,
            i < d,
            forall|j: int| 0 <= j < d ==> #[trigger] suffix_product(dims@, j) <= usize::MAX,
            forall|j: int| i <= j < d ==> #[trigger] out@[j] == suffix_product(dims@, j),
        decreases i,
    {
        assert(suffix_product(dims@, i - 1) == suffix_product(dims@, i as int) * dims@[i as int]);
        assert(suffix_product(dims@, i - 1) <= usize::MAX);
        assert(out@[i as int] == suffix_product(dims@, i as int));
        let next: usize = out[i] * dims[i];
        out.set(i - 1, next);
        i = i - 1;
    }
    out
}

/// Every dimension is at least one.
pub open spec fn positive(dims: Seq<usize>) -> bool {
    forall|i: int| 0 <= i < dims.len() ==> #[trigger] dims[i] >= 1
}

/// The number of addresses: the product of all dimensions.
pub open spec fn address_count(dims: Seq<usize>) -> int {
    suffix_product(dims, -1)
}

/// The mixed-radix digit of an address at a position.
pub open spec fn digit(dims: Seq<usize>, address: int, i: int) -> int {
    (address / suffix_product(dims, i)) % (dims[i] as int)
}

/// The address whose first `n` digits are the given ones, by their place values.
pub open spec fn placed(dims: Seq<usize>, digits: Seq<int>, n: int) -> int
    decreases n,
{
    if n <= 0 {
        0
    } else {
        placed(dims, digits, n - 1) + digits[n - 1] * suffix_product(dims, n - 1)
    }
}

/// The digits are below their dimensions.
pub open spec fn digits_fit(dims: Seq<usize>, digits: Seq<int>) -> bool {
    &&& digits.len() == dims.len()
    &&& forall|i: int| 0 <= i < dims.len() ==> 0 <= #[trigger] digits[i] < dims[i]
}

/// The digits of an address are below the dimensions, and by their place values they add up to the
/// address.
pub proof fn law_digits_spell(dims: Seq<usize>, address: int)
    requires
        positive(dims),
        0 <= address < address_count(dims),
    ensures
        ({
            let digits = Seq::new(dims.len(), |i: int| digit(dims, address, i));
            &&& digits_fit(dims, digits)
            &&& placed(dims, digits, dims.len() as int) == address
        }),
{
    let d = dims.len() as int;
    let digits = Seq::new(dims.len(), |i: int| digit(dims, address, i));
    assert forall|i: int| 0 <= i < d implies 0 <= #[trigger] digits[i] < dims[i] by {
        assert(dims[i] >= 1);
    }
    lemma_leading_digits(dims, address, d);
}

/// Digits below the dimensions are the digits of the address that they add up to: no two addresses
/// below the count share their digits, and no address has two spellings.
pub proof fn law_digits_unique(dims: Seq<usize>, digits: Seq<int>)
    requires
        positive(dims),
        digits_fit(dims, digits),
    ensures
        ({
            let address = placed(dims, digits, dims.len() as int);
            &&& 0 <= address < address_count(dims)
            &&& forall|i: int|
                0 <= i < dims.len() ==> #[trigger] digit(dims, address, i) == digits[i]
        }),
{
    let d = dims.len() as int;
    let address = placed(dims, digits, d);
    lemma_trailing_digits(dims, digits, 0);
    assert forall|i: int| 0 <= i < d implies #[trigger] digit(dims, address, i) == digits[i] by {
        let unit = suffix_product(dims, i);
        let base = dims[i] as int;
        lemma_suffix_positive(dims, i);
        lemma_suffix_positive(dims, i - 1);
        lemma_trailing_digits(dims, digits, i + 1);
        let head = lemma_placed_multiple(dims, digits, i);
        assert(0 <= digits[i] < dims[i]);
        let rest = address - placed(dims, digits, i + 1);
        assert(address == (head * base + digits[i]) * unit + rest) by (nonlinear_arith)
            requires
                address == head * (unit * base) + digits[i] * unit + rest,
        ;
        vstd::arithmetic::div_mod::lemma_fundamental_div_mod_converse(
            address,
            unit,
            head * base + digits[i],
            rest,
        );
        vstd::arithmetic::div_mod::lemma_fundamental_div_mod_converse(
            head * base + digits[i],
            base,
            head,
            digits[i],
        );
    }
}

proof fn lemma_suffix_positive(dims: Seq<usize>, i: int)
    requires
        positive(dims),
        -1 <= i,
    ensures
        suffix_product(dims, i) >= 1,
    decreases dims.len() - i,
{
    if i + 1 < dims.len() {
        lemma_suffix_positive(dims, i + 1);
        assert(dims[i + 1] >= 1);
        let rest = suffix_product(dims, i + 1);
        let dim = dims[i + 1] as int;
        assert(rest * dim >= 1) by (nonlinear_arith)
            requires
                rest >= 1,
                dim >= 1,
        ;
    }
}

/// The leading digits of an address add up to the address rounded down to their last place value.
proof fn lemma_leading_digits(dims: Seq<usize>, address: int, n: int)
    requires
        positive(dims),
        0 <= address < address_count(dims),
        0 <= n <= dims.len(),
    ensures
        placed(dims, Seq::new(dims.len(), |i: int| digit(dims, address, i)), n) == (address
            / suffix_product(dims, n - 1)) * suffix_product(dims, n - 1),
    decreases n,
{
    let digits = Seq::new(dims.len(), |i: int| digit(dims, address, i));
    lemma_suffix_positive(dims, n - 1);
    if n == 0 {
        let count = address_count(dims);
        vstd::arithmetic::div_mod::lemma_basic_div(address, count);
        assert(0 * count == 0) by (nonlinear_arith);
    } else {
        lemma_leading_digits(dims, address, n - 1);
        lemma_suffix_positive(dims, n - 2);
        let unit = suffix_product(dims, n - 1);
        let base = dims[n - 1] as int;
        let q = address / unit;
        assert(suffix_product(dims, n - 2) == unit * base);
        assert(base >= 1);
        vstd::arithmetic::div_mod::lemma_div_denominator(address, unit, base);
        vstd::arithmetic::div_mod::lemma_fundamental_div_mod(q, base);
        assert((q / base) * (unit * base) + (q % base) * unit == q * unit) by (nonlinear_arith)
            requires
                q == base * (q / base) + q % base,
        ;
        assert(digits[n - 1] == q % base);
        assert(placed(dims, digits, n) == placed(dims, digits, n - 1) + (q % base) * unit);
    }
}

/// What leading digits add up to is a multiple of the last place value among them.
proof fn lemma_placed_multiple(dims: Seq<usize>, digits: Seq<int>, n: int) -> (head: int)
    requires
        0 <= n <= dims.len(),
    ensures
        placed(dims, digits, n) == head * suffix_product(dims, n - 1),
    decreases n,
{
    if n == 0 {
        assert(0 == 0 * suffix_product(dims, -1));
        0
    } else {
        let before = lemma_placed_multiple(dims, digits, n - 1);
        let unit = suffix_product(dims, n - 1);
        let base = dims[n - 1] as int;
        assert(suffix_product(dims, n - 2) == unit * base);
        let k = digits[n - 1];
        assert(before * (unit * base) + k * unit == (before * base + k) * unit) by (nonlinear_arith);
        before * base + k
    }
}

/// The digits from position `n` on add up to less than the place value before them.
proof fn lemma_trailing_digits(dims: Seq<usize>, digits: Seq<int>, n: int)
    requires
        positive(dims),
        digits_fit(dims, digits),
        0 <= n <= dims.len(),
    ensures
        0 <= placed(dims, digits, dims.len() as int) - placed(dims, digits, n) < suffix_product(
            dims,
            n - 1,
        ),
    decreases dims.len() - n,
{
    if n < dims.len() {
        lemma_trailing_digits(dims, digits, n + 1);
        lemma_suffix_positive(dims, n);
        let unit = suffix_product(dims, n);
        let base = dims[n] as int;
        let k = digits[n];
        assert(0 <= digits[n] < dims[n]);
        assert(suffix_product(dims, n - 1) == unit * base);
        assert(0 <= k * unit && k * unit + unit <= unit * base) by (nonlinear_arith)
            requires
                0 <= k < base,
                unit >= 1,
        ;
    }
}

proof fn lemma_suffix_is_power(widths: Seq<usize>, dims: Seq<usize>, i: int)
    requires
        widths.len() == dims.len(),
        forall|j: int| 0 <= j < dims.len() ==> #[trigger] dims[j] == pow2(widths[j] as nat),
        0 <= i < dims.len(),
    ensures
        suffix_product(dims, i) == pow2(bits_below(widths, i)),
    decreases dims.len() - i,
{
    let d = dims.len() as int;
    poly::lemma_pow2_zero();
    lemma_offset_monotone(widths, i + 1, d);
    if i + 1 < d {
        lemma_suffix_is_power(widths, dims, i + 1);
        lemma_offset_monotone(widths, i + 2, d);
        assert(offset(widths, i + 2) == offset(widths, i + 1) + widths[i + 1] as nat);
        assert(bits_below(widths, i) == bits_below(widths, i + 1) + widths[i + 1] as nat);
        poly::lemma_pow2_concat(bits_below(widths, i + 1), widths[i + 1] as nat);
        assert(dims[i + 1] == pow2(widths[i + 1] as nat));
    }
}

/// The batching powers, the chunk widths, and the claims of a read batch.
#[derive(Debug)]
pub struct OneHotReadRafParams<F> {
    /// The powers of the batching challenge, one per claim.
    pub gamma_powers: Vec<F>,
    /// The chunk widths in bits, the most significant chunk first.
    pub log_k_chunks: Vec<usize>,
    pub log_t: usize,
    pub stages: Vec<ReadRafStage<F>>,
    pub ra_family: RaFamily,
    /// The name under which the chunk openings are recorded.
    pub sumcheck_id: SumcheckId,
}

/// A read batch as mathematical values.
#[verifier::ext_equal]
pub struct ReadModel<F> {
    pub gp: Seq<F>,
    pub widths: Seq<usize>,
    pub log_t: nat,
    pub stages: Seq<StageModel<F>>,
    pub family: RaFamily,
    pub id: SumcheckId,
}

impl<F: Field> View for OneHotReadRafParams<F> {
    type V = ReadModel<F>;

    open spec fn view(&self) -> ReadModel<F> {
        ReadModel {
            gp: self.gamma_powers@,
            widths: self.log_k_chunks@,
            log_t: self.log_t as nat,
            stages: models(self.stages@),
            family: self.ra_family,
            id: self.sumcheck_id,
        }
    }
}

/// The name of the claim of a stage.
pub open spec fn rv_id<F: Field>(stage: StageModel<F>) -> OpeningId {
    accumulator::virt(stage.rv_key.0, stage.rv_key.1)
}

/// The batched read claim.
pub open spec fn input<F: Field>(gp: Seq<F>, stages: Seq<StageModel<F>>, acc: Claims<F>) -> F {
    sums::sum(stages.len() as int, |s: int| gp[s].times(acc[rv_id(stages[s])].1))
}

impl<F: Field> ReadModel<F> {
    /// The name of the claim about chunk `i`.
    pub open spec fn chunk_id(self, i: int) -> OpeningId {
        accumulator::comm(self.family.member(i), self.id)
    }

    /// Every claim has a power, a cycle point and one value per address.
    pub open spec fn sized(self) -> bool {
        &&& self.gp.len() == self.stages.len()
        &&& self.widths.len() < usize::MAX
        &&& forall|s: int|
            0 <= s < self.stages.len() ==> (#[trigger] self.stages[s]).r_cycle.len() == self.log_t
                && self.stages[s].val_addr.len() == pow2(address_bits(self.widths))
    }

    /// The number of variables of the index space.
    pub open spec fn vars(self) -> nat {
        address_bits(self.widths) + self.log_t
    }
}

impl<F: Field> OneHotReadRafParams<F> {
    /// Every claim has a power, a cycle point and one value per address, and the index space fits.
    pub open spec fn sized(self) -> bool {
        &&& self@.sized()
        &&& address_bits(self.log_k_chunks@) + self.log_t <= usize::MAX
        &&& pow2(address_bits(self.log_k_chunks@) + self.log_t as nat) <= usize::MAX
    }

    /// Draw the batching challenge and form one power per claim.
    pub fn new<T: Challenge<F>>(
        ra_family: RaFamily,
        sumcheck_id: SumcheckId,
        log_k_chunks: Vec<usize>,
        log_t: usize,
        stages: Vec<ReadRafStage<F>>,
        transcript: &mut T,
    ) -> (r: Self)
        ensures
            r.ra_family == ra_family,
            r.sumcheck_id == sumcheck_id,
            r.log_k_chunks == log_k_chunks,
            r.log_t == log_t,
            r.stages == stages,
            r.gamma_powers@ == Seq::new(
                stages@.len(),
                |i: int| sums::power(old(transcript).state().next(), i),
            ),
            final(transcript).state() == old(transcript).state().squeeze(),
    {
        let gamma: F = transcript.challenge();
        let n: usize = stages.len();
        let mut gamma_powers: Vec<F> = Vec::new();
        let mut p: F = field::one();
        for i in 0..n
            invariant
                p == sums::power(gamma, i as int),
                gamma_powers@ == Seq::new(i as nat, |j: int| sums::power(gamma, j)),
        {
            gamma_powers.push(p);
            assert(gamma_powers@ =~= Seq::new((i + 1) as nat, |j: int| sums::power(gamma, j)));
            p = p.mul(gamma);
        }
        OneHotReadRafParams { gamma_powers, log_k_chunks, log_t, stages, ra_family, sumcheck_id }
    }

    /// The number of address bits.
    pub fn log_k(&self) -> (r: usize)
        requires
            address_bits(self.log_k_chunks@) <= usize::MAX,
        ensures
            r == address_bits(self.log_k_chunks@),
    {
        let d: usize = self.log_k_chunks.len();
        let mut out: usize = 0;
        for i in 0..d
            invariant
                d == self.log_k_chunks@.len(),
                address_bits(self.log_k_chunks@) <= usize::MAX,
                out == offset(self.log_k_chunks@, i as int),
        {
            proof {
                lemma_offset_monotone(self.log_k_chunks@, i + 1, d as int);
            }
            out = out + self.log_k_chunks[i];
        }
        out
    }

    /// Record openings of the chunks at their points.
    pub fn record(&self, accumulator: &mut Openings<F>, challenges: &[F], values: &Vec<F>)
        requires
            self.sized(),
            challenges@.len() == self@.vars(),
            values@.len() == self.log_k_chunks@.len(),
        ensures
            final(accumulator)@ == cached(
                self@,
                old(accumulator)@,
                challenges@,
                values@,
                self.log_k_chunks@.len() as int,
            ),
            final(accumulator).log_t == old(accumulator).log_t,
    {
        let d: usize = self.log_k_chunks.len();
        let ghost ws = self.log_k_chunks@;
        let point: Vec<F> = poly::reversed(challenges);
        let log_k: usize = self.log_k();
        let len: usize = point.len();
        let r_cycle: Vec<F> = poly::range(&point, log_k, len);
        let mut from: usize = 0;
        for i in 0..d
            invariant
                d == ws.len(),
                d == values@.len(),
                ws == self.log_k_chunks@,
                log_k == address_bits(ws),
                log_k <= point@.len(),
                point@ == challenges@.reverse(),
                r_cycle@ == point@.skip(log_k as int),
                from == offset(ws, i as int),
                from <= log_k,
                accumulator.log_t == old(accumulator).log_t,
                accumulator@ == cached(
                    self@,
                    old(accumulator)@,
                    challenges@,
                    values@,
                    i as int,
                ),
        {
            proof {
                lemma_offset_monotone(ws, i + 1, d as int);
            }
            let to: usize = from + self.log_k_chunks[i];
            let digit: Vec<F> = poly::range(&point, from, to);
            let chunk_point: Vec<F> = poly::concat(&digit, &r_cycle);
            accumulator.append_dense(
                self.ra_family.polynomial(i),
                self.sumcheck_id,
                chunk_point,
                values[i],
            );
            from = to;
        }
    }

    /// The batched read claim.
    pub fn input_claim(&self, accumulator: &Openings<F>) -> (r: F)
        requires
            self.gamma_powers@.len() == self.stages@.len(),
            forall|s: int|
                0 <= s < self.stages@.len() ==> accumulator@.contains_key(
                    #[trigger] rv_id(self@.stages[s]),
                ),
        ensures
            r == input(self@.gp, self@.stages, accumulator@),
    {
        let n: usize = self.stages.len();
        let mut out: F = field::zero();
        let ghost f = |s: int|
            self.gamma_powers@[s].times(accumulator@[rv_id(self@.stages[s])].1);
        for s in 0..n
            invariant
                n == self.stages@.len(),
                n == self.gamma_powers@.len(),
                f == (|s: int|
                    self.gamma_powers@[s].times(accumulator@[rv_id(self@.stages[s])].1)),
                forall|s: int|
                    0 <= s < n ==> accumulator@.contains_key(#[trigger] rv_id(self@.stages[s])),
                out == sums::sum(s as int, f),
        {
            assert(accumulator@.contains_key(rv_id(self@.stages[s as int])));
            assert(self@.stages[s as int] == self.stages@[s as int]@);
            let (poly, id) = self.stages[s].rv_key;
            let rv: F = accumulator.virtual_claim(poly, id);
            out = out.add(self.gamma_powers[s].mul(rv));
        }
        out
    }
}

/// The read indicator of chunk `i` over the whole index space.
pub open spec fn ra_full<F: Field>(
    chunk: Seq<F>,
    widths: Seq<usize>,
    i: int,
    log_t: nat,
) -> Seq<F> {
    poly::spread(
        chunk,
        pow2(offset(widths, i)) as int,
        pow2(widths[i] as nat) as int,
        pow2(bits_below(widths, i)) as int,
        pow2(log_t) as int,
    )
}

/// The weighted value of one claim at an index.
pub open spec fn stage_term<F: Field>(
    gp: Seq<F>,
    stages: Seq<StageModel<F>>,
    t: int,
    s: int,
    x: int,
) -> F {
    gp[s].times(poly::eq_weight(stages[s].r_cycle, x % t)).times(stages[s].val_addr[x / t])
}

/// The batched values over the whole index space.
pub open spec fn stage_column<F: Field>(
    gp: Seq<F>,
    stages: Seq<StageModel<F>>,
    t: int,
    size: nat,
) -> Seq<F> {
    Seq::new(size, |x: int| sums::sum(stages.len() as int, |s: int| stage_term(gp, stages, t, s, x)))
}

/// The table the prover sums.
pub open spec fn table<F: Field>(
    gp: Seq<F>,
    stages: Seq<StageModel<F>>,
    widths: Seq<usize>,
    log_t: nat,
    ra_chunks: Seq<Seq<F>>,
) -> SumTable<F> {
    SumTable {
        columns: Seq::new(
            widths.len(),
            |i: int| ra_full(ra_chunks[i], widths, i, log_t),
        ).push(
            stage_column(gp, stages, pow2(log_t) as int, pow2(address_bits(widths) + log_t)),
        ),
        formula: formula::column_product(widths.len()),
    }
}

/// Every chunk column covers its digit and all cycles.
pub open spec fn chunks_sized<F: Field>(
    ra_chunks: Seq<Seq<F>>,
    widths: Seq<usize>,
    log_t: nat,
) -> bool {
    &&& ra_chunks.len() == widths.len()
    &&& forall|i: int|
        0 <= i < widths.len() ==> (#[trigger] ra_chunks[i]).len() == pow2(widths[i] as nat) * pow2(
            log_t,
        )
}

/// The opening point of chunk `i`: its digit of the address point followed by the cycle point.
pub open spec fn chunk_point<F: Field>(widths: Seq<usize>, point: Seq<F>, i: int) -> Seq<F> {
    point.subrange(offset(widths, i) as int, offset(widths, i + 1) as int) + point.skip(
        address_bits(widths) as int,
    )
}

/// The claims after the first `n` chunk openings are recorded.
pub open spec fn cached<F: Field>(
    m: ReadModel<F>,
    acc: Claims<F>,
    xs: Seq<F>,
    v: Seq<F>,
    n: int,
) -> Claims<F>
    decreases n,
{
    if n <= 0 {
        acc
    } else {
        cached(m, acc, xs, v, n - 1).insert(
            m.chunk_id(n - 1),
            (chunk_point(m.widths, xs.reverse(), n - 1), v[n - 1]),
        )
    }
}

/// The batched values at a point of the index space.
pub open spec fn stage_value<F: Field>(
    gp: Seq<F>,
    stages: Seq<StageModel<F>>,
    r_addr: Seq<F>,
    r_cycle: Seq<F>,
) -> F {
    sums::sum(
        stages.len() as int,
        |s: int|
            gp[s].times(poly::eq_mle(stages[s].r_cycle, r_cycle)).times(
                poly::mle(stages[s].val_addr, r_addr),
            ),
    )
}

/// The claim the chunk openings must satisfy.
pub open spec fn output<F: Field>(m: ReadModel<F>, acc: Claims<F>, xs: Seq<F>) -> F {
    let log_k = address_bits(m.widths) as int;
    let point = xs.reverse();
    sums::product(
        m.widths.len() as int,
        |i: int| acc[m.chunk_id(i)].1,
    ).times(
        stage_value(m.gp, m.stages, point.take(log_k), point.skip(log_k)),
    )
}

/// The read-checking instance.
pub struct OneHotReadRaf<F> {
    pub params: OneHotReadRafParams<F>,
    pub sum: VirtualSum<F>,
}

/// A chunk column spread over the index space.
fn spread_column<F: Field>(
    chunk: &Vec<F>,
    dim: usize,
    suffix: usize,
    t: usize,
    size: usize,
) -> (r: Vec<F>)
    requires
        dim > 0,
        suffix > 0,
        t > 0,
        chunk@.len() == dim * t,
    ensures
        r@ == Seq::new(
            size as nat,
            |x: int| chunk@[((x / t as int) / suffix as int % dim as int) * t + x % t as int],
        ),
{
    let mut out: Vec<F> = Vec::new();
    let len: usize = chunk.len();
    for x in 0..size
        invariant
            len == dim * t,
            dim > 0,
            suffix > 0,
            t > 0,
            chunk@.len() == dim * t,
            out@ == Seq::new(
                x as nat,
                |x: int| chunk@[((x / t as int) / suffix as int % dim as int) * t + x % t as int],
            ),
    {
        let digit: usize = (x / t) / suffix % dim;
        let cycle: usize = x % t;
        proof {
            poly::lemma_cell_in_range(digit as int, cycle as int, dim as int, t as int);
        }
        assert(0 <= digit * t <= digit * t + cycle < len) by (nonlinear_arith)
            requires
                0 <= digit * t + cycle < dim * t,
                len == dim * t,
                digit >= 0,
                t >= 0,
                cycle >= 0,
        ;
        out.push(chunk[digit * t + cycle]);
        assert(out@ =~= Seq::new(
            (x + 1) as nat,
            |x: int| chunk@[((x / t as int) / suffix as int % dim as int) * t + x % t as int],
        ));
    }
    out
}

impl<F: Field> OneHotReadRaf<F> {
    /// The batched values over the whole index space.
    fn stage_evals(params: &OneHotReadRafParams<F>, t: usize, size: usize) -> (r: Vec<F>)
        requires
            params.sized(),
            t == pow2(params.log_t as nat),
            size == pow2(address_bits(params.log_k_chunks@) + params.log_t as nat),
        ensures
            r@ == stage_column(params.gamma_powers@, params@.stages, t as int, size as nat),
    {
        let n: usize = params.stages.len();
        let ghost gp = params.gamma_powers@;
        let ghost st = params@.stages;
        let ghost log_k = address_bits(params.log_k_chunks@);
        proof {
            poly::lemma_pow2_monotone(
                params.log_t as nat,
                (log_k + params.log_t as nat) as nat,
            );
            poly::lemma_pow2_concat(log_k, params.log_t as nat);
            vstd::arithmetic::power2::lemma_pow2_pos(params.log_t as nat);
        }
        let mut eqs: Vec<Vec<F>> = Vec::new();
        for s in 0..n
            invariant
                params.sized(),
                n == params@.stages.len(),
                st == params@.stages,
                pow2(params.log_t as nat) <= usize::MAX,
                eqs@.len() == s,
                forall|i: int|
                    0 <= i < s ==> (#[trigger] eqs@[i])@ == poly::eq_table(st[i].r_cycle),
        {
            assert(params@.stages[s as int] == params.stages@[s as int]@);
            assert(st[s as int].r_cycle.len() == params.log_t);
            eqs.push(poly::eq_evals(&params.stages[s].r_cycle));
        }
        let mut out: Vec<F> = Vec::new();
        for x in 0..size
            invariant
                params.sized(),
                n == params@.stages.len(),
                st == params@.stages,
                gp == params.gamma_powers@,
                log_k == address_bits(params.log_k_chunks@),
                t == pow2(params.log_t as nat),
                t > 0,
                size == pow2(log_k) * t,
                eqs@.len() == n,
                forall|i: int|
                    0 <= i < n ==> (#[trigger] eqs@[i])@ == poly::eq_table(st[i].r_cycle),
                out@ == stage_column(gp, st, t as int, x as nat),
        {
            let ghost f = |s: int| stage_term(gp, st, t as int, s, x as int);
            let mut total: F = field::zero();
            let j: usize = x % t;
            let k: usize = x / t;
            assert(k < pow2(log_k)) by {
                vstd::arithmetic::div_mod::lemma_div_by_multiple_is_strongly_ordered(
                    x as int,
                    size as int,
                    pow2(log_k) as int,
                    t as int,
                );
                vstd::arithmetic::div_mod::lemma_div_by_multiple(pow2(log_k) as int, t as int);
            }
            for s in 0..n
                invariant
                    params.sized(),
                    n == params@.stages.len(),
                    st == params@.stages,
                    gp == params.gamma_powers@,
                    log_k == address_bits(params.log_k_chunks@),
                    t == pow2(params.log_t as nat),
                    j == x % t,
                    k == x / t,
                    j < t,
                    k < pow2(log_k),
                    eqs@.len() == n,
                    forall|i: int|
                        0 <= i < n ==> (#[trigger] eqs@[i])@ == poly::eq_table(st[i].r_cycle),
                    f == (|s: int| stage_term(gp, st, t as int, s, x as int)),
                    total == sums::sum(s as int, f),
            {
                assert(st[s as int] == params.stages@[s as int]@);
                assert(st[s as int].r_cycle.len() == params.log_t);
                assert(eqs@[s as int]@ == poly::eq_table(st[s as int].r_cycle));
                let term: F = params.gamma_powers[s].mul(eqs[s][j]).mul(
                    params.stages[s].val_addr[k],
                );
                total = total.add(term);
            }
            out.push(total);
            assert(out@ =~= stage_column(gp, st, t as int, (x + 1) as nat));
        }
        out
    }

    /// The prover's instance over the chunk columns.
    pub fn new_prover(params: OneHotReadRafParams<F>, ra_chunks: &Vec<Vec<F>>) -> (r: Self)
        requires
            params.sized(),
            chunks_sized(
                ra_chunks@.map_values(|c: Vec<F>| c@),
                params.log_k_chunks@,
                params.log_t as nat,
            ),
        ensures
            r.params == params,
            r.sum@ == table(
                params.gamma_powers@,
                params@.stages,
                params.log_k_chunks@,
                params.log_t as nat,
                ra_chunks@.map_values(|c: Vec<F>| c@),
            ),
    {
        let ghost ws = params.log_k_chunks@;
        let ghost log_t = params.log_t as nat;
        let ghost cs = ra_chunks@.map_values(|c: Vec<F>| c@);
        let ghost target = table(params.gamma_powers@, params@.stages, ws, log_t, cs);
        let d: usize = params.log_k_chunks.len();
        let log_k: usize = params.log_k();
        let ghost whole = (log_k + log_t) as nat;
        proof {
            poly::lemma_pow2_monotone(log_t, whole);
            vstd::arithmetic::power2::lemma_pow2_pos(log_t);
        }
        let t: usize = poly::power_of_two(params.log_t);
        let size: usize = poly::power_of_two(log_k + params.log_t);
        let mut dims: Vec<usize> = Vec::new();
        for i in 0..d
            invariant
                d == params.log_k_chunks@.len(),
                ws == params.log_k_chunks@,
                params.sized(),
                whole == address_bits(ws) + params.log_t,
                dims@.len() == i,
                forall|j: int| 0 <= j < i ==> #[trigger] dims@[j] == pow2(ws[j] as nat),
        {
            proof {
                lemma_offset_monotone(ws, i + 1, d as int);
                poly::lemma_pow2_monotone(ws[i as int] as nat, whole);
            }
            dims.push(poly::power_of_two(params.log_k_chunks[i]));
        }
        proof {
            assert forall|i: int| 0 <= i < d implies #[trigger] suffix_product(dims@, i)
                <= usize::MAX by {
                lemma_suffix_is_power(ws, dims@, i);
                lemma_offset_monotone(ws, i + 1, d as int);
                poly::lemma_pow2_monotone(bits_below(ws, i), whole);
            }
            assert forall|i: int| 0 <= i < d implies #[trigger] dims@[i] >= 1 by {
                vstd::arithmetic::power2::lemma_pow2_pos(ws[i] as nat);
            }
        }
        let suffix: Vec<usize> = suffix_products(&dims);
        let mut columns: Vec<MultilinearPolynomial<F>> = Vec::new();
        assert(columns@.map_values(|p: MultilinearPolynomial<F>| p@) =~= target.columns.take(0));
        for i in 0..d
            invariant
                d == params.log_k_chunks@.len(),
                ws == params.log_k_chunks@,
                log_t == params.log_t,
                cs == ra_chunks@.map_values(|c: Vec<F>| c@),
                target == table(params.gamma_powers@, params@.stages, ws, log_t, cs),
                chunks_sized(cs, ws, log_t),
                t == pow2(log_t),
                t > 0,
                size == pow2(address_bits(ws) + log_t),
                dims@.len() == d,
                forall|j: int| 0 <= j < d ==> #[trigger] dims@[j] == pow2(ws[j] as nat),
                suffix@.len() == d,
                forall|j: int| 0 <= j < d ==> #[trigger] suffix@[j] == suffix_product(dims@, j),
                columns@.map_values(|p: MultilinearPolynomial<F>| p@) == target.columns.take(
                    i as int,
                ),
        {
            proof {
                lemma_suffix_is_power(ws, dims@, i as int);
                vstd::arithmetic::power2::lemma_pow2_pos(bits_below(ws, i as int));
                vstd::arithmetic::power2::lemma_pow2_pos(ws[i as int] as nat);
                lemma_index_space(ws, i as int, log_t);
                assert(suffix@[i as int] == suffix_product(dims@, i as int));
                assert(dims@[i as int] == pow2(ws[i as int] as nat));
                assert(cs[i as int] == ra_chunks@[i as int]@);
            }
            let column: Vec<F> = spread_column(&ra_chunks[i], dims[i], suffix[i], t, size);
            assert(column@ =~= ra_full(cs[i as int], ws, i as int, log_t));
            let ghost before = columns@.map_values(|p: MultilinearPolynomial<F>| p@);
            columns.push(MultilinearPolynomial::new(column));
            assert(columns@.map_values(|p: MultilinearPolynomial<F>| p@) =~= before.push(column@));
            assert(before.push(target.columns[i as int]) =~= target.columns.take(i + 1));
        }
        let values: Vec<F> = Self::stage_evals(&params, t, size);
        let ghost before = columns@.map_values(|p: MultilinearPolynomial<F>| p@);
        columns.push(MultilinearPolynomial::new(values));
        assert(columns@.map_values(|p: MultilinearPolynomial<F>| p@) =~= before.push(values@));
        assert(before.push(values@) =~= target.columns);
        let sum: VirtualSum<F> = VirtualSum::new(columns, formula::columns_product(d));
        OneHotReadRaf { params, sum }
    }

    /// The verifier's instance, which holds no columns to sum.
    pub fn new_verifier(params: OneHotReadRafParams<F>) -> (r: Self)
        ensures
            r.params == params,
    {
        OneHotReadRaf { params, sum: VirtualSum::empty() }
    }

    /// One round per address and cycle variable.
    pub fn num_rounds(&self) -> (r: usize)
        requires
            self.params.sized(),
        ensures
            r == address_bits(self.params.log_k_chunks@) + self.params.log_t,
    {
        self.params.log_k() + self.params.log_t
    }

    /// One more than the number of chunks.
    pub fn degree(&self) -> (r: usize)
        requires
            self.params.log_k_chunks@.len() < usize::MAX,
        ensures
            r == self.params.log_k_chunks@.len() + 1,
    {
        self.params.log_k_chunks.len() + 1
    }

    /// Record the chunk openings of the fully bound columns.
    pub fn cache_openings(&self, accumulator: &mut Openings<F>, challenges: &[F])
        requires
            self.params.sized(),
            challenges@.len() == address_bits(self.params.log_k_chunks@) + self.params.log_t,
            self.sum@.columns.len() >= self.params.log_k_chunks@.len(),
            forall|c: int|
                0 <= c < self.params.log_k_chunks@.len() ==> (#[trigger] self.sum@.columns[c]).len()
                    > 0,
        ensures
            final(accumulator)@ == cached(
                self.params@,
                old(accumulator)@,
                challenges@,
                self.sum@.columns.map_values(|p: Seq<F>| p[0]),
                self.params.log_k_chunks@.len() as int,
            ),
            final(accumulator).log_t == old(accumulator).log_t,
    {
        let d: usize = self.params.log_k_chunks.len();
        let ghost v = self.sum@.columns.map_values(|p: Seq<F>| p[0]);
        let mut values: Vec<F> = Vec::new();
        for i in 0..d
            invariant
                d == self.params.log_k_chunks@.len(),
                self.sum@.columns.len() >= d,
                forall|c: int| 0 <= c < d ==> (#[trigger] self.sum@.columns[c]).len() > 0,
                v == self.sum@.columns.map_values(|p: Seq<F>| p[0]),
                values@ == v.take(i as int),
        {
            assert(self.sum@.columns[i as int].len() > 0);
            values.push(self.sum.bound_value(i));
            assert(values@ =~= v.take(i + 1));
        }
        self.params.record(accumulator, challenges, &values);
        proof {
            lemma_cached_ext(self.params@, old(accumulator)@, challenges@, values@, v, d as int);
        }
    }

    /// The claim the chunk openings must satisfy.
    pub fn expected_output_claim(&self, accumulator: &Openings<F>, challenges: &[F]) -> (r: F)
        requires
            self.params.sized(),
            challenges@.len() == address_bits(self.params.log_k_chunks@) + self.params.log_t,
            forall|i: int|
                0 <= i < self.params.log_k_chunks@.len() ==> accumulator@.contains_key(
                    #[trigger] self.params@.chunk_id(i),
                ),
        ensures
            r == output(self.params@, accumulator@, challenges@),
    {
        let d: usize = self.params.log_k_chunks.len();
        let log_k: usize = self.params.log_k();
        let point: Vec<F> = poly::reversed(challenges);
        let len: usize = point.len();
        let r_addr: Vec<F> = poly::range(&point, 0, log_k);
        let r_cycle: Vec<F> = poly::range(&point, log_k, len);
        assert(r_addr@ =~= point@.take(log_k as int));
        assert(r_cycle@ =~= point@.skip(log_k as int));
        let ghost f = |i: int| accumulator@[self.params@.chunk_id(i)].1;
        let mut ra_prod: F = field::one();
        for i in 0..d
            invariant
                d == self.params.log_k_chunks@.len(),
                f == (|i: int| accumulator@[self.params@.chunk_id(i)].1),
                forall|i: int|
                    0 <= i < d ==> accumulator@.contains_key(#[trigger] self.params@.chunk_id(i)),
                ra_prod == sums::product(i as int, f),
        {
            assert(accumulator@.contains_key(self.params@.chunk_id(i as int)));
            let ra: F = accumulator.committed_claim(
                self.params.ra_family.polynomial(i),
                self.params.sumcheck_id,
            );
            ra_prod = ra_prod.mul(ra);
        }
        proof {
            poly::lemma_pow2_monotone(
                log_k as nat,
                (log_k + self.params.log_t) as nat,
            );
        }
        let n: usize = self.params.stages.len();
        let ghost gp = self.params.gamma_powers@;
        let ghost st = self.params@.stages;
        let ghost g = |s: int|
            gp[s].times(poly::eq_mle(st[s].r_cycle, r_cycle@)).times(
                poly::mle(st[s].val_addr, r_addr@),
            );
        let mut stage_sum: F = field::zero();
        for s in 0..n
            invariant
                self.params.sized(),
                n == self.params@.stages.len(),
                gp == self.params.gamma_powers@,
                st == self.params@.stages,
                r_addr@.len() == address_bits(self.params.log_k_chunks@),
                r_cycle@.len() == self.params.log_t,
                pow2(r_addr@.len()) <= usize::MAX,
                g == (|s: int|
                    gp[s].times(poly::eq_mle(st[s].r_cycle, r_cycle@)).times(
                        poly::mle(st[s].val_addr, r_addr@),
                    )),
                stage_sum == sums::sum(s as int, g),
        {
            assert(st[s as int] == self.params.stages@[s as int]@);
            assert(st[s as int].r_cycle.len() == self.params.log_t);
            let eq_s: F = poly::eq_at(&self.params.stages[s].r_cycle, &r_cycle);
            let val_s: F = poly::evaluate(&self.params.stages[s].val_addr, &r_addr);
            stage_sum = stage_sum.add(self.params.gamma_powers[s].mul(eq_s).mul(val_s));
        }
        ra_prod.mul(stage_sum)
    }
}

/// The digits and the cycles of one chunk tile the index space.
pub proof fn lemma_index_space(widths: Seq<usize>, i: int, log_t: nat)
    requires
        0 <= i < widths.len(),
    ensures
        pow2(offset(widths, i)) * pow2(widths[i] as nat) * pow2(bits_below(widths, i)) * pow2(log_t)
            == pow2(address_bits(widths) + log_t),
        offset(widths, i) + widths[i] as nat + bits_below(widths, i) == address_bits(widths),
{
    lemma_offset_monotone(widths, i + 1, widths.len() as int);
    assert(offset(widths, i + 1) == offset(widths, i) + widths[i] as nat);
    poly::lemma_pow2_concat(offset(widths, i), widths[i] as nat);
    poly::lemma_pow2_concat(offset(widths, i + 1), bits_below(widths, i));
    poly::lemma_pow2_concat(address_bits(widths), log_t);
}

/// The table is shaped: its columns have one entry for every point, and the degree of its formula is
/// the one that the verifier allows.
pub proof fn law_table_shaped<F: Field>(
    gp: Seq<F>,
    stages: Seq<StageModel<F>>,
    widths: Seq<usize>,
    log_t: nat,
    ra_chunks: Seq<Seq<F>>,
)
    requires
        widths.len() < usize::MAX,
        chunks_sized(ra_chunks, widths, log_t),
    ensures
        table(gp, stages, widths, log_t, ra_chunks).shaped(address_bits(widths) + log_t),
        table(gp, stages, widths, log_t, ra_chunks).formula.degree() == widths.len() + 1,
        (forall|i: int| 0 <= i < widths.len() ==> field::all_valid(#[trigger] ra_chunks[i]))
            ==> table(gp, stages, widths, log_t, ra_chunks).canonical(),
{
    let t = table(gp, stages, widths, log_t, ra_chunks);
    let d = widths.len();
    formula::lemma_column_product::<F>(d, Seq::new((d + 1) as nat, |i: int| F::of_int(0)));
    assert forall|c: int| 0 <= c < t.columns.len() implies (#[trigger] t.columns[c]).len() == pow2(
        address_bits(widths) + log_t,
    ) by {
        if c < d {
            lemma_index_space(widths, c, log_t);
        }
    }
    if forall|i: int| 0 <= i < widths.len() ==> field::all_valid(#[trigger] ra_chunks[i]) {
        assert forall|c: int| 0 <= c < t.columns.len() implies field::all_valid(
            #[trigger] t.columns[c],
        ) by {
            let col = t.columns[c];
            assert forall|x: int| 0 <= x < col.len() implies (#[trigger] col[x]).valid() by {
                if c < d {
                    let nt = pow2(log_t) as int;
                    let nd = pow2(widths[c] as nat) as int;
                    vstd::arithmetic::power2::lemma_pow2_pos(log_t);
                    vstd::arithmetic::power2::lemma_pow2_pos(widths[c] as nat);
                    let q = (x / nt) / pow2(bits_below(widths, c)) as int % nd;
                    vstd::arithmetic::div_mod::lemma_mod_bound(
                        (x / nt) / pow2(bits_below(widths, c)) as int,
                        nd,
                    );
                    vstd::arithmetic::div_mod::lemma_mod_bound(x, nt);
                    poly::lemma_cell_in_range(q, x % nt, nd, nt);
                    assert(field::all_valid(ra_chunks[c]));
                    assert(ra_chunks[c].len() == nd * nt);
                    assert(ra_chunks[c][q * nt + x % nt].valid());
                } else {
                    sums::lemma_sum_valid(
                        stages.len() as int,
                        |s: int| stage_term(gp, stages, pow2(log_t) as int, s, x),
                    );
                }
            }
        }
    }
}

/// The value read at one index: the product of the chunk indicators.
pub open spec fn read_indicator<F: Field>(
    ra_chunks: Seq<Seq<F>>,
    widths: Seq<usize>,
    log_t: nat,
    x: int,
) -> F {
    sums::product(widths.len() as int, |i: int| ra_full(ra_chunks[i], widths, i, log_t)[x])
}

/// The value read by one claim: the sum of its values over all addresses and cycles, weighted by
/// the read indicator.
pub open spec fn read_value<F: Field>(
    stage: StageModel<F>,
    ra_chunks: Seq<Seq<F>>,
    widths: Seq<usize>,
    log_t: nat,
) -> F {
    sums::sum(
        pow2(address_bits(widths) + log_t) as int,
        |x: int|
            read_indicator(ra_chunks, widths, log_t, x).times(
                poly::eq_weight(stage.r_cycle, x % (pow2(log_t) as int)),
            ).times(stage.val_addr[x / (pow2(log_t) as int)]),
    )
}

/// The sum over the index space is the batch of the values read.
pub proof fn law_total<F: Field>(
    gp: Seq<F>,
    stages: Seq<StageModel<F>>,
    widths: Seq<usize>,
    log_t: nat,
    ra_chunks: Seq<Seq<F>>,
)
    requires
        widths.len() < usize::MAX,
        chunks_sized(ra_chunks, widths, log_t),
    ensures
        table(gp, stages, widths, log_t, ra_chunks).total() == sums::sum(
            stages.len() as int,
            |s: int| gp[s].times(read_value(stages[s], ra_chunks, widths, log_t)),
        ),
{
    let tab = table(gp, stages, widths, log_t, ra_chunks);
    let d = widths.len();
    let n = pow2(address_bits(widths) + log_t) as int;
    let count = stages.len() as int;
    let t = pow2(log_t) as int;
    law_table_shaped(gp, stages, widths, log_t, ra_chunks);
    assert(tab.columns[0].len() == n);
    let f = |x: int| tab.formula.value(tab.row(x));
    let cell = |x: int, s: int|
        gp[s].times(
            read_indicator(ra_chunks, widths, log_t, x).times(
                poly::eq_weight(stages[s].r_cycle, x % t),
            ).times(stages[s].val_addr[x / t]),
        );
    let rows = |x: int| sums::sum(count, |s: int| cell(x, s));
    assert forall|x: int| 0 <= x < n implies #[trigger] f(x) == rows(x) by {
        let row = tab.row(x);
        formula::lemma_column_product::<F>(d, row);
        let ind = read_indicator(ra_chunks, widths, log_t, x);
        sums::lemma_product_ext(
            d as int,
            |i: int| row[i],
            |i: int| ra_full(ra_chunks[i], widths, i, log_t)[x],
        );
        let term = |s: int| stage_term(gp, stages, t, s, x);
        assert(row[d as int] == sums::sum(count, term));
        sums::lemma_sum_scale(count, ind, term);
        let lhs = |s: int| ind.times(term(s));
        let rhs = |s: int| cell(x, s);
        assert forall|s: int| 0 <= s < count implies #[trigger] lhs(s) == rhs(s) by {
            let e = poly::eq_weight(stages[s].r_cycle, x % t);
            let v = stages[s].val_addr[x / t];
            F::law_times_assoc(gp[s], e, v);
            field::lemma_times_swap(ind, gp[s], e.times(v));
            F::law_times_assoc(ind, e, v);
        }
        sums::lemma_sum_ext(count, lhs, rhs);
    }
    sums::lemma_sum_ext(n, f, rows);
    sums::lemma_sum_swap(n, count, cell);
    let cols = |s: int| sums::sum(n, |x: int| cell(x, s));
    let target = |s: int| gp[s].times(read_value(stages[s], ra_chunks, widths, log_t));
    assert forall|s: int| 0 <= s < count implies #[trigger] cols(s) == target(s) by {
        let base = |x: int|
            read_indicator(ra_chunks, widths, log_t, x).times(
                poly::eq_weight(stages[s].r_cycle, x % (pow2(log_t) as int)),
            ).times(stages[s].val_addr[x / (pow2(log_t) as int)]);
        sums::lemma_sum_scale(n, gp[s], base);
        sums::lemma_sum_ext(n, |x: int| cell(x, s), |x: int| gp[s].times(base(x)));
    }
    sums::lemma_sum_ext(count, cols, target);
}

/// The extension of the batched values.
proof fn lemma_stage_column<F: Field>(
    gp: Seq<F>,
    stages: Seq<StageModel<F>>,
    log_k: nat,
    log_t: nat,
    y: Seq<F>,
)
    requires
        y.len() == log_k + log_t,
        forall|s: int|
            0 <= s < stages.len() ==> (#[trigger] stages[s]).r_cycle.len() == log_t
                && stages[s].val_addr.len() == pow2(log_k),
    ensures
        poly::mle(stage_column(gp, stages, pow2(log_t) as int, pow2(log_k + log_t)), y)
            == stage_value(gp, stages, y.take(log_k as int), y.skip(log_k as int)),
{
    let t = pow2(log_t) as int;
    let n = pow2(log_k + log_t);
    let count = stages.len() as int;
    let ya = y.take(log_k as int);
    let yc = y.skip(log_k as int);
    let f = |s: int, x: int| stage_term(gp, stages, t, s, x);
    assert(y =~= ya + yc);
    poly::lemma_pow2_concat(log_k, log_t);
    poly::lemma_mle_sum(n, count, f, y);
    let col = stage_column(gp, stages, t, n);
    let col2 = Seq::new(n, |x: int| sums::sum(count, |s: int| f(s, x)));
    assert(col =~= col2) by {
        assert forall|x: int| 0 <= x < n implies col[x] == col2[x] by {
            sums::lemma_sum_ext(
                count,
                |s: int| stage_term(gp, stages, t, s, x),
                |s: int| f(s, x),
            );
        }
    }
    let lhs = |s: int| poly::mle(Seq::new(n, |x: int| f(s, x)), y);
    let rhs = |s: int|
        gp[s].times(poly::eq_mle(stages[s].r_cycle, yc)).times(
            poly::mle(stages[s].val_addr, ya),
        );
    assert forall|s: int| 0 <= s < count implies #[trigger] lhs(s) == rhs(s) by {
        let st = stages[s];
        let eq = poly::eq_table(st.r_cycle);
        let q = Seq::new(pow2(log_t), |j: int| gp[s].times(eq[j]));
        let val = st.val_addr;
        assert(st.r_cycle.len() == log_t);
        poly::lemma_mle_tensor(val, q, ya, yc);
        poly::lemma_mle_scale(gp[s], eq, q, yc);
        poly::lemma_mle_eq_table(st.r_cycle, yc);
        F::law_times_comm(poly::mle(val, ya), poly::mle(q, yc));
        let p = Seq::new(n, |x: int| f(s, x));
        assert(p =~= poly::tensor(val, q)) by {
            assert forall|x: int| 0 <= x < n implies p[x] == poly::tensor(val, q)[x] by {
                vstd::arithmetic::power2::lemma_pow2_pos(log_t);
                vstd::arithmetic::div_mod::lemma_mod_bound(x, t);
                F::law_times_comm(val[x / t], q[x % t]);
            }
        }
    }
    sums::lemma_sum_ext(count, lhs, rhs);
}

/// Only the recorded values matter.
pub proof fn lemma_cached_ext<F: Field>(
    m: ReadModel<F>,
    acc: Claims<F>,
    xs: Seq<F>,
    v: Seq<F>,
    w: Seq<F>,
    n: int,
)
    requires
        forall|i: int| 0 <= i < n ==> v[i] == #[trigger] w[i],
    ensures
        cached(m, acc, xs, v, n) == cached(m, acc, xs, w, n),
    decreases n,
{
    if n > 0 {
        lemma_cached_ext(m, acc, xs, v, w, n - 1);
        assert(v[n - 1] == w[n - 1]);
    }
}

pub proof fn lemma_cached<F: Field>(
    m: ReadModel<F>,
    acc: Claims<F>,
    xs: Seq<F>,
    v: Seq<F>,
    n: int,
    i: int,
)
    requires
        0 <= i < n <= usize::MAX,
    ensures
        cached(m, acc, xs, v, n).contains_key(m.chunk_id(i)),
        cached(m, acc, xs, v, n)[m.chunk_id(i)] == (
            chunk_point(m.widths, xs.reverse(), i),
            v[i],
        ),
    decreases n,
{
    if i < n - 1 {
        lemma_cached(m, acc, xs, v, n - 1, i);
    }
}

/// The openings cached by the prover satisfy the output claim: it is the value to which the
/// sumcheck reduces. The opening of a chunk is the extension of its own column at its own point.
pub proof fn law_output<F: Field>(
    m: ReadModel<F>,
    ra_chunks: Seq<Seq<F>>,
    acc: Claims<F>,
    xs: Seq<F>,
)
    requires
        m.sized(),
        chunks_sized(ra_chunks, m.widths, m.log_t),
        forall|i: int| 0 <= i < ra_chunks.len() ==> field::all_valid(#[trigger] ra_chunks[i]),
        xs.len() == address_bits(m.widths) + m.log_t,
    ensures
        ({
            let ws = m.widths;
            let tab = table(
                m.gp,
                m.stages,
                ws,
                m.log_t,
                ra_chunks,
            );
            let row = sumcheck::final_row(tab.columns, xs);
            let acc1 = cached(m, acc, xs, row, ws.len() as int);
            &&& forall|i: int| 0 <= i < ws.len() ==> acc1.contains_key(#[trigger] m.chunk_id(i))
            &&& forall|i: int|
                0 <= i < ws.len() ==> (#[trigger] acc1[m.chunk_id(i)]) == (
                    chunk_point(ws, xs.reverse(), i),
                    poly::mle(ra_chunks[i], chunk_point(ws, xs.reverse(), i)),
                )
            &&& output(m, acc1, xs) == tab.formula.value(row)
        }),
{
    let ws = m.widths;
    let log_t = m.log_t;
    let log_k = address_bits(ws);
    let d = ws.len() as int;
    let tab = table(m.gp, m.stages, ws, log_t, ra_chunks);
    let row = sumcheck::final_row(tab.columns, xs);
    let acc1 = cached(m, acc, xs, row, d);
    let y = xs.reverse();
    formula::lemma_column_product::<F>(ws.len(), row);
    assert forall|i: int| 0 <= i < d implies acc1.contains_key(#[trigger] m.chunk_id(i))
        && acc1[m.chunk_id(i)].1 == row[i] && acc1[m.chunk_id(i)] == (
        chunk_point(ws, y, i),
        poly::mle(ra_chunks[i], chunk_point(ws, y, i)),
    ) by {
        lemma_cached(m, acc, xs, row, d, i);
        lemma_index_space(ws, i, log_t);
        lemma_offset_monotone(ws, i + 1, d);
        let from = offset(ws, i) as int;
        let to = offset(ws, i + 1) as int;
        let yo = y.take(from);
        let yd = y.subrange(from, to);
        let yi = y.subrange(to, log_k as int);
        let yt = y.skip(log_k as int);
        assert(yo + yd + yi + yt =~= y);
        assert(field::all_valid(ra_chunks[i]));
        assert(ra_chunks[i].len() == pow2(ws[i] as nat) * pow2(log_t));
        poly::lemma_mle_spread(ra_chunks[i], yo, yd, yi, yt);
        assert(tab.columns[i] == ra_full(ra_chunks[i], ws, i, log_t));
    }
    sums::lemma_product_ext(
        d,
        |i: int| acc1[m.chunk_id(i)].1,
        |i: int| row[i],
    );
    lemma_stage_column(m.gp, m.stages, log_k, log_t, y);
    assert(tab.columns[d] == stage_column(
        m.gp,
        m.stages,
        pow2(log_t) as int,
        pow2(log_k + log_t),
    ));
}

/// Address bit `k` belongs to chunk `i`.
pub open spec fn bit_in_chunk(widths: Seq<usize>, i: int, k: int) -> bool {
    &&& 0 <= i < widths.len()
    &&& bits_below(widths, i) <= k < bits_below(widths, i) + widths[i]
}

/// An address bit belongs to one chunk at most.
proof fn lemma_bit_in_one_chunk(widths: Seq<usize>, i: int, j: int, k: int)
    requires
        bit_in_chunk(widths, i, k),
        bit_in_chunk(widths, j, k),
    ensures
        i == j,
{
    let d = widths.len() as int;
    lemma_offset_monotone(widths, i + 1, d);
    lemma_offset_monotone(widths, j + 1, d);
    if i < j {
        lemma_offset_monotone(widths, i + 1, j);
    } else if j < i {
        lemma_offset_monotone(widths, j + 1, i);
    }
}

/// Addresses that differ in bit `k` alone have the same digit at a place without that bit.
proof fn lemma_digit_unmoved(below: nat, width: nat, k: nat, j: int, l: int)
    requires
        k < below || k >= below + width,
        j >= 0,
        0 <= l < pow2(k),
    ensures
        ((2 * j) * pow2(k) + l) / (pow2(below) as int) % (pow2(width) as int) == ((2 * j + 1) * pow2(
            k,
        ) + l) / (pow2(below) as int) % (pow2(width) as int),
{
    let p = pow2(k) as int;
    let n = pow2(below) as int;
    let dim = pow2(width) as int;
    let (a, b) = ((2 * j) * p + l, (2 * j + 1) * p + l);
    vstd::arithmetic::power2::lemma_pow2_pos(below);
    vstd::arithmetic::power2::lemma_pow2_pos(width);
    if k < below {
        let e = (below - k - 1) as nat;
        let block = 2 * p;
        poly::lemma_pow2_step(k + 1);
        poly::lemma_pow2_concat(k + 1, e);
        vstd::arithmetic::power2::lemma_pow2_pos(e);
        assert(a == j * block + l && b == j * block + (p + l)) by (nonlinear_arith)
            requires
                block == 2 * p,
                a == (2 * j) * p + l,
                b == (2 * j + 1) * p + l,
        ;
        poly::lemma_block_index(j, block, l);
        poly::lemma_block_index(j, block, p + l);
        vstd::arithmetic::div_mod::lemma_div_denominator(a, block, pow2(e) as int);
        vstd::arithmetic::div_mod::lemma_div_denominator(b, block, pow2(e) as int);
    } else {
        let q = pow2((k - below - width) as nat) as int;
        poly::lemma_pow2_concat(width, (k - below - width) as nat);
        poly::lemma_pow2_concat(below, (k - below) as nat);
        assert(p == n * (dim * q));
        assert(b == a + (dim * q) * n) by (nonlinear_arith)
            requires
                p == n * (dim * q),
                a == (2 * j) * p + l,
                b == (2 * j + 1) * p + l,
        ;
        vstd::arithmetic::div_mod::lemma_hoist_over_denominator(a, dim * q, n as nat);
        vstd::arithmetic::div_mod::lemma_mod_multiples_vanish(q, a / n, dim);
    }
}

/// A chunk column does not vary in an address bit of another chunk: bound up to that bit, its
/// neighbouring entries are equal.
proof fn lemma_chunk_constant<F: Field>(
    chunk: Seq<F>,
    widths: Seq<usize>,
    i: int,
    log_t: nat,
    xs: Seq<F>,
    j: int,
)
    requires
        0 <= i < widths.len(),
        log_t <= xs.len() < address_bits(widths) + log_t,
        !bit_in_chunk(widths, i, xs.len() - log_t),
        0 <= 2 * j + 1 < pow2((address_bits(widths) + log_t - xs.len()) as nat),
    ensures
        ({
            let bound = poly::bind_all(ra_full(chunk, widths, i, log_t), xs);
            bound[2 * j] == bound[2 * j + 1]
        }),
{
    let column = ra_full(chunk, widths, i, log_t);
    let k = (xs.len() - log_t) as nat;
    let n = pow2((address_bits(widths) + log_t - xs.len()) as nat);
    let t = pow2(log_t) as int;
    let p = pow2(k) as int;
    let size = pow2(xs.len()) as int;
    lemma_index_space(widths, i, log_t);
    poly::lemma_pow2_concat((address_bits(widths) + log_t - xs.len()) as nat, xs.len());
    poly::lemma_pow2_concat(k, log_t);
    vstd::arithmetic::power2::lemma_pow2_pos(log_t);
    assert(column.len() == n * size);
    assert(size == p * t);
    assert forall|low: int| 0 <= low < size implies #[trigger] column[(2 * j) * size + low]
        == column[(2 * j + 1) * size + low] by {
        let (l, c) = (low / t, low % t);
        vstd::arithmetic::div_mod::lemma_fundamental_div_mod(low, t);
        poly::lemma_quotient_in_range(low, p, t);
        assert((2 * j) * size + low == ((2 * j) * p + l) * t + c && (2 * j + 1) * size + low == ((2
            * j + 1) * p + l) * t + c) by (nonlinear_arith)
            requires
                size == p * t,
                low == t * l + c,
        ;
        assert((2 * j) * p >= 0 && (2 * j + 1) * p >= 0) by (nonlinear_arith)
            requires
                j >= 0,
                p >= 0,
        ;
        poly::lemma_block_index((2 * j) * p + l, t, c);
        poly::lemma_block_index((2 * j + 1) * p + l, t, c);
        poly::lemma_cell_in_range(2 * j, low, n as int, size);
        poly::lemma_cell_in_range(2 * j + 1, low, n as int, size);
        lemma_digit_unmoved(bits_below(widths, i), widths[i] as nat, k, j, l);
    }
    poly::lemma_bind_all_blocks(column, xs, n, 2 * j, 2 * j + 1);
}

/// Behind the cycle rounds the messages are quadratic: they have the length of the degree that the
/// verifier allows, and their coefficients above the second degree are zero.
pub proof fn law_address_messages<F: Field>(
    gp: Seq<F>,
    stages: Seq<StageModel<F>>,
    widths: Seq<usize>,
    log_t: nat,
    ra_chunks: Seq<Seq<F>>,
    xs: Seq<F>,
)
    requires
        widths.len() < usize::MAX,
        chunks_sized(ra_chunks, widths, log_t),
        log_t <= xs.len() < address_bits(widths) + log_t,
    ensures
        ({
            let q = table(gp, stages, widths, log_t, ra_chunks).bind_all(xs).message();
            &&& q.len() == widths.len() + 2
            &&& forall|j: int| 3 <= j < q.len() ==> #[trigger] q[j] == F::of_int(0)
        }),
{
    let tab = table(gp, stages, widths, log_t, ra_chunks);
    let bound = tab.bind_all(xs);
    let d = widths.len();
    let k = xs.len() - log_t;
    let left = (address_bits(widths) + log_t - xs.len()) as nat;
    let half = bound.size() / 2;
    law_table_shaped(gp, stages, widths, log_t, ra_chunks);
    sumcheck::lemma_bind_all_columns(tab, xs);
    assert forall|c: int| 0 <= c < bound.columns.len() implies (#[trigger] bound.columns[c]).len()
        == pow2(left) by {
        assert(tab.columns[c].len() == pow2(address_bits(widths) + log_t));
        poly::lemma_bind_all_len(tab.columns[c], xs, address_bits(widths) + log_t);
    }
    assert(bound.columns[0].len() == pow2(left));
    poly::lemma_pow2_step(left);
    let owner = choose|i: int| bit_in_chunk(widths, i, k);
    let f = |j: int| bound.formula.polynomial(bound.lines(j));
    assert forall|j: int| 0 <= j < half implies univariate::vanishes(#[trigger] f(j), 3) by {
        let row = bound.lines(j);
        assert forall|c: int| 0 <= c < row.len() implies univariate::vanishes(
            #[trigger] row[c],
            2,
        ) by {}
        assert forall|c: int| 0 <= c < d && c != owner implies univariate::vanishes(
            #[trigger] row[c],
            1,
        ) by {
            if bit_in_chunk(widths, c, k) {
                lemma_bit_in_one_chunk(widths, c, owner, k);
            }
            lemma_chunk_constant(ra_chunks[c], widths, c, log_t, xs, j);
            assert(tab.columns[c] == ra_full(ra_chunks[c], widths, c, log_t));
            field::lemma_minus_self(bound.columns[c][2 * j]);
        }
        formula::lemma_column_product_quadratic(d, row, owner);
    }
    univariate::lemma_sum_vanishes(half, f, 3);
    sumcheck::lemma_message_len(bound, left);
    let q = bound.message();
    assert forall|j: int| 3 <= j < q.len() implies #[trigger] q[j] == F::of_int(0) by {
        assert(univariate::coefficient(q, j) == F::of_int(0));
    }
}

/// The digits of an address run from the most significant to the least: the last is the remainder by
/// the last dimension, and those before it are the digits of the quotient.
pub proof fn law_digit_order(dims: Seq<usize>, address: int, i: int)
    requires
        positive(dims),
        0 <= i < dims.len(),
        0 <= address,
    ensures
        i == dims.len() - 1 ==> digit(dims, address, i) == address % (dims[i] as int),
        i < dims.len() - 1 ==> digit(dims, address, i) == digit(
            dims.drop_last(),
            address / (dims.last() as int),
            i,
        ),
{
    let last = dims.last() as int;
    if i < dims.len() - 1 {
        let shorter = dims.drop_last();
        lemma_suffix_drop(dims, i);
        assert forall|j: int| 0 <= j < shorter.len() implies #[trigger] shorter[j] >= 1 by {
            assert(dims[j] >= 1);
        }
        lemma_suffix_positive(shorter, i);
        assert(dims[dims.len() - 1] >= 1);
        vstd::arithmetic::div_mod::lemma_div_denominator(address, last, suffix_product(shorter, i));
        vstd::arithmetic::mul::lemma_mul_is_commutative(last, suffix_product(shorter, i));
    }
}

proof fn lemma_suffix_drop(dims: Seq<usize>, i: int)
    requires
        0 <= i < dims.len() - 1,
    ensures
        suffix_product(dims, i) == suffix_product(dims.drop_last(), i) * dims.last(),
    decreases dims.len() - i,
{
    let shorter = dims.drop_last();
    if i + 1 < shorter.len() {
        lemma_suffix_drop(dims, i + 1);
        assert(shorter[i + 1] == dims[i + 1]);
        let (rest, dim, last) = (suffix_product(shorter, i + 1), dims[i + 1] as int, dims.last() as int);
        assert((rest * last) * dim == (rest * dim) * last) by (nonlinear_arith);
    } else {
        assert(suffix_product(dims, i + 1) == 1);
    }
}

} // verus!
