//! RAM read-address virtualization.
//!
//! One claim about the dense one-hot read address is reduced to claims about its committed chunks:
//! the claim is the sum over all cycles `c` of `prod_i eq(r_i, idx_i(c)) eq(r_cycle, c)`, where `r_i`
//! is the `i`-th chunk of the address point and `idx_i(c)` the `i`-th chunk of the address read at
//! cycle `c`.

use crate::field;
use crate::field::Field;
use crate::framework::accumulator;
use crate::framework::accumulator::{
    Claims, CommittedPolynomial, OpeningId, Openings, SumcheckId, VirtualPolynomial,
};
use crate::framework::formula;
use crate::framework::poly;
use crate::framework::poly::MultilinearPolynomial;
use crate::framework::sumcheck;
use crate::framework::sumcheck::{SumTable, SumcheckClaim, VirtualSum};
use crate::framework::sums;
use crate::framework::transcript;
use crate::framework::transcript::{FsState, ProverFs, VerifierFs};
use crate::zkvm::access;
use crate::zkvm::logup::driver as pushforwards;
use vstd::arithmetic::power2::pow2;
use vstd::prelude::*;

verus! {

/// An address point of `d` chunks, with zeros in front.
pub open spec fn padded<F: Field>(r_address: Seq<F>, d: nat, chunk_bits: nat) -> Seq<F> {
    Seq::new((d * chunk_bits - r_address.len()) as nat, |i: int| F::of_int(0)) + r_address
}

/// The chunks of an address point, the most significant one first.
pub open spec fn chunks<F: Field>(r_address: Seq<F>, d: nat, chunk_bits: nat) -> Seq<Seq<F>> {
    Seq::new(
        d,
        |i: int|
            padded(r_address, d, chunk_bits).subrange(i * chunk_bits, (i + 1) * chunk_bits),
    )
}

/// Pad an address point with leading zeros and split it into `d` chunks.
pub fn r_address_chunks<F: Field>(r_address: &[F], d: usize, chunk_bits: usize) -> (r: Vec<Vec<F>>)
    requires
        d * chunk_bits <= usize::MAX,
        r_address@.len() <= d * chunk_bits,
    ensures
        r@.map_values(|c: Vec<F>| c@) == chunks(r_address@, d as nat, chunk_bits as nat),
{
    let total: usize = d * chunk_bits;
    let padding: Vec<F> = poly::zeros(total - r_address.len());
    let point: Vec<F> = poly::concat(&padding, r_address);
    let mut out: Vec<Vec<F>> = Vec::new();
    let ghost target = chunks(r_address@, d as nat, chunk_bits as nat);
    assert(out@.map_values(|c: Vec<F>| c@) =~= target.take(0));
    for i in 0..d
        invariant
            point@ == padded(r_address@, d as nat, chunk_bits as nat),
            point@.len() == d * chunk_bits,
            d * chunk_bits <= usize::MAX,
            target == chunks(r_address@, d as nat, chunk_bits as nat),
            out@.map_values(|c: Vec<F>| c@) == target.take(i as int),
    {
        assert(i * chunk_bits <= (i + 1) * chunk_bits <= d * chunk_bits) by (nonlinear_arith)
            requires
                i < d,
                chunk_bits >= 0,
        ;
        let ghost before = out@.map_values(|c: Vec<F>| c@);
        let chunk: Vec<F> = poly::range(&point, i * chunk_bits, (i + 1) * chunk_bits);
        out.push(chunk);
        assert(out@.map_values(|c: Vec<F>| c@) =~= before.push(chunk@));
        assert(before.push(target[i as int]) =~= target.take(i + 1));
    }
    assert(target.take(d as int) =~= target);
    out
}

/// The name of the dense read-address claim.
pub open spec fn ra_id() -> OpeningId {
    accumulator::virt(VirtualPolynomial::RamRa, SumcheckId::RamRaClaimReduction)
}

/// The name of the claim about chunk `i`.
pub open spec fn chunk_id(i: int) -> OpeningId {
    accumulator::comm(CommittedPolynomial::RamRa(i as usize), SumcheckId::RamRaVirtualization)
}

/// The cycle point, the chunks of the address point, and the dense claim.
#[derive(Debug)]
pub struct RamRaVirtualizationParams<F> {
    pub log_t: usize,
    pub r_cycle: Vec<F>,
    pub r_address_chunks: Vec<Vec<F>>,
    pub ra_claim: F,
}

impl<F: Field> RamRaVirtualizationParams<F> {
    /// The chunks of the address point.
    pub open spec fn chunks(self) -> Seq<Seq<F>> {
        self.r_address_chunks@.map_values(|c: Vec<F>| c@)
    }

    /// Split the point of the dense claim into `d` address chunks and the cycle point.
    pub fn new(
        accumulator: &Openings<F>,
        d: usize,
        log_k: usize,
        log_t: usize,
        chunk_bits: usize,
    ) -> (r: Self)
        requires
            accumulator@.contains_key(ra_id()),
            log_k <= accumulator@[ra_id()].0.len(),
            log_k <= d * chunk_bits <= usize::MAX,
        ensures
            r.log_t == log_t,
            r.r_cycle@ == accumulator@[ra_id()].0.skip(log_k as int),
            r.chunks() == chunks(
                accumulator@[ra_id()].0.take(log_k as int),
                d as nat,
                chunk_bits as nat,
            ),
            r.ra_claim == accumulator@[ra_id()].1,
    {
        let (point, ra_claim) = accumulator.get_virtual_polynomial_opening(
            VirtualPolynomial::RamRa,
            SumcheckId::RamRaClaimReduction,
        );
        let len: usize = point.len();
        let r_address: Vec<F> = poly::range(&point, 0, log_k);
        let r_cycle: Vec<F> = poly::range(&point, log_k, len);
        assert(r_address@ =~= point@.take(log_k as int));
        assert(r_cycle@ =~= point@.skip(log_k as int));
        let chunks: Vec<Vec<F>> = r_address_chunks(&r_address, d, chunk_bits);
        RamRaVirtualizationParams { log_t, r_cycle, r_address_chunks: chunks, ra_claim }
    }
}

/// The read weight of one chunk at every cycle.
pub open spec fn ra_column<F: Field>(chunk: Seq<F>, indices: Seq<u32>, t: nat) -> Seq<F> {
    Seq::new(t, |c: int| poly::eq_weight(chunk, indices[c] as int))
}

/// The table the prover sums.
pub open spec fn table<F: Field>(
    chunks: Seq<Seq<F>>,
    indices: Seq<Seq<u32>>,
    r_cycle: Seq<F>,
) -> SumTable<
    F,
> {
    SumTable {
        columns: Seq::new(
            chunks.len(),
            |i: int| ra_column(chunks[i], indices[i], pow2(r_cycle.len())),
        ).push(poly::eq_table(r_cycle)),
        formula: formula::column_product(chunks.len()),
    }
}

/// Every chunk has one chunk-sized index per cycle.
pub open spec fn indices_fit<F: Field>(
    chunks: Seq<Seq<F>>,
    indices: Seq<Seq<u32>>,
    t: nat,
) -> bool {
    &&& indices.len() == chunks.len()
    &&& forall|i: int|
        0 <= i < indices.len() ==> (#[trigger] indices[i]).len() == t && forall|c: int|
            0 <= c < t ==> #[trigger] indices[i][c] < pow2(chunks[i].len())
}

/// The claims after the first `n` chunk openings are recorded.
pub open spec fn cached<F: Field>(
    acc: Claims<F>,
    chunks: Seq<Seq<F>>,
    xs: Seq<F>,
    v: Seq<F>,
    n: int,
) -> Claims<F>
    decreases n,
{
    if n <= 0 {
        acc
    } else {
        cached(acc, chunks, xs, v, n - 1).insert(
            chunk_id(n - 1),
            (chunks[n - 1] + xs.reverse(), v[n - 1]),
        )
    }
}

/// The claim the chunk openings must satisfy.
pub open spec fn output<F: Field>(r_cycle: Seq<F>, acc: Claims<F>, d: nat, xs: Seq<F>) -> F {
    sums::product(d as int, |i: int| acc[chunk_id(i)].1).times(
        poly::eq_mle(r_cycle, xs.reverse()),
    )
}

/// The virtualization instance.
pub struct RamRaVirtualization<F> {
    pub params: RamRaVirtualizationParams<F>,
    pub sum: VirtualSum<F>,
}

impl<F: Field> RamRaVirtualization<F> {
    /// The prover's instance over the committed chunk indices.
    pub fn new_prover(params: RamRaVirtualizationParams<F>, indices: &Vec<Vec<u32>>) -> (r: Self)
        requires
            params.chunks().len() < usize::MAX,
            pow2(params.r_cycle@.len()) <= usize::MAX,
            forall|i: int|
                0 <= i < params.chunks().len() ==> pow2((#[trigger] params.chunks()[i]).len())
                    <= usize::MAX,
            indices_fit(
                params.chunks(),
                indices@.map_values(|v: Vec<u32>| v@),
                pow2(params.r_cycle@.len()),
            ),
        ensures
            r.params == params,
            r.sum@ == table(
                params.chunks(),
                indices@.map_values(|v: Vec<u32>| v@),
                params.r_cycle@,
            ),
    {
        let eq: Vec<F> = poly::eq_evals(&params.r_cycle);
        let t: usize = eq.len();
        let d: usize = params.r_address_chunks.len();
        let ghost cs = params.chunks();
        let ghost idx = indices@.map_values(|v: Vec<u32>| v@);
        let ghost target = table(cs, idx, params.r_cycle@);
        let mut columns: Vec<MultilinearPolynomial<F>> = Vec::new();
        assert(columns@.map_values(|p: MultilinearPolynomial<F>| p@) =~= target.columns.take(0));
        for i in 0..d
            invariant
                cs == params.chunks(),
                idx == indices@.map_values(|v: Vec<u32>| v@),
                target == table(cs, idx, params.r_cycle@),
                d == cs.len(),
                d < usize::MAX,
                t == pow2(params.r_cycle@.len()),
                indices_fit(cs, idx, t as nat),
                forall|i: int| 0 <= i < d ==> pow2((#[trigger] cs[i]).len()) <= usize::MAX,
                columns@.map_values(|p: MultilinearPolynomial<F>| p@) == target.columns.take(
                    i as int,
                ),
        {
            assert(pow2(cs[i as int].len()) <= usize::MAX);
            assert(cs[i as int] == params.r_address_chunks@[i as int]@);
            assert(idx[i as int] == indices@[i as int]@);
            let eq_chunk: Vec<F> = poly::eq_evals(&params.r_address_chunks[i]);
            let mut column: Vec<F> = Vec::new();
            for c in 0..t
                invariant
                    i < d,
                    d == cs.len(),
                    cs == params.chunks(),
                    idx == indices@.map_values(|v: Vec<u32>| v@),
                    idx[i as int] == indices@[i as int]@,
                    indices_fit(cs, idx, t as nat),
                    eq_chunk@ == poly::eq_table(cs[i as int]),
                    column@ == ra_column(cs[i as int], idx[i as int], c as nat),
            {
                assert(idx[i as int].len() == t && idx[i as int][c as int] < pow2(
                    cs[i as int].len(),
                ));
                column.push(eq_chunk[indices[i][c] as usize]);
                assert(column@ =~= ra_column(cs[i as int], idx[i as int], (c + 1) as nat));
            }
            let ghost before = columns@.map_values(|p: MultilinearPolynomial<F>| p@);
            columns.push(MultilinearPolynomial::new(column));
            assert(columns@.map_values(|p: MultilinearPolynomial<F>| p@) =~= before.push(column@));
            assert(before.push(target.columns[i as int]) =~= target.columns.take(i + 1));
        }
        let ghost before = columns@.map_values(|p: MultilinearPolynomial<F>| p@);
        columns.push(MultilinearPolynomial::new(eq));
        assert(columns@.map_values(|p: MultilinearPolynomial<F>| p@) =~= before.push(eq@));
        assert(before.push(eq@) =~= target.columns);
        let sum: VirtualSum<F> = VirtualSum::new(columns, formula::columns_product(d));
        RamRaVirtualization { params, sum }
    }

    /// The verifier's instance, which holds no columns to sum.
    pub fn new_verifier(params: RamRaVirtualizationParams<F>) -> (r: Self)
        ensures
            r.params == params,
    {
        RamRaVirtualization { params, sum: VirtualSum::empty() }
    }

    /// One round per cycle variable.
    pub fn num_rounds(&self) -> (r: usize)
        ensures
            r == self.params.log_t,
    {
        self.params.log_t
    }

    /// One more than the number of chunks.
    pub fn degree(&self) -> (r: usize)
        requires
            self.params.chunks().len() < usize::MAX,
        ensures
            r == self.params.chunks().len() + 1,
    {
        self.params.r_address_chunks.len() + 1
    }

    /// The dense read-address claim.
    pub fn input_claim(&self) -> (r: F)
        ensures
            r == self.params.ra_claim,
    {
        self.params.ra_claim
    }

    /// Record the chunk openings of the fully bound columns.
    pub fn cache_openings(&self, accumulator: &mut Openings<F>, challenges: &[F])
        requires
            self.sum@.columns.len() >= self.params.chunks().len(),
            forall|c: int|
                0 <= c < self.params.chunks().len() ==> (#[trigger] self.sum@.columns[c]).len() > 0,
        ensures
            final(accumulator)@ == cached(
                old(accumulator)@,
                self.params.chunks(),
                challenges@,
                self.sum@.columns.map_values(|p: Seq<F>| p[0]),
                self.params.chunks().len() as int,
            ),
            final(accumulator).log_t == old(accumulator).log_t,
    {
        let d: usize = self.params.r_address_chunks.len();
        let mut values: Vec<F> = Vec::new();
        let ghost v = self.sum@.columns.map_values(|p: Seq<F>| p[0]);
        for i in 0..d
            invariant
                d == self.params.chunks().len(),
                self.sum@.columns.len() >= d,
                forall|c: int| 0 <= c < d ==> (#[trigger] self.sum@.columns[c]).len() > 0,
                v == self.sum@.columns.map_values(|p: Seq<F>| p[0]),
                values@ == v.take(i as int),
        {
            assert(self.sum@.columns[i as int].len() > 0);
            values.push(self.sum.bound_value(i));
            assert(values@ =~= v.take(i + 1));
        }
        record_chunks(accumulator, &self.params, challenges, &values);
        proof {
            lemma_cached_ext(
                old(accumulator)@,
                self.params.chunks(),
                challenges@,
                values@,
                v,
                d as int,
            );
        }
    }

    /// The claim the chunk openings must satisfy.
    pub fn expected_output_claim(&self, accumulator: &Openings<F>, challenges: &[F]) -> (r: F)
        requires
            forall|i: int|
                0 <= i < self.params.chunks().len() ==> accumulator@.contains_key(
                    #[trigger] chunk_id(i),
                ),
            challenges@.len() == self.params.r_cycle@.len(),
        ensures
            r == output(
                self.params.r_cycle@,
                accumulator@,
                self.params.chunks().len(),
                challenges@,
            ),
    {
        let point: Vec<F> = poly::reversed(challenges);
        let eq_eval: F = poly::eq_at(&self.params.r_cycle, &point);
        let d: usize = self.params.r_address_chunks.len();
        let ghost f = |i: int| accumulator@[chunk_id(i)].1;
        let mut prod: F = field::one();
        for i in 0..d
            invariant
                d == self.params.chunks().len(),
                f == (|i: int| accumulator@[chunk_id(i)].1),
                forall|i: int| 0 <= i < d ==> accumulator@.contains_key(#[trigger] chunk_id(i)),
                prod == sums::product(i as int, f),
        {
            assert(accumulator@.contains_key(chunk_id(i as int)));
            prod = prod.mul(
                accumulator.committed_claim(
                    CommittedPolynomial::RamRa(i),
                    SumcheckId::RamRaVirtualization,
                ),
            );
        }
        prod.mul(eq_eval)
    }
}

/// Record one claim per chunk, each at its address chunk followed by the reversed challenges.
fn record_chunks<F: Field>(
    accumulator: &mut Openings<F>,
    params: &RamRaVirtualizationParams<F>,
    challenges: &[F],
    values: &Vec<F>,
)
    requires
        values@.len() == params.chunks().len(),
    ensures
        final(accumulator)@ == cached(
            old(accumulator)@,
            params.chunks(),
            challenges@,
            values@,
            values@.len() as int,
        ),
        final(accumulator).log_t == old(accumulator).log_t,
{
    let r_cycle: Vec<F> = poly::reversed(challenges);
    let d: usize = values.len();
    for i in 0..d
        invariant
            d == values@.len(),
            d == params.chunks().len(),
            r_cycle@ == challenges@.reverse(),
            accumulator.log_t == old(accumulator).log_t,
            accumulator@ == cached(
                old(accumulator)@,
                params.chunks(),
                challenges@,
                values@,
                i as int,
            ),
    {
        assert(params.chunks()[i as int] == params.r_address_chunks@[i as int]@);
        let point: Vec<F> = poly::concat(&params.r_address_chunks[i], &r_cycle);
        accumulator.append_dense(
            CommittedPolynomial::RamRa(i),
            SumcheckId::RamRaVirtualization,
            point,
            values[i],
        );
    }
}

proof fn lemma_cached_ext<F: Field>(
    acc: Claims<F>,
    chunks: Seq<Seq<F>>,
    xs: Seq<F>,
    v: Seq<F>,
    w: Seq<F>,
    n: int,
)
    requires
        forall|i: int| 0 <= i < n ==> #[trigger] v[i] == w[i],
    ensures
        cached(acc, chunks, xs, v, n) == cached(acc, chunks, xs, w, n),
    decreases n,
{
    if n > 0 {
        lemma_cached_ext(acc, chunks, xs, v, w, n - 1);
        assert(v[n - 1] == w[n - 1]);
    }
}

proof fn lemma_cached<F: Field>(
    acc: Claims<F>,
    chunks: Seq<Seq<F>>,
    xs: Seq<F>,
    v: Seq<F>,
    n: int,
    i: int,
)
    requires
        0 <= i < n <= usize::MAX,
    ensures
        cached(acc, chunks, xs, v, n).contains_key(chunk_id(i)),
        cached(acc, chunks, xs, v, n)[chunk_id(i)] == (chunks[i] + xs.reverse(), v[i]),
    decreases n,
{
    if i < n - 1 {
        lemma_cached(acc, chunks, xs, v, n - 1, i);
    }
}

/// The table is shaped: its columns have one entry for every point, and the degree of its formula is
/// the one that the verifier allows.
pub proof fn law_table_shaped<F: Field>(
    chunks: Seq<Seq<F>>,
    indices: Seq<Seq<u32>>,
    r_cycle: Seq<F>,
)
    requires
        chunks.len() < usize::MAX,
    ensures
        table(chunks, indices, r_cycle).shaped(r_cycle.len()),
        table(chunks, indices, r_cycle).formula.degree() == chunks.len() + 1,
        table(chunks, indices, r_cycle).canonical(),
{
    let t = table(chunks, indices, r_cycle);
    let d = chunks.len();
    formula::lemma_column_product::<F>(d, Seq::new((d + 1) as nat, |i: int| F::of_int(0)));
    poly::lemma_eq_table_valid(r_cycle);
    assert forall|c: int| 0 <= c < t.columns.len() implies field::all_valid(
        #[trigger] t.columns[c],
    ) by {
        if c < d {
            let col = t.columns[c];
            assert forall|j: int| 0 <= j < col.len() implies (#[trigger] col[j]).valid() by {
                poly::lemma_eq_weight_valid(chunks[c], indices[c][j] as int);
            }
        }
    }
}

/// Chunk `i` of an address of `d` chunks, the most significant one first.
pub open spec fn digit(address: int, d: int, chunk_bits: nat, i: int) -> int {
    (address / pow2((chunk_bits * (d - 1 - i)) as nat) as int) % (pow2(chunk_bits) as int)
}

proof fn lemma_digits<F: Field>(r_address: Seq<F>, d: nat, chunk_bits: nat, address: int, n: nat)
    requires
        r_address.len() <= d * chunk_bits,
        n <= d,
        address >= 0,
    ensures
        sums::product(
            n as int,
            |i: int|
                poly::eq_weight(
                    chunks(r_address, d, chunk_bits)[i],
                    digit(address, d as int, chunk_bits, i),
                ),
        ) == poly::eq_weight(
            padded(r_address, d, chunk_bits).take((n * chunk_bits) as int),
            if n == 0 {
                0
            } else {
                address / pow2((chunk_bits * (d - n)) as nat) as int % (pow2(n * chunk_bits) as int)
            },
        ),
    decreases n,
{
    let point = padded(r_address, d, chunk_bits);
    let cs = chunks(r_address, d, chunk_bits);
    let f = |i: int| poly::eq_weight(cs[i], digit(address, d as int, chunk_bits, i));
    poly::lemma_pow2_zero();
    if n == 0 {
        assert(point.take(0).len() == 0);
    } else {
        let m = (n - 1) as nat;
        lemma_digits(r_address, d, chunk_bits, address, m);
        assert(n * chunk_bits == m * chunk_bits + chunk_bits) by (nonlinear_arith)
            requires
                n == m + 1,
        ;
        assert(n * chunk_bits <= d * chunk_bits) by (nonlinear_arith)
            requires
                n <= d,
        ;
        let a = point.take((m * chunk_bits) as int);
        let b = cs[m as int];
        assert((m + 1) * chunk_bits == n * chunk_bits);
        assert(point.take((n * chunk_bits) as int) =~= a + b);
        assert(b.len() == chunk_bits);
        let low = pow2((chunk_bits * (d - n)) as nat) as int;
        let base = pow2(chunk_bits) as int;
        let rest = pow2(m * chunk_bits) as int;
        vstd::arithmetic::power2::lemma_pow2_pos((chunk_bits * (d - n)) as nat);
        vstd::arithmetic::power2::lemma_pow2_pos(chunk_bits);
        vstd::arithmetic::power2::lemma_pow2_pos(m * chunk_bits);
        let x = address / low;
        assert(chunk_bits * (d - n) >= 0) by (nonlinear_arith)
            requires
                n <= d,
                chunk_bits >= 0,
        ;
        assert(chunk_bits * (d - m) == chunk_bits * (d - n) + chunk_bits) by (nonlinear_arith)
            requires
                m == n - 1,
        ;
        poly::lemma_pow2_concat((chunk_bits * (d - n)) as nat, chunk_bits);
        poly::lemma_pow2_concat(m * chunk_bits, chunk_bits);
        vstd::arithmetic::div_mod::lemma_div_denominator(address, low, base);
        assert(x / base == address / pow2((chunk_bits * (d - m)) as nat) as int);
        assert(digit(address, d as int, chunk_bits, m as int) == x % base);
        vstd::arithmetic::div_mod::lemma_div_pos_is_pos(address, low);
        vstd::arithmetic::div_mod::lemma_mod_breakdown(x, base, rest);
        let y = x % (base * rest);
        assert(base * rest == rest * base) by (nonlinear_arith);
        assert(y == base * ((x / base) % rest) + x % base);
        let k = (x / base) % rest;
        assert(k * base + x % base == y) by (nonlinear_arith)
            requires
                y == base * k + x % base,
        ;
        if m == 0 {
            assert(0 * chunk_bits == 0) by (nonlinear_arith);
            assert(rest == 1);
            assert(k == 0);
        }
        poly::lemma_eq_weight_concat(a, b, k, x % base);
        assert(f(m as int) == poly::eq_weight(b, x % base));
    }
}

/// The product of the chunk weights of an address is the weight of the whole address.
pub proof fn law_address_factorizes<F: Field>(
    r_address: Seq<F>,
    d: nat,
    chunk_bits: nat,
    address: int,
)
    requires
        r_address.len() <= d * chunk_bits,
        0 <= address < pow2(r_address.len()),
    ensures
        sums::product(
            d as int,
            |i: int|
                poly::eq_weight(
                    chunks(r_address, d, chunk_bits)[i],
                    digit(address, d as int, chunk_bits, i),
                ),
        ) == poly::eq_weight(r_address, address),
{
    let point = padded(r_address, d, chunk_bits);
    let z = Seq::new((d * chunk_bits - r_address.len()) as nat, |i: int| F::of_int(0));
    poly::lemma_pow2_zero();
    lemma_digits(r_address, d, chunk_bits, address, d);
    assert(point.take((d * chunk_bits) as int) =~= z + r_address);
    assert(chunk_bits * (d - d) == 0) by (nonlinear_arith);
    let total = d * chunk_bits;
    poly::lemma_pow2_concat((total - r_address.len()) as nat, r_address.len());
    vstd::arithmetic::power2::lemma_pow2_pos((total - r_address.len()) as nat);
    let lead = pow2((total - r_address.len()) as nat) as int;
    let len = pow2(r_address.len()) as int;
    assert(lead * len >= len) by (nonlinear_arith)
        requires
            lead >= 1,
            len >= 0,
    ;
    assert(pow2(total) >= pow2(r_address.len()));
    vstd::arithmetic::div_mod::lemma_small_mod(address as nat, pow2(total));
    assert(address / 1 == address);
    if d == 0 {
        assert(0 * chunk_bits == 0) by (nonlinear_arith);
        assert(pow2(r_address.len()) == 1);
        assert(address == 0);
    }
    poly::lemma_eq_weight_zero_prefix(z, r_address, address);
}

/// The dense one-hot matrix of the addresses read, address-major.
pub open spec fn dense<F: Field>(addresses: Seq<int>, k: nat) -> Seq<F> {
    Seq::new(
        k * addresses.len(),
        |x: int|
            if x / (addresses.len() as int) == addresses[x % (addresses.len() as int)] {
                F::of_int(1)
            } else {
                F::of_int(0)
            },
    )
}

/// When the committed indices are the chunks of the addresses read, the sum over the cycles is the
/// extension of the dense one-hot matrix at the address and cycle points.
pub proof fn law_total<F: Field>(
    r_address: Seq<F>,
    r_cycle: Seq<F>,
    d: nat,
    chunk_bits: nat,
    indices: Seq<Seq<u32>>,
    addresses: Seq<int>,
)
    requires
        d < usize::MAX,
        r_address.len() <= d * chunk_bits,
        addresses.len() == pow2(r_cycle.len()),
        forall|c: int|
            0 <= c < addresses.len() ==> 0 <= #[trigger] addresses[c] < pow2(r_address.len()),
        forall|i: int, c: int|
            0 <= i < d && 0 <= c < addresses.len() ==> (#[trigger] indices[i][c]) == digit(
                addresses[c],
                d as int,
                chunk_bits,
                i,
            ),
    ensures
        table(chunks(r_address, d, chunk_bits), indices, r_cycle).total() == poly::mle(
            dense::<F>(addresses, pow2(r_address.len())),
            r_address + r_cycle,
        ),
{
    let cs = chunks(r_address, d, chunk_bits);
    let tab = table(cs, indices, r_cycle);
    let t = addresses.len() as int;
    let kk = pow2(r_address.len()) as int;
    let m = dense::<F>(addresses, pow2(r_address.len()));
    vstd::arithmetic::power2::lemma_pow2_pos(r_cycle.len());
    let f = |c: int| tab.formula.value(tab.row(c));
    let g = |c: int| poly::eq_weight(r_address, addresses[c]).times(poly::eq_weight(r_cycle, c));
    assert forall|c: int| 0 <= c < t implies #[trigger] f(c) == g(c) by {
        let row = tab.row(c);
        formula::lemma_column_product::<F>(d, row);
        law_address_factorizes(r_address, d, chunk_bits, addresses[c]);
        let weights = |i: int|
            poly::eq_weight(cs[i], digit(addresses[c], d as int, chunk_bits, i));
        let vals = |i: int| row[i];
        assert forall|i: int| 0 <= i < d implies #[trigger] vals(i) == weights(i) by {
            assert(row[i] == ra_column(cs[i], indices[i], pow2(r_cycle.len()))[c]);
            assert(indices[i][c] == digit(addresses[c], d as int, chunk_bits, i));
        }
        sums::lemma_product_ext(d as int, vals, weights);
        assert(row[d as int] == poly::eq_table(r_cycle)[c]);
    }
    assert(tab.size() == t) by {
        if d == 0 {
            assert(tab.columns[0] == poly::eq_table(r_cycle));
        } else {
            assert(tab.columns[0] == ra_column(cs[0], indices[0], pow2(r_cycle.len())));
        }
    }
    sums::lemma_sum_ext(t, f, g);
    // the dense side
    poly::lemma_mle_matrix(m, r_address, r_cycle);
    let cell = |k: int, c: int|
        poly::eq_weight(r_address, k).times(m[k * t + c].times(poly::eq_weight(r_cycle, c)));
    let outer = |k: int|
        poly::eq_weight(r_address, k).times(
            sums::sum(
                pow2(r_cycle.len()) as int,
                |c: int| m[k * pow2(r_cycle.len()) + c].times(poly::eq_weight(r_cycle, c)),
            ),
        );
    let outer2 = |k: int| sums::sum(t, |c: int| cell(k, c));
    assert forall|k: int| 0 <= k < kk implies #[trigger] outer(k) == outer2(k) by {
        let inner = |c: int|
            m[k * pow2(r_cycle.len()) + c].times(poly::eq_weight(r_cycle, c));
        sums::lemma_sum_scale(t, poly::eq_weight(r_address, k), inner);
        sums::lemma_sum_ext(
            t,
            |c: int| cell(k, c),
            |c: int| poly::eq_weight(r_address, k).times(inner(c)),
        );
    }
    sums::lemma_sum_ext(kk, outer, outer2);
    sums::lemma_sum_swap(kk, t, cell);
    let per_cycle = |c: int| sums::sum(kk, |k: int| cell(k, c));
    assert forall|c: int| 0 <= c < t implies #[trigger] per_cycle(c) == g(c) by {
        let h = |k: int| cell(k, c);
        let a = addresses[c];
        let at = |k: int| m[k * t + c];
        assert forall|k: int| 0 <= k < kk implies #[trigger] at(k) == (if k == a {
            F::of_int(1)
        } else {
            F::of_int(0)
        }) by {
            poly::lemma_block_index(k, t, c);
            assert(k * t + c < kk * t) by (nonlinear_arith)
                requires
                    0 <= c < t,
                    0 <= k < kk,
            ;
        }
        let w = poly::eq_weight(r_cycle, c);
        poly::lemma_eq_weight_valid(r_cycle, c);
        assert forall|k: int| 0 <= k < kk && k != a implies #[trigger] h(k) == F::of_int(0) by {
            assert(at(k) == F::of_int(0));
            field::lemma_zero_times(w);
            F::law_times_zero(poly::eq_weight(r_address, k));
        }
        assert(at(a) == F::of_int(1));
        field::lemma_one_times(w);
        F::law_valid(poly::eq_weight(r_address, a), w);
        sums::lemma_sum_single(kk, a, h);
    }
    sums::lemma_sum_ext(t, per_cycle, g);
}

/// The openings cached by the prover satisfy the output claim: it is the value to which the
/// sumcheck reduces.
pub proof fn law_output<F: Field>(
    cs: Seq<Seq<F>>,
    indices: Seq<Seq<u32>>,
    r_cycle: Seq<F>,
    acc: Claims<F>,
    xs: Seq<F>,
)
    requires
        cs.len() < usize::MAX,
        xs.len() == r_cycle.len(),
    ensures
        ({
            let tab = table(cs, indices, r_cycle);
            let row = sumcheck::final_row(tab.columns, xs);
            let acc1 = cached(acc, cs, xs, row, cs.len() as int);
            &&& forall|i: int| 0 <= i < cs.len() ==> acc1.contains_key(#[trigger] chunk_id(i))
            &&& output(r_cycle, acc1, cs.len(), xs) == tab.formula.value(row)
        }),
{
    let tab = table(cs, indices, r_cycle);
    let row = sumcheck::final_row(tab.columns, xs);
    let acc1 = cached(acc, cs, xs, row, cs.len() as int);
    let d = cs.len();
    formula::lemma_column_product::<F>(d, row);
    assert forall|i: int| 0 <= i < d implies acc1.contains_key(#[trigger] chunk_id(i))
        && acc1[chunk_id(i)].1 == row[i] by {
        lemma_cached(acc, cs, xs, row, d as int, i);
    }
    sums::lemma_product_ext(d as int, |i: int| acc1[chunk_id(i)].1, |i: int| row[i]);
    poly::lemma_mle_eq_table(r_cycle, xs.reverse());
    assert(tab.columns[d as int] == poly::eq_table(r_cycle));
}

/// Why the virtualization is rejected.
#[derive(Clone, Copy, Debug, PartialEq, Eq, Structural)]
pub enum RamRaVirtualizationError {
    Sumcheck,
    OutputClaim,
}

/// The chunk openings the prover hands to the verifier.
#[derive(Debug)]
pub struct RamRaVirtualizationProof<F> {
    pub ra_openings: Vec<F>,
}

/// The points and the claim the virtualization starts from are sized as announced.
pub open spec fn ready<F: Field>(
    acc: Claims<F>,
    d: nat,
    log_k: nat,
    log_t: nat,
    chunk_bits: nat,
) -> bool {
    &&& acc.contains_key(ra_id())
    &&& acc[ra_id()].0.len() == log_k + log_t
    &&& log_k <= d * chunk_bits <= usize::MAX
    &&& d < usize::MAX - 1
}

/// The chunks of the address point of the dense claim.
pub open spec fn claim_chunks<F: Field>(acc: Claims<F>, d: nat, log_k: nat, chunk_bits: nat) -> Seq<
    Seq<F>,
> {
    chunks(acc[ra_id()].0.take(log_k as int), d, chunk_bits)
}

/// The table of the dense claim.
pub open spec fn claim_table<F: Field>(
    acc: Claims<F>,
    indices: Seq<Seq<u32>>,
    log_k: nat,
    chunk_bits: nat,
) -> SumTable<F> {
    table(
        claim_chunks(acc, indices.len(), log_k, chunk_bits),
        indices,
        acc[ra_id()].0.skip(log_k as int),
    )
}

/// Prove the virtualization of the recorded dense claim, and record the chunk openings.
pub fn prove_ram_ra_virtualization<F: Field, T: ProverFs<F>>(
    indices: &Vec<Vec<u32>>,
    log_k: usize,
    log_t: usize,
    chunk_bits: usize,
    accumulator: &mut Openings<F>,
    transcript: &mut T,
) -> (proof: RamRaVirtualizationProof<F>)
    requires
        ready(old(accumulator)@, indices@.len(), log_k as nat, log_t as nat, chunk_bits as nat),
        pow2(log_t as nat) <= usize::MAX,
        pow2(chunk_bits as nat) <= usize::MAX,
        indices_fit(
            claim_chunks(old(accumulator)@, indices@.len(), log_k as nat, chunk_bits as nat),
            indices@.map_values(|v: Vec<u32>| v@),
            pow2(log_t as nat),
        ),
    ensures
        ({
            let idx = indices@.map_values(|v: Vec<u32>| v@);
            let tab = claim_table(old(accumulator)@, idx, log_k as nat, chunk_bits as nat);
            let (xs, s) = sumcheck::prove_run(tab, log_t as nat, old(transcript).state());
            let row = sumcheck::bound_row(tab.columns, xs);
            &&& proof.ra_openings@ == row.take(indices@.len() as int)
            &&& final(transcript).state() == s
            &&& final(accumulator)@ == cached(
                old(accumulator)@,
                claim_chunks(old(accumulator)@, indices@.len(), log_k as nat, chunk_bits as nat),
                xs,
                row,
                indices@.len() as int,
            )
        }),
{
    let d: usize = indices.len();
    let ghost acc0 = accumulator@;
    let ghost cs = claim_chunks(acc0, d as nat, log_k as nat, chunk_bits as nat);
    let ghost idx = indices@.map_values(|v: Vec<u32>| v@);
    let params: RamRaVirtualizationParams<F> = RamRaVirtualizationParams::new(
        accumulator,
        d,
        log_k,
        log_t,
        chunk_bits,
    );
    assert forall|i: int| 0 <= i < d implies (#[trigger] cs[i]).len() == chunk_bits by {
        lemma_chunk_len(acc0[ra_id()].0.take(log_k as int), d as nat, chunk_bits as nat, i);
    }
    let mut instance: RamRaVirtualization<F> = RamRaVirtualization::new_prover(params, indices);
    let ghost tab = instance.sum@;
    proof {
        law_table_shaped(cs, idx, params.r_cycle@);
    }
    let challenges: Vec<F> = sumcheck::prove(&mut instance.sum, log_t, transcript);
    proof {
        sumcheck::lemma_bound_columns(tab, challenges@);
        assert forall|c: int| 0 <= c < d implies (#[trigger] instance.sum@.columns[c]).len()
            > 0 by {
            assert(tab.bind_all(challenges@).columns[c].len() == 1);
        }
    }
    instance.cache_openings(accumulator, &challenges);
    let ghost row = sumcheck::bound_row(tab.columns, challenges@);
    assert(instance.sum@.columns.map_values(|p: Seq<F>| p[0]) =~= row) by {
        assert forall|c: int| 0 <= c < row.len() implies instance.sum@.columns[c][0] == row[c] by {
            assert(tab.bind_all(challenges@).columns[c] == seq![row[c]]);
        }
    }
    let mut ra_openings: Vec<F> = Vec::new();
    for i in 0..d
        invariant
            d < usize::MAX - 1,
            row.len() == d + 1,
            accumulator@ == cached(acc0, cs, challenges@, row, d as int),
            ra_openings@ == row.take(i as int),
    {
        proof {
            lemma_cached(acc0, cs, challenges@, row, d as int, i as int);
        }
        ra_openings.push(
            accumulator.committed_claim(
                CommittedPolynomial::RamRa(i),
                SumcheckId::RamRaVirtualization,
            ),
        );
        assert(ra_openings@ =~= row.take(i + 1));
    }
    RamRaVirtualizationProof { ra_openings }
}

proof fn lemma_chunk_len<F: Field>(r_address: Seq<F>, d: nat, chunk_bits: nat, i: int)
    requires
        r_address.len() <= d * chunk_bits,
        0 <= i < d,
    ensures
        chunks(r_address, d, chunk_bits)[i].len() == chunk_bits,
{
    assert(0 <= i * chunk_bits && (i + 1) * chunk_bits == i * chunk_bits + chunk_bits && (i + 1)
        * chunk_bits <= d * chunk_bits) by (nonlinear_arith)
        requires
            0 <= i < d,
            chunk_bits >= 0,
    ;
}

/// The verdict on a virtualization proof, the recorded claims, and the transcript after it.
pub open spec fn verdict<F: Field>(
    openings: Seq<F>,
    d: nat,
    log_k: nat,
    log_t: nat,
    chunk_bits: nat,
    acc: Claims<F>,
    s: FsState<F>,
) -> (Result<(), RamRaVirtualizationError>, Claims<F>, FsState<F>) {
    let cs = claim_chunks(acc, d, log_k, chunk_bits);
    let (reduced, s1) = sumcheck::verify_run(acc[ra_id()].1, log_t, d + 1, s);
    match reduced {
        Err(_) => (Err(RamRaVirtualizationError::Sumcheck), acc, s1),
        Ok((xs, value)) => {
            let acc1 = cached(acc, cs, xs, openings, d as int);
            if value != output(acc[ra_id()].0.skip(log_k as int), acc1, d, xs) {
                (Err(RamRaVirtualizationError::OutputClaim), acc1, s1)
            } else {
                (Ok(()), acc1, s1)
            }
        },
    }
}

/// Verify the virtualization of the recorded dense claim into `d` chunks, and record the chunk
/// openings.
pub fn verify_ram_ra_virtualization<F: Field, T: VerifierFs<F>>(
    proof: &RamRaVirtualizationProof<F>,
    d: usize,
    log_k: usize,
    log_t: usize,
    chunk_bits: usize,
    accumulator: &mut Openings<F>,
    transcript: &mut T,
) -> (r: Result<(), RamRaVirtualizationError>)
    requires
        proof.ra_openings@.len() == d,
        ready(old(accumulator)@, d as nat, log_k as nat, log_t as nat, chunk_bits as nat),
    ensures
        (r, final(accumulator)@, final(transcript).state()) == verdict(
            proof.ra_openings@,
            d as nat,
            log_k as nat,
            log_t as nat,
            chunk_bits as nat,
            old(accumulator)@,
            old(transcript).state(),
        ),
{
    let ghost acc0 = accumulator@;
    let params: RamRaVirtualizationParams<F> = RamRaVirtualizationParams::new(
        accumulator,
        d,
        log_k,
        log_t,
        chunk_bits,
    );
    let instance: RamRaVirtualization<F> = RamRaVirtualization::new_verifier(params);
    let claim: SumcheckClaim<F> = SumcheckClaim {
        num_vars: log_t,
        degree: d + 1,
        claimed_sum: instance.params.ra_claim,
    };
    match sumcheck::verify(&claim, transcript) {
        Err(_) => Err(RamRaVirtualizationError::Sumcheck),
        Ok(eval) => {
            record_chunks(accumulator, &instance.params, &eval.point, &proof.ra_openings);
            proof {
                assert forall|i: int| 0 <= i < d implies accumulator@.contains_key(
                    #[trigger] chunk_id(i),
                ) by {
                    lemma_cached(
                        acc0,
                        instance.params.chunks(),
                        eval.point@,
                        proof.ra_openings@,
                        d as int,
                        i,
                    );
                }
            }
            let expected: F = instance.expected_output_claim(accumulator, &eval.point);
            if !eval.value.same(expected) {
                return Err(RamRaVirtualizationError::OutputClaim);
            }
            Ok(())
        },
    }
}

/// Completeness: an honest virtualization of a true dense claim is accepted, both parties record
/// the same chunk claims, and they stay synchronised.
pub proof fn law_complete<F: Field>(
    acc: Claims<F>,
    indices: Seq<Seq<u32>>,
    log_k: nat,
    log_t: nat,
    chunk_bits: nat,
    p: FsState<F>,
    v: FsState<F>,
    whole: Seq<F>,
)
    requires
        ready(acc, indices.len(), log_k, log_t, chunk_bits),
        acc[ra_id()].1 == claim_table(acc, indices, log_k, chunk_bits).total(),
        transcript::synced(p, v, whole),
        sumcheck::prove_run(
            claim_table(acc, indices, log_k, chunk_bits),
            log_t,
            p,
        ).1.tape.is_prefix_of(whole),
    ensures
        ({
            let tab = claim_table(acc, indices, log_k, chunk_bits);
            let (xs, p1) = sumcheck::prove_run(tab, log_t, p);
            let row = sumcheck::bound_row(tab.columns, xs);
            let openings = row.take(indices.len() as int);
            let (r, acc1, v1) = verdict(openings, indices.len(), log_k, log_t, chunk_bits, acc, v);
            &&& r is Ok
            &&& acc1 == cached(
                acc,
                claim_chunks(acc, indices.len(), log_k, chunk_bits),
                xs,
                row,
                indices.len() as int,
            )
            &&& transcript::synced(p1, v1, whole)
        }),
{
    let d = indices.len();
    let cs = claim_chunks(acc, d, log_k, chunk_bits);
    let r_cycle = acc[ra_id()].0.skip(log_k as int);
    let tab = claim_table(acc, indices, log_k, chunk_bits);
    let (xs, p1) = sumcheck::prove_run(tab, log_t, p);
    law_table_shaped(cs, indices, r_cycle);
    assert(r_cycle.len() == log_t);
    sumcheck::law_sumcheck_complete(tab, log_t, p, v, whole);
    sumcheck::lemma_bound_columns(tab, xs);
    let row = sumcheck::final_row(tab.columns, xs);
    law_output(cs, indices, r_cycle, acc, xs);
    lemma_cached_ext(acc, cs, xs, row.take(d as int), row, d as int);
}

/// The weight of the product of the openings in the check.
pub open spec fn openings_weight<F: Field>(
    d: nat,
    log_k: nat,
    log_t: nat,
    acc: Claims<F>,
    s: FsState<F>,
) -> F {
    let xs = sumcheck::verify_run(acc[ra_id()].1, log_t, d + 1, s).0->Ok_0.0;
    poly::eq_mle(acc[ra_id()].0.skip(log_k as int), xs.reverse())
}

/// Where some openings are accepted, others with a different product are refused by the check,
/// unless its weight cancels the difference.
pub proof fn law_changed_openings_refused<F: Field>(
    accepted: Seq<F>,
    openings: Seq<F>,
    d: nat,
    log_k: nat,
    log_t: nat,
    chunk_bits: nat,
    acc: Claims<F>,
    s: FsState<F>,
)
    requires
        d <= usize::MAX,
        verdict(accepted, d, log_k, log_t, chunk_bits, acc, s).0 is Ok,
        openings_weight(d, log_k, log_t, acc, s).times(
            sums::product(d as int, |i: int| openings[i]).minus(
                sums::product(d as int, |i: int| accepted[i]),
            ),
        ) != F::of_int(0),
    ensures
        verdict(openings, d, log_k, log_t, chunk_bits, acc, s).0 == Err::<
            (),
            RamRaVirtualizationError,
        >(RamRaVirtualizationError::OutputClaim),
{
    let w = openings_weight(d, log_k, log_t, acc, s);
    let a = sums::product(d as int, |i: int| accepted[i]);
    let b = sums::product(d as int, |i: int| openings[i]);
    let cs = claim_chunks(acc, d, log_k, chunk_bits);
    let xs = sumcheck::verify_run(acc[ra_id()].1, log_t, d + 1, s).0->Ok_0.0;
    lemma_cached_product(acc, cs, xs, accepted, d);
    lemma_cached_product(acc, cs, xs, openings, d);
    field::lemma_weighted_apart(w, a, b);
    F::law_times_comm(w, a);
    F::law_times_comm(w, b);
}

/// Where an access claim with its openings is accepted, another value of the claim at the same point
/// is refused by the sumcheck.
pub proof fn law_changed_claim_refused<F: Field>(
    openings: Seq<F>,
    d: nat,
    log_k: nat,
    log_t: nat,
    chunk_bits: nat,
    acc: Claims<F>,
    other: Claims<F>,
    s: FsState<F>,
)
    requires
        log_t > 0,
        verdict(openings, d, log_k, log_t, chunk_bits, acc, s).0 is Ok,
        other[ra_id()].1 != acc[ra_id()].1,
    ensures
        verdict(openings, d, log_k, log_t, chunk_bits, other, s).0 == Err::<
            (),
            RamRaVirtualizationError,
        >(RamRaVirtualizationError::Sumcheck),
{
    sumcheck::law_changed_claim_refused(acc[ra_id()].1, other[ra_id()].1, log_t, d + 1, s);
}

/// The product of the recorded openings is that of the sent ones.
proof fn lemma_cached_product<F: Field>(
    acc: Claims<F>,
    cs: Seq<Seq<F>>,
    xs: Seq<F>,
    v: Seq<F>,
    d: nat,
)
    requires
        d <= usize::MAX,
    ensures
        sums::product(d as int, |i: int| cached(acc, cs, xs, v, d as int)[chunk_id(i)].1)
            == sums::product(d as int, |i: int| v[i]),
{
    let f = |i: int| cached(acc, cs, xs, v, d as int)[chunk_id(i)].1;
    let g = |i: int| v[i];
    assert forall|i: int| 0 <= i < d implies #[trigger] f(i) == g(i) by {
        lemma_cached(acc, cs, xs, v, d as int, i);
    }
    sums::lemma_product_ext(d as int, f, g);
}

/// An accepted proof is refused when any one element of its rounds is changed.
pub proof fn law_changed_round_refused<F: Field>(
    openings: Seq<F>,
    d: nat,
    log_k: nat,
    log_t: nat,
    chunk_bits: nat,
    acc: Claims<F>,
    s: FsState<F>,
    j: int,
    delta: F,
)
    requires
        verdict(openings, d, log_k, log_t, chunk_bits, acc, s).0 is Ok,
        0 <= j < log_t * (d + 2),
        delta.valid(),
        delta != F::of_int(0),
    ensures
        verdict(openings, d, log_k, log_t, chunk_bits, acc, sumcheck::changed(s, j, delta)).0
            == Err::<(), RamRaVirtualizationError>(RamRaVirtualizationError::Sumcheck),
{
    let degree = d + 1;
    assert(degree + 1 == d + 2);
    sumcheck::law_changed_round_refused(
        acc[ra_id()].1,
        Seq::empty(),
        log_t,
        degree,
        s,
        j,
        delta,
    );
}

/// The value of the dense read address at a point whose address part is given in chunks: the sum
/// over all cycles of the weight of the cycle and of every chunk read in it.
pub open spec fn dense_claim<F: Field>(
    chunks: Seq<Seq<F>>,
    indices: Seq<Seq<u32>>,
    r_cycle: Seq<F>,
) -> F {
    sums::sum(
        pow2(r_cycle.len()) as int,
        |c: int|
            sums::product(
                chunks.len() as int,
                |i: int| poly::eq_weight(chunks[i], indices[i][c] as int),
            ).times(poly::eq_weight(r_cycle, c)),
    )
}

/// The table sums to the dense claim.
pub proof fn law_dense_claim<F: Field>(
    cs: Seq<Seq<F>>,
    indices: Seq<Seq<u32>>,
    r_cycle: Seq<F>,
)
    requires
        cs.len() < usize::MAX,
    ensures
        table(cs, indices, r_cycle).total() == dense_claim(cs, indices, r_cycle),
{
    let tab = table(cs, indices, r_cycle);
    let d = cs.len();
    let t = pow2(r_cycle.len()) as int;
    let f = |c: int| tab.formula.value(tab.row(c));
    let g = |c: int|
        sums::product(d as int, |i: int| poly::eq_weight(cs[i], indices[i][c] as int)).times(
            poly::eq_weight(r_cycle, c),
        );
    assert forall|c: int| 0 <= c < t implies #[trigger] f(c) == g(c) by {
        let row = tab.row(c);
        formula::lemma_column_product::<F>(d, row);
        let vals = |i: int| row[i];
        let weights = |i: int| poly::eq_weight(cs[i], indices[i][c] as int);
        assert forall|i: int| 0 <= i < d implies #[trigger] vals(i) == weights(i) by {
            assert(row[i] == ra_column(cs[i], indices[i], pow2(r_cycle.len()))[c]);
        }
        sums::lemma_product_ext(d as int, vals, weights);
        assert(row[d as int] == poly::eq_table(r_cycle)[c]);
    }
    assert(tab.size() == t) by {
        if d == 0 {
            assert(tab.columns[0] == poly::eq_table(r_cycle));
        } else {
            assert(tab.columns[0] == ra_column(cs[0], indices[0], pow2(r_cycle.len())));
        }
    }
    sums::lemma_sum_ext(t, f, g);
}

/// The whole run between fresh parties with one label, whose accumulators hold the true dense claim
/// at one point: the proof is accepted, nothing of it is left over, and both parties record every
/// chunk opening at its address chunk followed by the reversed challenges.
pub proof fn law_round_trip<F: Field>(
    prover: Claims<F>,
    verifier: Claims<F>,
    r_address: Seq<F>,
    r_cycle: Seq<F>,
    chunk_bits: nat,
    indices: Seq<Seq<u32>>,
    label: Seq<u8>,
)
    requires
        r_address.len() <= indices.len() * chunk_bits <= usize::MAX,
        indices.len() < usize::MAX - 1,
        prover.contains_key(ra_id()),
        verifier.contains_key(ra_id()),
        prover[ra_id()] == verifier[ra_id()],
        verifier[ra_id()] == (
            r_address + r_cycle,
            dense_claim(chunks(r_address, indices.len(), chunk_bits), indices, r_cycle),
        ),
    ensures
        ({
            let (d, log_k, log_t) = (indices.len(), r_address.len(), r_cycle.len());
            let cs = chunks(r_address, d, chunk_bits);
            let p0 = transcript::fresh(label, Seq::empty());
            let tab = claim_table(prover, indices, log_k, chunk_bits);
            let (xs, p) = sumcheck::prove_run(tab, log_t, p0);
            let row = sumcheck::bound_row(tab.columns, xs);
            let openings = row.take(d as int);
            let sent = cached(
                prover,
                claim_chunks(prover, d, log_k, chunk_bits),
                xs,
                row,
                d as int,
            );
            let v = transcript::fresh(label, p.tape);
            let (r, acc, v1) = verdict(openings, d, log_k, log_t, chunk_bits, verifier, v);
            &&& r is Ok
            &&& v1.tape.len() == 0
            &&& forall|i: int|
                0 <= i < d ==> {
                    &&& acc.contains_key(#[trigger] chunk_id(i))
                    &&& acc[chunk_id(i)] == (cs[i] + xs.reverse(), openings[i])
                    &&& sent.contains_key(chunk_id(i))
                    &&& sent[chunk_id(i)] == acc[chunk_id(i)]
                }
        }),
{
    let (d, log_k, log_t) = (indices.len(), r_address.len(), r_cycle.len());
    let cs = chunks(r_address, d, chunk_bits);
    assert((r_address + r_cycle).take(log_k as int) =~= r_address);
    assert((r_address + r_cycle).skip(log_k as int) =~= r_cycle);
    law_dense_claim(cs, indices, r_cycle);
    let p0 = transcript::fresh::<F>(label, Seq::empty());
    let tab = table(cs, indices, r_cycle);
    assert(tab == claim_table(verifier, indices, log_k, chunk_bits));
    let (xs, p) = sumcheck::prove_run(tab, log_t, p0);
    let v = transcript::fresh(label, p.tape);
    transcript::law_fresh(label, p.tape);
    law_complete(verifier, indices, log_k, log_t, chunk_bits, p0, v, p.tape);
    let row = sumcheck::bound_row(tab.columns, xs);
    let acc = cached(verifier, cs, xs, row, d as int);
    let sent = cached(prover, cs, xs, row, d as int);
    assert forall|i: int| 0 <= i < d implies {
        &&& acc.contains_key(#[trigger] chunk_id(i))
        &&& acc[chunk_id(i)] == (cs[i] + xs.reverse(), row[i])
        &&& sent.contains_key(chunk_id(i))
        &&& sent[chunk_id(i)] == acc[chunk_id(i)]
    } by {
        lemma_cached(verifier, cs, xs, row, d as int, i);
        lemma_cached(prover, cs, xs, row, d as int, i);
    }
}

/// What is recorded about each chunk is true: under its own name, at its part of the address point,
/// padded with zeros in front, and the drawn cycle point, the extension of the one-hot matrix of its
/// index column.
pub proof fn law_named_claims<F: Field>(
    r_address: Seq<F>,
    d: nat,
    chunk_bits: nat,
    indices: Seq<Seq<u32>>,
    r_cycle: Seq<F>,
    acc: Claims<F>,
    xs: Seq<F>,
    i: int,
)
    requires
        0 <= i < d < usize::MAX,
        r_address.len() <= d * chunk_bits,
        xs.len() == r_cycle.len(),
        indices_fit(chunks(r_address, d, chunk_bits), indices, pow2(r_cycle.len())),
    ensures
        ({
            let cs = chunks(r_address, d, chunk_bits);
            let row = sumcheck::final_row(table(cs, indices, r_cycle).columns, xs);
            let (point, claim) = cached(acc, cs, xs, row, d as int)[OpeningId::Committed(
                CommittedPolynomial::RamRa(i as usize),
                SumcheckId::RamRaVirtualization,
            )];
            let front = d * chunk_bits - r_address.len();
            &&& point.len() == chunk_bits + xs.len()
            &&& forall|b: int|
                0 <= b < chunk_bits ==> #[trigger] point[b] == (if i * chunk_bits + b < front {
                    F::of_int(0)
                } else {
                    r_address[i * chunk_bits + b - front]
                })
            &&& point.skip(chunk_bits as int) == xs.reverse()
            &&& claim == poly::mle(
                access::one_hot::<F>(access::marks(indices[i]), pow2(chunk_bits)),
                point,
            )
        }),
{
    let cs = chunks(r_address, d, chunk_bits);
    let row = sumcheck::final_row(table(cs, indices, r_cycle).columns, xs);
    let t = pow2(r_cycle.len());
    lemma_cached(acc, cs, xs, row, d as int, i);
    lemma_chunk_len(r_address, d, chunk_bits, i);
    assert(i * chunk_bits + chunk_bits == (i + 1) * chunk_bits <= d * chunk_bits) by (nonlinear_arith)
        requires
            0 <= i < d,
    ;
    assert(0 <= i * chunk_bits) by (nonlinear_arith)
        requires
            0 <= i,
    ;
    let point = cs[i] + xs.reverse();
    assert(point.skip(chunk_bits as int) =~= xs.reverse());
    pushforwards::law_hand_over(indices[i], cs[i], xs.reverse());
    let column = ra_column(cs[i], indices[i], t);
    assert(table(cs, indices, r_cycle).columns[i] == column);
    assert(xs.reverse().reverse().reverse() =~= xs.reverse());
    assert(cs[i].reverse().reverse() =~= cs[i]);
    let f = |c: int| column[c].times(poly::eq_weight(xs.reverse(), c));
    let g = |c: int|
        poly::eq_weight(xs.reverse(), c).times(poly::eq_weight(cs[i], indices[i][c] as int));
    assert forall|c: int| 0 <= c < t implies #[trigger] f(c) == g(c) by {
        F::law_times_comm(column[c], poly::eq_weight(xs.reverse(), c));
    }
    sums::lemma_sum_ext(t as int, f, g);
}

/// The virtualization starts from the dense claim of the read address under its own name, split after
/// the address variables, and the chunk openings must multiply, with the equality of the two cycle
/// points, to where the rounds end.
pub proof fn law_start_and_end<F: Field>(
    acc: Claims<F>,
    indices: Seq<Seq<u32>>,
    log_k: nat,
    log_t: nat,
    chunk_bits: nat,
    xs: Seq<F>,
)
    requires
        ready(acc, indices.len(), log_k, log_t, chunk_bits),
    ensures
        ({
            let d = indices.len();
            let (point, claim) = acc[OpeningId::Virtual(
                VirtualPolynomial::RamRa,
                SumcheckId::RamRaClaimReduction,
            )];
            let r_address = point.take(log_k as int);
            let r_cycle = point.skip(log_k as int);
            let end = output(r_cycle, acc, d, xs);
            &&& claim_chunks(acc, d, log_k, chunk_bits) == chunks(r_address, d, chunk_bits)
            &&& claim_table(acc, indices, log_k, chunk_bits) == table(
                chunks(r_address, d, chunk_bits),
                indices,
                r_cycle,
            )
            &&& end == sums::product(
                d as int,
                |i: int|
                    acc[OpeningId::Committed(
                        CommittedPolynomial::RamRa(i as usize),
                        SumcheckId::RamRaVirtualization,
                    )].1,
            ).times(poly::eq_mle(r_cycle, xs.reverse()))
        }),
{
    let d = indices.len();
    sums::lemma_product_ext(
        d as int,
        |i: int| acc[chunk_id(i)].1,
        |i: int|
            acc[OpeningId::Committed(
                CommittedPolynomial::RamRa(i as usize),
                SumcheckId::RamRaVirtualization,
            )].1,
    );
}

} // verus!
