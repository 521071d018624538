//! The address phase of the instruction read check.
//!
//! A lookup index is too wide for a dense table of values, so the values are decomposed: a chunk of
//! address bits at a time, the value of a lookup is a sum of products of a prefix, which depends on
//! the bits bound so far and on the chunk, and a suffix, which depends on the bits below it. Within
//! a chunk the lookups are collected into columns over the chunk's values, and the chunk is folded
//! from its most significant bit downwards. At its end the bound prefixes become the checkpoints of
//! the next chunk, and every lookup's weight is restricted to the bound bits.
//!
//! The prefixes and suffixes of the operands and of the index itself are built here. Those of the
//! lookup tables come from outside, as plain values.

use crate::field;
use crate::field::Field;
use crate::framework::folding;
use crate::framework::folding::{BilinearModel, BilinearTerm, FoldingSum};
use crate::framework::poly;
use crate::framework::sums;
use crate::framework::univariate;
use crate::framework::univariate::UnivariatePoly;
use crate::zkvm::instruction_lookups::index_bits;
use crate::zkvm::instruction_lookups::lookup_groups;
use crate::zkvm::instruction_lookups::lookup_groups::LookupGroup;
use crate::zkvm::trace::NUM_LOOKUP_TABLES;
use vstd::arithmetic::power2::pow2;
use vstd::prelude::*;

verus! {

/// The number of address bits bound in one phase.
pub const ADDRESS_CHUNK_BITS: usize = 8;

/// The number of values of a chunk.
pub const CHUNK_SIZE: usize = 256;

/// The bound prefixes of the operands and of the index.
#[derive(Debug)]
pub struct Checkpoints<F> {
    pub left: F,
    pub right: F,
    pub identity: F,
}

/// A product of a prefix, if any, and a suffix in the value of a lookup table.
#[derive(Debug)]
pub struct ReadTerm<F> {
    pub coefficient: F,
    pub prefix: Option<usize>,
    pub suffix: usize,
}

/// How a lookup table combines prefixes and suffixes.
#[derive(Debug)]
pub struct TableShape<F> {
    /// The number of suffixes of the table.
    pub suffix_count: usize,
    pub terms: Vec<ReadTerm<F>>,
}

/// A combination of prefixes and suffixes, as mathematical values.
#[verifier::ext_equal]
pub struct ShapeModel<F> {
    pub suffix_count: nat,
    pub terms: Seq<ReadTerm<F>>,
}

impl<F: Field> View for TableShape<F> {
    type V = ShapeModel<F>;

    open spec fn view(&self) -> ShapeModel<F> {
        ShapeModel { suffix_count: self.suffix_count as nat, terms: self.terms@ }
    }
}

/// The combinations of all tables, as mathematical values.
pub open spec fn shapes<F: Field>(tables: Seq<TableShape<F>>) -> Seq<ShapeModel<F>> {
    Seq::new(tables.len(), |t: int| tables[t]@)
}

/// The prefix values and suffix values of the lookup tables in one phase.
#[derive(Debug)]
pub struct PhaseReads<F> {
    /// For every prefix its value at every chunk value, given its checkpoint.
    pub prefix_polys: Vec<Vec<F>>,
    /// For every group the suffixes of its table at the index bits below the chunk.
    pub suffix_values: Vec<Vec<u64>>,
}

/// The value of the chunk of an index above the `below` low bits.
pub open spec fn chunk_value(index: int, below: nat) -> int {
    (index / (pow2(below) as int)) % 256
}

/// What an item adds to the bucket of a chunk value.
pub open spec fn bucket_share<F: Field>(
    at: spec_fn(int) -> int,
    v: spec_fn(int) -> F,
    b: int,
    g: int,
) -> F {
    sums::flagged(at(g) == b, v(g))
}

/// The values of `n` items, summed by the chunk value of the item.
pub open spec fn bucket<F: Field>(n: int, at: spec_fn(int) -> int, v: spec_fn(int) -> F) -> Seq<F> {
    Seq::new(256, |b: int| sums::sum(n, |g: int| bucket_share(at, v, b, g)))
}

/// The prefix of an operand over a chunk of `n` bits: the checkpoint, shifted, and the operand bits
/// of the chunk.
pub open spec fn operand_prefix<F: Field>(checkpoint: F, n: nat, left: bool) -> Seq<F> {
    Seq::new(
        pow2(n),
        |b: int|
            checkpoint.times(F::of_int(pow2(n / 2) as int)).plus(
                F::of_int(index_bits::operand(b, n, left)),
            ),
    )
}

/// The prefix of the index over a chunk of `n` bits: the checkpoint, shifted, and the chunk.
pub open spec fn identity_prefix<F: Field>(checkpoint: F, n: nat) -> Seq<F> {
    Seq::new(
        pow2(n),
        |b: int| checkpoint.times(F::of_int(pow2(n) as int)).plus(F::of_int(b)),
    )
}

/// What a chunk is built from.
#[verifier::ext_equal]
pub struct ChunkInputs<F> {
    pub groups: Seq<LookupGroup<F>>,
    /// The number of index bits below the chunk.
    pub below: nat,
    pub checkpoints: Checkpoints<F>,
    pub gamma: F,
    pub prefixes: Seq<Seq<F>>,
    pub suffixes: Seq<Seq<u64>>,
    pub shapes: Seq<ShapeModel<F>>,
}

impl<F: Field> ChunkInputs<F> {
    /// The index of a group.
    pub open spec fn index(self, g: int) -> int {
        self.groups[g].lookup_index as int
    }

    /// The chunk value of a group.
    pub open spec fn chunk_of(self, g: int) -> int {
        chunk_value(self.index(g), self.below)
    }

    /// The weight of a group times the suffix of column `c`.
    pub open spec fn raf_share(self, c: int, g: int) -> F {
        let w = self.groups[g].phase_u_eval_sum;
        let interleaved = self.groups[g].is_interleaved_operands;
        if c == 4 {
            sums::flagged(interleaved, w.times(F::of_int(pow2(self.below / 2) as int)))
        } else if c == 5 {
            sums::flagged(
                interleaved,
                w.times(F::of_int(index_bits::left_operand(self.index(g), self.below))),
            )
        } else if c == 6 {
            sums::flagged(
                interleaved,
                w.times(F::of_int(index_bits::right_operand(self.index(g), self.below))),
            )
        } else if c == 7 {
            sums::flagged(!interleaved, w.times(F::of_int(pow2(self.below) as int)))
        } else {
            sums::flagged(
                !interleaved,
                w.times(F::of_int(self.index(g) % (pow2(self.below) as int))),
            )
        }
    }

    /// The weight of a group times a suffix of a table, if the group reads that table.
    pub open spec fn suffix_share(self, t: int, s: int, g: int) -> F {
        sums::flagged(
            self.groups[g].lookup_table_index == Some(t as usize),
            self.groups[g].phase_u_eval_sum.times(F::of_int(self.suffixes[g][s] as int)),
        )
    }

    /// Suffix column `c` of the operands and of the index.
    pub open spec fn raf_bucket(self, c: int) -> Seq<F> {
        bucket(
            self.groups.len() as int,
            |g: int| self.chunk_of(g),
            |g: int| self.raf_share(c, g),
        )
    }

    /// A suffix column of a table.
    pub open spec fn suffix_bucket(self, t: int, s: int) -> Seq<F> {
        bucket(
            self.groups.len() as int,
            |g: int| self.chunk_of(g),
            |g: int| self.suffix_share(t, s, g),
        )
    }

    /// The columns of the operands and of the index: the ones, the prefixes and the suffixes.
    pub open spec fn raf_columns(self) -> Seq<Seq<F>> {
        seq![
            Seq::new(256, |b: int| F::of_int(1)),
            operand_prefix(self.checkpoints.left, 8, true),
            operand_prefix(self.checkpoints.right, 8, false),
            identity_prefix(self.checkpoints.identity, 8),
            self.raf_bucket(4),
            self.raf_bucket(5),
            self.raf_bucket(6),
            self.raf_bucket(7),
            self.raf_bucket(8),
        ]
    }

    /// The products of the operands and of the index.
    pub open spec fn raf_terms(self) -> Seq<BilinearTerm<F>> {
        let g = self.gamma;
        let g2 = g.times(g);
        seq![
            BilinearTerm { coefficient: g, left: 1, right: 4 },
            BilinearTerm { coefficient: g, left: 0, right: 5 },
            BilinearTerm { coefficient: g2, left: 2, right: 4 },
            BilinearTerm { coefficient: g2, left: 0, right: 6 },
            BilinearTerm { coefficient: g2, left: 3, right: 7 },
            BilinearTerm { coefficient: g2, left: 0, right: 8 },
        ]
    }

    /// All columns, with the suffix columns of the first `n` tables.
    pub open spec fn columns(self, n: int) -> Seq<Seq<F>>
        decreases n,
    {
        if n <= 0 {
            self.raf_columns() + self.prefixes
        } else {
            self.columns(n - 1) + Seq::new(
                self.shapes[n - 1].suffix_count,
                |s: int| self.suffix_bucket(n - 1, s),
            )
        }
    }

    /// A product of a table as a product of columns, its suffix columns starting at `from`.
    pub open spec fn read_term(self, term: ReadTerm<F>, from: int) -> BilinearTerm<F> {
        BilinearTerm {
            coefficient: term.coefficient,
            left: match term.prefix {
                Some(p) => (9 + p) as usize,
                None => 0usize,
            },
            right: (from + term.suffix) as usize,
        }
    }

    /// All products, with those of the first `n` tables.
    pub open spec fn terms(self, n: int) -> Seq<BilinearTerm<F>>
        decreases n,
    {
        if n <= 0 {
            self.raf_terms()
        } else {
            self.terms(n - 1) + Seq::new(
                self.shapes[n - 1].terms.len(),
                |k: int|
                    self.read_term(
                        self.shapes[n - 1].terms[k],
                        self.columns(n - 1).len() as int,
                    ),
            )
        }
    }

    /// The sum over the chunk.
    pub open spec fn sum(self) -> BilinearModel<F> {
        let n = self.shapes.len() as int;
        BilinearModel { columns: self.columns(n), terms: self.terms(n) }
    }

    /// The parts fit together.
    pub open spec fn wf(self) -> bool {
        &&& self.below % 2 == 0
        &&& self.below <= 120
        &&& self.shapes.len() == NUM_LOOKUP_TABLES
        &&& self.columns(self.shapes.len() as int).len() <= usize::MAX
        &&& forall|p: int|
            0 <= p < self.prefixes.len() ==> (#[trigger] self.prefixes[p]).len() == 256
        &&& self.suffixes.len() == self.groups.len()
        &&& forall|g: int|
            0 <= g < self.groups.len() ==> match (
                #[trigger] self.groups[g]
            ).lookup_table_index {
                Some(t) => t < NUM_LOOKUP_TABLES && self.suffixes[g].len()
                    == self.shapes[t as int].suffix_count,
                None => true,
            }
        &&& forall|t: int, k: int|
            0 <= t < self.shapes.len() && 0 <= k < self.shapes[t].terms.len() ==> term_fits(
                #[trigger] self.shapes[t].terms[k],
                self.prefixes.len(),
                self.shapes[t].suffix_count,
            )
    }
}

/// A product names an existing prefix and an existing suffix.
pub open spec fn term_fits<F: Field>(term: ReadTerm<F>, prefixes: nat, suffix_count: nat) -> bool {
    &&& term.suffix < suffix_count
    &&& term.prefix is Some ==> term.prefix->0 < prefixes
}

/// The prefix of an operand over a chunk.
pub fn operand_prefix_poly<F: Field>(checkpoint: F, chunk_bits: usize, left: bool) -> (r: Vec<F>)
    requires
        pow2(chunk_bits as nat) <= usize::MAX,
        chunk_bits % 2 == 0,
    ensures
        r@ == operand_prefix(checkpoint, chunk_bits as nat, left),
{
    proof {
        lemma_word_bits(chunk_bits as nat);
        poly::lemma_pow2_monotone((chunk_bits / 2) as nat, chunk_bits as nat);
    }
    let size: usize = poly::power_of_two(chunk_bits);
    let shift: F = F::from_u64(poly::power_of_two(chunk_bits / 2) as u64);
    let high: F = checkpoint.mul(shift);
    let ghost whole = operand_prefix(checkpoint, chunk_bits as nat, left);
    let mut out: Vec<F> = Vec::new();
    for b in 0..size
        invariant
            size == pow2(chunk_bits as nat),
            chunk_bits < 64,
            chunk_bits % 2 == 0,
            high == checkpoint.times(F::of_int(pow2((chunk_bits / 2) as nat) as int)),
            whole == operand_prefix(checkpoint, chunk_bits as nat, left),
            out@ == whole.take(b as int),
    {
        let (l, r) = index_bits::uninterleave_bits(b as u128);
        proof {
            lemma_operand_below(b as int, chunk_bits as nat);
        }
        let bits: u64 = if left {
            l
        } else {
            r
        };
        out.push(high.add(F::from_u64(bits)));
        assert(out@ =~= whole.take(b + 1));
    }
    assert(out@ =~= whole);
    out
}

/// A power of two that fits into a machine word has an exponent below the word size.
proof fn lemma_word_bits(n: nat)
    requires
        pow2(n) <= usize::MAX,
    ensures
        n < 64,
{
    vstd::arithmetic::power2::lemma2_to64();
    if n >= 64 {
        poly::lemma_pow2_monotone(64, n);
    }
}

/// The operands of a number of `n` bits do not depend on how many higher bits are read.
pub proof fn lemma_operand_below(x: int, n: nat)
    requires
        0 <= x < pow2(n),
        n % 2 == 0,
        n <= 128,
    ensures
        index_bits::left_operand(x, 128) == index_bits::left_operand(x, n),
        index_bits::right_operand(x, 128) == index_bits::right_operand(x, n),
{
    let m2 = n / 2;
    let m1 = (64 - m2) as nat;
    index_bits::lemma_strided_split(x, 1, 2, m1, m2);
    index_bits::lemma_strided_split(x, 0, 2, m1, m2);
    assert(m1 + m2 == 64);
    assert(2 * m2 == n);
    index_bits::lemma_strided_zero(x, n, 1 + 2 * m2, 2, m1);
    index_bits::lemma_strided_zero(x, n, 0 + 2 * m2, 2, m1);
    assert(0 * pow2(m2) == 0);
}

/// The prefix of the index over a chunk.
pub fn identity_prefix_poly<F: Field>(checkpoint: F, chunk_bits: usize) -> (r: Vec<F>)
    requires
        pow2(chunk_bits as nat) <= usize::MAX,
    ensures
        r@ == identity_prefix(checkpoint, chunk_bits as nat),
{
    let size: usize = poly::power_of_two(chunk_bits);
    let high: F = checkpoint.mul(F::from_u64(size as u64));
    let ghost whole = identity_prefix(checkpoint, chunk_bits as nat);
    let mut out: Vec<F> = Vec::new();
    for b in 0..size
        invariant
            size == pow2(chunk_bits as nat),
            high == checkpoint.times(F::of_int(pow2(chunk_bits as nat) as int)),
            whole == identity_prefix(checkpoint, chunk_bits as nat),
            out@ == whole.take(b as int),
    {
        out.push(high.add(F::from_u64(b as u64)));
        assert(out@ =~= whole.take(b + 1));
    }
    assert(out@ =~= whole);
    out
}

/// The equality polynomial at a point and a number of as many bits, most significant first.
pub fn eq_eval_at_bits<F: Field>(point: &[F], bits: u128) -> (r: F)
    ensures
        r == poly::eq_weight(point@, bits as int),
{
    let n: usize = point.len();
    let one: F = field::one();
    let mut rest: u128 = bits;
    let mut out: F = one;
    let mut i: usize = n;
    proof {
        assert(point@.take(n as int) =~= point@);
        poly::lemma_eq_weight_valid(point@, bits as int);
        F::law_times_one(poly::eq_weight(point@, bits as int));
        F::law_of_int_valid(1);
    }
    while i > 0
        invariant
            i <= n,
            n == point@.len(),
            one == F::of_int(1),
            poly::eq_weight(point@, bits as int) == poly::eq_weight(
                point@.take(i as int),
                rest as int,
            ).times(out),
            out.valid(),
        decreases i,
    {
        i = i - 1;
        let x: F = point[i];
        let factor: F = if rest % 2 == 1 {
            x
        } else {
            one.sub(x)
        };
        proof {
            let r = point@.take(i + 1);
            assert(r.drop_last() =~= point@.take(i as int));
            assert(r.last() == x);
            F::law_times_assoc(
                poly::eq_weight(r.drop_last(), rest as int / 2),
                factor,
                out,
            );
            F::law_valid(factor, out);
        }
        out = factor.mul(out);
        rest = rest / 2;
    }
    proof {
        field::lemma_one_times(out);
    }
    out
}

fn bucket_column<F: Field>(
    values: &Vec<F>,
    chunks: &Vec<usize>,
    Ghost(at): Ghost<spec_fn(int) -> int>,
    Ghost(v): Ghost<spec_fn(int) -> F>,
) -> (r: Vec<F>)
    requires
        values@.len() == chunks@.len(),
        forall|g: int| 0 <= g < values@.len() ==> #[trigger] values@[g] == v(g),
        forall|g: int| 0 <= g < chunks@.len() ==> #[trigger] chunks@[g] == at(g) && chunks@[g] < 256,
    ensures
        r@ == bucket(values@.len() as int, at, v),
{
    let mut out: Vec<F> = poly::zeros(CHUNK_SIZE);
    let n: usize = values.len();
    assert(out@ =~= bucket(0, at, v)) by {
        assert forall|b: int| 0 <= b < 256 implies out@[b] == #[trigger] bucket(0, at, v)[b] by {
            assert(sums::sum(0, |g: int| bucket_share(at, v, b, g)) == F::of_int(0));
        }
    }
    for g in 0..n
        invariant
            n == values@.len(),
            n == chunks@.len(),
            forall|g: int| 0 <= g < values@.len() ==> #[trigger] values@[g] == v(g),
            forall|g: int|
                0 <= g < chunks@.len() ==> #[trigger] chunks@[g] == at(g) && chunks@[g] < 256,
            out@.len() == 256,
            out@ == bucket(g as int, at, v),
    {
        let ghost before = out@;
        let b: usize = chunks[g];
        assert(values@[g as int] == v(g as int));
        let next: F = out[b].add(values[g]);
        out.set(b, next);
        proof {
            let after = bucket(g + 1, at, v);
            assert forall|c: int| 0 <= c < 256 implies out@[c] == #[trigger] after[c] by {
                let f = |h: int| bucket_share(at, v, c, h);
                assert(before[c] == sums::sum(g as int, f));
                sums::lemma_sum_valid(g as int, f);
                F::law_plus_zero(sums::sum(g as int, f));
            }
            assert(out@ =~= after);
        }
    }
    out
}

/// The phase machine, as mathematical values.
#[verifier::ext_equal]
pub struct PhaseState<F> {
    pub gamma: F,
    pub scale: F,
    pub log_k: nat,
    /// The challenges bound so far.
    pub challenges: Seq<F>,
    pub groups: Seq<LookupGroup<F>>,
    pub checkpoints: Checkpoints<F>,
    pub prefix_checkpoints: Seq<F>,
    /// The sum over the open chunk.
    pub chunk: Option<BilinearModel<F>>,
}

/// The groups with their weights restricted to a bound chunk.
pub open spec fn restricted<F: Field>(
    groups: Seq<LookupGroup<F>>,
    below: nat,
    r: Seq<F>,
) -> Seq<LookupGroup<F>> {
    Seq::new(
        groups.len(),
        |g: int|
            LookupGroup {
                phase_u_eval_sum: groups[g].phase_u_eval_sum.times(
                    poly::eq_weight(r, chunk_value(groups[g].lookup_index as int, below)),
                ),
                ..groups[g]
            },
    )
}

impl<F: Field> PhaseState<F> {
    /// The number of index bits below the current chunk.
    pub open spec fn below(self) -> nat {
        (self.log_k - (self.challenges.len() / 8 + 1) * 8) as nat
    }

    /// What the next chunk is built from, given the values of the lookup tables.
    pub open spec fn inputs(
        self,
        prefixes: Seq<Seq<F>>,
        suffixes: Seq<Seq<u64>>,
        shapes: Seq<ShapeModel<F>>,
    ) -> ChunkInputs<F> {
        ChunkInputs {
            groups: self.groups,
            below: self.below(),
            checkpoints: self.checkpoints,
            gamma: self.gamma,
            prefixes,
            suffixes,
            shapes,
        }
    }

    /// The machine with the next chunk open.
    pub open spec fn opened(self, sum: BilinearModel<F>) -> PhaseState<F> {
        PhaseState { chunk: Some(sum), ..self }
    }

    /// The next message under a claim: the quadratic polynomial in the leading bit of the open chunk
    /// that adds up to the claim.
    pub open spec fn message(self, claim: F) -> Seq<F> {
        univariate::hinted(
            claim,
            self.chunk->0.bind(F::of_int(0)).total().times(self.scale),
            self.chunk->0.bind(F::of_int(2)).total().times(self.scale),
        )
    }

    /// The machine after one more challenge. The last challenge of a chunk closes it.
    pub open spec fn bind(self, x: F) -> PhaseState<F> {
        let m = self.chunk->0.bind(x);
        let challenges = self.challenges.push(x);
        if challenges.len() % 8 == 0 {
            PhaseState {
                challenges,
                groups: restricted(
                    self.groups,
                    self.below(),
                    challenges.skip(challenges.len() - 8),
                ),
                checkpoints: Checkpoints {
                    left: m.columns[1][0],
                    right: m.columns[2][0],
                    identity: m.columns[3][0],
                },
                prefix_checkpoints: Seq::new(
                    self.prefix_checkpoints.len(),
                    |p: int| m.columns[9 + p][0],
                ),
                chunk: None,
                ..self
            }
        } else {
            PhaseState { challenges, chunk: Some(m), ..self }
        }
    }

    /// The sizes fit, and an open chunk has one variable per remaining bit of the chunk.
    pub open spec fn wf(self) -> bool {
        &&& self.log_k % 8 == 0
        &&& self.log_k <= 128
        &&& self.challenges.len() <= self.log_k
        &&& match self.chunk {
            Some(m) => {
                &&& self.challenges.len() < self.log_k
                &&& m.shaped((8 - self.challenges.len() % 8) as nat)
                &&& m.columns.len() >= 9 + self.prefix_checkpoints.len()
            },
            None => self.challenges.len() % 8 == 0,
        }
    }
}

/// Columns are only added.
pub proof fn lemma_columns_grow<F: Field>(inp: ChunkInputs<F>, a: int, b: int)
    requires
        0 <= a <= b,
    ensures
        inp.columns(a).len() <= inp.columns(b).len(),
        inp.columns(a).len() >= 9 + inp.prefixes.len(),
        forall|c: int|
            0 <= c < inp.columns(a).len() ==> #[trigger] inp.columns(a)[c] == inp.columns(b)[c],
    decreases b,
{
    if a < b {
        lemma_columns_grow(inp, a, b - 1);
    } else if b > 0 {
        lemma_columns_grow(inp, a - 1, b - 1);
    }
}

/// Every column has one entry per chunk value.
pub proof fn lemma_columns_sized<F: Field>(inp: ChunkInputs<F>, n: int)
    requires
        inp.wf(),
        0 <= n <= inp.shapes.len(),
    ensures
        forall|c: int| 0 <= c < inp.columns(n).len() ==> (#[trigger] inp.columns(n)[c]).len() == 256,
    decreases n,
{
    vstd::arithmetic::power2::lemma2_to64();
    if n > 0 {
        lemma_columns_sized(inp, n - 1);
        let before = inp.columns(n - 1);
        assert forall|c: int| 0 <= c < inp.columns(n).len() implies (#[trigger] inp.columns(
            n,
        )[c]).len() == 256 by {
            if c < before.len() {
                assert(inp.columns(n)[c] == before[c]);
            } else {
                assert(inp.columns(n)[c] == inp.suffix_bucket(n - 1, c - before.len()));
            }
        }
    } else {
        let raf = inp.raf_columns();
        assert forall|c: int| 0 <= c < inp.columns(0).len() implies (#[trigger] inp.columns(
            0,
        )[c]).len() == 256 by {
            if c < 9 {
                assert(inp.columns(0)[c] == raf[c]);
            } else {
                assert(inp.columns(0)[c] == inp.prefixes[c - 9]);
            }
        }
    }
}

/// Every product names existing columns.
pub proof fn lemma_terms_fit<F: Field>(inp: ChunkInputs<F>, n: int)
    requires
        inp.wf(),
        0 <= n <= inp.shapes.len(),
    ensures
        forall|k: int|
            0 <= k < inp.terms(n).len() ==> (#[trigger] inp.terms(n)[k]).left
                < inp.columns(n).len() && inp.terms(n)[k].right < inp.columns(n).len(),
    decreases n,
{
    lemma_columns_grow(inp, n, inp.shapes.len() as int);
    lemma_columns_grow(inp, 0, n);
    if n > 0 {
        lemma_terms_fit(inp, n - 1);
        lemma_columns_grow(inp, n - 1, n);
        let t = n - 1;
        let before = inp.terms(n - 1);
        assert forall|k: int| 0 <= k < inp.terms(n).len() implies (#[trigger] inp.terms(n)[k]).left
            < inp.columns(n).len() && inp.terms(n)[k].right < inp.columns(n).len() by {
            if k < before.len() {
                assert(inp.terms(n)[k] == before[k]);
            } else {
                let term = inp.shapes[t].terms[k - before.len()];
                assert(term_fits(term, inp.prefixes.len(), inp.shapes[t].suffix_count));
                assert(inp.terms(n)[k] == inp.read_term(term, inp.columns(n - 1).len() as int));
            }
        }
    }
}

/// The sum over a chunk has one variable per bit of the chunk.
pub proof fn lemma_sum_shaped<F: Field>(inp: ChunkInputs<F>)
    requires
        inp.wf(),
    ensures
        inp.sum().shaped(8),
{
    vstd::arithmetic::power2::lemma2_to64();
    lemma_columns_sized(inp, inp.shapes.len() as int);
    lemma_terms_fit(inp, inp.shapes.len() as int);
}

/// The phase machine: it drives the address rounds of the instruction read check.
#[derive(Debug)]
pub struct InstructionAddressPhase<F> {
    pub gamma: F,
    pub active_scale: F,
    pub log_k: usize,
    pub address_challenges: Vec<F>,
    pub groups: Vec<LookupGroup<F>>,
    pub groups_by_table: Vec<Vec<usize>>,
    pub checkpoints: Checkpoints<F>,
    pub read_prefix_checkpoints: Vec<F>,
    pub chunk: Option<FoldingSum<F>>,
}

impl<F: Field> View for InstructionAddressPhase<F> {
    type V = PhaseState<F>;

    open spec fn view(&self) -> PhaseState<F> {
        PhaseState {
            gamma: self.gamma,
            scale: self.active_scale,
            log_k: self.log_k as nat,
            challenges: self.address_challenges@,
            groups: self.groups@,
            checkpoints: self.checkpoints,
            prefix_checkpoints: self.read_prefix_checkpoints@,
            chunk: match self.chunk {
                Some(sum) => Some(sum@),
                None => None,
            },
        }
    }
}

/// Two to a power.
fn power_u128(n: usize) -> (r: u128)
    requires
        n < 128,
    ensures
        r == pow2(n as nat),
{
    let mut out: u128 = 1;
    proof {
        poly::lemma_pow2_zero();
    }
    for i in 0..n
        invariant
            n < 128,
            out == pow2(i as nat),
    {
        proof {
            poly::lemma_pow2_step((i + 1) as nat);
            poly::lemma_pow2_monotone((i + 1) as nat, 127);
            lemma_pow2_127();
        }
        out = out * 2;
    }
    out
}

proof fn lemma_pow2_127()
    ensures
        pow2(127) == 0x8000_0000_0000_0000_0000_0000_0000_0000,
        pow2(120) <= i128::MAX,
{
    vstd::arithmetic::power2::lemma2_to64();
    poly::lemma_pow2_concat(64, 64);
    poly::lemma_pow2_step(128);
    poly::lemma_pow2_monotone(120, 126);
    poly::lemma_pow2_step(127);
    assert(0x1_0000_0000_0000_0000 * 0x1_0000_0000_0000_0000
        == 0x1_0000_0000_0000_0000_0000_0000_0000_0000) by (nonlinear_arith);
}

impl<F: Field> InstructionAddressPhase<F> {
    /// The groups of every table are known, and the machine is well formed.
    pub open spec fn wf(self) -> bool {
        &&& self@.wf()
        &&& self.groups_by_table@.len() == NUM_LOOKUP_TABLES
        &&& forall|t: int|
            0 <= t < NUM_LOOKUP_TABLES ==> (#[trigger] self.groups_by_table@[t])@
                == lookup_groups::members(self.groups@, t, self.groups@.len() as int)
    }

    /// Start the phase machine over indices of `2 * xlen` bits, the table prefixes at the given
    /// first checkpoints.
    pub fn new(
        xlen: usize,
        groups: Vec<LookupGroup<F>>,
        groups_by_table: Vec<Vec<usize>>,
        gamma: F,
        active_scale: F,
        read_prefix_checkpoints: Vec<F>,
    ) -> (r: Self)
        requires
            xlen % 4 == 0,
            xlen <= 64,
            groups_by_table@.len() == NUM_LOOKUP_TABLES,
            forall|t: int|
                0 <= t < NUM_LOOKUP_TABLES ==> (#[trigger] groups_by_table@[t])@
                    == lookup_groups::members(groups@, t, groups@.len() as int),
        ensures
            r.wf(),
            r@ == (PhaseState {
                gamma,
                scale: active_scale,
                log_k: (2 * xlen) as nat,
                challenges: Seq::empty(),
                groups: groups@,
                checkpoints: Checkpoints {
                    left: F::of_int(0),
                    right: F::of_int(0),
                    identity: F::of_int(0),
                },
                prefix_checkpoints: read_prefix_checkpoints@,
                chunk: None,
            }),
    {
        InstructionAddressPhase {
            gamma,
            active_scale,
            log_k: 2 * xlen,
            address_challenges: Vec::new(),
            groups,
            groups_by_table,
            checkpoints: Checkpoints {
                left: field::zero(),
                right: field::zero(),
                identity: field::zero(),
            },
            read_prefix_checkpoints,
            chunk: None,
        }
    }

    /// The number of address rounds.
    pub fn num_address_rounds(&self) -> (r: usize)
        ensures
            r == self@.log_k,
    {
        self.log_k
    }

    /// The challenges bound so far.
    pub fn address_challenges(&self) -> (r: &Vec<F>)
        ensures
            r@ == self@.challenges,
    {
        &self.address_challenges
    }

    /// The next message: the quadratic polynomial in the leading bit of the open chunk that adds up
    /// to the claim.
    pub fn round_poly(&self, previous_claim: F) -> (r: UnivariatePoly<F>)
        requires
            self.wf(),
            self@.chunk is Some,
        ensures
            r@ == self@.message(previous_claim),
    {
        match &self.chunk {
            Some(sum) => {
                proof {
                    let m = sum@;
                    assert forall|k: int| 0 <= k < m.terms.len() implies (#[trigger] m.terms[k]).left
                        < m.columns.len() && m.terms[k].right < m.columns.len()
                        && m.columns[m.terms[k].left as int].len()
                        == m.columns[m.terms[k].right as int].len() by {
                        let n = (8 - self@.challenges.len() % 8) as nat;
                        assert(m.columns[m.terms[k].left as int].len() == pow2(n));
                        assert(m.columns[m.terms[k].right as int].len() == pow2(n));
                    }
                }
                sum.message(self.active_scale, previous_claim)
            },
            None => UnivariatePoly::new(Vec::new()),
        }
    }

    fn chunk_values(&self, below: usize) -> (r: Vec<usize>)
        requires
            below <= 120,
        ensures
            r@.len() == self.groups@.len(),
            forall|g: int|
                0 <= g < r@.len() ==> #[trigger] r@[g] == chunk_value(
                    self.groups@[g].lookup_index as int,
                    below as nat,
                ) && r@[g] < 256,
    {
        let place: u128 = power_u128(below);
        proof {
            vstd::arithmetic::power2::lemma_pow2_pos(below as nat);
        }
        let mut out: Vec<usize> = Vec::new();
        for g in 0..self.groups.len()
            invariant
                place == pow2(below as nat),
                place > 0,
                out@.len() == g,
                forall|h: int|
                    0 <= h < g ==> #[trigger] out@[h] == chunk_value(
                        self.groups@[h].lookup_index as int,
                        below as nat,
                    ) && out@[h] < 256,
        {
            let value: u128 = (self.groups[g].lookup_index / place) % 256;
            out.push(value as usize);
        }
        out
    }

    /// The weights of the groups times their suffixes in column `c`.
    fn raf_values(&self, below: usize, c: usize, Ghost(inp): Ghost<ChunkInputs<F>>) -> (r: Vec<F>)
        requires
            below <= 120,
            below % 2 == 0,
            4 <= c <= 8,
            inp.groups == self.groups@,
            inp.below == below,
        ensures
            r@.len() == self.groups@.len(),
            forall|g: int| 0 <= g < r@.len() ==> #[trigger] r@[g] == inp.raf_share(c as int, g),
    {
        let place: u128 = power_u128(below);
        let half_place: u128 = power_u128(below / 2);
        proof {
            vstd::arithmetic::power2::lemma_pow2_pos(below as nat);
            poly::lemma_pow2_monotone(below as nat, 120);
            poly::lemma_pow2_monotone((below / 2) as nat, 60);
            poly::lemma_pow2_monotone(60, 64);
            lemma_pow2_127();
            vstd::arithmetic::power2::lemma2_to64();
            poly::lemma_pow2_step(64);
            poly::lemma_pow2_monotone(60, 63);
        }
        let mut out: Vec<F> = Vec::new();
        for g in 0..self.groups.len()
            invariant
                below <= 120,
                below % 2 == 0,
                4 <= c <= 8,
                inp.groups == self.groups@,
                inp.below == below,
                place == pow2(below as nat),
                0 < place <= i128::MAX,
                half_place == pow2((below / 2) as nat),
                half_place <= u64::MAX,
                out@.len() == g,
                forall|h: int| 0 <= h < g ==> #[trigger] out@[h] == inp.raf_share(c as int, h),
        {
            let group: &LookupGroup<F> = &self.groups[g];
            let low: u128 = group.lookup_index % place;
            let (left, right) = index_bits::uninterleave_bits(low);
            proof {
                let x = group.lookup_index as int;
                let m = (below / 2) as nat;
                lemma_operand_below(low as int, below as nat);
                assert(1 + 2 * (m - 1) < below || m == 0);
                index_bits::lemma_strided_low(x, below as nat, 1, 2, m);
                index_bits::lemma_strided_low(x, below as nat, 0, 2, m);
            }
            let w: F = group.phase_u_eval_sum;
            let counts: bool = if c <= 6 {
                group.is_interleaved_operands
            } else {
                !group.is_interleaved_operands
            };
            let suffix: F = if c == 4 {
                F::from_u64(half_place as u64)
            } else if c == 5 {
                F::from_u64(left)
            } else if c == 6 {
                F::from_u64(right)
            } else if c == 7 {
                F::from_i128(place as i128)
            } else {
                F::from_i128(low as i128)
            };
            if counts {
                out.push(w.mul(suffix));
            } else {
                out.push(field::zero());
            }
            assert(out@[g as int] == inp.raf_share(c as int, g as int));
        }
        out
    }

    /// The weights of the groups times a suffix of the table that they read.
    fn suffix_values(
        &self,
        suffix_values: &Vec<Vec<u64>>,
        t: usize,
        s: usize,
        Ghost(inp): Ghost<ChunkInputs<F>>,
    ) -> (r: Vec<F>)
        requires
            self.wf(),
            t < NUM_LOOKUP_TABLES,
            inp.groups == self.groups@,
            inp.suffixes == poly::contents(suffix_values@),
            inp.wf(),
            s < inp.shapes[t as int].suffix_count,
        ensures
            r@.len() == self.groups@.len(),
            forall|g: int|
                0 <= g < r@.len() ==> #[trigger] r@[g] == inp.suffix_share(t as int, s as int, g),
    {
        let n: usize = self.groups.len();
        let mut out: Vec<F> = poly::zeros(n);
        let list: &Vec<usize> = &self.groups_by_table[t];
        let ghost ms = lookup_groups::members(self.groups@, t as int, n as int);
        proof {
            assert(self.groups_by_table@[t as int]@ == ms);
            lookup_groups::lemma_members_in_range(self.groups@, t as int, n as int);
        }
        for i in 0..list.len()
            invariant
                n == self.groups@.len(),
                out@.len() == n,
                list@ == ms,
                t < NUM_LOOKUP_TABLES,
                inp.groups == self.groups@,
                inp.suffixes == poly::contents(suffix_values@),
                inp.wf(),
                s < inp.shapes[t as int].suffix_count,
                forall|i: int|
                    0 <= i < ms.len() ==> #[trigger] ms[i] < n
                        && self.groups@[ms[i] as int].lookup_table_index == Some(t),
                forall|a: int|
                    0 <= a < i ==> out@[#[trigger] ms[a] as int] == inp.suffix_share(
                        t as int,
                        s as int,
                        ms[a] as int,
                    ),
                forall|g: int|
                    0 <= g < n && self.groups@[g].lookup_table_index != Some(t)
                        ==> #[trigger] out@[g] == F::of_int(0),
        {
            let g: usize = list[i];
            proof {
                assert(ms[i as int] == g);
                assert(inp.groups[g as int].lookup_table_index == Some(t));
                assert(inp.suffixes[g as int].len() == inp.shapes[t as int].suffix_count);
                assert(poly::contents(suffix_values@)[g as int] == suffix_values@[g as int]@);
            }
            let value: F = self.groups[g].phase_u_eval_sum.mul(F::from_u64(suffix_values[g][s]));
            assert(value == inp.suffix_share(t as int, s as int, g as int));
            out.set(g, value);
        }
        proof {
            assert forall|g: int| 0 <= g < n implies #[trigger] out@[g] == inp.suffix_share(
                t as int,
                s as int,
                g,
            ) by {
                if self.groups@[g].lookup_table_index == Some(t) {
                    lookup_groups::lemma_members_complete(self.groups@, t as int, n as int, g);
                    let a = choose|a: int| 0 <= a < ms.len() && ms[a] == g as usize;
                    assert(out@[ms[a] as int] == inp.suffix_share(t as int, s as int, g));
                }
            }
        }
        out
    }

    /// The columns and products of the operands and of the index, and the table prefixes.
    fn raf_chunk(
        &self,
        prefix_polys: Vec<Vec<F>>,
        chunks: &Vec<usize>,
        below: usize,
        Ghost(inp): Ghost<ChunkInputs<F>>,
    ) -> (r: FoldingSum<F>)
        requires
            inp.wf(),
            inp.groups == self.groups@,
            inp.below == below,
            inp.checkpoints == self.checkpoints,
            inp.gamma == self.gamma,
            inp.prefixes == poly::contents(prefix_polys@),
            chunks@.len() == self.groups@.len(),
            forall|g: int|
                0 <= g < chunks@.len() ==> #[trigger] chunks@[g] == inp.chunk_of(g) && chunks@[g]
                    < 256,
        ensures
            r@.columns == inp.columns(0),
            r@.terms == inp.terms(0),
    {
        let ghost n = self.groups@.len() as int;
        let ghost at = |g: int| inp.chunk_of(g);
        let mut columns: Vec<Vec<F>> = Vec::new();
        let mut ones: Vec<F> = Vec::new();
        for b in 0..CHUNK_SIZE
            invariant
                ones@ == Seq::new(b as nat, |b: int| F::of_int(1)),
        {
            ones.push(field::one());
            assert(ones@ =~= Seq::new((b + 1) as nat, |b: int| F::of_int(1)));
        }
        columns.push(ones);
        proof {
            vstd::arithmetic::power2::lemma2_to64();
        }
        columns.push(operand_prefix_poly(self.checkpoints.left, ADDRESS_CHUNK_BITS, true));
        columns.push(operand_prefix_poly(self.checkpoints.right, ADDRESS_CHUNK_BITS, false));
        columns.push(identity_prefix_poly(self.checkpoints.identity, ADDRESS_CHUNK_BITS));
        assert(poly::contents(columns@) =~= inp.raf_columns().take(4));
        for c in 4..9usize
            invariant
                inp.wf(),
                inp.groups == self.groups@,
                inp.below == below,
                n == self.groups@.len(),
                at == (|g: int| inp.chunk_of(g)),
                chunks@.len() == self.groups@.len(),
                forall|g: int|
                    0 <= g < chunks@.len() ==> #[trigger] chunks@[g] == inp.chunk_of(g)
                        && chunks@[g] < 256,
                poly::contents(columns@) == inp.raf_columns().take(c as int),
        {
            let ghost before = columns@;
            let ghost v = |g: int| inp.raf_share(c as int, g);
            let values: Vec<F> = self.raf_values(below, c, Ghost(inp));
            let column: Vec<F> = bucket_column(&values, chunks, Ghost(at), Ghost(v));
            assert(column@ == inp.raf_bucket(c as int));
            columns.push(column);
            assert(poly::contents(columns@) =~= poly::contents(before).push(column@));
            assert(inp.raf_columns()[c as int] == inp.raf_bucket(c as int));
            assert(inp.raf_columns().take(c + 1) =~= inp.raf_columns().take(c as int).push(
                inp.raf_columns()[c as int],
            ));
        }
        let ghost raf = columns@;
        assert(poly::contents(raf) =~= inp.raf_columns());
        let mut rest: Vec<Vec<F>> = prefix_polys;
        columns.append(&mut rest);
        assert(poly::contents(columns@) =~= inp.raf_columns() + inp.prefixes);
        let g: F = self.gamma;
        let g2: F = g.mul(g);
        let terms: Vec<BilinearTerm<F>> = vec![
            BilinearTerm { coefficient: g, left: 1, right: 4 },
            BilinearTerm { coefficient: g, left: 0, right: 5 },
            BilinearTerm { coefficient: g2, left: 2, right: 4 },
            BilinearTerm { coefficient: g2, left: 0, right: 6 },
            BilinearTerm { coefficient: g2, left: 3, right: 7 },
            BilinearTerm { coefficient: g2, left: 0, right: 8 },
        ];
        assert(terms@ =~= inp.raf_terms());
        FoldingSum { columns, terms }
    }

    /// Build the columns and products of the next chunk.
    fn build_chunk(
        &self,
        reads: PhaseReads<F>,
        tables: &Vec<TableShape<F>>,
        below: usize,
        Ghost(inp): Ghost<ChunkInputs<F>>,
    ) -> (r: FoldingSum<F>)
        requires
            self.wf(),
            inp == self@.inputs(
                poly::contents(reads.prefix_polys@),
                poly::contents(reads.suffix_values@),
                shapes(tables@),
            ),
            inp.wf(),
            inp.below == below,
        ensures
            r@ == inp.sum(),
    {
        let chunks: Vec<usize> = self.chunk_values(below);
        let ghost at = |g: int| inp.chunk_of(g);
        let suffixes: Vec<Vec<u64>> = reads.suffix_values;
        let mut sum: FoldingSum<F> = self.raf_chunk(
            reads.prefix_polys,
            &chunks,
            below,
            Ghost(inp),
        );
        for t in 0..tables.len()
            invariant
                self.wf(),
                inp.wf(),
                inp.groups == self.groups@,
                inp.suffixes == poly::contents(suffixes@),
                inp.shapes == shapes(tables@),
                tables@.len() == NUM_LOOKUP_TABLES,
                at == (|g: int| inp.chunk_of(g)),
                chunks@.len() == self.groups@.len(),
                forall|g: int|
                    0 <= g < chunks@.len() ==> #[trigger] chunks@[g] == inp.chunk_of(g)
                        && chunks@[g] < 256,
                sum@.columns == inp.columns(t as int),
                sum@.terms == inp.terms(t as int),
        {
            let from: usize = sum.columns.len();
            let shape: &TableShape<F> = &tables[t];
            let count: usize = shape.suffix_count;
            assert(inp.shapes[t as int] == shape@);
            let ghost start = inp.columns(t as int);
            assert(from == start.len());
            let ghost added = Seq::new(count as nat, |s: int| inp.suffix_bucket(t as int, s));
            assert(start + added.take(0) =~= start);
            for s in 0..count
                invariant
                    self.wf(),
                    inp.wf(),
                    t < NUM_LOOKUP_TABLES,
                    inp.groups == self.groups@,
                    inp.suffixes == poly::contents(suffixes@),
                    inp.shapes[t as int].suffix_count == count,
                    at == (|g: int| inp.chunk_of(g)),
                    chunks@.len() == self.groups@.len(),
                    forall|g: int|
                        0 <= g < chunks@.len() ==> #[trigger] chunks@[g] == inp.chunk_of(g)
                            && chunks@[g] < 256,
                    added == Seq::new(count as nat, |s: int| inp.suffix_bucket(t as int, s)),
                    sum@.columns == start + added.take(s as int),
                    sum@.terms == inp.terms(t as int),
            {
                let ghost before = sum.columns@;
                let ghost v = |g: int| inp.suffix_share(t as int, s as int, g);
                let values: Vec<F> = self.suffix_values(&suffixes, t, s, Ghost(inp));
                let column: Vec<F> = bucket_column(&values, &chunks, Ghost(at), Ghost(v));
                assert(column@ == added[s as int]);
                sum.columns.push(column);
                assert(poly::contents(sum.columns@) =~= poly::contents(before).push(column@));
                assert(added.take(s + 1) =~= added.take(s as int).push(added[s as int]));
                assert(start + added.take(s + 1) =~= (start + added.take(s as int)).push(
                    added[s as int],
                ));
            }
            assert(added.take(count as int) =~= added);
            assert(sum@.columns =~= inp.columns(t + 1));
            let ghost before = inp.terms(t as int);
            let ghost more = Seq::new(
                shape.terms@.len(),
                |k: int| inp.read_term(shape.terms@[k], from as int),
            );
            assert(before + more.take(0) =~= before);
            proof {
                lemma_columns_grow(inp, t + 1, NUM_LOOKUP_TABLES as int);
            }
            for k in 0..shape.terms.len()
                invariant
                    inp.wf(),
                    t < NUM_LOOKUP_TABLES,
                    inp.shapes[t as int] == shape@,
                    from + shape@.suffix_count <= usize::MAX,
                    9 + inp.prefixes.len() <= usize::MAX,
                    more == Seq::new(
                        shape.terms@.len(),
                        |k: int| inp.read_term(shape.terms@[k], from as int),
                    ),
                    sum@.columns == inp.columns(t + 1),
                    sum@.terms == before + more.take(k as int),
            {
                let term: &ReadTerm<F> = &shape.terms[k];
                assert(term_fits(
                    inp.shapes[t as int].terms[k as int],
                    inp.prefixes.len(),
                    inp.shapes[t as int].suffix_count,
                ));
                let left: usize = match term.prefix {
                    Some(p) => 9 + p,
                    None => 0,
                };
                let product: BilinearTerm<F> = BilinearTerm {
                    coefficient: term.coefficient,
                    left,
                    right: from + term.suffix,
                };
                assert(product == more[k as int]);
                let ghost old_terms = sum.terms@;
                sum.terms.push(product);
                assert(more.take(k + 1) =~= more.take(k as int).push(more[k as int]));
                assert(sum@.terms =~= before + more.take(k + 1));
            }
            assert(more.take(shape.terms@.len() as int) =~= more);
            assert(sum@.terms =~= inp.terms(t + 1));
        }
        sum
    }

    /// Open the next chunk with the values of the lookup tables.
    pub fn begin_phase(&mut self, reads: PhaseReads<F>, tables: &Vec<TableShape<F>>)
        requires
            old(self).wf(),
            old(self)@.chunk is None,
            old(self)@.challenges.len() < old(self)@.log_k,
            reads.prefix_polys@.len() == old(self)@.prefix_checkpoints.len(),
            old(self)@.inputs(
                poly::contents(reads.prefix_polys@),
                poly::contents(reads.suffix_values@),
                shapes(tables@),
            ).wf(),
        ensures
            final(self).wf(),
            final(self)@ == old(self)@.opened(
                old(self)@.inputs(
                    poly::contents(reads.prefix_polys@),
                    poly::contents(reads.suffix_values@),
                    shapes(tables@),
                ).sum(),
            ),
    {
        let ghost inp = self@.inputs(
            poly::contents(reads.prefix_polys@),
            poly::contents(reads.suffix_values@),
            shapes(tables@),
        );
        let round: usize = self.address_challenges.len();
        let below: usize = self.log_k - round - ADDRESS_CHUNK_BITS;
        assert(below == inp.below);
        let sum: FoldingSum<F> = self.build_chunk(reads, tables, below, Ghost(inp));
        proof {
            lemma_sum_shaped(inp);
            lemma_columns_grow(inp, 0, NUM_LOOKUP_TABLES as int);
        }
        self.chunk = Some(sum);
    }

    /// Close the chunk: move the checkpoints and restrict the weights.
    fn finish_chunk(&mut self, sum: FoldingSum<F>, below: usize)
        requires
            old(self).log_k <= 128,
            below <= 120,
            old(self).address_challenges@.len() >= 8,
            sum@.columns.len() >= 9 + old(self).read_prefix_checkpoints@.len(),
            sum@.shaped(0),
            old(self).groups_by_table@.len() == NUM_LOOKUP_TABLES,
            forall|t: int|
                0 <= t < NUM_LOOKUP_TABLES ==> (#[trigger] old(self).groups_by_table@[t])@
                    == lookup_groups::members(
                    old(self).groups@,
                    t,
                    old(self).groups@.len() as int,
                ),
        ensures
            final(self).gamma == old(self).gamma,
            final(self).active_scale == old(self).active_scale,
            final(self).log_k == old(self).log_k,
            final(self).address_challenges@ == old(self).address_challenges@,
            final(self).groups@ == restricted(
                old(self).groups@,
                below as nat,
                old(self).address_challenges@.skip(old(self).address_challenges@.len() - 8),
            ),
            final(self).checkpoints == (Checkpoints {
                left: sum@.columns[1][0],
                right: sum@.columns[2][0],
                identity: sum@.columns[3][0],
            }),
            final(self).read_prefix_checkpoints@ == Seq::new(
                old(self).read_prefix_checkpoints@.len(),
                |p: int| sum@.columns[9 + p][0],
            ),
            final(self).chunk is None,
            final(self).groups_by_table@.len() == NUM_LOOKUP_TABLES,
            forall|t: int|
                0 <= t < NUM_LOOKUP_TABLES ==> (#[trigger] final(self).groups_by_table@[t])@
                    == lookup_groups::members(
                    final(self).groups@,
                    t,
                    final(self).groups@.len() as int,
                ),
    {
        let ghost cols = sum@.columns;
        proof {
            poly::lemma_pow2_zero();
            assert forall|c: int| 0 <= c < cols.len() implies #[trigger] cols[c]
                == sum.columns@[c]@ && cols[c].len() == 1 by {}
            assert(cols[1].len() == 1 && cols[2].len() == 1 && cols[3].len() == 1);
        }
        let np: usize = self.read_prefix_checkpoints.len();
        let mut prefix_checkpoints: Vec<F> = Vec::new();
        let column_count: usize = sum.columns.len();
        for p in 0..np
            invariant
                column_count == cols.len(),
                column_count == sum.columns@.len(),
                column_count >= 9 + np,
                forall|c: int|
                    0 <= c < cols.len() ==> #[trigger] cols[c] == sum.columns@[c]@ && cols[c].len()
                        == 1,
                prefix_checkpoints@ == Seq::new(p as nat, |p: int| cols[9 + p][0]),
        {
            assert(cols[9 + p].len() == 1);
            prefix_checkpoints.push(sum.columns[9 + p][0]);
            assert(prefix_checkpoints@ =~= Seq::new((p + 1) as nat, |p: int| cols[9 + p][0]));
        }
        let checkpoints: Checkpoints<F> = Checkpoints {
            left: sum.columns[1][0],
            right: sum.columns[2][0],
            identity: sum.columns[3][0],
        };
        let len: usize = self.address_challenges.len();
        let point: Vec<F> = poly::range(&self.address_challenges, len - 8, len);
        assert(point@ =~= self.address_challenges@.skip(len - 8));
        proof {
            vstd::arithmetic::power2::lemma2_to64();
        }
        let eq: Vec<F> = poly::eq_evals(&point);
        let chunks: Vec<usize> = self.chunk_values(below);
        let ghost whole = restricted(self.groups@, below as nat, point@);
        let mut groups: Vec<LookupGroup<F>> = Vec::new();
        for g in 0..self.groups.len()
            invariant
                eq@ == poly::eq_table(point@),
                eq@.len() == 256,
                chunks@.len() == self.groups@.len(),
                forall|g: int|
                    0 <= g < chunks@.len() ==> #[trigger] chunks@[g] == chunk_value(
                        self.groups@[g].lookup_index as int,
                        below as nat,
                    ) && chunks@[g] < 256,
                whole == restricted(self.groups@, below as nat, point@),
                groups@ == whole.take(g as int),
        {
            let b: usize = chunks[g];
            let old_group: &LookupGroup<F> = &self.groups[g];
            let group: LookupGroup<F> = LookupGroup {
                lookup_index: old_group.lookup_index,
                lookup_table_index: old_group.lookup_table_index,
                is_interleaved_operands: old_group.is_interleaved_operands,
                u_eval_sum: old_group.u_eval_sum,
                phase_u_eval_sum: old_group.phase_u_eval_sum.mul(eq[b]),
            };
            groups.push(group);
            assert(groups@ =~= whole.take(g + 1));
        }
        assert(groups@ =~= whole);
        proof {
            assert forall|t: int| 0 <= t < NUM_LOOKUP_TABLES implies lookup_groups::members(
                groups@,
                t,
                groups@.len() as int,
            ) == (#[trigger] self.groups_by_table@[t])@ by {
                lookup_groups::lemma_members_ext(self.groups@, groups@, t, groups@.len() as int);
            }
        }
        self.checkpoints = checkpoints;
        self.read_prefix_checkpoints = prefix_checkpoints;
        self.groups = groups;
        self.chunk = None;
    }

    /// Bind the leading bit of the open chunk.
    pub fn bind(&mut self, challenge: F)
        requires
            old(self).wf(),
            old(self)@.chunk is Some,
        ensures
            final(self).wf(),
            final(self)@ == old(self)@.bind(challenge),
    {
        let ghost s = self@;
        let round: usize = self.address_challenges.len();
        let ghost n = (8 - round % 8) as nat;
        let mut taken: Option<FoldingSum<F>> = None;
        std::mem::swap(&mut taken, &mut self.chunk);
        self.address_challenges.push(challenge);
        match taken {
            Some(mut sum) => {
                proof {
                    folding::lemma_bind_shaped(sum@, n, challenge);
                }
                sum.bind(challenge);
                if (round + 1) % 8 == 0 {
                    let below: usize = self.log_k - (round + 1);
                    assert(below == s.below());
                    self.finish_chunk(sum, below);
                    assert(self@ =~= s.bind(challenge));
                } else {
                    self.chunk = Some(sum);
                    assert(self@ =~= s.bind(challenge));
                }
            },
            None => {},
        }
    }
}

} // verus!
