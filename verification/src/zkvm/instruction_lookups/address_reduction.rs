//! What the address phase reduces its claim to.
//!
//! Before and after every chunk the claim is the sum over the lookups of the weight of the lookup,
//! restricted to the bits bound so far, times its value with these bits bound. So the chunks join
//! without a seam, and at the end the value of every lookup is that of its operands, of its index and
//! of its table as polynomials at the bound point.

use crate::field;
use crate::field::Field;
use crate::framework::folding;
use crate::framework::poly;
use crate::framework::sums;
use crate::framework::univariate;
use crate::zkvm::instruction_lookups::address_phase;
use crate::zkvm::instruction_lookups::address_phase::{
    Checkpoints, ChunkInputs, PhaseState, ReadTerm, ShapeModel,
};
use crate::zkvm::instruction_lookups::index_bits;
use crate::zkvm::instruction_lookups::lookup_groups::LookupGroup;
use crate::zkvm::instruction_lookups::operand_poly;
use crate::zkvm::trace::NUM_LOOKUP_TABLES;
use vstd::arithmetic::power2::pow2;
use vstd::prelude::*;

verus! {

/// The sum of the products of two columns, with their variables bound to `r` if given.
pub open spec fn dot_at<F: Field>(a: Seq<F>, b: Seq<F>, r: Option<Seq<F>>) -> F {
    match r {
        None => sums::dot(a, b),
        Some(xs) => sums::dot(folding::bind_high_all(a, xs), folding::bind_high_all(b, xs)),
    }
}

/// The value that a lookup in chunk value `b` sees of a prefix: the entry before, the bound value
/// after the chunk.
pub open spec fn held<F: Field>(a: Seq<F>, r: Option<Seq<F>>, b: int) -> F {
    match r {
        None => a[b],
        Some(xs) => poly::mle(a, xs),
    }
}

/// The restriction of the weight of a lookup in chunk value `b`.
pub open spec fn edge<F: Field>(r: Option<Seq<F>>, b: int) -> F {
    match r {
        None => F::of_int(1),
        Some(xs) => poly::eq_weight(xs, b),
    }
}

/// A sum of products with a column of buckets is a sum over the items.
proof fn lemma_dot_bucket<F: Field>(
    a: Seq<F>,
    n: int,
    at: spec_fn(int) -> int,
    v: spec_fn(int) -> F,
)
    requires
        a.len() == 256,
        forall|g: int| 0 <= g < n ==> 0 <= #[trigger] at(g) < 256,
    ensures
        sums::dot(a, address_phase::bucket(n, at, v)) == sums::sum(
            n,
            |g: int| v(g).times(a[at(g)]),
        ),
{
    let p = address_phase::bucket(n, at, v);
    let cell = |b: int, g: int| a[b].times(address_phase::bucket_share(at, v, b, g));
    let left = |b: int| a[b].times(p[b]);
    assert forall|b: int| 0 <= b < 256 implies #[trigger] left(b) == sums::sum(
        n,
        |g: int| cell(b, g),
    ) by {
        let f = |g: int| address_phase::bucket_share(at, v, b, g);
        sums::lemma_sum_scale(n, a[b], f);
        sums::lemma_sum_ext(n, |g: int| a[b].times(f(g)), |g: int| cell(b, g));
    }
    sums::lemma_sum_ext(256, left, |b: int| sums::sum(n, |g: int| cell(b, g)));
    sums::lemma_sum_ext(256, left, |b: int| a[b].times(p[b]));
    sums::lemma_sum_swap(256, n, cell);
    let right = |g: int| v(g).times(a[at(g)]);
    assert forall|g: int| 0 <= g < n implies #[trigger] right(g) == sums::sum(
        256,
        |b: int| cell(b, g),
    ) by {
        let b0 = at(g);
        let f = |b: int| cell(b, g);
        assert forall|b: int| 0 <= b < 256 && b != b0 implies #[trigger] f(b) == F::of_int(0) by {
            field::lemma_zero_times(a[b]);
        }
        F::law_valid(a[b0], v(g));
        sums::lemma_sum_single(256, b0, f);
        sums::lemma_sum_ext(256, f, |b: int| cell(b, g));
        F::law_times_comm(a[b0], v(g));
    }
    sums::lemma_sum_ext(n, right, |g: int| sums::sum(256, |i: int| cell(i, g)));
}

/// A product with a column of buckets, before or after binding, as a sum over the items.
proof fn lemma_reading<F: Field>(
    a: Seq<F>,
    n: int,
    at: spec_fn(int) -> int,
    v: spec_fn(int) -> F,
    r: Option<Seq<F>>,
)
    requires
        a.len() == 256,
        field::all_valid(a),
        forall|g: int| 0 <= g < n ==> 0 <= #[trigger] at(g) < 256,
        r is Some ==> r->0.len() == 8,
    ensures
        dot_at(a, address_phase::bucket(n, at, v), r) == sums::sum(
            n,
            |g: int| v(g).times(held(a, r, at(g)).times(edge(r, at(g)))),
        ),
{
    let p = address_phase::bucket(n, at, v);
    let target = |g: int| v(g).times(held(a, r, at(g)).times(edge(r, at(g))));
    vstd::arithmetic::power2::lemma2_to64();
    match r {
        None => {
            lemma_dot_bucket(a, n, at, v);
            let f = |g: int| v(g).times(a[at(g)]);
            assert forall|g: int| 0 <= g < n implies #[trigger] f(g) == target(g) by {
                F::law_times_one(a[at(g)]);
            }
            sums::lemma_sum_ext(n, f, target);
        },
        Some(xs) => {
            assert forall|b: int| 0 <= b < 256 implies (#[trigger] p[b]).valid() by {
                sums::lemma_sum_valid(n, |g: int| address_phase::bucket_share(at, v, b, g));
            }
            folding::law_bind_high_all(a, xs);
            folding::law_bind_high_all(p, xs);
            let ax = folding::bind_high_all(a, xs);
            let px = folding::bind_high_all(p, xs);
            let ma = poly::mle(a, xs);
            let mp = poly::mle(p, xs);
            let single = |i: int| ax[i].times(px[i]);
            assert(sums::sum(1, single) == sums::sum(0, single).plus(single(0)));
            F::law_valid(ma, mp);
            field::lemma_zero_plus(ma.times(mp));
            assert(sums::dot(ax, px) == ma.times(mp));
            let eq = poly::eq_table(xs);
            lemma_dot_bucket(eq, n, at, v);
            sums::lemma_dot_comm(eq, p);
            let d = |i: int| p[i].times(eq[i]);
            sums::lemma_sum_ext(256, d, |i: int| p[i].times(poly::eq_weight(xs, i)));
            let f = |g: int| v(g).times(eq[at(g)]);
            assert(mp == sums::sum(n, f));
            sums::lemma_sum_scale(n, ma, f);
            let h = |g: int| ma.times(f(g));
            assert forall|g: int| 0 <= g < n implies #[trigger] h(g) == target(g) by {
                field::lemma_times_swap(ma, v(g), eq[at(g)]);
            }
            sums::lemma_sum_ext(n, |g: int| ma.times(f(g)), h);
            sums::lemma_sum_ext(n, h, target);
        },
    }
}

/// The value that a lookup sees of the prefix of a product.
pub open spec fn prefix_held<F: Field>(
    inp: ChunkInputs<F>,
    r: Option<Seq<F>>,
    term: ReadTerm<F>,
    g: int,
) -> F {
    match term.prefix {
        Some(p) => held(inp.prefixes[p as int], r, inp.chunk_of(g)),
        None => F::of_int(1),
    }
}

/// The value of a lookup in table `t`, with the prefixes as it sees them.
pub open spec fn table_value<F: Field>(
    inp: ChunkInputs<F>,
    r: Option<Seq<F>>,
    t: int,
    g: int,
) -> F {
    sums::sum(
        inp.shapes[t].terms.len() as int,
        |k: int| table_part(inp, r, t, g, k),
    )
}

/// One product in the value of a lookup.
pub open spec fn table_part<F: Field>(
    inp: ChunkInputs<F>,
    r: Option<Seq<F>>,
    t: int,
    g: int,
    k: int,
) -> F {
    let term = inp.shapes[t].terms[k];
    term.coefficient.times(
        F::of_int(inp.suffixes[g][term.suffix as int] as int).times(prefix_held(inp, r, term, g)),
    )
}

/// What a lookup reads from its table, zero if it reads none.
pub open spec fn read_value<F: Field>(inp: ChunkInputs<F>, r: Option<Seq<F>>, g: int) -> F {
    match inp.groups[g].lookup_table_index {
        Some(t) => table_value(inp, r, t as int, g),
        None => F::of_int(0),
    }
}

/// The restricted weight of a lookup.
pub open spec fn weight_at<F: Field>(inp: ChunkInputs<F>, r: Option<Seq<F>>, g: int) -> F {
    inp.groups[g].phase_u_eval_sum.times(edge(r, inp.chunk_of(g)))
}

/// The operands of a lookup, or its index, with the leading bits at their checkpoints and `n` bits
/// left.
pub open spec fn raf_value<F: Field>(
    gamma: F,
    ck: Checkpoints<F>,
    index: int,
    interleaved: bool,
    n: nat,
) -> F {
    let g2 = gamma.times(gamma);
    if interleaved {
        let half = F::of_int(pow2(n / 2) as int);
        gamma.times(
            ck.left.times(half).plus(F::of_int(index_bits::left_operand(index, n))),
        ).plus(
            g2.times(ck.right.times(half).plus(F::of_int(index_bits::right_operand(index, n)))),
        )
    } else {
        g2.times(
            ck.identity.times(F::of_int(pow2(n) as int)).plus(
                F::of_int(index % (pow2(n) as int)),
            ),
        )
    }
}

/// The checkpoints as a lookup sees them.
pub open spec fn checkpoints_held<F: Field>(
    inp: ChunkInputs<F>,
    r: Option<Seq<F>>,
    g: int,
) -> Checkpoints<F> {
    let b = inp.chunk_of(g);
    Checkpoints {
        left: held(address_phase::operand_prefix(inp.checkpoints.left, 8, true), r, b),
        right: held(address_phase::operand_prefix(inp.checkpoints.right, 8, false), r, b),
        identity: held(address_phase::identity_prefix(inp.checkpoints.identity, 8), r, b),
    }
}

/// The value of a lookup: its operands or its index, and its table.
pub open spec fn lookup_value<F: Field>(inp: ChunkInputs<F>, r: Option<Seq<F>>, g: int) -> F {
    raf_value(
        inp.gamma,
        checkpoints_held(inp, r, g),
        inp.index(g),
        inp.groups[g].is_interleaved_operands,
        inp.below,
    ).plus(read_value(inp, r, g))
}

/// The value of product `k` over the first `n` tables.
pub open spec fn product_at<F: Field>(inp: ChunkInputs<F>, n: int, r: Option<Seq<F>>, k: int) -> F {
    let t = inp.terms(n)[k];
    t.coefficient.times(
        dot_at(inp.columns(n)[t.left as int], inp.columns(n)[t.right as int], r),
    )
}

/// The sum over the chunk with the first `n` tables, before or after binding.
pub open spec fn total_at<F: Field>(inp: ChunkInputs<F>, n: int, r: Option<Seq<F>>) -> F {
    sums::sum(inp.terms(n).len() as int, |k: int| product_at(inp, n, r, k))
}

/// The prefixes are canonical.
pub open spec fn prefixes_valid<F: Field>(inp: ChunkInputs<F>) -> bool {
    forall|p: int| 0 <= p < inp.prefixes.len() ==> field::all_valid(#[trigger] inp.prefixes[p])
}

/// The columns that serve as prefixes are canonical and cover the chunk.
proof fn lemma_left_columns<F: Field>(inp: ChunkInputs<F>, n: int, c: int)
    requires
        inp.wf(),
        prefixes_valid(inp),
        0 <= n <= inp.shapes.len(),
        0 <= c < 4 || 9 <= c < 9 + inp.prefixes.len(),
    ensures
        c < inp.columns(n).len(),
        inp.columns(n)[c] == inp.columns(0)[c],
        inp.columns(n)[c].len() == 256,
        field::all_valid(inp.columns(n)[c]),
        c >= 9 ==> inp.columns(n)[c] == inp.prefixes[c - 9],
        c < 4 ==> inp.columns(n)[c] == inp.raf_columns()[c],
{
    address_phase::lemma_columns_grow(inp, 0, n);
    address_phase::lemma_columns_sized(inp, n);
    F::law_of_int_valid(1);
    let col = inp.columns(0)[c];
    if c >= 9 {
        assert(col == inp.prefixes[c - 9]);
    } else {
        assert(col == inp.raf_columns()[c]);
        assert forall|b: int| 0 <= b < col.len() implies (#[trigger] col[b]).valid() by {
            if c == 1 {
                F::law_valid(
                    inp.checkpoints.left.times(F::of_int(pow2(4) as int)),
                    F::of_int(index_bits::operand(b, 8, true)),
                );
            } else if c == 2 {
                F::law_valid(
                    inp.checkpoints.right.times(F::of_int(pow2(4) as int)),
                    F::of_int(index_bits::operand(b, 8, false)),
                );
            } else if c == 3 {
                F::law_valid(
                    inp.checkpoints.identity.times(F::of_int(pow2(8) as int)),
                    F::of_int(b),
                );
            }
        }
    }
}

/// The restricted weight of a lookup times what it reads from table `t`.
pub open spec fn table_share<F: Field>(
    inp: ChunkInputs<F>,
    r: Option<Seq<F>>,
    t: int,
    g: int,
) -> F {
    sums::flagged(
        inp.groups[g].lookup_table_index == Some(t as usize),
        weight_at(inp, r, g).times(table_value(inp, r, t, g)),
    )
}

proof fn lemma_chunk_range<F: Field>(inp: ChunkInputs<F>)
    ensures
        forall|g: int| 0 <= #[trigger] inp.chunk_of(g) < 256,
{
    assert forall|g: int| 0 <= #[trigger] inp.chunk_of(g) < 256 by {
        vstd::arithmetic::div_mod::lemma_mod_bound(inp.index(g) / (pow2(inp.below) as int), 256);
    }
}

/// One table adds what its lookups read.
proof fn lemma_table_step<F: Field>(inp: ChunkInputs<F>, t: int, r: Option<Seq<F>>)
    requires
        inp.wf(),
        prefixes_valid(inp),
        0 <= t < inp.shapes.len(),
        r is Some ==> r->0.len() == 8,
    ensures
        total_at(inp, t + 1, r) == total_at(inp, t, r).plus(
            sums::sum(inp.groups.len() as int, |g: int| table_share(inp, r, t, g)),
        ),
{
    let n = inp.groups.len() as int;
    let before = inp.terms(t);
    let kk = before.len() as int;
    let shape = inp.shapes[t];
    let more = shape.terms.len() as int;
    let from = inp.columns(t).len() as int;
    let at = |g: int| inp.chunk_of(g);
    lemma_chunk_range(inp);
    assert forall|g: int| 0 <= g < n implies 0 <= #[trigger] at(g) < 256 by {}
    address_phase::lemma_columns_grow(inp, t, t + 1);
    address_phase::lemma_columns_grow(inp, t + 1, inp.shapes.len() as int);
    address_phase::lemma_terms_fit(inp, t);
    let f = |k: int| product_at(inp, t + 1, r, k);
    let f0 = |k: int| product_at(inp, t, r, k);
    assert forall|k: int| 0 <= k < kk implies #[trigger] f(k) == f0(k) by {
        assert(inp.terms(t + 1)[k] == before[k]);
        let l = before[k].left as int;
        let rr = before[k].right as int;
        assert(inp.columns(t)[l] == inp.columns(t + 1)[l]);
        assert(inp.columns(t)[rr] == inp.columns(t + 1)[rr]);
    }
    sums::lemma_sum_ext(kk, f, f0);
    sums::lemma_sum_split(kk, more, f);
    // the products of the table, as sums over the lookups
    let cell = |k: int, g: int|
        shape.terms[k].coefficient.times(
            inp.suffix_share(t, shape.terms[k].suffix as int, g).times(
                prefix_held(inp, r, shape.terms[k], g).times(edge(r, inp.chunk_of(g))),
            ),
        );
    let added = |i: int| f(kk + i);
    assert forall|k: int| 0 <= k < more implies #[trigger] added(k) == sums::sum(
        n,
        |g: int| cell(k, g),
    ) by {
        let term = shape.terms[k];
        assert(address_phase::term_fits(term, inp.prefixes.len(), shape.suffix_count));
        let s = term.suffix as int;
        let product = inp.terms(t + 1)[kk + k];
        assert(product == inp.read_term(term, from));
        assert(inp.columns(t + 1)[from + s] == inp.suffix_bucket(t, s));
        assert(product.right == from + s);
        let v = |g: int| inp.suffix_share(t, s, g);
        let c = match term.prefix {
            Some(p) => 9 + p as int,
            None => 0int,
        };
        assert(product.left == c);
        lemma_left_columns(inp, t + 1, c);
        let a = inp.columns(t + 1)[c];
        lemma_reading(a, n, at, v, r);
        assert(inp.suffix_bucket(t, s) == address_phase::bucket(n, at, v));
        let read = |g: int| v(g).times(held(a, r, at(g)).times(edge(r, at(g))));
        sums::lemma_sum_scale(n, term.coefficient, read);
        let scaled = |g: int| term.coefficient.times(read(g));
        let here = |g: int| cell(k, g);
        assert forall|g: int| 0 <= g < n implies #[trigger] scaled(g) == here(g) by {
            if term.prefix is None {
                lemma_ones_held::<F>(r, at(g));
                assert(a == inp.raf_columns()[0]);
            }
        }
        sums::lemma_sum_ext(n, |g: int| term.coefficient.times(read(g)), scaled);
        sums::lemma_sum_ext(n, scaled, here);
    }
    sums::lemma_sum_ext(more, added, |k: int| sums::sum(n, |g: int| cell(k, g)));
    sums::lemma_sum_ext(more, added, |i: int| f(kk + i));
    sums::lemma_sum_swap(more, n, cell);
    // per lookup
    let shares = |g: int| table_share(inp, r, t, g);
    assert forall|g: int| 0 <= g < n implies #[trigger] shares(g) == sums::sum(
        more,
        |k: int| cell(k, g),
    ) by {
        let here = |k: int| cell(k, g);
        let w = inp.groups[g].phase_u_eval_sum;
        let e = edge::<F>(r, inp.chunk_of(g));
        if inp.groups[g].lookup_table_index == Some(t as usize) {
            let part = |k: int| table_part(inp, r, t, g, k);
            sums::lemma_sum_scale(more, w.times(e), part);
            let scaled = |k: int| w.times(e).times(part(k));
            assert forall|k: int| 0 <= k < more implies #[trigger] scaled(k) == here(k) by {
                let term = shape.terms[k];
                lemma_regroup(
                    term.coefficient,
                    w,
                    F::of_int(inp.suffixes[g][term.suffix as int] as int),
                    prefix_held(inp, r, term, g),
                    e,
                );
            }
            sums::lemma_sum_ext(more, |k: int| w.times(e).times(part(k)), scaled);
            sums::lemma_sum_ext(more, scaled, here);
        } else {
            assert forall|k: int| 0 <= k < more implies #[trigger] here(k) == F::of_int(0) by {
                field::lemma_zero_times(
                    prefix_held(inp, r, shape.terms[k], g).times(edge(r, inp.chunk_of(g))),
                );
                field::lemma_zero_times(shape.terms[k].coefficient);
            }
            sums::lemma_sum_zero(more, here);
        }
        sums::lemma_sum_ext(more, here, |k: int| cell(k, g));
    }
    sums::lemma_sum_ext(n, shares, |g: int| sums::sum(more, |i: int| cell(i, g)));
}

/// A column of ones looks like one.
proof fn lemma_ones_held<F: Field>(r: Option<Seq<F>>, b: int)
    requires
        0 <= b < 256,
        r is Some ==> r->0.len() == 8,
    ensures
        held(Seq::new(256, |b: int| F::of_int(1)), r, b) == F::of_int(1),
{
    F::law_of_int_valid(1);
    vstd::arithmetic::power2::lemma2_to64();
    match r {
        None => {},
        Some(xs) => {
            poly::lemma_mle_constant(F::of_int(1), Seq::new(256, |b: int| F::of_int(1)), xs);
        },
    }
}

/// `(w e) (c (s x)) = c ((w s) (x e))`.
proof fn lemma_regroup<F: Field>(c: F, w: F, s: F, x: F, e: F)
    ensures
        w.times(e).times(c.times(s.times(x))) == c.times(w.times(s).times(x.times(e))),
{
    field::lemma_times_swap(w.times(e), c, s.times(x));
    field::lemma_times_exchange(w, e, s, x);
    F::law_times_comm(e, x);
}

/// `c ((w s) (x e)) + c ((w l) (1 e)) = (w e) (c (x s + l))`.
proof fn lemma_pair<F: Field>(c: F, w: F, s: F, x: F, l: F, e: F)
    requires
        l.valid(),
    ensures
        c.times(w.times(s).times(x.times(e))).plus(
            c.times(w.times(l).times(F::of_int(1).times(e))),
        ) == w.times(e).times(c.times(x.times(s).plus(l))),
{
    lemma_regroup(c, w, s, x, e);
    lemma_regroup(c, w, l, F::of_int(1), e);
    F::law_times_one(l);
    F::law_times_comm(s, x);
    F::law_distrib(w.times(e), c.times(x.times(s)), c.times(l));
    F::law_distrib(c, x.times(s), l);
}

/// Six terms in pairs.
proof fn lemma_six<F: Field>(h: spec_fn(int) -> F)
    requires
        forall|k: int| 0 <= k < 6 ==> (#[trigger] h(k)).valid(),
    ensures
        sums::sum(6, h) == h(0).plus(h(1)).plus(h(2).plus(h(3))).plus(h(4).plus(h(5))),
{
    reveal_with_fuel(sums::sum, 7);
    assert(h(0).valid());
    field::lemma_zero_plus(h(0));
    let a = h(0).plus(h(1));
    F::law_plus_assoc(a, h(2), h(3));
    let b = a.plus(h(2).plus(h(3)));
    F::law_plus_assoc(b, h(4), h(5));
}

/// The columns and the factor of the products of the operands and of the index.
pub open spec fn raf_product<F: Field>(inp: ChunkInputs<F>, k: int) -> (F, int, int) {
    let g = inp.gamma;
    let g2 = g.times(g);
    if k == 0 {
        (g, 1, 4)
    } else if k == 1 {
        (g, 0, 5)
    } else if k == 2 {
        (g2, 2, 4)
    } else if k == 3 {
        (g2, 0, 6)
    } else if k == 4 {
        (g2, 3, 7)
    } else {
        (g2, 0, 8)
    }
}

/// The part of a lookup in a product of the operands or of the index.
pub open spec fn raf_part<F: Field>(inp: ChunkInputs<F>, r: Option<Seq<F>>, k: int, g: int) -> F {
    let (coefficient, left, right) = raf_product(inp, k);
    coefficient.times(
        inp.raf_share(right, g).times(
            held(inp.raf_columns()[left], r, inp.chunk_of(g)).times(edge(r, inp.chunk_of(g))),
        ),
    )
}

/// The restricted weight of a lookup times its operands or its index.
pub open spec fn raf_share_at<F: Field>(inp: ChunkInputs<F>, r: Option<Seq<F>>, g: int) -> F {
    weight_at(inp, r, g).times(
        raf_value(
            inp.gamma,
            checkpoints_held(inp, r, g),
            inp.index(g),
            inp.groups[g].is_interleaved_operands,
            inp.below,
        ),
    )
}

/// The parts of one lookup make up its share.
proof fn lemma_raf_parts<F: Field>(inp: ChunkInputs<F>, r: Option<Seq<F>>, g: int)
    requires
        r is Some ==> r->0.len() == 8,
    ensures
        sums::sum(6, |k: int| raf_part(inp, r, k, g)) == raf_share_at(inp, r, g),
{
    let h = |k: int| raf_part(inp, r, k, g);
    assert forall|k: int| 0 <= k < 6 implies (#[trigger] h(k)).valid() by {
        let (coefficient, left, right) = raf_product(inp, k);
        F::law_valid(
            coefficient,
            inp.raf_share(right, g).times(
                held(inp.raf_columns()[left], r, inp.chunk_of(g)).times(
                    edge(r, inp.chunk_of(g)),
                ),
            ),
        );
    }
    lemma_six(h);
    lemma_chunk_range(inp);
    let b = inp.chunk_of(g);
    lemma_ones_held::<F>(r, b);
    let ck = checkpoints_held(inp, r, g);
    let w = inp.groups[g].phase_u_eval_sum;
    let e = edge::<F>(r, b);
    let gamma = inp.gamma;
    let g2 = gamma.times(gamma);
    let x = inp.index(g);
    let half = F::of_int(pow2(inp.below / 2) as int);
    let left = F::of_int(index_bits::left_operand(x, inp.below));
    let right = F::of_int(index_bits::right_operand(x, inp.below));
    let full = F::of_int(pow2(inp.below) as int);
    let low = F::of_int(x % (pow2(inp.below) as int));
    F::law_of_int_valid(index_bits::left_operand(x, inp.below));
    F::law_of_int_valid(index_bits::right_operand(x, inp.below));
    F::law_of_int_valid(x % (pow2(inp.below) as int));
    F::law_of_int_valid(0);
    let zero = F::of_int(0);
    field::lemma_zero_plus(zero);
    let cols = inp.raf_columns();
    assert(held(cols[0], r, b) == F::of_int(1));
    assert(held(cols[1], r, b) == ck.left);
    assert(held(cols[2], r, b) == ck.right);
    assert(held(cols[3], r, b) == ck.identity);
    if inp.groups[g].is_interleaved_operands {
        lemma_pair(gamma, w, half, ck.left, left, e);
        lemma_pair(g2, w, half, ck.right, right, e);
        field::lemma_zero_times(ck.identity.times(e));
        field::lemma_zero_times(F::of_int(1).times(e));
        field::lemma_zero_times(g2);
        assert(h(4) == zero && h(5) == zero);
        let lv = gamma.times(ck.left.times(half).plus(left));
        let rv = g2.times(ck.right.times(half).plus(right));
        F::law_distrib(w.times(e), lv, rv);
        F::law_valid(w.times(e).times(lv), w.times(e).times(rv));
        F::law_plus_zero(w.times(e).times(lv).plus(w.times(e).times(rv)));
    } else {
        lemma_pair(g2, w, full, ck.identity, low, e);
        field::lemma_zero_times(ck.left.times(e));
        field::lemma_zero_times(ck.right.times(e));
        field::lemma_zero_times(F::of_int(1).times(e));
        field::lemma_zero_times(g2);
        field::lemma_zero_times(gamma);
        assert(h(0) == zero && h(1) == zero && h(2) == zero && h(3) == zero);
        let iv = g2.times(ck.identity.times(full).plus(low));
        F::law_valid(w.times(e), iv);
        field::lemma_zero_plus(w.times(e).times(iv));
    }
}

/// The operands and the indices of all lookups.
proof fn lemma_raf_total<F: Field>(inp: ChunkInputs<F>, r: Option<Seq<F>>)
    requires
        inp.wf(),
        prefixes_valid(inp),
        r is Some ==> r->0.len() == 8,
    ensures
        total_at(inp, 0, r) == sums::sum(
            inp.groups.len() as int,
            |g: int| raf_share_at(inp, r, g),
        ),
{
    let n = inp.groups.len() as int;
    let at = |g: int| inp.chunk_of(g);
    lemma_chunk_range(inp);
    assert forall|g: int| 0 <= g < n implies 0 <= #[trigger] at(g) < 256 by {}
    let f = |k: int| product_at(inp, 0, r, k);
    let cell = |k: int, g: int| raf_part(inp, r, k, g);
    assert(inp.terms(0).len() == 6);
    assert forall|k: int| 0 <= k < 6 implies #[trigger] f(k) == sums::sum(
        n,
        |g: int| cell(k, g),
    ) by {
        let (coefficient, left, right) = raf_product(inp, k);
        let t = inp.terms(0)[k];
        assert(t.coefficient == coefficient && t.left == left && t.right == right);
        lemma_left_columns(inp, 0, left);
        let a = inp.columns(0)[left];
        let v = |g: int| inp.raf_share(right, g);
        assert(inp.columns(0)[right] == inp.raf_columns()[right]);
        assert(inp.raf_columns()[right] == inp.raf_bucket(right));
        assert(inp.raf_bucket(right) == address_phase::bucket(n, at, v));
        lemma_reading(a, n, at, v, r);
        let read = |g: int| v(g).times(held(a, r, at(g)).times(edge(r, at(g))));
        sums::lemma_sum_scale(n, coefficient, read);
        sums::lemma_sum_ext(n, |g: int| coefficient.times(read(g)), |g: int| cell(k, g));
    }
    sums::lemma_sum_ext(6, f, |k: int| sums::sum(n, |g: int| cell(k, g)));
    sums::lemma_sum_swap(6, n, cell);
    let shares = |g: int| raf_share_at(inp, r, g);
    assert forall|g: int| 0 <= g < n implies #[trigger] shares(g) == sums::sum(
        6,
        |k: int| cell(k, g),
    ) by {
        lemma_raf_parts(inp, r, g);
        sums::lemma_sum_ext(6, |k: int| raf_part(inp, r, k, g), |k: int| cell(k, g));
    }
    sums::lemma_sum_ext(n, shares, |g: int| sums::sum(6, |i: int| cell(i, g)));
}

/// The restricted weight of a lookup times its operands or its index and what it reads from the
/// first `n` tables.
pub open spec fn share_upto<F: Field>(inp: ChunkInputs<F>, r: Option<Seq<F>>, n: int, g: int) -> F {
    raf_share_at(inp, r, g).plus(sums::sum(n, |t: int| table_share(inp, r, t, g)))
}

proof fn lemma_total_upto<F: Field>(inp: ChunkInputs<F>, n: int, r: Option<Seq<F>>)
    requires
        inp.wf(),
        prefixes_valid(inp),
        0 <= n <= inp.shapes.len(),
        r is Some ==> r->0.len() == 8,
    ensures
        total_at(inp, n, r) == sums::sum(
            inp.groups.len() as int,
            |g: int| share_upto(inp, r, n, g),
        ),
    decreases n,
{
    let m = inp.groups.len() as int;
    let now = |g: int| share_upto(inp, r, n, g);
    if n == 0 {
        lemma_raf_total(inp, r);
        let raf = |g: int| raf_share_at(inp, r, g);
        assert forall|g: int| 0 <= g < m implies #[trigger] now(g) == raf(g) by {
            F::law_valid(
                weight_at(inp, r, g),
                raf_value(
                    inp.gamma,
                    checkpoints_held(inp, r, g),
                    inp.index(g),
                    inp.groups[g].is_interleaved_operands,
                    inp.below,
                ),
            );
            F::law_plus_zero(raf(g));
        }
        sums::lemma_sum_ext(m, now, raf);
    } else {
        lemma_total_upto(inp, n - 1, r);
        lemma_table_step(inp, n - 1, r);
        let before = |g: int| share_upto(inp, r, n - 1, g);
        let added = |g: int| table_share(inp, r, n - 1, g);
        let both = |g: int| before(g).plus(added(g));
        sums::lemma_sum_plus(m, before, added);
        assert forall|g: int| 0 <= g < m implies #[trigger] now(g) == both(g) by {
            let f = |t: int| table_share(inp, r, t, g);
            F::law_plus_assoc(raf_share_at(inp, r, g), sums::sum(n - 1, f), f(n - 1));
        }
        sums::lemma_sum_ext(m, now, both);
        sums::lemma_sum_ext(m, both, |g: int| before(g).plus(added(g)));
    }
}

/// The sum over a chunk, before or after binding, is the sum over the lookups of the restricted
/// weight times the value.
proof fn lemma_total_at<F: Field>(inp: ChunkInputs<F>, r: Option<Seq<F>>)
    requires
        inp.wf(),
        prefixes_valid(inp),
        r is Some ==> r->0.len() == 8,
    ensures
        total_at(inp, inp.shapes.len() as int, r) == sums::sum(
            inp.groups.len() as int,
            |g: int| weight_at(inp, r, g).times(lookup_value(inp, r, g)),
        ),
{
    let m = inp.groups.len() as int;
    let n = inp.shapes.len() as int;
    lemma_total_upto(inp, n, r);
    let now = |g: int| share_upto(inp, r, n, g);
    let target = |g: int| weight_at(inp, r, g).times(lookup_value(inp, r, g));
    assert forall|g: int| 0 <= g < m implies #[trigger] now(g) == target(g) by {
        let w = weight_at(inp, r, g);
        let raf = raf_value(
            inp.gamma,
            checkpoints_held(inp, r, g),
            inp.index(g),
            inp.groups[g].is_interleaved_operands,
            inp.below,
        );
        let read = read_value(inp, r, g);
        F::law_distrib(w, raf, read);
        let f = |t: int| table_share(inp, r, t, g);
        match inp.groups[g].lookup_table_index {
            Some(t) => {
                assert(t < NUM_LOOKUP_TABLES);
                F::law_valid(w, read);
                sums::lemma_sum_single(n, t as int, f);
            },
            None => {
                sums::lemma_sum_zero(n, f);
                field::lemma_zero_times(w);
            },
        }
    }
    sums::lemma_sum_ext(m, now, target);
}

/// The weights of the groups are canonical.
pub open spec fn weights_valid<F: Field>(groups: Seq<LookupGroup<F>>) -> bool {
    forall|g: int| 0 <= g < groups.len() ==> (#[trigger] groups[g]).phase_u_eval_sum.valid()
}

/// The bits of an operand above and below the end of a chunk.
proof fn lemma_operand_join(x: int, below: nat)
    requires
        x >= 0,
        below % 2 == 0,
    ensures
        index_bits::left_operand(x, below + 8) == index_bits::left_operand(
            address_phase::chunk_value(x, below),
            8,
        ) * pow2(below / 2) + index_bits::left_operand(x, below),
        index_bits::right_operand(x, below + 8) == index_bits::right_operand(
            address_phase::chunk_value(x, below),
            8,
        ) * pow2(below / 2) + index_bits::right_operand(x, below),
{
    let h = below / 2;
    assert((below + 8) / 2 == 4 + h);
    assert(2 * h == below);
    let y = x / (pow2(below) as int);
    vstd::arithmetic::power2::lemma_pow2_pos(below);
    vstd::arithmetic::power2::lemma2_to64();
    assert(y >= 0) by {
        vstd::arithmetic::div_mod::lemma_div_pos_is_pos(x, pow2(below) as int);
    }
    index_bits::lemma_strided_split(x, 1, 2, 4, h);
    index_bits::lemma_strided_split(x, 0, 2, 4, h);
    index_bits::lemma_strided_shift(x, below, 1, 2, 4);
    index_bits::lemma_strided_shift(x, below, 0, 2, 4);
    index_bits::lemma_strided_low(y, 8, 1, 2, 4);
    index_bits::lemma_strided_low(y, 8, 0, 2, 4);
}

/// `(k a + o) s + l = k (a s) + (o s + l)`.
proof fn lemma_join<F: Field>(k: F, a: int, o: int, s: int, l: int)
    ensures
        k.times(F::of_int(a)).plus(F::of_int(o)).times(F::of_int(s)).plus(F::of_int(l)) == k.times(
            F::of_int(a * s),
        ).plus(F::of_int(o * s + l)),
{
    field::lemma_distrib_right(F::of_int(s), k.times(F::of_int(a)), F::of_int(o));
    F::law_times_assoc(k, F::of_int(a), F::of_int(s));
    F::law_of_int_times(a, s);
    F::law_of_int_times(o, s);
    F::law_of_int_plus(o * s, l);
    F::law_plus_assoc(k.times(F::of_int(a * s)), F::of_int(o * s), F::of_int(l));
}

/// Before a chunk is bound, its bits count among those that are left.
proof fn lemma_raf_open<F: Field>(inp: ChunkInputs<F>, g: int)
    requires
        inp.wf(),
        0 <= g < inp.groups.len(),
    ensures
        raf_value(
            inp.gamma,
            checkpoints_held(inp, None, g),
            inp.index(g),
            inp.groups[g].is_interleaved_operands,
            inp.below,
        ) == raf_value(
            inp.gamma,
            inp.checkpoints,
            inp.index(g),
            inp.groups[g].is_interleaved_operands,
            inp.below + 8,
        ),
{
    let x = inp.index(g);
    let b = inp.chunk_of(g);
    let below = inp.below;
    let ck = inp.checkpoints;
    lemma_chunk_range(inp);
    vstd::arithmetic::power2::lemma2_to64();
    let h = pow2(below / 2) as int;
    let full = pow2(below) as int;
    lemma_operand_join(x, below);
    lemma_join(ck.left, 16, index_bits::left_operand(b, 8), h, index_bits::left_operand(x, below));
    lemma_join(
        ck.right,
        16,
        index_bits::right_operand(b, 8),
        h,
        index_bits::right_operand(x, below),
    );
    lemma_join(ck.identity, 256, b, full, x % full);
    poly::lemma_pow2_concat(4, below / 2);
    poly::lemma_pow2_concat(8, below);
    assert(4 + below / 2 == (below + 8) / 2);
    assert(8 + below == below + 8);
    vstd::arithmetic::power2::lemma_pow2_pos(below);
    vstd::arithmetic::div_mod::lemma_mod_breakdown(x, full, 256);
    assert(full * b == b * full) by (nonlinear_arith);
    assert(full * 256 == pow2(below + 8));
}

/// Before a chunk is bound, its sum is the sum over the lookups of the weight times the value, all
/// bits of the chunk among those that are left.
pub proof fn law_open<F: Field>(inp: ChunkInputs<F>)
    requires
        inp.wf(),
        prefixes_valid(inp),
        weights_valid(inp.groups),
    ensures
        inp.sum().total() == sums::sum(
            inp.groups.len() as int,
            |g: int|
                inp.groups[g].phase_u_eval_sum.times(
                    raf_value(
                        inp.gamma,
                        inp.checkpoints,
                        inp.index(g),
                        inp.groups[g].is_interleaved_operands,
                        inp.below + 8,
                    ).plus(read_value(inp, None, g)),
                ),
        ),
{
    let m = inp.groups.len() as int;
    let n = inp.shapes.len() as int;
    lemma_total_at(inp, None);
    let whole = inp.sum();
    sums::lemma_sum_ext(
        whole.terms.len() as int,
        |k: int| whole.term_total(k),
        |k: int| product_at(inp, n, None, k),
    );
    let f = |g: int| weight_at(inp, None, g).times(lookup_value(inp, None, g));
    let target = |g: int|
        inp.groups[g].phase_u_eval_sum.times(
            raf_value(
                inp.gamma,
                inp.checkpoints,
                inp.index(g),
                inp.groups[g].is_interleaved_operands,
                inp.below + 8,
            ).plus(read_value(inp, None, g)),
        );
    assert forall|g: int| 0 <= g < m implies #[trigger] f(g) == target(g) by {
        lemma_raf_open(inp, g);
        assert(inp.groups[g].phase_u_eval_sum.valid());
        F::law_times_one(inp.groups[g].phase_u_eval_sum);
    }
    sums::lemma_sum_ext(m, f, target);
}

/// The checkpoints after a chunk is bound.
pub open spec fn next_checkpoints<F: Field>(ck: Checkpoints<F>, r: Seq<F>) -> Checkpoints<F> {
    Checkpoints {
        left: poly::mle(address_phase::operand_prefix(ck.left, 8, true), r),
        right: poly::mle(address_phase::operand_prefix(ck.right, 8, false), r),
        identity: poly::mle(address_phase::identity_prefix(ck.identity, 8), r),
    }
}

/// After a chunk is bound, its sum is the sum over the lookups of the restricted weight times the
/// value with the new checkpoints.
pub proof fn law_close<F: Field>(inp: ChunkInputs<F>, r: Seq<F>)
    requires
        inp.wf(),
        prefixes_valid(inp),
        r.len() == 8,
    ensures
        inp.sum().bind_all(r).total() == sums::sum(
            inp.groups.len() as int,
            |g: int|
                address_phase::restricted(inp.groups, inp.below, r)[g].phase_u_eval_sum.times(
                    raf_value(
                        inp.gamma,
                        next_checkpoints(inp.checkpoints, r),
                        inp.index(g),
                        inp.groups[g].is_interleaved_operands,
                        inp.below,
                    ).plus(read_value(inp, Some(r), g)),
                ),
        ),
{
    let m = inp.groups.len() as int;
    let n = inp.shapes.len() as int;
    lemma_total_at(inp, Some(r));
    let whole = inp.sum().bind_all(r);
    address_phase::lemma_terms_fit(inp, n);
    let t = |k: int| whole.term_total(k);
    let p = |k: int| product_at(inp, n, Some(r), k);
    assert forall|k: int| 0 <= k < whole.terms.len() implies #[trigger] t(k) == p(k) by {
        assert(inp.terms(n)[k].left < inp.columns(n).len());
    }
    sums::lemma_sum_ext(whole.terms.len() as int, t, p);
    let f = |g: int| weight_at(inp, Some(r), g).times(lookup_value(inp, Some(r), g));
    sums::lemma_sum_ext(
        m,
        f,
        |g: int|
            address_phase::restricted(inp.groups, inp.below, r)[g].phase_u_eval_sum.times(
                raf_value(
                    inp.gamma,
                    next_checkpoints(inp.checkpoints, r),
                    inp.index(g),
                    inp.groups[g].is_interleaved_operands,
                    inp.below,
                ).plus(read_value(inp, Some(r), g)),
            ),
    );
}

/// The second chunk takes over where the first one ends.
pub open spec fn continues<F: Field>(
    first: ChunkInputs<F>,
    r: Seq<F>,
    second: ChunkInputs<F>,
) -> bool {
    &&& second.groups == address_phase::restricted(first.groups, first.below, r)
    &&& second.below + 8 == first.below
    &&& second.checkpoints == next_checkpoints(first.checkpoints, r)
    &&& second.gamma == first.gamma
    &&& forall|g: int|
        0 <= g < first.groups.len() ==> #[trigger] read_value(first, Some(r), g) == read_value(
            second,
            None,
            g,
        )
}

/// Chunks join without a seam: the bound sum of a chunk is the sum of the next one.
pub proof fn law_seam<F: Field>(first: ChunkInputs<F>, r: Seq<F>, second: ChunkInputs<F>)
    requires
        first.wf(),
        second.wf(),
        prefixes_valid(first),
        prefixes_valid(second),
        r.len() == 8,
        continues(first, r, second),
    ensures
        first.sum().bind_all(r).total() == second.sum().total(),
{
    let m = first.groups.len() as int;
    law_close(first, r);
    assert forall|g: int| 0 <= g < second.groups.len() implies (
        #[trigger] second.groups[g]
    ).phase_u_eval_sum.valid() by {
        F::law_valid(
            first.groups[g].phase_u_eval_sum,
            poly::eq_weight(r, first.chunk_of(g)),
        );
    }
    law_open(second);
    let f = |g: int|
        address_phase::restricted(first.groups, first.below, r)[g].phase_u_eval_sum.times(
            raf_value(
                first.gamma,
                next_checkpoints(first.checkpoints, r),
                first.index(g),
                first.groups[g].is_interleaved_operands,
                first.below,
            ).plus(read_value(first, Some(r), g)),
        );
    let h = |g: int|
        second.groups[g].phase_u_eval_sum.times(
            raf_value(
                second.gamma,
                second.checkpoints,
                second.index(g),
                second.groups[g].is_interleaved_operands,
                second.below + 8,
            ).plus(read_value(second, None, g)),
        );
    assert forall|g: int| 0 <= g < m implies #[trigger] f(g) == h(g) by {
        assert(read_value(first, Some(r), g) == read_value(second, None, g));
    }
    sums::lemma_sum_ext(m, f, h);
}

/// A bucket column is canonical.
proof fn lemma_bucket_valid<F: Field>(n: int, at: spec_fn(int) -> int, v: spec_fn(int) -> F)
    ensures
        field::all_valid(address_phase::bucket(n, at, v)),
{
    let p = address_phase::bucket(n, at, v);
    assert forall|b: int| 0 <= b < p.len() implies (#[trigger] p[b]).valid() by {
        sums::lemma_sum_valid(n, |g: int| address_phase::bucket_share(at, v, b, g));
    }
}

/// All columns of a chunk are canonical.
proof fn lemma_columns_valid<F: Field>(inp: ChunkInputs<F>, n: int)
    requires
        inp.wf(),
        prefixes_valid(inp),
        0 <= n <= inp.shapes.len(),
    ensures
        forall|c: int|
            0 <= c < inp.columns(n).len() ==> field::all_valid(#[trigger] inp.columns(n)[c]),
    decreases n,
{
    let count = inp.groups.len() as int;
    let at = |g: int| inp.chunk_of(g);
    if n > 0 {
        lemma_columns_valid(inp, n - 1);
        let before = inp.columns(n - 1);
        assert forall|c: int| 0 <= c < inp.columns(n).len() implies field::all_valid(
            #[trigger] inp.columns(n)[c],
        ) by {
            if c < before.len() {
                assert(inp.columns(n)[c] == before[c]);
            } else {
                let s = c - before.len();
                assert(inp.columns(n)[c] == inp.suffix_bucket(n - 1, s));
                lemma_bucket_valid(count, at, |g: int| inp.suffix_share(n - 1, s, g));
            }
        }
    } else {
        assert forall|c: int| 0 <= c < inp.columns(0).len() implies field::all_valid(
            #[trigger] inp.columns(0)[c],
        ) by {
            if c < 4 || c >= 9 {
                lemma_left_columns(inp, 0, c);
            } else {
                assert(inp.columns(0)[c] == inp.raf_columns()[c]);
                assert(inp.raf_columns()[c] == inp.raf_bucket(c));
                lemma_bucket_valid(count, at, |g: int| inp.raf_share(c, g));
            }
        }
    }
}

/// The machine after several challenges.
pub open spec fn bind_all<F: Field>(s: PhaseState<F>, xs: Seq<F>) -> PhaseState<F>
    decreases xs.len(),
{
    if xs.len() == 0 {
        s
    } else {
        bind_all(s, xs.drop_last()).bind(xs.last())
    }
}

/// The machine after a whole chunk.
pub open spec fn closed<F: Field>(
    s: PhaseState<F>,
    inp: ChunkInputs<F>,
    r: Seq<F>,
) -> PhaseState<F> {
    PhaseState {
        challenges: s.challenges + r,
        groups: address_phase::restricted(s.groups, s.below(), r),
        checkpoints: next_checkpoints(s.checkpoints, r),
        prefix_checkpoints: Seq::new(
            s.prefix_checkpoints.len(),
            |p: int| poly::mle(inp.prefixes[p], r),
        ),
        chunk: None,
        ..s
    }
}

/// The chunk is built from the state of the machine.
pub open spec fn fed<F: Field>(s: PhaseState<F>, inp: ChunkInputs<F>) -> bool {
    &&& inp == s.inputs(inp.prefixes, inp.suffixes, inp.shapes)
    &&& inp.wf()
    &&& prefixes_valid(inp)
    &&& inp.prefixes.len() == s.prefix_checkpoints.len()
}

/// The machine in the middle of a chunk.
proof fn lemma_mid_chunk<F: Field>(s: PhaseState<F>, inp: ChunkInputs<F>, xs: Seq<F>)
    requires
        s.wf(),
        s.chunk is None,
        s.challenges.len() < s.log_k,
        fed(s, inp),
        xs.len() < 8,
    ensures
        bind_all(s.opened(inp.sum()), xs) == (PhaseState {
            challenges: s.challenges + xs,
            chunk: Some(inp.sum().bind_all(xs)),
            ..s
        }),
    decreases xs.len(),
{
    let m = inp.sum();
    if xs.len() == 0 {
        assert(xs =~= Seq::<F>::empty());
        folding::lemma_bind_all_push(m, xs, F::of_int(0));
        assert(s.challenges + xs =~= s.challenges);
    } else {
        let before = xs.drop_last();
        lemma_mid_chunk(s, inp, before);
        folding::lemma_bind_all_push(m, before, xs.last());
        assert(before.push(xs.last()) =~= xs);
        assert((s.challenges + before).push(xs.last()) =~= s.challenges + xs);
        assert((s.challenges + xs).len() % 8 != 0);
    }
}

/// Binding all bits of a chunk moves the checkpoints, restricts the weights and closes the chunk.
pub proof fn law_phase<F: Field>(s: PhaseState<F>, inp: ChunkInputs<F>, r: Seq<F>)
    requires
        s.wf(),
        s.chunk is None,
        s.challenges.len() < s.log_k,
        fed(s, inp),
        r.len() == 8,
    ensures
        bind_all(s.opened(inp.sum()), r) == closed(s, inp, r),
        closed(s, inp, r).wf(),
{
    let m = inp.sum();
    let before = r.drop_last();
    let x = r.last();
    let n = inp.shapes.len() as int;
    lemma_mid_chunk(s, inp, before);
    folding::lemma_bind_all_push(m, before, x);
    assert(before.push(x) =~= r);
    let mid = bind_all(s.opened(m), before);
    let end = m.bind_all(r);
    assert((s.challenges + before).push(x) =~= s.challenges + r);
    let all = s.challenges + r;
    assert(all.len() % 8 == 0);
    assert(all.skip(all.len() - 8) =~= r);
    assert(mid.below() == s.below());
    vstd::arithmetic::power2::lemma2_to64();
    lemma_columns_valid(inp, n);
    address_phase::lemma_columns_sized(inp, n);
    assert forall|c: int| 0 <= c < inp.columns(n).len() implies (#[trigger] end.columns[c])[0]
        == poly::mle(inp.columns(n)[c], r) by {
        folding::law_bind_high_all(inp.columns(n)[c], r);
    }
    lemma_left_columns(inp, n, 1);
    lemma_left_columns(inp, n, 2);
    lemma_left_columns(inp, n, 3);
    assert forall|p: int| 0 <= p < inp.prefixes.len() implies inp.columns(n)[9 + p]
        == #[trigger] inp.prefixes[p] by {
        lemma_left_columns(inp, n, 9 + p);
    }
    let left = mid.bind(x);
    let right = closed(s, inp, r);
    assert forall|p: int| 0 <= p < right.prefix_checkpoints.len() implies
        left.prefix_checkpoints[p] == #[trigger] right.prefix_checkpoints[p] by {
        assert(inp.columns(n)[9 + p] == inp.prefixes[p]);
        lemma_left_columns(inp, n, 9 + p);
        assert(end.columns[9 + p][0] == poly::mle(inp.columns(n)[9 + p], r));
    }
    assert(end.columns[1][0] == poly::mle(inp.columns(n)[1], r));
    assert(end.columns[2][0] == poly::mle(inp.columns(n)[2], r));
    assert(end.columns[3][0] == poly::mle(inp.columns(n)[3], r));
    assert(left =~= right);
}

/// The message of a round: if the claim is the scaled sum over the open chunk, the message is that
/// sum as a polynomial in its leading bit, so the reduced claim is the scaled sum after binding.
pub proof fn law_message<F: Field>(s: PhaseState<F>, x: F)
    requires
        s.wf(),
        s.chunk is Some,
        s.chunk->0.canonical(),
        s.chunk->0.terms.len() > 0,
    ensures
        univariate::eval(
            univariate::hinted(
                s.chunk->0.total().times(s.scale),
                s.chunk->0.bind(F::of_int(0)).total().times(s.scale),
                s.chunk->0.bind(F::of_int(2)).total().times(s.scale),
            ),
            x,
        ) == s.chunk->0.bind(x).total().times(s.scale),
{
    folding::law_round(s.chunk->0, (8 - s.challenges.len() % 8) as nat, s.scale, x);
}

/// A strided value in two parts.
proof fn lemma_strided_concat<F: Field>(
    a: Seq<F>,
    b: Seq<F>,
    start: int,
    step: int,
    m1: int,
    m2: int,
)
    requires
        0 <= start < step,
        m1 >= 0,
        m2 >= 0,
        a.len() == step * m1,
        m2 == 0 || start + step * (m2 - 1) < b.len(),
    ensures
        operand_poly::strided_value(a + b, start, step, m1 + m2) == operand_poly::strided_value(
            a,
            start,
            step,
            m1,
        ).times(F::of_int(pow2(m2 as nat) as int)).plus(
            operand_poly::strided_value(b, start, step, m2),
        ),
    decreases m2,
{
    let s = a + b;
    let va = operand_poly::strided_value(a, start, step, m1);
    poly::lemma_pow2_zero();
    if m2 == 0 {
        let f = |i: int| s[start + step * i].times(F::of_int(pow2((m1 - 1 - i) as nat) as int));
        let g = |i: int| a[start + step * i].times(F::of_int(pow2((m1 - 1 - i) as nat) as int));
        assert forall|i: int| 0 <= i < m1 implies #[trigger] f(i) == g(i) by {
            assert(0 <= start + step * i < step * m1) by (nonlinear_arith)
                requires
                    0 <= i < m1,
                    0 <= start < step,
            ;
        }
        sums::lemma_sum_ext(m1, f, g);
        sums::lemma_sum_valid(m1, g);
        F::law_times_one(va);
        F::law_plus_zero(va);
    } else {
        let k = m2 - 1;
        assert(step * (k - 1) <= step * k) by (nonlinear_arith)
            requires
                step > 0,
        ;
        lemma_strided_concat(a, b, start, step, m1, k);
        operand_poly::lemma_strided_step(s, start, step, m1 + k);
        operand_poly::lemma_strided_step(b, start, step, k);
        assert(start + step * (m1 + k) == step * m1 + (start + step * k)) by (nonlinear_arith);
        assert(step * k >= 0) by (nonlinear_arith)
            requires
                k >= 0,
                step > 0,
        ;
        let c = b[start + step * k];
        assert(s[start + step * (m1 + k)] == c);
        let vb = operand_poly::strided_value(b, start, step, k);
        let two = F::of_int(2);
        let p = pow2(k as nat) as int;
        poly::lemma_pow2_step(m2 as nat);
        field::lemma_distrib_right(two, va.times(F::of_int(p)), vb);
        F::law_times_assoc(va, F::of_int(p), two);
        F::law_of_int_times(p, 2);
        F::law_plus_assoc(
            va.times(F::of_int(p * 2)),
            vb.times(two),
            c.times(F::of_int(1)),
        );
    }
}

/// The bound prefix of an operand.
proof fn lemma_operand_bound<F: Field>(ck: F, left: bool, r: Seq<F>)
    requires
        r.len() == 8,
        field::all_valid(r),
    ensures
        poly::mle(address_phase::operand_prefix(ck, 8, left), r) == ck.times(F::of_int(16)).plus(
            operand_poly::strided_value(
                r,
                if left {
                    0
                } else {
                    1
                },
                2,
                4,
            ),
        ),
{
    vstd::arithmetic::power2::lemma2_to64();
    let whole = address_phase::operand_prefix(ck, 8, left);
    let low: nat = if left {
        1
    } else {
        0
    };
    let high = Seq::new(256, |b: int| ck.times(F::of_int(16)));
    let bits = Seq::new(256, |b: int| F::of_int(operand_poly::strided_bits(b, low, 2, 4)));
    F::law_valid(ck, F::of_int(16));
    poly::lemma_mle_constant(ck.times(F::of_int(16)), high, r);
    index_bits::law_strided_mle(r, low, 2, 4);
    poly::lemma_mle_plus(high, bits, whole, r);
}

/// The bound prefix of the index.
proof fn lemma_identity_bound<F: Field>(ck: F, r: Seq<F>)
    requires
        r.len() == 8,
        field::all_valid(r),
    ensures
        poly::mle(address_phase::identity_prefix(ck, 8), r) == ck.times(F::of_int(256)).plus(
            operand_poly::strided_value(r, 0, 1, 8),
        ),
{
    vstd::arithmetic::power2::lemma2_to64();
    let whole = address_phase::identity_prefix(ck, 8);
    let high = Seq::new(256, |b: int| ck.times(F::of_int(256)));
    let bits = Seq::new(256, |b: int| F::of_int(operand_poly::strided_bits(b, 0, 1, 8)));
    F::law_valid(ck, F::of_int(256));
    poly::lemma_mle_constant(ck.times(F::of_int(256)), high, r);
    index_bits::law_strided_mle(r, 0, 1, 8);
    assert forall|b: int| 0 <= b < 256 implies #[trigger] whole[b] == high[b].plus(bits[b]) by {
        index_bits::lemma_all_bits(b, 0, 8);
        poly::lemma_pow2_zero();
        assert(b / 1 == b);
    }
    poly::lemma_mle_plus(high, bits, whole, r);
}

/// The values of the lookup tables in one phase, as mathematical values.
#[verifier::ext_equal]
pub struct Supply<F> {
    pub prefixes: Seq<Seq<F>>,
    pub suffixes: Seq<Seq<u64>>,
}

/// The challenges of a phase.
pub open spec fn phase_point<F: Field>(r: Seq<F>, p: int) -> Seq<F> {
    r.subrange(8 * p, 8 * p + 8)
}

/// The machine after `p` phases.
pub open spec fn after_phases<F: Field>(
    s: PhaseState<F>,
    supplies: Seq<Supply<F>>,
    shapes: Seq<ShapeModel<F>>,
    r: Seq<F>,
    p: int,
) -> PhaseState<F>
    decreases p,
{
    if p <= 0 {
        s
    } else {
        let before = after_phases(s, supplies, shapes, r, p - 1);
        closed(
            before,
            before.inputs(supplies[p - 1].prefixes, supplies[p - 1].suffixes, shapes),
            phase_point(r, p - 1),
        )
    }
}

/// What the chunk of phase `p` is built from.
pub open spec fn phase_inputs<F: Field>(
    s: PhaseState<F>,
    supplies: Seq<Supply<F>>,
    shapes: Seq<ShapeModel<F>>,
    r: Seq<F>,
    p: int,
) -> ChunkInputs<F> {
    after_phases(s, supplies, shapes, r, p).inputs(
        supplies[p].prefixes,
        supplies[p].suffixes,
        shapes,
    )
}

/// The operands or the index of a lookup, as integers.
pub open spec fn raf_of_index<F: Field>(gamma: F, index: int, interleaved: bool, n: nat) -> F {
    let g2 = gamma.times(gamma);
    if interleaved {
        gamma.times(F::of_int(index_bits::left_operand(index, n))).plus(
            g2.times(F::of_int(index_bits::right_operand(index, n))),
        )
    } else {
        g2.times(F::of_int(index))
    }
}

/// The operands or the index as polynomials at a point.
pub open spec fn raf_at_point<F: Field>(gamma: F, r: Seq<F>, interleaved: bool) -> F {
    let g2 = gamma.times(gamma);
    let m = (r.len() / 2) as int;
    if interleaved {
        gamma.times(operand_poly::strided_value(r, 0, 2, m)).plus(
            g2.times(operand_poly::strided_value(r, 1, 2, m)),
        )
    } else {
        g2.times(operand_poly::strided_value(r, 0, 1, r.len() as int))
    }
}

/// The machine before its first phase.
pub open spec fn fresh<F: Field>(s: PhaseState<F>) -> bool {
    &&& s.wf()
    &&& s.challenges.len() == 0
    &&& s.chunk is None
    &&& s.checkpoints.left == F::of_int(0)
    &&& s.checkpoints.right == F::of_int(0)
    &&& s.checkpoints.identity == F::of_int(0)
    &&& forall|g: int|
        0 <= g < s.groups.len() ==> (#[trigger] s.groups[g]).phase_u_eval_sum
            == s.groups[g].u_eval_sum && s.groups[g].u_eval_sum.valid()
            && s.groups[g].lookup_index < pow2(s.log_k)
}

/// Every phase is fed with values that fit, and what a lookup reads at the end of a phase is what it
/// reads at the start of the next one.
pub open spec fn supplied<F: Field>(
    s: PhaseState<F>,
    supplies: Seq<Supply<F>>,
    shapes: Seq<ShapeModel<F>>,
    r: Seq<F>,
) -> bool {
    &&& s.log_k >= 8
    &&& supplies.len() == s.log_k / 8
    &&& r.len() == s.log_k
    &&& field::all_valid(r)
    &&& forall|p: int|
        0 <= p < supplies.len() ==> fed(
            #[trigger] after_phases(s, supplies, shapes, r, p),
            phase_inputs(s, supplies, shapes, r, p),
        )
    &&& forall|p: int, g: int|
        0 <= p < supplies.len() - 1 && 0 <= g < s.groups.len() ==> #[trigger] read_value(
            phase_inputs(s, supplies, shapes, r, p),
            Some(phase_point(r, p)),
            g,
        ) == read_value(phase_inputs(s, supplies, shapes, r, p + 1), None, g)
}

/// The machine after some phases: the checkpoints are the operands and the index at the bound part
/// of the point, and the weights are restricted to it.
proof fn lemma_after_phases<F: Field>(
    s: PhaseState<F>,
    supplies: Seq<Supply<F>>,
    shapes: Seq<ShapeModel<F>>,
    r: Seq<F>,
    p: int,
)
    requires
        fresh(s),
        r.len() == s.log_k,
        field::all_valid(r),
        0 <= p <= s.log_k / 8,
    ensures
        ({
            let now = after_phases(s, supplies, shapes, r, p);
            let bound = r.take(8 * p);
            &&& now.challenges == bound
            &&& now.wf()
            &&& now.chunk is None
            &&& now.gamma == s.gamma
            &&& now.scale == s.scale
            &&& now.log_k == s.log_k
            &&& now.checkpoints.left == operand_poly::strided_value(bound, 0, 2, 4 * p)
            &&& now.checkpoints.right == operand_poly::strided_value(bound, 1, 2, 4 * p)
            &&& now.checkpoints.identity == operand_poly::strided_value(bound, 0, 1, 8 * p)
            &&& now.groups.len() == s.groups.len()
            &&& forall|g: int|
                0 <= g < s.groups.len() ==> (#[trigger] now.groups[g]).phase_u_eval_sum
                    == s.groups[g].u_eval_sum.times(
                    poly::eq_weight(
                        bound,
                        s.groups[g].lookup_index as int / (pow2((s.log_k - 8 * p) as nat) as int),
                    ),
                ) && now.groups[g].key() == s.groups[g].key() && now.groups[g].u_eval_sum
                    == s.groups[g].u_eval_sum
        }),
    decreases p,
{
    let now = after_phases(s, supplies, shapes, r, p);
    let bound = r.take(8 * p);
    vstd::arithmetic::power2::lemma2_to64();
    if p == 0 {
        assert(s.challenges =~= bound);
        assert(bound =~= Seq::<F>::empty());
        assert forall|g: int| 0 <= g < s.groups.len() implies (
            #[trigger] now.groups[g]
        ).phase_u_eval_sum == s.groups[g].u_eval_sum.times(
            poly::eq_weight(
                bound,
                s.groups[g].lookup_index as int / (pow2((s.log_k - 8 * p) as nat) as int),
            ),
        ) by {
            F::law_times_one(s.groups[g].u_eval_sum);
        }
    } else {
        lemma_after_phases(s, supplies, shapes, r, p - 1);
        let before = after_phases(s, supplies, shapes, r, p - 1);
        let old_bound = r.take(8 * (p - 1));
        let x = phase_point(r, p - 1);
        assert(old_bound + x =~= bound);
        let ck = before.checkpoints;
        lemma_operand_bound(ck.left, true, x);
        lemma_operand_bound(ck.right, false, x);
        lemma_identity_bound(ck.identity, x);
        lemma_strided_concat(old_bound, x, 0, 2, 4 * (p - 1), 4);
        lemma_strided_concat(old_bound, x, 1, 2, 4 * (p - 1), 4);
        lemma_strided_concat(old_bound, x, 0, 1, 8 * (p - 1), 8);
        let below = (s.log_k - 8 * p) as nat;
        assert(before.below() == below);
        assert forall|g: int| 0 <= g < s.groups.len() implies (
            #[trigger] now.groups[g]
        ).phase_u_eval_sum == s.groups[g].u_eval_sum.times(
            poly::eq_weight(bound, s.groups[g].lookup_index as int / (pow2(below) as int)),
        ) && now.groups[g].key() == s.groups[g].key() && now.groups[g].u_eval_sum
            == s.groups[g].u_eval_sum by {
            assert(before.groups[g].key() == s.groups[g].key());
            let idx = s.groups[g].lookup_index as int;
            let y = idx / (pow2(below) as int);
            let c = address_phase::chunk_value(idx, below);
            vstd::arithmetic::power2::lemma_pow2_pos(below);
            poly::lemma_pow2_concat(below, 8);
            vstd::arithmetic::div_mod::lemma_div_denominator(idx, pow2(below) as int, 256);
            let high = idx / (pow2(below + 8) as int);
            assert(high == y / 256);
            vstd::arithmetic::div_mod::lemma_fundamental_div_mod(y, 256);
            vstd::arithmetic::div_mod::lemma_mod_bound(y, 256);
            poly::lemma_eq_weight_concat(old_bound, x, high, c);
            assert(high * 256 + c == y);
            F::law_times_assoc(
                s.groups[g].u_eval_sum,
                poly::eq_weight(old_bound, high),
                poly::eq_weight(x, c),
            );
            assert(below + 8 == (s.log_k - 8 * (p - 1)) as nat);
        }
    }
}

/// The address phase reduces the sum over the lookups of the weight times the value to the sum of
/// the weight, the equality polynomial at the bound point and the index, and the value at the bound
/// point.
///
/// The first chunk sums to the former, the bound last chunk to the latter, and every bound chunk to
/// the next one.
pub proof fn law_reduction<F: Field>(
    s: PhaseState<F>,
    supplies: Seq<Supply<F>>,
    shapes: Seq<ShapeModel<F>>,
    r: Seq<F>,
)
    requires
        fresh(s),
        supplied(s, supplies, shapes, r),
    ensures
        ({
            let last = supplies.len() - 1;
            let first_chunk = phase_inputs(s, supplies, shapes, r, 0);
            let last_chunk = phase_inputs(s, supplies, shapes, r, last);
            let n = s.groups.len() as int;
            &&& first_chunk.sum().total() == sums::sum(
                n,
                |g: int|
                    s.groups[g].u_eval_sum.times(
                        raf_of_index(
                            s.gamma,
                            s.groups[g].lookup_index as int,
                            s.groups[g].is_interleaved_operands,
                            s.log_k,
                        ).plus(read_value(first_chunk, None, g)),
                    ),
            )
            &&& last_chunk.sum().bind_all(phase_point(r, last)).total() == sums::sum(
                n,
                |g: int|
                    s.groups[g].u_eval_sum.times(
                        poly::eq_weight(r, s.groups[g].lookup_index as int),
                    ).times(
                        raf_at_point(s.gamma, r, s.groups[g].is_interleaved_operands).plus(
                            read_value(last_chunk, Some(phase_point(r, last)), g),
                        ),
                    ),
            )
            &&& forall|p: int|
                0 <= p < last ==> (#[trigger] phase_inputs(s, supplies, shapes, r, p)).sum().bind_all(
                    phase_point(r, p),
                ).total() == phase_inputs(s, supplies, shapes, r, p + 1).sum().total()
        }),
{
    let last = supplies.len() - 1;
    let n = s.groups.len() as int;
    lemma_reduction_start(s, supplies, shapes, r);
    lemma_reduction_end(s, supplies, shapes, r);
    assert forall|p: int| 0 <= p < last implies (#[trigger] phase_inputs(
        s,
        supplies,
        shapes,
        r,
        p,
    )).sum().bind_all(phase_point(r, p)).total() == phase_inputs(
        s,
        supplies,
        shapes,
        r,
        p + 1,
    ).sum().total() by {
        let first = phase_inputs(s, supplies, shapes, r, p);
        let second = phase_inputs(s, supplies, shapes, r, p + 1);
        lemma_after_phases(s, supplies, shapes, r, p);
        lemma_after_phases(s, supplies, shapes, r, p + 1);
        assert(fed(after_phases(s, supplies, shapes, r, p), first));
        assert(fed(after_phases(s, supplies, shapes, r, p + 1), second));
        law_seam(first, phase_point(r, p), second);
    }
}

proof fn lemma_reduction_start<F: Field>(
    s: PhaseState<F>,
    supplies: Seq<Supply<F>>,
    shapes: Seq<ShapeModel<F>>,
    r: Seq<F>,
)
    requires
        fresh(s),
        supplied(s, supplies, shapes, r),
    ensures
        phase_inputs(s, supplies, shapes, r, 0).sum().total() == sums::sum(
            s.groups.len() as int,
            |g: int|
                s.groups[g].u_eval_sum.times(
                    raf_of_index(
                        s.gamma,
                        s.groups[g].lookup_index as int,
                        s.groups[g].is_interleaved_operands,
                        s.log_k,
                    ).plus(read_value(phase_inputs(s, supplies, shapes, r, 0), None, g)),
                ),
        ),
{
    let inp = phase_inputs(s, supplies, shapes, r, 0);
    let n = s.groups.len() as int;
    assert(fed(after_phases(s, supplies, shapes, r, 0), inp));
    law_open(inp);
    let f = |g: int|
        inp.groups[g].phase_u_eval_sum.times(
            raf_value(
                inp.gamma,
                inp.checkpoints,
                inp.index(g),
                inp.groups[g].is_interleaved_operands,
                inp.below + 8,
            ).plus(read_value(inp, None, g)),
        );
    let target = |g: int|
        s.groups[g].u_eval_sum.times(
            raf_of_index(
                s.gamma,
                s.groups[g].lookup_index as int,
                s.groups[g].is_interleaved_operands,
                s.log_k,
            ).plus(read_value(inp, None, g)),
        );
    assert(inp.below + 8 == s.log_k);
    assert forall|g: int| 0 <= g < n implies #[trigger] f(g) == target(g) by {
        let x = inp.index(g);
        assert(s.groups[g].lookup_index < pow2(s.log_k));
        vstd::arithmetic::div_mod::lemma_small_mod(x as nat, pow2(s.log_k));
        lemma_zero_checkpoint::<F>(
            pow2(s.log_k / 2) as int,
            index_bits::left_operand(x, s.log_k),
        );
        lemma_zero_checkpoint::<F>(
            pow2(s.log_k / 2) as int,
            index_bits::right_operand(x, s.log_k),
        );
        lemma_zero_checkpoint::<F>(pow2(s.log_k) as int, x);
    }
    sums::lemma_sum_ext(n, f, target);
}

proof fn lemma_zero_checkpoint<F: Field>(a: int, b: int)
    ensures
        F::of_int(0).times(F::of_int(a)).plus(F::of_int(b)) == F::of_int(b),
{
    field::lemma_zero_times(F::of_int(a));
    F::law_of_int_valid(b);
    field::lemma_zero_plus(F::of_int(b));
}

proof fn lemma_reduction_end<F: Field>(
    s: PhaseState<F>,
    supplies: Seq<Supply<F>>,
    shapes: Seq<ShapeModel<F>>,
    r: Seq<F>,
)
    requires
        fresh(s),
        supplied(s, supplies, shapes, r),
    ensures
        ({
            let last = supplies.len() - 1;
            let inp = phase_inputs(s, supplies, shapes, r, last);
            inp.sum().bind_all(phase_point(r, last)).total() == sums::sum(
                s.groups.len() as int,
                |g: int|
                    s.groups[g].u_eval_sum.times(
                        poly::eq_weight(r, s.groups[g].lookup_index as int),
                    ).times(
                        raf_at_point(s.gamma, r, s.groups[g].is_interleaved_operands).plus(
                            read_value(inp, Some(phase_point(r, last)), g),
                        ),
                    ),
            )
        }),
{
    let last = supplies.len() - 1;
    let inp = phase_inputs(s, supplies, shapes, r, last);
    let x = phase_point(r, last);
    let n = s.groups.len() as int;
    lemma_after_phases(s, supplies, shapes, r, last);
    lemma_after_phases(s, supplies, shapes, r, last + 1);
    let before = after_phases(s, supplies, shapes, r, last);
    let after = after_phases(s, supplies, shapes, r, last + 1);
    assert(fed(before, inp));
    law_close(inp, x);
    assert(8 * (last + 1) == s.log_k);
    assert(r.take(8 * (last + 1)) =~= r);
    assert(inp.below == 0);
    let ck = next_checkpoints(inp.checkpoints, x);
    assert(ck == after.checkpoints);
    let f = |g: int|
        address_phase::restricted(inp.groups, inp.below, x)[g].phase_u_eval_sum.times(
            raf_value(inp.gamma, ck, inp.index(g), inp.groups[g].is_interleaved_operands, inp.below).plus(
                read_value(inp, Some(x), g),
            ),
        );
    let target = |g: int|
        s.groups[g].u_eval_sum.times(poly::eq_weight(r, s.groups[g].lookup_index as int)).times(
            raf_at_point(s.gamma, r, s.groups[g].is_interleaved_operands).plus(
                read_value(inp, Some(x), g),
            ),
        );
    poly::lemma_pow2_zero();
    poly::lemma_mle_valid(address_phase::operand_prefix(inp.checkpoints.left, 8, true), x);
    poly::lemma_mle_valid(address_phase::operand_prefix(inp.checkpoints.right, 8, false), x);
    poly::lemma_mle_valid(address_phase::identity_prefix(inp.checkpoints.identity, 8), x);
    F::law_times_one(ck.left);
    F::law_times_one(ck.right);
    F::law_times_one(ck.identity);
    F::law_plus_zero(ck.left);
    F::law_plus_zero(ck.right);
    F::law_plus_zero(ck.identity);
    assert forall|g: int| 0 <= g < n implies #[trigger] f(g) == target(g) by {
        let idx = s.groups[g].lookup_index as int;
        assert(after.groups[g].key() == s.groups[g].key());
        assert(before.groups[g].key() == s.groups[g].key());
        assert(idx / 1 == idx);
        assert(idx % 1 == 0);
        assert(s.log_k - 8 * (last + 1) == 0);
    }
    sums::lemma_sum_ext(n, f, target);
}

/// The machine in a round: at the first bit of a chunk the chunk is opened.
pub open spec fn in_round<F: Field>(
    s: PhaseState<F>,
    supplies: Seq<Supply<F>>,
    shapes: Seq<ShapeModel<F>>,
    i: int,
) -> PhaseState<F> {
    if i % 8 == 0 {
        let supply = supplies[i / 8];
        s.opened(s.inputs(supply.prefixes, supply.suffixes, shapes).sum())
    } else {
        s
    }
}

/// The machine and the claim after `i` rounds: in each round the chunk is open, the message under the
/// claim is evaluated at the challenge, and the challenge is bound.
pub open spec fn rounds<F: Field>(
    s: PhaseState<F>,
    supplies: Seq<Supply<F>>,
    shapes: Seq<ShapeModel<F>>,
    r: Seq<F>,
    claim: F,
    i: int,
) -> (PhaseState<F>, F)
    decreases i,
{
    if i <= 0 {
        (s, claim)
    } else {
        let (before, c) = rounds(s, supplies, shapes, r, claim, i - 1);
        let open = in_round(before, supplies, shapes, i - 1);
        (open.bind(r[i - 1]), univariate::eval(open.message(c), r[i - 1]))
    }
}

/// The address rounds, run one after the other from the scaled sum over the lookups of the weight
/// times the value: a chunk is open in every round, every message adds up to the claim it was made
/// under, and the last claim is the scaled sum of the weight, the equality polynomial at the
/// challenges and the index, and the value at the challenges.
pub proof fn law_rounds<F: Field>(
    s: PhaseState<F>,
    supplies: Seq<Supply<F>>,
    shapes: Seq<ShapeModel<F>>,
    r: Seq<F>,
    claim: F,
)
    requires
        fresh(s),
        supplied(s, supplies, shapes, r),
        claim == sums::sum(
            s.groups.len() as int,
            |g: int|
                s.groups[g].u_eval_sum.times(
                    raf_of_index(
                        s.gamma,
                        s.groups[g].lookup_index as int,
                        s.groups[g].is_interleaved_operands,
                        s.log_k,
                    ).plus(read_value(phase_inputs(s, supplies, shapes, r, 0), None, g)),
                ),
        ).times(s.scale),
    ensures
        rounds(s, supplies, shapes, r, claim, s.log_k as int).0 == after_phases(
            s,
            supplies,
            shapes,
            r,
            supplies.len() as int,
        ),
        rounds(s, supplies, shapes, r, claim, s.log_k as int).1 == sums::sum(
            s.groups.len() as int,
            |g: int|
                s.groups[g].u_eval_sum.times(
                    poly::eq_weight(r, s.groups[g].lookup_index as int),
                ).times(
                    raf_at_point(s.gamma, r, s.groups[g].is_interleaved_operands).plus(
                        read_value(
                            phase_inputs(s, supplies, shapes, r, supplies.len() - 1),
                            Some(phase_point(r, supplies.len() - 1)),
                            g,
                        ),
                    ),
                ),
        ).times(s.scale),
        forall|i: int|
            0 <= i < s.log_k ==> ({
                let (before, c) = #[trigger] rounds(s, supplies, shapes, r, claim, i);
                let open = in_round(before, supplies, shapes, i);
                let q = open.message(c);
                &&& i % 8 == 0 ==> before.wf() && before.chunk is None
                &&& open.wf()
                &&& open.chunk is Some
                &&& open.challenges.len() == i
                &&& univariate::eval(q, F::of_int(0)).plus(univariate::eval(q, F::of_int(1))) == c
            }),
        rounds(s, supplies, shapes, r, claim, s.log_k as int).0.challenges == r,
{
    let phases = supplies.len() as int;
    law_reduction(s, supplies, shapes, r);
    lemma_rounds(s, supplies, shapes, r, claim, phases);
    assert(8 * phases == s.log_k);
    lemma_after_phases(s, supplies, shapes, r, phases);
    assert(r.take(8 * phases) =~= r);
    assert forall|i: int| 0 <= i < s.log_k implies ({
        let (before, c) = #[trigger] rounds(s, supplies, shapes, r, claim, i);
        let open = in_round(before, supplies, shapes, i);
        let q = open.message(c);
        &&& i % 8 == 0 ==> before.wf() && before.chunk is None
        &&& open.wf()
        &&& open.chunk is Some
        &&& open.challenges.len() == i
        &&& univariate::eval(q, F::of_int(0)).plus(univariate::eval(q, F::of_int(1))) == c
    }) by {
        let p = i / 8;
        lemma_rounds(s, supplies, shapes, r, claim, p);
        lemma_chunk_rounds(s, supplies, shapes, r, claim, p, i % 8);
        assert(8 * p + i % 8 == i);
        let (before, c) = rounds(s, supplies, shapes, r, claim, i);
        let open = in_round(before, supplies, shapes, i);
        let start = after_phases(s, supplies, shapes, r, p);
        lemma_after_phases(s, supplies, shapes, r, p);
        lemma_open_chunk(
            start,
            phase_inputs(s, supplies, shapes, r, p),
            r.subrange(8 * p, 8 * p + i % 8),
        );
        law_message(open, F::of_int(0));
        law_message(open, F::of_int(1));
        folding::law_halves(open.chunk->0, (8 - open.challenges.len() % 8) as nat);
        field::lemma_distrib_right(
            open.scale,
            open.chunk->0.bind(F::of_int(0)).total(),
            open.chunk->0.bind(F::of_int(1)).total(),
        );
    }
}

/// The rounds of the first `p` phases.
proof fn lemma_rounds<F: Field>(
    s: PhaseState<F>,
    supplies: Seq<Supply<F>>,
    shapes: Seq<ShapeModel<F>>,
    r: Seq<F>,
    claim: F,
    p: int,
)
    requires
        fresh(s),
        supplied(s, supplies, shapes, r),
        claim == phase_inputs(s, supplies, shapes, r, 0).sum().total().times(s.scale),
        0 <= p <= supplies.len(),
    ensures
        ({
            let (now, c) = rounds(s, supplies, shapes, r, claim, 8 * p);
            let last = phase_inputs(s, supplies, shapes, r, p - 1).sum().bind_all(
                phase_point(r, p - 1),
            );
            &&& now == after_phases(s, supplies, shapes, r, p)
            &&& p < supplies.len() ==> c == phase_inputs(
                s,
                supplies,
                shapes,
                r,
                p,
            ).sum().total().times(s.scale)
            &&& p > 0 ==> c == last.total().times(s.scale)
        }),
    decreases p,
{
    if p > 0 {
        lemma_rounds(s, supplies, shapes, r, claim, p - 1);
        lemma_chunk_rounds(s, supplies, shapes, r, claim, p - 1, 8);
        law_reduction(s, supplies, shapes, r);
        let before = after_phases(s, supplies, shapes, r, p - 1);
        let inp = phase_inputs(s, supplies, shapes, r, p - 1);
        lemma_after_phases(s, supplies, shapes, r, p - 1);
        assert(fed(before, inp));
        assert(r.subrange(8 * (p - 1), 8 * (p - 1) + 8) == phase_point(r, p - 1));
        law_phase(before, inp, phase_point(r, p - 1));
        assert(8 * (p - 1) + 8 == 8 * p);
        if p < supplies.len() {
            assert(phase_inputs(s, supplies, shapes, r, p - 1).sum().bind_all(
                phase_point(r, p - 1),
            ).total() == phase_inputs(s, supplies, shapes, r, (p - 1) + 1).sum().total());
        }
    }
}

/// A machine in the middle of a chunk is open, and its sum can be bound further.
proof fn lemma_open_chunk<F: Field>(s: PhaseState<F>, inp: ChunkInputs<F>, xs: Seq<F>)
    requires
        s.wf(),
        s.chunk is None,
        s.challenges.len() < s.log_k,
        fed(s, inp),
        xs.len() < 8,
    ensures
        ({
            let open = bind_all(s.opened(inp.sum()), xs);
            &&& open.wf()
            &&& open.scale == s.scale
            &&& open.challenges.len() == s.challenges.len() + xs.len()
            &&& open.chunk == Some(inp.sum().bind_all(xs))
            &&& open.chunk->0.shaped((8 - open.challenges.len() % 8) as nat)
            &&& open.chunk->0.canonical()
            &&& open.chunk->0.terms.len() > 0
        }),
{
    let n = inp.shapes.len() as int;
    lemma_mid_chunk(s, inp, xs);
    address_phase::lemma_sum_shaped(inp);
    lemma_columns_valid(inp, n);
    assert(inp.sum().canonical());
    folding::lemma_bind_all_shaped(inp.sum(), 8, xs);
    lemma_some_terms(inp, n);
    address_phase::lemma_columns_grow(inp, 0, n);
    assert((s.challenges + xs).len() % 8 == xs.len());
}

/// The first `q` rounds of phase `p`.
proof fn lemma_chunk_rounds<F: Field>(
    s: PhaseState<F>,
    supplies: Seq<Supply<F>>,
    shapes: Seq<ShapeModel<F>>,
    r: Seq<F>,
    claim: F,
    p: int,
    q: int,
)
    requires
        fresh(s),
        supplied(s, supplies, shapes, r),
        0 <= p < supplies.len(),
        0 <= q <= 8,
        rounds(s, supplies, shapes, r, claim, 8 * p) == (
            after_phases(s, supplies, shapes, r, p),
            phase_inputs(s, supplies, shapes, r, p).sum().total().times(s.scale),
        ),
    ensures
        ({
            let start = after_phases(s, supplies, shapes, r, p);
            let inp = phase_inputs(s, supplies, shapes, r, p);
            let xs = r.subrange(8 * p, 8 * p + q);
            let (now, c) = rounds(s, supplies, shapes, r, claim, 8 * p + q);
            let open = bind_all(start.opened(inp.sum()), xs);
            &&& q > 0 ==> now == open
            &&& q < 8 ==> in_round(now, supplies, shapes, 8 * p + q) == open
            &&& c == inp.sum().bind_all(xs).total().times(s.scale)
        }),
    decreases q,
{
    let start = after_phases(s, supplies, shapes, r, p);
    let inp = phase_inputs(s, supplies, shapes, r, p);
    let m = inp.sum();
    let xs = r.subrange(8 * p, 8 * p + q);
    lemma_after_phases(s, supplies, shapes, r, p);
    assert(fed(start, inp));
    assert(8 * p + 8 <= s.log_k);
    let i = 8 * p + q;
    if q == 0 {
        folding::lemma_bind_all_push(m, xs, F::of_int(0));
        assert(xs =~= Seq::<F>::empty());
        assert(i % 8 == 0 && i / 8 == p);
    } else {
        lemma_chunk_rounds(s, supplies, shapes, r, claim, p, q - 1);
        let before = r.subrange(8 * p, 8 * p + (q - 1));
        let open = bind_all(start.opened(m), before);
        let x = r[i - 1];
        assert(before.push(x) =~= xs);
        assert(xs.drop_last() =~= before);
        assert(xs.last() == x);
        lemma_open_chunk(start, inp, before);
        law_message(open, x);
        folding::lemma_bind_all_push(m, before, x);
        let (last, cl) = rounds(s, supplies, shapes, r, claim, i - 1);
        assert(i - 1 == 8 * p + (q - 1));
        assert(in_round(last, supplies, shapes, i - 1) == open);
        assert(open.message(cl) == univariate::hinted(
            open.chunk->0.total().times(open.scale),
            open.chunk->0.bind(F::of_int(0)).total().times(open.scale),
            open.chunk->0.bind(F::of_int(2)).total().times(open.scale),
        ));
        if q < 8 {
            assert(i % 8 != 0);
        }
    }
}

proof fn lemma_some_terms<F: Field>(inp: ChunkInputs<F>, n: int)
    ensures
        inp.terms(n).len() > 0,
    decreases n,
{
    if n > 0 {
        lemma_some_terms(inp, n - 1);
    }
}

} // verus!
