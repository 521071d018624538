//! What an accepted proof satisfies: how many elements its checks take and how many challenges they draw,
//! and what the first message of every check adds up to.

use crate::field::Field;
use crate::framework::accumulator::{
    Claims, CommittedPolynomial, OpeningId, SumcheckId, VirtualPolynomial,
};
use crate::framework::batching;
use crate::framework::batching::ClaimView;
use crate::framework::poly;
use crate::framework::sumcheck;
use crate::framework::sums;
use crate::framework::transcript;
use crate::framework::transcript::FsState;
use crate::framework::univariate;
use crate::r1cs::key::R1csKey;
use crate::zkvm::booleanity;
use crate::zkvm::driver;
use crate::zkvm::driver::BinaryClaims;
use crate::zkvm::logup::gkr;
use crate::zkvm::logup::gkr::LevelClaim;
use crate::zkvm::logup::pushforward;
use crate::zkvm::logup::CircuitTag;
use crate::zkvm::memory;
use crate::zkvm::ram::ra_virtual;
use crate::zkvm::ram::stage as ram_stage;
use crate::zkvm::ram::stage::PublicColumns;
use crate::zkvm::read_raf_stage;
use crate::zkvm::read_raf_stage::InputsModel;
use crate::zkvm::registers::stage as registers_stage;
use crate::zkvm::shout_read_raf;
use crate::zkvm::spartan::stage as spartan_stage;
use crate::zkvm::spartan::stage::SpartanProof;
use vstd::arithmetic::power2::pow2;
use vstd::prelude::*;

verus! {

/// What the first `n` elements to be received, read as a polynomial, add up to over zero and one.
pub open spec fn first_sum<F: Field>(s: FsState<F>, n: int) -> F {
    let m = s.tape.take(n);
    univariate::eval(m, F::of_int(0)).plus(univariate::eval(m, F::of_int(1)))
}

/// An accepted registers proof: the three seeds are batched with the powers of the challenge drawn
/// after the cycle point.
pub proof fn law_registers_accepted<F: Field>(
    proof: registers_stage::StageClaims<F>,
    log_t: nat,
    log_k: nat,
    acc: Claims<F>,
    s: FsState<F>,
)
    requires
        registers_stage::verdict(proof, log_t, log_k, acc, s).0 is Ok,
    ensures
        ({
            let s1 = registers_stage::verdict(proof, log_t, log_k, acc, s).2;
            let g = s.squeeze_n(log_t).next();
            &&& s1.history.len() == s.history.len() + log_t + 1 + log_t * 4 + 1 + (log_k + log_t) * 5
                + log_t * 5
            &&& s.tape.len() == s1.tape.len() + log_t * 3 + (log_k + log_t) * 4 + log_t * 4
            &&& log_t > 0 ==> first_sum(s, 3) == proof.seeds[0].plus(g.times(proof.seeds[1])).plus(
                g.times(g).times(proof.seeds[2]),
            )
        }),
{
    let s1 = s.squeeze_n(log_t);
    let g = s1.next();
    let claim = proof.seeds[0].plus(g.times(proof.seeds[1])).plus(
        g.times(g).times(proof.seeds[2]),
    );
    transcript::lemma_drawn(s, log_t);
    sumcheck::law_accepted(claim, log_t, 2, s1.squeeze());
    let (first, s2) = sumcheck::verify_run(claim, log_t, 2, s1.squeeze());
    let xs = (first->Ok_0).0;
    let acc2 = crate::zkvm::claim_reductions::registers::cached(
        registers_stage::seeded(acc, s.coins(log_t), proof.seeds),
        xs,
        proof.cr[0],
        proof.cr[1],
        proof.cr[2],
    );
    law_accesses_accepted(proof, log_t, log_k, xs.reverse(), acc2, s2);
}

/// An accepted read-write check of the registers: the reduced claims are batched with a fresh
/// challenge.
pub proof fn law_accesses_accepted<F: Field>(
    proof: registers_stage::StageClaims<F>,
    log_t: nat,
    log_k: nat,
    r: Seq<F>,
    acc: Claims<F>,
    s: FsState<F>,
)
    requires
        registers_stage::verdict_rw(proof, log_t, log_k, r, acc, s).0 is Ok,
    ensures
        ({
            let s1 = registers_stage::verdict_rw(proof, log_t, log_k, r, acc, s).2;
            let g = s.next();
            &&& s1.history.len() == s.history.len() + 1 + (log_k + log_t) * 5 + log_t * 5
            &&& s.tape.len() == s1.tape.len() + (log_k + log_t) * 4 + log_t * 4
            &&& log_k + log_t > 0 ==> first_sum(s, 4) == proof.cr[0].plus(
                g.times(proof.cr[1].plus(g.times(proof.cr[2]))),
            )
        }),
{
    let g = s.next();
    let claim = proof.cr[0].plus(g.times(proof.cr[1].plus(g.times(proof.cr[2]))));
    sumcheck::law_accepted(claim, log_k + log_t, 3, s.squeeze());
    let (second, s1) = sumcheck::verify_run(claim, log_k + log_t, 3, s.squeeze());
    let ys = (second->Ok_0).0;
    let acc1 = crate::zkvm::registers::read_write_checking::cached(
        acc,
        log_k as int,
        ys,
        registers_stage::reduced(proof.rw),
    );
    law_value_accepted(proof, log_t, log_k, ys.reverse(), acc1, s1);
}

/// An accepted value evaluation of the registers starts from the opened value.
pub proof fn law_value_accepted<F: Field>(
    proof: registers_stage::StageClaims<F>,
    log_t: nat,
    log_k: nat,
    y: Seq<F>,
    acc: Claims<F>,
    s: FsState<F>,
)
    requires
        registers_stage::verdict_ve(proof, log_t, log_k, y, acc, s).0 is Ok,
    ensures
        ({
            let s1 = registers_stage::verdict_ve(proof, log_t, log_k, y, acc, s).2;
            &&& s1.history.len() == s.history.len() + log_t * 5
            &&& s.tape.len() == s1.tape.len() + log_t * 4
            &&& log_t > 0 ==> first_sum(s, 4) == proof.rw[0]
        }),
{
    sumcheck::law_accepted(proof.rw[0], log_t, 3, s);
}

/// An accepted memory proof: the two value seeds are batched with the challenge drawn after the cycle
/// point and the address weights, the three claims of the batch are absorbed before its coefficients
/// are drawn, and a check over the addresses alone counts once for every cycle.
pub proof fn law_ram_accepted<F: Field>(
    proof: ram_stage::StageClaims<F>,
    log_t: nat,
    log_k: nat,
    public: PublicColumns<F>,
    acc: Claims<F>,
    s: FsState<F>,
)
    requires
        ram_stage::verdict(proof, log_t, log_k, public, acc, s).0 is Ok,
    ensures
        ({
            let s1 = ram_stage::verdict(proof, log_t, log_k, public, acc, s).2;
            let drawn = s.squeeze_n(log_t).squeeze_n(log_k);
            let g = drawn.next();
            let claims = seq![
                proof.seeds[0].plus(g.times(proof.seeds[1])),
                proof.seeds[2],
                F::of_int(0),
            ];
            let coeffs = drawn.squeeze().absorb(claims).coins(3);
            &&& s1.history.len() == s.history.len() + log_t + log_k + 1 + 3 + 3 + (log_k + log_t) * 5
                + 1 + log_t * 5
            &&& s.tape.len() == s1.tape.len() + (log_k + log_t) * 4 + log_t * 4
            &&& log_k + log_t > 0 ==> first_sum(s, 4) == sums::sum(
                3,
                |i: int|
                    coeffs[i].times(
                        F::of_int(
                            if i == 0 {
                                1
                            } else {
                                pow2(log_t) as int
                            },
                        ).times(claims[i]),
                    ),
            )
        }),
{
    let drawn = s.squeeze_n(log_t).squeeze_n(log_k);
    let g = drawn.next();
    let views = ram_stage::batch_claims(log_t, log_k, proof.seeds, g);
    let claims = seq![proof.seeds[0].plus(g.times(proof.seeds[1])), proof.seeds[2], F::of_int(0)];
    transcript::lemma_drawn(s, log_t);
    transcript::lemma_drawn(s.squeeze_n(log_t), log_k);
    assert(views.map_values(|c: ClaimView<F>| c.sum) =~= claims);
    let absorbed = drawn.squeeze().absorb(claims);
    transcript::lemma_drawn(absorbed, 3);
    let coeffs = absorbed.coins(3);
    lemma_three(|i: int| views[i].vars);
    lemma_three(|i: int| views[i].degree);
    let n = log_k + log_t;
    let claim = batching::combined_claim(views, coeffs);
    sumcheck::law_accepted(claim, n, 3, absorbed.squeeze_n(3));
    vstd::arithmetic::power2::lemma2_to64();
    let f = |i: int|
        coeffs[i].times(
            F::of_int(
                if i == 0 {
                    1
                } else {
                    pow2(log_t) as int
                },
            ).times(claims[i]),
        );
    let h = |i: int|
        coeffs[i].times(
            batching::weight::<F>(batching::batch_vars(views), views[i].vars).times(views[i].sum),
        );
    assert forall|i: int| 0 <= i < 3 implies #[trigger] f(i) == h(i) by {
        if i == 0 {
            assert((n - views[0].vars) as nat == 0);
        } else {
            assert((n - views[i].vars) as nat == log_t);
        }
    }
    sums::lemma_sum_ext(3, f, h);
    let (first, s3) = sumcheck::verify_run(claim, n, 3, absorbed.squeeze_n(3));
    let xs = (first->Ok_0).0;
    let acc2 = ram_stage::batch_cached(
        ram_stage::seeded(acc, s.coins(log_t), proof.seeds),
        log_t as int,
        log_k as int,
        s.coins(log_t),
        xs,
        proof.rw,
        proof.raf,
        proof.oc,
    );
    law_words_accepted(proof, log_t, log_k, xs.reverse(), acc2, s3);
}

proof fn lemma_three(f: spec_fn(int) -> nat)
    ensures
        batching::largest(f, 3) == univariate::longer(
            univariate::longer(univariate::longer(0, f(0)), f(1)),
            f(2),
        ),
{
    reveal_with_fuel(batching::largest, 4);
}

/// An accepted value check of the memory: the value claim and the final claim are batched with a fresh
/// challenge, and the memory starts out as zeros.
pub proof fn law_words_accepted<F: Field>(
    proof: ram_stage::StageClaims<F>,
    log_t: nat,
    log_k: nat,
    y: Seq<F>,
    acc: Claims<F>,
    s: FsState<F>,
)
    requires
        ram_stage::verdict_vc(proof, log_t, log_k, y, acc, s).0 is Ok,
    ensures
        ({
            let s1 = ram_stage::verdict_vc(proof, log_t, log_k, y, acc, s).2;
            let g = s.next();
            let zero = F::of_int(0);
            &&& s1.history.len() == s.history.len() + 1 + log_t * 5
            &&& s.tape.len() == s1.tape.len() + log_t * 4
            &&& log_t > 0 ==> first_sum(s, 4) == proof.rw[0].minus(zero).plus(
                g.times(proof.oc.minus(zero)),
            )
        }),
{
    let zeros = Seq::new(pow2(log_k), |i: int| F::of_int(0));
    ram_stage::lemma_mle_zeros(zeros, y.take(log_k as int));
    let g = s.next();
    let zero = F::of_int(0);
    let claim = proof.rw[0].minus(zero).plus(g.times(proof.oc.minus(zero)));
    sumcheck::law_accepted(claim, log_t, 3, s.squeeze());
}

/// An accepted Spartan proof: the row sum is zero, and it ends at the value of the three row claims
/// under the row point drawn first.
pub proof fn law_rows_accepted<F: Field>(
    proof: SpartanProof<F>,
    key: R1csKey<F>,
    acc: Claims<F>,
    s: FsState<F>,
)
    requires
        spartan_stage::verdict(proof, key, acc, s).0 is Ok,
    ensures
        ({
            let n = key.row_vars();
            let k = key.col_vars();
            let s1 = spartan_stage::verdict(proof, key, acc, s).2;
            let run = sumcheck::verify_run(F::of_int(0), n, 3, s.squeeze_n(n)).0;
            let (xs, value) = run->Ok_0;
            &&& s1.history.len() == s.history.len() + n + n * 5 + 3 + k * 4
            &&& s.tape.len() == s1.tape.len() + n * 4 + k * 3
            &&& n > 0 ==> first_sum(s, 4) == F::of_int(0)
            &&& run is Ok
            &&& value == poly::eq_mle(s.coins(n), xs.reverse()).times(
                proof.az_rx.times(proof.bz_rx).minus(proof.cz_rx),
            )
        }),
{
    let n = key.row_vars();
    transcript::lemma_drawn(s, n);
    sumcheck::law_accepted(F::of_int(0), n, 3, s.squeeze_n(n));
    let (first, s1) = sumcheck::verify_run(F::of_int(0), n, 3, s.squeeze_n(n));
    let xs = (first->Ok_0).0;
    let acc1 = crate::zkvm::spartan::outer::cached(
        acc,
        xs.reverse(),
        proof.az_rx,
        proof.bz_rx,
        proof.cz_rx,
    );
    law_columns_accepted(proof, key, xs.reverse(), acc1, s1);
}

/// An accepted reduction to the assignment: the three row claims are batched with three fresh
/// challenges.
pub proof fn law_columns_accepted<F: Field>(
    proof: SpartanProof<F>,
    key: R1csKey<F>,
    r_x: Seq<F>,
    acc: Claims<F>,
    s: FsState<F>,
)
    requires
        spartan_stage::verdict_inner(proof, key, r_x, acc, s).0 is Ok,
    ensures
        ({
            let k = key.col_vars();
            let s1 = spartan_stage::verdict_inner(proof, key, r_x, acc, s).2;
            let c = s.coins(3);
            &&& s1.history.len() == s.history.len() + 3 + k * 4
            &&& s.tape.len() == s1.tape.len() + k * 3
            &&& k > 0 ==> first_sum(s, 3) == c[0].times(proof.az_rx).plus(
                c[1].times(proof.bz_rx),
            ).plus(c[2].times(proof.cz_rx))
        }),
{
    let c = s.coins(3);
    let claim = c[0].times(proof.az_rx).plus(c[1].times(proof.bz_rx)).plus(
        c[2].times(proof.cz_rx),
    );
    transcript::lemma_drawn(s, 3);
    sumcheck::law_accepted(claim, key.col_vars(), 2, s.squeeze_n(3));
}

/// An accepted access reduction: the three access claims are batched with the powers of a fresh
/// challenge.
pub proof fn law_reduction_accepted<F: Field>(
    proof: memory::StageClaims<F>,
    log_t: nat,
    log_k: nat,
    acc: Claims<F>,
    s: FsState<F>,
)
    requires
        memory::verdict_ra(proof, log_t, log_k, acc, s).0 is Ok,
    ensures
        ({
            let s1 = memory::verdict_ra(proof, log_t, log_k, acc, s).2;
            let g = s.next();
            let claim = |id: SumcheckId| acc[OpeningId::Virtual(VirtualPolynomial::RamRa, id)].1;
            &&& s1.history.len() == s.history.len() + 1 + log_t * 4 + 1 + log_t * 4
            &&& s.tape.len() == s1.tape.len() + log_t * 3 + log_t * 3
            &&& log_t > 0 ==> first_sum(s, 3) == claim(SumcheckId::RamRafEvaluation).plus(
                g.times(claim(SumcheckId::RamReadWriteChecking)),
            ).plus(g.times(g).times(claim(SumcheckId::RamValCheck)))
        }),
{
    let g = s.next();
    let claim = memory::ra_claim(acc, g);
    sumcheck::law_accepted(claim, log_t, 2, s.squeeze());
    let (r, s1) = sumcheck::verify_run(claim, log_t, 2, s.squeeze());
    let acc1 = crate::zkvm::claim_reductions::ram_ra::cached(
        acc,
        memory::ra_address(acc, log_k as int),
        (r->Ok_0).0,
        proof.ram_ra,
    );
    law_increments_accepted(proof, log_t, acc1, s1);
}

/// An accepted increment reduction: the four increment claims are batched with the powers of a fresh
/// challenge.
pub proof fn law_increments_accepted<F: Field>(
    proof: memory::StageClaims<F>,
    log_t: nat,
    acc: Claims<F>,
    s: FsState<F>,
)
    requires
        memory::verdict_inc(proof, log_t, acc, s).0 is Ok,
    ensures
        ({
            let s1 = memory::verdict_inc(proof, log_t, acc, s).2;
            let g = s.next();
            let claim = |p: CommittedPolynomial, id: SumcheckId| acc[OpeningId::Committed(p, id)].1;
            &&& s1.history.len() == s.history.len() + 1 + log_t * 4
            &&& s.tape.len() == s1.tape.len() + log_t * 3
            &&& log_t > 0 ==> first_sum(s, 3) == claim(
                CommittedPolynomial::RamInc,
                SumcheckId::RamReadWriteChecking,
            ).plus(
                g.times(claim(CommittedPolynomial::RamInc, SumcheckId::RamValCheck)),
            ).plus(
                g.times(g).times(
                    claim(CommittedPolynomial::RdInc, SumcheckId::RegistersReadWriteChecking),
                ),
            ).plus(
                g.times(g).times(g).times(
                    claim(CommittedPolynomial::RdInc, SumcheckId::RegistersValEvaluation),
                ),
            )
        }),
{
    let g = s.next();
    let claim = crate::zkvm::claim_reductions::increments::input(g, acc);
    sumcheck::law_accepted(claim, log_t, 2, s.squeeze());
}

/// An accepted proof that the sign and carry columns hold bits: the sum is zero, and it ends, at the
/// cycle point drawn first, at how much the openings miss being bits, batched with the even powers of
/// the challenge drawn after that point.
pub proof fn law_bits_accepted<F: Field>(
    evals: Seq<F>,
    log_t: nat,
    acc: Claims<F>,
    s: FsState<F>,
)
    requires
        evals.len() <= usize::MAX,
        driver::verdict_aux(evals, log_t, acc, s).0 is Ok,
    ensures
        ({
            let s1 = driver::verdict_aux(evals, log_t, acc, s).2;
            let drawn = s.squeeze_n(log_t);
            let g = drawn.next();
            let run = sumcheck::verify_run(F::of_int(0), log_t, 3, drawn.squeeze()).0;
            let (xs, value) = run->Ok_0;
            &&& s1.history.len() == s.history.len() + log_t + 1 + log_t * 5
            &&& s.tape.len() == s1.tape.len() + log_t * 4
            &&& log_t > 0 ==> first_sum(s, 4) == F::of_int(0)
            &&& run is Ok
            &&& value == poly::eq_mle(s.coins(log_t), xs.reverse()).times(
                sums::sum(
                    evals.len() as int,
                    |k: int|
                        sums::power(g.times(g), k).times(
                            evals[k].times(evals[k]).minus(evals[k]),
                        ),
                ),
            )
        }),
{
    let drawn = s.squeeze_n(log_t);
    let g = drawn.next();
    transcript::lemma_drawn(s, log_t);
    sumcheck::law_accepted(F::of_int(0), log_t, 3, drawn.squeeze());
    let run = sumcheck::verify_run(F::of_int(0), log_t, 3, drawn.squeeze()).0;
    let xs = (run->Ok_0).0;
    let n = evals.len();
    let acc1 = booleanity::cached(acc, xs, evals, n as int);
    let gp = booleanity::even_powers(g, n);
    let w = booleanity::reduced(acc1, gp.len());
    assert forall|k: int| 0 <= k < n implies #[trigger] w[k] == evals[k] by {
        booleanity::lemma_cached(acc, xs, evals, n as int, k);
    }
    sums::lemma_sum_ext(
        n as int,
        |k: int| gp[k].times(w[k].times(w[k]).minus(w[k])),
        |k: int| sums::power(g.times(g), k).times(evals[k].times(evals[k]).minus(evals[k])),
    );
}

/// An accepted read check: the read claims of the stages, each under its own name, are batched with the
/// powers of a fresh challenge.
pub proof fn law_reads_accepted<F: Field>(
    openings: Seq<F>,
    inputs: InputsModel<F>,
    acc: Claims<F>,
    s: FsState<F>,
)
    requires
        read_raf_stage::verdict(openings, inputs, acc, s).0 is Ok,
    ensures
        ({
            let s1 = read_raf_stage::verdict(openings, inputs, acc, s).2;
            let d = inputs.widths.len();
            let n = shout_read_raf::address_bits(inputs.widths) + inputs.log_t;
            let g = s.next();
            &&& s1.history.len() == s.history.len() + 1 + n * (d + 3)
            &&& s.tape.len() == s1.tape.len() + n * (d + 2)
            &&& n > 0 ==> first_sum(s, d as int + 2) == sums::sum(
                inputs.stages.len() as int,
                |i: int|
                    sums::power(g, i).times(
                        acc[OpeningId::Virtual(
                            inputs.stages[i].rv_key.0,
                            inputs.stages[i].rv_key.1,
                        )].1,
                    ),
            )
        }),
{
    let g = s.next();
    let m = inputs.batched(g);
    let d = inputs.widths.len();
    let claim = shout_read_raf::input(m.gp, m.stages, acc);
    sumcheck::law_accepted(claim, m.vars(), d + 1, s.squeeze());
    sums::lemma_sum_ext(
        inputs.stages.len() as int,
        |i: int| m.gp[i].times(acc[shout_read_raf::rv_id(m.stages[i])].1),
        |i: int|
            sums::power(g, i).times(
                acc[OpeningId::Virtual(inputs.stages[i].rv_key.0, inputs.stages[i].rv_key.1)].1,
            ),
    );
}

/// What a family draws: the chunk point after its claims, and the shift after the claims combined at
/// that point. All of it joins the history in this order.
pub proof fn law_family_drawn<F: Field>(claims: Seq<F>, log_d: nat, s: FsState<F>)
    requires
        claims.len() <= pow2(log_d),
    ensures
        ({
            let (drawn, s1) = pushforward::draw(claims, log_d, s);
            let before = s.history + claims;
            let then = before + drawn.r_chunk + seq![drawn.combined];
            &&& drawn.r_chunk.len() == log_d
            &&& forall|i: int|
                0 <= i < log_d ==> #[trigger] drawn.r_chunk[i] == (s.coin)(
                    before + drawn.r_chunk.take(i),
                )
            &&& drawn.combined == poly::mle(claims, drawn.r_chunk.reverse())
            &&& drawn.alpha == (s.coin)(then)
            &&& s1.history == then + seq![drawn.alpha]
            &&& s1.tape == s.tape
        }),
{
    let (drawn, s1) = pushforward::draw(claims, log_d, s);
    let absorbed = s.absorb(claims);
    transcript::law_drawn_in_order(absorbed, log_d);
    let then = s.history + claims + drawn.r_chunk + seq![drawn.combined];
    assert(s1.history =~= then + seq![drawn.alpha]);
    assert forall|i: int| 0 <= i < log_d implies #[trigger] drawn.r_chunk[i] == (s.coin)(
        s.history + claims + drawn.r_chunk.take(i),
    ) by {
        assert(absorbed.coins(log_d)[i] == (absorbed.coin)(
            absorbed.history + absorbed.coins(log_d).take(i),
        ));
    }
    sums::lemma_sum_ext(
        claims.len() as int,
        |i: int| claims[i].times(poly::eq_weight(drawn.r_chunk.reverse(), i)),
        |i: int| claims[i].times(poly::eq_weight(drawn.r_chunk.reverse(), i)),
    );
}

/// Accepted layers of a circuit from layer `k` on: in layer `i`, `i` messages are taken with a challenge
/// after each, then the four values of the layer, and then three challenges are drawn. The first
/// message adds up to the batched claim, and the last three challenges make the claim that is left:
/// the first of its point, and the weights of its numerator and denominator.
pub proof fn law_layers_accepted<F: Field>(
    tag: CircuitTag,
    k: nat,
    size: nat,
    c: LevelClaim<F>,
    s: FsState<F>,
)
    requires
        k < size,
        gkr::verify_layers(tag, k, size, c, s).0 is Ok,
    ensures
        ({
            let (r, s1) = gkr::verify_layers(tag, k, size, c, s);
            let left = r->Ok_0;
            let end = s1.history.len() as int;
            &&& 2 * (s1.history.len() - s.history.len()) == 5 * (size * (size - 1) - k * (k - 1))
                + 14 * (size - k)
            &&& 2 * (s.tape.len() - s1.tape.len()) == 4 * (size * (size - 1) - k * (k - 1)) + 8 * (
            size - k)
            &&& k > 0 ==> first_sum(s, 4) == c.alpha.times(c.n).plus(c.beta.times(c.d))
            &&& left.point.len() == size
            &&& end >= 3
            &&& left.point[0] == s1.history[end - 3]
            &&& left.alpha == s1.history[end - 2]
            &&& left.beta == s1.history[end - 1]
            &&& left.point[0] == (s.coin)(s1.history.take(end - 3))
            &&& left.alpha == (s.coin)(s1.history.take(end - 2))
            &&& left.beta == (s.coin)(s1.history.take(end - 1))
            &&& s1.coin == s.coin
        }),
    decreases size - k,
{
    let claim = c.alpha.times(c.n).plus(c.beta.times(c.d));
    let (run, s1) = sumcheck::verify_run(claim, k, 3, s);
    sumcheck::law_accepted(claim, k, 3, s);
    sumcheck::lemma_verify_coin(claim, Seq::empty(), k, 3, s);
    let xs = (run->Ok_0).0;
    let values = s1.tape.take(4);
    let s2 = s1.receive(4);
    transcript::law_drawn_in_order(s2, 3);
    let coins = s2.coins(3);
    let s3 = s2.squeeze_n(3);
    let next = gkr::joined(xs, values, coins);
    let after = (k + 1) as nat;
    assert(values.len() == 4);
    assert(s2.history.len() == s1.history.len() + 4);
    assert(k * 5 == 5 * k && k * 4 == 4 * k);
    assert(s3.history.len() == s.history.len() + 5 * k + 7);
    assert(s.tape.len() == s3.tape.len() + 4 * k + 4);
    assert(after * (after - 1) - k * (k - 1) == 2 * k) by (nonlinear_arith)
        requires
            after == k + 1,
    ;
    assert(gkr::verify_layers(tag, k, size, c, s) == gkr::verify_layers(tag, after, size, next, s3));
    if after < size {
        law_layers_accepted(tag, after, size, next, s3);
    } else {
        let end = s3.history.len() as int;
        assert(s3.history.take(end - 3) =~= s2.history + coins.take(0));
        assert(s3.history.take(end - 2) =~= s2.history + coins.take(1));
        assert(s3.history.take(end - 1) =~= s2.history + coins.take(2));
        assert(coins[0] == (s2.coin)(s2.history + coins.take(0)));
        assert(coins[1] == (s2.coin)(s2.history + coins.take(1)));
        assert(coins[2] == (s2.coin)(s2.history + coins.take(2)));
        assert(next.point[0] == coins[0]);
    }
}

/// An accepted circuit that is not a single gate: the root is the first fraction received, and, with
/// two weights drawn after it, it is the sum of the two fractions below, whose parts are received
/// next.
pub proof fn law_circuit_accepted<F: Field>(tag: CircuitTag, size: nat, s: FsState<F>)
    requires
        size > 0,
        gkr::verify_circuit_run(tag, size, s).0 is Ok,
    ensures
        ({
            let (r, s1) = gkr::verify_circuit_run(tag, size, s);
            let (left, root) = r->Ok_0;
            let taken = s.history + s.tape.take(2);
            let a = (s.coin)(taken);
            let b = (s.coin)(taken.push(a));
            let t = s.tape;
            &&& root == (t[0], t[1])
            &&& left.point.len() == size
            &&& 2 * (s1.history.len() - s.history.len()) == 8 + 5 * (size * (size - 1)) + 14 * size
            &&& 2 * (s.tape.len() - s1.tape.len()) == 4 + 4 * (size * (size - 1)) + 8 * size
            &&& a.times(t[0]).plus(b.times(t[1])) == poly::eq_mle(
                Seq::<F>::empty(),
                Seq::<F>::empty(),
            ).times(
                a.times(t[2].times(t[5]).plus(t[3].times(t[4]))).plus(b.times(t[4].times(t[5]))),
            )
        }),
{
    let roots = s.tape.take(2);
    let s1 = s.receive(2);
    transcript::law_drawn_in_order(s1, 2);
    let coins = s1.coins(2);
    let taken = s.history + roots;
    assert(s1.history + coins.take(0) =~= taken);
    assert(coins[0] == (s1.coin)(s1.history + coins.take(0)));
    assert(s1.history + coins.take(1) =~= taken.push(coins[0]));
    assert(coins[1] == (s1.coin)(s1.history + coins.take(1)));
    let c = gkr::root_claim(roots[0], roots[1], coins);
    law_layers_accepted(tag, 0, size, c, s1.squeeze_n(2));
    let s2 = s1.squeeze_n(2);
    assert(c.point.reverse() =~= Seq::<F>::empty());
    assert(Seq::<F>::empty().reverse() =~= Seq::<F>::empty());
    let values = s2.tape.take(4);
    assert(s2.tape.len() >= 4);
    assert(values =~= seq![s.tape[2], s.tape[3], s.tape[4], s.tape[5]]);
}

/// An accepted virtualization starts from the recorded dense claim of the read address, in messages of
/// one element more than there are chunk openings and an equality to multiply.
pub proof fn law_virtualization_accepted<F: Field>(
    openings: Seq<F>,
    d: nat,
    log_k: nat,
    log_t: nat,
    chunk_bits: nat,
    acc: Claims<F>,
    s: FsState<F>,
)
    requires
        ra_virtual::verdict(openings, d, log_k, log_t, chunk_bits, acc, s).0 is Ok,
    ensures
        ({
            let s1 = ra_virtual::verdict(openings, d, log_k, log_t, chunk_bits, acc, s).2;
            &&& s1.history.len() == s.history.len() + log_t * (d + 3)
            &&& s.tape.len() == s1.tape.len() + log_t * (d + 2)
            &&& log_t > 0 ==> first_sum(s, d as int + 2) == acc[OpeningId::Virtual(
                VirtualPolynomial::RamRa,
                SumcheckId::RamRaClaimReduction,
            )].1
        }),
{
    sumcheck::law_accepted(acc[ra_virtual::ra_id()].1, log_t, d + 1, s);
}

/// An accepted memory stage has run every check of the memory, every check of the registers and both
/// reductions: it has taken their messages and drawn their challenges.
pub proof fn law_memory_accepted<F: Field>(
    proof: memory::StageClaims<F>,
    log_t: nat,
    ram_log_k: nat,
    reg_log_k: nat,
    public: PublicColumns<F>,
    acc: Claims<F>,
    s: FsState<F>,
)
    requires
        memory::verdict(proof, log_t, ram_log_k, reg_log_k, public, acc, s).0 is Ok,
    ensures
        ({
            let s1 = memory::verdict(proof, log_t, ram_log_k, reg_log_k, public, acc, s).2;
            &&& s1.history.len() == s.history.len() + 12 + 34 * log_t + 6 * ram_log_k + 5 * reg_log_k
            &&& s.tape.len() == s1.tape.len() + 25 * log_t + 4 * ram_log_k + 4 * reg_log_k
            &&& ram_stage::verdict(proof.ram, log_t, ram_log_k, public, acc, s).0 is Ok
        }),
{
    let (_, acc1, s1) = ram_stage::verdict(proof.ram, log_t, ram_log_k, public, acc, s);
    law_ram_accepted(proof.ram, log_t, ram_log_k, public, acc, s);
    let (_, acc2, s2) = registers_stage::verdict(proof.registers, log_t, reg_log_k, acc1, s1);
    law_registers_accepted(proof.registers, log_t, reg_log_k, acc1, s1);
    law_reduction_accepted(proof, log_t, ram_log_k, acc2, s2);
}

/// An accepted proof of the constraints and the memory has run the Spartan checks, the memory stage and
/// the check of the sign and carry columns.
pub proof fn law_binary_accepted<F: Field>(
    proof: BinaryClaims<F>,
    key: R1csKey<F>,
    log_t: nat,
    ram_log_k: nat,
    reg_log_k: nat,
    public: PublicColumns<F>,
    acc: Claims<F>,
    s: FsState<F>,
)
    requires
        proof.aux.len() <= usize::MAX,
        driver::verdict(proof, key, log_t, ram_log_k, reg_log_k, public, acc, s).0 is Ok,
    ensures
        ({
            let s1 = driver::verdict(proof, key, log_t, ram_log_k, reg_log_k, public, acc, s).2;
            let rows = key.row_vars();
            let columns = key.col_vars();
            &&& s1.history.len() == s.history.len() + 16 + 6 * rows + 4 * columns + 40 * log_t + 6
                * ram_log_k + 5 * reg_log_k
            &&& s.tape.len() == s1.tape.len() + 4 * rows + 3 * columns + 29 * log_t + 4 * ram_log_k
                + 4 * reg_log_k
            &&& spartan_stage::verdict(proof.spartan, key, acc, s).0 is Ok
        }),
{
    let (_, acc1, s1) = spartan_stage::verdict(proof.spartan, key, acc, s);
    law_rows_accepted(proof.spartan, key, acc, s);
    let (_, acc2, s2) = memory::verdict(
        proof.memory,
        log_t,
        ram_log_k,
        reg_log_k,
        public,
        acc1,
        s1,
    );
    law_memory_accepted(proof.memory, log_t, ram_log_k, reg_log_k, public, acc1, s1);
    law_bits_accepted(proof.aux, log_t, acc2, s2);
}

} // verus!
