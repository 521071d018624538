//! Sums weighted by `eq(w, .)`, proved from their running claim.
//!
//! In every round the weights contribute a linear factor, so a round polynomial is known from one
//! coefficient less than its degree asks for and from the running claim, which its values at zero and
//! one add up to. A prover that works in this way sends round polynomials that always add up. A wrong
//! claim is carried along, scaled by one factor per round, and shows at the end.

use crate::field;
use crate::field::Field;
use crate::framework::sumcheck;
use crate::framework::sumcheck::{SumTable, SumcheckError, VirtualSum};
use crate::framework::transcript;
use crate::framework::transcript::{FsState, ProverFs};
use crate::framework::univariate;
use crate::framework::univariate::UnivariatePoly;
use vstd::prelude::*;

verus! {

/// What a round polynomial gains for every unit that is missing to the claim: the variable times the
/// linear factor of the weight coordinate `w`, divided by the value of that factor at one.
pub open spec fn slack<F: Field>(w: F) -> Seq<F> {
    let low = F::of_int(1).minus(w);
    univariate::poly_shift(
        seq![low.times(w.inverse()), w.minus(low).times(w.inverse())],
    )
}

/// The values of a polynomial at zero and one, added.
pub open spec fn ends<F: Field>(m: Seq<F>) -> F {
    univariate::eval(m, F::of_int(0)).plus(univariate::eval(m, F::of_int(1)))
}

/// The round polynomial of a sum with weight coordinate `w` under a running claim.
pub open spec fn claimed_message<F: Field>(t: SumTable<F>, w: F, claim: F) -> Seq<F> {
    let m = t.message();
    if ends(m) == claim {
        m
    } else {
        univariate::poly_plus(m, univariate::poly_scale(claim.minus(ends(m)), slack(w)))
    }
}

/// The challenges and the transcript after the prover's remaining `n` rounds on a running claim, `xs`
/// being the challenges already drawn.
pub open spec fn claimed_rounds<F: Field>(
    t: SumTable<F>,
    w: Seq<F>,
    claim: F,
    xs: Seq<F>,
    n: nat,
    s: FsState<F>,
) -> (Seq<F>, FsState<F>)
    decreases n,
{
    if n == 0 {
        (xs, s)
    } else {
        let m = claimed_message(t, w[n - 1], claim);
        let sent = s.send(m);
        let c = sent.next();
        claimed_rounds(
            t.bind(c),
            w,
            univariate::eval(m, c),
            xs.push(c),
            (n - 1) as nat,
            sent.squeeze(),
        )
    }
}

/// The challenges and the transcript after a proof from a claim, one round per weight coordinate.
pub open spec fn claimed_run<F: Field>(t: SumTable<F>, w: Seq<F>, claim: F, s: FsState<F>) -> (
    Seq<F>,
    FsState<F>,
) {
    claimed_rounds(t, w, claim, Seq::empty(), w.len(), s)
}

/// The factor by which a wrong claim is scaled in the rounds with the given challenges.
pub open spec fn carried<F: Field>(w: Seq<F>, xs: Seq<F>) -> F
    decreases xs.len(),
{
    if xs.len() == 0 {
        F::of_int(1)
    } else {
        univariate::eval(slack(w[xs.len() - 1]), xs[0]).times(carried(w, xs.skip(1)))
    }
}

/// Every coordinate has an inverse.
pub open spec fn invertible<F: Field>(w: Seq<F>) -> bool {
    forall|i: int| 0 <= i < w.len() ==> (#[trigger] w[i]).times(w[i].inverse()) == F::of_int(1)
}

/// The slack is zero at zero and one at one.
pub proof fn lemma_slack_ends<F: Field>(w: F)
    requires
        w.valid(),
        w.times(w.inverse()) == F::of_int(1),
    ensures
        univariate::eval(slack(w), F::of_int(0)) == F::of_int(0),
        univariate::eval(slack(w), F::of_int(1)) == F::of_int(1),
{
    let (zero, one) = (F::of_int(0), F::of_int(1));
    let inv = w.inverse();
    let low = one.minus(w);
    let (a, d) = (low.times(inv), w.minus(low).times(inv));
    F::law_valid(low, inv);
    F::law_valid(w.minus(low), inv);
    univariate::lemma_eval_shift(seq![a, d], zero);
    univariate::lemma_eval_shift(seq![a, d], one);
    univariate::lemma_eval_line(a, d, one);
    field::lemma_zero_times(univariate::eval(seq![a, d], zero));
    field::lemma_one_times(d);
    field::lemma_distrib_right(inv, low, w.minus(low));
    field::lemma_minus_plus(w, low);
    F::law_valid(a, d);
    field::lemma_one_times(a.plus(d));
}

/// The round polynomial adds up to the claim.
pub proof fn lemma_message_adds_up<F: Field>(t: SumTable<F>, w: F, claim: F)
    requires
        claim.valid(),
        w.valid(),
        w.times(w.inverse()) == F::of_int(1),
    ensures
        ends(claimed_message(t, w, claim)) == claim,
{
    let m = t.message();
    if ends(m) != claim {
        let (zero, one) = (F::of_int(0), F::of_int(1));
        let gap = claim.minus(ends(m));
        let extra = univariate::poly_scale(gap, slack(w));
        lemma_slack_ends(w);
        univariate::lemma_eval_plus(m, extra, zero);
        univariate::lemma_eval_plus(m, extra, one);
        univariate::lemma_eval_scale(gap, slack(w), zero);
        univariate::lemma_eval_scale(gap, slack(w), one);
        F::law_valid(claim, ends(m));
        field::lemma_zero_times(gap);
        field::lemma_one_times(gap);
        let (m0, m1) = (univariate::eval(m, zero), univariate::eval(m, one));
        field::lemma_plus_exchange(m0, zero, m1, gap);
        field::lemma_zero_plus(gap);
        field::lemma_minus_plus(claim, ends(m));
    }
}

/// The round polynomial has as many coefficients as the verifier reads.
pub proof fn lemma_claimed_len<F: Field>(t: SumTable<F>, n: nat, w: F, claim: F)
    requires
        t.shaped(n),
        n > 0,
        t.formula.degree() >= 2,
    ensures
        claimed_message(t, w, claim).len() == t.formula.degree() + 1,
{
    sumcheck::lemma_message_len(t, n);
}

/// The round polynomial at `x`: the sum bound at `x`, and what is missing to the claim times the
/// slack.
pub proof fn lemma_claimed_eval<F: Field>(t: SumTable<F>, n: nat, w: F, claim: F, x: F)
    requires
        t.shaped(n),
        n > 0,
        t.canonical(),
    ensures
        univariate::eval(claimed_message(t, w, claim), x) == t.bind(x).total().plus(
            claim.minus(t.total()).times(univariate::eval(slack(w), x)),
        ),
        univariate::eval(claimed_message(t, w, claim), x).valid(),
{
    let m = t.message();
    let gap = claim.minus(t.total());
    let h = univariate::eval(slack(w), x);
    sumcheck::lemma_message_eval(t, n, x);
    sumcheck::lemma_message_consistent(t, n);
    let bound = t.bind(x).total();
    assert(bound.valid()) by {
        univariate::lemma_eval_valid(m, x);
    }
    if ends(m) == claim {
        field::lemma_minus_self(claim);
        field::lemma_zero_times(h);
        field::lemma_zero_plus(bound);
    } else {
        let extra = univariate::poly_scale(gap, slack(w));
        univariate::lemma_eval_plus(m, extra, x);
        univariate::lemma_eval_scale(gap, slack(w), x);
        F::law_valid(bound, gap.times(h));
    }
}

/// A claim that is true is proved by the rounds of the sum itself.
pub proof fn lemma_true_rounds<F: Field>(
    t: SumTable<F>,
    w: Seq<F>,
    xs: Seq<F>,
    n: nat,
    s: FsState<F>,
)
    requires
        t.shaped(n),
        t.canonical(),
    ensures
        claimed_rounds(t, w, t.total(), xs, n, s) == sumcheck::prove_rounds(t, xs, n, s),
    decreases n,
{
    if n > 0 {
        let m = t.message();
        sumcheck::lemma_message_consistent(t, n);
        let sent = s.send(m);
        let c = sent.next();
        sumcheck::lemma_message_eval(t, n, c);
        sumcheck::lemma_bind_shaped(t, n, c);
        lemma_true_rounds(t.bind(c), w, xs.push(c), (n - 1) as nat, sent.squeeze());
    }
}

/// A true claim is proved as the sum itself is.
pub proof fn law_true_claim<F: Field>(t: SumTable<F>, w: Seq<F>, claim: F, s: FsState<F>)
    requires
        t.shaped(w.len()),
        t.canonical(),
        claim == t.total(),
    ensures
        claimed_run(t, w, claim, s) == sumcheck::prove_run(t, w.len(), s),
{
    lemma_true_rounds(t, w, Seq::empty(), w.len(), s);
}

/// The prover only appends to the tape, and draws one challenge per round.
pub proof fn lemma_rounds_extend<F: Field>(
    t: SumTable<F>,
    w: Seq<F>,
    claim: F,
    xs: Seq<F>,
    n: nat,
    s: FsState<F>,
)
    ensures
        s.tape.is_prefix_of(claimed_rounds(t, w, claim, xs, n, s).1.tape),
        claimed_rounds(t, w, claim, xs, n, s).1.coin == s.coin,
        claimed_rounds(t, w, claim, xs, n, s).0.len() == xs.len() + n,
        xs.is_prefix_of(claimed_rounds(t, w, claim, xs, n, s).0),
    decreases n,
{
    if n > 0 {
        let m = claimed_message(t, w[n - 1], claim);
        let sent = s.send(m);
        let c = sent.next();
        lemma_rounds_extend(
            t.bind(c),
            w,
            univariate::eval(m, c),
            xs.push(c),
            (n - 1) as nat,
            sent.squeeze(),
        );
        assert(s.tape.is_prefix_of(sent.tape));
        assert(xs.is_prefix_of(xs.push(c)));
    }
}

/// A run of the prover only appends to the tape.
pub proof fn lemma_run_extends<F: Field>(t: SumTable<F>, w: Seq<F>, claim: F, s: FsState<F>)
    ensures
        s.tape.is_prefix_of(claimed_run(t, w, claim, s).1.tape),
        claimed_run(t, w, claim, s).1.coin == s.coin,
        claimed_run(t, w, claim, s).0.len() == w.len(),
{
    lemma_rounds_extend(t, w, claim, Seq::empty(), w.len(), s);
}

/// The rounds are accepted, and what is missing to the claim is carried along.
proof fn lemma_accepted_rounds<F: Field>(
    t: SumTable<F>,
    w: Seq<F>,
    claim: F,
    xs: Seq<F>,
    n: nat,
    p: FsState<F>,
    v: FsState<F>,
    whole: Seq<F>,
)
    requires
        t.shaped(n),
        t.canonical(),
        t.formula.degree() >= 2,
        n <= w.len(),
        field::all_valid(w),
        invertible(w),
        claim.valid(),
        transcript::synced(p, v, whole),
        claimed_rounds(t, w, claim, xs, n, p).1.tape.is_prefix_of(whole),
    ensures
        ({
            let (cs, p1) = claimed_rounds(t, w, claim, xs, n, p);
            let (verdict, v1) = sumcheck::verify_rounds(claim, xs, n, t.formula.degree(), v);
            let tail = cs.skip(xs.len() as int);
            &&& verdict == Ok::<(Seq<F>, F), SumcheckError>(
                (
                    cs,
                    t.bind_all(tail).total().plus(
                        claim.minus(t.total()).times(carried(w, tail)),
                    ),
                ),
            )
            &&& transcript::synced(p1, v1, whole)
        }),
    decreases n,
{
    if n == 0 {
        assert(xs.skip(xs.len() as int) =~= Seq::<F>::empty());
        F::law_valid(claim, t.total());
        field::lemma_one_times(claim.minus(t.total()));
        field::lemma_minus_plus(claim, t.total());
    } else {
        let wn = w[n - 1];
        let m = claimed_message(t, wn, claim);
        let sent = p.send(m);
        let c = sent.next();
        let t1 = t.bind(c);
        let claim1 = univariate::eval(m, c);
        let xs1 = xs.push(c);
        let n1 = (n - 1) as nat;
        lemma_rounds_extend(t1, w, claim1, xs1, n1, sent.squeeze());
        let (cs, p1) = claimed_rounds(t1, w, claim1, xs1, n1, sent.squeeze());
        transcript::lemma_prefix_trans(sent.tape, p1.tape, whole);
        transcript::lemma_synced_send(p, v, whole, m);
        lemma_claimed_len(t, n, wn, claim);
        lemma_message_adds_up(t, wn, claim);
        lemma_claimed_eval(t, n, wn, claim, c);
        sumcheck::lemma_bind_shaped(t, n, c);
        let received = v.receive(m.len());
        assert(received.history == sent.history);
        assert(transcript::synced(sent.squeeze(), received.squeeze(), whole));
        lemma_accepted_rounds(t1, w, claim1, xs1, n1, sent.squeeze(), received.squeeze(), whole);
        let tail = cs.skip(xs.len() as int);
        assert(tail[0] == c) by {
            assert(xs1.is_prefix_of(cs));
            assert(cs[xs.len() as int] == xs1[xs.len() as int]);
        }
        assert(tail.skip(1) =~= cs.skip(xs1.len() as int));
        assert(tail.len() == n);
        let gap = claim.minus(t.total());
        let h = univariate::eval(slack(wn), c);
        let rest = carried(w, tail.skip(1));
        F::law_valid(gap, h);
        F::law_times_assoc(gap, h, rest);
        field::lemma_plus_minus(t1.total(), gap.times(h));
    }
}

/// Whatever the claim, the rounds are accepted, and the reduced value is the formula at the bound
/// columns, off by the error of the claim times the factor it was carried by.
pub proof fn law_claim_carried<F: Field>(
    t: SumTable<F>,
    w: Seq<F>,
    claim: F,
    p: FsState<F>,
    v: FsState<F>,
    whole: Seq<F>,
)
    requires
        t.shaped(w.len()),
        t.canonical(),
        t.formula.degree() >= 2,
        field::all_valid(w),
        invertible(w),
        claim.valid(),
        transcript::synced(p, v, whole),
        claimed_run(t, w, claim, p).1.tape.is_prefix_of(whole),
    ensures
        ({
            let (cs, p1) = claimed_run(t, w, claim, p);
            let (verdict, v1) = sumcheck::verify_run(claim, w.len(), t.formula.degree(), v);
            &&& verdict == Ok::<(Seq<F>, F), SumcheckError>(
                (
                    cs,
                    t.formula.value(sumcheck::final_row(t.columns, cs)).plus(
                        claim.minus(t.total()).times(carried(w, cs)),
                    ),
                ),
            )
            &&& transcript::synced(p1, v1, whole)
        }),
{
    lemma_accepted_rounds(t, w, claim, Seq::empty(), w.len(), p, v, whole);
    lemma_run_extends(t, w, claim, p);
    let cs = claimed_run(t, w, claim, p).0;
    assert(cs.skip(0) =~= cs);
    sumcheck::lemma_final_total(t, cs);
}

/// The slack of a weight coordinate.
fn slack_poly<F: Field>(w: F) -> (r: UnivariatePoly<F>)
    ensures
        r@ == slack(w),
{
    let inv: F = w.invert();
    let low: F = field::one::<F>().sub(w);
    let mut coefficients: Vec<F> = Vec::new();
    coefficients.push(field::zero());
    coefficients.push(low.mul(inv));
    coefficients.push(w.sub(low).mul(inv));
    let r: UnivariatePoly<F> = UnivariatePoly::new(coefficients);
    assert(r@ =~= slack(w));
    r
}

/// The round polynomial of a sum with weight coordinate `w` under a running claim.
pub fn compute_claimed_message<F: Field>(
    sum: &VirtualSum<F>,
    num_vars: usize,
    w: F,
    claim: F,
) -> (r: UnivariatePoly<F>)
    requires
        sum@.shaped(num_vars as nat),
        num_vars > 0,
    ensures
        r@ == claimed_message(sum@, w, claim),
{
    let m: UnivariatePoly<F> = sum.compute_message(num_vars);
    let both: F = m.evaluate(field::zero()).add(m.evaluate(field::one()));
    if both.same(claim) {
        return m;
    }
    let gap: F = claim.sub(both);
    let unit: UnivariatePoly<F> = slack_poly(w);
    let mut scaled: Vec<F> = Vec::new();
    for i in 0..3usize
        invariant
            unit@ == slack(w),
            scaled@ == univariate::poly_scale(gap, slack(w)).take(i as int),
    {
        scaled.push(gap.mul(unit.coefficients[i]));
        assert(scaled@ =~= univariate::poly_scale(gap, slack(w)).take(i + 1));
    }
    assert(scaled@ =~= univariate::poly_scale(gap, slack(w)));
    m.plus(&UnivariatePoly::new(scaled))
}

/// Prove a sum with weights `eq(w, .)` from a claim, one round per coordinate, the last coordinate
/// first.
pub fn prove_claimed<F: Field, T: ProverFs<F>>(
    sum: &mut VirtualSum<F>,
    w: &[F],
    claim: F,
    t: &mut T,
) -> (r: Vec<F>)
    requires
        old(sum)@.shaped(w@.len()),
    ensures
        r@ == claimed_run(old(sum)@, w@, claim, old(t).state()).0,
        final(t).state() == claimed_run(old(sum)@, w@, claim, old(t).state()).1,
        final(sum)@ == old(sum)@.bind_all(r@),
        r@.len() == w@.len(),
{
    let n: usize = w.len();
    let mut xs: Vec<F> = Vec::new();
    let mut running: F = claim;
    let ghost tab = sum@;
    let ghost start = t.state();
    proof {
        assert(tab.bind_all(Seq::empty()) == tab);
    }
    for i in 0..n
        invariant
            n == w@.len(),
            xs@.len() == i,
            sum@.shaped((n - i) as nat),
            sum@ == tab.bind_all(xs@),
            claimed_run(tab, w@, claim, start) == claimed_rounds(
                sum@,
                w@,
                running,
                xs@,
                (n - i) as nat,
                t.state(),
            ),
    {
        let m: UnivariatePoly<F> = compute_claimed_message(sum, n - i, w[n - i - 1], running);
        t.send(&m.coefficients);
        let c: F = t.challenge();
        proof {
            sumcheck::lemma_bind_shaped(sum@, (n - i) as nat, c);
            sumcheck::lemma_bind_all_push(tab, xs@, c);
        }
        sum.bind(c);
        running = m.evaluate(c);
        xs.push(c);
    }
    xs
}

} // verus!
