//! The grand-sum argument: two circuits that add fractions have the same root.
//!
//! Circuit `A` adds `eq(r, j) / (alpha - M(j))` over the rows, circuit `B` adds `P(k) / (alpha - k)`
//! over the columns. Each is walked from the root to the leaves, one layer at a time. What is left
//! is a claim about `M`, and one about `P`.

use crate::field;
use crate::field::Field;
use crate::framework::accumulator;
use crate::framework::accumulator::{
    Claims, CommittedPolynomial, OpeningId, Openings, SumcheckId,
};
use crate::framework::gruen;
use crate::framework::poly;
use crate::framework::sumcheck;
use crate::framework::sumcheck::{SumcheckClaim, SumcheckError};
use crate::framework::transcript;
use crate::framework::transcript::{FsState, ProverFs, VerifierFs};
use crate::zkvm::logup::circuit;
use crate::zkvm::logup::circuit::{Circuit, Gate};
use crate::zkvm::logup::layer;
use crate::zkvm::logup::layer::{f_combine, GkrLayer};
use crate::zkvm::logup::pushforward;
use crate::zkvm::logup::pushforward::{Drawn, FamilyModel, PushforwardData, VerifierView};
use crate::zkvm::logup::{idx_mle_lsb, index_column, CircuitTag, GkrError};
use vstd::arithmetic::power2::pow2;
use vstd::prelude::*;

verus! {

/// A claim about one level: the numerators and the denominators at a point, and the challenges that
/// batch them.
#[verifier::ext_equal]
pub struct LevelClaim<F> {
    pub point: Seq<F>,
    pub alpha: F,
    pub beta: F,
    pub n: F,
    pub d: F,
}

impl<F: Field> LevelClaim<F> {
    /// The batched claim.
    pub open spec fn batch(self) -> F {
        self.alpha.times(self.n).plus(self.beta.times(self.d))
    }

    /// The claim holds of the gates of a level.
    pub open spec fn holds(self, gates: Seq<Gate<F>>) -> bool {
        &&& self.n == poly::mle(layer::level_numerators(gates), self.point.reverse())
        &&& self.d == poly::mle(layer::level_denominators(gates), self.point.reverse())
    }
}

/// The claim about the root.
pub open spec fn root_claim<F: Field>(n: F, d: F, coins: Seq<F>) -> LevelClaim<F> {
    LevelClaim { point: Seq::empty(), alpha: coins[0], beta: coins[1], n, d }
}

/// The claim about the level below, from the four values of a layer.
pub open spec fn joined<F: Field>(xs: Seq<F>, values: Seq<F>, coins: Seq<F>) -> LevelClaim<F> {
    LevelClaim {
        point: seq![coins[0]] + xs,
        alpha: coins[1],
        beta: coins[2],
        n: values[0].plus(coins[0].times(values[1].minus(values[0]))),
        d: values[2].plus(coins[0].times(values[3].minus(values[2]))),
    }
}

/// The four values a layer sends.
pub open spec fn layer_values<F: Field>(
    gates: Seq<Gate<F>>,
    c: LevelClaim<F>,
    xs: Seq<F>,
) -> Seq<F> {
    let row = sumcheck::bound_row(layer::table(gates, c.point, c.alpha, c.beta).columns, xs);
    seq![row[1], row[2], row[3], row[4]]
}

/// The claim about the leaves and the transcript, from level `k` on.
pub open spec fn prove_layers<F: Field>(
    levels: Seq<Seq<Gate<F>>>,
    k: nat,
    size: nat,
    c: LevelClaim<F>,
    s: FsState<F>,
) -> (LevelClaim<F>, FsState<F>)
    decreases size - k,
{
    if k >= size {
        (c, s)
    } else {
        let gates = levels[(k + 1) as int];
        let (xs, s1) = gruen::claimed_run(
            layer::table(gates, c.point, c.alpha, c.beta),
            c.point.reverse(),
            c.batch(),
            s,
        );
        let values = layer_values(gates, c, xs);
        let s2 = s1.send(values);
        prove_layers(levels, k + 1, size, joined(xs, values, s2.coins(3)), s2.squeeze_n(3))
    }
}

/// The claim about the leaves of a circuit and the transcript after its proof.
pub open spec fn prove_circuit_run<F: Field>(levels: Seq<Seq<Gate<F>>>, s: FsState<F>) -> (
    LevelClaim<F>,
    FsState<F>,
) {
    let (n, d) = levels[0][0];
    let s1 = s.send(seq![n, d]);
    prove_layers(
        levels,
        0,
        (levels.len() - 1) as nat,
        root_claim(n, d, s1.coins(2)),
        s1.squeeze_n(2),
    )
}

/// The levels of a circuit have doubling sizes.
pub open spec fn doubling<F: Field>(levels: Seq<Seq<Gate<F>>>) -> bool {
    &&& levels.len() > 0
    &&& forall|k: int| 0 <= k < levels.len() ==> (#[trigger] levels[k]).len() == pow2(k as nat)
}

/// Prove one circuit, and return the leaf point with the leaf numerator and denominator.
pub fn prove_circuit<F: Field, T: ProverFs<F>>(circuit: &Circuit<F>, transcript: &mut T) -> (r: (
    Vec<F>,
    F,
    F,
))
    requires
        doubling(circuit@),
    ensures
        ({
            let (c, s) = prove_circuit_run(circuit@, old(transcript).state());
            r.0@ == c.point && r.1 == c.n && r.2 == c.d && final(transcript).state() == s
        }),
{
    let ghost levels = circuit@;
    let ghost run = prove_circuit_run(levels, transcript.state());
    let size: usize = circuit.log_size();
    proof {
        poly::lemma_pow2_zero();
        assert(levels[0].len() == 1);
    }
    let (n_root, d_root) = circuit.root();
    let mut roots: Vec<F> = Vec::new();
    roots.push(n_root);
    roots.push(d_root);
    assert(roots@ =~= seq![n_root, d_root]);
    transcript.send(&roots);
    proof {
        transcript::lemma_coins_len(transcript.state(), 2);
    }
    let coins: Vec<F> = transcript::challenge_vector(transcript, 2);
    let mut alpha: F = coins[0];
    let mut beta: F = coins[1];
    let mut point: Vec<F> = Vec::new();
    let mut leaf_n: F = n_root;
    let mut leaf_d: F = d_root;
    let ghost mut c = root_claim(n_root, d_root, coins@);
    assert(point@ =~= c.point);
    for k in 0..size
        invariant
            levels == circuit@,
            doubling(levels),
            size == levels.len() - 1,
            c == (LevelClaim { point: point@, alpha, beta, n: leaf_n, d: leaf_d }),
            point@.len() == k,
            run == prove_layers(levels, k as nat, size as nat, c, transcript.state()),
    {
        let ghost gates = levels[k + 1];
        let ghost s = transcript.state();
        let claim: F = alpha.mul(leaf_n).add(beta.mul(leaf_d));
        assert(levels[k + 1].len() == pow2((k + 1) as nat));
        let mut instance: GkrLayer<F> = GkrLayer::new(
            circuit.level(k + 1),
            point,
            alpha,
            beta,
            claim,
        );
        let ghost tab = instance.sum@;
        proof {
            layer::law_table_shaped(gates, c.point, alpha, beta);
        }
        let weights: Vec<F> = poly::reversed(&instance.point);
        let xs: Vec<F> = gruen::prove_claimed(&mut instance.sum, &weights, claim, transcript);
        proof {
            sumcheck::lemma_opened(tab, xs@, instance.sum@);
        }
        let (nl, nr, dl, dr) = instance.leaf_values();
        let mut values: Vec<F> = Vec::new();
        values.push(nl);
        values.push(nr);
        values.push(dl);
        values.push(dr);
        assert(values@ =~= layer_values(gates, c, xs@));
        transcript.send(&values);
        proof {
            transcript::lemma_coins_len(transcript.state(), 3);
        }
        let fresh: Vec<F> = transcript::challenge_vector(transcript, 3);
        let t: F = fresh[0];
        leaf_n = nl.add(t.mul(nr.sub(nl)));
        leaf_d = dl.add(t.mul(dr.sub(dl)));
        alpha = fresh[1];
        beta = fresh[2];
        point = prepend(t, &xs);
        proof {
            c = joined(xs@, values@, fresh@);
        }
    }
    (point, leaf_n, leaf_d)
}

/// A point with one more coordinate in front.
fn prepend<F: Field>(t: F, xs: &Vec<F>) -> (r: Vec<F>)
    ensures
        r@ == seq![t] + xs@,
{
    let mut head: Vec<F> = Vec::new();
    head.push(t);
    let r: Vec<F> = poly::concat(&head, xs);
    assert(head@ =~= seq![t]);
    r
}

/// The claim about the leaves or an error, and the transcript, from level `k` on.
pub open spec fn verify_layers<F: Field>(
    tag: CircuitTag,
    k: nat,
    size: nat,
    c: LevelClaim<F>,
    s: FsState<F>,
) -> (Result<LevelClaim<F>, GkrError>, FsState<F>)
    decreases size - k,
{
    if k >= size {
        (Ok(c), s)
    } else {
        let (verdict, s1) = sumcheck::verify_run(c.batch(), k, layer::DEGREE as nat, s);
        match verdict {
            Err(_) => (Err(GkrError::Sumcheck), s1),
            Ok((xs, value)) => if s1.tape.len() < 4 {
                (Err(GkrError::Sumcheck), s1)
            } else {
                let values = s1.tape.take(4);
                let s2 = s1.receive(4);
                if value != poly::eq_mle(c.point.reverse(), xs.reverse()).times(
                    layer::combine(c.alpha, c.beta, values[0], values[1], values[2], values[3]),
                ) {
                    (Err(GkrError::LayerConsistency { circuit: tag, layer: k as usize }), s2)
                } else {
                    verify_layers(
                        tag,
                        k + 1,
                        size,
                        joined(xs, values, s2.coins(3)),
                        s2.squeeze_n(3),
                    )
                }
            },
        }
    }
}

/// The claim about the leaves with the sent root, or an error, and the transcript after a circuit.
pub open spec fn verify_circuit_run<F: Field>(tag: CircuitTag, size: nat, s: FsState<F>) -> (
    Result<(LevelClaim<F>, Gate<F>), GkrError>,
    FsState<F>,
) {
    if s.tape.len() < 2 {
        (Err(GkrError::Sumcheck), s)
    } else {
        let roots = s.tape.take(2);
        let s1 = s.receive(2);
        let (verdict, s2) = verify_layers(
            tag,
            0,
            size,
            root_claim(roots[0], roots[1], s1.coins(2)),
            s1.squeeze_n(2),
        );
        match verdict {
            Err(e) => (Err(e), s2),
            Ok(c) => (Ok((c, (roots[0], roots[1]))), s2),
        }
    }
}

/// What a verified circuit leaves to be checked.
pub struct CircuitClaim<F> {
    pub point: Vec<F>,
    pub leaf_n: F,
    pub leaf_d: F,
    pub n_root: F,
    pub d_root: F,
}

/// The result of a circuit agrees with the specified one.
pub open spec fn agrees<F: Field>(
    r: Result<CircuitClaim<F>, GkrError>,
    run: Result<(LevelClaim<F>, Gate<F>), GkrError>,
) -> bool {
    match (r, run) {
        (Ok(a), Ok((c, root))) => {
            &&& a.point@ == c.point
            &&& a.leaf_n == c.n
            &&& a.leaf_d == c.d
            &&& (a.n_root, a.d_root) == root
        },
        (Err(e), Err(f)) => e == f,
        _ => false,
    }
}

/// Verify one circuit down to its leaves.
pub fn verify_circuit<F: Field, T: VerifierFs<F>>(
    log_size: usize,
    tag: CircuitTag,
    transcript: &mut T,
) -> (r: Result<CircuitClaim<F>, GkrError>)
    ensures
        agrees(r, verify_circuit_run(tag, log_size as nat, old(transcript).state()).0),
        final(transcript).state() == verify_circuit_run(
            tag,
            log_size as nat,
            old(transcript).state(),
        ).1,
{
    let ghost run = verify_circuit_run::<F>(tag, log_size as nat, transcript.state());
    let roots: Vec<F> = match transcript.receive(2) {
        None => {
            return Err(GkrError::Sumcheck);
        },
        Some(xs) => xs,
    };
    let n_root: F = roots[0];
    let d_root: F = roots[1];
    proof {
        transcript::lemma_coins_len(transcript.state(), 2);
    }
    let coins: Vec<F> = transcript::challenge_vector(transcript, 2);
    let mut alpha: F = coins[0];
    let mut beta: F = coins[1];
    let mut point: Vec<F> = Vec::new();
    let mut leaf_n: F = n_root;
    let mut leaf_d: F = d_root;
    let ghost mut c = root_claim(n_root, d_root, coins@);
    assert(point@ =~= c.point);
    let ghost layers = verify_layers(tag, 0, log_size as nat, c, transcript.state());
    for k in 0..log_size
        invariant
            c == (LevelClaim { point: point@, alpha, beta, n: leaf_n, d: leaf_d }),
            point@.len() == k,
            run == verify_circuit_run::<F>(tag, log_size as nat, old(transcript).state()),
            layers == verify_layers(tag, k as nat, log_size as nat, c, transcript.state()),
            run == (match layers.0 {
                Err(e) => (Err::<(LevelClaim<F>, Gate<F>), GkrError>(e), layers.1),
                Ok(c) => (Ok((c, (n_root, d_root))), layers.1),
            }),
    {
        let claim: SumcheckClaim<F> = SumcheckClaim {
            num_vars: k,
            degree: layer::DEGREE,
            claimed_sum: alpha.mul(leaf_n).add(beta.mul(leaf_d)),
        };
        let eval = match sumcheck::verify(&claim, transcript) {
            Err(_) => {
                return Err(GkrError::Sumcheck);
            },
            Ok(e) => e,
        };
        let values: Vec<F> = match transcript.receive(4) {
            None => {
                return Err(GkrError::Sumcheck);
            },
            Some(xs) => xs,
        };
        let (nl, nr, dl, dr) = (values[0], values[1], values[2], values[3]);
        let eq_bound: F = poly::eq_at(&poly::reversed(&point), &poly::reversed(&eval.point));
        let expected: F = eq_bound.mul(f_combine(alpha, beta, nl, nr, dl, dr));
        if !eval.value.same(expected) {
            return Err(GkrError::LayerConsistency { circuit: tag, layer: k });
        }
        proof {
            transcript::lemma_coins_len(transcript.state(), 3);
        }
        let fresh: Vec<F> = transcript::challenge_vector(transcript, 3);
        let t: F = fresh[0];
        leaf_n = nl.add(t.mul(nr.sub(nl)));
        leaf_d = dl.add(t.mul(dr.sub(dl)));
        alpha = fresh[1];
        beta = fresh[2];
        point = prepend(t, &eval.point);
        proof {
            c = joined(eval.point@, values@, fresh@);
        }
    }
    Ok(CircuitClaim { point, leaf_n, leaf_d, n_root, d_root })
}

/// The layers only append to the tape.
pub proof fn lemma_layers_extend<F: Field>(
    levels: Seq<Seq<Gate<F>>>,
    k: nat,
    size: nat,
    c: LevelClaim<F>,
    s: FsState<F>,
)
    ensures
        s.tape.is_prefix_of(prove_layers(levels, k, size, c, s).1.tape),
        prove_layers(levels, k, size, c, s).1.coin == s.coin,
        c.point.len() == k && k <= size ==> prove_layers(levels, k, size, c, s).0.point.len()
            == size,
    decreases size - k,
{
    if k < size {
        let gates = levels[(k + 1) as int];
        let tab = layer::table(gates, c.point, c.alpha, c.beta);
        let (xs, s1) = gruen::claimed_run(tab, c.point.reverse(), c.batch(), s);
        gruen::lemma_run_extends(tab, c.point.reverse(), c.batch(), s);
        let values = layer_values(gates, c, xs);
        let s2 = s1.send(values);
        transcript::lemma_coins_len(s2, 3);
        let c1 = joined(xs, values, s2.coins(3));
        lemma_layers_extend(levels, k + 1, size, c1, s2.squeeze_n(3));
        let end = prove_layers(levels, k, size, c, s).1.tape;
        assert(s1.tape.is_prefix_of(s2.tape));
        transcript::lemma_prefix_trans(s1.tape, s2.tape, end);
        transcript::lemma_prefix_trans(s.tape, s1.tape, end);
    }
}

/// Every level of a circuit is canonical.
pub open spec fn levels_valid<F: Field>(levels: Seq<Seq<Gate<F>>>) -> bool {
    forall|k: int| 0 <= k < levels.len() ==> circuit::gates_valid(#[trigger] levels[k])
}

/// Every level is the sum of the one below in pairs.
pub open spec fn adds_up<F: Field>(levels: Seq<Seq<Gate<F>>>) -> bool {
    forall|k: int|
        0 < k < levels.len() ==> levels[k - 1] == #[trigger] circuit::level_above(levels[k])
}

/// Completeness of the layers: the verifier follows the prover, and the claim about the leaves
/// holds.
proof fn lemma_layers_complete<F: Field>(
    tag: CircuitTag,
    levels: Seq<Seq<Gate<F>>>,
    k: nat,
    c: LevelClaim<F>,
    p: FsState<F>,
    v: FsState<F>,
    whole: Seq<F>,
)
    requires
        doubling(levels),
        levels_valid(levels),
        adds_up(levels),
        k < levels.len(),
        c.point.len() == k,
        c.holds(levels[k as int]),
        c.alpha.valid(),
        c.beta.valid(),
        p.canonical(),
        transcript::synced(p, v, whole),
        prove_layers(levels, k, (levels.len() - 1) as nat, c, p).1.tape.is_prefix_of(whole),
    ensures
        ({
            let size = (levels.len() - 1) as nat;
            let (end, p1) = prove_layers(levels, k, size, c, p);
            let (r, v1) = verify_layers(tag, k, size, c, v);
            &&& r == Ok::<LevelClaim<F>, GkrError>(end)
            &&& transcript::synced(p1, v1, whole)
            &&& p1.canonical()
            &&& end.holds(levels[size as int])
            &&& end.point.len() == size
        }),
    decreases levels.len() - k,
{
    let size = (levels.len() - 1) as nat;
    if k < size {
        let gates = levels[(k + 1) as int];
        let tab = layer::table(gates, c.point, c.alpha, c.beta);
        let later = prove_layers(levels, k, size, c, p).1.tape;
        let (xs, p1) = gruen::claimed_run(tab, c.point.reverse(), c.batch(), p);
        let values = layer_values(gates, c, xs);
        let p2 = p1.send(values);
        let c1 = joined(xs, values, p2.coins(3));
        transcript::lemma_coins_len(p2, 3);
        lemma_layers_extend(levels, k + 1, size, c1, p2.squeeze_n(3));
        assert(p1.tape.is_prefix_of(p2.tape));
        transcript::lemma_prefix_trans(p1.tape, p2.tape, later);
        transcript::lemma_prefix_trans(p2.tape, later, whole);
        assert(gates.len() == pow2((k + 1) as nat));
        assert(circuit::gates_valid(gates));
        assert(levels[(k + 1) - 1] == circuit::level_above(levels[(k + 1) as int]));
        layer::law_table_shaped(gates, c.point, c.alpha, c.beta);
        layer::law_total(gates, c.point, c.alpha, c.beta);
        assert(tab.total() == c.batch());
        gruen::law_true_claim(tab, c.point.reverse(), c.batch(), p);
        sumcheck::lemma_step_complete(tab, k, p, v, whole, later);
        let v1 = sumcheck::verify_run(c.batch(), k, layer::DEGREE as nat, v).1;
        transcript::lemma_synced_send(p1, v1, whole, values);
        let v2 = v1.receive(4);
        assert(values.len() == 4);
        layer::law_output(gates, c.point, c.alpha, c.beta, xs);
        layer::law_join(gates, xs, c1.point[0]);
        transcript::lemma_synced_squeeze_n(p2, v2, whole, 3);
        assert(c1.holds(gates));
        lemma_layers_complete(
            tag,
            levels,
            k + 1,
            c1,
            p2.squeeze_n(3),
            v2.squeeze_n(3),
            whole,
        );
    }
}

/// A circuit's proof only appends to the tape.
pub proof fn lemma_circuit_extends<F: Field>(levels: Seq<Seq<Gate<F>>>, s: FsState<F>)
    requires
        levels.len() > 0,
    ensures
        s.tape.is_prefix_of(prove_circuit_run(levels, s).1.tape),
        prove_circuit_run(levels, s).1.coin == s.coin,
        prove_circuit_run(levels, s).0.point.len() == levels.len() - 1,
{
    let (n, d) = levels[0][0];
    let s1 = s.send(seq![n, d]);
    transcript::lemma_coins_len(s1, 2);
    let c = root_claim(n, d, s1.coins(2));
    lemma_layers_extend(levels, 0, (levels.len() - 1) as nat, c, s1.squeeze_n(2));
    assert(s.tape.is_prefix_of(s1.tape));
    transcript::lemma_prefix_trans(s.tape, s1.tape, prove_circuit_run(levels, s).1.tape);
}

/// Completeness of one circuit: the verifier reads the true root and arrives at the prover's claim,
/// which holds of the leaves.
pub proof fn law_circuit_complete<F: Field>(
    tag: CircuitTag,
    gates: Seq<Gate<F>>,
    depth: nat,
    p: FsState<F>,
    v: FsState<F>,
    whole: Seq<F>,
)
    requires
        gates.len() == pow2(depth),
        circuit::gates_valid(gates),
        p.canonical(),
        transcript::synced(p, v, whole),
        prove_circuit_run(circuit::pyramid(gates, depth), p).1.tape.is_prefix_of(whole),
    ensures
        ({
            let levels = circuit::pyramid(gates, depth);
            let (end, p1) = prove_circuit_run(levels, p);
            let (r, v1) = verify_circuit_run(tag, depth, v);
            &&& r == Ok::<(LevelClaim<F>, Gate<F>), GkrError>((end, levels[0][0]))
            &&& transcript::synced(p1, v1, whole)
            &&& p1.canonical()
            &&& end.holds(gates)
            &&& end.point.len() == depth
        }),
{
    let levels = circuit::pyramid(gates, depth);
    circuit::lemma_pyramid(gates, depth);
    lemma_pyramid_valid(gates, depth);
    poly::lemma_pow2_zero();
    let (n, d) = levels[0][0];
    let p1 = p.send(seq![n, d]);
    transcript::lemma_coins_len(p1, 2);
    let c = root_claim(n, d, p1.coins(2));
    let end = prove_circuit_run(levels, p).1.tape;
    lemma_layers_extend(levels, 0, depth, c, p1.squeeze_n(2));
    transcript::lemma_prefix_trans(p1.tape, end, whole);
    transcript::lemma_synced_send(p, v, whole, seq![n, d]);
    let v1 = v.receive(2);
    transcript::lemma_synced_squeeze_n(p1, v1, whole, 2);
    assert(c.holds(levels[0])) by {
        assert(levels[0].len() == 1);
        assert(circuit::gates_valid(levels[0]));
        assert(levels[0][0].0.valid() && levels[0][0].1.valid());
        assert(c.point.reverse() =~= Seq::<F>::empty());
        poly::lemma_mle_point(layer::level_numerators(levels[0]), c.point.reverse());
        poly::lemma_mle_point(layer::level_denominators(levels[0]), c.point.reverse());
    }
    lemma_layers_complete(tag, levels, 0, c, p1.squeeze_n(2), v1.squeeze_n(2), whole);
    assert(levels[depth as int] == gates);
}

/// Every level of a circuit over canonical leaves is canonical.
proof fn lemma_pyramid_valid<F: Field>(gates: Seq<Gate<F>>, depth: nat)
    requires
        circuit::gates_valid(gates),
        gates.len() == pow2(depth),
    ensures
        levels_valid(circuit::pyramid(gates, depth)),
    decreases depth,
{
    if depth > 0 {
        poly::lemma_pow2_step(depth);
        circuit::lemma_above_valid(gates);
        lemma_pyramid_valid(circuit::level_above(gates), (depth - 1) as nat);
        circuit::lemma_pyramid(gates, depth);
        circuit::lemma_pyramid(circuit::level_above(gates), (depth - 1) as nat);
    }
}

/// The proof of one family. All its messages are in the transcript, so it holds nothing.
#[derive(Clone, Copy, Debug, Default)]
pub struct GkrProof {}

/// The name of the claim about the stacked index column.
pub open spec fn dense_id(i: int) -> OpeningId {
    accumulator::comm(CommittedPolynomial::RaDense(i as usize), SumcheckId::PushforwardGkr)
}

/// The name of the claim about the pushforward at the leaf point.
pub open spec fn leaf_id(i: int) -> OpeningId {
    accumulator::comm(CommittedPolynomial::Pushforward(i as usize), SumcheckId::PushforwardGkr)
}

/// The name of the claim about the pushforward at the column point.
pub open spec fn reduction_id(i: int) -> OpeningId {
    accumulator::comm(
        CommittedPolynomial::Pushforward(i as usize),
        SumcheckId::PushforwardReduction,
    )
}

/// The records after a family: the stacked indices at the row leaf point, the pushforward at the
/// column leaf point, and the pushforward at the column point of the claims.
pub open spec fn cached<F: Field>(
    acc: Claims<F>,
    index: int,
    a: LevelClaim<F>,
    b: LevelClaim<F>,
    r_col: Seq<F>,
    alpha: F,
    combined: F,
) -> Claims<F> {
    acc.insert(dense_id(index), (a.point.reverse(), alpha.minus(a.d))).insert(
        leaf_id(index),
        (b.point.reverse(), b.n),
    ).insert(reduction_id(index), (r_col.reverse(), combined))
}

/// The leaves of the circuit over the rows.
pub open spec fn row_leaves<F: Field>(data: PushforwardData<F>) -> Seq<Gate<F>> {
    circuit::leaves(data.eq_m_row@, data.leaf_denom_a@)
}

/// The leaves of the circuit over the columns.
pub open spec fn column_leaves<F: Field>(data: PushforwardData<F>) -> Seq<Gate<F>> {
    circuit::leaves(data.pushforward@, data.leaf_denom_b@)
}

/// The records and the transcript of a proof over the given leaves.
pub open spec fn leaves_run<F: Field>(
    ga: Seq<Gate<F>>,
    depth_a: nat,
    gb: Seq<Gate<F>>,
    depth_b: nat,
    r_col: Seq<F>,
    alpha: F,
    combined: F,
    index: int,
    acc: Claims<F>,
    s: FsState<F>,
) -> (Claims<F>, FsState<F>) {
    let (a, s1) = prove_circuit_run(circuit::pyramid(ga, depth_a), s);
    let (b, s2) = prove_circuit_run(circuit::pyramid(gb, depth_b), s1);
    (cached(acc, index, a, b, r_col, alpha, combined), s2)
}

/// The records and the transcript of the proof of prepared data.
pub open spec fn prove_run<F: Field>(
    data: PushforwardData<F>,
    index: int,
    acc: Claims<F>,
    s: FsState<F>,
) -> (Claims<F>, FsState<F>) {
    leaves_run(
        row_leaves(data),
        data.log_t as nat + data.log_d as nat,
        column_leaves(data),
        data.log_m as nat,
        data.r_col@,
        data.alpha,
        data.combined_claim,
        index,
        acc,
        s,
    )
}

/// The records and the transcript of the proof of a family.
pub open spec fn family_run<F: Field>(
    family: FamilyModel<F>,
    drawn: Drawn<F>,
    index: int,
    acc: Claims<F>,
    s: FsState<F>,
) -> (Claims<F>, FsState<F>) {
    leaves_run(
        family.row_leaves(drawn),
        family.log_t + family.log_d,
        family.column_leaves(drawn),
        family.log_m,
        family.r_col,
        drawn.alpha,
        drawn.combined,
        index,
        acc,
        s,
    )
}

/// The columns of prepared data have the sizes of the two circuits.
pub open spec fn data_sized<F: Field>(data: PushforwardData<F>) -> bool {
    &&& data.log_t + data.log_d <= usize::MAX
    &&& data.eq_m_row@.len() == pow2(data.log_t as nat + data.log_d as nat)
    &&& data.leaf_denom_a@.len() == data.eq_m_row@.len()
    &&& data.pushforward@.len() == pow2(data.log_m as nat)
    &&& data.leaf_denom_b@.len() == data.pushforward@.len()
}

/// Prove that the pushforward of prepared data is genuine, and record the claims that are left.
pub fn prove_family_gkr<F: Field, T: ProverFs<F>>(
    data: &PushforwardData<F>,
    family_index: usize,
    accumulator: &mut Openings<F>,
    transcript: &mut T,
) -> (r: GkrProof)
    requires
        data_sized(*data),
    ensures
        (final(accumulator)@, final(transcript).state()) == prove_run(
            *data,
            family_index as int,
            old(accumulator)@,
            old(transcript).state(),
        ),
{
    proof {
        circuit::lemma_pyramid(row_leaves(*data), data.log_t as nat + data.log_d as nat);
        circuit::lemma_pyramid(column_leaves(*data), data.log_m as nat);
    }
    let circuit_a: Circuit<F> = Circuit::build(
        poly::copied(&data.eq_m_row),
        poly::copied(&data.leaf_denom_a),
        data.log_size_a(),
    );
    let circuit_b: Circuit<F> = Circuit::build(
        poly::copied(&data.pushforward),
        poly::copied(&data.leaf_denom_b),
        data.log_size_b(),
    );
    let (point_a, _leaf_n_a, leaf_d_a) = prove_circuit(&circuit_a, transcript);
    let (point_b, leaf_n_b, _leaf_d_b) = prove_circuit(&circuit_b, transcript);
    record_family(
        accumulator,
        family_index,
        &point_a,
        data.alpha.sub(leaf_d_a),
        &point_b,
        leaf_n_b,
        &data.r_col,
        data.combined_claim,
    );
    GkrProof {  }
}

/// Record the three claims of a family.
fn record_family<F: Field>(
    accumulator: &mut Openings<F>,
    index: usize,
    point_a: &Vec<F>,
    dense: F,
    point_b: &Vec<F>,
    leaf: F,
    r_col: &Vec<F>,
    combined: F,
)
    ensures
        final(accumulator)@ == old(accumulator)@.insert(
            dense_id(index as int),
            (point_a@.reverse(), dense),
        ).insert(leaf_id(index as int), (point_b@.reverse(), leaf)).insert(
            reduction_id(index as int),
            (r_col@.reverse(), combined),
        ),
{
    accumulator.append_dense(
        CommittedPolynomial::RaDense(index),
        SumcheckId::PushforwardGkr,
        poly::reversed(point_a),
        dense,
    );
    accumulator.append_dense(
        CommittedPolynomial::Pushforward(index),
        SumcheckId::PushforwardGkr,
        poly::reversed(point_b),
        leaf,
    );
    accumulator.append_dense(
        CommittedPolynomial::Pushforward(index),
        SumcheckId::PushforwardReduction,
        poly::reversed(r_col),
        combined,
    );
}

/// What the verifier knows of a family.
#[verifier::ext_equal]
pub struct FamilyView<F> {
    pub depth_a: nat,
    pub depth_b: nat,
    pub r_m_row: Seq<F>,
    pub r_col: Seq<F>,
    pub alpha: F,
    pub combined: F,
}

impl<F: Field> View for VerifierView<F> {
    type V = FamilyView<F>;

    open spec fn view(&self) -> FamilyView<F> {
        FamilyView {
            depth_a: self.log_t as nat + self.log_d as nat,
            depth_b: self.log_m as nat,
            r_m_row: self.r_m_row@,
            r_col: self.r_col@,
            alpha: self.alpha,
            combined: self.combined_claim,
        }
    }
}

/// The verdict on the two circuits once both were read.
pub open spec fn verdict_leaves<F: Field>(
    view: FamilyView<F>,
    a: LevelClaim<F>,
    root_a: Gate<F>,
    b: LevelClaim<F>,
    root_b: Gate<F>,
) -> Result<(), GkrError> {
    if root_a.0.times(root_b.1) != root_b.0.times(root_a.1) {
        Err(GkrError::RootHistogram)
    } else if a.n != poly::eq_mle(view.r_m_row.reverse(), a.point.reverse()) {
        Err(GkrError::LeafStructural { circuit: CircuitTag::A })
    } else if b.d != view.alpha.minus(
        poly::mle(index_column::<F>(b.point.len()), b.point.reverse()),
    ) {
        Err(GkrError::LeafStructural { circuit: CircuitTag::B })
    } else {
        Ok(())
    }
}

/// The verdict on a family, the recorded claims, and the transcript after it.
pub open spec fn verdict<F: Field>(
    view: FamilyView<F>,
    index: int,
    acc: Claims<F>,
    s: FsState<F>,
) -> (Result<(), GkrError>, Claims<F>, FsState<F>) {
    let (ra, s1) = verify_circuit_run(CircuitTag::A, view.depth_a, s);
    match ra {
        Err(e) => (Err(e), acc, s1),
        Ok((a, root_a)) => {
            let (rb, s2) = verify_circuit_run(CircuitTag::B, view.depth_b, s1);
            match rb {
                Err(e) => (Err(e), acc, s2),
                Ok((b, root_b)) => match verdict_leaves(view, a, root_a, b, root_b) {
                    Err(e) => (Err(e), acc, s2),
                    Ok(_) => (
                        Ok(()),
                        cached(acc, index, a, b, view.r_col, view.alpha, view.combined),
                        s2,
                    ),
                },
            }
        },
    }
}

/// Verify that the pushforward of a family is genuine, and record the claims that are left.
pub fn verify_family_gkr<F: Field, T: VerifierFs<F>>(
    view: &VerifierView<F>,
    _proof: &GkrProof,
    family_index: usize,
    accumulator: &mut Openings<F>,
    transcript: &mut T,
) -> (r: Result<(), GkrError>)
    requires
        view.log_t + view.log_d <= usize::MAX,
        view.r_m_row@.len() == view.log_t + view.log_d,
    ensures
        (r, final(accumulator)@, final(transcript).state()) == verdict(
            view@,
            family_index as int,
            old(accumulator)@,
            old(transcript).state(),
        ),
{
    proof {
        lemma_verify_points::<F>(
            CircuitTag::A,
            view.log_t as nat + view.log_d as nat,
            transcript.state(),
        );
    }
    let a = match verify_circuit(view.log_size_a(), CircuitTag::A, transcript) {
        Err(e) => {
            return Err(e);
        },
        Ok(c) => c,
    };
    let b = match verify_circuit(view.log_size_b(), CircuitTag::B, transcript) {
        Err(e) => {
            return Err(e);
        },
        Ok(c) => c,
    };
    if !a.n_root.mul(b.d_root).same(b.n_root.mul(a.d_root)) {
        return Err(GkrError::RootHistogram);
    }
    let weight: F = poly::eq_at(&poly::reversed(&view.r_m_row), &poly::reversed(&a.point));
    if !a.leaf_n.same(weight) {
        return Err(GkrError::LeafStructural { circuit: CircuitTag::A });
    }
    if !b.leaf_d.same(view.alpha.sub(idx_mle_lsb(&b.point))) {
        return Err(GkrError::LeafStructural { circuit: CircuitTag::B });
    }
    record_family(
        accumulator,
        family_index,
        &a.point,
        view.alpha.sub(a.leaf_d),
        &b.point,
        b.leaf_n,
        &view.r_col,
        view.combined_claim,
    );
    Ok(())
}

/// A verified circuit ends at a point with one coordinate per layer.
proof fn lemma_verify_points<F: Field>(tag: CircuitTag, size: nat, s: FsState<F>)
    ensures
        match verify_circuit_run(tag, size, s).0 {
            Ok((c, _)) => c.point.len() == size,
            Err(_) => true,
        },
{
    if s.tape.len() >= 2 {
        let roots = s.tape.take(2);
        let s1 = s.receive(2);
        lemma_verify_layers_point(
            tag,
            0,
            size,
            root_claim(roots[0], roots[1], s1.coins(2)),
            s1.squeeze_n(2),
        );
    }
}

proof fn lemma_verify_layers_point<F: Field>(
    tag: CircuitTag,
    k: nat,
    size: nat,
    c: LevelClaim<F>,
    s: FsState<F>,
)
    requires
        c.point.len() == k,
        k <= size,
    ensures
        match verify_layers(tag, k, size, c, s).0 {
            Ok(end) => end.point.len() == size,
            Err(_) => true,
        },
    decreases size - k,
{
    if k < size {
        let (r, s1) = sumcheck::verify_run(c.batch(), k, layer::DEGREE as nat, s);
        sumcheck::lemma_verify_len(c.batch(), Seq::empty(), k, layer::DEGREE as nat, s);
        match r {
            Err(_) => {},
            Ok((xs, value)) => {
                if s1.tape.len() >= 4 {
                    let s2 = s1.receive(4);
                    lemma_verify_layers_point(
                        tag,
                        k + 1,
                        size,
                        joined(xs, s1.tape.take(4), s2.coins(3)),
                        s2.squeeze_n(3),
                    );
                }
            },
        }
    }
}

/// What the verifier knows of a family with what was drawn for it.
pub open spec fn family_view<F: Field>(family: FamilyModel<F>, drawn: Drawn<F>) -> FamilyView<F> {
    FamilyView {
        depth_a: family.log_t + family.log_d,
        depth_b: family.log_m,
        r_m_row: family.r_row + drawn.r_chunk,
        r_col: family.r_col,
        alpha: drawn.alpha,
        combined: drawn.combined,
    }
}

/// The verifier follows the prover through both circuits.
proof fn lemma_both_circuits<F: Field>(
    ga: Seq<Gate<F>>,
    depth_a: nat,
    gb: Seq<Gate<F>>,
    depth_b: nat,
    p: FsState<F>,
    v: FsState<F>,
    whole: Seq<F>,
)
    requires
        ga.len() == pow2(depth_a),
        gb.len() == pow2(depth_b),
        circuit::gates_valid(ga),
        circuit::gates_valid(gb),
        p.canonical(),
        transcript::synced(p, v, whole),
        prove_circuit_run(
            circuit::pyramid(gb, depth_b),
            prove_circuit_run(circuit::pyramid(ga, depth_a), p).1,
        ).1.tape.is_prefix_of(whole),
    ensures
        ({
            let la = circuit::pyramid(ga, depth_a);
            let lb = circuit::pyramid(gb, depth_b);
            let (a, p1) = prove_circuit_run(la, p);
            let (b, p2) = prove_circuit_run(lb, p1);
            let (ra, v1) = verify_circuit_run(CircuitTag::A, depth_a, v);
            let (rb, v2) = verify_circuit_run(CircuitTag::B, depth_b, v1);
            &&& ra == Ok::<(LevelClaim<F>, Gate<F>), GkrError>((a, circuit::total(ga)))
            &&& rb == Ok::<(LevelClaim<F>, Gate<F>), GkrError>((b, circuit::total(gb)))
            &&& transcript::synced(p2, v2, whole)
            &&& p2.canonical()
            &&& p2.coin == p.coin
            &&& a.holds(ga)
            &&& b.holds(gb)
            &&& a.point.len() == depth_a
            &&& b.point.len() == depth_b
        }),
{
    let la = circuit::pyramid(ga, depth_a);
    let lb = circuit::pyramid(gb, depth_b);
    circuit::lemma_pyramid(ga, depth_a);
    circuit::lemma_pyramid(gb, depth_b);
    let p1 = prove_circuit_run(la, p).1;
    let p2 = prove_circuit_run(lb, p1).1;
    lemma_circuit_extends(la, p);
    lemma_circuit_extends(lb, p1);
    transcript::lemma_prefix_trans(p1.tape, p2.tape, whole);
    law_circuit_complete(CircuitTag::A, ga, depth_a, p, v, whole);
    let v1 = verify_circuit_run::<F>(CircuitTag::A, depth_a, v).1;
    law_circuit_complete(CircuitTag::B, gb, depth_b, p1, v1, whole);
    circuit::law_root(ga, depth_a);
    circuit::law_root(gb, depth_b);
}

/// Prepared data has the sizes of the two circuits.
pub proof fn lemma_data_sized<F: Field>(
    family: FamilyModel<F>,
    data: PushforwardData<F>,
    drawn: Drawn<F>,
)
    requires
        family.sized(),
        family.bounded(),
        data.prepares(family, drawn),
        drawn.r_chunk.len() == family.log_d,
    ensures
        data_sized(data),
{
    poly::lemma_pow2_concat(family.log_d, family.log_t);
    poly::lemma_pow2_exceeds(family.log_t + family.log_d);
}

/// The shape of the leaves of a family, and what their columns are.
proof fn lemma_leaves<F: Field>(family: FamilyModel<F>, drawn: Drawn<F>)
    requires
        family.sized(),
        drawn.r_chunk.len() == family.log_d,
    ensures
        ({
            let ga = family.row_leaves(drawn);
            let gb = family.column_leaves(drawn);
            let ta = circuit::total(ga);
            let tb = circuit::total(gb);
            let w = family.weights(drawn);
            &&& ga.len() == pow2(family.log_t + family.log_d)
            &&& gb.len() == pow2(family.log_m)
            &&& circuit::gates_valid(ga)
            &&& circuit::gates_valid(gb)
            &&& ta.0.times(tb.1) == tb.0.times(ta.1)
            &&& layer::level_numerators(ga) == w
            &&& layer::level_denominators(ga) == pushforward::row_denominators(
                family.columns,
                family.cycles(),
                w.len(),
                drawn.alpha,
            )
            &&& layer::level_numerators(gb) == family.pushed(drawn)
            &&& layer::level_denominators(gb) == pushforward::column_denominators(
                pow2(family.log_m),
                drawn.alpha,
            )
        }),
{
    let cols = family.columns;
    let t = pow2(family.log_t);
    let m = pow2(family.log_m);
    let w = family.weights(drawn);
    let ga = family.row_leaves(drawn);
    let gb = family.column_leaves(drawn);
    poly::lemma_pow2_concat(family.log_d, family.log_t);
    vstd::arithmetic::power2::lemma_pow2_pos(family.log_t);
    pushforward::lemma_leaves_valid(
        cols,
        t as int,
        w,
        m,
        drawn.alpha,
        family.r_row + drawn.r_chunk,
    );
    assert forall|x: int| 0 <= x < w.len() implies 0 <= #[trigger] pushforward::stacked(
        cols,
        t as int,
        x,
    ) < m by {
        pushforward::lemma_stacked_fits(cols, t, m as int, x);
    }
    pushforward::law_histogram(cols, t as int, w, m, drawn.alpha);
    assert(layer::level_numerators(ga) =~= w);
    assert(layer::level_denominators(ga) =~= pushforward::row_denominators(
        cols,
        t as int,
        w.len(),
        drawn.alpha,
    ));
    assert(layer::level_numerators(gb) =~= family.pushed(drawn));
    assert(layer::level_denominators(gb) =~= pushforward::column_denominators(m, drawn.alpha));
}

/// The proof of a family only appends to the tape.
pub proof fn lemma_family_extends<F: Field>(
    family: FamilyModel<F>,
    drawn: Drawn<F>,
    index: int,
    acc: Claims<F>,
    s: FsState<F>,
)
    requires
        family.sized(),
        drawn.r_chunk.len() == family.log_d,
    ensures
        s.tape.is_prefix_of(family_run(family, drawn, index, acc, s).1.tape),
        family_run(family, drawn, index, acc, s).1.coin == s.coin,
{
    lemma_leaves(family, drawn);
    let ga = family.row_leaves(drawn);
    let gb = family.column_leaves(drawn);
    let la = circuit::pyramid(ga, family.log_t + family.log_d);
    let lb = circuit::pyramid(gb, family.log_m);
    circuit::lemma_pyramid(ga, family.log_t + family.log_d);
    circuit::lemma_pyramid(gb, family.log_m);
    let s1 = prove_circuit_run(la, s).1;
    lemma_circuit_extends(la, s);
    lemma_circuit_extends(lb, s1);
    transcript::lemma_prefix_trans(s.tape, s1.tape, prove_circuit_run(lb, s1).1.tape);
}

/// Completeness: the honest proof of a genuine pushforward is accepted, both parties record the same
/// claims, and they stay synchronised.
pub proof fn law_complete<F: Field>(
    family: FamilyModel<F>,
    drawn: Drawn<F>,
    index: int,
    acc: Claims<F>,
    p: FsState<F>,
    v: FsState<F>,
    whole: Seq<F>,
)
    requires
        family.sized(),
        drawn.r_chunk.len() == family.log_d,
        drawn.alpha.valid(),
        p.canonical(),
        transcript::synced(p, v, whole),
        family_run(family, drawn, index, acc, p).1.tape.is_prefix_of(whole),
    ensures
        ({
            let (acc1, p1) = family_run(family, drawn, index, acc, p);
            let (r, acc2, v1) = verdict(family_view(family, drawn), index, acc, v);
            &&& r is Ok
            &&& acc2 == acc1
            &&& transcript::synced(p1, v1, whole)
            &&& p1.canonical()
        }),
{
    let depth_a = family.log_t + family.log_d;
    let depth_b = family.log_m;
    let ga = family.row_leaves(drawn);
    let gb = family.column_leaves(drawn);
    let view = family_view(family, drawn);
    lemma_leaves(family, drawn);
    lemma_both_circuits(ga, depth_a, gb, depth_b, p, v, whole);
    let (a, p1) = prove_circuit_run(circuit::pyramid(ga, depth_a), p);
    let (b, p2) = prove_circuit_run(circuit::pyramid(gb, depth_b), p1);
    // the row numerators are the public weights, the column denominators the public indices
    poly::lemma_mle_eq_table(view.r_m_row.reverse(), a.point.reverse());
    pushforward::lemma_column_denominators(depth_b, drawn.alpha, b.point.reverse());
}

/// The claims that are left are true: the stacked indices at the row leaf point, and the pushforward
/// at the column leaf point.
pub proof fn law_openings<F: Field>(
    family: FamilyModel<F>,
    drawn: Drawn<F>,
    index: int,
    acc: Claims<F>,
    p: FsState<F>,
    v: FsState<F>,
    whole: Seq<F>,
)
    requires
        family.sized(),
        drawn.r_chunk.len() == family.log_d,
        drawn.alpha.valid(),
        p.canonical(),
        transcript::synced(p, v, whole),
        family_run(family, drawn, index, acc, p).1.tape.is_prefix_of(whole),
    ensures
        ({
            let acc1 = family_run(family, drawn, index, acc, p).0;
            let rows = pow2(family.log_t + family.log_d);
            &&& acc1[dense_id(index)].1 == poly::mle(
                pushforward::stacked_column::<F>(family.columns, family.cycles(), rows),
                acc1[dense_id(index)].0,
            )
            &&& acc1[leaf_id(index)].1 == poly::mle(
                family.pushed(drawn),
                acc1[leaf_id(index)].0,
            )
        }),
{
    let depth_a = family.log_t + family.log_d;
    let depth_b = family.log_m;
    let ga = family.row_leaves(drawn);
    let gb = family.column_leaves(drawn);
    lemma_leaves(family, drawn);
    lemma_both_circuits(ga, depth_a, gb, depth_b, p, v, whole);
    let (a, p1) = prove_circuit_run(circuit::pyramid(ga, depth_a), p);
    pushforward::lemma_row_denominators(
        family.columns,
        family.cycles(),
        depth_a,
        drawn.alpha,
        a.point.reverse(),
    );
}

/// How many elements the layers from `k` up to `m` read.
pub open spec fn layers_read(k: nat, m: nat) -> nat
    decreases m - k,
{
    if k >= m {
        0
    } else {
        k * (layer::DEGREE as nat + 1) + 4 + layers_read(k + 1, m)
    }
}

/// The run of the sumcheck of layer `m`, from an earlier layer `k` on.
pub open spec fn layer_run<F: Field>(
    tag: CircuitTag,
    k: nat,
    m: nat,
    c: LevelClaim<F>,
    s: FsState<F>,
) -> (Result<(Seq<F>, F), SumcheckError>, FsState<F>) {
    let (r, s1) = verify_layers(tag, k, m, c, s);
    sumcheck::verify_run(r->Ok_0.batch(), m, layer::DEGREE as nat, s1)
}

/// What four values say in the check of layer `m`, weighted as the check weighs them.
pub open spec fn said_values<F: Field>(
    tag: CircuitTag,
    k: nat,
    m: nat,
    c: LevelClaim<F>,
    s: FsState<F>,
    values: Seq<F>,
) -> F {
    let at = verify_layers(tag, k, m, c, s).0->Ok_0;
    let xs = layer_run(tag, k, m, c, s).0->Ok_0.0;
    poly::eq_mle(at.point.reverse(), xs.reverse()).times(
        layer::combine(at.alpha, at.beta, values[0], values[1], values[2], values[3]),
    )
}

/// One layer of accepted layers: its sumcheck and its check pass and the rest is accepted. What is
/// changed behind the layer is changed in the rest.
proof fn lemma_first_layer<F: Field>(
    tag: CircuitTag,
    k: nat,
    size: nat,
    c: LevelClaim<F>,
    s: FsState<F>,
    j: int,
    delta: F,
)
    requires
        k < size,
        verify_layers(tag, k, size, c, s).0 is Ok,
        k * (layer::DEGREE as nat + 1) + 4 <= j < s.tape.len(),
    ensures
        ({
            let (r, s1) = sumcheck::verify_run(c.batch(), k, layer::DEGREE as nat, s);
            let values = s1.tape.take(4);
            let s2 = s1.receive(4);
            let next = joined(r->Ok_0.0, values, s2.coins(3));
            let rest = j - k * (layer::DEGREE as nat + 1) - 4;
            &&& r is Ok
            &&& s1.tape.len() >= 4
            &&& r->Ok_0.1 == poly::eq_mle(c.point.reverse(), r->Ok_0.0.reverse()).times(
                layer::combine(c.alpha, c.beta, values[0], values[1], values[2], values[3]),
            )
            &&& 0 <= rest < s2.squeeze_n(3).tape.len()
            &&& verify_layers(tag, k, size, c, s) == verify_layers(
                tag,
                k + 1,
                size,
                next,
                s2.squeeze_n(3),
            )
            &&& verify_layers(tag, k, size, c, sumcheck::changed(s, j, delta)) == verify_layers(
                tag,
                k + 1,
                size,
                next,
                sumcheck::changed(s2.squeeze_n(3), rest, delta),
            )
        }),
{
    let read = (k * (layer::DEGREE as nat + 1)) as int;
    let (r, s1) = sumcheck::verify_run(c.batch(), k, layer::DEGREE as nat, s);
    sumcheck::lemma_changed_later(c.batch(), Seq::empty(), k, layer::DEGREE as nat, s, j, delta);
    let s2 = s1.receive(4);
    sumcheck::lemma_changed_behind(s1, j - read, delta, 4);
    sumcheck::lemma_changed_coins(s2, j - read - 4, delta, 3);
    transcript::lemma_coins_len(s2, 3);
}

/// Accepted layers are refused when any one element of the rounds of a layer is changed.
pub proof fn law_changed_round_refused<F: Field>(
    tag: CircuitTag,
    k: nat,
    m: nat,
    size: nat,
    c: LevelClaim<F>,
    s: FsState<F>,
    j: int,
    delta: F,
)
    requires
        k <= m < size,
        verify_layers(tag, k, size, c, s).0 is Ok,
        layers_read(k, m) <= j < layers_read(k, m) + m * (layer::DEGREE as nat + 1),
        j < s.tape.len(),
        delta.valid(),
        delta != F::of_int(0),
    ensures
        verify_layers(tag, k, size, c, sumcheck::changed(s, j, delta)).0 == Err::<
            LevelClaim<F>,
            GkrError,
        >(GkrError::Sumcheck),
    decreases m - k,
{
    if k == m {
        sumcheck::law_changed_round_refused(
            c.batch(),
            Seq::empty(),
            k,
            layer::DEGREE as nat,
            s,
            j,
            delta,
        );
    } else {
        lemma_first_layer(tag, k, size, c, s, j, delta);
        let (r, s1) = sumcheck::verify_run(c.batch(), k, layer::DEGREE as nat, s);
        let s2 = s1.receive(4);
        law_changed_round_refused(
            tag,
            k + 1,
            m,
            size,
            joined(r->Ok_0.0, s1.tape.take(4), s2.coins(3)),
            s2.squeeze_n(3),
            j - k * (layer::DEGREE as nat + 1) - 4,
            delta,
        );
    }
}

/// Accepted layers are refused by the check of a layer when one of the four values that it sends is
/// changed, unless the changed values say the same in that check.
pub proof fn law_changed_values_refused<F: Field>(
    tag: CircuitTag,
    k: nat,
    m: nat,
    size: nat,
    c: LevelClaim<F>,
    s: FsState<F>,
    q: int,
    delta: F,
)
    requires
        k <= m < size,
        verify_layers(tag, k, size, c, s).0 is Ok,
        0 <= q < 4,
        layers_read(k, m) + m * (layer::DEGREE as nat + 1) + q < s.tape.len(),
        ({
            let values = layer_run(tag, k, m, c, s).1.tape.take(4);
            said_values(tag, k, m, c, s, values.update(q, values[q].plus(delta))) != said_values(
                tag,
                k,
                m,
                c,
                s,
                values,
            )
        }),
    ensures
        ({
            let j = layers_read(k, m) + m * (layer::DEGREE as nat + 1) + q;
            verify_layers(tag, k, size, c, sumcheck::changed(s, j, delta)).0 == Err::<
                LevelClaim<F>,
                GkrError,
            >(GkrError::LayerConsistency { circuit: tag, layer: m as usize })
        }),
    decreases m - k,
{
    let j = layers_read(k, m) + m * (layer::DEGREE as nat + 1) + q;
    let (r, s1) = sumcheck::verify_run(c.batch(), k, layer::DEGREE as nat, s);
    if k == m {
        sumcheck::lemma_changed_later(
            c.batch(),
            Seq::empty(),
            k,
            layer::DEGREE as nat,
            s,
            j,
            delta,
        );
        let values = s1.tape.take(4);
        assert(sumcheck::changed(s1, q, delta).tape.take(4) =~= values.update(
            q,
            values[q].plus(delta),
        ));
    } else {
        assert(layers_read(k, m) == k * (layer::DEGREE as nat + 1) + 4 + layers_read(k + 1, m));
        assert(m * (layer::DEGREE as nat + 1) >= 0) by (nonlinear_arith)
            requires
                m >= 0,
        ;
        lemma_first_layer(tag, k, size, c, s, j, delta);
        let s2 = s1.receive(4);
        law_changed_values_refused(
            tag,
            k + 1,
            m,
            size,
            joined(r->Ok_0.0, s1.tape.take(4), s2.coins(3)),
            s2.squeeze_n(3),
            q,
            delta,
        );
    }
}

/// An accepted circuit is refused when any one element of the rounds of a layer is changed.
pub proof fn law_changed_circuit_refused<F: Field>(
    tag: CircuitTag,
    m: nat,
    size: nat,
    s: FsState<F>,
    j: int,
    delta: F,
)
    requires
        m < size,
        verify_circuit_run(tag, size, s).0 is Ok,
        2 + layers_read(0, m) <= j < 2 + layers_read(0, m) + m * (layer::DEGREE as nat + 1),
        j < s.tape.len(),
        delta.valid(),
        delta != F::of_int(0),
    ensures
        verify_circuit_run(tag, size, sumcheck::changed(s, j, delta)).0 == Err::<
            (LevelClaim<F>, Gate<F>),
            GkrError,
        >(GkrError::Sumcheck),
{
    let roots = s.tape.take(2);
    let s1 = s.receive(2);
    sumcheck::lemma_changed_behind(s, j, delta, 2);
    sumcheck::lemma_changed_coins(s1, j - 2, delta, 2);
    transcript::lemma_coins_len(s1, 2);
    law_changed_round_refused(
        tag,
        0,
        m,
        size,
        root_claim(roots[0], roots[1], s1.coins(2)),
        s1.squeeze_n(2),
        j - 2,
        delta,
    );
}

/// A change behind accepted layers leaves their verdict as it is.
proof fn lemma_layers_changed_later<F: Field>(
    tag: CircuitTag,
    k: nat,
    size: nat,
    c: LevelClaim<F>,
    s: FsState<F>,
    j: int,
    delta: F,
)
    requires
        verify_layers(tag, k, size, c, s).0 is Ok,
        layers_read(k, size) <= j < s.tape.len(),
    ensures
        ({
            let (r, s1) = verify_layers(tag, k, size, c, s);
            &&& verify_layers(tag, k, size, c, sumcheck::changed(s, j, delta)) == (
                r,
                sumcheck::changed(s1, j - layers_read(k, size), delta),
            )
            &&& s1.tape.len() == s.tape.len() - layers_read(k, size)
        }),
    decreases size - k,
{
    if k < size {
        let read = (k * (layer::DEGREE as nat + 1)) as int;
        lemma_first_layer(tag, k, size, c, s, j, delta);
        sumcheck::lemma_changed_later(
            c.batch(),
            Seq::empty(),
            k,
            layer::DEGREE as nat,
            s,
            j,
            delta,
        );
        let (r, s1) = sumcheck::verify_run(c.batch(), k, layer::DEGREE as nat, s);
        let s2 = s1.receive(4);
        transcript::lemma_coins_len(s2, 3);
        assert(layers_read(k, size) == read + 4 + layers_read(k + 1, size));
        lemma_layers_changed_later(
            tag,
            k + 1,
            size,
            joined(r->Ok_0.0, s1.tape.take(4), s2.coins(3)),
            s2.squeeze_n(3),
            j - read - 4,
            delta,
        );
    }
}

/// How many elements a circuit of a depth reads.
pub open spec fn circuit_read(size: nat) -> nat {
    2 + layers_read(0, size)
}

/// A change behind an accepted circuit leaves its verdict as it is.
proof fn lemma_circuit_changed_later<F: Field>(
    tag: CircuitTag,
    size: nat,
    s: FsState<F>,
    j: int,
    delta: F,
)
    requires
        verify_circuit_run(tag, size, s).0 is Ok,
        circuit_read(size) <= j < s.tape.len(),
    ensures
        ({
            let (r, s1) = verify_circuit_run(tag, size, s);
            &&& verify_circuit_run(tag, size, sumcheck::changed(s, j, delta)) == (
                r,
                sumcheck::changed(s1, j - circuit_read(size), delta),
            )
            &&& s1.tape.len() == s.tape.len() - circuit_read(size)
        }),
{
    let roots = s.tape.take(2);
    let s1 = s.receive(2);
    sumcheck::lemma_changed_behind(s, j, delta, 2);
    sumcheck::lemma_changed_coins(s1, j - 2, delta, 2);
    transcript::lemma_coins_len(s1, 2);
    lemma_layers_changed_later(
        tag,
        0,
        size,
        root_claim(roots[0], roots[1], s1.coins(2)),
        s1.squeeze_n(2),
        j - 2,
        delta,
    );
}

/// The position of an element in the rounds of layer `m` of a circuit that starts at `from`.
pub open spec fn in_layer(from: nat, m: nat, j: int) -> bool {
    from + circuit_read(m) <= j < from + circuit_read(m) + m * (layer::DEGREE as nat + 1)
}

/// An accepted family is refused when any one element of the rounds of a layer of either circuit is
/// changed.
pub proof fn law_changed_family_refused<F: Field>(
    view: FamilyView<F>,
    index: int,
    acc: Claims<F>,
    s: FsState<F>,
    m: nat,
    j: int,
    delta: F,
)
    requires
        verdict(view, index, acc, s).0 is Ok,
        ({
            ||| m < view.depth_a && in_layer(0, m, j)
            ||| m < view.depth_b && in_layer(circuit_read(view.depth_a), m, j)
        }),
        j < s.tape.len(),
        delta.valid(),
        delta != F::of_int(0),
    ensures
        verdict(view, index, acc, sumcheck::changed(s, j, delta)).0 == Err::<(), GkrError>(
            GkrError::Sumcheck,
        ),
{
    if m < view.depth_a && in_layer(0, m, j) {
        law_changed_circuit_refused(CircuitTag::A, m, view.depth_a, s, j, delta);
    } else {
        lemma_circuit_changed_later(CircuitTag::A, view.depth_a, s, j, delta);
        let s1 = verify_circuit_run(CircuitTag::A, view.depth_a, s).1;
        law_changed_circuit_refused(
            CircuitTag::B,
            m,
            view.depth_b,
            s1,
            j - circuit_read(view.depth_a),
            delta,
        );
    }
}

/// Two circuits whose roots are different fractions are refused.
pub proof fn law_different_roots_refused<F: Field>(
    view: FamilyView<F>,
    index: int,
    acc: Claims<F>,
    s: FsState<F>,
)
    requires
        verify_circuit_run(CircuitTag::A, view.depth_a, s).0 is Ok,
        ({
            let (ra, s1) = verify_circuit_run(CircuitTag::A, view.depth_a, s);
            let rb = verify_circuit_run(CircuitTag::B, view.depth_b, s1).0;
            let (a, root_a) = ra->Ok_0;
            let (b, root_b) = rb->Ok_0;
            &&& rb is Ok
            &&& root_a.0.times(root_b.1) != root_b.0.times(root_a.1)
        }),
    ensures
        verdict(view, index, acc, s).0 == Err::<(), GkrError>(GkrError::RootHistogram),
{
}

/// An error of either circuit is the error of the family.
pub proof fn law_circuit_error_carried<F: Field>(
    view: FamilyView<F>,
    index: int,
    acc: Claims<F>,
    s: FsState<F>,
    e: GkrError,
)
    requires
        ({
            let (ra, s1) = verify_circuit_run(CircuitTag::A, view.depth_a, s);
            let rb = verify_circuit_run(CircuitTag::B, view.depth_b, s1).0;
            ||| ra == Err::<(LevelClaim<F>, Gate<F>), GkrError>(e)
            ||| ra is Ok && rb == Err::<(LevelClaim<F>, Gate<F>), GkrError>(e)
        }),
    ensures
        verdict(view, index, acc, s).0 == Err::<(), GkrError>(e),
{
}

/// Where a family is accepted, another row point is refused, unless the leaf it asks for is the same.
pub proof fn law_changed_row_point_refused<F: Field>(
    view: FamilyView<F>,
    r_m_row: Seq<F>,
    index: int,
    acc: Claims<F>,
    s: FsState<F>,
)
    requires
        verdict(view, index, acc, s).0 is Ok,
        ({
            let (a, root) = verify_circuit_run(CircuitTag::A, view.depth_a, s).0->Ok_0;
            poly::eq_mle(r_m_row.reverse(), a.point.reverse()) != poly::eq_mle(
                view.r_m_row.reverse(),
                a.point.reverse(),
            )
        }),
    ensures
        verdict((FamilyView { r_m_row, ..view }), index, acc, s).0 == Err::<(), GkrError>(
            GkrError::LeafStructural { circuit: CircuitTag::A },
        ),
{
}

/// Where a family is accepted, another shift of the column denominators is refused.
pub proof fn law_changed_shift_refused<F: Field>(
    view: FamilyView<F>,
    alpha: F,
    index: int,
    acc: Claims<F>,
    s: FsState<F>,
)
    requires
        verdict(view, index, acc, s).0 is Ok,
        alpha.valid(),
        view.alpha.valid(),
        alpha != view.alpha,
    ensures
        verdict((FamilyView { alpha, ..view }), index, acc, s).0 == Err::<(), GkrError>(
            GkrError::LeafStructural { circuit: CircuitTag::B },
        ),
{
    let (ra, s1) = verify_circuit_run(CircuitTag::A, view.depth_a, s);
    let (b, root) = verify_circuit_run(CircuitTag::B, view.depth_b, s1).0->Ok_0;
    let x = poly::mle(index_column::<F>(b.point.len()), b.point.reverse());
    field::lemma_minus_plus(alpha, x);
    field::lemma_minus_plus(view.alpha, x);
}

} // verus!
