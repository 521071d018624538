use jolt_goldilocks::field::Field;
use jolt_goldilocks::framework::accumulator::{
    CommittedPolynomial, Openings, SumcheckId, VirtualPolynomial,
};
use jolt_goldilocks::framework::batching::{prove_batched, verify_batched, Batch};
use jolt_goldilocks::framework::bits::{log2_ceil, trailing_zeros};
use jolt_goldilocks::framework::folding::{BilinearTerm, FoldingSum};
use jolt_goldilocks::framework::formula::{columns_product, Formula};
use jolt_goldilocks::framework::poly;
use jolt_goldilocks::framework::poly::MultilinearPolynomial;
use jolt_goldilocks::framework::stage8::{Stage8Inventory, Stage8Request};
use jolt_goldilocks::framework::sumcheck::{
    prove, verify, SumcheckClaim, SumcheckError, VirtualSum,
};
use jolt_goldilocks::framework::transcript::{
    challenge_vector, Challenge, ProverFs, ProverTranscript, VerifierFs, VerifierTranscript,
};
use jolt_goldilocks::framework::univariate::UnivariatePoly;
use jolt_goldilocks::goldilocks::Goldilocks;

type F = Goldilocks;

fn f(v: u64) -> F {
    F::from_u64(v)
}

fn elements(values: &[u64]) -> Vec<F> {
    values.iter().map(|v| f(*v)).collect()
}

// Tables.

#[test]
fn equality_weights() {
    // (1 - 2)(1 - 3), (1 - 2) 3, 2 (1 - 3), 2 * 3
    let minus = |v: u64| f(0).sub(f(v));
    assert_eq!(
        poly::eq_evals(&elements(&[2, 3])),
        vec![f(2), minus(3), minus(4), f(6)]
    );
    assert_eq!(poly::eq_at(&elements(&[1, 0]), &elements(&[1, 0])), f(1));
    assert_eq!(poly::eq_at(&elements(&[1, 0]), &elements(&[0, 0])), f(0));
}

#[test]
fn order_weights_at_the_corners() {
    // At the corner that spells two, the smaller indices have weight one.
    assert_eq!(
        poly::lt_evals(&elements(&[1, 0])),
        elements(&[1, 1, 0, 0])
    );
    assert_eq!(
        poly::lt_at(&elements(&[0, 1]), &elements(&[1, 0])),
        f(1)
    );
    assert_eq!(
        poly::lt_at(&elements(&[1, 0]), &elements(&[1, 0])),
        f(0)
    );
}

#[test]
fn successor_weights_at_the_corners() {
    // The successor of one is two, and the last index has none.
    assert_eq!(
        poly::eq_plus_one_evals(&elements(&[0, 1])),
        elements(&[0, 0, 1, 0])
    );
    assert_eq!(
        poly::eq_plus_one_evals(&elements(&[1, 1])),
        elements(&[0, 0, 0, 0])
    );
    assert_eq!(
        poly::eq_plus_one_at(&elements(&[0, 1]), &elements(&[1, 0])),
        f(1)
    );
}

#[test]
fn evaluation_is_the_weighted_sum() {
    let table = elements(&[3, 1, 4, 1]);
    let point = elements(&[7, 9]);
    let weighted = poly::eq_evals(&point)
        .iter()
        .zip(&table)
        .fold(f(0), |a, (w, v)| a.add(w.mul(*v)));
    assert_eq!(poly::evaluate(&table, &point), weighted);
    let mut p = MultilinearPolynomial::new(table);
    p.bind_low(point[1]);
    p.bind_low(point[0]);
    assert_eq!(p.evals, vec![weighted]);
}

#[test]
fn logarithms() {
    for (n, log) in [(1usize, 0usize), (2, 1), (3, 2), (4, 2), (5, 3), (1024, 10)] {
        assert_eq!(log2_ceil(n), log);
    }
}

// Messages.

#[test]
fn quadratic_through_three_values() {
    // 5 + 3 x + 2 x^2 at zero, at two, and the sum of its values at zero and one.
    let p = UnivariatePoly::from_evals_and_hint(f(15), f(5), f(19));
    assert_eq!(p.coefficients, elements(&[5, 3, 2]));
    assert_eq!(p.evaluate(f(10)), f(235));
}

#[test]
fn polynomial_products() {
    let a = UnivariatePoly::new(elements(&[1, 2]));
    let b = UnivariatePoly::new(elements(&[3, 4]));
    for x in 0..5u64 {
        let (u, v) = (a.evaluate(f(x)), b.evaluate(f(x)));
        assert_eq!(a.times(&b).evaluate(f(x)), u.mul(v));
        assert_eq!(a.plus(&b).evaluate(f(x)), u.add(v));
        assert_eq!(a.minus(&b).evaluate(f(x)), u.sub(v));
    }
}

#[test]
fn folding_halves_the_columns() {
    let mut sum = FoldingSum {
        columns: vec![elements(&[1, 2, 3, 4]), elements(&[5, 6, 7, 8])],
        terms: vec![BilinearTerm {
            coefficient: f(2),
            left: 0,
            right: 1,
        }],
    };
    // 2 (5 + 12) at zero and 2 (21 + 32) at one.
    assert_eq!(sum.evaluate_at(f(0)), f(34));
    assert_eq!(sum.evaluate_at(f(1)), f(106));
    let message = sum.message(f(1), f(140));
    for x in [0u64, 1, 2, 9] {
        assert_eq!(message.evaluate(f(x)), sum.evaluate_at(f(x)));
    }
    sum.bind(f(1));
    assert_eq!(sum.columns, vec![elements(&[3, 4]), elements(&[7, 8])]);
}

// The sum check.

fn product_sum() -> (VirtualSum<F>, F) {
    let a = elements(&[1, 2, 3, 4]);
    let b = elements(&[5, 6, 7, 8]);
    let total = a
        .iter()
        .zip(&b)
        .fold(f(0), |acc, (x, y)| acc.add(x.mul(*y)));
    let sum = VirtualSum::new(
        vec![MultilinearPolynomial::new(a), MultilinearPolynomial::new(b)],
        columns_product(1),
    );
    (sum, total)
}

fn claim_of(num_vars: usize, claimed_sum: F) -> SumcheckClaim<F> {
    SumcheckClaim {
        num_vars,
        degree: 2,
        claimed_sum,
    }
}

#[test]
fn sumcheck_accepts_the_true_sum_only() {
    let (mut sum, total) = product_sum();
    assert_eq!(total, f(70));
    let mut prover_t = ProverTranscript::<F>::new(b"sum");
    let challenges = prove(&mut sum, 2, &mut prover_t);
    let narg = prover_t.into_proof();

    let mut verifier_t = VerifierTranscript::<F>::new(b"sum", narg.clone());
    let eval = verify(&claim_of(2, total), &mut verifier_t).expect("the sum is true");
    assert_eq!(eval.point, challenges);
    assert_eq!(eval.value, sum.bound_value(0).mul(sum.bound_value(1)));
    let point = poly::reversed(&challenges);
    assert_eq!(
        sum.bound_value(0),
        poly::evaluate(&elements(&[1, 2, 3, 4]), &point)
    );

    let mut verifier_t = VerifierTranscript::<F>::new(b"sum", narg.clone());
    assert!(matches!(
        verify(&claim_of(2, total.add(f(1))), &mut verifier_t),
        Err(SumcheckError::RoundMismatch)
    ));
    let mut verifier_t = VerifierTranscript::<F>::new(b"sum", narg[..5].to_vec());
    assert!(matches!(
        verify(&claim_of(2, total), &mut verifier_t),
        Err(SumcheckError::MissingRound)
    ));
    // Another label gives other challenges.
    let mut verifier_t = VerifierTranscript::<F>::new(b"other", narg);
    assert!(verify(&claim_of(2, total), &mut verifier_t).is_err());
}

#[test]
fn batched_sums_of_different_sizes() {
    let small = || {
        VirtualSum::new(
            vec![MultilinearPolynomial::new(elements(&[9, 4]))],
            Formula::column(0),
        )
    };
    let (large, total) = product_sum();
    let mut batch = Batch::new(2);
    batch.push(&large, 2, total);
    batch.push(&small(), 1, f(13));
    let mut prover_t = ProverTranscript::<F>::new(b"batch");
    let challenges = prove_batched(batch, &mut prover_t);
    let narg = prover_t.into_proof();

    let claims = |second: u64| {
        vec![
            claim_of(2, total),
            SumcheckClaim {
                num_vars: 1,
                degree: 1,
                claimed_sum: f(second),
            },
        ]
    };
    let mut verifier_t = VerifierTranscript::<F>::new(b"batch", narg.clone());
    let (eval, coefficients) = verify_batched(&claims(13), &mut verifier_t).expect("both are true");
    assert_eq!(eval.point, challenges);
    assert_eq!(coefficients.len(), 2);
    let point = poly::reversed(&challenges);
    let a = poly::evaluate(&elements(&[1, 2, 3, 4]), &point);
    let b = poly::evaluate(&elements(&[5, 6, 7, 8]), &point);
    // The smaller sum is bound by the last challenges.
    let tail = poly::reversed(&challenges[1..]);
    let c = poly::evaluate(&elements(&[9, 4]), &tail);
    assert_eq!(
        eval.value,
        coefficients[0].mul(a.mul(b)).add(coefficients[1].mul(c))
    );

    let mut verifier_t = VerifierTranscript::<F>::new(b"batch", narg);
    assert!(verify_batched(&claims(14), &mut verifier_t).is_err());
}

// The transcript.

#[test]
fn transcripts_agree_on_the_challenges() {
    let mut prover_t = ProverTranscript::<F>::new(b"label");
    prover_t.absorb(f(3));
    let first: F = prover_t.challenge();
    prover_t.send(&vec![f(11)]);
    let rest = challenge_vector(&mut prover_t, 3);
    let narg = prover_t.into_proof();
    assert_eq!(narg, vec![f(11)]);

    let mut verifier_t = VerifierTranscript::<F>::new(b"label", narg);
    verifier_t.absorb(f(3));
    assert_eq!(verifier_t.challenge(), first);
    assert_eq!(verifier_t.receive(1), Some(vec![f(11)]));
    assert_eq!(challenge_vector(&mut verifier_t, 3), rest);
    assert_eq!(verifier_t.receive(1), None);
    assert_ne!(rest[0], rest[1]);
}

// The recorded openings.

#[test]
fn later_openings_replace_earlier_ones() {
    let mut acc = Openings::<F>::new(2);
    let (poly, id) = (VirtualPolynomial::PC, SumcheckId::SpartanOuter);
    acc.append_virtual(poly, id, elements(&[1, 2]), f(3));
    acc.append_virtual(poly, id, elements(&[4, 5]), f(6));
    assert_eq!(
        acc.get_virtual_polynomial_opening(poly, id),
        (elements(&[4, 5]), f(6))
    );
    assert_eq!(acc.virtual_claim(poly, id), f(6));
}

#[test]
fn inventory_follows_the_requests() {
    let mut acc = Openings::<F>::new(2);
    let id = SumcheckId::Booleanity;
    for i in 0..3u64 {
        acc.append_dense(
            CommittedPolynomial::R1csAux(i as usize),
            id,
            elements(&[i, i + 1]),
            f(10 + i),
        );
    }
    let request = |i: usize| Stage8Request {
        poly: CommittedPolynomial::R1csAux(i),
        sumcheck: id,
        committed_num_vars: 2,
    };
    let inventory = Stage8Inventory::from_accumulator(&acc, vec![request(2), request(0)]);
    assert_eq!(inventory.requests, vec![request(2), request(0)]);
    assert_eq!(inventory.points, vec![elements(&[2, 3]), elements(&[0, 1])]);
    assert_eq!(inventory.claims, elements(&[12, 10]));
}

#[test]
fn every_changed_round_element_is_refused() {
    let (mut sum, total) = product_sum();
    let mut prover_t = ProverTranscript::<F>::new(b"sum");
    prove(&mut sum, 2, &mut prover_t);
    let narg = prover_t.into_proof();
    assert_eq!(narg.len(), 6);
    for j in 0..narg.len() {
        let mut changed = narg.clone();
        changed[j] = changed[j].add(f(1));
        let mut verifier_t = VerifierTranscript::<F>::new(b"sum", changed);
        assert!(matches!(
            verify(&claim_of(2, total), &mut verifier_t),
            Err(SumcheckError::RoundMismatch)
        ));
    }
}

#[test]
fn trailing_zero_counts() {
    assert_eq!(trailing_zeros(1), 0);
    assert_eq!(trailing_zeros(12), 2);
    assert_eq!(trailing_zeros(64), 6);
}
