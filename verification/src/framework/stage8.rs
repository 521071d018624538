//! Requests to open committed polynomials.

use crate::field::Field;
use crate::framework::accumulator;
use crate::framework::accumulator::{Claims, CommittedPolynomial, OpeningId, Openings, SumcheckId};
use vstd::prelude::*;

verus! {

/// A committed polynomial to be opened where a check recorded its claim.
#[derive(Clone, Copy, Debug, PartialEq, Eq, Structural)]
pub struct Stage8Request {
    pub poly: CommittedPolynomial,
    pub sumcheck: SumcheckId,
    /// The number of variables of the committed polynomial.
    pub committed_num_vars: usize,
}

impl Stage8Request {
    /// The name of the claim to be opened.
    pub open spec fn id(self) -> OpeningId {
        accumulator::comm(self.poly, self.sumcheck)
    }
}

/// Requests with the points and values to be opened.
#[derive(Debug)]
pub struct Stage8Inventory<F> {
    pub requests: Vec<Stage8Request>,
    pub points: Vec<Vec<F>>,
    pub claims: Vec<F>,
}

impl<F: Field> Stage8Inventory<F> {
    /// The points and values are the recorded ones.
    pub open spec fn taken_from(self, acc: Claims<F>, requests: Seq<Stage8Request>) -> bool {
        &&& self.requests@ == requests
        &&& self.points@.len() == requests.len()
        &&& self.claims@.len() == requests.len()
        &&& forall|i: int|
            0 <= i < requests.len() ==> (#[trigger] self.points@[i])@ == acc[requests[i].id()].0
        &&& forall|i: int|
            0 <= i < requests.len() ==> #[trigger] self.claims@[i] == acc[requests[i].id()].1
    }

    /// Look up the points and values of requests.
    pub fn from_accumulator(accumulator: &Openings<F>, requests: Vec<Stage8Request>) -> (r: Self)
        requires
            forall|i: int|
                0 <= i < requests@.len() ==> accumulator@.contains_key(
                    (#[trigger] requests@[i]).id(),
                ),
        ensures
            r.taken_from(accumulator@, requests@),
    {
        let mut points: Vec<Vec<F>> = Vec::new();
        let mut claims: Vec<F> = Vec::new();
        for i in 0..requests.len()
            invariant
                forall|i: int|
                    0 <= i < requests@.len() ==> accumulator@.contains_key(
                        (#[trigger] requests@[i]).id(),
                    ),
                points@.len() == i,
                claims@.len() == i,
                forall|k: int|
                    0 <= k < i ==> (#[trigger] points@[k])@ == accumulator@[requests@[k].id()].0,
                forall|k: int|
                    0 <= k < i ==> #[trigger] claims@[k] == accumulator@[requests@[k].id()].1,
        {
            let request: Stage8Request = requests[i];
            assert(accumulator@.contains_key(requests@[i as int].id()));
            let (point, claim) = accumulator.get_committed_polynomial_opening(
                request.poly,
                request.sumcheck,
            );
            points.push(point);
            claims.push(claim);
        }
        Stage8Inventory { requests, points, claims }
    }
}

} // verus!
