//! The opening accumulator: the polynomial evaluation claims that one sumcheck hands to the next.

use crate::field::Field;
use crate::framework::poly;
use vstd::prelude::*;

verus! {

/// A polynomial the prover commits to.
#[derive(Clone, Copy, Debug, PartialEq, Eq, Structural)]
pub enum CommittedPolynomial {
    RdInc,
    RamInc,
    InstructionRa(usize),
    BytecodeRa(usize),
    RamRa(usize),
    R1csAux(usize),
    RaDense(usize),
    Pushforward(usize),
}

/// A polynomial that exists only through claims about it.
#[derive(Clone, Copy, Debug, PartialEq, Eq, Structural)]
pub enum VirtualPolynomial {
    PC,
    UnexpandedPC,
    NextPC,
    NextUnexpandedPC,
    NextIsVirtual,
    NextIsFirstInSequence,
    NextIsNoop,
    LeftLookupOperand,
    RightLookupOperand,
    LeftInstructionInput,
    RightInstructionInput,
    LookupOutput,
    LookupTableFlag(usize),
    InstructionRaf,
    InstructionRafFlag,
    Imm,
    Rs1Value,
    Rs2Value,
    RdWriteValue,
    RegistersVal,
    Rs1Ra,
    Rs2Ra,
    RdWa,
    RamAddress,
    RamRa,
    RamReadValue,
    RamWriteValue,
    RamVal,
    RamValFinal,
    RamHammingWeight,
    SpartanAz,
    SpartanBz,
    SpartanCz,
    SpartanWitnessZ,
}

/// The sumcheck that produced a claim.
#[derive(Clone, Copy, Debug, PartialEq, Eq, Structural)]
pub enum SumcheckId {
    SpartanOuter,
    SpartanInner,
    SpartanShift,
    SpartanProductVirtualization,
    InstructionInputVirtualization,
    InstructionReadRaf,
    InstructionRaVirtualization,
    InstructionClaimReduction,
    BytecodeReadRaf,
    RegistersClaimReduction,
    RegistersReadWriteChecking,
    RegistersValEvaluation,
    RamReadWriteChecking,
    RamRafEvaluation,
    RamOutputCheck,
    RamValCheck,
    RamRaClaimReduction,
    RamRaVirtualization,
    RamHammingBooleanity,
    IncClaimReduction,
    HammingWeightClaimReduction,
    Booleanity,
    PushforwardGkr,
    PushforwardReduction,
}

/// The name of a claim: a polynomial and the sumcheck that opened it.
#[derive(Clone, Copy, Debug, PartialEq, Eq, Structural)]
pub enum OpeningId {
    Committed(CommittedPolynomial, SumcheckId),
    Virtual(VirtualPolynomial, SumcheckId),
}

/// The claims held by an accumulator: for every name, the point and the claimed value.
pub type Claims<F> = Map<OpeningId, (Seq<F>, F)>;

/// The name of a claim about a virtual polynomial.
pub open spec fn virt(p: VirtualPolynomial, s: SumcheckId) -> OpeningId {
    OpeningId::Virtual(p, s)
}

/// The name of a claim about a committed polynomial.
pub open spec fn comm(p: CommittedPolynomial, s: SumcheckId) -> OpeningId {
    OpeningId::Committed(p, s)
}

/// One recorded claim.
#[derive(Debug)]
pub struct Opening<F> {
    pub id: OpeningId,
    pub point: Vec<F>,
    pub claim: F,
}

/// The claims of a list of recorded openings, later ones replacing earlier ones.
pub open spec fn claims_of<F: Field>(entries: Seq<Opening<F>>) -> Claims<F>
    decreases entries.len(),
{
    if entries.len() == 0 {
        Map::empty()
    } else {
        claims_of(entries.drop_last()).insert(
            entries.last().id,
            (entries.last().point@, entries.last().claim),
        )
    }
}

/// The last opening recorded under a name is the claim of that name.
proof fn lemma_claims_of<F: Field>(entries: Seq<Opening<F>>, k: int)
    requires
        0 <= k < entries.len(),
        forall|i: int| k < i < entries.len() ==> (#[trigger] entries[i]).id != entries[k].id,
    ensures
        claims_of(entries).contains_key(entries[k].id),
        claims_of(entries)[entries[k].id] == (entries[k].point@, entries[k].claim),
    decreases entries.len(),
{
    if k < entries.len() - 1 {
        let rest = entries.drop_last();
        assert(entries[entries.len() - 1].id != entries[k].id);
        assert forall|i: int| k < i < rest.len() implies (#[trigger] rest[i]).id
            != rest[k].id by {
            assert(entries[i].id != entries[k].id);
        }
        lemma_claims_of(rest, k);
    }
}

/// A name under which no opening was recorded has no claim.
proof fn lemma_claims_of_absent<F: Field>(entries: Seq<Opening<F>>, id: OpeningId)
    requires
        forall|i: int| 0 <= i < entries.len() ==> (#[trigger] entries[i]).id != id,
    ensures
        !claims_of(entries).contains_key(id),
    decreases entries.len(),
{
    if entries.len() > 0 {
        let rest = entries.drop_last();
        assert forall|i: int| 0 <= i < rest.len() implies (#[trigger] rest[i]).id != id by {
            assert(entries[i].id != id);
        }
        assert(entries[entries.len() - 1].id != id);
        lemma_claims_of_absent(rest, id);
    }
}

/// The accumulator of opening claims.
#[derive(Debug)]
pub struct Openings<F> {
    pub log_t: usize,
    pub entries: Vec<Opening<F>>,
}

impl<F: Field> View for Openings<F> {
    type V = Claims<F>;

    open spec fn view(&self) -> Claims<F> {
        claims_of(self.entries@)
    }
}

impl<F: Field> Openings<F> {
    /// An empty accumulator for traces of `2^log_t` cycles.
    pub fn new(log_t: usize) -> (r: Self)
        ensures
            r@ == Map::<OpeningId, (Seq<F>, F)>::empty(),
            r.log_t == log_t,
    {
        Openings { log_t, entries: Vec::new() }
    }

    fn append(&mut self, id: OpeningId, point: Vec<F>, claim: F)
        ensures
            final(self)@ == old(self)@.insert(id, (point@, claim)),
            final(self).log_t == old(self).log_t,
    {
        self.entries.push(Opening { id, point, claim });
        assert(self.entries@.drop_last() =~= old(self).entries@);
    }

    /// Record a claim about a virtual polynomial.
    pub fn append_virtual(
        &mut self,
        poly: VirtualPolynomial,
        sumcheck: SumcheckId,
        point: Vec<F>,
        claim: F,
    )
        ensures
            final(self)@ == old(self)@.insert(virt(poly, sumcheck), (point@, claim)),
            final(self).log_t == old(self).log_t,
    {
        self.append(OpeningId::Virtual(poly, sumcheck), point, claim);
    }

    /// Record a claim about a committed polynomial.
    pub fn append_dense(
        &mut self,
        poly: CommittedPolynomial,
        sumcheck: SumcheckId,
        point: Vec<F>,
        claim: F,
    )
        ensures
            final(self)@ == old(self)@.insert(comm(poly, sumcheck), (point@, claim)),
            final(self).log_t == old(self).log_t,
    {
        self.append(OpeningId::Committed(poly, sumcheck), point, claim);
    }

    /// The index of the last opening recorded under a name.
    fn find(&self, id: OpeningId) -> (r: Option<usize>)
        ensures
            match r {
                Some(k) => {
                    &&& k < self.entries@.len()
                    &&& self@.contains_key(id)
                    &&& self@[id] == (self.entries@[k as int].point@, self.entries@[k as int].claim)
                },
                None => !self@.contains_key(id),
            },
    {
        let mut i: usize = self.entries.len();
        while i > 0
            invariant
                i <= self.entries@.len(),
                forall|j: int| i <= j < self.entries@.len() ==> (#[trigger] self.entries@[j]).id != id,
            decreases i,
        {
            i = i - 1;
            if self.entries[i].id == id {
                proof {
                    lemma_claims_of(self.entries@, i as int);
                }
                return Some(i);
            }
        }
        proof {
            lemma_claims_of_absent(self.entries@, id);
        }
        None
    }

    fn get(&self, id: OpeningId) -> (r: (Vec<F>, F))
        requires
            self@.contains_key(id),
        ensures
            r.0@ == self@[id].0,
            r.1 == self@[id].1,
    {
        match self.find(id) {
            Some(k) => {
                let e: &Opening<F> = &self.entries[k];
                (poly::copied(&e.point), e.claim)
            },
            None => {
                assert(false);
                (Vec::new(), crate::field::zero())
            },
        }
    }

    /// The point and value claimed of a virtual polynomial.
    pub fn get_virtual_polynomial_opening(
        &self,
        poly: VirtualPolynomial,
        sumcheck: SumcheckId,
    ) -> (r: (Vec<F>, F))
        requires
            self@.contains_key(virt(poly, sumcheck)),
        ensures
            r.0@ == self@[virt(poly, sumcheck)].0,
            r.1 == self@[virt(poly, sumcheck)].1,
    {
        self.get(OpeningId::Virtual(poly, sumcheck))
    }

    /// The point and value claimed of a committed polynomial.
    pub fn get_committed_polynomial_opening(
        &self,
        poly: CommittedPolynomial,
        sumcheck: SumcheckId,
    ) -> (r: (Vec<F>, F))
        requires
            self@.contains_key(comm(poly, sumcheck)),
        ensures
            r.0@ == self@[comm(poly, sumcheck)].0,
            r.1 == self@[comm(poly, sumcheck)].1,
    {
        self.get(OpeningId::Committed(poly, sumcheck))
    }

    /// The value claimed of a virtual polynomial.
    pub fn virtual_claim(&self, poly: VirtualPolynomial, sumcheck: SumcheckId) -> (r: F)
        requires
            self@.contains_key(virt(poly, sumcheck)),
        ensures
            r == self@[virt(poly, sumcheck)].1,
    {
        self.get_virtual_polynomial_opening(poly, sumcheck).1
    }

    /// The value claimed of a committed polynomial.
    pub fn committed_claim(&self, poly: CommittedPolynomial, sumcheck: SumcheckId) -> (r: F)
        requires
            self@.contains_key(comm(poly, sumcheck)),
        ensures
            r == self@[comm(poly, sumcheck)].1,
    {
        self.get_committed_polynomial_opening(poly, sumcheck).1
    }
}

/// The claim of a name is the extension of a column at a point of `n` coordinates.
pub open spec fn opens<F: Field>(acc: Claims<F>, id: OpeningId, column: Seq<F>, n: nat) -> bool {
    &&& acc.contains_key(id)
    &&& acc[id].0.len() == n
    &&& acc[id].1 == poly::mle(column, acc[id].0)
}

/// A claim was recorded at a point of `n` coordinates.
pub open spec fn recorded<F: Field>(acc: Claims<F>, id: OpeningId, n: nat) -> bool {
    acc.contains_key(id) && acc[id].0.len() == n
}

/// The claims of a name are the same.
pub open spec fn kept<F: Field>(before: Claims<F>, after: Claims<F>, id: OpeningId) -> bool {
    before.contains_key(id) ==> after.contains_key(id) && after[id] == before[id]
}

} // verus!
