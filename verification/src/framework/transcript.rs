//! The Fiat-Shamir transcript shared by prover and verifier.
//!
//! A transcript is modelled by the sequence of field elements it has absorbed or squeezed, the
//! function that turns such a history into the next challenge, and a tape: the elements sent so far
//! on the prover's side, the elements still to be received on the verifier's side.

use crate::field;
use crate::field::Field;
use vstd::prelude::*;

verus! {

/// The abstract state of a transcript.
#[verifier::reject_recursive_types(F)]
pub struct FsState<F> {
    /// The next challenge as a function of the history.
    pub coin: spec_fn(Seq<F>) -> F,
    /// Everything absorbed or squeezed so far, in order.
    pub history: Seq<F>,
    /// Sent elements (prover) or elements not yet received (verifier).
    pub tape: Seq<F>,
}

impl<F: Field> FsState<F> {
    /// The challenge that would be squeezed now.
    pub open spec fn next(self) -> F {
        (self.coin)(self.history)
    }

    /// The state after one challenge is squeezed.
    pub open spec fn squeeze(self) -> FsState<F> {
        FsState { history: self.history.push(self.next()), ..self }
    }

    /// The next `n` challenges.
    pub open spec fn coins(self, n: nat) -> Seq<F>
        decreases n,
    {
        if n == 0 {
            Seq::empty()
        } else {
            self.coins((n - 1) as nat).push(self.squeeze_n((n - 1) as nat).next())
        }
    }

    /// The state after `n` challenges are squeezed.
    pub open spec fn squeeze_n(self, n: nat) -> FsState<F>
        decreases n,
    {
        if n == 0 {
            self
        } else {
            self.squeeze_n((n - 1) as nat).squeeze()
        }
    }

    /// The prover's state after it sends `xs`.
    pub open spec fn send(self, xs: Seq<F>) -> FsState<F> {
        FsState { history: self.history + xs, tape: self.tape + xs, ..self }
    }

    /// The state after both sides absorb the public values `xs`.
    pub open spec fn absorb(self, xs: Seq<F>) -> FsState<F> {
        FsState { history: self.history + xs, ..self }
    }

    /// The verifier's state after it receives `n` elements.
    pub open spec fn receive(self, n: nat) -> FsState<F> {
        FsState {
            history: self.history + self.tape.take(n as int),
            tape: self.tape.skip(n as int),
            ..self
        }
    }

    /// Every challenge is canonical.
    pub open spec fn canonical(self) -> bool {
        forall|h: Seq<F>| (#[trigger] (self.coin)(h)).valid()
    }
}

/// The verifier is where the prover was, with exactly the rest of the prover's messages to read.
pub open spec fn synced<F: Field>(p: FsState<F>, v: FsState<F>, whole: Seq<F>) -> bool {
    &&& p.coin == v.coin
    &&& p.history == v.history
    &&& p.tape + v.tape == whole
}

pub proof fn lemma_coins_len<F: Field>(s: FsState<F>, n: nat)
    ensures
        s.coins(n).len() == n,
        s.squeeze_n(n).tape == s.tape,
        s.squeeze_n(n).coin == s.coin,
        s.canonical() ==> field::all_valid(s.coins(n)),
    decreases n,
{
    if n > 0 {
        lemma_coins_len(s, (n - 1) as nat);
    }
}

/// Two synchronised parties squeeze the same challenges and stay synchronised.
pub proof fn lemma_synced_squeeze_n<F: Field>(
    p: FsState<F>,
    v: FsState<F>,
    whole: Seq<F>,
    n: nat,
)
    requires
        synced(p, v, whole),
    ensures
        p.coins(n) == v.coins(n),
        synced(p.squeeze_n(n), v.squeeze_n(n), whole),
    decreases n,
{
    if n > 0 {
        lemma_synced_squeeze_n(p, v, whole, (n - 1) as nat);
    }
}

/// What the prover sends next is what the verifier receives next.
pub proof fn lemma_synced_send<F: Field>(p: FsState<F>, v: FsState<F>, whole: Seq<F>, xs: Seq<F>)
    requires
        synced(p, v, whole),
        p.send(xs).tape.is_prefix_of(whole),
    ensures
        v.tape.len() >= xs.len(),
        v.tape.take(xs.len() as int) == xs,
        synced(p.send(xs), v.receive(xs.len()), whole),
{
    let n = xs.len() as int;
    let k = p.tape.len() as int;
    assert(whole.subrange(k, k + n) =~= xs) by {
        assert(whole.take((k + n) as int) =~= p.tape + xs);
        assert forall|i: int| 0 <= i < n implies whole.subrange(k, k + n)[i] == xs[i] by {
            assert(whole[k + i] == whole.take((k + n) as int)[k + i]);
        }
    }
    assert(v.tape =~= whole.skip(k));
    assert(v.tape.take(n) =~= xs);
    assert(p.tape + xs + v.tape.skip(n) =~= whole);
}

pub proof fn lemma_prefix_trans<F: Field>(a: Seq<F>, b: Seq<F>, c: Seq<F>)
    requires
        a.is_prefix_of(b),
        b.is_prefix_of(c),
    ensures
        a.is_prefix_of(c),
{
    assert forall|i: int| 0 <= i < a.len() implies a[i] == c[i] by {
        assert(a[i] == b[i]);
    }
    assert(a =~= c.take(a.len() as int));
}

/// Two synchronised parties squeeze the same challenge and stay synchronised.
pub proof fn lemma_synced_squeeze<F: Field>(p: FsState<F>, v: FsState<F>, whole: Seq<F>)
    requires
        synced(p, v, whole),
    ensures
        p.next() == v.next(),
        synced(p.squeeze(), v.squeeze(), whole),
        p.squeeze().canonical() == p.canonical(),
        p.squeeze().tape == p.tape,
        p.canonical() ==> p.next().valid(),
{
}

/// Drawing challenges from a transcript.
pub trait Challenge<F: Field>: Sized {
    /// The abstract state.
    spec fn state(&self) -> FsState<F>;

    /// Squeeze one challenge.
    fn challenge(&mut self) -> (c: F)
        ensures
            c == old(self).state().next(),
            final(self).state() == old(self).state().squeeze(),
    ;

    /// Absorb one public element known to both sides.
    fn absorb(&mut self, x: F)
        ensures
            final(self).state() == old(self).state().absorb(seq![x]),
    ;
}

/// The prover's side of a transcript.
pub trait ProverFs<F: Field>: Challenge<F> {
    /// Send the given elements.
    fn send(&mut self, xs: &Vec<F>)
        ensures
            final(self).state() == old(self).state().send(xs@),
    ;
}

/// The verifier's side of a transcript.
pub trait VerifierFs<F: Field>: Challenge<F> {
    /// Receive `n` elements, or nothing when fewer are left.
    fn receive(&mut self, n: usize) -> (r: Option<Vec<F>>)
        ensures
            match r {
                Some(xs) => {
                    &&& old(self).state().tape.len() >= n
                    &&& xs@ == old(self).state().tape.take(n as int)
                    &&& final(self).state() == old(self).state().receive(n as nat)
                },
                None => {
                    &&& old(self).state().tape.len() < n
                    &&& final(self).state() == old(self).state()
                },
            },
    ;
}

/// Squeeze `n` challenges.
pub fn challenge_vector<F: Field, T: Challenge<F>>(t: &mut T, n: usize) -> (r: Vec<F>)
    ensures
        r@ == old(t).state().coins(n as nat),
        final(t).state() == old(t).state().squeeze_n(n as nat),
{
    let ghost start = t.state();
    let mut out: Vec<F> = Vec::new();
    assert(out@ =~= start.coins(0));
    for i in 0..n
        invariant
            out@ == start.coins(i as nat),
            t.state() == start.squeeze_n(i as nat),
    {
        let c: F = t.challenge();
        out.push(c);
        assert(out@ =~= start.coins((i + 1) as nat));
    }
    out
}

/// Absorb public elements known to both sides.
pub fn absorb_all<F: Field, T: Challenge<F>>(t: &mut T, xs: &[F])
    ensures
        final(t).state() == old(t).state().absorb(xs@),
{
    let ghost start = t.state();
    let n: usize = xs.len();
    assert(start.absorb(xs@.take(0)).history =~= start.history);
    for i in 0..n
        invariant
            n == xs@.len(),
            t.state() == start.absorb(xs@.take(i as int)),
    {
        t.absorb(xs[i]);
        assert(start.absorb(xs@.take(i as int)).absorb(seq![xs@[i as int]]).history
            =~= start.absorb(xs@.take(i + 1)).history);
    }
    assert(xs@.take(n as int) =~= xs@);
}

/// The seventh power.
pub open spec fn seventh_power<F: Field>(x: F) -> F {
    x.times(x).times(x).times(x.times(x).times(x)).times(x)
}

/// The sponge: every element is added to the state, which then goes through the power map.
pub open spec fn sponge_hash<F: Field>(history: Seq<F>) -> F
    decreases history.len(),
{
    if history.len() == 0 {
        F::of_int(0)
    } else {
        seventh_power(sponge_hash(history.drop_last()).plus(history.last())).plus(F::of_int(7))
    }
}

/// The challenge function of the sponge.
pub open spec fn sponge_coin<F: Field>() -> spec_fn(Seq<F>) -> F {
    |h: Seq<F>| sponge_hash(h)
}

/// The elements of a label's bytes.
pub open spec fn label_elements<F: Field>(label: Seq<u8>) -> Seq<F> {
    label.map_values(|b: u8| F::of_int(b as int))
}

/// The state of a fresh transcript with a label: nothing sent, or a proof to read.
pub open spec fn fresh<F: Field>(label: Seq<u8>, tape: Seq<F>) -> FsState<F> {
    FsState { coin: sponge_coin::<F>(), history: label_elements(label), tape }
}

/// Fresh transcripts with the same label are synchronised, and every challenge is canonical.
pub proof fn law_fresh<F: Field>(label: Seq<u8>, whole: Seq<F>)
    ensures
        fresh::<F>(label, Seq::empty()).canonical(),
        synced(fresh::<F>(label, Seq::empty()), fresh(label, whole), whole),
{
    assert forall|h: Seq<F>| (#[trigger] (sponge_coin::<F>())(h)).valid() by {
        if h.len() == 0 {
            F::law_of_int_valid(0);
        } else {
            F::law_valid(
                seventh_power(sponge_hash(h.drop_last()).plus(h.last())),
                F::of_int(7),
            );
        }
    }
    assert(Seq::<F>::empty() + whole =~= whole);
}

/// A small algebraic sponge. It separates distinct histories well enough to run the protocols
/// end to end; a deployment brings its own cryptographic transcript.
pub struct Sponge<F: Field> {
    value: F,
    history: Ghost<Seq<F>>,
}

impl<F: Field> Sponge<F> {
    #[verifier::type_invariant]
    spec fn inv(self) -> bool {
        self.value == sponge_hash(self.history@)
    }

    /// What the sponge has absorbed.
    pub closed spec fn absorbed(self) -> Seq<F> {
        self.history@
    }

    /// The empty sponge.
    pub fn new() -> (r: Self)
        ensures
            r.absorbed() == Seq::<F>::empty(),
    {
        Sponge { value: field::zero(), history: Ghost(Seq::empty()) }
    }

    /// The sponge after it absorbs `x`.
    pub fn with(&self, x: F) -> (r: Self)
        ensures
            r.absorbed() == self.absorbed().push(x),
    {
        proof {
            use_type_invariant(self);
            assert(self.history@.push(x).drop_last() =~= self.history@);
        }
        let t: F = self.value.add(x);
        let t2: F = t.mul(t);
        let t3: F = t2.mul(t);
        let t7: F = t3.mul(t3).mul(t);
        let value: F = t7.add(F::from_u64(7));
        Sponge { value, history: Ghost(self.history@.push(x)) }
    }

    /// The challenge of the current history.
    pub fn output(&self) -> (c: F)
        ensures
            c == sponge_hash(self.absorbed()),
    {
        proof {
            use_type_invariant(self);
        }
        self.value
    }

    fn with_label(label: &[u8]) -> (r: Self)
        ensures
            r.absorbed() == label_elements::<F>(label@),
    {
        let mut s: Sponge<F> = Sponge::new();
        let n: usize = label.len();
        assert(label_elements::<F>(label@.take(0)) =~= Seq::<F>::empty());
        for i in 0..n
            invariant
                n == label@.len(),
                s.absorbed() == label_elements::<F>(label@.take(i as int)),
        {
            s = s.with(F::from_u64(label[i] as u64));
            assert(s.absorbed() =~= label_elements::<F>(label@.take(i + 1)));
        }
        assert(label@.take(n as int) =~= label@);
        s
    }
}

/// The prover's transcript: a sponge and the messages sent.
pub struct ProverTranscript<F: Field> {
    sponge: Sponge<F>,
    sent: Vec<F>,
}

impl<F: Field> ProverTranscript<F> {
    /// A fresh transcript separated from others by its label.
    pub fn new(label: &[u8]) -> (r: Self)
        ensures
            r.state() == fresh(label@, Seq::<F>::empty()),
    {
        ProverTranscript { sponge: Sponge::with_label(label), sent: Vec::new() }
    }

    /// The messages sent, which are the proof.
    pub fn into_proof(self) -> (r: Vec<F>)
        ensures
            r@ == self.state().tape,
    {
        self.sent
    }
}

impl<F: Field> Challenge<F> for ProverTranscript<F> {
    closed spec fn state(&self) -> FsState<F> {
        FsState {
            coin: sponge_coin::<F>(),
            history: self.sponge.absorbed(),
            tape: self.sent@,
        }
    }

    fn challenge(&mut self) -> (c: F) {
        let c: F = self.sponge.output();
        self.sponge = self.sponge.with(c);
        c
    }

    fn absorb(&mut self, x: F) {
        self.sponge = self.sponge.with(x);
        assert(self.state().history =~= old(self).state().absorb(seq![x]).history);
    }
}

impl<F: Field> ProverFs<F> for ProverTranscript<F> {
    fn send(&mut self, xs: &Vec<F>) {
        let n: usize = xs.len();
        assert(old(self).state().send(xs@.take(0)).history =~= self.state().history);
        assert(old(self).state().send(xs@.take(0)).tape =~= self.state().tape);
        for i in 0..n
            invariant
                n == xs@.len(),
                self.state() == old(self).state().send(xs@.take(i as int)),
        {
            self.sponge = self.sponge.with(xs[i]);
            self.sent.push(xs[i]);
            assert(self.state().history =~= old(self).state().send(xs@.take(i + 1)).history);
            assert(self.state().tape =~= old(self).state().send(xs@.take(i + 1)).tape);
        }
        assert(xs@.take(n as int) =~= xs@);
    }
}

/// The verifier's transcript: a sponge and the proof being read.
pub struct VerifierTranscript<F: Field> {
    sponge: Sponge<F>,
    proof_elements: Vec<F>,
    position: usize,
}

impl<F: Field> VerifierTranscript<F> {
    #[verifier::type_invariant]
    spec fn inv(self) -> bool {
        self.position <= self.proof_elements@.len()
    }

    /// A fresh transcript that reads the given proof.
    pub fn new(label: &[u8], proof_elements: Vec<F>) -> (r: Self)
        ensures
            r.state() == fresh(label@, proof_elements@),
    {
        let r: VerifierTranscript<F> = VerifierTranscript {
            sponge: Sponge::with_label(label),
            proof_elements,
            position: 0,
        };
        assert(r.proof_elements@.skip(0) =~= r.proof_elements@);
        r
    }
}

impl<F: Field> Challenge<F> for VerifierTranscript<F> {
    closed spec fn state(&self) -> FsState<F> {
        FsState {
            coin: sponge_coin::<F>(),
            history: self.sponge.absorbed(),
            tape: self.proof_elements@.skip(self.position as int),
        }
    }

    fn challenge(&mut self) -> (c: F) {
        proof {
            use_type_invariant(&*self);
        }
        let c: F = self.sponge.output();
        self.sponge = self.sponge.with(c);
        c
    }

    fn absorb(&mut self, x: F) {
        proof {
            use_type_invariant(&*self);
        }
        self.sponge = self.sponge.with(x);
        assert(self.state().history =~= old(self).state().absorb(seq![x]).history);
    }
}

impl<F: Field> VerifierFs<F> for VerifierTranscript<F> {
    fn receive(&mut self, n: usize) -> (r: Option<Vec<F>>) {
        proof {
            use_type_invariant(&*self);
        }
        let ghost start = self.state();
        let left: usize = self.proof_elements.len() - self.position;
        if left < n {
            return None;
        }
        let mut out: Vec<F> = Vec::new();
        assert(start.receive(0).history =~= start.history);
        assert(start.receive(0).tape =~= start.tape);
        assert(out@ =~= start.tape.take(0));
        for i in 0..n
            invariant
                n <= start.tape.len(),
                self.position <= self.proof_elements@.len(),
                self.state() == start.receive(i as nat),
                out@ == start.tape.take(i as int),
        {
            assert(self.state().tape.len() == start.tape.len() - i);
            let len: usize = self.proof_elements.len();
            assert(self.position < len);
            let x: F = self.proof_elements[self.position];
            assert(x == self.state().tape[0]);
            assert(x == start.tape[i as int]);
            self.sponge = self.sponge.with(x);
            self.position = self.position + 1;
            out.push(x);
            assert(self.state().history =~= start.receive((i + 1) as nat).history);
            assert(start.tape.skip(i as int).skip(1) =~= start.tape.skip(i + 1));
            assert(self.state().tape =~= start.receive((i + 1) as nat).tape);
            assert(out@ =~= start.tape.take(i + 1));
        }
        Some(out)
    }
}

/// Drawing challenges adds one element for each of them to the history.
pub proof fn lemma_drawn<F: Field>(s: FsState<F>, n: nat)
    ensures
        s.squeeze_n(n).history.len() == s.history.len() + n,
        s.squeeze_n(n).tape == s.tape,
    decreases n,
{
    if n > 0 {
        lemma_drawn(s, (n - 1) as nat);
    }
}

/// Each challenge is drawn from the history before it, and joins the history behind it.
pub proof fn law_drawn_in_order<F: Field>(s: FsState<F>, n: nat)
    ensures
        s.squeeze_n(n).history == s.history + s.coins(n),
        s.squeeze_n(n).tape == s.tape,
        s.squeeze_n(n).coin == s.coin,
        s.coins(n).len() == n,
        forall|i: int|
            0 <= i < n ==> #[trigger] s.coins(n)[i] == (s.coin)(s.history + s.coins(n).take(i)),
    decreases n,
{
    if n > 0 {
        let k = (n - 1) as nat;
        law_drawn_in_order(s, k);
        let before = s.coins(k);
        let all = s.coins(n);
        assert(s.squeeze_n(n).history =~= s.history + all);
        assert forall|i: int| 0 <= i < n implies #[trigger] all[i] == (s.coin)(
            s.history + all.take(i),
        ) by {
            assert(all.take(i) =~= before.take(i));
            if i == k {
                assert(before.take(i) =~= before);
            }
        }
    } else {
        assert(s.history + s.coins(n) =~= s.history);
    }
}

} // verus!
