//! Pushforward proofs of families, chunk by chunk, and the hand-over from a read check.

use crate::field;
use crate::field::Field;
use crate::framework::accumulator;
use crate::framework::accumulator::{
    Claims, CommittedPolynomial, OpeningId, Openings, SumcheckId,
};
use crate::framework::poly;
use crate::framework::sumcheck;
use crate::framework::sums;
use crate::framework::transcript;
use crate::framework::transcript::{FsState, ProverFs, VerifierFs};
use crate::zkvm::access;
use crate::zkvm::logup::gkr;
use crate::zkvm::logup::gkr::{prove_family_gkr, verify_family_gkr, FamilyView, GkrProof};
use crate::zkvm::logup::pushforward;
use crate::zkvm::logup::pushforward::{
    prepare_family, prepare_family_verifier, Family, FamilyModel, PushforwardData, VerifierView,
};
use crate::zkvm::logup::GkrError;
use crate::zkvm::read_raf_stage;
use crate::zkvm::read_raf_stage::InputsModel;
use crate::zkvm::shout_read_raf;
use crate::zkvm::shout_read_raf::RaFamily;
use vstd::arithmetic::power2::pow2;
use vstd::prelude::*;

verus! {

/// The pushforward or an error, the records and the transcript of an honest family proof.
pub open spec fn honest_family<F: Field>(
    family: FamilyModel<F>,
    claims: Seq<F>,
    index: int,
    acc: Claims<F>,
    s: FsState<F>,
) -> (Result<Seq<F>, GkrError>, Claims<F>, FsState<F>) {
    let (drawn, s1) = pushforward::draw(claims, family.log_d, s);
    if family.identity_holds(drawn) {
        let (acc1, s2) = gkr::family_run(family, drawn, index, acc, s1);
        (Ok(family.pushed(drawn)), acc1, s2)
    } else {
        (Err(GkrError::MainIdentity), acc, s1)
    }
}

/// The content of a result.
pub open spec fn column_of<F: Field>(
    r: Result<(GkrProof, Vec<F>), GkrError>,
) -> Result<Seq<F>, GkrError> {
    match r {
        Ok((_, p)) => Ok(p@),
        Err(e) => Err(e),
    }
}

/// Prove the pushforward of a family from its claims, and return the pushforward.
pub fn prove_family<F: Field, T: ProverFs<F>>(
    family: &Family<F>,
    input_claims: &[F],
    family_index: usize,
    accumulator: &mut Openings<F>,
    transcript: &mut T,
) -> (r: Result<(GkrProof, Vec<F>), GkrError>)
    requires
        family@.sized(),
        family@.bounded(),
        input_claims@.len() == pow2(family.log_d as nat),
    ensures
        (column_of(r), final(accumulator)@, final(transcript).state()) == honest_family(
            family@,
            input_claims@,
            family_index as int,
            old(accumulator)@,
            old(transcript).state(),
        ),
{
    let ghost s = transcript.state();
    let ghost drawn = pushforward::draw(input_claims@, family.log_d as nat, s).0;
    let data: PushforwardData<F> = match prepare_family(family, input_claims, transcript) {
        Err(e) => {
            return Err(e);
        },
        Ok(d) => d,
    };
    proof {
        transcript::lemma_coins_len(s.absorb(input_claims@), family.log_d as nat);
        gkr::lemma_data_sized(family@, data, drawn);
    }
    let proof_out: GkrProof = prove_family_gkr(&data, family_index, accumulator, transcript);
    Ok((proof_out, data.pushforward))
}

/// The sizes and points of a family, without its columns.
#[derive(Debug)]
pub struct FamilyVerifierParams<F> {
    pub log_t: usize,
    pub log_d: usize,
    pub log_m: usize,
    pub r_row: Vec<F>,
    pub r_col: Vec<F>,
}

/// What the verifier knows of a family before anything is drawn.
#[verifier::ext_equal]
pub struct FamilyShape<F> {
    pub log_t: nat,
    pub log_d: nat,
    pub log_m: nat,
    pub r_row: Seq<F>,
    pub r_col: Seq<F>,
}

impl<F: Field> View for FamilyVerifierParams<F> {
    type V = FamilyShape<F>;

    open spec fn view(&self) -> FamilyShape<F> {
        FamilyShape {
            log_t: self.log_t as nat,
            log_d: self.log_d as nat,
            log_m: self.log_m as nat,
            r_row: self.r_row@,
            r_col: self.r_col@,
        }
    }
}

/// The shape of a family.
pub open spec fn shape_of<F: Field>(family: FamilyModel<F>) -> FamilyShape<F> {
    FamilyShape {
        log_t: family.log_t,
        log_d: family.log_d,
        log_m: family.log_m,
        r_row: family.r_row,
        r_col: family.r_col,
    }
}

/// The verdict on a family, the recorded claims, and the transcript after it.
pub open spec fn verdict_family<F: Field>(
    shape: FamilyShape<F>,
    claims: Seq<F>,
    index: int,
    acc: Claims<F>,
    s: FsState<F>,
) -> (Result<(), GkrError>, Claims<F>, FsState<F>) {
    let (drawn, s1) = pushforward::draw(claims, shape.log_d, s);
    gkr::verdict(
        FamilyView {
            depth_a: shape.log_t + shape.log_d,
            depth_b: shape.log_m,
            r_m_row: shape.r_row + drawn.r_chunk,
            r_col: shape.r_col,
            alpha: drawn.alpha,
            combined: drawn.combined,
        },
        index,
        acc,
        s1,
    )
}

/// Verify the pushforward of a family against its claims.
pub fn verify_family<F: Field, T: VerifierFs<F>>(
    params: &FamilyVerifierParams<F>,
    input_claims: &[F],
    proof: &GkrProof,
    family_index: usize,
    accumulator: &mut Openings<F>,
    transcript: &mut T,
) -> (r: Result<(), GkrError>)
    requires
        params.r_row@.len() == params.log_t,
        params.log_t + params.log_d <= usize::MAX,
        pow2(params.log_d as nat) <= usize::MAX,
    ensures
        (r, final(accumulator)@, final(transcript).state()) == verdict_family(
            params@,
            input_claims@,
            family_index as int,
            old(accumulator)@,
            old(transcript).state(),
        ),
{
    proof {
        transcript::lemma_coins_len(
            transcript.state().absorb(input_claims@),
            params.log_d as nat,
        );
    }
    let view: VerifierView<F> = prepare_family_verifier(
        params.log_t,
        params.log_d,
        params.log_m,
        &params.r_row,
        &params.r_col,
        input_claims,
        transcript,
    );
    verify_family_gkr(&view, proof, family_index, accumulator, transcript)
}

/// Completeness of a family: from its true claims the honest proof is made and accepted, and both
/// parties record the same claims.
pub proof fn law_family_complete<F: Field>(
    family: FamilyModel<F>,
    index: int,
    acc: Claims<F>,
    p: FsState<F>,
    v: FsState<F>,
    whole: Seq<F>,
)
    requires
        family.sized(),
        p.canonical(),
        transcript::synced(p, v, whole),
        honest_family(family, family.claims(), index, acc, p).2.tape.is_prefix_of(whole),
    ensures
        ({
            let claims = family.claims();
            let (made, acc1, p1) = honest_family(family, claims, index, acc, p);
            let (r, acc2, v1) = verdict_family(shape_of(family), claims, index, acc, v);
            &&& made is Ok
            &&& r is Ok
            &&& acc2 == acc1
            &&& transcript::synced(p1, v1, whole)
            &&& p1.canonical()
            &&& p1.coin == p.coin
            &&& p.tape.is_prefix_of(p1.tape)
        }),
{
    let claims = family.claims();
    let (drawn, p1) = pushforward::draw(claims, family.log_d, p);
    let pa = p.absorb(claims);
    let va = v.absorb(claims);
    transcript::lemma_coins_len(pa, family.log_d);
    transcript::lemma_synced_squeeze_n(pa, va, whole, family.log_d);
    let (drawn_v, v1) = pushforward::draw(claims, family.log_d, v);
    assert(drawn_v == drawn);
    pushforward::law_main_identity(
        family.columns,
        family.r_row,
        drawn.r_chunk,
        family.r_col,
    );
    gkr::lemma_family_extends(family, drawn, index, acc, p1);
    gkr::law_complete(family, drawn, index, acc, p1, v1, whole);
}

/// One chunk: its index column, its own column point, and its claim.
#[derive(Debug)]
pub struct ChunkPushforward<F> {
    pub log_m: usize,
    /// The column point, most significant coordinate first.
    pub r_col: Vec<F>,
    pub indices: Vec<u32>,
    pub claim: F,
}

/// A chunk as mathematical values.
#[verifier::ext_equal]
pub struct ChunkModel<F> {
    pub log_m: nat,
    pub r_col: Seq<F>,
    pub indices: Seq<u32>,
    pub claim: F,
}

impl<F: Field> View for ChunkPushforward<F> {
    type V = ChunkModel<F>;

    open spec fn view(&self) -> ChunkModel<F> {
        ChunkModel {
            log_m: self.log_m as nat,
            r_col: self.r_col@,
            indices: self.indices@,
            claim: self.claim,
        }
    }
}

impl<F: Field> ChunkModel<F> {
    /// The family that consists of this chunk alone.
    pub open spec fn family(self, log_t: nat, r_cycle: Seq<F>) -> FamilyModel<F> {
        FamilyModel {
            log_t,
            log_d: 0,
            log_m: self.log_m,
            r_row: r_cycle.reverse(),
            r_col: self.r_col.reverse(),
            columns: seq![self.indices],
        }
    }

    /// The column and the point have the announced sizes, and every index is in range.
    pub open spec fn sized(self, log_t: nat) -> bool {
        &&& self.indices.len() == pow2(log_t)
        &&& self.r_col.len() == self.log_m
        &&& pow2(self.log_m) <= usize::MAX
        &&& forall|j: int| 0 <= j < self.indices.len() ==> #[trigger] self.indices[j] < pow2(
            self.log_m,
        )
    }
}

proof fn lemma_chunk_family<F: Field>(chunk: ChunkModel<F>, log_t: nat, r_cycle: Seq<F>)
    requires
        chunk.sized(log_t),
        r_cycle.len() == log_t,
        pow2(log_t) <= usize::MAX,
    ensures
        chunk.family(log_t, r_cycle).sized(),
        chunk.family(log_t, r_cycle).bounded(),
{
    poly::lemma_pow2_zero();
    assert(log_t + 0 == log_t);
}

/// The chunks as mathematical values.
pub open spec fn models<F: Field>(chunks: Seq<ChunkPushforward<F>>) -> Seq<ChunkModel<F>> {
    Seq::new(chunks.len(), |i: int| chunks[i]@)
}

/// The pushforwards or an error, the records and the transcript after the first `n` chunks.
pub open spec fn honest_chunks<F: Field>(
    chunks: Seq<ChunkModel<F>>,
    n: int,
    log_t: nat,
    base: int,
    r_cycle: Seq<F>,
    acc: Claims<F>,
    s: FsState<F>,
) -> (Result<Seq<Seq<F>>, GkrError>, Claims<F>, FsState<F>)
    decreases n,
{
    if n <= 0 {
        (Ok(Seq::empty()), acc, s)
    } else {
        let (done, acc1, s1) = honest_chunks(chunks, n - 1, log_t, base, r_cycle, acc, s);
        match done {
            Err(e) => (Err(e), acc1, s1),
            Ok(columns) => {
                let chunk = chunks[n - 1];
                let (r, acc2, s2) = honest_family(
                    chunk.family(log_t, r_cycle),
                    seq![chunk.claim],
                    base + n - 1,
                    acc1,
                    s1,
                );
                match r {
                    Err(e) => (Err(e), acc2, s2),
                    Ok(p) => (Ok(columns.push(p)), acc2, s2),
                }
            },
        }
    }
}

/// The content of a result.
pub open spec fn columns_of<F: Field>(r: Result<(Vec<GkrProof>, Vec<Vec<F>>), GkrError>) -> Result<
    Seq<Seq<F>>,
    GkrError,
> {
    match r {
        Ok((_, p)) => Ok(poly::contents(p@)),
        Err(e) => Err(e),
    }
}

/// An error at one chunk is the error of all.
proof fn lemma_chunk_error<F: Field>(
    chunks: Seq<ChunkModel<F>>,
    k: int,
    n: int,
    log_t: nat,
    base: int,
    r_cycle: Seq<F>,
    acc: Claims<F>,
    s: FsState<F>,
)
    requires
        0 <= k <= n,
        honest_chunks(chunks, k, log_t, base, r_cycle, acc, s).0 is Err,
    ensures
        honest_chunks(chunks, n, log_t, base, r_cycle, acc, s) == honest_chunks(
            chunks,
            k,
            log_t,
            base,
            r_cycle,
            acc,
            s,
        ),
    decreases n,
{
    if k < n {
        lemma_chunk_error(chunks, k, n - 1, log_t, base, r_cycle, acc, s);
    }
}

/// Prove the pushforward of every chunk at its own column point.
#[verifier::rlimit(40)]
pub fn prove_family_per_chunk<F: Field, T: ProverFs<F>>(
    name: &'static str,
    log_t: usize,
    base_index: usize,
    r_cycle: &[F],
    chunks: &Vec<ChunkPushforward<F>>,
    accumulator: &mut Openings<F>,
    transcript: &mut T,
) -> (r: Result<(Vec<GkrProof>, Vec<Vec<F>>), GkrError>)
    requires
        r_cycle@.len() == log_t,
        pow2(log_t as nat) <= usize::MAX,
        base_index + chunks@.len() <= usize::MAX,
        forall|i: int| 0 <= i < chunks@.len() ==> (#[trigger] chunks@[i])@.sized(log_t as nat),
    ensures
        (columns_of(r), final(accumulator)@, final(transcript).state()) == honest_chunks(
            models(chunks@),
            chunks@.len() as int,
            log_t as nat,
            base_index as int,
            r_cycle@,
            old(accumulator)@,
            old(transcript).state(),
        ),
        match r {
            Ok((proofs, _)) => proofs@.len() == chunks@.len(),
            Err(_) => true,
        },
{
    let n: usize = chunks.len();
    let ghost ms = models(chunks@);
    let ghost acc0 = accumulator@;
    let ghost s0 = transcript.state();
    let mut proofs: Vec<GkrProof> = Vec::new();
    let mut columns: Vec<Vec<F>> = Vec::new();
    assert(poly::contents(columns@) =~= Seq::<Seq<F>>::empty());
    for i in 0..n
        invariant
            n == chunks@.len(),
            ms == models(chunks@),
            r_cycle@.len() == log_t,
            pow2(log_t as nat) <= usize::MAX,
            base_index + n <= usize::MAX,
            forall|i: int| 0 <= i < n ==> (#[trigger] chunks@[i])@.sized(log_t as nat),
            acc0 == old(accumulator)@,
            s0 == old(transcript).state(),
            proofs@.len() == i,
            (
                Ok::<Seq<Seq<F>>, GkrError>(poly::contents(columns@)),
                accumulator@,
                transcript.state(),
            ) == honest_chunks(
                ms,
                i as int,
                log_t as nat,
                base_index as int,
                r_cycle@,
                acc0,
                s0,
            ),
    {
        let chunk: &ChunkPushforward<F> = &chunks[i];
        let ghost cm = ms[i as int];
        assert(cm == chunks@[i as int]@);
        let mut indices: Vec<Vec<u32>> = Vec::new();
        indices.push(copied_indices(&chunk.indices));
        let family: Family<F> = Family {
            name,
            log_t,
            log_d: 0,
            log_m: chunk.log_m,
            r_row: poly::reversed(r_cycle),
            r_col: poly::reversed(&chunk.r_col),
            indices,
        };
        proof {
            assert(family@.columns =~= seq![cm.indices]);
            assert(family@ == cm.family(log_t as nat, r_cycle@));
            lemma_chunk_family(cm, log_t as nat, r_cycle@);
            poly::lemma_pow2_zero();
        }
        let mut claims: Vec<F> = Vec::new();
        claims.push(chunk.claim);
        assert(claims@ =~= seq![cm.claim]);
        let ghost before = columns@;
        match prove_family(&family, &claims, base_index + i, accumulator, transcript) {
            Err(e) => {
                proof {
                    lemma_chunk_error(
                        ms,
                        i + 1,
                        n as int,
                        log_t as nat,
                        base_index as int,
                        r_cycle@,
                        acc0,
                        s0,
                    );
                }
                return Err(e);
            },
            Ok((p, column)) => {
                proofs.push(p);
                columns.push(column);
                assert(poly::contents(columns@) =~= poly::contents(before).push(column@));
            },
        }
    }
    Ok((proofs, columns))
}

/// A copy of an index column.
fn copied_indices(xs: &Vec<u32>) -> (r: Vec<u32>)
    ensures
        r@ == xs@,
{
    let mut out: Vec<u32> = Vec::new();
    for i in 0..xs.len()
        invariant
            out@ == xs@.take(i as int),
    {
        out.push(xs[i]);
        assert(out@ =~= xs@.take(i + 1));
    }
    assert(out@ =~= xs@);
    out
}

/// What the verifier knows of a chunk.
#[derive(Debug)]
pub struct ChunkVerifierInput<F> {
    pub log_m: usize,
    /// The column point, most significant coordinate first.
    pub r_col: Vec<F>,
    pub claim: F,
}

/// What the verifier knows of a chunk, as mathematical values.
#[verifier::ext_equal]
pub struct ChunkShape<F> {
    pub log_m: nat,
    pub r_col: Seq<F>,
    pub claim: F,
}

impl<F: Field> View for ChunkVerifierInput<F> {
    type V = ChunkShape<F>;

    open spec fn view(&self) -> ChunkShape<F> {
        ChunkShape { log_m: self.log_m as nat, r_col: self.r_col@, claim: self.claim }
    }
}

impl<F: Field> ChunkShape<F> {
    /// The family that consists of this chunk alone.
    pub open spec fn family(self, log_t: nat, r_cycle: Seq<F>) -> FamilyShape<F> {
        FamilyShape {
            log_t,
            log_d: 0,
            log_m: self.log_m,
            r_row: r_cycle.reverse(),
            r_col: self.r_col.reverse(),
        }
    }
}

/// The chunks as mathematical values.
pub open spec fn shapes<F: Field>(chunks: Seq<ChunkVerifierInput<F>>) -> Seq<ChunkShape<F>> {
    Seq::new(chunks.len(), |i: int| chunks[i]@)
}

/// The verdict, the recorded claims and the transcript after the first `n` chunks.
pub open spec fn verdict_chunks<F: Field>(
    chunks: Seq<ChunkShape<F>>,
    n: int,
    log_t: nat,
    base: int,
    r_cycle: Seq<F>,
    acc: Claims<F>,
    s: FsState<F>,
) -> (Result<(), GkrError>, Claims<F>, FsState<F>)
    decreases n,
{
    if n <= 0 {
        (Ok(()), acc, s)
    } else {
        let (done, acc1, s1) = verdict_chunks(chunks, n - 1, log_t, base, r_cycle, acc, s);
        match done {
            Err(e) => (Err(e), acc1, s1),
            Ok(_) => {
                let chunk = chunks[n - 1];
                verdict_family(
                    chunk.family(log_t, r_cycle),
                    seq![chunk.claim],
                    base + n - 1,
                    acc1,
                    s1,
                )
            },
        }
    }
}

proof fn lemma_chunk_rejected<F: Field>(
    chunks: Seq<ChunkShape<F>>,
    k: int,
    n: int,
    log_t: nat,
    base: int,
    r_cycle: Seq<F>,
    acc: Claims<F>,
    s: FsState<F>,
)
    requires
        0 <= k <= n,
        verdict_chunks(chunks, k, log_t, base, r_cycle, acc, s).0 is Err,
    ensures
        verdict_chunks(chunks, n, log_t, base, r_cycle, acc, s) == verdict_chunks(
            chunks,
            k,
            log_t,
            base,
            r_cycle,
            acc,
            s,
        ),
    decreases n,
{
    if k < n {
        lemma_chunk_rejected(chunks, k, n - 1, log_t, base, r_cycle, acc, s);
    }
}

/// Verify the pushforward of every chunk.
pub fn verify_family_per_chunk<F: Field, T: VerifierFs<F>>(
    log_t: usize,
    base_index: usize,
    r_cycle: &[F],
    chunks: &Vec<ChunkVerifierInput<F>>,
    proofs: &Vec<GkrProof>,
    accumulator: &mut Openings<F>,
    transcript: &mut T,
) -> (r: Result<(), GkrError>)
    requires
        r_cycle@.len() == log_t,
        base_index + chunks@.len() <= usize::MAX,
    ensures
        (r, final(accumulator)@, final(transcript).state()) == (if proofs@.len() != chunks@.len() {
            (
                Err::<(), GkrError>(GkrError::Sumcheck),
                old(accumulator)@,
                old(transcript).state(),
            )
        } else {
            verdict_chunks(
                shapes(chunks@),
                chunks@.len() as int,
                log_t as nat,
                base_index as int,
                r_cycle@,
                old(accumulator)@,
                old(transcript).state(),
            )
        }),
{
    if proofs.len() != chunks.len() {
        return Err(GkrError::Sumcheck);
    }
    let n: usize = chunks.len();
    let ghost ss = shapes(chunks@);
    let ghost acc0 = accumulator@;
    let ghost s0 = transcript.state();
    for i in 0..n
        invariant
            n == chunks@.len(),
            n == proofs@.len(),
            ss == shapes(chunks@),
            r_cycle@.len() == log_t,
            base_index + n <= usize::MAX,
            acc0 == old(accumulator)@,
            s0 == old(transcript).state(),
            (Ok::<(), GkrError>(()), accumulator@, transcript.state()) == verdict_chunks(
                ss,
                i as int,
                log_t as nat,
                base_index as int,
                r_cycle@,
                acc0,
                s0,
            ),
    {
        let chunk: &ChunkVerifierInput<F> = &chunks[i];
        assert(ss[i as int] == chunks@[i as int]@);
        let params: FamilyVerifierParams<F> = FamilyVerifierParams {
            log_t,
            log_d: 0,
            log_m: chunk.log_m,
            r_row: poly::reversed(r_cycle),
            r_col: poly::reversed(&chunk.r_col),
        };
        let mut claims: Vec<F> = Vec::new();
        claims.push(chunk.claim);
        proof {
            assert(claims@ =~= seq![chunk.claim]);
            poly::lemma_pow2_zero();
            assert(params@ == ss[i as int].family(log_t as nat, r_cycle@));
        }
        match verify_family(
            &params,
            &claims,
            &proofs[i],
            base_index + i,
            accumulator,
            transcript,
        ) {
            Err(e) => {
                proof {
                    lemma_chunk_rejected(
                        ss,
                        i + 1,
                        n as int,
                        log_t as nat,
                        base_index as int,
                        r_cycle@,
                        acc0,
                        s0,
                    );
                }
                return Err(e);
            },
            Ok(_) => {},
        }
    }
    Ok(())
}

/// The shape of a chunk.
pub open spec fn chunk_shape<F: Field>(chunk: ChunkModel<F>) -> ChunkShape<F> {
    ChunkShape { log_m: chunk.log_m, r_col: chunk.r_col, claim: chunk.claim }
}

/// The shapes of all chunks.
pub open spec fn chunk_shapes<F: Field>(chunks: Seq<ChunkModel<F>>) -> Seq<ChunkShape<F>> {
    Seq::new(chunks.len(), |i: int| chunk_shape(chunks[i]))
}

/// The claim of a chunk is the extension of its one-hot matrix.
pub open spec fn chunk_true<F: Field>(chunk: ChunkModel<F>, r_cycle: Seq<F>) -> bool {
    chunk.claim == pushforward::claim_at(
        chunk.indices,
        r_cycle.reverse(),
        chunk.r_col.reverse(),
    )
}

/// The proofs of the chunks only append to the tape.
pub proof fn lemma_chunks_extend<F: Field>(
    chunks: Seq<ChunkModel<F>>,
    k: int,
    n: int,
    log_t: nat,
    base: int,
    r_cycle: Seq<F>,
    acc: Claims<F>,
    s: FsState<F>,
)
    requires
        0 <= k <= n <= chunks.len(),
        r_cycle.len() == log_t,
        pow2(log_t) <= usize::MAX,
        forall|i: int| 0 <= i < chunks.len() ==> (#[trigger] chunks[i]).sized(log_t),
    ensures
        honest_chunks(chunks, k, log_t, base, r_cycle, acc, s).2.tape.is_prefix_of(
            honest_chunks(chunks, n, log_t, base, r_cycle, acc, s).2.tape,
        ),
    decreases n,
{
    if k < n {
        lemma_chunks_extend(chunks, k, n - 1, log_t, base, r_cycle, acc, s);
        let (done, acc1, s1) = honest_chunks(chunks, n - 1, log_t, base, r_cycle, acc, s);
        let first = honest_chunks(chunks, k, log_t, base, r_cycle, acc, s).2.tape;
        let last = honest_chunks(chunks, n, log_t, base, r_cycle, acc, s).2.tape;
        if done is Ok {
            let chunk = chunks[n - 1];
            let family = chunk.family(log_t, r_cycle);
            lemma_chunk_family(chunk, log_t, r_cycle);
            let (drawn, s2) = pushforward::draw(seq![chunk.claim], 0, s1);
            transcript::lemma_coins_len(s1.absorb(seq![chunk.claim]), 0);
            gkr::lemma_family_extends(family, drawn, base + n - 1, acc1, s2);
            transcript::lemma_prefix_trans(first, s1.tape, last);
        }
    }
}

/// Completeness of the chunks: from their true claims every proof is made and accepted, and both
/// parties record the same claims.
pub proof fn law_chunks_complete<F: Field>(
    chunks: Seq<ChunkModel<F>>,
    n: int,
    log_t: nat,
    base: int,
    r_cycle: Seq<F>,
    acc: Claims<F>,
    p: FsState<F>,
    v: FsState<F>,
    whole: Seq<F>,
)
    requires
        0 <= n <= chunks.len(),
        r_cycle.len() == log_t,
        pow2(log_t) <= usize::MAX,
        forall|i: int| 0 <= i < chunks.len() ==> (#[trigger] chunks[i]).sized(log_t),
        forall|i: int| 0 <= i < chunks.len() ==> chunk_true(#[trigger] chunks[i], r_cycle),
        p.canonical(),
        transcript::synced(p, v, whole),
        honest_chunks(chunks, n, log_t, base, r_cycle, acc, p).2.tape.is_prefix_of(whole),
    ensures
        ({
            let (made, acc1, p1) = honest_chunks(chunks, n, log_t, base, r_cycle, acc, p);
            let (r, acc2, v1) = verdict_chunks(
                chunk_shapes(chunks),
                n,
                log_t,
                base,
                r_cycle,
                acc,
                v,
            );
            &&& made is Ok
            &&& r is Ok
            &&& acc2 == acc1
            &&& transcript::synced(p1, v1, whole)
            &&& p1.canonical()
        }),
    decreases n,
{
    if n > 0 {
        lemma_chunks_extend(chunks, n - 1, n, log_t, base, r_cycle, acc, p);
        let (done, acc1, p1) = honest_chunks(chunks, n - 1, log_t, base, r_cycle, acc, p);
        let last = honest_chunks(chunks, n, log_t, base, r_cycle, acc, p).2.tape;
        transcript::lemma_prefix_trans(p1.tape, last, whole);
        law_chunks_complete(chunks, n - 1, log_t, base, r_cycle, acc, p, v, whole);
        let chunk = chunks[n - 1];
        let family = chunk.family(log_t, r_cycle);
        lemma_chunk_family(chunk, log_t, r_cycle);
        assert(chunk_true(chunk, r_cycle));
        assert(family.claims() =~= seq![chunk.claim]);
        let v1 = verdict_chunks(
            chunk_shapes(chunks),
            n - 1,
            log_t,
            base,
            r_cycle,
            acc,
            v,
        ).2;
        assert(chunk_shapes(chunks)[n - 1].family(log_t, r_cycle) == shape_of(family));
        law_family_complete(family, base + n - 1, acc1, p1, v1, whole);
    }
}

/// Which read check hands its chunk openings over, and where their pushforwards are recorded.
#[derive(Debug)]
pub struct ReadRafPushforward {
    pub name: &'static str,
    pub log_t: usize,
    /// The number of the first chunk among all chunks.
    pub base_index: usize,
    /// The chunk widths in bits.
    pub log_m_chunks: Vec<usize>,
    pub ra_family: RaFamily,
    /// The name under which the read check recorded its openings.
    pub read_raf_id: SumcheckId,
}

/// Which read check hands its chunk openings over, as mathematical values.
#[verifier::ext_equal]
pub struct HandOver {
    pub log_t: nat,
    pub base: int,
    pub widths: Seq<usize>,
    pub family: RaFamily,
    pub id: SumcheckId,
}

impl View for ReadRafPushforward {
    type V = HandOver;

    open spec fn view(&self) -> HandOver {
        HandOver {
            log_t: self.log_t as nat,
            base: self.base_index as int,
            widths: self.log_m_chunks@,
            family: self.ra_family,
            id: self.read_raf_id,
        }
    }
}

impl HandOver {
    /// The name of the opening of a chunk.
    pub open spec fn chunk_id(self, i: int) -> OpeningId {
        accumulator::comm(self.family.member(i), self.id)
    }

    /// The openings of all chunks are recorded at points of the announced sizes.
    pub open spec fn handed_over<F: Field>(self, acc: Claims<F>) -> bool {
        &&& self.widths.len() > 0
        &&& forall|i: int|
            0 <= i < self.widths.len() ==> accumulator::recorded(
                acc,
                #[trigger] self.chunk_id(i),
                self.widths[i] as nat + self.log_t,
            )
    }

    /// The cycle point, which all chunks share.
    pub open spec fn cycle<F: Field>(self, acc: Claims<F>) -> Seq<F> {
        acc[self.chunk_id(0)].0.skip(self.widths[0] as int)
    }

    /// What the verifier knows of the chunks.
    pub open spec fn shapes<F: Field>(self, acc: Claims<F>) -> Seq<ChunkShape<F>> {
        Seq::new(
            self.widths.len(),
            |i: int|
                ChunkShape {
                    log_m: self.widths[i] as nat,
                    r_col: acc[self.chunk_id(i)].0.take(self.widths[i] as int),
                    claim: acc[self.chunk_id(i)].1,
                },
        )
    }

    /// The chunks with their index columns.
    pub open spec fn chunks<F: Field>(self, acc: Claims<F>, indices: Seq<Seq<u32>>) -> Seq<
        ChunkModel<F>,
    > {
        Seq::new(
            self.widths.len(),
            |i: int|
                ChunkModel {
                    log_m: self.widths[i] as nat,
                    r_col: acc[self.chunk_id(i)].0.take(self.widths[i] as int),
                    indices: indices[i],
                    claim: acc[self.chunk_id(i)].1,
                },
        )
    }
}

impl ReadRafPushforward {
    /// The cycle point of the first chunk's opening.
    fn extract_cycle<F: Field>(&self, accumulator: &Openings<F>) -> (r: Vec<F>)
        requires
            self@.handed_over(accumulator@),
            forall|i: int| 0 <= i < self.log_m_chunks@.len() ==> #[trigger] self.log_m_chunks@[i]
                + self.log_t <= usize::MAX,
        ensures
            r@ == self@.cycle(accumulator@),
            r@.len() == self.log_t,
    {
        assert(accumulator::recorded(
            accumulator@,
            self@.chunk_id(0),
            self.log_m_chunks@[0] as nat + self.log_t as nat,
        ));
        let (point, _claim) = accumulator.get_committed_polynomial_opening(
            self.ra_family.polynomial(0),
            self.read_raf_id,
        );
        let n: usize = point.len();
        let r: Vec<F> = poly::range(&point, self.log_m_chunks[0], n);
        assert(r@ =~= self@.cycle(accumulator@));
        r
    }
}

/// Prove the pushforwards of the chunks that a read check hands over.
pub fn prove_read_raf_pushforward<F: Field, T: ProverFs<F>>(
    fam: &ReadRafPushforward,
    indices: &Vec<Vec<u32>>,
    accumulator: &mut Openings<F>,
    transcript: &mut T,
) -> (r: Result<(Vec<GkrProof>, Vec<Vec<F>>), GkrError>)
    requires
        fam@.handed_over(old(accumulator)@),
        indices@.len() == fam.log_m_chunks@.len(),
        pow2(fam.log_t as nat) <= usize::MAX,
        fam.base_index + indices@.len() <= usize::MAX,
        forall|i: int|
            0 <= i < indices@.len() ==> {
                &&& (#[trigger] indices@[i])@.len() == pow2(fam.log_t as nat)
                &&& pow2(fam.log_m_chunks@[i] as nat) <= usize::MAX
                &&& forall|j: int|
                    0 <= j < indices@[i]@.len() ==> #[trigger] indices@[i]@[j] < pow2(
                        fam.log_m_chunks@[i] as nat,
                    )
            },
        forall|i: int| 0 <= i < fam.log_m_chunks@.len() ==> #[trigger] fam.log_m_chunks@[i]
            + fam.log_t <= usize::MAX,
    ensures
        (columns_of(r), final(accumulator)@, final(transcript).state()) == honest_chunks(
            fam@.chunks(old(accumulator)@, poly::contents(indices@)),
            indices@.len() as int,
            fam.log_t as nat,
            fam.base_index as int,
            fam@.cycle(old(accumulator)@),
            old(accumulator)@,
            old(transcript).state(),
        ),
        match r {
            Ok((proofs, pushed)) => proofs@.len() == indices@.len() && pushed@.len()
                == indices@.len(),
            Err(_) => true,
        },
{
    let ghost acc = accumulator@;
    let ghost whole = fam@.chunks(acc, poly::contents(indices@));
    let r_cycle: Vec<F> = fam.extract_cycle(accumulator);
    let n: usize = fam.log_m_chunks.len();
    let mut chunks: Vec<ChunkPushforward<F>> = Vec::new();
    assert(models(chunks@) =~= whole.take(0));
    for i in 0..n
        invariant
            n == fam.log_m_chunks@.len(),
            n == indices@.len(),
            fam@.handed_over(acc),
            acc == accumulator@,
            whole == fam@.chunks(acc, poly::contents(indices@)),
            chunks@.len() == i,
            models(chunks@) == whole.take(i as int),
    {
        assert(accumulator::recorded(
            acc,
            fam@.chunk_id(i as int),
            fam.log_m_chunks@[i as int] as nat + fam.log_t as nat,
        ));
        let (point, claim) = accumulator.get_committed_polynomial_opening(
            fam.ra_family.polynomial(i),
            fam.read_raf_id,
        );
        let log_m: usize = fam.log_m_chunks[i];
        let r_col: Vec<F> = poly::range(&point, 0, log_m);
        assert(r_col@ =~= point@.take(log_m as int));
        let ghost before = chunks@;
        chunks.push(
            ChunkPushforward { log_m, r_col, indices: copied_indices(&indices[i]), claim },
        );
        proof {
            assert(poly::contents(indices@)[i as int] == indices@[i as int]@);
            assert(chunks@[i as int]@ == whole[i as int]);
            assert(models(chunks@) =~= models(before).push(whole[i as int]));
            assert(whole.take(i + 1) =~= whole.take(i as int).push(whole[i as int]));
        }
    }
    assert(models(chunks@) =~= whole);
    assert forall|i: int| 0 <= i < chunks@.len() implies (#[trigger] chunks@[i])@.sized(
        fam.log_t as nat,
    ) by {
        assert(models(chunks@)[i] == whole[i]);
        assert(poly::contents(indices@)[i] == indices@[i]@);
        assert(accumulator::recorded(
            acc,
            fam@.chunk_id(i),
            fam.log_m_chunks@[i] as nat + fam.log_t as nat,
        ));
    }
    proof {
        if honest_chunks(
            whole,
            n as int,
            fam.log_t as nat,
            fam.base_index as int,
            r_cycle@,
            acc,
            transcript.state(),
        ).0 is Ok {
            lemma_chunks_recorded(
                whole,
                n as int,
                fam.log_t as nat,
                fam.base_index as int,
                r_cycle@,
                acc,
                transcript.state(),
            );
        }
    }
    prove_family_per_chunk(
        fam.name,
        fam.log_t,
        fam.base_index,
        &r_cycle,
        &chunks,
        accumulator,
        transcript,
    )
}

/// Verify the pushforwards of the chunks that a read check hands over.
pub fn verify_read_raf_pushforward<F: Field, T: VerifierFs<F>>(
    fam: &ReadRafPushforward,
    proofs: &Vec<GkrProof>,
    accumulator: &mut Openings<F>,
    transcript: &mut T,
) -> (r: Result<(), GkrError>)
    requires
        fam@.handed_over(old(accumulator)@),
        fam.base_index + fam.log_m_chunks@.len() <= usize::MAX,
        forall|i: int| 0 <= i < fam.log_m_chunks@.len() ==> #[trigger] fam.log_m_chunks@[i]
            + fam.log_t <= usize::MAX,
    ensures
        (r, final(accumulator)@, final(transcript).state()) == (if proofs@.len()
            != fam.log_m_chunks@.len() {
            (
                Err::<(), GkrError>(GkrError::Sumcheck),
                old(accumulator)@,
                old(transcript).state(),
            )
        } else {
            verdict_chunks(
                fam@.shapes(old(accumulator)@),
                fam.log_m_chunks@.len() as int,
                fam.log_t as nat,
                fam.base_index as int,
                fam@.cycle(old(accumulator)@),
                old(accumulator)@,
                old(transcript).state(),
            )
        }),
{
    let ghost acc = accumulator@;
    let ghost whole = fam@.shapes(acc);
    let r_cycle: Vec<F> = fam.extract_cycle(accumulator);
    let n: usize = fam.log_m_chunks.len();
    let mut chunks: Vec<ChunkVerifierInput<F>> = Vec::new();
    assert(shapes(chunks@) =~= whole.take(0));
    for i in 0..n
        invariant
            n == fam.log_m_chunks@.len(),
            fam@.handed_over(acc),
            acc == accumulator@,
            whole == fam@.shapes(acc),
            chunks@.len() == i,
            shapes(chunks@) == whole.take(i as int),
    {
        assert(accumulator::recorded(
            acc,
            fam@.chunk_id(i as int),
            fam.log_m_chunks@[i as int] as nat + fam.log_t as nat,
        ));
        let (point, claim) = accumulator.get_committed_polynomial_opening(
            fam.ra_family.polynomial(i),
            fam.read_raf_id,
        );
        let log_m: usize = fam.log_m_chunks[i];
        let r_col: Vec<F> = poly::range(&point, 0, log_m);
        assert(r_col@ =~= point@.take(log_m as int));
        let ghost before = chunks@;
        chunks.push(ChunkVerifierInput { log_m, r_col, claim });
        proof {
            assert(chunks@[i as int]@ == whole[i as int]);
            assert(shapes(chunks@) =~= shapes(before).push(whole[i as int]));
            assert(whole.take(i + 1) =~= whole.take(i as int).push(whole[i as int]));
        }
    }
    assert(shapes(chunks@) =~= whole);
    verify_family_per_chunk(
        fam.log_t,
        fam.base_index,
        &r_cycle,
        &chunks,
        proofs,
        accumulator,
        transcript,
    )
}

/// The hand-over: the opening of a one-hot chunk column at its column and cycle points is the claim
/// that the pushforward proof starts from.
pub proof fn law_hand_over<F: Field>(indices: Seq<u32>, r_col: Seq<F>, r_cycle: Seq<F>)
    requires
        indices.len() == pow2(r_cycle.len()),
        forall|j: int| 0 <= j < indices.len() ==> #[trigger] indices[j] < pow2(r_col.len()),
    ensures
        poly::mle(
            access::one_hot::<F>(access::marks(indices), pow2(r_col.len())),
            r_col + r_cycle,
        ) == pushforward::claim_at(indices, r_cycle.reverse(), r_col.reverse()),
{
    let sel = access::marks(indices);
    let k = pow2(r_col.len());
    let t = pow2(r_cycle.len());
    let h = access::one_hot::<F>(sel, k);
    vstd::arithmetic::power2::lemma_pow2_pos(r_cycle.len());
    assert(r_cycle.reverse().reverse() =~= r_cycle);
    assert(r_col.reverse().reverse() =~= r_col);
    poly::lemma_mle_matrix(h, r_col, r_cycle);
    let cell = |a: int, j: int|
        poly::eq_weight(r_col, a).times(h[a * t + j].times(poly::eq_weight(r_cycle, j)));
    let rows = |a: int|
        poly::eq_weight(r_col, a).times(
            sums::sum(t as int, |j: int| h[a * pow2(r_cycle.len()) + j].times(
                poly::eq_weight(r_cycle, j),
            )),
        );
    let by_row = |a: int| sums::sum(t as int, |j: int| cell(a, j));
    assert forall|a: int| 0 <= a < k implies #[trigger] rows(a) == by_row(a) by {
        let inner = |j: int| h[a * pow2(r_cycle.len()) + j].times(poly::eq_weight(r_cycle, j));
        sums::lemma_sum_scale(t as int, poly::eq_weight(r_col, a), inner);
        sums::lemma_sum_ext(
            t as int,
            |j: int| poly::eq_weight(r_col, a).times(inner(j)),
            |j: int| cell(a, j),
        );
    }
    sums::lemma_sum_ext(k as int, rows, by_row);
    sums::lemma_sum_swap(k as int, t as int, cell);
    sums::lemma_sum_ext(k as int, by_row, |i: int| sums::sum(t as int, |j: int| cell(i, j)));
    let by_cycle = |j: int| sums::sum(k as int, |a: int| cell(a, j));
    let target = |j: int|
        poly::eq_weight(r_cycle, j).times(poly::eq_weight(r_col, indices[j] as int));
    assert forall|j: int| 0 <= j < t implies #[trigger] by_cycle(j) == target(j) by {
        let a = indices[j] as int;
        let g = |b: int| cell(b, j);
        let e = poly::eq_weight(r_cycle, j);
        assert forall|b: int| 0 <= b < k implies #[trigger] g(b) == poly::eq_weight(
            r_col,
            b,
        ).times(
            (if b == a {
                F::of_int(1)
            } else {
                F::of_int(0)
            }).times(e),
        ) by {
            poly::lemma_block_index(b, t as int, j);
            poly::lemma_row_bound(b, k as int, t as int);
        }
        poly::lemma_eq_weight_valid(r_cycle, j);
        assert forall|b: int| 0 <= b < k && b != a implies #[trigger] g(b) == F::of_int(0) by {
            field::lemma_zero_times(e);
            F::law_times_zero(poly::eq_weight(r_col, b));
        }
        field::lemma_one_times(e);
        F::law_valid(poly::eq_weight(r_col, a), e);
        sums::lemma_sum_single(k as int, a, g);
        sums::lemma_sum_ext(k as int, |i: int| cell(i, j), g);
        F::law_times_comm(poly::eq_weight(r_col, a), e);
    }
    sums::lemma_sum_ext(t as int, by_cycle, target);
    sums::lemma_sum_ext(t as int, by_cycle, |j: int| sums::sum(k as int, |i: int| cell(i, j)));
    sums::lemma_sum_ext(
        t as int,
        target,
        |j: int|
            poly::eq_weight(r_cycle.reverse().reverse(), j).times(
                poly::eq_weight(r_col.reverse().reverse(), indices[j] as int),
            ),
    );
}

/// Completeness of the hand-over: where the recorded openings are the true ones of one-hot index
/// columns at one cycle point, every pushforward is proved and accepted.
pub proof fn law_hand_over_complete<F: Field>(
    fam: HandOver,
    indices: Seq<Seq<u32>>,
    acc: Claims<F>,
    p: FsState<F>,
    v: FsState<F>,
    whole: Seq<F>,
)
    requires
        fam.handed_over(acc),
        indices.len() == fam.widths.len(),
        pow2(fam.log_t) <= usize::MAX,
        forall|i: int|
            0 <= i < indices.len() ==> (#[trigger] fam.chunks(acc, indices)[i]).sized(
                fam.log_t,
            ),
        forall|i: int|
            0 <= i < indices.len() ==> {
                &&& (#[trigger] acc[fam.chunk_id(i)]).0.skip(fam.widths[i] as int)
                    == fam.cycle(acc)
                &&& acc[fam.chunk_id(i)].1 == poly::mle(
                    access::one_hot::<F>(
                        access::marks(indices[i]),
                        pow2(fam.widths[i] as nat),
                    ),
                    acc[fam.chunk_id(i)].0,
                )
            },
        p.canonical(),
        transcript::synced(p, v, whole),
        honest_chunks(
            fam.chunks(acc, indices),
            indices.len() as int,
            fam.log_t,
            fam.base,
            fam.cycle(acc),
            acc,
            p,
        ).2.tape.is_prefix_of(whole),
    ensures
        ({
            let n = indices.len() as int;
            let log_t = fam.log_t;
            let base = fam.base;
            let (made, acc1, p1) = honest_chunks(
                fam.chunks(acc, indices),
                n,
                log_t,
                base,
                fam.cycle(acc),
                acc,
                p,
            );
            let (r, acc2, v1) = verdict_chunks(
                fam.shapes(acc),
                n,
                log_t,
                base,
                fam.cycle(acc),
                acc,
                v,
            );
            &&& made is Ok
            &&& r is Ok
            &&& acc2 == acc1
            &&& transcript::synced(p1, v1, whole)
            &&& p1.canonical()
        }),
{
    let chunks = fam.chunks(acc, indices);
    let r_cycle = fam.cycle(acc);
    assert(r_cycle.len() == fam.log_t) by {
        assert(accumulator::recorded(
            acc,
            fam.chunk_id(0),
            fam.widths[0] as nat + fam.log_t,
        ));
    }
    assert forall|i: int| 0 <= i < chunks.len() implies chunk_true(#[trigger] chunks[i], r_cycle) by {
        let c = chunks[i];
        let point = acc[fam.chunk_id(i)].0;
        assert(accumulator::recorded(
            acc,
            fam.chunk_id(i),
            fam.widths[i] as nat + fam.log_t,
        ));
        assert(c.sized(fam.log_t));
        assert(point.skip(fam.widths[i] as int) == r_cycle);
        assert(point =~= c.r_col + r_cycle);
        law_hand_over(indices[i], c.r_col, r_cycle);
    }
    assert(chunk_shapes(chunks) =~= fam.shapes(acc));
    law_chunks_complete(
        chunks,
        indices.len() as int,
        fam.log_t,
        fam.base,
        r_cycle,
        acc,
        p,
        v,
        whole,
    );
}

/// Behind accepted chunks an error of the next chunk is the error of all of them.
pub proof fn law_chunk_error_carried<F: Field>(
    chunks: Seq<ChunkShape<F>>,
    k: int,
    n: int,
    log_t: nat,
    base: int,
    r_cycle: Seq<F>,
    acc: Claims<F>,
    s: FsState<F>,
    e: GkrError,
)
    requires
        0 <= k < n,
        ({
            let (r, acc1, s1) = verdict_chunks(chunks, k, log_t, base, r_cycle, acc, s);
            &&& r is Ok
            &&& verdict_family(
                chunks[k].family(log_t, r_cycle),
                seq![chunks[k].claim],
                base + k,
                acc1,
                s1,
            ).0 == Err::<(), GkrError>(e)
        }),
    ensures
        verdict_chunks(chunks, n, log_t, base, r_cycle, acc, s).0 == Err::<(), GkrError>(e),
{
    lemma_chunk_rejected(chunks, k + 1, n, log_t, base, r_cycle, acc, s);
}

/// An accepted family is refused when any one element of the rounds of a layer of either circuit is
/// changed.
pub proof fn law_changed_family_refused<F: Field>(
    shape: FamilyShape<F>,
    claims: Seq<F>,
    index: int,
    acc: Claims<F>,
    s: FsState<F>,
    m: nat,
    j: int,
    delta: F,
)
    requires
        verdict_family(shape, claims, index, acc, s).0 is Ok,
        ({
            let depth_a = shape.log_t + shape.log_d;
            ||| m < depth_a && gkr::in_layer(0, m, j)
            ||| m < shape.log_m && gkr::in_layer(gkr::circuit_read(depth_a), m, j)
        }),
        j < s.tape.len(),
        delta.valid(),
        delta != F::of_int(0),
    ensures
        verdict_family(shape, claims, index, acc, sumcheck::changed(s, j, delta)).0 == Err::<
            (),
            GkrError,
        >(GkrError::Sumcheck),
{
    let s1 = s.absorb(claims);
    let (drawn, s2) = pushforward::draw(claims, shape.log_d, s);
    let c = pushforward::combined(claims, s1.coins(shape.log_d));
    let s3 = s1.squeeze_n(shape.log_d).absorb(seq![c]);
    let t = sumcheck::changed(s, j, delta);
    assert(t.absorb(claims) == sumcheck::changed(s1, j, delta));
    sumcheck::lemma_changed_coins(s1, j, delta, shape.log_d);
    transcript::lemma_coins_len(s1, shape.log_d);
    assert(sumcheck::changed(s1.squeeze_n(shape.log_d), j, delta).absorb(seq![c])
        == sumcheck::changed(s3, j, delta));
    assert(sumcheck::changed(s3, j, delta).squeeze() == sumcheck::changed(s3.squeeze(), j, delta));
    assert(pushforward::draw(claims, shape.log_d, t) == (drawn, sumcheck::changed(s2, j, delta)));
    gkr::law_changed_family_refused(
        FamilyView {
            depth_a: shape.log_t + shape.log_d,
            depth_b: shape.log_m,
            r_m_row: shape.r_row + drawn.r_chunk,
            r_col: shape.r_col,
            alpha: drawn.alpha,
            combined: drawn.combined,
        },
        index,
        acc,
        s2,
        m,
        j,
        delta,
    );
}

/// The three claims that the pushforward proof of a chunk leaves are recorded.
pub open spec fn chunk_recorded<F: Field>(acc: Claims<F>, index: int) -> bool {
    &&& acc.contains_key(gkr::dense_id(index))
    &&& acc.contains_key(gkr::leaf_id(index))
    &&& acc.contains_key(gkr::reduction_id(index))
}

/// Proved chunks leave one pushforward and three claims each.
proof fn lemma_chunks_recorded<F: Field>(
    chunks: Seq<ChunkModel<F>>,
    n: int,
    log_t: nat,
    base: int,
    r_cycle: Seq<F>,
    acc: Claims<F>,
    s: FsState<F>,
)
    requires
        n >= 0,
        honest_chunks(chunks, n, log_t, base, r_cycle, acc, s).0 is Ok,
    ensures
        ({
            let (made, acc1, _) = honest_chunks(chunks, n, log_t, base, r_cycle, acc, s);
            &&& made->Ok_0.len() == n
            &&& forall|i: int| base <= i < base + n ==> #[trigger] chunk_recorded(acc1, i)
        }),
    decreases n,
{
    if n > 0 {
        lemma_chunks_recorded(chunks, n - 1, log_t, base, r_cycle, acc, s);
        let before = honest_chunks(chunks, n - 1, log_t, base, r_cycle, acc, s).1;
        let after = honest_chunks(chunks, n, log_t, base, r_cycle, acc, s).1;
        assert forall|i: int| base <= i < base + n implies #[trigger] chunk_recorded(after, i) by {
            if i < base + n - 1 {
                assert(chunk_recorded(before, i));
            }
        }
    }
}

/// The hand-over of the chunk openings of a read check.
pub open spec fn hand_over<F: Field>(inputs: InputsModel<F>, base: int) -> HandOver {
    HandOver {
        log_t: inputs.log_t,
        base,
        widths: inputs.widths,
        family: inputs.family,
        id: inputs.id,
    }
}

/// The records of a read check are handed over at one cycle point.
pub proof fn lemma_handed_over<F: Field>(
    inputs: InputsModel<F>,
    base: int,
    acc: Claims<F>,
    xs: Seq<F>,
)
    requires
        inputs.widths.len() > 0,
        read_raf_stage::records(inputs, acc, xs),
    ensures
        hand_over(inputs, base).handed_over(acc),
        hand_over(inputs, base).cycle(acc).len() == inputs.log_t,
        forall|i: int|
            0 <= i < inputs.widths.len() ==> (#[trigger] acc[hand_over(inputs, base).chunk_id(
                i,
            )]).0.skip(inputs.widths[i] as int) == hand_over(inputs, base).cycle(acc),
{
    let fam = hand_over(inputs, base);
    let (widths, log_t) = (inputs.widths, inputs.log_t);
    let d = widths.len() as int;
    let bits = shout_read_raf::address_bits(widths);
    let point = xs.reverse();
    assert forall|i: int| 0 <= i < d implies accumulator::recorded(
        acc,
        #[trigger] fam.chunk_id(i),
        widths[i] as nat + log_t,
    ) && acc[fam.chunk_id(i)].0.skip(widths[i] as int) == point.skip(bits as int) by {
        assert(fam.chunk_id(i) == inputs.chunk_id(i));
        assert(acc.contains_key(inputs.chunk_id(i)));
        shout_read_raf::lemma_offset_monotone(widths, i + 1, d);
        assert(shout_read_raf::offset(widths, i + 1) == shout_read_raf::offset(widths, i)
            + widths[i] as nat);
        assert(acc[fam.chunk_id(i)].0.skip(widths[i] as int) =~= point.skip(bits as int));
    }
    assert(accumulator::recorded(acc, fam.chunk_id(0), widths[0] as nat + log_t));
}

/// The handed-over chunks have the sizes of their index columns.
proof fn lemma_handed_chunks_sized<F: Field>(
    inputs: InputsModel<F>,
    indices: Seq<Seq<u32>>,
    base: int,
    acc: Claims<F>,
)
    requires
        inputs.sized(),
        read_raf_stage::indices_fit(indices, inputs.widths, inputs.log_t),
        hand_over(inputs, base).handed_over(acc),
    ensures
        pow2(inputs.log_t) <= usize::MAX,
        forall|i: int|
            0 <= i < indices.len() ==> (#[trigger] hand_over(inputs, base).chunks(
                acc,
                indices,
            )[i]).sized(inputs.log_t),
{
    let fam = hand_over(inputs, base);
    let (widths, log_t) = (inputs.widths, inputs.log_t);
    let bits = shout_read_raf::address_bits(widths);
    poly::lemma_pow2_monotone(log_t, bits + log_t);
    assert forall|i: int| 0 <= i < indices.len() implies (#[trigger] fam.chunks(
        acc,
        indices,
    )[i]).sized(log_t) by {
        assert(accumulator::recorded(acc, fam.chunk_id(i), widths[i] as nat + log_t));
        shout_read_raf::lemma_offset_monotone(widths, i + 1, widths.len() as int);
        poly::lemma_pow2_monotone(widths[i] as nat, bits + log_t);
        assert(indices[i].len() == pow2(log_t));
        assert forall|j: int| 0 <= j < indices[i].len() implies #[trigger] indices[i][j] < pow2(
            widths[i] as nat,
        ) by {}
    }
}

/// Completeness of a read check and of the pushforwards of its chunks, in one run: from true read
/// claims both proofs are made and accepted, and both parties record the same claims, among them
/// the three that every chunk leaves.
pub proof fn law_read_and_push_complete<F: Field>(
    inputs: InputsModel<F>,
    indices: Seq<Seq<u32>>,
    base: int,
    acc: Claims<F>,
    p: FsState<F>,
    v: FsState<F>,
    whole: Seq<F>,
)
    requires
        inputs.sized(),
        inputs.widths.len() > 0,
        read_raf_stage::indices_fit(indices, inputs.widths, inputs.log_t),
        read_raf_stage::claims_true(inputs, indices, acc),
        p.canonical(),
        transcript::synced(p, v, whole),
        ({
            let fam = hand_over(inputs, base);
            let columns = read_raf_stage::chunk_columns::<F>(indices, inputs.widths);
            let (_, acc1, p1) = read_raf_stage::honest(inputs, columns, acc, p);
            honest_chunks(
                fam.chunks(acc1, indices),
                indices.len() as int,
                inputs.log_t,
                base,
                fam.cycle(acc1),
                acc1,
                p1,
            ).2.tape.is_prefix_of(whole)
        }),
    ensures
        ({
            let n = indices.len() as int;
            let log_t = inputs.log_t;
            let fam = hand_over(inputs, base);
            let columns = read_raf_stage::chunk_columns::<F>(indices, inputs.widths);
            let (openings, acc1, p1) = read_raf_stage::honest(inputs, columns, acc, p);
            let (made, sent, p2) = honest_chunks(
                fam.chunks(acc1, indices),
                n,
                log_t,
                base,
                fam.cycle(acc1),
                acc1,
                p1,
            );
            let (read, acc2, v1) = read_raf_stage::verdict(openings, inputs, acc, v);
            let (r, got, v2) = verdict_chunks(
                fam.shapes(acc2),
                n,
                log_t,
                base,
                fam.cycle(acc2),
                acc2,
                v1,
            );
            &&& read is Ok
            &&& fam.handed_over(acc2)
            &&& made is Ok
            &&& made->Ok_0.len() == n
            &&& r is Ok
            &&& got == sent
            &&& forall|i: int| base <= i < base + n ==> #[trigger] chunk_recorded(got, i)
            &&& transcript::synced(p2, v2, whole)
        }),
{
    let n = indices.len() as int;
    let (widths, log_t) = (inputs.widths, inputs.log_t);
    let fam = hand_over(inputs, base);
    let columns = read_raf_stage::chunk_columns::<F>(indices, widths);
    let (openings, acc1, p1) = read_raf_stage::honest(inputs, columns, acc, p);
    let chunks = fam.chunks(acc1, indices);
    let p2 = honest_chunks(chunks, n, log_t, base, fam.cycle(acc1), acc1, p1).2;
    read_raf_stage::lemma_honest_leaves(inputs, columns, acc, p);
    let xs = choose|xs: Seq<F>| #[trigger] read_raf_stage::records(inputs, acc1, xs);
    lemma_handed_over(inputs, base, acc1, xs);
    lemma_handed_chunks_sized(inputs, indices, base, acc1);
    lemma_chunks_extend(chunks, 0, n, log_t, base, fam.cycle(acc1), acc1, p1);
    transcript::lemma_prefix_trans(p1.tape, p2.tape, whole);
    read_raf_stage::law_complete(inputs, indices, acc, p, v, whole);
    let v1 = read_raf_stage::verdict(openings, inputs, acc, v).2;
    let m = inputs.batched(p.next());
    assert forall|i: int| 0 <= i < n implies {
        &&& (#[trigger] acc1[fam.chunk_id(i)]).0.skip(widths[i] as int) == fam.cycle(acc1)
        &&& acc1[fam.chunk_id(i)].1 == poly::mle(
            access::one_hot::<F>(access::marks(indices[i]), pow2(widths[i] as nat)),
            acc1[fam.chunk_id(i)].0,
        )
    } by {
        assert(fam.chunk_id(i) == m.chunk_id(i));
        assert(acc1[m.chunk_id(i)].1 == poly::mle(columns[i], acc1[m.chunk_id(i)].0));
    }
    law_hand_over_complete(fam, indices, acc1, p1, v1, whole);
    lemma_chunks_recorded(chunks, n, log_t, base, fam.cycle(acc1), acc1, p1);
}

/// The whole run between fresh parties with one label: the read check and the pushforwards of its
/// chunks are proved and accepted, the verifier reads the whole proof, and both parties record the
/// same claims, among them the three that every chunk leaves.
pub proof fn law_round_trip<F: Field>(
    inputs: InputsModel<F>,
    indices: Seq<Seq<u32>>,
    base: int,
    acc: Claims<F>,
    label: Seq<u8>,
)
    requires
        inputs.sized(),
        inputs.widths.len() > 0,
        read_raf_stage::indices_fit(indices, inputs.widths, inputs.log_t),
        read_raf_stage::claims_true(inputs, indices, acc),
    ensures
        ({
            let n = indices.len() as int;
            let log_t = inputs.log_t;
            let fam = hand_over(inputs, base);
            let columns = read_raf_stage::chunk_columns::<F>(indices, inputs.widths);
            let p0 = transcript::fresh(label, Seq::empty());
            let (openings, acc1, p1) = read_raf_stage::honest(inputs, columns, acc, p0);
            let (made, sent, p2) = honest_chunks(
                fam.chunks(acc1, indices),
                n,
                log_t,
                base,
                fam.cycle(acc1),
                acc1,
                p1,
            );
            let v0 = transcript::fresh(label, p2.tape);
            let (read, acc2, v1) = read_raf_stage::verdict(openings, inputs, acc, v0);
            let (r, got, v2) = verdict_chunks(
                fam.shapes(acc2),
                n,
                log_t,
                base,
                fam.cycle(acc2),
                acc2,
                v1,
            );
            &&& read is Ok
            &&& made is Ok
            &&& made->Ok_0.len() == n
            &&& r is Ok
            &&& v2.tape.len() == 0
            &&& got == sent
            &&& forall|i: int| base <= i < base + n ==> #[trigger] chunk_recorded(got, i)
        }),
{
    let fam = hand_over(inputs, base);
    let columns = read_raf_stage::chunk_columns::<F>(indices, inputs.widths);
    let p0 = transcript::fresh::<F>(label, Seq::empty());
    let (openings, acc1, p1) = read_raf_stage::honest(inputs, columns, acc, p0);
    let p2 = honest_chunks(
        fam.chunks(acc1, indices),
        indices.len() as int,
        inputs.log_t,
        base,
        fam.cycle(acc1),
        acc1,
        p1,
    ).2;
    transcript::law_fresh(label, p2.tape);
    law_read_and_push_complete(
        inputs,
        indices,
        base,
        acc,
        p0,
        transcript::fresh(label, p2.tape),
        p2.tape,
    );
}

/// The proof of one chunk leaves true claims, and the pushforward is that of its index column.
proof fn lemma_last_chunk<F: Field>(
    chunk: ChunkModel<F>,
    log_t: nat,
    index: int,
    r_cycle: Seq<F>,
    acc: Claims<F>,
    p: FsState<F>,
    v: FsState<F>,
    whole: Seq<F>,
)
    requires
        r_cycle.len() == log_t,
        pow2(log_t) <= usize::MAX,
        chunk.sized(log_t),
        chunk_true(chunk, r_cycle),
        p.canonical(),
        transcript::synced(p, v, whole),
        honest_family(
            chunk.family(log_t, r_cycle),
            seq![chunk.claim],
            index,
            acc,
            p,
        ).2.tape.is_prefix_of(whole),
    ensures
        ({
            let (made, acc1, _) = honest_family(
                chunk.family(log_t, r_cycle),
                seq![chunk.claim],
                index,
                acc,
                p,
            );
            let column = made->Ok_0;
            &&& made is Ok
            &&& acc1[gkr::dense_id(index)].1 == poly::mle(
                Seq::new(pow2(log_t), |j: int| F::of_int(chunk.indices[j] as int)),
                acc1[gkr::dense_id(index)].0,
            )
            &&& acc1[gkr::leaf_id(index)].1 == poly::mle(column, acc1[gkr::leaf_id(index)].0)
            &&& acc1[gkr::reduction_id(index)].0 == chunk.r_col
            &&& acc1[gkr::reduction_id(index)].1 == poly::mle(column, chunk.r_col)
            &&& column.len() == pow2(chunk.log_m)
            &&& forall|k: int|
                0 <= k < pow2(chunk.log_m) ==> #[trigger] column[k] == sums::sum(
                    pow2(log_t) as int,
                    |j: int|
                        if chunk.indices[j] == k {
                            poly::eq_weight(r_cycle, j)
                        } else {
                            F::of_int(0)
                        },
                )
        }),
{
    let family = chunk.family(log_t, r_cycle);
    let claims = seq![chunk.claim];
    let t = pow2(log_t) as int;
    lemma_chunk_family(chunk, log_t, r_cycle);
    assert(family.claims() =~= claims);
    law_family_complete(family, index, acc, p, v, whole);
    let (drawn, p1) = pushforward::draw(claims, 0, p);
    let (drawn_v, v1) = pushforward::draw(claims, 0, v);
    let (pa, va) = (p.absorb(claims), v.absorb(claims));
    transcript::lemma_coins_len(pa, 0);
    transcript::lemma_synced_squeeze_n(pa, va, whole, 0);
    assert(drawn_v == drawn);
    gkr::law_openings(family, drawn, index, acc, p1, v1, whole);
    let indices = Seq::new(pow2(log_t), |j: int| F::of_int(chunk.indices[j] as int));
    assert(log_t + 0 == log_t);
    assert forall|x: int| 0 <= x < t implies #[trigger] pushforward::stacked(
        family.columns,
        t,
        x,
    ) == chunk.indices[x] by {
        poly::lemma_block_index(0, t, x);
        assert(0 * t + x == x);
    }
    assert(pushforward::stacked_column::<F>(family.columns, t, pow2(log_t)) =~= indices);
    assert(chunk.r_col.reverse().reverse() =~= chunk.r_col);
    assert((family.r_row + drawn.r_chunk).reverse() =~= r_cycle);
    let eq = family.weights(drawn);
    let column = family.pushed(drawn);
    assert forall|k: int| 0 <= k < pow2(chunk.log_m) implies #[trigger] column[k] == sums::sum(
        t,
        |j: int|
            if chunk.indices[j] == k {
                poly::eq_weight(r_cycle, j)
            } else {
                F::of_int(0)
            },
    ) by {
        sums::lemma_sum_ext(
            t,
            |x: int| pushforward::row_weight(family.columns, t, eq, k, x),
            |j: int|
                if chunk.indices[j] == k {
                    poly::eq_weight(r_cycle, j)
                } else {
                    F::of_int(0)
                },
        );
    }
}

/// The claims that the honest pushforward proofs leave under the name of a chunk are true of what the
/// name says: that of the chunk's index column, and the two of its pushforward. The pushforward adds
/// up, at each place, the weights of the cycles whose index is that place.
pub proof fn law_named_claims<F: Field>(
    chunks: Seq<ChunkModel<F>>,
    n: int,
    i: int,
    log_t: nat,
    base: int,
    r_cycle: Seq<F>,
    acc: Claims<F>,
    p: FsState<F>,
    v: FsState<F>,
    whole: Seq<F>,
)
    requires
        0 <= i < n <= chunks.len(),
        0 <= base,
        base + n <= usize::MAX,
        r_cycle.len() == log_t,
        pow2(log_t) <= usize::MAX,
        forall|i: int| 0 <= i < chunks.len() ==> (#[trigger] chunks[i]).sized(log_t),
        forall|i: int| 0 <= i < chunks.len() ==> chunk_true(#[trigger] chunks[i], r_cycle),
        p.canonical(),
        transcript::synced(p, v, whole),
        honest_chunks(chunks, n, log_t, base, r_cycle, acc, p).2.tape.is_prefix_of(whole),
    ensures
        ({
            let (made, acc1, _) = honest_chunks(chunks, n, log_t, base, r_cycle, acc, p);
            let column = made->Ok_0[i];
            let index = (base + i) as usize;
            let dense = OpeningId::Committed(
                CommittedPolynomial::RaDense(index),
                SumcheckId::PushforwardGkr,
            );
            let leaf = OpeningId::Committed(
                CommittedPolynomial::Pushforward(index),
                SumcheckId::PushforwardGkr,
            );
            let reduction = OpeningId::Committed(
                CommittedPolynomial::Pushforward(index),
                SumcheckId::PushforwardReduction,
            );
            &&& made is Ok
            &&& made->Ok_0.len() == n
            &&& acc1.contains_key(dense)
            &&& acc1.contains_key(leaf)
            &&& acc1.contains_key(reduction)
            &&& acc1[dense].1 == poly::mle(
                Seq::new(pow2(log_t), |j: int| F::of_int(chunks[i].indices[j] as int)),
                acc1[dense].0,
            )
            &&& acc1[leaf].1 == poly::mle(column, acc1[leaf].0)
            &&& acc1[reduction].0 == chunks[i].r_col
            &&& acc1[reduction].1 == poly::mle(column, acc1[reduction].0)
            &&& column.len() == pow2(chunks[i].log_m)
            &&& forall|k: int|
                0 <= k < pow2(chunks[i].log_m) ==> #[trigger] column[k] == sums::sum(
                    pow2(log_t) as int,
                    |j: int|
                        if chunks[i].indices[j] == k {
                            poly::eq_weight(r_cycle, j)
                        } else {
                            F::of_int(0)
                        },
                )
        }),
    decreases n,
{
    lemma_chunks_extend(chunks, n - 1, n, log_t, base, r_cycle, acc, p);
    let (done, acc1, p1) = honest_chunks(chunks, n - 1, log_t, base, r_cycle, acc, p);
    let last = honest_chunks(chunks, n, log_t, base, r_cycle, acc, p).2.tape;
    transcript::lemma_prefix_trans(p1.tape, last, whole);
    law_chunks_complete(chunks, n - 1, log_t, base, r_cycle, acc, p, v, whole);
    lemma_chunks_recorded(chunks, n - 1, log_t, base, r_cycle, acc, p);
    let v1 = verdict_chunks(
        chunk_shapes(chunks),
        n - 1,
        log_t,
        base,
        r_cycle,
        acc,
        v,
    ).2;
    assert(chunk_true(chunks[n - 1], r_cycle));
    lemma_last_chunk(chunks[n - 1], log_t, base + n - 1, r_cycle, acc1, p1, v1, whole);
    if i < n - 1 {
        law_named_claims(chunks, n - 1, i, log_t, base, r_cycle, acc, p, v, whole);
    }
}

} // verus!
