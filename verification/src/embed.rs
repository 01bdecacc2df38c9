//! Embedding service logic: pairing chunks with their vectors, batching of
//! embedding requests, and the init-once lifecycle of the shared model.
//!
//! The vectors themselves are opaque to this module — it is generic in the
//! vector type — so the contracts here are exactly the ordering and pairing
//! obligations of the service: lengths agree, order is preserved, and the
//! model is constructed once.

use vstd::prelude::*;

use crate::chunk::Chunk;

verus! {

/// Fatal precondition failure between chunks and their vectors. Pairing
/// them anyway would silently misattribute embeddings.
#[derive(Debug, PartialEq, Eq, Structural, Clone, Copy)]
pub enum EmbeddingDimensionMismatch {
    /// The chunk list and the vector list disagree in length.
    CountMismatch { n_chunks: usize, n_vectors: usize },
    /// A vector's length differs from the declared dimensionality.
    LengthMismatch { index: usize, len: usize },
}

/// Chunks paired with their embedding vectors, plus the model's declared
/// dimensionality. Invariant: the two lists have identical length and
/// matching positional order, and every vector has exactly `dim` entries.
/// The scalar type `S` is opaque to the library.
pub struct Embeddings<S> {
    pub original: Vec<Chunk>,
    pub embedded: Vec<Vec<S>>,
    pub dim: usize,
}

impl<S> Embeddings<S> {
    /// The pairing invariant: one vector per chunk, every vector of the
    /// declared dimensionality.
    pub open spec fn well_formed(self) -> bool {
        &&& self.original@.len() == self.embedded@.len()
        &&& forall|i: int|
            0 <= i < self.embedded@.len() ==> (#[trigger] self.embedded@[i])@.len() == self.dim
    }

    /// Pair chunks with their vectors. Fails fast, never truncating, when
    /// the lists disagree in length or any vector is not of the declared
    /// dimensionality.
    pub fn new(original: Vec<Chunk>, embedded: Vec<Vec<S>>, dim: usize) -> (r: Result<
        Embeddings<S>,
        EmbeddingDimensionMismatch,
    >)
        ensures
            r is Ok <==> (original@.len() == embedded@.len() && (forall|i: int|
                0 <= i < embedded@.len() ==> (#[trigger] embedded@[i])@.len() == dim)),
            r matches Ok(e) ==> e.original == original && e.embedded == embedded && e.dim == dim
                && e.well_formed(),
            original@.len() != embedded@.len() ==> (r matches Err(er) && er is CountMismatch),
            r matches Err(EmbeddingDimensionMismatch::CountMismatch { n_chunks, n_vectors })
                ==> n_chunks == original@.len() && n_vectors == embedded@.len() && n_chunks
                != n_vectors,
            r matches Err(EmbeddingDimensionMismatch::LengthMismatch { index, len }) ==> {
                &&& original@.len() == embedded@.len()
                &&& index < embedded@.len()
                &&& len == embedded@[index as int]@.len()
                &&& len != dim
                &&& forall|j: int| 0 <= j < index ==> (#[trigger] embedded@[j])@.len() == dim
            },
    {
        if original.len() != embedded.len() {
            return Err(
                EmbeddingDimensionMismatch::CountMismatch {
                    n_chunks: original.len(),
                    n_vectors: embedded.len(),
                },
            );
        }
        let n = embedded.len();
        for i in 0..n
            invariant
                n == embedded@.len(),
                original@.len() == embedded@.len(),
                forall|j: int| 0 <= j < i ==> (#[trigger] embedded@[j])@.len() == dim,
        {
            if embedded[i].len() != dim {
                return Err(
                    EmbeddingDimensionMismatch::LengthMismatch {
                        index: i,
                        len: embedded[i].len(),
                    },
                );
            }
        }
        Ok(Embeddings { original, embedded, dim })
    }

    /// The embedding model's dimensionality, fixed for the process lifetime
    /// and shared by every vector held.
    pub fn get_dim(&self) -> (d: usize)
        ensures
            d == self.dim,
    {
        self.dim
    }
}

/// The concatenation of a sequence of sequences, in order.
pub open spec fn concat_all<T>(s: Seq<Seq<T>>) -> Seq<T>
    decreases s.len(),
{
    if s.len() == 0 {
        Seq::<T>::empty()
    } else {
        concat_all(s.drop_last()) + s.last()
    }
}

/// The total length of the first `i` sequences: the offset at which the
/// `i`-th sequence starts in the concatenation.
pub open spec fn flat_offset<T>(s: Seq<Seq<T>>, i: int) -> int
    decreases i,
{
    if i <= 0 {
        0
    } else {
        flat_offset(s, i - 1) + s[i - 1].len()
    }
}

proof fn lemma_flat_offset_drop_last<T>(s: Seq<Seq<T>>, i: int)
    requires
        0 <= i < s.len(),
    ensures
        flat_offset(s.drop_last(), i) == flat_offset(s, i),
    decreases i,
{
    if i > 0 {
        lemma_flat_offset_drop_last(s, i - 1);
        assert(s.drop_last()[i - 1] == s[i - 1]);
    }
}

proof fn lemma_concat_all_len<T>(s: Seq<Seq<T>>)
    ensures
        concat_all(s).len() == flat_offset(s, s.len() as int),
    decreases s.len(),
{
    if s.len() > 0 {
        lemma_concat_all_len(s.drop_last());
        lemma_flat_offset_drop_last(s, s.len() - 1);
    }
}

/// The element at batch `i`, offset `k`, sits at `flat_offset(s, i) + k` in
/// the concatenation.
pub proof fn lemma_concat_all_index<T>(s: Seq<Seq<T>>, i: int, k: int)
    requires
        0 <= i < s.len(),
        0 <= k < s[i].len(),
    ensures
        0 <= flat_offset(s, i) + k < concat_all(s).len(),
        concat_all(s)[flat_offset(s, i) + k] == s[i][k],
    decreases s.len(),
{
    lemma_concat_all_len(s);
    lemma_flat_offset_nonneg(s, i);
    lemma_flat_offset_mono(s, i + 1, s.len() as int);
    if i == s.len() - 1 {
        lemma_concat_all_len(s.drop_last());
        lemma_flat_offset_drop_last(s, i);
        assert(concat_all(s) == concat_all(s.drop_last()) + s.last());
    } else {
        lemma_concat_all_index(s.drop_last(), i, k);
        lemma_flat_offset_drop_last(s, i);
        lemma_concat_all_len(s.drop_last());
        lemma_flat_offset_mono(s.drop_last(), i + 1, s.drop_last().len() as int);
        lemma_flat_offset_nonneg(s.drop_last(), i);
        assert(concat_all(s) == concat_all(s.drop_last()) + s.last());
    }
}

proof fn lemma_flat_offset_nonneg<T>(s: Seq<Seq<T>>, i: int)
    ensures
        flat_offset(s, i) >= 0,
    decreases i,
{
    if i > 0 {
        lemma_flat_offset_nonneg(s, i - 1);
    }
}

proof fn lemma_flat_offset_mono<T>(s: Seq<Seq<T>>, i: int, j: int)
    requires
        0 <= i <= j,
    ensures
        flat_offset(s, i) <= flat_offset(s, j),
    decreases j - i,
{
    if i < j {
        lemma_flat_offset_mono(s, i, j - 1);
    }
}

proof fn lemma_flat_offset_same_shape<T, U>(a: Seq<Seq<T>>, b: Seq<Seq<U>>, i: int)
    requires
        a.len() == b.len(),
        forall|m: int| 0 <= m < a.len() ==> a[m].len() == (#[trigger] b[m]).len(),
        0 <= i <= a.len(),
    ensures
        flat_offset(a, i) == flat_offset(b, i),
    decreases i,
{
    if i > 0 {
        lemma_flat_offset_same_shape(a, b, i - 1);
    }
}

/// The input element and the output element at offset `k` of batch `i` sit
/// at the same position of their respective concatenations.
pub open spec fn shape_preserved_at<T, U>(
    inputs: Seq<Seq<T>>,
    outputs: Seq<Seq<U>>,
    i: int,
    k: int,
) -> bool {
    &&& 0 <= flat_offset(inputs, i) + k < concat_all(inputs).len()
    &&& concat_all(inputs)[flat_offset(inputs, i) + k] == inputs[i][k]
    &&& concat_all(outputs)[flat_offset(inputs, i) + k] == outputs[i][k]
}

/// Each input element and its output sit at the same position of the
/// respective concatenations: offset `k` within batch `i`.
pub open spec fn shape_preserved<T, U>(inputs: Seq<Seq<T>>, outputs: Seq<Seq<U>>) -> bool {
    forall|i: int, k: int|
        0 <= i < inputs.len() && 0 <= k < inputs[i].len() ==> #[trigger] shape_preserved_at(
            inputs,
            outputs,
            i,
            k,
        )
}

/// Law: batched embedding preserves length and order. When each batch of
/// outputs is as long as its batch of inputs, the concatenated outputs are
/// exactly as long as the concatenated inputs, and the output at any
/// position arises from the input at the same position: both sit at offset
/// `k` of batch `i`.
pub proof fn lemma_batches_preserve_shape<T, U>(inputs: Seq<Seq<T>>, outputs: Seq<Seq<U>>)
    requires
        inputs.len() == outputs.len(),
        forall|i: int| 0 <= i < inputs.len() ==> (#[trigger] outputs[i]).len() == inputs[i].len(),
    ensures
        concat_all(outputs).len() == concat_all(inputs).len(),
        shape_preserved(inputs, outputs),
{
    lemma_concat_all_len(inputs);
    lemma_concat_all_len(outputs);
    lemma_flat_offset_same_shape(inputs, outputs, inputs.len() as int);
    assert forall|i: int, k: int|
        0 <= i < inputs.len() && 0 <= k < inputs[i].len() implies #[trigger] shape_preserved_at(
        inputs,
        outputs,
        i,
        k,
    ) by {
        assert(outputs[i].len() == inputs[i].len());
        lemma_concat_all_index(inputs, i, k);
        lemma_concat_all_index(outputs, i, k);
        lemma_flat_offset_same_shape(inputs, outputs, i);
        assert(0 <= flat_offset(inputs, i) + k < concat_all(inputs).len());
        assert(concat_all(inputs)[flat_offset(inputs, i) + k] == inputs[i][k]);
        assert(concat_all(outputs)[flat_offset(inputs, i) + k] == outputs[i][k]);
    }
    assert(shape_preserved(inputs, outputs));
}

/// Split texts into request batches: batches are nonempty, at most
/// `batch_size` long, all but the last exactly `batch_size` long, and their
/// concatenation is the input in order. Batching is an internal bound on
/// per-request size, never an observable change to the text sequence.
pub fn split_batches(texts: Vec<String>, batch_size: usize) -> (r: Vec<Vec<String>>)
    requires
        batch_size >= 1,
    ensures
        concat_all(r@.map_values(|b: Vec<String>| b@)) == texts@,
        forall|i: int|
            0 <= i < r@.len() ==> 1 <= (#[trigger] r@[i])@.len() <= batch_size,
        forall|i: int| 0 <= i < r@.len() - 1 ==> (#[trigger] r@[i])@.len() == batch_size,
{
    let mut texts = texts;
    let mut out: Vec<Vec<String>> = Vec::new();
    let mut cur: Vec<String> = Vec::new();
    let n = texts.len();
    let ghost all = texts@;
    for i in 0..n
        invariant
            n == all.len(),
            texts@ == all,
            batch_size >= 1,
            cur@.len() < batch_size,
            concat_all(out@.map_values(|b: Vec<String>| b@)) + cur@ =~= all.take(i as int),
            forall|j: int|
                0 <= j < out@.len() ==> (#[trigger] out@[j])@.len() == batch_size,
    {
        let ghost prev_views = out@.map_values(|b: Vec<String>| b@);
        cur.push(texts[i].clone());
        assert(all.take(i + 1) =~= all.take(i as int).push(all[i as int]));
        if cur.len() == batch_size {
            out.push(cur);
            cur = Vec::new();
            assert(out@.map_values(|b: Vec<String>| b@).drop_last() =~= prev_views);
            assert(concat_all(out@.map_values(|b: Vec<String>| b@)) + cur@ =~= all.take(i + 1));
        } else {
            assert(concat_all(out@.map_values(|b: Vec<String>| b@)) + cur@ =~= all.take(i + 1));
        }
    }
    assert(all.take(n as int) =~= all);
    if cur.len() > 0 {
        let ghost prev_views = out@.map_values(|b: Vec<String>| b@);
        out.push(cur);
        assert(out@.map_values(|b: Vec<String>| b@).drop_last() =~= prev_views);
    } else {
        assert(concat_all(out@.map_values(|b: Vec<String>| b@)) =~= all);
    }
    out
}

proof fn lemma_concat_all_first<T>(s: Seq<Seq<T>>)
    requires
        s.len() > 0,
    ensures
        concat_all(s) == s[0] + concat_all(s.skip(1)),
    decreases s.len(),
{
    if s.len() == 1 {
        assert(s.drop_last() =~= Seq::<Seq<T>>::empty());
        assert(s.skip(1) =~= Seq::<Seq<T>>::empty());
        assert(concat_all(s) =~= s[0] + concat_all(s.skip(1)));
    } else {
        lemma_concat_all_first(s.drop_last());
        assert(s.drop_last()[0] == s[0]);
        assert(s.skip(1).drop_last() =~= s.drop_last().skip(1));
        assert(s.skip(1).last() == s.last());
        assert(concat_all(s) =~= s[0] + concat_all(s.skip(1)));
    }
}

/// Concatenate per-batch results back into one sequence, in order.
pub fn concat_batches<T>(batches: Vec<Vec<T>>) -> (r: Vec<T>)
    ensures
        r@ == concat_all(batches@.map_values(|b: Vec<T>| b@)),
{
    let mut batches = batches;
    let mut out: Vec<T> = Vec::new();
    let ghost all = batches@.map_values(|b: Vec<T>| b@);
    while batches.len() > 0
        invariant
            concat_all(all) =~= out@ + concat_all(batches@.map_values(|b: Vec<T>| b@)),
        decreases batches@.len(),
    {
        let ghost views = batches@.map_values(|b: Vec<T>| b@);
        let mut b = batches.remove(0);
        proof {
            lemma_concat_all_first(views);
            assert(batches@.map_values(|bb: Vec<T>| bb@) =~= views.skip(1));
        }
        out.append(&mut b);
    }
    assert(batches@.map_values(|b: Vec<T>| b@) =~= Seq::<Seq<T>>::empty());
    out
}

// ---------- the init-once lifecycle of the shared model ----------

/// The lifecycle state of the shared embedding model.
#[derive(Debug, PartialEq, Eq, Structural, Clone, Copy)]
pub enum ModelState {
    /// No construction has started.
    Uninit,
    /// Exactly one caller is constructing the model.
    Initializing,
    /// The model is available to every caller.
    Ready,
    /// Construction failed; the failure is terminal for this process.
    Failed,
}

/// What the service does in response to an event.
#[derive(Debug, PartialEq, Eq, Structural, Clone, Copy)]
pub enum ModelAction {
    /// Construct the model; only ever issued once.
    StartInit,
    /// Another caller is already constructing; wait for the outcome.
    Wait,
    /// Serve the request with the shared model.
    Serve,
    /// Report the terminal initialization failure.
    ReportFailure,
    /// Nothing to do.
    NoAction,
}

/// An event the service observes.
#[derive(Debug, PartialEq, Eq, Structural, Clone, Copy)]
pub enum ModelEvent {
    /// An embedding request arrives.
    Request,
    /// The single initializer finished, successfully or not.
    InitFinished(bool),
}

/// The transition table: a request in the uninitialized state starts the
/// one construction; requests during construction wait; afterwards every
/// request is served or told of the terminal failure.
pub open spec fn step_spec(state: ModelState, event: ModelEvent) -> (ModelState, ModelAction) {
    match event {
        ModelEvent::Request => match state {
            ModelState::Uninit => (ModelState::Initializing, ModelAction::StartInit),
            ModelState::Initializing => (ModelState::Initializing, ModelAction::Wait),
            ModelState::Ready => (ModelState::Ready, ModelAction::Serve),
            ModelState::Failed => (ModelState::Failed, ModelAction::ReportFailure),
        },
        ModelEvent::InitFinished(ok) => match state {
            ModelState::Initializing => (
                if ok {
                    ModelState::Ready
                } else {
                    ModelState::Failed
                },
                ModelAction::NoAction,
            ),
            _ => (state, ModelAction::NoAction),
        },
    }
}

/// Decide the next state and action for one observed event.
pub fn on_event(state: ModelState, event: ModelEvent) -> (r: (ModelState, ModelAction))
    ensures
        r == step_spec(state, event),
{
    match event {
        ModelEvent::Request => match state {
            ModelState::Uninit => (ModelState::Initializing, ModelAction::StartInit),
            ModelState::Initializing => (ModelState::Initializing, ModelAction::Wait),
            ModelState::Ready => (ModelState::Ready, ModelAction::Serve),
            ModelState::Failed => (ModelState::Failed, ModelAction::ReportFailure),
        },
        ModelEvent::InitFinished(ok) => match state {
            ModelState::Initializing => (
                if ok {
                    ModelState::Ready
                } else {
                    ModelState::Failed
                },
                ModelAction::NoAction,
            ),
            ModelState::Uninit => (state, ModelAction::NoAction),
            ModelState::Ready => (state, ModelAction::NoAction),
            ModelState::Failed => (state, ModelAction::NoAction),
        },
    }
}

/// The state reached and the number of `StartInit` actions issued when the
/// events are processed in order from `start`.
pub open spec fn run_from(start: ModelState, events: Seq<ModelEvent>) -> (ModelState, nat)
    decreases events.len(),
{
    if events.len() == 0 {
        (start, 0)
    } else {
        let prior = run_from(start, events.drop_last());
        let stepped = step_spec(prior.0, events.last());
        (
            stepped.0,
            prior.1 + if stepped.1 == ModelAction::StartInit {
                1nat
            } else {
                0nat
            },
        )
    }
}

/// Law: in any event sequence processed from the uninitialized state, the
/// model is constructed at most once, and exactly once as soon as any
/// request has arrived.
pub proof fn lemma_init_once(events: Seq<ModelEvent>)
    ensures
        run_from(ModelState::Uninit, events).1 <= 1,
        run_from(ModelState::Uninit, events).1 == 0 <==> run_from(ModelState::Uninit, events).0
            == ModelState::Uninit,
        (exists|i: int| 0 <= i < events.len() && events[i] == ModelEvent::Request) ==> run_from(
            ModelState::Uninit,
            events,
        ).1 == 1,
    decreases events.len(),
{
    if events.len() > 0 {
        lemma_init_once(events.drop_last());
        if exists|i: int| 0 <= i < events.len() && events[i] == ModelEvent::Request {
            let i = choose|i: int| 0 <= i < events.len() && events[i] == ModelEvent::Request;
            if i < events.len() - 1 {
                assert(events.drop_last()[i] == ModelEvent::Request);
            }
        }
    }
}

/// Law: the outcome of initialization is stable. Once the model is ready,
/// it stays ready and every request is served; once initialization has
/// failed, it stays failed and every request reports that same failure.
pub proof fn lemma_outcome_stable(start: ModelState, events: Seq<ModelEvent>)
    requires
        start == ModelState::Ready || start == ModelState::Failed,
    ensures
        run_from(start, events).0 == start,
        step_spec(start, ModelEvent::Request).1 == (if start == ModelState::Ready {
            ModelAction::Serve
        } else {
            ModelAction::ReportFailure
        }),
    decreases events.len(),
{
    if events.len() > 0 {
        lemma_outcome_stable(start, events.drop_last());
    }
}

} // verus!
