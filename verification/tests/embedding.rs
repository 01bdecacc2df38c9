use vb::chunk::Chunk;
use vb::embed::concat_batches;
use vb::embed::split_batches;
use vb::embed::Embeddings;
use vb::embed::EmbeddingDimensionMismatch;
use vb::embed::ModelAction;
use vb::embed::ModelEvent;
use vb::embed::ModelState;
use vb::embed::on_event;

fn chunk(text: &str, page: u16) -> Chunk {
    Chunk { content: text.to_string(), page }
}

#[test]
fn pairing_mismatch_fails_fast() {
    let chunks = vec![chunk("a", 1), chunk("b", 1), chunk("c", 2)];
    let vectors: Vec<Vec<f32>> = vec![vec![0.1, 0.2], vec![0.3, 0.4]];
    let r = Embeddings::new(chunks, vectors, 2);
    assert_eq!(
        r.err(),
        Some(EmbeddingDimensionMismatch::CountMismatch { n_chunks: 3, n_vectors: 2 })
    );
}

#[test]
fn wrong_vector_length_fails_fast() {
    let chunks = vec![chunk("a", 1), chunk("b", 1)];
    let vectors: Vec<Vec<f32>> = vec![vec![0.1], vec![0.3, 0.4]];
    let r = Embeddings::new(chunks, vectors, 1);
    assert_eq!(
        r.err(),
        Some(EmbeddingDimensionMismatch::LengthMismatch { index: 1, len: 2 })
    );
}

#[test]
fn pairing_succeeds_on_equal_lengths() {
    let chunks = vec![chunk("a", 1), chunk("b", 2)];
    let vectors: Vec<Vec<f32>> = vec![vec![1.0], vec![2.0]];
    let e = Embeddings::new(chunks, vectors, 1).unwrap();
    assert_eq!(e.get_dim(), 1);
    assert_eq!(e.original.len(), 2);
    assert_eq!(e.embedded.len(), 2);
}

#[test]
fn batching_preserves_length_and_order() {
    let texts: Vec<String> =
        ["a", "b", "c", "d", "e"].iter().map(|s| s.to_string()).collect();
    let batches = split_batches(texts.clone(), 2);
    assert_eq!(batches.len(), 3);
    assert_eq!(batches[0], vec!["a".to_string(), "b".to_string()]);
    assert_eq!(batches[1], vec!["c".to_string(), "d".to_string()]);
    assert_eq!(batches[2], vec!["e".to_string()]);

    // embed each batch (stand-in: one vector per text), then reconcatenate
    let outputs: Vec<Vec<Vec<f32>>> = batches
        .iter()
        .map(|b| b.iter().map(|t| vec![t.len() as f32]).collect())
        .collect();
    let flat = concat_batches(outputs);
    assert_eq!(flat.len(), texts.len());

    let roundtrip = concat_batches(batches);
    assert_eq!(roundtrip, texts);
}

#[test]
fn batch_size_one_gives_singletons() {
    let texts: Vec<String> = ["x", "y"].iter().map(|s| s.to_string()).collect();
    let batches = split_batches(texts, 1);
    assert_eq!(batches.len(), 2);
    assert_eq!(batches[0].len(), 1);
    assert_eq!(batches[1].len(), 1);
}

#[test]
fn concurrent_first_calls_initialize_once() {
    // three requests race; only the first starts construction
    let (s1, a1) = on_event(ModelState::Uninit, ModelEvent::Request);
    assert_eq!(a1, ModelAction::StartInit);
    assert_eq!(s1, ModelState::Initializing);
    let (s2, a2) = on_event(s1, ModelEvent::Request);
    assert_eq!(a2, ModelAction::Wait);
    let (s3, a3) = on_event(s2, ModelEvent::Request);
    assert_eq!(a3, ModelAction::Wait);
    // construction succeeds; every later request is served
    let (s4, _) = on_event(s3, ModelEvent::InitFinished(true));
    assert_eq!(s4, ModelState::Ready);
    let (s5, a5) = on_event(s4, ModelEvent::Request);
    assert_eq!(a5, ModelAction::Serve);
    assert_eq!(s5, ModelState::Ready);
}

#[test]
fn failed_initialization_is_terminal() {
    let (s1, _) = on_event(ModelState::Uninit, ModelEvent::Request);
    let (s2, _) = on_event(s1, ModelEvent::InitFinished(false));
    assert_eq!(s2, ModelState::Failed);
    let (s3, a3) = on_event(s2, ModelEvent::Request);
    assert_eq!(a3, ModelAction::ReportFailure);
    assert_eq!(s3, ModelState::Failed);
    let (s4, a4) = on_event(s3, ModelEvent::Request);
    assert_eq!(a4, ModelAction::ReportFailure);
    assert_eq!(s4, ModelState::Failed);
}
