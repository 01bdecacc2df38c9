use vb::chunk::Chunk;
use vb::embed::Embeddings;
use vb::qdrant::build_points;
use vb::qdrant::decode_page;
use vb::qdrant::decode_search_results;
use vb::qdrant::parse_i64;
use vb::qdrant::plan_collection;
use vb::qdrant::plan_query;
use vb::qdrant::Distance;
use vb::qdrant::PayloadNumber;
use vb::qdrant::QueryPlan;
use vb::qdrant::RawPoint;
use vb::registry::UnknownUploadId;
use vb::registry::UploadRegistry;

#[test]
fn collection_uses_dot_metric() {
    let c = plan_collection("paper.pdf".to_string(), 384);
    assert_eq!(c.name, "paper.pdf");
    assert_eq!(c.dimension, 384);
    assert!(matches!(c.metric, Distance::Dot));
}

#[test]
fn points_carry_positional_ids_and_payload() {
    let chunks = vec![
        Chunk { content: "first".to_string(), page: 4 },
        Chunk { content: "second".to_string(), page: 9 },
    ];
    let vectors: Vec<Vec<f32>> = vec![vec![1.0, 0.0], vec![0.0, 1.0]];
    let emb = Embeddings::new(chunks, vectors, 2).unwrap();
    let points = build_points(emb);
    assert_eq!(points.len(), 2);
    assert_eq!(points[0].id, 0);
    assert_eq!(points[0].text, "first");
    assert_eq!(points[0].page, 4);
    assert_eq!(points[0].vector, vec![1.0, 0.0]);
    assert_eq!(points[1].id, 1);
    assert_eq!(points[1].text, "second");
    assert_eq!(points[1].page, 9);
    assert_eq!(points[1].vector, vec![0.0, 1.0]);
}

#[test]
fn parse_i64_accepts_what_rust_accepts() {
    assert_eq!(parse_i64("42"), Some(42));
    assert_eq!(parse_i64("+7"), Some(7));
    assert_eq!(parse_i64("-13"), Some(-13));
    assert_eq!(parse_i64("0"), Some(0));
    assert_eq!(parse_i64("9223372036854775807"), Some(i64::MAX));
    assert_eq!(parse_i64("-9223372036854775808"), Some(i64::MIN));
    assert_eq!(parse_i64("9223372036854775808"), None);
    assert_eq!(parse_i64("-9223372036854775809"), None);
    assert_eq!(parse_i64(""), None);
    assert_eq!(parse_i64("-"), None);
    assert_eq!(parse_i64("12a"), None);
    assert_eq!(parse_i64(" 5"), None);
    assert_eq!(parse_i64("00042"), Some(42));
}

#[test]
fn page_decoding_is_defensive() {
    assert_eq!(decode_page(&PayloadNumber::Int(5)), 5);
    assert_eq!(decode_page(&PayloadNumber::Int(-2)), -2);
    assert_eq!(decode_page(&PayloadNumber::Text("42".to_string())), 42);
    assert_eq!(decode_page(&PayloadNumber::Text("nonsense".to_string())), 1);
    assert_eq!(decode_page(&PayloadNumber::Missing), 1);
}

#[test]
fn malformed_hits_never_fail_the_whole_response() {
    let points = vec![
        RawPoint { text: Some("abc".to_string()), page: PayloadNumber::Int(3) },
        RawPoint { text: None, page: PayloadNumber::Int(9) },
        RawPoint { text: Some("x".to_string()), page: PayloadNumber::Text("7".to_string()) },
        RawPoint { text: Some("y".to_string()), page: PayloadNumber::Missing },
    ];
    let results = decode_search_results(&points);
    assert_eq!(results.len(), 3);
    assert_eq!(results[0].text, "abc");
    assert_eq!(results[0].page, 3);
    assert_eq!(results[1].text, "x");
    assert_eq!(results[1].page, 7);
    assert_eq!(results[2].text, "y");
    assert_eq!(results[2].page, 1);
}

#[test]
fn empty_query_is_answered_without_a_search() {
    assert!(matches!(plan_query(""), QueryPlan::Empty));
    assert!(matches!(plan_query("   "), QueryPlan::Empty));
    match plan_query("  what is love  ") {
        QueryPlan::Empty => panic!("a nonempty query must be searched"),
        QueryPlan::Search(q) => assert_eq!(q, "what is love"),
    }
}

#[test]
fn registry_resolves_latest_binding() {
    let mut reg = UploadRegistry::new();
    reg.insert("id1".to_string(), "doc1".to_string());
    reg.insert("id2".to_string(), "doc2".to_string());
    assert_eq!(reg.collection_for(&"id1".to_string()), Ok("doc1".to_string()));
    assert_eq!(reg.collection_for(&"id2".to_string()), Ok("doc2".to_string()));
    assert_eq!(reg.collection_for(&"missing".to_string()), Err(UnknownUploadId));
    reg.insert("id1".to_string(), "doc3".to_string());
    assert_eq!(reg.collection_for(&"id1".to_string()), Ok("doc3".to_string()));
}

#[test]
fn stored_payload_survives_the_round_trip() {
    // upsert followed by query, with the store simulated as returning the
    // stored payloads: every chunk comes back with its exact text and page
    let chunks = vec![
        Chunk { content: "alpha beta".to_string(), page: 1 },
        Chunk { content: "gamma delta".to_string(), page: 2 },
    ];
    let vectors: Vec<Vec<f32>> = vec![vec![0.5], vec![0.6]];
    let emb = Embeddings::new(chunks.clone(), vectors, 1).unwrap();
    let points = build_points(emb);
    let hits: Vec<RawPoint> = points
        .iter()
        .map(|p| RawPoint {
            text: Some(p.text.clone()),
            page: PayloadNumber::Int(p.page as i64),
        })
        .collect();
    let results = decode_search_results(&hits);
    assert_eq!(results.len(), chunks.len());
    for (r, c) in results.iter().zip(chunks.iter()) {
        assert_eq!(r.text, c.content);
        assert_eq!(r.page, c.page as i64);
    }
}
