use vb::chunk::chunk_pages_with_splitter;
use vb::chunk::chunk_per_page;
use vb::chunk::smart_chunk_text;
use vb::chunk::Page;

#[test]
fn chunks_textbook_like_pages() {
    let pages = vec![
        Page {
            page_num: 1,
            content: "Chapter 1: Introduction\n\n\
                Machine learning is a field of computer science that \
                gives computers the ability to learn without being \
                explicitly programmed. This chapter introduces basic \
                terminology and concepts used throughout the book."
                .repeat(20),
        },
        Page {
            page_num: 2,
            content: "Chapter 2: Linear Models\n\n\
                Linear regression is one of the simplest supervised \
                learning algorithms. Despite its simplicity, it forms \
                the basis for more complex models."
                .repeat(20),
        },
    ];

    let chunks = chunk_per_page(&pages);

    for chunk in &chunks {
        println!("chunk start");
        println!("{:?}", chunk.content);
        println!("");
    }

    // sanity checks
    assert!(!chunks.is_empty());

    // every chunk should be associated with a valid page
    for chunk in &chunks {
        assert!(chunk.page == 1 || chunk.page == 2);
        assert!(!chunk.content.is_empty());
    }
}

#[test]
fn header_like_sentences_are_skipped() {
    let text = "The first sentence is here. 2020 SHORT TITLE. The second sentence follows.";
    let chunks = smart_chunk_text(text, 10000, 2, false);
    assert_eq!(chunks.len(), 1);
    assert!(chunks[0].contains("The first sentence is here."));
    assert!(chunks[0].contains("The second sentence follows."));
    assert!(!chunks[0].contains("2020 SHORT TITLE"));
}

#[test]
fn chunks_reach_the_target_size_and_keep_the_tail() {
    let text = "One sentence of text. Two sentences of text. Three sentences of text. \
                Four sentences of text. Five sentences of text."
        .to_string();
    let chunks = smart_chunk_text(&text, 50, 1, false);
    assert!(chunks.len() >= 2);
    for c in &chunks {
        assert!(!c.trim().is_empty());
    }
    // the final partial chunk is emitted even under size
    assert!(chunks.last().unwrap().contains("Five sentences"));
}

#[test]
fn splitter_chunks_carry_their_source_page() {
    let pages = vec![Page { page_num: 7, content: "Some text\n\nfrom a\ndocument".to_string() }];
    let chunks = chunk_pages_with_splitter(&pages, 10);
    let texts: Vec<&str> = chunks.iter().map(|c| c.content.as_str()).collect();
    assert_eq!(texts, vec!["Some text", "from a", "document"]);
    for c in &chunks {
        assert_eq!(c.page, 7);
        assert!(c.content.len() <= 10);
    }
}

#[test]
fn empty_pages_yield_no_chunks() {
    let pages = vec![Page { page_num: 3, content: String::new() }];
    assert!(chunk_per_page(&pages).is_empty());
    assert!(chunk_pages_with_splitter(&pages, 100).is_empty());
}
