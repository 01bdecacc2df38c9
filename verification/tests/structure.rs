use vb::header::is_garbage_fragment;
use vb::header::is_likely_header;
use vb::header::is_section_header;

#[test]
fn numbered_heading_is_a_header() {
    assert!(is_section_header("3.1 Introduction"));
    assert!(is_section_header("3.1.2 Details"));
    assert!(is_section_header("3. Introduction"));
}

#[test]
fn prose_is_not_a_header() {
    assert!(!is_section_header("The cat sat on the mat."));
    assert!(!is_section_header(
        "It was the best of times, it was the worst of times, it was the age of wisdom."
    ));
}

#[test]
fn keyword_headings_are_headers() {
    assert!(is_section_header("Chapter 7"));
    assert!(is_section_header("Section B"));
    assert!(is_section_header("Part 2"));
    assert!(is_section_header("Appendix C"));
    assert!(!is_section_header("Chapters are the best part of a book, as everyone knows."));
}

#[test]
fn short_line_heuristics() {
    assert!(is_likely_header("1. Intro"));
    assert!(is_likely_header("INTRODUCTION"));
    assert!(is_likely_header("2020 ANNUAL REPORT"));
    assert!(is_likely_header("3.1: Introduction to Machine Learning"));
    assert!(!is_likely_header("lowercase ordinary words"));
}

#[test]
fn garbage_fragments_are_detected() {
    assert!(is_garbage_fragment("............ 42"));
    assert!(!is_garbage_fragment("A normal sentence."));
    // many dots but no digit: not garbage
    assert!(!is_garbage_fragment("............"));
    // many dots and a digit but enough letters: not garbage
    assert!(!is_garbage_fragment("hello............ 42"));
}
