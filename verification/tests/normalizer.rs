use vb::text::clean_pdf_text_robust;
use vb::text::remove_section_headers;

#[test]
fn toc_leader_line_is_removed() {
    // a leader row of five dots and a page number vanishes entirely
    assert_eq!(clean_pdf_text_robust(". . . . . 42", false), "");
}

#[test]
fn toc_leader_inside_text_is_removed() {
    let raw = "Real content sits on this line\n. . . . . 42\nand more content sits here.";
    assert_eq!(
        clean_pdf_text_robust(raw, false),
        "Real content sits on this line and more content sits here."
    );
}

#[test]
fn hyphenated_line_break_is_joined() {
    assert_eq!(
        clean_pdf_text_robust("this is rejec-\nted text", false),
        "this is rejected text"
    );
}

#[test]
fn whitespace_runs_collapse_to_one_space() {
    assert_eq!(clean_pdf_text_robust("a  lot   of\tspace", false), "a lot of space");
}

#[test]
fn ligatures_fold_to_plain_text() {
    assert_eq!(clean_pdf_text_robust("\u{FB01}le", false), "file");
    assert_eq!(clean_pdf_text_robust("\u{FB02}ow \u{FB00}ort", false), "flow ffort");
    assert_eq!(clean_pdf_text_robust("\u{153}uvre \u{E6}on", false), "oeuvre aeon");
    assert_eq!(clean_pdf_text_robust("a\u{200B}b c\u{FEFF}d", false), "ab cd");
    assert_eq!(clean_pdf_text_robust("non\u{A0}breaking", false), "non breaking");
}

#[test]
fn punctuation_runs_collapse_to_last_mark() {
    assert_eq!(clean_pdf_text_robust("Wait..... what", false), "Wait. what");
    assert_eq!(clean_pdf_text_robust("Really?!... now", false), "Really. now");
    assert_eq!(clean_pdf_text_robust("keep.. both", false), "keep.. both");
}

#[test]
fn low_letter_lines_are_dropped() {
    let raw = "good line here\n123 456 789\nanother good line";
    assert_eq!(
        clean_pdf_text_robust(raw, false),
        "good line here another good line"
    );
}

#[test]
fn lines_merge_without_breaking_sentences() {
    let raw = "This sentence ends here.\nnext line continues\nonward";
    assert_eq!(
        clean_pdf_text_robust(raw, false),
        "This sentence ends here.next line continues onward"
    );
}

#[test]
fn control_characters_are_stripped() {
    assert_eq!(clean_pdf_text_robust("be\u{1}ep beep", false), "beep beep");
}

#[test]
fn normalization_is_idempotent_on_normalized_text() {
    let raw = "Chapter 1: Introduction\nMachine learning gives computers the ability to learn. This is a sentence.";
    let once = clean_pdf_text_robust(raw, true);
    assert_eq!(
        once,
        "Machine learning gives computers the ability to learn. This is a sentence."
    );
    let twice = clean_pdf_text_robust(&once, true);
    assert_eq!(twice, once);
}

#[test]
fn normalization_is_deterministic() {
    let raw = "Some text\n\nwith   odd spacing.";
    assert_eq!(
        clean_pdf_text_robust(raw, false),
        clean_pdf_text_robust(raw, false)
    );
}

#[test]
fn section_headers_are_removed_from_text() {
    let raw = "3.1 Introduction\nBody text continues here with many words indeed.\nAPPENDIX A\nmore body text";
    assert_eq!(
        remove_section_headers(raw),
        "Body text continues here with many words indeed.\nmore body text"
    );
}
