use archaic_word_finder::corpus::{chunk_size, is_corpus_file, progress_due, reads_stdin};

#[test]
fn standard_input_is_read_on_request_or_for_a_dash() {
    assert!(reads_stdin(true, None));
    assert!(reads_stdin(false, Some("-")));
    assert!(!reads_stdin(false, Some("books")));
    assert!(!reads_stdin(false, Some("--")));
    assert!(!reads_stdin(false, None));
}

#[test]
fn corpus_files_by_extension() {
    for name in ["txt", "text", "utf", "md"] {
        assert!(is_corpus_file(Some(name)));
    }
    for name in ["TXT", "tx", "mdx", "", "zst"] {
        assert!(!is_corpus_file(Some(name)));
    }
    assert!(!is_corpus_file(None));
}

#[test]
fn chunks_hold_fifty_lines_or_a_share() {
    assert_eq!(chunk_size(0, 8), 50);
    assert_eq!(chunk_size(1600, 8), 50);
    assert_eq!(chunk_size(1632, 8), 51);
    assert_eq!(chunk_size(90701, 8), 2834);
}

#[test]
fn progress_moves_by_the_thousand_and_at_the_end() {
    assert!(!progress_due(0, 50, 90701));
    assert!(progress_due(980, 50, 90701));
    assert!(progress_due(950, 50, 90701));
    assert!(!progress_due(1000, 999, 90701));
    assert!(progress_due(10, 5, 15));
    assert!(progress_due(10, 6, 15));
}
