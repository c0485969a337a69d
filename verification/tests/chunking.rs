use file_crawler::chunking::{chunk_markdown_content, clean_whitespace, join_words, split_words};

#[test]
fn clean_whitespace_collapses_runs_and_trims() {
    let cleaned = clean_whitespace("  hello \n\n  world  \t x ");
    assert_eq!(cleaned, "hello world x");
}

#[test]
fn clean_whitespace_collapses_all_unicode_whitespace() {
    assert_eq!(clean_whitespace("a\u{000B}b"), "a b");
    assert_eq!(clean_whitespace("a\u{000C}b"), "a b");
    assert_eq!(clean_whitespace("a\u{00A0}b"), "a b");
    assert_eq!(clean_whitespace("a\u{0085}b"), "a b");
    assert_eq!(clean_whitespace("a\u{2003}\u{2028}b\u{3000}"), "a b");
    // The result matches what splitting on Unicode whitespace yields.
    let text = "x\u{000B} y\u{00A0}\u{205F}z ";
    let expected = text.split_whitespace().collect::<Vec<_>>().join(" ");
    assert_eq!(clean_whitespace(text), expected);
}

#[test]
fn clean_whitespace_of_empty_is_empty() {
    assert_eq!(clean_whitespace(""), "");
    assert_eq!(clean_whitespace(" \n\t \r\n"), "");
}

#[test]
fn split_words_finds_maximal_runs() {
    let words = split_words("one  two\nthree");
    assert_eq!(words, vec!["one".to_string(), "two".to_string(), "three".to_string()]);
}

#[test]
fn join_words_single_spaces() {
    let words = vec!["a".to_string(), "bc".to_string()];
    assert_eq!(join_words(&words), "a bc");
}

#[test]
fn chunk_of_empty_input_is_empty() {
    let chunks = chunk_markdown_content("", 1000);
    assert!(chunks.is_empty());
    let chunks = chunk_markdown_content("", 1);
    assert!(chunks.is_empty());
    let chunks = chunk_markdown_content("   \n\n  ", 10);
    assert!(chunks.is_empty());
}

#[test]
fn chunks_carry_all_words_in_order() {
    let chunks = chunk_markdown_content("alpha beta gamma delta", 11);
    assert_eq!(chunks, vec!["alpha beta".to_string(), "gamma delta".to_string()]);
    // Concatenating the chunks reconstructs the words with no loss and no
    // duplication.
    let mut rebuilt: Vec<String> = Vec::new();
    for c in &chunks {
        rebuilt.extend(split_words(c));
    }
    assert_eq!(rebuilt, split_words("alpha beta gamma delta"));
}

#[test]
fn chunking_normalizes_before_packing() {
    let chunks = chunk_markdown_content("a\n\nb\tc", 3);
    assert_eq!(chunks, vec!["a b".to_string(), "c".to_string()]);
}

#[test]
fn chunks_are_as_full_as_the_budget_allows() {
    // Greedy packing: each chunk takes every word that still fits.
    assert_eq!(chunk_markdown_content("a b c d", 3), vec!["a b".to_string(), "c d".to_string()]);
    assert_eq!(
        chunk_markdown_content("aa bb cc", 5),
        vec!["aa bb".to_string(), "cc".to_string()]
    );
}

#[test]
fn oversized_word_stands_alone() {
    let chunks = chunk_markdown_content("supercalifragilistic", 5);
    assert_eq!(chunks, vec!["supercalifragilistic".to_string()]);
}

#[test]
fn short_input_is_one_chunk() {
    let chunks = chunk_markdown_content("just a few words", 1000);
    assert_eq!(chunks, vec!["just a few words".to_string()]);
}
