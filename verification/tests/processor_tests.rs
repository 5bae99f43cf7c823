use pythia::processor::ProcessorActor;
use pythia::shard::get_target_shard;

#[test]
fn test_clean_text_removes_messy_whitespace() {
    let raw_html_text = "  This \n\n is   some \t\t very \n messy text.   ";
    let cleaned = ProcessorActor::clean_text(raw_html_text);

    assert_eq!(cleaned, "This is some very messy text.");
}

#[test]
fn test_separate_sentences() {
    let text = "Hello world! How are you? I am fine. This has no punctuation";

    let sentences = ProcessorActor::separate_sentences(text);

    assert_eq!(sentences.len(), 4);
    assert_eq!(sentences[0], "Hello world!");
    assert_eq!(sentences[1], "How are you?");
    assert_eq!(sentences[2], "I am fine.");
    assert_eq!(sentences[3], "This has no punctuation");
}

#[test]
fn test_chunk_text_semantic_boundaries() {
    let text = "One. Two. Three. Four. Five.";

    let chunks = ProcessorActor::chunk_text(text, 5, 1);

    assert_eq!(chunks.len(), 1, "Should group short sentences together");
    assert_eq!(chunks[0], "One. Two. Three. Four. Five.");
}

#[test]
fn test_chunk_text_sliding_window_sentence_overlap() {
    let text = "Sentence one is here. Sentence two is short. Sentence three. Sentence four is longer. Sentence five.";

    let chunks = ProcessorActor::chunk_text(text, 8, 1);

    assert_eq!(chunks.len(), 3);

    assert_eq!(chunks[0], "Sentence one is here. Sentence two is short.");

    assert_eq!(chunks[1], "Sentence two is short. Sentence three.");

    assert_eq!(
        chunks[2],
        "Sentence three. Sentence four is longer. Sentence five."
    );
}

#[test]
fn test_shard_routing_determinism() {
    let num_shards = 5;

    let shard_a = get_target_shard("https://en.wikipedia.org/wiki/Rust", num_shards);
    let shard_b = get_target_shard("https://en.wikipedia.org/wiki/C++", num_shards);

    assert_eq!(
        shard_a, shard_b,
        "Pages from the same domain must route to the same shard"
    );
}

#[test]
fn clean_text_of_blank_input_is_empty() {
    assert_eq!(ProcessorActor::clean_text(" \t\n\u{a0}\u{3000} "), "");
    assert_eq!(ProcessorActor::clean_text("a\u{2003}b"), "a b");
}

#[test]
fn separate_sentences_keeps_each_terminator() {
    let s = ProcessorActor::separate_sentences("Wait... what?!  ");
    assert_eq!(s, vec!["Wait.", ".", ".", "what?", "!"]);
    assert!(ProcessorActor::separate_sentences("   ").is_empty());
}

#[test]
fn chunk_text_keeps_a_long_sentence_whole() {
    let chunks = ProcessorActor::chunk_text("a b c d e f. g.", 3, 2);
    assert_eq!(chunks, vec!["a b c d e f.", "g."]);
}

#[test]
fn chunk_text_of_empty_text_is_empty() {
    assert!(ProcessorActor::chunk_text("", 10, 2).is_empty());
}

#[test]
fn chunk_text_overlap_never_stalls() {
    let chunks = ProcessorActor::chunk_text("A b. C d. E f.", 2, 5);
    assert_eq!(chunks, vec!["A b.", "C d.", "E f."]);
}

#[test]
fn target_shard_is_in_range_and_unknown_for_bad_urls() {
    for n in 1..8 {
        assert!(get_target_shard("https://example.com/x", n) < n);
    }
    assert_eq!(
        get_target_shard("not a url", 7),
        pythia::shard::get_shard_index("unknown", 7)
    );
}

#[test]
fn cleaning_twice_changes_nothing() {
    let once = ProcessorActor::clean_text(" a\t b \n\n c  ");
    assert_eq!(once, "a b c");
    assert_eq!(ProcessorActor::clean_text(&once), once);
}

#[test]
fn chunks_cover_every_sentence_within_budget() {
    let text = "A b c. D e. F g h i j. K.";
    let chunks = ProcessorActor::chunk_text(text, 4, 1);
    assert_eq!(chunks, vec!["A b c.", "D e.", "F g h i j.", "K."]);
    let chunks = ProcessorActor::chunk_text("A. B. C. D.", 2, 1);
    assert_eq!(chunks, vec!["A. B.", "B. C.", "C. D."]);
}

#[test]
fn sentences_of_clean_text_rejoin() {
    let clean = ProcessorActor::clean_text("  Hello   world!  How are\tyou? Fine ");
    assert_eq!(ProcessorActor::separate_sentences(&clean).join(" "), clean);
    assert_eq!(ProcessorActor::chunk_text(&clean, 3, 0).join(" "), clean);
}
