use pythia::query::{lang_from_code, Lang, ParsedQuery, PendingCount, QueryBook, QueryStart, SearchParams};
use pythia::snippet::QueryActor;

#[test]
fn test_generate_snippet() {
    let text = "This is a very long document. It has many words. We are adding extra filler text here just to make sure that the document exceeds the forty word limit imposed by our sliding window algorithm. Otherwise the whole thing gets captured. We want to find the specific part about rust programming. Rust is fast and safe. The rest of the document is boring and shouldn't be in the snippet.";
    let query = "rust programming";

    let snippet = QueryActor::generate_snippet(text, query);

    assert!(snippet.contains("<b>rust</b>"));
    assert!(snippet.contains("<b>Rust</b>"));
    assert!(snippet.contains("<b>programming.</b>"));

    assert!(!snippet.contains("very long document"));
    assert!(snippet.starts_with("..."));
    assert!(snippet.contains("We want to find"));
}

#[test]
fn test_parsed_query_extracts_site_filter() {
    let raw_query = "how to build a search engine site:rust-lang.org";
    let parsed = ParsedQuery::parse(raw_query, "en");

    assert_eq!(parsed.original_text, "how to build a search engine");
    assert_eq!(parsed.site_filter, Some("rust-lang.org".to_string()));
}

#[test]
fn test_parsed_query_removes_english_stopwords() {
    let raw_query = "what is the quick brown fox";
    let parsed = ParsedQuery::parse(raw_query, "en");

    assert!(!parsed.processed_text.contains("what"));
    assert!(!parsed.processed_text.contains("is"));
    assert!(!parsed.processed_text.contains("the"));

    assert!(parsed.processed_text.contains("quick"));
    assert!(parsed.processed_text.contains("brown"));
    assert!(parsed.processed_text.contains("fox"));
}

#[test]
fn test_parsed_query_multilingual_stemming() {
    let raw_query_fr = "les chats mangent";
    let parsed_fr = ParsedQuery::parse(raw_query_fr, "fr");

    assert!(!parsed_fr.processed_text.contains("les"));
    assert!(parsed_fr.processed_text.contains("chat"));
    assert!(parsed_fr.processed_text.contains("mang"));
}

#[test]
fn snippet_without_terms_is_an_excerpt() {
    let text: String = std::iter::repeat('x').take(250).collect();
    let s = QueryActor::generate_snippet(&text, "   ");
    assert_eq!(s.len(), 203);
    assert!(s.ends_with("..."));
    assert_eq!(QueryActor::generate_snippet("short", ""), "short...");
}

#[test]
fn snippet_of_short_text_has_no_ellipsis() {
    assert_eq!(QueryActor::generate_snippet("Rust is fun", "RUST"), "<b>Rust</b> is fun");
    assert_eq!(QueryActor::generate_snippet("", "rust"), "");
}

#[test]
fn unknown_language_falls_back_to_english() {
    assert_eq!(lang_from_code("xx"), Lang::En);
    assert_eq!(lang_from_code("nl"), Lang::Nl);
    let parsed = ParsedQuery::parse("The running dogs", "zz");
    assert_eq!(parsed.original_text, "The running dogs");
    assert_eq!(parsed.language, "zz");
    assert!(!parsed.processed_text.contains("the"));
}

#[test]
fn last_site_filter_wins() {
    let parsed = ParsedQuery::parse("site:a.org rust site:b.org", "en");
    assert_eq!(parsed.site_filter, Some("b.org".to_string()));
    assert_eq!(parsed.original_text, "rust");
}

#[test]
fn search_params_defaults() {
    let p = SearchParams { q: "x".to_string(), limit: None, offset: None, lang: None };
    assert_eq!(p.resolved(), (10, 0, "en".to_string()));
    let p = SearchParams { q: "x".to_string(), limit: Some(3), offset: Some(4), lang: Some("fr".to_string()) };
    assert_eq!(p.resolved(), (3, 4, "fr".to_string()));
}

#[test]
fn candidate_limit_and_pages() {
    assert_eq!(QueryActor::candidate_limit(10, 0), 100);
    assert_eq!(QueryActor::candidate_limit(10, 20), 150);
    assert_eq!(QueryActor::page_bounds(7, 5, 10), (5, 7));
    assert_eq!(QueryActor::page_bounds(7, 9, 10), (7, 7));
    assert_eq!(QueryActor::page_bounds(30, 5, 10), (5, 15));
}

#[test]
fn pending_count_completes_on_last_reply() {
    let mut p = PendingCount { replies_received: 0, expected_replies: 2 };
    assert!(!p.record_reply());
    assert!(p.record_reply());
}

#[test]
fn consecutive_pages_tile_the_results() {
    assert_eq!(QueryActor::page_bounds(25, 0, 10), (0, 10));
    assert_eq!(QueryActor::page_bounds(25, 10, 10), (10, 20));
    assert_eq!(QueryActor::page_bounds(25, 20, 10), (20, 25));
    assert_eq!(QueryActor::page_bounds(25, 30, 10), (25, 25));
}

#[test]
fn query_is_answered_after_the_last_shard() {
    let mut book = QueryBook::new();
    assert!(book.open("none".to_string(), 0));
    assert!(!book.open("q1".to_string(), 3));
    assert!(!book.open("q2".to_string(), 1));
    assert!(!book.record("q1"));
    assert!(!book.record("q1"));
    assert!(book.record("q2"));
    assert!(book.record("q1"));
    assert!(!book.record("q1"));
    assert!(!book.record("unknown"));
}

#[test]
fn a_query_starts_by_asking_every_shard() {
    let mut book = QueryBook::new();
    assert_eq!(book.start_query("a".to_string(), 10, 0, 0), QueryStart::AnswerNow);
    assert_eq!(book.start_query("b".to_string(), 10, 30, 2), QueryStart::AskShards(200));
    assert_eq!(book.start_query("c".to_string(), 1, 0, 2), QueryStart::AskShards(100));
    assert!(!book.record("b"));
    assert!(book.record("b"));
    assert!(!book.record("b"));
}
