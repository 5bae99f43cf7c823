use pythia::config::{parse_seeds, ConfigError, EnvValues, Settings};
use pythia::manager::ManagerMessage;
use pythia::indexer::IndexerActor;
use pythia::shard::{route_links, shard_index_from_name};
use pythia::worker::{ContentKind, FetchOutcome, WorkerActor};

#[test]
fn seeds_skip_comments_and_blank_lines() {
    let seeds = parse_seeds("# This is a comment\nhttps://example.com\n   \nhttps://rust-lang.org\n");
    assert_eq!(seeds, vec!["https://example.com", "https://rust-lang.org"]);
    assert!(parse_seeds("").is_empty());
}

#[test]
fn member_names_sort_by_suffix() {
    assert_eq!(shard_index_from_name("indexer-12"), 12);
    assert_eq!(shard_index_from_name("indexer"), 0);
    assert_eq!(shard_index_from_name("a-b"), 0);
    assert_eq!(shard_index_from_name("7"), 7);
}

#[test]
fn route_links_drops_unparsable() {
    let links = vec!["https://a.example/x".to_string(), "::".to_string()];
    let batches = route_links(&links, 3);
    assert_eq!(batches.len(), 3);
    let total: usize = batches.iter().map(|b| b.len()).sum();
    assert_eq!(total, 1);
}

#[test]
fn content_types() {
    assert_eq!(WorkerActor::classify_content_type(Some("Application/PDF")), ContentKind::Pdf);
    assert_eq!(WorkerActor::classify_content_type(Some("text/xml; charset=utf-8")), ContentKind::Xml);
    assert_eq!(WorkerActor::classify_content_type(None), ContentKind::Html);
    assert_eq!(WorkerActor::fetch_outcome(204), FetchOutcome::Success);
    assert_eq!(WorkerActor::fetch_outcome(429), FetchOutcome::RateLimited);
    assert_eq!(WorkerActor::fetch_outcome(500), FetchOutcome::Failed);
    assert!(WorkerActor::pdf_document(None, None, None, "https://x/y.pdf").is_none());
    let doc = WorkerActor::pdf_document(Some("body".to_string()), None, Some(b"sub".to_vec()), "https://x/y-z.pdf");
    assert_eq!(doc, Some(("body".to_string(), Some("y z".to_string()), Some("sub".to_string()))));
}

#[test]
fn site_filter_clause_text() {
    assert_eq!(IndexerActor::site_filter_clause("rust-lang.org"), "url LIKE '%rust-lang.org%'");
}

fn unset() -> EnvValues {
    EnvValues {
        host: None,
        port: None,
        cluster_host: None,
        log_level: None,
        static_workers: None,
        enable_js_rendering: None,
        dynamic_workers: None,
        seeds_file: None,
        query_pool_size: None,
        bloom_filter_capacity: None,
        node_name: None,
        cluster_port: None,
        cookie: None,
        seed_node: None,
        shard_id: None,
        hostname: None,
    }
}

#[test]
fn test_config_defaults() {
    let config = Settings::from_env(&unset(), true, "fresh".to_string()).unwrap();

    assert_eq!(config.host, "0.0.0.0");
    assert_eq!(config.port, 3000);
    assert_eq!(config.query_pool_size, 4);
    assert_eq!(config.cluster_host, "0.0.0.0");
    assert_eq!(config.node_name, "fresh");
    assert!(!config.enable_js_rendering);
    assert_eq!(config.dynamic_workers_per_shard, 1);
    assert_eq!(config.shard_id, 0);
}

#[test]
fn test_load_seeds_ignores_comments_and_empty_lines() {
    let content = "# This is a comment\nhttps://example.com\n   \nhttps://rust-lang.org\n";

    let seeds = parse_seeds(content);

    assert_eq!(seeds.len(), 2);
    assert_eq!(seeds[0], "https://example.com");
    assert_eq!(seeds[1], "https://rust-lang.org");
}

#[test]
fn config_errors_come_in_reading_order() {
    let mut env = unset();
    env.port = Some("70000".to_string());
    env.cluster_port = Some("x".to_string());
    assert_eq!(Settings::from_env(&env, false, String::new()).err(), Some(ConfigError::Port));
    env.port = Some("+8080".to_string());
    assert_eq!(Settings::from_env(&env, false, String::new()).err(), Some(ConfigError::BloomFilterFpRate));
    assert_eq!(Settings::from_env(&env, true, String::new()).err(), Some(ConfigError::ClusterPort));
    env.cluster_port = Some("9000".to_string());
    let s = Settings::from_env(&env, true, String::new()).unwrap();
    assert_eq!(s.port, 8080);
    assert_eq!(s.cluster_port, 9000);
}

#[test]
fn shard_id_falls_back_to_the_pod_name() {
    let mut env = unset();
    env.hostname = Some("crawler-3".to_string());
    assert_eq!(Settings::from_env(&env, true, String::new()).unwrap().shard_id, 3);
    env.shard_id = Some("7".to_string());
    assert_eq!(Settings::from_env(&env, true, String::new()).unwrap().shard_id, 7);
    env.shard_id = Some("seven".to_string());
    env.enable_js_rendering = Some("true".to_string());
    env.dynamic_workers = Some("two".to_string());
    let s = Settings::from_env(&env, true, String::new()).unwrap();
    assert_eq!(s.shard_id, 3);
    assert!(s.enable_js_rendering);
    assert_eq!(s.dynamic_workers_per_shard, 1);
}

#[test]
fn fetch_reports_success_and_429_only() {
    match WorkerActor::fetch_report("a.example".to_string(), "https://a.example/".to_string(), 200) {
        Some(ManagerMessage::CrawlSuccess(d, u)) => {
            assert_eq!(d, "a.example");
            assert_eq!(u, "https://a.example/");
        }
        _ => panic!("expected a success report"),
    }
    assert!(matches!(
        WorkerActor::fetch_report("a.example".to_string(), "https://a.example/".to_string(), 429),
        Some(ManagerMessage::DomainRateLimited(_, _))
    ));
    assert!(WorkerActor::fetch_report("a.example".to_string(), "https://a.example/".to_string(), 404).is_none());
}

#[test]
fn full_text_only_for_non_empty_queries() {
    assert!(IndexerActor::wants_full_text("rust lang"));
    assert!(!IndexerActor::wants_full_text(""));
}
