use pythia::manager::{ManagerActor, ManagerMessage, ManagerState, WorkerMessage};
use pythia::robots::DomainMetadata;

const NOW: u64 = 1_000_000_000;

#[test]
fn test_handle_add_urls_deduplication() {
    let manager = ManagerActor;
    let mut state = ManagerState::in_memory().unwrap();

    let new_urls = vec![
        "https://example.com/page1".to_string(),
        "https://example.com/page2".to_string(),
        "https://example.com/page1".to_string(),
    ];

    manager.handle_add_urls(&mut state, new_urls);

    assert_eq!(state.static_frontier.len(), 2);
    assert!(
        state
            .seen_urls
            .check(&"https://example.com/page1".to_string())
    );
    assert!(
        state
            .seen_urls
            .check(&"https://example.com/page2".to_string())
    );
}

#[test]
fn test_handle_rate_limited_exponential_backoff() {
    let manager = ManagerActor;
    let mut state = ManagerState::in_memory().unwrap();
    let domain = "wikipedia.org".to_string();
    let url = "https://wikipedia.org/page1".to_string();

    manager.handle_rate_limited(&mut state, domain.clone(), url.clone(), NOW);

    let metadata = state.domain_metadata.get(&domain).unwrap();
    assert_eq!(metadata.consecutive_errors, 1);

    manager.handle_rate_limited(&mut state, domain.clone(), url.clone(), NOW);
    let metadata = state.domain_metadata.get(&domain).unwrap();
    assert_eq!(metadata.consecutive_errors, 2);

    manager.handle_rate_limited(&mut state, domain.clone(), url.clone(), NOW);
    let metadata = state.domain_metadata.get(&domain).unwrap();
    assert_eq!(metadata.consecutive_errors, 3);

    assert_eq!(state.static_frontier.len(), 3);
}

#[test]
fn test_handle_crawl_success_clears_penalty() {
    let manager = ManagerActor;
    let mut state = ManagerState::in_memory().unwrap();
    let domain = "wikipedia.org".to_string();
    let url = "https://wikipedia.org/page1".to_string();

    manager.handle_rate_limited(&mut state, domain.clone(), url.clone(), NOW);
    assert_eq!(
        state
            .domain_metadata
            .get(&domain)
            .unwrap()
            .consecutive_errors,
        1
    );
    assert!(
        state
            .domain_metadata
            .get(&domain)
            .unwrap()
            .backoff_until
            .is_some()
    );

    manager.handle_crawl_success(&mut state, domain.clone(), url.clone());

    let metadata = state.domain_metadata.get(&domain).unwrap();
    assert_eq!(metadata.consecutive_errors, 0);
    assert!(metadata.backoff_until.is_none());
}

#[test]
fn test_evaluate_url_rules_unfetched() {
    let manager = ManagerActor;
    let mut state = ManagerState::in_memory().unwrap();
    let mut skipped = Vec::new();

    let job = manager.evaluate_url(&mut state, "https://example.com/page", &mut skipped, NOW);

    match job {
        Some(WorkerMessage::FetchRobotsTxt(domain, url)) => {
            assert_eq!(domain, "example.com");
            assert_eq!(url, "https://example.com/robots.txt");
        }
        _ => panic!("Expected FetchRobotsTxt"),
    }

    assert_eq!(skipped.len(), 1);
    assert_eq!(skipped[0], "https://example.com/page");
}

#[test]
fn test_evaluate_url_disallowed() {
    let manager = ManagerActor;
    let mut state = ManagerState::in_memory().unwrap();
    let mut skipped = Vec::new();

    let mut metadata = DomainMetadata::default_unfetched();
    metadata.rules_fetched = true;
    metadata.disallowed_paths.push("/private".to_string());
    state
        .domain_metadata
        .insert("example.com".to_string(), metadata);

    let job = manager.evaluate_url(&mut state, "https://example.com/private/doc", &mut skipped, NOW);

    assert!(job.is_none());
    assert!(skipped.is_empty());
}

#[test]
fn test_evaluate_url_ready_to_fetch() {
    let manager = ManagerActor;
    let mut state = ManagerState::in_memory().unwrap();
    let mut skipped = Vec::new();

    let mut metadata = DomainMetadata::default_unfetched();
    metadata.rules_fetched = true;
    metadata.last_hit = Some(NOW - std::time::Duration::from_secs(100).as_millis() as u64);
    state
        .domain_metadata
        .insert("example.com".to_string(), metadata);

    let job = manager.evaluate_url(&mut state, "https://example.com/page", &mut skipped, NOW);

    match job {
        Some(WorkerMessage::Fetch(url)) => {
            assert_eq!(url, "https://example.com/page");
        }
        _ => panic!("Expected Fetch"),
    }
    assert!(skipped.is_empty());
}

#[test]
fn request_work_hands_out_robots_then_page() {
    let manager = ManagerActor;
    let mut state = ManagerState::in_memory().unwrap();
    manager.handle_add_urls(&mut state, vec!["https://example.com/a".to_string()]);
    match manager.handle_request_work(&mut state, "worker-0-1", NOW) {
        WorkerMessage::FetchRobotsTxt(d, u) => {
            assert_eq!(d, "example.com");
            assert_eq!(u, "https://example.com/robots.txt");
        }
        _ => panic!("expected a robots.txt fetch"),
    }
    assert_eq!(state.static_frontier.len(), 1);
    let fx = manager.handle(
        &mut state,
        ManagerMessage::UpdateDomainRules("example.com".to_string(), None),
        NOW,
    );
    assert!(fx.dispatch.is_none());
    match manager.handle_request_work(&mut state, "worker-0-1", NOW) {
        WorkerMessage::Fetch(u) => assert_eq!(u, "https://example.com/a"),
        _ => panic!("expected a fetch"),
    }
    assert_eq!(state.static_frontier.len(), 0);
    assert!(matches!(
        manager.handle_request_work(&mut state, "worker-0-1", NOW),
        WorkerMessage::NoWorkAvailable
    ));
}

#[test]
fn crawl_delay_holds_urls_back() {
    let manager = ManagerActor;
    let mut state = ManagerState::in_memory().unwrap();
    let mut m = DomainMetadata::default_unfetched();
    m.rules_fetched = true;
    m.last_hit = Some(NOW - 1000);
    state.domain_metadata.insert("example.com".to_string(), m);
    let mut skipped = Vec::new();
    assert!(manager.evaluate_url(&mut state, "https://example.com/p", &mut skipped, NOW).is_none());
    assert_eq!(skipped, vec!["https://example.com/p".to_string()]);
    assert!(manager.evaluate_url(&mut state, "https://example.com/p", &mut skipped, NOW + 1000).is_some());
}

#[test]
fn backoff_doubles_and_caps() {
    let manager = ManagerActor;
    let mut state = ManagerState::in_memory().unwrap();
    let d = "x.org".to_string();
    let mut last = 0;
    for expected in [4u64, 8, 16, 32, 64, 128, 256, 300, 300] {
        manager.handle_rate_limited(&mut state, d.clone(), "https://x.org/".to_string(), NOW);
        let until = state.domain_metadata.get(&d).unwrap().backoff_until.unwrap();
        assert_eq!(until, NOW + expected * 1000);
        assert!(until >= last);
        last = until;
    }
}

#[test]
fn spa_urls_go_to_the_dynamic_frontier() {
    let manager = ManagerActor;
    let mut state = ManagerState::in_memory().unwrap();
    let fx = manager.handle(
        &mut state,
        ManagerMessage::AddUrls(vec![
            "https://app.example/#/home".to_string(),
            "https://example.com/x".to_string(),
        ]),
        NOW,
    );
    assert_eq!(fx.store_pending.len(), 2);
    assert_eq!(state.dynamic_frontier.len(), 1);
    assert_eq!(state.static_frontier.len(), 1);
    let fx = manager.handle(&mut state, ManagerMessage::AddUrls(vec!["https://example.com/x".to_string()]), NOW);
    assert!(fx.store_pending.is_empty());
}

#[test]
fn stored_pending_rows_are_queued() {
    let bloom = bloomfilter::Bloom::new(1000, 100).unwrap();
    let state = ManagerState::new(
        bloom,
        vec![
            ("https://a.example/1".to_string(), "pending".to_string()),
            ("https://a.example/2".to_string(), "done".to_string()),
        ],
    );
    assert_eq!(state.static_frontier.len(), 1);
    assert!(state.seen_urls.check(&"https://a.example/2".to_string()));
}

#[test]
fn crawl_success_reports_the_url_to_store() {
    let manager = ManagerActor;
    let mut state = ManagerState::in_memory().unwrap();
    let fx = manager.handle(
        &mut state,
        ManagerMessage::CrawlSuccess("a.example".to_string(), "https://a.example/".to_string()),
        NOW,
    );
    assert_eq!(fx.mark_done, Some("https://a.example/".to_string()));
    assert!(state.domain_metadata.get("a.example").is_none());
}

#[test]
fn two_fetches_of_a_domain_are_a_delay_apart() {
    let manager = ManagerActor;
    let mut state = ManagerState::in_memory().unwrap();
    let mut m = DomainMetadata::default_unfetched();
    m.rules_fetched = true;
    state.domain_metadata.insert("example.com".to_string(), m);
    let mut skipped = Vec::new();
    assert!(matches!(
        manager.evaluate_url(&mut state, "https://example.com/a", &mut skipped, NOW),
        Some(WorkerMessage::Fetch(_))
    ));
    assert!(manager.evaluate_url(&mut state, "https://example.com/b", &mut skipped, NOW + 1999).is_none());
    assert_eq!(skipped, vec!["https://example.com/b".to_string()]);
    assert!(matches!(
        manager.evaluate_url(&mut state, "https://example.com/b", &mut skipped, NOW + 2000),
        Some(WorkerMessage::Fetch(_))
    ));
}

#[test]
fn robots_txt_is_asked_for_once() {
    let manager = ManagerActor;
    let mut state = ManagerState::in_memory().unwrap();
    let mut skipped = Vec::new();
    assert!(matches!(
        manager.evaluate_url(&mut state, "https://example.com/a", &mut skipped, NOW),
        Some(WorkerMessage::FetchRobotsTxt(_, _))
    ));
    assert!(!matches!(
        manager.evaluate_url(&mut state, "https://example.com/b", &mut skipped, NOW),
        Some(WorkerMessage::FetchRobotsTxt(_, _))
    ));
}

#[test]
fn backed_off_domain_gets_no_fetch() {
    let manager = ManagerActor;
    let mut state = ManagerState::in_memory().unwrap();
    let mut m = DomainMetadata::default_unfetched();
    m.rules_fetched = true;
    state.domain_metadata.insert("example.com".to_string(), m);
    manager.handle_rate_limited(&mut state, "example.com".to_string(), "https://example.com/a".to_string(), NOW);
    let mut skipped = Vec::new();
    assert!(manager.evaluate_url(&mut state, "https://example.com/a", &mut skipped, NOW + 3999).is_none());
    assert_eq!(skipped.len(), 1);
    assert!(manager.evaluate_url(&mut state, "https://example.com/a", &mut skipped, NOW + 4000).is_some());
}

#[test]
fn success_after_429_restores_the_rules() {
    let manager = ManagerActor;
    let mut state = ManagerState::in_memory().unwrap();
    let mut m = DomainMetadata::default_unfetched();
    m.rules_fetched = true;
    m.crawl_delay = 7;
    m.last_hit = Some(NOW - 10);
    state.domain_metadata.insert("example.com".to_string(), m);
    manager.handle(
        &mut state,
        ManagerMessage::DomainRateLimited("example.com".to_string(), "https://example.com/a".to_string()),
        NOW,
    );
    manager.handle(
        &mut state,
        ManagerMessage::CrawlSuccess("example.com".to_string(), "https://example.com/a".to_string()),
        NOW,
    );
    let m = state.domain_metadata.get("example.com").unwrap();
    assert_eq!(m.consecutive_errors, 0);
    assert!(m.backoff_until.is_none());
    assert_eq!(m.crawl_delay, 7);
    assert_eq!(m.last_hit, Some(NOW - 10));
    assert!(m.rules_fetched);
}

#[test]
fn asking_for_work_never_grows_the_frontier() {
    let manager = ManagerActor;
    let mut state = ManagerState::in_memory().unwrap();
    manager.handle_add_urls(
        &mut state,
        vec![
            "not a url".to_string(),
            "https://a.example/1".to_string(),
            "https://b.example/1".to_string(),
        ],
    );
    assert_eq!(state.static_frontier.len(), 3);
    let job = manager.handle_request_work(&mut state, "worker-0-1", NOW);
    assert!(matches!(job, WorkerMessage::FetchRobotsTxt(_, _)));
    assert_eq!(state.static_frontier.len(), 2);
    assert_eq!(state.static_frontier[0], "https://a.example/1");
    assert_eq!(state.static_frontier[1], "https://b.example/1");
}

#[test]
fn a_url_is_taken_in_only_once() {
    let manager = ManagerActor;
    let mut state = ManagerState::in_memory().unwrap();
    let first = manager.handle_add_urls(&mut state, vec!["https://a.example/1".to_string(), "https://a.example/2".to_string()]);
    assert_eq!(first.len(), 2);
    let second = manager.handle_add_urls(
        &mut state,
        vec!["https://a.example/2".to_string(), "https://a.example/3".to_string(), "https://a.example/3".to_string()],
    );
    assert_eq!(second, vec!["https://a.example/3".to_string()]);
}

#[test]
fn every_offered_url_is_reported_afterwards() {
    let manager = ManagerActor;
    let mut state = ManagerState::in_memory().unwrap();
    let urls = vec!["https://a.example/1".to_string(), "https://b.example/2".to_string(), "https://a.example/1".to_string()];
    let added = manager.handle_add_urls(&mut state, urls.clone());
    assert_eq!(added[0], "https://a.example/1");
    for u in &urls {
        assert!(state.seen_urls.check(u));
    }
}
