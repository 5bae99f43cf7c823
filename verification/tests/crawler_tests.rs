use pythia::content::{extract_content, extract_links_and_text, extract_pdf_metadata, extract_xml};
use pythia::robots::parse_robots_txt;
use pythia::shard::get_shard_index;
use std::time::Duration;

#[test]
fn actor_test_parse_robots_txt_universal_rules() {
    let robots_content = "
            # This is a comment
            User-agent: *
            Disallow: /admin/ # inline comment
            Crawl-delay: 5
            
            User-agent: googlebot
            Disallow: /secret/
        ";

    let metadata = parse_robots_txt(robots_content, "example.com");

    assert!(metadata.rules_fetched);
    assert_eq!(Duration::from_secs(metadata.crawl_delay), Duration::from_secs(5));
    assert_eq!(metadata.disallowed_paths, vec!["/admin/"]);
    assert!(!metadata.disallowed_paths.contains(&"/secret/".to_string()));
}

#[test]
fn actor_test_parse_robots_txt_specific_bot_rules() {
    let robots_content = "
            User-agent: *
            Disallow: /everything/
            
            User-agent: PythiaSearchBot
            Allow: /everything/
            Disallow: /just-one-thing/
        ";

    let metadata = parse_robots_txt(robots_content, "example.com");

    assert_eq!(metadata.allowed_paths, vec!["/everything/"]);
    assert_eq!(metadata.disallowed_paths, vec!["/just-one-thing/"]);
}

#[test]
fn mod_test_parse_robots_txt_universal_rules() {
    let robots_content = "
            # This is a comment
            User-agent: *
            Disallow: /admin/ # inline comment
            Crawl-delay: 5
            
            User-agent: googlebot
            Disallow: /secret/
        ";

    let metadata = parse_robots_txt(robots_content, "example.com");

    assert!(metadata.rules_fetched);
    assert_eq!(Duration::from_secs(metadata.crawl_delay), Duration::from_secs(5));
    assert_eq!(metadata.disallowed_paths, vec!["/admin/"]);
    assert!(!metadata.disallowed_paths.contains(&"/secret/".to_string()));
}

#[test]
fn mod_test_parse_robots_txt_specific_bot_rules() {
    let robots_content = "
            User-agent: *
            Disallow: /everything/
            
            User-agent: PythiaSearchBot
            Allow: /everything/
            Disallow: /just-one-thing/
        ";

    let metadata = parse_robots_txt(robots_content, "example.com");

    assert_eq!(metadata.allowed_paths, vec!["/everything/"]);
    assert_eq!(metadata.disallowed_paths, vec!["/just-one-thing/"]);
}

#[test]
fn actor_test_get_shard_index_determinism() {
    let domain = "wikipedia.org";
    let shard1 = get_shard_index(domain, 5);
    let shard2 = get_shard_index(domain, 5);

    assert_eq!(shard1, shard2);
}

#[test]
fn mod_test_get_shard_index_determinism() {
    let domain = "wikipedia.org";
    let shard1 = get_shard_index(domain, 5);
    let shard2 = get_shard_index(domain, 5);

    assert_eq!(shard1, shard2);
}

#[test]
fn test_extract_links_and_text() {
    let html = r#"
            <html>
                <body>
                    <p>Hello world!</p>
                    <a href="/about">About Us</a>
                    <a href="https://other.com/page">External</a>
                    <a href="mailto:test@example.com">Email</a>
                    <a href="/faq#section1">FAQ</a>
                </body>
            </html>
        "#;

    let base_url = "https://example.com/home";
    let num_shards = 3;

    let (routed_links, raw_text) = extract_links_and_text(html, base_url, num_shards);

    assert!(raw_text.contains("Hello world!"));
    assert!(raw_text.contains("About Us"));

    let mut all_links = Vec::new();
    for urls in routed_links.iter() {
        all_links.extend(urls.clone());
    }

    assert_eq!(all_links.len(), 3);
    assert!(all_links.contains(&"https://example.com/about".to_string()));
    assert!(all_links.contains(&"https://other.com/page".to_string()));
    assert!(all_links.contains(&"https://example.com/faq".to_string()));
}

#[test]
fn test_extract_content() {
    let html = r#"
            <html>
                <head>
                    <title>My Awesome Page</title>
                    <meta name="description" content="This is a test description for the page.">
                </head>
                <body>
                    <p>Hello world!</p>
                    <a href="/about">About Us</a>
                    <a href="https://other.com/page">External</a>
                    <a href="mailto:test@example.com">Email</a>
                    <a href="/faq#section1">FAQ</a>
                </body>
            </html>
        "#;

    let base_url = "https://example.com/home";

    let (links, raw_text, title, description) = extract_content(html, base_url);

    assert_eq!(title, Some("My Awesome Page".to_string()));
    assert_eq!(
        description,
        Some("This is a test description for the page.".to_string())
    );

    assert!(raw_text.contains("Hello world!"));
    assert!(raw_text.contains("About Us"));

    assert_eq!(
        links.len(),
        3,
        "Should ignore mailto: links and normalize the rest"
    );
    assert!(links.contains(&"https://example.com/about".to_string()));
    assert!(links.contains(&"https://other.com/page".to_string()));
    assert!(
        links.contains(&"https://example.com/faq".to_string()),
        "Should strip URL fragments"
    );
}

#[test]
fn test_extract_xml() {
    let xml = r#"
            <?xml version="1.0" encoding="UTF-8"?>
            <bookstore>
                <book category="cooking">
                    <title lang="en">Everyday Italian</title>
                    <author>Giada De Laurentiis</author>
                    <year>2005</year>
                    <price>30.00</price>
                    <summary><![CDATA[A great book about <b>Italian</b> cooking.]]></summary>
                </book>
            </bookstore>
        "#;

    let (extracted_text, title, description) = extract_xml(xml);

    assert_eq!(title, Some("Everyday Italian".to_string()));
    assert_eq!(
        description,
        Some("A great book about <b>Italian</b> cooking.".to_string())
    );

    assert!(extracted_text.contains("Everyday Italian"));
    assert!(extracted_text.contains("Giada De Laurentiis"));
    assert!(extracted_text.contains("2005"));
    assert!(extracted_text.contains("30.00"));
    assert!(extracted_text.contains("A great book about <b>Italian</b> cooking."));

    assert!(!extracted_text.contains("<book>"));
    assert!(!extracted_text.contains("</author>"));
}

#[test]
fn robots_keywords_ignore_ascii_case_and_bad_delays() {
    let m = parse_robots_txt("USER-AGENT: *\r\nDISALLOW: /a\r\ncrawl-delay: +7\r\nCrawl-delay: soon\nAllow:\n", "x");
    assert_eq!(m.disallowed_paths, vec!["/a"]);
    assert!(m.allowed_paths.is_empty());
    assert_eq!(m.crawl_delay, 7);
}

#[test]
fn robots_later_star_group_does_not_override_bot_group() {
    let m = parse_robots_txt(
        "User-agent: pythiasearchbot\nDisallow: /x\nUser-agent: *\nDisallow: /y\nCrawl-delay: 9\n",
        "x",
    );
    assert_eq!(m.disallowed_paths, vec!["/x"]);
    assert_eq!(m.crawl_delay, 2);
}

#[test]
fn robots_of_empty_text_are_defaults() {
    let m = parse_robots_txt("", "x");
    assert!(m.rules_fetched);
    assert_eq!(m.crawl_delay, 2);
    assert!(m.disallowed_paths.is_empty() && m.allowed_paths.is_empty());
    assert!(m.can_crawl("/anything"));
}

#[test]
fn can_crawl_prefers_allow() {
    let m = parse_robots_txt("User-agent: *\nDisallow: /a\nAllow: /a/b\n", "x");
    assert!(!m.can_crawl("/a/c"));
    assert!(m.can_crawl("/a/b/c"));
    assert!(m.can_crawl("/z"));
}

#[test]
fn extract_content_without_base_has_no_links() {
    let (links, text, title, description) =
        extract_content("<html><head><title>   </title></head><body><a href=\"/x\">x</a></body></html>", "not a url");
    assert!(links.is_empty());
    assert_eq!(title, None);
    assert_eq!(description, None);
    assert!(text.contains('x'));
}

#[test]
fn extract_links_and_text_routes_by_host() {
    let html = r#"<a href="https://a.example/1">1</a><a href="https://a.example/2">2</a>"#;
    let (routed, _) = extract_links_and_text(html, "https://base.example/", 4);
    assert_eq!(routed.len(), 4);
    let k = get_shard_index("a.example", 4);
    assert_eq!(routed[k], vec!["https://a.example/1", "https://a.example/2"]);
}

#[test]
fn extract_xml_without_title() {
    let (text, title, description) = extract_xml("<feed><description>  d  </description><x>y</x></feed>");
    assert_eq!(title, None);
    assert_eq!(description, Some("d".to_string()));
    assert_eq!(text, "d y");
}

#[test]
fn pdf_title_falls_back_to_file_name() {
    let (title, description) = extract_pdf_metadata(None, None, "https://example.com/docs/my-great_report.pdf");
    assert_eq!(title, Some("my great report".to_string()));
    assert_eq!(description, None);
    let (title, _) = extract_pdf_metadata(Some(b"   ".to_vec()), None, "https://example.com/");
    assert_eq!(title, None);
}

#[test]
fn pdf_metadata_is_decoded_and_trimmed() {
    let (title, description) =
        extract_pdf_metadata(Some(b"  Annual Report ".to_vec()), Some(b"Numbers\xff".to_vec()), "https://example.com/x.pdf");
    assert_eq!(title, Some("Annual Report".to_string()));
    assert_eq!(description, Some("Numbers\u{fffd}".to_string()));
}
