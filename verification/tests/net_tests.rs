use folklore::net::{
    body_texts, crawl, crawl_served, fetch, parse_document, serve, start_fetch, url_to_filename, Page, Crawl, CrawlAction, CrawlEvent,
    CrawlStage, FetchAction, FetchEvent, FetchState, Found, BACKOFF_MILLIS,
    CONNECT_TIMEOUT_MILLIS, MAX_ATTEMPTS, POLITENESS_MILLIS, REQUEST_TIMEOUT_SECS, USER_AGENT,
};

fn words(items: &[&str]) -> Vec<String> {
    items.iter().map(|s| s.to_string()).collect()
}

#[test]
fn constants_of_the_fetch() {
    assert_eq!(MAX_ATTEMPTS, 4);
    assert_eq!(BACKOFF_MILLIS, 512);
    assert_eq!(POLITENESS_MILLIS, 64);
    assert_eq!(CONNECT_TIMEOUT_MILLIS, 4096);
    assert_eq!(REQUEST_TIMEOUT_SECS, 64);
    assert!(USER_AGENT.starts_with("Mozilla/5.0 "));
}

#[test]
fn parse_document_reads_the_page() {
    let html = "<title>A Page</title><p>Hello World</p><a href=\"/next?x#y\">n</a><a href=\"http://b/\">b</a>";
    let page = parse_document(html.to_string(), "http://a/", "http://a/start", 1234).unwrap();
    assert_eq!(page.url, "http://a/start");
    assert_eq!(page.title, "A Page");
    assert_eq!(page.fetched_at_linux_epoch_secs, 1234);
    assert_eq!(
        page.searchable_texts,
        vec![words(&["a", "page"]), words(&["hello", "world"]), words(&["n"]), words(&["b"])]
    );
    assert_eq!(page.links_same_domain, vec!["http://a/next".to_string()]);
}

#[test]
fn parse_document_without_title() {
    let page = parse_document("<p>x</p>".to_string(), "http://a/", "http://a/", 0).unwrap();
    assert_eq!(page.title, "");
    assert_eq!(page.links_same_domain, Vec::<String>::new());
}

#[test]
fn fetch_serves_the_cache_without_a_request() {
    let state = start_fetch();
    assert_eq!(state, FetchState::AwaitingCache);
    let (state, action) = fetch(state, FetchEvent::CacheHit { body: "<p>x</p>".to_string() });
    assert_eq!(state, FetchState::Finished);
    assert_eq!(action, FetchAction::Deliver { body: "<p>x</p>".to_string() });
}

#[test]
fn fetch_stores_what_the_network_gave() {
    let (state, action) = fetch(start_fetch(), FetchEvent::CacheMiss);
    assert_eq!(state, FetchState::AwaitingResponse { attempt: 1 });
    assert_eq!(action, FetchAction::Send);
    let (state, action) = fetch(state, FetchEvent::Response { body: "b".to_string() });
    assert_eq!(state, FetchState::Finished);
    assert_eq!(action, FetchAction::StoreAndDeliver { body: "b".to_string() });
}

#[test]
fn retry_and_backoff() {
    let (mut state, mut action) = fetch(start_fetch(), FetchEvent::CacheMiss);
    let mut pauses = Vec::new();
    let mut sends = 0;
    for _ in 0..3 {
        assert_eq!(action, FetchAction::Send);
        sends += 1;
        let next = fetch(state, FetchEvent::TransportError);
        state = next.0;
        match next.1 {
            FetchAction::Pause { millis } => pauses.push(millis),
            other => panic!("expected a pause, got {:?}", other),
        }
        let next = fetch(state, FetchEvent::Paused);
        state = next.0;
        action = next.1;
    }
    assert_eq!(action, FetchAction::Send);
    sends += 1;
    assert_eq!(state, FetchState::AwaitingResponse { attempt: 4 });
    assert_eq!(pauses, vec![512, 1024, 1536]);
    let (state, action) = fetch(state, FetchEvent::Response { body: "late".to_string() });
    assert_eq!(sends, 4);
    assert_eq!(state, FetchState::Finished);
    assert_eq!(action, FetchAction::StoreAndDeliver { body: "late".to_string() });
}

#[test]
fn fetch_gives_up_after_four_failures() {
    let (mut state, mut action) = fetch(start_fetch(), FetchEvent::CacheMiss);
    let mut sends = 0;
    let mut waited = 0;
    loop {
        match action {
            FetchAction::Send => {
                sends += 1;
                let next = fetch(state, FetchEvent::TransportError);
                state = next.0;
                action = next.1;
            }
            FetchAction::Pause { millis } => {
                waited += millis;
                let next = fetch(state, FetchEvent::Paused);
                state = next.0;
                action = next.1;
            }
            other => {
                assert_eq!(other, FetchAction::GiveUp);
                break;
            }
        }
    }
    assert_eq!(sends, 4);
    assert_eq!(waited, 512 + 1024 + 1536);
    assert_eq!(state, FetchState::Finished);
}

#[test]
fn redirects_are_not_documents() {
    let (state, _) = fetch(start_fetch(), FetchEvent::CacheMiss);
    assert_eq!(
        fetch(state, FetchEvent::Redirected),
        (FetchState::Finished, FetchAction::GiveUp)
    );
}

#[test]
fn fetch_ends_on_what_does_not_fit() {
    assert_eq!(
        fetch(FetchState::AwaitingResponse { attempt: 2 }, FetchEvent::Unreadable),
        (FetchState::Finished, FetchAction::GiveUp)
    );
    assert_eq!(
        fetch(FetchState::AwaitingCache, FetchEvent::Paused),
        (FetchState::Finished, FetchAction::GiveUp)
    );
    assert_eq!(
        fetch(FetchState::Finished, FetchEvent::CacheMiss),
        (FetchState::Finished, FetchAction::GiveUp)
    );
    assert_eq!(
        fetch(FetchState::AwaitingResponse { attempt: 0 }, FetchEvent::TransportError),
        (FetchState::Finished, FetchAction::GiveUp)
    );
    assert_eq!(
        fetch(FetchState::AwaitingResponse { attempt: u64::MAX }, FetchEvent::TransportError),
        (FetchState::Finished, FetchAction::GiveUp)
    );
    assert_eq!(
        fetch(FetchState::Pausing { attempt: u64::MAX }, FetchEvent::Paused),
        (FetchState::Finished, FetchAction::GiveUp)
    );
}

#[test]
fn body_texts_of_a_page() {
    assert_eq!(body_texts(None), None);
    assert_eq!(
        body_texts(Some("<p>A b</p>".to_string())),
        Some(vec![words(&["a", "b"])])
    );
}

#[test]
fn crawl_without_the_page_finds_nothing() {
    let mut state = Crawl::new("http://a/".to_string());
    assert_eq!(state.stage, CrawlStage::AwaitingRoot);
    let action = crawl(&mut state, CrawlEvent::Root { body: None });
    assert_eq!(action, CrawlAction::Finish);
    assert_eq!(state.stage, CrawlStage::Finished);
    assert_eq!(state.found, Vec::new());
}

#[test]
fn crawl_of_a_page_with_links() {
    let mut state = Crawl::new("http://a/".to_string());
    let html = "<p>Root</p><a href=\"/one\">1</a><a href=\"http://b/\">b</a><a href=\"/two\">2</a><a href=\"/three\">3</a>";
    let action = crawl(&mut state, CrawlEvent::Root { body: Some(html.to_string()) });
    assert_eq!(action, CrawlAction::ReadTexts { url: "http://a/one".to_string() });
    assert_eq!(
        state.links,
        vec!["http://a/one".to_string(), "http://a/two".to_string(), "http://a/three".to_string()]
    );
    assert_eq!(state.found.len(), 1);
    assert_eq!(state.found[0].url, "http://a/");

    let cached = vec![words(&["cached"])];
    let action = crawl(&mut state, CrawlEvent::CachedTexts { texts: Some(cached.clone()) });
    assert_eq!(action, CrawlAction::ReadTexts { url: "http://a/two".to_string() });

    let action = crawl(&mut state, CrawlEvent::CachedTexts { texts: None });
    assert_eq!(action, CrawlAction::Pause { millis: 64 });
    assert_eq!(state.stage, CrawlStage::Pausing { link: 1 });
    let action = crawl(&mut state, CrawlEvent::Paused);
    assert_eq!(action, CrawlAction::Fetch { url: "http://a/two".to_string() });
    let action = crawl(&mut state, CrawlEvent::Page { body: Some("<p>Two</p>".to_string()) });
    assert_eq!(action, CrawlAction::ReadTexts { url: "http://a/three".to_string() });

    crawl(&mut state, CrawlEvent::CachedTexts { texts: None });
    crawl(&mut state, CrawlEvent::Paused);
    let action = crawl(&mut state, CrawlEvent::Page { body: None });
    assert_eq!(action, CrawlAction::Finish);
    assert_eq!(state.stage, CrawlStage::Finished);
    assert_eq!(
        state.found,
        vec![
            Found {
                url: "http://a/".to_string(),
                texts: Some(vec![
                    words(&["root"]),
                    words(&["1"]),
                    words(&["b"]),
                    words(&["2"]),
                    words(&["3"])
                ])
            },
            Found { url: "http://a/one".to_string(), texts: Some(cached) },
            Found { url: "http://a/two".to_string(), texts: Some(vec![words(&["two"])]) },
            Found { url: "http://a/three".to_string(), texts: None },
        ]
    );
}

#[test]
fn crawl_ends_on_what_does_not_fit() {
    let mut state = Crawl::new("http://a/".to_string());
    assert_eq!(crawl(&mut state, CrawlEvent::Paused), CrawlAction::Finish);
    assert_eq!(state.stage, CrawlStage::Finished);
    let mut state = Crawl::new("http://a/".to_string());
    state.stage = CrawlStage::Pausing { link: 7 };
    assert_eq!(crawl(&mut state, CrawlEvent::Paused), CrawlAction::Finish);
    assert_eq!(state.stage, CrawlStage::Finished);
}

#[test]
fn file_names_of_urls() {
    assert_eq!(url_to_filename("https://example.org/"), "https_example.org.json");
    assert_eq!(url_to_filename("https://example.org/a/b/"), "https_example.org_a_b.json");
    assert_eq!(url_to_filename("http://a/x_y__"), "http_a_x_y.json");
    assert_eq!(url_to_filename(""), ".json");
    assert_eq!(url_to_filename("///"), ".json");
    assert_eq!(url_to_filename("a:///b"), "a__b.json");
    assert_eq!(url_to_filename("a:/b://"), "a:_b.json");
}

#[test]
fn file_names_agree_with_the_string_functions() {
    for url in [
        "",
        "/",
        "_",
        "://",
        ":///",
        "::///:/",
        "http://a/",
        "http://a/b/c.html?x=1://y",
        "a://b://c",
        "é://ü/",
        "x:/",
        "x:",
        "___",
        "a_/_",
    ] {
        let expected =
            format!("{}.json", url.replace("://", "_").replace("/", "_").trim_end_matches("_"));
        assert_eq!(url_to_filename(url), expected, "{:?}", url);
    }
}

fn page(url: &str, body: &str) -> Page {
    Page { url: url.to_string(), body: body.to_string() }
}

#[test]
fn first_page_with_the_url_is_served() {
    let pages = vec![page("http://a/", "one"), page("http://a/x", "two"), page("http://a/", "three")];
    assert_eq!(serve(&pages, "http://a/"), Some("one".to_string()));
    assert_eq!(serve(&pages, "http://a/x"), Some("two".to_string()));
    assert_eq!(serve(&pages, "http://a/y"), None);
    assert_eq!(serve(&Vec::new(), "http://a/"), None);
}

#[test]
fn crawl_of_served_pages() {
    let pages = vec![
        page("http://a/", "<p>Root</p><a href=\"/one\">1</a><a href=\"http://b/\">b</a><a href=\"/gone\">2</a>"),
        page("http://a/one", "<p>First page</p>"),
        page("http://b/", "<p>elsewhere</p>"),
    ];
    assert_eq!(
        crawl_served("http://a/", &pages),
        vec![
            Found {
                url: "http://a/".to_string(),
                texts: Some(vec![words(&["root"]), words(&["1"]), words(&["b"]), words(&["2"])])
            },
            Found { url: "http://a/one".to_string(), texts: Some(vec![words(&["first", "page"])]) },
            Found { url: "http://a/gone".to_string(), texts: None },
        ]
    );
    assert_eq!(crawl_served("http://a/missing", &pages), Vec::new());
    assert_eq!(
        crawl_served("http://a/one", &pages),
        vec![Found { url: "http://a/one".to_string(), texts: Some(vec![words(&["first", "page"])]) }]
    );
}

#[test]
fn a_page_that_is_too_long_is_not_read() {
    let body = " ".repeat(folklore::document::MAX_BODY_BYTES + 1);
    assert_eq!(body_texts(Some(body.clone())), None);
    assert_eq!(parse_document(body.clone(), "http://a/", "http://a/", 0), None);
    let mut state = Crawl::new("http://a/".to_string());
    assert_eq!(crawl(&mut state, CrawlEvent::Root { body: Some(body) }), CrawlAction::Finish);
    assert_eq!(state.stage, CrawlStage::Finished);
    assert_eq!(state.found, Vec::new());
}
