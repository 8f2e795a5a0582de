use folklore::config::{default_recursively_crawl, Config, Website};
use folklore::crawler::{decide, Crawler, Decision, Entry, Schedule, Verdict};
use folklore::index::Index;
use folklore::net::{
    crawl, crawl_served, fetch, start_fetch, Crawl, CrawlAction, CrawlEvent, FetchAction,
    FetchEvent, Found, Page,
};
use folklore::query::query;
use std::collections::HashMap;

fn words(items: &[&str]) -> Vec<String> {
    items.iter().map(|s| s.to_string()).collect()
}

fn site(url: &str, recursively_crawl: bool) -> Website {
    Website { url: url.to_string(), recursively_crawl }
}

fn sorted(found: Option<Vec<String>>) -> Option<Vec<String>> {
    found.map(|mut v| {
        v.sort();
        v
    })
}

fn urls(items: &[&str]) -> Option<Vec<String>> {
    Some(words(items))
}

/// A web that lives in memory, with a cache in front of it.
struct World {
    pages: HashMap<String, String>,
    bodies: HashMap<String, String>,
    texts: HashMap<String, Vec<Vec<String>>>,
    requests: Vec<String>,
    paused: u64,
}

impl World {
    fn new(pages: &[(&str, &str)]) -> World {
        World {
            pages: pages.iter().map(|(u, b)| (u.to_string(), b.to_string())).collect(),
            bodies: HashMap::new(),
            texts: HashMap::new(),
            requests: Vec::new(),
            paused: 0,
        }
    }

    fn fetch(&mut self, url: &str) -> Option<String> {
        let event = match self.bodies.get(url) {
            Some(body) => FetchEvent::CacheHit { body: body.clone() },
            None => FetchEvent::CacheMiss,
        };
        let (mut state, mut action) = fetch(start_fetch(), event);
        loop {
            let event = match action {
                FetchAction::Send => {
                    self.requests.push(url.to_string());
                    match self.pages.get(url) {
                        Some(body) => FetchEvent::Response { body: body.clone() },
                        None => FetchEvent::TransportError,
                    }
                }
                FetchAction::Pause { .. } => FetchEvent::Paused,
                FetchAction::StoreAndDeliver { body } => {
                    self.bodies.insert(url.to_string(), body.clone());
                    return Some(body);
                }
                FetchAction::Deliver { body } => return Some(body),
                FetchAction::GiveUp => return None,
            };
            let next = fetch(state, event);
            state = next.0;
            action = next.1;
        }
    }

    fn crawl_one(&mut self, root: &str) -> Vec<Found> {
        let mut state = Crawl::new(root.to_string());
        let body = self.fetch(root);
        let mut action = crawl(&mut state, CrawlEvent::Root { body });
        loop {
            let event = match action {
                CrawlAction::ReadTexts { url } => {
                    CrawlEvent::CachedTexts { texts: self.texts.get(&url).cloned() }
                }
                CrawlAction::Pause { millis } => {
                    self.paused += millis;
                    CrawlEvent::Paused
                }
                CrawlAction::Fetch { url } => CrawlEvent::Page { body: self.fetch(&url) },
                CrawlAction::Finish => return state.found,
            };
            action = crawl(&mut state, event);
        }
    }

    fn run(&mut self, websites: &Vec<Website>) -> Index {
        let mut crawler = Crawler::seed(websites);
        let mut index = Index::new();
        loop {
            let entry = match crawler.next_task() {
                Schedule::Run(entry) => entry,
                Schedule::Wait => panic!("nothing runs beside this loop"),
                Schedule::Done => return index,
            };
            for found in self.crawl_one(&entry.url) {
                let verdict = crawler.discovered(&mut index, &entry, found);
                if let (Some(url), Some(texts)) = (verdict.url, verdict.store) {
                    self.texts.insert(url, texts);
                }
            }
            crawler.task_finished();
        }
    }
}

#[test]
fn default_is_to_crawl_recursively() {
    assert!(default_recursively_crawl());
    let config = Config { websites: vec![site("http://a/", default_recursively_crawl())] };
    assert!(config.websites[0].recursively_crawl);
}

#[test]
fn seeds_wait_in_their_own_scopes() {
    let mut crawler = Crawler::seed(&vec![site("http://a/", true), site("http://b/", false)]);
    assert_eq!(crawler.seeds, words(&["http://a/", "http://b/"]));
    assert_eq!(crawler.visited, Vec::new());
    assert_eq!(crawler.in_flight, 0);
    assert_eq!(
        crawler.next_task(),
        Schedule::Run(Entry { url: "http://b/".to_string(), recursive: false, scope: 1 })
    );
    assert_eq!(crawler.in_flight, 1);
    assert_eq!(
        crawler.next_task(),
        Schedule::Run(Entry { url: "http://a/".to_string(), recursive: true, scope: 0 })
    );
    assert_eq!(crawler.next_task(), Schedule::Wait);
    crawler.task_finished();
    assert_eq!(crawler.next_task(), Schedule::Wait);
    crawler.task_finished();
    assert_eq!(crawler.next_task(), Schedule::Done);
    crawler.task_finished();
    assert_eq!(crawler.in_flight, 0);
    assert_eq!(crawler.next_task(), Schedule::Done);
}

#[test]
fn discovered_records_the_canonical_url_once() {
    let mut crawler = Crawler::seed(&vec![site("http://a/", true)]);
    let mut index = Index::new();
    let entry = match crawler.next_task() {
        Schedule::Run(entry) => entry,
        other => panic!("{:?}", other),
    };
    let texts = vec![words(&["hello", "world"])];
    let verdict = crawler.discovered(
        &mut index,
        &entry,
        Found { url: "http://a/page?x=1#top".to_string(), texts: Some(texts.clone()) },
    );
    assert_eq!(
        verdict,
        Verdict {
            url: Some("http://a/page".to_string()),
            fresh: true,
            store: Some(texts.clone()),
            indexed: true,
            pushed: true,
        }
    );
    assert!(crawler.has_seen(0, "http://a/page"));
    assert!(!crawler.has_seen(0, "http://a/page?x=1#top"));
    assert!(!crawler.has_seen(1, "http://a/page"));
    assert_eq!(index.document_codes.get_by_left("http://a/page"), Some(&0));
    assert_eq!(index.document_codes.len(), 1);
    assert_eq!(
        crawler.stack,
        vec![Entry { url: "http://a/page".to_string(), recursive: true, scope: 0 }]
    );

    let again = crawler.discovered(
        &mut index,
        &entry,
        Found { url: "http://a/page#other".to_string(), texts: Some(texts) },
    );
    assert_eq!(
        again,
        Verdict {
            url: Some("http://a/page".to_string()),
            fresh: false,
            store: None,
            indexed: false,
            pushed: false,
        }
    );
    assert_eq!(crawler.stack.len(), 1);
    assert_eq!(crawler.visited.len(), 1);
}

#[test]
fn discovered_keeps_other_origins_out_of_the_index() {
    let mut crawler = Crawler::seed(&vec![site("http://a/", true)]);
    let mut index = Index::new();
    let entry = Entry { url: "http://a/".to_string(), recursive: true, scope: 0 };
    let verdict = crawler.discovered(
        &mut index,
        &entry,
        Found { url: "http://b/page".to_string(), texts: Some(vec![words(&["x"])]) },
    );
    assert_eq!(
        verdict,
        Verdict {
            url: Some("http://b/page".to_string()),
            fresh: true,
            store: Some(vec![words(&["x"])]),
            indexed: false,
            pushed: false,
        }
    );
    assert_eq!(index.document_codes.len(), 0);
    assert_eq!(crawler.stack.len(), 1);
}

#[test]
fn discovered_without_texts_only_records() {
    let mut crawler = Crawler::seed(&vec![site("http://a/", true)]);
    let mut index = Index::new();
    let entry = Entry { url: "http://a/".to_string(), recursive: true, scope: 0 };
    let verdict = crawler.discovered(
        &mut index,
        &entry,
        Found { url: "http://a/gone".to_string(), texts: None },
    );
    assert_eq!(
        verdict,
        Verdict {
            url: Some("http://a/gone".to_string()),
            fresh: true,
            store: None,
            indexed: false,
            pushed: false,
        }
    );
    assert!(crawler.has_seen(0, "http://a/gone"));
    assert_eq!(index.document_codes.len(), 0);
}

#[test]
fn discovered_does_not_push_for_a_flat_crawl() {
    let mut crawler = Crawler::seed(&vec![site("http://a/", false)]);
    let mut index = Index::new();
    let entry = Entry { url: "http://a/".to_string(), recursive: false, scope: 0 };
    let verdict = crawler.discovered(
        &mut index,
        &entry,
        Found { url: "http://a/x".to_string(), texts: Some(vec![words(&["x"])]) },
    );
    assert!(verdict.indexed);
    assert!(!verdict.pushed);
    assert_eq!(crawler.stack.len(), 1);
}

#[test]
fn discovered_ignores_what_lies_outside_the_scope() {
    let mut crawler = Crawler::seed(&vec![site("http://a/", true)]);
    let mut index = Index::new();
    let nothing = Verdict { url: None, fresh: false, store: None, indexed: false, pushed: false };
    let stranger = Entry { url: "http://b/".to_string(), recursive: true, scope: 0 };
    let found = || Found { url: "http://b/x".to_string(), texts: Some(vec![words(&["x"])]) };
    assert_eq!(crawler.discovered(&mut index, &stranger, found()), nothing);
    let no_scope = Entry { url: "http://a/".to_string(), recursive: true, scope: 5 };
    assert_eq!(crawler.discovered(&mut index, &no_scope, found()), nothing);
    let entry = Entry { url: "http://a/".to_string(), recursive: true, scope: 0 };
    let junk = Found { url: "no url".to_string(), texts: Some(vec![words(&["x"])]) };
    assert_eq!(crawler.discovered(&mut index, &entry, junk), nothing);
    assert_eq!(crawler.visited.len(), 0);
    assert_eq!(index.document_codes.len(), 0);
}

#[test]
fn crawl_single_page() {
    let mut world = World::new(&[("http://a/", "<p>Hello world</p><p>world peace</p>")]);
    let index = world.run(&vec![site("http://a/", true)]);
    assert_eq!(query("hello".to_string(), &index), urls(&["http://a/"]));
    assert_eq!(query("peace".to_string(), &index), urls(&["http://a/"]));
    assert_eq!(query("xyz".to_string(), &index), urls(&[]));
    assert_eq!(query("\"hello world\"".to_string(), &index), urls(&["http://a/"]));
    assert_eq!(query("\"world world\"".to_string(), &index), urls(&[]));
}

#[test]
fn crawl_follows_links_and_answers_conjunctions() {
    let mut world = World::new(&[
        ("http://a/", "<a href=\"/1\">one</a> <a href=\"/2\">two</a>"),
        ("http://a/1", "<p>Apple pie</p>"),
        ("http://a/2", "<p>apple tart</p>"),
    ]);
    let index = world.run(&vec![site("http://a/", true)]);
    assert_eq!(
        sorted(query("apple".to_string(), &index)),
        urls(&["http://a/1", "http://a/2"])
    );
    assert_eq!(query("apple pie".to_string(), &index), urls(&["http://a/1"]));
    assert_eq!(query("apple banana".to_string(), &index), urls(&[]));
}

#[test]
fn crawl_stays_on_the_origin_of_the_seed() {
    let mut world = World::new(&[
        ("http://a/", "<p>home</p><a href=\"http://b/\">b</a><a href=\"/in\">in</a>"),
        ("http://a/in", "<p>inside</p><a href=\"http://b/deep\">b</a>"),
        ("http://b/", "<p>elsewhere</p>"),
        ("http://b/deep", "<p>elsewhere</p>"),
    ]);
    let index = world.run(&vec![site("http://a/", true)]);
    let mut documents: Vec<String> =
        index.document_codes.left_values().map(|s| s.to_string()).collect();
    documents.sort();
    assert_eq!(documents, words(&["http://a/", "http://a/in"]));
    assert_eq!(query("elsewhere".to_string(), &index), urls(&[]));
    assert!(world.requests.iter().all(|u| u.starts_with("http://a/")));
}

#[test]
fn crawl_ends_on_a_cycle_of_links() {
    let mut world = World::new(&[
        ("http://a/", "<p>zero</p><a href=\"/1\">1</a>"),
        ("http://a/1", "<p>one</p><a href=\"/2\">2</a><a href=\"/\">0</a>"),
        ("http://a/2", "<p>two</p><a href=\"/1?again\">1</a><a href=\"/#top\">0</a>"),
    ]);
    let index = world.run(&vec![site("http://a/", true)]);
    assert_eq!(index.document_codes.len(), 3);
    assert_eq!(query("two".to_string(), &index), urls(&["http://a/2"]));
}

#[test]
fn flat_crawl_reads_the_seed_and_its_links_only() {
    let mut world = World::new(&[
        ("http://a/", "<p>zero</p><a href=\"/1\">1</a>"),
        ("http://a/1", "<p>one</p><a href=\"/2\">2</a>"),
        ("http://a/2", "<p>two</p>"),
    ]);
    let index = world.run(&vec![site("http://a/", false)]);
    assert_eq!(query("one".to_string(), &index), urls(&["http://a/1"]));
    assert_eq!(query("two".to_string(), &index), urls(&[]));
}

#[test]
fn second_crawl_is_served_by_the_cache() {
    let pages = [
        ("http://a/", "<p>Great fire</p><p>fire London</p><a href=\"/1\">1</a><a href=\"/2\">2</a>"),
        ("http://a/1", "<p>apple pie</p><a href=\"/2\">2</a>"),
        ("http://a/2", "<p>apple tart</p><a href=\"/\">home</a>"),
    ];
    let mut world = World::new(&pages);
    let seeds = vec![site("http://a/", true)];
    let first = world.run(&seeds);
    assert!(!world.requests.is_empty());
    let requests_of_first = world.requests.len();
    let second = world.run(&seeds);
    assert_eq!(world.requests.len(), requests_of_first);
    for line in [
        "apple", "pie", "tart", "apple pie", "fire", "\"great fire\"", "\"great fire london\"",
        "london great", "home", "1", "nothing",
    ] {
        assert_eq!(
            sorted(query(line.to_string(), &first)),
            sorted(query(line.to_string(), &second)),
            "{}",
            line
        );
    }
    assert_eq!(first.document_codes.len(), second.document_codes.len());
    assert_eq!(first.word_codes.len(), second.word_codes.len());
    assert_eq!(first.unigrams.len(), second.unigrams.len());
    assert_eq!(first.ngrams.len(), second.ngrams.len());
}

#[test]
fn first_crawl_pauses_before_each_request_for_a_link() {
    let mut world = World::new(&[
        ("http://a/", "<a href=\"/1\">1</a><a href=\"/2\">2</a>"),
        ("http://a/1", "<p>one</p>"),
        ("http://a/2", "<p>two</p>"),
    ]);
    let found = world.crawl_one("http://a/");
    assert_eq!(found.len(), 3);
    assert_eq!(world.paused, 2 * 64);
    assert_eq!(world.requests, words(&["http://a/", "http://a/1", "http://a/2"]));
}

#[test]
fn decision_on_a_found_url() {
    let nothing = Decision { record: false, store: false, index: false, push: false };
    for bits in 0..64u32 {
        let flag = |n: u32| bits & (1 << n) != 0;
        let (known, seen, has_texts, same_origin, recursive, capacity) =
            (flag(0), flag(1), flag(2), flag(3), flag(4), flag(5));
        let d = decide(known, seen, has_texts, same_origin, recursive, capacity);
        if !known || seen {
            assert_eq!(d, nothing);
            continue;
        }
        assert!(d.record);
        assert_eq!(d.store, has_texts);
        assert_eq!(d.index, has_texts && same_origin && capacity);
        assert_eq!(d.push, has_texts && same_origin && recursive);
    }
    assert_eq!(
        decide(true, false, true, true, true, true),
        Decision { record: true, store: true, index: true, push: true }
    );
    assert_eq!(
        decide(true, false, true, false, true, true),
        Decision { record: true, store: true, index: false, push: false }
    );
    assert_eq!(
        decide(true, false, false, true, true, true),
        Decision { record: true, store: false, index: false, push: false }
    );
}

#[test]
fn crawl_over_served_pages_keeps_to_the_seed() {
    let pages = vec![
        Page {
            url: "http://a/".to_string(),
            body: "<p>Home</p><a href=\"/in?x#y\">in</a><a href=\"http://b/\">b</a>".to_string(),
        },
        Page {
            url: "http://a/in".to_string(),
            body: "<p>Inside</p><a href=\"/\">home</a><a href=\"http://b/deep\">b</a>".to_string(),
        },
        Page { url: "http://b/".to_string(), body: "<p>elsewhere</p>".to_string() },
    ];
    let mut crawler = Crawler::seed(&vec![site("http://a/", true)]);
    let mut index = Index::new();
    loop {
        let entry = match crawler.next_task() {
            Schedule::Run(entry) => entry,
            Schedule::Wait => panic!("nothing runs beside this loop"),
            Schedule::Done => break,
        };
        for found in crawl_served(&entry.url, &pages) {
            crawler.discovered(&mut index, &entry, found);
        }
        crawler.task_finished();
    }
    let mut documents: Vec<String> =
        index.document_codes.left_values().map(|s| s.to_string()).collect();
    documents.sort();
    assert_eq!(documents, words(&["http://a/", "http://a/in"]));
    assert_eq!(query("inside".to_string(), &index), urls(&["http://a/in"]));
    assert_eq!(
        sorted(query("Home".to_string(), &index)),
        urls(&["http://a/", "http://a/in"])
    );
    assert_eq!(query("elsewhere".to_string(), &index), urls(&[]));
}
