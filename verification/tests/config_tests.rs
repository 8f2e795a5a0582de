use folklore::config::{check_config, Config, ConfigFault, Website};

fn site(url: &str) -> Website {
    Website { url: url.to_string(), recursively_crawl: true }
}

#[test]
fn configuration_with_absolute_urls_is_accepted() {
    let config = Config { websites: vec![site("https://example.org/"), site("http://a/b?c#d")] };
    assert_eq!(check_config(&config), Ok(()));
    assert_eq!(check_config(&Config { websites: Vec::new() }), Ok(()));
}

#[test]
fn first_malformed_url_is_named() {
    let config = Config {
        websites: vec![site("https://example.org/"), site("/relative"), site("http://[bad")],
    };
    assert_eq!(check_config(&config), Err(ConfigFault::MalformedUrl { website: 1 }));
    let config = Config { websites: vec![site("")] };
    assert_eq!(check_config(&config), Err(ConfigFault::MalformedUrl { website: 0 }));
}
