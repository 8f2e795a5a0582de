use folklore::database::{decode_texts, encode_texts, Cache, CacheRow};

fn words(items: &[&str]) -> Vec<String> {
    items.iter().map(|s| s.to_string()).collect()
}

#[test]
fn texts_survive_the_encoding() {
    let texts = vec![words(&["hello", "world"]), Vec::new(), words(&["été", ""])];
    let bytes = encode_texts(&texts).unwrap();
    assert_ne!(bytes, Vec::<u8>::new());
    assert_eq!(
        decode_texts(&bytes),
        Some(vec![Vec::new(), words(&["hello", "world"]), words(&["été", ""])])
    );
    let none: Vec<Vec<String>> = Vec::new();
    assert_eq!(decode_texts(&encode_texts(&none).unwrap()), Some(none));
}

#[test]
fn encoding_is_the_same_every_time() {
    let texts = vec![words(&["a", "b"]), words(&["c"])];
    assert_eq!(encode_texts(&texts), encode_texts(&texts.clone()));
    assert_eq!(
        encode_texts(&vec![words(&["ab"])]).unwrap(),
        vec![1, 0, 0, 0, 0, 0, 0, 0, 1, 0, 0, 0, 0, 0, 0, 0, 2, 0, 0, 0, 0, 0, 0, 0, 97, 98]
    );
    assert_eq!(encode_texts(&texts), encode_texts(&vec![words(&["c"]), words(&["a", "b"])]));
    assert_eq!(
        encode_texts(&texts),
        encode_texts(&vec![words(&["c"]), words(&["a", "b"]), words(&["c"])])
    );
    assert_ne!(encode_texts(&texts), encode_texts(&vec![words(&["c"]), words(&["a"])]));
}

#[test]
fn bytes_that_stand_for_nothing() {
    assert_eq!(decode_texts(&vec![1, 2, 3]), None);
    assert_eq!(decode_texts(&Vec::new()), None);
    assert_eq!(
        decode_texts(&vec![1, 0, 0, 0, 0, 0, 0, 0, 1, 0, 0, 0, 0, 0, 0, 0, 1, 0, 0, 0, 0, 0, 0, 0, 255]),
        None
    );
}

#[test]
fn new_cache_is_empty() {
    let cache = Cache::new();
    assert_eq!(cache.rows, Vec::new());
    assert_eq!(cache.read_body("http://a/"), None);
    assert_eq!(cache.read_texts("http://a/"), None);
    assert_eq!(cache.read_document("http://a/"), None);
    assert_eq!(cache.find_row("http://a/"), None);
}

#[test]
fn body_and_texts_are_written_independently() {
    let mut cache = Cache::new();
    let texts = vec![words(&["hello", "world"])];
    cache.save_document("http://a/", "<p>Hello world</p>");
    assert_eq!(cache.read_body("http://a/"), Some("<p>Hello world</p>".to_string()));
    assert_eq!(cache.read_texts("http://a/"), None);
    assert!(cache.save_texts("http://a/", &texts));
    assert_eq!(cache.rows[0].extracted_text, encode_texts(&texts));
    assert_eq!(cache.read_body("http://a/"), Some("<p>Hello world</p>".to_string()));
    assert_eq!(cache.read_texts("http://a/"), Some(texts.clone()));
    cache.save_document("http://a/", "<p>Changed</p>");
    assert_eq!(cache.read_body("http://a/"), Some("<p>Changed</p>".to_string()));
    assert_eq!(cache.read_texts("http://a/"), Some(texts));
    assert_eq!(cache.rows.len(), 1);
}

#[test]
fn rows_do_not_touch_each_other() {
    let mut cache = Cache::new();
    assert!(cache.save_texts("http://a/1", &vec![words(&["one"])]));
    cache.save_document("http://a/2", "two");
    assert!(cache.save_texts("http://a/1", &vec![words(&["uno"])]));
    assert_eq!(cache.read_texts("http://a/1"), Some(vec![words(&["uno"])]));
    assert_eq!(cache.read_body("http://a/1"), None);
    assert_eq!(cache.read_body("http://a/2"), Some("two".to_string()));
    assert_eq!(cache.read_texts("http://a/2"), None);
    assert_eq!(cache.find_row("http://a/1"), Some(0));
    assert_eq!(cache.find_row("http://a/2"), Some(1));
    assert_eq!(cache.rows.len(), 2);
}

#[test]
fn stored_document_is_parsed() {
    let mut cache = Cache::new();
    cache.save_document("http://a/", "<title>T</title><p>Text</p><a href=\"/x\">x</a>");
    let document = cache.read_document("http://a/").unwrap();
    assert_eq!(document.titles, words(&["T"]));
    assert_eq!(document.links, vec![Some("/x".to_string())]);
    assert_eq!(document.texts, words(&["T", "Text", "x"]));
}

#[test]
fn unreadable_texts_count_as_absent() {
    let mut cache = Cache {
        rows: vec![CacheRow {
            document_id: "http://a/".to_string(),
            body: None,
            extracted_text: Some(vec![9, 9, 9]),
        }],
    };
    assert_eq!(cache.read_texts("http://a/"), None);
    assert!(cache.save_texts("http://a/", &vec![words(&["ok"])]));
    assert_eq!(cache.read_texts("http://a/"), Some(vec![words(&["ok"])]));
}
