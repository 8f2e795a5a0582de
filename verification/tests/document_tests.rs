use folklore::document::{
    contains_text, extract_links, extract_texts, find_searchable_text, resp_to_document,
    same_words, texts_of_nodes, MAX_BODY_BYTES,
};

fn words(items: &[&str]) -> Vec<String> {
    items.iter().map(|s| s.to_string()).collect()
}

#[test]
fn text_nodes_become_lowercase_token_sequences() {
    let doc = resp_to_document("<p>Hello world</p><p>world peace</p>".to_string()).unwrap();
    assert_eq!(doc.texts, words(&["Hello world", "world peace"]));
    assert_eq!(
        extract_texts(&doc),
        vec![words(&["hello", "world"]), words(&["world", "peace"])]
    );
}

#[test]
fn blank_nodes_are_skipped_and_texts_deduplicated() {
    let html = "<html><body>\n <p>Same  Text</p>\n <div>same text</div> <p>Other</p>\n</body></html>";
    let doc = resp_to_document(html.to_string()).unwrap();
    assert_eq!(extract_texts(&doc), vec![words(&["same", "text"]), words(&["other"])]);
}

#[test]
fn empty_document_has_no_texts() {
    let doc = resp_to_document(String::new()).unwrap();
    assert_eq!(extract_texts(&doc), Vec::<Vec<String>>::new());
    assert_eq!(doc.links, Vec::<Option<String>>::new());
    assert_eq!(doc.titles, Vec::<String>::new());
}

#[test]
fn script_text_is_not_excluded() {
    let doc = resp_to_document("<script>var X = 1;</script><p>Body</p>".to_string()).unwrap();
    assert_eq!(
        extract_texts(&doc),
        vec![words(&["var", "x", "=", "1;"]), words(&["body"])]
    );
}

#[test]
fn nodes_isolate_their_words() {
    let doc = resp_to_document("<p>great fire</p> <p>fire london</p>".to_string()).unwrap();
    assert_eq!(
        extract_texts(&doc),
        vec![words(&["great", "fire"]), words(&["fire", "london"])]
    );
}

#[test]
fn searchable_text_of_one_node() {
    assert_eq!(find_searchable_text(""), None);
    assert_eq!(find_searchable_text("  \n\t"), None);
    assert_eq!(find_searchable_text("\u{a0}"), None);
    assert_eq!(find_searchable_text("  Hello   World\n"), Some(words(&["hello", "world"])));
    assert_eq!(find_searchable_text("a\u{a0}B"), Some(words(&["a\u{a0}b"])));
    assert_eq!(find_searchable_text("body{ color }"), Some(words(&["body{", "color", "}"])));
}

#[test]
fn texts_of_nodes_keeps_first_occurrences() {
    let nodes = words(&["B a", " ", "c", "b  A", "C", "d"]);
    assert_eq!(
        texts_of_nodes(&nodes),
        vec![words(&["b", "a"]), words(&["c"]), words(&["d"])]
    );
    assert_eq!(texts_of_nodes(&Vec::new()), Vec::<Vec<String>>::new());
}

#[test]
fn word_sequences_compare() {
    assert!(same_words(&words(&["a", "b"]), &words(&["a", "b"])));
    assert!(!same_words(&words(&["a", "b"]), &words(&["a"])));
    assert!(!same_words(&words(&["a", "b"]), &words(&["a", "c"])));
    assert!(same_words(&Vec::new(), &Vec::new()));
    let texts = vec![words(&["a"]), words(&["b", "c"])];
    assert!(contains_text(&texts, &words(&["b", "c"])));
    assert!(!contains_text(&texts, &words(&["c", "b"])));
    assert!(!contains_text(&Vec::new(), &Vec::new()));
}

#[test]
fn anchors_and_titles_are_read() {
    let html = "<html><head><title>First</title></head><body>\
                <a href=\"/x?y#z\">x</a><a name=\"n\">none</a><a href=\"http://b/\">b</a>\
                <a href=\"pic.PNG\">p</a><title>Second</title></body></html>";
    let doc = resp_to_document(html.to_string()).unwrap();
    assert_eq!(
        doc.links,
        vec![
            Some("/x?y#z".to_string()),
            None,
            Some("http://b/".to_string()),
            Some("pic.PNG".to_string())
        ]
    );
    assert_eq!(doc.titles[0], "First");
    assert_eq!(extract_links("http://a/", &doc), vec!["http://a/x".to_string()]);
}

#[test]
fn a_body_that_is_too_long_is_no_document() {
    assert_eq!(MAX_BODY_BYTES, 268_435_456);
    let body = "a".repeat(MAX_BODY_BYTES + 1);
    assert_eq!(resp_to_document(body), None);
}

#[test]
fn nul_bytes_and_character_references_are_read() {
    let html = "<p>a\u{0}b &amp; &nGt; &#0; c</p><textarea>x\u{0}y</textarea>";
    let doc = resp_to_document(html.to_string()).unwrap();
    assert_eq!(
        doc.texts,
        vec!["ab & \u{226b}\u{20d2} \u{fffd} c".to_string(), "x\u{fffd}y".to_string()]
    );
}
