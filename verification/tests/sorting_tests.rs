use folklore::sorting::{
    canonical_texts, insert_sorted, same_word, text_chars, text_comes_first, text_strings,
    word_comes_first,
};

fn words(items: &[&str]) -> Vec<String> {
    items.iter().map(|s| s.to_string()).collect()
}

fn chars(s: &str) -> Vec<char> {
    s.chars().collect()
}

fn text(items: &[&str]) -> Vec<Vec<char>> {
    items.iter().map(|s| chars(s)).collect()
}

#[test]
fn words_in_the_order_of_their_characters() {
    let samples = ["", "a", "ab", "b", "B", "aa", "é", "z", "zz", "~", "日本", "a\u{10000}"];
    for a in samples {
        for b in samples {
            assert_eq!(word_comes_first(&chars(a), &chars(b)), a <= b, "{:?} {:?}", a, b);
            assert_eq!(same_word(&chars(a), &chars(b)), a == b, "{:?} {:?}", a, b);
        }
    }
}

#[test]
fn texts_in_the_order_of_their_words() {
    let samples: Vec<Vec<String>> = vec![
        words(&[]),
        words(&[""]),
        words(&["a"]),
        words(&["a", ""]),
        words(&["a", "b"]),
        words(&["ab"]),
        words(&["b"]),
        words(&["a", "a", "a"]),
    ];
    for a in &samples {
        for b in &samples {
            assert_eq!(
                text_comes_first(&text_chars(a), &text_chars(b)),
                a <= b,
                "{:?} {:?}",
                a,
                b
            );
        }
    }
}

#[test]
fn characters_and_strings_convert() {
    let t = words(&["hé", "", "x"]);
    assert_eq!(text_chars(&t), text(&["hé", "", "x"]));
    assert_eq!(text_strings(&text_chars(&t)), t);
}

#[test]
fn insertion_keeps_the_list_sorted_and_free_of_doubles() {
    let mut list: Vec<Vec<Vec<char>>> = Vec::new();
    for item in [&["m"][..], &["a", "b"], &["z"], &["a"], &["m"], &[], &["a", "b"]] {
        insert_sorted(&mut list, text(item));
    }
    assert_eq!(list, vec![text(&[]), text(&["a"]), text(&["a", "b"]), text(&["m"]), text(&["z"])]);
}

#[test]
fn canonical_order_of_a_set_of_texts() {
    let texts = vec![words(&["world", "peace"]), words(&["hello"]), words(&["world", "peace"])];
    assert_eq!(
        canonical_texts(&texts),
        vec![words(&["hello"]), words(&["world", "peace"])]
    );
    let mut expected = texts.clone();
    expected.sort();
    expected.dedup();
    assert_eq!(canonical_texts(&texts), expected);
    assert_eq!(canonical_texts(&Vec::new()), Vec::<Vec<String>>::new());
    let shuffled = vec![words(&["hello"]), words(&["world", "peace"])];
    assert_eq!(canonical_texts(&shuffled), canonical_texts(&texts));
}
