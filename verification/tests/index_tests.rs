use folklore::index::{pack_pair, posting_members, retain_posted, Index};
use folklore::indexing::count_tokens;
use std::collections::HashSet;

fn words(items: &[&str]) -> Vec<String> {
    items.iter().map(|s| s.to_string()).collect()
}

fn sorted(found: Option<Vec<String>>) -> Option<Vec<String>> {
    found.map(|mut v| {
        v.sort();
        v
    })
}

#[test]
fn new_index_knows_nothing() {
    let index = Index::new();
    assert_eq!(index.unigram_match("hello".to_string()), None);
    assert_eq!(index.ngram_match(words(&["hello", "world"])), None);
    assert_eq!(index.word_codes.len(), 0);
    assert_eq!(index.document_codes.len(), 0);
}

#[test]
fn codes_are_dense_and_stable() {
    let mut index = Index::new();
    assert_eq!(index.get_or_generate_word_code("alpha".to_string()), 0);
    assert_eq!(index.get_or_generate_word_code("beta".to_string()), 1);
    assert_eq!(index.get_or_generate_word_code("alpha".to_string()), 0);
    assert_eq!(index.get_or_generate_word_code("gamma".to_string()), 2);
    assert_eq!(index.get_or_generate_document_code("http://a/".to_string()), 0);
    assert_eq!(index.get_or_generate_document_code("http://a/1".to_string()), 1);
    assert_eq!(index.get_or_generate_document_code("http://a/".to_string()), 0);
    assert_eq!(index.word_codes.len(), 3);
    assert_eq!(index.document_codes.len(), 2);
    assert_eq!(index.word_codes.get_by_right(&1), Some(&"beta".to_string()));
}

#[test]
fn index_texts_files_unigrams_and_bigrams() {
    let mut index = Index::new();
    index.index_texts(
        "http://a/".to_string(),
        vec![words(&["hello", "world"]), words(&["world", "peace"])],
    );
    let page = Some(vec!["http://a/".to_string()]);
    assert_eq!(index.unigram_match("hello".to_string()), page);
    assert_eq!(index.unigram_match("peace".to_string()), page);
    assert_eq!(index.unigram_match("xyz".to_string()), None);
    assert_eq!(index.ngram_match(words(&["hello", "world"])), page);
    assert_eq!(index.ngram_match(words(&["world", "peace"])), page);
    assert_eq!(index.ngram_match(words(&["world", "world"])), None);
    assert_eq!(index.ngram_match(words(&["peace", "world"])), None);
    assert_eq!(index.ngram_match(words(&["hello"])), None);
    assert_eq!(index.ngram_match(words(&["hello", "world", "peace"])), None);
}

#[test]
fn bigrams_never_span_two_texts() {
    let mut index = Index::new();
    index.index_texts(
        "http://a/".to_string(),
        vec![words(&["great", "fire"]), words(&["of", "london"])],
    );
    assert_eq!(index.ngram_match(words(&["fire", "of"])), None);
    assert_eq!(
        index.ngram_match(words(&["great", "fire"])),
        Some(vec!["http://a/".to_string()])
    );
}

#[test]
fn postings_collect_every_document() {
    let mut index = Index::new();
    index.index_texts("http://a/1".to_string(), vec![words(&["apple", "pie"])]);
    index.index_texts("http://a/2".to_string(), vec![words(&["apple", "tart"])]);
    assert_eq!(
        sorted(index.unigram_match("apple".to_string())),
        Some(vec!["http://a/1".to_string(), "http://a/2".to_string()])
    );
    assert_eq!(
        index.unigram_match("pie".to_string()),
        Some(vec!["http://a/1".to_string()])
    );
    assert_eq!(index.unigrams.len(), 3);
    assert_eq!(index.ngrams.len(), 2);
}

#[test]
fn exact_ngram_match_by_length() {
    let mut index = Index::new();
    index.index_texts(
        "http://a/".to_string(),
        vec![words(&["great", "fire"]), words(&["fire", "london"])],
    );
    index.index_texts("http://a/2".to_string(), vec![words(&["great", "fire"])]);
    assert_eq!(index.exact_ngram_match(Vec::new()), None);
    assert_eq!(
        sorted(index.exact_ngram_match(words(&["fire"]))),
        Some(vec!["http://a/".to_string(), "http://a/2".to_string()])
    );
    assert_eq!(
        index.exact_ngram_match(words(&["fire", "london"])),
        Some(vec!["http://a/".to_string()])
    );
    assert_eq!(
        index.exact_ngram_match(words(&["great", "fire", "london"])),
        Some(vec!["http://a/".to_string()])
    );
    assert_eq!(
        index.exact_ngram_match(words(&["great", "fire", "paris"])),
        Some(Vec::new())
    );
    assert_eq!(index.exact_ngram_match(words(&["london", "fire"])), None);
}

#[test]
fn insert_unigram_and_ngram_file_one_posting() {
    let mut index = Index::new();
    let d = index.get_or_generate_document_code("http://a/".to_string());
    index.insert_unigram("solo".to_string(), d);
    index.insert_ngram(words(&["left", "right"]), d);
    assert_eq!(
        index.unigram_match("solo".to_string()),
        Some(vec!["http://a/".to_string()])
    );
    assert_eq!(index.unigram_match("left".to_string()), None);
    assert_eq!(
        index.ngram_match(words(&["left", "right"])),
        Some(vec!["http://a/".to_string()])
    );
    assert_eq!(index.ngram_match(words(&["right", "left"])), None);
    assert_eq!(index.word_codes.len(), 3);
}

#[test]
fn pass_page_results_gives_the_urls_of_codes() {
    let mut index = Index::new();
    index.get_or_generate_document_code("http://a/".to_string());
    index.get_or_generate_document_code("http://a/1".to_string());
    let mut set = std::collections::HashSet::new();
    set.insert(1u32);
    assert_eq!(
        index.pass_page_results(Some(&set)),
        Some(vec!["http://a/1".to_string()])
    );
    assert_eq!(index.pass_page_results(None), None);
}

#[test]
fn pair_keys_hold_both_codes() {
    assert_eq!(pack_pair(0, 0), 0);
    assert_eq!(pack_pair(1, 2), 4_294_967_298);
    assert_eq!(pack_pair(2, 1), 8_589_934_593);
    assert_eq!(pack_pair(u32::MAX, u32::MAX), u64::MAX);
}

#[test]
fn posting_sets_as_lists() {
    let set: HashSet<u32> = [3u32, 1, 2].into_iter().collect();
    let mut members = posting_members(&set);
    members.sort();
    assert_eq!(members, vec![1, 2, 3]);
    assert_eq!(posting_members(&HashSet::new()), Vec::<u32>::new());
    assert_eq!(retain_posted(vec![5, 1, 9, 3], Some(&set)), vec![1, 3]);
    assert_eq!(retain_posted(vec![5, 1, 9, 3], None), Vec::<u32>::new());
    assert_eq!(retain_posted(Vec::new(), Some(&set)), Vec::<u32>::new());
}

#[test]
fn codes_of_phrases_and_conjunctions() {
    let mut index = Index::new();
    index.index_texts("http://a/0".to_string(), vec![words(&["a", "b", "c"])]);
    index.index_texts("http://a/1".to_string(), vec![words(&["a", "b"]), words(&["c"])]);
    index.index_texts("http://a/2".to_string(), vec![words(&["b", "c"])]);
    let mut both = index.conjunction_codes(&words(&["a", "c"]));
    both.sort();
    assert_eq!(both, vec![0, 1]);
    assert_eq!(index.conjunction_codes(&words(&["a", "zzz"])), Vec::<u32>::new());
    assert_eq!(index.phrase_codes(&words(&["a", "b", "c"])), vec![0]);
    let mut pair = index.phrase_codes(&words(&["b", "c"]));
    pair.sort();
    assert_eq!(pair, vec![0, 2]);
    assert_eq!(index.narrow_by_words(vec![0, 1, 2], &words(&["a", "b"]), 1), vec![0, 1, 2]);
    assert_eq!(index.narrow_by_words(vec![0, 1, 2], &words(&["a", "b"]), 0), vec![0, 1]);
    assert_eq!(index.urls_of(&vec![2, 0]), words(&["http://a/2", "http://a/0"]));
    assert_eq!(index.unigram_posting("zzz"), None);
    assert_eq!(index.unigram_posting("a").map(|s| s.len()), Some(2));
    assert_eq!(index.bigram_posting("b", "c").map(|s| s.len()), Some(2));
    assert_eq!(index.bigram_posting("c", "b"), None);
}

#[test]
fn word_codes_follow_the_order_of_the_words() {
    let mut index = Index::new();
    index.index_texts(
        "http://a/".to_string(),
        vec![words(&["one", "two", "one"]), words(&["three", "two"])],
    );
    assert_eq!(index.word_codes.get_by_left("one"), Some(&0));
    assert_eq!(index.word_codes.get_by_left("two"), Some(&1));
    assert_eq!(index.word_codes.get_by_left("three"), Some(&2));
    assert_eq!(index.word_codes.len(), 3);
    index.index_texts("http://a/".to_string(), vec![words(&["two", "four"])]);
    assert_eq!(index.word_codes.get_by_left("four"), Some(&3));
    assert_eq!(index.word_codes.get_by_left("one"), Some(&0));
    assert_eq!(index.document_codes.len(), 1);
}

#[test]
fn filing_twice_changes_nothing() {
    let mut index = Index::new();
    let texts = vec![words(&["great", "fire"]), words(&["fire", "london"])];
    index.index_texts("http://a/".to_string(), texts.clone());
    let unigrams = index.unigrams.clone();
    let ngrams = index.ngrams.clone();
    index.index_texts("http://a/".to_string(), texts);
    assert_eq!(index.unigrams, unigrams);
    assert_eq!(index.ngrams, ngrams);
    assert_eq!(index.word_codes.len(), 3);
    assert_eq!(index.document_codes.len(), 1);
}

#[test]
fn capacity_of_the_index() {
    let index = Index::new();
    let texts = vec![words(&["a", "b"]), Vec::new(), words(&["c"])];
    assert!(index.can_index("http://a/", &texts));
    assert_eq!(count_tokens(&texts, 3), Some(3));
    assert_eq!(count_tokens(&texts, 2), None);
    assert_eq!(count_tokens(&Vec::new(), 0), Some(0));
}
