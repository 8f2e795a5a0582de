//! The inverted index: which documents hold which words, and which pairs of
//! adjacent words.
//!
//! Words and document URLs are interned: each receives a dense integer code
//! on first sight, and the postings speak of codes only. Queries turn
//! words into codes, work on codes, and turn the matching document codes
//! back into URLs at the end.

use crate::codes::{
    code_in_use, code_pairs, dense, lemma_dense_extend, table_code_of, table_insert, table_len,
    table_new, table_string_of, lemma_with_two_strings, with_string, with_strings,
};
use bimap::BiMap;
use std::collections::HashMap;
use std::collections::HashSet;
use vstd::prelude::*;
use vstd::std_specs::iter::IteratorSpec;

verus! {

broadcast use vstd::std_specs::hash::group_hash_axioms;

/// The key under which the postings of the word pair `(first, second)` are
/// filed: the first code in the upper half, the second in the lower.
pub open spec fn pair_key(first: u32, second: u32) -> u64 {
    (first as u64 * 0x1_0000_0000 + second as u64) as u64
}

/// Whether `urls` lists exactly the members of `wanted`, each once.
pub open spec fn is_listing(urls: Seq<Seq<char>>, wanted: Set<Seq<char>>) -> bool {
    urls.no_duplicates() && urls.to_set() == wanted
}

/// Whether `postings` files at least one document under each key, and only
/// documents whose code is below `document_count`.
pub open spec fn postings_valid<K>(postings: Map<K, HashSet<u32>>, document_count: nat) -> bool {
    forall|k: K| #[trigger]
        postings.contains_key(k) ==> {
            &&& exists|d: u32| #[trigger] postings[k]@.contains(d)
            &&& forall|d: u32| #[trigger] postings[k]@.contains(d) ==> d < document_count
        }
}

/// An Index holds all state necessary to answer search queries.
pub struct Index {
    /// For each word code, the codes of the documents that hold the word.
    pub unigrams: HashMap<u32, HashSet<u32>>,
    /// For each pair of word codes, packed into one key, the codes of the
    /// documents that hold the two words next to each other.
    pub ngrams: HashMap<u64, HashSet<u32>>,
    /// The two-way map between document URLs and document codes.
    pub document_codes: BiMap<String, u32>,
    /// The two-way map between words and word codes.
    pub word_codes: BiMap<String, u32>,
}

impl Index {
    /// The code of each known word.
    pub open spec fn words(&self) -> Map<Seq<char>, u32> {
        code_pairs(self.word_codes)
    }

    /// The code of each known document URL.
    pub open spec fn documents(&self) -> Map<Seq<char>, u32> {
        code_pairs(self.document_codes)
    }

    /// The number of known words.
    pub open spec fn word_count(&self) -> nat {
        self.words().dom().len()
    }

    /// The number of known documents.
    pub open spec fn document_count(&self) -> nat {
        self.documents().dom().len()
    }

    /// The invariant of the index: both code tables are dense bijections,
    /// every posting list is filed under known word codes, is not empty, and
    /// names known documents only.
    pub open spec fn wf(&self) -> bool {
        &&& dense(self.words())
        &&& dense(self.documents())
        &&& postings_valid(self.unigrams@, self.document_count())
        &&& postings_valid(self.ngrams@, self.document_count())
        &&& forall|c: u32| #[trigger] self.unigrams@.contains_key(c) ==> c < self.word_count()
        &&& forall|k: u64| #[trigger]
            self.ngrams@.contains_key(k) ==> k / 0x1_0000_0000 < self.word_count() && k
                % 0x1_0000_0000 < self.word_count()
    }

    /// Whether the document code `d` is filed under the word `word`.
    pub open spec fn posted_unigram(&self, word: Seq<char>, d: u32) -> bool {
        &&& self.words().contains_key(word)
        &&& self.unigrams@.contains_key(self.words()[word])
        &&& self.unigrams@[self.words()[word]]@.contains(d)
    }

    /// Whether the document code `d` is filed under the pair of adjacent
    /// words `first`, `second`.
    pub open spec fn posted_bigram(&self, first: Seq<char>, second: Seq<char>, d: u32) -> bool {
        &&& self.words().contains_key(first)
        &&& self.words().contains_key(second)
        &&& self.ngrams@.contains_key(pair_key(self.words()[first], self.words()[second]))
        &&& self.ngrams@[pair_key(self.words()[first], self.words()[second])]@.contains(d)
    }

    /// Whether the document at `url` is filed under the word `word`.
    pub open spec fn has_unigram(&self, word: Seq<char>, url: Seq<char>) -> bool {
        self.documents().contains_key(url) && self.posted_unigram(word, self.documents()[url])
    }

    /// Whether the document at `url` is filed under the pair of adjacent
    /// words `first`, `second`.
    pub open spec fn has_bigram(&self, first: Seq<char>, second: Seq<char>, url: Seq<char>) -> bool {
        self.documents().contains_key(url) && self.posted_bigram(
            first,
            second,
            self.documents()[url],
        )
    }

    /// Whether the document code `d` is filed under every pair of adjacent
    /// words of `phrase`.
    pub open spec fn posted_phrase(&self, phrase: Seq<Seq<char>>, d: u32) -> bool {
        forall|i: int|
            0 <= i < phrase.len() - 1 ==> self.posted_bigram(#[trigger] phrase[i], phrase[i + 1], d)
    }

    /// Whether the document code `d` is filed under every word of `words`.
    pub open spec fn posted_all(&self, words: Seq<Seq<char>>, d: u32) -> bool {
        forall|i: int| 0 <= i < words.len() ==> self.posted_unigram(#[trigger] words[i], d)
    }

    /// The URLs of the documents filed under `word`.
    pub open spec fn unigram_documents(&self, word: Seq<char>) -> Set<Seq<char>> {
        Set::new(|url: Seq<char>| self.has_unigram(word, url))
    }

    /// The URLs of the documents filed under the pair `first`, `second`.
    pub open spec fn bigram_documents(&self, first: Seq<char>, second: Seq<char>) -> Set<
        Seq<char>,
    > {
        Set::new(|url: Seq<char>| self.has_bigram(first, second, url))
    }

    /// The URLs of the documents filed under every pair of adjacent words of
    /// `phrase`. Where the words stand in the document is not looked at.
    pub open spec fn phrase_documents(&self, phrase: Seq<Seq<char>>) -> Set<Seq<char>> {
        Set::new(
            |url: Seq<char>|
                self.documents().contains_key(url) && self.posted_phrase(
                    phrase,
                    self.documents()[url],
                ),
        )
    }

    /// The URLs of the documents filed under every word of `words`.
    pub open spec fn conjunction_documents(&self, words: Seq<Seq<char>>) -> Set<Seq<char>> {
        Set::new(
            |url: Seq<char>|
                self.documents().contains_key(url) && self.posted_all(words, self.documents()[url]),
        )
    }

    /// Whether `extra` more words can receive a code.
    pub open spec fn has_room(&self, extra: nat) -> bool {
        self.word_count() + extra <= u32::MAX + 1
    }

    /// An index that knows no word and no document.
    pub fn new() -> (index: Index)
        ensures
            index.wf(),
            index.words() == Map::<Seq<char>, u32>::empty(),
            index.documents() == Map::<Seq<char>, u32>::empty(),
            index.unigrams@ == Map::<u32, HashSet<u32>>::empty(),
            index.ngrams@ == Map::<u64, HashSet<u32>>::empty(),
    {
        Index {
            unigrams: HashMap::new(),
            ngrams: HashMap::new(),
            document_codes: table_new(),
            word_codes: table_new(),
        }
    }

    /// The code of `word`, which is given the next free code if it has none.
    pub fn get_or_generate_word_code(&mut self, word: String) -> (code: u32)
        requires
            old(self).wf(),
            old(self).words().contains_key(word@) || old(self).word_count() <= u32::MAX,
        ensures
            final(self).wf(),
            final(self).words() == with_string(old(self).words(), word@),
            code == final(self).words()[word@],
            final(self).word_count() == old(self).word_count() + (if old(self).words().contains_key(
                word@,
            ) {
                0nat
            } else {
                1nat
            }),
            final(self).document_codes == old(self).document_codes,
            final(self).unigrams == old(self).unigrams,
            final(self).ngrams == old(self).ngrams,
    {
        match table_code_of(&self.word_codes, word.as_str()) {
            Some(code) => code,
            None => {
                let count = table_len(&self.word_codes);
                proof {
                    lemma_dense_extend(self.words(), word@);
                }
                let code = count as u32;
                table_insert(&mut self.word_codes, word, code);
                code
            },
        }
    }

    /// The code of the document at `document_id`, which is given the next
    /// free code if it has none.
    pub fn get_or_generate_document_code(&mut self, document_id: String) -> (code: u32)
        requires
            old(self).wf(),
            old(self).documents().contains_key(document_id@) || old(self).document_count()
                <= u32::MAX,
        ensures
            final(self).wf(),
            final(self).documents() == with_string(old(self).documents(), document_id@),
            code == final(self).documents()[document_id@],
            final(self).word_codes == old(self).word_codes,
            final(self).unigrams == old(self).unigrams,
            final(self).ngrams == old(self).ngrams,
    {
        match table_code_of(&self.document_codes, document_id.as_str()) {
            Some(code) => code,
            None => {
                let count = table_len(&self.document_codes);
                proof {
                    lemma_dense_extend(self.documents(), document_id@);
                }
                let code = count as u32;
                table_insert(&mut self.document_codes, document_id, code);
                code
            },
        }
    }

    /// Files the document with code `document_code` under the word
    /// `unigram`, which receives a code if it has none.
    pub fn insert_unigram(&mut self, unigram: String, document_code: u32)
        requires
            old(self).wf(),
            document_code < old(self).document_count(),
            old(self).words().contains_key(unigram@) || old(self).has_room(1),
        ensures
            final(self).wf(),
            final(self).words() == with_string(old(self).words(), unigram@),
            final(self).document_codes == old(self).document_codes,
            final(self).ngrams == old(self).ngrams,
            final(self).word_count() <= old(self).word_count() + 1,
            forall|w: Seq<char>, d: u32|
                final(self).posted_unigram(w, d) <==> old(self).posted_unigram(w, d) || (w
                    == unigram@ && d == document_code),
            forall|a: Seq<char>, b: Seq<char>, d: u32|
                final(self).posted_bigram(a, b, d) <==> old(self).posted_bigram(a, b, d),
    {
        let ghost word = unigram@;
        let code = self.get_or_generate_word_code(unigram);
        let ghost mid = *self;
        let mut set = match self.unigrams.remove(&code) {
            Some(found) => found,
            None => HashSet::with_capacity(1),
        };
        set.insert(document_code);
        self.unigrams.insert(code, set);
        proof {
            assert(self.unigrams@[code]@.contains(document_code));
            assert forall|k: u32| #[trigger] self.unigrams@.contains_key(k) implies (exists|d: u32|
             #[trigger] self.unigrams@[k]@.contains(d)) && (forall|d: u32| #[trigger]
                self.unigrams@[k]@.contains(d) ==> d < self.document_count()) by {
                if k != code {
                    assert(mid.unigrams@.contains_key(k));
                    assert(self.unigrams@[k] == mid.unigrams@[k]);
                    let d = choose|d: u32| #[trigger] mid.unigrams@[k]@.contains(d);
                    assert(self.unigrams@[k]@.contains(d));
                } else {
                    assert(self.unigrams@[k]@.contains(document_code));
                    if mid.unigrams@.contains_key(code) {
                        assert(self.unigrams@[k]@ == mid.unigrams@[code]@.insert(document_code));
                    } else {
                        assert(self.unigrams@[k]@ == Set::<u32>::empty().insert(document_code));
                    }
                }
            }
            assert forall|w: Seq<char>, d: u32|
                self.posted_unigram(w, d) <==> old(self).posted_unigram(w, d) || (w == word && d
                    == document_code) by {
                if self.words().contains_key(w) && self.words()[w] != code {
                    assert(self.unigrams@.contains_key(self.words()[w])
                        == mid.unigrams@.contains_key(self.words()[w]));
                }
            }
            assert forall|a: Seq<char>, b: Seq<char>, d: u32|
                self.posted_bigram(a, b, d) <==> old(self).posted_bigram(a, b, d) by {
                if self.words().contains_key(a) && self.words().contains_key(b) {
                    lemma_pair_key(self.words()[a], self.words()[b]);
                }
            }
        }
    }

    /// Files the document with code `document_code` under the pair of
    /// adjacent words `ngram`; each of the two receives a code if it has none.
    pub fn insert_ngram(&mut self, ngram: Vec<String>, document_code: u32)
        requires
            old(self).wf(),
            ngram.len() == 2,
            document_code < old(self).document_count(),
            old(self).has_room(2) || (old(self).words().contains_key(ngram[0]@) && old(self).words().contains_key(ngram[1]@)),
        ensures
            final(self).wf(),
            final(self).words() == with_strings(old(self).words(), ngram.deep_view()),
            final(self).document_codes == old(self).document_codes,
            final(self).word_count() <= old(self).word_count() + 2,
            forall|w: Seq<char>, d: u32|
                final(self).posted_unigram(w, d) <==> old(self).posted_unigram(w, d),
            forall|a: Seq<char>, b: Seq<char>, d: u32|
                final(self).posted_bigram(a, b, d) <==> old(self).posted_bigram(a, b, d) || (a
                    == ngram[0]@ && b == ngram[1]@ && d == document_code),
    {
        let first = self.get_or_generate_word_code(ngram[0].clone());
        let second = self.get_or_generate_word_code(ngram[1].clone());
        let key = pack_pair(first, second);
        let ghost mid = *self;
        let mut set = match self.ngrams.remove(&key) {
            Some(found) => found,
            None => HashSet::with_capacity(1),
        };
        set.insert(document_code);
        self.ngrams.insert(key, set);
        proof {
            lemma_pair_key(first, second);
            assert(self.ngrams@[key]@.contains(document_code));
            assert forall|k: u64| #[trigger] self.ngrams@.contains_key(k) implies (exists|d: u32|
             #[trigger] self.ngrams@[k]@.contains(d)) && (forall|d: u32| #[trigger]
                self.ngrams@[k]@.contains(d) ==> d < self.document_count()) by {
                if k != key {
                    assert(mid.ngrams@.contains_key(k));
                    assert(self.ngrams@[k] == mid.ngrams@[k]);
                    let d = choose|d: u32| #[trigger] mid.ngrams@[k]@.contains(d);
                    assert(self.ngrams@[k]@.contains(d));
                } else {
                    assert(self.ngrams@[k]@.contains(document_code));
                    if mid.ngrams@.contains_key(key) {
                        assert(self.ngrams@[k]@ == mid.ngrams@[key]@.insert(document_code));
                    } else {
                        assert(self.ngrams@[k]@ == Set::<u32>::empty().insert(document_code));
                    }
                }
            }
            lemma_with_two_strings(old(self).words(), ngram.deep_view());
            assert forall|a: Seq<char>, b: Seq<char>, d: u32|
                self.posted_bigram(a, b, d) <==> old(self).posted_bigram(a, b, d) || (a
                    == ngram[0]@ && b == ngram[1]@ && d == document_code) by {
                if self.words().contains_key(a) && self.words().contains_key(b) {
                    lemma_pair_key(self.words()[a], self.words()[b]);
                    let k = pair_key(self.words()[a], self.words()[b]);
                    if k != key {
                        assert(self.ngrams@.contains_key(k) == mid.ngrams@.contains_key(k));
                    }
                }
            }
        }
    }

    /// The URLs of the documents whose codes are in `codes`.
    pub open spec fn documents_coded(&self, codes: Set<u32>) -> Set<Seq<char>> {
        Set::new(
            |url: Seq<char>|
                self.documents().contains_key(url) && codes.contains(self.documents()[url]),
        )
    }

    /// The URLs that the document codes `codes` stand for, in the order given.
    pub fn urls_of(&self, codes: &Vec<u32>) -> (urls: Vec<String>)
        requires
            self.wf(),
            codes@.no_duplicates(),
            forall|i: int| 0 <= i < codes.len() ==> codes[i] < self.document_count(),
        ensures
            urls.len() == codes.len(),
            forall|i: int|
                0 <= i < urls.len() ==> self.documents().contains_key(#[trigger] urls[i]@)
                    && self.documents()[urls[i]@] == codes[i],
            is_listing(urls.deep_view(), self.documents_coded(codes@.to_set())),
    {
        let mut urls: Vec<String> = Vec::new();
        let mut i: usize = 0;
        while i < codes.len()
            invariant
                i <= codes.len(),
                urls.len() == i,
                self.wf(),
                forall|j: int| 0 <= j < codes.len() ==> codes[j] < self.document_count(),
                forall|j: int|
                    0 <= j < i ==> self.documents().contains_key(#[trigger] urls[j]@)
                        && self.documents()[urls[j]@] == codes[j],
            decreases codes.len() - i,
        {
            let code = codes[i];
            assert(code_in_use(self.documents(), code));
            match table_string_of(&self.document_codes, code) {
                Some(url) => {
                    urls.push(url);
                },
                None => {
                    unreached()
                },
            }
            i += 1;
        }
        proof {
            let listed = urls.deep_view();
            let wanted = self.documents_coded(codes@.to_set());
            assert forall|j: int, k: int|
                0 <= j < listed.len() && 0 <= k < listed.len() && j != k implies listed[j]
                != listed[k] by {
                assert(listed[j] == urls[j]@ && listed[k] == urls[k]@);
            }
            assert forall|u: Seq<char>| listed.to_set().contains(u) <==> wanted.contains(u) by {
                if listed.to_set().contains(u) {
                    let j = choose|j: int| 0 <= j < listed.len() && listed[j] == u;
                    assert(listed[j] == urls[j]@);
                    assert(codes@[j] == self.documents()[u]);
                }
                if wanted.contains(u) {
                    let j = choose|j: int| 0 <= j < codes.len() && codes@[j] == self.documents()[u];
                    assert(listed[j] == urls[j]@);
                    assert(listed[j] == u);
                }
            }
            assert(listed.to_set() =~= wanted);
        }
        urls
    }

    /// The URLs of the documents of a posting set, if there is one.
    pub fn pass_page_results(&self, page_results: Option<&HashSet<u32>>) -> (urls: Option<
        Vec<String>,
    >)
        requires
            self.wf(),
            page_results matches Some(set) ==> forall|d: u32|
                set@.contains(d) ==> d < self.document_count(),
        ensures
            urls is None <==> page_results is None,
            urls matches Some(found) ==> is_listing(
                found.deep_view(),
                self.documents_coded(page_results->0@),
            ),
    {
        match page_results {
            Some(set) => {
                let members = posting_members(set);
                assert forall|i: int| 0 <= i < members.len() implies members[i]
                    < self.document_count() by {
                    assert(members@.to_set().contains(members@[i]));
                }
                Some(self.urls_of(&members))
            },
            None => None,
        }
    }

    /// The URLs of the documents that hold `unigram`, or nothing where no
    /// document is filed under it.
    pub fn unigram_match(&self, unigram: String) -> (urls: Option<Vec<String>>)
        requires
            self.wf(),
        ensures
            urls is None <==> self.unigram_documents(unigram@) == Set::<Seq<char>>::empty(),
            urls matches Some(found) ==> is_listing(
                found.deep_view(),
                self.unigram_documents(unigram@),
            ),
    {
        let posting = self.unigram_posting(unigram.as_str());
        proof {
            self.lemma_posting_documents(posting, self.unigram_documents(unigram@));
        }
        self.pass_page_results(posting)
    }

    /// The URLs of the documents that hold the two words of `ngram` next to
    /// each other, or nothing where no document is filed under the pair. A
    /// sequence of another length is filed nowhere.
    pub fn ngram_match(&self, ngram: Vec<String>) -> (urls: Option<Vec<String>>)
        requires
            self.wf(),
        ensures
            ngram.len() != 2 ==> urls is None,
            ngram.len() == 2 ==> (urls is None <==> self.bigram_documents(ngram[0]@, ngram[1]@)
                == Set::<Seq<char>>::empty()),
            ngram.len() == 2 ==> (urls matches Some(found) ==> is_listing(
                found.deep_view(),
                self.bigram_documents(ngram[0]@, ngram[1]@),
            )),
    {
        if ngram.len() != 2 {
            return None;
        }
        let posting = self.bigram_posting(ngram[0].as_str(), ngram[1].as_str());
        proof {
            self.lemma_posting_documents(posting, self.bigram_documents(ngram[0]@, ngram[1]@));
        }
        self.pass_page_results(posting)
    }

    /// The posting set of `word`, if one is filed.
    pub fn unigram_posting(&self, word: &str) -> (posting: Option<&HashSet<u32>>)
        requires
            self.wf(),
        ensures
            posting is Some <==> exists|d: u32| self.posted_unigram(word@, d),
            posting matches Some(set) ==> forall|d: u32|
                set@.contains(d) <==> self.posted_unigram(word@, d),
            posting matches Some(set) ==> (exists|d: u32| set@.contains(d)) && (forall|d: u32|
                set@.contains(d) ==> d < self.document_count()),
    {
        match table_code_of(&self.word_codes, word) {
            Some(code) => {
                let posting = self.unigrams.get(&code);
                proof {
                    if let Some(set) = posting {
                        let d = choose|d: u32| #[trigger] self.unigrams@[code]@.contains(d);
                        assert(self.posted_unigram(word@, d));
                    }
                }
                posting
            },
            None => None,
        }
    }

    /// The posting set of the pair `first`, `second`, if one is filed.
    pub fn bigram_posting(&self, first: &str, second: &str) -> (posting: Option<&HashSet<u32>>)
        requires
            self.wf(),
        ensures
            posting is Some <==> exists|d: u32| self.posted_bigram(first@, second@, d),
            posting matches Some(set) ==> forall|d: u32|
                set@.contains(d) <==> self.posted_bigram(first@, second@, d),
            posting matches Some(set) ==> (exists|d: u32| set@.contains(d)) && (forall|d: u32|
                set@.contains(d) ==> d < self.document_count()),
    {
        let first_code = match table_code_of(&self.word_codes, first) {
            Some(code) => code,
            None => {
                return None;
            },
        };
        let second_code = match table_code_of(&self.word_codes, second) {
            Some(code) => code,
            None => {
                return None;
            },
        };
        let key = pack_pair(first_code, second_code);
        let posting = self.ngrams.get(&key);
        proof {
            if let Some(set) = posting {
                let d = choose|d: u32| #[trigger] self.ngrams@[key]@.contains(d);
                assert(self.posted_bigram(first@, second@, d));
            }
        }
        posting
    }

    /// The codes of the documents filed under every pair of adjacent words
    /// of `phrase`.
    pub fn phrase_codes(&self, phrase: &Vec<String>) -> (codes: Vec<u32>)
        requires
            self.wf(),
            phrase.len() >= 2,
        ensures
            codes@.no_duplicates(),
            forall|d: u32| codes@.contains(d) <==> self.posted_phrase(phrase.deep_view(), d),
            forall|i: int| 0 <= i < codes.len() ==> codes[i] < self.document_count(),
    {
        let mut codes = match self.bigram_posting(phrase[0].as_str(), phrase[1].as_str()) {
            Some(set) => posting_members(set),
            None => Vec::new(),
        };
        proof {
            assert forall|d: u32| codes@.contains(d) <==> self.posted_bigram(
                phrase[0]@,
                phrase[1]@,
                d,
            ) by {
                assert(codes@.contains(d) <==> codes@.to_set().contains(d));
            }
        }
        let mut i: usize = 1;
        while i < phrase.len() - 1
            invariant
                1 <= i <= phrase.len() - 1,
                self.wf(),
                codes@.no_duplicates(),
                forall|d: u32|
                    codes@.contains(d) <==> forall|j: int|
                        0 <= j < i ==> self.posted_bigram(#[trigger] phrase[j]@, phrase[j + 1]@, d),
                forall|d: u32| codes@.contains(d) ==> d < self.document_count(),
            decreases phrase.len() - i,
        {
            let posting = self.bigram_posting(phrase[i].as_str(), phrase[i + 1].as_str());
            let ghost before = codes@;
            codes = retain_posted(codes, posting);
            proof {
                assert forall|d: u32| codes@.contains(d) <==> forall|j: int|
                    0 <= j < i + 1 ==> self.posted_bigram(
                        #[trigger] phrase[j]@,
                        phrase[j + 1]@,
                        d,
                    ) by {
                    if codes@.contains(d) {
                        assert(before.contains(d));
                        assert(self.posted_bigram(phrase[i as int]@, phrase[i + 1]@, d));
                    }
                    if forall|j: int|
                        0 <= j < i + 1 ==> self.posted_bigram(
                            #[trigger] phrase[j]@,
                            phrase[j + 1]@,
                            d,
                        ) {
                        assert(self.posted_bigram(phrase[i as int]@, phrase[i + 1]@, d));
                        assert(before.contains(d));
                    }
                }
            }
            i += 1;
        }
        proof {
            let spoken = phrase.deep_view();
            assert forall|d: u32| codes@.contains(d) <==> self.posted_phrase(spoken, d) by {
                if codes@.contains(d) {
                    assert forall|j: int| 0 <= j < spoken.len() - 1 implies self.posted_bigram(
                        #[trigger] spoken[j],
                        spoken[j + 1],
                        d,
                    ) by {
                        assert(self.posted_bigram(phrase[j]@, phrase[j + 1]@, d));
                    }
                }
                if self.posted_phrase(spoken, d) {
                    assert forall|j: int| 0 <= j < i implies self.posted_bigram(
                        #[trigger] phrase[j]@,
                        phrase[j + 1]@,
                        d,
                    ) by {
                        assert(self.posted_bigram(spoken[j], spoken[j + 1], d));
                    }
                }
            }
            assert forall|k: int| 0 <= k < codes.len() implies codes[k] < self.document_count() by {
                assert(codes@.contains(codes@[k]));
            }
        }
        codes
    }

    /// Keeps the members of `codes` that are filed under every word of
    /// `words` from position `from` on.
    pub fn narrow_by_words(&self, codes: Vec<u32>, words: &Vec<String>, from: usize) -> (kept: Vec<
        u32,
    >)
        requires
            self.wf(),
            codes@.no_duplicates(),
            from <= words.len(),
        ensures
            kept@.no_duplicates(),
            forall|d: u32|
                kept@.contains(d) <==> codes@.contains(d) && forall|j: int|
                    from <= j < words.len() ==> self.posted_unigram(#[trigger] words[j]@, d),
    {
        let mut kept = codes;
        let mut i: usize = from;
        while i < words.len()
            invariant
                from <= i <= words.len(),
                self.wf(),
                kept@.no_duplicates(),
                forall|d: u32|
                    kept@.contains(d) <==> codes@.contains(d) && forall|j: int|
                        from <= j < i ==> self.posted_unigram(#[trigger] words[j]@, d),
            decreases words.len() - i,
        {
            let posting = self.unigram_posting(words[i].as_str());
            let ghost before = kept@;
            kept = retain_posted(kept, posting);
            proof {
                assert forall|d: u32| kept@.contains(d) <==> codes@.contains(d) && forall|j: int|
                    from <= j < i + 1 ==> self.posted_unigram(#[trigger] words[j]@, d) by {
                    if kept@.contains(d) {
                        assert(before.contains(d));
                        assert(self.posted_unigram(words[i as int]@, d));
                    }
                    if codes@.contains(d) && forall|j: int|
                        from <= j < i + 1 ==> self.posted_unigram(#[trigger] words[j]@, d) {
                        assert(self.posted_unigram(words[i as int]@, d));
                        assert(before.contains(d));
                    }
                }
            }
            i += 1;
        }
        kept
    }

    /// The codes of the documents filed under every word of `words`.
    pub fn conjunction_codes(&self, words: &Vec<String>) -> (codes: Vec<u32>)
        requires
            self.wf(),
            words.len() >= 1,
        ensures
            codes@.no_duplicates(),
            forall|d: u32| codes@.contains(d) <==> self.posted_all(words.deep_view(), d),
            forall|i: int| 0 <= i < codes.len() ==> codes[i] < self.document_count(),
    {
        let first = match self.unigram_posting(words[0].as_str()) {
            Some(set) => posting_members(set),
            None => Vec::new(),
        };
        proof {
            assert forall|d: u32| first@.contains(d) <==> self.posted_unigram(words[0]@, d) by {
                assert(first@.contains(d) <==> first@.to_set().contains(d));
            }
        }
        let codes = self.narrow_by_words(first, words, 1);
        proof {
            let spoken = words.deep_view();
            assert forall|d: u32| codes@.contains(d) <==> self.posted_all(spoken, d) by {
                if codes@.contains(d) {
                    assert forall|j: int| 0 <= j < spoken.len() implies self.posted_unigram(
                        #[trigger] spoken[j],
                        d,
                    ) by {
                        assert(self.posted_unigram(words[j]@, d));
                    }
                }
                if self.posted_all(spoken, d) {
                    assert(self.posted_unigram(spoken[0], d));
                    assert forall|j: int| 1 <= j < words.len() implies self.posted_unigram(
                        #[trigger] words[j]@,
                        d,
                    ) by {
                        assert(self.posted_unigram(spoken[j], d));
                    }
                }
            }
            assert forall|k: int| 0 <= k < codes.len() implies codes[k] < self.document_count() by {
                assert(codes@.contains(codes@[k]));
                assert(self.posted_unigram(words[0]@, codes@[k]));
            }
        }
        codes
    }

    /// The URLs of the documents that match `ngram` as an exact phrase: for
    /// one word, those that hold it; for two, those that hold them next to
    /// each other; for more, those that hold every pair of neighbours. An
    /// empty sequence matches nothing.
    pub fn exact_ngram_match(&self, ngram: Vec<String>) -> (urls: Option<Vec<String>>)
        requires
            self.wf(),
        ensures
            ngram.len() == 0 ==> urls is None,
            ngram.len() == 1 ==> (urls is None <==> self.unigram_documents(ngram[0]@)
                == Set::<Seq<char>>::empty()),
            ngram.len() == 1 ==> (urls matches Some(found) ==> is_listing(
                found.deep_view(),
                self.unigram_documents(ngram[0]@),
            )),
            ngram.len() == 2 ==> (urls is None <==> self.bigram_documents(ngram[0]@, ngram[1]@)
                == Set::<Seq<char>>::empty()),
            ngram.len() == 2 ==> (urls matches Some(found) ==> is_listing(
                found.deep_view(),
                self.bigram_documents(ngram[0]@, ngram[1]@),
            )),
            ngram.len() >= 3 ==> (urls matches Some(found) && is_listing(
                found.deep_view(),
                self.phrase_documents(ngram.deep_view()),
            )),
    {
        if ngram.len() == 0 {
            None
        } else if ngram.len() == 1 {
            self.unigram_match(ngram[0].clone())
        } else if ngram.len() == 2 {
            self.ngram_match(ngram)
        } else {
            let codes = self.phrase_codes(&ngram);
            let urls = self.urls_of(&codes);
            proof {
                self.lemma_phrase_codes(ngram.deep_view(), codes@.to_set());
            }
            Some(urls)
        }
    }

    /// Codes that are filed under every pair of neighbours of `phrase` stand
    /// for the documents that match the phrase.
    pub proof fn lemma_phrase_codes(&self, phrase: Seq<Seq<char>>, codes: Set<u32>)
        requires
            forall|d: u32| codes.contains(d) <==> self.posted_phrase(phrase, d),
        ensures
            self.documents_coded(codes) == self.phrase_documents(phrase),
    {
        assert(self.documents_coded(codes) =~= self.phrase_documents(phrase));
    }

    /// Codes that are filed under every word of `words` stand for the
    /// documents that hold them all.
    pub proof fn lemma_conjunction_codes(&self, words: Seq<Seq<char>>, codes: Set<u32>)
        requires
            forall|d: u32| codes.contains(d) <==> self.posted_all(words, d),
        ensures
            self.documents_coded(codes) == self.conjunction_documents(words),
    {
        assert(self.documents_coded(codes) =~= self.conjunction_documents(words));
    }

    /// A posting set that holds exactly the codes that satisfy a condition
    /// names exactly the documents in `wanted`, where `wanted` are the URLs
    /// whose codes satisfy it; and none where there is no posting set.
    pub proof fn lemma_posting_documents(
        &self,
        posting: Option<&HashSet<u32>>,
        wanted: Set<Seq<char>>,
    )
        requires
            self.wf(),
            posting matches Some(set) ==> (exists|d: u32| set@.contains(d)) && (forall|d: u32|
                set@.contains(d) ==> d < self.document_count()),
            forall|url: Seq<char>|
                wanted.contains(url) <==> self.documents().contains_key(url) && (
                posting matches Some(set) && set@.contains(self.documents()[url])),
        ensures
            posting is None <==> wanted == Set::<Seq<char>>::empty(),
            posting matches Some(set) ==> wanted == self.documents_coded(set@),
    {
        match posting {
            Some(set) => {
                let d = choose|d: u32| set@.contains(d);
                assert(code_in_use(self.documents(), d));
                let url = choose|url: Seq<char>| #[trigger]
                    self.documents().contains_key(url) && self.documents()[url] == d;
                assert(wanted.contains(url));
                assert(wanted =~= self.documents_coded(set@));
            },
            None => {
                assert(wanted =~= Set::<Seq<char>>::empty());
            },
        }
    }
}

/// The codes of a well-formed index are dense and one-to-one, for words and
/// for documents alike: the codes in use are exactly those below the number
/// of strings, so the largest is that number less one; no two strings share
/// a code; and every string has one code.
pub proof fn lemma_codes_are_dense_and_one_to_one(index: &Index)
    requires
        index.wf(),
    ensures
        forall|c: u32| code_in_use(index.words(), c) <==> c < index.word_count(),
        forall|c: u32| code_in_use(index.documents(), c) <==> c < index.document_count(),
        forall|s: Seq<char>, t: Seq<char>|
            index.words().contains_key(s) && index.words().contains_key(t) && index.words()[s]
                == index.words()[t] ==> s == t,
        forall|s: Seq<char>, t: Seq<char>|
            index.documents().contains_key(s) && index.documents().contains_key(t)
                && index.documents()[s] == index.documents()[t] ==> s == t,
{
    assert forall|c: u32| code_in_use(index.words(), c) implies c < index.word_count() by {
        let s = choose|s: Seq<char>| #[trigger]
            index.words().contains_key(s) && index.words()[s] == c;
    }
    assert forall|c: u32| code_in_use(index.documents(), c) implies c
        < index.document_count() by {
        let s = choose|s: Seq<char>| #[trigger]
            index.documents().contains_key(s) && index.documents()[s] == c;
    }
}

/// The members of `set`, each once, in the order in which the set hands
/// them out.
pub fn posting_members(set: &HashSet<u32>) -> (members: Vec<u32>)
    ensures
        members@.no_duplicates(),
        members@.to_set() == set@,
{
    let mut members: Vec<u32> = Vec::new();
    let ghost all: Seq<u32> = set.iter().remaining().unref();
    assert(all.no_duplicates()) by {
        assert forall|i: int, j: int| 0 <= i < all.len() && 0 <= j < all.len() && i != j implies all[i]
            != all[j] by {
            assert(set.iter().remaining()[i] != set.iter().remaining()[j]);
        }
    }
    for d in it: set.iter()
        invariant
            it.seq().unref() == all,
            all.to_set() == set@,
            all.no_duplicates(),
            members@ =~= all.take(it.index() as int),
    {
        members.push(*d);
    }
    assert(members@ =~= all);
    members
}

/// Keeps the members of `codes` that `posting` holds, in their order; none
/// where there is no posting.
pub fn retain_posted(codes: Vec<u32>, posting: Option<&HashSet<u32>>) -> (kept: Vec<u32>)
    requires
        codes@.no_duplicates(),
    ensures
        kept@.no_duplicates(),
        forall|d: u32|
            kept@.contains(d) <==> codes@.contains(d) && (posting matches Some(set)
                && set@.contains(d)),
{
    let mut kept: Vec<u32> = Vec::new();
    let set = match posting {
        Some(set) => set,
        None => {
            return kept;
        },
    };
    let mut i: usize = 0;
    while i < codes.len()
        invariant
            i <= codes.len(),
            codes@.no_duplicates(),
            kept@.no_duplicates(),
            forall|d: u32|
                kept@.contains(d) <==> set@.contains(d) && exists|j: int|
                    0 <= j < i && codes@[j] == d,
        decreases codes.len() - i,
    {
        let d = codes[i];
        if set.contains(&d) {
            let ghost before = kept@;
            kept.push(d);
            proof {
                assert(!before.contains(d));
                assert forall|e: u32| kept@.contains(e) <==> set@.contains(e) && exists|j: int|
                    0 <= j < i + 1 && codes@[j] == e by {
                    if kept@.contains(e) {
                        let k = choose|k: int| 0 <= k < kept@.len() && kept@[k] == e;
                        if k < before.len() {
                            assert(before[k] == e);
                            assert(before.contains(e));
                        } else {
                            assert(codes@[i as int] == e);
                        }
                    }
                    if set@.contains(e) && exists|j: int| 0 <= j < i + 1 && codes@[j] == e {
                        let j = choose|j: int| 0 <= j < i + 1 && codes@[j] == e;
                        if j < i {
                            assert(before.contains(e));
                            let k = choose|k: int| 0 <= k < before.len() && before[k] == e;
                            assert(kept@[k] == e);
                        } else {
                            assert(kept@[kept@.len() - 1] == e);
                        }
                    }
                }
            }
        }
        i += 1;
    }
    kept
}

/// Packs two word codes into the key of their pair.
pub fn pack_pair(first: u32, second: u32) -> (key: u64)
    ensures
        key == pair_key(first, second),
{
    first as u64 * 0x1_0000_0000 + second as u64
}

/// A pair key gives back the two codes it was packed from, so distinct pairs
/// have distinct keys.
pub proof fn lemma_pair_key(first: u32, second: u32)
    ensures
        pair_key(first, second) / 0x1_0000_0000 == first,
        pair_key(first, second) % 0x1_0000_0000 == second,
        forall|a: u32, b: u32| #[trigger]
            pair_key(a, b) == pair_key(first, second) ==> a == first && b == second,
{
}

} // verus!
