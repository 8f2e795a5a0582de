//! Filing a document's texts in the index: every word as a unigram, every
//! pair of neighbours within one text as a bigram.

use crate::codes::{
    lemma_with_two_strings, table_code_of, table_len, with_string, with_strings, with_texts,
};
use crate::index::Index;
use vstd::prelude::*;

verus! {

/// Whether `word` is one of the words of one of `texts`.
pub open spec fn occurs(texts: Seq<Seq<Seq<char>>>, word: Seq<char>) -> bool {
    exists|i: int, j: int|
        0 <= i < texts.len() && 0 <= j < texts[i].len() && #[trigger] texts[i][j] == word
}

/// Whether `first` is directly followed by `second` in `text`.
pub open spec fn neighbours(text: Seq<Seq<char>>, first: Seq<char>, second: Seq<char>) -> bool {
    exists|j: int| 0 <= j < text.len() - 1 && #[trigger] text[j] == first && text[j + 1] == second
}

/// Whether `first` is directly followed by `second` within one of `texts`.
pub open spec fn adjacent(texts: Seq<Seq<Seq<char>>>, first: Seq<char>, second: Seq<char>) -> bool {
    exists|i: int| 0 <= i < texts.len() && neighbours(#[trigger] texts[i], first, second)
}

/// The number of words in `texts`, all texts together.
pub open spec fn token_total(texts: Seq<Seq<Seq<char>>>) -> nat
    decreases texts.len(),
{
    if texts.len() == 0 {
        0
    } else {
        texts[0].len() + token_total(texts.drop_first())
    }
}

/// Whether every string of `before` is in `after` with the same code.
pub open spec fn keeps_codes(before: Map<Seq<char>, u32>, after: Map<Seq<char>, u32>) -> bool {
    forall|s: Seq<char>| #[trigger]
        before.contains_key(s) ==> after.contains_key(s) && after[s] == before[s]
}

/// The number of words in `texts`, or nothing where they are more than
/// `limit`.
pub fn count_tokens(texts: &Vec<Vec<String>>, limit: u64) -> (total: Option<u64>)
    ensures
        match total {
            Some(n) => n == token_total(texts.deep_view()) && n <= limit,
            None => token_total(texts.deep_view()) > limit,
        },
{
    let ghost spoken = texts.deep_view();
    let mut total: u64 = 0;
    let mut i: usize = texts.len();
    assert(spoken.skip(i as int) =~= Seq::<Seq<Seq<char>>>::empty());
    while i > 0
        invariant
            i <= texts.len(),
            spoken == texts.deep_view(),
            total == token_total(spoken.skip(i as int)),
            total <= limit,
        decreases i,
    {
        i -= 1;
        proof {
            assert(spoken.skip(i as int)[0] == spoken[i as int]);
            assert(spoken.skip(i as int).drop_first() =~= spoken.skip(i + 1));
            assert(spoken[i as int].len() == texts[i as int].len());
        }
        let n = texts[i].len();
        if n as u64 > limit - total {
            proof {
                lemma_token_total_suffix(spoken, i as int);
            }
            return None;
        }
        total += n as u64;
    }
    assert(spoken.skip(0) =~= spoken);
    Some(total)
}

/// The texts from position `from` on hold no more words than all of them.
pub proof fn lemma_token_total_suffix(texts: Seq<Seq<Seq<char>>>, from: int)
    requires
        0 <= from <= texts.len(),
    ensures
        token_total(texts.skip(from)) <= token_total(texts),
    decreases from,
{
    if from == 0 {
        assert(texts.skip(0) =~= texts);
    } else {
        lemma_token_total_suffix(texts, from - 1);
        assert(texts.skip(from - 1).drop_first() =~= texts.skip(from));
    }
}

/// Whether `after` is `before` with the document at `url` filed under the
/// words and neighbours of `texts`: the document has a code, which is the
/// next free one if it had none; so has every word of `texts`, the words
/// taken in order, and no code has changed; the document is filed under each
/// word of `texts` and under each pair of neighbours within one text; and
/// nothing else has been filed or taken away.
pub open spec fn files(before: &Index, after: &Index, url: Seq<char>, texts: Seq<Seq<Seq<char>>>) -> bool {
    &&& after.documents() == with_string(before.documents(), url)
    &&& after.words() == with_texts(before.words(), texts)
    &&& keeps_codes(before.words(), after.words())
    &&& forall|w: Seq<char>|
        after.words().contains_key(w) <==> before.words().contains_key(w) || occurs(texts, w)
    &&& forall|w: Seq<char>, u: Seq<char>|
        after.has_unigram(w, u) <==> before.has_unigram(w, u) || (u == url && occurs(texts, w))
    &&& forall|a: Seq<char>, b: Seq<char>, u: Seq<char>|
        after.has_bigram(a, b, u) <==> before.has_bigram(a, b, u) || (u == url && adjacent(
            texts,
            a,
            b,
        ))
}

impl Index {
    /// Whether the index has the codes left that filing `texts` under
    /// `document_id` may take.
    pub open spec fn has_capacity(&self, document_id: Seq<char>, texts: Seq<Seq<Seq<char>>>) -> bool {
        &&& self.documents().contains_key(document_id) || self.document_count() <= u32::MAX
        &&& self.has_room(token_total(texts))
    }

    /// Whether the index has the codes left that filing `texts` under
    /// `document_id` may take.
    pub fn can_index(&self, document_id: &str, texts: &Vec<Vec<String>>) -> (can: bool)
        requires
            self.wf(),
        ensures
            can == self.has_capacity(document_id@, texts.deep_view()),
    {
        let documents: u64 = table_len(&self.document_codes) as u64;
        if documents > 0xffff_ffff && table_code_of(&self.document_codes, document_id).is_none() {
            return false;
        }
        let words: u64 = table_len(&self.word_codes) as u64;
        if words > 0x1_0000_0000 {
            return false;
        }
        match count_tokens(texts, 0x1_0000_0000 - words) {
            Some(_) => true,
            None => false,
        }
    }

    /// Files the document with code `document_code` under each word of
    /// `text`, and under each pair of neighbouring words of `text`.
    pub fn index_text(&mut self, text: &Vec<String>, document_code: u32)
        requires
            old(self).wf(),
            document_code < old(self).document_count(),
            old(self).has_room(text.len() as nat),
        ensures
            final(self).wf(),
            final(self).document_codes == old(self).document_codes,
            final(self).words() == with_strings(old(self).words(), text.deep_view()),
            keeps_codes(old(self).words(), final(self).words()),
            forall|w: Seq<char>|
                final(self).words().contains_key(w) <==> old(self).words().contains_key(w)
                    || text.deep_view().contains(w),
            final(self).word_count() <= old(self).word_count() + text.len(),
            forall|w: Seq<char>, d: u32|
                final(self).posted_unigram(w, d) <==> old(self).posted_unigram(w, d) || (d
                    == document_code && text.deep_view().contains(w)),
            forall|a: Seq<char>, b: Seq<char>, d: u32|
                final(self).posted_bigram(a, b, d) <==> old(self).posted_bigram(a, b, d) || (d
                    == document_code && neighbours(text.deep_view(), a, b)),
    {
        let ghost spoken = text.deep_view();
        let ghost mut read = spoken.take(0);
        let mut j: usize = 0;
        while j < text.len()
            invariant
                j <= text.len(),
                spoken == text.deep_view(),
                read == spoken.take(j as int),
                self.wf(),
                document_code < self.document_count(),
                self.document_codes == old(self).document_codes,
                old(self).has_room(text.len() as nat),
                keeps_codes(old(self).words(), self.words()),
                self.words() == with_strings(old(self).words(), read),
                self.word_count() <= old(self).word_count() + j,
                forall|w: Seq<char>|
                    self.words().contains_key(w) <==> old(self).words().contains_key(w)
                        || read.contains(w),
                forall|w: Seq<char>, d: u32|
                    self.posted_unigram(w, d) <==> old(self).posted_unigram(w, d) || (d
                        == document_code && read.contains(w)),
                forall|a: Seq<char>, b: Seq<char>, d: u32|
                    self.posted_bigram(a, b, d) <==> old(self).posted_bigram(a, b, d),
            decreases text.len() - j,
        {
            let word = text[j].clone();
            proof {
                assert(word@ == spoken[j as int]);
                assert(spoken.take(j + 1) =~= read.push(word@));
                assert(read.push(word@).drop_last() =~= read);
                assert forall|w: Seq<char>|
                    read.push(word@).contains(w) <==> read.contains(w) || w == word@ by {
                    lemma_push_contains(read, word@, w);
                }
            }
            let ghost before = *self;
            let ghost shorter = read;
            self.insert_unigram(word, document_code);
            proof {
                read = spoken.take(j + 1);
                assert forall|w: Seq<char>|
                    self.words().contains_key(w) <==> old(self).words().contains_key(w)
                        || read.contains(w) by {
                    assert(self.words().contains_key(w) <==> before.words().contains_key(w) || w
                        == spoken[j as int]);
                    assert(read =~= shorter.push(spoken[j as int]));
                    lemma_push_contains(shorter, spoken[j as int], w);
                }
            }
            j += 1;
        }
        assert(read =~= spoken);
        if text.len() < 2 {
            proof {
                assert(forall|a: Seq<char>, b: Seq<char>| !neighbours(spoken, a, b));
            }
            return ;
        }
        let ghost mid = *self;
        let ghost mut seen = spoken.take(1);
        proof {
            assert forall|j: int| 0 <= j < spoken.len() implies mid.words().contains_key(
                #[trigger] spoken[j],
            ) by {
                assert(spoken.contains(spoken[j]));
            }
            assert(forall|a: Seq<char>, b: Seq<char>| !neighbours(seen, a, b));
        }
        let mut k: usize = 0;
        while k < text.len() - 1
            invariant
                k <= text.len() - 1,
                text.len() >= 2,
                spoken == text.deep_view(),
                seen == spoken.take(k + 1),
                self.wf(),
                document_code < self.document_count(),
                self.document_codes == old(self).document_codes,
                self.words() == mid.words(),
                forall|j: int| 0 <= j < spoken.len() ==> mid.words().contains_key(#[trigger] spoken[j]),
                forall|w: Seq<char>, d: u32|
                    self.posted_unigram(w, d) <==> mid.posted_unigram(w, d),
                forall|a: Seq<char>, b: Seq<char>, d: u32|
                    self.posted_bigram(a, b, d) <==> mid.posted_bigram(a, b, d) || (d
                        == document_code && neighbours(seen, a, b)),
            decreases text.len() - k,
        {
            let mut pair: Vec<String> = Vec::new();
            pair.push(text[k].clone());
            pair.push(text[k + 1].clone());
            proof {
                assert(pair[0]@ == spoken[k as int]);
                assert(pair[1]@ == spoken[k + 1]);
                assert(self.words().contains_key(spoken[k as int]));
                assert(self.words().contains_key(spoken[k + 1]));
                assert(spoken.take(k + 2) =~= seen.push(spoken[k + 1]));
                assert(seen.last() == spoken[k as int]);
                lemma_neighbours_step(seen, spoken[k + 1]);
                seen = spoken.take(k + 2);
            }
            let ghost before = self.words();
            self.insert_ngram(pair, document_code);
            proof {
                lemma_with_two_strings(before, pair.deep_view());
                assert(self.words() == before);
            }
            k += 1;
        }
        proof {
            assert(seen =~= spoken);
            assert forall|a: Seq<char>, b: Seq<char>, d: u32|
                self.posted_bigram(a, b, d) <==> old(self).posted_bigram(a, b, d) || (d
                    == document_code && neighbours(spoken, a, b)) by {
                assert(mid.posted_bigram(a, b, d) <==> old(self).posted_bigram(a, b, d));
            }
        }
    }

    /// Files the document at `document_id`, which receives a code if it has
    /// none, under each word of each of `texts` and under each pair of
    /// neighbouring words within one text. Pairs never span two texts.
    pub fn index_texts(&mut self, document_id: String, texts: Vec<Vec<String>>)
        requires
            old(self).wf(),
            old(self).has_capacity(document_id@, texts.deep_view()),
        ensures
            final(self).wf(),
            files(old(self), final(self), document_id@, texts.deep_view()),
    {
        let ghost url = document_id@;
        let ghost spoken = texts.deep_view();
        let document_code = self.get_or_generate_document_code(document_id);
        let ghost mid = *self;
        let ghost mut done = spoken.take(0);
        let mut i: usize = 0;
        assert(spoken.skip(0) =~= spoken);
        while i < texts.len()
            invariant
                i <= texts.len(),
                spoken == texts.deep_view(),
                done == spoken.take(i as int),
                self.wf(),
                self.document_codes == mid.document_codes,
                document_code < self.document_count(),
                self.word_count() + token_total(spoken.skip(i as int)) <= u32::MAX + 1,
                keeps_codes(mid.words(), self.words()),
                self.words() == with_texts(mid.words(), done),
                forall|w: Seq<char>|
                    self.words().contains_key(w) <==> mid.words().contains_key(w) || occurs(
                        done,
                        w,
                    ),
                forall|w: Seq<char>, d: u32|
                    self.posted_unigram(w, d) <==> mid.posted_unigram(w, d) || (d == document_code
                        && occurs(done, w)),
                forall|a: Seq<char>, b: Seq<char>, d: u32|
                    self.posted_bigram(a, b, d) <==> mid.posted_bigram(a, b, d) || (d
                        == document_code && adjacent(done, a, b)),
            decreases texts.len() - i,
        {
            proof {
                assert(spoken.skip(i as int)[0] == spoken[i as int]);
                assert(spoken.skip(i as int).drop_first() =~= spoken.skip(i + 1));
                assert(spoken[i as int] == texts[i as int].deep_view());
                assert(spoken[i as int].len() == texts[i as int].len());
                assert(spoken.take(i + 1) =~= done.push(spoken[i as int]));
                assert(done.push(spoken[i as int]).drop_last() =~= done);
                lemma_texts_step(done, spoken[i as int]);
                done = spoken.take(i + 1);
            }
            let ghost before = *self;
            let ghost shorter = done;
            self.index_text(&texts[i], document_code);
            proof {
                assert forall|w: Seq<char>|
                    self.words().contains_key(w) <==> mid.words().contains_key(w) || occurs(
                        done,
                        w,
                    ) by {
                    assert(self.words().contains_key(w) <==> before.words().contains_key(w)
                        || spoken[i as int].contains(w));
                    assert(occurs(done, w) <==> occurs(shorter, w) || spoken[i as int].contains(w));
                }
            }
            i += 1;
        }
        proof {
            assert(done =~= spoken);
            assert(self.documents() == mid.documents());
            assert forall|w: Seq<char>, u: Seq<char>|
                self.has_unigram(w, u) <==> old(self).has_unigram(w, u) || (u == url && occurs(
                    spoken,
                    w,
                )) by {
                if self.documents().contains_key(u) {
                    assert(mid.posted_unigram(w, self.documents()[u]) == old(self).posted_unigram(
                        w,
                        self.documents()[u],
                    ));
                }
            }
            assert forall|a: Seq<char>, b: Seq<char>, u: Seq<char>|
                self.has_bigram(a, b, u) <==> old(self).has_bigram(a, b, u) || (u == url
                    && adjacent(spoken, a, b)) by {
                if self.documents().contains_key(u) {
                    assert(mid.posted_bigram(a, b, self.documents()[u]) == old(self).posted_bigram(
                        a,
                        b,
                        self.documents()[u],
                    ));
                }
            }
        }
    }
}

/// A sequence with one more element holds what it held, and that element.
pub proof fn lemma_push_contains(s: Seq<Seq<char>>, last: Seq<char>, w: Seq<char>)
    ensures
        s.push(last).contains(w) <==> s.contains(w) || w == last,
{
    if s.contains(w) {
        let j = choose|j: int| 0 <= j < s.len() && s[j] == w;
        assert(s.push(last)[j] == w);
    }
    if w == last {
        assert(s.push(last)[s.len() as int] == w);
    }
    if s.push(last).contains(w) {
        let j = choose|j: int| 0 <= j < s.push(last).len() && s.push(last)[j] == w;
        if j < s.len() {
            assert(s[j] == w);
        }
    }
}

/// A text with one more word has the neighbours it had, and the pair made
/// of its former last word and the new one.
pub proof fn lemma_neighbours_step(text: Seq<Seq<char>>, next: Seq<char>)
    requires
        text.len() > 0,
    ensures
        forall|a: Seq<char>, b: Seq<char>|
            neighbours(text.push(next), a, b) <==> neighbours(text, a, b) || (a == text.last() && b
                == next),
{
    let longer = text.push(next);
    assert forall|a: Seq<char>, b: Seq<char>|
        neighbours(longer, a, b) <==> neighbours(text, a, b) || (a == text.last() && b
            == next) by {
        if neighbours(longer, a, b) {
            let j = choose|j: int|
                0 <= j < longer.len() - 1 && #[trigger] longer[j] == a && longer[j + 1] == b;
            if j < text.len() - 1 {
                assert(text[j] == a && text[j + 1] == b);
            }
        }
        if neighbours(text, a, b) {
            let j = choose|j: int|
                0 <= j < text.len() - 1 && #[trigger] text[j] == a && text[j + 1] == b;
            assert(longer[j] == a && longer[j + 1] == b);
        }
        if a == text.last() && b == next {
            assert(longer[text.len() - 1] == a && longer[text.len() - 1 + 1] == b);
        }
    }
}

/// With one more text, the words and neighbours are those there were, and
/// those of the new text.
pub proof fn lemma_texts_step(texts: Seq<Seq<Seq<char>>>, next: Seq<Seq<char>>)
    ensures
        forall|w: Seq<char>|
            occurs(texts.push(next), w) <==> occurs(texts, w) || next.contains(w),
        forall|a: Seq<char>, b: Seq<char>|
            adjacent(texts.push(next), a, b) <==> adjacent(texts, a, b) || neighbours(next, a, b),
{
    let longer = texts.push(next);
    let i = texts.len() as int;
    assert forall|w: Seq<char>| occurs(longer, w) <==> occurs(texts, w) || next.contains(w) by {
        if occurs(longer, w) {
            let (n, j) = choose|n: int, j: int|
                0 <= n < longer.len() && 0 <= j < longer[n].len() && #[trigger] longer[n][j] == w;
            if n < i {
                assert(texts[n][j] == w);
            } else {
                assert(next[j] == w);
            }
        }
        if occurs(texts, w) {
            let (n, j) = choose|n: int, j: int|
                0 <= n < texts.len() && 0 <= j < texts[n].len() && #[trigger] texts[n][j] == w;
            assert(longer[n][j] == w);
        }
        if next.contains(w) {
            let j = choose|j: int| 0 <= j < next.len() && next[j] == w;
            assert(longer[i][j] == w);
        }
    }
    assert forall|a: Seq<char>, b: Seq<char>|
        adjacent(longer, a, b) <==> adjacent(texts, a, b) || neighbours(next, a, b) by {
        if adjacent(longer, a, b) {
            let n = choose|n: int| 0 <= n < longer.len() && neighbours(#[trigger] longer[n], a, b);
            if n < i {
                assert(neighbours(texts[n], a, b));
            }
        }
        if adjacent(texts, a, b) {
            let n = choose|n: int| 0 <= n < texts.len() && neighbours(#[trigger] texts[n], a, b);
            assert(neighbours(longer[n], a, b));
        }
        if neighbours(next, a, b) {
            assert(neighbours(longer[i], a, b));
        }
    }
}

/// What has been filed: which word occurs at which URL, and which pair of
/// neighbours.
pub struct Corpus {
    /// The pairs of a URL and a word that occurs there.
    pub words: Set<(Seq<char>, Seq<char>)>,
    /// The triples of a URL and two words that are neighbours there.
    pub pairs: Set<(Seq<char>, Seq<char>, Seq<char>)>,
}

impl Corpus {
    /// The corpus in which nothing has been filed.
    pub open spec fn empty() -> Corpus {
        Corpus { words: Set::empty(), pairs: Set::empty() }
    }

    /// This corpus with `texts` filed at `url`.
    pub open spec fn with(self, url: Seq<char>, texts: Seq<Seq<Seq<char>>>) -> Corpus {
        Corpus {
            words: Set::new(
                |p: (Seq<char>, Seq<char>)|
                    self.words.contains(p) || (p.0 == url && occurs(texts, p.1)),
            ),
            pairs: Set::new(
                |p: (Seq<char>, Seq<char>, Seq<char>)|
                    self.pairs.contains(p) || (p.0 == url && adjacent(texts, p.1, p.2)),
            ),
        }
    }
}

/// Whether the postings of `index` say exactly what `corpus` holds: a
/// document is filed under a word if and only if the word occurs in a text
/// filed at its URL, and under a pair if and only if the two are neighbours
/// in such a text.
pub open spec fn reflects(index: &Index, corpus: Corpus) -> bool {
    &&& forall|w: Seq<char>, u: Seq<char>|
        index.has_unigram(w, u) <==> #[trigger] corpus.words.contains((u, w))
    &&& forall|a: Seq<char>, b: Seq<char>, u: Seq<char>|
        index.has_bigram(a, b, u) <==> #[trigger] corpus.pairs.contains((u, a, b))
}

/// An index that knows no document reflects the empty corpus.
pub proof fn lemma_blank_index_reflects_nothing(index: &Index)
    requires
        index.documents() == Map::<Seq<char>, u32>::empty(),
    ensures
        reflects(index, Corpus::empty()),
{
}

/// Filing keeps the postings true to the texts: where an index reflects a
/// corpus, the index after filing `texts` at `url` reflects the corpus with
/// those texts at that URL. So every posting of a word stems from a text that
/// was filed at the document's URL and holds the word, and every such text
/// has its postings.
pub proof fn lemma_filing_reflects(
    before: &Index,
    after: &Index,
    url: Seq<char>,
    texts: Seq<Seq<Seq<char>>>,
    corpus: Corpus,
)
    requires
        files(before, after, url, texts),
        reflects(before, corpus),
    ensures
        reflects(after, corpus.with(url, texts)),
{
    let grown = corpus.with(url, texts);
    assert forall|w: Seq<char>, u: Seq<char>|
        after.has_unigram(w, u) <==> #[trigger] grown.words.contains((u, w)) by {
        assert(before.has_unigram(w, u) <==> corpus.words.contains((u, w)));
    }
    assert forall|a: Seq<char>, b: Seq<char>, u: Seq<char>|
        after.has_bigram(a, b, u) <==> #[trigger] grown.pairs.contains((u, a, b)) by {
        assert(before.has_bigram(a, b, u) <==> corpus.pairs.contains((u, a, b)));
    }
}

/// Filing the same texts at the same URL a second time adds nothing.
pub proof fn lemma_filing_again_adds_nothing(
    corpus: Corpus,
    url: Seq<char>,
    texts: Seq<Seq<Seq<char>>>,
)
    ensures
        corpus.with(url, texts).with(url, texts) == corpus.with(url, texts),
{
    let once = corpus.with(url, texts);
    let twice = once.with(url, texts);
    assert(twice.words =~= once.words);
    assert(twice.pairs =~= once.pairs);
}

/// Filing once more what has been filed leaves every posting as it is: the
/// same documents are filed under each word and under each pair as before.
pub proof fn lemma_refiling_keeps_postings(
    before: &Index,
    after: &Index,
    url: Seq<char>,
    texts: Seq<Seq<Seq<char>>>,
    corpus: Corpus,
)
    requires
        files(before, after, url, texts),
        reflects(before, corpus.with(url, texts)),
    ensures
        reflects(after, corpus.with(url, texts)),
        forall|w: Seq<char>| after.unigram_documents(w) == before.unigram_documents(w),
        forall|a: Seq<char>, b: Seq<char>|
            after.bigram_documents(a, b) == before.bigram_documents(a, b),
{
    let filed = corpus.with(url, texts);
    lemma_filing_reflects(before, after, url, texts, filed);
    lemma_filing_again_adds_nothing(corpus, url, texts);
    lemma_same_corpus_same_postings(after, before, filed);
}

/// The order in which two documents are filed does not matter.
pub proof fn lemma_filing_order_is_free(
    corpus: Corpus,
    url: Seq<char>,
    texts: Seq<Seq<Seq<char>>>,
    other_url: Seq<char>,
    other_texts: Seq<Seq<Seq<char>>>,
)
    ensures
        corpus.with(url, texts).with(other_url, other_texts) == corpus.with(
            other_url,
            other_texts,
        ).with(url, texts),
{
    let one = corpus.with(url, texts).with(other_url, other_texts);
    let other = corpus.with(other_url, other_texts).with(url, texts);
    assert(one.words =~= other.words);
    assert(one.pairs =~= other.pairs);
}

/// Two indexes that reflect the same corpus answer alike: the same
/// documents are filed under each word and under each pair.
pub proof fn lemma_same_corpus_same_postings(one: &Index, other: &Index, corpus: Corpus)
    requires
        reflects(one, corpus),
        reflects(other, corpus),
    ensures
        forall|w: Seq<char>| one.unigram_documents(w) == other.unigram_documents(w),
        forall|a: Seq<char>, b: Seq<char>| one.bigram_documents(a, b) == other.bigram_documents(a, b),
{
    assert forall|w: Seq<char>| one.unigram_documents(w) == other.unigram_documents(w) by {
        assert forall|u: Seq<char>|
            one.unigram_documents(w).contains(u) <==> other.unigram_documents(w).contains(u) by {
            assert(one.has_unigram(w, u) <==> corpus.words.contains((u, w)));
            assert(other.has_unigram(w, u) <==> corpus.words.contains((u, w)));
        }
        assert(one.unigram_documents(w) =~= other.unigram_documents(w));
    }
    assert forall|a: Seq<char>, b: Seq<char>|
        one.bigram_documents(a, b) == other.bigram_documents(a, b) by {
        assert forall|u: Seq<char>|
            one.bigram_documents(a, b).contains(u) <==> other.bigram_documents(a, b).contains(
                u,
            ) by {
            assert(one.has_bigram(a, b, u) <==> corpus.pairs.contains((u, a, b)));
            assert(other.has_bigram(a, b, u) <==> corpus.pairs.contains((u, a, b)));
        }
        assert(one.bigram_documents(a, b) =~= other.bigram_documents(a, b));
    }
}

} // verus!
