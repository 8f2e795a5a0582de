//! Documents: what a fetched page holds, and the texts and links that are
//! drawn from it.

use crate::links::{extract_links_same_domain, hrefs_view, links_followed};
use crate::text::{
    contains_visible_char, has_visible_char, is_whitespace, lemma_visible_has_word,
    lowercase_each, lowercase_words, separates, split_words, words, Spacing,
};
use select::predicate::Name;
use select::predicate::Text;
use vstd::prelude::*;

verus! {

/// The text of each text node of the HTML page `body`, in document order.
pub uninterp spec fn text_nodes_of(body: Seq<char>) -> Seq<Seq<char>>;

/// For each anchor element of the HTML page `body`, in document order, the
/// value of its `href` attribute if it has one.
pub uninterp spec fn anchor_links_of(body: Seq<char>) -> Seq<Option<Seq<char>>>;

/// For each `title` element of the HTML page `body`, in document order, its
/// text.
pub uninterp spec fn titles_of(body: Seq<char>) -> Seq<Seq<char>>;

/// The longest body that is parsed, in bytes.
///
/// The parser keeps each piece of text in a buffer that cannot pass 2^31
/// bytes: it stops the program rather than let one grow further. It joins
/// neighbouring runs of text into one buffer, and it may write three bytes
/// for one byte of the body, where it puts the replacement character for a
/// NUL byte. So no buffer holds more than three times the bytes of the body,
/// and a body of 2^28 bytes keeps every buffer below 2^30.
pub const MAX_BODY_BYTES: usize = 0x1000_0000;

/// Whether a body of these characters is short enough to be parsed: written
/// as UTF-8 it has at most [`MAX_BODY_BYTES`] bytes.
pub open spec fn can_be_parsed(body: Seq<char>) -> bool {
    vstd::utf8::encode_utf8(body).len() <= MAX_BODY_BYTES
}

/// A parsed page: what the crawl reads of it.
#[derive(Debug, PartialEq, Eq)]
pub struct Document {
    /// The text of each text node, in document order.
    pub texts: Vec<String>,
    /// For each anchor, in document order, its link if it has one.
    pub links: Vec<Option<String>>,
    /// The text of each title element, in document order.
    pub titles: Vec<String>,
}

impl Document {
    /// Whether this document is what parsing `body` gives.
    pub open spec fn parsed_from(&self, body: Seq<char>) -> bool {
        &&& self.texts.deep_view() == text_nodes_of(body)
        &&& hrefs_view(self.links@) == anchor_links_of(body)
        &&& self.titles.deep_view() == titles_of(body)
    }
}

/// `select::document::Document::from`, then `Document::find` with the
/// predicate `Text` and `Node::text` on each node found: the texts are what
/// [`text_nodes_of`] names. The body must be short enough: the parser stops
/// the program where one of its buffers would pass 2^31 bytes, which
/// [`MAX_BODY_BYTES`] rules out.
#[verifier::external_body]
pub(crate) fn html_text_nodes(body: &str) -> (texts: Vec<String>)
    requires
        can_be_parsed(body@),
    ensures
        texts.deep_view() == text_nodes_of(body@),
{
    select::document::Document::from(body).find(Text).map(|node| node.text()).collect()
}

/// `select::document::Document::from`, then `Document::find` with the
/// predicate `Name("a")` and `Node::attr` for `href` on each node found: the
/// links are what [`anchor_links_of`] names. The body must be short enough,
/// as for [`html_text_nodes`].
#[verifier::external_body]
pub(crate) fn html_anchor_links(body: &str) -> (links: Vec<Option<String>>)
    requires
        can_be_parsed(body@),
    ensures
        hrefs_view(links@) == anchor_links_of(body@),
{
    select::document::Document::from(body).find(Name("a")).map(
        |node| node.attr("href").map(String::from),
    ).collect()
}

/// `select::document::Document::from`, then `Document::find` with the
/// predicate `Name("title")` and `Node::text` on each node found: the titles
/// are what [`titles_of`] names. The body must be short enough, as for
/// [`html_text_nodes`].
#[verifier::external_body]
pub(crate) fn html_titles(body: &str) -> (titles: Vec<String>)
    requires
        can_be_parsed(body@),
    ensures
        titles.deep_view() == titles_of(body@),
{
    select::document::Document::from(body).find(Name("title")).map(|node| node.text()).collect()
}

/// The words of a node's text, lowercased, if the text holds a character
/// that is not whitespace. Words are separated by ASCII whitespace.
pub open spec fn searchable(text: Seq<char>) -> Option<Seq<Seq<char>>> {
    if has_visible_char(text) {
        Some(lowercase_each(words(text, Spacing::Ascii)))
    } else {
        None
    }
}

/// The searchable texts of the nodes `nodes`, in the order of their first
/// occurrence, each once.
pub open spec fn distinct_texts(nodes: Seq<Seq<char>>) -> Seq<Seq<Seq<char>>>
    decreases nodes.len(),
{
    if nodes.len() == 0 {
        Seq::empty()
    } else {
        let before = distinct_texts(nodes.drop_last());
        match searchable(nodes.last()) {
            Some(text) => if before.contains(text) {
                before
            } else {
                before.push(text)
            },
            None => before,
        }
    }
}

/// The words of each of several texts.
pub open spec fn deep_option(text: Option<Vec<String>>) -> Option<Seq<Seq<char>>> {
    match text {
        Some(v) => Some(v.deep_view()),
        None => None,
    }
}

/// Parses a response body. Every body that is short enough is a page: what
/// is no HTML is read as text. A body of more than [`MAX_BODY_BYTES`] bytes is
/// no document.
pub fn resp_to_document(resp_body: String) -> (document: Option<Document>)
    ensures
        document is Some <==> can_be_parsed(resp_body@),
        document matches Some(d) ==> d.parsed_from(resp_body@),
{
    let body = resp_body.as_str();
    if body.as_bytes().len() > MAX_BODY_BYTES {
        return None;
    }
    Some(
        Document {
            texts: html_text_nodes(body),
            links: html_anchor_links(body),
            titles: html_titles(body),
        },
    )
}

/// The lowercased words of `text`, if it holds a character that is not
/// whitespace.
pub fn find_searchable_text(text: &str) -> (found: Option<Vec<String>>)
    ensures
        deep_option(found) == searchable(text@),
        found matches Some(t) ==> t.len() > 0,
{
    proof {
        lemma_searchable_has_words(text@);
    }
    if contains_visible_char(text) {
        let split = split_words(text, Spacing::Ascii);
        Some(lowercase_words(&split))
    } else {
        None
    }
}

/// Whether `a` and `b` hold the same words in the same order.
pub fn same_words(a: &Vec<String>, b: &Vec<String>) -> (same: bool)
    ensures
        same == (a.deep_view() == b.deep_view()),
{
    if a.len() != b.len() {
        assert(a.deep_view().len() != b.deep_view().len());
        return false;
    }
    let mut i: usize = 0;
    while i < a.len()
        invariant
            i <= a.len(),
            a.len() == b.len(),
            forall|j: int| 0 <= j < i ==> a[j]@ == b[j]@,
        decreases a.len() - i,
    {
        if a[i] != b[i] {
            assert(a.deep_view()[i as int] != b.deep_view()[i as int]);
            return false;
        }
        i += 1;
    }
    assert(a.deep_view() =~= b.deep_view());
    true
}

/// Whether `text` is one of `texts`.
pub fn contains_text(texts: &Vec<Vec<String>>, text: &Vec<String>) -> (found: bool)
    ensures
        found == texts.deep_view().contains(text.deep_view()),
{
    let mut i: usize = 0;
    while i < texts.len()
        invariant
            i <= texts.len(),
            forall|j: int| 0 <= j < i ==> texts.deep_view()[j] != text.deep_view(),
        decreases texts.len() - i,
    {
        if same_words(&texts[i], text) {
            assert(texts.deep_view()[i as int] == text.deep_view());
            return true;
        }
        i += 1;
    }
    false
}

/// The searchable texts of `nodes`, in the order of their first occurrence,
/// each once.
pub fn texts_of_nodes(nodes: &Vec<String>) -> (texts: Vec<Vec<String>>)
    ensures
        texts.deep_view() == distinct_texts(nodes.deep_view()),
        texts.deep_view().no_duplicates(),
{
    let ghost all = nodes.deep_view();
    let mut texts: Vec<Vec<String>> = Vec::new();
    let mut i: usize = 0;
    assert(all.take(0) =~= Seq::<Seq<char>>::empty());
    assert(texts.deep_view() =~= Seq::<Seq<Seq<char>>>::empty());
    while i < nodes.len()
        invariant
            i <= nodes.len(),
            all == nodes.deep_view(),
            texts.deep_view() == distinct_texts(all.take(i as int)),
        decreases nodes.len() - i,
    {
        proof {
            assert(all.take(i + 1).drop_last() =~= all.take(i as int));
            assert(all.take(i + 1).last() == nodes[i as int]@);
        }
        let ghost before = texts.deep_view();
        match find_searchable_text(nodes[i].as_str()) {
            Some(text) => {
                if !contains_text(&texts, &text) {
                    texts.push(text);
                    assert(texts.deep_view() =~= before.push(text.deep_view()));
                }
            },
            None => {},
        }
        i += 1;
    }
    proof {
        assert(all.take(i as int) =~= all);
        lemma_distinct_texts_no_duplicates(all);
    }
    texts
}

/// The searchable texts of `document`: for each text node that holds a
/// character that is not whitespace, its lowercased words; each text once.
pub fn extract_texts(document: &Document) -> (texts: Vec<Vec<String>>)
    ensures
        texts.deep_view() == distinct_texts(document.texts.deep_view()),
        texts.deep_view().no_duplicates(),
{
    texts_of_nodes(&document.texts)
}

/// The URLs to crawl for the links of `document`, the page at `base`.
pub fn extract_links(base: &str, document: &Document) -> (links: Vec<String>)
    ensures
        links.deep_view() == links_followed(base@, hrefs_view(document.links@)),
{
    extract_links_same_domain(base, &document.links)
}

/// A searchable text has at least one word: a character that is not
/// whitespace is no ASCII whitespace either, so it stands in a word.
pub proof fn lemma_searchable_has_words(text: Seq<char>)
    ensures
        searchable(text) matches Some(t) ==> t.len() > 0,
{
    if has_visible_char(text) {
        let i = choose|i: int| 0 <= i < text.len() && !is_whitespace(#[trigger] text[i]);
        assert(!separates(Spacing::Ascii, text[i]));
        lemma_visible_has_word(text, Spacing::Ascii);
    }
}

/// No text occurs twice among the searchable texts of a page.
pub proof fn lemma_distinct_texts_no_duplicates(nodes: Seq<Seq<char>>)
    ensures
        distinct_texts(nodes).no_duplicates(),
    decreases nodes.len(),
{
    if nodes.len() > 0 {
        lemma_distinct_texts_no_duplicates(nodes.drop_last());
    }
}

} // verus!
