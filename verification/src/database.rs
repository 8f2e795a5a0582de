//! The document cache: for each URL, the body that was fetched there and the
//! texts that were drawn from it, so that a second crawl need not fetch
//! again.
//!
//! What is kept here lives in memory. The rules are those of any store that
//! stands behind a crawl: a body and the texts of one URL are written
//! independently of each other, and what cannot be read back counts as
//! absent.

use crate::document::{can_be_parsed, resp_to_document, Document};
use crate::sorting::{canonical_texts, sorted_from};
use vstd::prelude::*;

verus! {

/// The bytes that stand for `texts` in the cache; nothing where they cannot
/// be written.
pub uninterp spec fn texts_as_bytes(texts: Seq<Seq<Seq<char>>>) -> Option<Seq<u8>>;

/// The texts that `bytes` stand for; nothing where they stand for none.
pub uninterp spec fn bytes_as_texts(bytes: Seq<u8>) -> Option<Seq<Seq<Seq<char>>>>;

/// The bytes of an optional byte string.
pub open spec fn bytes_view(bytes: Option<Vec<u8>>) -> Option<Seq<u8>> {
    match bytes {
        Some(b) => Some(b@),
        None => None,
    }
}

/// The words of optional texts.
pub open spec fn texts_view(texts: Option<Vec<Vec<String>>>) -> Option<Seq<Seq<Seq<char>>>> {
    match texts {
        Some(t) => Some(t.deep_view()),
        None => None,
    }
}

/// The characters of an optional string.
pub open spec fn body_view(body: Option<String>) -> Option<Seq<char>> {
    match body {
        Some(b) => Some(b@),
        None => None,
    }
}

/// `bincode::serialize` on a list of lists of strings: the bytes are what
/// [`texts_as_bytes`] names.
#[verifier::external_body]
pub(crate) fn serialize_texts(texts: &Vec<Vec<String>>) -> (bytes: Option<Vec<u8>>)
    ensures
        bytes_view(bytes) == texts_as_bytes(texts.deep_view()),
{
    bincode::serialize(texts).ok()
}

/// `bincode::deserialize` to a list of lists of strings: the texts are what
/// [`bytes_as_texts`] names.
#[verifier::external_body]
pub(crate) fn deserialize_texts(bytes: &Vec<u8>) -> (texts: Option<Vec<Vec<String>>>)
    ensures
        texts_view(texts) == bytes_as_texts(bytes@),
{
    bincode::deserialize(bytes.as_slice()).ok()
}

/// The bytes under which `texts` are stored: those that stand for the texts
/// in ascending order, each once. They depend on which texts there are, not
/// on their order nor on how often each is given.
pub open spec fn stored_bytes(texts: Seq<Seq<Seq<char>>>) -> Option<Seq<u8>> {
    texts_as_bytes(sorted_from(texts.to_set()))
}

/// The bytes under which `texts` are stored, where they can be written.
pub fn encode_texts(texts: &Vec<Vec<String>>) -> (bytes: Option<Vec<u8>>)
    ensures
        bytes_view(bytes) == stored_bytes(texts.deep_view()),
{
    let ordered = canonical_texts(texts);
    serialize_texts(&ordered)
}

/// The same set of texts is stored under the same bytes, in whatever order
/// the texts are given and however often.
pub proof fn lemma_same_texts_same_bytes(one: Seq<Seq<Seq<char>>>, other: Seq<Seq<Seq<char>>>)
    requires
        one.to_set() == other.to_set(),
    ensures
        stored_bytes(one) == stored_bytes(other),
{
}

/// The texts that `bytes` stand for, where they stand for any.
pub fn decode_texts(bytes: &Vec<u8>) -> (texts: Option<Vec<Vec<String>>>)
    ensures
        texts_view(texts) == bytes_as_texts(bytes@),
{
    deserialize_texts(bytes)
}

/// One row of the cache. Each field but the key may be absent.
#[derive(Debug, PartialEq, Eq)]
pub struct CacheRow {
    /// The canonical URL of the document.
    pub document_id: String,
    /// The body as it was fetched.
    pub body: Option<String>,
    /// The texts drawn from the body, as bytes.
    pub extracted_text: Option<Vec<u8>>,
}

/// The cache: at most one row for each URL.
#[derive(Debug, PartialEq, Eq)]
pub struct Cache {
    pub rows: Vec<CacheRow>,
}

/// The position of the row of `rows` for `document_id`, if there is one.
pub open spec fn row_at(rows: Seq<CacheRow>, document_id: Seq<char>) -> Option<int>
    decreases rows.len(),
{
    if rows.len() == 0 {
        None
    } else if rows.last().document_id@ == document_id {
        Some(rows.len() - 1)
    } else {
        row_at(rows.drop_last(), document_id)
    }
}

/// Whether no two of `rows` have the same URL.
pub open spec fn distinct_ids(rows: Seq<CacheRow>) -> bool {
    forall|j: int, k: int|
        0 <= j < k < rows.len() ==> (#[trigger] rows[j]).document_id@ != (
        #[trigger] rows[k]).document_id@
}

/// The body that `rows` hold for `document_id`, if any.
pub open spec fn body_in(rows: Seq<CacheRow>, document_id: Seq<char>) -> Option<Seq<char>> {
    match row_at(rows, document_id) {
        Some(j) => body_view(rows[j].body),
        None => None,
    }
}

/// The bytes that `rows` hold for the texts of `document_id`, if any.
pub open spec fn bytes_in(rows: Seq<CacheRow>, document_id: Seq<char>) -> Option<Seq<u8>> {
    match row_at(rows, document_id) {
        Some(j) => bytes_view(rows[j].extracted_text),
        None => None,
    }
}

impl Cache {
    /// The invariant of the cache: no two rows have the same URL.
    pub open spec fn wf(&self) -> bool {
        distinct_ids(self.rows@)
    }

    /// The body stored for `document_id`, if any.
    pub open spec fn body_of(&self, document_id: Seq<char>) -> Option<Seq<char>> {
        body_in(self.rows@, document_id)
    }

    /// The bytes stored for the texts of `document_id`, if any.
    pub open spec fn bytes_of(&self, document_id: Seq<char>) -> Option<Seq<u8>> {
        bytes_in(self.rows@, document_id)
    }

    /// The texts stored for `document_id`, if any can be read.
    pub open spec fn texts_of(&self, document_id: Seq<char>) -> Option<Seq<Seq<Seq<char>>>> {
        match self.bytes_of(document_id) {
            Some(bytes) => bytes_as_texts(bytes),
            None => None,
        }
    }

    /// A cache without rows.
    pub fn new() -> (cache: Cache)
        ensures
            cache.wf(),
            forall|id: Seq<char>| cache.body_of(id) is None && cache.bytes_of(id) is None,
    {
        Cache { rows: Vec::new() }
    }

    /// The position of the row for `document_id`, if there is one.
    pub fn find_row(&self, document_id: &str) -> (at: Option<usize>)
        requires
            self.wf(),
        ensures
            match at {
                Some(j) => row_at(self.rows@, document_id@) == Some(j as int) && j
                    < self.rows.len() && self.rows[j as int].document_id@ == document_id@,
                None => row_at(self.rows@, document_id@) is None,
            },
    {
        let wanted = document_id.to_owned();
        let mut j: usize = self.rows.len();
        assert(self.rows@.take(j as int) =~= self.rows@);
        while j > 0
            invariant
                j <= self.rows.len(),
                wanted@ == document_id@,
                row_at(self.rows@, document_id@) == row_at(self.rows@.take(j as int), document_id@),
            decreases j,
        {
            j -= 1;
            assert(self.rows@.take(j + 1).last() == self.rows[j as int]);
            assert(self.rows@.take(j + 1).drop_last() =~= self.rows@.take(j as int));
            if self.rows[j].document_id == wanted {
                return Some(j);
            }
        }
        None
    }

    /// Stores `body` as the body of `document_id`. The texts stored for it,
    /// and every other row, stay as they are.
    pub fn save_document(&mut self, document_id: &str, body: &str)
        requires
            old(self).wf(),
        ensures
            final(self).wf(),
            final(self).body_of(document_id@) == Some(body@),
            final(self).bytes_of(document_id@) == old(self).bytes_of(document_id@),
            forall|other: Seq<char>|
                other != document_id@ ==> final(self).body_of(other) == old(self).body_of(other)
                    && final(self).bytes_of(other) == old(self).bytes_of(other),
    {
        match self.find_row(document_id) {
            Some(j) => {
                let ghost before = self.rows@;
                self.rows[j].body = Some(body.to_owned());
                proof {
                    lemma_row_written(before, self.rows@, document_id@);
                }
            },
            None => {
                let ghost before = self.rows@;
                self.rows.push(
                    CacheRow {
                        document_id: document_id.to_owned(),
                        body: Some(body.to_owned()),
                        extracted_text: None,
                    },
                );
                proof {
                    lemma_row_written(before, self.rows@, document_id@);
                }
            },
        }
    }

    /// Stores `texts` as the texts of `document_id`, and says whether they
    /// could be written. The body stored for it, and every other row, stay as
    /// they are; where the texts cannot be written, so does the whole cache.
    pub fn save_texts(&mut self, document_id: &str, texts: &Vec<Vec<String>>) -> (saved: bool)
        requires
            old(self).wf(),
        ensures
            final(self).wf(),
            saved == stored_bytes(texts.deep_view()) is Some,
            !saved ==> *final(self) == *old(self),
            saved ==> final(self).bytes_of(document_id@) == stored_bytes(texts.deep_view()),
            final(self).body_of(document_id@) == old(self).body_of(document_id@),
            forall|other: Seq<char>|
                other != document_id@ ==> final(self).body_of(other) == old(self).body_of(other)
                    && final(self).bytes_of(other) == old(self).bytes_of(other),
    {
        let bytes = match encode_texts(texts) {
            Some(bytes) => bytes,
            None => {
                return false;
            },
        };
        match self.find_row(document_id) {
            Some(j) => {
                let ghost before = self.rows@;
                self.rows[j].extracted_text = Some(bytes);
                proof {
                    lemma_row_written(before, self.rows@, document_id@);
                }
            },
            None => {
                let ghost before = self.rows@;
                self.rows.push(
                    CacheRow {
                        document_id: document_id.to_owned(),
                        body: None,
                        extracted_text: Some(bytes),
                    },
                );
                proof {
                    lemma_row_written(before, self.rows@, document_id@);
                }
            },
        }
        true
    }

    /// The body stored for `document_id`, if any.
    pub fn read_body(&self, document_id: &str) -> (body: Option<String>)
        requires
            self.wf(),
        ensures
            body_view(body) == self.body_of(document_id@),
    {
        match self.find_row(document_id) {
            Some(j) => match &self.rows[j].body {
                Some(body) => Some(body.clone()),
                None => None,
            },
            None => None,
        }
    }

    /// The document stored for `document_id`, parsed, if a body is stored
    /// and is short enough to be parsed.
    pub fn read_document(&self, document_id: &str) -> (document: Option<Document>)
        requires
            self.wf(),
        ensures
            document is Some <==> self.body_of(document_id@) is Some && can_be_parsed(
                self.body_of(document_id@)->0,
            ),
            document matches Some(d) ==> d.parsed_from(self.body_of(document_id@)->0),
    {
        match self.read_body(document_id) {
            Some(body) => resp_to_document(body),
            None => None,
        }
    }

    /// The texts stored for `document_id`, if any are stored and can be
    /// read.
    pub fn read_texts(&self, document_id: &str) -> (texts: Option<Vec<Vec<String>>>)
        requires
            self.wf(),
        ensures
            texts_view(texts) == self.texts_of(document_id@),
    {
        match self.find_row(document_id) {
            Some(j) => match &self.rows[j].extracted_text {
                Some(bytes) => deserialize_texts(bytes),
                None => None,
            },
            None => None,
        }
    }
}

/// What writing the row of `id` does to a list of rows without doubles:
/// where the row is changed in place and keeps its URL, or where there was
/// none and one is put behind the others, the list stays without doubles, the
/// row of `id` is the one written, and every other URL keeps what it had.
pub proof fn lemma_row_written(before: Seq<CacheRow>, after: Seq<CacheRow>, id: Seq<char>)
    requires
        distinct_ids(before),
        match row_at(before, id) {
            Some(j) => after.len() == before.len() && after[j].document_id@ == id && forall|k: int|
                0 <= k < before.len() && k != j ==> after[k] == before[k],
            None => after.len() == before.len() + 1 && after.drop_last() =~= before
                && after.last().document_id@ == id,
        },
    ensures
        distinct_ids(after),
        row_at(after, id) == (match row_at(before, id) {
            Some(j) => Some(j),
            None => Some(before.len() as int),
        }),
        forall|other: Seq<char>|
            other != id ==> body_in(after, other) == body_in(before, other) && bytes_in(
                after,
                other,
            ) == bytes_in(before, other),
{
    lemma_row_at_is_a_row(before, id);
    match row_at(before, id) {
        Some(j) => {
            assert forall|k: int| 0 <= k < before.len() implies (#[trigger] after[k]).document_id@
                == before[k].document_id@ by {}
            assert forall|other: Seq<char>| row_at(after, other) == row_at(before, other) by {
                lemma_row_at_same_ids(before, after, other);
            }
            assert forall|other: Seq<char>| other != id implies body_in(after, other) == body_in(
                before,
                other,
            ) && bytes_in(after, other) == bytes_in(before, other) by {
                lemma_row_at_is_a_row(before, other);
            }
            assert forall|a: int, b: int| 0 <= a < b < after.len() implies (
            #[trigger] after[a]).document_id@ != (#[trigger] after[b]).document_id@ by {
                assert(after[a].document_id@ == before[a].document_id@);
                assert(after[b].document_id@ == before[b].document_id@);
            }
        },
        None => {
            assert forall|other: Seq<char>| other != id implies body_in(after, other) == body_in(
                before,
                other,
            ) && bytes_in(after, other) == bytes_in(before, other) by {
                lemma_row_at_is_a_row(before, other);
                if row_at(before, other) is Some {
                    assert(after[row_at(before, other)->0] == before[row_at(before, other)->0]);
                }
            }
            assert forall|a: int, b: int| 0 <= a < b < after.len() implies (
            #[trigger] after[a]).document_id@ != (#[trigger] after[b]).document_id@ by {
                assert(after[a] == before[a]);
                if b < before.len() {
                    assert(after[b] == before[b]);
                }
            }
        },
    }
}

/// Two lists of rows with the same URLs at the same places give each URL the
/// same row.
pub proof fn lemma_row_at_same_ids(before: Seq<CacheRow>, after: Seq<CacheRow>, id: Seq<char>)
    requires
        after.len() == before.len(),
        forall|k: int|
            0 <= k < before.len() ==> (#[trigger] after[k]).document_id@ == before[k].document_id@,
    ensures
        row_at(after, id) == row_at(before, id),
    decreases before.len(),
{
    if before.len() > 0 {
        assert(after.last().document_id@ == before.last().document_id@);
        assert forall|k: int| 0 <= k < before.drop_last().len() implies (
        #[trigger] after.drop_last()[k]).document_id@ == before.drop_last()[k].document_id@ by {
            assert(after[k].document_id@ == before[k].document_id@);
        }
        lemma_row_at_same_ids(before.drop_last(), after.drop_last(), id);
    }
}

/// A row is found only where it is, and only under its own URL.
pub proof fn lemma_row_at_is_a_row(rows: Seq<CacheRow>, id: Seq<char>)
    ensures
        match row_at(rows, id) {
            Some(j) => 0 <= j < rows.len() && rows[j].document_id@ == id,
            None => forall|k: int| 0 <= k < rows.len() ==> (#[trigger] rows[k]).document_id@ != id,
        },
    decreases rows.len(),
{
    if rows.len() > 0 && rows.last().document_id@ != id {
        lemma_row_at_is_a_row(rows.drop_last(), id);
        if row_at(rows, id) is None {
            assert forall|k: int| 0 <= k < rows.len() implies (#[trigger] rows[k]).document_id@
                != id by {
                if k < rows.len() - 1 {
                    assert(rows.drop_last()[k] == rows[k]);
                }
            }
        }
    }
}

} // verus!
