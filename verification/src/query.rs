//! Queries: the syntax of a query line, and its evaluation against an index.
//!
//! A query line holds an optional phrase in double quotes, to be matched
//! exactly, followed by optional bare words, all of which must occur. Only
//! the first line of the input counts.

use crate::index::{is_listing, Index};
use crate::text::{
    char_is_whitespace, chars_of, copy_range, is_whitespace, lemma_blank_has_no_words,
    lowercase_each, lowercase_words, separates, split_char_words, words, Spacing,
};
use vstd::prelude::*;

verus! {

/// A parsed query.
#[derive(Debug)]
pub struct Query {
    /// The words of the quoted phrase, lowercased; at least two where present.
    pub exact_ngram: Option<Vec<String>>,
    /// The bare words, lowercased; at least one where present.
    pub unigrams: Option<Vec<String>>,
}

/// The position of the first line feed of `s` at or after `from`, or the
/// length of `s` where there is none.
pub open spec fn line_end(s: Seq<char>, from: int) -> int
    decreases s.len() - from,
{
    if from < 0 || from >= s.len() {
        s.len() as int
    } else if s[from] == '\n' {
        from
    } else {
        line_end(s, from + 1)
    }
}

/// The position of the last double quote of `s` in `1 .. end`, or 0 where
/// there is none.
pub open spec fn last_quote(s: Seq<char>, end: int) -> int
    decreases end,
{
    if end <= 1 || end > s.len() {
        0
    } else if s[end - 1] == '"' {
        end - 1
    } else {
        last_quote(s, end - 1)
    }
}

/// The position of the first character of `s` at or after `from` that is not
/// whitespace, or the length of `s` where there is none.
pub open spec fn blank_end(s: Seq<char>, from: int) -> int
    decreases s.len() - from,
{
    if from < 0 || from >= s.len() {
        s.len() as int
    } else if !is_whitespace(s[from]) {
        from
    } else {
        blank_end(s, from + 1)
    }
}

/// Whether `s` opens with a quoted phrase: a double quote first, and another
/// one later on the same line.
pub open spec fn opens_quoted(s: Seq<char>) -> bool {
    s.len() > 0 && s[0] == '"' && last_quote(s, line_end(s, 1)) > 0
}

/// The text between the opening quote and the last quote of the first line,
/// where `s` opens with a quoted phrase.
pub open spec fn quoted_part(s: Seq<char>) -> Option<Seq<char>> {
    if opens_quoted(s) {
        Some(s.subrange(1, last_quote(s, line_end(s, 1))))
    } else {
        None
    }
}

/// The text of the bare words. After a quoted phrase it starts at the first
/// character behind the closing quote that is not whitespace; without one it
/// starts at the start of `s`. It ends with its line, and is absent where it
/// would be empty.
pub open spec fn bare_part(s: Seq<char>) -> Option<Seq<char>> {
    let start = if opens_quoted(s) {
        blank_end(s, last_quote(s, line_end(s, 1)) + 1)
    } else {
        0
    };
    if start < line_end(s, start) {
        Some(s.subrange(start, line_end(s, start)))
    } else {
        None
    }
}

/// The lowercased words of a part of the query, where the part is present.
pub open spec fn folded_words(part: Option<Seq<char>>) -> Option<Seq<Seq<char>>> {
    match part {
        Some(text) => Some(lowercase_each(words(text, Spacing::Unicode))),
        None => None,
    }
}

/// What a query asks for: the phrase to match exactly and the words that
/// must all occur.
pub struct Request {
    pub exact: Option<Seq<Seq<char>>>,
    pub unigrams: Option<Seq<Seq<char>>>,
}

/// The request made of a quoted phrase and bare words as they were written.
/// A phrase of one word is no phrase: the word joins the bare words, behind
/// them. A phrase without words, or bare words without a word, are absent.
pub open spec fn normalized(
    exact: Option<Seq<Seq<char>>>,
    unigrams: Option<Seq<Seq<char>>>,
) -> Request {
    let bare = match unigrams {
        Some(u) => u,
        None => Seq::empty(),
    };
    let phrase = match exact {
        Some(e) => e,
        None => Seq::empty(),
    };
    let all_bare = if phrase.len() == 1 {
        bare.push(phrase[0])
    } else {
        bare
    };
    Request {
        exact: if phrase.len() >= 2 {
            Some(phrase)
        } else {
            None
        },
        unigrams: if all_bare.len() >= 1 {
            Some(all_bare)
        } else {
            None
        },
    }
}

/// The request that the query line `s` makes.
pub open spec fn parsed(s: Seq<char>) -> Request {
    normalized(folded_words(quoted_part(s)), folded_words(bare_part(s)))
}

/// The documents that answer `request`: those that match the phrase, where
/// there is one, and hold every bare word, where there are any. A request
/// that asks for nothing has no answer, which is not the same as an answer
/// that holds no document.
pub open spec fn answer(index: &Index, request: Request) -> Option<Set<Seq<char>>> {
    match (request.exact, request.unigrams) {
        (None, None) => None,
        (Some(phrase), None) => Some(index.phrase_documents(phrase)),
        (None, Some(bare)) => Some(index.conjunction_documents(bare)),
        (Some(phrase), Some(bare)) => Some(
            index.phrase_documents(phrase).intersect(index.conjunction_documents(bare)),
        ),
    }
}

/// The words of `part`, where it is present.
pub open spec fn deep(part: Option<Vec<String>>) -> Option<Seq<Seq<char>>> {
    match part {
        Some(v) => Some(v.deep_view()),
        None => None,
    }
}

impl Query {
    /// What this query asks for.
    pub open spec fn request(&self) -> Request {
        Request { exact: deep(self.exact_ngram), unigrams: deep(self.unigrams) }
    }

    /// The invariant of a query: a phrase has at least two words, and the
    /// bare words, where present, are at least one.
    pub open spec fn wf(&self) -> bool {
        &&& self.exact_ngram matches Some(e) ==> e.len() >= 2
        &&& self.unigrams matches Some(u) ==> u.len() >= 1
    }
}

/// The position of the first line feed at or after `from`, or the length of
/// `chars`.
pub fn find_line_end(chars: &Vec<char>, from: usize) -> (end: usize)
    requires
        from <= chars.len(),
    ensures
        end == line_end(chars@, from as int),
        from <= end <= chars.len(),
{
    let mut i: usize = from;
    while i < chars.len() && chars[i] != '\n'
        invariant
            from <= i <= chars.len(),
            line_end(chars@, from as int) == line_end(chars@, i as int),
        decreases chars.len() - i,
    {
        i += 1;
    }
    i
}

/// The position of the last double quote in `1 .. end`, or 0.
pub fn find_last_quote(chars: &Vec<char>, end: usize) -> (at: usize)
    requires
        end <= chars.len(),
    ensures
        at == last_quote(chars@, end as int),
        at < end || at == 0,
{
    let mut e: usize = end;
    while e > 1 && chars[e - 1] != '"'
        invariant
            e <= end <= chars.len(),
            last_quote(chars@, end as int) == last_quote(chars@, e as int),
        decreases e,
    {
        e -= 1;
    }
    if e > 1 {
        e - 1
    } else {
        0
    }
}

/// The position of the first character at or after `from` that is not
/// whitespace, or the length of `chars`.
pub fn skip_blank(chars: &Vec<char>, from: usize) -> (at: usize)
    requires
        from <= chars.len(),
    ensures
        at == blank_end(chars@, from as int),
        from <= at <= chars.len(),
{
    let mut i: usize = from;
    while i < chars.len() && char_is_whitespace(chars[i])
        invariant
            from <= i <= chars.len(),
            blank_end(chars@, from as int) == blank_end(chars@, i as int),
        decreases chars.len() - i,
    {
        i += 1;
    }
    i
}

/// The lowercased words of the characters of `chars` in `from .. to`.
fn folded_range(chars: &Vec<char>, from: usize, to: usize) -> (out: Vec<String>)
    requires
        from <= to <= chars.len(),
    ensures
        out.deep_view() == lowercase_each(
            words(chars@.subrange(from as int, to as int), Spacing::Unicode),
        ),
{
    let part = copy_range(chars, from, to);
    let split = split_char_words(&part, Spacing::Unicode);
    lowercase_words(&split)
}

/// Makes a query of a phrase and bare words as they were written.
pub fn normalize(exact: Option<Vec<String>>, unigrams: Option<Vec<String>>) -> (q: Query)
    ensures
        q.wf(),
        q.request() == normalized(deep(exact), deep(unigrams)),
{
    let mut bare: Vec<String> = match unigrams {
        Some(u) => u,
        None => Vec::new(),
    };
    let phrase: Vec<String> = match exact {
        Some(e) => e,
        None => Vec::new(),
    };
    proof {
        if unigrams is None {
            assert(bare.deep_view() =~= Seq::<Seq<char>>::empty());
        }
        if exact is None {
            assert(phrase.deep_view() =~= Seq::<Seq<char>>::empty());
        }
    }
    let ghost bare_before = bare.deep_view();
    if phrase.len() == 1 {
        bare.push(phrase[0].clone());
        assert(bare.deep_view() =~= bare_before.push(phrase.deep_view()[0]));
    }
    let exact_ngram = if phrase.len() >= 2 {
        Some(phrase)
    } else {
        None
    };
    let unigrams = if bare.len() >= 1 {
        Some(bare)
    } else {
        None
    };
    Query { exact_ngram, unigrams }
}

/// Parses a query line.
pub fn parse_query(query_str: &str) -> (q: Query)
    ensures
        q.wf(),
        q.request() == parsed(query_str@),
{
    let chars = chars_of(query_str);
    let mut exact: Option<Vec<String>> = None;
    let mut start: usize = 0;
    if chars.len() > 0 && chars[0] == '"' {
        let first_line = find_line_end(&chars, 1);
        let closing = find_last_quote(&chars, first_line);
        if closing > 0 {
            exact = Some(folded_range(&chars, 1, closing));
            start = skip_blank(&chars, closing + 1);
        }
    }
    let end = find_line_end(&chars, start);
    let unigrams = if start < end {
        Some(folded_range(&chars, start, end))
    } else {
        None
    };
    normalize(exact, unigrams)
}

/// The documents that answer `query`, each URL once; nothing for a query
/// that asks for nothing.
pub fn evaluate(query: &Query, index: &Index) -> (urls: Option<Vec<String>>)
    requires
        query.wf(),
        index.wf(),
    ensures
        urls is None <==> answer(index, query.request()) is None,
        urls matches Some(found) ==> is_listing(
            found.deep_view(),
            answer(index, query.request())->0,
        ),
{
    let codes = match (&query.exact_ngram, &query.unigrams) {
        (None, None) => {
            return None;
        },
        (Some(phrase), None) => {
            let codes = index.phrase_codes(phrase);
            proof {
                index.lemma_phrase_codes(phrase.deep_view(), codes@.to_set());
            }
            codes
        },
        (None, Some(bare)) => {
            let codes = index.conjunction_codes(bare);
            proof {
                index.lemma_conjunction_codes(bare.deep_view(), codes@.to_set());
            }
            codes
        },
        (Some(phrase), Some(bare)) => {
            let matched = index.phrase_codes(phrase);
            let codes = index.narrow_by_words(matched, bare, 0);
            proof {
                let spoken = bare.deep_view();
                assert forall|d: u32| #[trigger]
                    codes@.to_set().contains(d) <==> index.posted_phrase(phrase.deep_view(), d)
                        && index.posted_all(spoken, d) by {
                    if codes@.contains(d) {
                        assert forall|j: int| 0 <= j < spoken.len() implies index.posted_unigram(
                            #[trigger] spoken[j],
                            d,
                        ) by {
                            assert(index.posted_unigram(bare[j]@, d));
                        }
                    }
                    if index.posted_all(spoken, d) {
                        assert forall|j: int| 0 <= j < bare.len() implies index.posted_unigram(
                            #[trigger] bare[j]@,
                            d,
                        ) by {
                            assert(index.posted_unigram(spoken[j], d));
                        }
                    }
                }
                assert(index.documents_coded(codes@.to_set()) =~= index.phrase_documents(
                    phrase.deep_view(),
                ).intersect(index.conjunction_documents(spoken)));
                assert forall|k: int| 0 <= k < codes.len() implies codes[k]
                    < index.document_count() by {
                    assert(codes@.contains(codes@[k]));
                    assert(matched@.contains(codes@[k]));
                }
            }
            codes
        },
    };
    Some(index.urls_of(&codes))
}

/// Answers the query line `query_str` from `index`: the URLs of the
/// documents that match, each once, or nothing where the line asks for
/// nothing.
pub fn query(query_str: String, index: &Index) -> (urls: Option<Vec<String>>)
    requires
        index.wf(),
    ensures
        urls is None <==> answer(index, parsed(query_str@)) is None,
        urls matches Some(found) ==> is_listing(
            found.deep_view(),
            answer(index, parsed(query_str@))->0,
        ),
{
    let query = parse_query(query_str.as_str());
    evaluate(&query, index)
}

/// A line ends at or behind the position from which its end is sought, and
/// within the text.
pub proof fn lemma_line_end_within(s: Seq<char>, from: int)
    requires
        0 <= from <= s.len(),
    ensures
        from <= line_end(s, from) <= s.len(),
    decreases s.len() - from,
{
    if from < s.len() && s[from] != '\n' {
        lemma_line_end_within(s, from + 1);
    }
}

/// A line of nothing but whitespace asks for nothing.
pub proof fn lemma_blank_line_asks_for_nothing(s: Seq<char>)
    requires
        forall|i: int| 0 <= i < s.len() ==> is_whitespace(#[trigger] s[i]),
    ensures
        parsed(s) == (Request { exact: None, unigrams: None }),
{
    if s.len() > 0 {
        assert(is_whitespace(s[0]));
        assert(!opens_quoted(s));
    }
    lemma_line_end_within(s, 0);
    match bare_part(s) {
        Some(text) => {
            assert(text == s.subrange(0, line_end(s, 0)));
            assert forall|i: int| 0 <= i < text.len() implies separates(
                Spacing::Unicode,
                #[trigger] text[i],
            ) by {
                assert(text[i] == s[i]);
            }
            lemma_blank_has_no_words(text, Spacing::Unicode);
            assert(lowercase_each(words(text, Spacing::Unicode)) =~= Seq::<Seq<char>>::empty());
        },
        None => {},
    }
}

/// Two query lines whose words agree once they are lowercased have the same
/// answer, whatever the index: the case in which a query is written does not
/// matter.
pub proof fn lemma_case_does_not_matter(index: &Index, s: Seq<char>, t: Seq<char>)
    requires
        folded_words(quoted_part(s)) == folded_words(quoted_part(t)),
        folded_words(bare_part(s)) == folded_words(bare_part(t)),
    ensures
        answer(index, parsed(s)) == answer(index, parsed(t)),
{
}

} // verus!
