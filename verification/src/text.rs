//! Characters, words and case folding: the text primitives that the
//! extractor, the index and the query parser share.

use vstd::prelude::*;

verus! {

/// Whether `c` has the Unicode `White_Space` property: the controls from tab
/// to carriage return, the space, the next-line control, the no-break space,
/// the Ogham space mark, the spaces from en quad to hair space, the line and
/// paragraph separators, the narrow no-break space, the medium mathematical
/// space and the ideographic space.
pub open spec fn is_whitespace(c: char) -> bool {
    ||| '\u{9}' <= c <= '\u{d}'
    ||| c == ' '
    ||| c == '\u{85}'
    ||| c == '\u{a0}'
    ||| c == '\u{1680}'
    ||| '\u{2000}' <= c <= '\u{200a}'
    ||| c == '\u{2028}'
    ||| c == '\u{2029}'
    ||| c == '\u{202f}'
    ||| c == '\u{205f}'
    ||| c == '\u{3000}'
}

/// The lowercase form of a string under Unicode case mapping.
pub uninterp spec fn lowercase_of(s: Seq<char>) -> Seq<char>;

/// Whether `c` has the Unicode `White_Space` property.
pub fn char_is_whitespace(c: char) -> (b: bool)
    ensures
        b == is_whitespace(c),
{
    ('\u{9}' <= c && c <= '\u{d}') || c == ' ' || c == '\u{85}' || c == '\u{a0}' || c == '\u{1680}'
        || ('\u{2000}' <= c && c <= '\u{200a}') || c == '\u{2028}' || c == '\u{2029}' || c
        == '\u{202f}' || c == '\u{205f}' || c == '\u{3000}'
}

/// `str::to_lowercase`: the result is what [`lowercase_of`] names for the
/// characters of `s`.
#[verifier::external_body]
pub(crate) fn str_to_lowercase(s: &str) -> (r: String)
    ensures
        r@ == lowercase_of(s@),
{
    s.to_lowercase()
}

/// `String::from_iter` over characters: the string made of exactly the
/// characters of `chars`, in order.
#[verifier::external_body]
pub(crate) fn string_from_chars(chars: &Vec<char>) -> (s: String)
    ensures
        s@ == chars@,
{
    chars.iter().collect()
}

/// The characters of `s`, in order.
pub fn chars_of(s: &str) -> (v: Vec<char>)
    ensures
        v@ == s@,
{
    let mut v: Vec<char> = Vec::new();
    for c in it: s.chars()
        invariant
            it.seq() == s@,
            v@ =~= it.seq().take(it.index() as int),
    {
        v.push(c);
    }
    assert(v@ =~= s@);
    v
}

/// Which characters separate one word from the next.
#[derive(Clone, Copy, Debug)]
pub enum Spacing {
    /// Every character with the Unicode `White_Space` property.
    Unicode,
    /// Space, tab, line feed, form feed and carriage return only.
    Ascii,
}

/// Whether `c` is one of the five ASCII whitespace characters.
pub open spec fn is_ascii_whitespace(c: char) -> bool {
    c == ' ' || c == '\t' || c == '\n' || c == '\x0C' || c == '\r'
}

/// Whether `c` separates words under `spacing`.
pub open spec fn separates(spacing: Spacing, c: char) -> bool {
    match spacing {
        Spacing::Unicode => is_whitespace(c),
        Spacing::Ascii => is_ascii_whitespace(c),
    }
}

/// The state of a left-to-right scan of `s`: the words already closed by a
/// separator, and the word that is still open at the end of `s`.
pub open spec fn scan(s: Seq<char>, spacing: Spacing) -> (Seq<Seq<char>>, Seq<char>)
    decreases s.len(),
{
    if s.len() == 0 {
        (Seq::empty(), Seq::empty())
    } else {
        let (closed, open) = scan(s.drop_last(), spacing);
        if !separates(spacing, s.last()) {
            (closed, open.push(s.last()))
        } else if open.len() > 0 {
            (closed.push(open), Seq::empty())
        } else {
            (closed, Seq::empty())
        }
    }
}

/// The words of `s`: its maximal runs of characters that are not separators,
/// in the order in which they occur.
pub open spec fn words(s: Seq<char>, spacing: Spacing) -> Seq<Seq<char>> {
    let (closed, open) = scan(s, spacing);
    if open.len() > 0 {
        closed.push(open)
    } else {
        closed
    }
}

/// Whether `w` is a word under `spacing`: not empty, and free of separators.
pub open spec fn is_word(w: Seq<char>, spacing: Spacing) -> bool {
    w.len() > 0 && forall|i: int| 0 <= i < w.len() ==> !separates(spacing, #[trigger] w[i])
}

/// Whether some character of `s` is not Unicode whitespace.
pub open spec fn has_visible_char(s: Seq<char>) -> bool {
    exists|i: int| 0 <= i < s.len() && !is_whitespace(#[trigger] s[i])
}

/// Each element of `ws`, lowercased.
pub open spec fn lowercase_each(ws: Seq<Seq<char>>) -> Seq<Seq<char>> {
    Seq::new(ws.len(), |i: int| lowercase_of(ws[i]))
}

/// Every word that a scan has closed is a word in the sense of
/// [`is_word`], and the open one holds no separator.
pub proof fn lemma_scan_yields_words(s: Seq<char>, spacing: Spacing)
    ensures
        forall|i: int|
            0 <= i < scan(s, spacing).0.len() ==> is_word(
                #[trigger] scan(s, spacing).0[i],
                spacing,
            ),
        forall|i: int|
            0 <= i < scan(s, spacing).1.len() ==> !separates(
                spacing,
                #[trigger] scan(s, spacing).1[i],
            ),
    decreases s.len(),
{
    if s.len() > 0 {
        lemma_scan_yields_words(s.drop_last(), spacing);
        let (closed, open) = scan(s.drop_last(), spacing);
        let (closed_now, open_now) = scan(s, spacing);
        assert forall|i: int| 0 <= i < closed_now.len() implies is_word(
            #[trigger] closed_now[i],
            spacing,
        ) by {
            if i < closed.len() {
                assert(closed_now[i] == closed[i]);
            } else {
                assert(closed_now[i] == open);
            }
        }
        assert forall|i: int| 0 <= i < open_now.len() implies !separates(
            spacing,
            #[trigger] open_now[i],
        ) by {
            if i < open.len() {
                assert(open_now[i] == open[i]);
            }
        }
    }
}

/// A text made of separators only has no words.
pub proof fn lemma_blank_has_no_words(s: Seq<char>, spacing: Spacing)
    requires
        forall|i: int| 0 <= i < s.len() ==> separates(spacing, #[trigger] s[i]),
    ensures
        scan(s, spacing) == (Seq::<Seq<char>>::empty(), Seq::<char>::empty()),
        words(s, spacing) == Seq::<Seq<char>>::empty(),
    decreases s.len(),
{
    if s.len() > 0 {
        assert forall|i: int| 0 <= i < s.drop_last().len() implies separates(
            spacing,
            #[trigger] s.drop_last()[i],
        ) by {
            assert(s.drop_last()[i] == s[i]);
        }
        lemma_blank_has_no_words(s.drop_last(), spacing);
        assert(separates(spacing, s[s.len() - 1]));
    }
}

/// A text that holds a character that is no separator has a word.
pub proof fn lemma_visible_has_word(s: Seq<char>, spacing: Spacing)
    requires
        exists|i: int| 0 <= i < s.len() && !separates(spacing, #[trigger] s[i]),
    ensures
        words(s, spacing).len() > 0,
    decreases s.len(),
{
    let i = choose|i: int| 0 <= i < s.len() && !separates(spacing, #[trigger] s[i]);
    if separates(spacing, s.last()) {
        assert(i < s.len() - 1);
        assert(s.drop_last()[i] == s[i]);
        lemma_visible_has_word(s.drop_last(), spacing);
    }
}

/// Splitting never yields an empty word, nor one that holds a separator.
pub proof fn lemma_words_are_words(s: Seq<char>, spacing: Spacing)
    ensures
        forall|i: int|
            0 <= i < words(s, spacing).len() ==> is_word(#[trigger] words(s, spacing)[i], spacing),
{
    lemma_scan_yields_words(s, spacing);
}

/// Whether `c` separates words under `spacing`.
pub fn is_separator(spacing: Spacing, c: char) -> (b: bool)
    ensures
        b == separates(spacing, c),
{
    match spacing {
        Spacing::Unicode => char_is_whitespace(c),
        Spacing::Ascii => c == ' ' || c == '\t' || c == '\n' || c == '\x0C' || c == '\r',
    }
}

/// Splits `chars` into its words.
pub fn split_char_words(chars: &Vec<char>, spacing: Spacing) -> (out: Vec<String>)
    ensures
        out.deep_view() == words(chars@, spacing),
        forall|i: int| 0 <= i < out.len() ==> is_word(#[trigger] out.deep_view()[i], spacing),
{
    let ghost s = chars@;
    let mut out: Vec<String> = Vec::new();
    let mut open: Vec<char> = Vec::new();
    let mut i: usize = 0;
    assert(s.take(0) =~= Seq::<char>::empty());
    assert(out.deep_view() =~= Seq::<Seq<char>>::empty());
    while i < chars.len()
        invariant
            i <= chars.len(),
            chars@ == s,
            scan(s.take(i as int), spacing) == (out.deep_view(), open@),
        decreases chars.len() - i,
    {
        let c = chars[i];
        proof {
            assert(s.take(i + 1).drop_last() =~= s.take(i as int));
            assert(s.take(i + 1).last() == c);
        }
        let ghost before = out.deep_view();
        if !is_separator(spacing, c) {
            open.push(c);
        } else if open.len() > 0 {
            let word = string_from_chars(&open);
            out.push(word);
            assert(out.deep_view() =~= before.push(word@));
            open = Vec::new();
        }
        i += 1;
    }
    assert(s.take(i as int) =~= s);
    if open.len() > 0 {
        let ghost before = out.deep_view();
        let word = string_from_chars(&open);
        out.push(word);
        assert(out.deep_view() =~= before.push(word@));
    }
    proof {
        lemma_words_are_words(chars@, spacing);
        assert(out.deep_view().len() == out.len());
        assert forall|i: int| 0 <= i < out.len() implies is_word(
            #[trigger] out.deep_view()[i],
            spacing,
        ) by {
            assert(out.deep_view()[i] == words(chars@, spacing)[i]);
        }
    }
    out
}

/// Splits `s` into its words.
pub fn split_words(s: &str, spacing: Spacing) -> (out: Vec<String>)
    ensures
        out.deep_view() == words(s@, spacing),
        forall|i: int| 0 <= i < out.len() ==> is_word(#[trigger] out.deep_view()[i], spacing),
{
    let chars = chars_of(s);
    split_char_words(&chars, spacing)
}

/// The characters of `chars` from position `from` up to, not including,
/// position `to`.
pub fn copy_range(chars: &Vec<char>, from: usize, to: usize) -> (out: Vec<char>)
    requires
        from <= to <= chars.len(),
    ensures
        out@ == chars@.subrange(from as int, to as int),
{
    let mut out: Vec<char> = Vec::new();
    let mut i: usize = from;
    while i < to
        invariant
            from <= i <= to <= chars.len(),
            out@ == chars@.subrange(from as int, i as int),
        decreases to - i,
    {
        out.push(chars[i]);
        assert(out@ =~= chars@.subrange(from as int, i + 1));
        i += 1;
    }
    out
}

/// Lowercases each word of `ws`.
pub fn lowercase_words(ws: &Vec<String>) -> (out: Vec<String>)
    ensures
        out.deep_view() == lowercase_each(ws.deep_view()),
{
    let mut out: Vec<String> = Vec::new();
    let mut i: usize = 0;
    while i < ws.len()
        invariant
            i <= ws.len(),
            out.len() == i,
            forall|j: int| 0 <= j < i ==> (#[trigger] out[j])@ == lowercase_of(ws[j]@),
        decreases ws.len() - i,
    {
        out.push(str_to_lowercase(ws[i].as_str()));
        i += 1;
    }
    assert(out.deep_view() =~= lowercase_each(ws.deep_view()));
    out
}

/// A copy of `ws`.
pub fn clone_words(ws: &Vec<String>) -> (out: Vec<String>)
    ensures
        out.deep_view() == ws.deep_view(),
{
    let mut out: Vec<String> = Vec::new();
    let mut i: usize = 0;
    while i < ws.len()
        invariant
            i <= ws.len(),
            out.len() == i,
            forall|j: int| 0 <= j < i ==> (#[trigger] out[j])@ == ws[j]@,
        decreases ws.len() - i,
    {
        out.push(ws[i].clone());
        i += 1;
    }
    assert(out.deep_view() =~= ws.deep_view());
    out
}

/// A copy of `texts`.
pub fn clone_texts(texts: &Vec<Vec<String>>) -> (out: Vec<Vec<String>>)
    ensures
        out.deep_view() == texts.deep_view(),
{
    let mut out: Vec<Vec<String>> = Vec::new();
    let mut i: usize = 0;
    while i < texts.len()
        invariant
            i <= texts.len(),
            out.len() == i,
            forall|j: int| 0 <= j < i ==> (#[trigger] out[j]).deep_view() == texts[j].deep_view(),
        decreases texts.len() - i,
    {
        out.push(clone_words(&texts[i]));
        i += 1;
    }
    assert(out.deep_view() =~= texts.deep_view());
    out
}

/// Whether some character of `s` is not Unicode whitespace.
pub fn contains_visible_char(s: &str) -> (b: bool)
    ensures
        b == has_visible_char(s@),
{
    let chars = chars_of(s);
    let mut i: usize = 0;
    while i < chars.len()
        invariant
            i <= chars.len(),
            chars@ == s@,
            forall|j: int| 0 <= j < i ==> is_whitespace(#[trigger] s@[j]),
        decreases chars.len() - i,
    {
        if !char_is_whitespace(chars[i]) {
            return true;
        }
        i += 1;
    }
    false
}

} // verus!
