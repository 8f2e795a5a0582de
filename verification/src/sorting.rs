//! A fixed order on texts, so that a set of texts can be written down in one
//! way only: words are ordered like their characters, texts like their words,
//! and in both a sequence comes behind each of its beginnings.

use crate::text::{chars_of, string_from_chars};
use vstd::prelude::*;

verus! {

/// Whether `le` orders all values of `T` in a line: any two values are
/// ordered one way or the other, both ways only if they are equal, and the
/// order carries over from step to step.
pub open spec fn is_total_order<T>(le: spec_fn(T, T) -> bool) -> bool {
    &&& forall|x: T, y: T| #[trigger] le(x, y) || #[trigger] le(y, x)
    &&& forall|x: T, y: T| #[trigger] le(x, y) && #[trigger] le(y, x) ==> x == y
    &&& forall|x: T, y: T, z: T| #[trigger] le(x, y) && #[trigger] le(y, z) ==> le(x, z)
}

/// Whether `a` comes before `b`, or is `b`, in the order of a dictionary:
/// at the first place where the two differ, `a` has the smaller item under
/// `le`, or `a` has ended.
pub open spec fn lex_le<T>(a: Seq<T>, b: Seq<T>, le: spec_fn(T, T) -> bool) -> bool
    decreases a.len(),
{
    if a.len() == 0 {
        true
    } else if b.len() == 0 {
        false
    } else if a[0] == b[0] {
        lex_le(a.skip(1), b.skip(1), le)
    } else {
        le(a[0], b[0])
    }
}

/// Every sequence comes before itself, or is itself.
pub proof fn lemma_lex_reflexive<T>(a: Seq<T>, le: spec_fn(T, T) -> bool)
    ensures
        lex_le(a, a, le),
    decreases a.len(),
{
    if a.len() > 0 {
        lemma_lex_reflexive(a.skip(1), le);
    }
}

/// Of two sequences one comes before the other.
pub proof fn lemma_lex_connected<T>(a: Seq<T>, b: Seq<T>, le: spec_fn(T, T) -> bool)
    requires
        is_total_order(le),
    ensures
        lex_le(a, b, le) || lex_le(b, a, le),
    decreases a.len(),
{
    if a.len() > 0 && b.len() > 0 {
        if a[0] == b[0] {
            lemma_lex_connected(a.skip(1), b.skip(1), le);
        } else {
            assert(le(a[0], b[0]) || le(b[0], a[0]));
        }
    }
}

/// Two sequences that come before each other are equal.
pub proof fn lemma_lex_antisymmetric<T>(a: Seq<T>, b: Seq<T>, le: spec_fn(T, T) -> bool)
    requires
        is_total_order(le),
        lex_le(a, b, le),
        lex_le(b, a, le),
    ensures
        a == b,
    decreases a.len(),
{
    if a.len() == 0 || b.len() == 0 {
        assert(a =~= b);
    } else if a[0] == b[0] {
        lemma_lex_antisymmetric(a.skip(1), b.skip(1), le);
        assert(a =~= seq![a[0]] + a.skip(1));
        assert(b =~= seq![b[0]] + b.skip(1));
    } else {
        assert(le(a[0], b[0]) && le(b[0], a[0]));
    }
}

/// What comes before something that comes before a third comes before the
/// third.
pub proof fn lemma_lex_transitive<T>(a: Seq<T>, b: Seq<T>, c: Seq<T>, le: spec_fn(T, T) -> bool)
    requires
        is_total_order(le),
        lex_le(a, b, le),
        lex_le(b, c, le),
    ensures
        lex_le(a, c, le),
    decreases a.len(),
{
    if a.len() > 0 {
        if a[0] == b[0] && b[0] == c[0] {
            lemma_lex_transitive(a.skip(1), b.skip(1), c.skip(1), le);
        } else if a[0] == b[0] {
            assert(le(b[0], c[0]));
        } else if b[0] == c[0] {
            assert(le(a[0], b[0]));
        } else {
            assert(le(a[0], b[0]) && le(b[0], c[0]));
            if a[0] == c[0] {
                assert(le(b[0], a[0]));
            }
        }
    }
}

/// Whether the word `a` comes before the word `b`, or is `b`: words are
/// ordered like their characters.
pub open spec fn word_le(a: Seq<char>, b: Seq<char>) -> bool {
    lex_le(a, b, |x: char, y: char| x <= y)
}

/// Whether the text `a` comes before the text `b`, or is `b`: texts are
/// ordered like their words.
pub open spec fn text_le(a: Seq<Seq<char>>, b: Seq<Seq<char>>) -> bool {
    lex_le(a, b, |x: Seq<char>, y: Seq<char>| word_le(x, y))
}

/// The order of words and the order of texts are total orders.
pub proof fn lemma_text_order_is_total()
    ensures
        is_total_order(|x: Seq<char>, y: Seq<char>| word_le(x, y)),
        is_total_order(|x: Seq<Seq<char>>, y: Seq<Seq<char>>| text_le(x, y)),
{
    let by_char = |x: char, y: char| x <= y;
    assert(is_total_order(by_char));
    let by_word = |x: Seq<char>, y: Seq<char>| word_le(x, y);
    assert forall|x: Seq<char>, y: Seq<char>| #[trigger] by_word(x, y) || #[trigger] by_word(y, x) by {
        lemma_lex_connected(x, y, by_char);
    }
    assert forall|x: Seq<char>, y: Seq<char>| #[trigger]
        by_word(x, y) && #[trigger] by_word(y, x) implies x == y by {
        lemma_lex_antisymmetric(x, y, by_char);
    }
    assert forall|x: Seq<char>, y: Seq<char>, z: Seq<char>| #[trigger]
        by_word(x, y) && #[trigger] by_word(y, z) implies by_word(x, z) by {
        lemma_lex_transitive(x, y, z, by_char);
    }
    let by_text = |x: Seq<Seq<char>>, y: Seq<Seq<char>>| text_le(x, y);
    assert forall|x: Seq<Seq<char>>, y: Seq<Seq<char>>| #[trigger]
        by_text(x, y) || #[trigger] by_text(y, x) by {
        lemma_lex_connected(x, y, by_word);
    }
    assert forall|x: Seq<Seq<char>>, y: Seq<Seq<char>>| #[trigger]
        by_text(x, y) && #[trigger] by_text(y, x) implies x == y by {
        lemma_lex_antisymmetric(x, y, by_word);
    }
    assert forall|x: Seq<Seq<char>>, y: Seq<Seq<char>>, z: Seq<Seq<char>>| #[trigger]
        by_text(x, y) && #[trigger] by_text(y, z) implies by_text(x, z) by {
        lemma_lex_transitive(x, y, z, by_word);
    }
}

/// Of two texts one comes before the other.
pub proof fn lemma_text_le_connected(a: Seq<Seq<char>>, b: Seq<Seq<char>>)
    ensures
        text_le(a, b) || text_le(b, a),
{
    lemma_text_order_is_total();
    lemma_lex_connected(a, b, |x: Seq<char>, y: Seq<char>| word_le(x, y));
}

/// Two texts that come before each other are equal.
pub proof fn lemma_text_le_antisymmetric(a: Seq<Seq<char>>, b: Seq<Seq<char>>)
    requires
        text_le(a, b),
        text_le(b, a),
    ensures
        a == b,
{
    lemma_text_order_is_total();
    lemma_lex_antisymmetric(a, b, |x: Seq<char>, y: Seq<char>| word_le(x, y));
}

/// A text that comes before one that comes before a third comes before the
/// third.
pub proof fn lemma_text_le_transitive(a: Seq<Seq<char>>, b: Seq<Seq<char>>, c: Seq<Seq<char>>)
    requires
        text_le(a, b),
        text_le(b, c),
    ensures
        text_le(a, c),
{
    lemma_text_order_is_total();
    lemma_lex_transitive(a, b, c, |x: Seq<char>, y: Seq<char>| word_le(x, y));
}

/// Whether `list` holds its texts in ascending order, each once.
pub open spec fn strictly_sorted(list: Seq<Seq<Seq<char>>>) -> bool {
    forall|i: int, j: int|
        0 <= i < j < list.len() ==> text_le(#[trigger] list[i], #[trigger] list[j]) && list[i]
            != list[j]
}

/// The texts of `set` in ascending order, each once.
pub open spec fn sorted_from(set: Set<Seq<Seq<char>>>) -> Seq<Seq<Seq<char>>> {
    choose|list: Seq<Seq<Seq<char>>>| strictly_sorted(list) && list.to_set() == set
}

/// A set of texts has one ascending order only: two lists that hold the same
/// texts in ascending order, each once, are equal.
pub proof fn lemma_sorted_is_unique(one: Seq<Seq<Seq<char>>>, other: Seq<Seq<Seq<char>>>)
    requires
        strictly_sorted(one),
        strictly_sorted(other),
        one.to_set() == other.to_set(),
    ensures
        one == other,
    decreases one.len(),
{
    if one.len() == 0 {
        if other.len() > 0 {
            assert(other.to_set().contains(other[0]));
            assert(one.to_set().contains(other[0]));
        }
        assert(one =~= other);
    } else {
        assert(one.to_set().contains(one[0]));
        assert(other.to_set().contains(one[0]));
        let j = choose|j: int| 0 <= j < other.len() && other[j] == one[0];
        assert(other.to_set().contains(other[0]));
        assert(one.to_set().contains(other[0]));
        let k = choose|k: int| 0 <= k < one.len() && one[k] == other[0];
        lemma_text_le_reflexive(one[0]);
        assert(text_le(other[0], one[0])) by {
            if j > 0 {
                assert(text_le(other[0], other[j]));
            }
        }
        assert(text_le(one[0], other[0])) by {
            if k > 0 {
                assert(text_le(one[0], one[k]));
            }
        }
        lemma_text_le_antisymmetric(one[0], other[0]);
        let rest = one.skip(1);
        let other_rest = other.skip(1);
        assert forall|x: Seq<Seq<char>>| rest.to_set().contains(x) <==> other_rest.to_set().contains(
            x,
        ) by {
            if rest.to_set().contains(x) {
                let i = choose|i: int| 0 <= i < rest.len() && rest[i] == x;
                assert(one[i + 1] == x);
                assert(one[0] != one[i + 1]);
                assert(one.to_set().contains(x));
                assert(other.to_set().contains(x));
                let m = choose|m: int| 0 <= m < other.len() && other[m] == x;
                assert(other_rest[m - 1] == x);
            }
            if other_rest.to_set().contains(x) {
                let i = choose|i: int| 0 <= i < other_rest.len() && other_rest[i] == x;
                assert(other[i + 1] == x);
                assert(other[0] != other[i + 1]);
                assert(other.to_set().contains(x));
                assert(one.to_set().contains(x));
                let m = choose|m: int| 0 <= m < one.len() && one[m] == x;
                assert(rest[m - 1] == x);
            }
        }
        assert(rest.to_set() =~= other_rest.to_set());
        assert forall|i: int, j: int| 0 <= i < j < rest.len() implies text_le(
            #[trigger] rest[i],
            #[trigger] rest[j],
        ) && rest[i] != rest[j] by {
            assert(rest[i] == one[i + 1] && rest[j] == one[j + 1]);
        }
        assert forall|i: int, j: int| 0 <= i < j < other_rest.len() implies text_le(
            #[trigger] other_rest[i],
            #[trigger] other_rest[j],
        ) && other_rest[i] != other_rest[j] by {
            assert(other_rest[i] == other[i + 1] && other_rest[j] == other[j + 1]);
        }
        lemma_sorted_is_unique(rest, other_rest);
        assert(one =~= seq![one[0]] + rest);
        assert(other =~= seq![other[0]] + other_rest);
    }
}

/// Every text comes before itself, or is itself.
pub proof fn lemma_text_le_reflexive(a: Seq<Seq<char>>)
    ensures
        text_le(a, a),
{
    lemma_lex_reflexive(a, |x: Seq<char>, y: Seq<char>| word_le(x, y));
}

/// A list that holds the texts of `set` in ascending order, each once, is
/// the ascending order of `set`.
pub proof fn lemma_sorted_from(list: Seq<Seq<Seq<char>>>, set: Set<Seq<Seq<char>>>)
    requires
        strictly_sorted(list),
        list.to_set() == set,
    ensures
        sorted_from(set) == list,
{
    lemma_sorted_is_unique(sorted_from(set), list);
}

/// Whether the word `a` comes before the word `b`, or is `b`.
pub fn word_comes_first(a: &Vec<char>, b: &Vec<char>) -> (first: bool)
    ensures
        first == word_le(a@, b@),
{
    let ghost le = |x: char, y: char| x <= y;
    let mut i: usize = 0;
    assert(a@.skip(0) =~= a@ && b@.skip(0) =~= b@);
    while i < a.len() && i < b.len() && a[i] == b[i]
        invariant
            i <= a.len(),
            i <= b.len(),
            le == (|x: char, y: char| x <= y),
            word_le(a@, b@) == lex_le(a@.skip(i as int), b@.skip(i as int), le),
        decreases a.len() - i,
    {
        assert(a@.skip(i as int).skip(1) =~= a@.skip(i + 1));
        assert(b@.skip(i as int).skip(1) =~= b@.skip(i + 1));
        i += 1;
    }
    if i >= a.len() {
        true
    } else if i >= b.len() {
        false
    } else {
        assert(a@.skip(i as int)[0] == a[i as int]);
        assert(b@.skip(i as int)[0] == b[i as int]);
        a[i] <= b[i]
    }
}

/// Whether `a` and `b` are the same word.
pub fn same_word(a: &Vec<char>, b: &Vec<char>) -> (same: bool)
    ensures
        same == (a@ == b@),
{
    if a.len() != b.len() {
        return false;
    }
    let mut i: usize = 0;
    while i < a.len()
        invariant
            i <= a.len(),
            a.len() == b.len(),
            forall|j: int| 0 <= j < i ==> a[j] == b[j],
        decreases a.len() - i,
    {
        if a[i] != b[i] {
            return false;
        }
        i += 1;
    }
    assert(a@ =~= b@);
    true
}

/// Whether the text `a` comes before the text `b`, or is `b`.
pub fn text_comes_first(a: &Vec<Vec<char>>, b: &Vec<Vec<char>>) -> (first: bool)
    ensures
        first == text_le(a.deep_view(), b.deep_view()),
{
    let ghost le = |x: Seq<char>, y: Seq<char>| word_le(x, y);
    let ghost x = a.deep_view();
    let ghost y = b.deep_view();
    let mut i: usize = 0;
    assert(x.skip(0) =~= x && y.skip(0) =~= y);
    while i < a.len() && i < b.len() && same_word(&a[i], &b[i])
        invariant
            i <= a.len(),
            i <= b.len(),
            x == a.deep_view(),
            y == b.deep_view(),
            le == (|x: Seq<char>, y: Seq<char>| word_le(x, y)),
            text_le(x, y) == lex_le(x.skip(i as int), y.skip(i as int), le),
        decreases a.len() - i,
    {
        assert(x.skip(i as int)[0] == a[i as int]@);
        assert(y.skip(i as int)[0] == b[i as int]@);
        assert(x.skip(i as int).skip(1) =~= x.skip(i + 1));
        assert(y.skip(i as int).skip(1) =~= y.skip(i + 1));
        i += 1;
    }
    if i >= a.len() {
        true
    } else if i >= b.len() {
        false
    } else {
        assert(x.skip(i as int)[0] == a[i as int]@);
        assert(y.skip(i as int)[0] == b[i as int]@);
        word_comes_first(&a[i], &b[i])
    }
}

/// Puts `text` in its place in the ascending list `list`, unless it is
/// there already.
pub fn insert_sorted(list: &mut Vec<Vec<Vec<char>>>, text: Vec<Vec<char>>)
    requires
        strictly_sorted(old(list).deep_view()),
    ensures
        strictly_sorted(final(list).deep_view()),
        final(list).deep_view().to_set() == old(list).deep_view().to_set().insert(
            text.deep_view(),
        ),
{
    let ghost before = list.deep_view();
    let ghost new = text.deep_view();
    let mut p: usize = 0;
    while p < list.len() && !text_comes_first(&text, &list[p])
        invariant
            p <= list.len(),
            before == list.deep_view(),
            new == text.deep_view(),
            forall|k: int| 0 <= k < p ==> !text_le(new, #[trigger] before[k]),
        decreases list.len() - p,
    {
        p += 1;
    }
    if p < list.len() && text_comes_first(&list[p], &text) {
        proof {
            lemma_text_le_antisymmetric(new, before[p as int]);
            assert(before.to_set().contains(new));
            assert(before.to_set().insert(new) =~= before.to_set());
        }
        return ;
    }
    list.insert(p, text);
    proof {
        let after = list.deep_view();
        assert(after =~= before.insert(p as int, new));
        assert forall|x: Seq<Seq<char>>| after.to_set().contains(x) <==> before.to_set().insert(
            new,
        ).contains(x) by {
            if after.to_set().contains(x) {
                let i = choose|i: int| 0 <= i < after.len() && after[i] == x;
                if i < p {
                    assert(before[i] == x);
                } else if i > p {
                    assert(before[i - 1] == x);
                }
            }
            if before.to_set().contains(x) {
                let i = choose|i: int| 0 <= i < before.len() && before[i] == x;
                if i < p {
                    assert(after[i] == x);
                } else {
                    assert(after[i + 1] == x);
                }
            }
            if x == new {
                assert(after[p as int] == x);
            }
        }
        assert(after.to_set() =~= before.to_set().insert(new));
        assert forall|i: int, j: int| 0 <= i < j < after.len() implies text_le(
            #[trigger] after[i],
            #[trigger] after[j],
        ) && after[i] != after[j] by {
            if j < p {
                assert(after[i] == before[i] && after[j] == before[j]);
            } else if i > p {
                assert(after[i] == before[i - 1] && after[j] == before[j - 1]);
            } else if i < p && j > p {
                assert(after[i] == before[i] && after[j] == before[j - 1]);
            } else if j == p {
                assert(after[i] == before[i]);
                lemma_text_le_connected(new, before[i]);
                if before[i] == new {
                    lemma_text_le_reflexive(new);
                }
            } else {
                assert(i == p && j > p);
                assert(after[j] == before[j - 1]);
                assert(text_le(new, before[p as int]));
                if j - 1 > p {
                    assert(text_le(before[p as int], before[j - 1]));
                    lemma_text_le_transitive(new, before[p as int], before[j - 1]);
                    if new == before[j - 1] {
                        lemma_text_le_antisymmetric(before[p as int], before[j - 1]);
                    }
                } else {
                    if new == before[p as int] {
                        lemma_text_le_reflexive(new);
                    }
                }
            }
        }
    }
}

/// The characters of each word of `text`.
pub fn text_chars(text: &Vec<String>) -> (out: Vec<Vec<char>>)
    ensures
        out.deep_view() == text.deep_view(),
{
    let mut out: Vec<Vec<char>> = Vec::new();
    let mut i: usize = 0;
    while i < text.len()
        invariant
            i <= text.len(),
            out.len() == i,
            forall|j: int| 0 <= j < i ==> (#[trigger] out[j])@ == text[j]@,
        decreases text.len() - i,
    {
        out.push(chars_of(text[i].as_str()));
        i += 1;
    }
    assert(out.deep_view() =~= text.deep_view()) by {
        assert forall|j: int| 0 <= j < out.len() implies out.deep_view()[j] == text.deep_view()[j] by {
            assert(out.deep_view()[j] =~= out[j]@);
        }
    }
    out
}

/// The words that the characters of `text` spell.
pub fn text_strings(text: &Vec<Vec<char>>) -> (out: Vec<String>)
    ensures
        out.deep_view() == text.deep_view(),
{
    let mut out: Vec<String> = Vec::new();
    let mut i: usize = 0;
    while i < text.len()
        invariant
            i <= text.len(),
            out.len() == i,
            forall|j: int| 0 <= j < i ==> (#[trigger] out[j])@ == text[j]@,
        decreases text.len() - i,
    {
        out.push(string_from_chars(&text[i]));
        i += 1;
    }
    assert(out.deep_view() =~= text.deep_view()) by {
        assert forall|j: int| 0 <= j < out.len() implies out.deep_view()[j] == text.deep_view()[j] by {
            assert(text.deep_view()[j] =~= text[j]@);
        }
    }
    out
}

/// The texts of `texts` in ascending order, each once: the one way in
/// which the set of these texts is written down.
pub fn canonical_texts(texts: &Vec<Vec<String>>) -> (out: Vec<Vec<String>>)
    ensures
        out.deep_view() == sorted_from(texts.deep_view().to_set()),
{
    let ghost all = texts.deep_view();
    let mut sorted: Vec<Vec<Vec<char>>> = Vec::new();
    let mut i: usize = 0;
    assert(sorted.deep_view().to_set() =~= all.take(0).to_set());
    while i < texts.len()
        invariant
            i <= texts.len(),
            all == texts.deep_view(),
            strictly_sorted(sorted.deep_view()),
            sorted.deep_view().to_set() == all.take(i as int).to_set(),
        decreases texts.len() - i,
    {
        let key = text_chars(&texts[i]);
        proof {
            assert(key.deep_view() == all[i as int]);
            let shorter = all.take(i as int);
            let longer = all.take(i + 1);
            assert forall|x: Seq<Seq<char>>| longer.to_set().contains(x) <==> shorter.to_set().insert(
                all[i as int],
            ).contains(x) by {
                if longer.to_set().contains(x) {
                    let j = choose|j: int| 0 <= j < longer.len() && longer[j] == x;
                    if j < i {
                        assert(shorter[j] == x);
                    }
                }
                if shorter.to_set().contains(x) {
                    let j = choose|j: int| 0 <= j < shorter.len() && shorter[j] == x;
                    assert(longer[j] == x);
                }
                if x == all[i as int] {
                    assert(longer[i as int] == x);
                }
            }
            assert(longer.to_set() =~= shorter.to_set().insert(all[i as int]));
        }
        insert_sorted(&mut sorted, key);
        i += 1;
    }
    assert(all.take(i as int) =~= all);
    let mut out: Vec<Vec<String>> = Vec::new();
    let mut k: usize = 0;
    while k < sorted.len()
        invariant
            k <= sorted.len(),
            out.len() == k,
            forall|j: int| 0 <= j < k ==> (#[trigger] out[j]).deep_view() == sorted[j].deep_view(),
        decreases sorted.len() - k,
    {
        out.push(text_strings(&sorted[k]));
        k += 1;
    }
    proof {
        assert(out.deep_view() =~= sorted.deep_view());
        lemma_sorted_from(sorted.deep_view(), all.to_set());
    }
    out
}

} // verus!
