//! Interning tables: two-way maps between strings and the dense integer codes
//! that stand for them in the postings.

use bimap::BiMap;
use vstd::prelude::*;

verus! {

/// `bimap::BiHashMap`, the two-way hash map: known here by name only, as a
/// value that is handed to the functions below.
#[verifier::external_type_specification]
#[verifier::external_body]
#[verifier::reject_recursive_types(L)]
#[verifier::reject_recursive_types(R)]
#[verifier::reject_recursive_types(LS)]
#[verifier::reject_recursive_types(RS)]
pub struct ExBiHashMap<L, R, LS, RS>(bimap::BiHashMap<L, R, LS, RS>);

/// The pairs that a table holds, as the map from each string to its code.
pub uninterp spec fn code_pairs(table: BiMap<String, u32>) -> Map<Seq<char>, u32>;

/// Whether some string of `pairs` has the code `code`.
pub open spec fn code_in_use(pairs: Map<Seq<char>, u32>, code: u32) -> bool {
    exists|s: Seq<char>| #[trigger] pairs.contains_key(s) && pairs[s] == code
}

/// Whether `pairs` is a bijection between a finite set of strings and the
/// codes `0 .. n`, where `n` is the number of strings.
pub open spec fn dense(pairs: Map<Seq<char>, u32>) -> bool {
    &&& pairs.dom().finite()
    &&& forall|s: Seq<char>| #[trigger] pairs.contains_key(s) ==> pairs[s] < pairs.dom().len()
    &&& forall|s: Seq<char>, t: Seq<char>|
        #[trigger] pairs.contains_key(s) && #[trigger] pairs.contains_key(t) && pairs[s]
            == pairs[t] ==> s == t
    &&& forall|c: u32| c < pairs.dom().len() ==> #[trigger] code_in_use(pairs, c)
}

/// The table `pairs` once `s` has a code: as it is where `s` has one, else
/// with the next free code for `s`.
pub open spec fn with_string(pairs: Map<Seq<char>, u32>, s: Seq<char>) -> Map<Seq<char>, u32> {
    if pairs.contains_key(s) {
        pairs
    } else {
        pairs.insert(s, pairs.dom().len() as u32)
    }
}

/// The table `pairs` once each of `strings` has a code, taken in order.
pub open spec fn with_strings(pairs: Map<Seq<char>, u32>, strings: Seq<Seq<char>>) -> Map<
    Seq<char>,
    u32,
>
    decreases strings.len(),
{
    if strings.len() == 0 {
        pairs
    } else {
        with_string(with_strings(pairs, strings.drop_last()), strings.last())
    }
}

/// The table `pairs` once each word of each of `texts` has a code, taken in
/// order.
pub open spec fn with_texts(pairs: Map<Seq<char>, u32>, texts: Seq<Seq<Seq<char>>>) -> Map<
    Seq<char>,
    u32,
>
    decreases texts.len(),
{
    if texts.len() == 0 {
        pairs
    } else {
        with_strings(with_texts(pairs, texts.drop_last()), texts.last())
    }
}

/// `BiHashMap::new`: a table that holds no pair.
#[verifier::external_body]
pub(crate) fn table_new() -> (fresh: BiMap<String, u32>)
    ensures
        (code_pairs(fresh) == Map::<Seq<char>, u32>::empty()),
{
    BiMap::new()
}

/// `BiHashMap::len`: the number of pairs.
#[verifier::external_body]
pub(crate) fn table_len(table: &BiMap<String, u32>) -> (n: usize)
    ensures
        n == code_pairs(*table).dom().len(),
{
    table.len()
}

/// `BiHashMap::get_by_left`: the code paired with `left`, if `left` is in the
/// table.
#[verifier::external_body]
pub(crate) fn table_code_of(table: &BiMap<String, u32>, left: &str) -> (code: Option<u32>)
    ensures
        code == (if code_pairs(*table).contains_key(left@) {
            Some(code_pairs(*table)[left@])
        } else {
            None
        }),
{
    table.get_by_left(left).copied()
}

/// `BiHashMap::get_by_right`: a string paired with `right`, if there is one.
#[verifier::external_body]
pub(crate) fn table_string_of(table: &BiMap<String, u32>, right: u32) -> (left: Option<String>)
    ensures
        match left {
            Some(s) => code_pairs(*table).contains_key(s@) && code_pairs(*table)[s@] == right,
            None => !code_in_use(code_pairs(*table), right),
        },
{
    table.get_by_right(&right).cloned()
}

/// `BiHashMap::insert`, for a pair neither side of which is in the table:
/// the table gains that pair and keeps every other.
#[verifier::external_body]
pub(crate) fn table_insert(table: &mut BiMap<String, u32>, left: String, right: u32)
    requires
        !code_pairs(*old(table)).contains_key(left@),
        !code_in_use(code_pairs(*old(table)), right),
    ensures
        code_pairs(*final(table)) == code_pairs(*old(table)).insert(left@, right),
{
    table.insert(left, right);
}

/// Giving codes to two strings gives one to the first, then one to the
/// second.
pub proof fn lemma_with_two_strings(pairs: Map<Seq<char>, u32>, strings: Seq<Seq<char>>)
    requires
        strings.len() == 2,
    ensures
        with_strings(pairs, strings) == with_string(with_string(pairs, strings[0]), strings[1]),
{
    let first = strings.drop_last();
    assert(first.drop_last().len() == 0);
    assert(with_strings(pairs, first.drop_last()) == pairs);
    assert(first.last() == strings[0]);
    assert(with_strings(pairs, first) == with_string(pairs, strings[0]));
}

/// A dense table stays dense when a new string receives the next free code.
pub proof fn lemma_dense_extend(pairs: Map<Seq<char>, u32>, s: Seq<char>)
    requires
        dense(pairs),
        !pairs.contains_key(s),
        pairs.dom().len() <= u32::MAX,
    ensures
        !code_in_use(pairs, pairs.dom().len() as u32),
        dense(pairs.insert(s, pairs.dom().len() as u32)),
        pairs.insert(s, pairs.dom().len() as u32).dom().len() == pairs.dom().len() + 1,
{
    let n = pairs.dom().len() as u32;
    let next = pairs.insert(s, n);
    assert(next.dom() =~= pairs.dom().insert(s));
    assert forall|c: u32| c < next.dom().len() implies #[trigger] code_in_use(next, c) by {
        if c < n {
            assert(code_in_use(pairs, c));
            let t = choose|t: Seq<char>| #[trigger] pairs.contains_key(t) && pairs[t] == c;
            assert(next.contains_key(t) && next[t] == c);
        } else {
            assert(next.contains_key(s) && next[s] == c);
        }
    }
}

} // verus!
