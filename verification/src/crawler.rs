//! The crawl frontier: which URLs wait to be crawled, which have been seen,
//! and what becomes of each URL that a crawl turns up.
//!
//! The frontier performs no input or output. Whoever drives it asks it for
//! the next task, runs the crawl of that page, and reports each URL found.
//!
//! A crawl as a whole is a run: a sequence of states of frontier and index,
//! each of which comes from the one before by one step. What holds of the
//! index at every point of every run is stated and proved at the end of this
//! file.

use crate::config::Website;
use crate::database::texts_view;
use crate::index::Index;
use crate::document::{can_be_parsed, distinct_texts, text_nodes_of};
use crate::indexing::{
    adjacent, files, lemma_blank_index_reflects_nothing, lemma_filing_reflects, occurs, reflects,
    Corpus,
};
use crate::links::{canonical, canonicalize, chars_of_option, have_same_origin, same_origin};
use crate::net::{
    is_served_page, lemma_served_crawl_is_grounded, served_crawl, Found, FoundModel, Page,
};
use crate::text::clone_texts;
use vstd::prelude::*;

verus! {

/// A page that waits to be crawled.
#[derive(Debug, PartialEq, Eq)]
pub struct Entry {
    /// The URL of the page.
    pub url: String,
    /// Whether the pages found under it are crawled in turn.
    pub recursive: bool,
    /// The visited scope that the page belongs to: the number of its seed.
    pub scope: usize,
}

/// A URL that has been seen within a scope.
#[derive(Debug, PartialEq, Eq)]
pub struct Seen {
    pub scope: usize,
    pub url: String,
}

/// The frontier of a crawl.
pub struct Crawler {
    /// The pages that wait to be crawled; the last is taken first.
    pub stack: Vec<Entry>,
    /// The URL of each seed. The number of a seed is the number of its scope.
    pub seeds: Vec<String>,
    /// The canonical URLs seen so far, each with its scope, in the order in
    /// which they were seen.
    pub visited: Vec<Seen>,
    /// How many tasks have been handed out and have not finished.
    pub in_flight: usize,
}

/// What the driver of the crawl does next.
#[derive(Debug, PartialEq, Eq)]
pub enum Schedule {
    /// Crawl this page.
    Run(Entry),
    /// Wait until one of the tasks in flight has finished.
    Wait,
    /// Nothing waits and nothing runs: the crawl is over.
    Done,
}

/// What becomes of a URL that a crawl has turned up.
#[derive(Debug, PartialEq, Eq)]
pub struct Verdict {
    /// The canonical form of the URL, where it has one.
    pub url: Option<String>,
    /// Whether the URL was seen for the first time in its scope.
    pub fresh: bool,
    /// The texts to store in the cache under the canonical URL, if any.
    pub store: Option<Vec<Vec<String>>>,
    /// Whether the texts were filed in the index.
    pub indexed: bool,
    /// Whether the URL was put on the stack, to be crawled in turn.
    pub pushed: bool,
}

/// What is done with a URL that a crawl has turned up.
#[derive(Clone, Copy, Debug, PartialEq, Eq, Structural)]
pub struct Decision {
    /// Record the URL as seen in its scope.
    pub record: bool,
    /// Store its texts in the cache.
    pub store: bool,
    /// File its texts in the index.
    pub index: bool,
    /// Put it on the stack, to be crawled in turn.
    pub push: bool,
}

/// The rule for a URL that a crawl has turned up. Nothing is done with a
/// URL that is not `known` (it has no canonical form, or the page that led
/// to it lies outside its scope), nor with one that was `seen` before in its
/// scope. One that is seen for the first time is recorded. If it has texts,
/// they are stored; if it also has the origin of the page that led to it,
/// the texts are filed where the index has the `capacity`, and the URL is
/// put on the stack where the crawl is `recursive`.
pub open spec fn decision(
    known: bool,
    seen: bool,
    has_texts: bool,
    same_origin: bool,
    recursive: bool,
    capacity: bool,
) -> Decision {
    let fresh = known && !seen;
    Decision {
        record: fresh,
        store: fresh && has_texts,
        index: fresh && has_texts && same_origin && capacity,
        push: fresh && has_texts && same_origin && recursive,
    }
}

/// Decides what is done with a URL that a crawl has turned up.
pub fn decide(
    known: bool,
    seen: bool,
    has_texts: bool,
    same_origin: bool,
    recursive: bool,
    capacity: bool,
) -> (d: Decision)
    ensures
        d == decision(known, seen, has_texts, same_origin, recursive, capacity),
{
    let fresh = known && !seen;
    Decision {
        record: fresh,
        store: fresh && has_texts,
        index: fresh && has_texts && same_origin && capacity,
        push: fresh && has_texts && same_origin && recursive,
    }
}

/// Whether `url` is the canonical form of some URL.
pub open spec fn is_canonical(url: Seq<char>) -> bool {
    exists|from: Seq<char>| #[trigger] canonical(from) == Some(url)
}

/// Whether every document of `index` is filed under a canonical URL.
pub open spec fn files_canonical_urls(index: &Index) -> bool {
    forall|u: Seq<char>| #[trigger] index.documents().contains_key(u) ==> is_canonical(u)
}

impl Crawler {
    /// Whether `url` has been seen in scope `scope`.
    pub open spec fn seen(&self, scope: usize, url: Seq<char>) -> bool {
        exists|j: int|
            0 <= j < self.visited.len() && (#[trigger] self.visited[j]).scope == scope
                && self.visited[j].url@ == url
    }

    /// Whether `url` lies within scope `scope`: it is the seed of the scope,
    /// or has the seed's origin.
    pub open spec fn within(&self, scope: usize, url: Seq<char>) -> bool {
        scope < self.seeds.len() && (url == self.seeds[scope as int]@ || same_origin(
            url,
            self.seeds[scope as int]@,
        ))
    }

    /// Whether `url` has the origin of one of the seeds.
    pub open spec fn within_seeds(&self, url: Seq<char>) -> bool {
        exists|scope: int|
            0 <= scope < self.seeds.len() && same_origin(url, (#[trigger] self.seeds[scope])@)
    }

    /// Whether every document of `index` has the origin of one of the seeds.
    pub open spec fn covers(&self, index: &Index) -> bool {
        forall|u: Seq<char>| #[trigger] index.documents().contains_key(u) ==> self.within_seeds(u)
    }

    /// The invariant of the frontier: every page that waits lies within its
    /// scope; no URL has been recorded twice in one scope; and every URL
    /// recorded is canonical.
    pub open spec fn wf(&self) -> bool {
        &&& forall|i: int|
            0 <= i < self.stack.len() ==> self.within(
                (#[trigger] self.stack[i]).scope,
                self.stack[i].url@,
            )
        &&& forall|j: int, k: int|
            0 <= j < k < self.visited.len() ==> !((#[trigger] self.visited[j]).scope == (
            #[trigger] self.visited[k]).scope && self.visited[j].url@ == self.visited[k].url@)
        &&& forall|j: int|
            0 <= j < self.visited.len() ==> is_canonical((#[trigger] self.visited[j]).url@)
    }

    /// The frontier at the start of a crawl: one page waits for each website,
    /// in its own scope, and nothing has been seen. The websites are taken
    /// from the last to the first.
    pub fn seed(websites: &Vec<Website>) -> (crawler: Crawler)
        ensures
            crawler.wf(),
            crawler.in_flight == 0,
            crawler.visited.len() == 0,
            crawler.seeds.len() == websites.len(),
            crawler.stack.len() == websites.len(),
            forall|i: int|
                0 <= i < websites.len() ==> (#[trigger] crawler.seeds[i])@ == websites[i].url@,
            forall|i: int|
                0 <= i < websites.len() ==> (#[trigger] crawler.stack[i]).url@ == websites[i].url@
                    && crawler.stack[i].recursive == websites[i].recursively_crawl
                    && crawler.stack[i].scope == i,
    {
        let mut stack: Vec<Entry> = Vec::new();
        let mut seeds: Vec<String> = Vec::new();
        let mut i: usize = 0;
        while i < websites.len()
            invariant
                i <= websites.len(),
                stack.len() == i,
                seeds.len() == i,
                forall|j: int| 0 <= j < i ==> (#[trigger] seeds[j])@ == websites[j].url@,
                forall|j: int|
                    0 <= j < i ==> (#[trigger] stack[j]).url@ == websites[j].url@
                        && stack[j].recursive == websites[j].recursively_crawl && stack[j].scope
                        == j,
            decreases websites.len() - i,
        {
            seeds.push(websites[i].url.clone());
            stack.push(
                Entry {
                    url: websites[i].url.clone(),
                    recursive: websites[i].recursively_crawl,
                    scope: i,
                },
            );
            i += 1;
        }
        Crawler { stack, seeds, visited: Vec::new(), in_flight: 0 }
    }

    /// What to do next: crawl the page that was put on the stack last; wait
    /// where none waits and a task is in flight; stop where none waits and
    /// none is in flight. A page that is handed out counts as in flight until
    /// [`Crawler::task_finished`] is called for it.
    pub fn next_task(&mut self) -> (next: Schedule)
        requires
            old(self).wf(),
        ensures
            final(self).wf(),
            final(self).seeds == old(self).seeds,
            final(self).visited == old(self).visited,
            match next {
                Schedule::Run(entry) => {
                    &&& old(self).stack.len() > 0
                    &&& old(self).in_flight < usize::MAX
                    &&& entry == old(self).stack@.last()
                    &&& final(self).stack@ == old(self).stack@.drop_last()
                    &&& final(self).in_flight == old(self).in_flight + 1
                    &&& final(self).within(entry.scope, entry.url@)
                },
                Schedule::Wait => {
                    &&& *final(self) == *old(self)
                    &&& old(self).in_flight > 0
                    &&& old(self).stack.len() == 0 || old(self).in_flight == usize::MAX
                },
                Schedule::Done => {
                    &&& *final(self) == *old(self)
                    &&& old(self).stack.len() == 0
                    &&& old(self).in_flight == 0
                },
            },
    {
        if self.stack.len() > 0 && self.in_flight < usize::MAX {
            match self.stack.pop() {
                Some(entry) => {
                    self.in_flight = self.in_flight + 1;
                    Schedule::Run(entry)
                },
                None => Schedule::Wait,
            }
        } else if self.in_flight > 0 {
            Schedule::Wait
        } else {
            Schedule::Done
        }
    }

    /// Records that a task that was handed out has finished.
    pub fn task_finished(&mut self)
        ensures
            old(self).wf() ==> final(self).wf(),
            final(self).stack == old(self).stack,
            final(self).seeds == old(self).seeds,
            final(self).visited == old(self).visited,
            final(self).in_flight == (if old(self).in_flight > 0 {
                old(self).in_flight - 1
            } else {
                0
            }),
    {
        if self.in_flight > 0 {
            self.in_flight = self.in_flight - 1;
        }
    }

    /// Whether `url` has been seen in scope `scope`.
    pub fn has_seen(&self, scope: usize, url: &str) -> (seen: bool)
        ensures
            seen == self.seen(scope, url@),
    {
        let wanted = url.to_owned();
        let mut j: usize = 0;
        while j < self.visited.len()
            invariant
                j <= self.visited.len(),
                wanted@ == url@,
                forall|k: int|
                    0 <= k < j ==> !((#[trigger] self.visited[k]).scope == scope
                        && self.visited[k].url@ == url@),
            decreases self.visited.len() - j,
        {
            if self.visited[j].scope == scope && self.visited[j].url == wanted {
                return true;
            }
            j += 1;
        }
        false
    }

    /// Whether `entry` lies within its scope.
    pub fn admits(&self, entry: &Entry) -> (admitted: bool)
        ensures
            admitted == self.within(entry.scope, entry.url@),
    {
        if entry.scope >= self.seeds.len() {
            return false;
        }
        entry.url == self.seeds[entry.scope] || have_same_origin(
            entry.url.as_str(),
            self.seeds[entry.scope].as_str(),
        )
    }

    /// Decides what becomes of `found`, which the crawl of `entry` has
    /// turned up, and does what can be done here.
    ///
    /// The URL is made canonical and recorded in the scope of `entry`. Only
    /// a URL that is seen there for the first time goes any further: its
    /// texts, where it has any, are to be stored; where it also has the
    /// origin of `entry`, the texts are filed in `index`, and the URL is put
    /// on the stack if `entry` is crawled recursively. An entry that does
    /// not lie within its scope, and a URL without a canonical form, change
    /// nothing.
    pub fn discovered(&mut self, index: &mut Index, entry: &Entry, found: Found) -> (verdict:
        Verdict)
        requires
            old(self).wf(),
            old(index).wf(),
        ensures
            final(self).wf(),
            final(index).wf(),
            final(self).seeds == old(self).seeds,
            final(self).in_flight == old(self).in_flight,
            chars_of_option(verdict.url) == (if old(self).within(entry.scope, entry.url@) {
                canonical(found.url@)
            } else {
                None
            }),
            forall|scope: usize, u: Seq<char>|
                final(self).seen(scope, u) <==> old(self).seen(scope, u) || (scope == entry.scope
                    && chars_of_option(verdict.url) == Some(u)),
            (Decision {
                record: verdict.fresh,
                store: verdict.store is Some,
                index: verdict.indexed,
                push: verdict.pushed,
            }) == decision(
                verdict.url is Some,
                verdict.url is Some && old(self).seen(entry.scope, verdict.url->0@),
                found.texts is Some,
                verdict.url is Some && same_origin(verdict.url->0@, entry.url@),
                entry.recursive,
                verdict.url is Some && found.texts is Some && old(index).has_capacity(
                    verdict.url->0@,
                    texts_view(found.texts)->0,
                ),
            ),
            texts_view(verdict.store) == (if verdict.fresh {
                texts_view(found.texts)
            } else {
                None
            }),
            verdict.indexed ==> files(
                old(index),
                final(index),
                verdict.url->0@,
                texts_view(found.texts)->0,
            ),
            !verdict.indexed ==> *final(index) == *old(index),
            !verdict.pushed ==> final(self).stack@ == old(self).stack@,
            verdict.pushed ==> final(self).stack@.len() == old(self).stack@.len() + 1
                && final(self).stack@.drop_last() == old(self).stack@ && final(self).stack@.last().url@ == verdict.url->0@ && final(self).stack@.last().recursive
                && final(self).stack@.last().scope == entry.scope,
            verdict.indexed ==> same_origin(verdict.url->0@, old(self).seeds[entry.scope as int]@),
            old(self).covers(old(index)) ==> final(self).covers(final(index)),
            files_canonical_urls(old(index)) ==> files_canonical_urls(final(index)),
            discovers((*old(self), *old(index)), (*final(self), *final(index)), *entry, found@),
    {
        let canon = if self.admits(entry) {
            canonicalize(found.url.as_str())
        } else {
            None
        };
        let (seen, same) = match &canon {
            Some(url) => (
                self.has_seen(entry.scope, url.as_str()),
                have_same_origin(url.as_str(), entry.url.as_str()),
            ),
            None => (false, false),
        };
        let capacity = match (&canon, &found.texts) {
            (Some(url), Some(texts)) => index.can_index(url.as_str(), texts),
            _ => false,
        };
        let d = decide(
            canon.is_some(),
            seen,
            found.texts.is_some(),
            same,
            entry.recursive,
            capacity,
        );
        let canon = match canon {
            Some(canon) => canon,
            None => {
                return Verdict {
                    url: None,
                    fresh: false,
                    store: None,
                    indexed: false,
                    pushed: false,
                };
            },
        };
        if !d.record {
            return Verdict {
                url: Some(canon),
                fresh: false,
                store: None,
                indexed: false,
                pushed: false,
            };
        }
        let ghost c = canon@;
        self.visited.push(Seen { scope: entry.scope, url: canon.clone() });
        proof {
            assert(canonical(found.url@) == Some(c));
            assert(is_canonical(c));
            assert forall|scope: usize, u: Seq<char>|
                self.seen(scope, u) <==> old(self).seen(scope, u) || (scope == entry.scope && u
                    == c) by {
                if old(self).seen(scope, u) {
                    let j = choose|j: int|
                        0 <= j < old(self).visited.len() && (#[trigger] old(self).visited[j]).scope == scope && old(self).visited[j].url@ == u;
                    assert(self.visited[j].scope == scope && self.visited[j].url@ == u);
                }
                if scope == entry.scope && u == c {
                    let j = self.visited.len() - 1;
                    assert(self.visited[j].scope == scope && self.visited[j].url@ == u);
                }
                if self.seen(scope, u) {
                    let j = choose|j: int|
                        0 <= j < self.visited.len() && (#[trigger] self.visited[j]).scope == scope
                            && self.visited[j].url@ == u;
                    if j < old(self).visited.len() {
                        assert(old(self).visited[j].scope == scope && old(self).visited[j].url@
                            == u);
                    }
                }
            }
            assert forall|j: int, k: int| 0 <= j < k < self.visited.len() implies !((
            #[trigger] self.visited[j]).scope == (#[trigger] self.visited[k]).scope
                && self.visited[j].url@ == self.visited[k].url@) by {
                if k == self.visited.len() - 1 {
                    assert(old(self).visited[j].scope == self.visited[j].scope);
                    if self.visited[j].scope == entry.scope && self.visited[j].url@ == c {
                        assert(old(self).seen(entry.scope, c));
                    }
                } else {
                    assert(old(self).visited[j] == self.visited[j]);
                    assert(old(self).visited[k] == self.visited[k]);
                }
            }
            assert forall|j: int| 0 <= j < self.visited.len() implies is_canonical(
                (#[trigger] self.visited[j]).url@,
            ) by {
                if j < old(self).visited.len() {
                    assert(old(self).visited[j] == self.visited[j]);
                }
            }
        }
        let texts = match found.texts {
            Some(texts) => texts,
            None => {
                return Verdict {
                    url: Some(canon),
                    fresh: true,
                    store: None,
                    indexed: false,
                    pushed: false,
                };
            },
        };
        let ghost recorded = *self;
        let store = clone_texts(&texts);
        if d.index {
            proof {
                assert(same_origin(c, self.seeds[entry.scope as int]@));
                assert(self.within_seeds(c));
            }
            index.index_texts(canon.clone(), texts);
            proof {
                assert forall|u: Seq<char>| #[trigger]
                    index.documents().contains_key(u) implies old(index).documents().contains_key(
                    u,
                ) || u == c by {}
            }
        }
        if d.push {
            let ghost before = self.stack@;
            self.stack.push(Entry { url: canon.clone(), recursive: true, scope: entry.scope });
            proof {
                assert(same_origin(c, self.seeds[entry.scope as int]@));
                assert(self.stack@.drop_last() =~= before);
                assert forall|i: int| 0 <= i < self.stack.len() implies self.within(
                    (#[trigger] self.stack[i]).scope,
                    self.stack[i].url@,
                ) by {
                    if i < before.len() {
                        assert(self.stack[i] == old(self).stack[i]);
                    }
                }
            }
        }
        proof {
            assert(self.visited == recorded.visited);
            assert forall|scope: usize, u: Seq<char>|
                self.seen(scope, u) <==> old(self).seen(scope, u) || (scope == entry.scope
                    && Some(c) == Some(u)) by {
                assert(self.seen(scope, u) <==> recorded.seen(scope, u));
                assert(recorded.seen(scope, u) <==> old(self).seen(scope, u) || (scope
                    == entry.scope && u == c));
            }
        }
        Verdict {
            url: Some(canon),
            fresh: true,
            store: Some(store),
            indexed: d.index,
            pushed: d.push,
        }
    }
}

/// Whether page number `k` of `pages` is served under a URL whose canonical
/// form is `url`, can be parsed, and holds the word `word` in one of its
/// searchable texts.
pub open spec fn says(pages: Seq<Page>, k: int, url: Seq<char>, word: Seq<char>) -> bool {
    &&& 0 <= k < pages.len()
    &&& canonical(pages[k].url@) == Some(url)
    &&& can_be_parsed(pages[k].body@)
    &&& occurs(distinct_texts(text_nodes_of(pages[k].body@)), word)
}

/// As [`says`], for two words that are neighbours in one searchable text.
pub open spec fn says_pair(
    pages: Seq<Page>,
    k: int,
    url: Seq<char>,
    first: Seq<char>,
    second: Seq<char>,
) -> bool {
    &&& 0 <= k < pages.len()
    &&& canonical(pages[k].url@) == Some(url)
    &&& can_be_parsed(pages[k].body@)
    &&& adjacent(distinct_texts(text_nodes_of(pages[k].body@)), first, second)
}

/// Whether everything in `corpus` stems from a served page: each word at a
/// URL occurs in a searchable text of a page that is served under that URL,
/// up to query and fragment, and so does each pair of neighbours.
pub open spec fn stems_from(corpus: Corpus, pages: Seq<Page>) -> bool {
    &&& forall|u: Seq<char>, w: Seq<char>| #[trigger]
        corpus.words.contains((u, w)) ==> exists|k: int| #[trigger] says(pages, k, u, w)
    &&& forall|u: Seq<char>, a: Seq<char>, b: Seq<char>| #[trigger]
        corpus.pairs.contains((u, a, b)) ==> exists|k: int| #[trigger] says_pair(pages, k, u, a, b)
}

/// Whether `after` is what one discovery makes of `before`, where `item` is
/// what the crawl of `entry` has turned up: frontier and index keep their
/// invariants and the seeds stay; the index either stays as it is, or files
/// the texts of `item` under the canonical form of its URL, which then has
/// the origin of the seed of `entry`.
pub open spec fn discovers(
    before: (Crawler, Index),
    after: (Crawler, Index),
    entry: Entry,
    item: FoundModel,
) -> bool {
    &&& after.0.wf()
    &&& after.1.wf()
    &&& after.0.seeds == before.0.seeds
    &&& after.1 == before.1 || (canonical(item.url) is Some && item.texts is Some
        && entry.scope < before.0.seeds.len() && same_origin(
        canonical(item.url)->0,
        before.0.seeds[entry.scope as int]@,
    ) && files(&before.1, &after.1, canonical(item.url)->0, item.texts->0))
}

/// Whether `after` comes from `before` by one step of a crawl over the
/// served `pages`: a task is taken or finished, which leaves seeds and index
/// alone, or something that the crawl of a page has found is dealt with.
pub open spec fn steps_to(before: (Crawler, Index), after: (Crawler, Index), pages: Seq<Page>) -> bool {
    ||| after.0.wf() && after.0.seeds == before.0.seeds && after.1 == before.1
    ||| exists|entry: Entry, j: int|
        0 <= j < served_crawl(pages, entry.url@).len() && #[trigger] discovers(
            before,
            after,
            entry,
            served_crawl(pages, entry.url@)[j],
        )
}

/// Whether `run` is a crawl of `websites` over the served `pages`: it starts
/// with the frontier seeded by the websites and an index without documents,
/// and goes on step by step.
pub open spec fn is_run(run: Seq<(Crawler, Index)>, websites: Seq<Website>, pages: Seq<Page>) -> bool {
    &&& run.len() > 0
    &&& run[0].0.wf()
    &&& run[0].1.wf()
    &&& run[0].0.seeds.len() == websites.len()
    &&& forall|i: int| 0 <= i < websites.len() ==> (#[trigger] run[0].0.seeds[i])@ == websites[i].url@
    &&& run[0].1.documents() == Map::<Seq<char>, u32>::empty()
    &&& forall|k: int| 0 <= k < run.len() - 1 ==> steps_to(#[trigger] run[k], run[k + 1], pages)
}

/// Whether the index is as a crawl of `websites` over `pages` leaves it: its
/// codes are dense and one-to-one, every document is filed under a canonical
/// URL that has the origin of one of the websites, and every posting stems
/// from a searchable text of a page that is served under the document's URL.
pub open spec fn sound(index: &Index, websites: Seq<Website>, pages: Seq<Page>) -> bool {
    &&& index.wf()
    &&& files_canonical_urls(index)
    &&& forall|u: Seq<char>| #[trigger]
        index.documents().contains_key(u) ==> exists|i: int|
            0 <= i < websites.len() && same_origin(u, (#[trigger] websites[i]).url@)
    &&& exists|corpus: Corpus| #[trigger] reflects(index, corpus) && stems_from(corpus, pages)
}

/// One step of a crawl keeps the index sound.
pub proof fn lemma_step_keeps_sound(
    before: (Crawler, Index),
    after: (Crawler, Index),
    websites: Seq<Website>,
    pages: Seq<Page>,
)
    requires
        steps_to(before, after, pages),
        sound(&before.1, websites, pages),
        before.0.seeds.len() == websites.len(),
        forall|i: int| 0 <= i < websites.len() ==> (#[trigger] before.0.seeds[i])@ == websites[i].url@,
    ensures
        sound(&after.1, websites, pages),
        after.0.seeds == before.0.seeds,
{
    if after.1 != before.1 {
        let (entry, j) = choose|entry: Entry, j: int|
            0 <= j < served_crawl(pages, entry.url@).len() && #[trigger] discovers(
                before,
                after,
                entry,
                served_crawl(pages, entry.url@)[j],
            );
        let item = served_crawl(pages, entry.url@)[j];
        let url = canonical(item.url)->0;
        let texts = item.texts->0;
        assert(files(&before.1, &after.1, url, texts));
        assert(is_canonical(url));
        assert(same_origin(url, websites[entry.scope as int].url@));
        lemma_served_crawl_is_grounded(pages, entry.url@, j);
        let k = choose|k: int| #[trigger] is_served_page(pages, k, item.url, texts);
        let corpus = choose|corpus: Corpus| #[trigger]
            reflects(&before.1, corpus) && stems_from(corpus, pages);
        let grown = corpus.with(url, texts);
        lemma_filing_reflects(&before.1, &after.1, url, texts, corpus);
        assert forall|u: Seq<char>, w: Seq<char>| #[trigger]
            grown.words.contains((u, w)) implies exists|n: int| #[trigger] says(pages, n, u, w) by {
            if corpus.words.contains((u, w)) {
            } else {
                assert(says(pages, k, u, w));
            }
        }
        assert forall|u: Seq<char>, a: Seq<char>, b: Seq<char>| #[trigger]
            grown.pairs.contains((u, a, b)) implies exists|n: int| #[trigger]
            says_pair(pages, n, u, a, b) by {
            if corpus.pairs.contains((u, a, b)) {
            } else {
                assert(says_pair(pages, k, u, a, b));
            }
        }
        assert(reflects(&after.1, grown) && stems_from(grown, pages));
    }
}

/// At every point of every crawl the index is sound: its codes are dense
/// and one-to-one; every document is filed under a canonical URL; every
/// document has the origin of one of the websites, whatever the pages link
/// to; and every posting stems from a text of a page served under the URL of
/// its document. The frontier keeps its invariant too: every URL it has
/// recorded as seen is canonical.
pub proof fn lemma_run_is_sound(
    run: Seq<(Crawler, Index)>,
    websites: Seq<Website>,
    pages: Seq<Page>,
    k: int,
)
    requires
        is_run(run, websites, pages),
        0 <= k < run.len(),
    ensures
        sound(&run[k].1, websites, pages),
        run[k].0.wf(),
        run[k].0.seeds == run[0].0.seeds,
    decreases k,
{
    if k == 0 {
        lemma_blank_index_reflects_nothing(&run[0].1);
        assert(reflects(&run[0].1, Corpus::empty()) && stems_from(Corpus::empty(), pages));
    } else {
        lemma_run_is_sound(run, websites, pages, k - 1);
        assert(steps_to(run[k - 1], run[k - 1 + 1], pages));
        lemma_step_keeps_sound(run[k - 1], run[k], websites, pages);
    }
}

} // verus!
