//! Fetching: the rules by which one URL is fetched, with its retries, and by
//! which one page is crawled together with the pages it links to.
//!
//! Neither rule performs any input or output. Each is a step function: it
//! takes the state of the work and what has just happened, and gives the next
//! state and what to do next. Whoever drives it performs the action and
//! reports back what came of it.

use crate::document::{
    anchor_links_of, can_be_parsed, distinct_texts, extract_links, extract_texts, resp_to_document,
    text_nodes_of, titles_of,
};
use crate::links::links_followed;
use crate::text::{chars_of, string_from_chars};
use vstd::prelude::*;

verus! {

/// How often a request is sent for one URL before the fetch gives up.
pub const MAX_ATTEMPTS: u64 = 4;

/// The pause after the first failed attempt, in milliseconds. After the
/// second it is twice as long, after the third three times.
pub const BACKOFF_MILLIS: u64 = 512;

/// The pause before a page is requested over the network, in milliseconds.
pub const POLITENESS_MILLIS: u64 = 64;

/// How long a request may take to connect, in milliseconds.
pub const CONNECT_TIMEOUT_MILLIS: u64 = 4096;

/// How long a request may take in all, in seconds.
pub const REQUEST_TIMEOUT_SECS: u64 = 64;

/// The name under which requests are sent: that of a common browser.
pub const USER_AGENT: &'static str =
    "Mozilla/5.0 (X11; Linux x86_64) AppleWebKit/537.36 (KHTML, like Gecko) Chrome/119.0.0.0 Safari/537.36";

/// A page as the crawl hands it on.
#[derive(Debug, PartialEq, Eq)]
pub struct SearchableDocument {
    /// The URL the page was fetched from.
    pub url: String,
    /// The text of the first title element; empty where there is none.
    pub title: String,
    /// When the page was fetched, in seconds since the Unix epoch.
    pub fetched_at_linux_epoch_secs: u64,
    /// The lowercased words of each text node, each text once.
    pub searchable_texts: Vec<Vec<String>>,
    /// The URLs to crawl for the links of the page.
    pub links_same_domain: Vec<String>,
}

/// The first of `titles`, or the empty title.
pub open spec fn first_title(titles: Seq<Seq<char>>) -> Seq<char> {
    if titles.len() > 0 {
        titles[0]
    } else {
        Seq::empty()
    }
}

impl SearchableDocument {
    /// Whether this is the page with the body `body`, fetched from `url` at
    /// `fetched_at`, with its links read against `base`.
    pub open spec fn describes(
        &self,
        body: Seq<char>,
        base: Seq<char>,
        url: Seq<char>,
        fetched_at: u64,
    ) -> bool {
        &&& self.url@ == url
        &&& self.title@ == first_title(titles_of(body))
        &&& self.fetched_at_linux_epoch_secs == fetched_at
        &&& self.searchable_texts.deep_view() == distinct_texts(text_nodes_of(body))
        &&& self.links_same_domain.deep_view() == links_followed(base, anchor_links_of(body))
    }
}

/// Reads the page with the body `body`, fetched from `url` at `fetched_at`.
/// Its links are read against `base`. A body that is too long to be parsed is
/// no page.
pub fn parse_document(body: String, base: &str, url: &str, fetched_at: u64) -> (page: Option<
    SearchableDocument,
>)
    ensures
        page is Some <==> can_be_parsed(body@),
        page matches Some(p) ==> p.describes(body@, base@, url@, fetched_at),
{
    let document = match resp_to_document(body) {
        Some(document) => document,
        None => {
            return None;
        },
    };
    let title = if document.titles.len() > 0 {
        document.titles[0].clone()
    } else {
        String::new()
    };
    proof {
        assert(document.titles.deep_view().len() == document.titles.len());
        if document.titles.len() > 0 {
            assert(document.titles.deep_view()[0] == document.titles[0]@);
        }
    }
    Some(
        SearchableDocument {
            url: url.to_owned(),
            title,
            fetched_at_linux_epoch_secs: fetched_at,
            searchable_texts: extract_texts(&document),
            links_same_domain: extract_links(base, &document),
        },
    )
}

/// Where the fetch of one URL stands.
#[derive(Debug, PartialEq, Eq)]
pub enum FetchState {
    /// The cache has been asked for the body.
    AwaitingCache,
    /// Request number `attempt` has been sent; the first is number 1.
    AwaitingResponse { attempt: u64 },
    /// Request number `attempt` has failed, and the fetch pauses.
    Pausing { attempt: u64 },
    /// The fetch is over.
    Finished,
}

/// What has just happened to the fetch of one URL.
#[derive(Debug, PartialEq, Eq)]
pub enum FetchEvent {
    /// The cache holds the body.
    CacheHit { body: String },
    /// The cache holds no body, or could not be read.
    CacheMiss,
    /// The response arrived with this body.
    Response { body: String },
    /// The request failed in transport.
    TransportError,
    /// The response arrived, but sends the client elsewhere. Redirects are
    /// not followed.
    Redirected,
    /// The response arrived, but its body cannot be read as text.
    Unreadable,
    /// The pause is over.
    Paused,
}

/// What the fetch of one URL does next.
#[derive(Debug, PartialEq, Eq)]
pub enum FetchAction {
    /// Send a request.
    Send,
    /// Pause for `millis` milliseconds.
    Pause { millis: u64 },
    /// Store `body` in the cache, then hand it on.
    StoreAndDeliver { body: String },
    /// Hand on `body`, which came from the cache.
    Deliver { body: String },
    /// Hand on that there is no document at this URL.
    GiveUp,
}

/// The rule of the fetch: a body in the cache is handed on without any
/// request. Without one a request is sent. A response is stored and handed
/// on. After a transport error the fetch pauses, `attempt` times
/// [`BACKOFF_MILLIS`], and sends again, until [`MAX_ATTEMPTS`] requests have
/// failed. A redirect, a body that cannot be read, and whatever does not fit
/// end the fetch without a document.
pub open spec fn fetch_step(state: FetchState, event: FetchEvent) -> (FetchState, FetchAction) {
    match (state, event) {
        (FetchState::AwaitingCache, FetchEvent::CacheHit { body }) => (
            FetchState::Finished,
            FetchAction::Deliver { body },
        ),
        (FetchState::AwaitingCache, FetchEvent::CacheMiss) => (
            FetchState::AwaitingResponse { attempt: 1 },
            FetchAction::Send,
        ),
        (FetchState::AwaitingResponse { attempt }, FetchEvent::Response { body }) => (
            FetchState::Finished,
            FetchAction::StoreAndDeliver { body },
        ),
        (FetchState::AwaitingResponse { attempt }, FetchEvent::TransportError) => if 1 <= attempt
            < MAX_ATTEMPTS {
            (
                FetchState::Pausing { attempt },
                FetchAction::Pause { millis: (attempt * BACKOFF_MILLIS) as u64 },
            )
        } else {
            (FetchState::Finished, FetchAction::GiveUp)
        },
        (FetchState::Pausing { attempt }, FetchEvent::Paused) => if 1 <= attempt < MAX_ATTEMPTS {
            (FetchState::AwaitingResponse { attempt: (attempt + 1) as u64 }, FetchAction::Send)
        } else {
            (FetchState::Finished, FetchAction::GiveUp)
        },
        _ => (FetchState::Finished, FetchAction::GiveUp),
    }
}

/// How many more steps the fetch can take from `state`, at most.
pub open spec fn fetch_steps_left(state: FetchState) -> nat {
    match state {
        FetchState::AwaitingCache => 9,
        FetchState::AwaitingResponse { attempt } => if 1 <= attempt <= MAX_ATTEMPTS {
            (2 * (MAX_ATTEMPTS - attempt) + 1) as nat
        } else {
            1
        },
        FetchState::Pausing { attempt } => if 1 <= attempt < MAX_ATTEMPTS {
            (2 * (MAX_ATTEMPTS - attempt)) as nat
        } else {
            1
        },
        FetchState::Finished => 0,
    }
}

/// The state in which every fetch starts: the cache is asked first.
pub fn start_fetch() -> (state: FetchState)
    ensures
        state == FetchState::AwaitingCache,
{
    FetchState::AwaitingCache
}

/// One step of the fetch of a URL: from where it stands and what has just
/// happened to where it stands then and what to do next.
pub fn fetch(state: FetchState, event: FetchEvent) -> (next: (FetchState, FetchAction))
    ensures
        next == fetch_step(state, event),
{
    match (state, event) {
        (FetchState::AwaitingCache, FetchEvent::CacheHit { body }) => (
            FetchState::Finished,
            FetchAction::Deliver { body },
        ),
        (FetchState::AwaitingCache, FetchEvent::CacheMiss) => (
            FetchState::AwaitingResponse { attempt: 1 },
            FetchAction::Send,
        ),
        (FetchState::AwaitingResponse { attempt }, FetchEvent::Response { body }) => (
            FetchState::Finished,
            FetchAction::StoreAndDeliver { body },
        ),
        (FetchState::AwaitingResponse { attempt }, FetchEvent::TransportError) => {
            if 1 <= attempt && attempt < MAX_ATTEMPTS {
                (
                    FetchState::Pausing { attempt },
                    FetchAction::Pause { millis: attempt * BACKOFF_MILLIS },
                )
            } else {
                (FetchState::Finished, FetchAction::GiveUp)
            }
        },
        (FetchState::Pausing { attempt }, FetchEvent::Paused) => {
            if 1 <= attempt && attempt < MAX_ATTEMPTS {
                (FetchState::AwaitingResponse { attempt: attempt + 1 }, FetchAction::Send)
            } else {
                (FetchState::Finished, FetchAction::GiveUp)
            }
        },
        _ => (FetchState::Finished, FetchAction::GiveUp),
    }
}

/// Every fetch ends: each step that does not finish it leaves fewer steps to
/// take, and a finished fetch stays finished.
pub proof fn lemma_fetch_ends(state: FetchState, event: FetchEvent)
    ensures
        fetch_step(state, event).0 is Finished || fetch_steps_left(fetch_step(state, event).0)
            < fetch_steps_left(state),
        state is Finished ==> fetch_step(state, event).0 is Finished,
{
}

/// A request is sent only after the cache held no body, or after a pause;
/// a body that the cache holds is handed on at once, without a request; and
/// the fetch is over exactly when a body is handed on or given up.
pub proof fn lemma_fetch_actions(state: FetchState, event: FetchEvent)
    ensures
        fetch_step(state, event).1 is Send ==> (state is AwaitingCache && event is CacheMiss) || (
        state is Pausing && event is Paused),
        state is AwaitingCache && event is CacheHit ==> fetch_step(state, event).1 is Deliver,
        fetch_step(state, event).0 is Finished <==> !(fetch_step(state, event).1 is Send
            || fetch_step(state, event).1 is Pause),
{
}

/// What the crawl of one page has found at one URL.
#[derive(Debug, PartialEq, Eq)]
pub struct Found {
    /// The URL, as the page linked to it; for the page itself, its own URL.
    pub url: String,
    /// The searchable texts at the URL; nothing where no document was had.
    pub texts: Option<Vec<Vec<String>>>,
}

/// What a [`Found`] holds, as plain values.
pub struct FoundModel {
    pub url: Seq<char>,
    pub texts: Option<Seq<Seq<Seq<char>>>>,
}

impl View for Found {
    type V = FoundModel;

    open spec fn view(&self) -> FoundModel {
        FoundModel {
            url: self.url@,
            texts: match self.texts {
                Some(texts) => Some(texts.deep_view()),
                None => None,
            },
        }
    }
}

/// Where the crawl of one page stands. `link` counts the links of the page
/// from 0.
#[derive(Clone, Copy, Debug, PartialEq, Eq, Structural)]
pub enum CrawlStage {
    /// The page itself is being fetched.
    AwaitingRoot,
    /// The cache has been asked for the texts of link `link`.
    AwaitingTexts { link: usize },
    /// The crawl pauses before it fetches link `link`.
    Pausing { link: usize },
    /// The page of link `link` is being fetched.
    AwaitingPage { link: usize },
    /// The crawl of this page is over.
    Finished,
}

/// The crawl of one page and of the pages it links to.
#[derive(Debug, PartialEq, Eq)]
pub struct Crawl {
    /// The URL of the page.
    pub root: String,
    /// Where the crawl stands.
    pub stage: CrawlStage,
    /// The URLs to crawl for the links of the page, once it has been read.
    pub links: Vec<String>,
    /// What has been found so far: the page first, then its links in order.
    pub found: Vec<Found>,
}

/// What a [`Crawl`] holds, as plain values.
pub struct CrawlModel {
    pub root: Seq<char>,
    pub stage: CrawlStage,
    pub links: Seq<Seq<char>>,
    pub found: Seq<FoundModel>,
}

impl View for Crawl {
    type V = CrawlModel;

    open spec fn view(&self) -> CrawlModel {
        CrawlModel {
            root: self.root@,
            stage: self.stage,
            links: self.links.deep_view(),
            found: Seq::new(self.found.len() as nat, |i: int| self.found[i]@),
        }
    }
}

/// What has just happened to the crawl of one page.
#[derive(Debug, PartialEq, Eq)]
pub enum CrawlEvent {
    /// The fetch of the page itself ended, with this body or without one.
    Root { body: Option<String> },
    /// The cache was asked for the texts of the current link, and held these
    /// or none.
    CachedTexts { texts: Option<Vec<Vec<String>>> },
    /// The pause is over.
    Paused,
    /// The fetch of the current link ended, with this body or without one.
    Page { body: Option<String> },
}

/// What a [`CrawlEvent`] holds, as plain values.
pub enum CrawlEventModel {
    Root { body: Option<Seq<char>> },
    CachedTexts { texts: Option<Seq<Seq<Seq<char>>>> },
    Paused,
    Page { body: Option<Seq<char>> },
}

impl View for CrawlEvent {
    type V = CrawlEventModel;

    open spec fn view(&self) -> CrawlEventModel {
        match *self {
            CrawlEvent::Root { body } => CrawlEventModel::Root {
                body: match body {
                    Some(b) => Some(b@),
                    None => None,
                },
            },
            CrawlEvent::CachedTexts { texts } => CrawlEventModel::CachedTexts {
                texts: match texts {
                    Some(t) => Some(t.deep_view()),
                    None => None,
                },
            },
            CrawlEvent::Paused => CrawlEventModel::Paused,
            CrawlEvent::Page { body } => CrawlEventModel::Page {
                body: match body {
                    Some(b) => Some(b@),
                    None => None,
                },
            },
        }
    }
}

/// What the crawl of one page does next.
#[derive(Debug, PartialEq, Eq)]
pub enum CrawlAction {
    /// Ask the cache for the texts stored for `url`.
    ReadTexts { url: String },
    /// Pause for `millis` milliseconds.
    Pause { millis: u64 },
    /// Fetch `url`.
    Fetch { url: String },
    /// Nothing more: what was found is in the state.
    Finish,
}

/// What a [`CrawlAction`] holds, as plain values.
pub enum CrawlActionModel {
    ReadTexts { url: Seq<char> },
    Pause { millis: u64 },
    Fetch { url: Seq<char> },
    Finish,
}

impl View for CrawlAction {
    type V = CrawlActionModel;

    open spec fn view(&self) -> CrawlActionModel {
        match *self {
            CrawlAction::ReadTexts { url } => CrawlActionModel::ReadTexts { url: url@ },
            CrawlAction::Pause { millis } => CrawlActionModel::Pause { millis },
            CrawlAction::Fetch { url } => CrawlActionModel::Fetch { url: url@ },
            CrawlAction::Finish => CrawlActionModel::Finish,
        }
    }
}

/// The crawl that has done with the links before `link`: it asks the cache
/// for the texts of link `link`, or is over where there is no such link.
pub open spec fn turn_to(crawl: CrawlModel, link: int) -> (CrawlModel, CrawlActionModel) {
    if 0 <= link < crawl.links.len() {
        (
            CrawlModel { stage: CrawlStage::AwaitingTexts { link: link as usize }, ..crawl },
            CrawlActionModel::ReadTexts { url: crawl.links[link] },
        )
    } else {
        (CrawlModel { stage: CrawlStage::Finished, ..crawl }, CrawlActionModel::Finish)
    }
}

/// The crawl that has found `texts` at link `link`, and turns to the next.
pub open spec fn found_at(crawl: CrawlModel, link: int, texts: Option<Seq<Seq<Seq<char>>>>) -> (
    CrawlModel,
    CrawlActionModel,
) {
    turn_to(
        CrawlModel {
            found: crawl.found.push(FoundModel { url: crawl.links[link], texts }),
            ..crawl
        },
        link + 1,
    )
}

/// The searchable texts of the page with the body `body`, if there is one
/// and it can be parsed.
pub open spec fn texts_of_body(body: Option<Seq<char>>) -> Option<Seq<Seq<Seq<char>>>> {
    match body {
        Some(b) => if can_be_parsed(b) {
            Some(distinct_texts(text_nodes_of(b)))
        } else {
            None
        },
        None => None,
    }
}

/// The rule of the crawl of one page. Without the page itself, or with a
/// body that is too long to be parsed, nothing is found. With it, its texts are found at its own URL, and its links are
/// taken in order: texts that the cache holds for a link are found there at
/// once; without them the crawl pauses for [`POLITENESS_MILLIS`], fetches
/// the link, and finds there the texts of what came back, or nothing.
/// Whatever does not fit ends the crawl.
pub open spec fn crawl_step(crawl: CrawlModel, event: CrawlEventModel) -> (
    CrawlModel,
    CrawlActionModel,
) {
    match (crawl.stage, event) {
        (CrawlStage::AwaitingRoot, CrawlEventModel::Root { body: Some(body) }) => {
            if can_be_parsed(body) {
                turn_to(
                    CrawlModel {
                        links: links_followed(crawl.root, anchor_links_of(body)),
                        found: crawl.found.push(
                            FoundModel { url: crawl.root, texts: texts_of_body(Some(body)) },
                        ),
                        ..crawl
                    },
                    0,
                )
            } else {
                (CrawlModel { stage: CrawlStage::Finished, ..crawl }, CrawlActionModel::Finish)
            }
        },
        (CrawlStage::AwaitingTexts { link }, CrawlEventModel::CachedTexts { texts: Some(texts) }) => {
            if link < crawl.links.len() {
                found_at(crawl, link as int, Some(texts))
            } else {
                turn_to(crawl, link as int)
            }
        },
        (CrawlStage::AwaitingTexts { link }, CrawlEventModel::CachedTexts { texts: None }) => {
            if link < crawl.links.len() {
                (
                    CrawlModel { stage: CrawlStage::Pausing { link }, ..crawl },
                    CrawlActionModel::Pause { millis: POLITENESS_MILLIS },
                )
            } else {
                turn_to(crawl, link as int)
            }
        },
        (CrawlStage::Pausing { link }, CrawlEventModel::Paused) => {
            if link < crawl.links.len() {
                (
                    CrawlModel { stage: CrawlStage::AwaitingPage { link }, ..crawl },
                    CrawlActionModel::Fetch { url: crawl.links[link as int] },
                )
            } else {
                turn_to(crawl, link as int)
            }
        },
        (CrawlStage::AwaitingPage { link }, CrawlEventModel::Page { body }) => {
            if link < crawl.links.len() {
                found_at(crawl, link as int, texts_of_body(body))
            } else {
                turn_to(crawl, link as int)
            }
        },
        _ => (CrawlModel { stage: CrawlStage::Finished, ..crawl }, CrawlActionModel::Finish),
    }
}

impl Crawl {
    /// The crawl of the page at `root`, before anything has happened: the
    /// page itself is to be fetched.
    pub fn new(root: String) -> (crawl: Crawl)
        ensures
            crawl@ == (CrawlModel {
                root: root@,
                stage: CrawlStage::AwaitingRoot,
                links: Seq::empty(),
                found: Seq::empty(),
            }),
    {
        let crawl = Crawl {
            root,
            stage: CrawlStage::AwaitingRoot,
            links: Vec::new(),
            found: Vec::new(),
        };
        assert(crawl@.links =~= Seq::empty());
        assert(crawl@.found =~= Seq::empty());
        crawl
    }

    /// Turns to link `link`: asks the cache for its texts, or ends the
    /// crawl where there is no such link.
    fn advance(&mut self, link: usize) -> (action: CrawlAction)
        ensures
            (final(self)@, action@) == turn_to(old(self)@, link as int),
    {
        if link < self.links.len() {
            self.stage = CrawlStage::AwaitingTexts { link };
            let url = self.links[link].clone();
            assert(self@.links[link as int] == self.links[link as int]@);
            assert(self@.found =~= old(self)@.found);
            CrawlAction::ReadTexts { url }
        } else {
            self.stage = CrawlStage::Finished;
            assert(self@.found =~= old(self)@.found);
            CrawlAction::Finish
        }
    }

    /// Records what was found at `url`.
    fn record(&mut self, url: String, texts: Option<Vec<Vec<String>>>)
        ensures
            final(self)@ == (CrawlModel {
                found: old(self)@.found.push(
                    (Found { url, texts })@,
                ),
                ..old(self)@
            }),
    {
        let ghost before = self@.found;
        let item = Found { url, texts };
        self.found.push(item);
        assert(self@.found =~= before.push(item@));
    }
}

/// The searchable texts of the page with the body `body`, if there is one.
pub fn body_texts(body: Option<String>) -> (texts: Option<Vec<Vec<String>>>)
    ensures
        (match texts {
            Some(t) => Some(t.deep_view()),
            None => None,
        }) == texts_of_body(
            match body {
                Some(b) => Some(b@),
                None => None,
            },
        ),
{
    match body {
        Some(b) => match resp_to_document(b) {
            Some(document) => Some(extract_texts(&document)),
            None => None,
        },
        None => None,
    }
}

/// One step of the crawl of a page: from what has just happened to what to
/// do next. What has been found is kept in `state`.
pub fn crawl(state: &mut Crawl, event: CrawlEvent) -> (action: CrawlAction)
    ensures
        (final(state)@, action@) == crawl_step(old(state)@, event@),
{
    match (state.stage, event) {
        (CrawlStage::AwaitingRoot, CrawlEvent::Root { body: Some(body) }) => {
            let document = match resp_to_document(body) {
                Some(document) => document,
                None => {
                    state.stage = CrawlStage::Finished;
                    assert(state@.found =~= old(state)@.found);
                    return CrawlAction::Finish;
                },
            };
            let links = extract_links(state.root.as_str(), &document);
            let texts = extract_texts(&document);
            state.links = links;
            let url = state.root.clone();
            state.record(url, Some(texts));
            state.advance(0)
        },
        (CrawlStage::AwaitingTexts { link }, CrawlEvent::CachedTexts { texts: Some(texts) }) => {
            if link < state.links.len() {
                let url = state.links[link].clone();
                assert(state@.links[link as int] == state.links[link as int]@);
                state.record(url, Some(texts));
                state.advance(link + 1)
            } else {
                state.advance(link)
            }
        },
        (CrawlStage::AwaitingTexts { link }, CrawlEvent::CachedTexts { texts: None }) => {
            if link < state.links.len() {
                state.stage = CrawlStage::Pausing { link };
                assert(state@.found =~= old(state)@.found);
                CrawlAction::Pause { millis: POLITENESS_MILLIS }
            } else {
                state.advance(link)
            }
        },
        (CrawlStage::Pausing { link }, CrawlEvent::Paused) => {
            if link < state.links.len() {
                state.stage = CrawlStage::AwaitingPage { link };
                let url = state.links[link].clone();
                assert(state@.links[link as int] == state.links[link as int]@);
                assert(state@.found =~= old(state)@.found);
                CrawlAction::Fetch { url }
            } else {
                state.advance(link)
            }
        },
        (CrawlStage::AwaitingPage { link }, CrawlEvent::Page { body }) => {
            if link < state.links.len() {
                let url = state.links[link].clone();
                assert(state@.links[link as int] == state.links[link as int]@);
                let texts = body_texts(body);
                state.record(url, texts);
                state.advance(link + 1)
            } else {
                state.advance(link)
            }
        },
        _ => {
            state.stage = CrawlStage::Finished;
            assert(state@.found =~= old(state)@.found);
            CrawlAction::Finish
        },
    }
}

/// The crawl goes over the network for a link only where the cache held no
/// texts for it, and only after the pause: it pauses exactly on a cache
/// miss, for [`POLITENESS_MILLIS`], and fetches exactly when a pause is over.
pub proof fn lemma_crawl_is_polite(crawl: CrawlModel, event: CrawlEventModel)
    ensures
        crawl_step(crawl, event).1 is Pause <==> (crawl.stage matches CrawlStage::AwaitingTexts {
            link,
        } && link < crawl.links.len() && event == (CrawlEventModel::CachedTexts { texts: None })),
        crawl_step(crawl, event).1 is Pause ==> crawl_step(crawl, event).1
            == (CrawlActionModel::Pause { millis: POLITENESS_MILLIS }),
        crawl_step(crawl, event).1 is Fetch <==> (crawl.stage matches CrawlStage::Pausing { link }
            && link < crawl.links.len() && event is Paused),
        crawl_step(crawl, event).0.stage is Pausing <==> crawl_step(crawl, event).1 is Pause,
{
}

/// A crawl that finds every link in the cache never goes over the network
/// for a link: as long as no answer of the cache is a miss, the crawl neither
/// pauses nor fetches, and is never about to.
pub proof fn lemma_hits_need_no_network(crawl: CrawlModel, event: CrawlEventModel)
    requires
        !(crawl.stage is Pausing),
        !(crawl.stage is AwaitingPage),
        event != (CrawlEventModel::CachedTexts { texts: None }),
    ensures
        !(crawl_step(crawl, event).0.stage is Pausing),
        !(crawl_step(crawl, event).0.stage is AwaitingPage),
        !(crawl_step(crawl, event).1 is Pause),
        !(crawl_step(crawl, event).1 is Fetch),
{
}

/// A page as it is served: the body that a URL gives.
#[derive(Debug, PartialEq, Eq)]
pub struct Page {
    pub url: String,
    pub body: String,
}

/// The body that `pages` serve at `url`: that of the first page with this
/// URL, if there is one.
pub open spec fn served(pages: Seq<Page>, url: Seq<char>) -> Option<Seq<char>>
    decreases pages.len(),
{
    if pages.len() == 0 {
        None
    } else if pages[0].url@ == url {
        Some(pages[0].body@)
    } else {
        served(pages.drop_first(), url)
    }
}

/// What is served at a URL is the body of one of the pages with that URL.
pub proof fn lemma_served_is_a_page(pages: Seq<Page>, url: Seq<char>)
    ensures
        served(pages, url) matches Some(body) ==> exists|k: int|
            0 <= k < pages.len() && (#[trigger] pages[k]).url@ == url && pages[k].body@ == body,
    decreases pages.len(),
{
    if pages.len() > 0 && pages[0].url@ != url {
        lemma_served_is_a_page(pages.drop_first(), url);
        if served(pages, url) is Some {
            let k = choose|k: int|
                0 <= k < pages.drop_first().len() && (#[trigger] pages.drop_first()[k]).url@ == url
                    && pages.drop_first()[k].body@ == served(pages, url)->0;
            assert(pages[k + 1] == pages.drop_first()[k]);
        }
    }
}

/// The body that `pages` serve at `url`, if any.
pub fn serve(pages: &Vec<Page>, url: &str) -> (body: Option<String>)
    ensures
        (match body {
            Some(b) => Some(b@),
            None => None,
        }) == served(pages@, url@),
{
    let wanted = url.to_owned();
    let mut i: usize = 0;
    assert(pages@.skip(0) =~= pages@);
    while i < pages.len()
        invariant
            i <= pages.len(),
            wanted@ == url@,
            served(pages@, url@) == served(pages@.skip(i as int), url@),
        decreases pages.len() - i,
    {
        assert(pages@.skip(i as int)[0] == pages[i as int]);
        assert(pages@.skip(i as int).drop_first() =~= pages@.skip(i + 1));
        if pages[i].url == wanted {
            return Some(pages[i].body.clone());
        }
        i += 1;
    }
    None
}

/// How many more steps the crawl of one page can take, at most, once the
/// page itself has been read.
pub open spec fn crawl_steps_left(crawl: CrawlModel) -> nat {
    match crawl.stage {
        CrawlStage::AwaitingRoot => 0,
        CrawlStage::AwaitingTexts { link } => if link < crawl.links.len() {
            (3 * (crawl.links.len() - link)) as nat
        } else {
            1
        },
        CrawlStage::Pausing { link } => if link < crawl.links.len() {
            (3 * (crawl.links.len() - link) - 1) as nat
        } else {
            1
        },
        CrawlStage::AwaitingPage { link } => if link < crawl.links.len() {
            (3 * (crawl.links.len() - link) - 2) as nat
        } else {
            1
        },
        CrawlStage::Finished => 0,
    }
}

/// Every crawl of one page ends: the crawl is over exactly when it says so,
/// it never waits for the page itself a second time, and once the page has
/// been read each step that does not end the crawl leaves fewer steps to
/// take.
pub proof fn lemma_crawl_ends(crawl: CrawlModel, event: CrawlEventModel)
    requires
        crawl.links.len() <= usize::MAX,
    ensures
        crawl_step(crawl, event).1 is Finish <==> crawl_step(crawl, event).0.stage is Finished,
        !(crawl_step(crawl, event).0.stage is AwaitingRoot),
        !(crawl.stage is AwaitingRoot) ==> crawl_step(crawl, event).0.links == crawl.links,
        !(crawl.stage is AwaitingRoot) && !(crawl.stage is Finished) ==> crawl_steps_left(
            crawl_step(crawl, event).0,
        ) < crawl_steps_left(crawl),
{
}

/// What is found at `url` where `pages` are served and nothing is cached:
/// the texts of the body served there, if one is served and can be parsed.
pub open spec fn found_served(pages: Seq<Page>, url: Seq<char>) -> FoundModel {
    FoundModel { url, texts: texts_of_body(served(pages, url)) }
}

/// What the crawl of the page at `root` has found once it has done with the
/// first `done` of its `links`.
pub open spec fn found_so_far(
    pages: Seq<Page>,
    root: Seq<char>,
    links: Seq<Seq<char>>,
    done: int,
) -> Seq<FoundModel> {
    seq![found_served(pages, root)] + Seq::new(
        done as nat,
        |j: int| found_served(pages, links[j]),
    )
}

/// What the crawl of the page at `root` finds where `pages` are served and
/// nothing is cached: nothing without the page itself; else what is served
/// at the page, then what is served at each of its links, in order.
pub open spec fn served_crawl(pages: Seq<Page>, root: Seq<char>) -> Seq<FoundModel> {
    match served(pages, root) {
        Some(body) => if can_be_parsed(body) {
            let links = links_followed(root, anchor_links_of(body));
            found_so_far(pages, root, links, links.len() as int)
        } else {
            Seq::empty()
        },
        None => Seq::empty(),
    }
}

/// Whether the crawl of the page at `root`, which has done with the links
/// before `link`, is where it should be.
pub open spec fn in_progress(crawl: CrawlModel, pages: Seq<Page>, root: Seq<char>, link: int) -> bool {
    &&& 0 <= link < crawl.links.len()
    &&& served(pages, root) matches Some(body) && can_be_parsed(body) && crawl.links
        == links_followed(root, anchor_links_of(body))
    &&& crawl.found == found_so_far(pages, root, crawl.links, link)
}

/// Whether the crawl of the page at `root` over the served `pages` is on
/// course: it has found what it should have by now, and asks for what it
/// should ask next.
pub open spec fn on_course(
    crawl: CrawlModel,
    action: CrawlActionModel,
    pages: Seq<Page>,
    root: Seq<char>,
) -> bool {
    &&& crawl.root == root
    &&& crawl.links.len() <= usize::MAX
    &&& match crawl.stage {
        CrawlStage::AwaitingRoot => false,
        CrawlStage::AwaitingTexts { link } => in_progress(crawl, pages, root, link as int)
            && action == (CrawlActionModel::ReadTexts { url: crawl.links[link as int] }),
        CrawlStage::Pausing { link } => in_progress(crawl, pages, root, link as int) && action
            == (CrawlActionModel::Pause { millis: POLITENESS_MILLIS }),
        CrawlStage::AwaitingPage { link } => in_progress(crawl, pages, root, link as int)
            && action == (CrawlActionModel::Fetch { url: crawl.links[link as int] }),
        CrawlStage::Finished => action is Finish && crawl.found == served_crawl(pages, root),
    }
}

/// What comes of `action` where `pages` are served and nothing is cached.
pub open spec fn served_event(action: CrawlActionModel, pages: Seq<Page>) -> CrawlEventModel {
    match action {
        CrawlActionModel::ReadTexts { url } => CrawlEventModel::CachedTexts { texts: None },
        CrawlActionModel::Fetch { url } => CrawlEventModel::Page { body: served(pages, url) },
        _ => CrawlEventModel::Paused,
    }
}

/// The crawl of a served page is on course once the page itself has been
/// asked for.
pub proof fn lemma_on_course_at_start(pages: Seq<Page>, root: Seq<char>)
    ensures
        ({
            let start = CrawlModel {
                root,
                stage: CrawlStage::AwaitingRoot,
                links: Seq::empty(),
                found: Seq::empty(),
            };
            let next = crawl_step(start, CrawlEventModel::Root { body: served(pages, root) });
            next.0.links.len() <= usize::MAX ==> on_course(next.0, next.1, pages, root)
        }),
{
    let start = CrawlModel {
        root,
        stage: CrawlStage::AwaitingRoot,
        links: Seq::empty(),
        found: Seq::empty(),
    };
    let next = crawl_step(start, CrawlEventModel::Root { body: served(pages, root) });
    match served(pages, root) {
        Some(body) => {
            if can_be_parsed(body) {
                let links = links_followed(root, anchor_links_of(body));
                assert(next.0.found =~= found_so_far(pages, root, links, 0));
                if links.len() == 0 {
                    assert(next.0.found =~= served_crawl(pages, root));
                }
            }
        },
        None => {},
    }
}

/// A crawl of a served page that is on course stays on course.
pub proof fn lemma_on_course_step(
    crawl: CrawlModel,
    action: CrawlActionModel,
    pages: Seq<Page>,
    root: Seq<char>,
)
    requires
        on_course(crawl, action, pages, root),
    ensures
        on_course(
            crawl_step(crawl, served_event(action, pages)).0,
            crawl_step(crawl, served_event(action, pages)).1,
            pages,
            root,
        ),
{
    let next = crawl_step(crawl, served_event(action, pages));
    match crawl.stage {
        CrawlStage::AwaitingPage { link } => {
            let longer = found_so_far(pages, root, crawl.links, link + 1);
            assert(crawl.found.push(found_served(pages, crawl.links[link as int])) =~= longer);
            assert(next.0.found == longer);
        },
        _ => {},
    }
}

/// Whether page number `k` of `pages` is served at `url`, can be parsed, and
/// has the searchable texts `texts`.
pub open spec fn is_served_page(
    pages: Seq<Page>,
    k: int,
    url: Seq<char>,
    texts: Seq<Seq<Seq<char>>>,
) -> bool {
    &&& 0 <= k < pages.len()
    &&& pages[k].url@ == url
    &&& can_be_parsed(pages[k].body@)
    &&& texts == distinct_texts(text_nodes_of(pages[k].body@))
}

/// Whether the texts found at a URL, if any were, are those of a page that
/// is served there.
pub open spec fn grounded(item: FoundModel, pages: Seq<Page>) -> bool {
    item.texts matches Some(texts) ==> exists|k: int|
        #[trigger] is_served_page(pages, k, item.url, texts)
}

/// Whatever the crawl of a served page finds with texts, it finds at a URL
/// where a page with these texts is served.
pub proof fn lemma_served_crawl_is_grounded(pages: Seq<Page>, root: Seq<char>, j: int)
    requires
        0 <= j < served_crawl(pages, root).len(),
    ensures
        grounded(served_crawl(pages, root)[j], pages),
{
    let item = served_crawl(pages, root)[j];
    let body = served(pages, root)->0;
    let links = links_followed(root, anchor_links_of(body));
    let url = if j == 0 {
        root
    } else {
        links[j - 1]
    };
    assert(item == found_served(pages, url));
    lemma_served_is_a_page(pages, url);
    if item.texts is Some {
        let k = choose|k: int|
            0 <= k < pages.len() && (#[trigger] pages[k]).url@ == url && pages[k].body@ == served(
                pages,
                url,
            )->0;
        assert(is_served_page(pages, k, item.url, item.texts->0));
    }
}

/// Crawls the page at `root` and the pages it links to, where `pages` are
/// what is served and nothing is cached: what was found at each URL, the
/// page itself first, then its links in order.
pub fn crawl_served(root: &str, pages: &Vec<Page>) -> (found: Vec<Found>)
    ensures
        Seq::new(found.len() as nat, |i: int| found[i]@) == served_crawl(pages@, root@),
{
    let mut state = Crawl::new(root.to_owned());
    let ghost start = state@;
    let body = serve(pages, root);
    let mut action = crawl(&mut state, CrawlEvent::Root { body });
    proof {
        lemma_crawl_ends(start, (CrawlEvent::Root { body })@);
        lemma_on_course_at_start(pages@, root@);
        assert(state@.links.len() == state.links.len());
    }
    while !matches!(action, CrawlAction::Finish)
        invariant
            on_course(state@, action@, pages@, root@),
            action@ is Finish <==> state@.stage is Finished,
        decreases crawl_steps_left(state@),
    {
        let event = match action {
            CrawlAction::ReadTexts { url } => CrawlEvent::CachedTexts { texts: None },
            CrawlAction::Fetch { url } => CrawlEvent::Page { body: serve(pages, url.as_str()) },
            _ => CrawlEvent::Paused,
        };
        let ghost before = state@;
        let ghost asked = action@;
        assert(event@ == served_event(asked, pages@));
        action = crawl(&mut state, event);
        proof {
            lemma_crawl_ends(before, event@);
            lemma_on_course_step(before, asked, pages@, root@);
        }
    }
    state.found
}

/// Whether `s` has the three characters `://` at position `at`.
pub open spec fn scheme_mark_at(s: Seq<char>, at: int) -> bool {
    0 <= at && at + 3 <= s.len() && s[at] == ':' && s[at + 1] == '/' && s[at + 2] == '/'
}

/// `s` with each `://` replaced by one underscore, from left to right.
pub open spec fn without_scheme_marks(s: Seq<char>) -> Seq<char>
    decreases s.len(),
{
    if s.len() == 0 {
        Seq::empty()
    } else if scheme_mark_at(s, 0) {
        seq!['_'] + without_scheme_marks(s.skip(3))
    } else {
        seq![s[0]] + without_scheme_marks(s.skip(1))
    }
}

/// `s` with each slash replaced by an underscore.
pub open spec fn without_slashes(s: Seq<char>) -> Seq<char> {
    Seq::new(
        s.len(),
        |i: int|
            if s[i] == '/' {
                '_'
            } else {
                s[i]
            },
    )
}

/// `s` without the underscores at its end.
pub open spec fn without_trailing_underscores(s: Seq<char>) -> Seq<char>
    decreases s.len(),
{
    if s.len() > 0 && s.last() == '_' {
        without_trailing_underscores(s.drop_last())
    } else {
        s
    }
}

/// The name of the file that stands for `url`: the URL with each `://` and
/// then each slash replaced by an underscore, without underscores at its
/// end, and with the extension `.json`.
pub open spec fn filename_of(url: Seq<char>) -> Seq<char> {
    without_trailing_underscores(without_slashes(without_scheme_marks(url))) + seq![
        '.',
        'j',
        's',
        'o',
        'n',
    ]
}

/// The name of the file that stands for `url`.
pub fn url_to_filename(url: &str) -> (name: String)
    ensures
        name@ == filename_of(url@),
{
    let chars = chars_of(url);
    let ghost s = chars@;
    let mut out: Vec<char> = Vec::new();
    let mut i: usize = 0;
    assert(s.skip(0) =~= s);
    while i < chars.len()
        invariant
            i <= chars.len(),
            chars@ == s,
            without_slashes(without_scheme_marks(s)) == out@ + without_slashes(
                without_scheme_marks(s.skip(i as int)),
            ),
        decreases chars.len() - i,
    {
        let ghost rest = s.skip(i as int);
        let ghost before = out@;
        if chars.len() - i >= 3 && chars[i] == ':' && chars[i + 1] == '/' && chars[i + 2] == '/' {
            proof {
                assert(scheme_mark_at(rest, 0));
                assert(rest.skip(3) =~= s.skip(i + 3));
                let tail = without_scheme_marks(s.skip(i + 3));
                assert(without_slashes(seq!['_'] + tail) =~= seq!['_'] + without_slashes(tail));
            }
            out.push('_');
            assert(out@ + without_slashes(without_scheme_marks(s.skip(i + 3))) =~= before
                + without_slashes(without_scheme_marks(rest)));
            i += 3;
        } else {
            let c = chars[i];
            proof {
                assert(!scheme_mark_at(rest, 0));
                assert(rest.skip(1) =~= s.skip(i + 1));
                let tail = without_scheme_marks(s.skip(i + 1));
                assert(without_slashes(seq![c] + tail) =~= seq![
                    if c == '/' {
                        '_'
                    } else {
                        c
                    },
                ] + without_slashes(tail));
            }
            if c == '/' {
                out.push('_');
            } else {
                out.push(c);
            }
            assert(out@ + without_slashes(without_scheme_marks(s.skip(i + 1))) =~= before
                + without_slashes(without_scheme_marks(rest)));
            i += 1;
        }
    }
    proof {
        assert(s.skip(i as int) =~= Seq::<char>::empty());
        assert(without_slashes(without_scheme_marks(Seq::<char>::empty())) =~= Seq::<char>::empty());
        assert(out@ =~= without_slashes(without_scheme_marks(s)));
    }
    let ghost replaced = out@;
    while out.len() > 0 && out[out.len() - 1] == '_'
        invariant
            without_trailing_underscores(replaced) == without_trailing_underscores(out@),
        decreases out.len(),
    {
        let ghost longer = out@;
        out.pop();
        assert(out@ =~= longer.drop_last());
    }
    let ghost trimmed = out@;
    out.push('.');
    out.push('j');
    out.push('s');
    out.push('o');
    out.push('n');
    assert(out@ =~= trimmed + seq!['.', 'j', 's', 'o', 'n']);
    string_from_chars(&out)
}

} // verus!
