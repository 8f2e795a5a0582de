//! Links: reading the URLs that a page points to, and choosing those that a
//! crawl restricted to one origin may follow.

use url::Origin;
use url::ParseError;
use url::Url;
use crate::text::chars_of;
use vstd::prelude::*;

verus! {

/// Why a link could not be read on its own.
#[derive(Clone, Copy, Debug, PartialEq, Eq, Structural)]
pub enum LinkFault {
    /// The link is relative: it needs a base to be read against.
    RelativeWithoutBase,
    /// The link is no URL at all.
    Malformed,
}

/// The scheme, host and port of a URL.
#[derive(Debug)]
pub struct SiteOrigin {
    pub scheme: String,
    pub host: String,
    pub port: u16,
}

impl View for SiteOrigin {
    type V = (Seq<char>, Seq<char>, u16);

    open spec fn view(&self) -> Self::V {
        (self.scheme@, self.host@, self.port)
    }
}

/// What reading `input` as an absolute URL gives: the URL as it is written
/// out again, or the reason why it cannot be read.
pub uninterp spec fn url_parse(input: Seq<char>) -> Result<Seq<char>, LinkFault>;

/// What reading `input` against the URL `base` gives, written out; nothing
/// where `base` is no URL or `input` cannot be read against it.
pub uninterp spec fn url_join(base: Seq<char>, input: Seq<char>) -> Option<Seq<char>>;

/// The scheme, host and port of the URL `url`; nothing where `url` is no URL
/// or has no such origin.
pub uninterp spec fn url_origin(url: Seq<char>) -> Option<(Seq<char>, Seq<char>, u16)>;

/// The path of the URL `url`; nothing where `url` is no URL.
pub uninterp spec fn url_path(url: Seq<char>) -> Option<Seq<char>>;

/// The URL `url` without its query; nothing where `url` is no URL.
pub uninterp spec fn url_without_query(url: Seq<char>) -> Option<Seq<char>>;

/// The URL `url` without its fragment; nothing where `url` is no URL.
pub uninterp spec fn url_without_fragment(url: Seq<char>) -> Option<Seq<char>>;

/// The characters of a result that holds a string.
pub open spec fn text_of(r: Result<String, LinkFault>) -> Result<Seq<char>, LinkFault> {
    match r {
        Ok(s) => Ok(s@),
        Err(e) => Err(e),
    }
}

/// The characters of an optional string.
pub open spec fn chars_of_option(o: Option<String>) -> Option<Seq<char>> {
    match o {
        Some(s) => Some(s@),
        None => None,
    }
}

/// The parts of an optional origin.
pub open spec fn parts_of(o: Option<SiteOrigin>) -> Option<(Seq<char>, Seq<char>, u16)> {
    match o {
        Some(origin) => Some(origin@),
        None => None,
    }
}

/// `Url::parse`: the URL written out again, or whether the failure is that
/// the input is relative. The result is what [`url_parse`] names.
#[verifier::external_body]
pub(crate) fn parse_url(input: &str) -> (r: Result<String, LinkFault>)
    ensures
        text_of(r) == url_parse(input@),
{
    match Url::parse(input) {
        Ok(url) => Ok(String::from(url)),
        Err(ParseError::RelativeUrlWithoutBase) => Err(LinkFault::RelativeWithoutBase),
        Err(_) => Err(LinkFault::Malformed),
    }
}

/// `Url::join` on the URL that `base` spells: the joined URL written out.
/// The result is what [`url_join`] names.
#[verifier::external_body]
pub(crate) fn join_url(base: &str, input: &str) -> (r: Option<String>)
    ensures
        chars_of_option(r) == url_join(base@, input@),
{
    match Url::parse(base) {
        Ok(url) => url.join(input).ok().map(String::from),
        Err(_) => None,
    }
}

/// `Url::origin` on the URL that `url` spells: scheme, host and port where
/// the origin is such a triple. The result is what [`url_origin`] names.
#[verifier::external_body]
pub(crate) fn origin_of(url: &str) -> (r: Option<SiteOrigin>)
    ensures
        parts_of(r) == url_origin(url@),
{
    match Url::parse(url) {
        Ok(parsed) => match parsed.origin() {
            Origin::Tuple(scheme, host, port) => Some(
                SiteOrigin { scheme, host: host.to_string(), port },
            ),
            Origin::Opaque(_) => None,
        },
        Err(_) => None,
    }
}

/// `Url::path` on the URL that `url` spells. The result is what
/// [`url_path`] names.
#[verifier::external_body]
pub(crate) fn path_of(url: &str) -> (r: Option<String>)
    ensures
        chars_of_option(r) == url_path(url@),
{
    match Url::parse(url) {
        Ok(parsed) => Some(parsed.path().to_string()),
        Err(_) => None,
    }
}

/// `Url::set_query` with no query, on the URL that `url` spells: that URL
/// written out without its query. The result is what [`url_without_query`]
/// names.
#[verifier::external_body]
pub(crate) fn without_query(url: &str) -> (r: Option<String>)
    ensures
        chars_of_option(r) == url_without_query(url@),
{
    match Url::parse(url) {
        Ok(mut parsed) => {
            parsed.set_query(None);
            Some(String::from(parsed))
        },
        Err(_) => None,
    }
}

/// `Url::set_fragment` with no fragment, on the URL that `url` spells: that
/// URL written out without its fragment. The result is what
/// [`url_without_fragment`] names.
#[verifier::external_body]
pub(crate) fn without_fragment(url: &str) -> (r: Option<String>)
    ensures
        chars_of_option(r) == url_without_fragment(url@),
{
    match Url::parse(url) {
        Ok(mut parsed) => {
            parsed.set_fragment(None);
            Some(String::from(parsed))
        },
        Err(_) => None,
    }
}

/// The canonical form of the URL `url`: without query, without fragment.
pub open spec fn canonical(url: Seq<char>) -> Option<Seq<char>> {
    match url_without_query(url) {
        Some(bare) => url_without_fragment(bare),
        None => None,
    }
}

/// Whether the URLs `a` and `b` have the same origin: both have a scheme,
/// host and port, and the three agree.
pub open spec fn same_origin(a: Seq<char>, b: Seq<char>) -> bool {
    url_origin(a) is Some && url_origin(a) == url_origin(b)
}

/// The canonical form of `url`, where `url` is a URL.
pub fn canonicalize(url: &str) -> (r: Option<String>)
    ensures
        chars_of_option(r) == canonical(url@),
{
    match without_query(url) {
        Some(bare) => without_fragment(bare.as_str()),
        None => None,
    }
}

/// Whether `a` and `b` have the same origin.
pub fn have_same_origin(a: &str, b: &str) -> (same: bool)
    ensures
        same == same_origin(a@, b@),
{
    match (origin_of(a), origin_of(b)) {
        (Some(x), Some(y)) => x.scheme == y.scheme && x.host == y.host && x.port == y.port,
        _ => false,
    }
}

/// The lowercase form of `c` where `c` is an ASCII capital, else `c`.
pub open spec fn ascii_lower(c: char) -> char {
    match c {
        'A' => 'a',
        'B' => 'b',
        'C' => 'c',
        'D' => 'd',
        'E' => 'e',
        'F' => 'f',
        'G' => 'g',
        'H' => 'h',
        'I' => 'i',
        'J' => 'j',
        'K' => 'k',
        'L' => 'l',
        'M' => 'm',
        'N' => 'n',
        'O' => 'o',
        'P' => 'p',
        'Q' => 'q',
        'R' => 'r',
        'S' => 's',
        'T' => 't',
        'U' => 'u',
        'V' => 'v',
        'W' => 'w',
        'X' => 'x',
        'Y' => 'y',
        'Z' => 'z',
        _ => c,
    }
}

/// The lowercase form of `c` where `c` is an ASCII capital, else `c`.
pub fn to_ascii_lower(c: char) -> (folded: char)
    ensures
        folded == ascii_lower(c),
{
    match c {
        'A' => 'a',
        'B' => 'b',
        'C' => 'c',
        'D' => 'd',
        'E' => 'e',
        'F' => 'f',
        'G' => 'g',
        'H' => 'h',
        'I' => 'i',
        'J' => 'j',
        'K' => 'k',
        'L' => 'l',
        'M' => 'm',
        'N' => 'n',
        'O' => 'o',
        'P' => 'p',
        'Q' => 'q',
        'R' => 'r',
        'S' => 's',
        'T' => 't',
        'U' => 'u',
        'V' => 'v',
        'W' => 'w',
        'X' => 'x',
        'Y' => 'y',
        'Z' => 'z',
        _ => c,
    }
}

/// Whether `url` ends in a dot and `extension`, whatever the case of its
/// ASCII letters. `extension` is written in lowercase.
pub open spec fn ends_with_extension(url: Seq<char>, extension: Seq<char>) -> bool {
    &&& url.len() > extension.len()
    &&& url[url.len() - extension.len() - 1] == '.'
    &&& forall|i: int|
        0 <= i < extension.len() ==> ascii_lower(#[trigger] url[url.len() - extension.len() + i])
            == extension[i]
}

/// Whether `url` may be worth fetching as a page: it does not end in one of
/// the extensions of binary and media formats.
pub open spec fn looks_interesting(url: Seq<char>) -> bool {
    &&& !ends_with_extension(url, "pdf"@)
    &&& !ends_with_extension(url, "png"@)
    &&& !ends_with_extension(url, "jpg"@)
    &&& !ends_with_extension(url, "jpeg"@)
    &&& !ends_with_extension(url, "gif"@)
    &&& !ends_with_extension(url, "xml"@)
    &&& !ends_with_extension(url, "rss"@)
    &&& !ends_with_extension(url, "css"@)
    &&& !ends_with_extension(url, "js"@)
    &&& !ends_with_extension(url, "mov"@)
    &&& !ends_with_extension(url, "svg"@)
    &&& !ends_with_extension(url, "ps"@)
    &&& !ends_with_extension(url, "z"@)
    &&& !ends_with_extension(url, "zip"@)
    &&& !ends_with_extension(url, "gz"@)
    &&& !ends_with_extension(url, "rar"@)
    &&& !ends_with_extension(url, "json"@)
    &&& !ends_with_extension(url, "webp"@)
    &&& !ends_with_extension(url, "mp4"@)
    &&& !ends_with_extension(url, "mp3"@)
    &&& !ends_with_extension(url, "bz2"@)
    &&& !ends_with_extension(url, "tar"@)
    &&& !ends_with_extension(url, "webm"@)
    &&& !ends_with_extension(url, "iso"@)
    &&& !ends_with_extension(url, "dsk"@)
}

/// The URL that the link `href`, found on the page at `base`, points to:
/// `href` itself where it is absolute, else `href` read against `base`.
pub open spec fn resolved(base: Seq<char>, href: Seq<char>) -> Option<Seq<char>> {
    match url_parse(href) {
        Ok(url) => Some(url),
        Err(LinkFault::RelativeWithoutBase) => url_join(base, href),
        Err(LinkFault::Malformed) => None,
    }
}

/// Whether both URLs have a path, and the two paths differ.
pub open spec fn path_differs(a: Seq<char>, b: Seq<char>) -> bool {
    url_path(a) is Some && url_path(b) is Some && url_path(a) != url_path(b)
}

/// What becomes of a link that has been resolved, from what is known of it
/// and of the base: the origin and the path of each, and the canonical form
/// of the link. The link is followed, under its canonical form, if both
/// have an origin and the two agree, both have a path and the two differ,
/// and the canonical form is there and looks interesting.
pub open spec fn link_decision(
    link_origin: Option<(Seq<char>, Seq<char>, u16)>,
    base_origin: Option<(Seq<char>, Seq<char>, u16)>,
    link_path: Option<Seq<char>>,
    base_path: Option<Seq<char>>,
    target: Option<Seq<char>>,
) -> Option<Seq<char>> {
    if link_origin is Some && link_origin == base_origin && link_path is Some && base_path is Some
        && link_path != base_path {
        match target {
            Some(url) => if looks_interesting(url) {
                Some(url)
            } else {
                None
            },
            None => None,
        }
    } else {
        None
    }
}

/// The URL to crawl for the link `href` found on the page at `base`, if the
/// link is to be followed: it must resolve, stay within the origin of `base`,
/// lead to another path than `base`, and look interesting once query and
/// fragment are removed.
pub open spec fn followed(base: Seq<char>, href: Seq<char>) -> Option<Seq<char>> {
    match resolved(base, href) {
        Some(link) => link_decision(
            url_origin(link),
            url_origin(base),
            url_path(link),
            url_path(base),
            canonical(link),
        ),
        None => None,
    }
}

/// A link is followed only into the origin of its base, to another path, and
/// under its canonical form.
pub proof fn lemma_followed_stays_on_site(base: Seq<char>, href: Seq<char>)
    ensures
        followed(base, href) matches Some(target) ==> resolved(base, href) matches Some(link)
            && same_origin(link, base) && path_differs(link, base) && canonical(link) == Some(
            target,
        ) && looks_interesting(target),
{
}

/// The URLs to crawl for the links `hrefs` of the page at `base`, in the
/// order of the links. An anchor without a link gives none.
pub open spec fn links_followed(base: Seq<char>, hrefs: Seq<Option<Seq<char>>>) -> Seq<Seq<char>>
    decreases hrefs.len(),
{
    if hrefs.len() == 0 {
        Seq::empty()
    } else {
        let before = links_followed(base, hrefs.drop_last());
        match hrefs.last() {
            Some(href) => match followed(base, href) {
                Some(target) => before.push(target),
                None => before,
            },
            None => before,
        }
    }
}

/// The characters of each link of `hrefs` that is present.
pub open spec fn hrefs_view(hrefs: Seq<Option<String>>) -> Seq<Option<Seq<char>>> {
    Seq::new(hrefs.len(), |i: int| chars_of_option(hrefs[i]))
}

/// Whether `chars` ends in a dot and `extension`, whatever the case of its
/// ASCII letters.
pub fn has_extension(chars: &Vec<char>, extension: &str) -> (b: bool)
    ensures
        b == ends_with_extension(chars@, extension@),
{
    let ext = chars_of(extension);
    if chars.len() <= ext.len() {
        return false;
    }
    let start = chars.len() - ext.len();
    if chars[start - 1] != '.' {
        return false;
    }
    let mut i: usize = 0;
    while i < ext.len()
        invariant
            i <= ext.len(),
            ext@ == extension@,
            chars.len() > ext.len(),
            start == chars.len() - ext.len(),
            forall|j: int| 0 <= j < i ==> ascii_lower(#[trigger] chars@[start + j]) == ext@[j],
        decreases ext.len() - i,
    {
        if to_ascii_lower(chars[start + i]) != ext[i] {
            return false;
        }
        i += 1;
    }
    true
}

/// Whether `link` may be worth fetching as a page.
pub fn link_looks_interesting(link: &str) -> (b: bool)
    ensures
        b == looks_interesting(link@),
{
    let chars = chars_of(link);
    !has_extension(&chars, "pdf")
        && !has_extension(&chars, "png")
        && !has_extension(&chars, "jpg")
        && !has_extension(&chars, "jpeg")
        && !has_extension(&chars, "gif")
        && !has_extension(&chars, "xml")
        && !has_extension(&chars, "rss")
        && !has_extension(&chars, "css")
        && !has_extension(&chars, "js")
        && !has_extension(&chars, "mov")
        && !has_extension(&chars, "svg")
        && !has_extension(&chars, "ps")
        && !has_extension(&chars, "z")
        && !has_extension(&chars, "zip")
        && !has_extension(&chars, "gz")
        && !has_extension(&chars, "rar")
        && !has_extension(&chars, "json")
        && !has_extension(&chars, "webp")
        && !has_extension(&chars, "mp4")
        && !has_extension(&chars, "mp3")
        && !has_extension(&chars, "bz2")
        && !has_extension(&chars, "tar")
        && !has_extension(&chars, "webm")
        && !has_extension(&chars, "iso")
        && !has_extension(&chars, "dsk")
}

/// The URL that `href`, found on the page at `base`, points to.
pub fn resolve_link(base: &str, href: &str) -> (r: Option<String>)
    ensures
        chars_of_option(r) == resolved(base@, href@),
{
    match parse_url(href) {
        Ok(url) => Some(url),
        Err(LinkFault::RelativeWithoutBase) => join_url(base, href),
        Err(LinkFault::Malformed) => None,
    }
}

/// Decides what becomes of a resolved link, from what is known of it and of
/// the base.
pub fn decide_link(
    link_origin: &Option<SiteOrigin>,
    base_origin: &Option<SiteOrigin>,
    link_path: &Option<String>,
    base_path: &Option<String>,
    target: Option<String>,
) -> (r: Option<String>)
    ensures
        chars_of_option(r) == link_decision(
            parts_of(*link_origin),
            parts_of(*base_origin),
            chars_of_option(*link_path),
            chars_of_option(*base_path),
            chars_of_option(target),
        ),
{
    let same_origin = match (link_origin, base_origin) {
        (Some(x), Some(y)) => x.scheme == y.scheme && x.host == y.host && x.port == y.port,
        _ => false,
    };
    let other_path = match (link_path, base_path) {
        (Some(x), Some(y)) => *x != *y,
        _ => false,
    };
    if !same_origin || !other_path {
        return None;
    }
    match target {
        Some(url) => if link_looks_interesting(url.as_str()) {
            Some(url)
        } else {
            None
        },
        None => None,
    }
}

/// The URL to crawl for the link `href` found on the page at `base`, if the
/// link is to be followed.
pub fn follow_link(base: &str, href: &str) -> (r: Option<String>)
    ensures
        chars_of_option(r) == followed(base@, href@),
{
    let link = match resolve_link(base, href) {
        Some(link) => link,
        None => {
            return None;
        },
    };
    decide_link(
        &origin_of(link.as_str()),
        &origin_of(base),
        &path_of(link.as_str()),
        &path_of(base),
        canonicalize(link.as_str()),
    )
}

/// The URLs to crawl for the links `hrefs` of the page at `base`: for each
/// anchor in turn, its link if it is to be followed. A link that cannot be
/// read is passed over.
pub fn extract_links_same_domain(base: &str, hrefs: &Vec<Option<String>>) -> (links: Vec<String>)
    ensures
        links.deep_view() == links_followed(base@, hrefs_view(hrefs@)),
{
    let ghost all = hrefs_view(hrefs@);
    let mut links: Vec<String> = Vec::new();
    let mut i: usize = 0;
    assert(all.take(0) =~= Seq::<Option<Seq<char>>>::empty());
    assert(links.deep_view() =~= Seq::<Seq<char>>::empty());
    while i < hrefs.len()
        invariant
            i <= hrefs.len(),
            all == hrefs_view(hrefs@),
            links.deep_view() == links_followed(base@, all.take(i as int)),
        decreases hrefs.len() - i,
    {
        proof {
            assert(all.take(i + 1).drop_last() =~= all.take(i as int));
            assert(all.take(i + 1).last() == chars_of_option(hrefs@[i as int]));
        }
        let ghost before = links.deep_view();
        match &hrefs[i] {
            Some(href) => match follow_link(base, href.as_str()) {
                Some(target) => {
                    links.push(target);
                    assert(links.deep_view() =~= before.push(target@));
                },
                None => {},
            },
            None => {},
        }
        i += 1;
    }
    assert(all.take(i as int) =~= all);
    links
}

} // verus!
