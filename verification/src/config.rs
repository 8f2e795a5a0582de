//! The configuration of a run: the list of websites to crawl.

use crate::links::{parse_url, url_parse};
use vstd::prelude::*;

verus! {

/// One configured website: the seed URL of a crawl.
#[derive(Debug)]
pub struct Website {
    /// The URL at which the crawl of this website starts.
    pub url: String,
    /// Whether links found under the seed are followed in turn.
    pub recursively_crawl: bool,
}

/// The whole configuration: every website to crawl, in file order.
#[derive(Debug)]
pub struct Config {
    pub websites: Vec<Website>,
}

/// Why a configuration cannot be used.
#[derive(Clone, Copy, Debug, PartialEq, Eq, Structural)]
pub enum ConfigFault {
    /// The website at this position, counted from 0, has a URL that is not
    /// an absolute URL.
    MalformedUrl { website: usize },
}

/// Whether `url` can be read as an absolute URL.
pub open spec fn is_absolute_url(url: Seq<char>) -> bool {
    url_parse(url) is Ok
}

/// Checks that every website of `config` has an absolute URL, and names the
/// first that has none.
pub fn check_config(config: &Config) -> (checked: Result<(), ConfigFault>)
    ensures
        checked is Ok <==> forall|i: int|
            0 <= i < config.websites.len() ==> is_absolute_url(#[trigger] config.websites[i].url@),
        checked matches Err(ConfigFault::MalformedUrl { website }) ==> website
            < config.websites.len() && !is_absolute_url(config.websites[website as int].url@)
            && forall|i: int|
            0 <= i < website ==> is_absolute_url(#[trigger] config.websites[i].url@),
{
    let mut i: usize = 0;
    while i < config.websites.len()
        invariant
            i <= config.websites.len(),
            forall|j: int| 0 <= j < i ==> is_absolute_url(#[trigger] config.websites[j].url@),
        decreases config.websites.len() - i,
    {
        if parse_url(config.websites[i].url.as_str()).is_err() {
            return Err(ConfigFault::MalformedUrl { website: i });
        }
        i += 1;
    }
    Ok(())
}

/// The value of `recursively_crawl` for a website that does not set it.
pub fn default_recursively_crawl() -> (r: bool)
    ensures
        r,
{
    true
}

} // verus!
