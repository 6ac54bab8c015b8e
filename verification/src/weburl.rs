//! URLs: what the `url` crate reads in them, held as plain values.

use vstd::prelude::*;
use crate::cli::optional_text;
use crate::paths::{all_names, segments};
use crate::text::same_text;

verus! {

/// The host of a URL.
#[derive(Clone, Debug)]
pub enum UrlHost {
    Domain(String),
    Ipv4(u32),
    Ipv6(u128),
}

/// What a [`UrlHost`] holds.
pub enum HostModel {
    Domain(Seq<char>),
    Ipv4(u32),
    Ipv6(u128),
}

impl View for UrlHost {
    type V = HostModel;

    open spec fn view(&self) -> HostModel {
        match *self {
            UrlHost::Domain(name) => HostModel::Domain(name@),
            UrlHost::Ipv4(address) => HostModel::Ipv4(address),
            UrlHost::Ipv6(address) => HostModel::Ipv6(address),
        }
    }
}

/// A URL, taken apart.
#[derive(Clone, Debug)]
pub struct WebUrl {
    /// The whole URL, in its normal form.
    pub text: String,
    /// The host, where the URL has one.
    pub host: Option<UrlHost>,
    /// The host as it stands in `text`.
    pub host_text: Option<String>,
    /// The path, percent-encoded.
    pub path: String,
}

/// What a [`WebUrl`] holds.
pub struct UrlModel {
    pub text: Seq<char>,
    pub host: Option<HostModel>,
    pub host_text: Option<Seq<char>>,
    pub path: Seq<char>,
}

/// What an optional host holds.
pub open spec fn host_model(host: Option<UrlHost>) -> Option<HostModel> {
    match host {
        Some(host) => Some(host@),
        None => None,
    }
}

impl View for WebUrl {
    type V = UrlModel;

    open spec fn view(&self) -> UrlModel {
        UrlModel {
            text: self.text@,
            host: host_model(self.host),
            host_text: optional_text(self.host_text),
            path: self.path@,
        }
    }
}

/// What a list of URLs holds.
pub open spec fn url_models(urls: Seq<WebUrl>) -> Seq<UrlModel> {
    urls.map_values(|u: WebUrl| u@)
}

/// Whether a URL is one of the web's: its scheme is `http` or `https`.
pub open spec fn is_web(url: UrlModel) -> bool {
    "http://"@.is_prefix_of(url.text) || "https://"@.is_prefix_of(url.text)
}

/// `s` from its first slash on.
pub open spec fn from_slash(s: Seq<char>) -> Seq<char>
    decreases s.len(),
{
    if s.len() == 0 || s[0] == '/' {
        s
    } else {
        from_slash(s.drop_first())
    }
}

/// `s` up to its first `?` or `#`.
pub open spec fn before_query(s: Seq<char>) -> Seq<char>
    decreases s.len(),
{
    if s.len() == 0 || s[0] == '?' || s[0] == '#' {
        Seq::empty()
    } else {
        seq![s[0]] + before_query(s.drop_first())
    }
}

/// The path in the text of a URL of the web: from the first slash behind the authority up to
/// the query or the fragment.
pub open spec fn path_in(text: Seq<char>) -> Seq<char> {
    let scheme: int = if "https://"@.is_prefix_of(text) {
        8
    } else {
        7
    };
    before_query(from_slash(text.skip(scheme)))
}

/// Whether a URL, where it is one of the web's, has the path that stands in its text, and one
/// that is made of names.
pub open spec fn is_tidy(url: UrlModel) -> bool {
    is_web(url) ==> url.path == path_in(url.text) && all_names(segments(url.path))
}

/// Whether the URLs of the web are [tidy](is_tidy).
pub open spec fn all_tidy(urls: Seq<UrlModel>) -> bool {
    forall|i: int| 0 <= i < urls.len() ==> is_tidy(#[trigger] urls[i])
}

/// What reading a URL gave: the URL, or the message of the error.
pub open spec fn url_result(r: Result<WebUrl, String>) -> Result<UrlModel, Seq<char>> {
    match r {
        Ok(url) => Ok(url@),
        Err(message) => Err(message@),
    }
}

/// What `url::Url::parse` makes of a text: the parts of the URL, or the error's message.
pub uninterp spec fn url_parse(text: Seq<char>) -> Result<UrlModel, Seq<char>>;

/// What `url::Url::join` makes of a reference on the URL that the text `base` denotes: the
/// parts of the URL, or the error's message.
pub uninterp spec fn url_join(base: Seq<char>, reference: Seq<char>) -> Result<UrlModel, Seq<char>>;

/// Calls `url::Url::parse`, and reads the parts of the URL with `Url::as_str`, `Url::host`,
/// `Url::host_str` and `Url::path`. Claimed of it: the parts, or the error's message, are
/// those that [`url_parse`] names, a function of the text alone; and the path of a URL whose
/// scheme is `http` or `https` is the part of its text from the first slash behind the authority
/// up to the query or fragment, and no dot segment is left in it, so that it is made of names.
#[verifier::external_body]
pub(crate) fn parse_url(text: &str) -> (r: Result<WebUrl, String>)
    ensures
        url_result(r) == url_parse(text@),
        r matches Ok(url) ==> is_tidy(url@),
{
    url::Url::parse(text).map_err(|e| e.to_string()).map(|u| WebUrl {
        text: u.as_str().to_string(),
        host: u.host().map(|h| match h {
            url::Host::Domain(name) => UrlHost::Domain(name.to_string()),
            url::Host::Ipv4(address) => UrlHost::Ipv4(u32::from(address)),
            url::Host::Ipv6(address) => UrlHost::Ipv6(u128::from(address)),
        }),
        host_text: u.host_str().map(|h| h.to_string()),
        path: u.path().to_string(),
    })
}

/// Calls `url::Url::join` on the URL that `base` denotes, and reads the parts of the URL.
/// Claimed of it: the parts, or the error's message, are those that [`url_join`] names, a
/// function of the two texts alone; and the path of a URL whose scheme is `http` or `https` is
/// the part of its text from the first slash behind the authority up to the query or fragment,
/// and no dot segment is left in it, so that it is made of names.
#[verifier::external_body]
pub(crate) fn join_url(base: &str, reference: &str) -> (r: Result<WebUrl, String>)
    ensures
        url_result(r) == url_join(base@, reference@),
        r matches Ok(url) ==> is_tidy(url@),
{
    let joined = url::Url::parse(base).and_then(|b| b.join(reference));
    joined.map_err(|e| e.to_string()).map(|u| WebUrl {
        text: u.as_str().to_string(),
        host: u.host().map(|h| match h {
            url::Host::Domain(name) => UrlHost::Domain(name.to_string()),
            url::Host::Ipv4(address) => UrlHost::Ipv4(u32::from(address)),
            url::Host::Ipv6(address) => UrlHost::Ipv6(u128::from(address)),
        }),
        host_text: u.host_str().map(|h| h.to_string()),
        path: u.path().to_string(),
    })
}

impl WebUrl {
    /// The URL that a text denotes, or the message of the error.
    pub fn parse(text: &str) -> (r: Result<WebUrl, String>)
        ensures
            url_result(r) == url_parse(text@),
            r matches Ok(url) ==> is_tidy(url@),
    {
        parse_url(text)
    }

    /// The URL that a reference denotes on this one, or the message of the error.
    pub fn join(&self, reference: &str) -> (r: Result<WebUrl, String>)
        ensures
            url_result(r) == url_join(self@.text, reference@),
            r matches Ok(url) ==> is_tidy(url@),
    {
        join_url(self.text.as_str(), reference)
    }

    /// The same URL once more.
    pub fn duplicate(&self) -> (r: WebUrl)
        ensures
            r@ == self@,
    {
        let host = match &self.host {
            Some(UrlHost::Domain(name)) => Some(UrlHost::Domain(name.clone())),
            Some(UrlHost::Ipv4(address)) => Some(UrlHost::Ipv4(*address)),
            Some(UrlHost::Ipv6(address)) => Some(UrlHost::Ipv6(*address)),
            None => None,
        };
        WebUrl {
            text: self.text.clone(),
            host,
            host_text: match &self.host_text {
                Some(text) => Some(text.clone()),
                None => None,
            },
            path: self.path.clone(),
        }
    }
}

/// Whether two hosts are the same.
fn same_host(a: &Option<UrlHost>, b: &Option<UrlHost>) -> (r: bool)
    ensures
        r == (host_model(*a) == host_model(*b)),
{
    match (a, b) {
        (Some(UrlHost::Domain(x)), Some(UrlHost::Domain(y))) => same_text(x.as_str(), y.as_str()),
        (Some(UrlHost::Ipv4(x)), Some(UrlHost::Ipv4(y))) => *x == *y,
        (Some(UrlHost::Ipv6(x)), Some(UrlHost::Ipv6(y))) => *x == *y,
        (None, None) => true,
        _ => false,
    }
}

/// Determines if two URLs belong to the same domain.
pub fn is_same_domain(url1: &WebUrl, url2: &WebUrl) -> (r: bool)
    ensures
        r == (url1@.host == url2@.host),
{
    same_host(&url1.host, &url2.host)
}

} // verus!
