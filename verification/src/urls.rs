//! URL parsing through the `url` crate, reduced to the parts the crawler reads.
use vstd::prelude::*;

verus! {

/// The parts of a parsed URL that the crawler reads.
pub struct UrlParts {
    pub scheme: String,
    pub host: Option<String>,
    pub path: String,
    /// The serialised URL with its fragment removed.
    pub without_fragment: String,
}

/// The value a `UrlParts` stands for.
pub struct UrlView {
    pub scheme: Seq<char>,
    pub host: Option<Seq<char>>,
    pub path: Seq<char>,
    pub without_fragment: Seq<char>,
}

pub open spec fn opt_view(o: Option<String>) -> Option<Seq<char>> {
    match o {
        Some(s) => Some(s@),
        None => None,
    }
}

impl View for UrlParts {
    type V = UrlView;

    open spec fn view(&self) -> UrlView {
        UrlView {
            scheme: self.scheme@,
            host: opt_view(self.host),
            path: self.path@,
            without_fragment: self.without_fragment@,
        }
    }
}

pub open spec fn opt_url_view(o: Option<UrlParts>) -> Option<UrlView> {
    match o {
        Some(u) => Some(u@),
        None => None,
    }
}

/// What `url::Url::parse` makes of `s`, read through `UrlParts`
/// (`None` where it returns an error).
pub uninterp spec fn url_parse_spec(s: Seq<char>) -> Option<UrlView>;

/// What `url::Url::join` makes of `href` against the URL parsed from `base`
/// (`None` where either step returns an error).
pub uninterp spec fn url_join_spec(base: Seq<char>, href: Seq<char>) -> Option<UrlView>;

/// Calls `url::Url::parse` and reads the scheme, host, path and the
/// serialisation without fragment of the result. The contract claims only
/// that the result is a function of `s`.
#[verifier::external_body]
pub(crate) fn parse_url(s: &str) -> (r: Option<UrlParts>)
    ensures
        opt_url_view(r) == url_parse_spec(s@),
{
    let mut u = url::Url::parse(s).ok()?;
    let (scheme, host, path) = (u.scheme().to_string(), u.host_str().map(String::from), u.path().to_string());
    u.set_fragment(None);
    Some(UrlParts { scheme, host, path, without_fragment: u.as_str().to_string() })
}

/// Calls `url::Url::parse` on `base` and `url::Url::join` with `href` on the
/// result, then reads the parts as `parse_url` does. The contract claims only
/// that the result is a function of `base` and `href`.
#[verifier::external_body]
pub(crate) fn join_url(base: &str, href: &str) -> (r: Option<UrlParts>)
    ensures
        opt_url_view(r) == url_join_spec(base@, href@),
{
    let b = url::Url::parse(base).ok()?;
    let mut u = b.join(href).ok()?;
    let (scheme, host, path) = (u.scheme().to_string(), u.host_str().map(String::from), u.path().to_string());
    u.set_fragment(None);
    Some(UrlParts { scheme, host, path, without_fragment: u.as_str().to_string() })
}

/// The host of `url`, or `unknown` when it does not parse or has no host.
pub open spec fn host_or_unknown(url: Seq<char>) -> Seq<char> {
    match url_parse_spec(url) {
        Some(u) => match u.host {
            Some(h) => h,
            None => "unknown"@,
        },
        None => "unknown"@,
    }
}

/// The host of a URL, or `unknown`.
pub fn host_of(url: &str) -> (r: String)
    ensures
        r@ == host_or_unknown(url@),
{
    match parse_url(url) {
        Some(u) => match u.host {
            Some(h) => h,
            None => String::from_str("unknown"),
        },
        None => String::from_str("unknown"),
    }
}

} // verus!
