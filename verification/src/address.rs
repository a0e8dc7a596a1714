//! URL parsing, as far as the library needs it: the scheme and the host.

use vstd::prelude::*;

use crate::text::opt_view;

verus! {

/// The parts of a parsed URL that the library reads.
#[derive(Debug, Clone)]
pub struct UrlParts {
    /// Lower-case scheme, without the `:`.
    pub scheme: String,
    /// The host, when the URL has one.
    pub host: Option<String>,
}

/// What `url::Url::parse` (re-exported by reqwest) makes of a text: the
/// scheme and the host on success, the parse error's message otherwise.
pub uninterp spec fn url_parse(text: Seq<char>) -> Result<(Seq<char>, Option<Seq<char>>), Seq<char>>;

/// `reqwest::Url::parse`, read through `Url::scheme` and `Url::host_str`;
/// a failure is the error's `Display` text. The contract names the outcome
/// only: which texts are URLs, and their parts, is left unsaid.
#[verifier::external_body]
pub(crate) fn parse_url(text: &str) -> (r: Result<UrlParts, String>)
    ensures
        match (r, url_parse(text@)) {
            (Ok(parts), Ok((scheme, host))) => parts.scheme@ == scheme && opt_view(parts.host)
                == host,
            (Err(msg), Err(expected)) => msg@ == expected,
            _ => false,
        },
{
    match reqwest::Url::parse(text) {
        Ok(url) => Ok(
            UrlParts { scheme: url.scheme().to_string(), host: url.host_str().map(|h| h.to_string()) },
        ),
        Err(e) => Err(e.to_string()),
    }
}

/// `http` or `https`.
pub open spec fn is_web_scheme(scheme: Seq<char>) -> bool {
    scheme == "https"@ || scheme == "http"@
}

} // verus!
