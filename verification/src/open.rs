//! Which URLs may be opened in the browser, and how an attempt ended.

use vstd::prelude::*;
use vstd::string::StringExecFns;

use crate::address::{is_web_scheme, parse_url, url_parse};
use crate::text::{join2, trim, trim_string};

verus! {

/// Outcome of an open attempt.
#[derive(Debug, Clone, PartialEq, Eq)]
pub enum OpenOutcome {
    Opened,
    RejectedUrl,
    Failed(String),
}

/// The URL text may be opened: trimmed, it parses as an http or https URL.
pub open spec fn openable(url: Seq<char>) -> bool {
    match url_parse(trim(url)) {
        Ok((scheme, _)) => is_web_scheme(scheme),
        Err(_) => false,
    }
}

/// The URL to hand to the browser: the trimmed text when it is an http or
/// https URL; anything else is rejected, so that the panel can never hand
/// `xdg-open` a scheme it should not.
pub fn vet_open_url(url: &str) -> (r: Result<String, OpenOutcome>)
    ensures
        openable(url@) ==> (r matches Ok(u) && u@ == trim(url@)),
        !openable(url@) ==> r == Err::<String, OpenOutcome>(OpenOutcome::RejectedUrl),
{
    let trimmed = trim_string(url);
    let parsed = match parse_url(trimmed.as_str()) {
        Ok(p) => p,
        Err(_) => {
            return Err(OpenOutcome::RejectedUrl);
        },
    };
    let https = String::from_str("https");
    let http = String::from_str("http");
    if !(parsed.scheme == https) && !(parsed.scheme == http) {
        return Err(OpenOutcome::RejectedUrl);
    }
    Ok(trimmed)
}

/// How an attempt ended once the browser launcher exited: opened when it
/// exited successfully, otherwise failed with its exit status.
pub fn exit_outcome(success: bool, exit_status: &str) -> (r: OpenOutcome)
    ensures
        success ==> r == OpenOutcome::Opened,
        !success ==> (r matches OpenOutcome::Failed(msg) && msg@ == "xdg-open exited with "@
            + exit_status@),
{
    if success {
        OpenOutcome::Opened
    } else {
        OpenOutcome::Failed(join2("xdg-open exited with ", exit_status))
    }
}

} // verus!
