//! Fetch planning: resolving a suffix against the site root and naming
//! the mirror path to write.
//!
//! URL resolution is done by the HTTP client's own URL type, carried
//! opaquely: the suffix's path replaces the root URL's path, scheme and
//! host preserved. The actual GET, like all I/O, stays with the caller.

use vstd::prelude::*;

use crate::mapper::{mapped_path, str_to_path_buf};

verus! {

#[verifier::external_type_specification]
#[verifier::external_body]
pub struct ExUrl(reqwest::Url);

/// Relies on reqwest's Url::join (url::Url::join): parses `suffix`
/// with `root` as the base URL, standard URL-joining semantics; fails on
/// a suffix that cannot be parsed against the base.
#[verifier::external_body]
fn join_suffix(root: &reqwest::Url, suffix: &str) -> (r: Option<reqwest::Url>)
{
    match root.join(suffix) {
        Ok(u) => Some(u),
        Err(_) => None,
    }
}

/// Relies on reqwest's Url::as_str (url::Url::as_str): the URL's string
/// serialization.
#[verifier::external_body]
fn url_string(u: &reqwest::Url) -> (r: String)
{
    u.as_str().to_owned()
}

/// The plan for fetching one suffix: the absolute URL to request, if the
/// suffix resolves against the root, and the mirror path to persist to.
pub struct FetchPlan {
    /// The resolved absolute URL, as a string; none if resolution failed.
    pub url: Option<String>,
    /// The local mirror path for the suffix.
    pub path: String,
}

/// Resolve one suffix against the root and name its mirror path. A
/// resolution failure is isolated to this suffix: the plan simply
/// carries no URL, and the caller skips the fetch.
pub fn prepare_fetch(root: &reqwest::Url, suffix: &str) -> (r: FetchPlan)
    ensures
        r.path@ == mapped_path(suffix@),
{
    let url = match join_suffix(root, suffix) {
        Some(u) => Some(url_string(&u)),
        None => None,
    };
    let path = str_to_path_buf(suffix);
    FetchPlan { url, path }
}

} // verus!
