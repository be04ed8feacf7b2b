//! The address of a request, held as text, and its rendering by the `http`
//! crate that `actix_web` re-exports.

use actix_web::http::uri::{Authority, Parts, PathAndQuery, Scheme};
use actix_web::http::Uri;
use vstd::prelude::*;

verus! {

/// The path of a request and the query that follows it.
#[derive(Debug, Clone)]
pub struct Resource {
    pub path: String,
    /// The text behind the first `?`, where there is one.
    pub query: Option<String>,
}

/// The address a request was made to, component by component.
#[derive(Debug, Clone)]
pub struct Target {
    pub scheme: Option<String>,
    pub authority: Option<String>,
    /// Absent where the address names no path, as in `example.com:80`.
    pub resource: Option<Resource>,
}

/// The text of the URI that the `http` crate assembles from a scheme, an
/// authority and a path with query, or `None` where it rejects one of them
/// or their combination.
pub uninterp spec fn uri_text(
    scheme: Option<Seq<char>>,
    authority: Option<Seq<char>>,
    path_and_query: Seq<char>,
) -> Option<Seq<char>>;

/// Hands the three components to the `http` crate and returns the URI it
/// makes of them as text. Each component goes through the crate's own
/// `try_from`; `Uri::from_parts` then accepts or refuses the combination,
/// and the URI's `Display` writes the text. Where any of these steps fails
/// there is no text. The outcome depends on the three texts alone and is
/// named by `uri_text`; nothing more is claimed of it.
#[verifier::external_body]
pub(crate) fn render(
    scheme: &Option<String>,
    authority: &Option<String>,
    path_and_query: &str,
) -> (text: Option<String>)
    ensures
        text.deep_view() == uri_text(scheme.deep_view(), authority.deep_view(), path_and_query@),
{
    let mut parts = Parts::default();
    parts.scheme = scheme.as_deref().map(Scheme::try_from).transpose().ok()?;
    parts.authority = authority.as_deref().map(Authority::try_from).transpose().ok()?;
    parts.path_and_query = Some(PathAndQuery::try_from(path_and_query).ok()?);
    Uri::from_parts(parts).ok().map(|uri| uri.to_string())
}

} // verus!
