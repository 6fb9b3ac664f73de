//! The one outside call the request builders make: URL assembly through the
//! `url` crate.
use vstd::prelude::*;

verus! {

use crate::errors::UriError;

/// The text that `url::Url::parse_with_params` serialises for a base URL
/// and query pairs it accepts: a pure function of those arguments alone.
pub uninterp spec fn url_with_params_of(
    base: Seq<char>,
    params: Seq<(Seq<char>, Seq<char>)>,
) -> Seq<char>;

/// Relies on `url::Url::parse_with_params`: it parses the base URL, appends
/// the pairs form-urlencoded onto its query, and the serialised result
/// depends on the arguments alone. A base the URL grammar refuses comes back
/// as an error carrying the parser's message.
#[verifier::external_body]
pub fn url_with_params(base: &str, params: &Vec<(String, String)>) -> (r: Result<
    String,
    UriError,
>)
    ensures
        r matches Ok(u) ==> u@ == url_with_params_of(base@, params.deep_view()),
{
    match url::Url::parse_with_params(base, params.iter().map(|p| (p.0.as_str(), p.1.as_str()))) {
        Ok(u) => Ok(String::from(u)),
        Err(e) => Err(UriError { message: e.to_string() }),
    }
}

} // verus!
