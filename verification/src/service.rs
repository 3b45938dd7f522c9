//! What the serving layer says of itself and adds to every response.

use vstd::prelude::*;

verus! {

/// The greeting served at the root of the service.
pub fn index() -> (greeting: &'static str)
    ensures
        greeting@ == "Hello, CRAN!"@,
{
    "Hello, CRAN!"
}

/// The cross-origin policy of the service: every origin may read it.
#[derive(Clone, Copy, Debug, PartialEq, Eq, Structural)]
pub struct CORS;

/// The headers of the cross-origin policy, as pairs of name and value.
pub open spec fn cors_headers() -> Seq<(Seq<char>, Seq<char>)> {
    seq![
        ("Access-Control-Allow-Origin"@, "*"@),
        ("Access-Control-Allow-Methods"@, "POST, GET, PATCH, OPTIONS"@),
        ("Access-Control-Allow-Headers"@, "*"@),
        ("Access-Control-Allow-Credentials"@, "true"@),
    ]
}

/// The values of a list of headers.
pub open spec fn header_views(headers: Seq<(&'static str, &'static str)>) -> Seq<
    (Seq<char>, Seq<char>),
> {
    headers.map_values(|header: (&'static str, &'static str)| (header.0@, header.1@))
}

impl CORS {
    /// The name under which the policy is announced.
    pub fn info(&self) -> (name: &'static str)
        ensures
            name@ == "Add CORS headers to responses"@,
    {
        "Add CORS headers to responses"
    }

    /// The headers that the policy sets on a response, in the order in which
    /// they are set.
    pub fn on_response(&self) -> (headers: Vec<(&'static str, &'static str)>)
        ensures
            header_views(headers@) == cors_headers(),
    {
        let mut headers: Vec<(&'static str, &'static str)> = Vec::new();
        headers.push(("Access-Control-Allow-Origin", "*"));
        headers.push(("Access-Control-Allow-Methods", "POST, GET, PATCH, OPTIONS"));
        headers.push(("Access-Control-Allow-Headers", "*"));
        headers.push(("Access-Control-Allow-Credentials", "true"));
        assert(header_views(headers@) =~= cors_headers());
        headers
    }
}

} // verus!
