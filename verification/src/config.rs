//! The fixed settings of the service.

use vstd::prelude::*;

verus! {

/// How many levels below the root a capture descends.
pub const MAX_DEPTH: u32 = 2;

/// The seconds for which a snapshot is served before it is captured anew.
pub const TIMEOUT_CACHE_SECONDS: u64 = 600;

/// The seconds after which an unanswered connection attempt or request to
/// the remote endpoint is given up.
pub const REMOTE_TIMEOUT_SECONDS: u64 = 30;

/// Host name and port of the remote endpoint.
pub fn cran_host() -> (host: &'static str)
    ensures
        host@ == "cran.r-project.org:21"@,
{
    "cran.r-project.org:21"
}

/// The directory at which every capture begins.
pub fn cran_root() -> (root: &'static str)
    ensures
        root@ == "/incoming"@,
{
    "/incoming"
}

/// The user name of the anonymous login.
pub fn cran_user() -> (user: &'static str)
    ensures
        user@ == "anonymous"@,
{
    "anonymous"
}

/// The password of the anonymous login.
pub fn cran_password() -> (password: &'static str)
    ensures
        password@ == "anonymous"@,
{
    "anonymous"
}

} // verus!
