//! The omegaUp judge.

use vstd::prelude::*;
use vstd::string::StringExecFns;

verus! {

pub open spec fn omegaup_base() -> Seq<char> {
    "https://omegaup.com"@
}

/// The endpoint that redirects to a random problem.
pub fn omegaup_random_endpoint() -> (r: String)
    ensures
        r@ == "https://omegaup.com/problem/random/language/"@,
{
    String::from_str("https://omegaup.com/problem/random/language/")
}

/// The reply for a random problem, given the path that the endpoint redirected to.
pub fn omegaup_reply(path: &str) -> (r: String)
    ensures
        r@ == omegaup_base() + path@,
{
    let mut out = String::from_str("https://omegaup.com");
    out.append(path);
    out
}

} // verus!
