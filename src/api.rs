//! The payload of the Codeforces problem-list endpoint.

use vstd::prelude::*;

verus! {

/// The whole response.
pub struct Root {
    pub result: Result,
}

/// The `result` object of the response.
pub struct Result {
    pub problems: Vec<Problem>,
}

/// One problem of the list.
pub struct Problem {
    pub contest_id: u16,
    pub index: String,
    pub name: String,
    pub rating: Option<u16>,
}

} // verus!
