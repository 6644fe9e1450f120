//! Messages of the problem service, and its address.
use vstd::prelude::*;
use crate::address::{address, address_text, or_default};

verus! {

/// Environment variable that names the problem service's host.
pub const HOST_VAR: &'static str = "PROBLEM_HOST";

/// Environment variable that names the problem service's port.
pub const PORT_VAR: &'static str = "PROBLEM_PORT";

/// The address of the problem service; a missing host is `127.0.0.1`, a missing port `4001`.
pub fn url(host: Option<String>, port: Option<String>) -> (res: String)
    ensures
        res@ == address_text(or_default(host, "127.0.0.1"@), or_default(port, "4001"@)),
{
    address(host, port, "127.0.0.1", "4001")
}

/// The kinds of problem a user can ask for.
#[derive(Clone, Copy, Debug, PartialEq, Eq, Structural)]
pub enum ProblemRequest {
    LargestWindowInArray,
    CountIslands,
    TestProblem,
    SizeOfIsland,
    UnimplementedProblem,
}

/// An answer to check against a stored problem.
#[derive(Clone, Copy, Debug, PartialEq, Eq, Structural)]
pub struct ValidationRequest {
    pub problem_id: i64,
    pub answer: i64,
}

#[derive(Clone, Copy, Debug, PartialEq, Eq, Structural)]
pub enum ProblemServiceRequest {
    Problem(ProblemRequest),
    Validation(ValidationRequest),
}

#[derive(Clone, Debug, PartialEq)]
pub enum ProblemServiceResponse {
    Problem(ProblemResponse),
    Validation(ValidationResponse),
}

/// The verdict on an answer: right, or below or above the right one.
#[derive(Clone, Copy, Debug, PartialEq, Eq, Structural)]
pub enum ValidationResponse {
    Valid,
    Lower,
    Higher,
}

/// A problem as a user sees it: its id and its data written as text.
#[derive(Clone, Debug, PartialEq)]
pub struct UserProblem {
    pub id: i64,
    pub data: String,
}

#[derive(Clone, Debug, PartialEq)]
pub enum ProblemResponse {
    Ready(UserProblem),
    Fault(String),
}

} // verus!
