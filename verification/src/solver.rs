//! Messages between the problem service and the solver service.
use vstd::prelude::*;
use crate::address::{address, address_text, or_default};

verus! {

/// Environment variable that names the solver service's host.
pub const HOST_VAR: &'static str = "SOLVER_HOST";

/// Environment variable that names the solver service's port.
pub const PORT_VAR: &'static str = "SOLVER_PORT";

/// The address of the solver service; a missing host is `127.0.0.1`, a missing port `4000`.
pub fn url(host: Option<String>, port: Option<String>) -> (res: String)
    ensures
        res@ == address_text(or_default(host, "127.0.0.1"@), or_default(port, "4000"@)),
{
    address(host, port, "127.0.0.1", "4000")
}

/// The answer of the solver service.
#[derive(Clone, Debug, PartialEq)]
pub enum SolveResponse {
    Solved(i64),
    Fault,
    BadData(String),
}

/// A problem handed to the solver service, with its data.
#[allow(inconsistent_fields)]
#[derive(Clone, Debug, PartialEq)]
pub enum SolveRequest {
    LargestWindowInArray { data: Vec<i64> },
    TestProblem { data: String },
    SizeOfIsland { data: Vec<Vec<bool>> },
    CountIslands { data: Vec<Vec<bool>> },
    UnimplementedProblem { data: String },
}

} // verus!
