//! Stored problems, and the decisions of the problem service around them.
use vstd::prelude::*;
use crate::problem::{ProblemRequest, ProblemResponse, ProblemServiceResponse, UserProblem, ValidationResponse};
use crate::problems::ProblemKind;
use crate::solver::SolveResponse;

verus! {

broadcast use vstd::string::group_string_axioms;

/// A stored problem: its id, its data as written, and the solver's answer.
#[derive(Debug)]
pub struct ProblemRow {
    pub id: i64,
    pub data: String,
    pub answer: i64,
}

impl ProblemRow {
    pub fn new(id: i64, answer: i64, data: String) -> (res: Self)
        ensures
            res.id == id,
            res.answer == answer,
            res.data == data,
    {
        Self { id, data, answer }
    }

    /// The answer is the stored one.
    pub fn validate(&self, answer: i64) -> (res: bool)
        ensures
            res == (answer == self.answer),
    {
        answer == self.answer
    }

    /// The problem as the user gets it: id and data, not the answer.
    pub fn to_response(&self) -> (res: ProblemResponse)
        ensures
            res matches ProblemResponse::Ready(p) && p.id == self.id && p.data@ == self.data@,
    {
        let p = UserProblem { id: self.id, data: self.data.clone() };
        ProblemResponse::Ready(p)
    }
}

/// The verdict on an answer to a stored problem.
pub open spec fn verdict(correct: i64, answer: i64) -> ValidationResponse {
    if answer == correct {
        ValidationResponse::Valid
    } else if answer < correct {
        ValidationResponse::Lower
    } else {
        ValidationResponse::Higher
    }
}

/// Judges an answer: `Valid` when it is the stored one, else whether it is lower or higher.
pub fn judge_answer(problem: &ProblemRow, answer: i64) -> (res: ValidationResponse)
    ensures
        res == verdict(problem.answer, answer),
{
    if problem.validate(answer) {
        ValidationResponse::Valid
    } else if answer < problem.answer {
        ValidationResponse::Lower
    } else {
        ValidationResponse::Higher
    }
}

/// The answer the solver gave for a new problem, or why there is none.
pub fn solve_outcome(answer: SolveResponse) -> (res: Result<i64, String>)
    ensures
        answer matches SolveResponse::Solved(v) ==> res == Ok::<i64, String>(v),
        answer matches SolveResponse::BadData(m) ==> (res matches Err(e) && e@ == m@),
        answer is Fault ==> (res matches Err(e) && e@ == "Solver was unable to solve the problem"@),
{
    match answer {
        SolveResponse::Solved(v) => Ok(v),
        SolveResponse::BadData(message) => Err(message),
        SolveResponse::Fault => Err("Solver was unable to solve the problem".to_string()),
    }
}

/// The kind of problem to generate for a request; the requests the service cannot serve
/// (the test problem and unimplemented ones) have none.
pub fn problem_kind_for(req: ProblemRequest) -> (res: Option<ProblemKind>)
    ensures
        res == match req {
            ProblemRequest::LargestWindowInArray => Some(ProblemKind::LargestWindowInArray),
            ProblemRequest::SizeOfIsland => Some(ProblemKind::SizeOfIsland),
            ProblemRequest::CountIslands => Some(ProblemKind::CountIslands),
            _ => None::<ProblemKind>,
        },
{
    match req {
        ProblemRequest::LargestWindowInArray => Some(ProblemKind::LargestWindowInArray),
        ProblemRequest::SizeOfIsland => Some(ProblemKind::SizeOfIsland),
        ProblemRequest::CountIslands => Some(ProblemKind::CountIslands),
        _ => None,
    }
}

/// The reply to a request for a problem: the problem, or the fault's message.
pub fn problem_reply(result: Result<ProblemRow, String>) -> (res: ProblemServiceResponse)
    ensures
        result matches Ok(row) ==> (res matches ProblemServiceResponse::Problem(
            ProblemResponse::Ready(p),
        ) && p.id == row.id && p.data@ == row.data@),
        result matches Err(e) ==> (res matches ProblemServiceResponse::Problem(
            ProblemResponse::Fault(m),
        ) && m@ == e@),
{
    match result {
        Ok(row) => ProblemServiceResponse::Problem(row.to_response()),
        Err(e) => ProblemServiceResponse::Problem(ProblemResponse::Fault(e)),
    }
}

/// The reply to a validation: the verdict, or a problem fault with the error's message.
pub fn validation_reply(result: Result<ValidationResponse, String>) -> (res: ProblemServiceResponse)
    ensures
        result matches Ok(v) ==> res == ProblemServiceResponse::Validation(v),
        result matches Err(e) ==> (res matches ProblemServiceResponse::Problem(
            ProblemResponse::Fault(m),
        ) && m@ == e@),
{
    match result {
        Ok(v) => ProblemServiceResponse::Validation(v),
        Err(e) => ProblemServiceResponse::Problem(ProblemResponse::Fault(e)),
    }
}

/// The problem service's client of the solver service.
pub struct RemoteSolverClient {
    addr: String,
}

impl RemoteSolverClient {
    pub fn new(addr: String) -> (res: Self)
        ensures
            res.addr() == addr@,
    {
        Self { addr }
    }

    pub closed spec fn addr(&self) -> Seq<char> {
        self.addr@
    }

    pub fn get_addr(&self) -> (res: &str)
        ensures
            res@ == self.addr(),
    {
        self.addr.as_str()
    }
}

} // verus!
