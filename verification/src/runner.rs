//! The stress runner: its error type, the decisions of its run, and of service start-up.
use vstd::prelude::*;
use crate::decimal::{decimal_text, usize_to_text};
use crate::grid::grid_view;
use crate::parser::{
    int_error_text, parse_bool_grid, parse_bool_grid_spec, parse_vector, parse_vector_spec,
};
use crate::problem::{
    ProblemRequest, ProblemResponse, ProblemServiceRequest, ProblemServiceResponse,
    ValidationRequest, ValidationResponse,
};
use crate::solver::{SolveRequest, SolveResponse};

verus! {

broadcast use vstd::string::group_string_axioms;

/// Why the stress runner stopped: a service could not be started, or one answered wrongly.
/// Each variant carries the text of its underlying cause.
#[derive(Clone, Debug, PartialEq)]
pub enum ServiceError {
    Start { dir: String, source: String },
    Fault { service: String, source: String },
}

/// `e` is the fault of `service` with the given message.
pub open spec fn is_fault(e: ServiceError, service: Seq<char>, message: Seq<char>) -> bool {
    e matches ServiceError::Fault { service: s, source: m } && s@ == service && m@ == message
}

impl ServiceError {
    /// The fault of a service, with a message.
    pub fn fault(service: &str, message: String) -> (res: Self)
        ensures
            is_fault(res, service@, message@),
    {
        ServiceError::Fault { service: service.to_string(), source: message }
    }
}


/// `name`, with `.exe` on Windows.
pub fn bin_name(name: &str, windows: bool) -> (res: String)
    ensures
        res@ == if windows {
            name@ + ".exe"@
        } else {
            name@
        },
{
    let mut out = name.to_string();
    if windows {
        out.append(".exe");
    }
    out
}

/// What the runner learns of a service it started, on each poll.
#[derive(Clone, Copy, Debug, PartialEq, Eq, Structural)]
pub enum ChildStatus {
    /// The process has exited.
    Exited,
    /// The process still runs.
    Running,
    /// The process's status could not be read.
    Unknown,
}

/// Why a service did not come up.
#[derive(Clone, Copy, Debug, PartialEq, Eq, Structural)]
pub enum StartFailure {
    ExitedEarly,
    StatusUnknown,
    TimedOut,
}

/// What to do after a poll of a starting service.
#[derive(Clone, Copy, Debug, PartialEq, Eq, Structural)]
pub enum WaitStep {
    Ready,
    Sleep,
    Fail(StartFailure),
}

/// The decision after one poll: a process that is gone or unreadable fails the start; a
/// running one is ready once it accepts connections, and fails once the time is up.
pub fn wait_step(child: ChildStatus, connected: bool, timed_out: bool) -> (res: WaitStep)
    ensures
        res == match child {
            ChildStatus::Exited => WaitStep::Fail(StartFailure::ExitedEarly),
            ChildStatus::Unknown => WaitStep::Fail(StartFailure::StatusUnknown),
            ChildStatus::Running => if connected {
                WaitStep::Ready
            } else if timed_out {
                WaitStep::Fail(StartFailure::TimedOut)
            } else {
                WaitStep::Sleep
            },
        },
{
    match child {
        ChildStatus::Exited => WaitStep::Fail(StartFailure::ExitedEarly),
        ChildStatus::Unknown => WaitStep::Fail(StartFailure::StatusUnknown),
        ChildStatus::Running => {
            if connected {
                WaitStep::Ready
            } else if timed_out {
                WaitStep::Fail(StartFailure::TimedOut)
            } else {
                WaitStep::Sleep
            }
        },
    }
}

/// The kinds of problem the player can solve.
pub open spec fn solvable(kind: ProblemRequest) -> bool {
    kind == ProblemRequest::LargestWindowInArray || kind == ProblemRequest::CountIslands || kind
        == ProblemRequest::SizeOfIsland
}

/// The request that puts a problem, read from its text, to the solver service.
pub fn solve_request(problem: String, problem_type: ProblemRequest) -> (res: Result<SolveRequest, ServiceError>)
    requires
        solvable(problem_type),
    ensures
        problem_type == ProblemRequest::LargestWindowInArray ==> match parse_vector_spec(problem@) {
            Ok(v) => res matches Ok(SolveRequest::LargestWindowInArray { data }) && data@ == v,
            Err(k) => res matches Err(e) && is_fault(e, "solver"@, int_error_text(k)),
        },
        problem_type == ProblemRequest::CountIslands ==> match parse_bool_grid_spec(problem@) {
            Ok(g) => res matches Ok(SolveRequest::CountIslands { data }) && grid_view(&data) == g,
            Err(m) => res matches Err(e) && is_fault(e, "solver"@, m),
        },
        problem_type == ProblemRequest::SizeOfIsland ==> match parse_bool_grid_spec(problem@) {
            Ok(g) => res matches Ok(SolveRequest::SizeOfIsland { data }) && grid_view(&data) == g,
            Err(m) => res matches Err(e) && is_fault(e, "solver"@, m),
        },
{
    match problem_type {
        ProblemRequest::LargestWindowInArray => match parse_vector(problem) {
            Ok(data) => Ok(SolveRequest::LargestWindowInArray { data }),
            Err(e) => Err(e),
        },
        ProblemRequest::CountIslands => match parse_bool_grid(problem) {
            Ok(data) => Ok(SolveRequest::CountIslands { data }),
            Err(e) => Err(e),
        },
        _ => match parse_bool_grid(problem) {
            Ok(data) => Ok(SolveRequest::SizeOfIsland { data }),
            Err(e) => Err(e),
        },
    }
}

/// The solution in the solver's reply; anything else is a fault of the solver, without a message.
pub fn solved_value(reply: Result<SolveResponse, String>) -> (res: Result<i64, ServiceError>)
    ensures
        reply matches Ok(SolveResponse::Solved(v)) ==> res == Ok::<i64, ServiceError>(v),
        !(reply matches Ok(SolveResponse::Solved(_))) ==> (res matches Err(e) && is_fault(
            e,
            "solver"@,
            seq![],
        )),
{
    match reply {
        Ok(SolveResponse::Solved(val)) => Ok(val),
        _ => Err(ServiceError::fault("solver", String::new())),
    }
}

/// How many rounds a stress run plays.
pub const ROUNDS: usize = 11;

/// Where a stress run stands within its round.
#[derive(Clone, Copy, Debug, PartialEq, Eq, Structural)]
pub enum RunPhase {
    AwaitUser,
    AwaitProblem,
    AwaitSolution { problem_id: i64 },
    AwaitValidation,
    Finished,
}

/// The state of a stress run: the round, and the phase within it.
#[derive(Clone, Copy, Debug, PartialEq, Eq, Structural)]
pub struct RunState {
    pub round: usize,
    pub phase: RunPhase,
}

/// What the runner does next.
#[derive(Debug)]
pub enum RunAction {
    /// Create a user with this name, whose hash is taken of this password.
    CreateUser { name: String, password: String },
    /// Send this request to the problem service.
    RequestProblem(ProblemServiceRequest),
    /// Read this problem data and have the solver service solve it.
    SolveProblem { data: String, problem_type: ProblemRequest },
    /// Send this validation to the problem service.
    SendValidation(ProblemServiceRequest),
    /// Stop, with this outcome.
    Finish(Result<(), ServiceError>),
}

/// What came back of the last action.
#[derive(Debug)]
pub enum RunEvent {
    UserReplied(Result<(), String>),
    ProblemReplied(Result<ProblemServiceResponse, String>),
    Solved(Result<i64, ServiceError>),
    Validated(Result<ProblemServiceResponse, String>),
}

/// The name of the user created in round `n`.
pub open spec fn user_name_text(n: nat) -> Seq<char> {
    "user"@ + decimal_text(n)
}

/// The password of the user created in round `n`.
pub open spec fn password_text(n: nat) -> Seq<char> {
    "password"@ + decimal_text(n)
}

/// The action opens round `n`: create its user.
pub open spec fn opens_round(a: RunAction, n: nat) -> bool {
    a matches RunAction::CreateUser { name, password } && name@ == user_name_text(n) && password@
        == password_text(n)
}

/// The run stops, in round `round`, with a fault of `service` saying `message`.
pub open spec fn stops_with_fault(t: RunState, a: RunAction, round: usize, service: Seq<char>, message: Seq<char>) -> bool {
    &&& t == RunState { round, phase: RunPhase::Finished }
    &&& a matches RunAction::Finish(Err(e)) && is_fault(e, service, message)
}

/// The event is the answer to the action of the state's phase.
pub open spec fn event_fits(s: RunState, e: RunEvent) -> bool {
    match s.phase {
        RunPhase::AwaitUser => e is UserReplied,
        RunPhase::AwaitProblem => e is ProblemReplied,
        RunPhase::AwaitSolution { .. } => e is Solved,
        RunPhase::AwaitValidation => e is Validated,
        RunPhase::Finished => false,
    }
}

/// The action is the one the state's phase waits on: a state that awaits the user service
/// comes with a user to create, and so on; a finished run comes with its outcome.
pub open spec fn action_fits(t: RunState, a: RunAction) -> bool {
    match t.phase {
        RunPhase::AwaitUser => a is CreateUser,
        RunPhase::AwaitProblem => a is RequestProblem,
        RunPhase::AwaitSolution { .. } => a is SolveProblem,
        RunPhase::AwaitValidation => a is SendValidation,
        RunPhase::Finished => a is Finish,
    }
}

/// The event is what carrying out the action brings back.
pub open spec fn answers(a: RunAction, e: RunEvent) -> bool {
    match a {
        RunAction::CreateUser { .. } => e is UserReplied,
        RunAction::RequestProblem(_) => e is ProblemReplied,
        RunAction::SolveProblem { .. } => e is Solved,
        RunAction::SendValidation(_) => e is Validated,
        RunAction::Finish(_) => false,
    }
}

/// Whatever carrying out a step's action brings back is an event that the next step takes:
/// a run that is driven by answering each action never hands `step_run` an event that does
/// not fit its state.
pub proof fn law_answer_fits_next_step(t: RunState, a: RunAction, e: RunEvent)
    requires
        action_fits(t, a),
        answers(a, e),
    ensures
        event_fits(t, e),
{
}

/// The transitions of a stress run.
pub open spec fn step_spec(s: RunState, e: RunEvent, t: RunState, a: RunAction) -> bool {
    match e {
        RunEvent::UserReplied(r) => match r {
            Ok(_) => t == RunState { round: s.round, phase: RunPhase::AwaitProblem } && a
                == RunAction::RequestProblem(
                ProblemServiceRequest::Problem(ProblemRequest::LargestWindowInArray),
            ),
            Err(m) => stops_with_fault(t, a, s.round, "user"@, m@),
        },
        RunEvent::ProblemReplied(r) => match r {
            Ok(ProblemServiceResponse::Problem(ProblemResponse::Ready(p))) => t == RunState {
                round: s.round,
                phase: RunPhase::AwaitSolution { problem_id: p.id },
            } && (a matches RunAction::SolveProblem { data, problem_type } && data@ == p.data@
                && problem_type == ProblemRequest::LargestWindowInArray),
            Ok(ProblemServiceResponse::Problem(ProblemResponse::Fault(m))) => stops_with_fault(
                t,
                a,
                s.round,
                "problem"@,
                m@,
            ),
            Ok(ProblemServiceResponse::Validation(_)) => stops_with_fault(
                t,
                a,
                s.round,
                "problem"@,
                "Problem service returned the wrong response"@,
            ),
            Err(m) => stops_with_fault(t, a, s.round, "problem"@, m@),
        },
        RunEvent::Solved(r) => match r {
            Ok(v) => s.phase matches RunPhase::AwaitSolution { problem_id } && t == RunState {
                round: s.round,
                phase: RunPhase::AwaitValidation,
            } && a == RunAction::SendValidation(
                ProblemServiceRequest::Validation(ValidationRequest { problem_id, answer: v }),
            ),
            Err(err) => t == RunState { round: s.round, phase: RunPhase::Finished } && a
                == RunAction::Finish(Err(err)),
        },
        RunEvent::Validated(r) => if r == Ok::<ProblemServiceResponse, String>(
            ProblemServiceResponse::Validation(ValidationResponse::Valid),
        ) {
            if s.round + 1 < ROUNDS {
                t == RunState { round: (s.round + 1) as usize, phase: RunPhase::AwaitUser }
                    && opens_round(a, (s.round + 1) as nat)
            } else {
                t == RunState { round: s.round, phase: RunPhase::Finished } && a
                    == RunAction::Finish(Ok(()))
            }
        } else {
            stops_with_fault(t, a, s.round, "solver"@, seq![])
        },
    }
}

/// How far a run is from its end: four steps per round left, fewer as the round goes on.
pub open spec fn steps_left(s: RunState) -> int {
    let within = match s.phase {
        RunPhase::AwaitUser => 4int,
        RunPhase::AwaitProblem => 3,
        RunPhase::AwaitSolution { .. } => 2,
        RunPhase::AwaitValidation => 1,
        RunPhase::Finished => 0,
    };
    if s.phase is Finished {
        0
    } else {
        4 * (ROUNDS - 1 - s.round) + within
    }
}

/// The round names and passwords: `user<n>` and `password<n>`.
fn round_user(n: usize) -> (res: RunAction)
    ensures
        opens_round(res, n as nat),
{
    let digits = usize_to_text(n);
    let mut name = "user".to_string();
    name.append(digits.as_str());
    let mut password = "password".to_string();
    password.append(digits.as_str());
    RunAction::CreateUser { name, password }
}

/// The start of a stress run: round 0, create its user.
pub fn start_run() -> (res: (RunState, RunAction))
    ensures
        res.0 == (RunState { round: 0, phase: RunPhase::AwaitUser }),
        opens_round(res.1, 0),
        action_fits(res.0, res.1),
{
    (RunState { round: 0, phase: RunPhase::AwaitUser }, round_user(0))
}

/// One step of a stress run: from the state and what came back of the last action, the
/// next state and action. Every step brings the run closer to its end.
pub fn step_run(s: RunState, e: RunEvent) -> (res: (RunState, RunAction))
    requires
        s.round < ROUNDS,
        event_fits(s, e),
    ensures
        step_spec(s, e, res.0, res.1),
        action_fits(res.0, res.1),
        res.0.round < ROUNDS,
        steps_left(res.0) < steps_left(s),
{
    match e {
        RunEvent::UserReplied(r) => match r {
            Ok(()) => (
                RunState { round: s.round, phase: RunPhase::AwaitProblem },
                RunAction::RequestProblem(
                    ProblemServiceRequest::Problem(ProblemRequest::LargestWindowInArray),
                ),
            ),
            Err(m) => (
                RunState { round: s.round, phase: RunPhase::Finished },
                RunAction::Finish(Err(ServiceError::fault("user", m))),
            ),
        },
        RunEvent::ProblemReplied(r) => match r {
            Ok(ProblemServiceResponse::Problem(ProblemResponse::Ready(p))) => (
                RunState { round: s.round, phase: RunPhase::AwaitSolution { problem_id: p.id } },
                RunAction::SolveProblem {
                    data: p.data,
                    problem_type: ProblemRequest::LargestWindowInArray,
                },
            ),
            Ok(ProblemServiceResponse::Problem(ProblemResponse::Fault(m))) => (
                RunState { round: s.round, phase: RunPhase::Finished },
                RunAction::Finish(Err(ServiceError::fault("problem", m))),
            ),
            Ok(ProblemServiceResponse::Validation(_)) => (
                RunState { round: s.round, phase: RunPhase::Finished },
                RunAction::Finish(
                    Err(
                        ServiceError::fault(
                            "problem",
                            "Problem service returned the wrong response".to_string(),
                        ),
                    ),
                ),
            ),
            Err(m) => (
                RunState { round: s.round, phase: RunPhase::Finished },
                RunAction::Finish(Err(ServiceError::fault("problem", m))),
            ),
        },
        RunEvent::Solved(r) => {
            let problem_id = match s.phase {
                RunPhase::AwaitSolution { problem_id } => problem_id,
                _ => 0,
            };
            match r {
                Ok(answer) => (
                    RunState { round: s.round, phase: RunPhase::AwaitValidation },
                    RunAction::SendValidation(
                        ProblemServiceRequest::Validation(ValidationRequest { problem_id, answer }),
                    ),
                ),
                Err(err) => (
                    RunState { round: s.round, phase: RunPhase::Finished },
                    RunAction::Finish(Err(err)),
                ),
            }
        },
        RunEvent::Validated(r) => {
            let valid = match r {
                Ok(ProblemServiceResponse::Validation(ValidationResponse::Valid)) => true,
                _ => false,
            };
            if valid {
                if s.round + 1 < ROUNDS {
                    (
                        RunState { round: s.round + 1, phase: RunPhase::AwaitUser },
                        round_user(s.round + 1),
                    )
                } else {
                    (RunState { round: s.round, phase: RunPhase::Finished }, RunAction::Finish(Ok(())))
                }
            } else {
                (
                    RunState { round: s.round, phase: RunPhase::Finished },
                    RunAction::Finish(Err(ServiceError::fault("solver", String::new()))),
                )
            }
        },
    }
}

} // verus!
