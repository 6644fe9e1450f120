use puzzle_services::problem::{
    ProblemRequest, ProblemResponse, ProblemServiceRequest, ProblemServiceResponse, UserProblem,
    ValidationRequest, ValidationResponse,
};
use puzzle_services::runner::{
    bin_name, solve_request, solved_value, start_run, step_run, wait_step, ChildStatus,
    RunAction, RunEvent, RunPhase, RunState, ServiceError, StartFailure, WaitStep, ROUNDS,
};
use puzzle_services::solver::{SolveRequest, SolveResponse};

#[test]
fn binary_names() {
    assert_eq!(bin_name("user_service", false), "user_service");
    assert_eq!(bin_name("user_service", true), "user_service.exe");
}

#[test]
fn waiting_for_a_service() {
    assert_eq!(wait_step(ChildStatus::Exited, true, false), WaitStep::Fail(StartFailure::ExitedEarly));
    assert_eq!(wait_step(ChildStatus::Unknown, true, false), WaitStep::Fail(StartFailure::StatusUnknown));
    assert_eq!(wait_step(ChildStatus::Running, true, true), WaitStep::Ready);
    assert_eq!(wait_step(ChildStatus::Running, false, true), WaitStep::Fail(StartFailure::TimedOut));
    assert_eq!(wait_step(ChildStatus::Running, false, false), WaitStep::Sleep);
}

#[test]
fn faults_name_the_service() {
    assert_eq!(
        ServiceError::fault("user", "down".to_string()),
        ServiceError::Fault { service: "user".to_string(), source: "down".to_string() }
    );
}

#[test]
fn solve_requests_from_problem_text() {
    assert_eq!(
        solve_request("[1, -2]".to_string(), ProblemRequest::LargestWindowInArray).unwrap(),
        SolveRequest::LargestWindowInArray { data: vec![1, -2] }
    );
    assert_eq!(
        solve_request("[[true], [false]]".to_string(), ProblemRequest::CountIslands).unwrap(),
        SolveRequest::CountIslands { data: vec![vec![true], vec![false]] }
    );
    assert_eq!(
        solve_request("[[1]]".to_string(), ProblemRequest::SizeOfIsland).unwrap(),
        SolveRequest::SizeOfIsland { data: vec![vec![true]] }
    );
    assert!(solve_request("[a]".to_string(), ProblemRequest::LargestWindowInArray).is_err());
    assert_eq!(solved_value(Ok(SolveResponse::Solved(9))).unwrap(), 9);
    assert_eq!(
        solved_value(Ok(SolveResponse::Fault)).unwrap_err(),
        ServiceError::fault("solver", String::new())
    );
    assert!(solved_value(Err("refused".to_string())).is_err());
}

fn valid() -> RunEvent {
    RunEvent::Validated(Ok(ProblemServiceResponse::Validation(ValidationResponse::Valid)))
}

#[test]
fn a_full_run_plays_every_round() {
    let (mut state, mut action) = start_run();
    let mut rounds = 0;
    loop {
        match action {
            RunAction::CreateUser { name, password } => {
                assert_eq!(name, format!("user{}", rounds));
                assert_eq!(password, format!("password{}", rounds));
                let next = step_run(state, RunEvent::UserReplied(Ok(())));
                state = next.0;
                action = next.1;
            }
            RunAction::RequestProblem(req) => {
                assert_eq!(req, ProblemServiceRequest::Problem(ProblemRequest::LargestWindowInArray));
                let reply = ProblemServiceResponse::Problem(ProblemResponse::Ready(UserProblem {
                    id: 40 + rounds as i64,
                    data: "[1, 2]".to_string(),
                }));
                let next = step_run(state, RunEvent::ProblemReplied(Ok(reply)));
                state = next.0;
                action = next.1;
            }
            RunAction::SolveProblem { data, problem_type } => {
                assert_eq!(data, "[1, 2]");
                assert_eq!(problem_type, ProblemRequest::LargestWindowInArray);
                let next = step_run(state, RunEvent::Solved(Ok(3)));
                state = next.0;
                action = next.1;
            }
            RunAction::SendValidation(req) => {
                assert_eq!(
                    req,
                    ProblemServiceRequest::Validation(ValidationRequest {
                        problem_id: 40 + rounds as i64,
                        answer: 3
                    })
                );
                rounds += 1;
                let next = step_run(state, valid());
                state = next.0;
                action = next.1;
            }
            RunAction::Finish(result) => {
                assert_eq!(result, Ok(()));
                break;
            }
        }
    }
    assert_eq!(rounds, ROUNDS);
    assert_eq!(state.phase, RunPhase::Finished);
}

#[test]
fn a_wrong_verdict_stops_the_run() {
    let state = RunState { round: 2, phase: RunPhase::AwaitValidation };
    let (next, action) = step_run(
        state,
        RunEvent::Validated(Ok(ProblemServiceResponse::Validation(ValidationResponse::Lower))),
    );
    assert_eq!(next, RunState { round: 2, phase: RunPhase::Finished });
    match action {
        RunAction::Finish(Err(e)) => assert_eq!(e, ServiceError::fault("solver", String::new())),
        other => panic!("unexpected {:?}", other),
    }
}

#[test]
fn problem_faults_stop_the_run() {
    let state = RunState { round: 0, phase: RunPhase::AwaitProblem };
    let (_, action) = step_run(
        state,
        RunEvent::ProblemReplied(Ok(ProblemServiceResponse::Problem(ProblemResponse::Fault(
            "db".to_string(),
        )))),
    );
    match action {
        RunAction::Finish(Err(e)) => assert_eq!(e, ServiceError::fault("problem", "db".to_string())),
        other => panic!("unexpected {:?}", other),
    }
    let (_, action) = step_run(
        state,
        RunEvent::ProblemReplied(Ok(ProblemServiceResponse::Validation(ValidationResponse::Valid))),
    );
    match action {
        RunAction::Finish(Err(e)) => assert_eq!(
            e,
            ServiceError::fault("problem", "Problem service returned the wrong response".to_string())
        ),
        other => panic!("unexpected {:?}", other),
    }
    let user_state = RunState { round: 0, phase: RunPhase::AwaitUser };
    let (_, action) = step_run(user_state, RunEvent::UserReplied(Err("refused".to_string())));
    match action {
        RunAction::Finish(Err(e)) => assert_eq!(e, ServiceError::fault("user", "refused".to_string())),
        other => panic!("unexpected {:?}", other),
    }
}
