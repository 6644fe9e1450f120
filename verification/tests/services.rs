use puzzle_services::clients::{RemoteProblemClient, RemoteSolverClient, RemoteUserClient};
use puzzle_services::framing::{encode_frame, frame_fits, frame_length, length_header, MAX_FRAME};
use puzzle_services::problem::{
    ProblemRequest, ProblemResponse, ProblemServiceResponse, UserProblem, ValidationResponse,
};
use puzzle_services::problem_handler::{
    judge_answer, problem_kind_for, problem_reply, solve_outcome, validation_reply, ProblemRow,
};
use puzzle_services::problems::ProblemKind;
use puzzle_services::solver::SolveResponse;
use puzzle_services::user::{User, UserResponse};
use puzzle_services::user_repo::{admit_new_user, create_reply, login_reply, UserRepoError, UserRow};
use puzzle_services::{problem, solver, user};

#[test]
fn urls_take_defaults() {
    assert_eq!(problem::url(None, None), "127.0.0.1:4001");
    assert_eq!(solver::url(None, None), "127.0.0.1:4000");
    assert_eq!(user::url(None, None), "127.0.0.1:4002");
    assert_eq!(
        problem::url(Some("example.org".to_string()), Some("9".to_string())),
        "example.org:9"
    );
    assert_eq!(user::url(None, Some("80".to_string())), "127.0.0.1:80");
}

#[test]
fn frame_headers_are_big_endian() {
    assert_eq!(length_header(258), [0, 0, 0, 0, 0, 0, 1, 2]);
    assert_eq!(frame_length([0, 0, 0, 0, 0, 0, 1, 2]), 258);
    assert_eq!(frame_length(length_header(u64::MAX - 7)), u64::MAX - 7);
    let frame = encode_frame(&vec![9, 8, 7]);
    assert_eq!(frame, vec![0, 0, 0, 0, 0, 0, 0, 3, 9, 8, 7]);
    assert!(frame_fits(MAX_FRAME));
    assert!(!frame_fits(MAX_FRAME + 1));
    assert_eq!(MAX_FRAME, 4 * 1024 * 1024);
}

#[test]
fn problem_rows() {
    let row = ProblemRow::new(3, 17, "[1, 2]".to_string());
    assert_eq!((row.id, row.answer, row.data.as_str()), (3, 17, "[1, 2]"));
    assert!(row.validate(17));
    assert!(!row.validate(16));
    assert_eq!(
        row.to_response(),
        ProblemResponse::Ready(UserProblem { id: 3, data: "[1, 2]".to_string() })
    );
    assert_eq!(judge_answer(&row, 17), ValidationResponse::Valid);
    assert_eq!(judge_answer(&row, 1), ValidationResponse::Lower);
    assert_eq!(judge_answer(&row, 99), ValidationResponse::Higher);
}

#[test]
fn problem_service_replies() {
    assert_eq!(
        problem_reply(Ok(ProblemRow::new(1, 2, "d".to_string()))),
        ProblemServiceResponse::Problem(ProblemResponse::Ready(UserProblem {
            id: 1,
            data: "d".to_string()
        }))
    );
    assert_eq!(
        problem_reply(Err("boom".to_string())),
        ProblemServiceResponse::Problem(ProblemResponse::Fault("boom".to_string()))
    );
    assert_eq!(
        validation_reply(Ok(ValidationResponse::Higher)),
        ProblemServiceResponse::Validation(ValidationResponse::Higher)
    );
    assert_eq!(
        validation_reply(Err("no row".to_string())),
        ProblemServiceResponse::Problem(ProblemResponse::Fault("no row".to_string()))
    );
}

#[test]
fn solver_outcomes() {
    assert_eq!(solve_outcome(SolveResponse::Solved(5)), Ok(5));
    assert_eq!(
        solve_outcome(SolveResponse::BadData("bad".to_string())),
        Err("bad".to_string())
    );
    assert_eq!(
        solve_outcome(SolveResponse::Fault),
        Err("Solver was unable to solve the problem".to_string())
    );
}

#[test]
fn problem_kinds_for_requests() {
    assert_eq!(
        problem_kind_for(ProblemRequest::LargestWindowInArray),
        Some(ProblemKind::LargestWindowInArray)
    );
    assert_eq!(problem_kind_for(ProblemRequest::CountIslands), Some(ProblemKind::CountIslands));
    assert_eq!(problem_kind_for(ProblemRequest::SizeOfIsland), Some(ProblemKind::SizeOfIsland));
    assert_eq!(problem_kind_for(ProblemRequest::TestProblem), None);
    assert_eq!(problem_kind_for(ProblemRequest::UnimplementedProblem), None);
}

#[test]
fn user_rows() {
    let row = UserRow::new(4, "ann".to_string(), "h".to_string());
    assert_eq!((row.id, row.name.as_str()), (4, "ann"));
    let sample = UserRow::test_row(12);
    assert_eq!(sample.id, 12);
    assert_eq!(sample.name, "user12");
    assert_eq!(UserRow::test_row(-3).name, "user-3");
}

#[test]
fn user_service_replies() {
    assert_eq!(
        create_reply("ann".to_string(), Ok(())),
        UserResponse::Valid(User { name: "ann".to_string(), token: "aaaaaaaa".to_string() })
    );
    assert_eq!(
        create_reply("ann".to_string(), Err(UserRepoError::DuplicateName)),
        UserResponse::Invalid
    );
    assert_eq!(
        create_reply("ann".to_string(), Err(UserRepoError::Sqlx("locked".to_string()))),
        UserResponse::Fault("database error: locked".to_string())
    );
    assert_eq!(
        UserRepoError::DuplicateName.message(),
        "user with that name already exists"
    );
    assert_eq!(
        login_reply("bo".to_string(), Ok("tok".to_string())),
        UserResponse::Valid(User { name: "bo".to_string(), token: "tok".to_string() })
    );
    assert_eq!(
        login_reply("bo".to_string(), Err("no rows".to_string())),
        UserResponse::Fault("no rows".to_string())
    );
}

#[test]
fn clients_keep_their_address() {
    assert_eq!(RemoteSolverClient::default().get_addr(), "127.0.0.1:4000");
    assert_eq!(RemoteSolverClient::new("10.0.0.1:1").get_addr(), "10.0.0.1:1");
    assert_eq!(RemoteProblemClient::new("a:1".to_string()).get_addr(), "a:1");
    assert_eq!(RemoteUserClient::new("b:2".to_string()).get_addr(), "b:2");
    let inner = puzzle_services::problem_handler::RemoteSolverClient::new("c:3".to_string());
    assert_eq!(inner.get_addr(), "c:3");
}

#[test]
fn taken_names_are_refused() {
    assert_eq!(admit_new_user(true), Err(UserRepoError::DuplicateName));
    assert_eq!(admit_new_user(false), Ok(()));
}
