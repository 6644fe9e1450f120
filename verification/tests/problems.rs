use puzzle_services::problems::{CountIslands, LargestWindow, Problem, TestProblem};
use puzzle_services::solver::SolveRequest;
use puzzle_services::solvers::{solve_count_islands, solve_size_of_island};
use puzzle_services::solver::SolveResponse;

#[test]
fn ensure_size_and_range_is_valid() {
    let data = LargestWindow::create();
    assert!(*data.iter().max().unwrap() < 21);
    assert!(*data.iter().min().unwrap() > -21);
    assert!(data.len() == 20);
}

#[test]
fn ensure_size_is_valid() {
    let data = TestProblem::create();

    assert!((10..=20).contains(&data.len()))
}

#[test]
fn test_problem_is_a_run_of_a() {
    let data = TestProblem::create();
    assert!(data.chars().all(|c| c == 'A'));
}

#[test]
fn island_maps_are_square_and_hold_islands() {
    let grid = CountIslands::create();
    let n = grid.len();
    assert!((100..=600).contains(&n));
    assert!(grid.iter().all(|row| row.len() == n));
    match solve_count_islands(grid.clone()) {
        SolveResponse::Solved(count) => {
            assert!((50..=150).contains(&count));
            let side = n as i64;
            assert!(side == 2 * count || side == 3 * count || side == 4 * count);
        }
        other => panic!("unexpected {:?}", other),
    }
    match solve_size_of_island(grid) {
        SolveResponse::Solved(area) => assert!(area >= 1),
        other => panic!("unexpected {:?}", other),
    }
}

#[test]
fn requests_carry_the_data() {
    assert_eq!(
        LargestWindow::into_request(vec![1, 2]),
        SolveRequest::LargestWindowInArray { data: vec![1, 2] }
    );
    assert_eq!(
        TestProblem::into_request("AA".to_string()),
        SolveRequest::TestProblem { data: "AA".to_string() }
    );
    assert_eq!(
        CountIslands::into_request(vec![vec![true]]),
        SolveRequest::CountIslands { data: vec![vec![true]] }
    );
}

#[test]
fn window_numbers_are_drawn_at_random() {
    let data = LargestWindow::create();
    assert!(data.iter().any(|&x| x != data[0]));
}

#[test]
fn islands_grow_beyond_their_seeds() {
    let grid = CountIslands::create();
    let count = match solve_count_islands(grid.clone()) {
        SolveResponse::Solved(c) => c,
        other => panic!("unexpected {:?}", other),
    };
    let area = match solve_size_of_island(grid) {
        SolveResponse::Solved(a) => a,
        other => panic!("unexpected {:?}", other),
    };
    assert!(area > count);
}
