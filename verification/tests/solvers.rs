use puzzle_services::solver::{SolveRequest, SolveResponse};
use puzzle_services::solvers::{
    match_and_solve, solve_count_islands, solve_largest_window_in_array, solve_size_of_island,
    solve_test_problem, SolverService,
};

fn should_equal(value: SolveResponse, shouldequal: i64) {
    if let SolveResponse::Solved(v) = value {
        assert_eq!(v, shouldequal)
    } else {
        panic!("Expected response")
    }
}

#[test]
fn largest_window_in_array_t1() {
    let data = vec![-100, 0, 1, 0, 1, 0, 1];
    let best = solve_largest_window_in_array(data);

    should_equal(best, 3);
}

#[test]
fn largest_window_in_array_t2() {
    let data = vec![1, -2, 3, -1, 3, 2, -1];
    let best = solve_largest_window_in_array(data);
    should_equal(best, 7);
}

#[test]
fn largest_window_in_array_t3() {
    let data = vec![
        1637232, -2324324, 232152442, 4242144, -4243133, 2323781, -13231,
    ];
    let best = solve_largest_window_in_array(data);

    should_equal(best, 232152442 + 4242144);
}

#[test]
fn largest_window_all_negative_is_largest_element() {
    should_equal(solve_largest_window_in_array(vec![-5, -2, -9]), -2);
}

#[test]
fn largest_window_single_element() {
    should_equal(solve_largest_window_in_array(vec![42]), 42);
}

#[test]
fn largest_window_whole_array() {
    should_equal(solve_largest_window_in_array(vec![2, -1, 2, -1, 2]), 4);
}

#[test]
fn size_of_island_t1() {
    let data = vec![vec![false; 20]; 20];
    let answer = solve_size_of_island(data);
    assert!(answer == SolveResponse::BadData("No island found".to_string()));
}

#[test]
fn size_of_island_t2() {
    let data = vec![
        vec![false, false, false, false, false],
        vec![false, true, false, false, false],
        vec![true, true, false, false, false],
        vec![false, false, false, false, false],
        vec![false, false, false, false, false],
    ];

    let answer = solve_size_of_island(data);
    should_equal(answer, 3);
}

#[test]
fn size_of_island_t3() {
    let data = vec![
        vec![false, false, false, false, false],
        vec![false, true, false, false, false],
        vec![true, true, false, true, false],
        vec![false, true, false, true, false],
        vec![false, false, false, false, false],
    ];

    let answer = solve_size_of_island(data);
    should_equal(answer, 6);
}

#[test]
fn size_of_island_counts_ragged_rows() {
    let data = vec![vec![true], vec![true, true, true], vec![]];
    should_equal(solve_size_of_island(data), 4);
}

#[test]
fn size_of_island_empty_map_has_no_island() {
    assert_eq!(
        solve_size_of_island(vec![]),
        SolveResponse::BadData("No island found".to_string())
    );
}

#[test]
fn count_islands_empty_map_is_refused() {
    assert_eq!(
        solve_count_islands(vec![]),
        SolveResponse::BadData("Received empty grid".to_string())
    );
}

#[test]
fn count_islands_separate_and_joined() {
    let data = vec![
        vec![true, true, false, false, true],
        vec![false, true, false, false, true],
        vec![false, false, false, true, false],
        vec![true, false, true, true, false],
        vec![true, false, false, false, false],
    ];
    should_equal(solve_count_islands(data), 4);
}

#[test]
fn count_islands_diagonal_cells_are_separate() {
    let data = vec![
        vec![true, false, true],
        vec![false, true, false],
        vec![true, false, true],
    ];
    should_equal(solve_count_islands(data), 5);
}

#[test]
fn count_islands_winding_island_is_one() {
    let data = vec![
        vec![true, true, true, true],
        vec![false, false, false, true],
        vec![true, true, false, true],
        vec![true, false, false, true],
        vec![true, true, true, true],
    ];
    should_equal(solve_count_islands(data), 1);
}

#[test]
fn count_islands_ignores_columns_past_the_first_row() {
    let data = vec![vec![false, true], vec![false, false, true], vec![true, false, true]];
    should_equal(solve_count_islands(data), 2);
}

#[test]
fn count_islands_all_water_and_empty_rows() {
    should_equal(solve_count_islands(vec![vec![false; 4]; 3]), 0);
    should_equal(solve_count_islands(vec![vec![], vec![true]]), 0);
}

#[test]
fn test_problem_counts_bytes() {
    should_equal(solve_test_problem("AAAA".to_string()), 4);
    should_equal(solve_test_problem("é".to_string()), 2);
}

#[test]
fn match_and_solve_dispatches() {
    should_equal(
        match_and_solve(SolveRequest::LargestWindowInArray { data: vec![1, 2, -5, 4] }),
        4,
    );
    should_equal(
        match_and_solve(SolveRequest::SizeOfIsland { data: vec![vec![true, true]] }),
        2,
    );
    should_equal(match_and_solve(SolveRequest::TestProblem { data: "AAA".to_string() }), 3);
    assert_eq!(
        match_and_solve(SolveRequest::CountIslands { data: vec![vec![true]] }),
        SolveResponse::Fault
    );
    assert_eq!(
        match_and_solve(SolveRequest::UnimplementedProblem { data: String::new() }),
        SolveResponse::Fault
    );
}

#[test]
fn service_answers_fault_where_a_solver_would_panic() {
    assert_eq!(
        SolverService::solve(SolveRequest::LargestWindowInArray { data: vec![] }),
        SolveResponse::Fault
    );
    assert_eq!(
        SolverService::solve(SolveRequest::LargestWindowInArray { data: vec![i64::MAX, 1] }),
        SolveResponse::Fault
    );
    assert_eq!(
        SolverService::solve(SolveRequest::LargestWindowInArray { data: vec![i64::MIN, i64::MIN] }),
        SolveResponse::Fault
    );
    should_equal(
        SolverService::solve(SolveRequest::LargestWindowInArray { data: vec![i64::MIN, 5, i64::MIN] }),
        5,
    );
    should_equal(
        SolverService::solve(SolveRequest::LargestWindowInArray { data: vec![3, -1, 2] }),
        4,
    );
}

#[test]
fn largest_window_same_when_reversed() {
    for data in [
        vec![1, -2, 3, -1, 3, 2, -1],
        vec![-100, 0, 1, 0, 1, 0, 1],
        vec![5, -10, 4, 4, -1, 7, -20, 3],
    ] {
        let mut reversed = data.clone();
        reversed.reverse();
        assert_eq!(solve_largest_window_in_array(data), solve_largest_window_in_array(reversed));
    }
}

fn sample_map() -> Vec<Vec<bool>> {
    vec![
        vec![true, true, false, false, true],
        vec![false, true, false, true, true],
        vec![true, false, false, false, false],
        vec![true, false, true, false, true],
    ]
}

#[test]
fn island_count_same_when_transposed() {
    let map = sample_map();
    let transposed: Vec<Vec<bool>> = (0..map[0].len())
        .map(|c| map.iter().map(|row| row[c]).collect())
        .collect();
    should_equal(solve_count_islands(map), 5);
    should_equal(solve_count_islands(transposed), 5);
}

#[test]
fn island_count_same_when_upside_down() {
    let map = sample_map();
    let mut flipped = map.clone();
    flipped.reverse();
    assert_eq!(solve_count_islands(map), solve_count_islands(flipped));
}

#[test]
fn island_count_same_when_mirrored() {
    let map = sample_map();
    let mirrored: Vec<Vec<bool>> = map
        .iter()
        .map(|row| row.iter().rev().cloned().collect())
        .collect();
    assert_eq!(solve_count_islands(map), solve_count_islands(mirrored));
}

#[test]
fn dispatcher_and_service_answer_as_the_solvers() {
    let data = vec![1, -2, 3, -1, 3, 2, -1];
    let direct = solve_largest_window_in_array(data.clone());
    let dispatched = match_and_solve(SolveRequest::LargestWindowInArray { data: data.clone() });
    let served = SolverService::solve(SolveRequest::LargestWindowInArray { data });
    assert_eq!(direct, dispatched);
    assert_eq!(dispatched, served);
    let map = vec![vec![true, false], vec![false, true]];
    assert_eq!(
        solve_size_of_island(map.clone()),
        SolverService::solve(SolveRequest::SizeOfIsland { data: map })
    );
    assert_eq!(
        solve_test_problem("AAA".to_string()),
        match_and_solve(SolveRequest::TestProblem { data: "AAA".to_string() })
    );
}
