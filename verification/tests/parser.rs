use puzzle_services::parser::{parse_bool_grid, parse_vector};
use puzzle_services::problems::DBColumn;
use puzzle_services::runner::ServiceError;

fn fault_message(e: ServiceError) -> (String, String) {
    match e {
        ServiceError::Fault { service, source } => (service, source),
        ServiceError::Start { .. } => panic!("expected a fault"),
    }
}

#[test]
fn we_can_parse_bool_grids() {
    let vector_string = "[[1,0,1,0,1,0,1,0,1,0,1,0], [1,0,1,0,1,0,1,0,1,0,1,0], [1,0,1,0,1,0,1,0,1,0,1,0], [1,0,1,0,1,0,1,0,1,0,1,0]]".to_string();
    let vector = parse_bool_grid(vector_string).expect("Failed to parse to Vec<Vec<bool>>");

    let should_be = vec![
        vec![
            true, false, true, false, true, false, true, false, true, false, true, false,
        ],
        vec![
            true, false, true, false, true, false, true, false, true, false, true, false,
        ],
        vec![
            true, false, true, false, true, false, true, false, true, false, true, false,
        ],
        vec![
            true, false, true, false, true, false, true, false, true, false, true, false,
        ],
    ];
    assert_eq!(should_be, vector);
}

#[test]
fn we_can_parse_vectors() {
    let vector_string = "[7,6,1,-2,18,-17,19,-22,22,5]".to_string();
    let vector = parse_vector(vector_string).expect("Failed to parse to Vec<i64>");
    let should_be = vec![7, 6, 1, -2, 18, -17, 19, -22, 22, 5];
    assert_eq!(should_be, vector);
}

#[test]
fn vectors_with_spaces_signs_and_extremes() {
    let v = parse_vector("[ +3 ,-0,\t9223372036854775807, -9223372036854775808 ]".to_string())
        .unwrap();
    assert_eq!(v, vec![3, 0, i64::MAX, i64::MIN]);
}

#[test]
fn vector_errors_carry_the_integer_message() {
    let cases = [
        ("[1,,2]", "cannot parse integer from empty string"),
        ("[1,x]", "invalid digit found in string"),
        ("[-]", "invalid digit found in string"),
        ("[9223372036854775808]", "number too large to fit in target type"),
        ("[-9223372036854775809]", "number too small to fit in target type"),
        ("[]", "cannot parse integer from empty string"),
        ("[1 2]", "invalid digit found in string"),
    ];
    for (text, message) in cases {
        let e = parse_vector(text.to_string()).unwrap_err();
        assert_eq!(fault_message(e), ("solver".to_string(), message.to_string()));
    }
}

#[test]
fn first_failure_wins() {
    let e = parse_vector("[99999999999999999999x, y]".to_string()).unwrap_err();
    assert_eq!(fault_message(e).1, "number too large to fit in target type");
    let e = parse_vector("[1x99999999999999999999]".to_string()).unwrap_err();
    assert_eq!(fault_message(e).1, "invalid digit found in string");
}

#[test]
fn grids_accept_words_and_digits() {
    let g = parse_bool_grid("  [[true, false], [0, 1]]\n".to_string()).unwrap();
    assert_eq!(g, vec![vec![true, false], vec![false, true]]);
}

#[test]
fn grid_errors_name_the_cell() {
    let e = parse_bool_grid("[[1, 2], [0, 1]]".to_string()).unwrap_err();
    assert_eq!(
        fault_message(e),
        ("solver".to_string(), "invalid bool: 2".to_string())
    );
    let e = parse_bool_grid("[]".to_string()).unwrap_err();
    assert_eq!(fault_message(e).1, "invalid bool: ");
}

#[test]
fn written_numbers_read_back() {
    let data: Vec<i64> = vec![7, -6, 0, i64::MIN, i64::MAX, 19];
    let text = data.to_db_entry();
    assert_eq!(text, "[7, -6, 0, -9223372036854775808, 9223372036854775807, 19]");
    assert_eq!(parse_vector(text).unwrap(), data);
}

#[test]
fn written_maps_read_back() {
    let g = vec![vec![true, false, false], vec![false, true, true]];
    let text = g.to_db_entry();
    assert_eq!(text, "[[true, false, false], [false, true, true]]");
    assert_eq!(parse_bool_grid(text).unwrap(), g);
}

#[test]
fn db_entries_of_plain_values() {
    assert_eq!(12usize.to_db_entry(), "12");
    assert_eq!((-40i64).to_db_entry(), "-40");
    assert_eq!(true.to_db_entry(), "true");
    assert_eq!('x'.to_db_entry(), "x");
    assert_eq!("abc".to_string().to_db_entry(), "abc");
    assert_eq!("abc".to_db_entry(), "abc");
    let empty: Vec<i64> = vec![];
    assert_eq!(empty.to_db_entry(), "[]");
}
