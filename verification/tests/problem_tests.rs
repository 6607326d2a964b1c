use npuzzle::problem::{ParseError, Problem};

#[test]
fn test_from_string_valid() {
    let p = Problem::from_string("1 2 3\n4 5 6\n7 8 0\n").unwrap();
    assert_eq!(p.get(), vec![vec![1, 2, 3], vec![4, 5, 6], vec![7, 8, 0]]);
}

#[test]
fn test_from_string_skips_blank_lines_and_extra_spaces() {
    let p = Problem::from_string("\n 1  2 \t3\n\n4 5 6\r\n7 8 0").unwrap();
    assert_eq!(p.get(), vec![vec![1, 2, 3], vec![4, 5, 6], vec![7, 8, 0]]);
}

#[test]
fn test_from_string_rejects_bad_token() {
    assert!(matches!(
        Problem::from_string("1 2 x\n3 4 0"),
        Err(ParseError::InvalidValue)
    ));
}

#[test]
fn test_from_string_rejects_oversized_value() {
    assert!(matches!(
        Problem::from_string("1 2 300\n3 4 0"),
        Err(ParseError::InvalidValue)
    ));
}

#[test]
fn test_from_string_rejects_missing_blank() {
    assert!(matches!(
        Problem::from_string("1 2\n3 4"),
        Err(ParseError::WrongBlankCount)
    ));
}

#[test]
fn test_from_string_rejects_two_blanks() {
    assert!(matches!(
        Problem::from_string("0 2\n3 0"),
        Err(ParseError::WrongBlankCount)
    ));
}

#[test]
fn test_from_string_rejects_empty_input() {
    assert!(matches!(
        Problem::from_string(""),
        Err(ParseError::WrongBlankCount)
    ));
}

#[test]
fn test_from_string_rejects_uneven_rows() {
    assert!(matches!(
        Problem::from_string("1 2 3\n4 0"),
        Err(ParseError::UnevenRows)
    ));
}

#[test]
fn test_problem_new_and_get() {
    let table = vec![vec![1, 0], vec![3, 2]];
    let p = Problem::new(table.clone());
    assert_eq!(p.get(), table);
    let q = p.clone();
    assert_eq!(q.get(), table);
}
