use advent_solvers::day3::{
    count_set_bits, encode, find_duplicated_item, index_to_priority, next_line, solve_first_half,
    solve_second_half, DayThreeParser,
};
use advent_solvers::util::{Half, ParseError, Parser};

#[test]
fn test_encode() -> Result<(), ParseError> {
    assert_eq!(encode("")?, 0);
    assert_eq!(encode("a")?, 1);
    assert_eq!(encode("z")?, (1 << 25));
    assert_eq!(encode("za")?, 1 | (1 << 25));
    assert_eq!(encode("A")?, 1 << 26);
    assert_eq!(encode("Z")?, 1 << 51);
    assert_eq!(encode("ZA")?, (1 << 26) | (1 << 51));
    Ok(())
}

#[test]
fn test_parse_line() -> Result<(), ParseError> {
    assert_eq!(find_duplicated_item("aa")?, 1);
    assert_eq!(find_duplicated_item("AA")?, 27);
    Ok(())
}

#[test]
fn test_index_to_priority() {
    assert_eq!(index_to_priority(1), 1);
    assert_eq!(index_to_priority(2), 2);
    assert_eq!(index_to_priority(4), 3);
}

#[test]
fn test_index_to_priority_of_zero() {
    assert_eq!(index_to_priority(0), 65);
}

#[test]
fn test_count_set_bits() {
    assert_eq!(count_set_bits(0), 0);
    assert_eq!(count_set_bits(1), 1);
    assert_eq!(count_set_bits(0b1011), 3);
    assert_eq!(count_set_bits(u64::MAX), 64);
}

#[test]
fn test_encode_rejects_other_bytes() {
    assert_eq!(encode("a1"), Err(ParseError::UnexpectedCharacter));
    assert_eq!(encode(" "), Err(ParseError::UnexpectedCharacter));
}

#[test]
fn test_find_duplicated_item_errors() {
    assert_eq!(find_duplicated_item("abc"), Err(ParseError::OddLineLength));
    assert_eq!(find_duplicated_item("a1"), Err(ParseError::UnexpectedCharacter));
    assert_eq!(find_duplicated_item("ab"), Err(ParseError::NoSingleDuplicate));
    assert_eq!(find_duplicated_item("abab"), Err(ParseError::NoSingleDuplicate));
}

fn example_lines() -> Vec<String> {
    vec![
        "vJrwpWtwJgWrhcsFMMfFFhFp".to_string(),
        "jqHRNqRjqzjGDLGLrsFMfFZSrLrFZsSL".to_string(),
        "PmmdzqPrVvPwwTWBwg".to_string(),
        "wMqvLMZHhHMvwLHjbvcjnnSBnvTQFn".to_string(),
        "ttgJtRGJQctTZtZT".to_string(),
        "CrZsJsPPZsGzwwsLwLmpwMDw".to_string(),
    ]
}

#[test]
fn test_solve_first_half_example() {
    assert_eq!(solve_first_half(&example_lines()), Ok(157));
}

#[test]
fn test_solve_second_half_example() {
    assert_eq!(solve_second_half(&example_lines()), Ok(70));
}

#[test]
fn test_solve_first_half_reports_first_error() {
    let lines = vec!["aa".to_string(), "abc".to_string()];
    assert_eq!(solve_first_half(&lines), Err(ParseError::OddLineLength));
}

#[test]
fn test_solve_second_half_reports_bad_character() {
    let lines = vec!["aa".to_string(), "a1".to_string(), "bb".to_string()];
    assert_eq!(solve_second_half(&lines), Err(ParseError::UnexpectedCharacter));
}

#[test]
fn test_solve_second_half_incomplete_group() {
    let lines = vec!["aa".to_string(), "ab".to_string()];
    assert_eq!(solve_second_half(&lines), Err(ParseError::IncompleteGroup));
}

#[test]
fn test_solve_second_half_no_badge() {
    let lines = vec!["ab".to_string(), "cd".to_string(), "ef".to_string()];
    assert_eq!(solve_second_half(&lines), Err(ParseError::BadgeNotFound));
}

#[test]
fn test_next_line() {
    let lines = vec!["a".to_string()];
    assert_eq!(next_line(&lines, 0), Ok(1));
    assert_eq!(next_line(&lines, 1), Err(ParseError::IncompleteGroup));
}

#[test]
fn test_parser_dispatches_on_half() {
    let mut parser = DayThreeParser;
    assert_eq!(parser.parse(Half::First, &example_lines()), Ok(157));
    assert_eq!(parser.parse(Half::Second, &example_lines()), Ok(70));
}
