use advent_solvers::day1::{pack_sums_fit, packs, parse_top_3_packs};
use advent_solvers::util::ParseError;

fn lines(v: &[&str]) -> Vec<String> {
    v.iter().map(|s| s.to_string()).collect()
}

#[test]
fn test_packs_groups_by_blank_lines() {
    let input = lines(&["1000", "2000", "", "3000"]);
    assert_eq!(packs(&input), Ok(vec![3000, 3000]));
}

#[test]
fn test_packs_accepts_leading_plus() {
    let input = lines(&["+12"]);
    assert_eq!(packs(&input), Ok(vec![12]));
}

#[test]
fn test_packs_stops_at_empty_pack() {
    // a pack with no calories ends the scan; later lines are never read
    let input = lines(&["1", "", "", "not a number"]);
    assert_eq!(packs(&input), Ok(vec![1]));
    let input = lines(&["", "5"]);
    assert_eq!(packs(&input), Ok(vec![]));
}

#[test]
fn test_packs_rejects_bad_lines() {
    assert_eq!(packs(&lines(&["12x"])), Err(ParseError::InvalidNumber));
    assert_eq!(packs(&lines(&["+"])), Err(ParseError::InvalidNumber));
    assert_eq!(packs(&lines(&["-3"])), Err(ParseError::InvalidNumber));
    assert_eq!(
        packs(&lines(&["99999999999999"])),
        Err(ParseError::InvalidNumber)
    );
}

#[test]
fn test_parse_top_3_packs_example() {
    let input = lines(&[
        "1000", "2000", "3000", "", "4000", "", "5000", "6000", "", "7000", "8000", "9000", "",
        "10000",
    ]);
    assert_eq!(parse_top_3_packs(&input), Ok(45000));
}

#[test]
fn test_parse_top_3_packs_with_fewer_packs() {
    let input = lines(&["10", "", "20"]);
    assert_eq!(parse_top_3_packs(&input), Ok(30));
}

#[test]
fn test_parse_top_3_packs_empty_input() {
    assert_eq!(parse_top_3_packs(&lines(&[])), Ok(0));
}

#[test]
fn test_pack_sums_fit() {
    assert!(pack_sums_fit(&lines(&["1000", "2000", "", "3000"])));
    // a single pack may overflow u32
    assert!(!pack_sums_fit(&lines(&["4000000000", "4000000000"])));
    // or the three fullest packs together may
    assert!(!pack_sums_fit(&lines(&[
        "2000000000",
        "",
        "2000000000",
        "",
        "2000000000"
    ])));
    // an input that errors out never overflows
    assert!(pack_sums_fit(&lines(&["12x"])));
}
