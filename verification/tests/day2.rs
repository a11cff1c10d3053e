use advent_solvers::day2::{decrypt_move, parse_round, CipherMove, DayTwoParser, Move, Round};
use advent_solvers::util::{Half, ParseError, Parser};

#[test]
fn test_move_score() {
    assert_eq!(Move::Rock.score(), 1);
    assert_eq!(Move::Paper.score(), 2);
    assert_eq!(Move::Scissors.score(), 3);
}

#[test]
fn test_round_score() {
    // draw: shape plus three
    assert_eq!(Round { elf: Move::Rock, me: Move::Rock }.score(), 4);
    // win: shape plus six
    assert_eq!(Round { elf: Move::Rock, me: Move::Paper }.score(), 8);
    // loss: shape alone
    assert_eq!(Round { elf: Move::Rock, me: Move::Scissors }.score(), 3);
}

#[test]
fn test_decrypt_move_first_half() {
    assert_eq!(decrypt_move(Half::First, Move::Rock, CipherMove::X), Move::Rock);
    assert_eq!(decrypt_move(Half::First, Move::Scissors, CipherMove::Y), Move::Paper);
    assert_eq!(decrypt_move(Half::First, Move::Paper, CipherMove::Z), Move::Scissors);
}

#[test]
fn test_decrypt_move_second_half() {
    // X loses, Y draws, Z wins
    assert_eq!(decrypt_move(Half::Second, Move::Rock, CipherMove::X), Move::Scissors);
    assert_eq!(decrypt_move(Half::Second, Move::Rock, CipherMove::Y), Move::Rock);
    assert_eq!(decrypt_move(Half::Second, Move::Rock, CipherMove::Z), Move::Paper);
    assert_eq!(decrypt_move(Half::Second, Move::Paper, CipherMove::X), Move::Rock);
    assert_eq!(decrypt_move(Half::Second, Move::Scissors, CipherMove::Z), Move::Rock);
}

#[test]
fn test_parse_round() {
    assert_eq!(
        parse_round("A Y", Half::First),
        Ok(Round { elf: Move::Rock, me: Move::Paper })
    );
    assert_eq!(
        parse_round("C Z", Half::Second),
        Ok(Round { elf: Move::Scissors, me: Move::Rock })
    );
}

#[test]
fn test_parse_round_errors() {
    assert_eq!(parse_round("", Half::First), Err(ParseError::UnknownOpponentMove));
    assert_eq!(parse_round("D X", Half::First), Err(ParseError::UnknownOpponentMove));
    assert_eq!(parse_round("AB X", Half::First), Err(ParseError::UnknownOpponentMove));
    assert_eq!(parse_round("A", Half::First), Err(ParseError::MissingCipherMove));
    assert_eq!(parse_round("A W", Half::First), Err(ParseError::UnknownCipherMove));
    assert_eq!(parse_round("A ", Half::First), Err(ParseError::UnknownCipherMove));
    assert_eq!(parse_round("A X Y", Half::First), Err(ParseError::SpuriousField));
    assert_eq!(parse_round("A X ", Half::First), Err(ParseError::SpuriousField));
}

fn example_lines() -> Vec<String> {
    vec!["A Y".to_string(), "B X".to_string(), "C Z".to_string()]
}

#[test]
fn test_parser_first_half_example() {
    let mut parser = DayTwoParser;
    assert_eq!(parser.parse(Half::First, &example_lines()), Ok(15));
}

#[test]
fn test_parser_second_half_example() {
    let mut parser = DayTwoParser;
    assert_eq!(parser.parse(Half::Second, &example_lines()), Ok(12));
}

#[test]
fn test_parser_reports_first_error() {
    let mut parser = DayTwoParser;
    let lines = vec!["A Y".to_string(), "A".to_string()];
    assert_eq!(parser.parse(Half::First, &lines), Err(ParseError::MissingCipherMove));
}
