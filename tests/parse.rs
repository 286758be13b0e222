use npuzzle::{parse_input, ParseError};

fn parse(text: &str) -> Result<Vec<Vec<usize>>, ParseError> {
    parse_input(text.to_string())
}

#[test]
fn main_reject_empty() {
    assert_eq!(Err(ParseError::NoInput), parse(""));
    assert_eq!(Err(ParseError::NoInput), parse("# only a comment\n\n   \n"));
    assert_eq!(parse("").unwrap_err().message(), "no input");
}

#[test]
fn main_reject_oblong() {
    let r = parse("1 2 3\n8 0 4\n");
    assert_eq!(r, Err(ParseError::NotSquare));
    assert_eq!(r.unwrap_err().message(), "not a square");
}

#[test]
fn main_reject_rect() {
    assert_eq!(parse("1 2 3\n8 0\n7 6 5\n"), Err(ParseError::NotSquare));
}

#[test]
fn main_reject_invalid() {
    let r = parse("1 2 3\n8 0 4\n7 6 9\n");
    assert_eq!(r, Err(ParseError::InvalidValue));
    assert_eq!(r.unwrap_err().message(), "invalid value");
    // a word that is not a number reads as 0, which then appears twice
    assert_eq!(parse("1 2 3\n8 0 4\n7 6 x\n"), Err(ParseError::DuplicateValue));
}

#[test]
fn main_reject_dup() {
    let r = parse("1 2 3\n8 0 4\n7 6 6\n");
    assert_eq!(r, Err(ParseError::DuplicateValue));
    assert_eq!(r.unwrap_err().message(), "duplicate value");
}

#[test]
fn main_accept_valid() {
    let puzzle = parse("1 2 3\n8 0 4\n7 6 5\n").expect("Error");
    assert!(puzzle.len() == 3);
    for i in 0..3 {
        assert!(puzzle[i].len() == 3);
    }
}

#[test]
fn main_accept_comments() {
    let text = "# This puzzle is solvable\n1 2 3 # first row\n8 0 4\n\t7  6 5 #last\n";
    let puzzle = parse(text).expect("Error");
    assert!(puzzle.len() == 3);
    for i in 0..3 {
        assert!(puzzle[i].len() == 3);
    }
    assert_eq!(puzzle, vec![vec![1, 2, 3], vec![8, 0, 4], vec![7, 6, 5]]);
}

#[test]
fn parse_reads_signs_and_carriage_returns() {
    assert_eq!(
        parse("+1 02 3\r\n8 0 4\r\n7 6 5\r\n"),
        Ok(vec![vec![1, 2, 3], vec![8, 0, 4], vec![7, 6, 5]])
    );
}

#[test]
fn parse_duplicate_found_before_short_row() {
    assert_eq!(parse("1 1 3\n8 0\n"), Err(ParseError::DuplicateValue));
    assert_eq!(parse("1 2 3\n8 0\n1 1 1\n"), Err(ParseError::NotSquare));
}

#[test]
fn parse_overflowing_word_reads_zero() {
    assert_eq!(
        parse("1 2\n99999999999999999999999999 3\n"),
        Ok(vec![vec![1, 2], vec![0, 3]])
    );
}

#[test]
fn parse_too_many_rows() {
    assert_eq!(parse("1 0\n2 3\n4 5\n"), Err(ParseError::NotSquare));
}
