use n_puzzle::error::{ParseError, PuzzleError};
use n_puzzle::npuzzle::{NPuzzle, Point};

fn parse_error(text: &str) -> ParseError {
    match NPuzzle::parse(text.as_bytes()) {
        Err(PuzzleError::Parse(e)) => e,
        other => panic!("expected a parse error, got {:?}", other),
    }
}

#[test]
fn parse_reads_size_and_rows() {
    let p = NPuzzle::parse(b"3\n1 2 3\n4 5 6\n7 0 8\n").unwrap();
    assert_eq!(p.size, 3);
    assert_eq!(p.board, vec![1, 2, 3, 4, 5, 6, 7, 0, 8]);
    assert_eq!(p.blank_pos, Point { x: 1, y: 2 });
}

#[test]
fn parse_strips_comments_and_passes_over_comment_lines() {
    let text = "# a puzzle\n\n  \t\n3 # the side\n# first row\n1 2 3 # one\n   # indented\n4 5 6\n7 0 8#end";
    let p = NPuzzle::parse(text.as_bytes()).unwrap();
    assert_eq!(p.board, vec![1, 2, 3, 4, 5, 6, 7, 0, 8]);
}

#[test]
fn parse_takes_the_first_word_of_the_size_line() {
    let p = NPuzzle::parse(b"2 ignored words\n1 2\n3 0").unwrap();
    assert_eq!(p.size, 2);
    assert_eq!(p.board, vec![1, 2, 3, 0]);
}

#[test]
fn parse_accepts_carriage_returns_tabs_and_a_plus_sign() {
    let p = NPuzzle::parse(b"+2\r\n\t1\t 002\r\n3 +0\r\n").unwrap();
    assert_eq!(p.board, vec![1, 2, 3, 0]);
}

#[test]
fn parse_reads_a_board_of_side_four() {
    let text = "4\n 1  2  3  4\n 5  6  7  8\n 9 10 11 12\n13 14  0 15\n";
    let p = NPuzzle::parse(text.as_bytes()).unwrap();
    assert_eq!(p.board, vec![1, 2, 3, 4, 5, 6, 7, 8, 9, 10, 11, 12, 13, 14, 0, 15]);
    assert_eq!(p.blank_pos, Point { x: 2, y: 3 });
}

#[test]
fn parse_rejects_a_row_with_two_numbers() {
    assert_eq!(parse_error("3\n1 2 3\n4 5\n6 7 8 0\n"), ParseError::RowLength);
    assert_eq!(parse_error("3\n1 2\n"), ParseError::RowLength);
}

#[test]
fn parse_rejects_a_board_without_a_blank() {
    assert_eq!(parse_error("3\n1 2 3\n4 5 6\n7 8 9\n"), ParseError::MissingBlank);
}

#[test]
fn parse_rejects_a_text_without_a_size() {
    assert_eq!(parse_error(""), ParseError::MissingSize);
    assert_eq!(parse_error("\n\n# nothing here\n   \n"), ParseError::MissingSize);
}

#[test]
fn parse_rejects_a_word_that_is_no_number() {
    assert_eq!(parse_error("three\n"), ParseError::InvalidToken);
    assert_eq!(parse_error("3\n1 2 x\n"), ParseError::InvalidToken);
    assert_eq!(parse_error("3\n1 2 -3\n"), ParseError::InvalidToken);
    assert_eq!(parse_error("3\n1 2 256\n"), ParseError::InvalidToken);
    assert_eq!(parse_error("3\n1 2 99999999999999999999\n"), ParseError::InvalidToken);
    assert_eq!(parse_error("3\n1 2 +\n"), ParseError::InvalidToken);
    assert_eq!(parse_error("3\n1 2 3+\n"), ParseError::InvalidToken);
    assert_eq!(parse_error("300\n"), ParseError::InvalidToken);
}

#[test]
fn parse_reports_a_bad_word_before_the_length_of_its_row() {
    assert_eq!(parse_error("3\n1 x\n"), ParseError::InvalidToken);
}

#[test]
fn parse_rejects_a_wrong_number_of_rows() {
    assert_eq!(parse_error("3\n1 2 3\n4 5 6\n"), ParseError::RowCount);
    assert_eq!(parse_error("2\n1 2\n3 0\n1 2\n"), ParseError::RowCount);
    assert_eq!(parse_error("3\n"), ParseError::RowCount);
}

#[test]
fn parse_counts_an_empty_line_among_the_rows_as_a_row() {
    assert_eq!(parse_error("2\n1 2\n\n3 0\n"), ParseError::RowLength);
    assert_eq!(parse_error("2\n1 2\n3 0\n\n"), ParseError::RowLength);
}

#[test]
fn parse_rejects_tiles_that_are_no_permutation() {
    assert_eq!(parse_error("2\n1 1\n3 0\n"), ParseError::InvalidTiles);
    assert_eq!(parse_error("2\n0 0\n3 1\n"), ParseError::InvalidTiles);
    assert_eq!(parse_error("2\n1 2\n7 0\n"), ParseError::InvalidTiles);
}

#[test]
fn parse_rejects_a_side_of_zero() {
    assert_eq!(parse_error("0\n"), ParseError::MissingBlank);
}
