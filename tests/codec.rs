use wordle::board::PuzzleBoard;
use wordle::error::{BoardDefect, ParseError};
use wordle::puzzle::Puzzle;
use wordle::tile::Tile;

const SAMPLE: &str = "Wordle 1,234 4/6*\n\n\u{1F7E9}\u{2B1B}\u{2B1B}\u{1F7E8}\u{2B1B}\n\u{2B1B}\u{1F7E8}\u{2B1B}\u{2B1B}\u{1F7E9}\n\u{1F7E9}\u{1F7E9}\u{2B1B}\u{1F7E9}\u{1F7E9}\n\u{1F7E9}\u{1F7E9}\u{1F7E9}\u{1F7E9}\u{1F7E9}";

const GREEN_ROW: &str = "\u{1F7E9}\u{1F7E9}\u{1F7E9}\u{1F7E9}\u{1F7E9}";

fn rows_of(p: &Puzzle) -> Vec<Vec<Tile>> {
    p.board.board.clone()
}

#[test]
fn parses_sample_share() {
    let p = Puzzle::new(SAMPLE).unwrap();
    assert_eq!(p.day_offset, 1234);
    assert_eq!(p.attempts, 4);
    assert!(p.solved);
    assert!(p.hard_mode);
    assert_eq!(p.board.board.len(), 4);
    assert_eq!(
        p.board.board[0],
        vec![Tile::Green, Tile::Black, Tile::Black, Tile::Yellow, Tile::Black]
    );
    assert_eq!(p.board.board[3], vec![Tile::Green; 5]);
}

#[test]
fn round_trip_of_sample() {
    let p = Puzzle::new(SAMPLE).unwrap();
    let text = p.to_text();
    assert_eq!(text, SAMPLE);
    let q = Puzzle::new(&text).unwrap();
    assert_eq!(q.day_offset, p.day_offset);
    assert_eq!(q.attempts, p.attempts);
    assert_eq!(q.solved, p.solved);
    assert_eq!(q.hard_mode, p.hard_mode);
    assert_eq!(rows_of(&q), rows_of(&p));
}

#[test]
fn round_trip_of_unsolved_game() {
    let row = "\u{2B1B}\u{1F7E8}\u{2B1B}\u{2B1B}\u{1F7E9}";
    let text = format!("Wordle 987 X/6\n\n{row}\n{row}\n{row}\n{row}\n{row}\n{row}");
    let p = Puzzle::new(&text).unwrap();
    assert_eq!(p.day_offset, 987);
    assert!(!p.solved);
    assert_eq!(p.attempts, 6);
    assert!(!p.hard_mode);
    assert_eq!(p.board.board.len(), 6);
    assert_eq!(p.to_text(), text);
}

#[test]
fn grouping_of_day_offsets() {
    let board = PuzzleBoard::from_rows(vec![vec![Tile::Green; 5]]);
    for (day, written) in [
        (0u32, "0"),
        (7, "7"),
        (999, "999"),
        (1000, "1,000"),
        (5000, "5,000"),
        (12345, "12,345"),
        (1000000, "1,000,000"),
        (4294967295, "4,294,967,295"),
    ] {
        let p = Puzzle { day_offset: day, attempts: 1, solved: true, hard_mode: false, board: board.clone() };
        let text = p.to_text();
        assert_eq!(text, format!("Wordle {written} 1/6\n\n{GREEN_ROW}"));
        assert_eq!(Puzzle::new(&text).unwrap().day_offset, day);
    }
}

#[test]
fn ungrouped_large_offsets_are_refused() {
    let text = format!("Wordle 1234 3/6\n\n{GREEN_ROW}");
    assert_eq!(Puzzle::new(&text).unwrap_err(), ParseError::MalformedHeader);
    let text = format!("Wordle 4294967296 4/6\n\n{GREEN_ROW}");
    assert_eq!(Puzzle::new(&text).unwrap_err(), ParseError::MalformedHeader);
    let text = format!("Wordle 04,294,967,296 4/6\n\n{GREEN_ROW}");
    assert_eq!(Puzzle::new(&text).unwrap_err(), ParseError::MalformedHeader);
    let text = format!("Wordle 4,294,967,29,6 4/6\n\n{GREEN_ROW}");
    assert_eq!(Puzzle::new(&text).unwrap_err(), ParseError::MalformedHeader);
    let text = format!("Wordle 0,004,294,967,296 4/6\n\n{GREEN_ROW}");
    assert_eq!(Puzzle::new(&text).unwrap_err(), ParseError::MalformedHeader);
}

#[test]
fn day_offset_beyond_range_is_its_own_error() {
    let text = format!("Wordle 4,294,967,296 3/6\n\n{GREEN_ROW}");
    assert_eq!(Puzzle::new(&text).unwrap_err(), ParseError::DayOffsetOutOfRange);
    let text = format!("Wordle 99,999,999,999,999,999,999,999 X/6*\n\n{GREEN_ROW}");
    assert_eq!(Puzzle::new(&text).unwrap_err(), ParseError::DayOffsetOutOfRange);
    let text = format!("Wordle 4,294,967,296 7/6\n\n{GREEN_ROW}");
    assert_eq!(Puzzle::new(&text).unwrap_err(), ParseError::MalformedHeader);
    let text = format!("Wordle 4,294,967,295 3/6\n\n{GREEN_ROW}\n{GREEN_ROW}");
    assert_eq!(Puzzle::new(&text).unwrap().day_offset, u32::MAX);
}

#[test]
fn single_green_row_is_a_board() {
    let b = PuzzleBoard::parse(GREEN_ROW).unwrap();
    assert_eq!(b.board, vec![vec![Tile::Green; 5]]);
}

#[test]
fn single_row_not_all_green_is_refused() {
    let text = "\u{1F7E9}\u{1F7E9}\u{1F7E9}\u{1F7E9}\u{1F7E8}";
    assert_eq!(
        PuzzleBoard::parse(text).unwrap_err(),
        ParseError::MalformedBoard { defect: BoardDefect::SingleRowNotGreen }
    );
}

#[test]
fn seventh_row_is_ignored() {
    let row = "\u{2B1B}\u{2B1B}\u{2B1B}\u{2B1B}\u{2B1B}";
    let text = format!("{row}\n{row}\n{row}\n{row}\n{row}\n{row}\nnot a row at all");
    let b = PuzzleBoard::parse(&text).unwrap();
    assert_eq!(b.board.len(), 6);
    let text = format!("{row}\n{row}\n{row}\n{row}\n{row}\n{row}\n{GREEN_ROW}");
    let b = PuzzleBoard::parse(&text).unwrap();
    assert_eq!(b.board, vec![vec![Tile::Black; 5]; 6]);
}

#[test]
fn alias_row_reads_like_squares() {
    let alias = ":large_green_square::large_green_square::large_green_square::large_green_square::large_green_square:";
    let a = PuzzleBoard::parse(alias).unwrap();
    let b = PuzzleBoard::parse(GREEN_ROW).unwrap();
    assert_eq!(a.board, b.board);
    assert_eq!(a.to_text(), GREEN_ROW);
}

#[test]
fn alias_rows_of_every_tile() {
    let text = ":black_large_square::large_yellow_square::large_green_square:\n\u{1F7E9}\u{1F7E9}";
    let b = PuzzleBoard::parse(text).unwrap();
    assert_eq!(b.board, vec![vec![Tile::Black, Tile::Yellow, Tile::Green], vec![Tile::Green; 2]]);
}

#[test]
fn blank_lines_and_crlf_are_skipped() {
    let text = format!("\r\n{GREEN_ROW}\r\n\r\n{GREEN_ROW}\r\n");
    let b = PuzzleBoard::parse(&text).unwrap();
    assert_eq!(b.board, vec![vec![Tile::Green; 5]; 2]);
}

#[test]
fn empty_board_is_refused() {
    assert_eq!(
        PuzzleBoard::parse("\n\n").unwrap_err(),
        ParseError::MalformedBoard { defect: BoardDefect::NoRows }
    );
    assert_eq!(
        Puzzle::new("Wordle 1,234 4/6").unwrap_err(),
        ParseError::MalformedBoard { defect: BoardDefect::NoRows }
    );
}

#[test]
fn long_row_is_refused() {
    let text = format!("{GREEN_ROW}\u{1F7E9}\n{GREEN_ROW}");
    assert_eq!(
        PuzzleBoard::parse(&text).unwrap_err(),
        ParseError::MalformedBoard { defect: BoardDefect::RowTooLong { len: 6 } }
    );
}

#[test]
fn unknown_token_is_refused() {
    let text = format!("{GREEN_ROW}\n\u{1F7E9}x\u{1F7E9}");
    assert_eq!(PuzzleBoard::parse(&text).unwrap_err(), ParseError::InvalidTileToken { line: 2 });
    let text = ":large_red_square::large_green_square:";
    assert_eq!(PuzzleBoard::parse(text).unwrap_err(), ParseError::InvalidTileToken { line: 1 });
}

#[test]
fn malformed_header_is_refused() {
    let text = format!("wordle 123 4/6\n\n{GREEN_ROW}");
    assert_eq!(Puzzle::new(&text).unwrap_err(), ParseError::MalformedHeader);
    let text = format!("Wordle 123 7/6\n\n{GREEN_ROW}");
    assert_eq!(Puzzle::new(&text).unwrap_err(), ParseError::MalformedHeader);
    let text = format!("Wordle 1,23 4/6\n\n{GREEN_ROW}");
    assert_eq!(Puzzle::new(&text).unwrap_err(), ParseError::MalformedHeader);
    // The header is checked before the board: a bad board goes unread.
    assert_eq!(Puzzle::new("wordle 123 4/6\n\nnonsense").unwrap_err(), ParseError::MalformedHeader);
}

#[test]
fn header_without_comma_below_one_thousand() {
    let text = format!("Wordle 123 4/6\n\n{GREEN_ROW}\n{GREEN_ROW}");
    let p = Puzzle::new(&text).unwrap();
    assert_eq!(p.day_offset, 123);
    assert_eq!(p.attempts, 4);
    assert!(!p.hard_mode);
}

#[test]
fn tiles_by_token() {
    assert_eq!(Tile::parse("black_large_square"), Some(Tile::Black));
    assert_eq!(Tile::parse("large_yellow_square"), Some(Tile::Yellow));
    assert_eq!(Tile::parse("large_green_square"), Some(Tile::Green));
    assert_eq!(Tile::parse("\u{2B1B}"), Some(Tile::Black));
    assert_eq!(Tile::parse("\u{1F7E8}"), Some(Tile::Yellow));
    assert_eq!(Tile::parse("\u{1F7E9}"), Some(Tile::Green));
    assert_eq!(Tile::parse("Large_green_square"), None);
    assert_eq!(Tile::parse(""), None);
    assert_eq!(Tile::Yellow.encode(), "\u{1F7E8}");
    assert_eq!(Tile::Black.encode(), "\u{2B1B}");
}

#[test]
fn board_from_rows() {
    let b = PuzzleBoard::from(vec![vec![Tile::Black, Tile::Green], vec![Tile::Green; 5]]);
    assert_eq!(b.to_text(), format!("\u{2B1B}\u{1F7E9}\n{GREEN_ROW}"));
}

#[test]
fn single_alias_row_between_blank_lines() {
    let green = ":large_green_square::large_green_square::large_green_square::large_green_square::large_green_square:";
    let b = PuzzleBoard::parse(&format!("\n\n{green}\n\n")).unwrap();
    assert_eq!(b.board, vec![vec![Tile::Green; 5]]);
    let mixed = ":large_green_square::large_green_square::large_yellow_square::large_green_square::large_green_square:";
    assert_eq!(
        PuzzleBoard::parse(&format!("\n{mixed}\n")).unwrap_err(),
        ParseError::MalformedBoard { defect: BoardDefect::SingleRowNotGreen }
    );
}

#[test]
fn rows_after_six_are_ignored_across_blank_lines() {
    let alias = ":black_large_square::large_yellow_square:";
    let text = format!("{alias}\n\n{GREEN_ROW}\n{alias}\n\n\n{alias}\n{alias}\n{alias}\n\n:bogus::bogus:\n{GREEN_ROW}{GREEN_ROW}");
    let b = PuzzleBoard::parse(&text).unwrap();
    assert_eq!(b.board.len(), 6);
    assert_eq!(b.board[0], vec![Tile::Black, Tile::Yellow]);
    assert_eq!(b.board[1], vec![Tile::Green; 5]);
}
