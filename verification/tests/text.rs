use dragon_chess::board::ChessBoard;
use dragon_chess::cell_set::CellSet;
use dragon_chess::state::GameState;
use dragon_chess::text::from_text;
use dragon_chess::text::read_lines;
use dragon_chess::text::render_board;
use dragon_chess::text::render_sheep;
use dragon_chess::text::BoardError;

fn cells(list: &[(isize, isize)]) -> CellSet {
    CellSet::from_vec(&list.to_vec())
}

fn rows(list: &[&str]) -> Vec<String> {
    list.iter().map(|row| row.to_string()).collect()
}

#[test]
fn lines_end_at_line_feeds() {
    assert_eq!(read_lines("ab\ncd\n"), rows(&["ab", "cd"]));
    assert_eq!(read_lines("ab\ncd"), rows(&["ab", "cd"]));
    assert_eq!(read_lines("one"), rows(&["one"]));
}

#[test]
fn empty_lines_are_left_out() {
    assert_eq!(read_lines(""), rows(&[]));
    assert_eq!(read_lines("\n"), rows(&[]));
    assert_eq!(read_lines("\n\n\n"), rows(&[]));
    assert_eq!(read_lines("\nab\n\n\ncd\n\n"), rows(&["ab", "cd"]));
    assert_eq!(read_lines("\r\n\r\nx\r\n"), rows(&["x"]));
}

#[test]
fn a_carriage_return_before_the_line_feed_is_dropped() {
    assert_eq!(read_lines("ab\r\ncd\r\n"), rows(&["ab", "cd"]));
    assert_eq!(read_lines("ab\r\r\ncd"), rows(&["ab\r", "cd"]));
    assert_eq!(read_lines("\r\r\n"), rows(&["\r"]));
}

#[test]
fn a_carriage_return_elsewhere_is_kept() {
    assert_eq!(read_lines("a\rb\n"), rows(&["a\rb"]));
    assert_eq!(read_lines("ab\r"), rows(&["ab\r"]));
    assert_eq!(read_lines("\r"), rows(&["\r"]));
    assert_eq!(read_lines("x\n\r"), rows(&["x", "\r"]));
}

#[test]
fn lines_are_those_of_std() {
    let texts =
        ["", "a", "a\n", "\na", "a\r\nb", "a\n\nb\r", "\r\n\r", "S.D\n#..\r\n\n...", "é\n✓\r\n"];
    for text in texts {
        let expected: Vec<String> =
            text.lines().filter(|line| !line.is_empty()).map(|line| line.to_string()).collect();
        assert_eq!(read_lines(text), expected);
    }
}

#[test]
fn a_drawing_is_read() {
    let (board, state) = from_text(&rows(&["S.#.", "..S.", ".D.#"])).unwrap();
    assert_eq!(board, ChessBoard::new(4, 3, cells(&[(0, 2), (2, 3)])).unwrap());
    assert_eq!(state, GameState::new(cells(&[(0, 0), (1, 2)]), (2, 1)));
}

#[test]
fn the_last_dragon_of_a_drawing_counts() {
    let (board, state) = from_text(&rows(&["D.S", "..D", "S.."])).unwrap();
    assert_eq!(board, ChessBoard::new(3, 3, CellSet::new()).unwrap());
    assert_eq!(state, GameState::new(cells(&[(0, 2), (2, 0)]), (1, 2)));
}

#[test]
fn a_ragged_drawing_is_refused() {
    assert_eq!(from_text(&rows(&["S..", "..", "D.."])).err(), Some(BoardError::Ragged { row: 1 }));
    assert_eq!(
        from_text(&rows(&["SD", "..", "...", "."])).err(),
        Some(BoardError::Ragged { row: 2 })
    );
    assert_eq!(from_text(&rows(&["", "SD"])).err(), Some(BoardError::Ragged { row: 1 }));
}

#[test]
fn an_unknown_symbol_is_refused() {
    assert_eq!(
        from_text(&rows(&["S..", ".x.", "D.?"])).err(),
        Some(BoardError::UnknownSymbol { row: 1, col: 1 })
    );
    assert_eq!(
        from_text(&rows(&["SD s"])).err(),
        Some(BoardError::UnknownSymbol { row: 0, col: 2 })
    );
}

#[test]
fn the_first_fault_is_the_one_reported() {
    assert_eq!(
        from_text(&rows(&["..x", "..", "y.."])).err(),
        Some(BoardError::UnknownSymbol { row: 0, col: 2 })
    );
    assert_eq!(
        from_text(&rows(&["...", "x.", "y.."])).err(),
        Some(BoardError::Ragged { row: 1 })
    );
    assert_eq!(from_text(&rows(&["...", "..", "..."])).err(), Some(BoardError::Ragged { row: 1 }));
    assert_eq!(
        from_text(&rows(&["...", "..!"])).err(),
        Some(BoardError::UnknownSymbol { row: 1, col: 2 })
    );
}

#[test]
fn a_drawing_without_dragon_is_refused() {
    assert_eq!(from_text(&rows(&["S..", "..#"])).err(), Some(BoardError::MissingDragon));
    assert_eq!(from_text(&rows(&["...", "..."])).err(), Some(BoardError::MissingDragon));
    assert_eq!(from_text(&rows(&[])).err(), Some(BoardError::MissingDragon));
    assert_eq!(from_text(&rows(&["", ""])).err(), Some(BoardError::MissingDragon));
}

#[test]
fn a_drawing_without_sheep_is_refused() {
    assert_eq!(from_text(&rows(&["D..", "..#"])).err(), Some(BoardError::MissingSheep));
    assert_eq!(from_text(&rows(&["D"])).err(), Some(BoardError::MissingSheep));
}

#[test]
fn a_position_is_drawn() {
    let board = ChessBoard::new(4, 3, cells(&[(0, 2), (2, 3), (1, 2)])).unwrap();
    let state = GameState::new(cells(&[(0, 0), (1, 2)]), (2, 1));
    assert_eq!(render_board(&board, &state), rows(&["S.#.", "..S.", ".D.#"]));
    assert_eq!(render_sheep(&board, &state), rows(&["S...", "..S.", "...."]));
}

#[test]
fn the_dragon_is_drawn_over_what_is_on_its_cell() {
    let board = ChessBoard::new(2, 2, cells(&[(0, 0), (1, 1)])).unwrap();
    let state = GameState::new(cells(&[(0, 0), (0, 1)]), (0, 0));
    assert_eq!(render_board(&board, &state), rows(&["DS", ".#"]));
    assert_eq!(render_sheep(&board, &state), rows(&["SS", ".."]));
}

#[test]
fn what_is_off_the_board_is_not_drawn() {
    let board = ChessBoard::new(2, 1, CellSet::new()).unwrap();
    let state = GameState::new(cells(&[(1, 0), (0, 2), (-1, -1)]), (5, 5));
    assert_eq!(render_board(&board, &state), rows(&[".."]));
    assert_eq!(render_sheep(&board, &state), rows(&[".."]));
    let nothing = ChessBoard::new(0, 0, CellSet::new()).unwrap();
    assert_eq!(render_board(&nothing, &state), rows(&[]));
    let no_columns = ChessBoard::new(0, 2, CellSet::new()).unwrap();
    assert_eq!(render_board(&no_columns, &state), rows(&["", ""]));
}

#[test]
fn a_drawing_read_and_drawn_again_is_the_same() {
    let drawing = rows(&["S..#.", ".#S..", "....S", "..D.."]);
    let (board, state) = from_text(&drawing).unwrap();
    assert_eq!(render_board(&board, &state), drawing);
    let text = "S..#.\n.#S..\r\n\n....S\n..D..\n";
    let (board, state) = from_text(&read_lines(text)).unwrap();
    assert_eq!(render_board(&board, &state), drawing);
}
