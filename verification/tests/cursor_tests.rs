use minesweeper_engine::cursor::{Cursor, CursorActions, Moves};

fn fresh_cursor() -> Cursor {
    Cursor {
        currently_moving: Moves::Stay,
        position: [0, 0],
        action: CursorActions::Move,
    }
}

fn tokens(line: &str) -> Vec<String> {
    line.split_whitespace().map(String::from).collect()
}

#[test]
fn up_saturates_at_top_row() {
    let mut c = fresh_cursor();
    c.position = [0, 3];
    c.currently_moving = Moves::Up;
    c.move_cursor(100, 8);
    assert_eq!(c.position, [0, 3]);
}

#[test]
fn right_saturates_at_last_column() {
    let mut c = fresh_cursor();
    c.position = [2, 1];
    c.currently_moving = Moves::Right;
    c.move_cursor(8, 8);
    assert_eq!(c.position, [2, 7]);
    let mut c2 = fresh_cursor();
    c2.position = [2, 1];
    c2.currently_moving = Moves::Right;
    c2.move_cursor(1000, 8);
    assert_eq!(c2.position, [2, 7]);
}

#[test]
fn down_and_left_move_exactly() {
    let mut c = fresh_cursor();
    c.position = [1, 5];
    c.currently_moving = Moves::Down;
    c.move_cursor(3, 8);
    assert_eq!(c.position, [4, 5]);
    c.currently_moving = Moves::Left;
    c.move_cursor(2, 8);
    assert_eq!(c.position, [4, 3]);
}

#[test]
fn left_saturates_at_first_column() {
    let mut c = fresh_cursor();
    c.position = [4, 1];
    c.currently_moving = Moves::Left;
    c.move_cursor(9, 8);
    assert_eq!(c.position, [4, 0]);
}

#[test]
fn match_cursor_input_selects_modes() {
    let mut c = fresh_cursor();
    c.match_cursor_input("u4");
    assert!(c.currently_moving == Moves::Up);
    c.match_cursor_input("D2");
    assert!(c.currently_moving == Moves::Down);
    c.match_cursor_input("l1");
    assert!(c.currently_moving == Moves::Left);
    c.match_cursor_input("R7");
    assert!(c.currently_moving == Moves::Right);
    assert!(c.action == CursorActions::Move);
    c.match_cursor_input("y");
    assert!(c.action == CursorActions::Select);
    c.match_cursor_input("!");
    assert!(c.action == CursorActions::Mark);
    c.match_cursor_input("q");
    assert!(c.action == CursorActions::FailedInput);
}

#[test]
fn reset_keeps_position() {
    let mut c = fresh_cursor();
    c.position = [3, 4];
    c.currently_moving = Moves::Down;
    c.action = CursorActions::Select;
    c.reset_cursor_non_position();
    assert_eq!(c.position, [3, 4]);
    assert!(c.currently_moving == Moves::Stay);
    assert!(c.action == CursorActions::Move);
}

#[test]
fn parse_magnitude_accepts_decimal() {
    assert_eq!(minesweeper_engine::cursor::parse_magnitude("123"), Some(123));
    assert_eq!(minesweeper_engine::cursor::parse_magnitude("0"), Some(0));
    assert_eq!(minesweeper_engine::cursor::parse_magnitude("+7"), Some(7));
}

#[test]
fn parse_magnitude_rejects_garbage() {
    assert_eq!(minesweeper_engine::cursor::parse_magnitude(""), None);
    assert_eq!(minesweeper_engine::cursor::parse_magnitude("+"), None);
    assert_eq!(minesweeper_engine::cursor::parse_magnitude("12a"), None);
    assert_eq!(minesweeper_engine::cursor::parse_magnitude("-3"), None);
    assert_eq!(
        minesweeper_engine::cursor::parse_magnitude("99999999999999999999999999"),
        None
    );
}

#[test]
fn process_tokens_moves_in_sequence() {
    let mut c = fresh_cursor();
    c.process_tokens(&tokens("d3 r2"), 10);
    assert_eq!(c.position, [3, 2]);
    assert!(c.action == CursorActions::Move);
}

#[test]
fn process_tokens_select_takes_effect_and_halts_motion() {
    let mut c = fresh_cursor();
    c.process_tokens(&tokens("d3 y r2"), 10);
    assert_eq!(c.position, [3, 0]);
    assert!(c.action == CursorActions::Select);
}

#[test]
fn process_tokens_bad_token_fails_and_stops() {
    let mut c = fresh_cursor();
    c.process_tokens(&tokens("d1 x u1"), 10);
    assert_eq!(c.position, [1, 0]);
    assert!(c.action == CursorActions::FailedInput);
}

#[test]
fn process_tokens_bad_magnitude_fails() {
    let mut c = fresh_cursor();
    c.process_tokens(&tokens("u"), 10);
    assert!(c.action == CursorActions::FailedInput);
    let mut c2 = fresh_cursor();
    c2.process_tokens(&tokens("d2x"), 10);
    assert!(c2.action == CursorActions::FailedInput);
}

#[test]
fn process_tokens_mark_action() {
    let mut c = fresh_cursor();
    c.process_tokens(&tokens("r4 !"), 10);
    assert_eq!(c.position, [0, 4]);
    assert!(c.action == CursorActions::Mark);
}
