use minesweeper::board::GameOutcome;
use minesweeper::cell::{Cell, CellState};
use minesweeper::input::{direction_delta, key_action, menu_step, Action, Direction, Key, MenuStep};
use minesweeper::render::{cell_glyph, centered, cursor_step, encode_move, outcome_code, state_code, Glyph};
use minesweeper::settings::{
    bg_color, menu_option, number_color, number_colors, preset, presets, CELL_WIDTH, PRESET_COUNT,
    SYMBOL_FLAG, SYMBOL_HIDDEN, SYMBOL_MINE, ZEN_END_COUNTDOWN,
};
use minesweeper::solver::Move;

#[test]
fn keys_map_to_actions() {
    for k in [Key::Up, Key::Char('w'), Key::Char('k')] {
        assert_eq!(key_action(k), Some(Action::MoveCursor(Direction::Up)));
    }
    for k in [Key::Down, Key::Char('s'), Key::Char('j')] {
        assert_eq!(key_action(k), Some(Action::MoveCursor(Direction::Down)));
    }
    for k in [Key::Left, Key::Char('a'), Key::Char('h')] {
        assert_eq!(key_action(k), Some(Action::MoveCursor(Direction::Left)));
    }
    for k in [Key::Right, Key::Char('d'), Key::Char('l')] {
        assert_eq!(key_action(k), Some(Action::MoveCursor(Direction::Right)));
    }
    assert_eq!(key_action(Key::Enter), Some(Action::Reveal));
    assert_eq!(key_action(Key::Char(' ')), Some(Action::Reveal));
    assert_eq!(key_action(Key::Char('f')), Some(Action::ToggleFlag));
    assert_eq!(key_action(Key::Char('r')), Some(Action::Restart));
    assert_eq!(key_action(Key::Char('q')), Some(Action::Quit));
    assert_eq!(key_action(Key::Esc), Some(Action::Quit));
    assert_eq!(key_action(Key::Char('x')), None);
    assert_eq!(key_action(Key::Char('F')), None);
    assert_eq!(key_action(Key::Other), None);
}

#[test]
fn directions_step_the_cursor() {
    assert_eq!(direction_delta(Direction::Up), (0, -1));
    assert_eq!(direction_delta(Direction::Down), (0, 1));
    assert_eq!(direction_delta(Direction::Left), (-1, 0));
    assert_eq!(direction_delta(Direction::Right), (1, 0));
}

#[test]
fn the_menu_moves_within_its_entries() {
    let up = Action::MoveCursor(Direction::Up);
    let down = Action::MoveCursor(Direction::Down);
    assert_eq!(menu_step(0, up), MenuStep::Select(0));
    assert_eq!(menu_step(2, up), MenuStep::Select(1));
    assert_eq!(menu_step(0, down), MenuStep::Select(1));
    assert_eq!(menu_step(2, down), MenuStep::Select(2));
    assert_eq!(menu_step(1, Action::ToggleFlag), MenuStep::Select(1));
    assert_eq!(menu_step(1, Action::Restart), MenuStep::Select(1));
    assert_eq!(menu_step(0, Action::Reveal), MenuStep::Start(9, 9, 10));
    assert_eq!(menu_step(1, Action::Reveal), MenuStep::Start(16, 16, 40));
    assert_eq!(menu_step(2, Action::Reveal), MenuStep::Start(30, 16, 99));
    assert_eq!(menu_step(2, Action::Quit), MenuStep::Quit);
}

#[test]
fn presets_and_settings() {
    assert_eq!(PRESET_COUNT, 3);
    assert_eq!(preset(0), (9, 9, 10));
    assert_eq!(preset(1), (16, 16, 40));
    assert_eq!(preset(2), (30, 16, 99));
    assert_eq!(presets(), vec![9, 9, 10, 16, 16, 40, 30, 16, 99]);
    assert_eq!(menu_option(0), "Beginner     (9 x 9,   10 mines)");
    assert_eq!(menu_option(1), "Intermediate (16 x 16, 40 mines)");
    assert_eq!(menu_option(2), "Expert       (30 x 16, 99 mines)");
    assert_eq!(bg_color(), (30, 30, 30));
    assert_eq!(CELL_WIDTH, 3);
    assert_eq!(ZEN_END_COUNTDOWN, 3);
    assert_eq!([SYMBOL_HIDDEN, SYMBOL_FLAG, SYMBOL_MINE].iter().collect::<String>(), "\u{25A0}\u{2691}\u{2739}");
}

#[test]
fn numbers_have_the_classic_colours() {
    assert_eq!(number_color(1), Some((0, 1, 254)));
    assert_eq!(number_color(2), Some((0, 130, 2)));
    assert_eq!(number_color(3), Some((254, 0, 0)));
    assert_eq!(number_color(4), Some((1, 0, 130)));
    assert_eq!(number_color(5), Some((132, 0, 2)));
    assert_eq!(number_color(6), Some((0, 130, 130)));
    assert_eq!(number_color(7), Some((132, 1, 133)));
    assert_eq!(number_color(8), Some((115, 115, 115)));
    assert_eq!(number_color(0), None);
    assert_eq!(number_color(9), None);
    let flat = number_colors();
    assert_eq!(flat.len(), 24);
    assert_eq!(&flat[0..3], &[0, 1, 254]);
    assert_eq!(&flat[21..24], &[115, 115, 115]);
}

#[test]
fn cells_are_drawn_by_state() {
    let c = |is_mine, state, n| Cell { is_mine, state, adjacent_mines: n };
    assert_eq!(cell_glyph(&c(true, CellState::Hidden, 0)), Glyph::Hidden);
    assert_eq!(cell_glyph(&c(false, CellState::Flagged, 2)), Glyph::Flag);
    assert_eq!(cell_glyph(&c(true, CellState::Revealed, 0)), Glyph::Mine);
    assert_eq!(cell_glyph(&c(false, CellState::Revealed, 0)), Glyph::Blank);
    assert_eq!(cell_glyph(&c(false, CellState::Revealed, 3)), Glyph::Number(3));
}

#[test]
fn text_is_centred() {
    assert_eq!(centered(80, 10), 35);
    assert_eq!(centered(81, 10), 35);
    assert_eq!(centered(10, 10), 0);
    assert_eq!(centered(5, 10), 0);
}

#[test]
fn the_cursor_walks_columns_then_rows() {
    assert_eq!(cursor_step(0, 0, 2, 3), Some((1, 0)));
    assert_eq!(cursor_step(5, 0, 2, 3), Some((-1, 0)));
    assert_eq!(cursor_step(2, 0, 2, 3), Some((0, 1)));
    assert_eq!(cursor_step(2, 7, 2, 3), Some((0, -1)));
    assert_eq!(cursor_step(2, 3, 2, 3), None);
}

#[test]
fn codes_for_the_web_page() {
    assert_eq!(outcome_code(GameOutcome::Playing), 0);
    assert_eq!(outcome_code(GameOutcome::Won), 1);
    assert_eq!(outcome_code(GameOutcome::Lost), 2);
    assert_eq!(state_code(CellState::Hidden), 0);
    assert_eq!(state_code(CellState::Revealed), 1);
    assert_eq!(state_code(CellState::Flagged), 2);
    assert_eq!(encode_move(Some(Move::Reveal(3, 4))), vec![0, 3, 4]);
    assert_eq!(encode_move(Some(Move::Flag(1, 2))), vec![1, 1, 2]);
    assert_eq!(encode_move(None), Vec::<usize>::new());
}
