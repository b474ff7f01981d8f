use minesweeper::autoplay::{play_move, play_out};
use minesweeper::board::{Board, GameOutcome};
use minesweeper::cell::{Cell, CellState};
use minesweeper::solver::{deductions_defined, neighbors_of, next_move, Move};

fn hidden(mine: bool) -> Cell {
    Cell { is_mine: mine, state: CellState::Hidden, adjacent_mines: 0 }
}

fn shown(n: u8) -> Cell {
    Cell { is_mine: false, state: CellState::Revealed, adjacent_mines: n }
}

fn flagged_mine() -> Cell {
    Cell { is_mine: true, state: CellState::Flagged, adjacent_mines: 0 }
}

/// A board in play with the given cells (row-major), counters filled in.
fn position(w: usize, h: usize, cells: Vec<Cell>) -> Board {
    let mine_count = cells.iter().filter(|c| c.is_mine).count();
    let flags_placed = cells.iter().filter(|c| c.state == CellState::Flagged).count();
    let cells_revealed = cells.iter().filter(|c| c.state == CellState::Revealed && !c.is_mine).count();
    Board {
        width: w,
        height: h,
        mine_count,
        cells,
        outcome: GameOutcome::Playing,
        cursor_x: 0,
        cursor_y: 0,
        flags_placed,
        cells_revealed,
        mines_placed: true,
    }
}

/// A satisfied number, its flag, and four hidden cells holding one mine.
fn undecided() -> Board {
    position(
        6,
        1,
        vec![shown(1), flagged_mine(), hidden(false), hidden(true), hidden(false), hidden(false)],
    )
}

#[test]
fn a_number_with_as_many_hidden_neighbours_flags_one() {
    let b = position(2, 1, vec![shown(1), hidden(true)]);
    assert_eq!(next_move(&b), Some(Move::Flag(1, 0)));
}

#[test]
fn a_satisfied_number_uncovers_its_hidden_neighbours() {
    let b = position(3, 1, vec![flagged_mine(), shown(1), hidden(false)]);
    assert_eq!(next_move(&b), Some(Move::Reveal(2, 0)));
}

#[test]
fn single_cell_hints_come_in_row_major_order() {
    // (1,0) is the first number met; its only hidden neighbour is (0,0).
    let b = position(
        2,
        2,
        vec![hidden(true), shown(1), shown(1), shown(1)],
    );
    assert_eq!(next_move(&b), Some(Move::Flag(0, 0)));
}

#[test]
fn equal_constraints_clear_the_difference() {
    // Mine at (0,0); row 1 uncovered: 1 1 0.
    let b = position(
        3,
        2,
        vec![hidden(true), hidden(false), hidden(false), shown(1), shown(1), shown(0)],
    );
    assert_eq!(next_move(&b), Some(Move::Reveal(2, 0)));
}

#[test]
fn constraint_difference_can_be_all_mines() {
    // Mines at (0,0) and (2,0); row 1 uncovered: 1 2 1.
    let b = position(
        3,
        2,
        vec![hidden(true), hidden(false), hidden(true), shown(1), shown(2), shown(1)],
    );
    assert_eq!(next_move(&b), Some(Move::Flag(2, 0)));
}

#[test]
fn the_opening_move_uncovers_a_corner() {
    let b = Board::new(4, 3, 2);
    assert_eq!(next_move(&b), Some(Move::Reveal(0, 0)));
    let mut c = Board::new(5, 4, 3);
    c.cells[0].state = CellState::Flagged;
    c.flags_placed = 1;
    assert_eq!(next_move(&c), Some(Move::Reveal(4, 0)));
}

#[test]
fn without_a_deduction_the_solver_uncovers_a_least_likely_cell() {
    // One mine left among four hidden cells no number touches: all alike,
    // so the first of them.
    assert_eq!(next_move(&undecided()), Some(Move::Reveal(2, 0)));
}

#[test]
fn the_guess_takes_the_cell_least_likely_to_hold_a_mine() {
    // The 1 puts one mine on (0,0) or (2,0), each a half; the other mine is
    // one of the three free cells, each a third: uncover the first of them.
    let b = position(
        6,
        1,
        vec![hidden(true), shown(1), hidden(false), hidden(true), hidden(false), hidden(false)],
    );
    assert_eq!(next_move(&b), Some(Move::Reveal(3, 0)));
}

#[test]
fn among_equally_likely_cells_the_guess_prefers_the_frontier() {
    // Two mines: one by the 1 on (0,0) or (2,0), one on (3,0) or (4,0); every
    // hidden cell is a half, and (0,0) touches the number.
    let b = position(5, 1, vec![hidden(true), shown(1), hidden(false), hidden(true), hidden(false)]);
    assert_eq!(next_move(&b), Some(Move::Reveal(0, 0)));
}

#[test]
fn guesses_only_hidden_cells() {
    // Only (2,0) is hidden; the number says nothing about it alone.
    let b = position(3, 1, vec![shown(0), shown(0), hidden(false)]);
    assert_eq!(next_move(&b), Some(Move::Reveal(2, 0)));
}

#[test]
fn no_move_on_a_finished_game_or_without_hidden_cells() {
    let mut b = position(2, 1, vec![shown(1), hidden(true)]);
    b.outcome = GameOutcome::Lost;
    assert_eq!(next_move(&b), None);
    let c = position(2, 1, vec![shown(1), flagged_mine()]);
    assert_eq!(next_move(&c), None);
}

#[test]
fn over_flagged_numbers_are_detected() {
    let wrong_flag = Cell { is_mine: false, state: CellState::Flagged, adjacent_mines: 0 };
    let over = position(3, 1, vec![wrong_flag, shown(1), wrong_flag]);
    assert!(!deductions_defined(&over));
    let fine = position(3, 1, vec![flagged_mine(), shown(1), hidden(false)]);
    assert!(deductions_defined(&fine));
}

#[test]
fn play_move_applies_flags_and_reveals() {
    let mut b = position(3, 1, vec![flagged_mine(), shown(1), hidden(false)]);
    play_move(&mut b, Move::Reveal(2, 0));
    assert_eq!(b.cells[2].state, CellState::Revealed);
    assert_eq!(b.outcome, GameOutcome::Won);
    let mut c = position(2, 1, vec![shown(1), hidden(true)]);
    play_move(&mut c, Move::Flag(1, 0));
    assert_eq!(c.cells[1].state, CellState::Flagged);
    assert_eq!(c.flags_placed, 1);
}

#[test]
fn the_automatic_player_finishes_games_and_flags_only_mines() {
    for _ in 0..30 {
        let mut b = Board::new(9, 9, 10);
        play_out(&mut b);
        assert!(b.outcome != GameOutcome::Playing || b.cells.iter().all(|c| c.state != CellState::Hidden));
        assert!(b.cells.iter().all(|c| c.state != CellState::Flagged || c.is_mine));
    }
}

#[test]
fn the_automatic_player_plays_expert_games() {
    for _ in 0..5 {
        let mut b = Board::new(30, 16, 99);
        play_out(&mut b);
        assert_ne!(b.outcome, GameOutcome::Playing);
        if b.outcome == GameOutcome::Won {
            assert_eq!(b.cells_revealed, 30 * 16 - 99);
        }
    }
}

#[test]
fn hand_built_number_flags_its_only_hidden_neighbour() {
    let mut b = Board::new(2, 1, 1);
    b.cells[1].is_mine = true;
    b.cells[0].state = CellState::Revealed;
    b.cells[0].adjacent_mines = 1;
    b.cells_revealed = 1;
    assert_eq!(next_move(&b), Some(Move::Flag(1, 0)));
}

#[test]
fn hand_built_satisfied_number_uncovers_its_neighbour() {
    let mut b = Board::new(3, 1, 1);
    b.cells[0].is_mine = true;
    b.cells[0].state = CellState::Flagged;
    b.flags_placed = 1;
    b.cells[1].state = CellState::Revealed;
    b.cells[1].adjacent_mines = 1;
    b.cells_revealed = 1;
    assert_eq!(next_move(&b), Some(Move::Reveal(2, 0)));
}

#[test]
fn hand_built_pair_of_constraints_clears_the_difference() {
    let mut b = Board::new(3, 2, 1);
    b.cells[4].is_mine = true;
    for x in 0..3 {
        b.cells[x].state = CellState::Revealed;
        b.cells[x].adjacent_mines = 1;
    }
    b.cells_revealed = 3;
    assert_eq!(next_move(&b), Some(Move::Reveal(2, 1)));
}

#[test]
fn global_count_flags_when_every_hidden_cell_is_a_mine() {
    let b = position(5, 1, vec![shown(0), shown(1), flagged_mine(), hidden(true), hidden(true)]);
    assert_eq!(b.mine_count, 3);
    assert_eq!(next_move(&b), Some(Move::Flag(3, 0)));
}

#[test]
fn global_count_uncovers_when_no_mine_is_left() {
    let b = position(4, 1, vec![flagged_mine(), shown(1), shown(0), hidden(false)]);
    assert_eq!(next_move(&b), Some(Move::Reveal(3, 0)));
}

#[test]
fn moves_on_a_finished_game_change_nothing_whatever_the_cell() {
    let mut b = position(2, 1, vec![shown(1), hidden(true)]);
    b.outcome = GameOutcome::Won;
    b.reveal_cell(7, 9);
    b.toggle_flag(7, 9);
    assert_eq!(b.cells, vec![shown(1), hidden(true)]);
    assert_eq!(b.outcome, GameOutcome::Won);
    assert_eq!(b.flags_placed, 0);
}

#[test]
fn the_solver_sees_the_board_neighbours() {
    let b = Board::new(3, 3, 0);
    assert_eq!(neighbors_of(&b, 0, 0), vec![(1, 0), (0, 1), (1, 1)]);
    assert_eq!(
        neighbors_of(&b, 1, 1),
        vec![(0, 0), (1, 0), (2, 0), (0, 1), (2, 1), (0, 2), (1, 2), (2, 2)]
    );
    for y in 0..3 {
        for x in 0..3 {
            assert_eq!(neighbors_of(&b, x, y), b.neighbors(x, y));
        }
    }
}

#[test]
fn overlapping_numbers_settle_a_cell_no_pair_settles() {
    // Row 0: a b c d, hidden (mines at a and b). Row 1: flag, 3, 2, flag.
    // The 3 needs two of {a, b, c}, the 2 one of {b, c, d}: so a is a mine
    // and d is safe, though neither set holds the other.
    let row1 = vec![flagged_mine(), shown(3), shown(2), flagged_mine()];
    let mut cells = vec![hidden(true), hidden(true), hidden(false), hidden(false)];
    cells.extend(row1.iter().copied());
    let b = position(4, 2, cells);
    assert_eq!(next_move(&b), Some(Move::Flag(0, 0)));
    let mut cells = vec![flagged_mine(), hidden(true), hidden(false), hidden(false)];
    cells.extend(row1.iter().copied());
    let c = position(4, 2, cells);
    assert_eq!(next_move(&c), Some(Move::Reveal(3, 0)));
}

#[test]
fn the_mine_count_settles_the_cells_no_number_touches() {
    // The 1 has one mine among (0,0) and (2,0), which with the flag makes the
    // board's two: so (4,0) and (5,0), which no number touches, are safe.
    let b = position(
        6,
        1,
        vec![hidden(true), shown(1), hidden(false), flagged_mine(), hidden(false), hidden(false)],
    );
    assert_eq!(b.mine_count, 2);
    assert_eq!(next_move(&b), Some(Move::Reveal(4, 0)));
}
