use minesweeper::board::{Board, GameOutcome};
use minesweeper::cell::{Cell, CellState};

fn at(b: &Board, x: usize, y: usize) -> Cell {
    *b.cell(x, y)
}

fn mines_on(b: &Board) -> usize {
    b.cells.iter().filter(|c| c.is_mine).count()
}

/// A board with mines at the given indices, laid without randomness.
fn board_with_mines(w: usize, h: usize, mines: &[usize]) -> Board {
    let mut b = Board::new(w, h, mines.len());
    b.lay_mines(&mines.to_vec());
    b
}

#[test]
fn new_board_is_hidden_and_centred() {
    let b = Board::new(9, 9, 10);
    assert_eq!(b.width, 9);
    assert_eq!(b.height, 9);
    assert_eq!(b.mine_count, 10);
    assert_eq!(b.cells.len(), 81);
    assert_eq!(b.cursor_x, 4);
    assert_eq!(b.cursor_y, 4);
    assert_eq!(b.flags_placed, 0);
    assert_eq!(b.cells_revealed, 0);
    assert_eq!(b.outcome, GameOutcome::Playing);
    assert!(!b.mines_placed);
    assert!(b.cells.iter().all(|c| *c == Cell::new()));
    assert_eq!(Cell::new(), Cell { is_mine: false, state: CellState::Hidden, adjacent_mines: 0 });
}

#[test]
fn first_reveal_is_safe_and_opens_its_neighbours() {
    for _ in 0..50 {
        let mut b = Board::new(9, 9, 10);
        b.reveal_cell(4, 4);
        assert!(b.mines_placed);
        assert_ne!(b.outcome, GameOutcome::Lost);
        assert_eq!(mines_on(&b), 10);
        for y in 3..=5 {
            for x in 3..=5 {
                assert!(!at(&b, x, y).is_mine);
                assert_eq!(at(&b, x, y).state, CellState::Revealed);
            }
        }
        assert_eq!(at(&b, 4, 4).adjacent_mines, 0);
        assert!(b.cells_revealed >= 9);
    }
}

#[test]
fn first_reveal_in_a_corner_is_safe() {
    for _ in 0..50 {
        let mut b = Board::new(5, 5, 20);
        b.reveal_cell(0, 0);
        assert_ne!(b.outcome, GameOutcome::Lost);
        assert!(!at(&b, 0, 0).is_mine && !at(&b, 1, 0).is_mine);
        assert!(!at(&b, 0, 1).is_mine && !at(&b, 1, 1).is_mine);
        // 25 cells, 4 kept free: every other cell holds a mine.
        assert_eq!(mines_on(&b), 20);
    }
}

#[test]
fn too_many_mines_fill_every_candidate() {
    let mut b = Board::new(4, 4, 16);
    b.reveal_cell(0, 0);
    assert_eq!(mines_on(&b), 12);
    assert_eq!(b.outcome, GameOutcome::Playing);
    assert_eq!(b.cells_revealed, 4);
}

#[test]
fn adjacent_counts_are_computed() {
    // 3 x 3 with mines at (0, 0) and (2, 2).
    let b = board_with_mines(3, 3, &[0, 8]);
    assert!(b.mines_placed);
    assert_eq!(at(&b, 1, 0).adjacent_mines, 1);
    assert_eq!(at(&b, 1, 1).adjacent_mines, 2);
    assert_eq!(at(&b, 2, 0).adjacent_mines, 0);
    assert_eq!(at(&b, 0, 2).adjacent_mines, 0);
    assert_eq!(at(&b, 2, 1).adjacent_mines, 1);
    assert!(at(&b, 0, 0).is_mine && at(&b, 2, 2).is_mine);
    assert_eq!(mines_on(&b), 2);
}

#[test]
fn lay_mines_takes_only_mine_count() {
    let mut b = Board::new(3, 3, 2);
    b.lay_mines(&vec![4, 0, 8]);
    assert!(at(&b, 1, 1).is_mine && at(&b, 0, 0).is_mine);
    assert!(!at(&b, 2, 2).is_mine);
    assert_eq!(mines_on(&b), 2);
}

#[test]
fn flood_fill_uncovers_the_empty_region() {
    // 5 x 5, one mine in the bottom-right corner.
    let mut b = board_with_mines(5, 5, &[24]);
    b.reveal_cell(0, 0);
    assert_eq!(b.cells_revealed, 24);
    assert_eq!(b.outcome, GameOutcome::Won);
    assert_eq!(at(&b, 4, 4).state, CellState::Hidden);
    assert_eq!(at(&b, 3, 3).adjacent_mines, 1);
}

#[test]
fn flood_fill_stops_at_numbers() {
    // 5 x 1: mine at x = 2; uncovering x = 0 opens 0 and 1 only.
    let mut b = board_with_mines(5, 1, &[2]);
    b.reveal_cell(0, 0);
    assert_eq!(at(&b, 0, 0).state, CellState::Revealed);
    assert_eq!(at(&b, 1, 0).state, CellState::Revealed);
    assert_eq!(at(&b, 3, 0).state, CellState::Hidden);
    assert_eq!(at(&b, 4, 0).state, CellState::Hidden);
    assert_eq!(b.cells_revealed, 2);
    assert_eq!(b.outcome, GameOutcome::Playing);
    // A number reveals only itself.
    b.reveal_cell(3, 0);
    assert_eq!(at(&b, 4, 0).state, CellState::Hidden);
    assert_eq!(b.cells_revealed, 3);
    b.reveal_cell(4, 0);
    assert_eq!(b.outcome, GameOutcome::Won);
}

#[test]
fn flood_fill_skips_flagged_cells() {
    let mut b = board_with_mines(5, 1, &[4]);
    b.toggle_flag(1, 0);
    b.reveal_cell(0, 0);
    assert_eq!(at(&b, 1, 0).state, CellState::Flagged);
    assert_eq!(at(&b, 2, 0).state, CellState::Hidden);
    assert_eq!(b.cells_revealed, 1);
}

#[test]
fn hitting_a_mine_loses_and_shows_every_mine() {
    let mut b = board_with_mines(4, 4, &[0, 5, 15]);
    b.toggle_flag(3, 3);
    b.reveal_cell(1, 1);
    assert_eq!(b.outcome, GameOutcome::Lost);
    for i in [0usize, 5, 15] {
        assert_eq!(b.cells[i].state, CellState::Revealed);
    }
    assert_eq!(b.cells_revealed, 0);
    assert_eq!(b.cells.iter().filter(|c| c.state == CellState::Revealed).count(), 3);
}

#[test]
fn a_finished_game_does_not_change() {
    let mut b = board_with_mines(3, 1, &[0]);
    b.reveal_cell(0, 0);
    assert_eq!(b.outcome, GameOutcome::Lost);
    let cells = b.cells.clone();
    b.reveal_cell(2, 0);
    b.toggle_flag(1, 0);
    assert_eq!(b.cells, cells);
    assert_eq!(b.flags_placed, 0);
    assert_eq!(b.outcome, GameOutcome::Lost);

    let mut won = board_with_mines(2, 1, &[0]);
    won.reveal_cell(1, 0);
    assert_eq!(won.outcome, GameOutcome::Won);
    won.toggle_flag(0, 0);
    won.reveal_cell(0, 0);
    assert_eq!(won.outcome, GameOutcome::Won);
    assert_eq!(won.cells[0].state, CellState::Hidden);
}

#[test]
fn revealing_an_uncovered_or_flagged_cell_does_nothing() {
    let mut b = board_with_mines(5, 1, &[2]);
    b.reveal_cell(4, 0);
    let revealed = b.cells_revealed;
    b.reveal_cell(4, 0);
    assert_eq!(b.cells_revealed, revealed);
    b.toggle_flag(2, 0);
    b.reveal_cell(2, 0);
    assert_eq!(b.outcome, GameOutcome::Playing);
    assert_eq!(at(&b, 2, 0).state, CellState::Flagged);
}

#[test]
fn toggling_a_flag_twice_restores_the_cell() {
    let mut b = Board::new(3, 3, 1);
    b.toggle_flag(1, 2);
    assert_eq!(at(&b, 1, 2).state, CellState::Flagged);
    assert_eq!(b.flags_placed, 1);
    b.toggle_flag(0, 0);
    assert_eq!(b.flags_placed, 2);
    b.toggle_flag(1, 2);
    assert_eq!(at(&b, 1, 2).state, CellState::Hidden);
    assert_eq!(b.flags_placed, 1);
}

#[test]
fn flags_cannot_go_on_uncovered_cells() {
    let mut b = board_with_mines(3, 1, &[2]);
    b.reveal_cell(0, 0);
    b.toggle_flag(0, 0);
    assert_eq!(at(&b, 0, 0).state, CellState::Revealed);
    assert_eq!(b.flags_placed, 0);
}

#[test]
fn the_cursor_stays_on_the_board() {
    let mut b = Board::new(3, 2, 1);
    assert_eq!((b.cursor_x, b.cursor_y), (1, 1));
    b.move_cursor(1, 0);
    assert_eq!((b.cursor_x, b.cursor_y), (2, 1));
    b.move_cursor(1, 0);
    assert_eq!((b.cursor_x, b.cursor_y), (2, 1));
    b.move_cursor(0, 1);
    assert_eq!((b.cursor_x, b.cursor_y), (2, 1));
    b.move_cursor(-5, -1);
    assert_eq!((b.cursor_x, b.cursor_y), (2, 0));
    b.move_cursor(-2, -1);
    assert_eq!((b.cursor_x, b.cursor_y), (0, 0));
}

#[test]
fn mine_layouts_vary_between_games() {
    let layouts: Vec<Vec<bool>> = (0..20)
        .map(|_| {
            let mut b = Board::new(9, 9, 10);
            b.reveal_cell(0, 0);
            b.cells.iter().map(|c| c.is_mine).collect()
        })
        .collect();
    assert!(layouts.iter().any(|l| *l != layouts[0]));
}

#[test]
fn the_same_layout_uncovers_the_same_region() {
    let mut a = board_with_mines(6, 6, &[7, 20, 33]);
    let mut b = board_with_mines(6, 6, &[7, 20, 33]);
    a.reveal_cell(5, 0);
    b.reveal_cell(5, 0);
    assert_eq!(a.cells, b.cells);
    assert_eq!(a.cells_revealed, b.cells_revealed);
}

#[test]
fn a_won_board_has_every_safe_cell_uncovered() {
    let mut b = board_with_mines(4, 4, &[5, 10]);
    for y in 0..4 {
        for x in 0..4 {
            if !at(&b, x, y).is_mine {
                b.reveal_cell(x, y);
            }
        }
    }
    assert_eq!(b.outcome, GameOutcome::Won);
    assert_eq!(b.cells_revealed + b.mine_count, 16);
    assert!(b.cells.iter().all(|c| c.is_mine || c.state == CellState::Revealed));
}

#[test]
fn flag_counter_tracks_flags() {
    let mut b = Board::new(4, 4, 3);
    for i in 0..4 {
        b.toggle_flag(i, i);
    }
    assert_eq!(b.flags_placed, 4);
    assert_eq!(b.cells.iter().filter(|c| c.state == CellState::Flagged).count(), 4);
    b.toggle_flag(2, 2);
    assert_eq!(b.flags_placed, 3);
}
