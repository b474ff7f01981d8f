use vstd::prelude::*;
use crate::board::{Board, GameOutcome, flag_toggled, hidden_count, with_state};
use crate::mines::{mines_placed_for, mines_laid_at, mine_candidates};
use crate::opening::{opening_stops, cell_opened, mines_shown, revealed_region, is_flood_region};
use crate::cell::{Cell, CellState};

use crate::count::{CellClass, count_cells, in_class, lemma_count_cells_same};
use crate::deduction::{flags_on_mines, move_sound, move_target, lemma_deduction_sound, lemma_answer_hidden};
use crate::grid::{Pos, index_of, pos_of, lemma_index_bounds, lemma_index_roundtrip};
use crate::solver::{Move, next_move, deduced_move, solver_move, opening_move, nothing_revealed, next_move_answer,
    deductions_defined, single_scan_defined, is_hidden_at, has_hidden_cell};

verus! {

/// Each cell of `t` is hidden only if it was in `s`.
pub open spec fn settles(s: Seq<Cell>, t: Seq<Cell>) -> bool {
    &&& s.len() == t.len()
    &&& forall|k: int|
        0 <= k < s.len() ==> (#[trigger] t[k]).state == CellState::Hidden ==> s[k].state == CellState::Hidden
}

proof fn lemma_hidden_count_drops(s: Seq<Cell>, t: Seq<Cell>, i: int)
    requires
        settles(s, t),
        0 <= i < s.len(),
        s[i].state == CellState::Hidden,
        t[i].state != CellState::Hidden,
    ensures
        hidden_count(t) < hidden_count(s),
    decreases s.len(),
{
    lemma_hidden_count_monotone(s.drop_last(), t.drop_last());
    if i < s.len() - 1 {
        lemma_hidden_count_drops(s.drop_last(), t.drop_last(), i);
    }
}

proof fn lemma_hidden_count_monotone(s: Seq<Cell>, t: Seq<Cell>)
    requires
        settles(s, t),
    ensures
        hidden_count(t) <= hidden_count(s),
    decreases s.len(),
{
    if s.len() > 0 {
        lemma_hidden_count_monotone(s.drop_last(), t.drop_last());
    }
}

/// What applying `mv` to `before` gives: a flag toggles as `toggle_flag`
/// does, an uncovering opens as `reveal_cell` does (laying the mines first
/// when none are laid yet).
pub open spec fn move_applied(before: Board, mv: Move, after: Board) -> bool {
    &&& after.wf()
    &&& after.width == before.width
    &&& after.height == before.height
    &&& after.mine_count == before.mine_count
    &&& match mv {
        Move::Flag(x, y) => flag_toggled(before, x, y, after),
        Move::Reveal(x, y) => {
            &&& before.outcome != GameOutcome::Playing ==> after.same_board(&before)
            &&& before.outcome == GameOutcome::Playing && before.mines_placed ==> cell_opened(before, x, y, after)
            &&& before.outcome == GameOutcome::Playing && !before.mines_placed ==> exists|mid: Board|
                #![trigger mines_placed_for(before, x, y, mid)]
                mines_placed_for(before, x, y, mid) && cell_opened(mid, x, y, after)
        },
    }
}

/// Applies a move of the automatic player to the board.
pub fn play_move(board: &mut Board, mv: Move)
    requires
        old(board).wf(),
        old(board).outcome == GameOutcome::Playing ==> match mv {
            Move::Reveal(x, y) => old(board).in_bounds(x as int, y as int) && (old(board).mine_count
                <= old(board).width * old(board).height || opening_stops(*old(board), x, y)),
            Move::Flag(x, y) => old(board).in_bounds(x as int, y as int),
        },
    ensures
        move_applied(*old(board), mv, *final(board)),
{
    match mv {
        Move::Reveal(x, y) => board.reveal_cell(x, y),
        Move::Flag(x, y) => board.toggle_flag(x, y),
    }
}

/// Uncovering a hidden cell keeps every mine where it is, hides no cell,
/// adds no flag, and uncovers the cell asked for.
pub proof fn lemma_opened_settles(before: Board, x: usize, y: usize, after: Board)
    requires
        before.cells@.len() == before.width * before.height,
        is_hidden_at(before, x, y),
        cell_opened(before, x, y, after),
    ensures
        settles(before.cells@, after.cells@),
        forall|k: int|
            0 <= k < before.cells@.len() ==> {
                &&& (#[trigger] after.cells@[k]).is_mine == before.cells@[k].is_mine
                &&& after.cells@[k].state == CellState::Flagged ==> before.cells@[k].state == CellState::Flagged
            },
        after.cell_at(x as int, y as int).state != CellState::Hidden,
{
    let w = before.width;
    let h = before.height;
    lemma_index_bounds(w, h, x as int, y as int);
    lemma_index_roundtrip(w, h, x as int, y as int);
    let i = index_of(w, x as int, y as int);
    let c = before.cells@[i];
    if c.is_mine {
        assert(mines_shown(before.cells@, after.cells@));
        assert(after.cells@[i] == with_state(c, CellState::Revealed));
    } else {
        let r = choose|r: Set<Pos>|
            #![trigger is_flood_region(before.cells@, w, h, (x, y), r)]
            is_flood_region(before.cells@, w, h, (x, y), r) && revealed_region(before.cells@, w, r, after.cells@);
        assert(r.contains(pos_of(w, i)));
        assert(after.cells@[i] == with_state(c, CellState::Revealed));
    }
}

/// The boards and moves of a game the automatic player played: each move
/// is `next_move`'s answer on the board before it, and the board after it is
/// that move applied.
pub open spec fn solver_trace(boards: Seq<Board>, moves: Seq<Move>) -> bool {
    &&& boards.len() == moves.len() + 1
    &&& forall|i: int|
        0 <= i < moves.len() ==> {
            &&& next_move_answer(#[trigger] boards[i], Some(moves[i]))
            &&& move_applied(boards[i], moves[i], boards[i + 1])
        }
}

/// The board holds as many mines as its count says, or none are laid yet.
pub open spec fn mines_as_counted(b: Board) -> bool {
    !b.mines_placed || count_cells(b.cells@, CellClass::Mine) == b.mine_count
}

/// The automatic player plays the game out: it asks `next_move` for a move,
/// applies it, and stops when there is no move or the game is over. The
/// ghost trace of boards and moves records each step. It also stops, where
/// the single-cell scan would meet a number with more flags than it shows
/// (which the deductions rule out while every flag sits on a mine). While
/// the board holds as many mines as its count says, every flag it sets sits
/// on a mine.
pub fn play_out(board: &mut Board)
    requires
        old(board).wf(),
        old(board).mine_count <= old(board).width * old(board).height,
        old(board).cells@.len() < usize::MAX,
        flags_on_mines(*old(board)),
    ensures
        final(board).wf(),
        exists|boards: Seq<Board>, moves: Seq<Move>|
            #![trigger solver_trace(boards, moves)]
            solver_trace(boards, moves) && boards[0] == *old(board) && boards.last() == *final(board),
        final(board).outcome != GameOutcome::Playing || next_move_answer(*final(board), None) || !single_scan_defined(
            *final(board),
            0,
        ),
        mines_as_counted(*final(board)) ==> flags_on_mines(*final(board)) && (final(board).outcome
            != GameOutcome::Playing || !has_hidden_cell(*final(board))),
        final(board).width == old(board).width,
        final(board).height == old(board).height,
        final(board).mine_count == old(board).mine_count,
{
    let ghost w = board.width;
    let ghost h = board.height;
    let ghost m = board.mine_count;
    let ghost start = *board;
    let ghost mut boards: Seq<Board> = seq![*board];
    let ghost mut moves: Seq<Move> = seq![];
    loop
        invariant
            board.wf(),
            board.width == w,
            board.height == h,
            board.mine_count == m,
            m <= w * h,
            board.cells@.len() < usize::MAX,
            mines_as_counted(*board) ==> flags_on_mines(*board),
            solver_trace(boards, moves),
            boards[0] == start,
            boards.last() == *board,
        ensures
            board.wf(),
            board.width == w,
            board.height == h,
            board.mine_count == m,
            mines_as_counted(*board) ==> flags_on_mines(*board),
            solver_trace(boards, moves),
            boards[0] == start,
            boards.last() == *board,
            board.outcome != GameOutcome::Playing || next_move_answer(*board, None) || !single_scan_defined(*board, 0),
        decreases hidden_count(board.cells@),
    {
        if board.outcome != GameOutcome::Playing {
            break;
        }
        proof {
            if mines_as_counted(*board) {
                lemma_deduction_sound(*board);
            }
        }
        if !deductions_defined(board) {
            break;
        }
        let mv = next_move(board);
        let mv = match mv {
            Some(mv) => mv,
            None => break,
        };
        let ghost before = *board;
        proof {
            lemma_answer_hidden(before, mv);
            lemma_index_bounds(w, h, move_target(mv).0 as int, move_target(mv).1 as int);
        }
        play_move(board, mv);
        proof {
            lemma_move_progress(before, mv, *board);
            let bs = boards.push(*board);
            let ms = moves.push(mv);
            assert forall|i: int| 0 <= i < ms.len() implies {
                &&& next_move_answer(#[trigger] bs[i], Some(ms[i]))
                &&& move_applied(bs[i], ms[i], bs[i + 1])
            } by {
                if i < moves.len() {
                    assert(bs[i] == boards[i] && ms[i] == moves[i] && bs[i + 1] == boards[i + 1]);
                }
            }
            boards = bs;
            moves = ms;
        }
    }
    proof {
        if mines_as_counted(*board) && board.outcome == GameOutcome::Playing {
            lemma_deduction_sound(*board);
        }
        assert(solver_trace(boards, moves));
    }
}

/// No mine is laid yet and every flag sits on a mine: nothing is flagged or
/// uncovered, so the solver opens on the top left corner.
proof fn lemma_opening_first(b: Board)
    requires
        b.wf(),
        !b.mines_placed,
        flags_on_mines(b),
        b.cells@.len() > 0,
    ensures
        opening_move(b) == Some(Move::Reveal(0, 0)),
{
    assert(b.width > 0 && b.height > 0) by (nonlinear_arith)
        requires
            b.cells@.len() == b.width * b.height,
            b.cells@.len() > 0,
    ;
    assert(nothing_revealed(b));
    assert(index_of(b.width, 0, 0) == 0);
    assert(b.cells@[0].state == CellState::Hidden);
}

/// One move of the automatic player names a hidden cell, so it leaves fewer
/// hidden cells; it moves no laid mine; and when the board before it holds
/// as many mines as its count says (or none yet) and every flag sits on a
/// mine, every flag after it sits on a mine too.
pub proof fn lemma_move_progress(before: Board, mv: Move, after: Board)
    requires
        before.wf(),
        before.outcome == GameOutcome::Playing,
        mines_as_counted(before) ==> flags_on_mines(before),
        mines_as_counted(before) ==> single_scan_defined(before, 0),
        next_move_answer(before, Some(mv)),
        move_applied(before, mv, after),
    ensures
        hidden_count(after.cells@) < hidden_count(before.cells@),
        after.mines_placed,
        before.mines_placed ==> forall|k: int|
            0 <= k < before.cells@.len() ==> (#[trigger] after.cells@[k]).is_mine == before.cells@[k].is_mine,
        mines_as_counted(after) ==> flags_on_mines(after),
{
    lemma_answer_hidden(before, mv);
    let w = before.width;
    let h = before.height;
    let (x, y) = move_target(mv);
    lemma_index_bounds(w, h, x as int, y as int);
    let i = index_of(w, x as int, y as int);
    if !before.mines_placed && before.cells@.len() > 0 {
        lemma_opening_first(before);
    }
    match mv {
        Move::Flag(x, y) => {
            assert(after.cells@ == before.cells@.update(i, with_state(before.cells@[i], CellState::Flagged)));
            assert(after.cells@[i].state != CellState::Hidden);
            lemma_hidden_count_drops(before.cells@, after.cells@, i);
            assert(before.mines_placed);
            assert forall|k: int| 0 <= k < before.cells@.len() implies in_class(#[trigger] after.cells@[k], CellClass::Mine)
                == in_class(before.cells@[k], CellClass::Mine) by {}
            lemma_count_cells_same(after.cells@, before.cells@, CellClass::Mine);
            if mines_as_counted(after) {
                lemma_deduction_sound(before);
                assert(solver_move(before) == Some(mv));
                assert(deduced_move(before) == Some(mv));
                assert(move_sound(before, mv));
            }
        },
        Move::Reveal(x, y) => {
            if before.mines_placed {
                lemma_opened_settles(before, x, y, after);
                lemma_hidden_count_drops(before.cells@, after.cells@, i);
                assert forall|k: int| 0 <= k < before.cells@.len() implies in_class(#[trigger] after.cells@[k], CellClass::Mine)
                    == in_class(before.cells@[k], CellClass::Mine) by {}
                lemma_count_cells_same(after.cells@, before.cells@, CellClass::Mine);
            } else {
                let mid = choose|mid: Board|
                    #![trigger mines_placed_for(before, x, y, mid)]
                    mines_placed_for(before, x, y, mid) && cell_opened(mid, x, y, after);
                let order = choose|order: Seq<usize>|
                    #![trigger mines_laid_at(before, order, mid)]
                    order.to_multiset() == mine_candidates(w, h, x, y).to_multiset()
                        && mines_laid_at(before, order, mid);
                assert(is_hidden_at(mid, x, y));
                lemma_opened_settles(mid, x, y, after);
                assert(settles(before.cells@, after.cells@));
                assert forall|k: int| 0 <= k < after.cells@.len()
                    && (#[trigger] after.cells@[k]).state == CellState::Flagged implies after.cells@[k].is_mine by {
                    assert(!before.cells@[k].is_mine);
                }
                lemma_hidden_count_drops(before.cells@, after.cells@, i);
            }
        },
    }
}

} // verus!
