use vstd::prelude::*;
use crate::board::GameOutcome;
use crate::cell::{Cell, CellState};
use crate::solver::Move;

verus! {

/// How a cell is drawn.
#[derive(Clone, Copy, Debug, PartialEq, Eq, Structural)]
pub enum Glyph {
    Hidden,
    Flag,
    Mine,
    /// An uncovered cell with no mine around it.
    Blank,
    Number(u8),
}

pub open spec fn glyph_spec(c: Cell) -> Glyph {
    match c.state {
        CellState::Hidden => Glyph::Hidden,
        CellState::Flagged => Glyph::Flag,
        CellState::Revealed => if c.is_mine {
            Glyph::Mine
        } else if c.adjacent_mines == 0 {
            Glyph::Blank
        } else {
            Glyph::Number(c.adjacent_mines)
        },
    }
}

/// The glyph of a cell: what the player is shown of it.
pub fn cell_glyph(c: &Cell) -> (g: Glyph)
    ensures
        g == glyph_spec(*c),
        c.state == CellState::Hidden ==> g == Glyph::Hidden,
        c.state == CellState::Flagged ==> g == Glyph::Flag,
        c.state == CellState::Revealed && c.is_mine ==> g == Glyph::Mine,
        c.state == CellState::Revealed && !c.is_mine && c.adjacent_mines == 0 ==> g == Glyph::Blank,
        c.state == CellState::Revealed && !c.is_mine && c.adjacent_mines > 0 ==> g == Glyph::Number(
            c.adjacent_mines,
        ),
{
    match c.state {
        CellState::Hidden => Glyph::Hidden,
        CellState::Flagged => Glyph::Flag,
        CellState::Revealed => {
            if c.is_mine {
                Glyph::Mine
            } else if c.adjacent_mines == 0 {
                Glyph::Blank
            } else {
                Glyph::Number(c.adjacent_mines)
            }
        },
    }
}

/// The column at which text `len` wide starts when centred in `total`
/// columns; flush left when it does not fit.
pub fn centered(total: usize, len: usize) -> (x: usize)
    ensures
        x == if total > len {
            (total - len) / 2
        } else {
            0
        },
        x + len <= total || x == 0,
{
    if total > len {
        (total - len) / 2
    } else {
        0
    }
}

/// The cursor step that brings `(cx, cy)` one cell closer to `(tx, ty)`:
/// columns first, then rows; none once there.
pub open spec fn cursor_step_spec(cx: usize, cy: usize, tx: usize, ty: usize) -> Option<(i32, i32)> {
    if cx < tx {
        Some((1i32, 0i32))
    } else if cx > tx {
        Some((-1i32, 0i32))
    } else if cy < ty {
        Some((0i32, 1i32))
    } else if cy > ty {
        Some((0i32, -1i32))
    } else {
        None
    }
}

pub fn cursor_step(cx: usize, cy: usize, tx: usize, ty: usize) -> (d: Option<(i32, i32)>)
    ensures
        d == cursor_step_spec(cx, cy, tx, ty),
        d is None <==> (cx == tx && cy == ty),
        cx != tx ==> d == Some((if cx < tx {
            1i32
        } else {
            -1i32
        }, 0i32)),
        cx == tx && cy != ty ==> d == Some((0i32, if cy < ty {
            1i32
        } else {
            -1i32
        })),
{
    if cx < tx {
        Some((1, 0))
    } else if cx > tx {
        Some((-1, 0))
    } else if cy < ty {
        Some((0, 1))
    } else if cy > ty {
        Some((0, -1))
    } else {
        None
    }
}

/// Numeric code of an outcome: 0 playing, 1 won, 2 lost.
pub fn outcome_code(o: GameOutcome) -> (c: u8)
    ensures
        c == match o {
            GameOutcome::Playing => 0u8,
            GameOutcome::Won => 1u8,
            GameOutcome::Lost => 2u8,
        },
{
    match o {
        GameOutcome::Playing => 0,
        GameOutcome::Won => 1,
        GameOutcome::Lost => 2,
    }
}

/// Numeric code of a cell state: 0 hidden, 1 revealed, 2 flagged.
pub fn state_code(s: CellState) -> (c: u8)
    ensures
        c == match s {
            CellState::Hidden => 0u8,
            CellState::Revealed => 1u8,
            CellState::Flagged => 2u8,
        },
{
    match s {
        CellState::Hidden => 0,
        CellState::Revealed => 1,
        CellState::Flagged => 2,
    }
}

/// A move as `[kind, x, y]` (kind 0 uncovers, 1 flags); empty for none.
pub fn encode_move(m: Option<Move>) -> (v: Vec<usize>)
    ensures
        v@ == match m {
            Some(Move::Reveal(x, y)) => seq![0usize, x, y],
            Some(Move::Flag(x, y)) => seq![1usize, x, y],
            None => Seq::<usize>::empty(),
        },
{
    match m {
        Some(Move::Reveal(x, y)) => vec![0, x, y],
        Some(Move::Flag(x, y)) => vec![1, x, y],
        None => Vec::new(),
    }
}


/// An uncovered cell without a mine shows its number, blank only for zero.
pub proof fn lemma_numbers_are_drawn(c: Cell)
    requires
        c.state == CellState::Revealed,
        !c.is_mine,
    ensures
        c.adjacent_mines > 0 ==> glyph_spec(c) == Glyph::Number(c.adjacent_mines),
        c.adjacent_mines == 0 ==> glyph_spec(c) == Glyph::Blank,
{
}

} // verus!
