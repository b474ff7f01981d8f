use vstd::prelude::*;
use crate::cell::{Cell, CellState};
use crate::count::{CellClass, count_cells, count_at, lemma_count_cells_update, lemma_count_cells_bound,
    lemma_count_cells_zero, lemma_count_at_same, lemma_safe_and_mines};
use crate::grid::{Pos, in_grid, index_of, neighbor_cells, grid_neighbors, lemma_index_bounds, lemma_neighbor_cells};

verus! {

#[derive(Clone, Copy, Debug, PartialEq, Eq, Structural)]
pub enum GameOutcome {
    Playing,
    Won,
    Lost,
}

/// A game of minesweeper: the grid, the counters shown to the player and the
/// cursor. Cell `(x, y)` is stored at `cells[y * width + x]`.
pub struct Board {
    pub width: usize,
    pub height: usize,
    pub mine_count: usize,
    pub cells: Vec<Cell>,
    pub outcome: GameOutcome,
    pub cursor_x: usize,
    pub cursor_y: usize,
    pub flags_placed: usize,
    pub cells_revealed: usize,
    /// Whether the mines have been laid (they are laid on the first reveal).
    pub mines_placed: bool,
}

pub open spec fn revealed_safe_count(s: Seq<Cell>) -> nat {
    count_cells(s, CellClass::RevealedSafe)
}

pub open spec fn flagged_count(s: Seq<Cell>) -> nat {
    count_cells(s, CellClass::Flagged)
}

pub open spec fn hidden_count(s: Seq<Cell>) -> nat {
    count_cells(s, CellClass::Hidden)
}

/// Number of mines around `(x, y)` in `cells`.
pub open spec fn mine_neighbors(cells: Seq<Cell>, w: usize, h: usize, x: usize, y: usize) -> nat {
    count_at(cells, w, neighbor_cells(w, h, x, y), CellClass::Mine)
}

/// Every cell without a mine shows the number of mines around it.
pub open spec fn counts_truthful(cells: Seq<Cell>, w: usize, h: usize) -> bool {
    forall|x: usize, y: usize|
        #![trigger cells[index_of(w, x as int, y as int)]]
        in_grid(w as int, h as int, x as int, y as int) && !cells[index_of(
            w,
            x as int,
            y as int,
        )].is_mine ==> cells[index_of(w, x as int, y as int)].adjacent_mines == mine_neighbors(
            cells,
            w,
            h,
            x,
            y,
        )
}

impl Board {
    pub open spec fn in_bounds(&self, x: int, y: int) -> bool {
        in_grid(self.width as int, self.height as int, x, y)
    }

    pub open spec fn cell_at(&self, x: int, y: int) -> Cell {
        self.cells@[index_of(self.width, x, y)]
    }

    /// The invariant every board keeps.
    pub open spec fn wf(&self) -> bool {
        &&& self.cells@.len() == self.width * self.height
        &&& self.cursor_x < self.width || self.cursor_x == 0
        &&& self.cursor_y < self.height || self.cursor_y == 0
        &&& self.cells_revealed == revealed_safe_count(self.cells@)
        &&& self.outcome != GameOutcome::Lost ==> self.flags_placed == flagged_count(self.cells@)
        &&& self.outcome != GameOutcome::Lost ==> forall|i: int|
            0 <= i < self.cells@.len() && (#[trigger] self.cells@[i]).state == CellState::Revealed
                ==> !self.cells@[i].is_mine
        &&& !self.mines_placed ==> {
            &&& self.outcome == GameOutcome::Playing
            &&& forall|i: int|
                0 <= i < self.cells@.len() ==> !(#[trigger] self.cells@[i]).is_mine
                    && self.cells@[i].state != CellState::Revealed
        }
        &&& self.mines_placed ==> counts_truthful(self.cells@, self.width, self.height)
        &&& self.outcome == GameOutcome::Won ==> self.cells_revealed + self.mine_count == self.width * self.height
    }

    /// `other` agrees with `self` on everything but the cells and the two counters.
    pub open spec fn same_settings(&self, other: &Board) -> bool {
        &&& other.width == self.width
        &&& other.height == self.height
        &&& other.mine_count == self.mine_count
        &&& other.cursor_x == self.cursor_x
        &&& other.cursor_y == self.cursor_y
    }

    /// `other` is in the same state as `self`.
    pub open spec fn same_board(&self, other: &Board) -> bool {
        &&& self.same_settings(other)
        &&& other.cells@ == self.cells@
        &&& other.outcome == self.outcome
        &&& other.flags_placed == self.flags_placed
        &&& other.cells_revealed == self.cells_revealed
        &&& other.mines_placed == self.mines_placed
    }

    pub fn new(width: usize, height: usize, mine_count: usize) -> (b: Board)
        requires
            width * height <= usize::MAX,
        ensures
            b.wf(),
            b.width == width,
            b.height == height,
            b.mine_count == mine_count,
            b.cells@ == Seq::new((width * height) as nat, |i: int| Cell::fresh()),
            b.outcome == GameOutcome::Playing,
            b.cursor_x == width / 2,
            b.cursor_y == height / 2,
            b.flags_placed == 0,
            b.cells_revealed == 0,
            !b.mines_placed,
    {
        let n = width * height;
        let mut cells: Vec<Cell> = Vec::new();
        let mut i: usize = 0;
        while i < n
            invariant
                i <= n,
                cells@ == Seq::new(i as nat, |j: int| Cell::fresh()),
            decreases n - i,
        {
            cells.push(Cell::new());
            i = i + 1;
            assert(cells@ =~= Seq::new(i as nat, |j: int| Cell::fresh()));
        }
        let b = Board {
            width,
            height,
            mine_count,
            cells,
            outcome: GameOutcome::Playing,
            cursor_x: width / 2,
            cursor_y: height / 2,
            flags_placed: 0,
            cells_revealed: 0,
            mines_placed: false,
        };
        proof {
            lemma_count_cells_zero(b.cells@, CellClass::RevealedSafe);
            lemma_count_cells_zero(b.cells@, CellClass::Flagged);
        }
        b
    }

    pub(crate) fn idx(&self, x: usize, y: usize) -> (i: usize)
        requires
            self.cells@.len() == self.width * self.height,
            x < self.width,
            y < self.height,
        ensures
            i == index_of(self.width, x as int, y as int),
            i < self.cells@.len(),
    {
        let n = self.cells.len();
        proof {
            lemma_index_bounds(self.width, self.height, x as int, y as int);
            assert(y * self.width + x < n);
        }
        y * self.width + x
    }

    pub fn cell(&self, x: usize, y: usize) -> (c: &Cell)
        requires
            self.cells@.len() == self.width * self.height,
            x < self.width,
            y < self.height,
        ensures
            *c == self.cell_at(x as int, y as int),
    {
        let i = self.idx(x, y);
        &self.cells[i]
    }

    /// The cells around `(x, y)` on the board, row by row.
    pub fn neighbors(&self, x: usize, y: usize) -> (r: Vec<Pos>)
        ensures
            r@ == neighbor_cells(self.width, self.height, x, y),
    {
        grid_neighbors(self.width, self.height, x, y)
    }
}

pub open spec fn with_state(c: Cell, st: CellState) -> Cell {
    Cell { is_mine: c.is_mine, state: st, adjacent_mines: c.adjacent_mines }
}

/// What `toggle_flag(x, y)` does to a board.
pub open spec fn flag_toggled(before: Board, x: usize, y: usize, after: Board) -> bool {
    let i = index_of(before.width, x as int, y as int);
    let c = before.cells@[i];
    &&& before.same_settings(&after)
    &&& after.outcome == before.outcome
    &&& after.cells_revealed == before.cells_revealed
    &&& after.mines_placed == before.mines_placed
    &&& if before.outcome != GameOutcome::Playing || c.state == CellState::Revealed {
        &&& after.cells@ == before.cells@
        &&& after.flags_placed == before.flags_placed
    } else if c.state == CellState::Hidden {
        &&& after.cells@ == before.cells@.update(i, with_state(c, CellState::Flagged))
        &&& after.flags_placed == before.flags_placed + 1
    } else {
        &&& after.cells@ == before.cells@.update(i, with_state(c, CellState::Hidden))
        &&& after.flags_placed == before.flags_placed - 1
    }
}

/// Where a cursor coordinate `c` ends up after a move by `d` along a side of
/// length `len`: the move is computed on `i32` coordinates and taken only
/// when it stays on the board.
pub open spec fn cursor_after(c: usize, d: i32, len: usize) -> usize {
    let n = (c as i32) + d;
    if 0 <= n && (n as usize) < len {
        n as usize
    } else {
        c
    }
}

/// A step of the cursor is taken exactly when it stays on the board: from
/// `c` (within `i32`), the step `d` leads to `c + d` when that lies in
/// `0 .. len`, and otherwise the cursor stays.
pub proof fn lemma_cursor_step_taken(c: usize, d: i32, len: usize)
    requires
        c <= i32::MAX,
        i32::MIN <= c + d <= i32::MAX,
    ensures
        0 <= c + d < len ==> cursor_after(c, d, len) == c + d,
        !(0 <= c + d < len) ==> cursor_after(c, d, len) == c,
{
}

impl Board {
    fn cell_mut(&mut self, x: usize, y: usize) -> (c: &mut Cell)
        requires
            old(self).cells@.len() == old(self).width * old(self).height,
            x < old(self).width,
            y < old(self).height,
        ensures
            *c == old(self).cell_at(x as int, y as int),
            final(self).cells@ == old(self).cells@.update(
                index_of(old(self).width, x as int, y as int),
                *final(c),
            ),
            final(self).same_settings(old(self)),
            final(self).outcome == old(self).outcome,
            final(self).flags_placed == old(self).flags_placed,
            final(self).cells_revealed == old(self).cells_revealed,
            final(self).mines_placed == old(self).mines_placed,
    {
        let i = self.idx(x, y);
        &mut self.cells[i]
    }

    pub fn toggle_flag(&mut self, x: usize, y: usize)
        requires
            old(self).wf(),
            old(self).outcome == GameOutcome::Playing ==> x < old(self).width && y < old(self).height,
        ensures
            final(self).wf(),
            flag_toggled(*old(self), x, y, *final(self)),
    {
        if self.outcome != GameOutcome::Playing {
            return;
        }
        let ghost before = *self;
        let ghost i = index_of(self.width, x as int, y as int);
        proof {
            lemma_index_bounds(self.width, self.height, x as int, y as int);
        }
        let cell = self.cell_mut(x, y);
        match cell.state {
            CellState::Hidden => {
                cell.state = CellState::Flagged;
                proof {
                    lemma_count_cells_update(before.cells@, CellClass::Flagged, i, *cell);
                    lemma_count_cells_bound(before.cells@.update(i, *cell), CellClass::Flagged);
                    assert(before.cells@.len() == before.cells.len());
                }
                self.flags_placed += 1;
            },
            CellState::Flagged => {
                cell.state = CellState::Hidden;
                proof {
                    lemma_count_cells_update(before.cells@, CellClass::Flagged, i, *cell);
                }
                self.flags_placed -= 1;
            },
            CellState::Revealed => {},
        }
        proof {
            lemma_count_cells_update(before.cells@, CellClass::Flagged, i, self.cells@[i]);
            lemma_count_cells_update(before.cells@, CellClass::RevealedSafe, i, self.cells@[i]);
            assert(self.cells@ == before.cells@.update(i, self.cells@[i]));
            if before.cells@[i].state == CellState::Revealed {
                assert(self.cells@ =~= before.cells@);
            }
            if before.mines_placed {
                assert forall|k: int| 0 <= k < self.cells@.len() implies (#[trigger] self.cells@[k]).is_mine
                    == before.cells@[k].is_mine && self.cells@[k].adjacent_mines == before.cells@[k].adjacent_mines by {
                    if k != i {
                        assert(self.cells@[k] == before.cells@[k]);
                    }
                }
                lemma_counts_kept(before.cells@, self.cells@, self.width, self.height);
            }
        }
    }

    pub fn move_cursor(&mut self, dx: i32, dy: i32)
        requires
            old(self).wf(),
            i32::MIN <= (old(self).cursor_x as i32) + dx <= i32::MAX,
            i32::MIN <= (old(self).cursor_y as i32) + dy <= i32::MAX,
        ensures
            final(self).wf(),
            final(self).cursor_x == cursor_after(old(self).cursor_x, dx, old(self).width),
            final(self).cursor_y == cursor_after(old(self).cursor_y, dy, old(self).height),
            old(self).cursor_x <= i32::MAX ==> final(self).cursor_x == if 0 <= old(self).cursor_x + dx
                < old(self).width {
                old(self).cursor_x + dx
            } else {
                old(self).cursor_x as int
            },
            old(self).cursor_y <= i32::MAX ==> final(self).cursor_y == if 0 <= old(self).cursor_y + dy
                < old(self).height {
                old(self).cursor_y + dy
            } else {
                old(self).cursor_y as int
            },
            final(self).width == old(self).width,
            final(self).height == old(self).height,
            final(self).mine_count == old(self).mine_count,
            final(self).cells@ == old(self).cells@,
            final(self).outcome == old(self).outcome,
            final(self).flags_placed == old(self).flags_placed,
            final(self).cells_revealed == old(self).cells_revealed,
            final(self).mines_placed == old(self).mines_placed,
    {
        let new_x = self.cursor_x as i32 + dx;
        let new_y = self.cursor_y as i32 + dy;
        if new_x >= 0 && (new_x as usize) < self.width {
            self.cursor_x = new_x as usize;
        }
        if new_y >= 0 && (new_y as usize) < self.height {
            self.cursor_y = new_y as usize;
        }
    }
}

/// Toggling the flag of a cell twice gives back the board it started from.
pub proof fn lemma_toggle_twice(b0: Board, x: usize, y: usize, b1: Board, b2: Board)
    requires
        b0.wf(),
        b0.in_bounds(x as int, y as int),
        flag_toggled(b0, x, y, b1),
        flag_toggled(b1, x, y, b2),
    ensures
        b2.same_board(&b0),
{
    lemma_index_bounds(b0.width, b0.height, x as int, y as int);
    let i = index_of(b0.width, x as int, y as int);
    assert(b2.cells@ =~= b0.cells@);
}

/// A won game has every cell without a mine uncovered, when the board holds
/// the number of mines it was made for.
pub proof fn lemma_won_board_is_cleared(b: Board)
    requires
        b.wf(),
        b.outcome == GameOutcome::Won,
        count_cells(b.cells@, CellClass::Mine) == b.mine_count,
    ensures
        forall|i: int|
            0 <= i < b.cells@.len() && !(#[trigger] b.cells@[i]).is_mine ==> b.cells@[i].state == CellState::Revealed,
{
    lemma_safe_and_mines(b.cells@);
}

/// The mine count around a cell depends only on where the mines are.
/// The numbers stay right when no cell changes its mine or its number.
pub proof fn lemma_counts_kept(s: Seq<Cell>, t: Seq<Cell>, w: usize, h: usize)
    requires
        s.len() == t.len(),
        s.len() == w * h,
        forall|i: int|
            0 <= i < s.len() ==> (#[trigger] t[i]).is_mine == s[i].is_mine && t[i].adjacent_mines == s[i].adjacent_mines,
        counts_truthful(s, w, h),
    ensures
        counts_truthful(t, w, h),
{
    assert forall|x: usize, y: usize|
        #![trigger t[index_of(w, x as int, y as int)]]
        in_grid(w as int, h as int, x as int, y as int) && !t[index_of(w, x as int, y as int)].is_mine
            implies t[index_of(w, x as int, y as int)].adjacent_mines == mine_neighbors(t, w, h, x, y) by {
        lemma_mine_neighbors_same(s, t, w, h, x, y);
        lemma_index_bounds(w, h, x as int, y as int);
        assert(s[index_of(w, x as int, y as int)].adjacent_mines == t[index_of(w, x as int, y as int)].adjacent_mines);
    }
}

pub proof fn lemma_mine_neighbors_same(s: Seq<Cell>, t: Seq<Cell>, w: usize, h: usize, x: usize, y: usize)
    requires
        s.len() == t.len(),
        s.len() == w * h,
        forall|i: int| 0 <= i < s.len() ==> (#[trigger] s[i]).is_mine == t[i].is_mine,
    ensures
        mine_neighbors(s, w, h, x, y) == mine_neighbors(t, w, h, x, y),
{
    let ns = neighbor_cells(w, h, x, y);
    lemma_neighbor_cells(w, h, x, y);
    assert forall|k: int| 0 <= k < ns.len() implies s[index_of(w, ns[k].0 as int, ns[k].1 as int)].is_mine
        == t[index_of(w, ns[k].0 as int, ns[k].1 as int)].is_mine by {
        assert(ns.contains(ns[k]));
        lemma_index_bounds(w, h, ns[k].0 as int, ns[k].1 as int);
    }
    lemma_count_at_same(s, t, w, ns, CellClass::Mine);
}

} // verus!
