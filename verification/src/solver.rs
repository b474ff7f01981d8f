use vstd::prelude::*;
use crate::board::{Board, GameOutcome};
use crate::cell::CellState;
use crate::count::{CellClass, count_at, count_cells, select_at, lemma_count_at_bound, lemma_select_at};
use crate::grid::{Pos, index_of, neighbor_cells, pos_of, lemma_pos_of, lemma_neighbor_cells, contains_pos};
use crate::layouts::{certain_scan, layout_move, least_likely};

verus! {

/// A move of the automatic player.
#[derive(Clone, Copy, Debug, PartialEq, Eq, Structural)]
pub enum Move {
    Reveal(usize, usize),
    Flag(usize, usize),
}

/// The hidden neighbours of `(x, y)`, in visiting order.
pub open spec fn hidden_around(b: Board, x: usize, y: usize) -> Seq<Pos> {
    select_at(b.cells@, b.width, neighbor_cells(b.width, b.height, x, y), CellClass::Hidden)
}

/// The number of flagged neighbours of `(x, y)`.
pub open spec fn flags_around(b: Board, x: usize, y: usize) -> nat {
    count_at(b.cells@, b.width, neighbor_cells(b.width, b.height, x, y), CellClass::Flagged)
}

/// `(x, y)` is uncovered and shows a number other than zero.
pub open spec fn is_number(b: Board, x: usize, y: usize) -> bool {
    let c = b.cell_at(x as int, y as int);
    c.state == CellState::Revealed && c.adjacent_mines != 0
}

/// A number with more flags around it than it shows.
pub open spec fn over_flagged(b: Board, x: usize, y: usize) -> bool {
    is_number(b, x, y) && flags_around(b, x, y) > b.cell_at(x as int, y as int).adjacent_mines
}

/// What the number at `(x, y)` alone tells: when its unflagged mines fill
/// all its hidden neighbours, flag the first; when none are left, uncover
/// the first hidden neighbour.
pub open spec fn cell_hint(b: Board, x: usize, y: usize) -> Option<Move> {
    if !is_number(b, x, y) {
        None
    } else {
        let remaining = b.cell_at(x as int, y as int).adjacent_mines - flags_around(b, x, y);
        let hidden = hidden_around(b, x, y);
        if remaining > 0 && remaining == hidden.len() {
            Some(Move::Flag(hidden[0].0, hidden[0].1))
        } else if remaining == 0 && hidden.len() > 0 {
            Some(Move::Reveal(hidden[0].0, hidden[0].1))
        } else {
            None
        }
    }
}

/// The first hint of a cell at index `i` or later, in row-major order.
pub open spec fn single_scan(b: Board, i: int) -> Option<Move>
    decreases b.cells@.len() - i,
{
    if i < 0 || i >= b.cells@.len() {
        None
    } else {
        let p = pos_of(b.width, i);
        match cell_hint(b, p.0, p.1) {
            Some(m) => Some(m),
            None => single_scan(b, i + 1),
        }
    }
}

/// The scan from index `i` meets no over-flagged number before it finds a hint.
pub open spec fn single_scan_defined(b: Board, i: int) -> bool
    decreases b.cells@.len() - i,
{
    if i < 0 || i >= b.cells@.len() {
        true
    } else {
        let p = pos_of(b.width, i);
        !over_flagged(b, p.0, p.1) && (cell_hint(b, p.0, p.1) is Some || single_scan_defined(b, i + 1))
    }
}

/// The neighbours of `(x, y)`: those of `Board::neighbors`.
pub fn neighbors_of(board: &Board, x: usize, y: usize) -> (r: Vec<Pos>)
    ensures
        r@ == neighbor_cells(board.width, board.height, x, y),
{
    board.neighbors(x, y)
}

/// The hidden positions of `ns`, in order.
fn hidden_among(board: &Board, ns: &Vec<Pos>) -> (r: Vec<Pos>)
    requires
        board.cells@.len() == board.width * board.height,
        forall|k: int| 0 <= k < ns@.len() ==> #[trigger] board.in_bounds(ns@[k].0 as int, ns@[k].1 as int),
    ensures
        r@ == select_at(board.cells@, board.width, ns@, CellClass::Hidden),
{
    let mut r: Vec<Pos> = Vec::new();
    let mut j: usize = 0;
    while j < ns.len()
        invariant
            j <= ns@.len(),
            board.cells@.len() == board.width * board.height,
            forall|k: int| 0 <= k < ns@.len() ==> #[trigger] board.in_bounds(ns@[k].0 as int, ns@[k].1 as int),
            r@ == select_at(board.cells@, board.width, ns@.take(j as int), CellClass::Hidden),
        decreases ns@.len() - j,
    {
        let q = ns[j];
        proof {
            assert(board.in_bounds(ns@[j as int].0 as int, ns@[j as int].1 as int));
            assert(ns@.take(j + 1).drop_last() =~= ns@.take(j as int));
            assert(ns@.take(j + 1).last() == q);
        }
        if board.cell(q.0, q.1).state == CellState::Hidden {
            r.push(q);
        }
        j = j + 1;
    }
    proof {
        assert(ns@.take(j as int) =~= ns@);
    }
    r
}

/// The number of flagged positions of `ns` (at most eight of them).
fn flags_among(board: &Board, ns: &Vec<Pos>) -> (n: u8)
    requires
        board.cells@.len() == board.width * board.height,
        ns@.len() <= 8,
        forall|k: int| 0 <= k < ns@.len() ==> #[trigger] board.in_bounds(ns@[k].0 as int, ns@[k].1 as int),
    ensures
        n == count_at(board.cells@, board.width, ns@, CellClass::Flagged),
{
    let mut n: u8 = 0;
    let mut j: usize = 0;
    while j < ns.len()
        invariant
            j <= ns@.len(),
            ns@.len() <= 8,
            board.cells@.len() == board.width * board.height,
            forall|k: int| 0 <= k < ns@.len() ==> #[trigger] board.in_bounds(ns@[k].0 as int, ns@[k].1 as int),
            n == count_at(board.cells@, board.width, ns@.take(j as int), CellClass::Flagged),
        decreases ns@.len() - j,
    {
        let q = ns[j];
        proof {
            assert(board.in_bounds(ns@[j as int].0 as int, ns@[j as int].1 as int));
            assert(ns@.take(j + 1).drop_last() =~= ns@.take(j as int));
            assert(ns@.take(j + 1).last() == q);
            lemma_count_at_bound(board.cells@, board.width, ns@.take(j as int), CellClass::Flagged);
        }
        if board.cell(q.0, q.1).state == CellState::Flagged {
            n = n + 1;
        }
        j = j + 1;
    }
    proof {
        assert(ns@.take(j as int) =~= ns@);
    }
    n
}

/// The neighbours of `(x, y)`, with the facts the solver needs of them.
fn around(board: &Board, x: usize, y: usize) -> (ns: Vec<Pos>)
    ensures
        ns@ == neighbor_cells(board.width, board.height, x, y),
        ns@.len() <= 8,
        forall|k: int| 0 <= k < ns@.len() ==> #[trigger] board.in_bounds(ns@[k].0 as int, ns@[k].1 as int),
{
    let ns = neighbors_of(board, x, y);
    proof {
        lemma_neighbor_cells(board.width, board.height, x, y);
        assert forall|k: int| 0 <= k < ns@.len() implies #[trigger] board.in_bounds(ns@[k].0 as int, ns@[k].1 as int) by {
            assert(ns@.contains(ns@[k]));
        }
    }
    ns
}

/// For each uncovered number, in row-major order, check whether it alone
/// forces a flag or an uncovering among its neighbours.
fn single_cell_deduction(board: &Board) -> (r: Option<Move>)
    requires
        board.cells@.len() == board.width * board.height,
        single_scan_defined(*board, 0),
    ensures
        r == single_scan(*board, 0),
{
    let n = board.cells.len();
    let w = board.width;
    let mut i: usize = 0;
    while i < n
        invariant
            i <= n,
            n == board.cells@.len(),
            w == board.width,
            board.cells@.len() == board.width * board.height,
            single_scan(*board, 0) == single_scan(*board, i as int),
            single_scan_defined(*board, i as int),
        decreases n - i,
    {
        proof {
            lemma_pos_of(w, board.height, i as int);
        }
        let x = i % w;
        let y = i / w;
        let cell = *board.cell(x, y);
        if cell.state != CellState::Revealed || cell.adjacent_mines == 0 {
            i = i + 1;
            continue;
        }
        let neighbors = around(board, x, y);
        let hidden = hidden_among(board, &neighbors);
        let flagged = flags_among(board, &neighbors);
        proof {
            lemma_select_at(board.cells@, w, neighbors@, CellClass::Hidden);
        }
        let remaining = cell.adjacent_mines - flagged;
        if remaining > 0 && remaining as usize == hidden.len() {
            return Some(Move::Flag(hidden[0].0, hidden[0].1));
        }
        if remaining == 0 && hidden.len() > 0 {
            return Some(Move::Reveal(hidden[0].0, hidden[0].1));
        }
        i = i + 1;
    }
    None
}

/// "Exactly `mines` of `cells` are mines."
struct Constraint {
    mines: u8,
    cells: Vec<Pos>,
}

/// `a` less the positions that occur in `b`, in order.
pub open spec fn minus(a: Seq<Pos>, b: Seq<Pos>) -> Seq<Pos>
    decreases a.len(),
{
    if a.len() == 0 {
        seq![]
    } else {
        let prev = minus(a.drop_last(), b);
        if b.contains(a.last()) {
            prev
        } else {
            prev.push(a.last())
        }
    }
}

/// Every position of `small` occurs in `big`.
pub open spec fn seq_subset(small: Seq<Pos>, big: Seq<Pos>) -> bool {
    forall|k: int| 0 <= k < small.len() ==> big.contains(#[trigger] small[k])
}

pub open spec fn saturating_diff(a: nat, b: nat) -> nat {
    if a >= b {
        (a - b) as nat
    } else {
        0
    }
}

/// The constraint a cell gives: the mines it still lacks (counting flags as
/// mines, and none when the flags already match it) among its hidden
/// neighbours; only for a number with hidden neighbours.
pub open spec fn cell_constraint(b: Board, x: usize, y: usize) -> Option<(nat, Seq<Pos>)> {
    if !is_number(b, x, y) {
        None
    } else {
        let remaining = saturating_diff(b.cell_at(x as int, y as int).adjacent_mines as nat, flags_around(b, x, y));
        let hidden = hidden_around(b, x, y);
        if hidden.len() > 0 {
            Some((remaining, hidden))
        } else {
            None
        }
    }
}

/// The constraints of the cells at indices below `k`, in row-major order.
pub open spec fn constraints_upto(b: Board, k: nat) -> Seq<(nat, Seq<Pos>)>
    decreases k,
{
    if k == 0 {
        seq![]
    } else {
        let prev = constraints_upto(b, (k - 1) as nat);
        let p = pos_of(b.width, k - 1);
        match cell_constraint(b, p.0, p.1) {
            Some(c) => prev.push(c),
            None => prev,
        }
    }
}

pub open spec fn board_constraints(b: Board) -> Seq<(nat, Seq<Pos>)> {
    constraints_upto(b, b.cells@.len())
}

/// What comparing constraint `i` with constraint `j` tells: when the cells
/// of `j` all belong to `i`, the cells of `i` outside `j` hold the
/// difference of their mines; none when the counts are equal (uncover the
/// first), all when the difference is their number (flag the first).
pub open spec fn pair_hint(cs: Seq<(nat, Seq<Pos>)>, i: int, j: int) -> Option<Move> {
    if i == j || !seq_subset(cs[j].1, cs[i].1) {
        None
    } else {
        let d = minus(cs[i].1, cs[j].1);
        if d.len() == 0 {
            None
        } else if cs[i].0 == cs[j].0 {
            Some(Move::Reveal(d[0].0, d[0].1))
        } else if saturating_diff(cs[i].0, cs[j].0) == d.len() {
            Some(Move::Flag(d[0].0, d[0].1))
        } else {
            None
        }
    }
}

/// The first hint of constraint `i` against constraints `j` and later.
pub open spec fn row_scan(cs: Seq<(nat, Seq<Pos>)>, i: int, j: int) -> Option<Move>
    decreases cs.len() - j,
{
    if j < 0 || j >= cs.len() {
        None
    } else {
        match pair_hint(cs, i, j) {
            Some(m) => Some(m),
            None => row_scan(cs, i, j + 1),
        }
    }
}

/// The first hint of a pair whose first constraint is `i` or later.
pub open spec fn pairs_scan(cs: Seq<(nat, Seq<Pos>)>, i: int) -> Option<Move>
    decreases cs.len() - i,
{
    if i < 0 || i >= cs.len() {
        None
    } else {
        match row_scan(cs, i, 0) {
            Some(m) => Some(m),
            None => pairs_scan(cs, i + 1),
        }
    }
}

/// Build one constraint per uncovered number that still has hidden
/// neighbours.
fn build_constraints(board: &Board) -> (r: Vec<Constraint>)
    requires
        board.cells@.len() == board.width * board.height,
    ensures
        r@.len() == board_constraints(*board).len(),
        forall|k: int|
            0 <= k < r@.len() ==> (#[trigger] r@[k]).mines == board_constraints(*board)[k].0
                && r@[k].cells@ == board_constraints(*board)[k].1,
{
    let mut constraints: Vec<Constraint> = Vec::new();
    let n = board.cells.len();
    let w = board.width;
    let mut i: usize = 0;
    while i < n
        invariant
            i <= n,
            n == board.cells@.len(),
            w == board.width,
            board.cells@.len() == board.width * board.height,
            constraints@.len() == constraints_upto(*board, i as nat).len(),
            forall|k: int|
                0 <= k < constraints@.len() ==> (#[trigger] constraints@[k]).mines == constraints_upto(
                    *board,
                    i as nat,
                )[k].0 && constraints@[k].cells@ == constraints_upto(*board, i as nat)[k].1,
        decreases n - i,
    {
        proof {
            lemma_pos_of(w, board.height, i as int);
        }
        let x = i % w;
        let y = i / w;
        let cell = *board.cell(x, y);
        if cell.state != CellState::Revealed || cell.adjacent_mines == 0 {
            i = i + 1;
            continue;
        }
        let neighbors = around(board, x, y);
        let flagged = flags_among(board, &neighbors);
        let hidden = hidden_among(board, &neighbors);
        let remaining = cell.adjacent_mines.saturating_sub(flagged);
        if hidden.len() > 0 {
            constraints.push(Constraint { mines: remaining, cells: hidden });
        }
        i = i + 1;
    }
    constraints
}

/// Whether every position of `small` occurs in `big`.
fn is_subset(small: &Vec<Pos>, big: &Vec<Pos>) -> (r: bool)
    ensures
        r == seq_subset(small@, big@),
{
    let mut k: usize = 0;
    while k < small.len()
        invariant
            k <= small@.len(),
            forall|t: int| 0 <= t < k ==> big@.contains(#[trigger] small@[t]),
        decreases small@.len() - k,
    {
        if !contains_pos(big, small[k]) {
            return false;
        }
        k = k + 1;
    }
    true
}

/// The positions of `a` that do not occur in `b`, in order.
fn difference(a: &Vec<Pos>, b: &Vec<Pos>) -> (r: Vec<Pos>)
    ensures
        r@ == minus(a@, b@),
{
    let mut r: Vec<Pos> = Vec::new();
    let mut k: usize = 0;
    while k < a.len()
        invariant
            k <= a@.len(),
            r@ == minus(a@.take(k as int), b@),
        decreases a@.len() - k,
    {
        proof {
            assert(a@.take(k + 1).drop_last() =~= a@.take(k as int));
        }
        if !contains_pos(b, a[k]) {
            r.push(a[k]);
        }
        k = k + 1;
    }
    proof {
        assert(a@.take(k as int) =~= a@);
    }
    r
}

/// Compare every ordered pair of constraints: when the cells of one lie
/// within the other, the cells left over may be all safe or all mines.
fn constraint_subset_deduction(board: &Board) -> (r: Option<Move>)
    requires
        board.cells@.len() == board.width * board.height,
    ensures
        r == pairs_scan(board_constraints(*board), 0),
{
    let constraints = build_constraints(board);
    let ghost cs = board_constraints(*board);
    let len = constraints.len();
    let mut i: usize = 0;
    while i < len
        invariant
            i <= len,
            cs == board_constraints(*board),
            len == cs.len(),
            len == constraints@.len(),
            forall|k: int|
                0 <= k < len ==> (#[trigger] constraints@[k]).mines == cs[k].0 && constraints@[k].cells@ == cs[k].1,
            pairs_scan(cs, 0) == pairs_scan(cs, i as int),
        decreases len - i,
    {
        let mut j: usize = 0;
        while j < len
            invariant
                i < len,
                j <= len,
                cs == board_constraints(*board),
                len == cs.len(),
                len == constraints@.len(),
                forall|k: int|
                    0 <= k < len ==> (#[trigger] constraints@[k]).mines == cs[k].0 && constraints@[k].cells@ == cs[k].1,
                pairs_scan(cs, 0) == pairs_scan(cs, i as int),
                row_scan(cs, i as int, 0) == row_scan(cs, i as int, j as int),
            decreases len - j,
        {
            if i == j {
                j = j + 1;
                continue;
            }
            let a = &constraints[i];
            let b = &constraints[j];
            proof {
                assert(constraints@[i as int].cells@ == cs[i as int].1);
                assert(constraints@[j as int].cells@ == cs[j as int].1);
            }
            if !is_subset(&b.cells, &a.cells) {
                j = j + 1;
                continue;
            }
            let diff = difference(&a.cells, &b.cells);
            if diff.len() == 0 {
                j = j + 1;
                continue;
            }
            let mine_diff = a.mines.saturating_sub(b.mines);
            proof {
                assert(a.mines == cs[i as int].0 && b.mines == cs[j as int].0);
            }
            if a.mines == b.mines {
                let m = Move::Reveal(diff[0].0, diff[0].1);
                proof {
                    assert(pair_hint(cs, i as int, j as int) == Some(m));
                    assert(row_scan(cs, i as int, j as int) == Some(m));
                    assert(pairs_scan(cs, i as int) == Some(m));
                }
                return Some(m);
            }
            if mine_diff as usize == diff.len() {
                let m = Move::Flag(diff[0].0, diff[0].1);
                proof {
                    assert(pair_hint(cs, i as int, j as int) == Some(m));
                    assert(row_scan(cs, i as int, j as int) == Some(m));
                    assert(pairs_scan(cs, i as int) == Some(m));
                }
                return Some(m);
            }
            j = j + 1;
        }
        i = i + 1;
    }
    None
}

/// The hidden positions with index below `k`, in row-major order.
pub open spec fn hidden_upto(b: Board, k: nat) -> Seq<Pos>
    decreases k,
{
    if k == 0 {
        seq![]
    } else {
        let prev = hidden_upto(b, (k - 1) as nat);
        if b.cells@[k - 1].state == CellState::Hidden {
            prev.push(pos_of(b.width, k - 1))
        } else {
            prev
        }
    }
}

/// Some cell of the board is still hidden.
pub open spec fn has_hidden_cell(b: Board) -> bool {
    exists|i: int| 0 <= i < b.cells@.len() && (#[trigger] b.cells@[i]).state == CellState::Hidden
}

/// `(x, y)` is a hidden cell of the board.
pub open spec fn is_hidden_at(b: Board, x: usize, y: usize) -> bool {
    b.in_bounds(x as int, y as int) && b.cell_at(x as int, y as int).state == CellState::Hidden
}

/// No cell of the board is uncovered yet.
pub open spec fn nothing_revealed(b: Board) -> bool {
    forall|i: int| 0 <= i < b.cells@.len() ==> (#[trigger] b.cells@[i]).state != CellState::Revealed
}

/// The first hidden corner, in the order top left, top right, bottom left,
/// bottom right.
pub open spec fn hidden_corner(b: Board) -> Option<Pos> {
    if b.width == 0 || b.height == 0 {
        None
    } else if is_hidden_at(b, 0, 0) {
        Some((0usize, 0usize))
    } else if is_hidden_at(b, (b.width - 1) as usize, 0) {
        Some(((b.width - 1) as usize, 0usize))
    } else if is_hidden_at(b, 0, (b.height - 1) as usize) {
        Some((0usize, (b.height - 1) as usize))
    } else if is_hidden_at(b, (b.width - 1) as usize, (b.height - 1) as usize) {
        Some(((b.width - 1) as usize, (b.height - 1) as usize))
    } else {
        None
    }
}

/// The opening move: while nothing is uncovered, uncover a hidden corner.
pub open spec fn opening_move(b: Board) -> Option<Move> {
    if nothing_revealed(b) {
        match hidden_corner(b) {
            Some(p) => Some(Move::Reveal(p.0, p.1)),
            None => None,
        }
    } else {
        None
    }
}

/// The opening move is for the start alone: once any cell is uncovered
/// there is none; while none is, and the top left corner is hidden, it is
/// the uncovering of that corner.
pub proof fn lemma_opening_only_at_start(b: Board)
    ensures
        (exists|i: int| 0 <= i < b.cells@.len() && (#[trigger] b.cells@[i]).state == CellState::Revealed)
            ==> opening_move(b) is None,
        (forall|i: int| 0 <= i < b.cells@.len() ==> (#[trigger] b.cells@[i]).state != CellState::Revealed)
            && b.width > 0 && b.height > 0 && b.cells@.len() == b.width * b.height && b.cells@[0].state
            == CellState::Hidden ==> opening_move(b) == Some(Move::Reveal(0, 0)),
{
    if b.width > 0 && b.height > 0 && b.cells@.len() == b.width * b.height {
        assert(index_of(b.width, 0, 0) == 0);
        assert(b.cells@.len() > 0) by (nonlinear_arith)
            requires
                b.cells@.len() == b.width * b.height,
                b.width > 0,
                b.height > 0,
        ;
    }
}

/// The mines not yet flagged, by the board's mine count: none when there
/// are as many flags as mines or more.
pub open spec fn remaining_mines(b: Board) -> nat {
    saturating_diff(b.mine_count as nat, count_cells(b.cells@, CellClass::Flagged))
}

/// What the global mine count tells: when the mines left equal the hidden
/// cells, every hidden cell is a mine (flag the first); when no mine is
/// left, every hidden cell is safe (uncover the first).
pub open spec fn global_hint(b: Board) -> Option<Move> {
    let hs = hidden_upto(b, b.cells@.len());
    if hs.len() == 0 {
        None
    } else if remaining_mines(b) == hs.len() {
        Some(Move::Flag(hs[0].0, hs[0].1))
    } else if remaining_mines(b) == 0 {
        Some(Move::Reveal(hs[0].0, hs[0].1))
    } else {
        None
    }
}

/// The move the deductions find, if any: single cells first, then pairs of
/// constraints, then the global mine count, then a cell every layout
/// consistent with the board agrees on.
pub open spec fn deduced_move(b: Board) -> Option<Move> {
    match single_scan(b, 0) {
        Some(m) => Some(m),
        None => match pairs_scan(board_constraints(b), 0) {
            Some(m) => Some(m),
            None => match global_hint(b) {
                Some(m) => Some(m),
                None => certain_scan(b, 0),
            },
        },
    }
}

/// The move the solver settles on before it would guess: the opening move,
/// else a deduced one.
pub open spec fn solver_move(b: Board) -> Option<Move> {
    match opening_move(b) {
        Some(m) => Some(m),
        None => deduced_move(b),
    }
}

/// What `next_move` answers on `b`: nothing for a finished game, else the
/// solver's move, else the uncovering of a hidden cell least likely to hold
/// a mine.
pub open spec fn next_move_answer(b: Board, r: Option<Move>) -> bool {
    &&& b.outcome != GameOutcome::Playing ==> r is None
    &&& b.outcome == GameOutcome::Playing ==> match solver_move(b) {
        Some(m) => r == Some(m),
        None => least_likely(b, r),
    }
}

pub proof fn lemma_hidden_upto(b: Board, k: nat)
    requires
        b.cells@.len() == b.width * b.height,
        k <= b.cells@.len(),
    ensures
        forall|j: int|
            0 <= j < hidden_upto(b, k).len() ==> is_hidden_at(
                b,
                (#[trigger] hidden_upto(b, k)[j]).0,
                hidden_upto(b, k)[j].1,
            ),
        hidden_upto(b, k).len() == 0 <==> forall|i: int|
            0 <= i < k ==> (#[trigger] b.cells@[i]).state != CellState::Hidden,
    decreases k,
{
    if k > 0 {
        lemma_hidden_upto(b, (k - 1) as nat);
        lemma_pos_of(b.width, b.height, k - 1);
        let prev = hidden_upto(b, (k - 1) as nat);
        let s = hidden_upto(b, k);
        assert forall|j: int| 0 <= j < s.len() implies is_hidden_at(b, (#[trigger] s[j]).0, s[j].1) by {
            if j < prev.len() {
                assert(s[j] == prev[j]);
            }
        }
        if s.len() == 0 {
            assert(b.cells@[k - 1].state != CellState::Hidden);
        }
    }
}

/// The hidden cells of the board, in row-major order.
fn hidden_positions(board: &Board) -> (r: Vec<Pos>)
    requires
        board.cells@.len() == board.width * board.height,
    ensures
        r@ == hidden_upto(*board, board.cells@.len()),
{
    let mut candidates: Vec<Pos> = Vec::new();
    let n = board.cells.len();
    let w = board.width;
    let mut i: usize = 0;
    while i < n
        invariant
            i <= n,
            n == board.cells@.len(),
            n == board.width * board.height,
            w == board.width,
            candidates@ == hidden_upto(*board, i as nat),
        decreases n - i,
    {
        proof {
            lemma_pos_of(w, board.height, i as int);
        }
        let x = i % w;
        let y = i / w;
        if board.cell(x, y).state == CellState::Hidden {
            candidates.push((x, y));
        }
        i = i + 1;
    }
    candidates
}

/// The opening move: while nothing is uncovered, the first hidden corner.
fn opening(board: &Board) -> (r: Option<Move>)
    requires
        board.cells@.len() == board.width * board.height,
    ensures
        r == opening_move(*board),
{
    let n = board.cells.len();
    let mut i: usize = 0;
    while i < n
        invariant
            i <= n,
            n == board.cells@.len(),
            forall|j: int| 0 <= j < i ==> (#[trigger] board.cells@[j]).state != CellState::Revealed,
        decreases n - i,
    {
        if board.cells[i].state == CellState::Revealed {
            proof {
                assert(!nothing_revealed(*board));
            }
            return None;
        }
        i = i + 1;
    }
    let w = board.width;
    let h = board.height;
    if w == 0 || h == 0 {
        return None;
    }
    if board.cell(0, 0).state == CellState::Hidden {
        return Some(Move::Reveal(0, 0));
    }
    if board.cell(w - 1, 0).state == CellState::Hidden {
        return Some(Move::Reveal(w - 1, 0));
    }
    if board.cell(0, h - 1).state == CellState::Hidden {
        return Some(Move::Reveal(0, h - 1));
    }
    if board.cell(w - 1, h - 1).state == CellState::Hidden {
        return Some(Move::Reveal(w - 1, h - 1));
    }
    None
}

/// The number of flagged cells.
pub(crate) fn flagged_cells(board: &Board) -> (n: usize)
    ensures
        n == count_cells(board.cells@, CellClass::Flagged),
{
    let len = board.cells.len();
    let mut n: usize = 0;
    let mut i: usize = 0;
    while i < len
        invariant
            i <= len,
            len == board.cells@.len(),
            n <= i,
            n == count_cells(board.cells@.take(i as int), CellClass::Flagged),
        decreases len - i,
    {
        proof {
            assert(board.cells@.take(i + 1).drop_last() =~= board.cells@.take(i as int));
        }
        if board.cells[i].state == CellState::Flagged {
            n = n + 1;
        }
        i = i + 1;
    }
    proof {
        assert(board.cells@.take(len as int) =~= board.cells@);
    }
    n
}

/// Compare the mines left by the board's count with the hidden cells.
fn global_count_deduction(board: &Board) -> (r: Option<Move>)
    requires
        board.cells@.len() == board.width * board.height,
    ensures
        r == global_hint(*board),
{
    let hs = hidden_positions(board);
    if hs.len() == 0 {
        return None;
    }
    let flagged = flagged_cells(board);
    let remaining = if board.mine_count >= flagged {
        board.mine_count - flagged
    } else {
        0
    };
    if remaining == hs.len() {
        return Some(Move::Flag(hs[0].0, hs[0].1));
    }
    if remaining == 0 {
        return Some(Move::Reveal(hs[0].0, hs[0].1));
    }
    None
}

/// Pick the next move of the automatic player: the opening move on a
/// corner, then single-cell deductions, then reasoning over pairs of
/// constraints, then the global mine count, then a cell that is a mine, or
/// safe, in every layout consistent with the board, and as the last resort
/// the uncovering of a hidden cell least likely to hold a mine. A finished
/// game has no move.
pub fn next_move(board: &Board) -> (r: Option<Move>)
    requires
        board.cells@.len() == board.width * board.height,
        board.cells@.len() < usize::MAX,
        board.outcome == GameOutcome::Playing ==> single_scan_defined(*board, 0),
    ensures
        next_move_answer(*board, r),
        board.outcome == GameOutcome::Playing && (exists|i: int|
            0 <= i < board.cells@.len() && (#[trigger] board.cells@[i]).state == CellState::Revealed)
            ==> (deduced_move(*board) matches Some(m) ==> r == Some(m)),
{
    proof {
        lemma_opening_only_at_start(*board);
    }
    if board.outcome != GameOutcome::Playing {
        return None;
    }
    if let Some(mv) = opening(board) {
        return Some(mv);
    }
    if let Some(mv) = single_cell_deduction(board) {
        return Some(mv);
    }
    if let Some(mv) = constraint_subset_deduction(board) {
        return Some(mv);
    }
    if let Some(mv) = global_count_deduction(board) {
        return Some(mv);
    }
    layout_move(board)
}

/// Whether the single-cell scan of `next_move` can run: it meets no number
/// with more flags around it than it shows before it finds a hint.
pub fn deductions_defined(board: &Board) -> (r: bool)
    requires
        board.cells@.len() == board.width * board.height,
    ensures
        r == single_scan_defined(*board, 0),
{
    let n = board.cells.len();
    let w = board.width;
    let mut i: usize = 0;
    while i < n
        invariant
            i <= n,
            n == board.cells@.len(),
            w == board.width,
            board.cells@.len() == board.width * board.height,
            single_scan_defined(*board, 0) == single_scan_defined(*board, i as int),
        decreases n - i,
    {
        proof {
            lemma_pos_of(w, board.height, i as int);
        }
        let x = i % w;
        let y = i / w;
        let cell = *board.cell(x, y);
        if cell.state == CellState::Revealed && cell.adjacent_mines != 0 {
            let neighbors = around(board, x, y);
            let hidden = hidden_among(board, &neighbors);
            let flagged = flags_among(board, &neighbors);
            if flagged > cell.adjacent_mines {
                return false;
            }
            let remaining = cell.adjacent_mines - flagged;
            if remaining > 0 && remaining as usize == hidden.len() {
                return true;
            }
            if remaining == 0 && hidden.len() > 0 {
                return true;
            }
        }
        i = i + 1;
    }
    true
}

} // verus!
