use vstd::prelude::*;
use crate::board::{Board, GameOutcome, mine_neighbors};
use crate::cell::CellState;
use crate::count::{CellClass, count_at, count_cells, one_if, in_class, select_at, lemma_count_split};
use crate::grid::{Pos, index_of, neighbor_cells, pos_of, in_grid, lemma_pos_of, lemma_neighbor_cells,
    lemma_index_bounds, lemma_index_roundtrip};
use crate::solver::{Move, flagged_cells};
use crate::big::{val, binom, big_add, big_lt, binom_row};

verus! {

/// The neighbours of cell `i`.
pub open spec fn around(b: Board, i: int) -> Seq<Pos> {
    let p = pos_of(b.width, i);
    neighbor_cells(b.width, b.height, p.0, p.1)
}

/// Cell `i` has an uncovered neighbour.
pub open spec fn touches_revealed(b: Board, i: int) -> bool {
    let ns = around(b, i);
    exists|k: int|
        0 <= k < ns.len() && (#[trigger] b.cells@[index_of(b.width, ns[k].0 as int, ns[k].1 as int)]).state
            == CellState::Revealed
}

/// Cell `i` is hidden and touches an uncovered cell: some number bears on it.
pub open spec fn in_frontier(b: Board, i: int) -> bool {
    &&& 0 <= i < b.cells@.len()
    &&& b.cells@[i].state == CellState::Hidden
    &&& touches_revealed(b, i)
}

/// Cell `i` is hidden and touches no uncovered cell: only the mine count
/// bears on it.
pub open spec fn is_free(b: Board, i: int) -> bool {
    &&& 0 <= i < b.cells@.len()
    &&& b.cells@[i].state == CellState::Hidden
    &&& !touches_revealed(b, i)
}

/// The free cells among the first `k`.
pub open spec fn free_upto(b: Board, k: int) -> nat
    decreases k,
{
    if k <= 0 {
        0
    } else {
        free_upto(b, k - 1) + one_if(is_free(b, k - 1))
    }
}

pub open spec fn free_count(b: Board) -> nat {
    free_upto(b, b.cells@.len() as int)
}

/// How many entries of `s` are true.
pub open spec fn count_true(s: Seq<bool>) -> nat
    decreases s.len(),
{
    if s.len() == 0 {
        0
    } else {
        count_true(s.drop_last()) + one_if(s.last())
    }
}

/// The cells of `ps` that `pick` marks as mines.
pub open spec fn picked_at(pick: Seq<bool>, w: usize, ps: Seq<Pos>) -> nat
    decreases ps.len(),
{
    if ps.len() == 0 {
        0
    } else {
        picked_at(pick, w, ps.drop_last()) + one_if(pick[index_of(w, ps.last().0 as int, ps.last().1 as int)])
    }
}

/// The frontier cells of `ps` at index `lim` or later: those a search that
/// has decided every frontier cell below `lim` has still to decide.
pub open spec fn open_at(b: Board, ps: Seq<Pos>, lim: int) -> nat
    decreases ps.len(),
{
    if ps.len() == 0 {
        0
    } else {
        let i = index_of(b.width, ps.last().0 as int, ps.last().1 as int);
        open_at(b, ps.drop_last(), lim) + one_if(in_frontier(b, i) && i >= lim)
    }
}

/// The flags around cell `i`.
pub open spec fn flags_near(b: Board, i: int) -> nat {
    count_at(b.cells@, b.width, around(b, i), CellClass::Flagged)
}

/// The number shown at cell `i`.
pub open spec fn number_of(b: Board, i: int) -> nat {
    b.cells@[i].adjacent_mines as nat
}

/// An uncovered cell `i` sees as many mines, flags included, as it shows.
pub open spec fn number_agrees(b: Board, pick: Seq<bool>, i: int) -> bool {
    b.cells@[i].state == CellState::Revealed ==> flags_near(b, i) + picked_at(pick, b.width, around(b, i))
        == number_of(b, i)
}

/// A layout of the mines consistent with the board: every flag is a mine,
/// `pick` marks which frontier cells hold mines, and `j` is how many free
/// cells hold one (no number bears on the free cells, so any `j` of them do
/// alike). Every number sees exactly its mines, and the mines number
/// `mine_count`.
pub open spec fn is_layout(b: Board, pick: Seq<bool>, j: nat) -> bool {
    &&& pick.len() == b.cells@.len()
    &&& forall|i: int| 0 <= i < pick.len() && #[trigger] pick[i] ==> in_frontier(b, i)
    &&& forall|i: int| 0 <= i < pick.len() ==> #[trigger] number_agrees(b, pick, i)
    &&& j <= free_count(b)
    &&& count_cells(b.cells@, CellClass::Flagged) + count_true(pick) + j == b.mine_count
}

pub open spec fn has_layout(b: Board) -> bool {
    exists|pick: Seq<bool>, j: nat| #[trigger] is_layout(b, pick, j)
}

/// Hidden cell `i` is a mine in every layout (and there is one).
pub open spec fn certain_mine(b: Board, i: int) -> bool {
    &&& 0 <= i < b.cells@.len()
    &&& b.cells@[i].state == CellState::Hidden
    &&& has_layout(b)
    &&& forall|pick: Seq<bool>, j: nat|
        #[trigger] is_layout(b, pick, j) ==> if in_frontier(b, i) {
            pick[i]
        } else {
            j == free_count(b)
        }
}

/// Hidden cell `i` is safe in every layout (and there is one).
pub open spec fn certain_safe(b: Board, i: int) -> bool {
    &&& 0 <= i < b.cells@.len()
    &&& b.cells@[i].state == CellState::Hidden
    &&& has_layout(b)
    &&& forall|pick: Seq<bool>, j: nat|
        #[trigger] is_layout(b, pick, j) ==> if in_frontier(b, i) {
            !pick[i]
        } else {
            j == 0
        }
}

/// What the layouts say of cell `i`: flag it when it is a mine in all of
/// them, uncover it when it is safe in all of them.
pub open spec fn certain_hint(b: Board, i: int) -> Option<Move> {
    let p = pos_of(b.width, i);
    if certain_mine(b, i) {
        Some(Move::Flag(p.0, p.1))
    } else if certain_safe(b, i) {
        Some(Move::Reveal(p.0, p.1))
    } else {
        None
    }
}

/// The first certain cell at index `i` or later, in row-major order.
pub open spec fn certain_scan(b: Board, i: int) -> Option<Move>
    decreases b.cells@.len() - i,
{
    if i < 0 || i >= b.cells@.len() {
        None
    } else {
        match certain_hint(b, i) {
            Some(m) => Some(m),
            None => certain_scan(b, i + 1),
        }
    }
}

// ---------------------------------------------------------------------------
// The search: frontier cells are decided in increasing order; `lim` is the
// first undecided one.

/// `pick` decides only frontier cells below `lim`.
pub open spec fn partial(b: Board, pick: Seq<bool>, lim: int) -> bool {
    &&& pick.len() == b.cells@.len()
    &&& forall|i: int| 0 <= i < pick.len() && #[trigger] pick[i] ==> in_frontier(b, i) && i < lim
}

/// Uncovered cell `i` can still be satisfied: it sees no more mines than
/// it shows, and no fewer once its undecided neighbours are counted.
pub open spec fn within(b: Board, pick: Seq<bool>, lim: int, i: int) -> bool {
    b.cells@[i].state == CellState::Revealed ==> {
        &&& flags_near(b, i) + picked_at(pick, b.width, around(b, i)) <= number_of(b, i)
        &&& number_of(b, i) <= flags_near(b, i) + picked_at(pick, b.width, around(b, i)) + open_at(
            b,
            around(b, i),
            lim,
        )
    }
}

pub open spec fn partial_ok(b: Board, pick: Seq<bool>, lim: int) -> bool {
    forall|i: int| 0 <= i < b.cells@.len() ==> #[trigger] within(b, pick, lim, i)
}

/// Layout choice `p` agrees with `pick` below `lim`.
pub open spec fn extends(p: Seq<bool>, pick: Seq<bool>, lim: int) -> bool {
    forall|i: int| 0 <= i < lim && i < p.len() ==> #[trigger] p[i] == pick[i]
}

/// The neighbours of a cell lie on the board.
proof fn lemma_around(b: Board, i: int)
    requires
        b.cells@.len() == b.width * b.height,
        0 <= i < b.cells@.len(),
    ensures
        forall|k: int|
            0 <= k < around(b, i).len() ==> in_grid(
                b.width as int,
                b.height as int,
                (#[trigger] around(b, i)[k]).0 as int,
                around(b, i)[k].1 as int,
            ),
        around(b, i).no_duplicates(),
        around(b, i).len() <= 8,
{
    lemma_pos_of(b.width, b.height, i);
    let p = pos_of(b.width, i);
    lemma_neighbor_cells(b.width, b.height, p.0, p.1);
    let ns = around(b, i);
    assert forall|k: int| 0 <= k < ns.len() implies in_grid(
        b.width as int,
        b.height as int,
        (#[trigger] ns[k]).0 as int,
        ns[k].1 as int,
    ) by {
        assert(ns.contains(ns[k]));
    }
}

/// A layout choice that extends `pick` sees, among `ps`, at least the mines
/// `pick` marks and at most those plus the undecided cells.
proof fn lemma_picked_between(b: Board, pick: Seq<bool>, lim: int, p: Seq<bool>, ps: Seq<Pos>)
    requires
        b.cells@.len() == b.width * b.height,
        partial(b, pick, lim),
        p.len() == b.cells@.len(),
        forall|i: int| 0 <= i < p.len() && #[trigger] p[i] ==> in_frontier(b, i),
        extends(p, pick, lim),
        forall|k: int|
            0 <= k < ps.len() ==> in_grid(b.width as int, b.height as int, (#[trigger] ps[k]).0 as int, ps[k].1 as int),
    ensures
        picked_at(pick, b.width, ps) <= picked_at(p, b.width, ps),
        picked_at(p, b.width, ps) <= picked_at(pick, b.width, ps) + open_at(b, ps, lim),
    decreases ps.len(),
{
    if ps.len() > 0 {
        let t = ps.drop_last();
        assert forall|k: int| 0 <= k < t.len() implies in_grid(
            b.width as int,
            b.height as int,
            (#[trigger] t[k]).0 as int,
            t[k].1 as int,
        ) by {
            assert(t[k] == ps[k]);
        }
        lemma_picked_between(b, pick, lim, p, t);
        let q = ps.last();
        assert(in_grid(b.width as int, b.height as int, ps[ps.len() - 1].0 as int, ps[ps.len() - 1].1 as int));
        lemma_index_bounds(b.width, b.height, q.0 as int, q.1 as int);
        let i = index_of(b.width, q.0 as int, q.1 as int);
        if i < lim {
            assert(p[i] == pick[i]);
        } else {
            if pick[i] {
                assert(i < lim);
            }
            if p[i] {
                assert(in_frontier(b, i));
            }
        }
    }
}

/// Every layout extending a partial choice keeps every number within reach.
proof fn lemma_layout_within(b: Board, pick: Seq<bool>, lim: int, p: Seq<bool>, j: nat, i: int)
    requires
        b.cells@.len() == b.width * b.height,
        partial(b, pick, lim),
        is_layout(b, p, j),
        extends(p, pick, lim),
        0 <= i < b.cells@.len(),
    ensures
        within(b, pick, lim, i),
{
    lemma_around(b, i);
    lemma_picked_between(b, pick, lim, p, around(b, i));
    assert(number_agrees(b, p, i));
}

/// Counts over `ps` agree when the choices agree on every cell of `ps`.
proof fn lemma_picked_same(p1: Seq<bool>, p2: Seq<bool>, w: usize, ps: Seq<Pos>)
    requires
        forall|k: int|
            0 <= k < ps.len() ==> p1[index_of(w, (#[trigger] ps[k]).0 as int, ps[k].1 as int)] == p2[index_of(
                w,
                ps[k].0 as int,
                ps[k].1 as int,
            )],
    ensures
        picked_at(p1, w, ps) == picked_at(p2, w, ps),
    decreases ps.len(),
{
    if ps.len() > 0 {
        let t = ps.drop_last();
        assert forall|k: int| 0 <= k < t.len() implies p1[index_of(w, (#[trigger] t[k]).0 as int, t[k].1 as int)]
            == p2[index_of(w, t[k].0 as int, t[k].1 as int)] by {
            assert(t[k] == ps[k]);
        }
        lemma_picked_same(p1, p2, w, t);
        assert(ps.last() == ps[ps.len() - 1]);
    }
}

proof fn lemma_open_same(b: Board, ps: Seq<Pos>, l1: int, l2: int)
    requires
        forall|k: int|
            0 <= k < ps.len() ==> {
                let i = index_of(b.width, (#[trigger] ps[k]).0 as int, ps[k].1 as int);
                (in_frontier(b, i) && i >= l1) == (in_frontier(b, i) && i >= l2)
            },
    ensures
        open_at(b, ps, l1) == open_at(b, ps, l2),
    decreases ps.len(),
{
    if ps.len() > 0 {
        let t = ps.drop_last();
        assert forall|k: int| 0 <= k < t.len() implies {
            let i = index_of(b.width, (#[trigger] t[k]).0 as int, t[k].1 as int);
            (in_frontier(b, i) && i >= l1) == (in_frontier(b, i) && i >= l2)
        } by {
            assert(t[k] == ps[k]);
        }
        lemma_open_same(b, t, l1, l2);
        assert(ps.last() == ps[ps.len() - 1]);
    }
}

/// With every cell of `ps` at index `lim` or beyond the board, nothing is open.
proof fn lemma_open_none(b: Board, ps: Seq<Pos>)
    requires
        b.cells@.len() == b.width * b.height,
        forall|k: int|
            0 <= k < ps.len() ==> in_grid(b.width as int, b.height as int, (#[trigger] ps[k]).0 as int, ps[k].1 as int),
    ensures
        open_at(b, ps, b.cells@.len() as int) == 0,
    decreases ps.len(),
{
    if ps.len() > 0 {
        let t = ps.drop_last();
        assert forall|k: int| 0 <= k < t.len() implies in_grid(
            b.width as int,
            b.height as int,
            (#[trigger] t[k]).0 as int,
            t[k].1 as int,
        ) by {
            assert(t[k] == ps[k]);
        }
        lemma_open_none(b, t);
        assert(in_grid(b.width as int, b.height as int, ps[ps.len() - 1].0 as int, ps[ps.len() - 1].1 as int));
        lemma_index_bounds(b.width, b.height, ps.last().0 as int, ps.last().1 as int);
    }
}


/// `fr` lists the frontier cells, in increasing order.
pub open spec fn frontier_list(b: Board, fr: Seq<usize>) -> bool {
    &&& forall|t: int| 0 <= t < fr.len() ==> in_frontier(b, #[trigger] fr[t] as int)
    &&& forall|t1: int, t2: int| 0 <= t1 < t2 < fr.len() ==> #[trigger] fr[t1] < #[trigger] fr[t2]
    &&& forall|i: int| #[trigger] in_frontier(b, i) ==> exists|t: int| 0 <= t < fr.len() && fr[t] == i
}

/// The first undecided cell once the first `d` frontier cells are decided.
pub open spec fn lim_of(b: Board, fr: Seq<usize>, d: int) -> int {
    if d < fr.len() {
        fr[d] as int
    } else {
        b.cells@.len() as int
    }
}

proof fn lemma_between(b: Board, fr: Seq<usize>, d: int, i: int)
    requires
        frontier_list(b, fr),
        0 <= d < fr.len(),
        fr[d] < i < lim_of(b, fr, d + 1 as int),
    ensures
        !in_frontier(b, i),
{
    if in_frontier(b, i) {
        let t = choose|t: int| 0 <= t < fr.len() && fr[t] == i;
        if t <= d {
            if t < d {
                assert(fr[t] < fr[d]);
            }
        } else if t > d + 1 {
            assert(fr[d + 1] < fr[t]);
        }
    }
}


/// The frontier cells among the first `k`, in increasing order.
pub open spec fn frontier_upto(b: Board, k: nat) -> Seq<usize>
    decreases k,
{
    if k == 0 {
        seq![]
    } else {
        let prev = frontier_upto(b, (k - 1) as nat);
        if in_frontier(b, k - 1) {
            prev.push((k - 1) as usize)
        } else {
            prev
        }
    }
}

pub open spec fn frontier_seq(b: Board) -> Seq<usize> {
    frontier_upto(b, b.cells@.len())
}

/// The free mines a frontier choice leaves to reach the mine count.
pub open spec fn leaf_j(b: Board, pick: Seq<bool>) -> int {
    b.mine_count - count_cells(b.cells@, CellClass::Flagged) - count_true(pick)
}

/// The frontier choice, with the free mines it leaves, is a layout.
pub open spec fn leaf_layout(b: Board, pick: Seq<bool>) -> bool {
    leaf_j(b, pick) >= 0 && is_layout(b, pick, leaf_j(b, pick) as nat)
}

/// What layout `(pick, j)` adds to a mine weight: for frontier cell `cell`,
/// the ways to place the free mines when `pick` puts a mine on it; for
/// `cell == -1`, the ways that put one of the free mines on a given free
/// cell. A layout stands for `binom(free_count(b), j)` full placements.
pub open spec fn weigh(b: Board, cell: int, pick: Seq<bool>, j: nat) -> nat {
    let nf = free_count(b);
    if cell >= 0 {
        if pick[cell] {
            binom(nf, j)
        } else {
            0
        }
    } else if j > 0 {
        binom((nf - 1) as nat, (j - 1) as nat)
    } else {
        0
    }
}

/// The sum of `weigh(b, cell, ..)` over the layouts whose frontier choice
/// agrees with `pick` but on the cells `fr[d..]`, each decided both ways.
pub open spec fn layout_sum(b: Board, fr: Seq<usize>, pick: Seq<bool>, d: nat, cell: int) -> nat
    decreases fr.len() - d,
{
    if d >= fr.len() {
        if leaf_layout(b, pick) {
            weigh(b, cell, pick, leaf_j(b, pick) as nat)
        } else {
            0
        }
    } else {
        layout_sum(b, fr, pick.update(fr[d as int] as int, true), d + 1, cell) + layout_sum(
            b,
            fr,
            pick.update(fr[d as int] as int, false),
            d + 1,
            cell,
        )
    }
}

/// How many full placements of the mines consistent with the board put a
/// mine on hidden cell `i`. Every placement counted alike, the chance that
/// `i` holds a mine is this over the number of all placements, the same for
/// every cell.
pub open spec fn mine_weight(b: Board, i: int) -> nat {
    let start = Seq::new(b.cells@.len(), |k: int| false);
    if in_frontier(b, i) {
        layout_sum(b, frontier_seq(b), start, 0, i)
    } else {
        layout_sum(b, frontier_seq(b), start, 0, -1)
    }
}

/// The guess: nothing when no cell is hidden, else the uncovering of a
/// hidden cell least likely to hold a mine, a frontier cell when one is
/// among the least likely.
pub open spec fn least_likely(b: Board, r: Option<Move>) -> bool {
    &&& r is None <==> !(exists|k: int| 0 <= k < b.cells@.len() && (#[trigger] b.cells@[k]).state == CellState::Hidden)
    &&& r matches Some(m) ==> exists|i: int|
        #![trigger b.cells@[i]]
        0 <= i < b.cells@.len() && b.cells@[i].state == CellState::Hidden && m == Move::Reveal(
            pos_of(b.width, i).0,
            pos_of(b.width, i).1,
        ) && (forall|k: int|
            0 <= k < b.cells@.len() && (#[trigger] b.cells@[k]).state == CellState::Hidden ==> mine_weight(b, i)
                <= mine_weight(b, k)) && ((exists|k: int| #[trigger] in_frontier(b, k) && mine_weight(b, k) == mine_weight(b, i))
            ==> in_frontier(b, i))
}

/// No layout agrees with `pick` below `lim(d)`: the sum over them is zero.
proof fn lemma_sum_none(b: Board, fr: Seq<usize>, pick: Seq<bool>, d: nat, cell: int)
    requires
        frontier_list(b, fr),
        d <= fr.len(),
        pick.len() == b.cells@.len(),
        forall|p: Seq<bool>, j: nat| #[trigger] is_layout(b, p, j) ==> !extends(p, pick, lim_of(b, fr, d as int)),
    ensures
        layout_sum(b, fr, pick, d, cell) == 0,
    decreases fr.len() - d,
{
    if d >= fr.len() {
        if leaf_layout(b, pick) {
            assert(is_layout(b, pick, leaf_j(b, pick) as nat));
            assert(extends(pick, pick, lim_of(b, fr, d as int)));
        }
    } else {
        let fi = fr[d as int] as int;
        assert(fi < lim_of(b, fr, d + 1 as int)) by {
            if d + 1 < fr.len() {
                assert(fr[d as int] < fr[d + 1 as int]);
            } else {
                assert(in_frontier(b, fi));
            }
        }
        let c1 = pick.update(fi, true);
        let c0 = pick.update(fi, false);
        assert forall|p: Seq<bool>, j: nat| #[trigger] is_layout(b, p, j) implies !extends(p, c1, lim_of(b, fr, d + 1 as int)) by {
            if extends(p, c1, lim_of(b, fr, d + 1 as int)) {
                assert forall|i: int| 0 <= i < lim_of(b, fr, d as int) && i < p.len() implies #[trigger] p[i] == pick[i] by {
                    assert(p[i] == c1[i]);
                }
            }
        }
        assert forall|p: Seq<bool>, j: nat| #[trigger] is_layout(b, p, j) implies !extends(p, c0, lim_of(b, fr, d + 1 as int)) by {
            if extends(p, c0, lim_of(b, fr, d + 1 as int)) {
                assert forall|i: int| 0 <= i < lim_of(b, fr, d as int) && i < p.len() implies #[trigger] p[i] == pick[i] by {
                    assert(p[i] == c0[i]);
                }
            }
        }
        lemma_sum_none(b, fr, c1, d + 1, cell);
        lemma_sum_none(b, fr, c0, d + 1, cell);
    }
}

/// A number that cannot be satisfied rules out every layout below.
proof fn lemma_sum_pruned(b: Board, fr: Seq<usize>, pick: Seq<bool>, d: nat, cell: int, c: int)
    requires
        b.cells@.len() == b.width * b.height,
        frontier_list(b, fr),
        d <= fr.len(),
        partial(b, pick, lim_of(b, fr, d as int)),
        0 <= c < b.cells@.len(),
        !within(b, pick, lim_of(b, fr, d as int), c),
    ensures
        layout_sum(b, fr, pick, d, cell) == 0,
{
    assert forall|p: Seq<bool>, j: nat| #[trigger] is_layout(b, p, j) implies !extends(p, pick, lim_of(b, fr, d as int)) by {
        if extends(p, pick, lim_of(b, fr, d as int)) {
            lemma_layout_within(b, pick, lim_of(b, fr, d as int), p, j, c);
        }
    }
    lemma_sum_none(b, fr, pick, d, cell);
}

/// What the search has seen: some layout, a frontier cell as mine or as
/// safe, some free cell holding a mine, some free cell without one.
struct Tally {
    any: bool,
    seen_mine: Vec<bool>,
    seen_safe: Vec<bool>,
    free_mine: bool,
    free_safe: bool,
    /// Per cell, the mine weight gathered so far.
    weight: Vec<Vec<u32>>,
    /// The mine weight of a free cell gathered so far.
    free_weight: Vec<u32>,
}

/// Everything the tally says was seen in some layout.
spec fn tally_sound(b: Board, t: Tally) -> bool {
    &&& t.seen_mine@.len() == b.cells@.len()
    &&& t.seen_safe@.len() == b.cells@.len()
    &&& t.weight@.len() == b.cells@.len()
    &&& t.any ==> has_layout(b)
    &&& forall|i: int|
        0 <= i < b.cells@.len() && #[trigger] t.seen_mine@[i] ==> exists|p: Seq<bool>, j: nat|
            #[trigger] is_layout(b, p, j) && p[i]
    &&& forall|i: int|
        0 <= i < b.cells@.len() && #[trigger] t.seen_safe@[i] ==> exists|p: Seq<bool>, j: nat|
            #[trigger] is_layout(b, p, j) && !p[i]
    &&& t.free_mine ==> exists|p: Seq<bool>, j: nat| #[trigger] is_layout(b, p, j) && j > 0
    &&& t.free_safe ==> exists|p: Seq<bool>, j: nat| #[trigger] is_layout(b, p, j) && j < free_count(b)
}

/// The tally has seen layout `(p, j)`.
spec fn covers(b: Board, t: Tally, p: Seq<bool>, j: nat) -> bool {
    &&& t.any
    &&& forall|i: int|
        #[trigger] in_frontier(b, i) ==> (p[i] ==> t.seen_mine@[i]) && (!p[i] ==> t.seen_safe@[i])
    &&& j > 0 ==> t.free_mine
    &&& j < free_count(b) ==> t.free_safe
}

/// Nothing seen is forgotten.
spec fn grows(t0: Tally, t1: Tally) -> bool {
    &&& t1.seen_mine@.len() == t0.seen_mine@.len()
    &&& t1.seen_safe@.len() == t0.seen_safe@.len()
    &&& t1.weight@.len() == t0.weight@.len()
    &&& t0.any ==> t1.any
    &&& t0.free_mine ==> t1.free_mine
    &&& t0.free_safe ==> t1.free_safe
    &&& forall|i: int| 0 <= i < t0.seen_mine@.len() && #[trigger] t0.seen_mine@[i] ==> t1.seen_mine@[i]
    &&& forall|i: int| 0 <= i < t0.seen_safe@.len() && #[trigger] t0.seen_safe@[i] ==> t1.seen_safe@[i]
}

proof fn lemma_covers_grows(b: Board, t0: Tally, t1: Tally, p: Seq<bool>, j: nat)
    requires
        t0.seen_mine@.len() == b.cells@.len(),
        t0.seen_safe@.len() == b.cells@.len(),
        covers(b, t0, p, j),
        grows(t0, t1),
    ensures
        covers(b, t1, p, j),
{
    assert forall|i: int| #[trigger] in_frontier(b, i) implies (p[i] ==> t1.seen_mine@[i]) && (!p[i]
        ==> t1.seen_safe@[i]) by {
        if p[i] {
            assert(t0.seen_mine@[i]);
        } else {
            assert(t0.seen_safe@[i]);
        }
    }
}

/// Whether cell `i` touches an uncovered cell.
fn touches(board: &Board, i: usize) -> (r: bool)
    requires
        board.cells@.len() == board.width * board.height,
        i < board.cells@.len(),
    ensures
        r == touches_revealed(*board, i as int),
{
    proof {
        lemma_pos_of(board.width, board.height, i as int);
        lemma_around(*board, i as int);
    }
    let ns = board.neighbors(i % board.width, i / board.width);
    let ghost b = *board;
    let mut k: usize = 0;
    while k < ns.len()
        invariant
            k <= ns@.len(),
            b == *board,
            ns@ == around(b, i as int),
            board.cells@.len() == board.width * board.height,
            forall|m: int| 0 <= m < ns@.len() ==> in_grid(b.width as int, b.height as int, (#[trigger] ns@[m]).0 as int, ns@[m].1 as int),
            forall|m: int|
                0 <= m < k ==> (#[trigger] b.cells@[index_of(b.width, ns@[m].0 as int, ns@[m].1 as int)]).state
                    != CellState::Revealed,
        decreases ns@.len() - k,
    {
        let q = ns[k];
        proof {
            assert(in_grid(b.width as int, b.height as int, ns@[k as int].0 as int, ns@[k as int].1 as int));
        }
        if board.cell(q.0, q.1).state == CellState::Revealed {
            return true;
        }
        k = k + 1;
    }
    false
}

/// Marks the frontier cells and lists them in increasing order.
fn frontier_of(board: &Board) -> (r: (Vec<bool>, Vec<usize>))
    requires
        board.cells@.len() == board.width * board.height,
    ensures
        r.0@.len() == board.cells@.len(),
        forall|i: int| 0 <= i < board.cells@.len() ==> r.0@[i] == in_frontier(*board, i),
        frontier_list(*board, r.1@),
        r.1@ == frontier_seq(*board),
        forall|t: int| 0 <= t < r.1@.len() ==> #[trigger] r.1@[t] < board.cells@.len(),
{
    let n = board.cells.len();
    let mut is_front: Vec<bool> = Vec::new();
    let mut fr: Vec<usize> = Vec::new();
    let mut i: usize = 0;
    while i < n
        invariant
            i <= n,
            n == board.cells@.len(),
            board.cells@.len() == board.width * board.height,
            is_front@.len() == i,
            fr@ == frontier_upto(*board, i as nat),
            forall|m: int| 0 <= m < i ==> is_front@[m] == in_frontier(*board, m),
            forall|t: int| 0 <= t < fr@.len() ==> #[trigger] fr@[t] < i,
            forall|t: int| 0 <= t < fr@.len() ==> in_frontier(*board, #[trigger] fr@[t] as int),
            forall|t1: int, t2: int| 0 <= t1 < t2 < fr@.len() ==> #[trigger] fr@[t1] < #[trigger] fr@[t2],
            forall|m: int| 0 <= m < i && #[trigger] in_frontier(*board, m) ==> exists|t: int| 0 <= t < fr@.len() && fr@[t] == m,
        decreases n - i,
    {
        let f = board.cells[i].state == CellState::Hidden && touches(board, i);
        is_front.push(f);
        if f {
            let ghost old_fr = fr@;
            fr.push(i);
            proof {
                assert forall|m: int| 0 <= m < i + 1 && #[trigger] in_frontier(*board, m) implies exists|t: int|
                    0 <= t < fr@.len() && fr@[t] == m by {
                    if m < i {
                        let t = choose|t: int| 0 <= t < old_fr.len() && old_fr[t] == m;
                        assert(fr@[t] == m);
                    } else {
                        assert(fr@[fr@.len() - 1] == m);
                    }
                }
                assert forall|t1: int, t2: int| 0 <= t1 < t2 < fr@.len() implies #[trigger] fr@[t1] < #[trigger] fr@[t2] by {
                    if t2 < old_fr.len() {
                        assert(fr@[t1] == old_fr[t1] && fr@[t2] == old_fr[t2]);
                    } else {
                        assert(fr@[t1] == old_fr[t1]);
                    }
                }
            }
        }
        i = i + 1;
    }
    proof {
        assert forall|m: int| #[trigger] in_frontier(*board, m) implies exists|t: int| 0 <= t < fr@.len() && fr@[t] == m by {
            assert(0 <= m < n);
        }
    }
    (is_front, fr)
}

/// The number of free cells.
fn free_cells(board: &Board, is_front: &Vec<bool>) -> (r: usize)
    requires
        is_front@.len() == board.cells@.len(),
        forall|i: int| 0 <= i < board.cells@.len() ==> is_front@[i] == in_frontier(*board, i),
    ensures
        r == free_count(*board),
{
    let n = board.cells.len();
    let mut c: usize = 0;
    let mut i: usize = 0;
    while i < n
        invariant
            i <= n,
            n == board.cells@.len(),
            is_front@.len() == n,
            forall|m: int| 0 <= m < n ==> is_front@[m] == in_frontier(*board, m),
            c == free_upto(*board, i as int),
            c <= i,
        decreases n - i,
    {
        proof {
            assert(free_upto(*board, i + 1) == free_upto(*board, i as int) + one_if(is_free(*board, i as int)));
        }
        let hid = board.cells[i].state == CellState::Hidden;
        let fr_i = is_front[i];
        proof {
            assert(fr_i == in_frontier(*board, i as int));
            assert(is_free(*board, i as int) == (hid && !fr_i));
        }
        if hid && !fr_i {
            c = c + 1;
        }
        i = i + 1;
    }
    c
}

/// The number of true entries of `pick`.
fn count_picks(pick: &Vec<bool>) -> (r: usize)
    ensures
        r == count_true(pick@),
{
    let n = pick.len();
    let mut c: usize = 0;
    let mut i: usize = 0;
    while i < n
        invariant
            i <= n,
            n == pick@.len(),
            c == count_true(pick@.take(i as int)),
            c <= i,
        decreases n - i,
    {
        proof {
            assert(pick@.take(i + 1).drop_last() =~= pick@.take(i as int));
        }
        if pick[i] {
            c = c + 1;
        }
        i = i + 1;
    }
    proof {
        assert(pick@.take(n as int) =~= pick@);
    }
    c
}

/// `n` entries, all false.
fn falses(n: usize) -> (r: Vec<bool>)
    ensures
        r@.len() == n,
        forall|i: int| 0 <= i < n ==> !(#[trigger] r@[i]),
{
    let mut r: Vec<bool> = Vec::new();
    let mut i: usize = 0;
    while i < n
        invariant
            i <= n,
            r@.len() == i,
            forall|m: int| 0 <= m < i ==> !(#[trigger] r@[m]),
        decreases n - i,
    {
        r.push(false);
        i = i + 1;
    }
    r
}

/// Whether uncovered cell `c` can still be satisfied by `pick`, with the
/// frontier cells from `lim` on undecided.
fn cell_within(board: &Board, pick: &Vec<bool>, is_front: &Vec<bool>, c: usize, lim: usize) -> (r: bool)
    requires
        board.cells@.len() == board.width * board.height,
        pick@.len() == board.cells@.len(),
        is_front@.len() == board.cells@.len(),
        forall|i: int| 0 <= i < board.cells@.len() ==> is_front@[i] == in_frontier(*board, i),
        c < board.cells@.len(),
    ensures
        r == within(*board, pick@, lim as int, c as int),
{
    if board.cells[c].state != CellState::Revealed {
        return true;
    }
    proof {
        lemma_pos_of(board.width, board.height, c as int);
        lemma_around(*board, c as int);
    }
    let ns = board.neighbors(c % board.width, c / board.width);
    let ghost b = *board;
    let mut f: usize = 0;
    let mut p: usize = 0;
    let mut u: usize = 0;
    let mut k: usize = 0;
    while k < ns.len()
        invariant
            k <= ns@.len(),
            ns@.len() <= 8,
            b == *board,
            ns@ == around(b, c as int),
            board.cells@.len() == board.width * board.height,
            pick@.len() == board.cells@.len(),
            is_front@.len() == board.cells@.len(),
            forall|i: int| 0 <= i < board.cells@.len() ==> is_front@[i] == in_frontier(*board, i),
            forall|m: int| 0 <= m < ns@.len() ==> in_grid(b.width as int, b.height as int, (#[trigger] ns@[m]).0 as int, ns@[m].1 as int),
            f == count_at(b.cells@, b.width, ns@.take(k as int), CellClass::Flagged),
            p == picked_at(pick@, b.width, ns@.take(k as int)),
            u == open_at(b, ns@.take(k as int), lim as int),
            f <= k,
            p <= k,
            u <= k,
        decreases ns@.len() - k,
    {
        let q = ns[k];
        proof {
            assert(in_grid(b.width as int, b.height as int, ns@[k as int].0 as int, ns@[k as int].1 as int));
            assert(ns@.take(k + 1).drop_last() =~= ns@.take(k as int));
            assert(ns@.take(k + 1).last() == q);
        }
        let qi = board.idx(q.0, q.1);
        if board.cells[qi].state == CellState::Flagged {
            f = f + 1;
        }
        if pick[qi] {
            p = p + 1;
        }
        if is_front[qi] && qi >= lim {
            u = u + 1;
        }
        k = k + 1;
    }
    proof {
        assert(ns@.take(k as int) =~= ns@);
    }
    let a = board.cells[c].adjacent_mines as usize;
    f + p <= a && a <= f + p + u
}

/// Whether every uncovered neighbour of frontier cell `fi` can still be
/// satisfied.
fn local_ok(board: &Board, pick: &Vec<bool>, is_front: &Vec<bool>, fi: usize, lim: usize) -> (r: bool)
    requires
        board.cells@.len() == board.width * board.height,
        pick@.len() == board.cells@.len(),
        is_front@.len() == board.cells@.len(),
        forall|i: int| 0 <= i < board.cells@.len() ==> is_front@[i] == in_frontier(*board, i),
        fi < board.cells@.len(),
    ensures
        r == forall|k: int|
            0 <= k < around(*board, fi as int).len() ==> #[trigger] within(
                *board,
                pick@,
                lim as int,
                index_of(board.width, around(*board, fi as int)[k].0 as int, around(*board, fi as int)[k].1 as int),
            ),
{
    proof {
        lemma_pos_of(board.width, board.height, fi as int);
        lemma_around(*board, fi as int);
    }
    let ns = board.neighbors(fi % board.width, fi / board.width);
    let ghost b = *board;
    let mut k: usize = 0;
    while k < ns.len()
        invariant
            k <= ns@.len(),
            b == *board,
            ns@ == around(b, fi as int),
            board.cells@.len() == board.width * board.height,
            pick@.len() == board.cells@.len(),
            is_front@.len() == board.cells@.len(),
            forall|i: int| 0 <= i < board.cells@.len() ==> is_front@[i] == in_frontier(*board, i),
            forall|m: int| 0 <= m < ns@.len() ==> in_grid(b.width as int, b.height as int, (#[trigger] ns@[m]).0 as int, ns@[m].1 as int),
            forall|m: int|
                0 <= m < k ==> #[trigger] within(
                    b,
                    pick@,
                    lim as int,
                    index_of(b.width, ns@[m].0 as int, ns@[m].1 as int),
                ),
        decreases ns@.len() - k,
    {
        let q = ns[k];
        proof {
            assert(in_grid(b.width as int, b.height as int, ns@[k as int].0 as int, ns@[k as int].1 as int));
        }
        let qi = board.idx(q.0, q.1);
        if !cell_within(board, pick, is_front, qi, lim) {
            return false;
        }
        k = k + 1;
    }
    true
}

/// Whether every uncovered cell can still be satisfied.
fn all_within(board: &Board, pick: &Vec<bool>, is_front: &Vec<bool>, lim: usize) -> (r: bool)
    requires
        board.cells@.len() == board.width * board.height,
        pick@.len() == board.cells@.len(),
        is_front@.len() == board.cells@.len(),
        forall|i: int| 0 <= i < board.cells@.len() ==> is_front@[i] == in_frontier(*board, i),
    ensures
        r == partial_ok(*board, pick@, lim as int),
{
    let n = board.cells.len();
    let mut i: usize = 0;
    while i < n
        invariant
            i <= n,
            n == board.cells@.len(),
            board.cells@.len() == board.width * board.height,
            pick@.len() == board.cells@.len(),
            is_front@.len() == board.cells@.len(),
            forall|m: int| 0 <= m < board.cells@.len() ==> is_front@[m] == in_frontier(*board, m),
            forall|m: int| 0 <= m < i ==> #[trigger] within(*board, pick@, lim as int, m),
        decreases n - i,
    {
        if !cell_within(board, pick, is_front, i, lim) {
            return false;
        }
        i = i + 1;
    }
    true
}


/// Deciding frontier cell `fi` and moving on to `lim2` can only change what
/// the neighbours of `fi` see: when they can all still be satisfied, so can
/// every number.
proof fn lemma_locality(b: Board, old_pick: Seq<bool>, new_pick: Seq<bool>, fi: int, lim2: int)
    requires
        b.cells@.len() == b.width * b.height,
        partial_ok(b, old_pick, fi),
        old_pick.len() == b.cells@.len(),
        new_pick.len() == b.cells@.len(),
        forall|i: int| 0 <= i < b.cells@.len() && i != fi ==> new_pick[i] == old_pick[i],
        0 <= fi < lim2,
        fi < b.cells@.len(),
        forall|i: int| fi < i < lim2 ==> !in_frontier(b, i),
        forall|k: int|
            0 <= k < around(b, fi).len() ==> #[trigger] within(
                b,
                new_pick,
                lim2,
                index_of(b.width, around(b, fi)[k].0 as int, around(b, fi)[k].1 as int),
            ),
    ensures
        partial_ok(b, new_pick, lim2),
{
    let w = b.width;
    let h = b.height;
    let nf = around(b, fi);
    lemma_around(b, fi);
    lemma_pos_of(w, h, fi);
    let pf = pos_of(w, fi);
    lemma_neighbor_cells(w, h, pf.0, pf.1);
    assert forall|c: int| 0 <= c < b.cells@.len() implies #[trigger] within(b, new_pick, lim2, c) by {
        let ns = around(b, c);
        lemma_around(b, c);
        lemma_pos_of(w, h, c);
        let pc = pos_of(w, c);
        lemma_neighbor_cells(w, h, pc.0, pc.1);
        if nf.contains(pc) {
            let k = choose|k: int| 0 <= k < nf.len() && nf[k] == pc;
            assert(within(b, new_pick, lim2, index_of(w, nf[k].0 as int, nf[k].1 as int)));
        } else {
            assert forall|k: int| 0 <= k < ns.len() implies index_of(w, (#[trigger] ns[k]).0 as int, ns[k].1 as int)
                != fi by {
                let q = ns[k];
                assert(ns.contains(q));
                if index_of(w, q.0 as int, q.1 as int) == fi {
                    lemma_index_roundtrip(w, h, q.0 as int, q.1 as int);
                    assert(pf == q);
                    assert(nf.contains(pc));
                }
            }
            assert forall|k: int| 0 <= k < ns.len() implies new_pick[index_of(w, (#[trigger] ns[k]).0 as int, ns[k].1 as int)]
                == old_pick[index_of(w, ns[k].0 as int, ns[k].1 as int)] by {
                lemma_index_bounds(w, h, ns[k].0 as int, ns[k].1 as int);
            }
            lemma_picked_same(new_pick, old_pick, w, ns);
            lemma_open_same(b, ns, fi, lim2);
            assert(within(b, old_pick, fi, c));
        }
    }
}

/// Records layout `(pick, j)` in the tally, with its weights: `row` holds
/// `binom(free, k)` and `row1` holds `binom(free - 1, k)`.
fn record(
    board: &Board,
    pick: &Vec<bool>,
    is_front: &Vec<bool>,
    j: usize,
    free: usize,
    row: &Vec<Vec<u32>>,
    row1: &Vec<Vec<u32>>,
    tally: &mut Tally,
)
    requires
        is_layout(*board, pick@, j as nat),
        free == free_count(*board),
        is_front@.len() == board.cells@.len(),
        forall|i: int| 0 <= i < board.cells@.len() ==> is_front@[i] == in_frontier(*board, i),
        row@.len() == free + 1,
        forall|k: int| 0 <= k <= free ==> val((#[trigger] row@[k])@) == binom(free as nat, k as nat),
        free > 0 ==> row1@.len() == free,
        free > 0 ==> forall|k: int| 0 <= k < free ==> val((#[trigger] row1@[k])@) == binom((free - 1) as nat, k as nat),
        tally_sound(*board, *old(tally)),
    ensures
        tally_sound(*board, *final(tally)),
        grows(*old(tally), *final(tally)),
        covers(*board, *final(tally), pick@, j as nat),
        forall|i: int|
            0 <= i < board.cells@.len() ==> val((#[trigger] final(tally).weight@[i])@) == val(old(tally).weight@[i]@)
                + weigh(*board, i, pick@, j as nat),
        val(final(tally).free_weight@) == val(old(tally).free_weight@) + weigh(*board, -1, pick@, j as nat),
{
    let ghost t0 = *tally;
    let ghost b = *board;
    tally.any = true;
    if j > 0 {
        tally.free_mine = true;
        let fw = big_add(&tally.free_weight, &row1[j - 1]);
        tally.free_weight = fw;
    }
    if j < free {
        tally.free_safe = true;
    }
    let n = board.cells.len();
    let mut i: usize = 0;
    while i < n
        invariant
            i <= n,
            n == b.cells@.len(),
            b == *board,
            is_layout(b, pick@, j as nat),
            free == free_count(b),
            row@.len() == free + 1,
            forall|k: int| 0 <= k <= free ==> val((#[trigger] row@[k])@) == binom(free as nat, k as nat),
            is_front@.len() == n,
            forall|m: int| 0 <= m < n ==> is_front@[m] == in_frontier(b, m),
            tally_sound(b, t0),
            tally.any,
            j > 0 ==> tally.free_mine,
            j < free ==> tally.free_safe,
            tally.free_mine ==> t0.free_mine || j > 0,
            t0.free_mine ==> tally.free_mine,
            t0.free_safe ==> tally.free_safe,
            tally.free_safe ==> t0.free_safe || j < free,
            val(tally.free_weight@) == val(t0.free_weight@) + weigh(b, -1, pick@, j as nat),
            tally.seen_mine@.len() == n,
            tally.seen_safe@.len() == n,
            tally.weight@.len() == n,
            forall|m: int| 0 <= m < n && #[trigger] tally.seen_mine@[m] ==> t0.seen_mine@[m] || pick@[m],
            forall|m: int| 0 <= m < n && #[trigger] tally.seen_safe@[m] ==> t0.seen_safe@[m] || !pick@[m],
            forall|m: int| 0 <= m < n && #[trigger] t0.seen_mine@[m] ==> tally.seen_mine@[m],
            forall|m: int| 0 <= m < n && #[trigger] t0.seen_safe@[m] ==> tally.seen_safe@[m],
            forall|m: int|
                0 <= m < i && #[trigger] in_frontier(b, m) ==> (pick@[m] ==> tally.seen_mine@[m]) && (!pick@[m]
                    ==> tally.seen_safe@[m]),
            forall|m: int|
                0 <= m < i ==> val((#[trigger] tally.weight@[m])@) == val(t0.weight@[m]@) + weigh(b, m, pick@, j as nat),
            forall|m: int| i <= m < n ==> #[trigger] tally.weight@[m] == t0.weight@[m],
        decreases n - i,
    {
        if is_front[i] {
            if pick[i] {
                tally.seen_mine.set(i, true);
                let nw = big_add(&tally.weight[i], &row[j]);
                tally.weight.set(i, nw);
            } else {
                tally.seen_safe.set(i, true);
            }
        }
        proof {
            if !pick@[i as int] {
                assert(weigh(b, i as int, pick@, j as nat) == 0);
            }
        }
        i = i + 1;
    }
    proof {
        let t1 = *tally;
        assert(is_layout(b, pick@, j as nat));
        assert forall|m: int| 0 <= m < n && #[trigger] t1.seen_mine@[m] implies exists|p: Seq<bool>, jj: nat|
            #[trigger] is_layout(b, p, jj) && p[m] by {
            if !t0.seen_mine@[m] {
                assert(is_layout(b, pick@, j as nat) && pick@[m]);
            }
        }
        assert forall|m: int| 0 <= m < n && #[trigger] t1.seen_safe@[m] implies exists|p: Seq<bool>, jj: nat|
            #[trigger] is_layout(b, p, jj) && !p[m] by {
            if !t0.seen_safe@[m] {
                assert(is_layout(b, pick@, j as nat) && !pick@[m]);
            }
        }
        if t1.free_mine && !t0.free_mine {
            assert(is_layout(b, pick@, j as nat) && j > 0);
        }
        if t1.free_safe && !t0.free_safe {
            assert(is_layout(b, pick@, j as nat) && j < free_count(b));
        }
        assert forall|m: int| #[trigger] in_frontier(b, m) implies (pick@[m] ==> t1.seen_mine@[m]) && (!pick@[m]
            ==> t1.seen_safe@[m]) by {}
    }
}

/// Decides the frontier cells from the `d`-th on, in both ways, skipping
/// every choice a number already rules out, and records each layout found
/// with its weights.
fn explore(
    board: &Board,
    fr: &Vec<usize>,
    is_front: &Vec<bool>,
    d: usize,
    pick: &mut Vec<bool>,
    tally: &mut Tally,
    flags: usize,
    free: usize,
    row: &Vec<Vec<u32>>,
    row1: &Vec<Vec<u32>>,
)
    requires
        board.cells@.len() == board.width * board.height,
        frontier_list(*board, fr@),
        forall|t: int| 0 <= t < fr@.len() ==> #[trigger] fr@[t] < board.cells@.len(),
        is_front@.len() == board.cells@.len(),
        forall|i: int| 0 <= i < board.cells@.len() ==> is_front@[i] == in_frontier(*board, i),
        d <= fr@.len(),
        partial(*board, old(pick)@, lim_of(*board, fr@, d as int)),
        partial_ok(*board, old(pick)@, lim_of(*board, fr@, d as int)),
        flags == count_cells(board.cells@, CellClass::Flagged),
        free == free_count(*board),
        row@.len() == free + 1,
        forall|k: int| 0 <= k <= free ==> val((#[trigger] row@[k])@) == binom(free as nat, k as nat),
        free > 0 ==> row1@.len() == free,
        free > 0 ==> forall|k: int| 0 <= k < free ==> val((#[trigger] row1@[k])@) == binom((free - 1) as nat, k as nat),
        tally_sound(*board, *old(tally)),
    ensures
        final(pick)@ == old(pick)@,
        tally_sound(*board, *final(tally)),
        grows(*old(tally), *final(tally)),
        forall|p: Seq<bool>, j: nat|
            #[trigger] is_layout(*board, p, j) && extends(p, old(pick)@, lim_of(*board, fr@, d as int)) ==> covers(
                *board,
                *final(tally),
                p,
                j,
            ),
        forall|i: int|
            0 <= i < board.cells@.len() ==> val((#[trigger] final(tally).weight@[i])@) == val(old(tally).weight@[i]@)
                + layout_sum(*board, fr@, old(pick)@, d as nat, i),
        val(final(tally).free_weight@) == val(old(tally).free_weight@) + layout_sum(*board, fr@, old(pick)@, d as nat, -1),
    decreases fr@.len() - d,
{
    let ghost b = *board;
    let ghost p0 = pick@;
    let ghost t0 = *tally;
    let n = board.cells.len();
    if d == fr.len() {
        let k = count_picks(pick);
        if board.mine_count >= flags && board.mine_count - flags >= k {
            let j = board.mine_count - flags - k;
            if j <= free {
                proof {
                    assert forall|i: int| 0 <= i < pick@.len() implies #[trigger] number_agrees(b, pick@, i) by {
                        lemma_around(b, i);
                        lemma_open_none(b, around(b, i));
                        assert(within(b, pick@, n as int, i));
                    }
                    assert(is_layout(b, pick@, j as nat));
                    assert(leaf_layout(b, p0));
                }
                record(board, pick, is_front, j, free, row, row1, tally);
            }
        }
        proof {
            assert forall|p: Seq<bool>, j: nat|
                #[trigger] is_layout(b, p, j) && extends(p, p0, lim_of(b, fr@, d as int)) implies covers(b, *tally, p, j) by {
                assert(p =~= p0);
            }
            if leaf_layout(b, p0) {
                assert(leaf_j(b, p0) >= 0);
                assert(board.mine_count >= flags && board.mine_count - flags >= k);
            }
        }
        return;
    }
    let fi = fr[d];
    let lim2: usize = if d + 1 < fr.len() {
        fr[d + 1]
    } else {
        n
    };
    proof {
        assert(fi < lim2) by {
            if d + 1 < fr@.len() {
                assert(fr@[d as int] < fr@[d + 1]);
            }
        }
        assert forall|i: int| fi < i < lim2 implies !in_frontier(b, i) by {
            lemma_between(b, fr@, d as int, i);
        }
        assert(!p0[fi as int]);
        assert(lim2 == lim_of(b, fr@, d + 1));
    }
    let ghost c1 = p0.update(fi as int, true);
    let ghost c0 = p0.update(fi as int, false);
    // The cell holds a mine.
    pick.set(fi, true);
    proof {
        assert(pick@ == c1);
    }
    let ok1 = local_ok(board, pick, is_front, fi, lim2);
    if ok1 {
        proof {
            lemma_locality(b, p0, pick@, fi as int, lim2 as int);
        }
        explore(board, fr, is_front, d + 1, pick, tally, flags, free, row, row1);
    } else {
        proof {
            let nf = around(b, fi as int);
            let k = choose|k: int| 0 <= k < nf.len() && !within(b, c1, lim2 as int, index_of(b.width, nf[k].0 as int, nf[k].1 as int));
            lemma_around(b, fi as int);
            lemma_index_bounds(b.width, b.height, nf[k].0 as int, nf[k].1 as int);
            assert forall|i: int| -1 <= i < n implies #[trigger] layout_sum(b, fr@, c1, (d + 1) as nat, i) == 0 by {
                lemma_sum_pruned(b, fr@, c1, (d + 1) as nat, i, index_of(b.width, nf[k].0 as int, nf[k].1 as int));
            }
        }
    }
    let ghost t1 = *tally;
    // The cell is safe.
    pick.set(fi, false);
    proof {
        assert(pick@ =~= p0);
        assert(c0 =~= p0);
    }
    let ok2 = local_ok(board, pick, is_front, fi, lim2);
    if ok2 {
        proof {
            lemma_locality(b, p0, pick@, fi as int, lim2 as int);
        }
        explore(board, fr, is_front, d + 1, pick, tally, flags, free, row, row1);
    } else {
        proof {
            let nf = around(b, fi as int);
            let k = choose|k: int| 0 <= k < nf.len() && !within(b, c0, lim2 as int, index_of(b.width, nf[k].0 as int, nf[k].1 as int));
            lemma_around(b, fi as int);
            lemma_index_bounds(b.width, b.height, nf[k].0 as int, nf[k].1 as int);
            assert forall|i: int| -1 <= i < n implies #[trigger] layout_sum(b, fr@, c0, (d + 1) as nat, i) == 0 by {
                lemma_sum_pruned(b, fr@, c0, (d + 1) as nat, i, index_of(b.width, nf[k].0 as int, nf[k].1 as int));
            }
        }
    }
    proof {
        let t2 = *tally;
        assert forall|i: int| -1 <= i < n implies #[trigger] layout_sum(b, fr@, p0, d as nat, i) == layout_sum(b, fr@, c1, (d + 1) as nat, i)
            + layout_sum(b, fr@, c0, (d + 1) as nat, i) by {}
        assert forall|i: int| 0 <= i < n implies val((#[trigger] t2.weight@[i])@) == val(t0.weight@[i]@)
            + layout_sum(b, fr@, p0, d as nat, i) by {
            assert(layout_sum(b, fr@, p0, d as nat, i) == layout_sum(b, fr@, c1, (d + 1) as nat, i)
                + layout_sum(b, fr@, c0, (d + 1) as nat, i));
        }
        assert(layout_sum(b, fr@, p0, d as nat, -1) == layout_sum(b, fr@, c1, (d + 1) as nat, -1)
            + layout_sum(b, fr@, c0, (d + 1) as nat, -1));
        assert forall|p: Seq<bool>, j: nat|
            #[trigger] is_layout(b, p, j) && extends(p, p0, lim_of(b, fr@, d as int)) implies covers(b, t2, p, j) by {
            let child = p0.update(fi as int, p[fi as int]);
            assert forall|i: int| 0 <= i < lim2 && i < p.len() implies #[trigger] p[i] == child[i] by {
                if fi < i {
                    assert(!in_frontier(b, i));
                    if p0[i] {
                        assert(i < fi);
                    }
                }
            }
            assert(extends(p, child, lim2 as int));
            assert(partial(b, child, lim2 as int));
            let nf = around(b, fi as int);
            assert forall|k: int| 0 <= k < nf.len() implies #[trigger] within(
                b,
                child,
                lim2 as int,
                index_of(b.width, nf[k].0 as int, nf[k].1 as int),
            ) by {
                lemma_around(b, fi as int);
                lemma_index_bounds(b.width, b.height, nf[k].0 as int, nf[k].1 as int);
                lemma_layout_within(b, child, lim2 as int, p, j, index_of(b.width, nf[k].0 as int, nf[k].1 as int));
            }
            if p[fi as int] {
                assert(child =~= c1);
                assert(covers(b, t1, p, j));
                lemma_covers_grows(b, t1, t2, p, j);
            } else {
                assert(child =~= p0);
            }
        }
    }
}

/// `n` numbers, all zero.
fn zeros(n: usize) -> (r: Vec<Vec<u32>>)
    ensures
        r@.len() == n,
        forall|i: int| 0 <= i < n ==> val((#[trigger] r@[i])@) == 0,
{
    let mut r: Vec<Vec<u32>> = Vec::new();
    let mut i: usize = 0;
    while i < n
        invariant
            i <= n,
            r@.len() == i,
            forall|m: int| 0 <= m < i ==> val((#[trigger] r@[m])@) == 0,
        decreases n - i,
    {
        r.push(Vec::new());
        proof {
            assert(val(r@[i as int]@) == 0);
        }
        i = i + 1;
    }
    r
}

/// What the layouts consistent with the board say: the first cell, in
/// row-major order, that is a mine in every layout (flag it) or safe in
/// every layout (uncover it); failing that, the uncovering of a hidden cell
/// least likely to hold a mine; nothing when no cell is hidden.
pub fn layout_move(board: &Board) -> (r: Option<Move>)
    requires
        board.cells@.len() == board.width * board.height,
        board.cells@.len() < usize::MAX,
    ensures
        match certain_scan(*board, 0) {
            Some(m) => r == Some(m),
            None => least_likely(*board, r),
        },
{
    let ghost b = *board;
    let n = board.cells.len();
    let (is_front, fr) = frontier_of(board);
    let flags = flagged_cells(board);
    let free = free_cells(board, &is_front);
    proof {
        assert(free <= n) by {
            lemma_free_upto_bound(b, n as int);
        }
    }
    let row = binom_row(free);
    let row1 = if free > 0 {
        binom_row(free - 1)
    } else {
        Vec::new()
    };
    let mut pick = falses(n);
    let mut tally = Tally {
        any: false,
        seen_mine: falses(n),
        seen_safe: falses(n),
        free_mine: false,
        free_safe: false,
        weight: zeros(n),
        free_weight: Vec::new(),
    };
    let lim0: usize = if fr.len() > 0 {
        fr[0]
    } else {
        n
    };
    let ghost p0 = pick@;
    let ghost w0 = tally;
    proof {
        assert(p0 =~= Seq::new(n as nat, |k: int| false));
        assert(partial(b, p0, lim0 as int));
        assert(tally_sound(b, tally));
        assert(val(tally.free_weight@) == 0);
    }
    let ok = all_within(board, &pick, &is_front, lim0);
    if ok {
        explore(board, &fr, &is_front, 0, &mut pick, &mut tally, flags, free, &row, &row1);
    } else {
        proof {
            let c = choose|c: int| 0 <= c < n && !within(b, p0, lim0 as int, c);
            assert forall|i: int| -1 <= i < n implies #[trigger] layout_sum(b, fr@, p0, 0, i) == 0 by {
                lemma_sum_pruned(b, fr@, p0, 0, i, c);
            }
        }
    }
    proof {
        assert forall|p: Seq<bool>, j: nat| #[trigger] is_layout(b, p, j) implies covers(b, tally, p, j) by {
            assert forall|i: int| 0 <= i < lim0 && i < p.len() implies #[trigger] p[i] == p0[i] by {
                if p[i] {
                    assert(in_frontier(b, i));
                    let t = choose|t: int| 0 <= t < fr@.len() && fr@[t] == i;
                    if t > 0 {
                        assert(fr@[0] < fr@[t]);
                    }
                }
            }
            if !ok {
                let c = choose|c: int| 0 <= c < n && !within(b, p0, lim0 as int, c);
                lemma_layout_within(b, p0, lim0 as int, p, j, c);
            }
        }
        assert forall|i: int| 0 <= i < n && #[trigger] in_frontier(b, i) implies val(tally.weight@[i]@) == mine_weight(b, i) by {
            assert(val(w0.weight@[i]@) == 0);
        }
        assert forall|i: int| 0 <= i < n && !in_frontier(b, i) implies val(tally.free_weight@) == #[trigger] mine_weight(b, i) by {}
    }
    let w = board.width;
    let mut i: usize = 0;
    while i < n
        invariant
            i <= n,
            n == b.cells@.len(),
            b == *board,
            w == b.width,
            b.cells@.len() == b.width * b.height,
            is_front@.len() == n,
            forall|m: int| 0 <= m < n ==> is_front@[m] == in_frontier(b, m),
            free == free_count(b),
            tally_sound(b, tally),
            forall|p: Seq<bool>, j: nat| #[trigger] is_layout(b, p, j) ==> covers(b, tally, p, j),
            certain_scan(b, 0) == certain_scan(b, i as int),
        decreases n - i,
    {
        proof {
            lemma_pos_of(w, b.height, i as int);
        }
        if board.cells[i].state == CellState::Hidden {
            let mine = if is_front[i] {
                tally.any && !tally.seen_safe[i]
            } else {
                tally.any && !tally.free_safe
            };
            let safe = if is_front[i] {
                tally.any && !tally.seen_mine[i]
            } else {
                tally.any && !tally.free_mine
            };
            proof {
                lemma_certain_iff(b, tally, i as int);
            }
            if mine {
                return Some(Move::Flag(i % w, i / w));
            }
            if safe {
                return Some(Move::Reveal(i % w, i / w));
            }
        }
        i = i + 1;
    }
    least_likely_cell(board, &is_front, &tally)
}

proof fn lemma_free_upto_bound(b: Board, k: int)
    requires
        0 <= k,
    ensures
        free_upto(b, k) <= k,
    decreases k,
{
    if k > 0 {
        lemma_free_upto_bound(b, k - 1);
    }
}

/// The uncovering of a hidden cell of least mine weight, preferring a
/// frontier cell among equals, given each cell's weight.
fn least_likely_cell(board: &Board, is_front: &Vec<bool>, tally: &Tally) -> (r: Option<Move>)
    requires
        board.cells@.len() == board.width * board.height,
        is_front@.len() == board.cells@.len(),
        forall|m: int| 0 <= m < board.cells@.len() ==> is_front@[m] == in_frontier(*board, m),
        tally.weight@.len() == board.cells@.len(),
        forall|i: int|
            0 <= i < board.cells@.len() && #[trigger] in_frontier(*board, i) ==> val(tally.weight@[i]@) == mine_weight(*board, i),
        forall|i: int|
            0 <= i < board.cells@.len() && !in_frontier(*board, i) ==> val(tally.free_weight@) == #[trigger] mine_weight(*board, i),
    ensures
        least_likely(*board, r),
{
    let ghost b = *board;
    let n = board.cells.len();
    let mut best: usize = n;
    let mut best_front = false;
    let mut i: usize = 0;
    while i < n
        invariant
            i <= n,
            n == b.cells@.len(),
            b == *board,
            is_front@.len() == n,
            forall|m: int| 0 <= m < n ==> is_front@[m] == in_frontier(b, m),
            tally.weight@.len() == n,
            forall|k: int| 0 <= k < n && #[trigger] in_frontier(b, k) ==> val(tally.weight@[k]@) == mine_weight(b, k),
            forall|k: int| 0 <= k < n && !in_frontier(b, k) ==> val(tally.free_weight@) == #[trigger] mine_weight(b, k),
            best <= n,
            best == n <==> !(exists|k: int| 0 <= k < i && (#[trigger] b.cells@[k]).state == CellState::Hidden),
            best < n ==> best < i && b.cells@[best as int].state == CellState::Hidden && best_front == in_frontier(b, best as int),
            best < n ==> forall|k: int|
                0 <= k < i && (#[trigger] b.cells@[k]).state == CellState::Hidden ==> mine_weight(b, best as int) <= mine_weight(b, k),
            best < n ==> forall|k: int|
                0 <= k < i && #[trigger] in_frontier(b, k) && mine_weight(b, k) == mine_weight(b, best as int) ==> best_front,
        decreases n - i,
    {
        if board.cells[i].state == CellState::Hidden {
            if best == n {
                best = i;
                best_front = is_front[i];
            } else {
                let wi = if is_front[i] {
                    &tally.weight[i]
                } else {
                    &tally.free_weight
                };
                let wb = if best_front {
                    &tally.weight[best]
                } else {
                    &tally.free_weight
                };
                proof {
                    assert(val(wi@) == mine_weight(b, i as int));
                    assert(val(wb@) == mine_weight(b, best as int));
                }
                let less = big_lt(wi, wb);
                let more = big_lt(wb, wi);
                if less || (is_front[i] && !best_front && !more) {
                    best = i;
                    best_front = is_front[i];
                }
            }
        }
        i = i + 1;
    }
    if best == n {
        return None;
    }
    let w = board.width;
    proof {
        lemma_pos_of(w, b.height, best as int);
        assert forall|k: int| #[trigger] in_frontier(b, k) && mine_weight(b, k) == mine_weight(b, best as int) implies in_frontier(
            b,
            best as int,
        ) by {
            assert(0 <= k < n);
        }
    }
    Some(Move::Reveal(best % w, best / w))
}

/// With a complete and sound tally, a hidden cell is certain exactly when
/// the tally never saw it the other way.
proof fn lemma_certain_iff(b: Board, t: Tally, i: int)
    requires
        0 <= i < b.cells@.len(),
        b.cells@[i].state == CellState::Hidden,
        tally_sound(b, t),
        forall|p: Seq<bool>, j: nat| #[trigger] is_layout(b, p, j) ==> covers(b, t, p, j),
    ensures
        certain_mine(b, i) == if in_frontier(b, i) {
            t.any && !t.seen_safe@[i]
        } else {
            t.any && !t.free_safe
        },
        certain_safe(b, i) == if in_frontier(b, i) {
            t.any && !t.seen_mine@[i]
        } else {
            t.any && !t.free_mine
        },
{
    if has_layout(b) {
        let (p, j) = choose|p: Seq<bool>, j: nat| is_layout(b, p, j);
        assert(covers(b, t, p, j));
    }
    if in_frontier(b, i) {
        if t.seen_safe@[i] {
            let (p, j) = choose|p: Seq<bool>, j: nat| #[trigger] is_layout(b, p, j) && !p[i];
            assert(is_layout(b, p, j));
        }
        if t.seen_mine@[i] {
            let (p, j) = choose|p: Seq<bool>, j: nat| #[trigger] is_layout(b, p, j) && p[i];
            assert(is_layout(b, p, j));
        }
        if t.any && !t.seen_safe@[i] {
            assert forall|p: Seq<bool>, j: nat| #[trigger] is_layout(b, p, j) implies p[i] by {
                assert(covers(b, t, p, j));
            }
        }
        if t.any && !t.seen_mine@[i] {
            assert forall|p: Seq<bool>, j: nat| #[trigger] is_layout(b, p, j) implies !p[i] by {
                assert(covers(b, t, p, j));
            }
        }
    } else {
        if t.free_safe {
            let (p, j) = choose|p: Seq<bool>, j: nat| #[trigger] is_layout(b, p, j) && j < free_count(b);
            assert(is_layout(b, p, j));
        }
        if t.free_mine {
            let (p, j) = choose|p: Seq<bool>, j: nat| #[trigger] is_layout(b, p, j) && j > 0;
            assert(is_layout(b, p, j));
        }
        if t.any && !t.free_safe {
            assert forall|p: Seq<bool>, j: nat| #[trigger] is_layout(b, p, j) implies j == free_count(b) by {
                assert(covers(b, t, p, j));
            }
        }
        if t.any && !t.free_mine {
            assert forall|p: Seq<bool>, j: nat| #[trigger] is_layout(b, p, j) implies j == 0 by {
                assert(covers(b, t, p, j));
            }
        }
    }
}


/// The board's own mines, seen as a layout: the frontier cells that hold a
/// mine.
pub open spec fn actual_pick(b: Board) -> Seq<bool> {
    Seq::new(b.cells@.len(), |i: int| in_frontier(b, i) && b.cells@[i].is_mine)
}

/// The free cells among the first `k` that hold a mine.
pub open spec fn free_mines_upto(b: Board, k: int) -> nat
    decreases k,
{
    if k <= 0 {
        0
    } else {
        free_mines_upto(b, k - 1) + one_if(is_free(b, k - 1) && b.cells@[k - 1].is_mine)
    }
}

proof fn lemma_free_mines(b: Board, k: int)
    requires
        0 <= k <= b.cells@.len(),
    ensures
        free_mines_upto(b, k) <= free_upto(b, k),
        free_mines_upto(b, k) == free_upto(b, k) ==> forall|i: int|
            0 <= i < k && #[trigger] is_free(b, i) ==> b.cells@[i].is_mine,
        free_mines_upto(b, k) == 0 ==> forall|i: int| 0 <= i < k && #[trigger] is_free(b, i) ==> !b.cells@[i].is_mine,
    decreases k,
{
    if k > 0 {
        lemma_free_mines(b, k - 1);
    }
}

/// Around an uncovered cell, the frontier mines the actual layout marks are
/// the hidden mines.
proof fn lemma_picked_hidden_mines(b: Board, ps: Seq<Pos>)
    requires
        b.cells@.len() == b.width * b.height,
        forall|k: int|
            0 <= k < ps.len() ==> in_grid(b.width as int, b.height as int, (#[trigger] ps[k]).0 as int, ps[k].1 as int),
        forall|k: int|
            0 <= k < ps.len() ==> touches_revealed(b, index_of(b.width, (#[trigger] ps[k]).0 as int, ps[k].1 as int)),
    ensures
        picked_at(actual_pick(b), b.width, ps) == count_at(
            b.cells@,
            b.width,
            select_at(b.cells@, b.width, ps, CellClass::Hidden),
            CellClass::Mine,
        ),
    decreases ps.len(),
{
    if ps.len() > 0 {
        let t = ps.drop_last();
        assert forall|k: int| 0 <= k < t.len() implies in_grid(
            b.width as int,
            b.height as int,
            (#[trigger] t[k]).0 as int,
            t[k].1 as int,
        ) && touches_revealed(b, index_of(b.width, t[k].0 as int, t[k].1 as int)) by {
            assert(t[k] == ps[k]);
        }
        lemma_picked_hidden_mines(b, t);
        let q = ps.last();
        assert(q == ps[ps.len() - 1]);
        lemma_index_bounds(b.width, b.height, q.0 as int, q.1 as int);
        let prev = select_at(b.cells@, b.width, t, CellClass::Hidden);
        let i = index_of(b.width, q.0 as int, q.1 as int);
        if in_class(b.cells@[i], CellClass::Hidden) {
            assert(prev.push(q).drop_last() =~= prev);
        }
    }
}

/// The mines split into the flags, the actual layout's frontier mines and
/// the free mines.
proof fn lemma_mines_total(b: Board, k: int)
    requires
        0 <= k <= b.cells@.len(),
        forall|i: int|
            0 <= i < b.cells@.len() && (#[trigger] b.cells@[i]).state == CellState::Flagged ==> b.cells@[i].is_mine,
        forall|i: int|
            0 <= i < b.cells@.len() && (#[trigger] b.cells@[i]).state == CellState::Revealed ==> !b.cells@[i].is_mine,
    ensures
        count_cells(b.cells@.take(k), CellClass::Mine) == count_cells(b.cells@.take(k), CellClass::Flagged)
            + count_true(actual_pick(b).take(k)) + free_mines_upto(b, k),
    decreases k,
{
    if k > 0 {
        lemma_mines_total(b, k - 1);
        assert(b.cells@.take(k).drop_last() =~= b.cells@.take(k - 1));
        assert(actual_pick(b).take(k).drop_last() =~= actual_pick(b).take(k - 1));
        let c = b.cells@[k - 1];
        assert(b.cells@.take(k).last() == c);
        assert(actual_pick(b).take(k).last() == actual_pick(b)[k - 1]);
    }
}

/// On a game in play whose flags sit on mines and whose mines number its
/// count, the board's own mines form a layout.
pub proof fn lemma_actual_layout(b: Board)
    requires
        b.wf(),
        b.outcome == GameOutcome::Playing,
        forall|i: int|
            0 <= i < b.cells@.len() && (#[trigger] b.cells@[i]).state == CellState::Flagged ==> b.cells@[i].is_mine,
        count_cells(b.cells@, CellClass::Mine) == b.mine_count,
    ensures
        is_layout(b, actual_pick(b), free_mines_upto(b, b.cells@.len() as int)),
{
    let n = b.cells@.len() as int;
    let w = b.width;
    let h = b.height;
    let pick = actual_pick(b);
    lemma_mines_total(b, n);
    assert(b.cells@.take(n) =~= b.cells@);
    assert(pick.take(n) =~= pick);
    lemma_free_mines(b, n);
    assert forall|c: int| 0 <= c < pick.len() implies #[trigger] number_agrees(b, pick, c) by {
        if b.cells@[c].state == CellState::Revealed {
            let ns = around(b, c);
            lemma_around(b, c);
            lemma_pos_of(w, h, c);
            let pc = pos_of(w, c);
            lemma_neighbor_cells(w, h, pc.0, pc.1);
            assert forall|k: int| 0 <= k < ns.len() implies touches_revealed(
                b,
                index_of(w, (#[trigger] ns[k]).0 as int, ns[k].1 as int),
            ) by {
                let q = ns[k];
                assert(ns.contains(q));
                lemma_index_bounds(w, h, q.0 as int, q.1 as int);
                lemma_index_roundtrip(w, h, q.0 as int, q.1 as int);
                let qi = index_of(w, q.0 as int, q.1 as int);
                lemma_neighbor_cells(w, h, q.0, q.1);
                let nq = around(b, qi);
                assert(nq.contains(pc));
                let m = choose|m: int| 0 <= m < nq.len() && nq[m] == pc;
                assert(b.cells@[index_of(w, nq[m].0 as int, nq[m].1 as int)].state == CellState::Revealed);
            }
            assert forall|k: int| 0 <= k < ns.len() implies {
                let cc = #[trigger] b.cells@[index_of(w, ns[k].0 as int, ns[k].1 as int)];
                &&& cc.state == CellState::Flagged ==> cc.is_mine
                &&& cc.state == CellState::Revealed ==> !cc.is_mine
            } by {
                lemma_index_bounds(w, h, ns[k].0 as int, ns[k].1 as int);
            }
            lemma_count_split(b.cells@, w, ns);
            lemma_picked_hidden_mines(b, ns);
            assert(b.mines_placed);
            assert(!b.cells@[c].is_mine);
            assert(b.cells@[index_of(w, pc.0 as int, pc.1 as int)].adjacent_mines == mine_neighbors(
                b.cells@,
                w,
                h,
                pc.0,
                pc.1,
            ));
        }
    }
}

/// On such a board, a cell every layout agrees on is what the layouts say.
pub proof fn lemma_certain_sound(b: Board, i: int)
    requires
        b.wf(),
        b.outcome == GameOutcome::Playing,
        forall|k: int|
            0 <= k < b.cells@.len() && (#[trigger] b.cells@[k]).state == CellState::Flagged ==> b.cells@[k].is_mine,
        count_cells(b.cells@, CellClass::Mine) == b.mine_count,
        0 <= i < b.cells@.len(),
    ensures
        certain_mine(b, i) ==> b.cells@[i].is_mine,
        certain_safe(b, i) ==> !b.cells@[i].is_mine,
{
    lemma_actual_layout(b);
    let n = b.cells@.len() as int;
    lemma_free_mines(b, n);
    assert(is_layout(b, actual_pick(b), free_mines_upto(b, n)));
    if !in_frontier(b, i) && b.cells@[i].state == CellState::Hidden {
        assert(is_free(b, i));
    }
}

} // verus!
