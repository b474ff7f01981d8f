use vstd::prelude::*;
use crate::board::{Board, GameOutcome, mine_neighbors};
use crate::cell::CellState;
use crate::count::{CellClass, count_at, count_cells, class_set, lemma_select_at, lemma_count_split, lemma_count_extremes, lemma_count_is_card};
use crate::grid::{Pos, index_of, neighbor_cells, pos_of, lemma_pos_of, lemma_neighbor_cells, lemma_index_bounds};
use crate::layouts::{certain_scan, lemma_certain_sound, mine_weight, in_frontier};
use crate::solver::{Move, hidden_around, flags_around, is_number, over_flagged, cell_hint, single_scan, single_scan_defined, constraints_upto, board_constraints, pair_hint, row_scan, pairs_scan, minus, seq_subset, deduced_move, is_hidden_at, hidden_upto,
    lemma_hidden_upto, global_hint, next_move_answer, solver_move, lemma_opening_only_at_start};

verus! {

/// Every flag on the board sits on a mine.
pub open spec fn flags_on_mines(b: Board) -> bool {
    forall|i: int|
        0 <= i < b.cells@.len() && (#[trigger] b.cells@[i]).state == CellState::Flagged ==> b.cells@[i].is_mine
}

/// A game in play whose flags are all right.
pub open spec fn sound_position(b: Board) -> bool {
    &&& b.wf()
    &&& b.outcome == GameOutcome::Playing
    &&& flags_on_mines(b)
}

/// The move is right: it flags a hidden mine or uncovers a hidden safe cell.
pub open spec fn move_sound(b: Board, m: Move) -> bool {
    match m {
        Move::Flag(x, y) => is_hidden_at(b, x, y) && b.cell_at(x as int, y as int).is_mine,
        Move::Reveal(x, y) => is_hidden_at(b, x, y) && !b.cell_at(x as int, y as int).is_mine,
    }
}

/// What a constraint claims holds: its cells are distinct hidden cells and
/// exactly `c.0` of them are mines.
pub open spec fn constraint_sound(b: Board, c: (nat, Seq<Pos>)) -> bool {
    &&& c.1.no_duplicates()
    &&& forall|k: int| 0 <= k < c.1.len() ==> is_hidden_at(b, (#[trigger] c.1[k]).0, c.1[k].1)
    &&& count_at(b.cells@, b.width, c.1, CellClass::Mine) == c.0
}

/// Around a number of a sound position: the neighbours are distinct, on the
/// board, and the number equals the flags plus the hidden mines around it.
proof fn lemma_number_facts(b: Board, x: usize, y: usize)
    requires
        sound_position(b),
        b.in_bounds(x as int, y as int),
        is_number(b, x, y),
    ensures
        b.mines_placed,
        neighbor_cells(b.width, b.height, x, y).no_duplicates(),
        hidden_around(b, x, y).no_duplicates(),
        forall|k: int|
            0 <= k < hidden_around(b, x, y).len() ==> is_hidden_at(
                b,
                (#[trigger] hidden_around(b, x, y)[k]).0,
                hidden_around(b, x, y)[k].1,
            ),
        b.cell_at(x as int, y as int).adjacent_mines == flags_around(b, x, y) + count_at(
            b.cells@,
            b.width,
            hidden_around(b, x, y),
            CellClass::Mine,
        ),
{
    let w = b.width;
    let h = b.height;
    let ns = neighbor_cells(w, h, x, y);
    lemma_index_bounds(w, h, x as int, y as int);
    let i = index_of(w, x as int, y as int);
    assert(b.cells@[i].state == CellState::Revealed);
    lemma_neighbor_cells(w, h, x, y);
    assert forall|j: int| 0 <= j < ns.len() implies {
        let c = #[trigger] b.cells@[index_of(w, ns[j].0 as int, ns[j].1 as int)];
        &&& c.state == CellState::Flagged ==> c.is_mine
        &&& c.state == CellState::Revealed ==> !c.is_mine
    } by {
        assert(ns.contains(ns[j]));
        lemma_index_bounds(w, h, ns[j].0 as int, ns[j].1 as int);
    }
    lemma_count_split(b.cells@, w, ns);
    lemma_select_at(b.cells@, w, ns, CellClass::Hidden);
    let hs = hidden_around(b, x, y);
    assert forall|k: int| 0 <= k < hs.len() implies is_hidden_at(b, (#[trigger] hs[k]).0, hs[k].1) by {
        assert(hs.contains(hs[k]));
        assert(ns.contains(hs[k]));
    }
    assert(b.cells@[i].adjacent_mines == mine_neighbors(b.cells@, w, h, x, y));
}

/// A single number's hint is right, and no number is over-flagged.
pub proof fn lemma_cell_hint_sound(b: Board, x: usize, y: usize)
    requires
        sound_position(b),
        b.in_bounds(x as int, y as int),
    ensures
        !over_flagged(b, x, y),
        cell_hint(b, x, y) matches Some(m) ==> move_sound(b, m),
{
    if is_number(b, x, y) {
        lemma_number_facts(b, x, y);
        let hs = hidden_around(b, x, y);
        lemma_count_extremes(b.cells@, b.width, hs, CellClass::Mine);
        if hs.len() > 0 {
            assert(is_hidden_at(b, hs[0].0, hs[0].1));
            lemma_index_bounds(b.width, b.height, hs[0].0 as int, hs[0].1 as int);
        }
    }
}

pub proof fn lemma_single_scan_sound(b: Board, i: int)
    requires
        sound_position(b),
        0 <= i,
    ensures
        single_scan_defined(b, i),
        single_scan(b, i) matches Some(m) ==> move_sound(b, m),
    decreases b.cells@.len() - i,
{
    if i < b.cells@.len() {
        lemma_pos_of(b.width, b.height, i);
        let p = pos_of(b.width, i);
        lemma_cell_hint_sound(b, p.0, p.1);
        lemma_single_scan_sound(b, i + 1);
    }
}

pub proof fn lemma_constraints_sound(b: Board, k: nat)
    requires
        sound_position(b),
        k <= b.cells@.len(),
    ensures
        forall|j: int|
            0 <= j < constraints_upto(b, k).len() ==> constraint_sound(b, #[trigger] constraints_upto(b, k)[j]),
    decreases k,
{
    if k > 0 {
        lemma_constraints_sound(b, (k - 1) as nat);
        let prev = constraints_upto(b, (k - 1) as nat);
        lemma_pos_of(b.width, b.height, k - 1);
        let p = pos_of(b.width, k - 1);
        if is_number(b, p.0, p.1) {
            lemma_number_facts(b, p.0, p.1);
        }
        assert forall|j: int| 0 <= j < constraints_upto(b, k).len() implies constraint_sound(
            b,
            #[trigger] constraints_upto(b, k)[j],
        ) by {
            if j < prev.len() {
                assert(constraints_upto(b, k)[j] == prev[j]);
            }
        }
    }
}

/// `minus(a, b)` holds the positions of `a` not in `b`, each once if `a`
/// repeats none.
proof fn lemma_minus(a: Seq<Pos>, b: Seq<Pos>)
    ensures
        forall|q: Pos| #[trigger] minus(a, b).contains(q) <==> (a.contains(q) && !b.contains(q)),
        a.no_duplicates() ==> minus(a, b).no_duplicates(),
    decreases a.len(),
{
    if a.len() > 0 {
        let t = a.drop_last();
        lemma_minus(t, b);
        let prev = minus(t, b);
        let s = minus(a, b);
        if b.contains(a.last()) {
            assert(s == prev);
        } else {
            assert(s == prev.push(a.last()));
        }
        assert forall|k: int| 0 <= k < t.len() implies t[k] == a[k] by {}
        assert forall|q: Pos| #[trigger] s.contains(q) <==> (a.contains(q) && !b.contains(q)) by {
            if s.contains(q) {
                let j = choose|j: int| 0 <= j < s.len() && s[j] == q;
                if j < prev.len() {
                    assert(prev[j] == q);
                    assert(prev.contains(q));
                    let u = choose|u: int| 0 <= u < t.len() && t[u] == q;
                    assert(a[u] == q);
                } else {
                    assert(a[a.len() - 1] == q);
                }
            }
            if a.contains(q) && !b.contains(q) {
                let u = choose|u: int| 0 <= u < a.len() && a[u] == q;
                if u < a.len() - 1 {
                    assert(t[u] == q);
                    assert(t.contains(q));
                    assert(prev.contains(q));
                    let j = choose|j: int| 0 <= j < prev.len() && prev[j] == q;
                    assert(s[j] == q);
                } else {
                    assert(s[s.len() - 1] == q);
                }
            }
        }
        if a.no_duplicates() {
            assert(t.no_duplicates());
            if s.len() > prev.len() {
                assert(!t.contains(a.last())) by {
                    if t.contains(a.last()) {
                        let u = choose|u: int| 0 <= u < t.len() && t[u] == a.last();
                        assert(a[u] == a[a.len() - 1]);
                    }
                }
                assert(!prev.contains(a.last()));
                assert forall|i: int, j: int| 0 <= i < j < s.len() implies s[i] != s[j] by {
                    if j == s.len() - 1 {
                        assert(prev[i] == s[i]);
                    } else {
                        assert(prev[i] == s[i] && prev[j] == s[j]);
                    }
                }
            }
        }
    }
}

/// When the cells of constraint `j` lie within those of constraint `i`, the
/// cells left over hold the difference of their mines.
proof fn lemma_pair_hint_sound(b: Board, cs: Seq<(nat, Seq<Pos>)>, i: int, j: int)
    requires
        sound_position(b),
        0 <= i < cs.len(),
        0 <= j < cs.len(),
        constraint_sound(b, cs[i]),
        constraint_sound(b, cs[j]),
    ensures
        pair_hint(cs, i, j) matches Some(m) ==> move_sound(b, m),
{
    if i != j && seq_subset(cs[j].1, cs[i].1) {
        let w = b.width;
        let sa = cs[i].1;
        let sb = cs[j].1;
        let d = minus(sa, sb);
        lemma_minus(sa, sb);
        lemma_count_is_card(b.cells@, w, sa, CellClass::Mine);
        lemma_count_is_card(b.cells@, w, sb, CellClass::Mine);
        lemma_count_is_card(b.cells@, w, d, CellClass::Mine);
        let ma = class_set(b.cells@, w, sa, CellClass::Mine);
        let mb = class_set(b.cells@, w, sb, CellClass::Mine);
        let md = class_set(b.cells@, w, d, CellClass::Mine);
        assert forall|q: Pos| sb.contains(q) implies sa.contains(q) by {
            let k = choose|k: int| 0 <= k < sb.len() && sb[k] == q;
        }
        assert(ma =~= mb + md);
        assert(mb.disjoint(md));
        vstd::set_lib::lemma_set_disjoint_lens(mb, md);
        lemma_count_extremes(b.cells@, w, d, CellClass::Mine);
        if d.len() > 0 {
            assert(d.contains(d[0]));
            let k = choose|k: int| 0 <= k < sa.len() && sa[k] == d[0];
            assert(is_hidden_at(b, sa[k].0, sa[k].1));
            lemma_index_bounds(b.width, b.height, d[0].0 as int, d[0].1 as int);
        }
    }
}

proof fn lemma_row_scan_sound(b: Board, cs: Seq<(nat, Seq<Pos>)>, i: int, j: int)
    requires
        sound_position(b),
        0 <= i < cs.len(),
        0 <= j,
        forall|k: int| 0 <= k < cs.len() ==> constraint_sound(b, #[trigger] cs[k]),
    ensures
        row_scan(cs, i, j) matches Some(m) ==> move_sound(b, m),
    decreases cs.len() - j,
{
    if j < cs.len() {
        lemma_pair_hint_sound(b, cs, i, j);
        lemma_row_scan_sound(b, cs, i, j + 1);
    }
}

proof fn lemma_pairs_scan_sound(b: Board, cs: Seq<(nat, Seq<Pos>)>, i: int)
    requires
        sound_position(b),
        0 <= i,
        forall|k: int| 0 <= k < cs.len() ==> constraint_sound(b, #[trigger] cs[k]),
    ensures
        pairs_scan(cs, i) matches Some(m) ==> move_sound(b, m),
    decreases cs.len() - i,
{
    if i < cs.len() {
        lemma_row_scan_sound(b, cs, i, 0);
        lemma_pairs_scan_sound(b, cs, i + 1);
    }
}

/// On a game in play whose flags sit on mines, the mines among the first
/// `k` cells are the flags there plus the mines still hidden there.
proof fn lemma_mines_split(b: Board, k: nat)
    requires
        sound_position(b),
        k <= b.cells@.len(),
    ensures
        count_cells(b.cells@.take(k as int), CellClass::Mine) == count_cells(b.cells@.take(k as int), CellClass::Flagged)
            + count_at(b.cells@, b.width, hidden_upto(b, k), CellClass::Mine),
    decreases k,
{
    if k > 0 {
        lemma_mines_split(b, (k - 1) as nat);
        lemma_pos_of(b.width, b.height, k - 1);
        assert(b.cells@.take(k as int).drop_last() =~= b.cells@.take(k - 1));
        let prev = hidden_upto(b, (k - 1) as nat);
        if b.cells@[k - 1].state == CellState::Hidden {
            assert(hidden_upto(b, k).drop_last() =~= prev);
        }
    }
}

/// The global count's hint is right when the board holds as many mines as
/// its count says.
proof fn lemma_global_hint_sound(b: Board)
    requires
        sound_position(b),
        count_cells(b.cells@, CellClass::Mine) == b.mine_count,
    ensures
        global_hint(b) matches Some(m) ==> move_sound(b, m),
{
    let n = b.cells@.len();
    lemma_mines_split(b, n);
    assert(b.cells@.take(n as int) =~= b.cells@);
    let hs = hidden_upto(b, n);
    lemma_hidden_upto(b, n);
    lemma_count_extremes(b.cells@, b.width, hs, CellClass::Mine);
    if hs.len() > 0 {
        assert(is_hidden_at(b, hs[0].0, hs[0].1));
    }
}

proof fn lemma_certain_scan_sound(b: Board, i: int)
    requires
        sound_position(b),
        count_cells(b.cells@, CellClass::Mine) == b.mine_count,
        0 <= i,
    ensures
        certain_scan(b, i) matches Some(m) ==> move_sound(b, m),
    decreases b.cells@.len() - i,
{
    if i < b.cells@.len() {
        lemma_pos_of(b.width, b.height, i);
        lemma_certain_sound(b, i);
        lemma_certain_scan_sound(b, i + 1);
    }
}

proof fn lemma_certain_scan_hidden(b: Board, i: int)
    requires
        b.cells@.len() == b.width * b.height,
        0 <= i,
    ensures
        certain_scan(b, i) matches Some(m) ==> is_hidden_at(b, move_target(m).0, move_target(m).1),
    decreases b.cells@.len() - i,
{
    if i < b.cells@.len() {
        lemma_pos_of(b.width, b.height, i);
        lemma_certain_scan_hidden(b, i + 1);
    }
}

/// The deductions are sound: on a game in play whose flags all sit on
/// mines, a flag from a single number or a pair of numbers goes on a hidden
/// mine and an uncovering is of a hidden cell without a mine, and the
/// single-cell scan never meets a number with more flags than it shows;
/// when the board holds as many mines as its count says, the global count's
/// move and a move every consistent layout agrees on are right too.
pub proof fn lemma_deduction_sound(b: Board)
    requires
        sound_position(b),
    ensures
        single_scan_defined(b, 0),
        single_scan(b, 0) matches Some(m) ==> move_sound(b, m),
        pairs_scan(board_constraints(b), 0) matches Some(m) ==> move_sound(b, m),
        count_cells(b.cells@, CellClass::Mine) == b.mine_count ==> (deduced_move(b) matches Some(m) ==> move_sound(
            b,
            m,
        )),
{
    lemma_single_scan_sound(b, 0);
    lemma_constraints_sound(b, b.cells@.len());
    lemma_pairs_scan_sound(b, board_constraints(b), 0);
    if count_cells(b.cells@, CellClass::Mine) == b.mine_count {
        lemma_global_hint_sound(b);
        lemma_certain_scan_sound(b, 0);
    }
}

/// The cell a move names.
pub open spec fn move_target(m: Move) -> Pos {
    match m {
        Move::Flag(x, y) => (x, y),
        Move::Reveal(x, y) => (x, y),
    }
}

/// Every position of `s` is a hidden cell of the board.
pub open spec fn all_hidden(b: Board, s: Seq<Pos>) -> bool {
    forall|t: int| 0 <= t < s.len() ==> is_hidden_at(b, (#[trigger] s[t]).0, s[t].1)
}

proof fn lemma_hidden_around(b: Board, x: usize, y: usize)
    requires
        b.cells@.len() == b.width * b.height,
        b.in_bounds(x as int, y as int),
    ensures
        all_hidden(b, hidden_around(b, x, y)),
{
    let ns = neighbor_cells(b.width, b.height, x, y);
    lemma_neighbor_cells(b.width, b.height, x, y);
    lemma_select_at(b.cells@, b.width, ns, CellClass::Hidden);
    let hs = hidden_around(b, x, y);
    assert forall|t: int| 0 <= t < hs.len() implies is_hidden_at(b, (#[trigger] hs[t]).0, hs[t].1) by {
        assert(hs.contains(hs[t]));
        assert(ns.contains(hs[t]));
    }
}

proof fn lemma_single_scan_hidden(b: Board, i: int)
    requires
        b.cells@.len() == b.width * b.height,
        0 <= i,
    ensures
        single_scan(b, i) matches Some(m) ==> is_hidden_at(b, move_target(m).0, move_target(m).1),
    decreases b.cells@.len() - i,
{
    if i < b.cells@.len() {
        lemma_pos_of(b.width, b.height, i);
        let p = pos_of(b.width, i);
        lemma_hidden_around(b, p.0, p.1);
        let hs = hidden_around(b, p.0, p.1);
        if hs.len() > 0 {
            assert(is_hidden_at(b, hs[0].0, hs[0].1));
        }
        lemma_single_scan_hidden(b, i + 1);
    }
}

proof fn lemma_constraints_hidden(b: Board, k: nat)
    requires
        b.cells@.len() == b.width * b.height,
        k <= b.cells@.len(),
    ensures
        forall|j: int| 0 <= j < constraints_upto(b, k).len() ==> all_hidden(b, (#[trigger] constraints_upto(b, k)[j]).1),
    decreases k,
{
    if k > 0 {
        lemma_constraints_hidden(b, (k - 1) as nat);
        lemma_pos_of(b.width, b.height, k - 1);
        let p = pos_of(b.width, k - 1);
        lemma_hidden_around(b, p.0, p.1);
        let prev = constraints_upto(b, (k - 1) as nat);
        let cur = constraints_upto(b, k);
        assert forall|j: int| 0 <= j < cur.len() implies all_hidden(b, (#[trigger] cur[j]).1) by {
            if j < prev.len() {
                assert(cur[j] == prev[j]);
            }
        }
    }
}

proof fn lemma_pairs_scan_hidden(b: Board, cs: Seq<(nat, Seq<Pos>)>, i: int, j: int)
    requires
        0 <= i,
        0 <= j,
        forall|k: int| 0 <= k < cs.len() ==> all_hidden(b, (#[trigger] cs[k]).1),
    ensures
        i < cs.len() ==> (row_scan(cs, i, j) matches Some(m) ==> is_hidden_at(b, move_target(m).0, move_target(m).1)),
        j == 0 ==> (pairs_scan(cs, i) matches Some(m) ==> is_hidden_at(b, move_target(m).0, move_target(m).1)),
    decreases cs.len() - i, cs.len() - j,
{
    if i < cs.len() && j < cs.len() {
        lemma_pairs_scan_hidden(b, cs, i, j + 1);
        if i != j && seq_subset(cs[j].1, cs[i].1) {
            let d = minus(cs[i].1, cs[j].1);
            lemma_minus(cs[i].1, cs[j].1);
            if d.len() > 0 {
                assert(d.contains(d[0]));
                assert(all_hidden(b, cs[i].1));
                let t = choose|t: int| 0 <= t < cs[i].1.len() && cs[i].1[t] == d[0];
                assert(is_hidden_at(b, cs[i].1[t].0, cs[i].1[t].1));
            }
        }
    }
    if j == 0 && i < cs.len() {
        lemma_pairs_scan_hidden(b, cs, i + 1, 0);
    }
}

/// Whatever move the solver gives, flag or uncovering, names a hidden
/// cell, on any board of consistent size.
pub proof fn lemma_answer_hidden(b: Board, m: Move)
    requires
        b.cells@.len() == b.width * b.height,
        next_move_answer(b, Some(m)),
    ensures
        is_hidden_at(b, move_target(m).0, move_target(m).1),
{
    lemma_single_scan_hidden(b, 0);
    lemma_constraints_hidden(b, b.cells@.len());
    lemma_pairs_scan_hidden(b, board_constraints(b), 0, 0);
    let n = b.cells@.len();
    lemma_hidden_upto(b, n);
    lemma_certain_scan_hidden(b, 0);
    if b.outcome == GameOutcome::Playing && solver_move(b) is None {
        let i = choose|i: int|
            #![trigger b.cells@[i]]
            0 <= i < b.cells@.len() && b.cells@[i].state == CellState::Hidden && m == Move::Reveal(
                pos_of(b.width, i).0,
                pos_of(b.width, i).1,
            ) && (forall|k: int|
                0 <= k < b.cells@.len() && (#[trigger] b.cells@[k]).state == CellState::Hidden ==> mine_weight(b, i)
                    <= mine_weight(b, k)) && ((exists|k: int| #[trigger] in_frontier(b, k) && mine_weight(b, k) == mine_weight(b, i))
                ==> in_frontier(b, i));
        lemma_pos_of(b.width, b.height, i);
    }
    let hs = hidden_upto(b, n);
    if hs.len() > 0 {
        assert(is_hidden_at(b, hs[0].0, hs[0].1));
    }
}


/// Once a cell is uncovered, on a game in play whose flags sit on mines and
/// whose mines number its count, whatever move `next_move` answers while a
/// deduction exists is right: a flag goes on a hidden mine, an uncovering on
/// a hidden safe cell.
pub proof fn lemma_next_move_sound(b: Board, m: Move)
    requires
        sound_position(b),
        count_cells(b.cells@, CellClass::Mine) == b.mine_count,
        exists|i: int| 0 <= i < b.cells@.len() && (#[trigger] b.cells@[i]).state == CellState::Revealed,
        next_move_answer(b, Some(m)),
        deduced_move(b) is Some,
    ensures
        move_sound(b, m),
{
    lemma_opening_only_at_start(b);
    lemma_deduction_sound(b);
}

} // verus!
