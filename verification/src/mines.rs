use vstd::prelude::*;
use crate::board::{Board, counts_truthful, mine_neighbors, lemma_mine_neighbors_same};
use crate::cell::Cell;
use crate::count::{CellClass, in_class, count_cells, count_at, index_set, lemma_count_cells_same,
    lemma_count_cells_is_card, lemma_count_at_bound};
use crate::grid::{Pos, in_grid, index_of, neighbor_cells, pos_of, lemma_pos_of, lemma_index_bounds,
    lemma_index_roundtrip, lemma_neighbor_cells, contains_pos};
use crate::random::{thread_rng, shuffle};

verus! {

impl Board {
    /// Number of mines around `(x, y)`.
    fn mines_around(&self, x: usize, y: usize) -> (n: u8)
        requires
            self.cells@.len() == self.width * self.height,
        ensures
            n == mine_neighbors(self.cells@, self.width, self.height, x, y),
    {
        let ns = self.neighbors(x, y);
        let ghost w = self.width;
        proof {
            lemma_neighbor_cells(self.width, self.height, x, y);
        }
        let mut count: u8 = 0;
        let mut j: usize = 0;
        while j < ns.len()
            invariant
                j <= ns@.len(),
                ns@ == neighbor_cells(self.width, self.height, x, y),
                ns@.len() <= 8,
                w == self.width,
                self.cells@.len() == self.width * self.height,
                count == count_at(self.cells@, w, ns@.take(j as int), CellClass::Mine),
            decreases ns@.len() - j,
        {
            let p = ns[j];
            proof {
                lemma_neighbor_cells(self.width, self.height, x, y);
                assert(ns@.contains(p));
                assert(ns@.take(j + 1).drop_last() =~= ns@.take(j as int));
                assert(ns@.take(j + 1).last() == p);
                lemma_count_at_bound(self.cells@, w, ns@.take(j as int), CellClass::Mine);
            }
            if self.cell(p.0, p.1).is_mine {
                count = count + 1;
            }
            j = j + 1;
        }
        proof {
            assert(ns@.take(j as int) =~= ns@);
        }
        count
    }

    /// Writes into every cell without a mine the number of mines around it.
    fn compute_adjacent_counts(&mut self)
        requires
            old(self).cells@.len() == old(self).width * old(self).height,
        ensures
            final(self).same_settings(old(self)),
            final(self).outcome == old(self).outcome,
            final(self).flags_placed == old(self).flags_placed,
            final(self).cells_revealed == old(self).cells_revealed,
            final(self).mines_placed == old(self).mines_placed,
            final(self).cells@.len() == old(self).cells@.len(),
            forall|k: int|
                0 <= k < old(self).cells@.len() ==> {
                    &&& (#[trigger] final(self).cells@[k]).is_mine == old(self).cells@[k].is_mine
                    &&& final(self).cells@[k].state == old(self).cells@[k].state
                    &&& old(self).cells@[k].is_mine ==> final(self).cells@[k] == old(self).cells@[k]
                },
            counts_truthful(final(self).cells@, final(self).width, final(self).height),
    {
        let ghost old_cells = self.cells@;
        let ghost before = *self;
        let n = self.cells.len();
        let w = self.width;
        let mut i: usize = 0;
        while i < n
            invariant
                i <= n,
                n == old_cells.len(),
                n == w * self.height,
                w == self.width,
                self.same_settings(&before),
                self.outcome == before.outcome,
                self.flags_placed == before.flags_placed,
                self.cells_revealed == before.cells_revealed,
                self.mines_placed == before.mines_placed,
                self.cells@.len() == n,
                forall|k: int|
                    0 <= k < n ==> {
                        &&& (#[trigger] self.cells@[k]).is_mine == old_cells[k].is_mine
                        &&& self.cells@[k].state == old_cells[k].state
                        &&& (old_cells[k].is_mine || k >= i) ==> self.cells@[k] == old_cells[k]
                    },
                forall|k: int|
                    0 <= k < i && !old_cells[k].is_mine ==> (#[trigger] self.cells@[k]).adjacent_mines
                        == mine_neighbors(old_cells, w, self.height, pos_of(w, k).0, pos_of(w, k).1),
            decreases n - i,
        {
            proof {
                lemma_pos_of(w, self.height, i as int);
            }
            let x = i % w;
            let y = i / w;
            let c = self.cells[i];
            if !c.is_mine {
                let count = self.mines_around(x, y);
                proof {
                    lemma_mine_neighbors_same(old_cells, self.cells@, w, self.height, x, y);
                }
                self.cells.set(i, Cell { is_mine: c.is_mine, state: c.state, adjacent_mines: count });
            }
            i = i + 1;
        }
        proof {
            assert forall|x: usize, y: usize|
                #![trigger self.cells@[index_of(w, x as int, y as int)]]
                in_grid(w as int, self.height as int, x as int, y as int) && !self.cells@[index_of(
                    w,
                    x as int,
                    y as int,
                )].is_mine implies self.cells@[index_of(w, x as int, y as int)].adjacent_mines
                == mine_neighbors(self.cells@, w, self.height, x, y) by {
                lemma_index_bounds(w, self.height, x as int, y as int);
                lemma_index_roundtrip(w, self.height, x as int, y as int);
                lemma_mine_neighbors_same(old_cells, self.cells@, w, self.height, x, y);
                assert(self.cells@[index_of(w, x as int, y as int)].adjacent_mines == mine_neighbors(
                    old_cells, w, self.height, x, y));
            }
        }
    }
}

/// The cells kept free of mines when the first reveal is at `(sx, sy)`: that
/// cell and its neighbours.
pub open spec fn in_safe_zone(w: usize, h: usize, sx: usize, sy: usize, p: Pos) -> bool {
    p == (sx, sy) || neighbor_cells(w, h, sx, sy).contains(p)
}

/// The indices below `k` whose cell lies outside the safe zone, ascending.
pub open spec fn candidates_upto(w: usize, h: usize, sx: usize, sy: usize, k: nat) -> Seq<usize>
    decreases k,
{
    if k == 0 {
        seq![]
    } else {
        let prev = candidates_upto(w, h, sx, sy, (k - 1) as nat);
        if in_safe_zone(w, h, sx, sy, pos_of(w, k - 1)) {
            prev
        } else {
            prev.push((k - 1) as usize)
        }
    }
}

/// The cells that may receive a mine when the first reveal is at `(sx, sy)`.
pub open spec fn mine_candidates(w: usize, h: usize, sx: usize, sy: usize) -> Seq<usize> {
    candidates_upto(w, h, sx, sy, (w * h) as nat)
}

/// How many mines are laid: the requested number, or every candidate if
/// there are fewer.
pub open spec fn mines_taken(mine_count: usize, available: nat) -> nat {
    if mine_count < available {
        mine_count as nat
    } else {
        available
    }
}

/// The first reveal lays as many mines as asked when there is room for
/// them outside the opened block, and fills every cell there otherwise.
pub proof fn lemma_mines_taken(mine_count: usize, available: nat)
    ensures
        mine_count <= available ==> mines_taken(mine_count, available) == mine_count,
        mine_count >= available ==> mines_taken(mine_count, available) == available,
{
}

pub proof fn lemma_candidates_upto(w: usize, h: usize, sx: usize, sy: usize, k: nat)
    requires
        k <= usize::MAX,
    ensures
        candidates_upto(w, h, sx, sy, k).len() <= k,
        forall|i: int, j: int|
            0 <= i < j < candidates_upto(w, h, sx, sy, k).len() ==> #[trigger] candidates_upto(
                w,
                h,
                sx,
                sy,
                k,
            )[i] < #[trigger] candidates_upto(w, h, sx, sy, k)[j],
        forall|i: int|
            0 <= i < candidates_upto(w, h, sx, sy, k).len() ==> #[trigger] candidates_upto(
                w,
                h,
                sx,
                sy,
                k,
            )[i] < k,
        forall|i: usize|
            #[trigger] candidates_upto(w, h, sx, sy, k).contains(i) <==> (i < k && !in_safe_zone(
                w,
                h,
                sx,
                sy,
                pos_of(w, i as int),
            )),
    decreases k,
{
    if k > 0 {
        lemma_candidates_upto(w, h, sx, sy, (k - 1) as nat);
        let prev = candidates_upto(w, h, sx, sy, (k - 1) as nat);
        let s = candidates_upto(w, h, sx, sy, k);
        if in_safe_zone(w, h, sx, sy, pos_of(w, k - 1)) {
            assert(s == prev);
        } else {
            assert(s == prev.push((k - 1) as usize));
            assert forall|i: int, j: int| 0 <= i < j < s.len() implies s[i] < s[j] by {
                if j < prev.len() {
                    assert(s[i] == prev[i] && s[j] == prev[j]);
                } else {
                    assert(s[i] == prev[i]);
                }
            }
            assert forall|i: usize| s.contains(i) <==> (i < k && !in_safe_zone(
                w,
                h,
                sx,
                sy,
                pos_of(w, i as int),
            )) by {
                if s.contains(i) {
                    let j = choose|j: int| 0 <= j < s.len() && s[j] == i;
                    if j < prev.len() {
                        assert(prev[j] == i);
                        assert(prev.contains(i));
                    }
                }
                if i < k && !in_safe_zone(w, h, sx, sy, pos_of(w, i as int)) {
                    if i < k - 1 {
                        assert(prev.contains(i));
                        let j = choose|j: int| 0 <= j < prev.len() && prev[j] == i;
                        assert(s[j] == i);
                    } else {
                        assert(s[s.len() - 1] == i);
                    }
                }
            }
        }
    }
}

impl Board {
    /// The indices of the cells outside the safe zone around `(safe_x, safe_y)`,
    /// ascending.
    fn safe_candidates(&self, safe_x: usize, safe_y: usize) -> (r: Vec<usize>)
        requires
            self.cells@.len() == self.width * self.height,
        ensures
            r@ == mine_candidates(self.width, self.height, safe_x, safe_y),
    {
        let mut zone: Vec<Pos> = Vec::new();
        zone.push((safe_x, safe_y));
        let ns = self.neighbors(safe_x, safe_y);
        let mut j: usize = 0;
        while j < ns.len()
            invariant
                j <= ns@.len(),
                zone@ == seq![(safe_x, safe_y)] + ns@.take(j as int),
            decreases ns@.len() - j,
        {
            zone.push(ns[j]);
            j = j + 1;
            assert(zone@ =~= seq![(safe_x, safe_y)] + ns@.take(j as int));
        }
        assert(ns@.take(j as int) =~= ns@);
        let ghost w = self.width;
        let ghost h = self.height;
        assert forall|p: Pos| zone@.contains(p) <==> in_safe_zone(w, h, safe_x, safe_y, p) by {
            if zone@.contains(p) && p != (safe_x, safe_y) {
                let k = choose|k: int| 0 <= k < zone@.len() && zone@[k] == p;
                assert(k != 0);
                assert(ns@[k - 1] == p);
                assert(ns@.contains(p));
            }
            if p == (safe_x, safe_y) {
                assert(zone@[0] == p);
            }
            if ns@.contains(p) {
                let k = choose|k: int| 0 <= k < ns@.len() && ns@[k] == p;
                assert(zone@[k + 1] == p);
            }
        }
        let n = self.cells.len();
        let mut candidates: Vec<usize> = Vec::new();
        let mut i: usize = 0;
        while i < n
            invariant
                i <= n,
                n == w * h,
                w == self.width,
                h == self.height,
                candidates@ == candidates_upto(w, h, safe_x, safe_y, i as nat),
                forall|p: Pos| zone@.contains(p) <==> in_safe_zone(w, h, safe_x, safe_y, p),
            decreases n - i,
        {
            proof {
                lemma_pos_of(w, h, i as int);
            }
            let x = i % self.width;
            let y = i / self.width;
            if !contains_pos(&zone, (x, y)) {
                candidates.push(i);
            }
            i = i + 1;
        }
        candidates
    }
}

/// `after` is `before` with mines laid at the first `mines_taken` cells of
/// `order` and the count of every other cell filled in; a mine keeps the
/// number it had; nothing else changes.
pub open spec fn mines_laid_at(before: Board, order: Seq<usize>, after: Board) -> bool {
    &&& after.same_settings(&before)
    &&& after.outcome == before.outcome
    &&& after.flags_placed == before.flags_placed
    &&& after.cells_revealed == before.cells_revealed
    &&& after.mines_placed
    &&& after.cells@.len() == before.cells@.len()
    &&& forall|k: int|
        0 <= k < before.cells@.len() ==> {
            &&& (#[trigger] after.cells@[k]).state == before.cells@[k].state
            &&& after.cells@[k].is_mine == order.take(
                mines_taken(before.mine_count, order.len()) as int,
            ).contains(k as usize)
            &&& after.cells@[k].is_mine ==> after.cells@[k].adjacent_mines == before.cells@[k].adjacent_mines
        }
    &&& counts_truthful(after.cells@, after.width, after.height)
}

/// What the first reveal at `(sx, sy)` does before it uncovers anything:
/// mines go to the first cells of some rearrangement of the candidates.
pub open spec fn mines_placed_for(before: Board, sx: usize, sy: usize, after: Board) -> bool {
    exists|order: Seq<usize>|
        #![trigger mines_laid_at(before, order, after)]
        order.to_multiset() == mine_candidates(before.width, before.height, sx, sy).to_multiset()
            && mines_laid_at(before, order, after)
}

impl Board {
    /// Lays mines at the first `mine_count` cells of `order` (all of them if
    /// it is shorter) and computes every cell's count.
    pub fn lay_mines(&mut self, order: &Vec<usize>)
        requires
            old(self).wf(),
            !old(self).mines_placed,
            forall|j: int| 0 <= j < order@.len() ==> #[trigger] order@[j] < old(self).cells@.len(),
        ensures
            final(self).wf(),
            mines_laid_at(*old(self), order@, *final(self)),
    {
        let ghost before = *self;
        assert(self.cells@.len() == self.cells.len());
        let k = if self.mine_count < order.len() {
            self.mine_count
        } else {
            order.len()
        };
        let mut j: usize = 0;
        while j < k
            invariant
                j <= k,
                k == mines_taken(before.mine_count, order@.len()),
                k <= order@.len(),
                before.cells@.len() <= usize::MAX,
                forall|t: int| 0 <= t < order@.len() ==> #[trigger] order@[t] < before.cells@.len(),
                self.same_settings(&before),
                self.outcome == before.outcome,
                self.flags_placed == before.flags_placed,
                self.cells_revealed == before.cells_revealed,
                self.mines_placed == before.mines_placed,
                self.cells@.len() == before.cells@.len(),
                forall|t: int|
                    0 <= t < before.cells@.len() ==> {
                        &&& (#[trigger] self.cells@[t]).state == before.cells@[t].state
                        &&& self.cells@[t].adjacent_mines == before.cells@[t].adjacent_mines
                        &&& self.cells@[t].is_mine == order@.take(j as int).contains(t as usize)
                    },
            decreases k - j,
        {
            let i = order[j];
            let c = self.cells[i];
            let ghost prev = self.cells@;
            self.cells.set(i, Cell { is_mine: true, state: c.state, adjacent_mines: c.adjacent_mines });
            proof {
                let ta = order@.take(j as int);
                let tb = order@.take(j + 1);
                assert(tb =~= ta.push(i));
                assert forall|t: int| 0 <= t < before.cells@.len() implies (#[trigger] self.cells@[t]).is_mine
                    == tb.contains(t as usize) by {
                    if ta.contains(t as usize) {
                        let u = choose|u: int| 0 <= u < ta.len() && ta[u] == t as usize;
                        assert(tb[u] == t as usize);
                    }
                    if tb.contains(t as usize) {
                        let u = choose|u: int| 0 <= u < tb.len() && tb[u] == t as usize;
                        if u < j {
                            assert(ta[u] == t as usize);
                        } else {
                            assert(tb[u] == i);
                        }
                    }
                    if t == i {
                        assert(tb[j as int] == i);
                    }
                    if t != i {
                        assert(self.cells@[t] == prev[t]);
                        assert(prev[t].is_mine == ta.contains(t as usize));
                    } else {
                        assert(self.cells@[t].is_mine);
                        assert(tb[j as int] == t as usize);
                        assert(tb.contains(t as usize));
                    }
                }
            }
            j = j + 1;
        }
        self.compute_adjacent_counts();
        self.mines_placed = true;
        proof {
            assert forall|t: int| 0 <= t < before.cells@.len() implies (#[trigger] self.cells@[t]).state
                == before.cells@[t].state && !in_class(self.cells@[t], CellClass::RevealedSafe)
                && (in_class(self.cells@[t], CellClass::Flagged) == in_class(before.cells@[t], CellClass::Flagged))
                && !in_class(before.cells@[t], CellClass::RevealedSafe) by {
                assert(!before.cells@[t].is_mine);
            }
            lemma_count_cells_same(self.cells@, before.cells@, CellClass::Flagged);
            lemma_count_cells_same(self.cells@, before.cells@, CellClass::RevealedSafe);
        }
    }

    /// Lays the mines for a first reveal at `(safe_x, safe_y)`: a random
    /// choice among the cells outside that cell and its neighbours.
    pub(crate) fn place_mines(&mut self, safe_x: usize, safe_y: usize)
        requires
            old(self).wf(),
            !old(self).mines_placed,
        ensures
            final(self).wf(),
            mines_placed_for(*old(self), safe_x, safe_y, *final(self)),
    {
        let mut candidates = self.safe_candidates(safe_x, safe_y);
        let ghost cands = candidates@;
        proof {
            assert(self.cells@.len() == self.cells.len());
            lemma_candidates_upto(self.width, self.height, safe_x, safe_y, (self.width * self.height) as nat);
        }
        let mut rng = thread_rng();
        shuffle(&mut candidates, &mut rng);
        proof {
            assert forall|j: int| 0 <= j < candidates@.len() implies #[trigger] candidates@[j] < self.cells@.len() by {
                candidates@.to_multiset_ensures();
                cands.to_multiset_ensures();
                let x = candidates@[j];
                assert(candidates@.contains(x));
                assert(candidates@.to_multiset().count(x) > 0);
                assert(cands.to_multiset().count(x) > 0);
                assert(cands.contains(x));
                let u = choose|u: int| 0 <= u < cands.len() && cands[u] == x;
                assert(cands[u] < self.width * self.height);
            }
        }
        let ghost before = *self;
        self.lay_mines(&candidates);
        assert(mines_laid_at(before, candidates@, *self));
    }
}

/// No mine is laid on the first cell uncovered nor next to it.
pub proof fn lemma_safe_zone_clear(before: Board, sx: usize, sy: usize, after: Board)
    requires
        mines_placed_for(before, sx, sy, after),
        before.cells@.len() == before.width * before.height,
        before.cells@.len() <= usize::MAX,
        !before.mines_placed,
        forall|i: int| 0 <= i < before.cells@.len() ==> !(#[trigger] before.cells@[i]).is_mine,
    ensures
        forall|a: usize, b: usize|
            in_grid(before.width as int, before.height as int, a as int, b as int) && in_safe_zone(
                before.width,
                before.height,
                sx,
                sy,
                (a, b),
            ) ==> !(#[trigger] after.cell_at(a as int, b as int)).is_mine,
{
    let w = before.width;
    let h = before.height;
    let cands = mine_candidates(w, h, sx, sy);
    let order = choose|order: Seq<usize>|
        #![trigger mines_laid_at(before, order, after)]
        order.to_multiset() == cands.to_multiset() && mines_laid_at(before, order, after);
    lemma_candidates_upto(w, h, sx, sy, (w * h) as nat);
    order.to_multiset_ensures();
    cands.to_multiset_ensures();
    assert forall|a: usize, b: usize|
        in_grid(w as int, h as int, a as int, b as int) && in_safe_zone(w, h, sx, sy, (a, b))
            implies !(#[trigger] after.cell_at(a as int, b as int)).is_mine by {
        let i = index_of(w, a as int, b as int);
        lemma_index_bounds(w, h, a as int, b as int);
        lemma_index_roundtrip(w, h, a as int, b as int);
        let m = mines_taken(before.mine_count, order.len()) as int;
        if order.take(m).contains(i as usize) {
            let u = choose|u: int| 0 <= u < m && order.take(m)[u] == i as usize;
            assert(order[u] == i as usize);
            assert(order.contains(i as usize));
            assert(order.to_multiset().count(i as usize) > 0);
            assert(cands.contains(i as usize));
        }
        assert(after.cells@[i].is_mine == order.take(m).contains(i as usize));
    }
}

/// Laying mines at the first cells of a rearrangement of distinct
/// candidates puts down exactly `mines_taken` mines.
pub proof fn lemma_mines_laid_count(before: Board, order: Seq<usize>, after: Board)
    requires
        mines_laid_at(before, order, after),
        order.no_duplicates(),
        before.cells@.len() <= usize::MAX,
        forall|j: int| 0 <= j < order.len() ==> #[trigger] order[j] < before.cells@.len(),
    ensures
        count_cells(after.cells@, CellClass::Mine) == mines_taken(before.mine_count, order.len()),
{
    let m = mines_taken(before.mine_count, order.len()) as int;
    let taken = order.take(m);
    lemma_count_cells_is_card(after.cells@, CellClass::Mine);
    assert forall|a: int, b: int| 0 <= a < b < taken.len() implies taken[a] != taken[b] by {
        assert(taken[a] == order[a] && taken[b] == order[b]);
    }
    taken.unique_seq_to_set();
    assert forall|i: usize| #[trigger] index_set(after.cells@, CellClass::Mine).contains(i) <==> taken.to_set().contains(i) by {
        if taken.contains(i) {
            let j = choose|j: int| 0 <= j < taken.len() && taken[j] == i;
            assert(order[j] == i);
        }
        if (i as int) < after.cells@.len() {
            assert(after.cells@[i as int].is_mine == taken.contains(i));
        }
    }
    assert(index_set(after.cells@, CellClass::Mine) =~= taken.to_set());
}

/// The first reveal lays `mines_taken` mines: the number asked for, or one
/// on every cell outside the safe zone when there are fewer such cells.
pub proof fn lemma_first_mine_count(before: Board, sx: usize, sy: usize, after: Board)
    requires
        mines_placed_for(before, sx, sy, after),
        before.cells@.len() == before.width * before.height,
        before.cells@.len() <= usize::MAX,
    ensures
        count_cells(after.cells@, CellClass::Mine) == mines_taken(
            before.mine_count,
            mine_candidates(before.width, before.height, sx, sy).len(),
        ),
{
    let w = before.width;
    let h = before.height;
    let cands = mine_candidates(w, h, sx, sy);
    let order = choose|order: Seq<usize>|
        #![trigger mines_laid_at(before, order, after)]
        order.to_multiset() == cands.to_multiset() && mines_laid_at(before, order, after);
    lemma_candidates_upto(w, h, sx, sy, (w * h) as nat);
    assert forall|a: int, b: int| 0 <= a < cands.len() && 0 <= b < cands.len() && a != b implies cands[a] != cands[b] by {
        if a < b {
            assert(cands[a] < cands[b]);
        } else {
            assert(cands[b] < cands[a]);
        }
    }
    cands.lemma_multiset_has_no_duplicates();
    order.to_multiset_ensures();
    cands.to_multiset_ensures();
    order.lemma_multiset_has_no_duplicates_conv();
    assert(order.len() == cands.len()) by {
        assert(order.to_multiset().len() == cands.to_multiset().len());
    }
    assert forall|j: int| 0 <= j < order.len() implies #[trigger] order[j] < before.cells@.len() by {
        assert(order.contains(order[j]));
        assert(order.to_multiset().count(order[j]) > 0);
        assert(cands.contains(order[j]));
        let u = choose|u: int| 0 <= u < cands.len() && cands[u] == order[j];
        assert(cands[u] < w * h);
    }
    lemma_mines_laid_count(before, order, after);
}

} // verus!
