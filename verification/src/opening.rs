use vstd::prelude::*;
use std::collections::VecDeque;
use crate::board::{Board, GameOutcome, revealed_safe_count, hidden_count, mine_neighbors, with_state,
    lemma_counts_kept};
use crate::cell::{Cell, CellState};
use crate::count::{CellClass, in_class, count_cells, lemma_count_at_none, lemma_count_cells_update, lemma_count_cells_bound,
    lemma_count_cells_same};
use crate::grid::{Pos, in_grid, index_of, neighbor_cells, pos_of, lemma_pos_of, lemma_index_bounds,
    lemma_index_roundtrip, lemma_neighbor_cells};
use crate::mines::{in_safe_zone, mine_candidates, mines_taken, mines_laid_at, mines_placed_for,
    lemma_safe_zone_clear, lemma_first_mine_count};

verus! {

/// Cell `p` may be uncovered by a flood: on the grid, hidden and mine-free.
pub open spec fn floodable(cells: Seq<Cell>, w: usize, h: usize, p: Pos) -> bool {
    &&& in_grid(w as int, h as int, p.0 as int, p.1 as int)
    &&& cells[index_of(w, p.0 as int, p.1 as int)].state == CellState::Hidden
    &&& !cells[index_of(w, p.0 as int, p.1 as int)].is_mine
}

/// `r` holds floodable cells only, and with every member that shows zero it
/// holds all of that member's floodable neighbours.
pub open spec fn flood_closed(cells: Seq<Cell>, w: usize, h: usize, r: Set<Pos>) -> bool {
    forall|p: Pos|
        #[trigger] r.contains(p) ==> {
            &&& floodable(cells, w, h, p)
            &&& cells[index_of(w, p.0 as int, p.1 as int)].adjacent_mines == 0 ==> forall|q: Pos|
                #[trigger] neighbor_cells(w, h, p.0, p.1).contains(q) && floodable(cells, w, h, q)
                    ==> r.contains(q)
        }
}

/// `r` is what a reveal at `start` uncovers: the smallest closed set that
/// contains `start`.
pub open spec fn is_flood_region(cells: Seq<Cell>, w: usize, h: usize, start: Pos, r: Set<Pos>) -> bool {
    &&& r.contains(start)
    &&& flood_closed(cells, w, h, r)
    &&& forall|t: Set<Pos>| #[trigger] flood_closed(cells, w, h, t) && t.contains(start) ==> r.subset_of(t)
}

/// `after` is `before` with the cells of `r` revealed and nothing else changed.
pub open spec fn revealed_region(before: Seq<Cell>, w: usize, r: Set<Pos>, after: Seq<Cell>) -> bool {
    &&& after.len() == before.len()
    &&& forall|i: int|
        0 <= i < before.len() ==> #[trigger] after[i] == if r.contains(pos_of(w, i)) {
            with_state(before[i], CellState::Revealed)
        } else {
            before[i]
        }
}

/// The region a reveal uncovers is determined by the board and the cell.
pub proof fn lemma_flood_region_unique(cells: Seq<Cell>, w: usize, h: usize, start: Pos, r1: Set<Pos>, r2: Set<Pos>)
    requires
        is_flood_region(cells, w, h, start, r1),
        is_flood_region(cells, w, h, start, r2),
    ensures
        r1 == r2,
{
    assert(r1.subset_of(r2));
    assert(r2.subset_of(r1));
    assert(r1 =~= r2);
}

impl Board {
    /// Uncovers `(x, y)` and, breadth first, every hidden mine-free cell
    /// reachable from it through cells that show zero.
    fn flood_fill(&mut self, x: usize, y: usize)
        requires
            old(self).cells@.len() == old(self).width * old(self).height,
            floodable(old(self).cells@, old(self).width, old(self).height, (x, y)),
            old(self).cells_revealed == revealed_safe_count(old(self).cells@),
        ensures
            exists|r: Set<Pos>|
                #![trigger is_flood_region(old(self).cells@, old(self).width, old(self).height, (x, y), r)]
                is_flood_region(old(self).cells@, old(self).width, old(self).height, (x, y), r)
                    && revealed_region(old(self).cells@, old(self).width, r, final(self).cells@),
            final(self).cells_revealed == revealed_safe_count(final(self).cells@),
            final(self).same_settings(old(self)),
            final(self).outcome == old(self).outcome,
            final(self).flags_placed == old(self).flags_placed,
            final(self).mines_placed == old(self).mines_placed,
    {
        let ghost before = *self;
        let ghost orig = self.cells@;
        let ghost w = self.width;
        let ghost h = self.height;
        let ghost start: Pos = (x, y);
        let ghost mut region: Set<Pos> = Set::empty();
        let mut queue: VecDeque<Pos> = VecDeque::new();
        queue.push_back((x, y));
        proof {
            assert(self.cells@ =~= orig);
            assert(queue@[0] == start);
        }
        loop
            invariant
                w == self.width,
                h == self.height,
                self.same_settings(&before),
                self.outcome == before.outcome,
                self.flags_placed == before.flags_placed,
                self.mines_placed == before.mines_placed,
                orig == before.cells@,
                orig.len() == w * h,
                self.cells@.len() == orig.len(),
                self.cells_revealed == revealed_safe_count(self.cells@),
                floodable(orig, w, h, start),
                region.finite(),
                forall|i: int|
                    0 <= i < orig.len() ==> #[trigger] self.cells@[i] == if region.contains(pos_of(w, i)) {
                        with_state(orig[i], CellState::Revealed)
                    } else {
                        orig[i]
                    },
                forall|p: Pos| #[trigger] region.contains(p) ==> floodable(orig, w, h, p),
                forall|k: int| 0 <= k < queue@.len() ==> floodable(orig, w, h, #[trigger] queue@[k]),
                forall|p: Pos, q: Pos|
                    #[trigger] region.contains(p) && orig[index_of(w, p.0 as int, p.1 as int)].adjacent_mines == 0
                        && #[trigger] neighbor_cells(w, h, p.0, p.1).contains(q) && floodable(orig, w, h, q)
                        ==> region.contains(q) || queue@.contains(q),
                region.contains(start) || queue@.contains(start),
                forall|t: Set<Pos>| #[trigger] flood_closed(orig, w, h, t) && t.contains(start) ==> {
                    &&& region.subset_of(t)
                    &&& forall|k: int| 0 <= k < queue@.len() ==> t.contains(#[trigger] queue@[k])
                },
            ensures
                queue@.len() == 0,
            decreases hidden_count(self.cells@), queue@.len(),
        {
            let ghost q0 = queue@;
            let next = queue.pop_front();
            match next {
                None => {
                    break;
                },
                Some(p) => {
                    let (cx, cy) = p;
                    proof {
                        lemma_index_bounds(w, h, cx as int, cy as int);
                        lemma_index_roundtrip(w, h, cx as int, cy as int);
                        assert(floodable(orig, w, h, q0[0]));
                    }
                    let ghost ip = index_of(w, cx as int, cy as int);
                    if self.cell(cx, cy).state == CellState::Hidden {
                        let i = self.idx(cx, cy);
                        let c = self.cells[i];
                        let ghost prev = self.cells@;
                        let ghost old_region = region;
                        let ghost qa = queue@;
                        self.cells.set(
                            i,
                            Cell { is_mine: c.is_mine, state: CellState::Revealed, adjacent_mines: c.adjacent_mines },
                        );
                        proof {
                            assert(!region.contains(p));
                            assert(c == orig[ip]);
                            lemma_count_cells_update(prev, CellClass::RevealedSafe, ip, self.cells@[ip]);
                            lemma_count_cells_update(prev, CellClass::Hidden, ip, self.cells@[ip]);
                            lemma_count_cells_bound(self.cells@, CellClass::RevealedSafe);
                            assert(self.cells@.len() == self.cells.len());
                            region = region.insert(p);
                            assert forall|ii: int| 0 <= ii < orig.len() implies #[trigger] self.cells@[ii]
                                == if region.contains(pos_of(w, ii)) {
                                with_state(orig[ii], CellState::Revealed)
                            } else {
                                orig[ii]
                            } by {
                                if ii != ip {
                                    lemma_pos_of(w, h, ii);
                                    assert(pos_of(w, ii) != p);
                                    assert(self.cells@[ii] == prev[ii]);
                                }
                            }
                        }
                        self.cells_revealed += 1;
                        if c.adjacent_mines == 0 {
                            self.queue_floodable_neighbors(&mut queue, cx, cy);
                            proof {
                                assert forall|q: Pos|
                                    #[trigger] neighbor_cells(w, h, cx, cy).contains(q) && floodable(self.cells@, w, h, q)
                                    implies queue@.contains(q) by {
                                    assert(neighbor_cells(self.width, self.height, cx, cy).contains(q));
                                    assert(floodable(self.cells@, self.width, self.height, q));
                                }
                            }
                        }
                        proof {
                            let ns = neighbor_cells(w, h, cx, cy);
                            // cells floodable now are those floodable at the start and not yet uncovered
                            assert forall|q: Pos| #[trigger] floodable(self.cells@, w, h, q) <==> (floodable(orig, w, h, q)
                                && !region.contains(q)) by {
                                if in_grid(w as int, h as int, q.0 as int, q.1 as int) {
                                    lemma_index_bounds(w, h, q.0 as int, q.1 as int);
                                    lemma_index_roundtrip(w, h, q.0 as int, q.1 as int);
                                    let iq = index_of(w, q.0 as int, q.1 as int);
                                    assert(self.cells@[iq] == if region.contains(pos_of(w, iq)) {
                                        with_state(orig[iq], CellState::Revealed)
                                    } else {
                                        orig[iq]
                                    });
                                }
                            }
                            assert forall|k: int| 0 <= k < queue@.len() implies floodable(orig, w, h, #[trigger] queue@[k]) by {
                                if k < qa.len() {
                                    assert(qa[k] == q0[k + 1]);
                                    assert(queue@[k] == q0[k + 1]);
                                    assert(floodable(orig, w, h, q0[k + 1]));
                                } else {
                                    assert(floodable(self.cells@, w, h, queue@[k]));
                                    assert(floodable(orig, w, h, queue@[k]));
                                }
                            }
                            assert forall|pp: Pos, q: Pos|
                                #[trigger] region.contains(pp) && orig[index_of(w, pp.0 as int, pp.1 as int)].adjacent_mines == 0
                                    && #[trigger] neighbor_cells(w, h, pp.0, pp.1).contains(q) && floodable(orig, w, h, q)
                                    implies region.contains(q) || queue@.contains(q) by {
                                if !region.contains(q) {
                                    if pp == p {
                                        assert(floodable(self.cells@, w, h, q));
                                        assert(c.adjacent_mines == 0);
                                        assert(ns.contains(q));
                                        assert(queue@.contains(q));
                                    } else {
                                        assert(old_region.contains(pp));
                                        assert(q0.contains(q));
                                        let k = choose|k: int| 0 <= k < q0.len() && q0[k] == q;
                                        assert(k != 0);
                                        assert(qa[k - 1] == q);
                                        assert(queue@[k - 1] == q);
                                    }
                                }
                            }
                            if !region.contains(start) {
                                let k = choose|k: int| 0 <= k < q0.len() && q0[k] == start;
                                assert(queue@[k - 1] == start);
                            }
                            assert forall|t: Set<Pos>| #[trigger] flood_closed(orig, w, h, t) && t.contains(start) implies {
                                &&& region.subset_of(t)
                                &&& forall|k: int| 0 <= k < queue@.len() ==> t.contains(#[trigger] queue@[k])
                            } by {
                                assert(t.contains(q0[0]));
                                assert forall|k: int| 0 <= k < queue@.len() implies t.contains(#[trigger] queue@[k]) by {
                                    if k < qa.len() {
                                        assert(queue@[k] == q0[k + 1]);
                                    } else {
                                        assert(ns.contains(queue@[k]));
                                        assert(floodable(self.cells@, w, h, queue@[k]));
                                        assert(t.contains(p));
                                    }
                                }
                            }
                        }
                    } else {
                        proof {
                            assert(self.cells@[ip] == with_state(orig[ip], CellState::Revealed) || self.cells@[ip] == orig[ip]);
                            assert(region.contains(p));
                            assert forall|pp: Pos, q: Pos|
                                #[trigger] region.contains(pp) && orig[index_of(w, pp.0 as int, pp.1 as int)].adjacent_mines == 0
                                    && #[trigger] neighbor_cells(w, h, pp.0, pp.1).contains(q) && floodable(orig, w, h, q)
                                    implies region.contains(q) || queue@.contains(q) by {
                                if !region.contains(q) {
                                    assert(q0.contains(q));
                                    let k = choose|k: int| 0 <= k < q0.len() && q0[k] == q;
                                    assert(k != 0);
                                    assert(queue@[k - 1] == q);
                                }
                            }
                            if !region.contains(start) {
                                let k = choose|k: int| 0 <= k < q0.len() && q0[k] == start;
                                assert(queue@[k - 1] == start);
                            }
                            assert forall|t: Set<Pos>| #[trigger] flood_closed(orig, w, h, t) && t.contains(start) implies
                                forall|k: int| 0 <= k < queue@.len() ==> t.contains(#[trigger] queue@[k]) by {
                                assert forall|k: int| 0 <= k < queue@.len() implies t.contains(#[trigger] queue@[k]) by {
                                    assert(queue@[k] == q0[k + 1]);
                                }
                            }
                        }
                    }
                },
            }
        }
        proof {
            assert(flood_closed(orig, w, h, region));
            assert(is_flood_region(orig, w, h, start, region));
            assert(revealed_region(orig, w, region, self.cells@));
        }
    }

    /// Appends to `queue`, in visiting order, the neighbours of `(x, y)` that
    /// are hidden and hold no mine.
    fn queue_floodable_neighbors(&self, queue: &mut VecDeque<Pos>, x: usize, y: usize)
        requires
            self.cells@.len() == self.width * self.height,
        ensures
            final(queue)@.len() >= old(queue)@.len(),
            forall|k: int| 0 <= k < old(queue)@.len() ==> #[trigger] final(queue)@[k] == old(queue)@[k],
            forall|k: int|
                old(queue)@.len() <= k < final(queue)@.len() ==> neighbor_cells(
                    self.width,
                    self.height,
                    x,
                    y,
                ).contains(#[trigger] final(queue)@[k]) && floodable(
                    self.cells@,
                    self.width,
                    self.height,
                    final(queue)@[k],
                ),
            forall|q: Pos|
                #[trigger] neighbor_cells(self.width, self.height, x, y).contains(q) && floodable(
                    self.cells@,
                    self.width,
                    self.height,
                    q,
                ) ==> final(queue)@.contains(q),
    {
        let ns = self.neighbors(x, y);
        let ghost q_in = queue@;
        let ghost w = self.width;
        let ghost h = self.height;
        let mut j: usize = 0;
        while j < ns.len()
            invariant
                j <= ns@.len(),
                w == self.width,
                h == self.height,
                self.cells@.len() == w * h,
                ns@ == neighbor_cells(w, h, x, y),
                queue@.len() >= q_in.len(),
                forall|k: int| 0 <= k < q_in.len() ==> #[trigger] queue@[k] == q_in[k],
                forall|k: int|
                    q_in.len() <= k < queue@.len() ==> ns@.contains(#[trigger] queue@[k]) && floodable(
                        self.cells@,
                        w,
                        h,
                        queue@[k],
                    ),
                forall|m: int| 0 <= m < j && floodable(self.cells@, w, h, #[trigger] ns@[m]) ==> queue@.contains(ns@[m]),
            decreases ns@.len() - j,
        {
            let q = ns[j];
            proof {
                lemma_neighbor_cells(w, h, x, y);
                assert(ns@.contains(q));
            }
            let ghost before_push = queue@;
            if self.cell(q.0, q.1).state == CellState::Hidden && !self.cell(q.0, q.1).is_mine {
                queue.push_back(q);
                proof {
                    assert(queue@[queue@.len() - 1] == q);
                }
            }
            proof {
                assert forall|m: int| 0 <= m < j + 1 && floodable(self.cells@, w, h, #[trigger] ns@[m]) implies queue@.contains(ns@[m]) by {
                    if m < j {
                        let k = choose|k: int| 0 <= k < before_push.len() && before_push[k] == ns@[m];
                        assert(queue@[k] == ns@[m]);
                    }
                }
            }
            j = j + 1;
        }
        proof {
            assert forall|q: Pos|
                #[trigger] neighbor_cells(w, h, x, y).contains(q) && floodable(self.cells@, w, h, q) implies queue@.contains(q) by {
                let m = choose|m: int| 0 <= m < ns@.len() && ns@[m] == q;
                assert(floodable(self.cells@, w, h, ns@[m]));
            }
        }
    }
}

/// `after` is `before` with every mine uncovered.
pub open spec fn mines_shown(before: Seq<Cell>, after: Seq<Cell>) -> bool {
    &&& after.len() == before.len()
    &&& forall|i: int|
        0 <= i < before.len() ==> #[trigger] after[i] == if before[i].is_mine {
            with_state(before[i], CellState::Revealed)
        } else {
            before[i]
        }
}

/// What uncovering `(x, y)` does once the mines are laid: nothing to a cell
/// that is not hidden; a hidden mine loses the game and shows every mine; any
/// other hidden cell floods, and the game is won when the uncovered safe
/// cells number the cells less the mines the board was made for.
pub open spec fn cell_opened(before: Board, x: usize, y: usize, after: Board) -> bool {
    let c = before.cell_at(x as int, y as int);
    &&& after.same_settings(&before)
    &&& after.mines_placed == before.mines_placed
    &&& after.flags_placed == before.flags_placed
    &&& if c.state != CellState::Hidden {
        &&& after.cells@ == before.cells@
        &&& after.outcome == before.outcome
        &&& after.cells_revealed == before.cells_revealed
    } else if c.is_mine {
        &&& after.outcome == GameOutcome::Lost
        &&& mines_shown(before.cells@, after.cells@)
        &&& after.cells_revealed == before.cells_revealed
    } else {
        &&& exists|r: Set<Pos>|
            #![trigger is_flood_region(before.cells@, before.width, before.height, (x, y), r)]
            is_flood_region(before.cells@, before.width, before.height, (x, y), r) && revealed_region(
                before.cells@,
                before.width,
                r,
                after.cells@,
            )
        &&& after.cells_revealed == revealed_safe_count(after.cells@)
        &&& after.outcome == if after.cells_revealed == before.width * before.height - before.mine_count {
            GameOutcome::Won
        } else {
            GameOutcome::Playing
        }
    }
}

/// Uncovering `(x, y)` ends before the win check: the game is over, the cell
/// is not hidden, or it is a mine already laid.
pub open spec fn opening_stops(b: Board, x: usize, y: usize) -> bool {
    ||| b.outcome != GameOutcome::Playing
    ||| b.cell_at(x as int, y as int).state != CellState::Hidden
    ||| (b.mines_placed && b.cell_at(x as int, y as int).is_mine)
}

impl Board {
    /// The player uncovers `(x, y)`. The first uncovering of a game lays the
    /// mines, away from `(x, y)` and its neighbours.
    pub fn reveal_cell(&mut self, x: usize, y: usize)
        requires
            old(self).wf(),
            old(self).outcome == GameOutcome::Playing ==> x < old(self).width && y < old(self).height,
            old(self).mine_count <= old(self).width * old(self).height || opening_stops(*old(self), x, y),
        ensures
            final(self).wf(),
            old(self).outcome != GameOutcome::Playing ==> final(self).same_board(old(self)),
            old(self).outcome == GameOutcome::Playing && old(self).mines_placed ==> cell_opened(
                *old(self),
                x,
                y,
                *final(self),
            ),
            old(self).outcome == GameOutcome::Playing && !old(self).mines_placed ==> exists|mid: Board|
                #![trigger mines_placed_for(*old(self), x, y, mid)]
                mines_placed_for(*old(self), x, y, mid) && cell_opened(mid, x, y, *final(self)),
            old(self).outcome == GameOutcome::Playing && !old(self).mines_placed ==> {
                &&& final(self).outcome != GameOutcome::Lost
                &&& forall|a: usize, b: usize|
                    final(self).in_bounds(a as int, b as int) && in_safe_zone(
                        final(self).width,
                        final(self).height,
                        x,
                        y,
                        (a, b),
                    ) ==> !(#[trigger] final(self).cell_at(a as int, b as int)).is_mine
                &&& count_cells(final(self).cells@, CellClass::Mine) == mines_taken(
                    old(self).mine_count,
                    mine_candidates(old(self).width, old(self).height, x, y).len(),
                )
                &&& old(self).cell_at(x as int, y as int).state == CellState::Hidden ==> {
                    &&& final(self).cell_at(x as int, y as int).state == CellState::Revealed
                    &&& final(self).cell_at(x as int, y as int).adjacent_mines == 0
                    &&& forall|a: usize, b: usize|
                        neighbor_cells(old(self).width, old(self).height, x, y).contains((a, b))
                            && old(self).cell_at(a as int, b as int).state == CellState::Hidden
                            ==> (#[trigger] final(self).cell_at(a as int, b as int)).state == CellState::Revealed
                }
            },
    {
        if self.outcome != GameOutcome::Playing {
            return;
        }
        let ghost first = !self.mines_placed;
        let ghost before = *self;
        if !self.mines_placed {
            proof {
                assert(self.cells@.len() == self.cells.len());
            }
            self.place_mines(x, y);
            proof {
                lemma_safe_zone_clear(before, x, y, *self);
                lemma_first_mine_count(before, x, y, *self);
                assert(in_safe_zone(self.width, self.height, x, y, (x, y)));
                assert(!self.cell_at(x as int, y as int).is_mine);
                let order = choose|order: Seq<usize>|
                    #![trigger mines_laid_at(before, order, *self)]
                    order.to_multiset() == mine_candidates(self.width, self.height, x, y).to_multiset()
                        && mines_laid_at(before, order, *self);
                lemma_index_bounds(self.width, self.height, x as int, y as int);
                assert forall|k: int| 0 <= k < self.cells@.len() implies (#[trigger] self.cells@[k]).state
                    == before.cells@[k].state by {}
                assert(self.cell_at(x as int, y as int).state == before.cell_at(x as int, y as int).state);
            }
        }
        let ghost mid = *self;
        proof {
            lemma_index_bounds(self.width, self.height, x as int, y as int);
        }
        let cell = *self.cell(x, y);
        if cell.state != CellState::Hidden {
            return;
        }
        if cell.is_mine {
            self.outcome = GameOutcome::Lost;
            let n = self.cells.len();
            let mut i: usize = 0;
            while i < n
                invariant
                    i <= n,
                    n == mid.cells@.len(),
                    self.cells@.len() == n,
                    self.same_settings(&mid),
                    self.outcome == GameOutcome::Lost,
                    self.flags_placed == mid.flags_placed,
                    self.cells_revealed == mid.cells_revealed,
                    self.mines_placed == mid.mines_placed,
                    forall|k: int|
                        0 <= k < n ==> #[trigger] self.cells@[k] == if k < i && mid.cells@[k].is_mine {
                            with_state(mid.cells@[k], CellState::Revealed)
                        } else {
                            mid.cells@[k]
                        },
                decreases n - i,
            {
                let c = self.cells[i];
                if c.is_mine {
                    self.cells.set(i, Cell { is_mine: c.is_mine, state: CellState::Revealed, adjacent_mines: c.adjacent_mines });
                }
                i = i + 1;
            }
            proof {
                assert forall|k: int| 0 <= k < n implies in_class(#[trigger] self.cells@[k], CellClass::RevealedSafe)
                    == in_class(mid.cells@[k], CellClass::RevealedSafe) && self.cells@[k].is_mine == mid.cells@[k].is_mine
                    && self.cells@[k].adjacent_mines == mid.cells@[k].adjacent_mines by {}
                lemma_count_cells_same(self.cells@, mid.cells@, CellClass::RevealedSafe);
                if mid.mines_placed {
                    lemma_counts_kept(mid.cells@, self.cells@, self.width, self.height);
                }
            }
            return;
        }
        self.flood_fill(x, y);
        let ghost flooded = *self;
        let n = self.cells.len();
        assert(n == self.width * self.height);
        if self.cells_revealed == self.width * self.height - self.mine_count {
            self.outcome = GameOutcome::Won;
        }
        proof {
            let r = choose|r: Set<Pos>|
                #![trigger is_flood_region(mid.cells@, mid.width, mid.height, (x, y), r)]
                is_flood_region(mid.cells@, mid.width, mid.height, (x, y), r) && revealed_region(
                    mid.cells@,
                    mid.width,
                    r,
                    flooded.cells@,
                );
            let w = self.width;
            let h = self.height;
            assert forall|k: int| 0 <= k < mid.cells@.len() implies (#[trigger] self.cells@[k]).is_mine
                == mid.cells@[k].is_mine && self.cells@[k].adjacent_mines == mid.cells@[k].adjacent_mines
                && in_class(self.cells@[k], CellClass::Flagged) == in_class(mid.cells@[k], CellClass::Flagged)
                && (self.cells@[k].state == CellState::Revealed ==> !self.cells@[k].is_mine) by {
                lemma_pos_of(w, h, k);
                if r.contains(pos_of(w, k)) {
                    assert(floodable(mid.cells@, w, h, pos_of(w, k)));
                }
            }
            lemma_count_cells_same(self.cells@, mid.cells@, CellClass::Flagged);
            lemma_count_cells_same(self.cells@, mid.cells@, CellClass::Mine);
            assert forall|a: usize, b: usize| self.in_bounds(a as int, b as int) implies (#[trigger] self.cell_at(a as int, b as int)).is_mine
                == mid.cell_at(a as int, b as int).is_mine by {
                lemma_index_bounds(w, h, a as int, b as int);
            }
            lemma_counts_kept(mid.cells@, self.cells@, w, h);
            if first {
                let ns = neighbor_cells(w, h, x, y);
                lemma_neighbor_cells(w, h, x, y);
                assert forall|j: int| 0 <= j < ns.len() implies !in_class(
                    mid.cells@[index_of(w, (#[trigger] ns[j]).0 as int, ns[j].1 as int)],
                    CellClass::Mine,
                ) by {
                    assert(ns.contains(ns[j]));
                    assert(in_safe_zone(w, h, x, y, (ns[j].0, ns[j].1)));
                    assert(!mid.cell_at(ns[j].0 as int, ns[j].1 as int).is_mine);
                }
                lemma_count_at_none(mid.cells@, w, ns, CellClass::Mine);
                let ixy = index_of(w, x as int, y as int);
                lemma_index_roundtrip(w, h, x as int, y as int);
                assert(mid.cells@[ixy].adjacent_mines == mine_neighbors(mid.cells@, w, h, x, y));
                assert(r.contains(pos_of(w, ixy)));
                assert forall|a: usize, b: usize|
                    ns.contains((a, b)) && before.cell_at(a as int, b as int).state == CellState::Hidden
                        implies (#[trigger] self.cell_at(a as int, b as int)).state == CellState::Revealed by {
                    lemma_index_bounds(w, h, a as int, b as int);
                    lemma_index_roundtrip(w, h, a as int, b as int);
                    assert(in_safe_zone(w, h, x, y, (a, b)));
                    assert(!mid.cell_at(a as int, b as int).is_mine);
                    assert(floodable(mid.cells@, w, h, (a, b)));
                    assert(r.contains((a, b)));
                    let ia = index_of(w, a as int, b as int);
                    assert(flooded.cells@[ia] == with_state(mid.cells@[ia], CellState::Revealed));
                }
            }
        }
    }
}

} // verus!
