use vstd::prelude::*;
use crate::cell::{Cell, CellState};
use crate::grid::{Pos, index_of};

verus! {

/// The kinds of cells the game counts.
pub enum CellClass {
    Flagged,
    Hidden,
    /// Uncovered by the player, holding no mine.
    RevealedSafe,
    Mine,
}

pub open spec fn in_class(c: Cell, k: CellClass) -> bool {
    match k {
        CellClass::Flagged => c.state == CellState::Flagged,
        CellClass::Hidden => c.state == CellState::Hidden,
        CellClass::RevealedSafe => c.state == CellState::Revealed && !c.is_mine,
        CellClass::Mine => c.is_mine,
    }
}

pub open spec fn one_if(b: bool) -> nat {
    if b {
        1
    } else {
        0
    }
}

/// Number of cells of `s` in class `k`.
pub open spec fn count_cells(s: Seq<Cell>, k: CellClass) -> nat
    decreases s.len(),
{
    if s.len() == 0 {
        0
    } else {
        count_cells(s.drop_last(), k) + one_if(in_class(s.last(), k))
    }
}

/// Number of positions of `ps` whose cell (on a grid `w` wide) is in class `k`.
pub open spec fn count_at(cells: Seq<Cell>, w: usize, ps: Seq<Pos>, k: CellClass) -> nat
    decreases ps.len(),
{
    if ps.len() == 0 {
        0
    } else {
        count_at(cells, w, ps.drop_last(), k) + one_if(
            in_class(cells[index_of(w, ps.last().0 as int, ps.last().1 as int)], k),
        )
    }
}

pub proof fn lemma_count_cells_bound(s: Seq<Cell>, k: CellClass)
    ensures
        count_cells(s, k) <= s.len(),
    decreases s.len(),
{
    if s.len() > 0 {
        lemma_count_cells_bound(s.drop_last(), k);
    }
}

/// Replacing one cell changes the count by the difference it makes.
pub proof fn lemma_count_cells_update(s: Seq<Cell>, k: CellClass, i: int, c: Cell)
    requires
        0 <= i < s.len(),
    ensures
        count_cells(s.update(i, c), k) + one_if(in_class(s[i], k)) == count_cells(s, k) + one_if(
            in_class(c, k),
        ),
    decreases s.len(),
{
    let t = s.update(i, c);
    if i == s.len() - 1 {
        assert(t.drop_last() =~= s.drop_last());
    } else {
        lemma_count_cells_update(s.drop_last(), k, i, c);
        assert(t.drop_last() =~= s.drop_last().update(i, c));
    }
}

/// Counts agree on sequences whose cells agree on the class.
pub proof fn lemma_count_cells_same(s: Seq<Cell>, t: Seq<Cell>, k: CellClass)
    requires
        s.len() == t.len(),
        forall|i: int| 0 <= i < s.len() ==> in_class(#[trigger] s[i], k) == in_class(t[i], k),
    ensures
        count_cells(s, k) == count_cells(t, k),
    decreases s.len(),
{
    if s.len() > 0 {
        lemma_count_cells_same(s.drop_last(), t.drop_last(), k);
    }
}

pub proof fn lemma_count_cells_zero(s: Seq<Cell>, k: CellClass)
    requires
        forall|i: int| 0 <= i < s.len() ==> !in_class(#[trigger] s[i], k),
    ensures
        count_cells(s, k) == 0,
    decreases s.len(),
{
    if s.len() > 0 {
        lemma_count_cells_zero(s.drop_last(), k);
    }
}

pub proof fn lemma_count_at_bound(cells: Seq<Cell>, w: usize, ps: Seq<Pos>, k: CellClass)
    ensures
        count_at(cells, w, ps, k) <= ps.len(),
    decreases ps.len(),
{
    if ps.len() > 0 {
        lemma_count_at_bound(cells, w, ps.drop_last(), k);
    }
}

/// Counts at positions agree on grids that agree on the class at those positions.
pub proof fn lemma_count_at_same(s: Seq<Cell>, t: Seq<Cell>, w: usize, ps: Seq<Pos>, k: CellClass)
    requires
        forall|i: int|
            0 <= i < ps.len() ==> in_class(
                s[index_of(w, (#[trigger] ps[i]).0 as int, ps[i].1 as int)],
                k,
            ) == in_class(t[index_of(w, ps[i].0 as int, ps[i].1 as int)], k),
    ensures
        count_at(s, w, ps, k) == count_at(t, w, ps, k),
    decreases ps.len(),
{
    if ps.len() > 0 {
        lemma_count_at_same(s, t, w, ps.drop_last(), k);
    }
}

/// The positions of `ps` whose cell is in class `k`, in order.
pub open spec fn select_at(cells: Seq<Cell>, w: usize, ps: Seq<Pos>, k: CellClass) -> Seq<Pos>
    decreases ps.len(),
{
    if ps.len() == 0 {
        seq![]
    } else {
        let prev = select_at(cells, w, ps.drop_last(), k);
        if in_class(cells[index_of(w, ps.last().0 as int, ps.last().1 as int)], k) {
            prev.push(ps.last())
        } else {
            prev
        }
    }
}

/// A selection holds exactly the positions of `ps` in the class, in order.
pub proof fn lemma_select_at(cells: Seq<Cell>, w: usize, ps: Seq<Pos>, k: CellClass)
    ensures
        select_at(cells, w, ps, k).len() <= ps.len(),
        forall|q: Pos|
            #[trigger] select_at(cells, w, ps, k).contains(q) <==> (ps.contains(q) && in_class(
                cells[index_of(w, q.0 as int, q.1 as int)],
                k,
            )),
        ps.no_duplicates() ==> select_at(cells, w, ps, k).no_duplicates(),
    decreases ps.len(),
{
    if ps.len() > 0 {
        let prev_ps = ps.drop_last();
        lemma_select_at(cells, w, prev_ps, k);
        let prev = select_at(cells, w, prev_ps, k);
        let s = select_at(cells, w, ps, k);
        assert forall|q: Pos| #[trigger] s.contains(q) <==> (ps.contains(q) && in_class(
            cells[index_of(w, q.0 as int, q.1 as int)],
            k,
        )) by {
            if s.contains(q) {
                let j = choose|j: int| 0 <= j < s.len() && s[j] == q;
                if j < prev.len() {
                    assert(prev[j] == q);
                    assert(prev.contains(q));
                    let u = choose|u: int| 0 <= u < prev_ps.len() && prev_ps[u] == q;
                    assert(ps[u] == q);
                } else {
                    assert(ps[ps.len() - 1] == q);
                }
            }
            if ps.contains(q) && in_class(cells[index_of(w, q.0 as int, q.1 as int)], k) {
                let u = choose|u: int| 0 <= u < ps.len() && ps[u] == q;
                if u < ps.len() - 1 {
                    assert(prev_ps[u] == q);
                    assert(prev.contains(q));
                    let j = choose|j: int| 0 <= j < prev.len() && prev[j] == q;
                    assert(s[j] == q);
                } else {
                    assert(s[s.len() - 1] == q);
                }
            }
        }
        if ps.no_duplicates() {
            assert(prev_ps.no_duplicates());
            if s.len() > prev.len() {
                assert(!prev_ps.contains(ps.last()));
                assert(!prev.contains(ps.last()));
                assert forall|a: int, b: int| 0 <= a < b < s.len() implies s[a] != s[b] by {
                    if b == s.len() - 1 {
                        assert(prev[a] == s[a]);
                    } else {
                        assert(prev[a] == s[a] && prev[b] == s[b]);
                    }
                }
            }
        }
    }
}

/// The positions of `s` whose cell is in class `k`, as a set.
pub open spec fn class_set(cells: Seq<Cell>, w: usize, s: Seq<Pos>, k: CellClass) -> Set<Pos> {
    Set::new(|p: Pos| s.contains(p) && in_class(cells[index_of(w, p.0 as int, p.1 as int)], k))
}

/// Over a sequence without repeats, the count is the size of the set counted.
pub proof fn lemma_count_is_card(cells: Seq<Cell>, w: usize, s: Seq<Pos>, k: CellClass)
    requires
        s.no_duplicates(),
    ensures
        class_set(cells, w, s, k).finite(),
        count_at(cells, w, s, k) == class_set(cells, w, s, k).len(),
    decreases s.len(),
{
    if s.len() == 0 {
        assert(class_set(cells, w, s, k) =~= Set::empty());
    } else {
        let t = s.drop_last();
        let e = s.last();
        assert(t.no_duplicates());
        lemma_count_is_card(cells, w, t, k);
        assert(!t.contains(e)) by {
            if t.contains(e) {
                let j = choose|j: int| 0 <= j < t.len() && t[j] == e;
                assert(s[j] == s[s.len() - 1]);
            }
        }
        assert forall|p: Pos| s.contains(p) <==> (t.contains(p) || p == e) by {
            if s.contains(p) && p != e {
                let j = choose|j: int| 0 <= j < s.len() && s[j] == p;
                assert(t[j] == p);
            }
            if t.contains(p) {
                let j = choose|j: int| 0 <= j < t.len() && t[j] == p;
                assert(s[j] == p);
            }
            if p == e {
                assert(s[s.len() - 1] == p);
            }
        }
        if in_class(cells[index_of(w, e.0 as int, e.1 as int)], k) {
            assert(class_set(cells, w, s, k) =~= class_set(cells, w, t, k).insert(e));
        } else {
            assert(class_set(cells, w, s, k) =~= class_set(cells, w, t, k));
        }
    }
}

/// A count as large as the sequence means every position is in the class;
/// a count of zero means none is.
pub proof fn lemma_count_extremes(cells: Seq<Cell>, w: usize, s: Seq<Pos>, k: CellClass)
    ensures
        count_at(cells, w, s, k) == s.len() ==> forall|j: int|
            0 <= j < s.len() ==> in_class(cells[index_of(w, (#[trigger] s[j]).0 as int, s[j].1 as int)], k),
        count_at(cells, w, s, k) == 0 ==> forall|j: int|
            0 <= j < s.len() ==> !in_class(cells[index_of(w, (#[trigger] s[j]).0 as int, s[j].1 as int)], k),
    decreases s.len(),
{
    if s.len() > 0 {
        let t = s.drop_last();
        lemma_count_extremes(cells, w, t, k);
        lemma_count_at_bound(cells, w, t, k);
        assert forall|j: int| 0 <= j < t.len() implies s[j] == t[j] by {}
    }
}

/// Where flags sit on mines and uncovered cells hold none, the mines among
/// `ps` are the flags plus the mines among the hidden positions.
pub proof fn lemma_count_split(cells: Seq<Cell>, w: usize, ps: Seq<Pos>)
    requires
        forall|j: int|
            0 <= j < ps.len() ==> {
                let c = #[trigger] cells[index_of(w, ps[j].0 as int, ps[j].1 as int)];
                &&& c.state == CellState::Flagged ==> c.is_mine
                &&& c.state == CellState::Revealed ==> !c.is_mine
            },
    ensures
        count_at(cells, w, ps, CellClass::Mine) == count_at(cells, w, ps, CellClass::Flagged) + count_at(
            cells,
            w,
            select_at(cells, w, ps, CellClass::Hidden),
            CellClass::Mine,
        ),
    decreases ps.len(),
{
    if ps.len() > 0 {
        let t = ps.drop_last();
        assert forall|j: int| 0 <= j < t.len() implies t[j] == ps[j] by {}
        lemma_count_split(cells, w, t);
        let e = ps.last();
        let c = cells[index_of(w, e.0 as int, e.1 as int)];
        assert(c == cells[index_of(w, ps[ps.len() - 1].0 as int, ps[ps.len() - 1].1 as int)]);
        let sel = select_at(cells, w, ps, CellClass::Hidden);
        if c.state == CellState::Hidden {
            assert(sel.drop_last() =~= select_at(cells, w, t, CellClass::Hidden));
        }
    }
}

/// The indices of the cells of `s` in class `k`.
pub open spec fn index_set(s: Seq<Cell>, k: CellClass) -> Set<usize> {
    Set::new(|i: usize| (i as int) < s.len() && in_class(s[i as int], k))
}

/// The count of a class is the number of indices in it.
pub proof fn lemma_count_cells_is_card(s: Seq<Cell>, k: CellClass)
    requires
        s.len() <= usize::MAX,
    ensures
        index_set(s, k).finite(),
        count_cells(s, k) == index_set(s, k).len(),
    decreases s.len(),
{
    if s.len() == 0 {
        assert(index_set(s, k) =~= Set::empty());
    } else {
        let t = s.drop_last();
        lemma_count_cells_is_card(t, k);
        let last = (s.len() - 1) as usize;
        if in_class(s.last(), k) {
            assert(index_set(s, k) =~= index_set(t, k).insert(last));
        } else {
            assert(index_set(s, k) =~= index_set(t, k));
        }
    }
}

/// Each cell is at most one of uncovered-safe and mine; when the two counts
/// fill the board, every cell without a mine is uncovered.
pub proof fn lemma_safe_and_mines(s: Seq<Cell>)
    ensures
        count_cells(s, CellClass::RevealedSafe) + count_cells(s, CellClass::Mine) <= s.len(),
        count_cells(s, CellClass::RevealedSafe) + count_cells(s, CellClass::Mine) == s.len()
            ==> forall|i: int| 0 <= i < s.len() && !(#[trigger] s[i]).is_mine ==> s[i].state == CellState::Revealed,
    decreases s.len(),
{
    if s.len() > 0 {
        let t = s.drop_last();
        lemma_safe_and_mines(t);
        assert forall|i: int| 0 <= i < t.len() implies t[i] == s[i] by {}
    }
}

/// No position of `ps` in the class: the count is zero.
pub proof fn lemma_count_at_none(cells: Seq<Cell>, w: usize, ps: Seq<Pos>, k: CellClass)
    requires
        forall|j: int|
            0 <= j < ps.len() ==> !in_class(cells[index_of(w, (#[trigger] ps[j]).0 as int, ps[j].1 as int)], k),
    ensures
        count_at(cells, w, ps, k) == 0,
    decreases ps.len(),
{
    if ps.len() > 0 {
        let t = ps.drop_last();
        assert forall|j: int| 0 <= j < t.len() implies t[j] == ps[j] by {}
        lemma_count_at_none(cells, w, t, k);
    }
}

} // verus!
