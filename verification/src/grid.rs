use vstd::prelude::*;

verus! {

/// A position on the board: column, then row.
pub type Pos = (usize, usize);

/// The eight directions around a cell, in the order in which they are
/// visited: row above (left to right), same row (left, right), row below.
pub open spec fn offset(k: int) -> (int, int) {
    if k == 0 {
        (-1, -1)
    } else if k == 1 {
        (0, -1)
    } else if k == 2 {
        (1, -1)
    } else if k == 3 {
        (-1, 0)
    } else if k == 4 {
        (1, 0)
    } else if k == 5 {
        (-1, 1)
    } else if k == 6 {
        (0, 1)
    } else {
        (1, 1)
    }
}

pub open spec fn in_grid(w: int, h: int, x: int, y: int) -> bool {
    0 <= x < w && 0 <= y < h
}

/// `(a, b)` touches `(x, y)` horizontally, vertically or diagonally.
pub open spec fn adjacent(x: int, y: int, a: int, b: int) -> bool {
    &&& -1 <= a - x <= 1
    &&& -1 <= b - y <= 1
    &&& (a != x || b != y)
}

/// The in-grid neighbours reached through the first `k` directions.
pub open spec fn neighbors_upto(w: usize, h: usize, x: usize, y: usize, k: nat) -> Seq<Pos>
    decreases k,
{
    if k == 0 {
        seq![]
    } else {
        let prev = neighbors_upto(w, h, x, y, (k - 1) as nat);
        let d = offset(k - 1);
        let nx = x + d.0;
        let ny = y + d.1;
        if in_grid(w as int, h as int, nx, ny) {
            prev.push((nx as usize, ny as usize))
        } else {
            prev
        }
    }
}

/// The neighbours of `(x, y)` on a `w` by `h` grid, in visiting order.
pub open spec fn neighbor_cells(w: usize, h: usize, x: usize, y: usize) -> Seq<Pos> {
    neighbors_upto(w, h, x, y, 8)
}

/// Row-major index of `(x, y)` on a grid `w` wide.
pub open spec fn index_of(w: usize, x: int, y: int) -> int {
    y * w + x
}

pub proof fn lemma_index_bounds(w: usize, h: usize, x: int, y: int)
    requires
        in_grid(w as int, h as int, x, y),
    ensures
        0 <= index_of(w, x, y) < w * h,
{
    assert(0 <= y * w + x < w * h) by (nonlinear_arith)
        requires
            0 <= x < w,
            0 <= y < h,
    ;
}

pub proof fn lemma_index_decompose(w: usize, h: usize, i: int)
    requires
        0 <= i < w * h,
    ensures
        w > 0,
        in_grid(w as int, h as int, i % (w as int), i / (w as int)),
        index_of(w, i % (w as int), i / (w as int)) == i,
{
    assert(w > 0) by (nonlinear_arith)
        requires
            0 <= i < w * h,
    ;
    let x = i % (w as int);
    let y = i / (w as int);
    assert(i == y * w + x && 0 <= x < w) by (nonlinear_arith)
        requires
            w > 0,
            x == i % (w as int),
            y == i / (w as int),
    ;
    assert(0 <= y < h) by (nonlinear_arith)
        requires
            w > 0,
            0 <= i < w * h,
            i == y * w + x,
            0 <= x < w,
    ;
}

/// Position of `(a, b)` around `(x, y)` in visiting order (4 is the centre).
spec fn dir_rank(x: int, y: int, a: int, b: int) -> int {
    (b - y + 1) * 3 + (a - x + 1)
}

/// Rank of the first direction not yet visited after `k` steps.
spec fn rank_bound(k: int) -> int {
    if k <= 3 {
        k
    } else if k < 8 {
        k + 1
    } else {
        9
    }
}

proof fn lemma_neighbors_upto(w: usize, h: usize, x: usize, y: usize, k: nat)
    requires
        k <= 8,
    ensures
        neighbors_upto(w, h, x, y, k).len() <= k,
        forall|i: int|
            #![trigger neighbors_upto(w, h, x, y, k)[i]]
            0 <= i < neighbors_upto(w, h, x, y, k).len() ==> {
                let p = neighbors_upto(w, h, x, y, k)[i];
                &&& in_grid(w as int, h as int, p.0 as int, p.1 as int)
                &&& adjacent(x as int, y as int, p.0 as int, p.1 as int)
                &&& dir_rank(x as int, y as int, p.0 as int, p.1 as int) < rank_bound(k as int)
            },
        forall|i: int, j: int|
            0 <= i < j < neighbors_upto(w, h, x, y, k).len() ==> dir_rank(
                x as int,
                y as int,
                #[trigger] neighbors_upto(w, h, x, y, k)[i].0 as int,
                neighbors_upto(w, h, x, y, k)[i].1 as int,
            ) < dir_rank(
                x as int,
                y as int,
                #[trigger] neighbors_upto(w, h, x, y, k)[j].0 as int,
                neighbors_upto(w, h, x, y, k)[j].1 as int,
            ),
        forall|p: Pos|
            in_grid(w as int, h as int, p.0 as int, p.1 as int) && adjacent(
                x as int,
                y as int,
                p.0 as int,
                p.1 as int,
            ) && dir_rank(x as int, y as int, p.0 as int, p.1 as int) < rank_bound(k as int)
                ==> #[trigger] neighbors_upto(w, h, x, y, k).contains(p),
    decreases k,
{
    if k > 0 {
        lemma_neighbors_upto(w, h, x, y, (k - 1) as nat);
        let prev = neighbors_upto(w, h, x, y, (k - 1) as nat);
        let s = neighbors_upto(w, h, x, y, k);
        assert forall|p: Pos|
            in_grid(w as int, h as int, p.0 as int, p.1 as int) && adjacent(
                x as int,
                y as int,
                p.0 as int,
                p.1 as int,
            ) && dir_rank(x as int, y as int, p.0 as int, p.1 as int) < rank_bound(
                k as int,
            ) implies s.contains(p) by {
            if dir_rank(x as int, y as int, p.0 as int, p.1 as int) < rank_bound(k - 1) {
                assert(prev.contains(p));
                let i = choose|i: int| 0 <= i < prev.len() && prev[i] == p;
                assert(s[i] == p);
            } else {
                assert(s[s.len() - 1] == p);
            }
        }
    }
}

/// The neighbour list holds exactly the in-grid adjacent positions, each once.
pub proof fn lemma_neighbor_cells(w: usize, h: usize, x: usize, y: usize)
    ensures
        neighbor_cells(w, h, x, y).no_duplicates(),
        neighbor_cells(w, h, x, y).len() <= 8,
        forall|p: Pos|
            #![trigger neighbor_cells(w, h, x, y).contains(p)]
            neighbor_cells(w, h, x, y).contains(p) <==> (in_grid(
                w as int,
                h as int,
                p.0 as int,
                p.1 as int,
            ) && adjacent(x as int, y as int, p.0 as int, p.1 as int)),
{
    lemma_neighbors_upto(w, h, x, y, 8);
    let s = neighbor_cells(w, h, x, y);
    assert forall|i: int, j: int| 0 <= i < s.len() && 0 <= j < s.len() && i != j implies s[i] != s[j] by {
        if i < j {
            assert(dir_rank(x as int, y as int, s[i].0 as int, s[i].1 as int) < dir_rank(
                x as int,
                y as int,
                s[j].0 as int,
                s[j].1 as int,
            ));
        } else {
            assert(dir_rank(x as int, y as int, s[j].0 as int, s[j].1 as int) < dir_rank(
                x as int,
                y as int,
                s[i].0 as int,
                s[i].1 as int,
            ));
        }
    }
    assert forall|p: Pos| s.contains(p) implies in_grid(w as int, h as int, p.0 as int, p.1 as int)
        && adjacent(x as int, y as int, p.0 as int, p.1 as int) by {
        let i = choose|i: int| 0 <= i < s.len() && s[i] == p;
        assert(s[i] == p);
    }
}

/// The position stored at row-major index `i` on a grid `w` wide.
pub open spec fn pos_of(w: usize, i: int) -> Pos {
    ((i % (w as int)) as usize, (i / (w as int)) as usize)
}

/// A position and its index determine each other.
pub proof fn lemma_index_roundtrip(w: usize, h: usize, x: int, y: int)
    requires
        in_grid(w as int, h as int, x, y),
    ensures
        pos_of(w, index_of(w, x, y)) == (x as usize, y as usize),
{
    assert((y * w + x) % (w as int) == x && (y * w + x) / (w as int) == y) by (nonlinear_arith)
        requires
            0 <= x < w,
            0 <= y,
    {
        vstd::arithmetic::div_mod::lemma_fundamental_div_mod_converse(y * w + x, w as int, y, x);
    }
}

/// Every index below `w * h` is the index of the in-grid position `pos_of(w, i)`.
pub proof fn lemma_pos_of(w: usize, h: usize, i: int)
    requires
        0 <= i < w * h,
    ensures
        in_grid(w as int, h as int, pos_of(w, i).0 as int, pos_of(w, i).1 as int),
        index_of(w, pos_of(w, i).0 as int, pos_of(w, i).1 as int) == i,
{
    lemma_index_decompose(w, h, i);
}

fn direction(k: usize) -> (d: (i8, i8))
    requires
        k < 8,
    ensures
        d.0 == offset(k as int).0,
        d.1 == offset(k as int).1,
{
    if k == 0 {
        (-1, -1)
    } else if k == 1 {
        (0, -1)
    } else if k == 2 {
        (1, -1)
    } else if k == 3 {
        (-1, 0)
    } else if k == 4 {
        (1, 0)
    } else if k == 5 {
        (-1, 1)
    } else if k == 6 {
        (0, 1)
    } else {
        (1, 1)
    }
}

/// `c + d` when it lies in `0..limit`.
fn shift(c: usize, d: i8, limit: usize) -> (r: Option<usize>)
    requires
        -1 <= d <= 1,
    ensures
        r == (if 0 <= c + d < limit {
            Some((c + d) as usize)
        } else {
            None::<usize>
        }),
{
    if d < 0 {
        if c >= 1 && c - 1 < limit {
            Some(c - 1)
        } else {
            None
        }
    } else if d == 0 {
        if c < limit {
            Some(c)
        } else {
            None
        }
    } else {
        if c < limit && limit - c > 1 {
            Some(c + 1)
        } else {
            None
        }
    }
}

/// The neighbours of `(x, y)` on a `w` by `h` grid, in visiting order.
pub fn grid_neighbors(w: usize, h: usize, x: usize, y: usize) -> (r: Vec<Pos>)
    ensures
        r@ == neighbor_cells(w, h, x, y),
{
    let mut result: Vec<Pos> = Vec::new();
    let mut k: usize = 0;
    while k < 8
        invariant
            k <= 8,
            result@ == neighbors_upto(w, h, x, y, k as nat),
        decreases 8 - k,
    {
        let d = direction(k);
        match (shift(x, d.0, w), shift(y, d.1, h)) {
            (Some(nx), Some(ny)) => {
                result.push((nx, ny));
            },
            _ => {},
        }
        k = k + 1;
    }
    result
}

/// Whether `p` occurs in `v`.
pub fn contains_pos(v: &Vec<Pos>, p: Pos) -> (r: bool)
    ensures
        r == v@.contains(p),
{
    let mut i: usize = 0;
    while i < v.len()
        invariant
            i <= v@.len(),
            forall|j: int| 0 <= j < i ==> v@[j] != p,
        decreases v@.len() - i,
    {
        if v[i].0 == p.0 && v[i].1 == p.1 {
            assert(v@[i as int] == p);
            return true;
        }
        i = i + 1;
    }
    false
}

} // verus!
