//! Grid-level specifications: row-major indexing, mine counting, the
//! 8-neighborhood, and connected zero-adjacency regions with their border.

use vstd::prelude::*;

use crate::model::Cell;

verus! {

pub open spec fn b2i(b: bool) -> int {
    if b {
        1
    } else {
        0
    }
}

/// Whether `(x, y)` lies on a `w` by `h` grid.
pub open spec fn in_b(w: int, h: int, x: int, y: int) -> bool {
    0 <= x < w && 0 <= y < h
}

/// Row-major index of `(x, y)`.
pub open spec fn idx(w: int, x: int, y: int) -> int {
    y * w + x
}

pub proof fn lemma_idx_bounds(w: int, h: int, x: int, y: int)
    by (nonlinear_arith)
    requires
        in_b(w, h, x, y),
    ensures
        0 <= idx(w, x, y) < w * h,
{
}

pub proof fn lemma_idx_injective(w: int, x1: int, y1: int, x2: int, y2: int)
    requires
        0 <= x1 < w,
        0 <= x2 < w,
        idx(w, x1, y1) == idx(w, x2, y2),
    ensures
        x1 == x2 && y1 == y2,
{
    assert(x1 == x2 && y1 == y2) by (nonlinear_arith)
        requires
            0 <= x1 < w,
            0 <= x2 < w,
            y1 * w + x1 == y2 * w + x2,
    ;
}

/// Number of mines in a row-major cell sequence.
pub open spec fn count_mines(cells: Seq<Cell>) -> int
    decreases cells.len(),
{
    if cells.len() == 0 {
        0
    } else {
        count_mines(cells.drop_last()) + b2i(cells.last().is_mine)
    }
}

pub proof fn lemma_count_mines_update(cells: Seq<Cell>, i: int, c: Cell)
    requires
        0 <= i < cells.len(),
    ensures
        count_mines(cells.update(i, c)) == count_mines(cells) - b2i(cells[i].is_mine) + b2i(
            c.is_mine,
        ),
    decreases cells.len(),
{
    let u = cells.update(i, c);
    if i == cells.len() - 1 {
        assert(u.drop_last() =~= cells.drop_last());
    } else {
        assert(u.drop_last() =~= cells.drop_last().update(i, c));
        lemma_count_mines_update(cells.drop_last(), i, c);
    }
}

pub proof fn lemma_count_mines_same(a: Seq<Cell>, b: Seq<Cell>)
    requires
        a.len() == b.len(),
        forall|j: int| 0 <= j < a.len() ==> a[j].is_mine == b[j].is_mine,
    ensures
        count_mines(a) == count_mines(b),
    decreases a.len(),
{
    if a.len() > 0 {
        lemma_count_mines_same(a.drop_last(), b.drop_last());
    }
}

pub proof fn lemma_count_mines_zero(cells: Seq<Cell>)
    requires
        forall|j: int| 0 <= j < cells.len() ==> !(#[trigger] cells[j]).is_mine,
    ensures
        count_mines(cells) == 0,
    decreases cells.len(),
{
    if cells.len() > 0 {
        lemma_count_mines_zero(cells.drop_last());
    }
}

/// Every mine-free cell is open: the winning condition.
pub open spec fn all_safe_open(cells: Seq<Cell>) -> bool {
    forall|j: int| 0 <= j < cells.len() ==> ((#[trigger] cells[j]).is_mine || cells[j].is_open)
}

/// Number of closed cells: the measure that shrinks as cells are revealed.
pub open spec fn count_closed(cells: Seq<Cell>) -> int
    decreases cells.len(),
{
    if cells.len() == 0 {
        0
    } else {
        count_closed(cells.drop_last()) + b2i(!cells.last().is_open)
    }
}

pub proof fn lemma_count_closed_update(cells: Seq<Cell>, i: int, c: Cell)
    requires
        0 <= i < cells.len(),
    ensures
        count_closed(cells.update(i, c)) == count_closed(cells) - b2i(!cells[i].is_open) + b2i(
            !c.is_open,
        ),
    decreases cells.len(),
{
    let u = cells.update(i, c);
    if i == cells.len() - 1 {
        assert(u.drop_last() =~= cells.drop_last());
    } else {
        assert(u.drop_last() =~= cells.drop_last().update(i, c));
        lemma_count_closed_update(cells.drop_last(), i, c);
    }
}

pub proof fn lemma_count_closed_bounds(cells: Seq<Cell>)
    ensures
        0 <= count_closed(cells) <= cells.len(),
    decreases cells.len(),
{
    if cells.len() > 0 {
        lemma_count_closed_bounds(cells.drop_last());
    }
}

/// Whether the in-bounds position `(x, y)` holds a mine; out-of-bounds
/// positions never count as mines.
pub open spec fn mine_at(cells: Seq<Cell>, w: int, h: int, x: int, y: int) -> bool {
    in_b(w, h, x, y) && cells[idx(w, x, y)].is_mine
}

/// Brute-force recount of the mines among the up-to-8 in-bounds neighbors
/// of `(x, y)`; the center itself is never counted.
pub open spec fn adjacent_mines(cells: Seq<Cell>, w: int, h: int, x: int, y: int) -> int {
    b2i(mine_at(cells, w, h, x - 1, y - 1)) + b2i(mine_at(cells, w, h, x, y - 1)) + b2i(
        mine_at(cells, w, h, x + 1, y - 1),
    ) + b2i(mine_at(cells, w, h, x - 1, y)) + b2i(mine_at(cells, w, h, x + 1, y)) + b2i(
        mine_at(cells, w, h, x - 1, y + 1),
    ) + b2i(mine_at(cells, w, h, x, y + 1)) + b2i(mine_at(cells, w, h, x + 1, y + 1))
}

/// Every in-bounds cell stores the true count of its adjacent mines.
pub open spec fn numbers_ok(cells: Seq<Cell>, w: int, h: int) -> bool {
    forall|x: int, y: int|
        in_b(w, h, x, y) ==> #[trigger] cells[idx(w, x, y)].adjacent_mine_count as int
            == adjacent_mines(cells, w, h, x, y)
}

pub proof fn lemma_adjacent_mines_same(a: Seq<Cell>, b: Seq<Cell>, w: int, h: int, x: int, y: int)
    requires
        a.len() == b.len(),
        forall|j: int| 0 <= j < a.len() ==> a[j].is_mine == b[j].is_mine,
        w * h <= a.len(),
    ensures
        adjacent_mines(a, w, h, x, y) == adjacent_mines(b, w, h, x, y),
{
    assert forall|x2: int, y2: int| mine_at(a, w, h, x2, y2) == mine_at(b, w, h, x2, y2) by {
        if in_b(w, h, x2, y2) {
            lemma_idx_bounds(w, h, x2, y2);
        }
    }
}

/// `numbers_ok` restricted to the cells whose row-major index lies below
/// `bound`: the measure of progress while the counts are being filled in.
pub open spec fn numbers_ok_upto(cells: Seq<Cell>, w: int, h: int, bound: int) -> bool {
    forall|x: int, y: int|
        in_b(w, h, x, y) && idx(w, x, y) < bound ==> #[trigger] cells[idx(
            w,
            x,
            y,
        )].adjacent_mine_count as int == adjacent_mines(cells, w, h, x, y)
}

/// The two positions are distinct and differ by at most one in each
/// coordinate: the 8-neighborhood relation.
pub open spec fn adjacent(x1: int, y1: int, x2: int, y2: int) -> bool {
    -1 <= x2 - x1 <= 1 && -1 <= y2 - y1 <= 1 && !(x1 == x2 && y1 == y2)
}

pub open spec fn open_at(cells: Seq<Cell>, w: int, x: int, y: int) -> bool {
    cells[idx(w, x, y)].is_open
}

/// An in-bounds, mine-free cell whose stored adjacency count is zero.
pub open spec fn zero_cell(cells: Seq<Cell>, w: int, h: int, x: int, y: int) -> bool {
    in_b(w, h, x, y) && !cells[idx(w, x, y)].is_mine && cells[idx(w, x, y)].adjacent_mine_count
        == 0
}

/// A mine can never sit next to a cell whose true adjacency count is zero.
pub proof fn lemma_zero_no_mine_neighbor(
    cells: Seq<Cell>,
    w: int,
    h: int,
    zx: int,
    zy: int,
    nx: int,
    ny: int,
)
    requires
        adjacent_mines(cells, w, h, zx, zy) == 0,
        adjacent(zx, zy, nx, ny),
        in_b(w, h, nx, ny),
    ensures
        !cells[idx(w, nx, ny)].is_mine,
{
    assert(!mine_at(cells, w, h, nx, ny));
}

/// A nonempty chain of mutually adjacent zero-count cells.
pub open spec fn is_zero_path(cells: Seq<Cell>, w: int, h: int, p: Seq<(int, int)>) -> bool {
    &&& p.len() >= 1
    &&& forall|i: int| 0 <= i < p.len() ==> zero_cell(cells, w, h, #[trigger] p[i].0, p[i].1)
    &&& forall|i: int|
        0 <= i < p.len() - 1 ==> adjacent(#[trigger] p[i].0, p[i].1, p[i + 1].0, p[i + 1].1)
}

/// `(x, y)` belongs to the connected zero-count region of `(sx, sy)`.
#[verifier::opaque]
pub open spec fn region_reach(
    cells: Seq<Cell>,
    w: int,
    h: int,
    sx: int,
    sy: int,
    x: int,
    y: int,
) -> bool {
    exists|p: Seq<(int, int)>|
        is_zero_path(cells, w, h, p) && p.first() == (sx, sy) && p.last() == (x, y)
}

/// `(x, y)` is in the zero-count region of `(sx, sy)` or on its border:
/// an in-bounds cell adjacent to some cell of that region.
#[verifier::opaque]
pub open spec fn in_closure(
    cells: Seq<Cell>,
    w: int,
    h: int,
    sx: int,
    sy: int,
    x: int,
    y: int,
) -> bool {
    ||| region_reach(cells, w, h, sx, sy, x, y)
    ||| exists|zx: int, zy: int|
        region_reach(cells, w, h, sx, sy, zx, zy) && adjacent(zx, zy, x, y) && in_b(w, h, x, y)
}

/// Every open zero-count cell has all of its in-bounds neighbors open.
pub open spec fn region_inv(cells: Seq<Cell>, w: int, h: int) -> bool {
    forall|zx: int, zy: int, nx: int, ny: int|
        #![trigger zero_cell(cells, w, h, zx, zy), adjacent(zx, zy, nx, ny)]
        zero_cell(cells, w, h, zx, zy) && open_at(cells, w, zx, zy) && adjacent(zx, zy, nx, ny)
            && in_b(w, h, nx, ny) ==> open_at(cells, w, nx, ny)
}

/// `(x, y)` occurs somewhere on the work stack.
pub open spec fn on_stack(st: Seq<(usize, usize)>, x: int, y: int) -> bool {
    exists|k: int| 0 <= k < st.len() && (#[trigger] st[k]).0 == x && st[k].1 == y
}

/// `region_inv` weakened by a work stack: a neighbor that is not yet open
/// must still be waiting on the stack. With an empty stack this is
/// exactly `region_inv`.
pub open spec fn region_inv_mod(cells: Seq<Cell>, w: int, h: int, st: Seq<(usize, usize)>) -> bool {
    forall|zx: int, zy: int, nx: int, ny: int|
        #![trigger zero_cell(cells, w, h, zx, zy), adjacent(zx, zy, nx, ny)]
        zero_cell(cells, w, h, zx, zy) && open_at(cells, w, zx, zy) && adjacent(zx, zy, nx, ny)
            && in_b(w, h, nx, ny) ==> (open_at(cells, w, nx, ny) || on_stack(st, nx, ny))
}

/// Growing the stack at its end keeps every element reachable.
pub proof fn lemma_on_stack_prefix(a: Seq<(usize, usize)>, b: Seq<(usize, usize)>)
    requires
        a.len() <= b.len(),
        forall|k: int| 0 <= k < a.len() ==> #[trigger] b[k] == a[k],
    ensures
        forall|x: int, y: int| on_stack(a, x, y) ==> on_stack(b, x, y),
{
    assert forall|x: int, y: int| on_stack(a, x, y) implies on_stack(b, x, y) by {
        let k = choose|k: int| 0 <= k < a.len() && (#[trigger] a[k]).0 == x && a[k].1 == y;
        assert(b[k] == a[k]);
        assert(0 <= k < b.len() && (b[k]).0 == x && b[k].1 == y);
    }
}

pub proof fn lemma_reach_self(cells: Seq<Cell>, w: int, h: int, x: int, y: int)
    requires
        zero_cell(cells, w, h, x, y),
    ensures
        region_reach(cells, w, h, x, y, x, y),
{
    reveal(region_reach);
    let p = seq![(x, y)];
    assert(is_zero_path(cells, w, h, p));
    assert(p.first() == (x, y) && p.last() == (x, y));
}

pub proof fn lemma_reach_step(
    cells: Seq<Cell>,
    w: int,
    h: int,
    sx: int,
    sy: int,
    zx: int,
    zy: int,
    nx: int,
    ny: int,
)
    requires
        region_reach(cells, w, h, sx, sy, zx, zy),
        zero_cell(cells, w, h, nx, ny),
        adjacent(zx, zy, nx, ny),
    ensures
        region_reach(cells, w, h, sx, sy, nx, ny),
{
    reveal(region_reach);
    let p = choose|p: Seq<(int, int)>|
        is_zero_path(cells, w, h, p) && p.first() == (sx, sy) && p.last() == (zx, zy);
    let q = p.push((nx, ny));
    assert forall|i: int| 0 <= i < q.len() implies zero_cell(
        cells,
        w,
        h,
        #[trigger] q[i].0,
        q[i].1,
    ) by {
        if i < p.len() {
            assert(q[i] == p[i]);
        } else {
            assert(q[i] == (nx, ny));
        }
    }
    assert forall|i: int| 0 <= i < q.len() - 1 implies adjacent(
        #[trigger] q[i].0,
        q[i].1,
        q[i + 1].0,
        q[i + 1].1,
    ) by {
        if i < p.len() - 1 {
            assert(q[i] == p[i] && q[i + 1] == p[i + 1]);
        } else {
            assert(q[i] == p.last() && q[i + 1] == (nx, ny));
        }
    }
    assert(is_zero_path(cells, w, h, q));
    assert(q.first() == (sx, sy) && q.last() == (nx, ny));
}

/// A zero-count cell on the closure of a region belongs to the region itself.
pub proof fn lemma_closure_zero_reach(
    cells: Seq<Cell>,
    w: int,
    h: int,
    sx: int,
    sy: int,
    x: int,
    y: int,
)
    requires
        in_closure(cells, w, h, sx, sy, x, y),
        zero_cell(cells, w, h, x, y),
    ensures
        region_reach(cells, w, h, sx, sy, x, y),
{
    reveal(region_reach);
    reveal(in_closure);
    if !region_reach(cells, w, h, sx, sy, x, y) {
        let (zx, zy) = choose|zx: int, zy: int|
            region_reach(cells, w, h, sx, sy, zx, zy) && adjacent(zx, zy, x, y) && in_b(
                w,
                h,
                x,
                y,
            );
        lemma_reach_step(cells, w, h, sx, sy, zx, zy, x, y);
    }
}

/// A cell of the zero region belongs to the closure.
pub proof fn lemma_closure_of_reach(
    cells: Seq<Cell>,
    w: int,
    h: int,
    sx: int,
    sy: int,
    x: int,
    y: int,
)
    requires
        region_reach(cells, w, h, sx, sy, x, y),
    ensures
        in_closure(cells, w, h, sx, sy, x, y),
{
    reveal(in_closure);
}

/// An in-bounds cell adjacent to the zero region belongs to the closure.
pub proof fn lemma_closure_border(
    cells: Seq<Cell>,
    w: int,
    h: int,
    sx: int,
    sy: int,
    zx: int,
    zy: int,
    x: int,
    y: int,
)
    requires
        region_reach(cells, w, h, sx, sy, zx, zy),
        adjacent(zx, zy, x, y),
        in_b(w, h, x, y),
    ensures
        in_closure(cells, w, h, sx, sy, x, y),
{
    reveal(in_closure);
}

/// Along a zero path whose first cell is open, every cell is open,
/// provided every open zero cell has open neighbors.
proof fn lemma_path_open(cells: Seq<Cell>, w: int, h: int, p: Seq<(int, int)>)
    requires
        region_inv(cells, w, h),
        is_zero_path(cells, w, h, p),
        open_at(cells, w, p.first().0, p.first().1),
    ensures
        forall|i: int| 0 <= i < p.len() ==> open_at(cells, w, #[trigger] p[i].0, p[i].1),
    decreases p.len(),
{
    if p.len() > 1 {
        assert(adjacent(p[0].0, p[0].1, p[1].0, p[1].1));
        assert(open_at(cells, w, p[1].0, p[1].1));
        let q = p.drop_first();
        assert forall|i: int| 0 <= i < q.len() implies zero_cell(
            cells,
            w,
            h,
            #[trigger] q[i].0,
            q[i].1,
        ) by {
            assert(q[i] == p[i + 1]);
        }
        assert forall|i: int| 0 <= i < q.len() - 1 implies adjacent(
            #[trigger] q[i].0,
            q[i].1,
            q[i + 1].0,
            q[i + 1].1,
        ) by {
            assert(q[i] == p[i + 1] && q[i + 1] == p[i + 2]);
        }
        lemma_path_open(cells, w, h, q);
        assert forall|i: int| 0 <= i < p.len() implies open_at(
            cells,
            w,
            #[trigger] p[i].0,
            p[i].1,
        ) by {
            if i >= 1 {
                assert(p[i] == q[i - 1]);
                assert(open_at(cells, w, q[i - 1].0, q[i - 1].1));
            }
        }
    }
}

/// If the start of a zero region is open and every open zero cell has open
/// neighbors, then the whole region and its border are open.
pub proof fn lemma_closure_open(
    cells: Seq<Cell>,
    w: int,
    h: int,
    sx: int,
    sy: int,
    x: int,
    y: int,
)
    requires
        region_inv(cells, w, h),
        open_at(cells, w, sx, sy),
        in_closure(cells, w, h, sx, sy, x, y),
    ensures
        open_at(cells, w, x, y),
{
    reveal(region_reach);
    reveal(in_closure);
    if region_reach(cells, w, h, sx, sy, x, y) {
        let p = choose|p: Seq<(int, int)>|
            is_zero_path(cells, w, h, p) && p.first() == (sx, sy) && p.last() == (x, y);
        lemma_path_open(cells, w, h, p);
        assert(open_at(cells, w, p[p.len() - 1].0, p[p.len() - 1].1));
        assert(p[p.len() - 1] == (x, y));
    } else {
        let (zx, zy) = choose|zx: int, zy: int|
            region_reach(cells, w, h, sx, sy, zx, zy) && adjacent(zx, zy, x, y) && in_b(
                w,
                h,
                x,
                y,
            );
        let p = choose|p: Seq<(int, int)>|
            is_zero_path(cells, w, h, p) && p.first() == (sx, sy) && p.last() == (zx, zy);
        lemma_path_open(cells, w, h, p);
        assert(open_at(cells, w, p[p.len() - 1].0, p[p.len() - 1].1));
        assert(zero_cell(cells, w, h, p[p.len() - 1].0, p[p.len() - 1].1));
        assert(p[p.len() - 1] == (zx, zy));
        assert(zero_cell(cells, w, h, zx, zy) && open_at(cells, w, zx, zy));
        assert(adjacent(zx, zy, x, y));
    }
}

/// Region membership depends only on the mine and count fields, which the
/// reveal algorithm never changes.
pub proof fn lemma_closure_same(
    a: Seq<Cell>,
    b: Seq<Cell>,
    w: int,
    h: int,
    sx: int,
    sy: int,
    x: int,
    y: int,
)
    requires
        a.len() == b.len(),
        w * h <= a.len(),
        forall|j: int|
            0 <= j < a.len() ==> (#[trigger] a[j]).is_mine == b[j].is_mine
                && a[j].adjacent_mine_count == b[j].adjacent_mine_count,
        in_closure(a, w, h, sx, sy, x, y),
    ensures
        in_closure(b, w, h, sx, sy, x, y),
{
    reveal(region_reach);
    reveal(in_closure);
    assert forall|x2: int, y2: int|
        zero_cell(a, w, h, x2, y2) == #[trigger] zero_cell(b, w, h, x2, y2) by {
        if in_b(w, h, x2, y2) {
            lemma_idx_bounds(w, h, x2, y2);
            let j = idx(w, x2, y2);
            assert(a[j].is_mine == b[j].is_mine && a[j].adjacent_mine_count
                == b[j].adjacent_mine_count);
        }
    }
    if region_reach(a, w, h, sx, sy, x, y) {
        let p = choose|p: Seq<(int, int)>|
            is_zero_path(a, w, h, p) && p.first() == (sx, sy) && p.last() == (x, y);
        assert(is_zero_path(b, w, h, p));
        assert(region_reach(b, w, h, sx, sy, x, y));
    } else {
        let (zx, zy) = choose|zx: int, zy: int|
            region_reach(a, w, h, sx, sy, zx, zy) && adjacent(zx, zy, x, y) && in_b(w, h, x, y);
        let p = choose|p: Seq<(int, int)>|
            is_zero_path(a, w, h, p) && p.first() == (sx, sy) && p.last() == (zx, zy);
        assert(is_zero_path(b, w, h, p));
        assert(region_reach(b, w, h, sx, sy, zx, zy));
    }
}

} // verus!
