//! The rules of the game stated over a mathematical model of the board.
//!
//! A board is a `Seq<Option<Color>>` of 64 cells in row-major order: the
//! cell in column `x` and row `y` sits at index `8 * y + x`.
use vstd::prelude::*;

use vstd::seq_lib::lemma_no_dup_in_concat;

use crate::color::Color;

verus! {

/// Number of columns, and of rows.
pub const SIZE: usize = 8;

/// Number of cells on the board.
pub const CELLS: usize = 64;

pub open spec fn on_board(x: int, y: int) -> bool {
    0 <= x < 8 && 0 <= y < 8
}

/// Index of the cell in column `x`, row `y`.
pub open spec fn idx(x: int, y: int) -> int {
    y * 8 + x
}

pub open spec fn cell_at(cells: Seq<Option<Color>>, p: (int, int)) -> Option<Color> {
    cells[idx(p.0, p.1)]
}

/// One of the eight compass directions.
pub open spec fn is_direction(dx: int, dy: int) -> bool {
    -1 <= dx <= 1 && -1 <= dy <= 1 && !(dx == 0 && dy == 0)
}

pub open spec fn sign(v: int) -> int {
    if v > 0 {
        1
    } else if v < 0 {
        -1
    } else {
        0
    }
}

/// How many more steps `(x, y)` can take along `(dx, dy)` before leaving the board
/// (bounds the recursion of `ray`).
pub open spec fn room(x: int, y: int, dx: int, dy: int) -> int {
    if dx > 0 {
        8 - x
    } else if dx < 0 {
        x + 1
    } else if dy > 0 {
        8 - y
    } else {
        y + 1
    }
}

/// The cells met when walking from `(x, y)` one step at a time along `(dx, dy)`,
/// the origin excluded, up to the edge of the board.
pub open spec fn ray(x: int, y: int, dx: int, dy: int) -> Seq<(int, int)>
    decreases room(x, y, dx, dy),
{
    if is_direction(dx, dy) && on_board(x + dx, y + dy) {
        seq![(x + dx, y + dy)] + ray(x + dx, y + dy, dx, dy)
    } else {
        Seq::empty()
    }
}

/// Length of the leading stretch of `r` whose cells hold a disc of colour `c`.
pub open spec fn run_len(cells: Seq<Option<Color>>, r: Seq<(int, int)>, c: Color) -> nat
    decreases r.len(),
{
    if r.len() > 0 && cell_at(cells, r[0]) == Some(c) {
        1 + run_len(cells, r.drop_first(), c)
    } else {
        0
    }
}

/// The opposing discs that a disc of colour `m` at `(x, y)` captures along `(dx, dy)`:
/// the run of opposing discs next to it, when a disc of colour `m` closes the run;
/// nothing otherwise (an empty cell or the edge ends the run first).
pub open spec fn captured(cells: Seq<Option<Color>>, x: int, y: int, dx: int, dy: int, m: Color) -> Seq<
    (int, int),
> {
    let r = ray(x, y, dx, dy);
    let k = run_len(cells, r, m.opposite()) as int;
    if k < r.len() && cell_at(cells, r[k]) == Some(m) {
        r.take(k)
    } else {
        Seq::empty()
    }
}

/// Discs captured to the left, then to the right.
pub open spec fn horizontal_flips(cells: Seq<Option<Color>>, x: int, y: int, m: Color) -> Seq<
    (int, int),
> {
    captured(cells, x, y, -1, 0, m) + captured(cells, x, y, 1, 0, m)
}

/// Discs captured upwards, then downwards.
pub open spec fn vertical_flips(cells: Seq<Option<Color>>, x: int, y: int, m: Color) -> Seq<
    (int, int),
> {
    captured(cells, x, y, 0, -1, m) + captured(cells, x, y, 0, 1, m)
}

/// Discs captured up-left, down-left, up-right, then down-right.
pub open spec fn diagonal_flips(cells: Seq<Option<Color>>, x: int, y: int, m: Color) -> Seq<
    (int, int),
> {
    captured(cells, x, y, -1, -1, m) + captured(cells, x, y, -1, 1, m) + captured(
        cells,
        x,
        y,
        1,
        -1,
        m,
    ) + captured(cells, x, y, 1, 1, m)
}

/// Every disc that a disc of colour `m` placed at `(x, y)` turns over.
pub open spec fn flips(cells: Seq<Option<Color>>, x: int, y: int, m: Color) -> Seq<(int, int)> {
    horizontal_flips(cells, x, y, m) + vertical_flips(cells, x, y, m) + diagonal_flips(
        cells,
        x,
        y,
        m,
    )
}

/// Colour `m` may play at `(x, y)`: the cell is on the board, empty, and the move
/// turns over at least one disc.
pub open spec fn is_legal(cells: Seq<Option<Color>>, x: int, y: int, m: Color) -> bool {
    &&& on_board(x, y)
    &&& cell_at(cells, (x, y)) is None
    &&& flips(cells, x, y, m).len() > 0
}

pub open spec fn has_move(cells: Seq<Option<Color>>, m: Color) -> bool {
    exists|x: int, y: int| is_legal(cells, x, y, m)
}

/// No cell is empty.
pub open spec fn full(cells: Seq<Option<Color>>) -> bool {
    forall|i: int| 0 <= i < cells.len() ==> cells[i] is Some
}

/// Number of discs of colour `c`.
pub open spec fn count(cells: Seq<Option<Color>>, c: Color) -> int
    decreases cells.len(),
{
    if cells.len() == 0 {
        0
    } else {
        count(cells.drop_last(), c) + if cells.last() == Some(c) {
            1int
        } else {
            0int
        }
    }
}

/// The board with each cell of `ps` painted in colour `m`, in order.
pub open spec fn paint(cells: Seq<Option<Color>>, ps: Seq<(int, int)>, m: Color) -> Seq<
    Option<Color>,
>
    decreases ps.len(),
{
    if ps.len() == 0 {
        cells
    } else {
        paint(cells, ps.drop_last(), m).update(idx(ps.last().0, ps.last().1), Some(m))
    }
}

/// The board after colour `m` plays at `(x, y)`: the new disc, and every disc
/// it captures turned to `m`.
pub open spec fn after_move(cells: Seq<Option<Color>>, x: int, y: int, m: Color) -> Seq<
    Option<Color>,
> {
    paint(cells.update(idx(x, y), Some(m)), flips(cells, x, y, m), m)
}

/// Every cell of `ray(x, y, dx, dy)` lies on the board, strictly in direction
/// `(dx, dy)` from the origin, and no cell repeats.
pub proof fn lemma_ray(x: int, y: int, dx: int, dy: int)
    ensures
        forall|i: int|
            #![trigger ray(x, y, dx, dy)[i]]
            0 <= i < ray(x, y, dx, dy).len() ==> {
                let p = ray(x, y, dx, dy)[i];
                &&& on_board(p.0, p.1)
                &&& sign(p.0 - x) == dx
                &&& sign(p.1 - y) == dy
            },
        ray(x, y, dx, dy).no_duplicates(),
    decreases room(x, y, dx, dy),
{
    if is_direction(dx, dy) && on_board(x + dx, y + dy) {
        let nx = x + dx;
        let ny = y + dy;
        lemma_ray(nx, ny, dx, dy);
        let rest = ray(nx, ny, dx, dy);
        let r = ray(x, y, dx, dy);
        assert(r == seq![(nx, ny)] + rest);
        assert forall|i: int| 0 <= i < r.len() implies {
            let p = #[trigger] r[i];
            &&& on_board(p.0, p.1)
            &&& sign(p.0 - x) == dx
            &&& sign(p.1 - y) == dy
        } by {
            if i > 0 {
                assert(r[i] == rest[i - 1]);
            }
        }
        assert forall|i: int, j: int| 0 <= i < r.len() && 0 <= j < r.len() && i != j implies r[i]
            != r[j] by {
            if i > 0 && j > 0 {
                assert(r[i] == rest[i - 1]);
                assert(r[j] == rest[j - 1]);
            } else if i == 0 {
                assert(r[j] == rest[j - 1]);
            } else {
                assert(r[i] == rest[i - 1]);
            }
        }
    }
}

/// The first `run_len` cells of `r` hold colour `c`.
pub proof fn lemma_run_len(cells: Seq<Option<Color>>, r: Seq<(int, int)>, c: Color)
    ensures
        run_len(cells, r, c) <= r.len(),
        forall|i: int| 0 <= i < run_len(cells, r, c) ==> cell_at(cells, #[trigger] r[i]) == Some(c),
    decreases r.len(),
{
    if r.len() > 0 && cell_at(cells, r[0]) == Some(c) {
        lemma_run_len(cells, r.drop_first(), c);
        assert forall|i: int| 0 <= i < run_len(cells, r, c) implies cell_at(cells, #[trigger] r[i])
            == Some(c) by {
            if i > 0 {
                assert(r[i] == r.drop_first()[i - 1]);
            }
        }
    }
}

/// The discs captured along one direction lie on the board, strictly in that
/// direction from the origin, hold the opposing colour, and none repeats.
pub proof fn lemma_captured(cells: Seq<Option<Color>>, x: int, y: int, dx: int, dy: int, m: Color)
    ensures
        forall|i: int|
            #![trigger captured(cells, x, y, dx, dy, m)[i]]
            0 <= i < captured(cells, x, y, dx, dy, m).len() ==> {
                let p = captured(cells, x, y, dx, dy, m)[i];
                &&& on_board(p.0, p.1)
                &&& sign(p.0 - x) == dx
                &&& sign(p.1 - y) == dy
                &&& cell_at(cells, p) == Some(m.opposite())
            },
        captured(cells, x, y, dx, dy, m).no_duplicates(),
{
    let r = ray(x, y, dx, dy);
    lemma_ray(x, y, dx, dy);
    lemma_run_len(cells, r, m.opposite());
    let c = captured(cells, x, y, dx, dy, m);
    assert forall|i: int| 0 <= i < c.len() implies {
        let p = #[trigger] c[i];
        &&& on_board(p.0, p.1)
        &&& sign(p.0 - x) == dx
        &&& sign(p.1 - y) == dy
        &&& cell_at(cells, p) == Some(m.opposite())
    } by {
        assert(c[i] == r[i]);
    }
    assert forall|i: int, j: int| 0 <= i < c.len() && 0 <= j < c.len() && i != j implies c[i]
        != c[j] by {
        assert(c[i] == r[i]);
        assert(c[j] == r[j]);
    }
}

/// Every disc a move turns over lies on the board, is not the cell played,
/// holds the opposing colour, and none is turned twice.
pub proof fn lemma_flips(cells: Seq<Option<Color>>, x: int, y: int, m: Color)
    ensures
        forall|i: int|
            #![trigger flips(cells, x, y, m)[i]]
            0 <= i < flips(cells, x, y, m).len() ==> {
                let p = flips(cells, x, y, m)[i];
                &&& on_board(p.0, p.1)
                &&& p != (x, y)
                &&& cell_at(cells, p) == Some(m.opposite())
            },
        flips(cells, x, y, m).no_duplicates(),
{
    let l = captured(cells, x, y, -1, 0, m);
    let r = captured(cells, x, y, 1, 0, m);
    let u = captured(cells, x, y, 0, -1, m);
    let d = captured(cells, x, y, 0, 1, m);
    let lu = captured(cells, x, y, -1, -1, m);
    let ld = captured(cells, x, y, -1, 1, m);
    let ru = captured(cells, x, y, 1, -1, m);
    let rd = captured(cells, x, y, 1, 1, m);
    lemma_captured(cells, x, y, -1, 0, m);
    lemma_captured(cells, x, y, 1, 0, m);
    lemma_captured(cells, x, y, 0, -1, m);
    lemma_captured(cells, x, y, 0, 1, m);
    lemma_captured(cells, x, y, -1, -1, m);
    lemma_captured(cells, x, y, -1, 1, m);
    lemma_captured(cells, x, y, 1, -1, m);
    lemma_captured(cells, x, y, 1, 1, m);
    lemma_no_dup_in_concat(l, r);
    lemma_no_dup_in_concat(u, d);
    lemma_no_dup_in_concat(lu, ld);
    lemma_no_dup_in_concat(lu + ld, ru);
    lemma_no_dup_in_concat(lu + ld + ru, rd);
    let h = l + r;
    let v = u + d;
    let g = lu + ld + ru + rd;
    assert forall|i: int| 0 <= i < h.len() implies sign((#[trigger] h[i]).0 - x) != 0 && sign(h[i].1 - y) == 0 && cell_at(cells, h[i]) == Some(m.opposite()) && on_board(h[i].0, h[i].1) by {
        if i < l.len() { assert(h[i] == l[i]); } else { assert(h[i] == r[i - l.len()]); }
    }
    assert forall|i: int| 0 <= i < v.len() implies sign((#[trigger] v[i]).0 - x) == 0 && sign(v[i].1 - y) != 0 && cell_at(cells, v[i]) == Some(m.opposite()) && on_board(v[i].0, v[i].1) by {
        if i < u.len() { assert(v[i] == u[i]); } else { assert(v[i] == d[i - u.len()]); }
    }
    assert forall|i: int| 0 <= i < g.len() implies sign((#[trigger] g[i]).0 - x) != 0 && sign(g[i].1 - y) != 0 && cell_at(cells, g[i]) == Some(m.opposite()) && on_board(g[i].0, g[i].1) by {
        let a = lu + ld;
        let b = lu + ld + ru;
        if i < lu.len() {
            assert(g[i] == lu[i]);
        } else if i < a.len() {
            assert(g[i] == ld[i - lu.len()]);
        } else if i < b.len() {
            assert(g[i] == ru[i - a.len()]);
        } else {
            assert(g[i] == rd[i - b.len()]);
        }
    }
    lemma_no_dup_in_concat(h, v);
    lemma_no_dup_in_concat(h + v, g);
    let f = flips(cells, x, y, m);
    assert(f == h + v + g);
    assert forall|i: int| 0 <= i < f.len() implies {
        let p = #[trigger] f[i];
        &&& on_board(p.0, p.1)
        &&& p != (x, y)
        &&& cell_at(cells, p) == Some(m.opposite())
    } by {
        if i < h.len() {
            assert(f[i] == h[i]);
        } else if i < h.len() + v.len() {
            assert(f[i] == v[i - h.len()]);
        } else {
            assert(f[i] == g[i - h.len() - v.len()]);
        }
    }
}

/// Writing `v` into cell `i` changes the number of discs of colour `c`
/// by what leaves and what arrives.
pub proof fn lemma_count_update(cells: Seq<Option<Color>>, i: int, v: Option<Color>, c: Color)
    requires
        0 <= i < cells.len(),
    ensures
        count(cells.update(i, v), c) == count(cells, c) - (if cells[i] == Some(c) {
            1int
        } else {
            0int
        }) + (if v == Some(c) {
            1int
        } else {
            0int
        }),
    decreases cells.len(),
{
    let n = cells.update(i, v);
    if i < cells.len() - 1 {
        lemma_count_update(cells.drop_last(), i, v, c);
        assert(n.drop_last() == cells.drop_last().update(i, v));
    } else {
        assert(n.drop_last() == cells.drop_last());
    }
}

/// A board holds between none and all of its cells in any one colour.
pub proof fn lemma_count_bounds(cells: Seq<Option<Color>>, c: Color)
    ensures
        0 <= count(cells, c) <= cells.len(),
    decreases cells.len(),
{
    if cells.len() > 0 {
        lemma_count_bounds(cells.drop_last(), c);
    }
}

/// An empty board holds no disc of any colour.
pub proof fn lemma_count_none(cells: Seq<Option<Color>>, c: Color)
    requires
        forall|i: int| 0 <= i < cells.len() ==> cells[i] is None,
    ensures
        count(cells, c) == 0,
    decreases cells.len(),
{
    if cells.len() > 0 {
        lemma_count_none(cells.drop_last(), c);
    }
}

/// Painting keeps the length, and leaves alone every cell that no painted
/// position names.
pub proof fn lemma_paint_other(cells: Seq<Option<Color>>, ps: Seq<(int, int)>, m: Color, i: int)
    requires
        0 <= i < cells.len(),
        forall|t: int| 0 <= t < ps.len() ==> idx((#[trigger] ps[t]).0, ps[t].1) != i,
        forall|t: int| 0 <= t < ps.len() ==> 0 <= idx((#[trigger] ps[t]).0, ps[t].1) < cells.len(),
    ensures
        paint(cells, ps, m).len() == cells.len(),
        paint(cells, ps, m)[i] == cells[i],
    decreases ps.len(),
{
    if ps.len() > 0 {
        let rest = ps.drop_last();
        assert forall|t: int| 0 <= t < rest.len() implies idx((#[trigger] rest[t]).0, rest[t].1) != i
            && 0 <= idx(rest[t].0, rest[t].1) < cells.len() by {
            assert(rest[t] == ps[t]);
        }
        lemma_paint_other(cells, rest, m, i);
        assert(idx(ps[ps.len() - 1].0, ps[ps.len() - 1].1) != i);
    }
}

/// A cell none of whose neighbours holds an opposing disc captures nothing,
/// so it is never a legal move.
pub proof fn lemma_no_opposing_neighbour(cells: Seq<Option<Color>>, x: int, y: int, m: Color)
    requires
        cells.len() == 64,
        forall|dx: int, dy: int|
            is_direction(dx, dy) && on_board(x + dx, y + dy) ==> #[trigger] cell_at(
                cells,
                (x + dx, y + dy),
            ) != Some(m.opposite()),
    ensures
        flips(cells, x, y, m).len() == 0,
        !is_legal(cells, x, y, m),
{
    assert forall|dx: int, dy: int| is_direction(dx, dy) implies #[trigger] captured(cells, x, y, dx, dy, m).len() == 0 by {
        let r = ray(x, y, dx, dy);
        if on_board(x + dx, y + dy) {
            assert(r[0] == (x + dx, y + dy));
            assert(cell_at(cells, (x + dx, y + dy)) != Some(m.opposite()));
        }
        assert(run_len(cells, r, m.opposite()) == 0);
    }
    assert(captured(cells, x, y, -1, 0, m).len() == 0);
    assert(captured(cells, x, y, 1, 0, m).len() == 0);
    assert(captured(cells, x, y, 0, -1, m).len() == 0);
    assert(captured(cells, x, y, 0, 1, m).len() == 0);
    assert(captured(cells, x, y, -1, -1, m).len() == 0);
    assert(captured(cells, x, y, -1, 1, m).len() == 0);
    assert(captured(cells, x, y, 1, -1, m).len() == 0);
    assert(captured(cells, x, y, 1, 1, m).len() == 0);
}

/// A painted cell holds `m` exactly when some painted position names it.
pub proof fn lemma_paint(cells: Seq<Option<Color>>, ps: Seq<(int, int)>, m: Color, p: (int, int))
    requires
        cells.len() == 64,
        on_board(p.0, p.1),
        forall|t: int| 0 <= t < ps.len() ==> on_board((#[trigger] ps[t]).0, ps[t].1),
    ensures
        paint(cells, ps, m).len() == 64,
        cell_at(paint(cells, ps, m), p) == if ps.contains(p) {
            Some(m)
        } else {
            cell_at(cells, p)
        },
    decreases ps.len(),
{
    if ps.len() > 0 {
        let rest = ps.drop_last();
        let last = ps.last();
        assert forall|t: int| 0 <= t < rest.len() implies on_board((#[trigger] rest[t]).0, rest[t].1) by {
            assert(rest[t] == ps[t]);
        }
        lemma_paint(cells, rest, m, p);
        assert(on_board(last.0, last.1));
        if ps.contains(p) && last != p {
            let t = choose|t: int| 0 <= t < ps.len() && ps[t] == p;
            assert(rest[t] == p);
        }
        if rest.contains(p) {
            let t = choose|t: int| 0 <= t < rest.len() && rest[t] == p;
            assert(ps[t] == p);
        }
        if last == p {
            assert(ps[ps.len() - 1] == p);
        }
    }
}

/// After colour `m` plays at `(x, y)`, a cell holds `m` when it is the cell
/// played or one of the discs turned over; every other cell is as it was.
pub proof fn lemma_after_move_cells(cells: Seq<Option<Color>>, x: int, y: int, m: Color, p: (int, int))
    requires
        cells.len() == 64,
        on_board(x, y),
        on_board(p.0, p.1),
    ensures
        after_move(cells, x, y, m).len() == 64,
        cell_at(after_move(cells, x, y, m), p) == if p == (x, y) || flips(cells, x, y, m).contains(p) {
            Some(m)
        } else {
            cell_at(cells, p)
        },
{
    lemma_flips(cells, x, y, m);
    lemma_paint(cells.update(idx(x, y), Some(m)), flips(cells, x, y, m), m, p);
}

} // verus!
