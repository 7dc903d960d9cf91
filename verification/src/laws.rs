//! Properties of the Game of Life model that hold of every board.

use crate::life::{
    Board, Cell, glyph, lemma_index_in_bounds, lemma_index_injective, lemma_index_split, wrap_offset,
};
use vstd::arithmetic::div_mod::lemma_add_mod_noop_right;
use vstd::prelude::*;

verus! {

/// Each offset pair names a square inside the board.
proof fn lemma_neighbor_in_board(b: Board, row: int, col: int, i: int, j: int)
    requires
        b.wf(),
    ensures
        0 <= (row + wrap_offset(b.height, i)) % (b.height as int) < b.height,
        0 <= (col + wrap_offset(b.width, j)) % (b.width as int) < b.width,
        0 <= b.index(
            (row + wrap_offset(b.height, i)) % (b.height as int),
            (col + wrap_offset(b.width, j)) % (b.width as int),
        ) < b.cells.len(),
{
    let r = (row + wrap_offset(b.height, i)) % (b.height as int);
    let c = (col + wrap_offset(b.width, j)) % (b.width as int);
    lemma_index_in_bounds(b, r, c);
}

/// A cell has at most eight live neighbours: the offset pair of the cell
/// itself never counts.
pub proof fn lemma_live_neighbors_at_most_eight(b: Board, row: int, col: int)
    ensures
        b.live_neighbors(row, col) <= 8,
{
    reveal_with_fuel(Board::count_rows, 4);
    reveal_with_fuel(Board::count_offsets, 4);
    assert(b.neighbor_term(row, col, 1, 1) == 0);
}

/// A generation has the size of the one before it, and stays well formed.
pub proof fn lemma_step_well_formed(b: Board)
    requires
        b.wf(),
    ensures
        b.step().wf(),
        b.step().width == b.width,
        b.step().height == b.height,
{
}

/// A board on which every cell is dead has no live neighbours anywhere, so it
/// stays the same from one generation to the next.
pub proof fn lemma_dead_board_is_still(b: Board)
    requires
        b.wf(),
        forall|k: int| 0 <= k < b.cells.len() ==> #[trigger] b.cells[k] == Cell::Dead,
    ensures
        b.step() == b,
{
    assert forall|k: int| 0 <= k < b.cells.len() implies #[trigger] b.step().cells[k]
        == b.cells[k] by {
        lemma_index_split(b, k);
        let r = k / (b.width as int);
        let c = k % (b.width as int);
        assert forall|i: int, j: int| 0 <= i < 3 && 0 <= j < 3 implies #[trigger] b.neighbor_term(
            r,
            c,
            i,
            j,
        ) == 0 by {
            lemma_neighbor_in_board(b, r, c, i, j);
        }
        reveal_with_fuel(Board::count_rows, 4);
        reveal_with_fuel(Board::count_offsets, 4);
        assert(b.neighbor_term(r, c, 0, 0) == 0);
        assert(b.neighbor_term(r, c, 0, 1) == 0);
        assert(b.neighbor_term(r, c, 0, 2) == 0);
        assert(b.neighbor_term(r, c, 1, 0) == 0);
        assert(b.neighbor_term(r, c, 1, 2) == 0);
        assert(b.neighbor_term(r, c, 2, 0) == 0);
        assert(b.neighbor_term(r, c, 2, 1) == 0);
        assert(b.neighbor_term(r, c, 2, 2) == 0);
        assert(b.live_neighbors(r, c) == 0);
    }
    assert(b.step().cells =~= b.cells);
}

/// Layout of the text picture: the first `n` rows take `n * (width + 1)`
/// characters; in row `r` the character at column `c < width` is the glyph of
/// that cell and the one at column `width` is a line break.
pub proof fn lemma_rendered_rows_layout(b: Board, n: int)
    requires
        b.wf(),
        0 <= n <= b.height,
    ensures
        b.rendered_rows(n).len() == n * (b.width + 1),
        forall|r: int, c: int|
            0 <= r < n && 0 <= c <= b.width ==> #[trigger] b.rendered_rows(n)[r * (b.width + 1) + c]
                == if c < b.width {
                glyph(b.cell(r, c))
            } else {
                '\n'
            },
    decreases n,
{
    let w = b.width as int;
    if n > 0 {
        lemma_rendered_rows_layout(b, n - 1);
        let prev = b.rendered_rows(n - 1);
        let line = b.row_glyphs(n - 1, w).push('\n');
        assert(b.rendered_rows(n) == prev + line);
        assert(prev.len() == (n - 1) * (w + 1));
        assert(n * (w + 1) == (n - 1) * (w + 1) + (w + 1)) by (nonlinear_arith);
        assert forall|r: int, c: int| 0 <= r < n && 0 <= c <= w implies #[trigger] b.rendered_rows(
            n,
        )[r * (w + 1) + c] == if c < w {
            glyph(b.cell(r, c))
        } else {
            '\n'
        } by {
            if r < n - 1 {
                assert(r * (w + 1) + c < (n - 1) * (w + 1)) by (nonlinear_arith)
                    requires
                        0 <= r < n - 1,
                        0 <= c <= w,
                ;
                assert(0 <= r * (w + 1) + c) by (nonlinear_arith)
                    requires
                        0 <= r,
                        0 <= c,
                        0 <= w,
                ;
            } else {
                assert(r * (w + 1) == (n - 1) * (w + 1));
            }
        }
    }
}

/// The text picture of a board has `height` lines of `width` glyphs, each
/// line ended by a line break, the glyph at row `r`, column `c` standing for
/// the cell at that square.
pub proof fn lemma_rendered_layout(b: Board)
    requires
        b.wf(),
    ensures
        b.rendered().len() == b.height * (b.width + 1),
        forall|r: int, c: int|
            0 <= r < b.height && 0 <= c < b.width ==> #[trigger] b.rendered()[r * (b.width + 1) + c]
                == glyph(b.cell(r, c)),
        forall|r: int|
            0 <= r < b.height ==> #[trigger] b.rendered()[r * (b.width + 1) + b.width as int]
                == '\n',
{
    lemma_rendered_rows_layout(b, b.height as int);
    assert forall|r: int| 0 <= r < b.height implies #[trigger] b.rendered()[r * (b.width + 1)
        + b.width as int] == '\n' by {
        assert(b.rendered_rows(b.height as int)[r * (b.width + 1) + b.width] == '\n');
    }
}

/// In the next generation, the square at `row`, `col` holds `next_at(row, col)`.
proof fn lemma_step_cell(b: Board, row: int, col: int)
    requires
        b.wf(),
        0 <= row < b.height,
        0 <= col < b.width,
    ensures
        b.step().cell(row, col) == b.next_at(row, col),
{
    let i = b.index(row, col);
    lemma_index_in_bounds(b, row, col);
    lemma_index_split(b, i);
    lemma_index_injective(b, i / (b.width as int), i % (b.width as int), row, col);
}

/// `(x % m + d) % m == (x + d) % m`.
proof fn lemma_mod_then_add(x: int, d: int, m: int)
    requires
        0 < m,
    ensures
        (x % m + d) % m == (x + d) % m,
{
    lemma_add_mod_noop_right(d, x, m);
    assert(x % m + d == d + x % m);
    assert(x + d == d + x);
}

/// `v` is `u` moved `a` rows down and `b` columns right, wrapping around.
pub open spec fn is_shift_of(v: Board, u: Board, a: int, b: int) -> bool {
    &&& v.width == u.width
    &&& v.height == u.height
    &&& forall|r: int, c: int|
        0 <= r < u.height && 0 <= c < u.width ==> v.cell(
            (r + a) % (u.height as int),
            (c + b) % (u.width as int),
        ) == #[trigger] u.cell(r, c)
}

/// The rules do not depend on where a pattern stands on the wrapping board:
/// moving a board and taking the next generation gives the next generation
/// of the board, moved.
pub proof fn lemma_step_commutes_with_shift(u: Board, v: Board, a: int, b: int)
    requires
        u.wf(),
        v.wf(),
        is_shift_of(v, u, a, b),
    ensures
        is_shift_of(v.step(), u.step(), a, b),
{
    let h = u.height as int;
    let w = u.width as int;
    assert forall|r: int, c: int| 0 <= r < u.step().height && 0 <= c < u.step().width implies v.step().cell(
        (r + a) % (u.step().height as int),
        (c + b) % (u.step().width as int),
    ) == #[trigger] u.step().cell(r, c) by {
        let r2 = (r + a) % h;
        let c2 = (c + b) % w;
        assert forall|i: int, j: int| 0 <= i < 3 && 0 <= j < 3 implies #[trigger] v.neighbor_term(
            r2,
            c2,
            i,
            j,
        ) == u.neighbor_term(r, c, i, j) by {
            let dr = wrap_offset(u.height, i) as int;
            let dc = wrap_offset(u.width, j) as int;
            let r3 = (r + dr) % h;
            let c3 = (c + dc) % w;
            lemma_mod_then_add(r + a, dr, h);
            lemma_mod_then_add(r + dr, a, h);
            assert(r + a + dr == r + dr + a);
            lemma_mod_then_add(c + b, dc, w);
            lemma_mod_then_add(c + dc, b, w);
            assert(c + b + dc == c + dc + b);
            assert(v.cell((r3 + a) % h, (c3 + b) % w) == u.cell(r3, c3));
        }
        reveal_with_fuel(Board::count_rows, 4);
        reveal_with_fuel(Board::count_offsets, 4);
        assert(v.neighbor_term(r2, c2, 0, 0) == u.neighbor_term(r, c, 0, 0));
        assert(v.neighbor_term(r2, c2, 0, 1) == u.neighbor_term(r, c, 0, 1));
        assert(v.neighbor_term(r2, c2, 0, 2) == u.neighbor_term(r, c, 0, 2));
        assert(v.neighbor_term(r2, c2, 1, 0) == u.neighbor_term(r, c, 1, 0));
        assert(v.neighbor_term(r2, c2, 1, 1) == u.neighbor_term(r, c, 1, 1));
        assert(v.neighbor_term(r2, c2, 1, 2) == u.neighbor_term(r, c, 1, 2));
        assert(v.neighbor_term(r2, c2, 2, 0) == u.neighbor_term(r, c, 2, 0));
        assert(v.neighbor_term(r2, c2, 2, 1) == u.neighbor_term(r, c, 2, 1));
        assert(v.neighbor_term(r2, c2, 2, 2) == u.neighbor_term(r, c, 2, 2));
        assert(v.live_neighbors(r2, c2) == u.live_neighbors(r, c));
        assert(v.cell(r2, c2) == u.cell(r, c));
        lemma_step_cell(u, r, c);
        lemma_step_cell(v, r2, c2);
    }
}

/// Stepping `d` squares forward, with `0 < d < n`, on an axis of length `n`
/// never lands back on the start.
proof fn lemma_wrap_moves(x: int, d: int, n: int)
    requires
        0 <= x < n,
        0 < d < n,
    ensures
        (x + d) % n != x,
{
    if x + d < n {
        assert((x + d) % n == x + d) by (nonlinear_arith)
            requires
                0 <= x + d < n,
        ;
    } else {
        assert((x + d) % n == x + d - n) by (nonlinear_arith)
            requires
                n <= x + d < 2 * n,
        ;
    }
}

/// On a board at least two squares wide and two high, a cell's own state
/// never enters its neighbour count: boards that differ at most at
/// `row`, `col` give that square the same count.
pub proof fn lemma_own_state_not_counted(u: Board, v: Board, row: int, col: int)
    requires
        u.wf(),
        v.wf(),
        u.width == v.width,
        u.height == v.height,
        u.width >= 2,
        u.height >= 2,
        0 <= row < u.height,
        0 <= col < u.width,
        forall|k: int|
            0 <= k < u.cells.len() && k != u.index(row, col) ==> #[trigger] v.cells[k]
                == u.cells[k],
    ensures
        v.live_neighbors(row, col) == u.live_neighbors(row, col),
{
    let h = u.height as int;
    let w = u.width as int;
    assert forall|i: int, j: int| 0 <= i < 3 && 0 <= j < 3 implies #[trigger] v.neighbor_term(
        row,
        col,
        i,
        j,
    ) == u.neighbor_term(row, col, i, j) by {
        let dr = wrap_offset(u.height, i) as int;
        let dc = wrap_offset(u.width, j) as int;
        if !(dr == 0 && dc == 0) {
            let r3 = (row + dr) % h;
            let c3 = (col + dc) % w;
            lemma_neighbor_in_board(u, row, col, i, j);
            if dr != 0 {
                lemma_wrap_moves(row, dr, h);
            } else {
                lemma_wrap_moves(col, dc, w);
            }
            if u.index(r3, c3) == u.index(row, col) {
                lemma_index_injective(u, r3, c3, row, col);
            }
            assert(v.cells[u.index(r3, c3)] == u.cells[u.index(r3, c3)]);
        }
    }
    reveal_with_fuel(Board::count_rows, 4);
    reveal_with_fuel(Board::count_offsets, 4);
    assert(v.neighbor_term(row, col, 0, 0) == u.neighbor_term(row, col, 0, 0));
    assert(v.neighbor_term(row, col, 0, 1) == u.neighbor_term(row, col, 0, 1));
    assert(v.neighbor_term(row, col, 0, 2) == u.neighbor_term(row, col, 0, 2));
    assert(v.neighbor_term(row, col, 1, 0) == u.neighbor_term(row, col, 1, 0));
    assert(v.neighbor_term(row, col, 1, 1) == u.neighbor_term(row, col, 1, 1));
    assert(v.neighbor_term(row, col, 1, 2) == u.neighbor_term(row, col, 1, 2));
    assert(v.neighbor_term(row, col, 2, 0) == u.neighbor_term(row, col, 2, 0));
    assert(v.neighbor_term(row, col, 2, 1) == u.neighbor_term(row, col, 2, 1));
    assert(v.neighbor_term(row, col, 2, 2) == u.neighbor_term(row, col, 2, 2));
}

/// The text picture determines the board: equal pictures come from boards of
/// the same size with the same cells.
pub proof fn lemma_rendered_determines_board(u: Board, v: Board)
    requires
        u.wf(),
        v.wf(),
        u.rendered() == v.rendered(),
    ensures
        u == v,
{
    lemma_rendered_layout(u);
    lemma_rendered_layout(v);
    let t = u.rendered();
    // The first line break ends the first row, so both widths agree.
    if u.width < v.width {
        assert(t[0 * (u.width + 1) + u.width as int] == '\n');
        assert(v.rendered()[0 * (v.width + 1) + u.width as int] == glyph(v.cell(0, u.width as int)));
        assert(false);
    }
    if v.width < u.width {
        assert(v.rendered()[0 * (v.width + 1) + v.width as int] == '\n');
        assert(t[0 * (u.width + 1) + v.width as int] == glyph(u.cell(0, v.width as int)));
        assert(false);
    }
    assert(u.width == v.width);
    let w1 = u.width + 1;
    assert(u.height == v.height) by (nonlinear_arith)
        requires
            u.height * w1 == v.height * w1,
            w1 > 0,
    ;
    assert forall|k: int| 0 <= k < u.cells.len() implies u.cells[k] == v.cells[k] by {
        lemma_index_split(u, k);
        let r = k / (u.width as int);
        let c = k % (u.width as int);
        assert(t[r * (u.width + 1) + c] == glyph(u.cell(r, c)));
        assert(v.rendered()[r * (v.width + 1) + c] == glyph(v.cell(r, c)));
    }
    assert(u.cells =~= v.cells);
}

/// The rules B3/S23: a square is alive in the next generation exactly when it
/// is alive now with two or three live neighbours, or dead now with exactly
/// three. In particular a dead square with any other count, eight included,
/// stays dead, and a live one with fewer than two or more than three dies.
pub proof fn lemma_step_follows_b3_s23(b: Board, row: int, col: int)
    requires
        b.wf(),
        0 <= row < b.height,
        0 <= col < b.width,
    ensures
        (b.step().cell(row, col) == Cell::Alive) <==> ((b.cell(row, col) == Cell::Alive && (
        b.live_neighbors(row, col) == 2 || b.live_neighbors(row, col) == 3)) || (b.cell(row, col)
            == Cell::Dead && b.live_neighbors(row, col) == 3)),
        b.step().cell(row, col) == Cell::Alive || b.step().cell(row, col) == Cell::Dead,
{
    lemma_step_cell(b, row, col);
}

} // verus!
