//! Conway's Game of Life on a board whose edges wrap around (a torus).

use vstd::prelude::*;

verus! {

/// The state of one square of the board.
#[derive(Clone, Copy, Debug, PartialEq, Eq, Structural)]
pub enum Cell {
    Dead,
    Alive,
}

/// 1 for a live cell, 0 for a dead one.
pub open spec fn alive_count(cell: Cell) -> nat {
    if cell is Alive {
        1
    } else {
        0
    }
}

/// What a cell becomes in the next generation, given how many of its
/// neighbours are alive:
/// - a live cell with fewer than two live neighbours dies (underpopulation);
/// - a live cell with two or three live neighbours lives on;
/// - a live cell with more than three live neighbours dies (overpopulation);
/// - a dead cell with exactly three live neighbours becomes alive (reproduction);
/// - every other cell stays as it is.
pub open spec fn next_cell(cell: Cell, live: nat) -> Cell {
    match cell {
        Cell::Alive => if live == 2 || live == 3 {
            Cell::Alive
        } else {
            Cell::Dead
        },
        Cell::Dead => if live == 3 {
            Cell::Alive
        } else {
            Cell::Dead
        },
    }
}

/// The three row (or column) offsets that are looked at around a cell on an
/// axis of length `n`: `n - 1` (one step back, after wrapping), `0` and `1`.
pub open spec fn wrap_offset(n: nat, k: int) -> nat {
    if k == 0 {
        (n - 1) as nat
    } else if k == 1 {
        0
    } else {
        1
    }
}

/// Mathematical model of a board: its size and its cells in row-major order.
pub struct Board {
    pub width: nat,
    pub height: nat,
    pub cells: Seq<Cell>,
}

impl Board {
    /// A board is well formed when it is not empty and holds one cell per
    /// square.
    pub open spec fn wf(self) -> bool {
        &&& self.width > 0
        &&& self.height > 0
        &&& self.cells.len() == self.width * self.height
    }

    /// Position in `cells` of the square at `row`, `col`.
    pub open spec fn index(self, row: int, col: int) -> int {
        row * self.width + col
    }

    pub open spec fn cell(self, row: int, col: int) -> Cell {
        self.cells[self.index(row, col)]
    }

    /// Contribution of the offset pair (`i`, `j`) to the neighbour count of
    /// `row`, `col`: the pair of zero offsets (the cell itself) counts nothing.
    pub open spec fn neighbor_term(self, row: int, col: int, i: int, j: int) -> nat {
        let dr = wrap_offset(self.height, i);
        let dc = wrap_offset(self.width, j);
        if dr == 0 && dc == 0 {
            0
        } else {
            alive_count(self.cell((row + dr) % (self.height as int), (col + dc) % (self.width as int)))
        }
    }

    /// Sum of the terms of row offset `i` over the first `j` column offsets.
    pub open spec fn count_offsets(self, row: int, col: int, i: int, j: int) -> nat
        decreases j,
    {
        if j <= 0 {
            0
        } else {
            self.count_offsets(row, col, i, j - 1) + self.neighbor_term(row, col, i, j - 1)
        }
    }

    /// Sum of the terms of the first `i` row offsets over all column offsets.
    pub open spec fn count_rows(self, row: int, col: int, i: int) -> nat
        decreases i,
    {
        if i <= 0 {
            0
        } else {
            self.count_rows(row, col, i - 1) + self.count_offsets(row, col, i - 1, 3)
        }
    }

    /// Number of live cells among the eight neighbours of `row`, `col`, the
    /// board wrapping around at its edges.
    pub open spec fn live_neighbors(self, row: int, col: int) -> nat {
        self.count_rows(row, col, 3)
    }

    /// What the square at `row`, `col` holds in the next generation.
    pub open spec fn next_at(self, row: int, col: int) -> Cell {
        next_cell(self.cell(row, col), self.live_neighbors(row, col))
    }

    /// The next generation: every cell follows `next_cell`, all of them
    /// computed from this generation.
    pub open spec fn step(self) -> Board {
        Board {
            width: self.width,
            height: self.height,
            cells: Seq::new(
                self.cells.len(),
                |i: int| self.next_at(i / (self.width as int), i % (self.width as int)),
            ),
        }
    }
}

/// Index arithmetic: a square inside the board has an index inside the board.
pub proof fn lemma_index_in_bounds(b: Board, row: int, col: int)
    requires
        b.wf(),
        0 <= row < b.height,
        0 <= col < b.width,
    ensures
        0 <= b.index(row, col) < b.cells.len(),
{
    let w = b.width as int;
    let h = b.height as int;
    assert(0 <= row * w + col < w * h) by (nonlinear_arith)
        requires
            0 <= row < h,
            0 <= col < w,
    ;
}

/// Distinct squares of a board have distinct indices.
pub proof fn lemma_index_injective(b: Board, r1: int, c1: int, r2: int, c2: int)
    requires
        b.wf(),
        0 <= r1 < b.height,
        0 <= c1 < b.width,
        0 <= r2 < b.height,
        0 <= c2 < b.width,
        b.index(r1, c1) == b.index(r2, c2),
    ensures
        r1 == r2,
        c1 == c2,
{
    let w = b.width as int;
    assert(r1 == r2) by (nonlinear_arith)
        requires
            0 <= c1 < w,
            0 <= c2 < w,
            r1 * w + c1 == r2 * w + c2,
    ;
}

/// Every index of a board is that of the square at row `i / width`,
/// column `i % width`.
pub proof fn lemma_index_split(b: Board, i: int)
    requires
        b.wf(),
        0 <= i < b.cells.len(),
    ensures
        0 <= i / (b.width as int) < b.height,
        0 <= i % (b.width as int) < b.width,
        b.index(i / (b.width as int), i % (b.width as int)) == i,
{
    let w = b.width as int;
    let h = b.height as int;
    assert(0 <= i / w < h && 0 <= i % w < w && (i / w) * w + i % w == i) by (nonlinear_arith)
        requires
            0 < w,
            0 <= i < w * h,
    ;
}

/// The squares that start alive on the 64 by 64 board of `Universe::new`,
/// by index: the pattern "101" (Achim Flammenkamp) near the centre.
pub open spec fn seeded(i: int) -> bool {
    ||| i == 64 * 32 + 32
    ||| i == 64 * 32 + 33
    ||| i == 64 * 32 + 34
    ||| i == 64 * 33 + 31
    ||| i == 64 * 34 + 31
    ||| i == 64 * 35 + 31
    ||| i == 64 * 36 + 32
    ||| i == 64 * 37 + 33
    ||| i == 64 * 38 + 34
    ||| i == 64 * 39 + 35
    ||| i == 64 * 40 + 35
    ||| i == 64 * 41 + 35
    ||| i == 64 * 42 + 34
    ||| i == 64 * 43 + 33
    ||| i == 64 * 44 + 32
}

/// The board that `Universe::new` starts from.
pub open spec fn initial_board() -> Board {
    Board {
        width: 64,
        height: 64,
        cells: Seq::new(
            64 * 64,
            |i: int|
                if seeded(i) {
                    Cell::Alive
                } else {
                    Cell::Dead
                },
        ),
    }
}

/// The character that stands for a cell in the text picture of a board:
/// a white square for a dead cell, a black square for a live one.
pub open spec fn glyph(cell: Cell) -> char {
    if cell is Dead {
        '\u{25FB}'
    } else {
        '\u{25FC}'
    }
}

impl Board {
    /// The first `n` glyphs of row `row`.
    pub open spec fn row_glyphs(self, row: int, n: int) -> Seq<char> {
        Seq::new(n as nat, |c: int| glyph(self.cell(row, c)))
    }

    /// The text of the first `n` rows, each its glyphs and a line break.
    pub open spec fn rendered_rows(self, n: int) -> Seq<char>
        decreases n,
    {
        if n <= 0 {
            Seq::empty()
        } else {
            self.rendered_rows(n - 1) + self.row_glyphs(n - 1, self.width as int).push('\n')
        }
    }

    /// The text picture of the whole board, one line per row.
    pub open spec fn rendered(self) -> Seq<char> {
        self.rendered_rows(self.height as int)
    }
}

/// A square's fill colour when the board is drawn on a canvas.
pub open spec fn spec_fill_style(cell: Cell) -> Seq<char> {
    if cell is Dead {
        "#fff"@
    } else {
        "#000"@
    }
}

impl Cell {
    /// The fill colour of this cell when the board is drawn: white for a dead
    /// cell, black for a live one.
    pub fn fill_style(&self) -> (style: &'static str)
        ensures
            style@ == spec_fill_style(*self),
    {
        match self {
            Cell::Dead => "#fff",
            Cell::Alive => "#000",
        }
    }
}

/// Whether the square at index `i` of the starting board is alive.
fn is_seeded(i: u32) -> (alive: bool)
    ensures
        alive == seeded(i as int),
{
    i == 64 * 32 + 32 || i == 64 * 32 + 33 || i == 64 * 32 + 34
        || i == 64 * 33 + 31 || i == 64 * 34 + 31 || i == 64 * 35 + 31
        || i == 64 * 36 + 32 || i == 64 * 37 + 33 || i == 64 * 38 + 34
        || i == 64 * 39 + 35 || i == 64 * 40 + 35 || i == 64 * 41 + 35
        || i == 64 * 42 + 34 || i == 64 * 43 + 33 || i == 64 * 44 + 32
}

/// A board of cells that evolves one generation per `tick`.
pub struct Universe {
    width: u32,
    height: u32,
    cells: Vec<Cell>,
}

impl View for Universe {
    type V = Board;

    closed spec fn view(&self) -> Board {
        Board { width: self.width as nat, height: self.height as nat, cells: self.cells@ }
    }
}

/// Returns the offset of index `k` among the three that are looked at on an
/// axis of length `n`.
fn offset_at(n: u32, k: usize) -> (d: u32)
    requires
        n > 0,
        k < 3,
    ensures
        d == wrap_offset(n as nat, k as int),
{
    if k == 0 {
        n - 1
    } else if k == 1 {
        0
    } else {
        1
    }
}

impl Universe {
    /// The board is well formed and small enough for the index and neighbour
    /// arithmetic to fit in `u32`.
    #[verifier::type_invariant]
    spec fn inv(self) -> bool {
        &&& self@.wf()
        &&& self.width * self.height <= u32::MAX
        &&& self.width <= 0x8000_0000
        &&& self.height <= 0x8000_0000
    }

    /// Position in `cells()` of the square at `row`, `column`, that is
    /// `row * width + column`; inside the board when the square is.
    pub fn get_index(&self, row: u32, column: u32) -> (idx: usize)
        requires
            row * self@.width + column <= u32::MAX,
        ensures
            idx == self@.index(row as int, column as int),
            row < self@.height && column < self@.width ==> idx < self@.cells.len(),
    {
        proof {
            use_type_invariant(self);
            if row < self@.height && column < self@.width {
                lemma_index_in_bounds(self@, row as int, column as int);
            }
            assert(row * self.width <= row * self.width + column);
        }
        (row * self.width + column) as usize
    }


    /// Number of live cells among the eight neighbours of `row`, `column`,
    /// the board wrapping around at its edges.
    fn live_neighbor_count(&self, row: u32, column: u32) -> (count: u8)
        requires
            row < self.height,
            column < self.width,
        ensures
            count == self@.live_neighbors(row as int, column as int),
    {
        proof {
            use_type_invariant(self);
        }
        let ghost b = self@;
        let mut count: u8 = 0;
        let mut i: usize = 0;
        while i < 3
            invariant
                b == self@,
                b.wf(),
                self.width <= 0x8000_0000,
                self.height <= 0x8000_0000,
                row < self.height,
                column < self.width,
                i <= 3,
                count == b.count_rows(row as int, column as int, i as int),
                count <= 3 * i,
            decreases 3 - i,
        {
            let delta_row = offset_at(self.height, i);
            let mut j: usize = 0;
            while j < 3
                invariant
                    b == self@,
                    b.wf(),
                    self.width <= 0x8000_0000,
                    self.height <= 0x8000_0000,
                    row < self.height,
                    column < self.width,
                    i < 3,
                    j <= 3,
                    delta_row == wrap_offset(b.height, i as int),
                    count == b.count_rows(row as int, column as int, i as int)
                        + b.count_offsets(row as int, column as int, i as int, j as int),
                    count <= 3 * i + j,
                decreases 3 - j,
            {
                let delta_col = offset_at(self.width, j);
                if !(delta_row == 0 && delta_col == 0) {
                    let neighbor_row = (row + delta_row) % self.height;
                    let neighbor_col = (column + delta_col) % self.width;
                    proof {
                        use_type_invariant(self);
                        lemma_index_in_bounds(self@, neighbor_row as int, neighbor_col as int);
                    }
                    let idx = self.get_index(neighbor_row, neighbor_col);
                    if self.cells[idx] == Cell::Alive {
                        count += 1;
                    }
                }
                j += 1;
            }
            i += 1;
        }
        count
    }

    /// Advances the board by one generation: every cell follows the four
    /// rules of `next_cell`, all neighbour counts being taken on the
    /// generation before the call.
    pub fn tick(&mut self)
        ensures
            final(self)@ == old(self)@.step(),
            final(self)@.width == old(self)@.width,
            final(self)@.height == old(self)@.height,
            forall|row: int, col: int|
                0 <= row < old(self)@.height && 0 <= col < old(self)@.width
                    ==> #[trigger] final(self)@.cell(row, col) == old(self)@.next_at(row, col),
            forall|row: int, col: int|
                0 <= row < old(self)@.height && 0 <= col < old(self)@.width ==> ((
                #[trigger] final(self)@.cell(row, col) == Cell::Alive) <==> ((old(self)@.cell(row, col)
                == Cell::Alive && (old(self)@.live_neighbors(row, col) == 2 || old(self)@.live_neighbors(
                row,
                col,
            ) == 3)) || (old(self)@.cell(row, col) == Cell::Dead && old(self)@.live_neighbors(row, col)
                == 3))),
    {
        proof {
            use_type_invariant(&*self);
        }
        let ghost b = self@;
        let mut next = self.cells.clone();
        let mut row: u32 = 0;
        while row < self.height
            invariant
                b == self@,
                b.wf(),
                row <= self.height,
                next@.len() == b.cells.len(),
                forall|r: int, c: int|
                    0 <= r < row && 0 <= c < b.width ==> #[trigger] next@[b.index(r, c)]
                        == b.next_at(r, c),
            decreases self.height - row,
        {
            let mut col: u32 = 0;
            while col < self.width
                invariant
                    b == self@,
                    b.wf(),
                    row < self.height,
                    col <= self.width,
                    next@.len() == b.cells.len(),
                    forall|r: int, c: int|
                        0 <= r < row && 0 <= c < b.width ==> #[trigger] next@[b.index(r, c)]
                            == b.next_at(r, c),
                    forall|c: int|
                        0 <= c < col ==> #[trigger] next@[b.index(row as int, c)] == b.next_at(
                            row as int,
                            c,
                        ),
                decreases self.width - col,
            {
                proof {
                    use_type_invariant(&*self);
                    lemma_index_in_bounds(self@, row as int, col as int);
                }
                let idx = self.get_index(row, col);
                let cell = self.cells[idx];
                let live_neighbors = self.live_neighbor_count(row, col);
                let next_cell = match cell {
                    Cell::Alive => if live_neighbors < 2 {
                        Cell::Dead
                    } else if live_neighbors == 2 || live_neighbors == 3 {
                        Cell::Alive
                    } else {
                        Cell::Dead
                    },
                    Cell::Dead => if live_neighbors == 3 {
                        Cell::Alive
                    } else {
                        Cell::Dead
                    },
                };
                let ghost prev = next@;
                next.set(idx, next_cell);
                proof {
                    assert forall|r: int, c: int|
                        0 <= r < row && 0 <= c < b.width implies #[trigger] next@[b.index(r, c)]
                        == b.next_at(r, c) by {
                        lemma_index_in_bounds(b, r, c);
                        if b.index(r, c) == idx {
                            lemma_index_injective(b, r, c, row as int, col as int);
                        }
                        assert(prev[b.index(r, c)] == b.next_at(r, c));
                    }
                    assert forall|c: int| 0 <= c < col + 1 implies #[trigger] next@[b.index(
                        row as int,
                        c,
                    )] == b.next_at(row as int, c) by {
                        lemma_index_in_bounds(b, row as int, c);
                        if c < col {
                            if b.index(row as int, c) == idx {
                                lemma_index_injective(b, row as int, c, row as int, col as int);
                            }
                            assert(prev[b.index(row as int, c)] == b.next_at(row as int, c));
                        }
                    }
                }
                col += 1;
            }
            row += 1;
        }
        proof {
            assert forall|i: int| 0 <= i < b.cells.len() implies next@[i] == b.step().cells[i] by {
                lemma_index_split(b, i);
                let r = i / (b.width as int);
                let c = i % (b.width as int);
                assert(next@[b.index(r, c)] == b.next_at(r, c));
            }
            assert(next@ =~= b.step().cells);
        }
        self.cells = next;
        proof {
            assert forall|r: int, c: int|
                0 <= r < b.height && 0 <= c < b.width implies #[trigger] self@.cell(r, c)
                == b.next_at(r, c) by {
                lemma_index_in_bounds(b, r, c);
                assert(next@[b.index(r, c)] == b.next_at(r, c));
            }
        }
    }

    /// A 64 by 64 board on which exactly the squares of `seeded` are alive.
    pub fn new() -> (universe: Universe)
        ensures
            universe@ == initial_board(),
    {
        let width: u32 = 64;
        let height: u32 = 64;
        let mut cells: Vec<Cell> = Vec::new();
        let mut i: u32 = 0;
        while i < width * height
            invariant
                width == 64,
                height == 64,
                i <= width * height,
                cells@.len() == i,
                forall|k: int| 0 <= k < i ==> #[trigger] cells@[k] == initial_board().cells[k],
            decreases width * height - i,
        {
            let cell = if is_seeded(i) {
                Cell::Alive
            } else {
                Cell::Dead
            };
            cells.push(cell);
            i += 1;
        }
        let universe = Universe { width, height, cells };
        assert(universe@.cells =~= initial_board().cells);
        universe
    }

    /// The text picture of the board: one line per row, each line the glyphs
    /// of its cells followed by a line break.
    pub fn render(&self) -> (text: String)
        ensures
            text@ == self@.rendered(),
    {
        proof {
            use_type_invariant(self);
        }
        let ghost b = self@;
        let mut text = String::new();
        let mut row: u32 = 0;
        while row < self.height
            invariant
                b == self@,
                b.wf(),
                row <= self.height,
                text@ == b.rendered_rows(row as int),
            decreases self.height - row,
        {
            let mut col: u32 = 0;
            while col < self.width
                invariant
                    b == self@,
                    b.wf(),
                    row < self.height,
                    col <= self.width,
                    text@ == b.rendered_rows(row as int) + b.row_glyphs(row as int, col as int),
                decreases self.width - col,
            {
                proof {
                    use_type_invariant(self);
                    lemma_index_in_bounds(self@, row as int, col as int);
                }
                let idx = self.get_index(row, col);
                proof {
                    reveal_strlit("\u{25FB}");
                    reveal_strlit("\u{25FC}");
                }
                if self.cells[idx] == Cell::Dead {
                    text.append("\u{25FB}");
                } else {
                    text.append("\u{25FC}");
                }
                assert(text@ =~= b.rendered_rows(row as int) + b.row_glyphs(
                    row as int,
                    col + 1,
                ));
                col += 1;
            }
            proof {
                reveal_strlit("\n");
            }
            text.append("\n");
            assert(text@ =~= b.rendered_rows(row + 1));
            row += 1;
        }
        text
    }

    /// Number of columns.
    pub fn width(&self) -> (width: u32)
        ensures
            width == self@.width,
    {
        self.width
    }

    /// Number of rows.
    pub fn height(&self) -> (height: u32)
        ensures
            height == self@.height,
    {
        self.height
    }

    /// The cells, row after row.
    pub fn cells(&self) -> (cells: &[Cell])
        ensures
            cells@ == self@.cells,
    {
        self.cells.as_slice()
    }
}

impl Clone for Universe {
    fn clone(&self) -> (copy: Self)
        ensures
            copy@ == self@,
    {
        proof {
            use_type_invariant(self);
        }
        let cells = self.cells.clone();
        assert(cells@ =~= self.cells@);
        Universe { width: self.width, height: self.height, cells }
    }
}

} // verus!
