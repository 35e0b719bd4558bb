//! A rectangular grid of cells, and the game of life on it.

use vstd::prelude::*;

verus! {

/// A grid of `rows` by `cols` cells, kept row after row.
#[derive(Clone, PartialEq, Eq)]
pub struct Grid<T> {
    rows: usize,
    cols: usize,
    grid: Vec<T>,
}

/// `x` is what cloning a default value of `T` may give.
pub open spec fn is_default<T: Clone + Default>(x: T) -> bool {
    exists|d: T| call_ensures(T::default, (), d) && cloned(d, x)
}

/// A cell that lies in a grid of `rows` by `cols` cells has its place within
/// the `rows * cols` cells.
pub proof fn lemma_cell_index(rows: int, cols: int, row: int, col: int)
    requires
        0 <= row < rows,
        0 <= col < cols,
    ensures
        0 <= row * cols + col < rows * cols,
        0 <= row * cols,
        (row + 1) * cols == row * cols + cols,
{
    assert(0 <= row * cols) by (nonlinear_arith)
        requires
            0 <= row,
            0 <= cols,
    ;
    assert((row + 1) * cols == row * cols + cols) by (nonlinear_arith);
    assert((row + 1) * cols <= rows * cols) by (nonlinear_arith)
        requires
            row + 1 <= rows,
            0 <= cols,
    ;
}

impl<T> Grid<T> {
    /// The numbers of rows and of columns.
    pub closed spec fn size_spec(self) -> (usize, usize) {
        (self.rows, self.cols)
    }

    /// The cells, row after row.
    pub closed spec fn cells(self) -> Seq<T> {
        self.grid@
    }

    /// Well-formedness: there are as many cells as rows times columns.
    pub open spec fn wf(self) -> bool {
        self.cells().len() == self.size_spec().0 * self.size_spec().1
    }

    /// The number of cells fits a `usize`.
    pub proof fn lemma_cells_fit(self)
        ensures
            self.cells().len() <= usize::MAX,
    {
        assert(self.grid.len() == self.grid@.len());
    }

    /// The place of the cell in row `row` and column `col` among the cells.
    pub open spec fn index_of(self, row: int, col: int) -> int {
        row * self.size_spec().1 + col
    }

    /// The cell in row `row` and column `col`.
    pub open spec fn at(self, row: int, col: int) -> T {
        self.cells()[self.index_of(row, col)]
    }
}

impl<T: Clone + Default> Grid<T> {
    /// A grid of `rows` by `cols` default cells.
    pub fn new(rows: usize, cols: usize) -> (res: Self)
        requires
            rows * cols <= usize::MAX,
        ensures
            res.wf(),
            res.size_spec() == (rows, cols),
            forall|i: int| 0 <= i < res.cells().len() ==> is_default(#[trigger] res.cells()[i]),
    {
        let d = T::default();
        let res = Self { rows, cols, grid: vec![d; rows * cols] };
        assert forall|i: int| 0 <= i < res.cells().len() implies is_default(
            #[trigger] res.cells()[i],
        ) by {
            assert(call_ensures(T::default, (), d) && cloned(d, res.cells()[i]));
        }
        res
    }

    /// A grid of `rows` by `cols` cells that starts with clones of the cells
    /// of `grid`, as many as fit, and goes on with default cells.
    pub fn from_slice(grid: &[T], rows: usize, cols: usize) -> (res: Self)
        requires
            rows * cols <= usize::MAX,
        ensures
            res.wf(),
            res.size_spec() == (rows, cols),
            forall|i: int|
                0 <= i < res.cells().len() ==> if i < grid@.len() {
                    cloned(grid@[i], #[trigger] res.cells()[i])
                } else {
                    is_default(res.cells()[i])
                },
    {
        let mut cells: Vec<T> = Vec::new();
        cells.extend_from_slice(grid);
        let ghost copied = cells@;
        let d = T::default();
        cells.resize(rows * cols, d);
        let res = Self { rows, cols, grid: cells };
        assert forall|i: int| 0 <= i < res.cells().len() implies if i < grid@.len() {
            cloned(grid@[i], #[trigger] res.cells()[i])
        } else {
            is_default(res.cells()[i])
        } by {
            if i < grid@.len() {
                assert(cloned(grid@[i], copied[i]));
                if rows * cols <= copied.len() {
                    assert(res.cells()[i] == copied.subrange(0, rows * cols)[i]);
                } else {
                    assert(res.cells().subrange(0, copied.len() as int)[i] == copied[i]);
                }
            } else {
                assert(call_ensures(T::default, (), d) && cloned(d, res.cells()[i]));
            }
        }
        res
    }

    /// The numbers of rows and of columns.
    pub fn size(&self) -> (res: (usize, usize))
        ensures
            res == self.size_spec(),
    {
        (self.rows, self.cols)
    }

    /// The cell in row `row` and column `col`.
    pub fn get(&self, row: usize, col: usize) -> (res: &T)
        requires
            self.index_of(row as int, col as int) < self.cells().len(),
        ensures
            *res == self.at(row as int, col as int),
    {
        proof {
            assert(0 <= row * self.cols) by (nonlinear_arith)
                requires
                    0 <= row,
                    0 <= self.cols,
            ;
            assert(self.index_of(row as int, col as int) == row * self.cols + col);
            assert(self.grid.len() == self.grid@.len());
        }
        let idx: usize = row * self.cols + col;
        &self.grid[idx]
    }

    /// Puts `value` into the cell in row `row` and column `col`, if the grid
    /// has a cell at that place.
    pub fn set(&mut self, value: T, row: usize, col: usize)
        requires
            old(self).index_of(row as int, col as int) <= usize::MAX,
        ensures
            final(self).size_spec() == old(self).size_spec(),
            final(self).cells() == if old(self).index_of(row as int, col as int)
                < old(self).cells().len() {
                old(self).cells().update(old(self).index_of(row as int, col as int), value)
            } else {
                old(self).cells()
            },
    {
        proof {
            assert(0 <= row * self.cols) by (nonlinear_arith)
                requires
                    0 <= row,
                    0 <= self.cols,
            ;
            assert(self.index_of(row as int, col as int) == row * self.cols + col);
        }
        let idx: usize = row * self.cols + col;
        if idx < self.grid.len() {
            self.grid[idx] = value;
        }
    }

    /// The places around the cell in row `row` and column `col` that lie in
    /// the grid, row after row.
    pub fn neighbours(&self, row: usize, col: usize) -> (res: NeighboursIterator)
        requires
            col < self.size_spec().1,
            row + 2 <= usize::MAX,
            col + 2 <= usize::MAX,
        ensures
            res.wf(),
            res.remaining() == around(
                self.size_spec().0 as int,
                self.size_spec().1 as int,
                row as int,
                col as int,
            ),
    {
        NeighboursIterator::new(self.rows, self.cols, row, col)
    }
}

/// The place `(r, c)` if it lies in a grid of `rows` by `cols` cells.
pub open spec fn place(rows: int, cols: int, r: int, c: int) -> Seq<(usize, usize)> {
    if 0 <= r < rows && 0 <= c < cols {
        seq![(r as usize, c as usize)]
    } else {
        Seq::empty()
    }
}

/// The places in row `r` that touch `(row, col)` and lie in a grid of `rows`
/// by `cols` cells, from left to right.
pub open spec fn beside(rows: int, cols: int, row: int, col: int, r: int) -> Seq<(usize, usize)> {
    if r == row {
        place(rows, cols, r, col - 1) + place(rows, cols, r, col + 1)
    } else {
        place(rows, cols, r, col - 1) + place(rows, cols, r, col) + place(rows, cols, r, col + 1)
    }
}

/// The places next to `(row, col)` that lie in a grid of `rows` by `cols`
/// cells: row after row, and from left to right in each row.
pub open spec fn around(rows: int, cols: int, row: int, col: int) -> Seq<(usize, usize)> {
    beside(rows, cols, row, col, row - 1) + beside(rows, cols, row, col, row) + beside(
        rows,
        cols,
        row,
        col,
        row + 1,
    )
}

/// A walk over the places around one cell.
#[derive(Debug)]
pub struct NeighboursIterator {
    row: usize,
    col: usize,
    col_start: usize,
    row_end: usize,
    col_end: usize,
    r: usize,
    c: usize,
}

impl NeighboursIterator {
    /// Well-formedness: the walk stands in a column of its window.
    pub closed spec fn wf(self) -> bool {
        self.col_start <= self.c < self.col_end
    }

    /// The places of row `r` from column `c` on, without the centre.
    spec fn row_rest(self, r: int, c: int) -> Seq<(usize, usize)>
        decreases self.col_end - c,
    {
        if c >= self.col_end {
            Seq::empty()
        } else if r == self.row && c == self.col {
            self.row_rest(r, c + 1)
        } else {
            seq![(r as usize, c as usize)] + self.row_rest(r, c + 1)
        }
    }

    /// The places of the rows from `r` on.
    spec fn rows_rest(self, r: int) -> Seq<(usize, usize)>
        decreases self.row_end - r,
    {
        if r >= self.row_end {
            Seq::empty()
        } else {
            self.row_rest(r, self.col_start as int) + self.rows_rest(r + 1)
        }
    }

    /// The places that the walk has yet to give, in the order in which it
    /// gives them.
    pub closed spec fn remaining(self) -> Seq<(usize, usize)> {
        if self.r >= self.row_end {
            Seq::empty()
        } else {
            self.row_rest(self.r as int, self.c as int) + self.rows_rest(self.r + 1)
        }
    }

    /// The walk over the places around `(row, col)` in a grid of `rows` by
    /// `cols` cells.
    fn new(rows: usize, cols: usize, row: usize, col: usize) -> (res: NeighboursIterator)
        requires
            col < cols,
            row + 2 <= usize::MAX,
            col + 2 <= usize::MAX,
        ensures
            res.wf(),
            res.remaining() == around(rows as int, cols as int, row as int, col as int),
    {
        let row_start: usize = if row == 0 {
            0
        } else {
            row - 1
        };
        let col_start: usize = if col == 0 {
            0
        } else {
            col - 1
        };

        let res = NeighboursIterator {
            row,
            col,
            col_start,
            row_end: rows.min(row + 2),
            col_end: cols.min(col + 2),
            r: row_start,
            c: col_start,
        };
        proof {
            res.lemma_start(rows as int, cols as int);
        }
        res
    }

    /// The places of one row of the window.
    proof fn lemma_window(self, rows: int, cols: int, r: int)
        requires
            self.col < cols,
            self.col_start == if self.col == 0 {
                0
            } else {
                self.col - 1
            },
            self.col_end == if cols <= self.col + 2 {
                cols
            } else {
                self.col + 2
            },
            self.row_end == if rows <= self.row + 2 {
                rows
            } else {
                self.row + 2
            },
            self.row - 1 <= r <= self.row + 1,
            0 <= r <= usize::MAX,
        ensures
            beside(rows, cols, self.row as int, self.col as int, r) == if r < self.row_end {
                self.row_rest(r, self.col_start as int)
            } else {
                Seq::empty()
            },
    {
        reveal_with_fuel(NeighboursIterator::row_rest, 5);
        let s = if r < self.row_end {
            self.row_rest(r, self.col_start as int)
        } else {
            Seq::empty()
        };
        assert(s =~= beside(rows, cols, self.row as int, self.col as int, r));
    }

    /// The walk starts with all the places around its centre before it.
    proof fn lemma_start(self, rows: int, cols: int)
        requires
            self.col < cols,
            self.row + 2 <= usize::MAX,
            self.col_start == if self.col == 0 {
                0
            } else {
                self.col - 1
            },
            self.col_end == if cols <= self.col + 2 {
                cols
            } else {
                self.col + 2
            },
            self.row_end == if rows <= self.row + 2 {
                rows
            } else {
                self.row + 2
            },
            self.r == if self.row == 0 {
                0
            } else {
                self.row - 1
            },
            self.c == self.col_start,
        ensures
            self.remaining() == around(rows, cols, self.row as int, self.col as int),
    {
        let row = self.row as int;
        let col = self.col as int;
        let c0 = self.col_start as int;
        let e = Seq::<(usize, usize)>::empty();
        let top = beside(rows, cols, row, col, row - 1);
        let mid = beside(rows, cols, row, col, row);
        let low = beside(rows, cols, row, col, row + 1);
        self.lemma_window(rows, cols, row);
        self.lemma_window(rows, cols, row + 1);
        assert(self.rows_rest(row + 2) == e);
        assert(self.rows_rest(row + 1) == low) by {
            if row + 1 < self.row_end {
                assert(self.row_rest(row + 1, c0) + e =~= self.row_rest(row + 1, c0));
            }
        }
        assert(self.rows_rest(row) == mid + low) by {
            if row >= self.row_end {
                assert(e + e =~= e);
            }
        }
        if row == 0 {
            assert(top =~= e);
            assert(e + mid + low =~= mid + low);
        } else {
            self.lemma_window(rows, cols, row - 1);
            if row - 1 >= self.row_end {
                assert(e + e + e =~= e);
            } else {
                assert(top + (mid + low) =~= top + mid + low);
            }
        }
    }

    /// Moves on by one place: to the right, or to the start of the next row.
    fn next_pos(&mut self)
        requires
            old(self).wf(),
            old(self).r < old(self).row_end,
        ensures
            final(self).wf(),
            final(self).row == old(self).row,
            final(self).col == old(self).col,
            final(self).col_start == old(self).col_start,
            final(self).col_end == old(self).col_end,
            final(self).row_end == old(self).row_end,
            old(self).c + 1 < old(self).col_end ==> final(self).r == old(self).r,
            old(self).c + 1 < old(self).col_end ==> final(self).c == old(self).c + 1,
            old(self).c + 1 == old(self).col_end ==> final(self).r == old(self).r + 1,
            old(self).c + 1 == old(self).col_end ==> final(self).c == old(self).col_start,
    {
        self.c += 1;
        if self.c == self.col_end {
            self.r += 1;
            self.c = self.col_start;
        }
    }

    /// The next place of the walk, if there is one.
    pub fn next(&mut self) -> (res: Option<(usize, usize)>)
        requires
            old(self).wf(),
        ensures
            final(self).wf(),
            res == if old(self).remaining().len() > 0 {
                Some(old(self).remaining()[0])
            } else {
                None
            },
            final(self).remaining() == if old(self).remaining().len() > 0 {
                old(self).remaining().drop_first()
            } else {
                old(self).remaining()
            },
    {
        while self.r < self.row_end
            invariant
                self.wf(),
                self.remaining() == old(self).remaining(),
            decreases self.row_end - self.r, self.col_end - self.c,
        {
            proof {
                self.lemma_step();
            }
            if self.r == self.row && self.c == self.col {
                self.next_pos();
                continue ;
            }
            let res = Some((self.r, self.c));
            self.next_pos();
            return res;
        }
        None
    }

    /// One step of the walk: what is left is the place where the walk
    /// stands, unless that is the centre, and then what is left after it.
    proof fn lemma_step(self)
        requires
            self.wf(),
            self.r < self.row_end,
        ensures
            ({
                let after = if self.c + 1 == self.col_end {
                    NeighboursIterator { r: (self.r + 1) as usize, c: self.col_start, ..self }
                } else {
                    NeighboursIterator { c: (self.c + 1) as usize, ..self }
                };
                if self.r == self.row && self.c == self.col {
                    self.remaining() == after.remaining()
                } else {
                    &&& self.remaining().len() > 0
                    &&& self.remaining()[0] == (self.r, self.c)
                    &&& self.remaining().drop_first() == after.remaining()
                }
            }),
    {
        reveal_with_fuel(NeighboursIterator::row_rest, 2);
        reveal_with_fuel(NeighboursIterator::rows_rest, 2);
        let after = if self.c + 1 == self.col_end {
            NeighboursIterator { r: (self.r + 1) as usize, c: self.col_start, ..self }
        } else {
            NeighboursIterator { c: (self.c + 1) as usize, ..self }
        };
        self.lemma_same_window(after, self.r as int, self.c + 1);
        self.lemma_same_window(after, self.r + 1, self.col_start as int);
        self.lemma_same_rows(after, self.r + 1);
        self.lemma_same_rows(after, self.r + 2);
        let rest = self.row_rest(self.r as int, self.c + 1);
        let below = self.rows_rest(self.r + 1);
        if self.c + 1 == self.col_end {
            assert(rest =~= Seq::<(usize, usize)>::empty());
            assert(rest + below =~= below);
        }
        if !(self.r == self.row && self.c == self.col) {
            assert((seq![(self.r, self.c)] + rest + below).drop_first() =~= rest + below);
        }
    }

    /// Where the walk stands does not matter to the places of a row.
    proof fn lemma_same_window(self, other: Self, r: int, c: int)
        requires
            self.row == other.row,
            self.col == other.col,
            self.col_start == other.col_start,
            self.col_end == other.col_end,
            self.row_end == other.row_end,
        ensures
            self.row_rest(r, c) == other.row_rest(r, c),
        decreases self.col_end - c,
    {
        if c < self.col_end {
            self.lemma_same_window(other, r, c + 1);
        }
    }

    /// Where the walk stands does not matter to the places of the rows.
    proof fn lemma_same_rows(self, other: Self, r: int)
        requires
            self.row == other.row,
            self.col == other.col,
            self.col_start == other.col_start,
            self.col_end == other.col_end,
            self.row_end == other.row_end,
        ensures
            self.rows_rest(r) == other.rows_rest(r),
        decreases self.row_end - r,
    {
        if r < self.row_end {
            self.lemma_same_window(other, r, self.col_start as int);
            self.lemma_same_rows(other, r + 1);
        }
    }
}

/// A cell of the game of life.
#[derive(Clone, Copy, PartialEq, Eq, Structural)]
pub enum Cell {
    Dead,
    Alive,
}

impl Default for Cell {
    /// A dead cell.
    fn default() -> (res: Self)
        ensures
            res == Cell::Dead,
    {
        Self::Dead
    }
}

/// 1 where `(r, c)` is a living cell of `g`, else 0.
pub open spec fn alive(g: Grid<Cell>, r: int, c: int) -> int {
    if 0 <= r < g.size_spec().0 && 0 <= c < g.size_spec().1 && g.at(r, c) == Cell::Alive {
        1
    } else {
        0
    }
}

/// The number of living cells next to `(row, col)` in `g`.
pub open spec fn alive_around(g: Grid<Cell>, row: int, col: int) -> int {
    alive(g, row - 1, col - 1) + alive(g, row - 1, col) + alive(g, row - 1, col + 1) + alive(
        g,
        row,
        col - 1,
    ) + alive(g, row, col + 1) + alive(g, row + 1, col - 1) + alive(g, row + 1, col) + alive(
        g,
        row + 1,
        col + 1,
    )
}

/// What becomes of a cell with `n` living cells next to it: it lives with
/// three of them, stays as it is with two, and is dead otherwise.
pub open spec fn next_cell(cell: Cell, n: int) -> Cell {
    if n == 3 || n == 2 && cell == Cell::Alive {
        Cell::Alive
    } else {
        Cell::Dead
    }
}

/// `after` is the generation that follows `before`.
pub open spec fn follows(before: Grid<Cell>, after: Grid<Cell>) -> bool {
    &&& after.wf()
    &&& after.size_spec() == before.size_spec()
    &&& forall|r: int, c: int|
        0 <= r < before.size_spec().0 && 0 <= c < before.size_spec().1 ==> #[trigger] after.at(r, c)
            == next_cell(before.at(r, c), alive_around(before, r, c))
}

/// The number of living cells of `g` among the places `ps`.
spec fn living(g: Grid<Cell>, ps: Seq<(usize, usize)>) -> int
    decreases ps.len(),
{
    if ps.len() == 0 {
        0
    } else {
        living(g, ps.drop_last()) + alive(g, ps.last().0 as int, ps.last().1 as int)
    }
}

/// The living cells among two runs of places are those among the one and
/// those among the other.
proof fn lemma_living_concat(g: Grid<Cell>, a: Seq<(usize, usize)>, b: Seq<(usize, usize)>)
    ensures
        living(g, a + b) == living(g, a) + living(g, b),
    decreases b.len(),
{
    if b.len() == 0 {
        assert(a + b =~= a);
    } else {
        assert((a + b).drop_last() =~= a + b.drop_last());
        lemma_living_concat(g, a, b.drop_last());
    }
}

/// The living cells at one place, and where the place lies.
proof fn lemma_living_place(g: Grid<Cell>, r: int, c: int)
    requires
        g.size_spec().0 < usize::MAX,
        g.size_spec().1 < usize::MAX,
    ensures
        living(g, place(g.size_spec().0 as int, g.size_spec().1 as int, r, c)) == alive(g, r, c),
        place(g.size_spec().0 as int, g.size_spec().1 as int, r, c).len() <= 1,
        forall|i: int|
            0 <= i < place(g.size_spec().0 as int, g.size_spec().1 as int, r, c).len() ==> (
            #[trigger] place(g.size_spec().0 as int, g.size_spec().1 as int, r, c)[i]).0
                < g.size_spec().0 && place(
                g.size_spec().0 as int,
                g.size_spec().1 as int,
                r,
                c,
            )[i].1 < g.size_spec().1,
{
    let p = place(g.size_spec().0 as int, g.size_spec().1 as int, r, c);
    if p.len() > 0 {
        assert(p.drop_last() =~= Seq::<(usize, usize)>::empty());
        reveal_with_fuel(living, 2);
    }
}

/// The living cells among the places of one row that touch a cell, and
/// where the places lie.
proof fn lemma_living_beside(g: Grid<Cell>, row: int, col: int, r: int)
    requires
        g.size_spec().0 < usize::MAX,
        g.size_spec().1 < usize::MAX,
    ensures
        living(g, beside(g.size_spec().0 as int, g.size_spec().1 as int, row, col, r)) == alive(
            g,
            r,
            col - 1,
        ) + if r == row {
            0
        } else {
            alive(g, r, col)
        } + alive(g, r, col + 1),
        beside(g.size_spec().0 as int, g.size_spec().1 as int, row, col, r).len() <= 3,
        forall|i: int|
            0 <= i < beside(g.size_spec().0 as int, g.size_spec().1 as int, row, col, r).len() ==> (
            #[trigger] beside(g.size_spec().0 as int, g.size_spec().1 as int, row, col, r)[i]).0
                < g.size_spec().0 && beside(
                g.size_spec().0 as int,
                g.size_spec().1 as int,
                row,
                col,
                r,
            )[i].1 < g.size_spec().1,
{
    let rows = g.size_spec().0 as int;
    let cols = g.size_spec().1 as int;
    lemma_living_place(g, r, col - 1);
    lemma_living_place(g, r, col);
    lemma_living_place(g, r, col + 1);
    let a = place(rows, cols, r, col - 1);
    let b = place(rows, cols, r, col);
    let c = place(rows, cols, r, col + 1);
    lemma_living_concat(g, a, c);
    lemma_living_concat(g, a, b);
    lemma_living_concat(g, a + b, c);
}

/// The living cells among the places around a cell are the living cells
/// next to it; the places are at most eight, and all lie in the grid.
proof fn lemma_living_around(g: Grid<Cell>, row: int, col: int)
    requires
        g.size_spec().0 < usize::MAX,
        g.size_spec().1 < usize::MAX,
    ensures
        living(g, around(g.size_spec().0 as int, g.size_spec().1 as int, row, col))
            == alive_around(g, row, col),
        around(g.size_spec().0 as int, g.size_spec().1 as int, row, col).len() <= 8,
        forall|i: int|
            0 <= i < around(g.size_spec().0 as int, g.size_spec().1 as int, row, col).len() ==> (
            #[trigger] around(g.size_spec().0 as int, g.size_spec().1 as int, row, col)[i]).0
                < g.size_spec().0 && around(
                g.size_spec().0 as int,
                g.size_spec().1 as int,
                row,
                col,
            )[i].1 < g.size_spec().1,
{
    let rows = g.size_spec().0 as int;
    let cols = g.size_spec().1 as int;
    lemma_living_beside(g, row, col, row - 1);
    lemma_living_beside(g, row, col, row);
    lemma_living_beside(g, row, col, row + 1);
    let a = beside(rows, cols, row, col, row - 1);
    let b = beside(rows, cols, row, col, row);
    let c = beside(rows, cols, row, col, row + 1);
    lemma_living_concat(g, a, b);
    lemma_living_concat(g, a + b, c);
}

/// Two cells of a grid have two places among its cells.
proof fn lemma_two_places(cols: int, r1: int, c1: int, r2: int, c2: int)
    requires
        0 <= r1,
        0 <= r2,
        0 <= c1 < cols,
        0 <= c2 < cols,
        r1 * cols + c1 == r2 * cols + c2,
    ensures
        r1 == r2,
        c1 == c2,
{
    if r1 < r2 {
        assert((r1 + 1) * cols <= r2 * cols) by (nonlinear_arith)
            requires
                r1 + 1 <= r2,
                0 <= cols,
        ;
        assert((r1 + 1) * cols == r1 * cols + cols) by (nonlinear_arith);
    } else if r2 < r1 {
        assert((r2 + 1) * cols <= r1 * cols) by (nonlinear_arith)
            requires
                r2 + 1 <= r1,
                0 <= cols,
        ;
        assert((r2 + 1) * cols == r2 * cols + cols) by (nonlinear_arith);
    }
}

/// The game of life: the grid of the present generation, and a second grid
/// in which the next one is made.
#[derive(PartialEq, Eq)]
pub struct GameOfLife {
    grid0: Grid<Cell>,
    grid1: Grid<Cell>,
    parity: bool,
}

impl GameOfLife {
    /// The grid of the present generation.
    pub closed spec fn grid(self) -> Grid<Cell> {
        if self.parity {
            self.grid0
        } else {
            self.grid1
        }
    }

    /// Well-formedness: the two grids are well-formed and of one size.
    pub closed spec fn wf(self) -> bool {
        &&& self.grid0.wf()
        &&& self.grid1.wf()
        &&& self.grid0.size_spec() == self.grid1.size_spec()
        &&& self.grid0.size_spec().0 < usize::MAX
        &&& self.grid0.size_spec().1 < usize::MAX
    }

    /// The game that starts with `grid`.
    pub fn from_grid(grid: Grid<Cell>) -> (res: Self)
        requires
            grid.wf(),
            grid.size_spec().0 < usize::MAX,
            grid.size_spec().1 < usize::MAX,
        ensures
            res.wf(),
            res.grid() == grid,
    {
        proof {
            grid.lemma_cells_fit();
        }
        let (rows, cols): (usize, usize) = grid.size();
        GameOfLife { grid0: grid, grid1: Grid::new(rows, cols), parity: true }
    }

    /// The grid of the present generation.
    pub fn get_grid(&self) -> (res: &Grid<Cell>)
        ensures
            *res == self.grid(),
    {
        if self.parity {
            &self.grid0
        } else {
            &self.grid1
        }
    }

    /// The number of living cells next to `(row, col)` in `cur_grid`.
    fn count(cur_grid: &Grid<Cell>, row: usize, col: usize) -> (res: usize)
        requires
            cur_grid.wf(),
            row < cur_grid.size_spec().0 < usize::MAX,
            col < cur_grid.size_spec().1 < usize::MAX,
        ensures
            res == alive_around(*cur_grid, row as int, col as int),
    {
        let ghost rows = cur_grid.size_spec().0 as int;
        let ghost cols = cur_grid.size_spec().1 as int;
        let ghost all = around(rows, cols, row as int, col as int);
        let mut count: usize = 0;
        let mut it = cur_grid.neighbours(row, col);
        proof {
            lemma_living_around(*cur_grid, row as int, col as int);
            lemma_living_concat(*cur_grid, Seq::empty(), all);
            assert(Seq::<(usize, usize)>::empty() + all =~= all);
        }
        loop
            invariant
                cur_grid.wf(),
                it.wf(),
                rows == cur_grid.size_spec().0,
                cols == cur_grid.size_spec().1,
                all.len() <= 8,
                forall|i: int| 0 <= i < all.len() ==> (#[trigger] all[i]).0 < rows && all[i].1 < cols,
                it.remaining().len() <= all.len(),
                it.remaining() == all.skip(all.len() - it.remaining().len()),
                count == living(*cur_grid, all.take(all.len() - it.remaining().len())),
                count <= all.len() - it.remaining().len(),
            ensures
                count == living(*cur_grid, all),
            decreases it.remaining().len(),
        {
            let ghost done = all.len() - it.remaining().len();
            match it.next() {
                Some((r, c)) => {
                    proof {
                        assert(all.skip(done)[0] == all[done]);
                        assert(all.skip(done).drop_first() =~= all.skip(done + 1));
                        assert(all.take(done + 1).drop_last() =~= all.take(done));
                        lemma_cell_index(rows, cols, r as int, c as int);
                    }
                    if *cur_grid.get(r, c) == Cell::Alive {
                        count += 1;
                    }
                },
                None => {
                    proof {
                        assert(all.take(all.len() as int) =~= all);
                    }
                    break ;
                },
            }
        }
        count
    }

    /// Makes the generation that follows `cur_grid` in `next_grid`.
    fn advance(cur_grid: &Grid<Cell>, next_grid: &mut Grid<Cell>)
        requires
            cur_grid.wf(),
            old(next_grid).wf(),
            old(next_grid).size_spec() == cur_grid.size_spec(),
            cur_grid.size_spec().0 < usize::MAX,
            cur_grid.size_spec().1 < usize::MAX,
        ensures
            follows(*cur_grid, *final(next_grid)),
    {
        let (rows, cols): (usize, usize) = cur_grid.size();
        for row in 0..rows
            invariant
                cur_grid.wf(),
                next_grid.wf(),
                next_grid.size_spec() == cur_grid.size_spec(),
                cur_grid.size_spec() == (rows, cols),
                rows < usize::MAX,
                cols < usize::MAX,
                forall|r: int, c: int|
                    0 <= r < row && 0 <= c < cols ==> #[trigger] next_grid.at(r, c) == next_cell(
                        cur_grid.at(r, c),
                        alive_around(*cur_grid, r, c),
                    ),
        {
            for col in 0..cols
                invariant
                    cur_grid.wf(),
                    next_grid.wf(),
                    next_grid.size_spec() == cur_grid.size_spec(),
                    cur_grid.size_spec() == (rows, cols),
                    row < rows < usize::MAX,
                    cols < usize::MAX,
                    forall|r: int, c: int|
                        0 <= r < row && 0 <= c < cols ==> #[trigger] next_grid.at(r, c)
                            == next_cell(cur_grid.at(r, c), alive_around(*cur_grid, r, c)),
                    forall|c: int|
                        0 <= c < col ==> #[trigger] next_grid.at(row as int, c) == next_cell(
                            cur_grid.at(row as int, c),
                            alive_around(*cur_grid, row as int, c),
                        ),
            {
                let count: usize = Self::count(cur_grid, row, col);
                proof {
                    lemma_cell_index(rows as int, cols as int, row as int, col as int);
                }

                let value = if count == 3 || count == 2 && *cur_grid.get(row, col) == Cell::Alive {
                    Cell::Alive
                } else {
                    Cell::Dead
                };

                let ghost before = *next_grid;
                proof {
                    before.lemma_cells_fit();
                }
                next_grid.set(value, row, col);
                proof {
                    assert forall|r: int, c: int| 0 <= r <= row && 0 <= c < cols && !(r == row
                        && c == col) implies #[trigger] next_grid.at(r, c) == before.at(r, c) by {
                        lemma_cell_index(rows as int, cols as int, r, c);
                        if r * cols + c == row * cols + col {
                            lemma_two_places(cols as int, r, c, row as int, col as int);
                        }
                    }
                }
            }
        }
    }

    /// Goes on to the next generation.
    pub fn step(&mut self)
        requires
            old(self).wf(),
        ensures
            final(self).wf(),
            follows(old(self).grid(), final(self).grid()),
    {
        if self.parity {
            Self::advance(&self.grid0, &mut self.grid1);
        } else {
            Self::advance(&self.grid1, &mut self.grid0);
        }

        self.parity = !self.parity;
    }
}

} // verus!
