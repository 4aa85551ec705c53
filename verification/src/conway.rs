//! Conway's Game of Life on a bounded grid stored row by row.

use vstd::prelude::*;
use vstd::arithmetic::div_mod::lemma_fundamental_div_mod_converse;

verus! {

/// A grid of `rows` by `cols` cells, stored row by row.
#[derive(Clone, PartialEq, Eq)]
pub struct Grid<T> {
    rows: usize,
    rows_m1: usize,
    cols: usize,
    cols_m1: usize,
    grid: Vec<T>,
}

/// The neighbours of (`row`, `col`) that lie in row `rr`: the columns
/// `col - 1`, `col` (unless `centre`) and `col + 1`, those of them that are
/// inside the grid's width.
pub open spec fn cells_in_row(rr: int, cols: int, col: int, centre: bool) -> Seq<(usize, usize)> {
    let a = if col >= 1 && col - 1 < cols {
        seq![(rr as usize, (col - 1) as usize)]
    } else {
        Seq::empty()
    };
    let b = if !centre && col < cols {
        seq![(rr as usize, col as usize)]
    } else {
        Seq::empty()
    };
    let c = if col + 1 < cols {
        seq![(rr as usize, (col + 1) as usize)]
    } else {
        Seq::empty()
    };
    a + b + c
}

/// The neighbours of (`row`, `col`) in a grid of `rows` by `cols`, row by row:
/// the row above (if `row > 0`), the row itself without the cell, and the row
/// below (if it is inside the grid).
pub open spec fn neighbour_cells(rows: int, cols: int, row: int, col: int) -> Seq<(usize, usize)> {
    let above = if row >= 1 {
        cells_in_row(row - 1, cols, col, false)
    } else {
        Seq::empty()
    };
    let below = if row + 1 < rows {
        cells_in_row(row + 1, cols, col, false)
    } else {
        Seq::empty()
    };
    above + cells_in_row(row, cols, col, true) + below
}

proof fn lemma_cells_in_row(rr: int, cols: int, col: int, centre: bool)
    requires
        0 <= rr <= usize::MAX,
        0 <= col < cols <= usize::MAX,
    ensures
        ({
            let s = cells_in_row(rr, cols, col, centre);
            &&& forall|i: int|
                0 <= i < s.len() ==> {
                    let (r, c) = #[trigger] s[i];
                    &&& r == rr && c < cols
                    &&& col - 1 <= c <= col + 1
                    &&& !(centre && c == col)
                }
            &&& forall|c: int|
                0 <= c < cols && col - 1 <= c <= col + 1 && !(centre && c == col)
                    ==> #[trigger] s.contains((rr as usize, c as usize))
            &&& forall|a: int, b: int| 0 <= a < b < s.len() ==> (#[trigger] s[a]).1 < (#[trigger] s[b]).1
        }),
{
    let s = cells_in_row(rr, cols, col, centre);
    assert forall|c: int|
        0 <= c < cols && col - 1 <= c <= col + 1 && !(centre && c == col)
            implies #[trigger] s.contains((rr as usize, c as usize)) by {
        let m: int = if c == col - 1 {
            0
        } else if c == col {
            if col >= 1 { 1 } else { 0 }
        } else {
            (if col >= 1 { 1int } else { 0int }) + (if !centre { 1int } else { 0int })
        };
        assert(s[m] == (rr as usize, c as usize));
    }
}

/// The neighbours of a cell are the cells of the grid in the rows and
/// columns next to it or its own, other than itself, each listed once.
pub proof fn law_neighbours(rows: int, cols: int, row: int, col: int)
    requires
        0 <= row < rows <= usize::MAX,
        0 <= col < cols <= usize::MAX,
    ensures
        ({
            let ns = neighbour_cells(rows, cols, row, col);
            &&& forall|i: int|
                0 <= i < ns.len() ==> {
                    let (r, c) = #[trigger] ns[i];
                    &&& r < rows && c < cols
                    &&& row - 1 <= r <= row + 1 && col - 1 <= c <= col + 1
                    &&& !(r == row && c == col)
                }
            &&& forall|r: int, c: int|
                0 <= r < rows && 0 <= c < cols && row - 1 <= r <= row + 1 && col - 1 <= c <= col + 1
                    && !(r == row && c == col) ==> #[trigger] ns.contains((r as usize, c as usize))
            &&& ns.no_duplicates()
        }),
{
    let ns = neighbour_cells(rows, cols, row, col);
    let above = if row >= 1 {
        cells_in_row(row - 1, cols, col, false)
    } else {
        Seq::empty()
    };
    let mid = cells_in_row(row, cols, col, true);
    let below = if row + 1 < rows {
        cells_in_row(row + 1, cols, col, false)
    } else {
        Seq::empty()
    };
    if row >= 1 {
        lemma_cells_in_row(row - 1, cols, col, false);
    }
    lemma_cells_in_row(row, cols, col, true);
    if row + 1 < rows {
        lemma_cells_in_row(row + 1, cols, col, false);
    }
    assert(ns == above + mid + below);
    let la = above.len() as int;
    let lm = mid.len() as int;
    assert forall|i: int| 0 <= i < ns.len() implies ({
        let (r, c) = #[trigger] ns[i];
        &&& r < rows && c < cols
        &&& row - 1 <= r <= row + 1 && col - 1 <= c <= col + 1
        &&& !(r == row && c == col)
        &&& (i < la ==> r == row - 1)
        &&& (la <= i < la + lm ==> r == row)
        &&& (la + lm <= i ==> r == row + 1)
    }) by {
        if i < la {
            assert(ns[i] == above[i]);
        } else if i < la + lm {
            assert(ns[i] == mid[i - la]);
        } else {
            assert(ns[i] == below[i - la - lm]);
        }
    }
    assert forall|r: int, c: int|
        0 <= r < rows && 0 <= c < cols && row - 1 <= r <= row + 1 && col - 1 <= c <= col + 1 && !(r
            == row && c == col) implies #[trigger] ns.contains((r as usize, c as usize)) by {
        if r == row - 1 {
            assert(above.contains((r as usize, c as usize)));
            let k = choose|k: int| 0 <= k < above.len() && above[k] == (r as usize, c as usize);
            assert(ns[k] == above[k]);
        } else if r == row {
            assert(mid.contains((r as usize, c as usize)));
            let k = choose|k: int| 0 <= k < mid.len() && mid[k] == (r as usize, c as usize);
            assert(ns[la + k] == mid[k]);
        } else {
            assert(below.contains((r as usize, c as usize)));
            let k = choose|k: int| 0 <= k < below.len() && below[k] == (r as usize, c as usize);
            assert(ns[la + lm + k] == below[k]);
        }
    }
    assert forall|a: int, b: int| 0 <= a < ns.len() && 0 <= b < ns.len() && a != b implies ns[a]
        != ns[b] by {
        let x = ns[a];
        let y = ns[b];
        if a < la && b < la {
            assert(x == above[a] && y == above[b]);
        } else if la <= a < la + lm && la <= b < la + lm {
            assert(x == mid[a - la] && y == mid[b - la]);
        } else if la + lm <= a && la + lm <= b {
            assert(x == below[a - la - lm] && y == below[b - la - lm]);
        }
    }
}

impl<T: Copy> Grid<T> {
    pub closed spec fn rows(&self) -> nat {
        self.rows as nat
    }

    pub closed spec fn cols(&self) -> nat {
        self.cols as nat
    }

    /// The cells, row by row.
    pub closed spec fn cells(&self) -> Seq<T> {
        self.grid@
    }

    pub closed spec fn wf(&self) -> bool {
        &&& self.rows >= 1
        &&& self.cols >= 1
        &&& self.rows_m1 == self.rows - 1
        &&& self.cols_m1 == self.cols - 1
    }

    /// A grid of the given size that holds no cells yet.
    pub fn new(rows: usize, cols: usize) -> (r: Self)
        requires
            rows >= 1,
            cols >= 1,
        ensures
            r.wf(),
            r.rows() == rows,
            r.cols() == cols,
            r.cells() == Seq::<T>::empty(),
    {
        Self { rows: rows, rows_m1: rows - 1, cols: cols, cols_m1: cols - 1, grid: Vec::new() }
    }

    /// A grid of the given size whose cells are a copy of `grid`.
    pub fn from_slice(grid: &[T], rows: usize, cols: usize) -> (r: Self)
        requires
            rows >= 1,
            cols >= 1,
        ensures
            r.wf(),
            r.rows() == rows,
            r.cols() == cols,
            r.cells() == grid@,
    {
        Self {
            rows: rows,
            rows_m1: rows - 1,
            cols: cols,
            cols_m1: cols - 1,
            grid: vstd::slice::slice_to_vec(grid),
        }
    }

    pub fn size(&self) -> (r: (usize, usize))
        ensures
            r.0 == self.rows(),
            r.1 == self.cols(),
    {
        (self.rows, self.cols)
    }

    pub fn get(&self, row: usize, col: usize) -> (r: &T)
        requires
            row * self.cols() + col < self.cells().len(),
        ensures
            *r == self.cells()[row * self.cols() + col],
    {
        let n = self.grid.len();
        proof {
            assert(row * self.cols() == row * self.cols);
            assert(row * self.cols + col < n);
        }
        &self.grid[row * self.cols + col]
    }

    pub fn set(&mut self, value: T, row: usize, col: usize)
        requires
            row * old(self).cols() + col < old(self).cells().len(),
        ensures
            final(self).rows() == old(self).rows(),
            final(self).cols() == old(self).cols(),
            final(self).wf() == old(self).wf(),
            final(self).cells() == old(self).cells().update(row * old(self).cols() + col, value),
    {
        let n = self.grid.len();
        proof {
            assert(row * old(self).cols() == row * self.cols);
            assert(row * self.cols + col < n);
        }
        let i = row * self.cols + col;
        self.grid.set(i, value);
    }

    /// Whether `x` is the index of the cell (`row`, `col`).
    pub fn is_current_cell(&self, x: i32, row: i32, col: i32) -> (r: bool)
        requires
            self.cols() <= i32::MAX,
            i32::MIN <= row * self.cols() + col <= i32::MAX,
            i32::MIN <= row * self.cols() <= i32::MAX,
        ensures
            r == (x == row * self.cols() + col),
    {
        x == row * (self.cols as i32) + col
    }

    /// The neighbours of (`row`, `col`), row by row.
    pub fn neighbours(&self, row: usize, col: usize) -> (r: Vec<(usize, usize)>)
        requires
            self.wf(),
            (row + 1) * self.cols() + col + 1 <= i32::MAX,
        ensures
            r@ == neighbour_cells(self.rows() as int, self.cols() as int, row as int, col as int),
    {
        proof {
            assert((row + 1) * self.cols() >= row + 1) by (nonlinear_arith)
                requires
                    self.cols() >= 1,
            ;
        }
        let mut v: Vec<(usize, usize)> = Vec::new();
        if row >= 1 {
            self.push_row(&mut v, row - 1, col, false);
        }
        self.push_row(&mut v, row, col, true);
        if row + 1 < self.rows {
            self.push_row(&mut v, row + 1, col, false);
        }
        proof {
            let rows = self.rows() as int;
            let cols = self.cols() as int;
            let above = if row >= 1 {
                cells_in_row(row - 1, cols, col as int, false)
            } else {
                Seq::empty()
            };
            let below = if row + 1 < rows {
                cells_in_row(row + 1, cols, col as int, false)
            } else {
                Seq::empty()
            };
            assert(v@ =~= above + cells_in_row(row as int, cols, col as int, true) + below);
        }
        v
    }

    fn push_row(&self, v: &mut Vec<(usize, usize)>, rr: usize, col: usize, centre: bool)
        requires
            col + 1 <= i32::MAX,
        ensures
            final(v)@ == old(v)@ + cells_in_row(rr as int, self.cols() as int, col as int, centre),
    {
        let ghost v0 = old(v)@;
        let cols = self.cols;
        if col >= 1 && col - 1 < cols {
            v.push((rr, col - 1));
        }
        if !centre && col < cols {
            v.push((rr, col));
        }
        if col + 1 < cols {
            v.push((rr, col + 1));
        }
        proof {
            assert(v@ =~= v0 + cells_in_row(rr as int, self.cols() as int, col as int, centre));
        }
    }
}

#[derive(Clone, Copy, Debug, PartialEq, Eq, Structural)]
pub enum Cell {
    Dead,
    Alive,
}

impl Default for Cell {
    fn default() -> (r: Self)
        ensures
            r == Cell::Dead,
    {
        Cell::Dead
    }
}

/// How many of the cells `ns` are alive in the grid `g` of width `cols`.
pub open spec fn alive_count(g: Seq<Cell>, cols: int, ns: Seq<(usize, usize)>) -> nat
    decreases ns.len(),
{
    if ns.len() == 0 {
        0
    } else {
        alive_count(g, cols, ns.drop_last()) + (if g[ns.last().0 * cols + ns.last().1] == Cell::Alive {
            1nat
        } else {
            0nat
        })
    }
}

/// The rules of the game: a live cell with two or three live neighbours
/// lives on, a dead cell with exactly three comes alive, every other cell is
/// dead.
pub open spec fn next_cell(state: Cell, alive: nat) -> Cell {
    if state == Cell::Alive && (alive == 2 || alive == 3) {
        Cell::Alive
    } else if state == Cell::Dead && alive == 3 {
        Cell::Alive
    } else {
        Cell::Dead
    }
}

/// The rule of the game, for every number of live neighbours: a dead cell
/// comes alive exactly when it has three live neighbours, and a live cell
/// stays alive exactly when it has two or three.
pub proof fn law_life_rule()
    ensures
        forall|n: nat| (#[trigger] next_cell(Cell::Dead, n) == Cell::Alive) <==> n == 3,
        forall|n: nat| (#[trigger] next_cell(Cell::Alive, n) == Cell::Alive) <==> (n == 2 || n == 3),
{
}

/// One generation of the grid `g` of `rows` by `cols`; cells stored past
/// the grid's size are kept as they are.
pub open spec fn life_step(g: Seq<Cell>, rows: int, cols: int) -> Seq<Cell> {
    Seq::new(
        g.len(),
        |i: int|
            if i < rows * cols {
                next_cell(g[i], alive_count(g, cols, neighbour_cells(rows, cols, i / cols, i % cols)))
            } else {
                g[i]
            },
    )
}

#[derive(PartialEq, Eq)]
pub struct GameOfLife {
    grid: Grid<Cell>,
}

impl GameOfLife {
    pub closed spec fn grid(&self) -> Grid<Cell> {
        self.grid
    }

    pub fn from_grid(grid: Grid<Cell>) -> (r: Self)
        requires
            grid.wf(),
        ensures
            r.grid().wf(),
            r.grid().rows() == grid.rows(),
            r.grid().cols() == grid.cols(),
            r.grid().cells() == grid.cells(),
    {
        let (rows, cols) = grid.size();
        Self { grid: Grid::<Cell>::from_slice(grid.grid.as_slice(), rows, cols) }
    }

    pub fn get_grid(&self) -> (r: &Grid<Cell>)
        ensures
            *r == self.grid(),
    {
        &self.grid
    }

    /// Counts the live neighbours of (`r`, `c`).
    #[verifier::spinoff_prover]
    #[verifier::rlimit(30)]
    fn count_alive(grid: &Grid<Cell>, r: usize, c: usize) -> (n: usize)
        requires
            grid.wf(),
            r < grid.rows(),
            c < grid.cols(),
            grid.rows() * grid.cols() <= grid.cells().len(),
            (grid.rows() + 1) * grid.cols() <= i32::MAX,
        ensures
            n == alive_count(
                grid.cells(),
                grid.cols() as int,
                neighbour_cells(grid.rows() as int, grid.cols() as int, r as int, c as int),
            ),
    {
        proof {
            let rows = grid.rows() as int;
            let cols = grid.cols() as int;
            assert((r + 1) * cols + c + 1 <= (rows + 1) * cols) by (nonlinear_arith)
                requires
                    r < rows,
                    c < cols,
            ;
        }
        let ns = grid.neighbours(r, c);
        let ghost g = grid.cells();
        let ghost cols = grid.cols() as int;
        let ghost rows = grid.rows() as int;
        let mut n: usize = 0;
        let mut k: usize = 0;
        while k < ns.len()
            invariant
                k <= ns@.len(),
                ns@ == neighbour_cells(rows, cols, r as int, c as int),
                g == grid.cells(),
                cols == grid.cols(),
                rows == grid.rows(),
                rows * cols <= g.len(),
                r < rows,
                n == alive_count(g, cols, ns@.take(k as int)),
                n <= k,
            decreases ns@.len() - k,
        {
            let (y, x) = ns[k];
            proof {
                assert(ns@[k as int].0 < rows && ns@[k as int].1 < cols);
                assert(y * cols + x < rows * cols) by (nonlinear_arith)
                    requires
                        y < rows,
                        x < cols,
                ;
                assert(ns@.take(k + 1).drop_last() =~= ns@.take(k as int));
            }
            if *grid.get(y, x) == Cell::Alive {
                n = n + 1;
            }
            k = k + 1;
        }
        proof {
            assert(ns@.take(k as int) =~= ns@);
        }
        n
    }

    /// Advances the game by one generation.
    pub fn step(&mut self)
        requires
            old(self).grid().wf(),
            old(self).grid().rows() * old(self).grid().cols() <= old(self).grid().cells().len(),
            (old(self).grid().rows() + 1) * old(self).grid().cols() <= i32::MAX,
        ensures
            final(self).grid().wf(),
            final(self).grid().rows() == old(self).grid().rows(),
            final(self).grid().cols() == old(self).grid().cols(),
            final(self).grid().cells() == life_step(
                old(self).grid().cells(),
                old(self).grid().rows() as int,
                old(self).grid().cols() as int,
            ),
    {
        let curr_grid = self.get_grid();
        let (rows, cols) = curr_grid.size();
        let ghost g = curr_grid.cells();
        let ghost target = life_step(g, rows as int, cols as int);
        let mut new_grid: Grid<Cell> = Grid::from_slice(curr_grid.grid.as_slice(), rows, cols);
        let mut r: usize = 0;
        while r < rows
            invariant
                curr_grid.wf(),
                g == curr_grid.cells(),
                rows == curr_grid.rows(),
                cols == curr_grid.cols(),
                rows * cols <= g.len(),
                (rows + 1) * cols <= i32::MAX,
                target == life_step(g, rows as int, cols as int),
                r <= rows,
                new_grid.wf(),
                new_grid.rows() == rows,
                new_grid.cols() == cols,
                new_grid.cells().len() == g.len(),
                forall|i: int| 0 <= i < r * cols ==> new_grid.cells()[i] == target[i],
                forall|i: int| r * cols <= i < g.len() ==> new_grid.cells()[i] == g[i],
            decreases rows - r,
        {
            let mut c: usize = 0;
            while c < cols
                invariant
                    curr_grid.wf(),
                    g == curr_grid.cells(),
                    rows == curr_grid.rows(),
                    cols == curr_grid.cols(),
                    rows * cols <= g.len(),
                    (rows + 1) * cols <= i32::MAX,
                    target == life_step(g, rows as int, cols as int),
                    r < rows,
                    c <= cols,
                    new_grid.wf(),
                    new_grid.rows() == rows,
                    new_grid.cols() == cols,
                    new_grid.cells().len() == g.len(),
                    forall|i: int| 0 <= i < r * cols + c ==> new_grid.cells()[i] == target[i],
                    forall|i: int| r * cols + c <= i < g.len() ==> new_grid.cells()[i] == g[i],
                decreases cols - c,
            {
                let ghost idx = r * cols + c;
                proof {
                    assert(r * cols + c < rows * cols) by (nonlinear_arith)
                        requires
                            r < rows,
                            c < cols,
                    ;
                    lemma_fundamental_div_mod_converse(idx, cols as int, r as int, c as int);
                }
                let n_alive = GameOfLife::count_alive(curr_grid, r, c);
                let cell_state = *curr_grid.get(r, c);
                let next = match (cell_state, n_alive) {
                    (Cell::Alive, 2) => Cell::Alive,
                    (Cell::Alive, 3) => Cell::Alive,
                    (Cell::Dead, 3) => Cell::Alive,
                    _ => Cell::Dead,
                };
                new_grid.set(next, r, c);
                c = c + 1;
            }
            proof {
                assert(r * cols + cols == (r + 1) * cols) by (nonlinear_arith);
            }
            r = r + 1;
        }
        proof {
            assert(new_grid.cells() =~= target);
        }
        *self = Self::from_grid(new_grid);
    }
}

} // verus!
