use vstd::prelude::*;

use vstd::arithmetic::div_mod::{
    lemma_fundamental_div_mod, lemma_fundamental_div_mod_converse_div,
    lemma_fundamental_div_mod_converse_mod, lemma_mod_bound,
};

verus! {

/// Greatest number of cells a board may hold: the dead-end cache packs a
/// whole board into a 64-bit code, one bit per cell.
pub const MAX_CELLS: usize = 64;

/// One cell of the grid: an occupied cell, an empty playable cell, or a
/// position outside the puzzle's playable shape.
#[derive(Clone, Copy, Debug, PartialEq, Eq, Hash, Structural)]
pub enum Cell {
    Peg,
    Hole,
    Absent,
}

/// The mathematical model of a board: a sequence of rows of cells.
pub type Grid = Seq<Seq<Cell>>;

/// Number of rows of a grid.
pub open spec fn grid_rows(g: Grid) -> int {
    g.len() as int
}

/// Number of columns of a grid (its first row's length).
pub open spec fn grid_cols(g: Grid) -> int {
    if g.len() == 0 {
        0
    } else {
        g[0].len() as int
    }
}

/// A nonempty rectangular grid.
pub open spec fn grid_wf(g: Grid) -> bool {
    &&& 1 <= g.len()
    &&& 1 <= g[0].len()
    &&& forall|r: int| 0 <= r < g.len() ==> (#[trigger] g[r]).len() == g[0].len()
}

/// Whether (r, c) indexes a cell of the grid.
pub open spec fn in_grid(g: Grid, r: int, c: int) -> bool {
    0 <= r < grid_rows(g) && 0 <= c < grid_cols(g)
}

/// The cell at (r, c).
pub open spec fn cell_at(g: Grid, r: int, c: int) -> Cell {
    g[r][c]
}

/// The grid with the cell at (r, c) replaced by v.
pub open spec fn grid_set(g: Grid, r: int, c: int, v: Cell) -> Grid {
    g.update(r, g[r].update(c, v))
}

/// 1 for a peg, 0 for anything else.
pub open spec fn peg_bit(c: Cell) -> nat {
    if c == Cell::Peg {
        1nat
    } else {
        0nat
    }
}

/// Number of pegs in one sequence of cells.
pub open spec fn row_pegs(s: Seq<Cell>) -> nat
    decreases s.len(),
{
    if s.len() == 0 {
        0
    } else {
        row_pegs(s.drop_last()) + peg_bit(s.last())
    }
}

/// Number of pegs on the whole grid.
pub open spec fn grid_pegs(g: Grid) -> nat
    decreases g.len(),
{
    if g.len() == 0 {
        0
    } else {
        grid_pegs(g.drop_last()) + row_pegs(g.last())
    }
}

/// Two grids agree on extent and on which positions are off the playable
/// shape. A jump never touches an absent cell, so this is invariant across a
/// whole search.
pub open spec fn same_shape(a: Grid, b: Grid) -> bool {
    &&& a.len() == b.len()
    &&& forall|r: int| 0 <= r < a.len() ==> (#[trigger] a[r]).len() == b[r].len()
    &&& forall|r: int, c: int|
        0 <= r < a.len() && 0 <= c < a[r].len() ==> ((#[trigger] a[r][c]) == Cell::Absent <==> b[r][c]
            == Cell::Absent)
}

/// Row-major flat index facts: the index is in range and decomposes back
/// into the row and column it was built from.
pub proof fn lemma_flat_index(r: int, c: int, rows: int, cols: int)
    requires
        0 <= r < rows,
        0 <= c < cols,
    ensures
        0 <= r * cols + c < rows * cols,
        (r * cols + c) / cols == r,
        (r * cols + c) % cols == c,
{
    assert(0 <= r * cols + c < rows * cols) by (nonlinear_arith)
        requires
            0 <= r < rows,
            0 <= c < cols,
    ;
    lemma_fundamental_div_mod_converse_div(r * cols + c, cols, r, c);
    lemma_fundamental_div_mod_converse_mod(r * cols + c, cols, r, c);
}

/// Decompose a flat index of a rows-by-cols range into row and column.
pub proof fn lemma_flat_index_decompose(i: int, rows: int, cols: int)
    requires
        0 <= i < rows * cols,
        1 <= cols,
    ensures
        0 <= i / cols < rows,
        0 <= i % cols < cols,
        (i / cols) * cols + i % cols == i,
{
    lemma_fundamental_div_mod(i, cols);
    lemma_mod_bound(i, cols);
    assert((i / cols) * cols + i % cols == i) by {
        assert(i == cols * (i / cols) + i % cols);
        assert(cols * (i / cols) == (i / cols) * cols) by (nonlinear_arith);
    };
    assert(0 <= i / cols < rows) by (nonlinear_arith)
        requires
            0 <= i < rows * cols,
            1 <= cols,
            (i / cols) * cols + i % cols == i,
            0 <= i % cols < cols,
    ;
}

proof fn lemma_row_pegs_take_step(s: Seq<Cell>, n: int)
    requires
        0 <= n < s.len(),
    ensures
        row_pegs(s.take(n + 1)) == row_pegs(s.take(n)) + peg_bit(s[n]),
{
    assert(s.take(n + 1).drop_last() =~= s.take(n));
    assert(s.take(n + 1).last() == s[n]);
}

proof fn lemma_row_pegs_concat(a: Seq<Cell>, b: Seq<Cell>)
    ensures
        row_pegs(a + b) == row_pegs(a) + row_pegs(b),
    decreases b.len(),
{
    if b.len() == 0 {
        assert(a + b =~= a);
    } else {
        lemma_row_pegs_concat(a, b.drop_last());
        assert((a + b).drop_last() =~= a + b.drop_last());
        assert((a + b).last() == b.last());
    }
}

/// Shape agreement is symmetric.
pub proof fn lemma_same_shape_symm(a: Grid, b: Grid)
    requires
        same_shape(a, b),
    ensures
        same_shape(b, a),
{
    assert forall|r: int| 0 <= r < b.len() implies (#[trigger] b[r]).len() == a[r].len() by {
        assert(a[r].len() == b[r].len());
    };
    assert forall|r: int, c: int|
        0 <= r < b.len() && 0 <= c < b[r].len() implies ((#[trigger] b[r][c]) == Cell::Absent <==> a[r][c]
        == Cell::Absent) by {
        assert(a[r].len() == b[r].len());
        assert(a[r][c] == Cell::Absent <==> b[r][c] == Cell::Absent);
    };
}

/// Two grids shaped like a third are shaped like each other.
pub proof fn lemma_same_shape_trans(a: Grid, b: Grid, c: Grid)
    requires
        same_shape(a, c),
        same_shape(b, c),
    ensures
        same_shape(a, b),
{
    assert forall|r: int| 0 <= r < a.len() implies (#[trigger] a[r]).len() == b[r].len() by {
        assert(a[r].len() == c[r].len());
        assert(b[r].len() == c[r].len());
    };
    assert forall|r: int, c2: int|
        0 <= r < a.len() && 0 <= c2 < a[r].len() implies ((#[trigger] a[r][c2]) == Cell::Absent
        <==> b[r][c2] == Cell::Absent) by {
        assert(a[r][c2] == Cell::Absent <==> c[r][c2] == Cell::Absent);
        assert(b[r][c2] == Cell::Absent <==> c[r][c2] == Cell::Absent);
    };
}

proof fn lemma_row_pegs_update(s: Seq<Cell>, c: int, v: Cell)
    requires
        0 <= c < s.len(),
    ensures
        row_pegs(s.update(c, v)) + peg_bit(s[c]) == row_pegs(s) + peg_bit(v),
    decreases s.len(),
{
    let t = s.update(c, v);
    if c == s.len() - 1 {
        assert(t.drop_last() =~= s.drop_last());
        assert(t.last() == v);
    } else {
        assert(t.drop_last() =~= s.drop_last().update(c, v));
        assert(t.last() == s.last());
        lemma_row_pegs_update(s.drop_last(), c, v);
    }
}

proof fn lemma_grid_set_pegs(g: Grid, r: int, c: int, v: Cell)
    requires
        0 <= r < g.len(),
        0 <= c < g[r].len(),
    ensures
        grid_pegs(grid_set(g, r, c, v)) + peg_bit(g[r][c]) == grid_pegs(g) + peg_bit(v),
    decreases g.len(),
{
    let t = grid_set(g, r, c, v);
    if r == g.len() - 1 {
        assert(t.drop_last() =~= g.drop_last());
        assert(t.last() == g[r].update(c, v));
        lemma_row_pegs_update(g[r], c, v);
    } else {
        assert(t.drop_last() =~= grid_set(g.drop_last(), r, c, v));
        assert(t.last() == g.last());
        lemma_grid_set_pegs(g.drop_last(), r, c, v);
    }
}

/// Writing one cell changes no other cell, keeps the extent, and adjusts the
/// peg count by the difference between the old and the new cell.
pub proof fn lemma_grid_set_frame(g: Grid, r: int, c: int, v: Cell)
    requires
        grid_wf(g),
        in_grid(g, r, c),
    ensures
        grid_wf(grid_set(g, r, c, v)),
        grid_rows(grid_set(g, r, c, v)) == grid_rows(g),
        grid_cols(grid_set(g, r, c, v)) == grid_cols(g),
        cell_at(grid_set(g, r, c, v), r, c) == v,
        forall|r2: int, c2: int|
            in_grid(g, r2, c2) && !(r2 == r && c2 == c) ==> #[trigger] cell_at(
                grid_set(g, r, c, v),
                r2,
                c2,
            ) == cell_at(g, r2, c2),
        grid_pegs(grid_set(g, r, c, v)) + peg_bit(cell_at(g, r, c)) == grid_pegs(g) + peg_bit(v),
{
    let t = grid_set(g, r, c, v);
    assert(t[r].len() == g[r].len());
    assert forall|r2: int| 0 <= r2 < t.len() implies (#[trigger] t[r2]).len() == t[0].len() by {
        assert(g[r2].len() == g[0].len());
    };
    lemma_grid_set_pegs(g, r, c, v);
}

/// The grid made of the first k rows of a row-major flat cell sequence.
spec fn partial_view(s: Seq<Cell>, k: int, cols: int) -> Grid {
    Seq::new(k as nat, |r: int| Seq::new(cols as nat, |c: int| s[r * cols + c]))
}

proof fn lemma_partial_view_pegs(s: Seq<Cell>, k: int, cols: int)
    requires
        0 <= k,
        1 <= cols,
        k * cols <= s.len(),
    ensures
        grid_pegs(partial_view(s, k, cols)) == row_pegs(s.take(k * cols)),
    decreases k,
{
    if k == 0 {
        assert(k * cols == 0) by (nonlinear_arith)
            requires
                k == 0,
        ;
        assert(partial_view(s, 0, cols) =~= Seq::<Seq<Cell>>::empty());
        assert(s.take(0) =~= Seq::<Cell>::empty());
        assert(grid_pegs(Seq::<Seq<Cell>>::empty()) == 0);
        assert(row_pegs(Seq::<Cell>::empty()) == 0);
    } else {
        assert(0 <= (k - 1) * cols && (k - 1) * cols + cols == k * cols) by (nonlinear_arith)
            requires
                1 <= k,
                1 <= cols,
        ;
        lemma_partial_view_pegs(s, k - 1, cols);
        let pv = partial_view(s, k, cols);
        let pv1 = partial_view(s, k - 1, cols);
        assert(pv.drop_last() =~= pv1);
        let sub = s.subrange((k - 1) * cols, k * cols);
        assert(pv.last() =~= sub);
        assert(s.take(k * cols) =~= s.take((k - 1) * cols) + sub);
        lemma_row_pegs_concat(s.take((k - 1) * cols), sub);
        assert(pv.len() == k);
        assert(grid_pegs(pv) == grid_pegs(pv.drop_last()) + row_pegs(pv.last()));
        assert(grid_pegs(pv.drop_last()) == grid_pegs(pv1));
        assert(grid_pegs(pv1) == row_pegs(s.take((k - 1) * cols)));
        assert(row_pegs(pv.last()) == row_pegs(sub));
        assert(row_pegs(s.take(k * cols)) == row_pegs(s.take((k - 1) * cols)) + row_pegs(sub));
    }
}

/// The grid state: a fixed nonempty rectangular extent and one tri-state
/// cell per position, stored row-major. The extent never changes over a
/// board's lifetime; only cell contents do.
#[derive(Debug)]
pub struct Board {
    rows: usize,
    cols: usize,
    cells: Vec<Cell>,
}

impl View for Board {
    type V = Grid;

    closed spec fn view(&self) -> Grid {
        Seq::new(
            self.rows as nat,
            |r: int| Seq::new(self.cols as nat, |c: int| self.cells@[r * (self.cols as int) + c]),
        )
    }
}

impl Board {
    /// Structural soundness: a nonempty rectangular extent of at most
    /// MAX_CELLS cells, and flat storage of exactly rows * cols cells.
    pub closed spec fn wf(self) -> bool {
        &&& 1 <= self.rows
        &&& 1 <= self.cols
        &&& self.rows * self.cols <= MAX_CELLS
        &&& self.cells@.len() == self.rows * self.cols
    }

    /// A well-formed board's view is a well-formed grid of bounded area.
    pub proof fn lemma_wf_view(&self)
        requires
            self.wf(),
        ensures
            grid_wf(self@),
            1 <= grid_rows(self@),
            1 <= grid_cols(self@),
            grid_rows(self@) * grid_cols(self@) <= MAX_CELLS,
    {
        assert(self@.len() == self.rows);
        assert(self@[0].len() == self.cols);
    }

    /// Number of rows.
    pub fn rows(&self) -> (n: usize)
        requires
            self.wf(),
        ensures
            n == grid_rows(self@),
    {
        self.rows
    }

    /// Number of columns.
    pub fn cols(&self) -> (n: usize)
        requires
            self.wf(),
        ensures
            n == grid_cols(self@),
    {
        proof {
            assert(self@[0].len() == self.cols);
        }
        self.cols
    }

    /// Read the cell at (row, col).
    pub fn get(&self, row: usize, col: usize) -> (c: Cell)
        requires
            self.wf(),
            row < grid_rows(self@),
            col < grid_cols(self@),
        ensures
            c == cell_at(self@, row as int, col as int),
    {
        proof {
            self.lemma_wf_view();
            lemma_flat_index(row as int, col as int, self.rows as int, self.cols as int);
        }
        self.cells[row * self.cols + col]
    }

    /// Write the cell at (row, col).
    pub fn set(&mut self, row: usize, col: usize, v: Cell)
        requires
            old(self).wf(),
            row < grid_rows(old(self)@),
            col < grid_cols(old(self)@),
        ensures
            final(self).wf(),
            final(self)@ == grid_set(old(self)@, row as int, col as int, v),
    {
        proof {
            old(self).lemma_wf_view();
            lemma_flat_index(row as int, col as int, self.rows as int, self.cols as int);
        }
        let i = row * self.cols + col;
        self.cells[i] = v;
        proof {
            let rows = self.rows as int;
            let cols = self.cols as int;
            let g1 = self@;
            let gs = grid_set(old(self)@, row as int, col as int, v);
            assert forall|r2: int, c2: int| 0 <= r2 < rows && 0 <= c2 < cols implies g1[r2][c2]
                == gs[r2][c2] by {
                lemma_flat_index(r2, c2, rows, cols);
                if r2 * cols + c2 == i {
                    lemma_flat_index(row as int, col as int, rows, cols);
                    assert(r2 == (r2 * cols + c2) / cols);
                    assert(c2 == (r2 * cols + c2) % cols);
                    assert(r2 == row && c2 == col);
                } else {
                    assert(g1[r2][c2] == old(self).cells@[r2 * cols + c2]);
                }
            };
            assert forall|r2: int| 0 <= r2 < rows implies g1[r2] =~= gs[r2] by {
                assert(gs[r2].len() == cols);
            };
            assert(g1 =~~= gs);
        }
    }

    proof fn lemma_view_pegs(&self)
        requires
            self.wf(),
        ensures
            grid_pegs(self@) == row_pegs(self.cells@),
    {
        let rows = self.rows as int;
        let cols = self.cols as int;
        let pv = partial_view(self.cells@, rows, cols);
        assert forall|r: int| 0 <= r < rows implies self@[r] =~= pv[r] by {}
        assert(self@ =~~= pv);
        lemma_partial_view_pegs(self.cells@, rows, cols);
        assert(self.cells@.take(rows * cols) =~= self.cells@);
    }

    /// Count of cells holding a peg: the solver's terminal test.
    #[verifier::loop_isolation(false)]
    pub fn peg_count(&self) -> (n: usize)
        requires
            self.wf(),
        ensures
            n == grid_pegs(self@),
    {
        let len = self.cells.len();
        let mut n: usize = 0;
        let mut i: usize = 0;
        while i < len
            invariant
                i <= len,
                n <= i,
                n == row_pegs(self.cells@.take(i as int)),
            decreases len - i,
        {
            proof {
                lemma_row_pegs_take_step(self.cells@, i as int);
            }
            if self.cells[i] == Cell::Peg {
                n += 1;
            }
            i += 1;
        }
        proof {
            assert(self.cells@.take(len as int) =~= self.cells@);
            self.lemma_view_pegs();
        }
        n
    }

    /// A deep copy: the full snapshot stored in each play record.
    #[verifier::loop_isolation(false)]
    pub fn snapshot(&self) -> (b: Board)
        requires
            self.wf(),
        ensures
            b.wf(),
            b@ == self@,
    {
        let len = self.cells.len();
        let mut cells: Vec<Cell> = Vec::new();
        let mut i: usize = 0;
        while i < len
            invariant
                i <= len,
                cells@ == self.cells@.take(i as int),
            decreases len - i,
        {
            cells.push(self.cells[i]);
            proof {
                assert(self.cells@.take(i + 1) =~= self.cells@.take(i as int).push(
                    self.cells@[i as int],
                ));
            }
            i += 1;
        }
        proof {
            assert(cells@ =~= self.cells@);
        }
        let b = Board { rows: self.rows, cols: self.cols, cells };
        proof {
            assert(b@ =~~= self@);
        }
        b
    }

    /// Structural equality of two boards: same extent, same cells. This is
    /// the equality under which the dead-end cache identifies transposed
    /// search states.
    #[verifier::loop_isolation(false)]
    pub fn same_as(&self, other: &Board) -> (r: bool)
        requires
            self.wf(),
            other.wf(),
        ensures
            r == (self@ == other@),
    {
        proof {
            self.lemma_wf_view();
            other.lemma_wf_view();
        }
        if self.rows != other.rows {
            proof {
                assert(self@.len() != other@.len());
            }
            return false;
        }
        if self.cols != other.cols {
            proof {
                assert(self@[0].len() == self.cols);
                assert(other@[0].len() == other.cols);
                if self@ == other@ {
                    assert(self@[0] == other@[0]);
                }
            }
            return false;
        }
        let len = self.cells.len();
        proof {
            assert(other.cells@.len() == len);
        }
        let mut i: usize = 0;
        while i < len
            invariant
                i <= len,
                forall|k: int| 0 <= k < i ==> self.cells@[k] == other.cells@[k],
            decreases len - i,
        {
            if self.cells[i] != other.cells[i] {
                proof {
                    let rows = self.rows as int;
                    let cols = self.cols as int;
                    lemma_flat_index_decompose(i as int, rows, cols);
                    let r2 = (i as int) / cols;
                    let c2 = (i as int) % cols;
                    assert(self@[r2][c2] == self.cells@[i as int]);
                    assert(other@[r2][c2] == other.cells@[i as int]);
                    if self@ == other@ {
                        assert(self@[r2] == other@[r2]);
                    }
                }
                return false;
            }
            i += 1;
        }
        proof {
            let rows = self.rows as int;
            let cols = self.cols as int;
            assert forall|r2: int, c2: int| 0 <= r2 < rows && 0 <= c2 < cols implies self@[r2][c2]
                == other@[r2][c2] by {
                lemma_flat_index(r2, c2, rows, cols);
            };
            assert forall|r2: int| 0 <= r2 < rows implies self@[r2] =~= other@[r2] by {}
            assert(self@ =~~= other@);
        }
        true
    }

    /// Build a board from a literal grid of rows: the one way a board comes
    /// into being. Yields nothing when the rows are empty, ragged, or cover
    /// more than MAX_CELLS cells; the caller is expected to hand in a
    /// well-formed literal.
    #[verifier::loop_isolation(false)]
    pub fn from_rows(grid: Vec<Vec<Cell>>) -> (r: Option<Board>)
        ensures
            (match r {
                Some(b) => {
                    &&& b.wf()
                    &&& b@ == rows_view(grid@)
                    &&& grid_wf(rows_view(grid@))
                    &&& grid_rows(rows_view(grid@)) * grid_cols(rows_view(grid@)) <= MAX_CELLS
                },
                None => !(grid_wf(rows_view(grid@)) && grid_rows(rows_view(grid@)) * grid_cols(
                    rows_view(grid@),
                ) <= MAX_CELLS),
            }),
    {
        let ghost gv = rows_view(grid@);
        let rows = grid.len();
        if rows == 0 {
            return None;
        }
        let cols = grid[0].len();
        proof {
            assert(gv[0].len() == cols);
        }
        if cols == 0 {
            return None;
        }
        if rows > MAX_CELLS || cols > MAX_CELLS {
            proof {
                assert((rows as int) * (cols as int) > MAX_CELLS) by (nonlinear_arith)
                    requires
                        1 <= rows,
                        1 <= cols,
                        rows > MAX_CELLS || cols > MAX_CELLS,
                ;
            }
            return None;
        }
        proof {
            assert((rows as int) * (cols as int) <= MAX_CELLS * MAX_CELLS) by (nonlinear_arith)
                requires
                    rows <= MAX_CELLS,
                    cols <= MAX_CELLS,
            ;
        }
        if rows * cols > MAX_CELLS {
            return None;
        }
        let mut r0: usize = 0;
        while r0 < rows
            invariant
                r0 <= rows,
                forall|k: int| 0 <= k < r0 ==> (#[trigger] grid@[k])@.len() == cols,
            decreases rows - r0,
        {
            if grid[r0].len() != cols {
                proof {
                    assert(gv[r0 as int].len() != gv[0].len());
                }
                return None;
            }
            r0 += 1;
        }
        let mut cells: Vec<Cell> = Vec::new();
        let mut rr: usize = 0;
        while rr < rows
            invariant
                rr <= rows,
                cells@.len() == (rr as int) * (cols as int),
                forall|i: int|
                    0 <= i < cells@.len() ==> #[trigger] cells@[i] == grid@[i / (cols as int)]@[i % (
                    cols as int)],
            decreases rows - rr,
        {
            let mut cc: usize = 0;
            while cc < cols
                invariant
                    cc <= cols,
                    cells@.len() == (rr as int) * (cols as int) + cc as int,
                    forall|i: int|
                        0 <= i < cells@.len() ==> #[trigger] cells@[i] == grid@[i / (cols
                        as int)]@[i % (cols as int)],
                decreases cols - cc,
            {
                proof {
                    lemma_flat_index(rr as int, cc as int, rows as int, cols as int);
                    assert((rr as int) * (cols as int) + (cc as int) < (rows as int) * (cols as int));
                }
                let v = grid[rr][cc];
                cells.push(v);
                cc += 1;
            }
            proof {
                assert(((rr + 1) as int) * (cols as int) == (rr as int) * (cols as int) + cols as int)
                    by (nonlinear_arith);
            }
            rr += 1;
        }
        let b = Board { rows, cols, cells };
        proof {
            assert(b.wf());
            assert forall|r2: int, c2: int| 0 <= r2 < rows && 0 <= c2 < cols implies b@[r2][c2]
                == gv[r2][c2] by {
                lemma_flat_index(r2, c2, rows as int, cols as int);
                assert(gv[r2].len() == cols);
            };
            assert forall|r2: int| 0 <= r2 < rows implies b@[r2] =~= gv[r2] by {
                assert(gv[r2].len() == cols);
            };
            assert(b@ =~~= gv);
        }
        Some(b)
    }
}

/// The grid a literal sequence of rows denotes.
pub open spec fn rows_view(rs: Seq<Vec<Cell>>) -> Grid {
    rs.map_values(|row: Vec<Cell>| row@)
}

} // verus!
