//! A rectangular board of cells, numbered row by row, with the cardinal
//! neighbours of every cell computed once up front.
use vstd::prelude::*;

verus! {

/// Row of cell `idx` on a board with `cols` columns.
pub open spec fn cell_row(cols: int, idx: int) -> int {
    idx / cols
}

/// Column of cell `idx` on a board with `cols` columns.
pub open spec fn cell_col(cols: int, idx: int) -> int {
    idx % cols
}

/// The cardinal neighbours of cell `idx` in the order the board lists them:
/// the cell below, the cell above, the cell to the right, the cell to the left,
/// each only where it lies on the board.
pub open spec fn cell_neighbors(rows: int, cols: int, idx: int) -> Seq<usize> {
    let r = cell_row(cols, idx);
    let c = cell_col(cols, idx);
    let down: Seq<usize> = if r + 1 < rows { seq![(idx + cols) as usize] } else { seq![] };
    let up: Seq<usize> = if r > 0 { seq![(idx - cols) as usize] } else { seq![] };
    let right: Seq<usize> = if c + 1 < cols { seq![(idx + 1) as usize] } else { seq![] };
    let left: Seq<usize> = if c > 0 { seq![(idx - 1) as usize] } else { seq![] };
    down + up + right + left
}

/// Two cells are adjacent when one is among the other's cardinal neighbours.
pub open spec fn adjacent(rows: int, cols: int, a: int, b: int) -> bool {
    0 <= b <= usize::MAX && cell_neighbors(rows, cols, a).contains(b as usize)
}

/// A board of `rows` × `cols` cells with the neighbour list of every cell.
#[derive(Clone, Debug)]
pub struct Grid {
    pub rows: usize,
    pub cols: usize,
    neighbors: Vec<Vec<usize>>,
}

/// Every cell's row and column put it back together: `idx == row * cols + col`,
/// with the row inside the board and the column inside a row.
pub proof fn lemma_cell_position(rows: int, cols: int, idx: int)
    requires
        0 < cols,
        0 <= idx < rows * cols,
    ensures
        idx == cell_row(cols, idx) * cols + cell_col(cols, idx),
        0 <= cell_row(cols, idx) < rows,
        0 <= cell_col(cols, idx) < cols,
{
    vstd::arithmetic::div_mod::lemma_fundamental_div_mod(idx, cols);
    let r = idx / cols;
    let c = idx % cols;
    assert(idx == cols * r + c);
    assert(cols * r == r * cols) by (nonlinear_arith);
    assert(0 <= r) by (nonlinear_arith)
        requires
            idx == r * cols + c,
            0 <= c < cols,
            0 <= idx,
    ;
    assert(r < rows) by (nonlinear_arith)
        requires
            idx == r * cols + c,
            0 <= c < cols,
            idx < rows * cols,
    ;
}

/// A row and a column inside the board name exactly one cell, `row * cols + col`.
pub proof fn lemma_position_cell(rows: int, cols: int, r: int, c: int)
    requires
        0 <= r < rows,
        0 <= c < cols,
    ensures
        0 <= r * cols + c < rows * cols,
        cell_row(cols, r * cols + c) == r,
        cell_col(cols, r * cols + c) == c,
{
    assert(0 <= r * cols + c < rows * cols) by (nonlinear_arith)
        requires
            0 <= r < rows,
            0 <= c < cols,
    ;
    vstd::arithmetic::div_mod::lemma_fundamental_div_mod_converse(r * cols + c, cols, r, c);
}

/// Every listed neighbour of a cell lies on the board, differs from the cell,
/// and appears once in the list.
pub proof fn lemma_cell_neighbors_facts(rows: int, cols: int, idx: int)
    requires
        0 <= rows,
        0 <= cols,
        0 <= idx < rows * cols,
        rows * cols <= usize::MAX,
    ensures
        cell_neighbors(rows, cols, idx).len() <= 4,
        cell_neighbors(rows, cols, idx).no_duplicates(),
        forall|j: int|
            0 <= j < cell_neighbors(rows, cols, idx).len() ==> {
                &&& 0 <= #[trigger] cell_neighbors(rows, cols, idx)[j] < rows * cols
                &&& cell_neighbors(rows, cols, idx)[j] != idx
            },
{
    assert(0 < cols) by (nonlinear_arith)
        requires
            0 <= idx < rows * cols,
            0 <= rows,
            0 <= cols,
    ;
    lemma_cell_position(rows, cols, idx);
    let r = cell_row(cols, idx);
    let c = cell_col(cols, idx);
    if r + 1 < rows {
        assert(idx + cols < rows * cols) by (nonlinear_arith)
            requires
                idx == r * cols + c,
                0 <= c < cols,
                r + 1 < rows,
        ;
    }
    if r > 0 {
        assert(idx - cols >= 0) by (nonlinear_arith)
            requires
                idx == r * cols + c,
                0 <= c,
                0 <= cols,
                r > 0,
        ;
    }
    if c + 1 < cols {
        assert(idx + 1 < rows * cols) by (nonlinear_arith)
            requires
                idx == r * cols + c,
                c + 1 < cols,
                0 <= r < rows,
                0 <= c,
        {
            assert(r * cols + cols <= rows * cols);
        }
    }
    let down: Seq<usize> = if r + 1 < rows { seq![(idx + cols) as usize] } else { seq![] };
    let up: Seq<usize> = if r > 0 { seq![(idx - cols) as usize] } else { seq![] };
    let right: Seq<usize> = if c + 1 < cols { seq![(idx + 1) as usize] } else { seq![] };
    let left: Seq<usize> = if c > 0 { seq![(idx - 1) as usize] } else { seq![] };
    let s = cell_neighbors(rows, cols, idx);
    assert(s == down + up + right + left);
    let d = down.len() as int;
    let u = up.len() as int;
    let rt = right.len() as int;
    assert forall|j: int| 0 <= j < s.len() implies {
        ||| (j < d && s[j] as int == idx + cols)
        ||| (d <= j < d + u && s[j] as int == idx - cols)
        ||| (d + u <= j < d + u + rt && s[j] as int == idx + 1)
        ||| (d + u + rt <= j && s[j] as int == idx - 1 && c > 0)
    } by {
        if j < d {
            assert(s[j] == down[j]);
        } else if j < d + u {
            assert(s[j] == up[j - d]);
        } else if j < d + u + rt {
            assert(s[j] == right[j - d - u]);
        } else {
            assert(s[j] == left[j - d - u - rt]);
        }
    }
    assert forall|a: int, b: int| 0 <= a < s.len() && 0 <= b < s.len() && a != b implies s[a]
        != s[b] by {
        if cols == 1 {
            assert(c == 0);
        }
    }
}

/// The cell to the right of a cell that is not in the last column is its
/// neighbour.
pub proof fn lemma_right_neighbor(rows: int, cols: int, idx: int)
    requires
        0 <= idx,
        cell_col(cols, idx) + 1 < cols,
        idx + 1 <= usize::MAX,
    ensures
        adjacent(rows, cols, idx, idx + 1),
{
    let s = cell_neighbors(rows, cols, idx);
    let r = cell_row(cols, idx);
    let down: Seq<usize> = if r + 1 < rows { seq![(idx + cols) as usize] } else { seq![] };
    let up: Seq<usize> = if r > 0 { seq![(idx - cols) as usize] } else { seq![] };
    let right: Seq<usize> = seq![(idx + 1) as usize];
    let c = cell_col(cols, idx);
    let left: Seq<usize> = if c > 0 { seq![(idx - 1) as usize] } else { seq![] };
    assert(s == down + up + right + left);
    assert(s[(down.len() + up.len()) as int] == (idx + 1) as usize);
}

/// The cell to the left of a cell that is not in the first column is its
/// neighbour.
pub proof fn lemma_left_neighbor(rows: int, cols: int, idx: int)
    requires
        1 <= idx <= usize::MAX,
        cell_col(cols, idx) > 0,
    ensures
        adjacent(rows, cols, idx, idx - 1),
{
    let s = cell_neighbors(rows, cols, idx);
    let r = cell_row(cols, idx);
    let c = cell_col(cols, idx);
    let down: Seq<usize> = if r + 1 < rows { seq![(idx + cols) as usize] } else { seq![] };
    let up: Seq<usize> = if r > 0 { seq![(idx - cols) as usize] } else { seq![] };
    let right: Seq<usize> = if c + 1 < cols { seq![(idx + 1) as usize] } else { seq![] };
    let left: Seq<usize> = seq![(idx - 1) as usize];
    assert(s == down + up + right + left);
    assert(s[(down.len() + up.len() + right.len()) as int] == (idx - 1) as usize);
}

/// The cell below a cell that is not in the last row is its neighbour.
pub proof fn lemma_down_neighbor(rows: int, cols: int, idx: int)
    requires
        0 <= idx,
        0 <= cols,
        cell_row(cols, idx) + 1 < rows,
        idx + cols <= usize::MAX,
    ensures
        adjacent(rows, cols, idx, idx + cols),
{
    let s = cell_neighbors(rows, cols, idx);
    assert(s[0] == (idx + cols) as usize);
}

/// Adjacency goes both ways.
pub proof fn lemma_adjacent_symmetric(rows: int, cols: int, a: int, b: int)
    requires
        0 <= rows,
        0 <= cols,
        0 <= a < rows * cols,
        rows * cols <= usize::MAX,
        adjacent(rows, cols, a, b),
    ensures
        adjacent(rows, cols, b, a),
{
    lemma_cell_neighbors_facts(rows, cols, a);
    assert(0 < cols) by (nonlinear_arith)
        requires
            0 <= a < rows * cols,
            0 <= rows,
            0 <= cols,
    ;
    lemma_cell_position(rows, cols, a);
    let r = cell_row(cols, a);
    let c = cell_col(cols, a);
    let s = cell_neighbors(rows, cols, a);
    if r + 1 < rows {
        assert(a + cols < rows * cols) by (nonlinear_arith)
            requires
                a == r * cols + c,
                0 <= c < cols,
                r + 1 < rows,
        ;
    }
    if r > 0 {
        assert(a - cols >= 0) by (nonlinear_arith)
            requires
                a == r * cols + c,
                0 <= c,
                0 <= cols,
                r > 0,
        ;
    }
    let down: Seq<usize> = if r + 1 < rows { seq![(a + cols) as usize] } else { seq![] };
    let up: Seq<usize> = if r > 0 { seq![(a - cols) as usize] } else { seq![] };
    let right: Seq<usize> = if c + 1 < cols { seq![(a + 1) as usize] } else { seq![] };
    let left: Seq<usize> = if c > 0 { seq![(a - 1) as usize] } else { seq![] };
    assert(s == down + up + right + left);
    let j = choose|j: int| 0 <= j < s.len() && s[j] == b as usize;
    assert(s[j] == b);
    assert(0 <= b < rows * cols);
    if j < down.len() {
        assert(b == a + cols);
        lemma_position_cell(rows, cols, r + 1, c);
        assert((r + 1) * cols + c == a + cols) by (nonlinear_arith)
            requires
                a == r * cols + c,
        ;
        assert(b - cols == a);
        assert(cell_row(cols, b) == r + 1);
        let t = cell_neighbors(rows, cols, b);
        let tdown: Seq<usize> = if r + 2 < rows { seq![(b + cols) as usize] } else { seq![] };
        let tup: Seq<usize> = seq![(b - cols) as usize];
        let tright: Seq<usize> = if c + 1 < cols { seq![(b + 1) as usize] } else { seq![] };
        let tleft: Seq<usize> = if c > 0 { seq![(b - 1) as usize] } else { seq![] };
        assert(t == tdown + tup + tright + tleft);
        assert(t[tdown.len() as int] == a as usize);
    } else if j < down.len() + up.len() {
        assert(b == a - cols);
        lemma_position_cell(rows, cols, r - 1, c);
        assert((r - 1) * cols + c == a - cols) by (nonlinear_arith)
            requires
                a == r * cols + c,
        ;
        assert(cell_row(cols, b) == r - 1);
        lemma_down_neighbor(rows, cols, b);
    } else if j < down.len() + up.len() + right.len() {
        assert(b == a + 1);
        lemma_position_cell(rows, cols, r, c + 1);
        assert(r * cols + (c + 1) == a + 1);
        lemma_left_neighbor(rows, cols, b);
    } else {
        assert(b == a - 1);
        lemma_position_cell(rows, cols, r, c - 1);
        assert(r * cols + (c - 1) == a - 1);
        lemma_right_neighbor(rows, cols, b);
    }
}

impl Grid {
    pub closed spec fn spec_rows(&self) -> usize {
        self.rows
    }

    pub closed spec fn spec_cols(&self) -> usize {
        self.cols
    }

    /// The number of rows of the board.
    #[verifier::when_used_as_spec(spec_rows)]
    pub fn rows(&self) -> (rows: usize)
        ensures
            rows == self.spec_rows(),
    {
        self.rows
    }

    /// The number of columns of the board.
    #[verifier::when_used_as_spec(spec_cols)]
    pub fn cols(&self) -> (cols: usize)
        ensures
            cols == self.spec_cols(),
    {
        self.cols
    }

    /// The board is well formed: it holds one neighbour list per cell, and each
    /// list is that cell's cardinal neighbours.
    pub closed spec fn wf(&self) -> bool {
        &&& self.rows * self.cols <= usize::MAX
        &&& self.neighbors@.len() == self.rows * self.cols
        &&& forall|i: int|
            0 <= i < self.rows * self.cols ==> (#[trigger] self.neighbors@[i])@ == cell_neighbors(
                self.rows as int,
                self.cols as int,
                i,
            )
    }

    /// A well-formed board has at most `usize::MAX` cells.
    pub proof fn lemma_wf_size(&self)
        requires
            self.wf(),
        ensures
            self.rows() * self.cols() <= usize::MAX,
    {
    }

    pub fn new(rows: usize, cols: usize) -> (grid: Self)
        requires
            rows * cols <= usize::MAX,
        ensures
            grid.wf(),
            grid.rows() == rows,
            grid.cols() == cols,
    {
        let mut neighbors: Vec<Vec<usize>> = Vec::with_capacity(rows * cols);
        let mut r: usize = 0;
        while r < rows
            invariant
                rows * cols <= usize::MAX,
                r <= rows,
                neighbors@.len() == r * cols,
                forall|i: int|
                    0 <= i < r * cols ==> (#[trigger] neighbors@[i])@ == cell_neighbors(
                        rows as int,
                        cols as int,
                        i,
                    ),
            decreases rows - r,
        {
            let mut c: usize = 0;
            while c < cols
                invariant
                    rows * cols <= usize::MAX,
                    r < rows,
                    c <= cols,
                    neighbors@.len() == r * cols + c,
                    forall|i: int|
                        0 <= i < r * cols + c ==> (#[trigger] neighbors@[i])@ == cell_neighbors(
                            rows as int,
                            cols as int,
                            i,
                        ),
                decreases cols - c,
            {
                proof {
                    lemma_position_cell(rows as int, cols as int, r as int, c as int);
                    assert((r + 1) * cols + c == (r * cols + c) + cols) by (nonlinear_arith);
                }
                let ghost idx = r * cols + c;
                let mut list: Vec<usize> = Vec::with_capacity(4);
                if r + 1 < rows {
                    proof {
                        assert((r + 1) * cols + c < rows * cols) by (nonlinear_arith)
                            requires
                                r + 1 < rows,
                                c < cols,
                        ;
                    }
                    list.push((r + 1) * cols + c);
                }
                if r > 0 {
                    proof {
                        assert((r - 1) * cols + c == (r * cols + c) - cols) by (nonlinear_arith);
                    }
                    list.push((r - 1) * cols + c);
                }
                if c + 1 < cols {
                    list.push(r * cols + c + 1);
                }
                if c > 0 {
                    list.push(r * cols + c - 1);
                }
                assert(list@ =~= cell_neighbors(rows as int, cols as int, idx));
                neighbors.push(list);
                c = c + 1;
            }
            proof {
                assert(r * cols + cols == (r + 1) * cols) by (nonlinear_arith);
            }
            r = r + 1;
        }
        Grid { rows, cols, neighbors }
    }

    /// The number of the cell at row `r` and column `c`.
    pub fn idx(&self, r: usize, c: usize) -> (idx: usize)
        requires
            r * self.cols() + c <= usize::MAX,
        ensures
            idx == r * self.cols() + c,
    {
        r * self.cols + c
    }

    /// The row and the column of cell `idx`.
    pub fn row_col(&self, idx: usize) -> (rc: [usize; 2])
        requires
            self.cols() > 0,
        ensures
            rc@ == seq![
                cell_row(self.cols() as int, idx as int) as usize,
                cell_col(self.cols() as int, idx as int) as usize,
            ],
    {
        let rc = [idx / self.cols, idx % self.cols];
        assert(rc@ =~= seq![rc[0], rc[1]]);
        rc
    }

    /// The cardinal neighbours of cell `idx`.
    pub fn neighbors(&self, idx: usize) -> (list: &[usize])
        requires
            self.wf(),
            idx < self.rows() * self.cols(),
        ensures
            list@ == cell_neighbors(self.rows() as int, self.cols() as int, idx as int),
    {
        self.neighbors[idx].as_slice()
    }
}

} // verus!
