use vstd::prelude::*;
use crate::error::GameError;
use crate::text::{cells_text, glyph, grid_text, push_cell};
use crate::trusted::{gen_cell, json_rows, parse_rows, thread_rng};
use vstd::string::StringExecFns;

verus! {

/// A rectangular grid of cells, stored row by row in one flat vector.
///
/// A cell is a byte: 0 for dead, 1 for alive. A grid has at least one row
/// and one column; a grid without cells cannot be built.
#[derive(Debug)]
pub struct Matrix {
    pub rows: usize,
    pub cols: usize,
    pub matrix: Vec<u8>,
}

impl View for Matrix {
    type V = Seq<Seq<u8>>;

    /// The grid as a sequence of rows, each a sequence of cells.
    open spec fn view(&self) -> Seq<Seq<u8>> {
        grid_of(self.rows as nat, self.cols as nat, self.matrix@)
    }
}

/// The grid of `rows` by `cols` cells that a flat row-major sequence of cells
/// stands for: the cell at `(r, c)` is the one at index `r * cols + c`.
#[verifier::opaque]
pub open spec fn grid_of(rows: nat, cols: nat, cells: Seq<u8>) -> Seq<Seq<u8>> {
    Seq::new(rows, |r: int| Seq::new(cols, |c: int| cells[r * cols + c]))
}

/// A grid has at least one row and one column, rows of one length, and
/// cells that are 0 or 1.
pub open spec fn is_grid(g: Seq<Seq<u8>>) -> bool {
    &&& g.len() > 0
    &&& g[0].len() > 0
    &&& forall|r: int| 0 <= r < g.len() ==> (#[trigger] g[r]).len() == g[0].len()
    &&& forall|r: int, c: int| 0 <= r < g.len() && 0 <= c < g[0].len() ==> #[trigger] g[r][c] <= 1
}

/// The grid of `rows` by `cols` dead cells.
pub open spec fn blank_grid(rows: nat, cols: nat) -> Seq<Seq<u8>> {
    Seq::new(rows, |r: int| Seq::new(cols, |c: int| 0u8))
}

/// What becomes of rows of cells handed in from outside: the grid that they
/// are, or why they are none.
///
/// Rows without a first cell, or none at all, or more cells than can be
/// addressed, are `InvalidDimensions`; rows of different lengths, or a cell
/// other than 0 and 1, are `MalformedInput`.
pub open spec fn nested_rows_result(rows: Seq<Seq<u8>>) -> Result<Seq<Seq<u8>>, GameError> {
    if rows.len() == 0 || rows[0].len() == 0 || rows.len() * rows[0].len() > usize::MAX {
        Err(GameError::InvalidDimensions)
    } else if !is_grid(rows) {
        Err(GameError::MalformedInput)
    } else {
        Ok(rows)
    }
}

/// What becomes of a JSON text: the grid that its rows are, or
/// `MalformedInput` where it does not hold an array of arrays of bytes, or
/// why its rows are no grid.
pub open spec fn json_grid_result(text: Seq<u8>) -> Result<Seq<Seq<u8>>, GameError> {
    match json_rows(text) {
        Some(rows) => nested_rows_result(rows),
        None => Err(GameError::MalformedInput),
    }
}

impl Matrix {
    /// The storage holds one cell, 0 or 1, for each coordinate.
    pub open spec fn wf(&self) -> bool {
        &&& self.rows > 0
        &&& self.cols > 0
        &&& self.matrix.len() == self.rows * self.cols
        &&& forall|i: int| 0 <= i < self.matrix.len() ==> self.matrix@[i] <= 1
    }

    /// The view of a well-formed matrix is a grid of its dimensions.
    pub proof fn lemma_view(&self)
        requires
            self.wf(),
        ensures
            is_grid(self@),
            self@.len() == self.rows,
            self@[0].len() == self.cols,
    {
        lemma_grid_cells(self.rows as nat, self.cols as nat, self.matrix@);
        assert forall|r: int, c: int|
            0 <= r < self.rows && 0 <= c < self.cols implies #[trigger] self@[r][c] <= 1 by {
            lemma_index_join(self.rows as int, self.cols as int, r, c);
        }
    }

    /// A grid of `rows` by `cols` dead cells.
    ///
    /// Fails with `InvalidDimensions` where either dimension is zero, or
    /// where the number of cells does not fit in a `usize`.
    pub fn new(rows: usize, cols: usize) -> (made: Result<Matrix, GameError>)
        ensures
            match made {
                Ok(m) => {
                    &&& rows > 0 && cols > 0 && rows * cols <= usize::MAX
                    &&& m.wf()
                    &&& m.rows == rows
                    &&& m.cols == cols
                    &&& m@ == blank_grid(rows as nat, cols as nat)
                },
                Err(e) => {
                    &&& e == GameError::InvalidDimensions
                    &&& (rows == 0 || cols == 0 || rows * cols > usize::MAX)
                },
            },
    {
        if rows == 0 || cols == 0 {
            return Err(GameError::InvalidDimensions);
        }
        match rows.checked_mul(cols) {
            None => Err(GameError::InvalidDimensions),
            Some(size) => {
                let m = Matrix { rows, cols, matrix: vec![0u8; size] };
                proof {
                    lemma_grid_cells(rows as nat, cols as nat, m.matrix@);
                    assert forall|r: int, c: int|
                        0 <= r < rows && 0 <= c < cols implies #[trigger] m@[r][c] == 0u8 by {
                        lemma_index_join(rows as int, cols as int, r, c);
                    }
                    assert(m@ =~~= blank_grid(rows as nat, cols as nat));
                }
                Ok(m)
            },
        }
    }

    /// The grid whose rows are the given rows of cells.
    ///
    /// Fails with `InvalidDimensions` where there is no row, the first row
    /// is empty, or the cells cannot be addressed; and otherwise with
    /// `MalformedInput` where a row differs in length from the first, or a
    /// cell is neither 0 nor 1.
    pub fn from_nested_rows(rows: Vec<Vec<u8>>) -> (made: Result<Matrix, GameError>)
        ensures
            match nested_rows_result(rows.deep_view()) {
                Ok(grid) => made matches Ok(m) && m.wf() && m@ == grid,
                Err(reason) => made matches Err(e) && e == reason,
            },
    {
        let ghost given = rows.deep_view();
        let n = rows.len();
        if n == 0 {
            return Err(GameError::InvalidDimensions);
        }
        let cols = rows[0].len();
        assert(given[0].len() == cols);
        if cols == 0 {
            return Err(GameError::InvalidDimensions);
        }
        let size = match n.checked_mul(cols) {
            Some(size) => size,
            None => {
                return Err(GameError::InvalidDimensions);
            },
        };
        let mut cells: Vec<u8> = Vec::new();
        assert(0 * cols == 0);
        for r in 0..n
            invariant
                n == rows.len(),
                given == rows.deep_view(),
                0 < cols == given[0].len(),
                n * cols == size,
                cells.len() == r * cols,
                forall|rr: int| 0 <= rr < r ==> (#[trigger] given[rr]).len() == cols,
                forall|rr: int, cc: int|
                    0 <= rr < r && 0 <= cc < cols ==> #[trigger] given[rr][cc] == cells@[rr * cols
                        + cc] && given[rr][cc] <= 1,
        {
            assert(given[r as int].len() == rows[r as int].len());
            if rows[r].len() != cols {
                return Err(GameError::MalformedInput);
            }
            proof {
                assert(r * cols + cols == (r + 1) * cols) by (nonlinear_arith);
                assert((r + 1) * cols <= n * cols) by (nonlinear_arith)
                    requires
                        r < n,
                        0 < cols,
                ;
            }
            for c in 0..cols
                invariant
                    n == rows.len(),
                    r < n,
                    given == rows.deep_view(),
                    0 < cols == given[0].len(),
                    rows[r as int].len() == cols,
                    n * cols == size,
                    r * cols + cols <= size,
                    cells.len() == r * cols + c,
                    forall|rr: int| 0 <= rr < r ==> (#[trigger] given[rr]).len() == cols,
                    forall|rr: int, cc: int|
                        0 <= rr < r && 0 <= cc < cols ==> #[trigger] given[rr][cc] == cells@[rr
                            * cols + cc] && given[rr][cc] <= 1,
                    forall|cc: int|
                        0 <= cc < c ==> #[trigger] given[r as int][cc] == cells@[r * cols + cc]
                            && given[r as int][cc] <= 1,
            {
                let cell = rows[r][c];
                assert(given[r as int][c as int] == cell);
                if cell > 1 {
                    return Err(GameError::MalformedInput);
                }
                let ghost before = cells@;
                cells.push(cell);
                proof {
                    assert forall|rr: int, cc: int|
                        0 <= rr < r && 0 <= cc < cols implies #[trigger] given[rr][cc] == cells@[rr
                            * cols + cc] && given[rr][cc] <= 1 by {
                        lemma_index_join(r as int, cols as int, rr, cc);
                        assert(cells@[rr * cols + cc] == before[rr * cols + cc]);
                    }
                    assert forall|cc: int| 0 <= cc < c + 1 implies #[trigger] given[r as int][cc]
                        == cells@[r * cols + cc] && given[r as int][cc] <= 1 by {
                        if cc < c {
                            assert(cells@[r * cols + cc] == before[r * cols + cc]);
                        }
                    }
                }
            }
        }
        let m = Matrix { rows: n, cols, matrix: cells };
        proof {
            lemma_grid_cells(n as nat, cols as nat, m.matrix@);
            assert forall|i: int| 0 <= i < m.matrix.len() implies m.matrix@[i] <= 1 by {
                lemma_index_split(n as int, cols as int, i);
                let rr = i / (cols as int);
                let cc = i % (cols as int);
                assert(given[rr][cc] == m.matrix@[rr * cols + cc]);
            }
            assert(m@ =~~= given);
            m.lemma_view();
        }
        Ok(m)
    }

    /// The grid that a JSON text holds as an array of rows, each an array
    /// of cells.
    ///
    /// Fails with `MalformedInput` where the text holds no such array, and
    /// otherwise as `from_nested_rows` does on the rows read.
    pub fn from_json(text: &[u8]) -> (made: Result<Matrix, GameError>)
        ensures
            match json_grid_result(text@) {
                Ok(grid) => made matches Ok(m) && m.wf() && m@ == grid,
                Err(reason) => made matches Err(e) && e == reason,
            },
    {
        match parse_rows(text) {
            Ok(rows) => Self::from_nested_rows(rows),
            Err(_) => Err(GameError::MalformedInput),
        }
    }

    /// A grid of `rows` by `cols` cells, each dead or alive by chance.
    ///
    /// Fails with `InvalidDimensions` where either dimension is zero, or
    /// where the number of cells does not fit in a `usize`.
    pub fn random(rows: usize, cols: usize) -> (made: Result<Matrix, GameError>)
        ensures
            match made {
                Ok(m) => {
                    &&& rows > 0 && cols > 0 && rows * cols <= usize::MAX
                    &&& m.wf()
                    &&& m.rows == rows
                    &&& m.cols == cols
                },
                Err(e) => {
                    &&& e == GameError::InvalidDimensions
                    &&& (rows == 0 || cols == 0 || rows * cols > usize::MAX)
                },
            },
    {
        let mut matrix = match Matrix::new(rows, cols) {
            Ok(matrix) => matrix,
            Err(e) => {
                return Err(e);
            },
        };
        let mut rng = thread_rng();

        for row in 0..rows
            invariant
                matrix.wf(),
                matrix.rows == rows,
                matrix.cols == cols,
        {
            for col in 0..cols
                invariant
                    row < rows,
                    matrix.wf(),
                    matrix.rows == rows,
                    matrix.cols == cols,
            {
                let val = gen_cell(&mut rng);
                matrix.set(row, col, val);
            }
        }

        Ok(matrix)
    }

    /// The number of cells.
    pub fn size(&self) -> (n: usize)
        requires
            self.wf(),
        ensures
            n == self.rows * self.cols,
    {
        self.rows * self.cols
    }

    /// The flat index of the cell at a row and a column.
    pub fn idx(&self, row: usize, col: usize) -> (i: usize)
        requires
            row * self.cols + col <= usize::MAX,
        ensures
            i == row * self.cols + col,
            row < self.rows && col < self.cols ==> i < self.rows * self.cols,
    {
        proof {
            assert(0 <= row * self.cols) by (nonlinear_arith);
            if row < self.rows && col < self.cols {
                lemma_index_join(self.rows as int, self.cols as int, row as int, col as int);
            }
        }
        row * self.cols + col
    }

    /// The row and the column of the cell at a flat index.
    pub fn inverse_idx(&self, idx: usize) -> (at: (usize, usize))
        requires
            self.cols > 0,
        ensures
            at.0 == idx / self.cols,
            at.1 == idx % self.cols,
            at.0 * self.cols + at.1 == idx,
            at.1 < self.cols,
            idx < self.rows * self.cols ==> at.0 < self.rows,
    {
        let row = idx / self.cols;
        let col = idx % self.cols;
        proof {
            vstd::arithmetic::div_mod::lemma_fundamental_div_mod(idx as int, self.cols as int);
            assert(self.cols * (idx / self.cols) == (idx / self.cols) * self.cols)
                by (nonlinear_arith);
            if idx < self.rows * self.cols {
                lemma_index_split(self.rows as int, self.cols as int, idx as int);
            }
        }
        (row, col)
    }

    /// The cell at a row and a column.
    pub fn get(&self, row: usize, col: usize) -> (cell: u8)
        requires
            self.wf(),
            row < self.rows,
            col < self.cols,
        ensures
            cell == self@[row as int][col as int],
            cell <= 1,
    {
        proof {
            lemma_index_join(self.rows as int, self.cols as int, row as int, col as int);
            lemma_grid_cells(self.rows as nat, self.cols as nat, self.matrix@);
        }
        let idx = self.idx(row, col);
        self.matrix[idx]
    }

    /// A reference through which the cell at a row and a column is read and
    /// written. The grid stays well formed where 0 or 1 is left in the cell.
    pub fn get_mut(&mut self, row: usize, col: usize) -> (cell: &mut u8)
        requires
            old(self).wf(),
            row < old(self).rows,
            col < old(self).cols,
        ensures
            *cell == old(self)@[row as int][col as int],
            *cell <= 1,
            final(self).rows == old(self).rows,
            final(self).cols == old(self).cols,
            final(self)@ == old(self)@.update(
                row as int,
                old(self)@[row as int].update(col as int, *final(cell)),
            ),
            final(self).wf() <==> *final(cell) <= 1,
    {
        proof {
            lemma_index_join(self.rows as int, self.cols as int, row as int, col as int);
            lemma_grid_cells(self.rows as nat, self.cols as nat, self.matrix@);
            assert forall|val: u8|
                #[trigger] grid_of(
                    self.rows as nat,
                    self.cols as nat,
                    self.matrix@.update(row * self.cols + col, val),
                ) == self@.update(row as int, self@[row as int].update(col as int, val)) by {
                lemma_grid_update(
                    self.rows as nat,
                    self.cols as nat,
                    self.matrix@,
                    row as int,
                    col as int,
                    val,
                );
            }
        }
        let idx = self.idx(row, col);
        &mut self.matrix[idx]
    }

    /// Writes a cell, 0 or 1, at a row and a column.
    pub fn set(&mut self, row: usize, col: usize, val: u8)
        requires
            old(self).wf(),
            row < old(self).rows,
            col < old(self).cols,
            val <= 1,
        ensures
            final(self).wf(),
            final(self).rows == old(self).rows,
            final(self).cols == old(self).cols,
            final(self)@ == old(self)@.update(
                row as int,
                old(self)@[row as int].update(col as int, val),
            ),
    {
        proof {
            lemma_index_join(self.rows as int, self.cols as int, row as int, col as int);
            lemma_grid_update(
                self.rows as nat,
                self.cols as nat,
                self.matrix@,
                row as int,
                col as int,
                val,
            );
        }
        let idx = self.idx(row, col);
        self.matrix[idx] = val;
    }

    /// The grid as text: a line for each row, and in it each cell as `.`
    /// where it is dead and as `x` where it is not, followed by a space.
    pub fn to_display_string(&self) -> (text: String)
        requires
            self.wf(),
        ensures
            text@ == grid_text(self@),
    {
        let mut text = String::new();
        proof {
            self.lemma_view();
            assert(self@.take(0) =~= Seq::<Seq<u8>>::empty());
        }
        for row in 0..self.rows
            invariant
                self.wf(),
                self@.len() == self.rows,
                is_grid(self@),
                self@[0].len() == self.cols,
                text@ == grid_text(self@.take(row as int)),
        {
            let ghost shown = text@;
            proof {
                assert(self@[row as int].take(0) =~= Seq::<u8>::empty());
            }
            for col in 0..self.cols
                invariant
                    self.wf(),
                    row < self.rows,
                    self@.len() == self.rows,
                    is_grid(self@),
                    self@[0].len() == self.cols,
                    text@ == shown + cells_text(self@[row as int].take(col as int)),
            {
                push_cell(&mut text, self.get(row, col));
                proof {
                    let cells = self@[row as int];
                    assert(cells.take(col + 1).drop_last() =~= cells.take(col as int));
                    assert(shown + cells_text(cells.take(col as int)) + seq![
                        glyph(cells[col as int]),
                        ' ',
                    ] =~= shown + cells_text(cells.take(col + 1)));
                }
            }
            text.append("\n");
            proof {
                reveal_strlit("\n");
                let cells = self@[row as int];
                assert(cells.take(self.cols as int) =~= cells);
                assert(self@.take(row + 1).drop_last() =~= self@.take(row as int));
                assert(shown + cells_text(cells) + seq!['\n'] =~= grid_text(self@.take(row + 1)));
            }
        }
        proof {
            assert(self@.take(self.rows as int) =~= self@);
        }
        text
    }
}

/// A flat index below `rows * cols` splits into a row and a column in range,
/// and `row * cols + col` gives the index back.
pub proof fn lemma_index_split(rows: int, cols: int, idx: int)
    requires
        0 < cols,
        0 <= idx < rows * cols,
    ensures
        0 <= idx / cols < rows,
        0 <= idx % cols < cols,
        (idx / cols) * cols + idx % cols == idx,
{
    vstd::arithmetic::div_mod::lemma_fundamental_div_mod(idx, cols);
    vstd::arithmetic::div_mod::lemma_mod_pos_bound(idx, cols);
    let q = idx / cols;
    assert(cols * q == q * cols) by (nonlinear_arith);
    assert(0 <= q < rows) by (nonlinear_arith)
        requires
            0 < cols,
            0 <= idx < rows * cols,
            idx == q * cols + idx % cols,
            0 <= idx % cols < cols,
    ;
}

/// A coordinate in range has a flat index below `rows * cols`, which splits
/// back into the same coordinate.
pub proof fn lemma_index_join(rows: int, cols: int, row: int, col: int)
    requires
        0 <= row < rows,
        0 <= col < cols,
    ensures
        0 <= row * cols + col < rows * cols,
        (row * cols + col) / cols == row,
        (row * cols + col) % cols == col,
{
    assert(0 <= row * cols + col < rows * cols) by (nonlinear_arith)
        requires
            0 <= row < rows,
            0 <= col < cols,
    ;
    vstd::arithmetic::div_mod::lemma_fundamental_div_mod_converse(row * cols + col, cols, row, col);
}

/// The shape of the grid that a flat sequence stands for, and where each of
/// its cells is stored.
pub proof fn lemma_grid_cells(rows: nat, cols: nat, cells: Seq<u8>)
    ensures
        grid_of(rows, cols, cells).len() == rows,
        forall|r: int| 0 <= r < rows ==> (#[trigger] grid_of(rows, cols, cells)[r]).len() == cols,
        forall|r: int, c: int|
            0 <= r < rows && 0 <= c < cols ==> #[trigger] grid_of(rows, cols, cells)[r][c]
                == cells[r * cols + c],
{
    reveal(grid_of);
}

/// Writing one cell of the flat storage writes the cell at that row and
/// column of the grid, and no other.
pub proof fn lemma_grid_update(rows: nat, cols: nat, cells: Seq<u8>, row: int, col: int, val: u8)
    requires
        cells.len() == rows * cols,
        0 <= row < rows,
        0 <= col < cols,
    ensures
        grid_of(rows, cols, cells.update(row * cols + col, val)) == grid_of(
            rows,
            cols,
            cells,
        ).update(row, grid_of(rows, cols, cells)[row].update(col, val)),
{
    let before = grid_of(rows, cols, cells);
    let after = grid_of(rows, cols, cells.update(row * cols + col, val));
    let expected = before.update(row, before[row].update(col, val));
    lemma_grid_cells(rows, cols, cells);
    lemma_grid_cells(rows, cols, cells.update(row * cols + col, val));
    lemma_index_join(rows as int, cols as int, row, col);
    assert forall|r: int, c: int| 0 <= r < rows && 0 <= c < cols implies #[trigger] after[r][c]
        == expected[r][c] by {
        lemma_index_join(rows as int, cols as int, r, c);
    }
    assert(after =~~= expected);
}

} // verus!
