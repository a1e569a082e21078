//! The terminal's character grid: positions in it, and the buffer of the
//! characters shown, with the scrolling and clearing that writing needs.
use vstd::prelude::*;

verus! {

/// Width of a character cell, in pixels.
pub const CHAR_WIDTH: usize = 10;

/// Height of a character cell, in pixels.
pub const CHAR_HEIGHT: usize = 20;

/// A row or column of the grid.
#[derive(Clone, Copy, Debug, PartialEq, Eq, Structural, PartialOrd, Ord, Default)]
pub struct TermPixel {
    pub inner: usize,
}

impl TermPixel {
    /// The pixel coordinate of this row or column, for cells `multiplier` wide.
    pub fn as_ipixel(&self, multiplier: usize) -> (r: i32)
        requires
            self.inner * multiplier <= usize::MAX,
        ensures
            r == #[verifier::truncate] ((self.inner * multiplier) as i32),
    {
        (self.inner * multiplier) as i32
    }

    /// The row or column a pixel coordinate falls in.
    pub fn from_ipixel(value: i32, multiplier: usize) -> (r: Self)
        requires
            multiplier > 0,
        ensures
            r.inner == (#[verifier::truncate] (value as usize)) / multiplier,
    {
        TermPixel { inner: value as usize / multiplier }
    }
}

/// A place in the grid, and the grid's bounds.
#[derive(Clone, Copy, Debug, PartialEq, Eq, Structural, Default)]
pub struct TermPosition {
    pub row: TermPixel,
    pub col: TermPixel,
    pub max_row: TermPixel,
    pub max_col: TermPixel,
}

/// Why a position could not be used as it was.
#[derive(Clone, Copy, Debug, PartialEq, Eq, Structural)]
pub enum PositionError {
    /// The position moved to the next line.
    NewLine,
    /// The content moved up a line.
    PrevLine,
    /// The position lies outside the grid.
    OutOfBounds(TermPosition),
}

impl TermPosition {
    /// Row `row`, column `col`, in a grid `xbounds` wide and `ybounds` high.
    pub fn new(row: usize, col: usize, xbounds: usize, ybounds: usize) -> (r: Self)
        ensures
            r.row.inner == row,
            r.col.inner == col,
            r.max_row.inner == ybounds,
            r.max_col.inner == xbounds,
    {
        TermPosition {
            row: TermPixel { inner: row },
            col: TermPixel { inner: col },
            max_row: TermPixel { inner: ybounds },
            max_col: TermPixel { inner: xbounds },
        }
    }

    /// Moves to the cell a drawn pixel `(dx, dy)` falls in: a column past
    /// the bounds starts the next row, and past the last row this fails
    /// with `NewLine` (having moved all the same).
    pub fn shift_checked(&mut self, dx: i32, dy: i32) -> (r: Result<(), PositionError>)
        requires
            (#[verifier::truncate] (dx as usize)) / CHAR_WIDTH + 1 <= usize::MAX,
        ensures
            ({
                let row = (#[verifier::truncate] (dx as usize)) / CHAR_WIDTH;
                let col = (#[verifier::truncate] (dy as usize)) / CHAR_HEIGHT;
                if col >= old(self).max_col.inner {
                    if row + 1 < old(self).max_row.inner {
                        final(self).row.inner == row + 1 && final(self).col.inner == 0 && r is Ok
                    } else {
                        final(self).row.inner == row && final(self).col.inner == 0 && r == Err::<(), PositionError>(PositionError::NewLine)
                    }
                } else {
                    final(self).row.inner == row && final(self).col.inner == col && r is Ok
                }
            }),
            final(self).max_row == old(self).max_row,
            final(self).max_col == old(self).max_col,
    {
        let mut row = TermPixel::from_ipixel(dx, CHAR_WIDTH);
        let mut col = TermPixel::from_ipixel(dy, CHAR_HEIGHT);
        if col.inner >= self.max_col.inner {
            col = TermPixel { inner: 0 };
            if row.inner + 1 < self.max_row.inner {
                row = TermPixel { inner: row.inner + 1 };
            } else {
                self.row = row;
                self.col = col;
                return Err(PositionError::NewLine);
            }
        }
        self.row = row;
        self.col = col;
        Ok(())
    }
}

/// An empty row of `n` cells.
pub open spec fn empty_row(n: nat) -> Seq<Option<char>> {
    Seq::new(n, |i: int| None::<char>)
}

/// The grid moved up by one row: the top row goes, an empty row comes in
/// at the bottom.
pub open spec fn shifted_up(g: Seq<Seq<Option<char>>>, cols: nat) -> Seq<Seq<Option<char>>> {
    g.drop_first().push(empty_row(cols))
}

/// The grid moved up by `k` rows.
pub open spec fn shifted_up_n(g: Seq<Seq<Option<char>>>, cols: nat, k: nat) -> Seq<Seq<Option<char>>>
    decreases k,
{
    if k == 0 {
        g
    } else {
        shifted_up(shifted_up_n(g, cols, (k - 1) as nat), cols)
    }
}

/// The first empty cell of a row, or the row's length.
pub open spec fn filled_len(row: Seq<Option<char>>) -> int
    decreases row.len(),
{
    if row.len() == 0 {
        0
    } else if row[0] is None {
        0
    } else {
        1 + filled_len(row.drop_first())
    }
}

/// The cells of rows held as vectors.
pub open spec fn rows_view(v: Seq<Vec<Option<char>>>) -> Seq<Seq<Option<char>>> {
    v.map_values(|r: Vec<Option<char>>| r@)
}

/// The characters shown in the terminal, row by row.
pub struct TermCharBuffer {
    inner: Vec<Vec<Option<char>>>,
    cols: usize,
    rows: usize,
}

impl TermCharBuffer {
    pub closed spec fn view(&self) -> Seq<Seq<Option<char>>> {
        rows_view(self.inner@)
    }

    pub closed spec fn cols(&self) -> nat {
        self.cols as nat
    }

    pub closed spec fn rows(&self) -> nat {
        self.rows as nat
    }

    /// The grid has its size: `rows` rows of `cols` cells, at least one row.
    pub open spec fn wf(&self) -> bool {
        &&& self.rows() >= 1
        &&& self.view().len() == self.rows()
        &&& forall|r: int| 0 <= r < self.rows() ==> (#[trigger] self.view()[r]).len() == self.cols()
    }

    fn empty_row_vec(cols: usize) -> (r: Vec<Option<char>>)
        ensures
            r@ == empty_row(cols as nat),
    {
        let mut v: Vec<Option<char>> = Vec::new();
        let mut i: usize = 0;
        while i < cols
            invariant
                i <= cols,
                v@ == empty_row(i as nat),
            decreases cols - i,
        {
            v.push(None);
            proof {
                assert(v@ =~= empty_row((i + 1) as nat));
            }
            i = i + 1;
        }
        v
    }

    /// An empty grid `cols` wide and `rows` high.
    pub fn new(cols: usize, rows: usize) -> (r: Self)
        requires
            rows >= 1,
        ensures
            r.wf(),
            r.cols() == cols,
            r.rows() == rows,
            r.view() == Seq::new(rows as nat, |i: int| empty_row(cols as nat)),
    {
        let mut inner: Vec<Vec<Option<char>>> = Vec::new();
        let mut i: usize = 0;
        while i < rows
            invariant
                i <= rows,
                inner@.len() == i,
                rows_view(inner@) == Seq::new(i as nat, |k: int| empty_row(cols as nat)),
            decreases rows - i,
        {
            let ghost prev = inner@;
            let e = Self::empty_row_vec(cols);
            inner.push(e);
            proof {
                assert forall|k: int| 0 <= k < i + 1 implies #[trigger] rows_view(inner@)[k] == empty_row(cols as nat) by {
                    if k < i {
                        assert(inner@[k] == prev[k]);
                        assert(rows_view(prev)[k] == empty_row(cols as nat));
                    }
                }
                assert(rows_view(inner@) =~= Seq::new((i + 1) as nat, |k: int| empty_row(cols as nat)));
            }
            i = i + 1;
        }
        TermCharBuffer { inner, cols, rows }
    }

    /// The cell at `index`; outside the grid this fails with `OutOfBounds`.
    pub fn get(&self, index: &TermPosition) -> (r: Result<Option<char>, PositionError>)
        requires
            self.wf(),
        ensures
            if index.row.inner < self.rows() && index.col.inner < self.cols() {
                r == Ok::<Option<char>, PositionError>(self.view()[index.row.inner as int][index.col.inner as int])
            } else {
                r == Err::<Option<char>, PositionError>(PositionError::OutOfBounds(*index))
            },
    {
        let x = index.col.inner;
        let y = index.row.inner;
        if y >= self.rows || x >= self.cols {
            return Err(PositionError::OutOfBounds(*index));
        }
        proof {
            assert(self.view()[y as int] == self.inner@[y as int]@);
        }
        Ok(self.inner[y][x])
    }

    /// Writes `ch` into the cell at `cursor`; outside the grid this fails
    /// with `OutOfBounds`.
    pub fn push_dumb(&mut self, ch: char, cursor: &TermPosition) -> (r: Result<(), PositionError>)
        requires
            old(self).wf(),
        ensures
            final(self).wf(),
            final(self).cols() == old(self).cols(),
            final(self).rows() == old(self).rows(),
            if cursor.row.inner < old(self).rows() && cursor.col.inner < old(self).cols() {
                r is Ok && final(self).view() == old(self).view().update(
                    cursor.row.inner as int,
                    old(self).view()[cursor.row.inner as int].update(cursor.col.inner as int, Some(ch)),
                )
            } else {
                r == Err::<(), PositionError>(PositionError::OutOfBounds(*cursor)) && final(self).view() == old(self).view()
            },
    {
        let x = cursor.col.inner;
        let y = cursor.row.inner;
        if y >= self.rows || x >= self.cols {
            return Err(PositionError::OutOfBounds(*cursor));
        }
        self.set_cell(y, x, Some(ch));
        Ok(())
    }

    fn set_cell(&mut self, y: usize, x: usize, v: Option<char>)
        requires
            old(self).wf(),
            y < old(self).rows(),
            x < old(self).cols(),
        ensures
            final(self).wf(),
            final(self).cols() == old(self).cols(),
            final(self).rows() == old(self).rows(),
            final(self).view() == old(self).view().update(y as int, old(self).view()[y as int].update(x as int, v)),
    {
        let ghost before = self.view();
        let mut row: Vec<Option<char>> = self.inner[y].clone();
        proof {
            assert(row@ == before[y as int]);
        }
        row.set(x, v);
        self.inner.set(y, row);
        proof {
            let t = before.update(y as int, before[y as int].update(x as int, v));
            assert(self.view() =~= t);
            assert forall|r: int| 0 <= r < self.rows() implies (#[trigger] self.view()[r]).len() == self.cols() by {
                if r != y {
                    assert(self.view()[r] == before[r]);
                }
            }
        }
    }

    /// Moves every row up by one; the bottom row becomes empty.
    pub fn shift_up(&mut self)
        requires
            old(self).wf(),
        ensures
            final(self).wf(),
            final(self).cols() == old(self).cols(),
            final(self).rows() == old(self).rows(),
            final(self).view() == shifted_up(old(self).view(), old(self).cols()),
    {
        let ghost before = self.view();
        let n = self.rows;
        let mut row: usize = 0;
        while row < n - 1
            invariant
                n == self.rows,
                n >= 1,
                self.cols == old(self).cols,
                self.rows == old(self).rows,
                before == old(self).view(),
                before.len() == n,
                self.inner@.len() == n,
                row <= n - 1,
                forall|r: int| 0 <= r < row ==> #[trigger] self.view()[r] == before[r + 1],
                forall|r: int| row <= r < n ==> #[trigger] self.view()[r] == before[r],
                forall|r: int| 0 <= r < n ==> (#[trigger] before[r]).len() == self.cols,
            decreases n - 1 - row,
        {
            let ghost v0 = self.view();
            let next = self.inner[row + 1].clone();
            proof {
                assert(next@ == v0[row + 1]);
            }
            self.inner.set(row, next);
            proof {
                assert(self.view() =~= v0.update(row as int, v0[row + 1]));
            }
            row = row + 1;
        }
        let ghost v1 = self.view();
        let empty = Self::empty_row_vec(self.cols);
        self.inner.set(n - 1, empty);
        proof {
            assert(self.view() =~= v1.update(n - 1, empty_row(self.cols as nat)));
            let t = shifted_up(before, self.cols as nat);
            assert(self.view() =~= t) by {
                assert forall|r: int| 0 <= r < t.len() implies #[trigger] self.view()[r] == t[r] by {
                    if r < n - 1 {
                        assert(self.view()[r] == before[r + 1]);
                    }
                }
            }
        }
    }

    /// Moves every row down by one; the top row becomes empty.
    pub fn shift_down(&mut self)
        requires
            old(self).wf(),
        ensures
            final(self).wf(),
            final(self).cols() == old(self).cols(),
            final(self).rows() == old(self).rows(),
            final(self).view() == seq![empty_row(old(self).cols())] + old(self).view().drop_last(),
    {
        let ghost before = self.view();
        let n = self.rows;
        let mut row: usize = n - 1;
        while row > 0
            invariant
                n == self.rows,
                n >= 1,
                self.cols == old(self).cols,
                self.rows == old(self).rows,
                before == old(self).view(),
                before.len() == n,
                self.inner@.len() == n,
                row <= n - 1,
                forall|r: int| row < r < n ==> #[trigger] self.view()[r] == before[r - 1],
                forall|r: int| 0 <= r <= row ==> #[trigger] self.view()[r] == before[r],
                forall|r: int| 0 <= r < n ==> (#[trigger] before[r]).len() == self.cols,
            decreases row,
        {
            let ghost v0 = self.view();
            let prev = self.inner[row - 1].clone();
            proof {
                assert(prev@ == v0[row - 1]);
            }
            self.inner.set(row, prev);
            proof {
                assert(self.view() =~= v0.update(row as int, v0[row - 1]));
            }
            row = row - 1;
        }
        let ghost v1 = self.view();
        let empty = Self::empty_row_vec(self.cols);
        self.inner.set(0, empty);
        proof {
            assert(self.view() =~= v1.update(0, empty_row(self.cols as nat)));
            let t = seq![empty_row(self.cols as nat)] + before.drop_last();
            assert(self.view() =~= t) by {
                assert forall|r: int| 0 <= r < t.len() implies #[trigger] self.view()[r] == t[r] by {
                    if r > 0 {
                        assert(self.view()[r] == before[r - 1]);
                    }
                }
            }
        }
    }

    /// The filled cells at the start of `row`: up to its first empty cell.
    pub fn get_range_from_row(&self, row: &TermPixel) -> (r: core::ops::Range<usize>)
        requires
            self.wf(),
            row.inner < self.rows(),
        ensures
            r.start == 0,
            r.end == filled_len(self.view()[row.inner as int]),
    {
        let ghost cells = self.view()[row.inner as int];
        let line = &self.inner[row.inner];
        proof {
            assert(line@ == cells);
        }
        let mut i: usize = 0;
        proof {
            assert(cells.skip(0) =~= cells);
        }
        while i < line.len()
            invariant
                cells == self.view()[row.inner as int],
                line@ == cells,
                i <= cells.len(),
                forall|j: int| 0 <= j < i ==> #[trigger] cells[j] is Some,
                filled_len(cells) == i + filled_len(cells.skip(i as int)),
            decreases cells.len() - i,
        {
            if line[i].is_none() {
                proof {
                    assert(cells.skip(i as int)[0] == cells[i as int]);
                }
                return 0..i;
            }
            proof {
                assert(cells.skip(i as int).drop_first() =~= cells.skip(i + 1));
            }
            i = i + 1;
        }
        0..i
    }

    /// Empties every cell.
    pub fn clear(&mut self)
        requires
            old(self).wf(),
        ensures
            final(self).wf(),
            final(self).cols() == old(self).cols(),
            final(self).rows() == old(self).rows(),
            final(self).view() == Seq::new(old(self).rows(), |i: int| empty_row(old(self).cols())),
    {
        *self = Self::new(self.cols, self.rows);
    }

    /// Empties the row `line`.
    pub fn clear_line(&mut self, line: &TermPixel)
        requires
            old(self).wf(),
            line.inner < old(self).rows(),
        ensures
            final(self).wf(),
            final(self).cols() == old(self).cols(),
            final(self).rows() == old(self).rows(),
            final(self).view() == old(self).view().update(line.inner as int, empty_row(old(self).cols())),
    {
        let ghost before = self.view();
        let empty = Self::empty_row_vec(self.cols);
        self.inner.set(line.inner, empty);
        proof {
            assert(self.view() =~= before.update(line.inner as int, empty_row(self.cols as nat)));
            assert forall|r: int| 0 <= r < self.rows() implies (#[trigger] self.view()[r]).len() == self.cols() by {
                if r != line.inner {
                    assert(self.view()[r] == before[r]);
                }
            }
        }
    }

    /// Empties the column `col` in every row.
    pub fn clear_col(&mut self, col: &TermPixel)
        requires
            old(self).wf(),
            col.inner < old(self).cols(),
        ensures
            final(self).wf(),
            final(self).cols() == old(self).cols(),
            final(self).rows() == old(self).rows(),
            final(self).view() == old(self).view().map_values(|r: Seq<Option<char>>| r.update(col.inner as int, None)),
    {
        let ghost before = self.view();
        let n = self.rows;
        let mut r: usize = 0;
        while r < n
            invariant
                n == self.rows(),
                self.wf(),
                self.cols == old(self).cols,
                self.rows == old(self).rows,
                col.inner < self.cols,
                before == old(self).view(),
                r <= n,
                forall|k: int| 0 <= k < r ==> #[trigger] self.view()[k] == before[k].update(col.inner as int, None),
                forall|k: int| r <= k < n ==> #[trigger] self.view()[k] == before[k],
            decreases n - r,
        {
            self.set_cell(r, col.inner, None);
            r = r + 1;
        }
        proof {
            assert(self.view() =~= before.map_values(|row: Seq<Option<char>>| row.update(col.inner as int, None)));
        }
    }

    /// Whether no cell holds a character.
    pub fn is_empty(&self) -> (r: bool)
        requires
            self.wf(),
        ensures
            r == (forall|y: int, x: int| 0 <= y < self.rows() && 0 <= x < self.cols() ==> #[trigger] self.view()[y][x] is None),
    {
        let n = self.rows;
        let m = self.cols;
        let mut y: usize = 0;
        while y < n
            invariant
                self.wf(),
                n == self.rows(),
                m == self.cols(),
                y <= n,
                forall|yy: int, x: int| 0 <= yy < y && 0 <= x < m ==> #[trigger] self.view()[yy][x] is None,
            decreases n - y,
        {
            let line = &self.inner[y];
            proof {
                assert(line@ == self.view()[y as int]);
            }
            let mut x: usize = 0;
            while x < m
                invariant
                    self.wf(),
                    n == self.rows(),
                    m == self.cols(),
                    y < n,
                    line@ == self.view()[y as int],
                    line@.len() == m,
                    x <= m,
                    forall|xx: int| 0 <= xx < x ==> #[trigger] line@[xx] is None,
                decreases m - x,
            {
                if line[x].is_some() {
                    proof {
                        assert(self.view()[y as int][x as int] is Some);
                    }
                    return false;
                }
                x = x + 1;
            }
            proof {
                assert forall|yy: int, xx: int| 0 <= yy < y + 1 && 0 <= xx < m implies #[trigger] self.view()[yy][xx] is None by {
                    if yy == y {
                        assert(line@[xx] is None);
                    }
                }
            }
            y = y + 1;
        }
        true
    }

    /// Writes `ch` at the cursor, making room first: past the last column
    /// the cursor starts the next row (`NewLine`), and below the last row the
    /// grid scrolls up until the cursor's row is in it (`PrevLine`).
    pub fn force_push_smart(&mut self, ch: char, cursor: &mut TermPosition) -> (r: Result<(), PositionError>)
        requires
            old(self).wf(),
            old(self).cols() >= 1,
            old(cursor).col.inner >= old(self).cols() ==> old(cursor).row.inner < usize::MAX,
        ensures
            final(self).wf(),
            final(self).cols() == old(self).cols(),
            final(self).rows() == old(self).rows(),
            ({
                let wrapped = old(cursor).col.inner >= old(self).cols();
                let row1 = if wrapped { old(cursor).row.inner + 1 } else { old(cursor).row.inner as int };
                let col1 = if wrapped { 0 } else { old(cursor).col.inner as int };
                let scrolled = row1 >= old(self).rows();
                let k = if scrolled { row1 - old(self).rows() + 1 } else { 0 };
                let row2 = row1 - k;
                let g = shifted_up_n(old(self).view(), old(self).cols(), k as nat);
                &&& final(cursor).row.inner == row2
                &&& final(cursor).col.inner == col1
                &&& final(cursor).max_row == old(cursor).max_row
                &&& final(cursor).max_col == old(cursor).max_col
                &&& final(self).view() == g.update(row2, g[row2].update(col1, Some(ch)))
                &&& r == (if scrolled {
                    Err::<(), PositionError>(PositionError::PrevLine)
                } else if wrapped {
                    Err::<(), PositionError>(PositionError::NewLine)
                } else {
                    Ok::<(), PositionError>(())
                })
            }),
    {
        let mut should_redraw = false;
        let mut should_redraw_all = false;
        if cursor.col.inner >= self.cols {
            cursor.col.inner = 0;
            cursor.row.inner = cursor.row.inner + 1;
            should_redraw = true;
        }
        let ghost row1 = cursor.row.inner as int;
        let ghost col1 = cursor.col.inner as int;
        let ghost g0 = self.view();
        let ghost mut k: nat = 0;
        while cursor.row.inner >= self.rows
            invariant
                self.wf(),
                self.cols == old(self).cols,
                self.rows == old(self).rows,
                g0 == old(self).view(),
                should_redraw == (old(cursor).col.inner >= old(self).cols()),
                row1 == (if should_redraw { old(cursor).row.inner + 1 } else { old(cursor).row.inner as int }),
                col1 == (if should_redraw { 0 } else { old(cursor).col.inner as int }),
                cursor.col.inner == col1,
                cursor.col.inner < self.cols,
                cursor.max_row == old(cursor).max_row,
                cursor.max_col == old(cursor).max_col,
                cursor.row.inner == row1 - k,
                k == 0 || row1 - k + 1 >= self.rows,
                self.view() == shifted_up_n(g0, self.cols as nat, k),
                should_redraw_all == (k > 0),
            decreases cursor.row.inner,
        {
            self.shift_up();
            cursor.row.inner = cursor.row.inner - 1;
            should_redraw_all = true;
            proof {
                k = k + 1;
            }
        }
        let y = cursor.row.inner;
        let x = cursor.col.inner;
        self.set_cell(y, x, Some(ch));
        if should_redraw && !should_redraw_all {
            Err(PositionError::NewLine)
        } else if should_redraw_all {
            Err(PositionError::PrevLine)
        } else {
            Ok(())
        }
    }
}

/// What the screen needs drawn after the text changed.
#[derive(Clone, Copy, Debug, PartialEq, Eq, Structural)]
pub enum TermDraw {
    /// Draw the character at this row and column.
    Char(char, usize, usize),
    /// Redraw the row from its first column up to, not including, this one.
    Row(usize, usize),
    /// Redraw the whole grid.
    All,
    /// Blank the row.
    BlankRow(usize),
    /// The grid scrolled up a row: redraw it.
    ScrollUp,
    /// Blank the cell at this row and column.
    BlankCell(usize, usize),
}

/// A terminal's text, as plain values: the grid and the cursor's row and
/// column.
pub type TermText = (Seq<Seq<Option<char>>>, int, int);

/// Writing a printable character: it goes where `force_push_smart` puts it,
/// and the column moves on by one. A scroll redraws everything, a wrap the
/// new row up to its first empty cell, otherwise just the character.
pub open spec fn put_spec(t: TermText, cols: nat, rows: nat, c: char) -> (TermText, TermDraw) {
    let (g, row, col) = t;
    let wrapped = col >= cols;
    let row1 = if wrapped { row + 1 } else { row };
    let col1 = if wrapped { 0 } else { col };
    let scrolled = row1 >= rows;
    let k = if scrolled { row1 - rows + 1 } else { 0 };
    let row2 = row1 - k;
    let g1 = shifted_up_n(g, cols, k as nat);
    let g2 = g1.update(row2, g1[row2].update(col1, Some(c)));
    let draw = if scrolled {
        TermDraw::All
    } else if wrapped {
        TermDraw::Row(row2 as usize, filled_len(g2[row2]) as usize)
    } else {
        TermDraw::Char(c, row2 as usize, col1 as usize)
    };
    ((g2, row2, col1 + 1), draw)
}

/// A new line: on the last row the grid scrolls up; otherwise the cursor
/// goes down a row. Either way it goes to the first column.
pub open spec fn newline_spec(t: TermText, cols: nat, rows: nat) -> (TermText, Seq<TermDraw>) {
    let (g, row, col) = t;
    if row >= rows - 1 {
        ((shifted_up(g, cols), row, 0), seq![TermDraw::ScrollUp])
    } else {
        ((g, row + 1, 0), Seq::empty())
    }
}

/// Writing one character: a new line; a tab as three spaces; a carriage
/// return blanks the cursor's row (the cursor stays); anything else is put
/// at the cursor.
pub open spec fn write_char_spec(t: TermText, cols: nat, rows: nat, c: char) -> (TermText, Seq<TermDraw>) {
    if c == '\n' {
        newline_spec(t, cols, rows)
    } else if c == '\t' {
        let (t1, d1) = put_spec(t, cols, rows, ' ');
        let (t2, d2) = put_spec(t1, cols, rows, ' ');
        let (t3, d3) = put_spec(t2, cols, rows, ' ');
        (t3, seq![d1, d2, d3])
    } else if c == '\r' {
        ((t.0.update(t.1, empty_row(cols)), t.1, t.2), seq![TermDraw::BlankRow(t.1 as usize)])
    } else {
        let (t1, d) = put_spec(t, cols, rows, c);
        (t1, seq![d])
    }
}

/// Writing the characters `cs` in turn.
pub open spec fn write_all_spec(t: TermText, cols: nat, rows: nat, cs: Seq<char>) -> (TermText, Seq<TermDraw>)
    decreases cs.len(),
{
    if cs.len() == 0 {
        (t, Seq::empty())
    } else {
        let (t1, d1) = write_all_spec(t, cols, rows, cs.drop_last());
        let (t2, d2) = write_char_spec(t1, cols, rows, cs.last());
        (t2, d1 + d2)
    }
}

/// Where a backspace takes the cursor: back one cell at a time (from the
/// start of a row to the end of the row above) until a filled cell, or the
/// top-left corner.
pub open spec fn back_spec(g: Seq<Seq<Option<char>>>, cols: nat, row: nat, col: nat) -> (nat, nat)
    decreases row, col,
{
    if col > 0 {
        let c = (col - 1) as nat;
        if g[row as int][c as int] is Some {
            (row, c)
        } else {
            back_spec(g, cols, row, c)
        }
    } else if row > 0 && cols > 0 {
        let r = (row - 1) as nat;
        let c = (cols - 1) as nat;
        if g[r as int][c as int] is Some {
            (r, c)
        } else {
            back_spec(g, cols, r, c)
        }
    } else {
        (row, col)
    }
}

/// A terminal's text: the grid of characters and the cursor.
pub struct TermWriter {
    buffer: TermCharBuffer,
    cursor: TermPosition,
}

impl TermWriter {
    pub closed spec fn view(&self) -> TermText {
        (self.buffer.view(), self.cursor.row.inner as int, self.cursor.col.inner as int)
    }

    pub closed spec fn cols(&self) -> nat {
        self.buffer.cols()
    }

    pub closed spec fn rows(&self) -> nat {
        self.buffer.rows()
    }

    /// The grid has its size, the cursor lies on a row of it, at most one
    /// column past its last, and knows the grid's bounds.
    pub closed spec fn wf(&self) -> bool {
        &&& self.buffer.wf()
        &&& self.buffer.cols() >= 1
        &&& self.cursor.row.inner < self.buffer.rows()
        &&& self.cursor.col.inner <= self.buffer.cols()
        &&& self.cursor.max_row.inner == self.buffer.rows()
        &&& self.cursor.max_col.inner == self.buffer.cols()
    }

    /// An empty grid `cols` wide and `rows` high, the cursor at the top left.
    pub fn new(cols: usize, rows: usize) -> (r: Self)
        requires
            cols >= 1,
            rows >= 1,
        ensures
            r.wf(),
            r.cols() == cols,
            r.rows() == rows,
            r.view() == (Seq::new(rows as nat, |i: int| empty_row(cols as nat)), 0int, 0int),
    {
        TermWriter { buffer: TermCharBuffer::new(cols, rows), cursor: TermPosition::new(0, 0, cols, rows) }
    }

    /// The grid.
    pub fn buffer(&self) -> (r: &TermCharBuffer)
        ensures
            r.view() == self.view().0,
    {
        &self.buffer
    }

    /// The cursor.
    pub fn cursor(&self) -> (r: TermPosition)
        ensures
            r.row.inner == self.view().1,
            r.col.inner == self.view().2,
    {
        self.cursor
    }

    /// Moves to a new line; see `newline_spec`.
    pub fn newline(&mut self, out: &mut Vec<TermDraw>)
        requires
            old(self).wf(),
        ensures
            final(self).wf(),
            final(self).cols() == old(self).cols(),
            final(self).rows() == old(self).rows(),
            final(self).view() == newline_spec(old(self).view(), old(self).cols(), old(self).rows()).0,
            final(out)@ == old(out)@ + newline_spec(old(self).view(), old(self).cols(), old(self).rows()).1,
    {
        if self.cursor.row.inner >= self.buffer.rows - 1 {
            self.buffer.shift_up();
            out.push(TermDraw::ScrollUp);
        } else {
            self.cursor.row.inner = self.cursor.row.inner + 1;
            proof {
                assert(out@ + Seq::<TermDraw>::empty() =~= out@);
            }
        }
        self.cursor.col = TermPixel { inner: 0 };
    }

    /// Moves every row of text down by one (the top row empties) and has
    /// the whole grid redrawn; the cursor stays.
    pub fn prevline(&mut self, out: &mut Vec<TermDraw>)
        requires
            old(self).wf(),
        ensures
            final(self).wf(),
            final(self).cols() == old(self).cols(),
            final(self).rows() == old(self).rows(),
            final(self).view() == (
                seq![empty_row(old(self).cols())] + old(self).view().0.drop_last(),
                old(self).view().1,
                old(self).view().2,
            ),
            final(out)@ == old(out)@.push(TermDraw::All),
    {
        self.buffer.shift_down();
        out.push(TermDraw::All);
    }

    /// Puts a printable character at the cursor; see `put_spec`.
    fn put(&mut self, c: char, out: &mut Vec<TermDraw>)
        requires
            old(self).wf(),
        ensures
            final(self).wf(),
            final(self).cols() == old(self).cols(),
            final(self).rows() == old(self).rows(),
            final(self).view() == put_spec(old(self).view(), old(self).cols(), old(self).rows(), c).0,
            final(out)@ == old(out)@.push(put_spec(old(self).view(), old(self).cols(), old(self).rows(), c).1),
    {
        let r = self.buffer.force_push_smart(c, &mut self.cursor);
        match r {
            Err(PositionError::NewLine) => {
                let row = self.cursor.row;
                let range = self.buffer.get_range_from_row(&row);
                out.push(TermDraw::Row(row.inner, range.end));
            },
            Err(PositionError::PrevLine) => {
                out.push(TermDraw::All);
            },
            _ => {
                out.push(TermDraw::Char(c, self.cursor.row.inner, self.cursor.col.inner));
            },
        }
        self.cursor.col.inner = self.cursor.col.inner + 1;
    }

    /// Blanks the cursor's row; the cursor stays.
    pub fn line_clear(&mut self, out: &mut Vec<TermDraw>)
        requires
            old(self).wf(),
        ensures
            final(self).wf(),
            final(self).cols() == old(self).cols(),
            final(self).rows() == old(self).rows(),
            final(self).view() == (old(self).view().0.update(old(self).view().1, empty_row(old(self).cols())), old(self).view().1, old(self).view().2),
            final(out)@ == old(out)@.push(TermDraw::BlankRow(old(self).view().1 as usize)),
    {
        let row = self.cursor.row;
        self.buffer.clear_line(&row);
        out.push(TermDraw::BlankRow(row.inner));
    }

    /// Writes one character; see `write_char_spec`.
    pub fn write_char(&mut self, c: char, out: &mut Vec<TermDraw>)
        requires
            old(self).wf(),
        ensures
            final(self).wf(),
            final(self).cols() == old(self).cols(),
            final(self).rows() == old(self).rows(),
            final(self).view() == write_char_spec(old(self).view(), old(self).cols(), old(self).rows(), c).0,
            final(out)@ == old(out)@ + write_char_spec(old(self).view(), old(self).cols(), old(self).rows(), c).1,
    {
        let ghost o0 = out@;
        if c == '\n' {
            self.newline(out);
        } else if c == '\t' {
            self.put(' ', out);
            self.put(' ', out);
            self.put(' ', out);
            proof {
                let (t1, d1) = put_spec(old(self).view(), old(self).cols(), old(self).rows(), ' ');
                let (t2, d2) = put_spec(t1, old(self).cols(), old(self).rows(), ' ');
                let (t3, d3) = put_spec(t2, old(self).cols(), old(self).rows(), ' ');
                assert(out@ =~= o0 + seq![d1, d2, d3]);
            }
        } else if c == '\r' {
            self.line_clear(out);
            proof {
                assert(out@ =~= o0 + seq![TermDraw::BlankRow(old(self).view().1 as usize)]);
            }
        } else {
            self.put(c, out);
            proof {
                let (t1, d) = put_spec(old(self).view(), old(self).cols(), old(self).rows(), c);
                assert(out@ =~= o0 + seq![d]);
            }
        }
    }

    /// Writes the text `s`, character by character; the drawings it needs
    /// are returned in order.
    pub fn write_str(&mut self, s: &str) -> (r: Vec<TermDraw>)
        requires
            old(self).wf(),
        ensures
            final(self).wf(),
            final(self).cols() == old(self).cols(),
            final(self).rows() == old(self).rows(),
            (final(self).view(), r@) == write_all_spec(old(self).view(), old(self).cols(), old(self).rows(), s@),
    {
        let cs = crate::chars::chars_of(s);
        let mut out: Vec<TermDraw> = Vec::new();
        let mut i: usize = 0;
        proof {
            assert(cs@.take(0) =~= Seq::<char>::empty());
        }
        while i < cs.len()
            invariant
                self.wf(),
                self.cols() == old(self).cols(),
                self.rows() == old(self).rows(),
                cs@ == s@,
                i <= cs@.len(),
                (self.view(), out@) == write_all_spec(old(self).view(), old(self).cols(), old(self).rows(), cs@.take(i as int)),
            decreases cs@.len() - i,
        {
            self.write_char(cs[i], &mut out);
            proof {
                assert(cs@.take(i + 1).drop_last() =~= cs@.take(i as int));
                assert(cs@.take(i + 1).last() == cs@[i as int]);
            }
            i = i + 1;
        }
        proof {
            assert(cs@.take(cs@.len() as int) =~= s@);
        }
        out
    }

    /// A backspace: the cursor goes back (see `back_spec`) and the cell it
    /// reaches is blanked on screen; the grid keeps its character.
    pub fn clear_one(&mut self) -> (r: TermDraw)
        requires
            old(self).wf(),
        ensures
            final(self).wf(),
            final(self).cols() == old(self).cols(),
            final(self).rows() == old(self).rows(),
            final(self).view().0 == old(self).view().0,
            final(self).view().1 == back_spec(old(self).view().0, old(self).cols(), old(self).view().1 as nat, old(self).view().2 as nat).0,
            final(self).view().2 == back_spec(old(self).view().0, old(self).cols(), old(self).view().1 as nat, old(self).view().2 as nat).1,
            r == TermDraw::BlankCell(final(self).view().1 as usize, final(self).view().2 as usize),
    {
        let ghost g = self.buffer.view();
        let ghost cols = self.buffer.cols();
        let ghost target = back_spec(g, cols, self.cursor.row.inner as nat, self.cursor.col.inner as nat);
        loop
            invariant_except_break
                back_spec(g, cols, self.cursor.row.inner as nat, self.cursor.col.inner as nat) == target,
            invariant
                self.wf(),
                self.buffer.view() == g,
                self.buffer.cols() == cols,
                self.buffer.rows() == old(self).buffer.rows(),
            ensures
                (self.cursor.row.inner as nat, self.cursor.col.inner as nat) == target,
            decreases self.cursor.row.inner, self.cursor.col.inner,
        {
            let ghost (r0, c0) = (self.cursor.row.inner as nat, self.cursor.col.inner as nat);
            if self.cursor.col.inner > 0 {
                self.cursor.col.inner = self.cursor.col.inner - 1;
            } else if self.cursor.row.inner > 0 {
                self.cursor.row.inner = self.cursor.row.inner - 1;
                self.cursor.col.inner = self.buffer.cols - 1;
            } else {
                break;
            }
            let cell = self.buffer.get(&self.cursor);
            proof {
                assert(self.buffer.view()[self.cursor.row.inner as int].len() == cols);
            }
            match cell {
                Ok(Some(_)) => {
                    break;
                },
                _ => {},
            }
        }
        TermDraw::BlankCell(self.cursor.row.inner, self.cursor.col.inner)
    }
}

/// Law: writing two texts one after the other is writing them joined: the
/// same text and cursor, and the same drawings in order.
pub proof fn law_write_concat(t: TermText, cols: nat, rows: nat, a: Seq<char>, b: Seq<char>)
    ensures
        write_all_spec(t, cols, rows, a + b) == ({
            let (t1, d1) = write_all_spec(t, cols, rows, a);
            let (t2, d2) = write_all_spec(t1, cols, rows, b);
            (t2, d1 + d2)
        }),
    decreases b.len(),
{
    if b.len() == 0 {
        assert(a + b =~= a);
        let (t1, d1) = write_all_spec(t, cols, rows, a);
        assert(d1 + Seq::<TermDraw>::empty() =~= d1);
    } else {
        law_write_concat(t, cols, rows, a, b.drop_last());
        assert((a + b).drop_last() =~= a + b.drop_last());
        assert((a + b).last() == b.last());
        let (t1, d1) = write_all_spec(t, cols, rows, a);
        let (t2, d2) = write_all_spec(t1, cols, rows, b.drop_last());
        let (t3, d3) = write_char_spec(t2, cols, rows, b.last());
        assert(d1 + d2 + d3 =~= d1 + (d2 + d3));
    }
}

/// Scrolling up as many times as there are rows leaves the grid empty.
pub proof fn law_scroll_out_empties(g: Seq<Seq<Option<char>>>, cols: nat)
    ensures
        shifted_up_n(g, cols, g.len()) == Seq::new(g.len(), |i: int| empty_row(cols)),
{
    lemma_shifted_up_n(g, cols, g.len());
    assert(shifted_up_n(g, cols, g.len()) =~= Seq::new(g.len(), |i: int| empty_row(cols)));
}

/// After `k` scrolls, row `r` holds what row `r + k` held, and the last `k`
/// rows are empty.
pub proof fn lemma_shifted_up_n(g: Seq<Seq<Option<char>>>, cols: nat, k: nat)
    requires
        k <= g.len(),
    ensures
        shifted_up_n(g, cols, k).len() == g.len(),
        forall|r: int| 0 <= r < g.len() - k ==> #[trigger] shifted_up_n(g, cols, k)[r] == g[r + k],
        forall|r: int| g.len() - k <= r < g.len() ==> #[trigger] shifted_up_n(g, cols, k)[r] == empty_row(cols),
    decreases k,
{
    if k > 0 {
        lemma_shifted_up_n(g, cols, (k - 1) as nat);
        let p = shifted_up_n(g, cols, (k - 1) as nat);
        assert forall|r: int| 0 <= r < g.len() - k implies #[trigger] shifted_up_n(g, cols, k)[r] == g[r + k] by {
            assert(shifted_up(p, cols)[r] == p[r + 1]);
        }
        assert forall|r: int| g.len() - k <= r < g.len() implies #[trigger] shifted_up_n(g, cols, k)[r] == empty_row(cols) by {
            if r < g.len() - 1 {
                assert(shifted_up(p, cols)[r] == p[r + 1]);
            }
        }
    }
}

} // verus!
