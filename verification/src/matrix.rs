use vstd::prelude::*;

use crate::field::Scalar;

verus! {

/// A dense, row-major rectangular grid of scalars, mutated in place by the
/// row-echelon reducer.
#[derive(Clone, PartialEq, Eq, Debug)]
pub struct Matrix<T> {
    pub rows: usize,
    pub columns: usize,
    pub cells: Vec<Vec<T>>,
}

impl<T> Matrix<T> {
    /// Shape invariant: `cells` holds `rows` rows of exactly `columns`
    /// entries each.
    pub open spec fn wf(self) -> bool {
        &&& self.cells@.len() == self.rows
        &&& forall|r: int| 0 <= r < self.rows ==> (#[trigger] self.cells@[r])@.len() == self.columns
    }

    /// The entry in row `r`, column `c`.
    pub open spec fn at(self, r: int, c: int) -> T {
        self.cells@[r]@[c]
    }

    /// Row `r` as a sequence.
    pub open spec fn row_seq(self, r: int) -> Seq<T> {
        self.cells@[r]@
    }

    /// Same shape and the same entry in every cell.
    pub open spec fn same_grid(self, other: Matrix<T>) -> bool {
        &&& self.rows == other.rows
        &&& self.columns == other.columns
        &&& forall|r: int, c: int|
            0 <= r < self.rows && 0 <= c < self.columns ==> self.at(r, c) == #[trigger] other.at(
                r,
                c,
            )
    }
}

impl<T> Matrix<T> {
    /// Stack `other` under `self`. The two must have the same number of
    /// columns.
    pub fn attach_below(&mut self, other: Matrix<T>)
        requires
            old(self).wf(),
            other.wf(),
            old(self).columns == other.columns,
            old(self).rows + other.rows <= usize::MAX,
        ensures
            final(self).wf(),
            final(self).rows == old(self).rows + other.rows,
            final(self).columns == old(self).columns,
            final(self).cells@ == old(self).cells@ + other.cells@,
    {
        let mut other = other;
        self.rows = self.rows + other.rows;
        self.cells.append(&mut other.cells);
    }

    /// Put `other` beside `self`, on the right. The two must have the same
    /// number of rows.
    pub fn attach_to_the_right(&mut self, other: Matrix<T>)
        requires
            old(self).wf(),
            other.wf(),
            old(self).rows == other.rows,
            old(self).columns + other.columns <= usize::MAX,
        ensures
            final(self).wf(),
            final(self).rows == old(self).rows,
            final(self).columns == old(self).columns + other.columns,
            forall|r: int, c: int|
                0 <= r < old(self).rows && 0 <= c < old(self).columns ==> final(self).at(r, c)
                    == old(self).at(r, c),
            forall|r: int, c: int|
                0 <= r < old(self).rows && old(self).columns <= c < final(self).columns ==> final(self).at(r, c) == other.at(r, c - old(self).columns),
    {
        let mut other = other;
        self.columns = self.columns + other.columns;
        let ghost other_snap = other;
        let mut r: usize = 0;
        let rows = self.rows;
        while r < rows
            invariant
                r <= rows,
                rows == self.rows,
                self.rows == old(self).rows,
                self.columns == old(self).columns + other_snap.columns,
                old(self).wf(),
                other_snap.wf(),
                other_snap.rows == old(self).rows,
                self.cells@.len() == self.rows,
                other.cells@.len() == other_snap.rows - r,
                forall|i: int|
                    0 <= i < other_snap.rows - r ==> other.cells@[i] == other_snap.cells@[r + i],
                forall|i: int|
                    0 <= i < r ==> (#[trigger] self.cells@[i])@ == old(self).cells@[i]@
                        + other_snap.cells@[i]@,
                forall|i: int| r <= i < self.rows ==> self.cells@[i] == old(self).cells@[i],
            decreases rows - r,
        {
            let mut other_row = other.cells.remove(0);
            let row_ref = &mut self.cells[r];
            row_ref.append(&mut other_row);
            r = r + 1;
        }
    }
}

impl<T: Copy> Matrix<T> {
    /// Read the cell at (row, column).
    pub fn cell(&self, row: usize, column: usize) -> (v: T)
        requires
            self.wf(),
            row < self.rows,
            column < self.columns,
        ensures
            v == self.at(row as int, column as int),
    {
        self.cells[row][column]
    }

    /// Overwrite the cell at (row, column).
    pub fn set_cell(&mut self, row: usize, column: usize, value: T)
        requires
            old(self).wf(),
            row < old(self).rows,
            column < old(self).columns,
        ensures
            final(self).wf(),
            final(self).rows == old(self).rows,
            final(self).columns == old(self).columns,
            forall|r: int|
                0 <= r < old(self).rows && r != row ==> final(self).cells@[r] == old(self).cells@[r],
            final(self).row_seq(row as int) == old(self).row_seq(row as int).update(
                column as int,
                value,
            ),
    {
        self.cells[row][column] = value;
    }

    /// A matrix built from explicit row data.
    pub fn from_cells<const ROWS: usize, const COLUMNS: usize>(
        cells: [[T; COLUMNS]; ROWS],
    ) -> (m: Matrix<T>)
        ensures
            m.wf(),
            m.rows == ROWS,
            m.columns == COLUMNS,
            forall|r: int, c: int|
                0 <= r < ROWS && 0 <= c < COLUMNS ==> m.at(r, c) == cells@[r]@[c],
    {
        let mut grid: Vec<Vec<T>> = Vec::new();
        let mut r: usize = 0;
        while r < ROWS
            invariant
                r <= ROWS,
                grid@.len() == r,
                forall|i: int| 0 <= i < r ==> (#[trigger] grid@[i])@.len() == COLUMNS,
                forall|i: int, j: int|
                    0 <= i < r && 0 <= j < COLUMNS ==> grid@[i]@[j] == cells@[i]@[j],
            decreases ROWS - r,
        {
            let mut row_vec: Vec<T> = Vec::new();
            let mut c: usize = 0;
            while c < COLUMNS
                invariant
                    r < ROWS,
                    c <= COLUMNS,
                    row_vec@.len() == c,
                    forall|j: int| 0 <= j < c ==> row_vec@[j] == cells@[r as int]@[j],
                decreases COLUMNS - c,
            {
                row_vec.push(cells[r][c]);
                c = c + 1;
            }
            grid.push(row_vec);
            r = r + 1;
        }
        Matrix { rows: ROWS, columns: COLUMNS, cells: grid }
    }

    /// Row `row` as a fresh 1 × columns matrix.
    pub fn row(&self, row: usize) -> (m: Matrix<T>)
        requires
            self.wf(),
            row < self.rows,
        ensures
            m.wf(),
            m.rows == 1,
            m.columns == self.columns,
            forall|c: int| 0 <= c < self.columns ==> m.at(0, c) == self.at(row as int, c),
    {
        let mut row_vec: Vec<T> = Vec::new();
        let mut c: usize = 0;
        let columns = self.columns;
        while c < columns
            invariant
                c <= columns,
                columns == self.columns,
                row < self.rows,
                self.wf(),
                row_vec@.len() == c,
                forall|j: int| 0 <= j < c ==> row_vec@[j] == self.at(row as int, j),
            decreases columns - c,
        {
            row_vec.push(self.cells[row][c]);
            c = c + 1;
        }
        let mut grid: Vec<Vec<T>> = Vec::new();
        grid.push(row_vec);
        Matrix { rows: 1, columns: self.columns, cells: grid }
    }

    /// Column `column` as a fresh rows × 1 matrix.
    pub fn column(&self, column: usize) -> (m: Matrix<T>)
        requires
            self.wf(),
            column < self.columns,
        ensures
            m.wf(),
            m.rows == self.rows,
            m.columns == 1,
            forall|r: int| 0 <= r < self.rows ==> m.at(r, 0) == self.at(r, column as int),
    {
        let mut grid: Vec<Vec<T>> = Vec::new();
        let mut r: usize = 0;
        let rows = self.rows;
        while r < rows
            invariant
                r <= rows,
                rows == self.rows,
                column < self.columns,
                self.wf(),
                grid@.len() == r,
                forall|i: int| 0 <= i < r ==> (#[trigger] grid@[i])@.len() == 1,
                forall|i: int| 0 <= i < r ==> (#[trigger] grid@[i])@[0] == self.at(i, column as int),
            decreases rows - r,
        {
            let mut row_vec: Vec<T> = Vec::new();
            row_vec.push(self.cells[r][column]);
            grid.push(row_vec);
            r = r + 1;
        }
        Matrix { rows: self.rows, columns: 1, cells: grid }
    }

    /// Replace `self` with its transpose.
    pub fn transpose(&mut self)
        requires
            old(self).wf(),
        ensures
            final(self).wf(),
            final(self).rows == old(self).columns,
            final(self).columns == old(self).rows,
            forall|r: int, c: int|
                0 <= r < final(self).rows && 0 <= c < final(self).columns ==> final(self).at(r, c)
                    == old(self).at(c, r),
    {
        let rows = self.columns;
        let columns = self.rows;
        let mut grid: Vec<Vec<T>> = Vec::new();
        let mut r: usize = 0;
        while r < rows
            invariant
                r <= rows,
                rows == self.columns,
                columns == self.rows,
                self == old(self),
                self.wf(),
                grid@.len() == r,
                forall|i: int| 0 <= i < r ==> (#[trigger] grid@[i])@.len() == columns,
                forall|i: int, j: int|
                    0 <= i < r && 0 <= j < columns ==> grid@[i]@[j] == self.at(j, i),
            decreases rows - r,
        {
            let mut row_vec: Vec<T> = Vec::new();
            let mut c: usize = 0;
            while c < columns
                invariant
                    r < rows,
                    c <= columns,
                    rows == self.columns,
                    columns == self.rows,
                    self == old(self),
                    self.wf(),
                    row_vec@.len() == c,
                    forall|j: int| 0 <= j < c ==> row_vec@[j] == self.at(j, r as int),
                decreases columns - c,
            {
                row_vec.push(self.cells[c][r]);
                c = c + 1;
            }
            grid.push(row_vec);
            r = r + 1;
        }
        self.rows = rows;
        self.columns = columns;
        self.cells = grid;
    }

    /// Exchange two columns in every row.
    pub fn swap_columns(&mut self, column_one: usize, column_two: usize)
        requires
            old(self).wf(),
            column_one < old(self).columns,
            column_two < old(self).columns,
        ensures
            final(self).wf(),
            final(self).rows == old(self).rows,
            final(self).columns == old(self).columns,
            forall|r: int, c: int|
                0 <= r < old(self).rows && 0 <= c < old(self).columns ==> final(self).at(r, c)
                    == old(self).at(
                    r,
                    if c == column_one {
                        column_two as int
                    } else if c == column_two {
                        column_one as int
                    } else {
                        c
                    },
                ),
    {
        let mut r: usize = 0;
        let rows = self.rows;
        while r < rows
            invariant
                r <= rows,
                rows == self.rows,
                self.rows == old(self).rows,
                self.columns == old(self).columns,
                column_one < self.columns,
                column_two < self.columns,
                self.wf(),
                old(self).wf(),
                forall|i: int| r <= i < self.rows ==> self.cells@[i] == old(self).cells@[i],
                forall|i: int, c: int|
                    0 <= i < r && 0 <= c < self.columns ==> #[trigger] self.at(i, c)
                        == old(self).at(
                        i,
                        if c == column_one {
                            column_two as int
                        } else if c == column_two {
                            column_one as int
                        } else {
                            c
                        },
                    ),
            decreases rows - r,
        {
            let ghost snap = *self;
            let a = self.cells[r][column_one];
            let b = self.cells[r][column_two];
            self.cells[r][column_one] = b;
            self.cells[r][column_two] = a;
            proof {
                assert(snap.cells@[r as int] == old(self).cells@[r as int]);
                assert(old(self).cells@[r as int]@.len() == old(self).columns);
                assert(self.cells@[r as int]@ == old(self).cells@[r as int]@.update(
                    column_one as int,
                    b,
                ).update(column_two as int, a));
                assert forall|i: int, c: int|
                    0 <= i < r + 1 && 0 <= c < self.columns implies #[trigger] self.at(i, c)
                        == old(self).at(
                        i,
                        if c == column_one {
                            column_two as int
                        } else if c == column_two {
                            column_one as int
                        } else {
                            c
                        },
                    ) by {
                    if i < r {
                        assert(self.cells@[i] == snap.cells@[i]);
                        assert(snap.at(i, c) == old(self).at(
                            i,
                            if c == column_one {
                                column_two as int
                            } else if c == column_two {
                                column_one as int
                            } else {
                                c
                            },
                        ));
                    }
                }
            }
            r = r + 1;
        }
    }

    /// A fresh matrix with the same shape and the same entries.
    pub fn duplicate(&self) -> (m: Matrix<T>)
        requires
            self.wf(),
        ensures
            m.wf(),
            m.rows == self.rows,
            m.columns == self.columns,
            forall|r: int, c: int|
                0 <= r < self.rows && 0 <= c < self.columns ==> m.at(r, c) == self.at(r, c),
    {
        let mut grid: Vec<Vec<T>> = Vec::new();
        let mut r: usize = 0;
        let rows = self.rows;
        let columns = self.columns;
        while r < rows
            invariant
                r <= rows,
                rows == self.rows,
                columns == self.columns,
                self.wf(),
                grid@.len() == r,
                forall|i: int| 0 <= i < r ==> (#[trigger] grid@[i])@.len() == columns,
                forall|i: int, j: int|
                    0 <= i < r && 0 <= j < columns ==> grid@[i]@[j] == self.at(i, j),
            decreases rows - r,
        {
            let mut row_vec: Vec<T> = Vec::new();
            let mut c: usize = 0;
            while c < columns
                invariant
                    r < rows,
                    c <= columns,
                    rows == self.rows,
                    columns == self.columns,
                    self.wf(),
                    row_vec@.len() == c,
                    forall|j: int| 0 <= j < c ==> row_vec@[j] == self.at(r as int, j),
                decreases columns - c,
            {
                row_vec.push(self.cells[r][c]);
                c = c + 1;
            }
            grid.push(row_vec);
            r = r + 1;
        }
        Matrix { rows: self.rows, columns: self.columns, cells: grid }
    }
}

impl<T> Matrix<T> {
    /// Exchange two rows.
    pub fn swap_rows(&mut self, row_one: usize, row_two: usize)
        requires
            old(self).wf(),
            row_one < old(self).rows,
            row_two < old(self).rows,
        ensures
            final(self).wf(),
            final(self).rows == old(self).rows,
            final(self).columns == old(self).columns,
            final(self).cells@ == old(self).cells@.update(
                row_one as int,
                old(self).cells@[row_two as int],
            ).update(row_two as int, old(self).cells@[row_one as int]),
    {
        if row_one == row_two {
            proof {
                assert(old(self).cells@ =~= old(self).cells@.update(
                    row_one as int,
                    old(self).cells@[row_two as int],
                ).update(row_two as int, old(self).cells@[row_one as int]));
            }
            return ;
        }
        let lo: usize = if row_one < row_two {
            row_one
        } else {
            row_two
        };
        let hi: usize = if row_one < row_two {
            row_two
        } else {
            row_one
        };
        let hi_row = self.cells.remove(hi);
        let lo_row = self.cells.remove(lo);
        self.cells.insert(lo, hi_row);
        self.cells.insert(hi, lo_row);
        proof {
            assert(self.cells@ =~= old(self).cells@.update(
                row_one as int,
                old(self).cells@[row_two as int],
            ).update(row_two as int, old(self).cells@[row_one as int]));
        }
    }
}

impl<T: Scalar> Matrix<T> {
    /// A `rows` × `columns` matrix with every cell set to zero.
    pub fn new(rows: usize, columns: usize) -> (m: Matrix<T>)
        ensures
            m.wf(),
            m.rows == rows,
            m.columns == columns,
            forall|r: int, c: int|
                0 <= r < rows && 0 <= c < columns ==> m.at(r, c) == T::zero_spec(),
    {
        let mut cells: Vec<Vec<T>> = Vec::new();
        let mut r: usize = 0;
        while r < rows
            invariant
                r <= rows,
                cells@.len() == r,
                forall|i: int| 0 <= i < r ==> (#[trigger] cells@[i])@.len() == columns,
                forall|i: int, j: int|
                    0 <= i < r && 0 <= j < columns ==> cells@[i]@[j] == T::zero_spec(),
            decreases rows - r,
        {
            let mut row_vec: Vec<T> = Vec::new();
            let mut c: usize = 0;
            while c < columns
                invariant
                    c <= columns,
                    row_vec@.len() == c,
                    forall|j: int| 0 <= j < c ==> row_vec@[j] == T::zero_spec(),
                decreases columns - c,
            {
                row_vec.push(T::zero());
                c = c + 1;
            }
            cells.push(row_vec);
            r = r + 1;
        }
        Matrix { rows, columns, cells }
    }

    /// Append `rows` zero-filled rows at the bottom.
    pub fn add_rows(&mut self, rows: usize)
        requires
            old(self).wf(),
            old(self).rows + rows <= usize::MAX,
        ensures
            final(self).wf(),
            final(self).rows == old(self).rows + rows,
            final(self).columns == old(self).columns,
            forall|r: int| 0 <= r < old(self).rows ==> final(self).cells@[r] == old(self).cells@[r],
            forall|r: int, c: int|
                old(self).rows <= r < final(self).rows && 0 <= c < old(self).columns ==> final(self).at(r, c) == T::zero_spec(),
    {
        self.rows = self.rows + rows;
        let mut added: usize = 0;
        while added < rows
            invariant
                added <= rows,
                self.rows == old(self).rows + rows,
                self.columns == old(self).columns,
                self.cells@.len() == old(self).rows + added,
                forall|r: int| 0 <= r < old(self).rows ==> self.cells@[r] == old(self).cells@[r],
                old(self).wf(),
                forall|r: int|
                    old(self).rows <= r < old(self).rows + added ==> (
                    #[trigger] self.cells@[r])@.len() == self.columns,
                forall|r: int, c: int|
                    old(self).rows <= r < old(self).rows + added && 0 <= c < self.columns
                        ==> #[trigger] self.at(r, c) == T::zero_spec(),
            decreases rows - added,
        {
            let ghost snap = *self;
            let mut row_vec: Vec<T> = Vec::new();
            let mut c: usize = 0;
            let columns = self.columns;
            while c < columns
                invariant
                    c <= columns,
                    row_vec@.len() == c,
                    forall|j: int| 0 <= j < c ==> row_vec@[j] == T::zero_spec(),
                decreases columns - c,
            {
                row_vec.push(T::zero());
                c = c + 1;
            }
            self.cells.push(row_vec);
            proof {
                assert forall|rr: int, cc: int|
                    old(self).rows <= rr < old(self).rows + added + 1 && 0 <= cc
                        < self.columns implies #[trigger] self.at(rr, cc) == T::zero_spec() by {
                    if rr == old(self).rows + added {
                        assert(self.cells@[rr] == row_vec);
                        assert(row_vec@[cc] == T::zero_spec());
                    } else {
                        assert(self.cells@[rr] == snap.cells@[rr]);
                        assert(snap.at(rr, cc) == T::zero_spec());
                    }
                }
            }
            added = added + 1;
        }
    }

    /// Append `columns` zero-filled columns on the right.
    pub fn add_columns(&mut self, columns: usize)
        requires
            old(self).wf(),
            old(self).columns + columns <= usize::MAX,
        ensures
            final(self).wf(),
            final(self).rows == old(self).rows,
            final(self).columns == old(self).columns + columns,
            forall|r: int, c: int|
                0 <= r < old(self).rows && 0 <= c < old(self).columns ==> final(self).at(r, c)
                    == old(self).at(r, c),
            forall|r: int, c: int|
                0 <= r < old(self).rows && old(self).columns <= c < final(self).columns ==> final(self).at(r, c) == T::zero_spec(),
    {
        self.columns = self.columns + columns;
        let mut r: usize = 0;
        let rows = self.rows;
        while r < rows
            invariant
                r <= rows,
                rows == self.rows,
                self.rows == old(self).rows,
                self.columns == old(self).columns + columns,
                self.cells@.len() == self.rows,
                old(self).wf(),
                forall|i: int| r <= i < self.rows ==> self.cells@[i] == old(self).cells@[i],
                forall|i: int| 0 <= i < r ==> (#[trigger] self.cells@[i])@.len() == self.columns,
                forall|i: int, c: int|
                    0 <= i < r && 0 <= c < old(self).columns ==> #[trigger] self.at(i, c)
                        == old(self).at(i, c),
                forall|i: int, c: int|
                    0 <= i < r && old(self).columns <= c < self.columns ==> #[trigger] self.at(i, c)
                        == T::zero_spec(),
            decreases rows - r,
        {
            let mut added: usize = 0;
            let ghost snap = *self;
            while added < columns
                invariant
                    added <= columns,
                    r < snap.cells@.len(),
                    self.rows == snap.rows,
                    self.columns == snap.columns,
                    self.cells@.len() == snap.cells@.len(),
                    forall|i: int|
                        0 <= i < self.cells@.len() && i != r ==> self.cells@[i] == snap.cells@[i],
                    self.cells@[r as int]@.len() == snap.cells@[r as int]@.len() + added,
                    forall|j: int|
                        0 <= j < snap.cells@[r as int]@.len() ==> self.cells@[r as int]@[j]
                            == snap.cells@[r as int]@[j],
                    forall|j: int|
                        snap.cells@[r as int]@.len() <= j < self.cells@[r as int]@.len()
                            ==> self.cells@[r as int]@[j] == T::zero_spec(),
                decreases columns - added,
            {
                let row_ref = &mut self.cells[r];
                row_ref.push(T::zero());
                added = added + 1;
            }
            proof {
                assert(snap.cells@[r as int] == old(self).cells@[r as int]);
                assert(snap.cells@[r as int]@.len() == old(self).columns);
                assert forall|i: int|
                    0 <= i < r + 1 implies (#[trigger] self.cells@[i])@.len() == self.columns by {
                    if i < r {
                        assert(self.cells@[i] == snap.cells@[i]);
                        assert(snap.cells@[i]@.len() == self.columns);
                    }
                }
                assert forall|i: int, c: int|
                    0 <= i < r + 1 && 0 <= c < old(self).columns implies #[trigger] self.at(i, c)
                        == old(self).at(i, c) by {
                    if i < r {
                        assert(self.cells@[i] == snap.cells@[i]);
                        assert(snap.at(i, c) == old(self).at(i, c));
                    } else {
                        assert(self.cells@[i]@[c] == snap.cells@[i]@[c]);
                    }
                }
                assert forall|i: int, c: int|
                    0 <= i < r + 1 && old(self).columns <= c < self.columns implies #[trigger] self.at(
                        i,
                        c,
                    ) == T::zero_spec() by {
                    if i < r {
                        assert(self.cells@[i] == snap.cells@[i]);
                        assert(snap.at(i, c) == T::zero_spec());
                    }
                }
            }
            r = r + 1;
        }
    }

}

} // verus!
