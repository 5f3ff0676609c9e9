use vstd::prelude::*;

use crate::error::Error;

verus! {

/// The largest order a matrix can have: the size of its backing store.
pub const MAX_ORDER: usize = 4;

/// A square matrix of order 2, 3 or 4 over a fixed 4 × 4 backing store. Only
/// the cells of rows and columns below the order take part in its
/// operations; the others hold the cell type's default value when the
/// matrix is built.
#[derive(Debug, Clone, Copy)]
pub struct Matrix<T> {
    cells: [[T; 4]; 4],
    order: usize,
}

impl<T> Matrix<T> {
    pub closed spec fn spec_order(&self) -> nat {
        self.order as nat
    }

    /// The cell at row `r`, column `c` of the backing store.
    pub closed spec fn cell(&self, r: int, c: int) -> T {
        self.cells[r][c]
    }

    /// The declared order is one of 2, 3 and 4.
    pub open spec fn wf(&self) -> bool {
        2 <= self.spec_order() <= MAX_ORDER
    }

    /// Row `r`, column `c` lies within the declared order.
    pub open spec fn in_order(&self, r: int, c: int) -> bool {
        0 <= r < self.spec_order() && 0 <= c < self.spec_order()
    }

    /// Equal orders, and equal cells within that order.
    pub open spec fn same_cells(&self, other: Matrix<T>) -> bool {
        &&& self.spec_order() == other.spec_order()
        &&& forall|r: int, c: int|
            self.in_order(r, c) ==> #[trigger] self.cell(r, c) == other.cell(r, c)
    }

    /// This matrix has the order of `m`, and cell (r, c) here is cell (c, r)
    /// there.
    pub open spec fn is_transpose_of(&self, m: Matrix<T>) -> bool {
        &&& self.spec_order() == m.spec_order()
        &&& forall|r: int, c: int|
            self.in_order(r, c) ==> #[trigger] self.cell(r, c) == m.cell(c, r)
    }

    pub fn order(&self) -> (r: usize)
        ensures
            r == self.spec_order(),
    {
        self.order
    }
}

/// Transposing twice gives back the matrix one started from.
pub proof fn lemma_transpose_involution<T>(m: Matrix<T>, t: Matrix<T>, tt: Matrix<T>)
    requires
        t.is_transpose_of(m),
        tt.is_transpose_of(t),
    ensures
        tt.same_cells(m),
{
    assert forall|r: int, c: int| tt.in_order(r, c) implies #[trigger] tt.cell(r, c) == m.cell(
        r,
        c,
    ) by {
        assert(t.cell(c, r) == m.cell(r, c));
    }
}

impl<T: Copy + Default> Matrix<T> {
    /// A row of an order-2 matrix, padded to the backing store's width.
    fn force_array2(row: [T; 2]) -> (r: [T; 4])
        ensures
            r[0] == row[0],
            r[1] == row[1],
            call_ensures(T::default, (), r[2]),
            call_ensures(T::default, (), r[3]),
    {
        [row[0], row[1], T::default(), T::default()]
    }

    /// A row of an order-3 matrix, padded to the backing store's width.
    fn force_array3(row: [T; 3]) -> (r: [T; 4])
        ensures
            r[0] == row[0],
            r[1] == row[1],
            r[2] == row[2],
            call_ensures(T::default, (), r[3]),
    {
        [row[0], row[1], row[2], T::default()]
    }

    /// The order-4 matrix with the given rows.
    pub fn create(row0: [T; 4], row1: [T; 4], row2: [T; 4], row3: [T; 4]) -> (r: Matrix<T>)
        ensures
            r.wf(),
            r.spec_order() == 4,
            forall|c: int| 0 <= c < 4 ==> #[trigger] r.cell(0, c) == row0[c],
            forall|c: int| 0 <= c < 4 ==> #[trigger] r.cell(1, c) == row1[c],
            forall|c: int| 0 <= c < 4 ==> #[trigger] r.cell(2, c) == row2[c],
            forall|c: int| 0 <= c < 4 ==> #[trigger] r.cell(3, c) == row3[c],
    {
        Matrix { cells: [row0, row1, row2, row3], order: 4 }
    }

    /// The order-2 matrix with the given rows.
    pub fn create2(row0: [T; 2], row1: [T; 2]) -> (r: Matrix<T>)
        ensures
            r.wf(),
            r.spec_order() == 2,
            forall|c: int| 0 <= c < 2 ==> #[trigger] r.cell(0, c) == row0[c],
            forall|c: int| 0 <= c < 2 ==> #[trigger] r.cell(1, c) == row1[c],
            forall|a: int, b: int|
                0 <= a < MAX_ORDER && 0 <= b < MAX_ORDER && !r.in_order(a, b) ==> call_ensures(
                    T::default,
                    (),
                    #[trigger] r.cell(a, b),
                ),
    {
        let pad = [T::default(), T::default()];
        Matrix {
            cells: [
                Self::force_array2(row0),
                Self::force_array2(row1),
                Self::force_array2(pad),
                Self::force_array2(pad),
            ],
            order: 2,
        }
    }

    /// The order-3 matrix with the given rows.
    pub fn create3(row0: [T; 3], row1: [T; 3], row2: [T; 3]) -> (r: Matrix<T>)
        ensures
            r.wf(),
            r.spec_order() == 3,
            forall|c: int| 0 <= c < 3 ==> #[trigger] r.cell(0, c) == row0[c],
            forall|c: int| 0 <= c < 3 ==> #[trigger] r.cell(1, c) == row1[c],
            forall|c: int| 0 <= c < 3 ==> #[trigger] r.cell(2, c) == row2[c],
            forall|a: int, b: int|
                0 <= a < MAX_ORDER && 0 <= b < MAX_ORDER && !r.in_order(a, b) ==> call_ensures(
                    T::default,
                    (),
                    #[trigger] r.cell(a, b),
                ),
    {
        let pad = [T::default(), T::default(), T::default()];
        Matrix {
            cells: [
                Self::force_array3(row0),
                Self::force_array3(row1),
                Self::force_array3(row2),
                Self::force_array3(pad),
            ],
            order: 3,
        }
    }

    /// A matrix of the given order with every cell at the default value, or
    /// `ConfigurationError` for an order outside {2, 3, 4}.
    pub fn empty(order: usize) -> (r: Result<Matrix<T>, Error>)
        ensures
            2 <= order <= MAX_ORDER ==> r is Ok && r->Ok_0.wf() && r->Ok_0.spec_order() == order,
            r is Ok ==> forall|a: int, b: int|
                0 <= a < MAX_ORDER && 0 <= b < MAX_ORDER ==> call_ensures(
                    T::default,
                    (),
                    #[trigger] r->Ok_0.cell(a, b),
                ),
            !(2 <= order <= MAX_ORDER) ==> r == Err::<Matrix<T>, Error>(Error::ConfigurationError),
    {
        if order == 2 {
            let z = T::default();
            Ok(Self::create2([z, z], [z, z]))
        } else if order == 3 {
            let z = T::default();
            Ok(Self::create3([z, z, z], [z, z, z], [z, z, z]))
        } else if order == 4 {
            let z = T::default();
            Ok(Self::create([z, z, z, z], [z, z, z, z], [z, z, z, z], [z, z, z, z]))
        } else {
            Err(Error::ConfigurationError)
        }
    }

    /// The cell at (row, col), or `IndexError` where either lies at or past
    /// the declared order.
    pub fn get(&self, row: usize, col: usize) -> (r: Result<T, Error>)
        requires
            self.wf(),
        ensures
            self.in_order(row as int, col as int) ==> r == Ok::<T, Error>(
                self.cell(row as int, col as int),
            ),
            !self.in_order(row as int, col as int) ==> r == Err::<T, Error>(Error::IndexError),
    {
        if row >= self.order || col >= self.order {
            return Err(Error::IndexError);
        }
        Ok(self.cells[row][col])
    }

    /// Replaces the cell at (row, col). Where either lies at or past the
    /// declared order the matrix is left unchanged and `IndexError` returned.
    pub fn set(&mut self, row: usize, col: usize, value: T) -> (r: Result<(), Error>)
        requires
            old(self).wf(),
        ensures
            final(self).wf(),
            final(self).spec_order() == old(self).spec_order(),
            old(self).in_order(row as int, col as int) ==> {
                &&& r is Ok
                &&& final(self).cell(row as int, col as int) == value
                &&& forall|a: int, b: int|
                    final(self).in_order(a, b) && (a != row || b != col)
                        ==> #[trigger] final(self).cell(a, b) == old(self).cell(a, b)
            },
            !old(self).in_order(row as int, col as int) ==> r == Err::<(), Error>(Error::IndexError)
                && *final(self) == *old(self),
    {
        if row >= self.order || col >= self.order {
            return Err(Error::IndexError);
        }
        let mut line = self.cells[row];
        line[col] = value;
        self.cells[row] = line;
        Ok(())
    }

    /// The matrix of the same order with rows and columns swapped.
    pub fn transpose(&self) -> (r: Matrix<T>)
        requires
            self.wf(),
        ensures
            r.wf(),
            r.is_transpose_of(*self),
    {
        let mut cells = self.cells;
        let n = self.order;
        let mut row: usize = 0;
        while row < n
            invariant
                n == self.order,
                2 <= n <= MAX_ORDER,
                row <= n,
                forall|a: int, b: int|
                    0 <= a < n && 0 <= b < row ==> #[trigger] cells[a][b] == self.cells[b][a],
            decreases n - row,
        {
            let mut col: usize = 0;
            while col < n
                invariant
                    n == self.order,
                    2 <= n <= MAX_ORDER,
                    row < n,
                    col <= n,
                    forall|a: int, b: int|
                        0 <= a < n && 0 <= b < n && (b < row || (b == row && a < col))
                            ==> #[trigger] cells[a][b] == self.cells[b][a],
                decreases n - col,
            {
                let mut line = cells[col];
                line[row] = self.cells[row][col];
                cells[col] = line;
                col = col + 1;
            }
            row = row + 1;
        }
        Matrix { cells, order: n }
    }
}

} // verus!
