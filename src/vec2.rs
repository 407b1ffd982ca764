use vstd::prelude::*;

verus! {

/// Holds of a value that `T::default()` may return.
pub open spec fn is_default<T: Default>(x: T) -> bool {
    call_ensures(T::default, (), x)
}

/// Cell `(r, c)` of a `rows x cols` table stored row by row lies inside the buffer,
/// and row `r` ends no later than the buffer does.
proof fn lemma_cell_in_range(r: int, c: int, rows: int, cols: int)
    requires
        0 <= r < rows,
        0 <= c < cols,
    ensures
        0 <= r * cols,
        r * cols + c < rows * cols,
        r * cols + cols <= rows * cols,
{
    assert(0 <= r * cols) by (nonlinear_arith)
        requires
            0 <= r,
            0 <= cols,
    ;
    assert(r * cols + cols <= rows * cols) by (nonlinear_arith)
        requires
            r + 1 <= rows,
            0 <= cols,
    ;
}

/// Two cells of one table sit at the same offset only if they are the same cell.
proof fn lemma_cell_injective(r1: int, c1: int, r2: int, c2: int, cols: int)
    requires
        0 <= c1 < cols,
        0 <= c2 < cols,
        r1 * cols + c1 == r2 * cols + c2,
    ensures
        r1 == r2,
        c1 == c2,
{
    assert(r1 == r2) by (nonlinear_arith)
        requires
            0 <= c1 < cols,
            0 <= c2 < cols,
            r1 * cols + c1 == r2 * cols + c2,
    ;
}

/// A two-dimensional table backed by one vector, stored row after row.
#[derive(Debug, Clone)]
pub struct Vec2<T> {
    n_rows: usize,
    n_cols: usize,
    vec: Vec<T>,
}

impl<T> View for Vec2<T> {
    type V = Seq<Seq<T>>;

    /// The rows of the table, each a sequence of `n_cols` cells.
    closed spec fn view(&self) -> Seq<Seq<T>> {
        Seq::new(
            self.n_rows as nat,
            |r: int| Seq::new(self.n_cols as nat, |c: int| self.vec@[r * self.n_cols + c]),
        )
    }
}

impl<T> Vec2<T> {
    /// The backing vector holds exactly one cell for each row and column.
    pub closed spec fn wf(&self) -> bool {
        &&& self.vec@.len() == self.n_rows * self.n_cols
        &&& self.n_rows * self.n_cols <= usize::MAX
    }

    /// The number of columns, also when the table has no rows.
    pub closed spec fn spec_n_cols(&self) -> nat {
        self.n_cols as nat
    }

    /// Every row of a table has one cell per column, and the cells fit in memory.
    pub proof fn lemma_shape(&self)
        requires
            self.wf(),
        ensures
            self@.len() * self.spec_n_cols() <= usize::MAX,
            self.spec_n_cols() <= usize::MAX,
            forall|r: int| 0 <= r < self@.len() ==> (#[trigger] self@[r]).len() == self.spec_n_cols(),
    {
    }

    /// The number of rows.
    pub fn n_rows(&self) -> (r: usize)
        ensures
            r == self@.len(),
    {
        self.n_rows
    }

    /// The number of columns.
    pub fn n_cols(&self) -> (r: usize)
        ensures
            r == self.spec_n_cols(),
    {
        self.n_cols
    }

    /// The cell in row `row` and column `col`.
    pub fn get(&self, row: usize, col: usize) -> (r: &T)
        requires
            self.wf(),
            row < self@.len(),
            col < self.spec_n_cols(),
        ensures
            *r == self@[row as int][col as int],
    {
        proof {
            lemma_cell_in_range(row as int, col as int, self.n_rows as int, self.n_cols as int);
        }
        &self.vec[row * self.n_cols + col]
    }

    /// Overwrites the cell in row `row` and column `col`.
    pub fn set(&mut self, row: usize, col: usize, value: T)
        requires
            old(self).wf(),
            row < old(self)@.len(),
            col < old(self).spec_n_cols(),
        ensures
            final(self).wf(),
            final(self).spec_n_cols() == old(self).spec_n_cols(),
            final(self)@ == old(self)@.update(
                row as int,
                old(self)@[row as int].update(col as int, value),
            ),
    {
        proof {
            lemma_cell_in_range(row as int, col as int, self.n_rows as int, self.n_cols as int);
        }
        let ghost before = self@;
        let idx = row * self.n_cols + col;
        self.vec.set(idx, value);
        proof {
            let cols = self.n_cols as int;
            let expected = before.update(row as int, before[row as int].update(col as int, value));
            assert forall|r: int| 0 <= r < self@.len() implies #[trigger] self@[r] =~= expected[r] by {
                assert forall|c: int| 0 <= c < cols implies self@[r][c] == expected[r][c] by {
                    lemma_cell_in_range(r, c, self.n_rows as int, cols);
                    if r * cols + c == idx {
                        lemma_cell_injective(r, c, row as int, col as int, cols);
                    }
                }
            }
            assert(self@ =~= expected);
        }
    }

    /// Row `row` as a contiguous slice.
    pub fn get_row(&self, row: usize) -> (r: &[T])
        requires
            self.wf(),
            row < self@.len(),
        ensures
            r@ == self@[row as int],
    {
        proof {
            if self.n_cols > 0 {
                lemma_cell_in_range(row as int, 0, self.n_rows as int, self.n_cols as int);
            } else {
                assert(row * self.n_cols == 0) by (nonlinear_arith)
                    requires
                        self.n_cols == 0,
                ;
            }
        }
        let offset = row * self.n_cols;
        let r = vstd::slice::slice_subrange(self.vec.as_slice(), offset, offset + self.n_cols);
        assert(r@ =~= self@[row as int]);
        r
    }
}

impl<T: Default> Vec2<T> {
    /// A table of `n_rows` rows and `n_cols` columns, each cell a default value.
    pub fn new(n_rows: usize, n_cols: usize) -> (r: Self)
        requires
            n_rows * n_cols <= usize::MAX,
        ensures
            r.wf(),
            r@.len() == n_rows,
            r.spec_n_cols() == n_cols,
            forall|i: int, j: int|
                0 <= i < n_rows && 0 <= j < n_cols ==> is_default(#[trigger] r@[i][j]),
    {
        let total = n_rows * n_cols;
        let mut vec: Vec<T> = Vec::with_capacity(total);
        let mut k: usize = 0;
        while k < total
            invariant
                k <= total,
                vec@.len() == k,
                forall|i: int| 0 <= i < k ==> is_default(#[trigger] vec@[i]),
            decreases total - k,
        {
            vec.push(T::default());
            k = k + 1;
        }
        let r = Self { n_rows, n_cols, vec };
        proof {
            assert forall|i: int, j: int|
                0 <= i < n_rows && 0 <= j < n_cols implies is_default(#[trigger] r@[i][j]) by {
                lemma_cell_in_range(i, j, n_rows as int, n_cols as int);
            }
        }
        r
    }

    /// Appends one row of default values.
    pub fn add_row(&mut self)
        requires
            old(self).wf(),
            old(self)@.len() + 1 <= usize::MAX,
            (old(self)@.len() + 1) * old(self).spec_n_cols() <= usize::MAX,
        ensures
            final(self).wf(),
            final(self).spec_n_cols() == old(self).spec_n_cols(),
            final(self)@.len() == old(self)@.len() + 1,
            final(self)@.subrange(0, old(self)@.len() as int) == old(self)@,
            forall|j: int|
                0 <= j < old(self).spec_n_cols() ==> is_default(
                    #[trigger] final(self)@[old(self)@.len() as int][j],
                ),
    {
        let ghost before = self@;
        let ghost old_vec = self.vec@;
        proof {
            assert((self.n_rows + 1) * self.n_cols == self.n_rows * self.n_cols + self.n_cols)
                by (nonlinear_arith);
        }
        let mut k: usize = 0;
        while k < self.n_cols
            invariant
                self.n_rows == before.len(),
                self.n_cols == old(self).n_cols,
                self.n_rows + 1 <= usize::MAX,
                (self.n_rows + 1) * self.n_cols == self.n_rows * self.n_cols + self.n_cols,
                (self.n_rows + 1) * self.n_cols <= usize::MAX,
                k <= self.n_cols,
                old_vec.len() == self.n_rows * self.n_cols,
                self.vec@.len() == old_vec.len() + k,
                self.vec@.subrange(0, old_vec.len() as int) == old_vec,
                forall|i: int|
                    old_vec.len() <= i < self.vec@.len() ==> is_default(#[trigger] self.vec@[i]),
            decreases self.n_cols - k,
        {
            self.vec.push(T::default());
            k = k + 1;
            assert(self.vec@.subrange(0, old_vec.len() as int) =~= old_vec);
        }
        self.n_rows = self.n_rows + 1;
        proof {
            let cols = self.n_cols as int;
            let rows = before.len() as int;
            assert forall|r: int| 0 <= r < rows implies #[trigger] self@[r] =~= before[r] by {
                assert forall|c: int| 0 <= c < cols implies self@[r][c] == before[r][c] by {
                    lemma_cell_in_range(r, c, rows, cols);
                    assert(self.vec@[r * cols + c] == self.vec@.subrange(0, old_vec.len() as int)[r
                        * cols + c]);
                }
            }
            assert(self@.subrange(0, rows) =~= before);
            assert forall|j: int| 0 <= j < cols implies is_default(#[trigger] self@[rows][j]) by {
                lemma_cell_in_range(rows, j, rows + 1, cols);
            }
        }
    }

    /// Appends `nr` rows of default values.
    pub fn add_rows(&mut self, nr: usize)
        requires
            old(self).wf(),
            old(self)@.len() + nr <= usize::MAX,
            (old(self)@.len() + nr) * old(self).spec_n_cols() <= usize::MAX,
        ensures
            final(self).wf(),
            final(self).spec_n_cols() == old(self).spec_n_cols(),
            final(self)@.len() == old(self)@.len() + nr,
            final(self)@.subrange(0, old(self)@.len() as int) == old(self)@,
            forall|i: int, j: int|
                old(self)@.len() <= i < final(self)@.len() && 0 <= j < old(self).spec_n_cols()
                    ==> is_default(#[trigger] final(self)@[i][j]),
    {
        let ghost before = self@;
        let mut k: usize = 0;
        while k < nr
            invariant
                self.wf(),
                k <= nr,
                self.spec_n_cols() == old(self).spec_n_cols(),
                before.len() + nr <= usize::MAX,
                (before.len() + nr) * self.spec_n_cols() <= usize::MAX,
                self@.len() == before.len() + k,
                self@.subrange(0, before.len() as int) == before,
                forall|i: int, j: int|
                    before.len() <= i < self@.len() && 0 <= j < self.spec_n_cols() ==> is_default(
                        #[trigger] self@[i][j],
                    ),
            decreases nr - k,
        {
            let ghost prev = self@;
            proof {
                assert((self@.len() + 1) * self.spec_n_cols() <= (before.len() + nr)
                    * self.spec_n_cols()) by (nonlinear_arith)
                    requires
                        self@.len() + 1 <= before.len() + nr,
                ;
            }
            self.add_row();
            k = k + 1;
            proof {
                assert forall|i: int, j: int|
                    before.len() <= i < self@.len() && 0 <= j < self.spec_n_cols() implies is_default(
                    #[trigger] self@[i][j],
                ) by {
                    if i < prev.len() {
                        assert(self@[i] == self@.subrange(0, prev.len() as int)[i]);
                    }
                }
                assert(self@.subrange(0, before.len() as int) =~= prev.subrange(
                    0,
                    before.len() as int,
                ));
            }
        }
    }

    /// Appends one column of default values; every row stays contiguous.
    pub fn add_col(&mut self)
        requires
            old(self).wf(),
            old(self).spec_n_cols() + 1 <= usize::MAX,
            old(self)@.len() * (old(self).spec_n_cols() + 1) <= usize::MAX,
        ensures
            final(self).wf(),
            final(self).spec_n_cols() == old(self).spec_n_cols() + 1,
            final(self)@.len() == old(self)@.len(),
            forall|i: int|
                0 <= i < old(self)@.len() ==> (#[trigger] final(self)@[i]).subrange(
                    0,
                    old(self).spec_n_cols() as int,
                ) == old(self)@[i],
            forall|i: int|
                0 <= i < old(self)@.len() ==> is_default(
                    #[trigger] final(self)@[i][old(self).spec_n_cols() as int],
                ),
    {
        let ghost before = self@;
        let ghost old_vec = self.vec@;
        let rows = self.n_rows;
        let cols = self.n_cols;
        proof {
            assert(rows * (cols + 1) == rows * cols + rows) by (nonlinear_arith);
        }
        let mut row = rows;
        // Rows from `row` on already hold their new cell; such a row `r` now starts
        // `r - row` places after where it started.
        while row > 0
            invariant
                rows == self.n_rows,
                cols == self.n_cols,
                rows * (cols + 1) <= usize::MAX,
                rows * (cols + 1) == rows * cols + rows,
                rows * cols <= usize::MAX,
                old_vec.len() == rows * cols,
                row <= rows,
                self.vec@.len() == rows * cols + (rows - row),
                forall|r: int, c: int|
                    0 <= r < row && 0 <= c < cols ==> self.vec@[r * cols + c] == #[trigger] old_vec[r
                        * cols + c],
                forall|r: int, c: int|
                    row <= r < rows && 0 <= c < cols ==> self.vec@[r * cols + r - row + c]
                        == #[trigger] old_vec[r * cols + c],
                forall|r: int|
                    row <= r < rows ==> is_default(#[trigger] self.vec@[r * cols + r - row + cols]),
            decreases row,
        {
            let ghost prev = self.vec@;
            let ghost big = row as int;
            proof {
                assert(row * cols <= rows * cols) by (nonlinear_arith)
                    requires
                        row <= rows,
                ;
            }
            let at = row * cols;
            self.vec.insert(at, T::default());
            row = row - 1;
            proof {
                prev.insert_ensures(at as int, self.vec@[at as int]);
                assert(at == row * cols + cols) by (nonlinear_arith)
                    requires
                        at == big * cols,
                        big == row + 1,
                ;
                assert forall|r: int, c: int|
                    0 <= r < row && 0 <= c < cols implies self.vec@[r * cols + c]
                    == #[trigger] old_vec[r * cols + c] by {
                    assert(r * cols + c < at) by (nonlinear_arith)
                        requires
                            at == row * cols + cols,
                            r + 1 <= row,
                            c < cols,
                    ;
                }
                assert forall|r: int, c: int|
                    row <= r < rows && 0 <= c < cols implies self.vec@[r * cols + r - row + c]
                    == #[trigger] old_vec[r * cols + c] by {
                    lemma_cell_in_range(r, c, rows as int, cols as int);
                    if r > row {
                        assert(at <= r * cols + r - big + c) by (nonlinear_arith)
                            requires
                                at == big * cols,
                                r >= big,
                                c >= 0,
                        ;
                        let p = r * cols + r - big + c;
                        assert(self.vec@[p + 1] == prev[p]);
                    } else {
                        assert(self.vec@[r * cols + c] == prev[r * cols + c]);
                    }
                }
                assert forall|r: int| row <= r < rows implies is_default(
                    #[trigger] self.vec@[r * cols + r - row + cols],
                ) by {
                    if r > row {
                        assert(at <= r * cols + r - big + cols) by (nonlinear_arith)
                            requires
                                at == big * cols,
                                r >= big,
                                cols >= 0,
                        ;
                        assert(r * cols + cols <= rows * cols) by (nonlinear_arith)
                            requires
                                r + 1 <= rows,
                                cols >= 0,
                        ;
                        let p = r * cols + r - big + cols;
                        assert(self.vec@[p + 1] == prev[p]);
                    }
                }
            }
        }
        self.n_cols = cols + 1;
        proof {
            assert forall|i: int|
                0 <= i < rows implies (#[trigger] self@[i]).subrange(0, cols as int) =~= before[i] by {
                assert forall|c: int| 0 <= c < cols implies self@[i].subrange(0, cols as int)[c]
                    == before[i][c] by {
                    lemma_cell_in_range(i, c, rows as int, cols as int);
                    assert(i * (cols + 1) + c == i * cols + i + c) by (nonlinear_arith);
                    assert(self.vec@[i * cols + i - row + c] == old_vec[i * cols + c]);
                }
            }
            assert forall|i: int| 0 <= i < rows implies is_default(
                #[trigger] self@[i][cols as int],
            ) by {
                assert(i * (cols + 1) + cols == i * cols + i + cols) by (nonlinear_arith);
                assert(is_default(self.vec@[i * cols + i - row + cols]));
            }
        }
    }

    /// Appends `nr` columns of default values.
    pub fn add_cols(&mut self, nr: usize)
        requires
            old(self).wf(),
            old(self).spec_n_cols() + nr <= usize::MAX,
            old(self)@.len() * (old(self).spec_n_cols() + nr) <= usize::MAX,
        ensures
            final(self).wf(),
            final(self).spec_n_cols() == old(self).spec_n_cols() + nr,
            final(self)@.len() == old(self)@.len(),
            forall|i: int|
                0 <= i < old(self)@.len() ==> (#[trigger] final(self)@[i]).subrange(
                    0,
                    old(self).spec_n_cols() as int,
                ) == old(self)@[i],
            forall|i: int, j: int|
                0 <= i < old(self)@.len() && old(self).spec_n_cols() <= j < final(self).spec_n_cols()
                    ==> is_default(#[trigger] final(self)@[i][j]),
    {
        let ghost before = self@;
        let ghost cols0 = self.spec_n_cols();
        let mut k: usize = 0;
        while k < nr
            invariant
                self.wf(),
                k <= nr,
                self@.len() == before.len(),
                self.spec_n_cols() == cols0 + k,
                cols0 + nr <= usize::MAX,
                before.len() * (cols0 + nr) <= usize::MAX,
                forall|i: int|
                    0 <= i < before.len() ==> (#[trigger] self@[i]).subrange(0, cols0 as int)
                        == before[i],
                forall|i: int, j: int|
                    0 <= i < before.len() && cols0 <= j < self.spec_n_cols() ==> is_default(
                        #[trigger] self@[i][j],
                    ),
            decreases nr - k,
        {
            let ghost prev = self@;
            proof {
                assert(before.len() * (self.spec_n_cols() + 1) <= before.len() * (cols0 + nr))
                    by (nonlinear_arith)
                    requires
                        self.spec_n_cols() + 1 <= cols0 + nr,
                ;
            }
            self.add_col();
            k = k + 1;
            proof {
                assert forall|i: int| 0 <= i < before.len() implies (#[trigger] self@[i]).subrange(
                    0,
                    cols0 as int,
                ) == before[i] by {
                    assert(self@[i].subrange(0, cols0 as int) =~= self@[i].subrange(
                        0,
                        prev[i].len() as int,
                    ).subrange(0, cols0 as int));
                }
                assert forall|i: int, j: int|
                    0 <= i < before.len() && cols0 <= j < self.spec_n_cols() implies is_default(
                    #[trigger] self@[i][j],
                ) by {
                    if j < prev[i].len() {
                        assert(self@[i][j] == self@[i].subrange(0, prev[i].len() as int)[j]);
                    }
                }
            }
        }
    }
}

} // verus!
