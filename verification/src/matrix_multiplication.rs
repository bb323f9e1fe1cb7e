use vstd::prelude::*;

use crate::field::Field;
use crate::matrix::Matrix;

verus! {

/// The left-fold sum of a nonempty sequence of scalars, in the order
/// `squish` adds them.
pub open spec fn seq_sum<T: Field>(s: Seq<T>) -> T
    decreases s.len(),
{
    if s.len() <= 1 {
        s[0]
    } else {
        T::add_spec(seq_sum(s.drop_last()), s.last())
    }
}

/// The entry at (i, j) of the product of two matrices.
pub open spec fn product_entry<T: Field>(a: Matrix<T>, b: Matrix<T>, i: int, j: int) -> T {
    seq_sum(Seq::new(a.columns as nat, |k: int| T::mul_spec(a.at(i, k), b.at(k, j))))
}

/// A sum of zeros is zero.
pub proof fn lemma_seq_sum_zero<T: Field>(s: Seq<T>)
    requires
        s.len() >= 1,
        forall|k: int| 0 <= k < s.len() ==> s[k] == T::zero_spec(),
    ensures
        seq_sum(s) == T::zero_spec(),
    decreases s.len(),
{
    if s.len() > 1 {
        lemma_seq_sum_zero::<T>(s.drop_last());
        T::law_add_zero(T::zero_spec());
    }
}

/// A sum whose entries vanish everywhere but at one index is that entry.
pub proof fn lemma_seq_sum_single<T: Field>(s: Seq<T>, i: int)
    requires
        0 <= i < s.len(),
        forall|k: int| 0 <= k < s.len() && k != i ==> s[k] == T::zero_spec(),
    ensures
        seq_sum(s) == s[i],
    decreases s.len(),
{
    if s.len() > 1 {
        if i == s.len() - 1 {
            lemma_seq_sum_zero::<T>(s.drop_last());
            T::law_zero_add(s[i]);
        } else {
            lemma_seq_sum_single::<T>(s.drop_last(), i);
            T::law_add_zero(s[i]);
        }
    }
}

/// A sum whose entries vanish everywhere but at two indices is the sum of
/// those two entries.
pub proof fn lemma_seq_sum_pair<T: Field>(s: Seq<T>, i: int, j: int)
    requires
        0 <= i < j < s.len(),
        forall|k: int| 0 <= k < s.len() && k != i && k != j ==> s[k] == T::zero_spec(),
    ensures
        seq_sum(s) == T::add_spec(s[i], s[j]),
    decreases s.len(),
{
    if j == s.len() - 1 {
        lemma_seq_sum_single::<T>(s.drop_last(), i);
    } else {
        lemma_seq_sum_pair::<T>(s.drop_last(), i, j);
        T::law_add_zero(T::add_spec(s[i], s[j]));
    }
}

/// Substituting the all-zero parameter vector into a parametric solution
/// family reproduces the offset: every entry of the product of the
/// parameter matrix with the zero vector is zero, and adding it to the
/// offset changes nothing.
pub proof fn lemma_zero_parameters_reproduce_offset<T: Field>(
    offset: Matrix<T>,
    pm: Matrix<T>,
    p: Matrix<T>,
)
    requires
        offset.wf(),
        pm.wf(),
        p.wf(),
        offset.columns == 1,
        p.columns == 1,
        offset.rows == pm.rows,
        p.rows == pm.columns,
        pm.columns >= 1,
        forall|k: int| 0 <= k < p.rows ==> p.at(k, 0) == T::zero_spec(),
    ensures
        forall|i: int|
            0 <= i < pm.rows ==> #[trigger] product_entry(pm, p, i, 0) == T::zero_spec(),
        forall|i: int|
            0 <= i < offset.rows ==> T::add_spec(offset.at(i, 0), #[trigger] product_entry(
                pm,
                p,
                i,
                0,
            )) == offset.at(i, 0),
{
    assert forall|i: int| 0 <= i < pm.rows implies #[trigger] product_entry(pm, p, i, 0)
        == T::zero_spec() by {
        let s = Seq::new(pm.columns as nat, |k: int| T::mul_spec(pm.at(i, k), p.at(k, 0)));
        assert forall|k: int| 0 <= k < s.len() implies s[k] == T::zero_spec() by {
            T::law_mul_zero_right(pm.at(i, k));
        }
        lemma_seq_sum_zero::<T>(s);
    }
    assert forall|i: int|
        0 <= i < offset.rows implies T::add_spec(offset.at(i, 0), #[trigger] product_entry(
        pm,
        p,
        i,
        0,
    )) == offset.at(i, 0) by {
        T::law_add_zero(offset.at(i, 0));
    }
}

/// Multiplying a matrix by a standard basis column extracts one of its
/// columns: substituting the parameter vector `e_j` into a parametric
/// solution family adds exactly column `j` of the parameter matrix to the
/// offset.
pub proof fn lemma_basis_vector_extracts_column<T: Field>(pm: Matrix<T>, e: Matrix<T>, j: int)
    requires
        pm.wf(),
        e.wf(),
        e.columns == 1,
        e.rows == pm.columns,
        0 <= j < pm.columns,
        e.at(j, 0) == T::one_spec(),
        forall|k: int| 0 <= k < e.rows && k != j ==> e.at(k, 0) == T::zero_spec(),
    ensures
        forall|v: int| 0 <= v < pm.rows ==> #[trigger] product_entry(pm, e, v, 0) == pm.at(v, j),
{
    assert forall|v: int| 0 <= v < pm.rows implies #[trigger] product_entry(pm, e, v, 0) == pm.at(
        v,
        j,
    ) by {
        let s = Seq::new(pm.columns as nat, |k: int| T::mul_spec(pm.at(v, k), e.at(k, 0)));
        assert forall|k: int| 0 <= k < s.len() && k != j implies s[k] == T::zero_spec() by {
            T::law_mul_zero_right(pm.at(v, k));
        }
        T::law_mul_one(pm.at(v, j));
        assert(s[j] == pm.at(v, j));
        lemma_seq_sum_single::<T>(s, j);
    }
}

impl<T: Field> Matrix<T> {
    /// Multiply every cell by the entry of `coefficient_row` in its
    /// column.
    pub fn seep(&mut self, coefficient_row: Matrix<T>)
        requires
            old(self).wf(),
            coefficient_row.wf(),
            coefficient_row.rows == 1,
            old(self).columns == coefficient_row.columns,
        ensures
            final(self).wf(),
            final(self).rows == old(self).rows,
            final(self).columns == old(self).columns,
            forall|r: int, c: int|
                0 <= r < old(self).rows && 0 <= c < old(self).columns ==> #[trigger] final(self).at(r, c) == T::mul_spec(old(self).at(r, c), coefficient_row.at(0, c)),
    {
        let mut r: usize = 0;
        let rows = self.rows;
        let columns = self.columns;
        while r < rows
            invariant
                r <= rows,
                rows == self.rows,
                columns == self.columns,
                self.rows == old(self).rows,
                self.columns == old(self).columns,
                self.wf(),
                old(self).wf(),
                coefficient_row.wf(),
                coefficient_row.rows == 1,
                coefficient_row.columns == self.columns,
                forall|i: int| r <= i < self.rows ==> self.cells@[i] == old(self).cells@[i],
                forall|i: int, c: int|
                    0 <= i < r && 0 <= c < self.columns ==> #[trigger] self.at(i, c) == T::mul_spec(
                        old(self).at(i, c),
                        coefficient_row.at(0, c),
                    ),
            decreases rows - r,
        {
            let ghost snap = *self;
            let mut c: usize = 0;
            while c < columns
                invariant
                    c <= columns,
                    r < snap.cells@.len(),
                    snap.wf(),
                    snap.rows == self.rows,
                    snap.columns == self.columns,
                    columns == self.columns,
                    coefficient_row.wf(),
                    coefficient_row.rows == 1,
                    coefficient_row.columns == self.columns,
                    self.cells@.len() == snap.cells@.len(),
                    forall|i: int|
                        0 <= i < self.cells@.len() && i != r ==> self.cells@[i] == snap.cells@[i],
                    self.cells@[r as int]@.len() == snap.cells@[r as int]@.len(),
                    forall|j: int|
                        0 <= j < c ==> #[trigger] self.at(r as int, j) == T::mul_spec(
                            snap.at(r as int, j),
                            coefficient_row.at(0, j),
                        ),
                    forall|j: int|
                        c <= j < self.columns ==> #[trigger] self.at(r as int, j) == snap.at(
                            r as int,
                            j,
                        ),
                decreases columns - c,
            {
                let ghost prev = *self;
                let v = self.cells[r][c];
                let w = coefficient_row.cells[0][c];
                self.cells[r][c] = v.mul(w);
                proof {
                    assert forall|j: int| 0 <= j < c + 1 implies #[trigger] self.at(r as int, j)
                        == T::mul_spec(snap.at(r as int, j), coefficient_row.at(0, j)) by {
                        if j < c {
                            assert(self.cells@[r as int]@[j] == prev.cells@[r as int]@[j]);
                            assert(prev.at(r as int, j) == T::mul_spec(
                                snap.at(r as int, j),
                                coefficient_row.at(0, j),
                            ));
                        } else {
                            assert(prev.at(r as int, j) == snap.at(r as int, j));
                        }
                    }
                    assert forall|j: int|
                        c + 1 <= j < self.columns implies #[trigger] self.at(r as int, j)
                        == snap.at(r as int, j) by {
                        assert(self.cells@[r as int]@[j] == prev.cells@[r as int]@[j]);
                        assert(prev.at(r as int, j) == snap.at(r as int, j));
                    }
                    assert forall|i: int|
                        0 <= i < self.cells@.len() && i != r implies self.cells@[i]
                        == snap.cells@[i] by {
                        assert(self.cells@[i] == prev.cells@[i]);
                    }
                }
                c = c + 1;
            }
            proof {
                assert(snap.cells@[r as int] == old(self).cells@[r as int]);
                assert forall|i: int|
                    0 <= i < self.cells@.len() implies (#[trigger] self.cells@[i])@.len()
                    == self.columns by {
                    if i != r {
                        assert(self.cells@[i] == snap.cells@[i]);
                    }
                }
                assert(self.wf());
                assert forall|i: int, cc: int|
                    0 <= i < r + 1 && 0 <= cc < self.columns implies #[trigger] self.at(i, cc)
                    == T::mul_spec(old(self).at(i, cc), coefficient_row.at(0, cc)) by {
                    if i < r {
                        assert(self.cells@[i] == snap.cells@[i]);
                        assert(snap.at(i, cc) == T::mul_spec(
                            old(self).at(i, cc),
                            coefficient_row.at(0, cc),
                        ));
                    } else {
                        assert(snap.at(i, cc) == old(self).at(i, cc));
                    }
                }
            }
            r = r + 1;
        }
    }

    /// Collapse the matrix into the single column of its row sums.
    pub fn squish(&mut self)
        requires
            old(self).wf(),
            old(self).columns >= 1,
        ensures
            final(self).wf(),
            final(self).rows == old(self).rows,
            final(self).columns == 1,
            forall|r: int|
                0 <= r < old(self).rows ==> #[trigger] final(self).at(r, 0) == seq_sum(
                    old(self).row_seq(r),
                ),
    {
        let n = self.columns;
        self.columns = 1;
        let mut r: usize = 0;
        let rows = self.rows;
        while r < rows
            invariant
                r <= rows,
                rows == self.rows,
                n == old(self).columns,
                n >= 1,
                self.rows == old(self).rows,
                self.columns == 1,
                old(self).wf(),
                self.cells@.len() == self.rows,
                forall|i: int| 0 <= i < r ==> (#[trigger] self.cells@[i])@.len() == 1,
                forall|i: int|
                    0 <= i < r ==> (#[trigger] self.cells@[i])@[0] == seq_sum(
                        old(self).row_seq(i),
                    ),
                forall|i: int| r <= i < self.rows ==> self.cells@[i] == old(self).cells@[i],
            decreases rows - r,
        {
            proof {
                assert(self.cells@[r as int] == old(self).cells@[r as int]);
                assert(old(self).cells@[r as int]@.len() == n);
            }
            let mut acc = self.cells[r][0];
            proof {
                assert(old(self).row_seq(r as int).subrange(0, 1)[0] == old(self).at(r as int, 0));
            }
            let mut c: usize = 1;
            while c < n
                invariant
                    1 <= c <= n,
                    r < rows,
                    rows == self.rows,
                    n == old(self).columns,
                    old(self).wf(),
                    r < self.cells@.len(),
                    self.cells@[r as int] == old(self).cells@[r as int],
                    old(self).row_seq(r as int).len() == n,
                    acc == seq_sum(old(self).row_seq(r as int).subrange(0, c as int)),
                decreases n - c,
            {
                let v = self.cells[r][c];
                acc = acc.add(v);
                proof {
                    let s = old(self).row_seq(r as int);
                    assert(s.subrange(0, c as int + 1).drop_last() =~= s.subrange(0, c as int));
                    assert(s.subrange(0, c as int + 1).last() == s[c as int]);
                }
                c = c + 1;
            }
            proof {
                assert(old(self).row_seq(r as int).subrange(0, n as int) =~= old(self).row_seq(
                    r as int,
                ));
            }
            let mut new_row: Vec<T> = Vec::new();
            new_row.push(acc);
            self.cells[r] = new_row;
            r = r + 1;
        }
    }

    /// The matrix product, column by column: scale a copy of the left
    /// factor by one row of the transposed right factor, sum the rows, and
    /// attach the resulting column on the right.
    pub fn times(&self, other: &Matrix<T>) -> (product: Matrix<T>)
        requires
            self.wf(),
            other.wf(),
            self.columns == other.rows,
            self.columns >= 1,
        ensures
            product.wf(),
            product.rows == self.rows,
            product.columns == other.columns,
            forall|i: int, j: int|
                0 <= i < self.rows && 0 <= j < other.columns ==> #[trigger] product.at(i, j)
                    == product_entry(*self, *other, i, j),
    {
        let mut b = other.duplicate();
        b.transpose();
        let mut product: Matrix<T> = Matrix::new(self.rows, 0);
        let mut b_row: usize = 0;
        while b_row < b.rows
            invariant
                self.wf(),
                other.wf(),
                b.wf(),
                self.columns == other.rows,
                self.columns >= 1,
                b.rows == other.columns,
                b.columns == other.rows,
                forall|i: int, j: int|
                    0 <= i < b.rows && 0 <= j < b.columns ==> #[trigger] b.at(i, j) == other.at(
                        j,
                        i,
                    ),
                b_row <= b.rows,
                product.wf(),
                product.rows == self.rows,
                product.columns == b_row,
                forall|i: int, j: int|
                    0 <= i < self.rows && 0 <= j < b_row ==> #[trigger] product.at(i, j)
                        == product_entry(*self, *other, i, j),
            decreases b.rows - b_row,
        {
            let mut a_clone = self.duplicate();
            let ghost a_start = a_clone;
            let b_row_matrix = b.row(b_row);
            a_clone.seep(b_row_matrix);
            let ghost seeped = a_clone;
            a_clone.squish();
            proof {
                assert forall|i: int| 0 <= i < self.rows implies a_clone.at(i, 0) == product_entry(
                    *self,
                    *other,
                    i,
                    b_row as int,
                ) by {
                    assert(a_clone.at(i, 0) == seq_sum(seeped.row_seq(i)));
                    assert forall|k: int| 0 <= k < self.columns implies seeped.row_seq(i)[k]
                        == T::mul_spec(self.at(i, k), other.at(k, b_row as int)) by {
                        assert(a_start.at(i, k) == self.at(i, k));
                        assert(b_row_matrix.at(0, k) == b.at(b_row as int, k));
                        assert(b.at(b_row as int, k) == other.at(k, b_row as int));
                        assert(seeped.at(i, k) == T::mul_spec(
                            a_start.at(i, k),
                            b_row_matrix.at(0, k),
                        ));
                    }
                    assert(seeped.row_seq(i) =~= Seq::new(
                        self.columns as nat,
                        |k: int| T::mul_spec(self.at(i, k), other.at(k, b_row as int)),
                    ));
                }
            }
            product.attach_to_the_right(a_clone);
            b_row = b_row + 1;
        }
        product
    }

    /// The elementwise sum of two matrices of the same shape.
    pub fn plus(self, other: Matrix<T>) -> (sum: Matrix<T>)
        requires
            self.wf(),
            other.wf(),
            self.rows == other.rows,
            self.columns == other.columns,
        ensures
            sum.wf(),
            sum.rows == self.rows,
            sum.columns == self.columns,
            forall|r: int, c: int|
                0 <= r < self.rows && 0 <= c < self.columns ==> #[trigger] sum.at(r, c)
                    == T::add_spec(self.at(r, c), other.at(r, c)),
    {
        let mut result = self;
        let ghost start = result;
        let mut r: usize = 0;
        let rows = result.rows;
        let columns = result.columns;
        while r < rows
            invariant
                r <= rows,
                rows == result.rows,
                columns == result.columns,
                result.rows == start.rows,
                result.columns == start.columns,
                result.wf(),
                start.wf(),
                other.wf(),
                other.rows == start.rows,
                other.columns == start.columns,
                forall|i: int| r <= i < result.rows ==> result.cells@[i] == start.cells@[i],
                forall|i: int, c: int|
                    0 <= i < r && 0 <= c < result.columns ==> #[trigger] result.at(i, c)
                        == T::add_spec(start.at(i, c), other.at(i, c)),
            decreases rows - r,
        {
            let ghost snap = result;
            let mut c: usize = 0;
            while c < columns
                invariant
                    c <= columns,
                    r < snap.cells@.len(),
                    snap.wf(),
                    snap.rows == result.rows,
                    snap.columns == result.columns,
                    columns == result.columns,
                    other.wf(),
                    other.rows == result.rows,
                    other.columns == result.columns,
                    r < result.rows,
                    result.cells@.len() == snap.cells@.len(),
                    forall|i: int|
                        0 <= i < result.cells@.len() && i != r ==> result.cells@[i]
                            == snap.cells@[i],
                    result.cells@[r as int]@.len() == snap.cells@[r as int]@.len(),
                    forall|j: int|
                        0 <= j < c ==> #[trigger] result.at(r as int, j) == T::add_spec(
                            snap.at(r as int, j),
                            other.at(r as int, j),
                        ),
                    forall|j: int|
                        c <= j < result.columns ==> #[trigger] result.at(r as int, j) == snap.at(
                            r as int,
                            j,
                        ),
                decreases columns - c,
            {
                let ghost prev = result;
                let v = result.cells[r][c];
                let w = other.cells[r][c];
                result.cells[r][c] = v.add(w);
                proof {
                    assert forall|j: int| 0 <= j < c + 1 implies #[trigger] result.at(r as int, j)
                        == T::add_spec(snap.at(r as int, j), other.at(r as int, j)) by {
                        if j < c {
                            assert(result.cells@[r as int]@[j] == prev.cells@[r as int]@[j]);
                            assert(prev.at(r as int, j) == T::add_spec(
                                snap.at(r as int, j),
                                other.at(r as int, j),
                            ));
                        } else {
                            assert(prev.at(r as int, j) == snap.at(r as int, j));
                        }
                    }
                    assert forall|j: int|
                        c + 1 <= j < result.columns implies #[trigger] result.at(r as int, j)
                        == snap.at(r as int, j) by {
                        assert(result.cells@[r as int]@[j] == prev.cells@[r as int]@[j]);
                        assert(prev.at(r as int, j) == snap.at(r as int, j));
                    }
                    assert forall|i: int|
                        0 <= i < result.cells@.len() && i != r implies result.cells@[i]
                        == snap.cells@[i] by {
                        assert(result.cells@[i] == prev.cells@[i]);
                    }
                }
                c = c + 1;
            }
            proof {
                assert(snap.cells@[r as int] == start.cells@[r as int]);
                assert forall|i: int|
                    0 <= i < result.cells@.len() implies (#[trigger] result.cells@[i])@.len()
                    == result.columns by {
                    if i != r {
                        assert(result.cells@[i] == snap.cells@[i]);
                    }
                }
                assert(result.wf());
                assert forall|i: int, cc: int|
                    0 <= i < r + 1 && 0 <= cc < result.columns implies #[trigger] result.at(i, cc)
                    == T::add_spec(start.at(i, cc), other.at(i, cc)) by {
                    if i < r {
                        assert(result.cells@[i] == snap.cells@[i]);
                        assert(snap.at(i, cc) == T::add_spec(start.at(i, cc), other.at(i, cc)));
                    } else {
                        assert(snap.at(i, cc) == start.at(i, cc));
                    }
                }
            }
            r = r + 1;
        }
        result
    }
}

} // verus!

