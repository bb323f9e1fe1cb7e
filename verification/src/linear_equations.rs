use vstd::prelude::*;

use crate::field::{Field, Scalar};
use crate::matrix::Matrix;
use crate::matrix_multiplication::{lemma_seq_sum_pair, lemma_seq_sum_single, lemma_seq_sum_zero};

verus! {

/// Number of leading zero entries of a row: the pivot column index, or the
/// row length for an all-zero row.
pub open spec fn leading_zeros<T: Scalar>(s: Seq<T>) -> int
    decreases s.len(),
{
    if s.len() == 0 {
        0
    } else if s[0] != T::zero_spec() {
        0
    } else {
        1 + leading_zeros(s.subrange(1, s.len() as int))
    }
}

pub proof fn lemma_leading_zeros_bounds<T: Scalar>(s: Seq<T>)
    ensures
        0 <= leading_zeros(s) <= s.len(),
        forall|j: int| 0 <= j < leading_zeros(s) ==> s[j] == T::zero_spec(),
        leading_zeros(s) < s.len() ==> s[leading_zeros(s)] != T::zero_spec(),
    decreases s.len(),
{
    if s.len() == 0 {
    } else if s[0] != T::zero_spec() {
    } else {
        let t = s.subrange(1, s.len() as int);
        lemma_leading_zeros_bounds::<T>(t);
        assert forall|j: int| 0 <= j < leading_zeros(s) implies s[j] == T::zero_spec() by {
            if j > 0 {
                assert(t[j - 1] == s[j]);
            }
        }
        if leading_zeros(s) < s.len() {
            assert(t[leading_zeros(s) - 1] == s[leading_zeros(s)]);
        }
    }
}

pub proof fn lemma_leading_zeros_char<T: Scalar>(s: Seq<T>, n: int)
    requires
        0 <= n <= s.len(),
        forall|j: int| 0 <= j < n ==> s[j] == T::zero_spec(),
        n < s.len() ==> s[n] != T::zero_spec(),
    ensures
        leading_zeros(s) == n,
    decreases s.len(),
{
    if s.len() == 0 {
    } else if n == 0 {
    } else {
        let t = s.subrange(1, s.len() as int);
        assert(s[0] == T::zero_spec());
        assert forall|j: int| 0 <= j < n - 1 implies t[j] == T::zero_spec() by {
            assert(t[j] == s[j + 1]);
        }
        if n - 1 < t.len() {
            assert(t[n - 1] == s[n]);
        }
        lemma_leading_zeros_char::<T>(t, n - 1);
    }
}

fn leading_zero_count<T: Scalar>(row: &Vec<T>) -> (k: usize)
    ensures
        k == leading_zeros::<T>(row@),
        0 <= k <= row@.len(),
{
    let mut k: usize = 0;
    let n = row.len();
    while k < n
        invariant
            k <= n,
            n == row@.len(),
            forall|j: int| 0 <= j < k ==> row@[j] == T::zero_spec(),
        decreases n - k,
    {
        if !row[k].is_zero() {
            proof {
                lemma_leading_zeros_char::<T>(row@, k as int);
            }
            return k;
        }
        k = k + 1;
    }
    proof {
        lemma_leading_zeros_char::<T>(row@, n as int);
    }
    k
}

pub proof fn lemma_leading_zeros_at_least<T: Scalar>(s: Seq<T>, k: int)
    requires
        0 <= k <= s.len(),
        forall|j: int| 0 <= j < k ==> s[j] == T::zero_spec(),
    ensures
        leading_zeros(s) >= k,
{
    lemma_leading_zeros_bounds::<T>(s);
    if leading_zeros(s) < k {
        assert(s[leading_zeros(s)] != T::zero_spec());
        assert(false);
    }
}

/// In row-echelon form the pivot columns of rows with a nonzero entry
/// increase strictly with the row index, across any gap.
pub proof fn lemma_echelon_monotone<T: Scalar>(m: Matrix<T>, i: int, j: int)
    requires
        m.echelon(),
        0 <= i < j < m.rows,
        m.pivot_col(j) < m.columns,
    ensures
        m.pivot_col(i) < m.pivot_col(j),
        m.pivot_col(i) < m.columns,
    decreases j - i,
{
    assert(m.pivot_col(j - 1) < m.pivot_col(j));
    if i < j - 1 {
        lemma_echelon_monotone(m, i, j - 1);
    }
}

/// Matrices with the same grid have the same pivot columns.
pub proof fn lemma_same_grid_pivots<T: Scalar>(a: Matrix<T>, b: Matrix<T>)
    requires
        a.wf(),
        b.wf(),
        a.same_grid(b),
    ensures
        forall|r: int| 0 <= r < a.rows ==> a.pivot_col(r) == #[trigger] b.pivot_col(r),
{
    assert forall|r: int| 0 <= r < a.rows implies a.pivot_col(r) == #[trigger] b.pivot_col(r) by {
        lemma_leading_zeros_bounds::<T>(a.row_seq(r));
        assert forall|j: int| 0 <= j < a.pivot_col(r) implies b.row_seq(r)[j]
            == T::zero_spec() by {
            assert(a.at(r, j) == b.at(r, j));
        }
        if a.pivot_col(r) < a.columns {
            assert(a.at(r, a.pivot_col(r)) == b.at(r, a.pivot_col(r)));
        }
        lemma_leading_zeros_char::<T>(b.row_seq(r), a.pivot_col(r));
    }
}

/// The solution set of an augmented linear system: empty, a single point,
/// or an affine family `offset + parameter_matrix · p` over free parameter
/// vectors `p`.
#[derive(Debug)]
pub enum LinearEquationSystemSolutions<T> {
    NoSolution,
    ExactSolution(Matrix<T>),
    ManySolutions { offset: Matrix<T>, parameter_matrix: Matrix<T> },
}


pub proof fn lemma_reduces_refl<T: Field>(m: Matrix<T>)
    ensures
        m.reduces_to(m),
{
    assert(m.same_grid(m));
    assert(m.row_ops_reach(m, 0));
}

pub proof fn lemma_reduces_step<T: Field>(a: Matrix<T>, b: Matrix<T>, c: Matrix<T>)
    requires
        a.reduces_to(b),
        b.row_step(c),
    ensures
        a.reduces_to(c),
{
    let k = choose|k: nat| a.row_ops_reach(b, k);
    assert(a.row_ops_reach(c, k + 1));
}

/// A row operation with an equal-grid result is the same row operation.
pub proof fn lemma_step_same_grid<T: Field>(a: Matrix<T>, b: Matrix<T>, c: Matrix<T>)
    requires
        a.row_step(b),
        b.same_grid(c),
    ensures
        a.row_step(c),
{
    if exists|i: int, j: int| a.row_swap_step(b, i, j) {
        let (i, j) = choose|i: int, j: int| a.row_swap_step(b, i, j);
        assert forall|r: int, cc: int|
            0 <= r < a.rows && 0 <= cc < a.columns implies #[trigger] c.at(r, cc) == a.at(
            if r == i {
                j
            } else if r == j {
                i
            } else {
                r
            },
            cc,
        ) by {
            assert(b.at(r, cc) == c.at(r, cc));
        }
        assert(a.row_swap_step(c, i, j));
    } else {
        let (origin, factor, target) = choose|origin: int, factor: T, target: int|
            a.row_add_step(b, origin, factor, target);
        assert forall|r: int, cc: int|
            0 <= r < a.rows && 0 <= cc < a.columns && r != target implies #[trigger] c.at(r, cc)
            == a.at(r, cc) by {
            assert(b.at(r, cc) == c.at(r, cc));
        }
        assert forall|cc: int| 0 <= cc < a.columns implies #[trigger] c.at(target, cc)
            == T::add_spec(a.at(target, cc), T::mul_spec(a.at(origin, cc), factor)) by {
            assert(b.at(target, cc) == c.at(target, cc));
        }
        assert(a.row_add_step(c, origin, factor, target));
    }
}

pub proof fn lemma_reach_same_grid<T: Field>(a: Matrix<T>, b: Matrix<T>, c: Matrix<T>, k: nat)
    requires
        a.row_ops_reach(b, k),
        b.same_grid(c),
    ensures
        a.row_ops_reach(c, k),
    decreases k,
{
    if k == 0 {
        assert forall|r: int, cc: int|
            0 <= r < a.rows && 0 <= cc < a.columns implies a.at(r, cc) == #[trigger] c.at(
            r,
            cc,
        ) by {
            assert(a.at(r, cc) == b.at(r, cc));
            assert(b.at(r, cc) == c.at(r, cc));
        }
        assert(a.same_grid(c));
    } else {
        let mid = choose|mid: Matrix<T>|
            a.row_ops_reach(mid, (k - 1) as nat) && #[trigger] mid.row_step(b);
        lemma_step_same_grid::<T>(mid, b, c);
        assert(a.row_ops_reach(c, k));
    }
}

pub proof fn lemma_reduces_trans_steps<T: Field>(a: Matrix<T>, b: Matrix<T>, c: Matrix<T>, k: nat)
    requires
        a.reduces_to(b),
        b.row_ops_reach(c, k),
    ensures
        a.reduces_to(c),
    decreases k,
{
    if k == 0 {
        let ka = choose|ka: nat| a.row_ops_reach(b, ka);
        lemma_reach_same_grid::<T>(a, b, c, ka);
    } else {
        let mid = choose|mid: Matrix<T>|
            b.row_ops_reach(mid, (k - 1) as nat) && #[trigger] mid.row_step(c);
        lemma_reduces_trans_steps::<T>(a, b, mid, (k - 1) as nat);
        lemma_reduces_step::<T>(a, mid, c);
    }
}

pub proof fn lemma_reduces_trans<T: Field>(a: Matrix<T>, b: Matrix<T>, c: Matrix<T>)
    requires
        a.reduces_to(b),
        b.reduces_to(c),
    ensures
        a.reduces_to(c),
{
    let k = choose|k: nat| b.row_ops_reach(c, k);
    lemma_reduces_trans_steps::<T>(a, b, c, k);
}

/// Past a row whose pivot reaches the right-hand-side column, a
/// consistent matrix in row-echelon form holds nothing but all-zero rows.
pub proof fn lemma_zero_row_tail<T: Field>(m: Matrix<T>, r0: int)
    requires
        m.wf(),
        m.columns >= 1,
        m.echelon(),
        !m.inconsistent(),
        0 <= r0 < m.rows,
        m.pivot_col(r0) >= m.columns - 1,
    ensures
        forall|q: int| r0 <= q < m.rows ==> #[trigger] m.pivot_col(q) == m.columns,
{
    lemma_leading_zeros_bounds::<T>(m.row_seq(r0));
    if m.pivot_col(r0) == m.columns - 1 {
        assert(m.at(r0, m.columns - 1) != T::zero_spec());
        assert forall|c: int| 0 <= c < m.columns - 1 implies m.at(r0, c) == T::zero_spec() by {
            assert(m.row_seq(r0)[c] == T::zero_spec());
        }
        assert(m.inconsistent_row(r0));
        assert(m.inconsistent());
        assert(false);
    }
    assert forall|q: int| r0 <= q < m.rows implies #[trigger] m.pivot_col(q) == m.columns by {
        lemma_leading_zeros_bounds::<T>(m.row_seq(q));
        if q > r0 && m.pivot_col(q) < m.columns {
            lemma_echelon_monotone::<T>(m, r0, q);
        }
    }
}

/// The count of free variables left of a column grows by zero or one per
/// column.
pub proof fn lemma_free_count_range<T: Field>(m: Matrix<T>, a: int, b: int)
    requires
        0 <= a <= b,
    ensures
        0 <= m.free_count_upto(b) - m.free_count_upto(a) <= b - a,
    decreases b - a,
{
    if a < b {
        lemma_free_count_range(m, a, b - 1);
    }
}

/// In strict row-echelon form, a nonzero coefficient outside a row's own
/// pivot column stands in a free column.
pub proof fn lemma_nonzero_entry_free<T: Field>(m: Matrix<T>, r: int, c: int)
    requires
        m.wf(),
        m.strict_echelon(),
        0 <= r < m.rows,
        0 <= c < m.columns - 1,
        m.at(r, c) != T::zero_spec(),
        c != m.pivot_col(r),
    ensures
        m.free_var(c),
{
    lemma_leading_zeros_bounds::<T>(m.row_seq(r));
    assert(m.row_seq(r)[c] != T::zero_spec());
    assert(m.pivot_col(r) < m.columns);
    if m.pivot_var(c) {
        let q = choose|q: int| 0 <= q < m.rows && #[trigger] m.pivot_col(q) == c;
        assert(q != r);
        if r < q {
            assert(m.at(r, m.pivot_col(q)) == T::zero_spec());
            assert(false);
        } else {
            lemma_echelon_monotone::<T>(m, q, r);
            assert(m.row_seq(r)[c] == T::zero_spec());
            assert(false);
        }
    }
}

impl<T: Scalar> Matrix<T> {
    /// The pivot column of row `r`: the index of its first nonzero entry,
    /// or `columns` for an all-zero row.
    pub open spec fn pivot_col(self, r: int) -> int {
        leading_zeros(self.row_seq(r))
    }

    /// What `is_in_zeilenstufenform` checks: every row's pivot column lies
    /// strictly right of the pivot column of the row above it. At most one
    /// all-zero row (at the bottom) can satisfy this.
    pub open spec fn zeilenstufenform(self) -> bool {
        forall|r: int| 0 < r < self.rows ==> self.pivot_col(r - 1) < #[trigger] self.pivot_col(r)
    }

    /// Row-echelon form as the reducer establishes it: every row with a
    /// nonzero entry sits strictly right of the row above it, so all-zero
    /// rows gather at the bottom. Unlike `zeilenstufenform` this tolerates
    /// more than one all-zero row.
    pub open spec fn echelon(self) -> bool {
        forall|r: int|
            0 < r < self.rows && #[trigger] self.pivot_col(r) < self.columns ==> self.pivot_col(
                r - 1,
            ) < self.pivot_col(r)
    }

    /// Each pivot column holds zero in every row above its pivot row.
    pub open spec fn pivots_clear_above(self) -> bool {
        forall|r: int, q: int|
            0 <= q < r < self.rows && self.pivot_col(r) < self.columns ==> #[trigger] self.at(
                q,
                self.pivot_col(r),
            ) == T::zero_spec()
    }

    /// What `is_in_strict_zeilenstufenform` checks.
    pub open spec fn strict_zeilenstufenform(self) -> bool {
        self.zeilenstufenform() && self.pivots_clear_above()
    }

    /// Strict row-echelon form as the reducer establishes it: each pivot
    /// column holds a nonzero entry in exactly one row.
    pub open spec fn strict_echelon(self) -> bool {
        self.echelon() && self.pivots_clear_above()
    }

    /// One cell of the exact-solution-form walk: every row at or past the
    /// usable pivot range (index `columns - 1` on) must be all zero, the
    /// last column included; above it the last column is free, the
    /// diagonal must hold one and the rest zero.
    pub open spec fn exact_cell_ok(self, r: int, c: int) -> bool {
        if r >= self.columns - 1 {
            self.at(r, c) == T::zero_spec()
        } else if c == self.columns - 1 {
            true
        } else if c == r {
            self.at(r, c) == T::one_spec()
        } else {
            self.at(r, c) == T::zero_spec()
        }
    }

    /// What `is_in_exact_solution_form` checks.
    pub open spec fn exact_solution_form(self) -> bool {
        forall|r: int, c: int|
            0 <= r < self.rows && 0 <= c < self.columns ==> #[trigger] self.exact_cell_ok(r, c)
    }

    /// Is the matrix in (non-strict) row-echelon form, with at most one
    /// all-zero row?
    pub fn is_in_zeilenstufenform(&self) -> (res: bool)
        requires
            self.wf(),
            self.columns < usize::MAX,
        ensures
            res == self.zeilenstufenform(),
    {
        let mut blocked: usize = 0;
        let mut row: usize = 0;
        while row < self.rows
            invariant
                self.wf(),
                self.columns < usize::MAX,
                row <= self.rows,
                forall|q: int| 0 < q < row ==> self.pivot_col(q - 1) < #[trigger] self.pivot_col(q),
                blocked == if row == 0 {
                    0int
                } else {
                    self.pivot_col(row - 1) + 1
                },
            decreases self.rows - row,
        {
            let pivot_column = leading_zero_count(&self.cells[row]);
            if pivot_column < blocked {
                proof {
                    assert(0 < row < self.rows);
                    assert(!(self.pivot_col(row as int - 1) < self.pivot_col(row as int)));
                }
                return false;
            }
            blocked = pivot_column + 1;
            row = row + 1;
        }
        true
    }

    /// Is the matrix in strict row-echelon form (each pivot column claimed
    /// by exactly one row), with at most one all-zero row?
    #[verifier::rlimit(50)]
    pub fn is_in_strict_zeilenstufenform(&self) -> (res: bool)
        requires
            self.wf(),
            self.columns < usize::MAX,
        ensures
            res == self.strict_zeilenstufenform(),
    {
        let mut blocked: usize = 0;
        let mut used_columns: Vec<bool> = Vec::new();
        let mut i: usize = 0;
        let columns = self.columns;
        while i < columns
            invariant
                i <= columns,
                used_columns@.len() == i,
                forall|c: int| 0 <= c < i ==> used_columns@[c] == false,
            decreases columns - i,
        {
            used_columns.push(false);
            i = i + 1;
        }
        let mut row: usize = 0;
        while row < self.rows
            invariant
                self.wf(),
                self.columns < usize::MAX,
                columns == self.columns,
                row <= self.rows,
                used_columns@.len() == self.columns,
                forall|q: int| 0 < q < row ==> self.pivot_col(q - 1) < #[trigger] self.pivot_col(q),
                blocked == if row == 0 {
                    0int
                } else {
                    self.pivot_col(row - 1) + 1
                },
                forall|rr: int, q: int|
                    0 <= q < rr < row && self.pivot_col(rr) < self.columns ==> #[trigger] self.at(
                        q,
                        self.pivot_col(rr),
                    ) == T::zero_spec(),
                forall|c: int, q: int|
                    0 <= c < self.columns && 0 <= q < row && #[trigger] self.at(q, c)
                        != T::zero_spec() ==> used_columns@[c],
                forall|c: int|
                    0 <= c < self.columns && #[trigger] used_columns@[c] ==> exists|q: int|
                        0 <= q < row && #[trigger] self.at(q, c) != T::zero_spec(),
            decreases self.rows - row,
        {
            let pivot_column = leading_zero_count(&self.cells[row]);
            if pivot_column < blocked {
                proof {
                    assert(0 < row < self.rows);
                    assert(!(self.pivot_col(row as int - 1) < self.pivot_col(row as int)));
                }
                return false;
            }
            blocked = pivot_column + 1;
            if pivot_column < columns {
                if used_columns[pivot_column] {
                    proof {
                        let q = choose|q: int|
                            0 <= q < row && #[trigger] self.at(q, pivot_column as int)
                                != T::zero_spec();
                        assert(self.at(q, self.pivot_col(row as int)) != T::zero_spec());
                        assert(!self.pivots_clear_above());
                    }
                    return false;
                }
                proof {
                    assert forall|q: int| 0 <= q < row implies self.at(q, pivot_column as int)
                        == T::zero_spec() by {
                        if self.at(q, pivot_column as int) != T::zero_spec() {
                            assert(used_columns@[pivot_column as int]);
                        }
                    }
                    assert(self.pivot_col(row as int) == pivot_column as int);
                }
                let ghost used_snap = used_columns@;
                let mut c: usize = 0;
                while c < columns
                    invariant
                        c <= columns,
                        columns == self.columns,
                        row < self.rows,
                        self.wf(),
                        used_columns@.len() == self.columns,
                        used_snap.len() == self.columns,
                        forall|j: int|
                            0 <= j < c ==> #[trigger] used_columns@[j] == (used_snap[j] || self.at(
                                row as int,
                                j,
                            ) != T::zero_spec()),
                        forall|j: int|
                            c <= j < self.columns ==> #[trigger] used_columns@[j] == used_snap[j],
                    decreases columns - c,
                {
                    if !self.cells[row][c].is_zero() {
                        used_columns[c] = true;
                    }
                    c = c + 1;
                }
                proof {
                    assert forall|cc: int, q: int|
                        0 <= cc < self.columns && 0 <= q < row + 1 && #[trigger] self.at(q, cc)
                            != T::zero_spec() implies used_columns@[cc] by {
                        if q < row {
                            assert(used_snap[cc]);
                        }
                    }
                    assert forall|cc: int|
                        0 <= cc < self.columns && #[trigger] used_columns@[cc] implies exists|
                        q: int,
                    |
                        0 <= q < row + 1 && #[trigger] self.at(q, cc) != T::zero_spec() by {
                        if used_snap[cc] {
                            let q = choose|q: int|
                                0 <= q < row && #[trigger] self.at(q, cc) != T::zero_spec();
                            assert(self.at(q, cc) != T::zero_spec());
                        } else {
                            assert(self.at(row as int, cc) != T::zero_spec());
                        }
                    }
                }
            } else {
                proof {
                    lemma_leading_zeros_bounds::<T>(self.row_seq(row as int));
                    assert forall|cc: int|
                        0 <= cc < self.columns implies self.at(row as int, cc)
                            == T::zero_spec() by {}
                }
            }
            row = row + 1;
        }
        true
    }

    /// Is the matrix a fully determined, already-solved augmented system:
    /// ones on the diagonal, zeros elsewhere in the coefficient block, and
    /// nothing but zeros from row `columns - 1` on?
    pub fn is_in_exact_solution_form(&self) -> (res: bool)
        requires
            self.wf(),
        ensures
            res == self.exact_solution_form(),
    {
        let mut row: usize = 0;
        while row < self.rows
            invariant
                self.wf(),
                row <= self.rows,
                forall|r: int, c: int|
                    0 <= r < row && 0 <= c < self.columns ==> #[trigger] self.exact_cell_ok(r, c),
            decreases self.rows - row,
        {
            let mut column: usize = 0;
            while column < self.columns
                invariant
                    self.wf(),
                    row < self.rows,
                    column <= self.columns,
                    forall|c: int| 0 <= c < column ==> #[trigger] self.exact_cell_ok(row as int, c),
                decreases self.columns - column,
            {
                let cell = self.cells[row][column];
                if row + 1 >= self.columns {
                    if !cell.is_zero() {
                        proof {
                            assert(!self.exact_cell_ok(row as int, column as int));
                        }
                        return false;
                    }
                } else if column == self.columns - 1 {
                    // the right-hand side is free
                } else if column == row {
                    if !cell.is_one() {
                        proof {
                            assert(!self.exact_cell_ok(row as int, column as int));
                        }
                        return false;
                    }
                } else {
                    if !cell.is_zero() {
                        proof {
                            assert(!self.exact_cell_ok(row as int, column as int));
                        }
                        return false;
                    }
                }
                column = column + 1;
            }
            row = row + 1;
        }
        true
    }
}

impl<T: Field> Matrix<T> {
    /// Helper spec: the column bound that the first `k` finished rows of a
    /// partly reduced matrix have claimed.
    pub open spec fn blocked_to(self, k: int) -> int {
        if k <= 0 {
            0
        } else {
            self.pivot_col(k - 1) + 1
        }
    }

    /// A row that states 0 = nonzero: zero in every coefficient column and
    /// a nonzero right-hand side.
    pub open spec fn inconsistent_row(self, r: int) -> bool {
        &&& forall|c: int| 0 <= c < self.columns - 1 ==> self.at(r, c) == T::zero_spec()
        &&& self.at(r, self.columns - 1) != T::zero_spec()
    }

    /// The augmented system admits no solution at all.
    pub open spec fn inconsistent(self) -> bool {
        exists|r: int| 0 <= r < self.rows && self.inconsistent_row(r)
    }


    /// `other` is `self` after one row exchange.
    pub open spec fn row_swap_step(self, other: Matrix<T>, i: int, j: int) -> bool {
        &&& other.rows == self.rows
        &&& other.columns == self.columns
        &&& 0 <= i < self.rows
        &&& 0 <= j < self.rows
        &&& forall|r: int, c: int|
            0 <= r < self.rows && 0 <= c < self.columns ==> #[trigger] other.at(r, c) == self.at(
                if r == i {
                    j
                } else if r == j {
                    i
                } else {
                    r
                },
                c,
            )
    }

    /// `other` is `self` after adding `factor` times the origin row to the
    /// target row.
    pub open spec fn row_add_step(self, other: Matrix<T>, origin: int, factor: T, target: int) -> bool {
        &&& other.rows == self.rows
        &&& other.columns == self.columns
        &&& 0 <= origin < self.rows
        &&& 0 <= target < self.rows
        &&& origin != target
        &&& forall|r: int, c: int|
            0 <= r < self.rows && 0 <= c < self.columns && r != target ==> #[trigger] other.at(
                r,
                c,
            ) == self.at(r, c)
        &&& forall|c: int|
            0 <= c < self.columns ==> #[trigger] other.at(target, c) == T::add_spec(
                self.at(target, c),
                T::mul_spec(self.at(origin, c), factor),
            )
    }

    /// One elementary row operation leads from `self` to `other`.
    pub open spec fn row_step(self, other: Matrix<T>) -> bool {
        ||| exists|i: int, j: int| self.row_swap_step(other, i, j)
        ||| exists|origin: int, factor: T, target: int|
            self.row_add_step(other, origin, factor, target)
    }

    /// `other` arises from `self` by `k` elementary row operations.
    pub open spec fn row_ops_reach(self, other: Matrix<T>, k: nat) -> bool
        decreases k,
    {
        if k == 0 {
            self.same_grid(other)
        } else {
            exists|mid: Matrix<T>|
                self.row_ops_reach(mid, (k - 1) as nat) && #[trigger] mid.row_step(other)
        }
    }

    /// `other` arises from `self` by row swaps and scaled row additions
    /// alone. Column order, hence variable identity, is never altered, and
    /// every such operation keeps the solution set of the augmented system.
    pub open spec fn reduces_to(self, other: Matrix<T>) -> bool {
        exists|k: nat| self.row_ops_reach(other, k)
    }

    /// Some row's pivot sits in column `v`.
    pub open spec fn pivot_var(self, v: int) -> bool {
        exists|r: int| 0 <= r < self.rows && #[trigger] self.pivot_col(r) == v
    }

    /// `v` is a free variable: a coefficient column that is no row's pivot
    /// column, so no equation pins it to a unique value.
    pub open spec fn free_var(self, v: int) -> bool {
        0 <= v < self.columns - 1 && !self.pivot_var(v)
    }

    /// How many free variables sit left of column `v`.
    pub open spec fn free_count_upto(self, v: int) -> int
        decreases v,
    {
        if v <= 0 {
            0
        } else {
            self.free_count_upto(v - 1) + if self.free_var(v - 1) {
                1int
            } else {
                0int
            }
        }
    }

    /// The number of free variables of the reduced system: the number of
    /// parameter columns the classifier owes.
    pub open spec fn free_count(self) -> int {
        self.free_count_upto(self.columns - 1)
    }

    /// The offset vector the classifier owes for this reduced system: for
    /// each row with a pivot among the coefficient columns, the right-hand
    /// side divided by the pivot coefficient, stored at the pivot
    /// variable's index; zero at every free variable.
    pub open spec fn offset_ok(self, offset: Matrix<T>) -> bool {
        &&& offset.wf()
        &&& offset.rows == self.columns - 1
        &&& offset.columns == 1
        &&& forall|r: int|
            0 <= r < self.rows && #[trigger] self.pivot_col(r) < self.columns - 1 ==> offset.at(
                self.pivot_col(r),
                0,
            ) == T::div_spec(self.at(r, self.columns - 1), self.at(r, self.pivot_col(r)))
        &&& forall|v: int| self.free_var(v) ==> #[trigger] offset.at(v, 0) == T::zero_spec()
    }

    /// The parameter matrix the classifier owes for this reduced system:
    /// one column per free variable, in column order. The column of free
    /// variable `f` carries one at `f`, zero at every other free variable,
    /// and at each pivot variable the negated quotient of the pivot row's
    /// coefficient at `f` by its pivot coefficient, so that raising `f` by
    /// one keeps every equation balanced.
    pub open spec fn parameter_matrix_ok(self, pm: Matrix<T>) -> bool {
        &&& pm.wf()
        &&& pm.rows == self.columns - 1
        &&& pm.columns == self.free_count()
        &&& forall|f: int|
            self.free_var(f) ==> #[trigger] pm.at(f, self.free_count_upto(f)) == T::one_spec()
        &&& forall|f: int, v: int|
            self.free_var(f) && self.free_var(v) && v != f ==> #[trigger] pm.at(
                v,
                self.free_count_upto(f),
            ) == T::zero_spec()
        &&& forall|f: int, r: int|
            self.free_var(f) && 0 <= r < self.rows && #[trigger] self.pivot_col(r) < self.columns
                - 1 ==> #[trigger] pm.at(self.pivot_col(r), self.free_count_upto(f))
                == T::neg_spec(T::div_spec(self.at(r, f), self.at(r, self.pivot_col(r))))
    }

    /// The left-hand side of row `r` evaluated at the assignment `x`, a
    /// column vector giving every variable a value.
    pub open spec fn row_eval(self, r: int, x: Matrix<T>) -> T {
        if self.columns <= 1 {
            T::zero_spec()
        } else {
            crate::matrix_multiplication::seq_sum(
                Seq::new(
                    (self.columns - 1) as nat,
                    |c: int| T::mul_spec(self.at(r, c), x.at(c, 0)),
                ),
            )
        }
    }

    /// The assignment `x` satisfies every equation of the augmented system.
    pub open spec fn satisfies(self, x: Matrix<T>) -> bool {
        forall|r: int|
            0 <= r < self.rows ==> #[trigger] self.row_eval(r, x) == self.at(r, self.columns - 1)
    }

    /// Scale every entry of one row by `factor`.
    pub fn multiply_row(&mut self, row: usize, factor: T)
        requires
            old(self).wf(),
            row < old(self).rows,
        ensures
            final(self).wf(),
            final(self).rows == old(self).rows,
            final(self).columns == old(self).columns,
            forall|r: int|
                0 <= r < old(self).rows && r != row ==> final(self).cells@[r] == old(self).cells@[r],
            forall|c: int|
                0 <= c < old(self).columns ==> final(self).at(row as int, c) == T::mul_spec(
                    old(self).at(row as int, c),
                    factor,
                ),
    {
        let mut c: usize = 0;
        let columns = self.columns;
        while c < columns
            invariant
                c <= columns,
                columns == self.columns,
                row < self.rows,
                self.rows == old(self).rows,
                self.columns == old(self).columns,
                old(self).wf(),
                self.wf(),
                forall|r: int|
                    0 <= r < self.rows && r != row ==> self.cells@[r] == old(self).cells@[r],
                forall|j: int|
                    0 <= j < c ==> self.at(row as int, j) == T::mul_spec(
                        old(self).at(row as int, j),
                        factor,
                    ),
                forall|j: int| c <= j < columns ==> self.at(row as int, j) == old(self).at(
                    row as int,
                    j,
                ),
            decreases columns - c,
        {
            let ghost snap = *self;
            let v = self.cells[row][c];
            self.cells[row][c] = v.mul(factor);
            proof {
                assert forall|j: int| 0 <= j < c + 1 implies self.at(row as int, j) == T::mul_spec(
                    old(self).at(row as int, j),
                    factor,
                ) by {
                    if j < c {
                        assert(self.cells@[row as int]@[j] == snap.cells@[row as int]@[j]);
                        assert(snap.at(row as int, j) == T::mul_spec(
                            old(self).at(row as int, j),
                            factor,
                        ));
                    }
                }
                assert forall|j: int| c + 1 <= j < columns implies self.at(row as int, j) == old(self).at(row as int, j) by {
                    assert(self.cells@[row as int]@[j] == snap.cells@[row as int]@[j]);
                }
            }
            c = c + 1;
        }
    }

    /// Add `factor` times the origin row to the target row, entry by entry:
    /// the fused scaled row addition of the elimination steps.
    pub fn add_multiplied_row(&mut self, origin_row: usize, factor: T, target_row: usize)
        requires
            old(self).wf(),
            origin_row < old(self).rows,
            target_row < old(self).rows,
            origin_row != target_row,
        ensures
            final(self).wf(),
            final(self).rows == old(self).rows,
            final(self).columns == old(self).columns,
            forall|r: int|
                0 <= r < old(self).rows && r != target_row ==> final(self).cells@[r] == old(self).cells@[r],
            forall|c: int|
                0 <= c < old(self).columns ==> final(self).at(target_row as int, c) == T::add_spec(
                    old(self).at(target_row as int, c),
                    T::mul_spec(old(self).at(origin_row as int, c), factor),
                ),
    {
        let mut c: usize = 0;
        let columns = self.columns;
        while c < columns
            invariant
                c <= columns,
                columns == self.columns,
                origin_row < self.rows,
                target_row < self.rows,
                origin_row != target_row,
                self.rows == old(self).rows,
                self.columns == old(self).columns,
                old(self).wf(),
                self.wf(),
                forall|r: int|
                    0 <= r < self.rows && r != target_row ==> self.cells@[r] == old(self).cells@[r],
                forall|j: int|
                    0 <= j < c ==> self.at(target_row as int, j) == T::add_spec(
                        old(self).at(target_row as int, j),
                        T::mul_spec(old(self).at(origin_row as int, j), factor),
                    ),
                forall|j: int|
                    c <= j < columns ==> self.at(target_row as int, j) == old(self).at(
                        target_row as int,
                        j,
                    ),
            decreases columns - c,
        {
            let ghost snap = *self;
            let origin_cell = self.cells[origin_row][c];
            let target_cell = self.cells[target_row][c];
            self.cells[target_row][c] = target_cell.add(origin_cell.mul(factor));
            proof {
                assert(origin_cell == old(self).at(origin_row as int, c as int));
                assert forall|j: int|
                    0 <= j < c + 1 implies self.at(target_row as int, j) == T::add_spec(
                    old(self).at(target_row as int, j),
                    T::mul_spec(old(self).at(origin_row as int, j), factor),
                ) by {
                    if j < c {
                        assert(self.cells@[target_row as int]@[j]
                            == snap.cells@[target_row as int]@[j]);
                        assert(snap.at(target_row as int, j) == T::add_spec(
                            old(self).at(target_row as int, j),
                            T::mul_spec(old(self).at(origin_row as int, j), factor),
                        ));
                    }
                }
                assert forall|j: int|
                    c + 1 <= j < columns implies self.at(target_row as int, j) == old(self).at(
                    target_row as int,
                    j,
                ) by {
                    assert(self.cells@[target_row as int]@[j]
                        == snap.cells@[target_row as int]@[j]);
                }
            }
            c = c + 1;
        }
    }

    /// Scan columns left to right, and inside each column rows from
    /// `finished_rows` down, for the first nonzero cell.
    fn find_pivot(&self, finished_rows: usize) -> (res: Option<(usize, usize)>)
        requires
            self.wf(),
            finished_rows <= self.rows,
        ensures
            match res {
                Some(rc) => {
                    &&& finished_rows <= rc.0 < self.rows
                    &&& rc.1 < self.columns
                    &&& self.at(rc.0 as int, rc.1 as int) != T::zero_spec()
                    &&& forall|q: int, c: int|
                        finished_rows <= q < self.rows && 0 <= c < rc.1 ==> #[trigger] self.at(q, c)
                            == T::zero_spec()
                    &&& forall|q: int|
                        finished_rows <= q < rc.0 ==> #[trigger] self.at(q, rc.1 as int)
                            == T::zero_spec()
                },
                None => forall|q: int, c: int|
                    finished_rows <= q < self.rows && 0 <= c < self.columns ==> #[trigger] self.at(
                        q,
                        c,
                    ) == T::zero_spec(),
            },
    {
        let mut column: usize = 0;
        while column < self.columns
            invariant
                self.wf(),
                finished_rows <= self.rows,
                column <= self.columns,
                forall|q: int, c: int|
                    finished_rows <= q < self.rows && 0 <= c < column ==> #[trigger] self.at(q, c)
                        == T::zero_spec(),
            decreases self.columns - column,
        {
            let mut row: usize = finished_rows;
            while row < self.rows
                invariant
                    self.wf(),
                    finished_rows <= row,
                    row <= self.rows,
                    column < self.columns,
                    forall|q: int, c: int|
                        finished_rows <= q < self.rows && 0 <= c < column ==> #[trigger] self.at(
                            q,
                            c,
                        ) == T::zero_spec(),
                    forall|q: int|
                        finished_rows <= q < row ==> #[trigger] self.at(q, column as int)
                            == T::zero_spec(),
                decreases self.rows - row,
            {
                if !self.cells[row][column].is_zero() {
                    return Some((row, column));
                }
                row = row + 1;
            }
            column = column + 1;
        }
        None
    }

    /// Clear the pivot column in every row below the pivot row by one
    /// scaled row addition each. Rows at or below the pivot row must
    /// already be zero left of the pivot column; they stay so. When the
    /// pivot column is already clear below, nothing changes, entry for
    /// entry.
    fn eliminate_below(&mut self, pivot_row: usize, pivot_column: usize)
        requires
            old(self).wf(),
            pivot_row < old(self).rows,
            pivot_column < old(self).columns,
            old(self).at(pivot_row as int, pivot_column as int) != T::zero_spec(),
            forall|q: int, c: int|
                pivot_row <= q < old(self).rows && 0 <= c < pivot_column ==> #[trigger] old(self).at(q, c) == T::zero_spec(),
        ensures
            final(self).wf(),
            final(self).rows == old(self).rows,
            final(self).columns == old(self).columns,
            forall|r: int| 0 <= r <= pivot_row ==> final(self).cells@[r] == old(self).cells@[r],
            forall|t: int, c: int|
                pivot_row < t < old(self).rows && 0 <= c <= pivot_column ==> #[trigger] final(self).at(t, c) == T::zero_spec(),
            (forall|t: int|
                pivot_row < t < old(self).rows ==> #[trigger] old(self).at(t, pivot_column as int)
                    == T::zero_spec()) ==> final(self).same_grid(*old(self)),
            old(self).reduces_to(*final(self)),
    {
        proof {
            lemma_reduces_refl::<T>(*old(self));
        }
        let pivot_cell = self.cells[pivot_row][pivot_column];
        let mut target_row = pivot_row + 1;
        while target_row < self.rows
            invariant
                old(self).reduces_to(*self),
                self.wf(),
                old(self).wf(),
                self.rows == old(self).rows,
                self.columns == old(self).columns,
                pivot_row < target_row <= self.rows,
                pivot_column < self.columns,
                pivot_cell == old(self).at(pivot_row as int, pivot_column as int),
                pivot_cell != T::zero_spec(),
                forall|r: int| 0 <= r <= pivot_row ==> self.cells@[r] == old(self).cells@[r],
                forall|r: int| target_row <= r < self.rows ==> self.cells@[r] == old(self).cells@[r],
                forall|q: int, c: int|
                    pivot_row <= q < old(self).rows && 0 <= c < pivot_column ==> #[trigger] old(self).at(q, c) == T::zero_spec(),
                forall|t: int, c: int|
                    pivot_row < t < target_row && 0 <= c <= pivot_column ==> #[trigger] self.at(
                        t,
                        c,
                    ) == T::zero_spec(),
                (forall|t: int|
                    pivot_row < t < old(self).rows ==> #[trigger] old(self).at(
                        t,
                        pivot_column as int,
                    ) == T::zero_spec()) ==> self.same_grid(*old(self)),
            decreases self.rows - target_row,
        {
            let ghost pre = *self;
            let cell_below = self.cells[target_row][pivot_column];
            let factor = (cell_below.div(pivot_cell)).neg();
            self.add_multiplied_row(pivot_row, factor, target_row);
            proof {
                assert forall|r: int, cc: int|
                    0 <= r < pre.rows && 0 <= cc < pre.columns && r != target_row implies #[trigger] self.at(
                        r,
                        cc,
                    ) == pre.at(r, cc) by {
                    assert(self.cells@[r] == pre.cells@[r]);
                }
                assert(pre.row_add_step(*self, pivot_row as int, factor, target_row as int));
                assert(pre.row_step(*self));
                lemma_reduces_step::<T>(*old(self), pre, *self);
                assert(pre.cells@[pivot_row as int] == old(self).cells@[pivot_row as int]);
                assert(pre.cells@[target_row as int] == old(self).cells@[target_row as int]);
                assert(cell_below == pre.at(target_row as int, pivot_column as int));
                assert(pre.at(pivot_row as int, pivot_column as int) == pivot_cell);
                T::law_cancel(cell_below, pivot_cell);
                assert(self.at(target_row as int, pivot_column as int) == T::zero_spec());
                assert forall|c: int| 0 <= c < pivot_column implies self.at(target_row as int, c)
                    == T::zero_spec() by {
                    assert(old(self).at(pivot_row as int, c) == T::zero_spec());
                    assert(pre.at(pivot_row as int, c) == T::zero_spec());
                    assert(old(self).at(target_row as int, c) == T::zero_spec());
                    assert(pre.at(target_row as int, c) == T::zero_spec());
                    T::law_mul_zero_left(factor);
                    T::law_add_zero(T::zero_spec());
                }
                assert forall|t: int, c: int|
                    pivot_row < t < target_row + 1 && 0 <= c <= pivot_column implies #[trigger] self.at(
                        t,
                        c,
                    ) == T::zero_spec() by {
                    if t < target_row {
                        assert(self.cells@[t] == pre.cells@[t]);
                        assert(pre.at(t, c) == T::zero_spec());
                    }
                }
                if forall|t: int|
                    pivot_row < t < old(self).rows ==> #[trigger] old(self).at(
                        t,
                        pivot_column as int,
                    ) == T::zero_spec() {
                    assert(old(self).at(target_row as int, pivot_column as int)
                        == T::zero_spec());
                    assert(cell_below == T::zero_spec());
                    T::law_div_zero(pivot_cell);
                    T::law_neg_zero();
                    assert(factor == T::zero_spec());
                    assert forall|r: int, c: int|
                        0 <= r < self.rows && 0 <= c < self.columns implies self.at(r, c)
                        == #[trigger] old(self).at(r, c) by {
                        if r == target_row {
                            T::law_mul_zero_right(pre.at(pivot_row as int, c));
                            T::law_add_zero(pre.at(target_row as int, c));
                            assert(self.at(r, c) == pre.at(r, c));
                        } else {
                            assert(self.cells@[r] == pre.cells@[r]);
                        }
                        assert(pre.at(r, c) == old(self).at(r, c));
                    }
                    assert(self.same_grid(*old(self)));
                }
            }
            target_row = target_row + 1;
        }
    }

    /// Reduce the matrix in place to row-echelon form: scan for the
    /// leftmost nonzero column at or below the finished block, swap its
    /// first nonzero row up, and eliminate the pivot column in every row
    /// below. The result arises from the input by row swaps and scaled row
    /// additions alone, so the solution set of the augmented system is
    /// kept. A matrix already in row-echelon form comes back unchanged,
    /// entry for entry.
    #[verifier::rlimit(100)]
    pub fn turn_into_zeilenstufenform(&mut self)
        requires
            old(self).wf(),
        ensures
            final(self).wf(),
            final(self).rows == old(self).rows,
            final(self).columns == old(self).columns,
            final(self).echelon(),
            (forall|r: int|
                0 <= r < final(self).rows - 1 ==> #[trigger] final(self).pivot_col(r) < final(self).columns) ==> final(self).zeilenstufenform(),
            old(self).echelon() ==> final(self).same_grid(*old(self)),
            old(self).reduces_to(*final(self)),
    {
        proof {
            lemma_reduces_refl::<T>(*old(self));
        }
        let mut finished_rows: usize = 0;
        loop
            invariant
                old(self).reduces_to(*self),
                self.wf(),
                old(self).wf(),
                self.rows == old(self).rows,
                self.columns == old(self).columns,
                finished_rows <= self.rows,
                forall|r: int|
                    0 < r < finished_rows ==> self.pivot_col(r - 1) < #[trigger] self.pivot_col(r),
                forall|r: int|
                    0 <= r < finished_rows ==> #[trigger] self.pivot_col(r) < self.columns,
                forall|q: int, c: int|
                    finished_rows <= q < self.rows && 0 <= c < self.blocked_to(finished_rows as int)
                        ==> #[trigger] self.at(q, c) == T::zero_spec(),
                old(self).echelon() ==> self.same_grid(*old(self)),
            decreases self.rows - finished_rows,
        {
            if finished_rows == self.rows || finished_rows + 1 == self.rows {
                proof {
                    assert forall|r: int|
                        0 < r < self.rows implies self.pivot_col(r - 1) < #[trigger] self.pivot_col(
                        r,
                    ) by {
                        if r >= finished_rows {
                            if finished_rows > 0 {
                                assert(self.pivot_col(finished_rows as int - 1) < self.columns);
                                lemma_leading_zeros_bounds::<T>(
                                    self.row_seq(finished_rows as int - 1),
                                );
                            }
                            assert(self.row_seq(r).len() == self.columns);
                            assert forall|j: int|
                                0 <= j < self.blocked_to(finished_rows as int) implies self.row_seq(
                                r,
                            )[j] == T::zero_spec() by {
                                assert(self.at(r, j) == T::zero_spec());
                            }
                            lemma_leading_zeros_at_least::<T>(
                                self.row_seq(r),
                                self.blocked_to(finished_rows as int),
                            );
                        }
                    }
                    assert(self.zeilenstufenform());
                }
                return ;
            }
            let pivot = self.find_pivot(finished_rows);
            match pivot {
                None => {
                    proof {
                        assert forall|q: int|
                            finished_rows <= q < self.rows implies #[trigger] self.pivot_col(q)
                            == self.columns by {
                            assert forall|j: int| 0 <= j < self.columns implies self.row_seq(
                                q,
                            )[j] == T::zero_spec() by {
                                assert(self.at(q, j) == T::zero_spec());
                            }
                            lemma_leading_zeros_char::<T>(self.row_seq(q), self.columns as int);
                        }
                        assert(self.pivot_col(finished_rows as int) == self.columns);
                        assert(finished_rows < self.rows - 1);
                        assert(self.echelon());
                    }
                    return ;
                },
                Some((pivot_row, pivot_column)) => {
                    proof {
                        lemma_leading_zeros_bounds::<T>(self.row_seq(pivot_row as int));
                        if (pivot_column as int) < self.blocked_to(finished_rows as int) {
                            assert(self.at(pivot_row as int, pivot_column as int)
                                == T::zero_spec());
                            assert(false);
                        }
                        if old(self).echelon() {
                            lemma_same_grid_pivots::<T>(*self, *old(self));
                            assert forall|r: int|
                                0 < r < self.rows && #[trigger] self.pivot_col(r)
                                    < self.columns implies self.pivot_col(r - 1) < self.pivot_col(
                                r,
                            ) by {
                                assert(old(self).pivot_col(r) < old(self).columns);
                            }
                            assert(self.echelon());
                            assert forall|j: int|
                                0 <= j < pivot_column implies self.row_seq(pivot_row as int)[j]
                                == T::zero_spec() by {
                                assert(self.at(pivot_row as int, j) == T::zero_spec());
                            }
                            lemma_leading_zeros_char::<T>(
                                self.row_seq(pivot_row as int),
                                pivot_column as int,
                            );
                            if pivot_row > finished_rows {
                                assert forall|j: int|
                                    0 <= j < pivot_column + 1 implies self.row_seq(
                                    finished_rows as int,
                                )[j] == T::zero_spec() by {
                                    assert(self.at(finished_rows as int, j) == T::zero_spec());
                                }
                                lemma_leading_zeros_at_least::<T>(
                                    self.row_seq(finished_rows as int),
                                    pivot_column + 1,
                                );
                                lemma_echelon_monotone::<T>(
                                    *self,
                                    finished_rows as int,
                                    pivot_row as int,
                                );
                                assert(false);
                            }
                        }
                    }
                    let ghost pre_swap = *self;
                    self.swap_rows(finished_rows, pivot_row);
                    proof {
                        assert(self.cells@[finished_rows as int]
                            == pre_swap.cells@[pivot_row as int]);
                        assert(self.cells@[pivot_row as int]
                            == pre_swap.cells@[finished_rows as int]);
                        assert forall|j: int|
                            0 <= j < pivot_column implies self.row_seq(finished_rows as int)[j]
                            == T::zero_spec() by {
                            assert(pre_swap.at(pivot_row as int, j) == T::zero_spec());
                        }
                        lemma_leading_zeros_char::<T>(
                            self.row_seq(finished_rows as int),
                            pivot_column as int,
                        );
                        assert forall|q: int, c: int|
                            finished_rows <= q < self.rows && 0 <= c
                                < pivot_column implies #[trigger] self.at(q, c)
                            == T::zero_spec() by {
                            if q != finished_rows && q != pivot_row {
                                assert(self.cells@[q] == pre_swap.cells@[q]);
                                assert(pre_swap.at(q, c) == T::zero_spec());
                            } else if q == finished_rows {
                                assert(pre_swap.at(pivot_row as int, c) == T::zero_spec());
                            } else {
                                assert(pre_swap.at(finished_rows as int, c) == T::zero_spec());
                            }
                        }
                        assert(pre_swap.row_swap_step(
                            *self,
                            finished_rows as int,
                            pivot_row as int,
                        ));
                        assert(pre_swap.row_step(*self));
                        lemma_reduces_step::<T>(*old(self), pre_swap, *self);
                        if old(self).echelon() {
                            assert(self.cells@ =~= pre_swap.cells@);
                            assert(self.same_grid(*old(self)));
                        }
                    }
                    let ghost mid = *self;
                    proof {
                        if old(self).echelon() {
                            lemma_same_grid_pivots::<T>(mid, *old(self));
                            assert forall|r: int|
                                0 < r < mid.rows && #[trigger] mid.pivot_col(r)
                                    < mid.columns implies mid.pivot_col(r - 1) < mid.pivot_col(
                                r,
                            ) by {
                                assert(old(self).pivot_col(r) < old(self).columns);
                            }
                            assert(mid.echelon());
                            assert forall|t: int|
                                finished_rows < t < mid.rows implies #[trigger] mid.at(
                                t,
                                pivot_column as int,
                            ) == T::zero_spec() by {
                                lemma_leading_zeros_bounds::<T>(mid.row_seq(t));
                                if mid.pivot_col(t) < mid.columns {
                                    lemma_echelon_monotone::<T>(mid, finished_rows as int, t);
                                }
                            }
                        }
                    }
                    self.eliminate_below(finished_rows, pivot_column);
                    proof {
                        lemma_reduces_trans::<T>(*old(self), mid, *self);
                        assert(self.cells@[finished_rows as int]
                            == mid.cells@[finished_rows as int]);
                        assert(self.pivot_col(finished_rows as int) == pivot_column);
                        assert forall|r: int|
                            0 <= r < finished_rows + 1 implies #[trigger] self.pivot_col(r)
                            < self.columns by {
                            if r < finished_rows {
                                assert(self.cells@[r] == mid.cells@[r]);
                                assert(mid.cells@[r] == pre_swap.cells@[r]);
                                assert(pre_swap.pivot_col(r) < pre_swap.columns);
                            }
                        }
                        assert forall|r: int|
                            0 < r < finished_rows + 1 implies self.pivot_col(r - 1)
                            < #[trigger] self.pivot_col(r) by {
                            if r < finished_rows {
                                assert(self.cells@[r] == pre_swap.cells@[r]);
                                assert(self.cells@[r - 1] == pre_swap.cells@[r - 1]);
                                assert(pre_swap.pivot_col(r - 1) < pre_swap.pivot_col(r));
                            } else {
                                if finished_rows > 0 {
                                    assert(self.cells@[r - 1] == pre_swap.cells@[r - 1]);
                                    assert(pre_swap.blocked_to(finished_rows as int)
                                        <= pivot_column);
                                }
                            }
                        }
                        assert(self.blocked_to(finished_rows as int + 1) == pivot_column + 1);
                        assert forall|q: int, c: int|
                            finished_rows + 1 <= q < self.rows && 0 <= c < self.blocked_to(
                                finished_rows as int + 1,
                            ) implies #[trigger] self.at(q, c) == T::zero_spec() by {}
                        if old(self).echelon() {
                            assert(self.same_grid(mid));
                            assert forall|r: int, c: int|
                                0 <= r < self.rows && 0 <= c < self.columns implies self.at(r, c)
                                    == #[trigger] old(self).at(r, c) by {
                                assert(self.at(r, c) == mid.at(r, c));
                                assert(mid.at(r, c) == old(self).at(r, c));
                            }
                            assert(self.same_grid(*old(self)));
                        }
                    }
                    finished_rows = finished_rows + 1;
                },
            }
        }
    }

    /// Clear the pivot column in every row above the pivot row by one
    /// scaled row addition each. Entries in columns where the pivot row
    /// holds zero do not move. When the pivot column is already clear
    /// above, nothing changes, entry for entry.
    fn eliminate_above(&mut self, pivot_row: usize, pivot_column: usize)
        requires
            old(self).wf(),
            pivot_row < old(self).rows,
            pivot_column < old(self).columns,
            old(self).at(pivot_row as int, pivot_column as int) != T::zero_spec(),
        ensures
            final(self).wf(),
            final(self).rows == old(self).rows,
            final(self).columns == old(self).columns,
            forall|r: int|
                pivot_row <= r < old(self).rows ==> final(self).cells@[r] == old(self).cells@[r],
            forall|t: int|
                0 <= t < pivot_row ==> #[trigger] final(self).at(t, pivot_column as int)
                    == T::zero_spec(),
            forall|t: int, c: int|
                0 <= t < pivot_row && 0 <= c < old(self).columns && old(self).at(pivot_row as int, c)
                    == T::zero_spec() ==> #[trigger] final(self).at(t, c) == old(self).at(t, c),
            (forall|t: int|
                0 <= t < pivot_row ==> #[trigger] old(self).at(t, pivot_column as int)
                    == T::zero_spec()) ==> final(self).same_grid(*old(self)),
            old(self).reduces_to(*final(self)),
    {
        proof {
            lemma_reduces_refl::<T>(*old(self));
        }
        let pivot_cell = self.cells[pivot_row][pivot_column];
        let mut target_row: usize = 0;
        while target_row < pivot_row
            invariant
                old(self).reduces_to(*self),
                self.wf(),
                old(self).wf(),
                self.rows == old(self).rows,
                self.columns == old(self).columns,
                target_row <= pivot_row,
                pivot_row < self.rows,
                pivot_column < self.columns,
                pivot_cell == old(self).at(pivot_row as int, pivot_column as int),
                pivot_cell != T::zero_spec(),
                forall|r: int| pivot_row <= r < self.rows ==> self.cells@[r] == old(self).cells@[r],
                forall|r: int| target_row <= r < pivot_row ==> self.cells@[r] == old(self).cells@[r],
                forall|t: int|
                    0 <= t < target_row ==> #[trigger] self.at(t, pivot_column as int)
                        == T::zero_spec(),
                forall|t: int, c: int|
                    0 <= t < target_row && 0 <= c < self.columns && old(self).at(
                        pivot_row as int,
                        c,
                    ) == T::zero_spec() ==> #[trigger] self.at(t, c) == old(self).at(t, c),
                (forall|t: int|
                    0 <= t < pivot_row ==> #[trigger] old(self).at(t, pivot_column as int)
                        == T::zero_spec()) ==> self.same_grid(*old(self)),
            decreases pivot_row - target_row,
        {
            let ghost pre = *self;
            let target_cell = self.cells[target_row][pivot_column];
            let factor = (target_cell.div(pivot_cell)).neg();
            self.add_multiplied_row(pivot_row, factor, target_row);
            proof {
                assert forall|r: int, cc: int|
                    0 <= r < pre.rows && 0 <= cc < pre.columns && r != target_row implies #[trigger] self.at(
                        r,
                        cc,
                    ) == pre.at(r, cc) by {
                    assert(self.cells@[r] == pre.cells@[r]);
                }
                assert(pre.row_add_step(*self, pivot_row as int, factor, target_row as int));
                assert(pre.row_step(*self));
                lemma_reduces_step::<T>(*old(self), pre, *self);
                assert(pre.cells@[pivot_row as int] == old(self).cells@[pivot_row as int]);
                assert(pre.cells@[target_row as int] == old(self).cells@[target_row as int]);
                assert(target_cell == pre.at(target_row as int, pivot_column as int));
                assert(pre.at(pivot_row as int, pivot_column as int) == pivot_cell);
                T::law_cancel(target_cell, pivot_cell);
                assert(self.at(target_row as int, pivot_column as int) == T::zero_spec());
                assert forall|t: int, c: int|
                    0 <= t < target_row + 1 && 0 <= c < self.columns && old(self).at(
                        pivot_row as int,
                        c,
                    ) == T::zero_spec() implies #[trigger] self.at(t, c) == old(self).at(t, c) by {
                    if t < target_row {
                        assert(self.cells@[t] == pre.cells@[t]);
                        assert(pre.at(t, c) == old(self).at(t, c));
                    } else {
                        assert(pre.at(pivot_row as int, c) == T::zero_spec());
                        T::law_mul_zero_left(factor);
                        T::law_add_zero(pre.at(t, c));
                        assert(pre.at(t, c) == old(self).at(t, c));
                    }
                }
                assert forall|t: int|
                    0 <= t < target_row + 1 implies #[trigger] self.at(t, pivot_column as int)
                    == T::zero_spec() by {
                    if t < target_row {
                        assert(self.cells@[t] == pre.cells@[t]);
                        assert(pre.at(t, pivot_column as int) == T::zero_spec());
                    }
                }
                if forall|t: int|
                    0 <= t < pivot_row ==> #[trigger] old(self).at(t, pivot_column as int)
                        == T::zero_spec() {
                    assert(old(self).at(target_row as int, pivot_column as int)
                        == T::zero_spec());
                    assert(pre.at(target_row as int, pivot_column as int) == old(self).at(
                        target_row as int,
                        pivot_column as int,
                    ));
                    assert(target_cell == T::zero_spec());
                    T::law_div_zero(pivot_cell);
                    T::law_neg_zero();
                    assert(factor == T::zero_spec());
                    assert forall|r: int, c: int|
                        0 <= r < self.rows && 0 <= c < self.columns implies self.at(r, c)
                        == #[trigger] old(self).at(r, c) by {
                        if r == target_row {
                            T::law_mul_zero_right(pre.at(pivot_row as int, c));
                            T::law_add_zero(pre.at(target_row as int, c));
                            assert(self.at(r, c) == pre.at(r, c));
                        } else {
                            assert(self.cells@[r] == pre.cells@[r]);
                        }
                        assert(pre.at(r, c) == old(self).at(r, c));
                    }
                    assert(self.same_grid(*old(self)));
                }
            }
            target_row = target_row + 1;
        }
    }

    /// Reduce the matrix in place to strict row-echelon form: first to
    /// row-echelon form, then back-substitute upward so that each pivot
    /// column holds a nonzero entry in exactly one row. The result arises
    /// from the input by row swaps and scaled row additions alone. A matrix
    /// already in strict row-echelon form comes back unchanged, entry for
    /// entry.
    #[verifier::rlimit(100)]
    pub fn turn_into_strict_zeilenstufenform(&mut self)
        requires
            old(self).wf(),
        ensures
            final(self).wf(),
            final(self).rows == old(self).rows,
            final(self).columns == old(self).columns,
            final(self).strict_echelon(),
            (forall|r: int|
                0 <= r < final(self).rows - 1 ==> #[trigger] final(self).pivot_col(r) < final(self).columns) ==> final(self).strict_zeilenstufenform(),
            old(self).strict_echelon() ==> final(self).same_grid(*old(self)),
            old(self).reduces_to(*final(self)),
    {
        self.turn_into_zeilenstufenform();
        let mut used_columns: Vec<bool> = Vec::new();
        let mut i: usize = 0;
        let columns = self.columns;
        while i < columns
            invariant
                i <= columns,
                used_columns@.len() == i,
                forall|c: int| 0 <= c < i ==> used_columns@[c] == false,
            decreases columns - i,
        {
            used_columns.push(false);
            i = i + 1;
        }
        let mut row: usize = 0;
        while row < self.rows
            invariant
                self.wf(),
                old(self).wf(),
                self.rows == old(self).rows,
                self.columns == old(self).columns,
                columns == self.columns,
                row <= self.rows,
                used_columns@.len() == self.columns,
                self.echelon(),
                old(self).reduces_to(*self),
                forall|i2: int, j: int|
                    0 <= i2 < row && 0 <= j < self.rows && j != i2 && self.pivot_col(i2)
                        < self.columns ==> #[trigger] self.at(j, self.pivot_col(i2))
                        == T::zero_spec(),
                forall|c: int, q: int|
                    0 <= c < self.columns && 0 <= q < row && #[trigger] self.at(q, c)
                        != T::zero_spec() ==> used_columns@[c],
                old(self).strict_echelon() ==> self.same_grid(*old(self)),
            decreases self.rows - row,
        {
            let ghost entry = *self;
            let ghost used_entry = used_columns@;
            let pivot_column = leading_zero_count(&self.cells[row]);
            proof {
                lemma_leading_zeros_bounds::<T>(self.row_seq(row as int));
            }
            if pivot_column < columns {
                proof {
                    assert(self.pivot_col(row as int) == pivot_column);
                    assert(self.at(row as int, pivot_column as int) != T::zero_spec());
                    assert forall|j: int| row < j < self.rows implies #[trigger] self.at(
                        j,
                        pivot_column as int,
                    ) == T::zero_spec() by {
                        lemma_leading_zeros_bounds::<T>(self.row_seq(j));
                        if self.pivot_col(j) < self.columns {
                            lemma_echelon_monotone::<T>(*self, row as int, j);
                        }
                    }
                }
                if used_columns[pivot_column] {
                    self.eliminate_above(row, pivot_column);
                    used_columns[pivot_column] = false;
                    proof {
                        lemma_reduces_trans::<T>(*old(self), entry, *self);
                        assert(self.cells@[row as int] == entry.cells@[row as int]);
                        assert forall|t: int| 0 <= t < self.rows implies #[trigger] self.pivot_col(
                            t,
                        ) == entry.pivot_col(t) by {
                            if t < row {
                                lemma_echelon_monotone::<T>(entry, t, row as int);
                                lemma_leading_zeros_bounds::<T>(entry.row_seq(row as int));
                                lemma_leading_zeros_bounds::<T>(entry.row_seq(t));
                                assert forall|j2: int|
                                    0 <= j2 < entry.pivot_col(t) implies self.row_seq(t)[j2]
                                    == T::zero_spec() by {
                                    assert(entry.at(row as int, j2) == T::zero_spec());
                                    assert(self.at(t, j2) == entry.at(t, j2));
                                }
                                assert(entry.at(row as int, entry.pivot_col(t)) == T::zero_spec());
                                assert(self.at(t, entry.pivot_col(t)) == entry.at(
                                    t,
                                    entry.pivot_col(t),
                                ));
                                lemma_leading_zeros_char::<T>(self.row_seq(t), entry.pivot_col(t));
                            } else {
                                assert(self.cells@[t] == entry.cells@[t]);
                            }
                        }
                        assert(self.echelon());
                        assert(self.pivot_col(row as int) == pivot_column);
                        assert forall|i2: int, j: int|
                            0 <= i2 < row && 0 <= j < self.rows && j != i2 && self.pivot_col(i2)
                                < self.columns implies #[trigger] self.at(j, self.pivot_col(i2))
                            == T::zero_spec() by {
                            let p = entry.pivot_col(i2);
                            lemma_leading_zeros_bounds::<T>(entry.row_seq(i2));
                            assert(self.pivot_col(i2) == p);
                            assert(entry.at(row as int, p) == T::zero_spec());
                            if j < row {
                                assert(self.at(j, p) == entry.at(j, p));
                            } else {
                                assert(self.cells@[j] == entry.cells@[j]);
                            }
                            assert(entry.at(j, p) == T::zero_spec());
                        }
                        assert forall|q: int| 0 <= q < row implies #[trigger] self.at(
                            q,
                            pivot_column as int,
                        ) == T::zero_spec() by {}
                        assert forall|j: int| row < j < self.rows implies #[trigger] self.at(
                            j,
                            pivot_column as int,
                        ) == T::zero_spec() by {
                            assert(self.cells@[j] == entry.cells@[j]);
                            assert(entry.at(j, pivot_column as int) == T::zero_spec());
                        }
                        if old(self).strict_echelon() {
                            lemma_same_grid_pivots::<T>(entry, *old(self));
                            assert forall|t: int| 0 <= t < row implies #[trigger] entry.at(
                                t,
                                pivot_column as int,
                            ) == T::zero_spec() by {
                                assert(old(self).pivot_col(row as int) == pivot_column);
                                assert(old(self).at(t, old(self).pivot_col(row as int))
                                    == T::zero_spec());
                                assert(entry.at(t, pivot_column as int) == old(self).at(
                                    t,
                                    pivot_column as int,
                                ));
                            }
                            assert(self.same_grid(entry));
                            assert forall|r2: int, c2: int|
                                0 <= r2 < self.rows && 0 <= c2 < self.columns implies self.at(
                                r2,
                                c2,
                            ) == #[trigger] old(self).at(r2, c2) by {
                                assert(self.at(r2, c2) == entry.at(r2, c2));
                                assert(entry.at(r2, c2) == old(self).at(r2, c2));
                            }
                            assert(self.same_grid(*old(self)));
                        }
                    }
                } else {
                    proof {
                        assert forall|q: int| 0 <= q < row implies #[trigger] self.at(
                            q,
                            pivot_column as int,
                        ) == T::zero_spec() by {
                            if self.at(q, pivot_column as int) != T::zero_spec() {
                                assert(used_columns@[pivot_column as int]);
                            }
                        }
                    }
                }
                let ghost mat = *self;
                let ghost used_snap = used_columns@;
                let mut c: usize = 0;
                while c < columns
                    invariant
                        c <= columns,
                        columns == mat.columns,
                        row < mat.rows,
                        mat.wf(),
                        *self == mat,
                        used_columns@.len() == mat.columns,
                        used_snap.len() == mat.columns,
                        forall|j: int|
                            0 <= j < c ==> #[trigger] used_columns@[j] == (used_snap[j] || mat.at(
                                row as int,
                                j,
                            ) != T::zero_spec()),
                        forall|j: int|
                            c <= j < mat.columns ==> #[trigger] used_columns@[j] == used_snap[j],
                    decreases columns - c,
                {
                    if !self.cells[row][c].is_zero() {
                        used_columns[c] = true;
                    }
                    c = c + 1;
                }
                proof {
                    assert forall|cc: int, q: int|
                        0 <= cc < self.columns && 0 <= q < row + 1 && #[trigger] self.at(q, cc)
                            != T::zero_spec() implies used_columns@[cc] by {
                        if q < row {
                            if cc == pivot_column {
                                assert(self.at(q, pivot_column as int) == T::zero_spec());
                            } else {
                                if self.at(row as int, cc) == T::zero_spec() {
                                    assert(entry.at(row as int, cc) == self.at(row as int, cc));
                                    assert(self.at(q, cc) == entry.at(q, cc));
                                    assert(used_entry[cc]);
                                    assert(used_snap[cc]);
                                }
                            }
                        }
                    }
                    assert forall|i2: int, j: int|
                        0 <= i2 < row + 1 && 0 <= j < self.rows && j != i2 && self.pivot_col(i2)
                            < self.columns implies #[trigger] self.at(j, self.pivot_col(i2))
                        == T::zero_spec() by {}
                }
            } else {
                proof {
                    assert forall|cc: int| 0 <= cc < self.columns implies self.at(row as int, cc)
                        == T::zero_spec() by {}
                    assert forall|i2: int, j: int|
                        0 <= i2 < row + 1 && 0 <= j < self.rows && j != i2 && self.pivot_col(i2)
                            < self.columns implies #[trigger] self.at(j, self.pivot_col(i2))
                        == T::zero_spec() by {
                        assert(i2 < row);
                    }
                }
            }
            row = row + 1;
        }
        proof {
            assert forall|r: int, q: int|
                0 <= q < r < self.rows && self.pivot_col(r) < self.columns implies #[trigger] self.at(
                    q,
                    self.pivot_col(r),
                ) == T::zero_spec() by {}
            assert(self.pivots_clear_above());
            if forall|r: int|
                0 <= r < self.rows - 1 ==> #[trigger] self.pivot_col(r) < self.columns {
                assert forall|r: int|
                    0 < r < self.rows implies self.pivot_col(r - 1) < #[trigger] self.pivot_col(
                    r,
                ) by {
                    if !(self.pivot_col(r) < self.columns) {
                        assert(r == self.rows - 1);
                        assert(self.pivot_col(r - 1) < self.columns);
                        lemma_leading_zeros_bounds::<T>(self.row_seq(r));
                    }
                }
                assert(self.zeilenstufenform());
            }
        }
    }

    /// Solve the augmented system in place: reduce to strict row-echelon
    /// form by row operations, report `NoSolution` exactly when a reduced
    /// row states 0 = nonzero, and otherwise read off the offset vector
    /// and, when free variables remain, one parameter column per free
    /// variable. `lemma_offset_satisfies` and
    /// `lemma_parameter_column_satisfies` show that the offset and every
    /// offset-plus-column satisfy the reduced system.
    #[verifier::rlimit(100)]
    pub fn solve_as_system_of_linear_equations(&mut self) -> (result: LinearEquationSystemSolutions<
        T,
    >)
        requires
            old(self).wf(),
            old(self).columns >= 1,
        ensures
            final(self).wf(),
            final(self).rows == old(self).rows,
            final(self).columns == old(self).columns,
            final(self).strict_echelon(),
            old(self).strict_echelon() ==> final(self).same_grid(*old(self)),
            old(self).reduces_to(*final(self)),
            match result {
                LinearEquationSystemSolutions::NoSolution => final(self).inconsistent(),
                LinearEquationSystemSolutions::ExactSolution(offset) => {
                    &&& !final(self).inconsistent()
                    &&& final(self).free_count() == 0
                    &&& final(self).offset_ok(offset)
                },
                LinearEquationSystemSolutions::ManySolutions { offset, parameter_matrix } => {
                    &&& !final(self).inconsistent()
                    &&& final(self).free_count() > 0
                    &&& final(self).offset_ok(offset)
                    &&& final(self).parameter_matrix_ok(parameter_matrix)
                },
            },
    {
        self.turn_into_strict_zeilenstufenform();
        let n = self.columns - 1;
        let mut row: usize = 0;
        while row < self.rows
            invariant
                self.wf(),
                self.columns >= 1,
                n == self.columns - 1,
                row <= self.rows,
                self.rows == old(self).rows,
                self.columns == old(self).columns,
                self.strict_echelon(),
                old(self).strict_echelon() ==> self.same_grid(*old(self)),
                old(self).reduces_to(*self),
                forall|q: int| 0 <= q < row ==> !(#[trigger] self.inconsistent_row(q)),
            decreases self.rows - row,
        {
            let mut all_zero = true;
            let mut c: usize = 0;
            while c < n
                invariant
                    c <= n,
                    n == self.columns - 1,
                    row < self.rows,
                    self.wf(),
                    all_zero ==> forall|j: int|
                        0 <= j < c ==> #[trigger] self.at(row as int, j) == T::zero_spec(),
                    !all_zero ==> exists|j: int|
                        0 <= j < c && #[trigger] self.at(row as int, j) != T::zero_spec(),
                decreases n - c,
            {
                if !self.cells[row][c].is_zero() {
                    all_zero = false;
                    proof {
                        assert(self.at(row as int, c as int) != T::zero_spec());
                    }
                }
                c = c + 1;
            }
            if all_zero {
                if !self.cells[row][n].is_zero() {
                    proof {
                        assert(self.inconsistent_row(row as int));
                    }
                    return LinearEquationSystemSolutions::NoSolution;
                }
            }
            proof {
                if all_zero {
                    assert(self.at(row as int, n as int) == T::zero_spec());
                    assert(!self.inconsistent_row(row as int));
                } else {
                    let j = choose|j: int|
                        0 <= j < n && #[trigger] self.at(row as int, j) != T::zero_spec();
                    assert(!self.inconsistent_row(row as int));
                }
            }
            row = row + 1;
        }
        proof {
            assert(!self.inconsistent());
        }
        let mut offset: Matrix<T> = Matrix::new(n, 1);
        let mut pivots: Vec<bool> = Vec::new();
        let mut i: usize = 0;
        while i < n
            invariant
                i <= n,
                pivots@.len() == i,
                forall|v: int| 0 <= v < i ==> pivots@[v] == false,
            decreases n - i,
        {
            pivots.push(false);
            i = i + 1;
        }
        let mut row: usize = 0;
        while row < self.rows
            invariant
                self.wf(),
                self.columns >= 1,
                n == self.columns - 1,
                row <= self.rows,
                self.strict_echelon(),
                !self.inconsistent(),
                offset.wf(),
                offset.rows == n,
                offset.columns == 1,
                pivots@.len() == n,
                forall|q: int| 0 <= q < row ==> 0 <= #[trigger] self.pivot_col(q) < n,
                forall|q: int|
                    0 <= q < row ==> offset.at(#[trigger] self.pivot_col(q), 0) == T::div_spec(
                        self.at(q, n as int),
                        self.at(q, self.pivot_col(q)),
                    ),
                forall|v: int|
                    0 <= v < n ==> (#[trigger] pivots@[v] <==> exists|q: int|
                        0 <= q < row && #[trigger] self.pivot_col(q) == v),
                forall|v: int|
                    0 <= v < n && !pivots@[v] ==> #[trigger] offset.at(v, 0) == T::zero_spec(),
            ensures
                self.offset_ok(offset),
                pivots@.len() == n,
                forall|v: int| 0 <= v < n ==> (#[trigger] pivots@[v] <==> self.pivot_var(v)),
            decreases self.rows - row,
        {
            let pivot_column = leading_zero_count(&self.cells[row]);
            proof {
                lemma_leading_zeros_bounds::<T>(self.row_seq(row as int));
            }
            if pivot_column < n {
                let pivot_cell = self.cells[row][pivot_column];
                let rhs_cell = self.cells[row][n];
                let ghost offset0 = offset;
                offset.set_cell(pivot_column, 0, rhs_cell.div(pivot_cell));
                let ghost pivots0 = pivots@;
                pivots[pivot_column] = true;
                proof {
                    assert(self.pivot_col(row as int) == pivot_column);
                    assert forall|q: int|
                        0 <= q < row + 1 implies offset.at(#[trigger] self.pivot_col(q), 0)
                        == T::div_spec(self.at(q, n as int), self.at(q, self.pivot_col(q))) by {
                        if q < row {
                            lemma_echelon_monotone::<T>(*self, q, row as int);
                            assert(self.pivot_col(q) != pivot_column);
                            assert(offset.cells@[self.pivot_col(q)]
                                == offset0.cells@[self.pivot_col(q)]);
                            assert(offset.at(self.pivot_col(q), 0) == offset0.at(
                                self.pivot_col(q),
                                0,
                            ));
                        }
                    }
                    assert forall|v: int|
                        0 <= v < n implies (#[trigger] pivots@[v] <==> exists|q: int|
                        0 <= q < row + 1 && #[trigger] self.pivot_col(q) == v) by {
                        if v == pivot_column {
                            assert(self.pivot_col(row as int) == v);
                        } else {
                            assert(pivots@[v] == pivots0[v]);
                            if pivots0[v] {
                                let q = choose|q: int|
                                    0 <= q < row && #[trigger] self.pivot_col(q) == v;
                                assert(self.pivot_col(q) == v);
                            } else {
                                if exists|q: int|
                                    0 <= q < row + 1 && #[trigger] self.pivot_col(q) == v {
                                    let q = choose|q: int|
                                        0 <= q < row + 1 && #[trigger] self.pivot_col(q) == v;
                                    assert(q < row);
                                    assert(false);
                                }
                            }
                        }
                    }
                    assert forall|v: int|
                        0 <= v < n && !pivots@[v] implies #[trigger] offset.at(v, 0)
                            == T::zero_spec() by {
                        assert(v != pivot_column);
                        assert(offset.at(v, 0) == offset0.at(v, 0));
                        assert(!pivots0[v]);
                    }
                }
                row = row + 1;
            } else {
                proof {
                    lemma_zero_row_tail::<T>(*self, row as int);
                    assert forall|v: int|
                        0 <= v < n implies (#[trigger] pivots@[v] <==> self.pivot_var(v)) by {
                        if self.pivot_var(v) {
                            let q = choose|q: int|
                                0 <= q < self.rows && #[trigger] self.pivot_col(q) == v;
                            if q >= row {
                                assert(self.pivot_col(q) == self.columns);
                                assert(false);
                            }
                            assert(self.pivot_col(q) == v);
                        } else {
                            if pivots@[v] {
                                let q = choose|q: int|
                                    0 <= q < row && #[trigger] self.pivot_col(q) == v;
                                assert(self.pivot_var(v));
                                assert(false);
                            }
                        }
                    }
                }
                break ;
            }
        }
        let mut parameter_matrix: Matrix<T> = Matrix::new(n, 0);
        let mut free_column: usize = 0;
        while free_column < n
            invariant
                self.wf(),
                self.columns >= 1,
                n == self.columns - 1,
                free_column <= n,
                self.strict_echelon(),
                !self.inconsistent(),
                pivots@.len() == n,
                forall|v: int| 0 <= v < n ==> (#[trigger] pivots@[v] <==> self.pivot_var(v)),
                parameter_matrix.wf(),
                parameter_matrix.rows == n,
                parameter_matrix.columns == self.free_count_upto(free_column as int),
                forall|g: int|
                    0 <= g < free_column && self.free_var(g) ==> #[trigger] parameter_matrix.at(
                        g,
                        self.free_count_upto(g),
                    ) == T::one_spec(),
                forall|g: int, v: int|
                    0 <= g < free_column && self.free_var(g) && self.free_var(v) && v != g
                        ==> #[trigger] parameter_matrix.at(v, self.free_count_upto(g))
                        == T::zero_spec(),
                forall|g: int, r: int|
                    0 <= g < free_column && self.free_var(g) && 0 <= r < self.rows
                        && #[trigger] self.pivot_col(r) < n ==> #[trigger] parameter_matrix.at(
                        self.pivot_col(r),
                        self.free_count_upto(g),
                    ) == T::neg_spec(T::div_spec(self.at(r, g), self.at(r, self.pivot_col(r)))),
            decreases n - free_column,
        {
            if !pivots[free_column] {
                proof {
                    assert(self.free_var(free_column as int));
                    lemma_free_count_range::<T>(*self, 0, free_column as int);
                }
                let column_index = parameter_matrix.columns;
                let ghost pm_base = parameter_matrix;
                parameter_matrix.add_columns(1);
                let ghost pm_add = parameter_matrix;
                parameter_matrix.set_cell(free_column, column_index, T::one());
                proof {
                    assert forall|v: int, cc: int|
                        0 <= v < n && 0 <= cc < column_index implies #[trigger] parameter_matrix.at(
                            v,
                            cc,
                        ) == pm_base.at(v, cc) by {
                        if v != free_column {
                            assert(parameter_matrix.cells@[v] == pm_add.cells@[v]);
                        }
                        assert(pm_add.at(v, cc) == pm_base.at(v, cc));
                    }
                    assert forall|v: int|
                        0 <= v < n && v != free_column implies #[trigger] parameter_matrix.at(
                            v,
                            column_index as int,
                        ) == T::zero_spec() by {
                        assert(parameter_matrix.cells@[v] == pm_add.cells@[v]);
                        assert(pm_add.at(v, column_index as int) == T::zero_spec());
                    }
                }
                let mut row: usize = 0;
                while row < self.rows
                    invariant
                        self.wf(),
                        self.columns >= 1,
                        n == self.columns - 1,
                        row <= self.rows,
                        self.strict_echelon(),
                        !self.inconsistent(),
                        free_column < n,
                        self.free_var(free_column as int),
                        column_index as int == self.free_count_upto(free_column as int),
                        parameter_matrix.wf(),
                        parameter_matrix.rows == n,
                        parameter_matrix.columns == column_index + 1,
                        pm_base.wf(),
                        pm_base.rows == n,
                        pm_base.columns == column_index,
                        forall|v: int, cc: int|
                            0 <= v < n && 0 <= cc < column_index ==> #[trigger] parameter_matrix.at(
                                v,
                                cc,
                            ) == pm_base.at(v, cc),
                        parameter_matrix.at(free_column as int, column_index as int)
                            == T::one_spec(),
                        forall|q: int| 0 <= q < row ==> 0 <= #[trigger] self.pivot_col(q) < n,
                        forall|q: int|
                            0 <= q < row ==> parameter_matrix.at(
                                #[trigger] self.pivot_col(q),
                                column_index as int,
                            ) == T::neg_spec(
                                T::div_spec(
                                    self.at(q, free_column as int),
                                    self.at(q, self.pivot_col(q)),
                                ),
                            ),
                        forall|v: int|
                            0 <= v < n && v != free_column && !(exists|q: int|
                                0 <= q < row && #[trigger] self.pivot_col(q) == v)
                                ==> #[trigger] parameter_matrix.at(v, column_index as int)
                                == T::zero_spec(),
                    ensures
                        parameter_matrix.wf(),
                        parameter_matrix.rows == n,
                        parameter_matrix.columns == column_index + 1,
                        forall|v: int, cc: int|
                            0 <= v < n && 0 <= cc < column_index ==> #[trigger] parameter_matrix.at(
                                v,
                                cc,
                            ) == pm_base.at(v, cc),
                        parameter_matrix.at(free_column as int, column_index as int)
                            == T::one_spec(),
                        forall|r: int|
                            0 <= r < self.rows && #[trigger] self.pivot_col(r) < n
                                ==> parameter_matrix.at(self.pivot_col(r), column_index as int)
                                == T::neg_spec(
                                T::div_spec(
                                    self.at(r, free_column as int),
                                    self.at(r, self.pivot_col(r)),
                                ),
                            ),
                        forall|v: int|
                            0 <= v < n && v != free_column && !self.pivot_var(v)
                                ==> #[trigger] parameter_matrix.at(v, column_index as int)
                                == T::zero_spec(),
                    decreases self.rows - row,
                {
                    let pivot_column = leading_zero_count(&self.cells[row]);
                    proof {
                        lemma_leading_zeros_bounds::<T>(self.row_seq(row as int));
                    }
                    if pivot_column < n {
                        let coefficient = self.cells[row][free_column];
                        let pivot_cell = self.cells[row][pivot_column];
                        let ghost pm0 = parameter_matrix;
                        parameter_matrix.set_cell(
                            pivot_column,
                            column_index,
                            (coefficient.div(pivot_cell)).neg(),
                        );
                        proof {
                            assert(self.pivot_col(row as int) == pivot_column);
                            assert(pivot_column != free_column);
                            assert forall|v: int, cc: int|
                                0 <= v < n && 0 <= cc < parameter_matrix.columns && !(v
                                    == pivot_column && cc
                                    == column_index) implies #[trigger] parameter_matrix.at(v, cc)
                                == pm0.at(v, cc) by {
                                if v != pivot_column {
                                    assert(parameter_matrix.cells@[v] == pm0.cells@[v]);
                                }
                            }
                            assert forall|q: int|
                                0 <= q < row + 1 implies parameter_matrix.at(
                                #[trigger] self.pivot_col(q),
                                column_index as int,
                            ) == T::neg_spec(
                                T::div_spec(
                                    self.at(q, free_column as int),
                                    self.at(q, self.pivot_col(q)),
                                ),
                            ) by {
                                if q < row {
                                    lemma_echelon_monotone::<T>(*self, q, row as int);
                                    assert(self.pivot_col(q) != pivot_column);
                                    assert(parameter_matrix.cells@[self.pivot_col(q)]
                                        == pm0.cells@[self.pivot_col(q)]);
                                    assert(parameter_matrix.at(
                                        self.pivot_col(q),
                                        column_index as int,
                                    ) == pm0.at(self.pivot_col(q), column_index as int));
                                }
                            }
                        }
                        row = row + 1;
                    } else {
                        proof {
                            lemma_zero_row_tail::<T>(*self, row as int);
                            assert forall|v: int|
                                0 <= v < n && v != free_column && !self.pivot_var(
                                    v,
                                ) implies #[trigger] parameter_matrix.at(v, column_index as int)
                                == T::zero_spec() by {
                                if exists|q: int|
                                    0 <= q < row && #[trigger] self.pivot_col(q) == v {
                                    let q = choose|q: int|
                                        0 <= q < row && #[trigger] self.pivot_col(q) == v;
                                    assert(self.pivot_var(v));
                                    assert(false);
                                }
                            }
                        }
                        break ;
                    }
                }
                proof {
                    assert(self.free_count_upto(free_column as int + 1) == column_index + 1);
                    assert forall|g: int|
                        0 <= g < free_column + 1 && self.free_var(
                            g,
                        ) implies #[trigger] parameter_matrix.at(g, self.free_count_upto(g))
                        == T::one_spec() by {
                        if g < free_column {
                            lemma_free_count_range::<T>(*self, 0, g);
                            lemma_free_count_range::<T>(*self, g + 1, free_column as int);
                            assert(self.free_count_upto(g) < column_index);
                            assert(parameter_matrix.at(g, self.free_count_upto(g)) == pm_base.at(
                                g,
                                self.free_count_upto(g),
                            ));
                        }
                    }
                    assert forall|g: int, v: int|
                        0 <= g < free_column + 1 && self.free_var(g) && self.free_var(v) && v
                            != g implies #[trigger] parameter_matrix.at(v, self.free_count_upto(g))
                        == T::zero_spec() by {
                        if g < free_column {
                            lemma_free_count_range::<T>(*self, 0, g);
                            lemma_free_count_range::<T>(*self, g + 1, free_column as int);
                            assert(self.free_count_upto(g) < column_index);
                            assert(parameter_matrix.at(v, self.free_count_upto(g)) == pm_base.at(
                                v,
                                self.free_count_upto(g),
                            ));
                        }
                    }
                    assert forall|g: int, r: int|
                        0 <= g < free_column + 1 && self.free_var(g) && 0 <= r < self.rows
                            && #[trigger] self.pivot_col(r) < n implies #[trigger] parameter_matrix.at(
                            self.pivot_col(r),
                            self.free_count_upto(g),
                        ) == T::neg_spec(
                        T::div_spec(self.at(r, g), self.at(r, self.pivot_col(r))),
                    ) by {
                        lemma_leading_zeros_bounds::<T>(self.row_seq(r));
                        if g < free_column {
                            lemma_free_count_range::<T>(*self, 0, g);
                            lemma_free_count_range::<T>(*self, g + 1, free_column as int);
                            assert(self.free_count_upto(g) < column_index);
                            assert(parameter_matrix.at(self.pivot_col(r), self.free_count_upto(g))
                                == pm_base.at(self.pivot_col(r), self.free_count_upto(g)));
                        }
                    }
                }
            } else {
                proof {
                    assert(self.pivot_var(free_column as int));
                    assert(!self.free_var(free_column as int));
                    assert(self.free_count_upto(free_column as int + 1) == self.free_count_upto(
                        free_column as int,
                    ));
                }
            }
            free_column = free_column + 1;
        }
        if parameter_matrix.columns == 0 {
            LinearEquationSystemSolutions::ExactSolution(offset)
        } else {
            LinearEquationSystemSolutions::ManySolutions { offset, parameter_matrix }
        }
    }
}


/// Law: the classifier's offset vector satisfies every equation of the
/// consistent reduced system it was read from: the particular solution
/// with every free parameter set to zero reproduces the right-hand side.
pub proof fn lemma_offset_satisfies<T: Field>(m: Matrix<T>, offset: Matrix<T>)
    requires
        m.wf(),
        m.columns >= 1,
        m.strict_echelon(),
        !m.inconsistent(),
        m.offset_ok(offset),
    ensures
        m.satisfies(offset),
{
    let n = m.columns - 1;
    assert forall|r: int| 0 <= r < m.rows implies #[trigger] m.row_eval(r, offset) == m.at(
        r,
        n,
    ) by {
        lemma_leading_zeros_bounds::<T>(m.row_seq(r));
        if m.pivot_col(r) < n {
            let p = m.pivot_col(r);
            let s = Seq::new(n as nat, |c: int| T::mul_spec(m.at(r, c), offset.at(c, 0)));
            assert(m.row_seq(r)[p] != T::zero_spec());
            assert forall|c: int| 0 <= c < n && c != p implies s[c] == T::zero_spec() by {
                if m.at(r, c) == T::zero_spec() {
                    T::law_mul_zero_left(offset.at(c, 0));
                } else {
                    lemma_nonzero_entry_free::<T>(m, r, c);
                    assert(offset.at(c, 0) == T::zero_spec());
                    T::law_mul_zero_right(m.at(r, c));
                }
            }
            assert(offset.at(p, 0) == T::div_spec(m.at(r, n), m.at(r, p)));
            T::law_mul_div(m.at(r, n), m.at(r, p));
            assert(s[p] == m.at(r, n));
            lemma_seq_sum_single::<T>(s, p);
        } else {
            lemma_zero_row_tail::<T>(m, r);
            assert(m.pivot_col(r) == m.columns);
            assert forall|c: int| 0 <= c < m.columns implies m.at(r, c) == T::zero_spec() by {
                assert(m.row_seq(r)[c] == T::zero_spec());
            }
            if n > 0 {
                let s = Seq::new(n as nat, |c: int| T::mul_spec(m.at(r, c), offset.at(c, 0)));
                assert forall|c: int| 0 <= c < n implies s[c] == T::zero_spec() by {
                    T::law_mul_zero_left(offset.at(c, 0));
                }
                lemma_seq_sum_zero::<T>(s);
            }
        }
    }
}

/// Law: the classifier's offset vector plus one column of its parameter
/// matrix satisfies every equation of the consistent reduced system: each
/// free variable's column is a direction along which the whole solution
/// family moves.
pub proof fn lemma_parameter_column_satisfies<T: Field>(
    m: Matrix<T>,
    offset: Matrix<T>,
    pm: Matrix<T>,
    f: int,
    x: Matrix<T>,
)
    requires
        m.wf(),
        m.columns >= 1,
        m.strict_echelon(),
        !m.inconsistent(),
        m.offset_ok(offset),
        m.parameter_matrix_ok(pm),
        m.free_var(f),
        x.wf(),
        x.rows == m.columns - 1,
        x.columns == 1,
        forall|v: int|
            0 <= v < m.columns - 1 ==> #[trigger] x.at(v, 0) == T::add_spec(
                offset.at(v, 0),
                pm.at(v, m.free_count_upto(f)),
            ),
    ensures
        m.satisfies(x),
{
    let n = m.columns - 1;
    let cf = m.free_count_upto(f);
    assert forall|r: int| 0 <= r < m.rows implies #[trigger] m.row_eval(r, x) == m.at(r, n) by {
        lemma_leading_zeros_bounds::<T>(m.row_seq(r));
        if m.pivot_col(r) < n {
            let p = m.pivot_col(r);
            let s = Seq::new(n as nat, |c: int| T::mul_spec(m.at(r, c), x.at(c, 0)));
            assert(m.row_seq(r)[p] != T::zero_spec());
            assert(m.pivot_var(p));
            assert(p != f);
            assert(offset.at(f, 0) == T::zero_spec());
            assert(pm.at(f, cf) == T::one_spec());
            T::law_zero_add(T::one_spec());
            assert(x.at(f, 0) == T::one_spec());
            assert(offset.at(p, 0) == T::div_spec(m.at(r, n), m.at(r, p)));
            assert(pm.at(p, cf) == T::neg_spec(T::div_spec(m.at(r, f), m.at(r, p))));
            assert forall|c: int| 0 <= c < n && c != p && c != f implies s[c]
                == T::zero_spec() by {
                if m.at(r, c) == T::zero_spec() {
                    T::law_mul_zero_left(x.at(c, 0));
                } else {
                    lemma_nonzero_entry_free::<T>(m, r, c);
                    assert(offset.at(c, 0) == T::zero_spec());
                    assert(pm.at(c, cf) == T::zero_spec());
                    T::law_add_zero(T::zero_spec());
                    assert(x.at(c, 0) == T::zero_spec());
                    T::law_mul_zero_right(m.at(r, c));
                }
            }
            T::law_mul_one(m.at(r, f));
            assert(s[f] == m.at(r, f));
            T::law_distribute(m.at(r, p), offset.at(p, 0), pm.at(p, cf));
            T::law_mul_div(m.at(r, n), m.at(r, p));
            T::law_mul_neg(m.at(r, p), T::div_spec(m.at(r, f), m.at(r, p)));
            T::law_mul_div(m.at(r, f), m.at(r, p));
            assert(s[p] == T::add_spec(m.at(r, n), T::neg_spec(m.at(r, f))));
            T::law_add_assoc(m.at(r, n), T::neg_spec(m.at(r, f)), m.at(r, f));
            T::law_add_comm(T::neg_spec(m.at(r, f)), m.at(r, f));
            T::law_add_neg(m.at(r, f));
            T::law_add_zero(m.at(r, n));
            if p < f {
                lemma_seq_sum_pair::<T>(s, p, f);
            } else {
                lemma_seq_sum_pair::<T>(s, f, p);
                T::law_add_comm(m.at(r, f), T::add_spec(m.at(r, n), T::neg_spec(m.at(r, f))));
            }
        } else {
            lemma_zero_row_tail::<T>(m, r);
            assert(m.pivot_col(r) == m.columns);
            assert forall|c: int| 0 <= c < m.columns implies m.at(r, c) == T::zero_spec() by {
                assert(m.row_seq(r)[c] == T::zero_spec());
            }
            if n > 0 {
                let s = Seq::new(n as nat, |c: int| T::mul_spec(m.at(r, c), x.at(c, 0)));
                assert forall|c: int| 0 <= c < n implies s[c] == T::zero_spec() by {
                    T::law_mul_zero_left(x.at(c, 0));
                }
                lemma_seq_sum_zero::<T>(s);
            }
        }
    }
}

} // verus!
