//! A dense matrix, stored row after row, that can grow by rows.

use vstd::prelude::*;
use vstd::std_specs::convert::FromSpec;
use vstd::std_specs::ops::AddSpec;
use vstd::std_specs::ops::MulSpec;
use core::ops::Add;
use core::ops::Mul;
use crate::algebra::dot_defined;
use crate::algebra::dot_from;
use crate::algebra::lemma_dot_defined_prefix;
use crate::algebra::obeys_ring;

verus! {

/// The slot of entry `(r, c)` in a matrix with `cols` columns.
pub open spec fn dense_index(cols: int, r: int, c: int) -> int {
    r * cols + c
}

/// Every entry has a slot of its own inside the storage.
pub proof fn lemma_dense_index(rows: int, cols: int, r: int, c: int)
    requires
        0 <= r < rows,
        0 <= c < cols,
    ensures
        0 <= dense_index(cols, r, c) < rows * cols,
        dense_index(cols, r, c) < (r + 1) * cols <= rows * cols,
        r * cols <= dense_index(cols, r, c),
{
    assert(0 <= r * cols) by (nonlinear_arith)
        requires
            0 <= r,
            0 <= cols,
    ;
    assert((r + 1) * cols == r * cols + cols) by (nonlinear_arith);
    assert((r + 1) * cols <= rows * cols) by (nonlinear_arith)
        requires
            r + 1 <= rows,
            0 <= cols,
    ;
}

/// Different entries have different slots.
pub proof fn lemma_dense_index_injective(cols: int, r1: int, c1: int, r2: int, c2: int)
    requires
        0 <= r1,
        0 <= r2,
        0 <= c1 < cols,
        0 <= c2 < cols,
        dense_index(cols, r1, c1) == dense_index(cols, r2, c2),
    ensures
        r1 == r2,
        c1 == c2,
{
    if r1 < r2 {
        lemma_dense_index(r2, cols, r1, c1);
    } else if r2 < r1 {
        lemma_dense_index(r1, cols, r2, c2);
    }
}

/// Column `c` of a matrix given by its rows.
pub open spec fn column_of<T>(w: Seq<Seq<T>>, c: int) -> Seq<T> {
    Seq::new(w.len(), |r: int| w[r][c])
}

/// The score of `vec` against every row of `w`: entry `r` is the sum of
/// `w[r][c] * vec[c]` over the columns, accumulated from `0`.
pub open spec fn project<T: Add<Output = T> + Mul<Output = T> + From<i8>>(
    w: Seq<Seq<T>>,
    vec: Seq<T>,
) -> Seq<T> {
    Seq::new(w.len(), |r: int| dot_from(T::from_spec(0i8), w[r], vec, vec.len() as int))
}

/// The rows of `w` recombined with the weights `vec`, for rows of `width`
/// entries: entry `c` is the sum of `vec[r] * w[r][c]` over the rows,
/// accumulated from `0`.
pub open spec fn back_project<T: Add<Output = T> + Mul<Output = T> + From<i8>>(
    w: Seq<Seq<T>>,
    vec: Seq<T>,
    width: int,
) -> Seq<T> {
    Seq::new(
        width as nat,
        |c: int| dot_from(T::from_spec(0i8), vec, column_of(w, c), w.len() as int),
    )
}

/// A `rows`-by-`cols` matrix.
pub struct DMatrix<T> {
    rows: usize,
    cols: usize,
    data: Vec<T>,
}

impl<T> View for DMatrix<T> {
    type V = Seq<Seq<T>>;

    /// The rows of the matrix, first row first.
    open spec fn view(&self) -> Seq<Seq<T>> {
        Seq::new(self.height() as nat, |r: int| self.row(r))
    }
}

impl<T> DMatrix<T> {
    /// The storage has exactly one slot for each entry.
    pub closed spec fn wf(&self) -> bool {
        self.data.len() == self.rows * self.cols
    }

    /// Number of rows.
    pub closed spec fn height(&self) -> int {
        self.rows as int
    }

    /// Number of columns.
    pub closed spec fn width(&self) -> int {
        self.cols as int
    }

    /// The entry `(r, c)`.
    pub closed spec fn at(&self, r: int, c: int) -> T {
        self.data[dense_index(self.cols as int, r, c)]
    }

    /// Row `r`, an entry for each column.
    pub open spec fn row(&self, r: int) -> Seq<T> {
        Seq::new(self.width() as nat, |c: int| self.at(r, c))
    }

    /// Column `c`, an entry for each row.
    pub open spec fn column(&self, c: int) -> Seq<T> {
        Seq::new(self.height() as nat, |r: int| self.at(r, c))
    }

    /// Every row's score against `vec` may be computed.
    pub open spec fn project_defined(&self, vec: Seq<T>) -> bool where
        T: Add<Output = T> + Mul<Output = T> + From<i8>,
     {
        forall|r: int|
            0 <= r < self.height() ==> dot_defined(
                T::from_spec(0i8),
                #[trigger] self.row(r),
                vec,
                self.width(),
            )
    }

    /// Every entry of the recombination of the rows with `vec` may be
    /// computed.
    pub open spec fn back_project_defined(&self, vec: Seq<T>) -> bool where
        T: Add<Output = T> + Mul<Output = T> + From<i8>,
     {
        forall|c: int|
            0 <= c < self.width() ==> dot_defined(
                T::from_spec(0i8),
                vec,
                #[trigger] self.column(c),
                self.height(),
            )
    }

    /// Number of rows.
    pub fn rows(&self) -> (n: usize)
        ensures
            n == self.height(),
    {
        self.rows
    }

    /// Number of columns.
    pub fn cols(&self) -> (n: usize)
        ensures
            n == self.width(),
    {
        self.cols
    }

    /// Reads entry `(r, c)`.
    pub fn get(&self, r: usize, c: usize) -> (v: &T)
        requires
            self.wf(),
            r < self.height(),
            c < self.width(),
        ensures
            *v == self.at(r as int, c as int),
    {
        proof {
            lemma_dense_index(self.rows as int, self.cols as int, r as int, c as int);
        }
        &self.data[r * self.cols + c]
    }

    /// Writes entry `(r, c)`; every other entry stays.
    pub fn set(&mut self, r: usize, c: usize, v: T)
        requires
            old(self).wf(),
            r < old(self).height(),
            c < old(self).width(),
        ensures
            final(self).wf(),
            final(self).height() == old(self).height(),
            final(self).width() == old(self).width(),
            final(self).at(r as int, c as int) == v,
            forall|i: int, j: int|
                0 <= i < old(self).height() && 0 <= j < old(self).width() && !(i == r && j == c)
                    ==> #[trigger] final(self).at(i, j) == old(self).at(i, j),
            final(self)@ == old(self)@.update(r as int, old(self)@[r as int].update(c as int, v)),
    {
        proof {
            lemma_dense_index(self.rows as int, self.cols as int, r as int, c as int);
        }
        let idx = r * self.cols + c;
        self.data[idx] = v;
        proof {
            assert forall|i: int, j: int|
                0 <= i < old(self).height() && 0 <= j < old(self).width() && !(i == r && j
                    == c) implies #[trigger] self.at(i, j) == old(self).at(i, j) by {
                lemma_dense_index(self.rows as int, self.cols as int, i, j);
                if dense_index(self.cols as int, i, j) == idx {
                    lemma_dense_index_injective(self.cols as int, i, j, r as int, c as int);
                }
            }
            let goal = old(self)@.update(r as int, old(self)@[r as int].update(c as int, v));
            assert forall|i: int| 0 <= i < self.height() implies #[trigger] self@[i] =~= goal[i] by {
                assert forall|j: int| 0 <= j < self.width() implies self@[i][j] == goal[i][j] by {
                    if !(i == r && j == c) {
                        assert(self.at(i, j) == old(self).at(i, j));
                    }
                }
            }
            assert(self@ =~= goal);
        }
    }
}

impl<T: Copy> DMatrix<T> {
    /// A matrix whose every entry is `default_value`.
    pub fn new(rows: usize, cols: usize, default_value: T) -> (m: Self)
        requires
            rows * cols <= usize::MAX,
        ensures
            m.wf(),
            m.height() == rows,
            m.width() == cols,
            forall|r: int, c: int|
                0 <= r < rows && 0 <= c < cols ==> #[trigger] m.at(r, c) == default_value,
    {
        let size = rows * cols;
        let mut data: Vec<T> = Vec::with_capacity(size);
        let mut i: usize = 0;
        while i < size
            invariant
                i <= size,
                data.len() == i,
                forall|k: int| 0 <= k < i ==> data[k] == default_value,
            decreases size - i,
        {
            data.push(default_value);
            i += 1;
        }
        let m = Self { rows, cols, data };
        proof {
            assert forall|r: int, c: int| 0 <= r < rows && 0 <= c < cols implies #[trigger] m.at(
                r,
                c,
            ) == default_value by {
                lemma_dense_index(rows as int, cols as int, r, c);
            }
        }
        m
    }

    /// Appends `vec` as a new last row; the rows before it stay.
    pub fn add_row(&mut self, vec: &[T])
        requires
            old(self).wf(),
            vec@.len() == old(self).width(),
            old(self).height() < usize::MAX,
        ensures
            final(self).wf(),
            final(self).height() == old(self).height() + 1,
            final(self).width() == old(self).width(),
            final(self).row(old(self).height()) == vec@,
            final(self)@ == old(self)@.push(vec@),
            forall|r: int, c: int|
                0 <= r < old(self).height() && 0 <= c < old(self).width()
                    ==> #[trigger] final(self).at(r, c) == old(self).at(r, c),
    {
        let cols = self.cols;
        let ghost rows = self.rows as int;
        let mut c: usize = 0;
        proof {
            assert((rows + 1) * cols == rows * cols + cols) by (nonlinear_arith);
        }
        while c < cols
            invariant
                c <= cols,
                cols == self.cols,
                cols == vec@.len(),
                self.rows == rows,
                self.cols == old(self).cols,
                self.data@.len() == rows * cols + c,
                forall|k: int| 0 <= k < rows * cols ==> self.data@[k] == old(self).data@[k],
                forall|j: int| 0 <= j < c ==> self.data@[rows * cols + j] == vec@[j],
            decreases cols - c,
        {
            self.data.push(vec[c]);
            c += 1;
        }
        self.rows = self.rows + 1;
        proof {
            assert forall|r: int, c: int|
                0 <= r < old(self).height() && 0 <= c < old(self).width() implies #[trigger] self.at(
                r,
                c,
            ) == old(self).at(r, c) by {
                lemma_dense_index(rows, cols as int, r, c);
            }
            assert(self.row(rows) =~= vec@);
            let goal = old(self)@.push(vec@);
            assert forall|r: int| 0 <= r < self.height() implies #[trigger] self@[r] =~= goal[r] by {
                if r < rows {
                    assert forall|c: int| 0 <= c < self.width() implies self@[r][c] == goal[r][c] by {
                        assert(self.at(r, c) == old(self).at(r, c));
                    }
                }
            }
            assert(self@ =~= goal);
        }
    }
}

impl<T: Copy + Add<Output = T> + Mul<Output = T> + From<i8>> DMatrix<T> {
    /// Scores `vec` against every row: `out[r]` becomes the sum of
    /// `at(r, c) * vec[c]` over the columns, accumulated from `0`.
    pub fn mul_vec(&self, vec: &[T], out: &mut [T])
        requires
            self.wf(),
            vec@.len() == self.width(),
            old(out)@.len() == self.height(),
            obeys_ring::<T>(),
            T::obeys_from_spec(),
            self.project_defined(vec@),
        ensures
            final(out)@ == project(self@, vec@),
    {
        let zero = T::from(0i8);
        let mut r: usize = 0;
        while r < self.rows
            invariant
                r <= self.rows,
                self.wf(),
                vec@.len() == self.width(),
                out@.len() == self.height(),
                obeys_ring::<T>(),
                zero == T::from_spec(0i8),
                forall|i: int|
                    0 <= i < self.height() ==> dot_defined(
                        zero,
                        #[trigger] self.row(i),
                        vec@,
                        self.width(),
                    ),
                forall|i: int|
                    0 <= i < r ==> #[trigger] out@[i] == dot_from(
                        zero,
                        self.row(i),
                        vec@,
                        self.width(),
                    ),
            decreases self.rows - r,
        {
            let mut acc = zero;
            let mut c: usize = 0;
            let ghost row = self.row(r as int);
            while c < self.cols
                invariant
                    c <= self.cols,
                    r < self.rows,
                    self.wf(),
                    vec@.len() == self.width(),
                    obeys_ring::<T>(),
                    row == self.row(r as int),
                    dot_defined(zero, row, vec@, self.width()),
                    acc == dot_from(zero, row, vec@, c as int),
                decreases self.cols - c,
            {
                proof {
                    lemma_dot_defined_prefix(zero, row, vec@, self.width(), c as int + 1);
                }
                acc = acc + *self.get(r, c) * vec[c];
                c += 1;
            }
            out[r] = acc;
            r += 1;
        }
        assert(out@ =~= project(self@, vec@));
    }

    /// Recombines the rows, weighted by `vec`: `out[c]` becomes the sum of
    /// `vec[r] * at(r, c)` over the rows, accumulated from `0`.
    pub fn trans_mul_vec(&self, vec: &[T], out: &mut [T])
        requires
            self.wf(),
            vec@.len() == self.height(),
            old(out)@.len() == self.width(),
            obeys_ring::<T>(),
            T::obeys_from_spec(),
            self.back_project_defined(vec@),
        ensures
            final(out)@ == back_project(self@, vec@, self.width()),
    {
        let zero = T::from(0i8);
        let mut c: usize = 0;
        while c < self.cols
            invariant
                c <= self.cols,
                self.wf(),
                vec@.len() == self.height(),
                out@.len() == self.width(),
                obeys_ring::<T>(),
                zero == T::from_spec(0i8),
                forall|j: int|
                    0 <= j < self.width() ==> dot_defined(
                        zero,
                        vec@,
                        #[trigger] self.column(j),
                        self.height(),
                    ),
                forall|j: int|
                    0 <= j < c ==> #[trigger] out@[j] == dot_from(
                        zero,
                        vec@,
                        self.column(j),
                        self.height(),
                    ),
            decreases self.cols - c,
        {
            let mut acc = zero;
            let mut r: usize = 0;
            let ghost col = self.column(c as int);
            while r < self.rows
                invariant
                    r <= self.rows,
                    c < self.cols,
                    self.wf(),
                    vec@.len() == self.height(),
                    obeys_ring::<T>(),
                    col == self.column(c as int),
                    dot_defined(zero, vec@, col, self.height()),
                    acc == dot_from(zero, vec@, col, r as int),
                decreases self.rows - r,
            {
                proof {
                    lemma_dot_defined_prefix(zero, vec@, col, self.height(), r as int + 1);
                }
                acc = acc + vec[r] * *self.get(r, c);
                r += 1;
            }
            out[c] = acc;
            c += 1;
        }
        assert forall|j: int| 0 <= j < self.width() implies column_of(self@, j) =~= self.column(
            j,
        ) by {}
        assert(out@ =~= back_project(self@, vec@, self.width()));
    }
}

} // verus!
