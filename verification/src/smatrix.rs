//! A symmetric matrix that stores only its upper triangle.
//!
//! An `n`-by-`n` symmetric matrix is kept in `n * (n + 1) / 2` slots, row by
//! row, each row starting at its diagonal entry. The logical entries `(r, c)`
//! and `(c, r)` share one slot, so symmetry holds by construction.

use vstd::prelude::*;
use vstd::std_specs::ops::AddSpec;
use vstd::std_specs::ops::MulSpec;
use core::ops::Add;
use core::ops::Mul;
use crate::algebra::dot_defined;
use crate::algebra::dot_from;
use crate::algebra::lemma_dot_defined_prefix;
use crate::algebra::min_len;
use crate::algebra::obeys_ring;

verus! {

/// Number of slots that back an `n`-by-`n` symmetric matrix.
pub open spec fn packed_len(n: int) -> int {
    n * (n + 1) / 2
}

/// Whether the slot count of an `n`-by-`n` matrix can be computed in `usize`.
pub open spec fn packed_fits(n: int) -> bool {
    0 <= n && n * (n + 1) <= usize::MAX
}

/// Offset added to the column to reach the slot of an entry in row `r` (`r <= c`).
pub open spec fn row_offset(n: int, r: int) -> int {
    (2 * n - r - 1) * r / 2
}

/// The slot that backs the logical entry `(r, c)`.
pub open spec fn packed_index(n: int, r: int, c: int) -> int {
    if r <= c {
        row_offset(n, r) + c
    } else {
        row_offset(n, c) + r
    }
}

proof fn lemma_consecutive_even(k: int)
    requires
        k >= 0,
    ensures
        (k * (k + 1)) % 2 == 0,
    decreases k,
{
    if k > 0 {
        lemma_consecutive_even(k - 1);
        assert(k * (k + 1) == (k - 1) * k + 2 * k) by (nonlinear_arith);
    }
}

/// Closed forms behind the packed layout: the products are even, and the
/// slots from the diagonal of row `r` to the end number `(n-r)(n-r+1)/2`.
pub proof fn lemma_row_offset(n: int, r: int)
    requires
        0 <= r <= n,
    ensures
        2 * row_offset(n, r) == (2 * n - r - 1) * r,
        2 * packed_len(n) == n * (n + 1),
        2 * (row_offset(n, r) + r) + (n - r) * (n - r + 1) == n * (n + 1),
        0 <= (2 * n - r - 1) * r <= n * (n + 1),
        0 <= row_offset(n, r),
        row_offset(n, r) + r <= packed_len(n),
{
    lemma_consecutive_even(r);
    lemma_consecutive_even(n);
    assert((2 * n - r - 1) * r == 2 * (n * r) - r * (r + 1)) by (nonlinear_arith);
    assert((2 * n - r - 1) * r + 2 * r + (n - r) * (n - r + 1) == n * (n + 1))
        by (nonlinear_arith);
    assert((n - r) * (n - r + 1) >= 0) by (nonlinear_arith)
        requires
            0 <= r <= n,
    ;
    assert((2 * n - r - 1) * r >= 0) by (nonlinear_arith)
        requires
            0 <= r <= n,
    ;
}

/// Every entry of the matrix has a slot inside the storage.
pub proof fn lemma_index_in_bounds(n: int, r: int, c: int)
    requires
        0 <= r < n,
        0 <= c < n,
    ensures
        0 <= packed_index(n, r, c) < packed_len(n),
{
    let (lo, hi) = if r <= c { (r, c) } else { (c, r) };
    lemma_row_offset(n, lo);
    assert(2 * (hi - lo) + 2 <= (n - lo) * (n - lo + 1)) by (nonlinear_arith)
        requires
            0 <= hi - lo < n - lo,
    ;
}

/// Slots are laid out row by row: an entry of an earlier row (at or right of
/// its diagonal) comes before every such entry of a later row.
pub proof fn lemma_rows_ordered(n: int, r1: int, c1: int, r2: int, c2: int)
    requires
        0 <= r1 <= c1 < n,
        0 <= r2 <= c2 < n,
        r1 < r2,
    ensures
        packed_index(n, r1, c1) < packed_index(n, r2, c2),
{
    lemma_row_offset(n, r1);
    lemma_row_offset(n, r2);
    let m1 = n - r1;
    let m2 = n - r2;
    assert(m2 * (m2 + 1) + 2 * m1 <= m1 * (m1 + 1)) by (nonlinear_arith)
        requires
            0 <= m2 < m1,
    ;
}

/// Two entries share a slot exactly when they are equal or mirror images.
pub proof fn lemma_index_injective(n: int, r1: int, c1: int, r2: int, c2: int)
    requires
        0 <= r1 < n,
        0 <= c1 < n,
        0 <= r2 < n,
        0 <= c2 < n,
    ensures
        packed_index(n, r1, c1) == packed_index(n, r2, c2) <==> (r1 == r2 && c1 == c2) || (r1
            == c2 && c1 == r2),
{
    let (a1, b1) = if r1 <= c1 { (r1, c1) } else { (c1, r1) };
    let (a2, b2) = if r2 <= c2 { (r2, c2) } else { (c2, r2) };
    if a1 < a2 {
        lemma_rows_ordered(n, a1, b1, a2, b2);
    } else if a2 < a1 {
        lemma_rows_ordered(n, a2, b2, a1, b1);
    }
}

/// Walking the upper triangle row by row visits the slots in order: the
/// diagonal slot of row `r + 1` follows the last slot of row `r`, and the
/// walk ends at the end of the storage.
pub proof fn lemma_next_row(n: int, r: int)
    requires
        0 <= r < n,
    ensures
        row_offset(n, r + 1) + r + 1 == row_offset(n, r) + n,
        row_offset(n, 0) == 0,
        row_offset(n, n) + n == packed_len(n),
{
    lemma_row_offset(n, r);
    lemma_row_offset(n, r + 1);
    lemma_row_offset(n, n);
    lemma_row_offset(n, 0);
    assert((n - r) * (n - r + 1) == (n - r - 1) * (n - r - 1 + 1) + 2 * (n - r))
        by (nonlinear_arith);
    assert((n - n) * (n - n + 1) == 0) by (nonlinear_arith);
}

/// A symmetric `rows`-by-`rows` matrix in packed storage.
pub struct SMatrix<T> {
    rows: usize,
    data: Vec<T>,
}

impl<T> SMatrix<T> {
    /// The storage has exactly one slot for each entry of the upper triangle.
    pub closed spec fn wf(&self) -> bool {
        &&& packed_fits(self.rows as int)
        &&& self.data.len() == packed_len(self.rows as int)
    }

    /// Number of rows (and of columns).
    pub closed spec fn dim(&self) -> int {
        self.rows as int
    }

    /// The logical entry `(r, c)`.
    pub closed spec fn at(&self, r: int, c: int) -> T {
        self.data[packed_index(self.rows as int, r, c)]
    }

    /// Row `r` as a sequence of `dim()` entries.
    pub open spec fn row(&self, r: int) -> Seq<T> {
        Seq::new(self.dim() as nat, |c: int| self.at(r, c))
    }

    /// Entries `(r, c)` and `(c, r)` are one and the same, whatever was done
    /// to the matrix before.
    pub proof fn lemma_symmetric(&self, r: int, c: int)
        ensures
            self.at(r, c) == self.at(c, r),
    {
    }

    /// Number of rows.
    pub fn rows(&self) -> (n: usize)
        ensures
            n == self.dim(),
    {
        self.rows
    }

    /// Number of columns.
    pub fn cols(&self) -> (n: usize)
        ensures
            n == self.dim(),
    {
        self.rows
    }

    /// The slot of entry `(r, c)`.
    pub fn row_col_to_index(&self, r: usize, c: usize) -> (idx: usize)
        requires
            self.wf(),
            r < self.dim(),
            c < self.dim(),
        ensures
            idx == packed_index(self.dim(), r as int, c as int),
            idx < packed_len(self.dim()),
    {
        proof {
            lemma_index_in_bounds(self.rows as int, r as int, c as int);
            lemma_row_offset(self.rows as int, r as int);
            lemma_row_offset(self.rows as int, c as int);
            assert(2 * self.rows <= self.rows * (self.rows + 1)) by (nonlinear_arith)
                requires
                    self.rows >= 1,
            ;
        }
        if r <= c {
            (2 * self.rows - r - 1) * r / 2 + c
        } else {
            (2 * self.rows - c - 1) * c / 2 + r
        }
    }

    /// Reads entry `(r, c)`.
    pub fn get(&self, r: usize, c: usize) -> (v: &T)
        requires
            self.wf(),
            r < self.dim(),
            c < self.dim(),
        ensures
            *v == self.at(r as int, c as int),
    {
        let idx = self.row_col_to_index(r, c);
        &self.data[idx]
    }

    /// Writes entry `(r, c)`, and with it `(c, r)`; every other entry stays.
    pub fn set(&mut self, r: usize, c: usize, v: T)
        requires
            old(self).wf(),
            r < old(self).dim(),
            c < old(self).dim(),
        ensures
            final(self).wf(),
            final(self).dim() == old(self).dim(),
            final(self).at(r as int, c as int) == v,
            final(self).at(c as int, r as int) == v,
            forall|i: int, j: int|
                0 <= i < old(self).dim() && 0 <= j < old(self).dim() && !(i == r && j == c) && !(i
                    == c && j == r) ==> #[trigger] final(self).at(i, j) == old(self).at(i, j),
    {
        let idx = self.row_col_to_index(r, c);
        self.data[idx] = v;
        proof {
            assert forall|i: int, j: int|
                0 <= i < old(self).dim() && 0 <= j < old(self).dim() && !(i == r && j == c) && !(i
                    == c && j == r) implies #[trigger] self.at(i, j) == old(self).at(i, j) by {
                lemma_index_injective(self.rows as int, i, j, r as int, c as int);
                lemma_index_in_bounds(self.rows as int, i, j);
            }
        }
    }
}

impl<T: Copy> SMatrix<T> {
    /// A matrix whose every entry is `default_value`.
    pub fn new(rows: usize, default_value: T) -> (m: Self)
        requires
            packed_fits(rows as int),
        ensures
            m.wf(),
            m.dim() == rows,
            forall|r: int, c: int|
                0 <= r < rows && 0 <= c < rows ==> #[trigger] m.at(r, c) == default_value,
    {
        proof {
            assert(rows + 1 <= rows * (rows + 1) || rows == 0) by (nonlinear_arith);
        }
        let size = rows * (rows + 1) / 2;
        let mut data: Vec<T> = Vec::with_capacity(size);
        let mut i: usize = 0;
        while i < size
            invariant
                i <= size,
                data.len() == i,
                forall|k: int| 0 <= k < i ==> data[k] == default_value,
            decreases size - i,
        {
            data.push(default_value);
            i += 1;
        }
        let m = Self { rows, data };
        proof {
            assert forall|r: int, c: int| 0 <= r < rows && 0 <= c < rows implies #[trigger] m.at(
                r,
                c,
            ) == default_value by {
                lemma_index_in_bounds(rows as int, r, c);
            }
        }
        m
    }
}

impl<T> SMatrix<T> {
    /// A matrix filled by calling `f` once for each slot.
    pub fn from_fn0<F: Fn() -> T>(rows: usize, f: &F) -> (m: Self)
        requires
            packed_fits(rows as int),
            f.requires(()),
        ensures
            m.wf(),
            m.dim() == rows,
            forall|r: int, c: int|
                0 <= r < rows && 0 <= c < rows ==> f.ensures((), #[trigger] m.at(r, c)),
    {
        proof {
            assert(rows + 1 <= rows * (rows + 1) || rows == 0) by (nonlinear_arith);
        }
        let size = rows * (rows + 1) / 2;
        let mut data: Vec<T> = Vec::with_capacity(size);
        let mut i: usize = 0;
        while i < size
            invariant
                i <= size,
                data.len() == i,
                f.requires(()),
                forall|k: int| 0 <= k < i ==> f.ensures((), #[trigger] data[k]),
            decreases size - i,
        {
            let v = f();
            data.push(v);
            i += 1;
        }
        let m = Self { rows, data };
        proof {
            assert forall|r: int, c: int| 0 <= r < rows && 0 <= c < rows implies f.ensures(
                (),
                #[trigger] m.at(r, c),
            ) by {
                lemma_index_in_bounds(rows as int, r, c);
            }
        }
        m
    }
}

impl<T> SMatrix<T> {
    /// A matrix whose entry `(r, c)`, for `r <= c`, is what `f(r, c)` gave.
    /// `f` is called for the upper triangle only, row by row.
    pub fn from_fn2<F: Fn(usize, usize) -> T>(rows: usize, f: &F) -> (m: Self)
        requires
            packed_fits(rows as int),
            forall|r: usize, c: usize| r <= c < rows ==> f.requires((r, c)),
        ensures
            m.wf(),
            m.dim() == rows,
            forall|r: usize, c: usize|
                r <= c < rows ==> f.ensures((r, c), #[trigger] m.at(r as int, c as int)),
    {
        proof {
            assert(rows + 1 <= rows * (rows + 1) || rows == 0) by (nonlinear_arith);
        }
        let size = rows * (rows + 1) / 2;
        let ghost n = rows as int;
        let mut data: Vec<T> = Vec::with_capacity(size);
        let mut r: usize = 0;
        proof {
            lemma_row_offset(n, 0);
        }
        while r < rows
            invariant
                r <= rows,
                n == rows,
                data.len() == row_offset(n, r as int) + r,
                forall|i: usize, j: usize| i <= j < rows ==> f.requires((i, j)),
                forall|i: usize, j: usize|
                    i <= j < rows && i < r ==> {
                        &&& (#[trigger] packed_index(n, i as int, j as int)) < data.len()
                        &&& f.ensures((i, j), data[packed_index(n, i as int, j as int)])
                    },
            decreases rows - r,
        {
            let mut c: usize = r;
            while c < rows
                invariant
                    r <= c <= rows,
                    r < rows,
                    n == rows,
                    data.len() == row_offset(n, r as int) + c,
                    forall|i: usize, j: usize| i <= j < rows ==> f.requires((i, j)),
                    forall|i: usize, j: usize|
                        i <= j < rows && (i < r || (i == r && j < c)) ==> {
                            &&& (#[trigger] packed_index(n, i as int, j as int)) < data.len()
                            &&& f.ensures((i, j), data[packed_index(n, i as int, j as int)])
                        },
                decreases rows - c,
            {
                let v = f(r, c);
                data.push(v);
                c += 1;
            }
            proof {
                lemma_next_row(n, r as int);
            }
            r += 1;
        }
        proof {
            if rows > 0 {
                lemma_next_row(n, 0);
            } else {
                lemma_row_offset(n, 0);
            }
        }
        let m = Self { rows, data };
        m
    }
}

impl<T: Add<Output = T> + Mul<Output = T> + Copy> SMatrix<T> {
    /// Adds `mat` to this matrix, entry by entry.
    pub fn add_matrix(&mut self, mat: &SMatrix<T>)
        requires
            old(self).wf(),
            mat.wf(),
            old(self).dim() == mat.dim(),
            T::obeys_add_spec(),
            forall|r: int, c: int|
                0 <= r <= c < mat.dim() ==> (#[trigger] old(self).at(r, c)).add_req(mat.at(r, c)),
        ensures
            final(self).wf(),
            final(self).dim() == old(self).dim(),
            forall|r: int, c: int|
                0 <= r < mat.dim() && 0 <= c < mat.dim() ==> #[trigger] final(self).at(r, c)
                    == old(self).at(r, c).add_spec(mat.at(r, c)),
    {
        let rows = self.rows;
        let mut r: usize = 0;
        while r < rows
            invariant
                r <= rows,
                rows == mat.dim(),
                self.wf(),
                mat.wf(),
                self.dim() == mat.dim(),
                T::obeys_add_spec(),
                forall|i: int, j: int|
                    0 <= i <= j < rows ==> (#[trigger] old(self).at(i, j)).add_req(mat.at(i, j)),
                forall|i: int, j: int|
                    0 <= i <= j < rows ==> #[trigger] self.at(i, j) == (if i < r {
                        old(self).at(i, j).add_spec(mat.at(i, j))
                    } else {
                        old(self).at(i, j)
                    }),
            decreases rows - r,
        {
            let mut c: usize = r;
            while c < rows
                invariant
                    r <= c <= rows,
                    r < rows,
                    rows == mat.dim(),
                    self.wf(),
                    mat.wf(),
                    self.dim() == mat.dim(),
                    T::obeys_add_spec(),
                    forall|i: int, j: int|
                        0 <= i <= j < rows ==> (#[trigger] old(self).at(i, j)).add_req(
                            mat.at(i, j),
                        ),
                    forall|i: int, j: int|
                        0 <= i <= j < rows ==> #[trigger] self.at(i, j) == (if i < r || (i == r
                            && j < c) {
                            old(self).at(i, j).add_spec(mat.at(i, j))
                        } else {
                            old(self).at(i, j)
                        }),
                decreases rows - c,
            {
                assert(self.at(r as int, c as int) == old(self).at(r as int, c as int));
                let v = *self.get(r, c) + *mat.get(r, c);
                self.set(r, c, v);
                c += 1;
            }
            r += 1;
        }
        proof {
            assert forall|i: int, j: int| 0 <= i < mat.dim() && 0 <= j < mat.dim() implies 
                #[trigger] self.at(i, j) == old(self).at(i, j).add_spec(mat.at(i, j)) by {
                if i <= j {
                } else {
                    assert(self.at(i, j) == self.at(j, i));
                    assert(old(self).at(i, j) == old(self).at(j, i));
                    assert(mat.at(i, j) == mat.at(j, i));
                }
            }
        }
    }

    /// `init + get(row, 0) * vec[0] + get(row, 1) * vec[1] + ...`, over the
    /// columns that both the matrix and `vec` have.
    pub fn row_mul(&self, row: usize, vec: &[T], init: T) -> (acc: T)
        requires
            self.wf(),
            row < self.dim(),
            obeys_ring::<T>(),
            dot_defined(init, self.row(row as int), vec@, min_len(self.dim(), vec@.len() as int)),
        ensures
            acc == dot_from(init, self.row(row as int), vec@, min_len(self.dim(), vec@.len() as int)),
    {
        let n = if self.rows <= vec.len() { self.rows } else { vec.len() };
        let mut acc = init;
        let mut i: usize = 0;
        while i < n
            invariant
                i <= n,
                n == min_len(self.dim(), vec@.len() as int),
                self.wf(),
                row < self.dim(),
                obeys_ring::<T>(),
                dot_defined(init, self.row(row as int), vec@, n as int),
                acc == dot_from(init, self.row(row as int), vec@, i as int),
            decreases n - i,
        {
            proof {
                lemma_dot_defined_prefix(init, self.row(row as int), vec@, n as int, i as int + 1);
            }
            acc = acc + *self.get(row, i) * vec[i];
            i += 1;
        }
        acc
    }
}

} // verus!
