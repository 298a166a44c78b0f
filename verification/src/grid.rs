//! Dense rectangular arrays in row-major order.
//!
//! [`Grid3`] is an immutable three-dimensional array of elements stored in a
//! flat vector, indexed as `(i * d1 + j) * d2 + k`.  [`Grid2`] is the
//! two-dimensional counterpart used by the space-filling-curve reshape.

use vstd::arithmetic::div_mod::{
    lemma_fundamental_div_mod, lemma_fundamental_div_mod_converse, lemma_mod_pos_bound,
};
use vstd::prelude::*;

verus! {

/// The mathematical value of a [`Grid3`]: its three extents and the flat
/// row-major sequence of cells.
#[verifier::ext_equal]
pub struct GridView<T> {
    pub d0: int,
    pub d1: int,
    pub d2: int,
    pub cells: Seq<T>,
}

impl<T> GridView<T> {
    /// The flat sequence holds exactly one cell per coordinate triple.
    pub open spec fn wf(self) -> bool {
        &&& self.cells.len() == self.d0 * self.d1 * self.d2
        &&& self.d0 >= 0
        &&& self.d1 >= 0
        &&& self.d2 >= 0
    }

    pub open spec fn in_bounds(self, i: int, j: int, k: int) -> bool {
        0 <= i < self.d0 && 0 <= j < self.d1 && 0 <= k < self.d2
    }

    /// Row-major position of the cell at `(i, j, k)`.
    pub open spec fn idx(self, i: int, j: int, k: int) -> int {
        (i * self.d1 + j) * self.d2 + k
    }

    pub open spec fn cell(self, i: int, j: int, k: int) -> T {
        self.cells[self.idx(i, j, k)]
    }

    /// The row-major contents of the sub-grid of extents `(w0, w1, w2)`
    /// anchored at `(i, j, k)`.
    pub open spec fn subgrid_seq(self, i: int, j: int, k: int, w0: int, w1: int, w2: int) -> Seq<
        T,
    > {
        Seq::new(
            (w0 * w1 * w2) as nat,
            |n: int| self.cell(i + n / (w1 * w2), j + (n / w2) % w1, k + n % w2),
        )
    }
}

/// A flat row-major position `(i * d1 + j) * d2 + k` is in range whenever the
/// coordinates are, and the coordinates can be recovered from it by division
/// and remainder.
pub proof fn lemma_idx3_decompose(i: int, j: int, k: int, d1: int, d2: int)
    requires
        0 <= i,
        0 <= j < d1,
        0 <= k < d2,
    ensures
        ((i * d1 + j) * d2 + k) / (d1 * d2) == i,
        (((i * d1 + j) * d2 + k) / d2) % d1 == j,
        ((i * d1 + j) * d2 + k) % d2 == k,
        i * d1 * d2 <= (i * d1 + j) * d2 + k < (i + 1) * d1 * d2,
{
    let n = (i * d1 + j) * d2 + k;
    lemma_fundamental_div_mod_converse(n, d2, i * d1 + j, k);
    lemma_fundamental_div_mod_converse(i * d1 + j, d1, i, j);
    assert(n == i * (d1 * d2) + (j * d2 + k)) by (nonlinear_arith)
        requires n == (i * d1 + j) * d2 + k;
    assert(0 <= j * d2 + k < d1 * d2) by (nonlinear_arith)
        requires 0 <= j < d1, 0 <= k < d2;
    lemma_fundamental_div_mod_converse(n, d1 * d2, i, j * d2 + k);
    assert(i * (d1 * d2) == i * d1 * d2) by (nonlinear_arith);
    assert((i + 1) * (d1 * d2) == i * (d1 * d2) + d1 * d2) by (nonlinear_arith);
    assert((i + 1) * (d1 * d2) == (i + 1) * d1 * d2) by (nonlinear_arith);
}

/// Bounds of the row-major position: cells of a grid with extents
/// `(d0, d1, d2)` occupy exactly the positions `0 .. d0 * d1 * d2`.
pub proof fn lemma_idx3_bounds(i: int, j: int, k: int, d0: int, d1: int, d2: int)
    by (nonlinear_arith)
    requires
        0 <= i < d0,
        0 <= j < d1,
        0 <= k < d2,
    ensures
        0 <= i * d1 + j < d0 * d1,
        0 <= (i * d1 + j) * d2 + k < d0 * d1 * d2,
        d0 * d1 <= d0 * d1 * d2,
{
}

/// The inverse of [`lemma_idx3_decompose`]: a flat position below
/// `d0 * d1 * d2` splits by division and remainder into coordinates that are
/// in bounds and recombine to the same position.
pub proof fn lemma_idx3_compose(n: int, d0: int, d1: int, d2: int)
    requires
        0 <= n < d0 * d1 * d2,
        1 <= d1,
        1 <= d2,
    ensures
        0 <= n / (d1 * d2) < d0,
        0 <= (n / d2) % d1 < d1,
        0 <= n % d2 < d2,
        (((n / (d1 * d2)) * d1 + (n / d2) % d1) * d2 + n % d2) == n,
{
    assert(d1 * d2 >= 1) by (nonlinear_arith)
        requires 1 <= d1, 1 <= d2;
    lemma_fundamental_div_mod(n, d1 * d2);
    lemma_mod_pos_bound(n, d1 * d2);
    let i = n / (d1 * d2);
    let rest = n % (d1 * d2);
    assert(0 <= i) by (nonlinear_arith)
        requires n == (d1 * d2) * i + rest, 0 <= rest < d1 * d2, 0 <= n, d1 * d2 >= 1;
    assert(i < d0) by (nonlinear_arith)
        requires n == (d1 * d2) * i + rest, 0 <= rest, n < d0 * d1 * d2, d1 * d2 >= 1;
    lemma_fundamental_div_mod(rest, d2);
    lemma_mod_pos_bound(rest, d2);
    let j = rest / d2;
    let k = rest % d2;
    assert(0 <= j && j < d1) by (nonlinear_arith)
        requires rest == d2 * j + k, 0 <= k < d2, 0 <= rest < d1 * d2, 1 <= d2;
    assert(n == (i * d1 + j) * d2 + k) by (nonlinear_arith)
        requires n == (d1 * d2) * i + rest, rest == d2 * j + k;
    lemma_fundamental_div_mod_converse(n, d2, i * d1 + j, k);
    lemma_fundamental_div_mod_converse(i * d1 + j, d1, i, j);
}

/// Shifting the first coordinate by `s` rows moves the flat row-major
/// position by `s` whole planes of `d1 * d2` cells.
pub proof fn lemma_idx3_offset(s: int, i: int, j: int, k: int, d1: int, d2: int)
    by (nonlinear_arith)
    ensures
        ((s + i) * d1 + j) * d2 + k == s * (d1 * d2) + ((i * d1 + j) * d2 + k),
{
}

/// An immutable three-dimensional array with extents `(d0, d1, d2)`, stored
/// row-major in one flat vector.
#[derive(Clone, Debug, PartialEq)]
pub struct Grid3<T> {
    d0: usize,
    d1: usize,
    d2: usize,
    data: Vec<T>,
}

impl<T> View for Grid3<T> {
    type V = GridView<T>;

    closed spec fn view(&self) -> GridView<T> {
        GridView {
            d0: self.d0 as int,
            d1: self.d1 as int,
            d2: self.d2 as int,
            cells: self.data@,
        }
    }
}

impl<T> Grid3<T> {
    pub open spec fn wf(self) -> bool {
        self@.wf()
    }

    /// Builds a grid from its extents and the flat row-major cell vector.
    /// Returns `None` exactly when the vector's length does not match the
    /// extents.
    pub fn new(d0: usize, d1: usize, d2: usize, data: Vec<T>) -> (r: Option<Grid3<T>>)
        ensures
            match r {
                Some(g) => {
                    &&& g.wf()
                    &&& g@.d0 == d0
                    &&& g@.d1 == d1
                    &&& g@.d2 == d2
                    &&& g@.cells == data@
                },
                None => data@.len() != d0 * d1 * d2,
            },
    {
        let dlen = data.len();
        if d0 == 0 || d1 == 0 || d2 == 0 {
            proof {
                assert(d0 * d1 * d2 == 0) by (nonlinear_arith)
                    requires d0 == 0 || d1 == 0 || d2 == 0;
            }
            if dlen == 0 {
                Some(Grid3 { d0, d1, d2, data })
            } else {
                None
            }
        } else {
            let p01 = match d0.checked_mul(d1) {
                Some(p) => p,
                None => {
                    proof {
                        assert(d0 * d1 * d2 > usize::MAX) by (nonlinear_arith)
                            requires d0 * d1 > usize::MAX, d2 >= 1;
                    }
                    return None;
                },
            };
            let p = match p01.checked_mul(d2) {
                Some(p) => p,
                None => {
                    proof {
                        assert(d0 * d1 * d2 > usize::MAX) by (nonlinear_arith)
                            requires p01 == d0 * d1, p01 * d2 > usize::MAX;
                    }
                    return None;
                },
            };
            proof {
                assert(p == d0 * d1 * d2) by (nonlinear_arith)
                    requires p == p01 * d2, p01 == d0 * d1;
            }
            if dlen == p {
                Some(Grid3 { d0, d1, d2, data })
            } else {
                None
            }
        }
    }

    /// The three extents, in axis order.
    pub fn dims(&self) -> (r: (usize, usize, usize))
        ensures
            r.0 == self@.d0,
            r.1 == self@.d1,
            r.2 == self@.d2,
    {
        (self.d0, self.d1, self.d2)
    }

    /// The flat row-major cell vector.
    pub fn data(&self) -> (r: &Vec<T>)
        ensures
            r@ == self@.cells,
    {
        &self.data
    }

    /// Wraps a vector whose length is already known to match the extents.
    pub(crate) fn from_parts(d0: usize, d1: usize, d2: usize, data: Vec<T>) -> (r: Grid3<T>)
        requires
            data@.len() == d0 * d1 * d2,
        ensures
            r.wf(),
            r@.d0 == d0,
            r@.d1 == d1,
            r@.d2 == d2,
            r@.cells == data@,
    {
        Grid3 { d0, d1, d2, data }
    }

    /// Releases the flat cell vector.
    pub(crate) fn into_data(self) -> (r: Vec<T>)
        ensures
            r@ == self@.cells,
    {
        self.data
    }
}

impl<T: Copy> Grid3<T> {
    /// The cell at coordinates `(i, j, k)`.
    pub fn get(&self, i: usize, j: usize, k: usize) -> (r: T)
        requires
            self.wf(),
            self@.in_bounds(i as int, j as int, k as int),
        ensures
            r == self@.cell(i as int, j as int, k as int),
    {
        let total = self.data.len();
        proof {
            lemma_idx3_bounds(i as int, j as int, k as int, self@.d0, self@.d1, self@.d2);
        }
        let n = (i * self.d1 + j) * self.d2 + k;
        self.data[n]
    }

    /// Copies out the sub-grid of extents `(w0, w1, w2)` anchored at
    /// `(i, j, k)`.
    #[verifier::loop_isolation(false)]
    pub fn subgrid(&self, i: usize, j: usize, k: usize, w0: usize, w1: usize, w2: usize) -> (r:
        Grid3<T>)
        requires
            self.wf(),
            1 <= w0 && i + w0 <= self@.d0,
            1 <= w1 && j + w1 <= self@.d1,
            1 <= w2 && k + w2 <= self@.d2,
        ensures
            r.wf(),
            r@.d0 == w0,
            r@.d1 == w1,
            r@.d2 == w2,
            r@.cells == self@.subgrid_seq(
                i as int,
                j as int,
                k as int,
                w0 as int,
                w1 as int,
                w2 as int,
            ),
    {
        let ghost target = self@.subgrid_seq(
            i as int,
            j as int,
            k as int,
            w0 as int,
            w1 as int,
            w2 as int,
        );
        let mut data: Vec<T> = Vec::new();
        let mut a: usize = 0;
        while a < w0
            invariant
                a <= w0,
                data@.len() == a * (w1 * w2),
                forall|n: int| 0 <= n < data@.len() ==> data@[n] == target[n],
            decreases w0 - a,
        {
            let mut b: usize = 0;
            while b < w1
                invariant
                    a < w0,
                    b <= w1,
                    data@.len() == a * (w1 * w2) + b * w2,
                    forall|n: int| 0 <= n < data@.len() ==> data@[n] == target[n],
                decreases w1 - b,
            {
                let mut cc: usize = 0;
                while cc < w2
                    invariant
                        a < w0,
                        b < w1,
                        cc <= w2,
                        data@.len() == a * (w1 * w2) + b * w2 + cc,
                        forall|n: int| 0 <= n < data@.len() ==> data@[n] == target[n],
                    decreases w2 - cc,
                {
                    let val = self.get(i + a, j + b, k + cc);
                    proof {
                        lemma_idx3_decompose(a as int, b as int, cc as int, w1 as int, w2 as int);
                        lemma_idx3_bounds(
                            a as int,
                            b as int,
                            cc as int,
                            w0 as int,
                            w1 as int,
                            w2 as int,
                        );
                        assert(a * (w1 * w2) + b * w2 == (a * w1 + b) * w2) by (nonlinear_arith);
                    }
                    data.push(val);
                    cc = cc + 1;
                }
                proof {
                    assert((b + 1) * w2 == b * w2 + w2) by (nonlinear_arith);
                }
                b = b + 1;
            }
            proof {
                assert((a + 1) * (w1 * w2) == a * (w1 * w2) + w1 * w2) by (nonlinear_arith);
            }
            a = a + 1;
        }
        proof {
            assert(w0 * (w1 * w2) == w0 * w1 * w2) by (nonlinear_arith);
            assert(data@ =~= target);
        }
        Grid3 { d0: w0, d1: w1, d2: w2, data }
    }

    /// A copy of input rows `start .. end`, keeping the other two extents.
    pub fn slice_rows(&self, start: usize, end: usize) -> (r: Grid3<T>)
        requires
            self.wf(),
            start < end,
            end <= self@.d0,
            1 <= self@.d1,
            1 <= self@.d2,
        ensures
            r.wf(),
            r@.d0 == end - start,
            r@.d1 == self@.d1,
            r@.d2 == self@.d2,
            forall|x: int, y: int, z: int|
                r@.in_bounds(x, y, z) ==> #[trigger] r@.cell(x, y, z) == self@.cell(
                    start + x,
                    y,
                    z,
                ),
    {
        let (_, d1, d2) = self.dims();
        let r = self.subgrid(start, 0, 0, end - start, d1, d2);
        proof {
            assert forall|x: int, y: int, z: int| r@.in_bounds(x, y, z) implies #[trigger] r@.cell(
                x,
                y,
                z,
            ) == self@.cell(start + x, y, z) by {
                let dd0 = (end - start) as int;
                lemma_idx3_bounds(x, y, z, dd0, d1 as int, d2 as int);
                lemma_idx3_decompose(x, y, z, d1 as int, d2 as int);
                let n = (x * d1 + y) * d2 + z;
                assert(r@.cells[n] == self@.subgrid_seq(
                    start as int,
                    0,
                    0,
                    dd0,
                    d1 as int,
                    d2 as int,
                )[n]);
            }
        }
        r
    }
}

/// The mathematical value of a [`Grid2`]: its two extents and the flat
/// row-major sequence of cells.
#[verifier::ext_equal]
pub struct Grid2View<T> {
    pub d0: int,
    pub d1: int,
    pub cells: Seq<T>,
}

impl<T> Grid2View<T> {
    pub open spec fn wf(self) -> bool {
        &&& self.cells.len() == self.d0 * self.d1
        &&& self.d0 >= 0
        &&& self.d1 >= 0
    }

    pub open spec fn in_bounds(self, i: int, j: int) -> bool {
        0 <= i < self.d0 && 0 <= j < self.d1
    }

    pub open spec fn idx(self, i: int, j: int) -> int {
        i * self.d1 + j
    }

    pub open spec fn cell(self, i: int, j: int) -> T {
        self.cells[self.idx(i, j)]
    }
}

/// Bounds of the two-dimensional row-major position.
pub proof fn lemma_idx2_bounds(i: int, j: int, d0: int, d1: int)
    by (nonlinear_arith)
    requires
        0 <= i < d0,
        0 <= j < d1,
    ensures
        0 <= i * d1 + j < d0 * d1,
{
}

/// Distinct coordinate pairs occupy distinct row-major positions.
pub proof fn lemma_idx2_injective(i1: int, j1: int, i2: int, j2: int, d1: int)
    by (nonlinear_arith)
    requires
        0 <= j1 < d1,
        0 <= j2 < d1,
        0 <= i1,
        0 <= i2,
        i1 * d1 + j1 == i2 * d1 + j2,
    ensures
        i1 == i2 && j1 == j2,
{
}

/// An immutable two-dimensional array with extents `(d0, d1)`, stored
/// row-major in one flat vector.
#[derive(Clone, Debug, PartialEq)]
pub struct Grid2<T> {
    d0: usize,
    d1: usize,
    data: Vec<T>,
}

impl<T> View for Grid2<T> {
    type V = Grid2View<T>;

    closed spec fn view(&self) -> Grid2View<T> {
        Grid2View { d0: self.d0 as int, d1: self.d1 as int, cells: self.data@ }
    }
}

impl<T> Grid2<T> {
    pub open spec fn wf(self) -> bool {
        self@.wf()
    }

    /// Builds a grid from its extents and the flat row-major cell vector.
    /// Returns `None` exactly when the vector's length does not match the
    /// extents.
    pub fn new(d0: usize, d1: usize, data: Vec<T>) -> (r: Option<Grid2<T>>)
        ensures
            match r {
                Some(g) => {
                    &&& g.wf()
                    &&& g@.d0 == d0
                    &&& g@.d1 == d1
                    &&& g@.cells == data@
                },
                None => data@.len() != d0 * d1,
            },
    {
        let dlen = data.len();
        if d0 == 0 || d1 == 0 {
            proof {
                assert(d0 * d1 == 0) by (nonlinear_arith)
                    requires d0 == 0 || d1 == 0;
            }
            if dlen == 0 {
                Some(Grid2 { d0, d1, data })
            } else {
                None
            }
        } else {
            match d0.checked_mul(d1) {
                Some(p) => {
                    if dlen == p {
                        Some(Grid2 { d0, d1, data })
                    } else {
                        None
                    }
                },
                None => None,
            }
        }
    }

    /// The two extents, in axis order.
    pub fn dims(&self) -> (r: (usize, usize))
        ensures
            r.0 == self@.d0,
            r.1 == self@.d1,
    {
        (self.d0, self.d1)
    }

    /// The flat row-major cell vector.
    pub fn data(&self) -> (r: &Vec<T>)
        ensures
            r@ == self@.cells,
    {
        &self.data
    }

    /// Wraps a vector whose length is already known to match the extents.
    pub(crate) fn from_parts(d0: usize, d1: usize, data: Vec<T>) -> (r: Grid2<T>)
        requires
            data@.len() == d0 * d1,
        ensures
            r.wf(),
            r@.d0 == d0,
            r@.d1 == d1,
            r@.cells == data@,
    {
        Grid2 { d0, d1, data }
    }

    /// Replaces the cell at `(i, j)`.
    pub(crate) fn set(&mut self, i: usize, j: usize, v: T)
        requires
            old(self).wf(),
            old(self)@.in_bounds(i as int, j as int),
        ensures
            final(self).wf(),
            final(self)@.d0 == old(self)@.d0,
            final(self)@.d1 == old(self)@.d1,
            final(self)@.cells == old(self)@.cells.update(old(self)@.idx(i as int, j as int), v),
    {
        let total = self.data.len();
        proof {
            lemma_idx2_bounds(i as int, j as int, self@.d0, self@.d1);
        }
        let n = i * self.d1 + j;
        self.data[n] = v;
    }
}

impl<T: Copy> Grid2<T> {
    /// The cell at coordinates `(i, j)`.
    pub fn get(&self, i: usize, j: usize) -> (r: T)
        requires
            self.wf(),
            self@.in_bounds(i as int, j as int),
        ensures
            r == self@.cell(i as int, j as int),
    {
        let total = self.data.len();
        proof {
            lemma_idx2_bounds(i as int, j as int, self@.d0, self@.d1);
        }
        let n = i * self.d1 + j;
        self.data[n]
    }
}

/// A window taken inside a row slice holds the same cells as the window at
/// the shifted anchor of the grid the slice was taken from.
pub proof fn lemma_slice_subgrid<T>(
    whole: GridView<T>,
    slice: GridView<T>,
    va: int,
    i: int,
    j: int,
    k: int,
    w0: int,
    w1: int,
    w2: int,
)
    requires
        slice.d1 == whole.d1,
        slice.d2 == whole.d2,
        0 <= va,
        forall|x: int, y: int, z: int|
            slice.in_bounds(x, y, z) ==> #[trigger] slice.cell(x, y, z) == whole.cell(
                va + x,
                y,
                z,
            ),
        0 <= i && i + w0 <= slice.d0,
        0 <= j && j + w1 <= slice.d1,
        0 <= k && k + w2 <= slice.d2,
        1 <= w0,
        1 <= w1,
        1 <= w2,
    ensures
        slice.subgrid_seq(i, j, k, w0, w1, w2) == whole.subgrid_seq(va + i, j, k, w0, w1, w2),
{
    let s1 = slice.subgrid_seq(i, j, k, w0, w1, w2);
    let s2 = whole.subgrid_seq(va + i, j, k, w0, w1, w2);
    assert forall|n: int| 0 <= n < w0 * w1 * w2 implies s1[n] == s2[n] by {
        lemma_idx3_compose(n, w0, w1, w2);
        let da = n / (w1 * w2);
        let db = (n / w2) % w1;
        let dc = n % w2;
        assert(slice.in_bounds(i + da, j + db, k + dc));
        assert(slice.cell(i + da, j + db, k + dc) == whole.cell(va + (i + da), j + db, k + dc));
        assert(s1[n] == slice.cell(i + da, j + db, k + dc));
        assert(s2[n] == whole.cell((va + i) + da, j + db, k + dc));
    }
    assert(s1 =~= s2);
}

} // verus!
