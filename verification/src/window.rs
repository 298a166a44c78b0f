//! Sliding-window shapes, output-shape arithmetic and partition plans.
//!
//! A [`WindowShape`] describes the extent of the moving window in up to three
//! dimensions.  From it and an input grid the engine derives the output shape
//! (each axis shrinks by the window extent minus one) and, for partitioned
//! execution, a plan of contiguous blocks along the first axis.

use vstd::arithmetic::div_mod::{
    lemma_fundamental_div_mod, lemma_fundamental_div_mod_converse, lemma_mod_pos_bound,
};
use vstd::prelude::*;
use vstd::string::StringExecFns;

pub mod window_methods;

use crate::grid::{
    lemma_idx3_bounds, lemma_idx3_compose, lemma_idx3_decompose, lemma_idx3_offset,
    lemma_slice_subgrid, Grid3, GridView,
};

verus! {

/// The reducer accepts every well-formed grid with the window's extents.
pub open spec fn reducer_total<T, F: Fn(Grid3<T>) -> T>(f: F, w0: int, w1: int, w2: int) -> bool {
    forall|g: Grid3<T>|
        g.wf() && g@.d0 == w0 && g@.d1 == w1 && g@.d2 == w2 ==> #[trigger] call_requires(f, (g,))
}

/// Any two results the reducer may return for equal-valued windows agree:
/// the reducer is a pure function of its window's contents.
pub open spec fn reducer_deterministic<T, F: Fn(Grid3<T>) -> T>(f: F) -> bool {
    forall|g1: Grid3<T>, g2: Grid3<T>, r1: T, r2: T|
        g1@ == g2@ && #[trigger] call_ensures(f, (g1,), r1) && #[trigger] call_ensures(f, (g2,), r2)
            ==> r1 == r2
}

/// `val` is a possible result of the reducer `f` on the window of extents
/// `(w0, w1, w2)` anchored at `(i, j, k)` of `a`.
pub open spec fn reduced_cell<T, F: Fn(Grid3<T>) -> T>(
    f: F,
    a: GridView<T>,
    w0: int,
    w1: int,
    w2: int,
    val: T,
    i: int,
    j: int,
    k: int,
) -> bool {
    exists|g: Grid3<T>|
        {
            &&& g.wf()
            &&& g@.d0 == w0
            &&& g@.d1 == w1
            &&& g@.d2 == w2
            &&& g@.cells == a.subgrid_seq(i, j, k, w0, w1, w2)
            &&& #[trigger] call_ensures(f, (g,), val)
        }
}

/// `out` is a sliding-window reduction of `a` by `f`: each extent shrinks by
/// the window extent minus one, and every cell is a result of the reducer on
/// the window anchored at the cell's own coordinates.
pub open spec fn reduces<T, F: Fn(Grid3<T>) -> T>(
    f: F,
    a: GridView<T>,
    w0: int,
    w1: int,
    w2: int,
    out: GridView<T>,
) -> bool {
    &&& out.wf()
    &&& out.d0 == a.d0 - (w0 - 1)
    &&& out.d1 == a.d1 - (w1 - 1)
    &&& out.d2 == a.d2 - (w2 - 1)
    &&& forall|i: int, j: int, k: int|
        out.in_bounds(i, j, k) ==> reduced_cell(
            f,
            a,
            w0,
            w1,
            w2,
            #[trigger] out.cell(i, j, k),
            i,
            j,
            k,
        )
}

/// Serial/parallel equivalence: two outputs that both satisfy the
/// sliding-window specification [`reduces`] for the same deterministic
/// reducer and the same input are equal cell for cell.  Both
/// [`apply_over_window`] and [`partitioned_apply_over_window`] ensure that
/// specification, so for a deterministic reducer the partitioned reduction
/// returns exactly the single-pass result.
pub proof fn lemma_serial_parallel_equivalence<T, F: Fn(Grid3<T>) -> T>(
    f: F,
    a: GridView<T>,
    w0: int,
    w1: int,
    w2: int,
    out1: GridView<T>,
    out2: GridView<T>,
)
    requires
        reducer_deterministic(f),
        reduces(f, a, w0, w1, w2, out1),
        reduces(f, a, w0, w1, w2, out2),
    ensures
        out1 == out2,
{
    assert forall|n: int| 0 <= n < out1.cells.len() implies out1.cells[n] == out2.cells[n] by {
        assert(out1.d1 >= 1 && out1.d2 >= 1) by (nonlinear_arith)
            requires
                0 <= n < out1.d0 * out1.d1 * out1.d2,
                out1.d0 >= 0,
                out1.d1 >= 0,
                out1.d2 >= 0;
        lemma_idx3_compose(n, out1.d0, out1.d1, out1.d2);
        let i = n / (out1.d1 * out1.d2);
        let j = (n / out1.d2) % out1.d1;
        let k = n % out1.d2;
        assert(out1.in_bounds(i, j, k));
        assert(out1.cell(i, j, k) == out1.cells[n]);
        assert(out2.cell(i, j, k) == out2.cells[n]);
        let v1 = out1.cell(i, j, k);
        let v2 = out2.cell(i, j, k);
        assert(reduced_cell(f, a, w0, w1, w2, v1, i, j, k));
        assert(reduced_cell(f, a, w0, w1, w2, v2, i, j, k));
        let g1 = choose|g: Grid3<T>|
            {
                &&& g.wf()
                &&& g@.d0 == w0
                &&& g@.d1 == w1
                &&& g@.d2 == w2
                &&& g@.cells == a.subgrid_seq(i, j, k, w0, w1, w2)
                &&& #[trigger] call_ensures(f, (g,), v1)
            };
        let g2 = choose|g: Grid3<T>|
            {
                &&& g.wf()
                &&& g@.d0 == w0
                &&& g@.d1 == w1
                &&& g@.d2 == w2
                &&& g@.cells == a.subgrid_seq(i, j, k, w0, w1, w2)
                &&& #[trigger] call_ensures(f, (g,), v2)
            };
        assert(g1@ =~= g2@);
        assert(v1 == v2);
    }
    assert(out1.cells =~= out2.cells);
    assert(out1 =~= out2);
}

/// Minimal window: with window extents `(1, 1, 1)` the output keeps the
/// input's shape, and every window holds exactly the one input cell at its
/// anchor, so each output cell is a result of the reducer applied to the
/// one-cell window of that cell's own coordinates.
pub proof fn lemma_minimal_window<T, F: Fn(Grid3<T>) -> T>(
    f: F,
    a: GridView<T>,
    out: GridView<T>,
)
    requires
        reduces(f, a, 1, 1, 1, out),
    ensures
        out.d0 == a.d0 && out.d1 == a.d1 && out.d2 == a.d2,
        forall|i: int, j: int, k: int|
            out.in_bounds(i, j, k) ==> exists|g: Grid3<T>|
                {
                    &&& g.wf()
                    &&& g@.cells.len() == 1
                    &&& g@.cells[0] == a.cell(i, j, k)
                    &&& #[trigger] call_ensures(f, (g,), out.cell(i, j, k))
                },
{
    assert forall|i: int, j: int, k: int| out.in_bounds(i, j, k) implies exists|g: Grid3<T>|
        {
            &&& g.wf()
            &&& g@.cells.len() == 1
            &&& g@.cells[0] == a.cell(i, j, k)
            &&& #[trigger] call_ensures(f, (g,), out.cell(i, j, k))
        } by {
        let v = out.cell(i, j, k);
        assert(reduced_cell(f, a, 1, 1, 1, v, i, j, k));
        let g1 = choose|g: Grid3<T>|
            {
                &&& g.wf()
                &&& g@.d0 == 1
                &&& g@.d1 == 1
                &&& g@.d2 == 1
                &&& g@.cells == a.subgrid_seq(i, j, k, 1, 1, 1)
                &&& #[trigger] call_ensures(f, (g,), v)
            };
        assert(g1@.cells.len() == 1);
        assert(g1@.cells[0] == a.cell(i + 0, j + 0, k + 0));
    }
}

/// Partition exhaustiveness, existence half: every output row index below
/// `len` falls inside some block of the plan.
proof fn lemma_partition_find(len: int, workers: int, i: int, c0: int)
    requires
        1 <= workers < len,
        0 <= c0 < workers,
        split_point(len, workers, c0) <= i < len,
    ensures
        exists|c: int|
            0 <= c < workers && #[trigger] split_point(len, workers, c) <= i < split_point(
                len,
                workers,
                c + 1,
            ),
    decreases workers - c0,
{
    if i < split_point(len, workers, c0 + 1) {
        assert(split_point(len, workers, c0) <= i < split_point(len, workers, c0 + 1));
    } else {
        lemma_split_point_range(len, workers, workers);
        assert(c0 + 1 < workers);
        lemma_partition_find(len, workers, i, c0 + 1);
    }
}

/// Partition exhaustiveness: with fewer workers than output rows, the blocks
/// of the partition plan are contiguous and cover every output row index
/// exactly once — each index lies in one and only one block.  Together with
/// [`lemma_split_point_range`] (split points never pass `len`, so each
/// extended read range ends within the input) this is the safety argument
/// for the partition plan of [`WindowShape::create_v_splits`].
pub proof fn lemma_partition_exhaustive(len: int, workers: int, i: int)
    requires
        1 <= workers < len,
        0 <= i < len,
    ensures
        exists|c: int|
            0 <= c < workers && #[trigger] split_point(len, workers, c) <= i < split_point(
                len,
                workers,
                c + 1,
            ),
        forall|c1: int, c2: int|
            0 <= c1 < workers && 0 <= c2 < workers && #[trigger] split_point(len, workers, c1)
                <= i < split_point(len, workers, c1 + 1) && #[trigger] split_point(
                len,
                workers,
                c2,
            ) <= i < split_point(len, workers, c2 + 1) ==> c1 == c2,
{
    lemma_split_point_range(len, workers, 0);
    lemma_partition_find(len, workers, i, 0);
    assert forall|c1: int, c2: int|
        0 <= c1 < workers && 0 <= c2 < workers && #[trigger] split_point(len, workers, c1) <= i
            < split_point(len, workers, c1 + 1) && #[trigger] split_point(len, workers, c2) <= i
            < split_point(len, workers, c2 + 1) implies c1 == c2 by {
        if c1 < c2 {
            lemma_split_point_monotone(len, workers, c1 + 1, c2);
        }
        if c2 < c1 {
            lemma_split_point_monotone(len, workers, c2 + 1, c1);
        }
    }
}

/// Boundary of the partition plan before worker `c`: the rational
/// `c * len / workers` rounded to the nearest integer, halves rounded up.
pub open spec fn split_point(len: int, workers: int, c: int) -> int {
    (2 * c * len + workers) / (2 * workers)
}

/// Rounding `c * len / workers` can be carried out through the quotient and
/// remainder of `c * len` by `workers`.
proof fn lemma_split_point_val(len: int, workers: int, c: int)
    requires
        1 <= workers,
        0 <= c,
        0 <= len,
    ensures
        ({
            let q = (c * len) / workers;
            let r = (c * len) % workers;
            split_point(len, workers, c) == q + if 2 * r >= workers {
                1int
            } else {
                0int
            }
        }),
{
    let x = c * len;
    let q = x / workers;
    let r = x % workers;
    assert(x >= 0) by (nonlinear_arith)
        requires x == c * len, 0 <= c, 0 <= len;
    lemma_fundamental_div_mod(x, workers);
    lemma_mod_pos_bound(x, workers);
    assert(2 * c * len + workers == q * (2 * workers) + (2 * r + workers)) by (nonlinear_arith)
        requires x == workers * q + r, x == c * len;
    if 2 * r >= workers {
        assert(2 * c * len + workers == (q + 1) * (2 * workers) + (2 * r - workers))
            by (nonlinear_arith)
            requires x == workers * q + r, x == c * len;
        lemma_fundamental_div_mod_converse(
            2 * c * len + workers,
            2 * workers,
            q + 1,
            2 * r - workers,
        );
    } else {
        lemma_fundamental_div_mod_converse(2 * c * len + workers, 2 * workers, q, 2 * r + workers);
    }
}

/// The split points start at zero, end at `len`, and stay within `[0, len]`.
pub proof fn lemma_split_point_range(len: int, workers: int, c: int)
    requires
        1 <= workers,
        0 <= len,
        0 <= c <= workers,
    ensures
        0 <= split_point(len, workers, c) <= len,
        c == 0 ==> split_point(len, workers, c) == 0,
        c == workers ==> split_point(len, workers, c) == len,
{
    lemma_split_point_val(len, workers, c);
    let x = c * len;
    lemma_fundamental_div_mod(x, workers);
    lemma_mod_pos_bound(x, workers);
    let q = x / workers;
    let r = x % workers;
    assert(0 <= q && (q < len || (q == len && r == 0) || len == 0)) by (nonlinear_arith)
        requires
            x == workers * q + r,
            0 <= r < workers,
            x == c * len,
            0 <= c <= workers,
            0 <= len,
            1 <= workers;
    if c == 0 {
        assert(x == 0) by (nonlinear_arith)
            requires x == c * len, c == 0;
        lemma_fundamental_div_mod_converse(0, workers, 0, 0);
    }
    if c == workers {
        assert(x == len * workers + 0) by (nonlinear_arith)
            requires x == c * len, c == workers;
        lemma_fundamental_div_mod_converse(x, workers, len, 0);
    }
}

/// Consecutive split points are at least one row apart whenever there are
/// more output rows than workers.
pub proof fn lemma_split_point_step(len: int, workers: int, c: int)
    requires
        1 <= workers < len,
        0 <= c < workers,
    ensures
        split_point(len, workers, c) + 1 <= split_point(len, workers, c + 1),
{
    let d = 2 * workers;
    let x = 2 * c * len + workers;
    let sp = x / d;
    lemma_fundamental_div_mod(x, d);
    lemma_mod_pos_bound(x, d);
    let r = x % d;
    // Two rows later in the numerator means at least one full divisor more.
    assert(2 * (c + 1) * len + workers == (sp + 1) * d + (r + 2 * len - d)) by (nonlinear_arith)
        requires x == d * sp + r, x == 2 * c * len + workers, d == 2 * workers;
    assert(0 <= r + 2 * len - d) by (nonlinear_arith)
        requires 0 <= r, workers < len, d == 2 * workers;
    if r + 2 * len - d < d {
        lemma_fundamental_div_mod_converse(2 * (c + 1) * len + workers, d, sp + 1, r + 2 * len - d);
    } else {
        // The quotient grows even further; bound it from below.
        let y = 2 * (c + 1) * len + workers;
        let q2 = y / d;
        lemma_fundamental_div_mod(y, d);
        lemma_mod_pos_bound(y, d);
        assert(q2 >= sp + 1) by (nonlinear_arith)
            requires
                y == d * q2 + (y % d),
                0 <= y % d < d,
                y == (sp + 1) * d + (r + 2 * len - d),
                r + 2 * len - d >= d,
                d >= 2;
    }
}

/// Split points never decrease as the worker index grows.
pub proof fn lemma_split_point_monotone(len: int, workers: int, c1: int, c2: int)
    requires
        1 <= workers < len,
        0 <= c1 <= c2 <= workers,
    ensures
        split_point(len, workers, c1) <= split_point(len, workers, c2),
    decreases c2 - c1,
{
    if c1 < c2 {
        lemma_split_point_step(len, workers, c2 - 1);
        lemma_split_point_monotone(len, workers, c1, c2 - 1);
    }
}

/// Failures detected while validating a window against an input grid.
#[derive(Copy, Clone, Debug, PartialEq, Eq, Structural)]
pub enum WindowError {
    /// A window extent is zero or exceeds the corresponding grid extent;
    /// `dim` names the first offending axis.
    ShapeMismatch { dim: usize },
    /// The requested worker count is not strictly smaller than the output
    /// extent along axis 0, so some worker would receive no output row.
    InsufficientPartitionRange,
}

/// The character of one decimal digit.
pub open spec fn dec_digit(d: int) -> char {
    if d == 0 {
        '0'
    } else if d == 1 {
        '1'
    } else if d == 2 {
        '2'
    } else if d == 3 {
        '3'
    } else if d == 4 {
        '4'
    } else if d == 5 {
        '5'
    } else if d == 6 {
        '6'
    } else if d == 7 {
        '7'
    } else if d == 8 {
        '8'
    } else {
        '9'
    }
}

/// The decimal digits of a non-negative number, most significant first.
pub open spec fn dec_str(n: int) -> Seq<char>
    decreases n,
{
    if n < 10 {
        seq![dec_digit(n)]
    } else {
        dec_str(n / 10).push(dec_digit(n % 10))
    }
}

/// One decimal digit as a string slice.
fn digit_lit(d: usize) -> (r: &'static str)
    requires
        d < 10,
    ensures
        r@ == seq![dec_digit(d as int)],
{
    let r: &'static str = if d == 0 {
        "0"
    } else if d == 1 {
        "1"
    } else if d == 2 {
        "2"
    } else if d == 3 {
        "3"
    } else if d == 4 {
        "4"
    } else if d == 5 {
        "5"
    } else if d == 6 {
        "6"
    } else if d == 7 {
        "7"
    } else if d == 8 {
        "8"
    } else {
        "9"
    };
    proof {
        reveal_strlit("0");
        reveal_strlit("1");
        reveal_strlit("2");
        reveal_strlit("3");
        reveal_strlit("4");
        reveal_strlit("5");
        reveal_strlit("6");
        reveal_strlit("7");
        reveal_strlit("8");
        reveal_strlit("9");
        assert(r@ =~= seq![dec_digit(d as int)]);
    }
    r
}

/// A non-negative number written in decimal.
fn dec_of(n: usize) -> (r: String)
    ensures
        r@ == dec_str(n as int),
    decreases n,
{
    if n < 10 {
        String::from_str(digit_lit(n))
    } else {
        let mut s = dec_of(n / 10);
        s.append(digit_lit(n % 10));
        proof {
            assert(s@ =~= dec_str(n as int));
        }
        s
    }
}

/// Computes `split_point(len, workers, c)` exactly, carrying the product
/// `c * len` in 128-bit arithmetic so that no intermediate overflows.
fn split_point_exec(len: usize, workers: usize, c: usize) -> (r: usize)
    requires
        1 <= workers,
        0 <= c <= workers,
    ensures
        r as int == split_point(len as int, workers as int, c as int),
        r <= len,
{
    proof {
        lemma_split_point_val(len as int, workers as int, c as int);
        lemma_split_point_range(len as int, workers as int, c as int);
        assert((c as int) * (len as int) <= u128::MAX) by (nonlinear_arith)
            requires c <= u64::MAX, len <= u64::MAX;
    }
    let prod: u128 = (c as u128) * (len as u128);
    let q: u128 = prod / (workers as u128);
    let rem: u128 = prod % (workers as u128);
    proof {
        lemma_fundamental_div_mod(prod as int, workers as int);
        lemma_mod_pos_bound(prod as int, workers as int);
        assert(q <= len) by (nonlinear_arith)
            requires
                prod == (c as int) * (len as int),
                prod == (workers as int) * (q as int) + (rem as int),
                0 <= rem,
                c <= workers,
                1 <= workers,
                0 <= len;
    }
    let bump: u128 = if 2 * rem >= workers as u128 {
        1
    } else {
        0
    };
    (q + bump) as usize
}

/// The extent of the sliding window.
///
/// `Single(a)` stands for a window of `(a, a, 1)`, useful for images;
/// `Double(a, b)` stands for `(a, b, 1)`; `Triple(a, b, c)` gives full
/// control over all three extents.
#[derive(Copy, Clone, Debug, PartialEq, Eq, Structural)]
pub enum WindowShape {
    Single(usize),
    Double(usize, usize),
    Triple(usize, usize, usize),
}

impl WindowShape {
    /// The window extents normalized to three dimensions.
    pub open spec fn win_dims(self) -> (int, int, int) {
        match self {
            WindowShape::Single(a) => (a as int, a as int, 1int),
            WindowShape::Double(a, b) => (a as int, b as int, 1int),
            WindowShape::Triple(a, b, c) => (a as int, b as int, c as int),
        }
    }

    /// Every window extent is at least one and at most the corresponding
    /// grid extent.
    pub open spec fn valid_for(self, d0: int, d1: int, d2: int) -> bool {
        &&& 1 <= self.win_dims().0 <= d0
        &&& 1 <= self.win_dims().1 <= d1
        &&& 1 <= self.win_dims().2 <= d2
    }

    /// The first axis on which the window fails to fit.
    pub open spec fn bad_dim(self, d0: int, d1: int, d2: int) -> int {
        if !(1 <= self.win_dims().0 <= d0) {
            0
        } else if !(1 <= self.win_dims().1 <= d1) {
            1
        } else {
            2
        }
    }

    /// The window extents as executable values.
    pub fn normalized(self) -> (w: (usize, usize, usize))
        ensures
            w.0 as int == self.win_dims().0,
            w.1 as int == self.win_dims().1,
            w.2 as int == self.win_dims().2,
    {
        match self {
            WindowShape::Single(a) => (a, a, 1),
            WindowShape::Double(a, b) => (a, b, 1),
            WindowShape::Triple(a, b, c) => (a, b, c),
        }
    }

    /// Validates the window against the grid and derives the output shape:
    /// along each axis the output extent is the input extent minus the
    /// window extent plus one.  On success returns the output shape together
    /// with the normalized window extents; otherwise reports the first axis
    /// on which the window is undersized or oversized.
    pub fn array_size<T>(self, ar: &Grid3<T>) -> (r: Result<
        ((usize, usize, usize), (usize, usize, usize)),
        WindowError,
    >)
        requires
            ar.wf(),
        ensures
            match r {
                Ok(t) => {
                    &&& self.valid_for(ar@.d0, ar@.d1, ar@.d2)
                    &&& t.1.0 as int == self.win_dims().0
                    &&& t.1.1 as int == self.win_dims().1
                    &&& t.1.2 as int == self.win_dims().2
                    &&& t.0.0 as int == ar@.d0 - self.win_dims().0 + 1
                    &&& t.0.1 as int == ar@.d1 - self.win_dims().1 + 1
                    &&& t.0.2 as int == ar@.d2 - self.win_dims().2 + 1
                },
                Err(e) => {
                    &&& !self.valid_for(ar@.d0, ar@.d1, ar@.d2)
                    &&& e == (WindowError::ShapeMismatch {
                        dim: self.bad_dim(ar@.d0, ar@.d1, ar@.d2) as usize,
                    })
                },
            },
    {
        let (w0, w1, w2) = self.normalized();
        let (d0, d1, d2) = ar.dims();
        if w0 < 1 || w0 > d0 {
            return Err(WindowError::ShapeMismatch { dim: 0 });
        }
        if w1 < 1 || w1 > d1 {
            return Err(WindowError::ShapeMismatch { dim: 1 });
        }
        if w2 < 1 || w2 > d2 {
            return Err(WindowError::ShapeMismatch { dim: 2 });
        }
        Ok(((d0 - (w0 - 1), d1 - (w1 - 1), d2 - (w2 - 1)), (w0, w1, w2)))
    }

    /// Derives the partition plan for reducing this window over `arr` with
    /// `workers` independent workers.
    ///
    /// The output extent along axis 0, `len = arr.d0 - (w0 - 1)`, is divided
    /// into `workers` contiguous blocks of near-equal size: block `c` covers
    /// output rows `split_point(c) .. split_point(c + 1)`.  Each returned pair
    /// `(start, end)` holds the block's first output row and the end of its
    /// *read* range in input rows, `split_point(c + 1) + (w0 - 1)`, so that a
    /// worker can compute its whole output slice from input rows
    /// `start .. end` alone; the last block's end is the full input extent.
    /// Fails when some worker would receive no output row, that is unless
    /// `workers < len`.
    pub fn create_v_splits<T>(self, arr: &Grid3<T>, workers: usize) -> (r: Result<
        Vec<(usize, usize)>,
        WindowError,
    >)
        requires
            arr.wf(),
            workers >= 1,
            1 <= self.win_dims().0 <= arr@.d0,
        ensures
            ({
                let w0 = self.win_dims().0;
                let len = arr@.d0 - w0 + 1;
                match r {
                    Err(e) => {
                        &&& e == WindowError::InsufficientPartitionRange
                        &&& workers >= len
                    },
                    Ok(v) => {
                        &&& workers < len
                        &&& v@.len() == workers
                        &&& forall|c: int|
                            0 <= c < workers ==> (#[trigger] v@[c]).0 == split_point(
                                len,
                                workers as int,
                                c,
                            )
                        &&& forall|c: int|
                            0 <= c < workers ==> (#[trigger] v@[c]).1 == split_point(
                                len,
                                workers as int,
                                c + 1,
                            ) + (w0 - 1)
                        &&& v@[workers - 1].1 == arr@.d0
                        &&& forall|c: int|
                            0 <= c < workers ==> (#[trigger] v@[c]).0 + (w0 - 1) < v@[c].1
                                <= arr@.d0
                        &&& forall|c: int|
                            0 <= c < workers - 1 ==> (#[trigger] v@[c + 1]).0 == v@[c].1 - (w0 - 1)
                    },
                }
            }),
    {
        let (w0, _, _) = self.normalized();
        let (d0, _, _) = arr.dims();
        let len = d0 - (w0 - 1);
        if workers >= len {
            return Err(WindowError::InsufficientPartitionRange);
        }
        let mut v: Vec<(usize, usize)> = Vec::new();
        let mut c: usize = 0;
        while c < workers
            invariant
                workers >= 1,
                1 <= w0 <= d0,
                len == d0 - (w0 - 1),
                workers < len,
                c <= workers,
                v@.len() == c,
                forall|i: int|
                    0 <= i < c ==> (#[trigger] v@[i]).0 == split_point(
                        len as int,
                        workers as int,
                        i,
                    ),
                forall|i: int|
                    0 <= i < c ==> (#[trigger] v@[i]).1 == split_point(
                        len as int,
                        workers as int,
                        i + 1,
                    ) + (w0 - 1),
            decreases workers - c,
        {
            let a = split_point_exec(len, workers, c);
            let b = if c == workers - 1 {
                proof {
                    lemma_split_point_range(len as int, workers as int, workers as int);
                }
                d0
            } else {
                let b0 = split_point_exec(len, workers, c + 1);
                b0 + (w0 - 1)
            };
            v.push((a, b));
            c = c + 1;
        }
        proof {
            lemma_split_point_range(len as int, workers as int, workers as int);
            assert forall|i: int| 0 <= i < workers implies (#[trigger] v@[i]).0 + (w0 - 1)
                < v@[i].1 <= arr@.d0 by {
                lemma_split_point_step(len as int, workers as int, i);
                lemma_split_point_range(len as int, workers as int, i + 1);
            }
        }
        Ok(v)
    }

    /// The shape as text: `(a)`, `(a, b)` or `(a, b, c)`.
    pub open spec fn describe_spec(self) -> Seq<char> {
        match self {
            WindowShape::Single(a) => seq!['('] + dec_str(a as int) + seq![')'],
            WindowShape::Double(a, b) => seq!['('] + dec_str(a as int) + seq![',', ' '] + dec_str(
                b as int,
            ) + seq![')'],
            WindowShape::Triple(a, b, c) => seq!['('] + dec_str(a as int) + seq![',', ' ']
                + dec_str(b as int) + seq![',', ' '] + dec_str(c as int) + seq![')'],
        }
    }

    /// Writes the shape out as `(a)`, `(a, b)` or `(a, b, c)`.
    pub fn describe(&self) -> (r: String)
        ensures
            r@ == self.describe_spec(),
    {
        proof {
            reveal_strlit("(");
            reveal_strlit(")");
            reveal_strlit(", ");
        }
        let mut s = String::from_str("(");
        match *self {
            WindowShape::Single(a) => {
                let d = dec_of(a);
                s.append(d.as_str());
                s.append(")");
            },
            WindowShape::Double(a, b) => {
                let d = dec_of(a);
                s.append(d.as_str());
                s.append(", ");
                let d = dec_of(b);
                s.append(d.as_str());
                s.append(")");
            },
            WindowShape::Triple(a, b, c) => {
                let d = dec_of(a);
                s.append(d.as_str());
                s.append(", ");
                let d = dec_of(b);
                s.append(d.as_str());
                s.append(", ");
                let d = dec_of(c);
                s.append(d.as_str());
                s.append(")");
            },
        }
        proof {
            assert(s@ =~= self.describe_spec());
        }
        s
    }

    /// The number of cells under one window position.
    pub fn window_size(self) -> (r: usize)
        requires
            self.win_dims().0 * self.win_dims().1 <= usize::MAX,
            self.win_dims().0 * self.win_dims().1 * self.win_dims().2 <= usize::MAX,
        ensures
            r as int == self.win_dims().0 * self.win_dims().1 * self.win_dims().2,
    {
        match self {
            WindowShape::Single(a) => {
                proof {
                    assert(a * a * 1 == a * a) by (nonlinear_arith);
                }
                a * a
            },
            WindowShape::Double(a, b) => {
                proof {
                    assert(a * b * 1 == a * b) by (nonlinear_arith);
                }
                a * b
            },
            WindowShape::Triple(a, b, c) => {
                proof {
                    assert(b * a == a * b) by (nonlinear_arith);
                    assert((a * b) * c == a * b * c) by (nonlinear_arith);
                }
                let ab = b * a;
                proof {
                    assert(ab * c == a * b * c) by (nonlinear_arith)
                        requires ab == a * b;
                }
                ab * c
            },
        }
    }
}

/// Applies the reducer over every position of the moving window, row-major,
/// and collects the results into the output grid; the output is smaller than
/// the input by the window extent minus one along each axis.  Fails exactly
/// when the window does not fit the input.
#[verifier::loop_isolation(false)]
pub fn apply_over_window<T: Copy, F: Fn(Grid3<T>) -> T>(
    arr: &Grid3<T>,
    win_size: WindowShape,
    func: F,
) -> (r: Result<Grid3<T>, WindowError>)
    requires
        arr.wf(),
        reducer_total(func, win_size.win_dims().0, win_size.win_dims().1, win_size.win_dims().2),
    ensures
        match r {
            Ok(out) => {
                &&& win_size.valid_for(arr@.d0, arr@.d1, arr@.d2)
                &&& out.wf()
                &&& reduces(
                    func,
                    arr@,
                    win_size.win_dims().0,
                    win_size.win_dims().1,
                    win_size.win_dims().2,
                    out@,
                )
            },
            Err(e) => {
                &&& !win_size.valid_for(arr@.d0, arr@.d1, arr@.d2)
                &&& e == (WindowError::ShapeMismatch {
                    dim: win_size.bad_dim(arr@.d0, arr@.d1, arr@.d2) as usize,
                })
            },
        },
{
    let ((o0, o1, o2), (w0, w1, w2)) = match win_size.array_size(arr) {
        Ok(t) => t,
        Err(e) => {
            return Err(e);
        },
    };
    let ghost gw0 = w0 as int;
    let ghost gw1 = w1 as int;
    let ghost gw2 = w2 as int;
    let ghost go1 = o1 as int;
    let ghost go2 = o2 as int;
    let mut data: Vec<T> = Vec::new();
    let mut i: usize = 0;
    while i < o0
        invariant
            i <= o0,
            data@.len() == i as int * (go1 * go2),
            forall|x: int, y: int, z: int|
                0 <= x && 0 <= y < go1 && 0 <= z < go2 && (x * go1 + y) * go2 + z < data@.len()
                    ==> reduced_cell(
                    func,
                    arr@,
                    gw0,
                    gw1,
                    gw2,
                    #[trigger] data@[(x * go1 + y) * go2 + z],
                    x,
                    y,
                    z,
                ),
        decreases o0 - i,
    {
        let mut j: usize = 0;
        while j < o1
            invariant
                i < o0,
                j <= o1,
                data@.len() == i as int * (go1 * go2) + j as int * go2,
                forall|x: int, y: int, z: int|
                    0 <= x && 0 <= y < go1 && 0 <= z < go2 && (x * go1 + y) * go2 + z
                        < data@.len() ==> reduced_cell(
                        func,
                        arr@,
                        gw0,
                        gw1,
                        gw2,
                        #[trigger] data@[(x * go1 + y) * go2 + z],
                        x,
                        y,
                        z,
                    ),
            decreases o1 - j,
        {
            let mut k: usize = 0;
            while k < o2
                invariant
                    i < o0,
                    j < o1,
                    k <= o2,
                    data@.len() == i as int * (go1 * go2) + j as int * go2 + k as int,
                    forall|x: int, y: int, z: int|
                        0 <= x && 0 <= y < go1 && 0 <= z < go2 && (x * go1 + y) * go2 + z
                            < data@.len() ==> reduced_cell(
                            func,
                            arr@,
                            gw0,
                            gw1,
                            gw2,
                            #[trigger] data@[(x * go1 + y) * go2 + z],
                            x,
                            y,
                            z,
                        ),
                decreases o2 - k,
            {
                let win = arr.subgrid(i, j, k, w0, w1, w2);
                let ghost gwin = win;
                let val = func(win);
                proof {
                    lemma_idx3_decompose(i as int, j as int, k as int, go1, go2);
                    assert(i as int * (go1 * go2) + j as int * go2 == (i as int * go1 + j as int)
                        * go2) by (nonlinear_arith);
                }
                let ghost prev = data@;
                data.push(val);
                proof {
                    let n = prev.len() as int;
                    assert forall|x: int, y: int, z: int|
                        0 <= x && 0 <= y < go1 && 0 <= z < go2 && (x * go1 + y) * go2 + z
                            < data@.len() implies reduced_cell(
                        func,
                        arr@,
                        gw0,
                        gw1,
                        gw2,
                        #[trigger] data@[(x * go1 + y) * go2 + z],
                        x,
                        y,
                        z,
                    ) by {
                        let m = (x * go1 + y) * go2 + z;
                        lemma_idx3_decompose(x, y, z, go1, go2);
                        if m < n {
                            assert(data@[m] == prev[m]);
                        } else {
                            assert(m == n);
                            assert(x == i && y == j && z == k);
                            assert(call_ensures(func, (gwin,), val));
                            assert(data@[m] == val);
                            assert(reduced_cell(func, arr@, gw0, gw1, gw2, val, x, y, z));
                        }
                    }
                }
                k = k + 1;
            }
            proof {
                assert((j as int + 1) * go2 == j as int * go2 + go2) by (nonlinear_arith);
            }
            j = j + 1;
        }
        proof {
            assert((i as int + 1) * (go1 * go2) == i as int * (go1 * go2) + go1 * go2)
                by (nonlinear_arith);
        }
        i = i + 1;
    }
    proof {
        assert(o0 as int * (go1 * go2) == o0 as int * go1 * go2) by (nonlinear_arith);
    }
    let out = Grid3::from_parts(o0, o1, o2, data);
    proof {
        assert forall|x: int, y: int, z: int| out@.in_bounds(x, y, z) implies reduced_cell(
            func,
            arr@,
            gw0,
            gw1,
            gw2,
            #[trigger] out@.cell(x, y, z),
            x,
            y,
            z,
        ) by {
            lemma_idx3_bounds(x, y, z, o0 as int, go1, go2);
        }
    }
    Ok(out)
}

/// Reduces `arr` through the partition plan of [`WindowShape::create_v_splits`]:
/// each block's extended read range is sliced out, reduced independently by
/// [`apply_over_window`], and the partial outputs are concatenated along axis 0
/// in plan order.  The result satisfies exactly the same cell-by-cell
/// specification [`reduces`] as the single-pass reduction, so by
/// [`lemma_serial_parallel_equivalence`] a deterministic reducer gives the
/// same output either way.  Fails when the window does not fit, or when the
/// plan would leave some worker without an output row.
#[verifier::loop_isolation(false)]
pub fn partitioned_apply_over_window<T: Copy, F: Fn(Grid3<T>) -> T + Copy>(
    arr: &Grid3<T>,
    win_size: WindowShape,
    func: F,
    workers: usize,
) -> (r: Result<Grid3<T>, WindowError>)
    requires
        arr.wf(),
        workers >= 1,
        reducer_total(func, win_size.win_dims().0, win_size.win_dims().1, win_size.win_dims().2),
    ensures
        match r {
            Ok(out) => {
                &&& win_size.valid_for(arr@.d0, arr@.d1, arr@.d2)
                &&& workers < arr@.d0 - win_size.win_dims().0 + 1
                &&& out.wf()
                &&& reduces(
                    func,
                    arr@,
                    win_size.win_dims().0,
                    win_size.win_dims().1,
                    win_size.win_dims().2,
                    out@,
                )
            },
            Err(e) => match e {
                WindowError::ShapeMismatch { dim } => {
                    &&& !win_size.valid_for(arr@.d0, arr@.d1, arr@.d2)
                    &&& dim == win_size.bad_dim(arr@.d0, arr@.d1, arr@.d2)
                },
                WindowError::InsufficientPartitionRange => {
                    &&& win_size.valid_for(arr@.d0, arr@.d1, arr@.d2)
                    &&& workers >= arr@.d0 - win_size.win_dims().0 + 1
                },
            },
        },
{
    let ((o0, o1, o2), (w0, w1, w2)) = match win_size.array_size(arr) {
        Ok(t) => t,
        Err(e) => {
            return Err(e);
        },
    };
    let plan = match win_size.create_v_splits(arr, workers) {
        Ok(v) => v,
        Err(e) => {
            return Err(e);
        },
    };
    let ghost gw0 = w0 as int;
    let ghost gw1 = w1 as int;
    let ghost gw2 = w2 as int;
    let ghost go1 = o1 as int;
    let ghost go2 = o2 as int;
    let ghost glen = o0 as int;
    let ghost gworkers = workers as int;
    let mut data: Vec<T> = Vec::new();
    let mut c: usize = 0;
    proof {
        lemma_split_point_range(glen, gworkers, 0);
    }
    while c < workers
        invariant
            c <= workers,
            data@.len() == split_point(glen, gworkers, c as int) * (go1 * go2),
            forall|x: int, y: int, z: int|
                0 <= x < split_point(glen, gworkers, c as int) && 0 <= y < go1 && 0 <= z < go2
                    ==> reduced_cell(
                    func,
                    arr@,
                    gw0,
                    gw1,
                    gw2,
                    #[trigger] data@[(x * go1 + y) * go2 + z],
                    x,
                    y,
                    z,
                ),
        decreases workers - c,
    {
        let ghost spc = split_point(glen, gworkers, c as int);
        let ghost spn = split_point(glen, gworkers, c as int + 1);
        proof {
            lemma_split_point_step(glen, gworkers, c as int);
            lemma_split_point_range(glen, gworkers, c as int);
            lemma_split_point_range(glen, gworkers, c as int + 1);
            lemma_split_point_range(glen, gworkers, gworkers);
        }
        let (va, vb) = plan[c];
        let slice = arr.slice_rows(va, vb);
        let part = match apply_over_window(&slice, win_size, func) {
            Ok(p) => p,
            Err(_) => {
                proof {
                    assert(win_size.valid_for(slice@.d0, slice@.d1, slice@.d2));
                }
                vstd::pervasive::unreached()
            },
        };
        let ghost gpart = part@;
        let ghost gslice = slice@;
        let mut pd = part.into_data();
        let ghost prev = data@;
        data.append(&mut pd);
        proof {
            // The slice's output rows are `spn - spc`, one plane of
            // `o1 * o2` cells each.
            assert(gpart.d0 == spn - spc);
            assert(gpart.cells.len() == (spn - spc) * (go1 * go2)) by (nonlinear_arith)
                requires
                    gpart.cells.len() == gpart.d0 * gpart.d1 * gpart.d2,
                    gpart.d0 == spn - spc,
                    gpart.d1 == go1,
                    gpart.d2 == go2;
            assert(data@.len() == spn * (go1 * go2)) by (nonlinear_arith)
                requires
                    data@.len() == spc * (go1 * go2) + (spn - spc) * (go1 * go2);
            assert forall|x: int, y: int, z: int|
                0 <= x < spn && 0 <= y < go1 && 0 <= z < go2 implies reduced_cell(
                func,
                arr@,
                gw0,
                gw1,
                gw2,
                #[trigger] data@[(x * go1 + y) * go2 + z],
                x,
                y,
                z,
            ) by {
                let m = (x * go1 + y) * go2 + z;
                if x < spc {
                    lemma_idx3_bounds(x, y, z, spc, go1, go2);
                    assert(spc * (go1 * go2) == spc * go1 * go2) by (nonlinear_arith);
                    assert((prev + gpart.cells)[m] == prev[m]);
                    assert(data@[m] == prev[m]);
                } else {
                    let xi = x - spc;
                    lemma_idx3_bounds(xi, y, z, spn - spc, go1, go2);
                    lemma_idx3_offset(spc, xi, y, z, go1, go2);
                    let mp = (xi * go1 + y) * go2 + z;
                    assert(m == spc * (go1 * go2) + mp);
                    assert((spn - spc) * (go1 * go2) == (spn - spc) * go1 * go2)
                        by (nonlinear_arith);
                    assert((prev + gpart.cells)[m] == gpart.cells[mp]);
                    assert(data@[m] == gpart.cells[mp]);
                    let val = gpart.cell(xi, y, z);
                    assert(gpart.cells[mp] == val);
                    assert(gpart.in_bounds(xi, y, z));
                    assert(reduced_cell(func, gslice, gw0, gw1, gw2, val, xi, y, z));
                    let g = choose|g: Grid3<T>|
                        {
                            &&& g.wf()
                            &&& g@.d0 == gw0
                            &&& g@.d1 == gw1
                            &&& g@.d2 == gw2
                            &&& g@.cells == gslice.subgrid_seq(xi, y, z, gw0, gw1, gw2)
                            &&& #[trigger] call_ensures(func, (g,), val)
                        };
                    lemma_slice_subgrid(arr@, gslice, va as int, xi, y, z, gw0, gw1, gw2);
                    assert(g@.cells == arr@.subgrid_seq(x, y, z, gw0, gw1, gw2));
                    assert(reduced_cell(func, arr@, gw0, gw1, gw2, val, x, y, z));
                }
            }
        }
        c = c + 1;
    }
    proof {
        lemma_split_point_range(glen, gworkers, gworkers);
        assert(glen * (go1 * go2) == o0 * o1 * o2) by (nonlinear_arith)
            requires glen == o0, go1 == o1, go2 == o2;
    }
    let out = Grid3::from_parts(o0, o1, o2, data);
    proof {
        assert forall|x: int, y: int, z: int| out@.in_bounds(x, y, z) implies reduced_cell(
            func,
            arr@,
            gw0,
            gw1,
            gw2,
            #[trigger] out@.cell(x, y, z),
            x,
            y,
            z,
        ) by {
            lemma_idx3_bounds(x, y, z, o0 as int, go1, go2);
        }
    }
    Ok(out)
}

} // verus!
