//! Space-filling-curve reshape between images and single-file lines.
//!
//! An image is flattened by writing each pixel at the position of its
//! coordinates along a Hilbert curve, which keeps neighbouring pixels close
//! together in the flattened line; reading the same positions back restores
//! the image.  The line is sized as the square of the smallest power of two
//! that covers both image extents, the domain on which one order of the
//! curve visits every cell.

use vstd::prelude::*;

use crate::grid::{lemma_idx2_bounds, lemma_idx2_injective, lemma_idx3_bounds, Grid2, Grid3};

verus! {

/// The Hilbert-curve order used for both directions of the reshape.
pub const ORDER: u8 = 64;

/// The position of the coordinate pair `(x, y)` along the Hilbert curve of
/// the given order: a pure function of its arguments.
pub uninterp spec fn hilbert_index(x: u32, y: u32, order: u8) -> u64;

/// Relies on fast_hilbert::xy2h: converts 2-D coordinates to the position
/// along the Hilbert curve of the given order; the result depends on the
/// coordinates and the order alone.
#[verifier::external_body]
fn xy_to_hilbert(x: u32, y: u32, order: u8) -> (r: u64)
    ensures
        r == hilbert_index(x, y, order),
{
    fast_hilbert::xy2h(x, y, order)
}

/// The Hilbert indices of all coordinate pairs below the given extents are
/// pairwise distinct.
pub open spec fn hilbert_injective_below(d0: int, d1: int, order: u8) -> bool {
    forall|x1: u32, y1: u32, x2: u32, y2: u32|
        #![trigger hilbert_index(x1, y1, order), hilbert_index(x2, y2, order)]
        x1 < d0 && x2 < d0 && y1 < d1 && y2 < d1 && hilbert_index(x1, y1, order) == hilbert_index(
            x2,
            y2,
            order,
        ) ==> x1 == x2 && y1 == y2
}

/// A positive power of two.
pub open spec fn is_pow2(n: int) -> bool
    decreases n,
{
    if n <= 0 {
        false
    } else if n == 1 {
        true
    } else {
        n % 2 == 0 && is_pow2(n / 2)
    }
}

/// The smallest power of two that is at least `n`.
#[verifier::loop_isolation(false)]
fn next_pow2(n: usize) -> (r: usize)
    requires
        n <= 0x1000_0000,
    ensures
        is_pow2(r as int),
        r >= n,
        r >= 1,
        r == 1 || r / 2 < n,
{
    let mut p: usize = 1;
    while p < n
        invariant
            1 <= p <= 0x2000_0000,
            is_pow2(p as int),
            p == 1 || p / 2 < n,
        decreases 2 * n - p,
    {
        proof {
            assert((2 * p as int) % 2 == 0 && (2 * p as int) / 2 == p as int);
            assert(is_pow2(2 * p as int));
        }
        p = p * 2;
    }
    p
}

/// `rows` is the square of the smallest power of two covering both extents.
pub open spec fn covering_square_rows(d0: int, d1: int, rows: int) -> bool {
    exists|ls: int|
        {
            &&& #[trigger] is_pow2(ls)
            &&& ls * ls == rows
            &&& ls >= d0
            &&& ls >= d1
            &&& (ls == 1 || ls / 2 < d0 || ls / 2 < d1)
        }
}

/// Pairs that an outer row-major sweep over `(x, y)` has already visited
/// when it stands at `(px, py)`.
pub open spec fn pair_done(x: int, y: int, px: int, py: int) -> bool {
    x < px || (x == px && y < py)
}

/// The scatter invariant: `line` holds the image cells of every visited
/// coordinate pair at that pair's Hilbert position (provided the curve is
/// injective on the image extents), and is zero wherever no visited pair
/// points.
pub open spec fn scatter_inv(
    img: crate::grid::GridView<u8>,
    line: crate::grid::Grid2View<u8>,
    px: int,
    py: int,
) -> bool {
    &&& line.wf()
    &&& line.d1 == img.d2
    &&& (forall|t: int, z: int|
        0 <= t < line.d0 && 0 <= z < line.d1 && (forall|x: int, y: int|
            0 <= x < img.d0 && 0 <= y < img.d1 && pair_done(x, y, px, py)
                ==> #[trigger] hilbert_index(x as u32, y as u32, ORDER) as int != t)
            ==> #[trigger] line.cell(t, z) == 0)
    &&& (hilbert_injective_below(img.d0, img.d1, ORDER) ==> forall|x: int, y: int, z: int|
        0 <= x < img.d0 && 0 <= y < img.d1 && 0 <= z < img.d2 && pair_done(x, y, px, py)
            && hilbert_index(x as u32, y as u32, ORDER) < line.d0 ==> line.cell(
            hilbert_index(x as u32, y as u32, ORDER) as int,
            z,
        ) == #[trigger] img.cell(x, y, z))
}

/// Flattens an image into a line of one row per Hilbert position: the pixel
/// at `(x, y, z)` is written to row `hilbert_index(x, y)`, column `z`, and
/// rows that no pixel maps to stay zero.  The placement clause is stated
/// under the curve's injectivity on the image extents, since a later pixel
/// mapped to the same row would overwrite an earlier one.
#[verifier::loop_isolation(false)]
pub fn image_to_line(image: &Grid3<u8>) -> (r: Grid2<u8>)
    requires
        image.wf(),
        image@.d0 <= 0x1000_0000,
        image@.d1 <= 0x1000_0000,
        ({
            let m = if image@.d0 >= image@.d1 {
                image@.d0
            } else {
                image@.d1
            };
            4 * m * m <= usize::MAX && 4 * m * m * image@.d2 <= usize::MAX
        }),
    ensures
        r.wf(),
        r@.d1 == image@.d2,
        covering_square_rows(image@.d0, image@.d1, r@.d0),
        scatter_inv(image@, r@, image@.d0, 0),
{
    let (d0, d1, d2) = image.dims();
    let m = if d0 >= d1 {
        d0
    } else {
        d1
    };
    let ls = next_pow2(m);
    proof {
        if m == 0 {
            assert(ls == 1);
        } else {
            assert(ls <= 2 * m);
            assert(ls * ls <= 4 * (m * m)) by (nonlinear_arith)
                requires 0 <= ls, ls <= 2 * m;
            assert(4 * (m * m) == 4 * m * m) by (nonlinear_arith);
        }
    }
    let rows = ls * ls;
    proof {
        if d2 == 0 {
            assert(rows * d2 == 0) by (nonlinear_arith)
                requires d2 == 0;
        } else if m == 0 {
            assert(rows == 1);
        } else {
            assert(rows * d2 <= 4 * m * m * d2) by (nonlinear_arith)
                requires rows <= 4 * m * m, 1 <= d2, 0 <= rows;
        }
    }
    let total = rows * d2;
    let mut data: Vec<u8> = Vec::new();
    let mut n: usize = 0;
    while n < total
        invariant
            data@.len() == n,
            n <= total,
            forall|q: int| 0 <= q < data@.len() ==> data@[q] == 0,
        decreases total - n,
    {
        data.push(0);
        n = n + 1;
    }
    let mut line = Grid2::from_parts(rows, d2, data);
    proof {
        assert forall|t: int, z: int| 0 <= t < line@.d0 && 0 <= z < line@.d1 implies #[trigger] line@.cell(
            t,
            z,
        ) == 0 by {
            lemma_idx2_bounds(t, z, line@.d0, line@.d1);
        }
        assert(scatter_inv(image@, line@, 0, 0));
    }
    let mut x: usize = 0;
    while x < d0
        invariant
            x <= d0,
            line@.d0 == rows,
            line@.d1 == d2,
            line.wf(),
            scatter_inv(image@, line@, x as int, 0),
        decreases d0 - x,
    {
        let mut y: usize = 0;
        while y < d1
            invariant
                x < d0,
                y <= d1,
                line@.d0 == rows,
                line@.d1 == d2,
                line.wf(),
                scatter_inv(image@, line@, x as int, y as int),
            decreases d1 - y,
        {
            let t = xy_to_hilbert(x as u32, y as u32, ORDER);
            let ghost pre = line@;
            if t < rows as u64 {
                let tu = t as usize;
                let mut z: usize = 0;
                while z < d2
                    invariant
                        x < d0,
                        y < d1,
                        z <= d2,
                        tu < rows,
                        t == hilbert_index(x as u32, y as u32, ORDER),
                        tu as int == t as int,
                        line@.d0 == pre.d0,
                        line@.d1 == pre.d1,
                        line@.d0 == rows,
                        line@.d1 == d2,
                        line.wf(),
                        forall|tt: int, zz: int|
                            0 <= tt < pre.d0 && 0 <= zz < pre.d1 && tt != tu as int
                                ==> #[trigger] line@.cell(tt, zz) == pre.cell(tt, zz),
                        forall|zz: int|
                            0 <= zz < z ==> #[trigger] line@.cell(tu as int, zz) == image@.cell(
                                x as int,
                                y as int,
                                zz,
                            ),
                        forall|zz: int|
                            z <= zz < pre.d1 ==> #[trigger] line@.cell(tu as int, zz) == pre.cell(
                                tu as int,
                                zz,
                            ),
                    decreases d2 - z,
                {
                    let v = image.get(x, y, z);
                    let ghost before = line@;
                    line.set(tu, z, v);
                    proof {
                        lemma_idx2_bounds(tu as int, z as int, before.d0, before.d1);
                        assert forall|tt: int, zz: int|
                            0 <= tt < before.d0 && 0 <= zz < before.d1 && !(tt == tu as int && zz
                                == z as int) implies #[trigger] line@.cell(tt, zz) == before.cell(
                            tt,
                            zz,
                        ) by {
                            lemma_idx2_bounds(tt, zz, before.d0, before.d1);
                            if tt * before.d1 + zz == tu as int * before.d1 + z as int {
                                lemma_idx2_injective(tt, zz, tu as int, z as int, before.d1);
                            }
                        }
                    }
                    z = z + 1;
                }
            }
            proof {
                let gx = x as int;
                let gy = y as int;
                let ti = hilbert_index(x as u32, y as u32, ORDER) as int;
                // Zero clause for the extended set of visited pairs.
                assert forall|tt: int, zz: int|
                    0 <= tt < line@.d0 && 0 <= zz < line@.d1 && (forall|a: int, b: int|
                        0 <= a < image@.d0 && 0 <= b < image@.d1 && pair_done(a, b, gx, gy + 1)
                            ==> #[trigger] hilbert_index(a as u32, b as u32, ORDER) as int
                            != tt) implies #[trigger] line@.cell(tt, zz) == 0 by {
                    assert(pair_done(gx, gy, gx, gy + 1));
                    assert(hilbert_index(gx as u32, gy as u32, ORDER) as int != tt);
                    assert(tt != ti);
                    if t < rows as u64 {
                        assert(line@.cell(tt, zz) == pre.cell(tt, zz));
                    }
                    assert(pre.cell(tt, zz) == 0);
                }
                // Placement clause under injectivity.
                if hilbert_injective_below(image@.d0, image@.d1, ORDER) {
                    assert forall|a: int, b: int, zz: int|
                        0 <= a < image@.d0 && 0 <= b < image@.d1 && 0 <= zz < image@.d2
                            && pair_done(a, b, gx, gy + 1) && hilbert_index(
                            a as u32,
                            b as u32,
                            ORDER,
                        ) < line@.d0 implies line@.cell(
                        hilbert_index(a as u32, b as u32, ORDER) as int,
                        zz,
                    ) == #[trigger] image@.cell(a, b, zz) by {
                        let ta = hilbert_index(a as u32, b as u32, ORDER) as int;
                        if a == gx && b == gy {
                            assert(t < rows as u64);
                            assert(line@.cell(ta, zz) == image@.cell(a, b, zz));
                        } else {
                            assert(pair_done(a, b, gx, gy));
                            if ta == ti {
                                assert(hilbert_index(a as u32, b as u32, ORDER) == hilbert_index(
                                    gx as u32,
                                    gy as u32,
                                    ORDER,
                                ));
                                assert(a == gx && b == gy);
                                assert(false);
                            }
                            if t < rows as u64 {
                                assert(line@.cell(ta, zz) == pre.cell(ta, zz));
                            }
                            assert(pre.cell(ta, zz) == image@.cell(a, b, zz));
                        }
                    }
                }
            }
            y = y + 1;
        }
        x = x + 1;
    }
    proof {
        assert(covering_square_rows(image@.d0, image@.d1, line@.d0));
    }
    line
}

/// Rebuilds an image of extents `(imshape1, imshape2, channels)` from a
/// Hilbert-flattened line: the pixel at `(x, y, z)` is read from row
/// `hilbert_index(x, y)`, column `z`, of the line, or zero when that row
/// lies beyond the line's extent.
#[verifier::loop_isolation(false)]
pub fn line_to_image(line: &Grid2<u8>, imshape1: usize, imshape2: usize) -> (r: Grid3<u8>)
    requires
        line.wf(),
        imshape1 <= 0x1000_0000,
        imshape2 <= 0x1000_0000,
        imshape1 * imshape2 * line@.d1 <= usize::MAX,
    ensures
        r.wf(),
        r@.d0 == imshape1,
        r@.d1 == imshape2,
        r@.d2 == line@.d1,
        forall|x: int, y: int, z: int|
            r@.in_bounds(x, y, z) ==> #[trigger] r@.cell(x, y, z) == ({
                let t = hilbert_index(x as u32, y as u32, ORDER) as int;
                if t < line@.d0 {
                    line@.cell(t, z)
                } else {
                    0u8
                }
            }),
{
    let (rows, d2) = line.dims();
    let ghost go1 = imshape2 as int;
    let ghost go2 = d2 as int;
    let mut data: Vec<u8> = Vec::new();
    let mut x: usize = 0;
    while x < imshape1
        invariant
            x <= imshape1,
            data@.len() == x as int * (go1 * go2),
            forall|a: int, b: int, c: int|
                0 <= a && 0 <= b < go1 && 0 <= c < go2 && (a * go1 + b) * go2 + c < data@.len()
                    ==> #[trigger] data@[(a * go1 + b) * go2 + c] == ({
                    let t = hilbert_index(a as u32, b as u32, ORDER) as int;
                    if t < line@.d0 {
                        line@.cell(t, c)
                    } else {
                        0u8
                    }
                }),
        decreases imshape1 - x,
    {
        let mut y: usize = 0;
        while y < imshape2
            invariant
                x < imshape1,
                y <= imshape2,
                data@.len() == x as int * (go1 * go2) + y as int * go2,
                forall|a: int, b: int, c: int|
                    0 <= a && 0 <= b < go1 && 0 <= c < go2 && (a * go1 + b) * go2 + c
                        < data@.len() ==> #[trigger] data@[(a * go1 + b) * go2 + c] == ({
                        let t = hilbert_index(a as u32, b as u32, ORDER) as int;
                        if t < line@.d0 {
                            line@.cell(t, c)
                        } else {
                            0u8
                        }
                    }),
            decreases imshape2 - y,
        {
            let t = xy_to_hilbert(x as u32, y as u32, ORDER);
            let mut z: usize = 0;
            while z < d2
                invariant
                    x < imshape1,
                    y < imshape2,
                    z <= d2,
                    t == hilbert_index(x as u32, y as u32, ORDER),
                    data@.len() == x as int * (go1 * go2) + y as int * go2 + z as int,
                    forall|a: int, b: int, c: int|
                        0 <= a && 0 <= b < go1 && 0 <= c < go2 && (a * go1 + b) * go2 + c
                            < data@.len() ==> #[trigger] data@[(a * go1 + b) * go2 + c] == ({
                            let tt = hilbert_index(a as u32, b as u32, ORDER) as int;
                            if tt < line@.d0 {
                                line@.cell(tt, c)
                            } else {
                                0u8
                            }
                        }),
                decreases d2 - z,
            {
                let v: u8 = if t < rows as u64 {
                    line.get(t as usize, z)
                } else {
                    0
                };
                let ghost prev = data@;
                proof {
                    crate::grid::lemma_idx3_decompose(x as int, y as int, z as int, go1, go2);
                    assert(x as int * (go1 * go2) + y as int * go2 == (x as int * go1 + y as int)
                        * go2) by (nonlinear_arith);
                }
                data.push(v);
                proof {
                    let n = prev.len() as int;
                    assert forall|a: int, b: int, c: int|
                        0 <= a && 0 <= b < go1 && 0 <= c < go2 && (a * go1 + b) * go2 + c
                            < data@.len() implies #[trigger] data@[(a * go1 + b) * go2 + c] == ({
                        let tt = hilbert_index(a as u32, b as u32, ORDER) as int;
                        if tt < line@.d0 {
                            line@.cell(tt, c)
                        } else {
                            0u8
                        }
                    }) by {
                        let mm = (a * go1 + b) * go2 + c;
                        crate::grid::lemma_idx3_decompose(a, b, c, go1, go2);
                        if mm < n {
                            assert(data@[mm] == prev[mm]);
                        } else {
                            assert(mm == n);
                            assert(a == x as int && b == y as int && c == z as int);
                            assert(data@[mm] == v);
                        }
                    }
                }
                z = z + 1;
            }
            proof {
                assert((y as int + 1) * go2 == y as int * go2 + go2) by (nonlinear_arith);
            }
            y = y + 1;
        }
        proof {
            assert((x as int + 1) * (go1 * go2) == x as int * (go1 * go2) + go1 * go2)
                by (nonlinear_arith);
        }
        x = x + 1;
    }
    proof {
        assert(imshape1 as int * (go1 * go2) == imshape1 * imshape2 * d2) by (nonlinear_arith)
            requires go1 == imshape2 as int, go2 == d2 as int;
    }
    let out = Grid3::from_parts(imshape1, imshape2, d2, data);
    proof {
        assert forall|x: int, y: int, z: int| out@.in_bounds(x, y, z) implies #[trigger] out@.cell(
            x,
            y,
            z,
        ) == ({
            let t = hilbert_index(x as u32, y as u32, ORDER) as int;
            if t < line@.d0 {
                line@.cell(t, z)
            } else {
                0u8
            }
        }) by {
            lemma_idx3_bounds(x, y, z, imshape1 as int, go1, go2);
        }
    }
    out
}

/// Round trip: flattening an image and reading it back restores every pixel,
/// provided the curve is injective on the image extents and every pixel's
/// Hilbert position falls inside the line.
pub proof fn lemma_reshape_round_trip(
    img: crate::grid::GridView<u8>,
    line: crate::grid::Grid2View<u8>,
    back: crate::grid::GridView<u8>,
)
    requires
        hilbert_injective_below(img.d0, img.d1, ORDER),
        forall|x: int, y: int|
            0 <= x < img.d0 && 0 <= y < img.d1 ==> #[trigger] hilbert_index(
                x as u32,
                y as u32,
                ORDER,
            ) < line.d0,
        scatter_inv(img, line, img.d0, 0),
        back.d0 == img.d0,
        back.d1 == img.d1,
        back.d2 == img.d2,
        forall|x: int, y: int, z: int|
            back.in_bounds(x, y, z) ==> #[trigger] back.cell(x, y, z) == ({
                let t = hilbert_index(x as u32, y as u32, ORDER) as int;
                if t < line.d0 {
                    line.cell(t, z)
                } else {
                    0u8
                }
            }),
    ensures
        forall|x: int, y: int, z: int|
            img.in_bounds(x, y, z) ==> #[trigger] back.cell(x, y, z) == img.cell(x, y, z),
{
    assert forall|x: int, y: int, z: int| img.in_bounds(x, y, z) implies #[trigger] back.cell(
        x,
        y,
        z,
    ) == img.cell(x, y, z) by {
        assert(pair_done(x, y, img.d0, 0));
        assert(hilbert_index(x as u32, y as u32, ORDER) < line.d0);
        assert(line.cell(hilbert_index(x as u32, y as u32, ORDER) as int, z) == img.cell(x, y, z));
    }
}

} // verus!
