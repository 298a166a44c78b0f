//! Numeric support for the per-window reducers.
//!
//! The reducers work uniformly over the unsigned element widths through the
//! [`NumConv`] capability, and accumulate running sums in a 64-bit unsigned
//! accumulator with saturating addition so that no intermediate sum can
//! overflow, whatever the window size.

use vstd::prelude::*;

use crate::grid::Grid3;

verus! {

/// Numeric capability of the reduction element types: lossless promotion to
/// a 64-bit unsigned accumulator for overflow-safe running sums.  One
/// implementation exists per supported unsigned width; no signed or
/// floating-point element types participate.
pub trait NumConv: Sized {
    /// The element's value as a 64-bit unsigned integer.
    spec fn as_u64_spec(&self) -> u64;

    /// Promotes the element to the 64-bit accumulator type.
    fn as_u64(&self) -> (r: u64)
        ensures
            r == self.as_u64_spec(),
    ;
}

impl NumConv for u8 {
    open spec fn as_u64_spec(&self) -> u64 {
        *self as u64
    }

    fn as_u64(&self) -> (r: u64) {
        *self as u64
    }
}

impl NumConv for u16 {
    open spec fn as_u64_spec(&self) -> u64 {
        *self as u64
    }

    fn as_u64(&self) -> (r: u64) {
        *self as u64
    }
}

impl NumConv for u32 {
    open spec fn as_u64_spec(&self) -> u64 {
        *self as u64
    }

    fn as_u64(&self) -> (r: u64) {
        *self as u64
    }
}

impl NumConv for u64 {
    open spec fn as_u64_spec(&self) -> u64 {
        *self
    }

    fn as_u64(&self) -> (r: u64) {
        *self
    }
}

/// The mathematical sum of the promoted elements of `s`.
pub open spec fn sum_as_u64<T: NumConv>(s: Seq<T>) -> int
    decreases s.len(),
{
    if s.len() == 0 {
        0
    } else {
        sum_as_u64(s.drop_last()) + s.last().as_u64_spec()
    }
}

/// Sums every cell of a window into a 64-bit unsigned accumulator with
/// saturating addition: the result is the true sum of the promoted cells,
/// clamped to `u64::MAX`.  Because saturation is sticky, the clamp is exact
/// whatever order the cells are added in.
#[verifier::loop_isolation(false)]
pub fn window_sum_saturating<T: NumConv + Copy>(w: &Grid3<T>) -> (r: u64)
    ensures
        r as int == if sum_as_u64(w@.cells) > u64::MAX {
            u64::MAX as int
        } else {
            sum_as_u64(w@.cells)
        },
{
    let data = w.data();
    let mut acc: u64 = 0;
    let mut n: usize = 0;
    while n < data.len()
        invariant
            n <= data@.len(),
            acc as int == if sum_as_u64(data@.take(n as int)) > u64::MAX {
                u64::MAX as int
            } else {
                sum_as_u64(data@.take(n as int))
            },
        decreases data@.len() - n,
    {
        proof {
            assert(data@.take(n as int + 1).drop_last() =~= data@.take(n as int));
            assert(data@.take(n as int + 1).last() == data@[n as int]);
        }
        acc = acc.saturating_add(data[n].as_u64());
        n = n + 1;
    }
    proof {
        assert(data@.take(data@.len() as int) =~= data@);
    }
    acc
}

} // verus!
